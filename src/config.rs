//! Run-time policies: memorization round, answer tolerance, the deck ladder,
//! key bindings, special letters, and the due-date filter.
use std::collections::HashMap;
use vstd::prelude::*;
use crate::text::{all_digits, digits_value, is_digit, lemma_digits_value_nonneg};

verus! {

/// Whether new cards get an ungraded exposure first, and in which direction.
#[derive(Debug, PartialEq, Eq, Structural)]
pub struct MemorizationConfig {
    pub do_memorization_round: bool,
    pub memorization_reversed: bool,
}

impl Default for MemorizationConfig {
    fn default() -> (r: Self)
        ensures
            r.do_memorization_round,
            !r.memorization_reversed,
    {
        MemorizationConfig { do_memorization_round: true, memorization_reversed: false }
    }
}

/// How far a typed answer may stray from an accepted variant.
#[derive(Debug, PartialEq, Eq, Structural)]
pub struct ValidationConfig {
    pub error_tolerance: usize,
    pub tolerance_min_length: usize,
}

impl Default for ValidationConfig {
    fn default() -> (r: Self)
        ensures
            r.error_tolerance == 2,
            r.tolerance_min_length == 5,
    {
        ValidationConfig { error_tolerance: 2, tolerance_min_length: 5 }
    }
}

/// The keys of the review screen.
#[derive(Debug, PartialEq, Eq, Structural, Clone, Copy)]
pub struct KeybindsConfig {
    pub skip: char,
    pub accept_anyway: char,
    pub reject_anyway: char,
    pub force_quit: char,
    pub save_and_quit: char,
    pub edit_mode: char,
    pub help: char,
}

impl Default for KeybindsConfig {
    fn default() -> (r: Self)
        ensures
            r == (KeybindsConfig {
                skip: 's',
                accept_anyway: 'a',
                reject_anyway: 'r',
                force_quit: 'Q',
                save_and_quit: 'w',
                edit_mode: 'i',
                help: 'h',
            }),
    {
        KeybindsConfig {
            skip: 's',
            accept_anyway: 'a',
            reject_anyway: 'r',
            force_quit: 'Q',
            save_and_quit: 'w',
            edit_mode: 'i',
            help: 'h',
        }
    }
}

/// Special letters offered for one base letter.
#[derive(Debug)]
pub struct SpecialLettersConfig {
    pub base: String,
    pub special: Vec<String>,
}

/// Special letters, per target language.
#[derive(Debug, Default)]
pub struct SpecialLetters(pub HashMap<String, Vec<SpecialLettersConfig>>);

/// Seconds in a day, an hour and a minute.
pub const SECS_PER_DAY: u64 = 86400;
pub const SECS_PER_HOUR: u64 = 3600;
pub const SECS_PER_MINUTE: u64 = 60;

/// The longest interval, in seconds: the longest time span chrono's
/// `TimeDelta` holds.
pub const MAX_INTERVAL_SECS: u64 = 9223372036854775;

/// One rung of the deck ladder: a review interval in seconds.
#[derive(Debug, Clone, Copy, PartialEq, Eq, Structural)]
pub struct DeckInverval(pub u64);

/// An interval as a configuration file writes it: a number of days, or a
/// text such as `10d21h3m4s`.
#[derive(Debug)]
pub enum DeckIntervalSer {
    Days(u32),
    Complex(String),
}

/// Why an interval text was refused.
#[derive(Debug, Clone, Copy, PartialEq, Eq, Structural)]
pub enum IntervalParseError {
    InvalidFormat,
    InvalidNumber,
    InvalidUnit,
    ExpectedDigit,
}

impl IntervalParseError {
    pub fn message(&self) -> (r: String)
        ensures
            r@ == match self {
                IntervalParseError::InvalidFormat => "Invalid format"@,
                IntervalParseError::InvalidNumber => "Invalid number"@,
                IntervalParseError::InvalidUnit => "Invalid unit"@,
                IntervalParseError::ExpectedDigit => "Expected digit"@,
            },
    {
        match self {
            IntervalParseError::InvalidFormat => crate::text::owned("Invalid format"),
            IntervalParseError::InvalidNumber => crate::text::owned("Invalid number"),
            IntervalParseError::InvalidUnit => crate::text::owned("Invalid unit"),
            IntervalParseError::ExpectedDigit => crate::text::owned("Expected digit"),
        }
    }
}

/// Seconds per unit letter of an interval text.
pub open spec fn unit_secs(c: char) -> Option<u64> {
    if c == 'd' {
        Some(SECS_PER_DAY)
    } else if c == 'h' {
        Some(SECS_PER_HOUR)
    } else if c == 'm' {
        Some(SECS_PER_MINUTE)
    } else if c == 's' {
        Some(1)
    } else {
        None
    }
}

/// Reading an interval text left to right: the seconds summed so far and the
/// digits not yet closed by a unit, or the first error met.
pub open spec fn interval_scan(s: Seq<char>) -> Result<(int, Seq<char>), IntervalParseError>
    decreases s.len(),
{
    if s.len() == 0 {
        Ok((0, Seq::empty()))
    } else {
        match interval_scan(s.drop_last()) {
            Err(e) => Err(e),
            Ok((total, num)) => {
                let c = s.last();
                if is_digit(c) {
                    Ok((total, num.push(c)))
                } else if num.len() == 0 {
                    Err(IntervalParseError::ExpectedDigit)
                } else if digits_value(num) > u32::MAX {
                    Err(IntervalParseError::InvalidNumber)
                } else if unit_secs(c) is None {
                    Err(IntervalParseError::InvalidUnit)
                } else if total + digits_value(num) * unit_secs(c)->0 > MAX_INTERVAL_SECS {
                    Err(IntervalParseError::InvalidNumber)
                } else {
                    Ok((total + digits_value(num) * unit_secs(c)->0, Seq::empty()))
                }
            },
        }
    }
}

/// The seconds an interval text such as `10d21h3m4s` denotes: numbers each
/// closed by `d`, `h`, `m` or `s`, summed; the empty text is zero. A number
/// above `u32::MAX`, or a sum above `MAX_INTERVAL_SECS`, is an invalid number.
pub open spec fn interval_of(s: Seq<char>) -> Result<u64, IntervalParseError> {
    match interval_scan(s) {
        Err(e) => Err(e),
        Ok((total, num)) => if num.len() == 0 {
            Ok(total as u64)
        } else {
            Err(IntervalParseError::InvalidFormat)
        },
    }
}

/// Once the scan has failed, reading on does not change its error.
proof fn lemma_interval_scan_err_stays(s: Seq<char>, k: int)
    requires
        0 <= k <= s.len(),
        interval_scan(s.take(k)) is Err,
    ensures
        interval_scan(s) == interval_scan(s.take(k)),
    decreases s.len(),
{
    if k < s.len() {
        assert(s.drop_last().take(k) =~= s.take(k));
        lemma_interval_scan_err_stays(s.drop_last(), k);
    } else {
        assert(s.take(k) =~= s);
    }
}

/// Reads an interval text such as `10d21h3m4s` into seconds.
pub fn parse_complex_duration(complex: &str) -> (r: Result<u64, IntervalParseError>)
    ensures
        r == interval_of(complex@),
{
    let cs = crate::text::chars_of(complex);
    let mut total: u64 = 0;
    let mut num_len: usize = 0;
    let mut num_value: u64 = 0;
    let ghost mut num: Seq<char> = Seq::empty();
    let mut i: usize = 0;
    while i < cs.len()
        invariant
            cs@ == complex@,
            i <= cs.len(),
            interval_scan(complex@.take(i as int)) == Ok::<(int, Seq<char>), IntervalParseError>(
                (total as int, num),
            ),
            num.len() == num_len,
            num_len <= i,
            all_digits(num),
            num_value <= u32::MAX ==> num_value == digits_value(num),
            num_value > u32::MAX ==> digits_value(num) > u32::MAX,
            num_value <= u32::MAX + 1,
            total <= MAX_INTERVAL_SECS,
        decreases cs.len() - i,
    {
        let c = cs[i];
        assert(complex@.take(i + 1).drop_last() =~= complex@.take(i as int));
        assert(complex@.take(i + 1).last() == c);
        if '0' <= c && c <= '9' {
            proof {
                lemma_digits_value_nonneg(num);
                assert(forall|k: int| 0 <= k < num.len() ==> num.push(c)[k] == num[k]);
                assert(num.push(c).drop_last() =~= num);
                num = num.push(c);
            }
            num_len = num_len + 1;
            if num_value <= u32::MAX as u64 {
                num_value = num_value * 10 + (c as u64 - '0' as u64);
                if num_value > u32::MAX as u64 {
                    num_value = u32::MAX as u64 + 1;
                }
            }
        } else {
            if num_len == 0 {
                proof {
                    lemma_interval_scan_err_stays(complex@, i + 1);
                }
                return Err(IntervalParseError::ExpectedDigit);
            }
            if num_value > u32::MAX as u64 {
                proof {
                    lemma_interval_scan_err_stays(complex@, i + 1);
                }
                return Err(IntervalParseError::InvalidNumber);
            }
            let unit: u64 = if c == 'd' {
                SECS_PER_DAY
            } else if c == 'h' {
                SECS_PER_HOUR
            } else if c == 'm' {
                SECS_PER_MINUTE
            } else if c == 's' {
                1
            } else {
                proof {
                    lemma_interval_scan_err_stays(complex@, i + 1);
                }
                return Err(IntervalParseError::InvalidUnit);
            };
            assert(num_value * unit <= u32::MAX * SECS_PER_DAY) by (nonlinear_arith)
                requires
                    num_value <= u32::MAX,
                    unit <= SECS_PER_DAY,
            ;
            if num_value * unit > MAX_INTERVAL_SECS - total {
                proof {
                    lemma_interval_scan_err_stays(complex@, i + 1);
                }
                return Err(IntervalParseError::InvalidNumber);
            }
            total = total + num_value * unit;
            num_len = 0;
            num_value = 0;
            proof {
                num = Seq::empty();
            }
        }
        i += 1;
    }
    assert(complex@.take(i as int) =~= complex@);
    if num_len == 0 {
        Ok(total)
    } else {
        Err(IntervalParseError::InvalidFormat)
    }
}

impl DeckInverval {
    /// The interval that a configuration value denotes.
    pub open spec fn from_ser_spec(value: DeckIntervalSer) -> Result<DeckInverval, IntervalParseError> {
        match value {
            DeckIntervalSer::Days(days) => Ok(DeckInverval((days * SECS_PER_DAY) as u64)),
            DeckIntervalSer::Complex(text) => match interval_of(text@) {
                Ok(secs) => Ok(DeckInverval(secs)),
                Err(e) => Err(e),
            },
        }
    }

    /// Reads a configured interval: a day count, or an interval text.
    pub fn try_from(value: DeckIntervalSer) -> (r: Result<DeckInverval, IntervalParseError>)
        ensures
            r == DeckInverval::from_ser_spec(value),
    {
        match value {
            DeckIntervalSer::Days(days) => Ok(DeckInverval(days as u64 * SECS_PER_DAY)),
            DeckIntervalSer::Complex(text) => match parse_complex_duration(text.as_str()) {
                Ok(secs) => Ok(DeckInverval(secs)),
                Err(e) => Err(e),
            },
        }
    }
}

/// The deck ladder: the review interval of each deck, lowest deck first.
#[derive(Debug)]
pub struct DeckConfig {
    pub deck_intervals: Vec<DeckInverval>,
    pub change_deck_in_ignore_date: bool,
}

impl DeckConfig {
    /// A ladder that decks stored as `u8` can climb: one to 256 rungs.
    pub open spec fn is_ladder(&self) -> bool {
        1 <= self.deck_intervals@.len() <= 256
    }
}

impl Default for DeckConfig {
    fn default() -> (r: Self)
        ensures
            r.deck_intervals@ == seq![
                DeckInverval(0),
                DeckInverval(86400),
                DeckInverval(604800),
                DeckInverval(1209600),
                DeckInverval(2592000),
                DeckInverval(5184000),
                DeckInverval(7776000),
                DeckInverval(15552000),
                DeckInverval(31536000),
            ],
            !r.change_deck_in_ignore_date,
    {
        DeckConfig {
            deck_intervals: vec![
                DeckInverval(0),
                DeckInverval(SECS_PER_DAY),
                DeckInverval(7 * SECS_PER_DAY),
                DeckInverval(14 * SECS_PER_DAY),
                DeckInverval(30 * SECS_PER_DAY),
                DeckInverval(60 * SECS_PER_DAY),
                DeckInverval(90 * SECS_PER_DAY),
                DeckInverval(180 * SECS_PER_DAY),
                DeckInverval(365 * SECS_PER_DAY),
            ],
            change_deck_in_ignore_date: false,
        }
    }
}

/// All configured policies together.
#[derive(Debug, Default)]
pub struct AppConfig {
    pub memorization: MemorizationConfig,
    pub validation: ValidationConfig,
    pub deck_config: DeckConfig,
    pub special_letters: SpecialLetters,
    pub keybindings: KeybindsConfig,
}

/// Which cards a session takes, judged per card and direction.
#[derive(Debug, Clone, Copy, PartialEq, Eq, Structural)]
pub enum FilterMode {
    /// New cards, and seen cards whose due date has passed.
    Normal,
    /// Every card.
    All,
    /// Seen cards whose due date has passed.
    Seen,
    /// New cards only.
    Unseen,
}

/// Two or more of the filter flags were given.
#[derive(Debug, Clone, Copy, PartialEq, Eq, Structural)]
pub enum FilterModeError {
    ConflictingFlags,
}

impl FilterModeError {
    pub fn message(&self) -> (r: String)
        ensures
            r@ == "Only one of --only-seen, --only-unseen, or --ignore-date can be specified"@,
    {
        crate::text::owned("Only one of --only-seen, --only-unseen, or --ignore-date can be specified")
    }
}

impl FilterMode {
    /// The mode that at most one of the three flags selects.
    pub open spec fn from_flags_spec(only_seen: bool, only_unseen: bool, ignore_date: bool) -> Result<
        FilterMode,
        FilterModeError,
    > {
        if (only_seen as int) + (only_unseen as int) + (ignore_date as int) > 1 {
            Err(FilterModeError::ConflictingFlags)
        } else if only_seen {
            Ok(FilterMode::Seen)
        } else if only_unseen {
            Ok(FilterMode::Unseen)
        } else if ignore_date {
            Ok(FilterMode::All)
        } else {
            Ok(FilterMode::Normal)
        }
    }

    /// Picks the mode from the command-line flags, which exclude each other.
    pub fn try_from_flags(only_seen: bool, only_unseen: bool, ignore_date: bool) -> (r: Result<
        FilterMode,
        FilterModeError,
    >)
        ensures
            r == FilterMode::from_flags_spec(only_seen, only_unseen, ignore_date),
    {
        let mut count: u8 = 0;
        if only_seen {
            count = count + 1;
        }
        if only_unseen {
            count = count + 1;
        }
        if ignore_date {
            count = count + 1;
        }
        if count > 1 {
            return Err(FilterModeError::ConflictingFlags);
        }
        if only_seen {
            Ok(FilterMode::Seen)
        } else if only_unseen {
            Ok(FilterMode::Unseen)
        } else if ignore_date {
            Ok(FilterMode::All)
        } else {
            Ok(FilterMode::Normal)
        }
    }
}

} // verus!
