//! Cards and datasets: a word with its accepted variants, per-direction
//! scheduling metadata, the tab-separated line format, and whole datasets.
use vstd::prelude::*;
use crate::config::FilterMode;
use crate::text::{
    decimal, decimal_string, owned, split_fields, split_on, trim_str, trimmed, u8_of, parse_u8,
    views_of,
};
use crate::timestamp::{formatted_timestamp, parsed_timestamp, Timestamp};

verus! {

broadcast use vstd::seq_lib::group_seq_properties;

/// The views of a sequence of strings.
pub open spec fn strings_view(v: Seq<String>) -> Seq<Seq<char>> {
    v.map_values(|s: String| s@)
}

/// Where the pattern `\(.*\)` matches within one line (a text without `\n`):
/// from the first `(` to the last `)`, if that `)` comes after it.
pub open spec fn line_bracket(line: Seq<char>) -> Option<(int, int)> {
    match (line.index_of_first('('), line.index_of_last(')')) {
        (Some(i), Some(j)) => if i < j {
            Some((i, j))
        } else {
            None
        },
        _ => None,
    }
}

/// One line with its bracketed segment, if any, cut out.
pub open spec fn strip_line_bracket(line: Seq<char>) -> Seq<char> {
    match line_bracket(line) {
        Some((i, j)) => line.take(i) + line.skip(j + 1),
        None => line,
    }
}

/// The pieces joined again, with `sep` between each two.
pub open spec fn join_on(parts: Seq<Seq<char>>, sep: char) -> Seq<char>
    decreases parts.len(),
{
    if parts.len() == 0 {
        Seq::empty()
    } else if parts.len() == 1 {
        parts[0]
    } else {
        join_on(parts.drop_last(), sep).push(sep) + parts.last()
    }
}

/// Whether `\(.*\)` matches somewhere in `s`: `.` takes any character but `\n`.
pub open spec fn has_bracket(s: Seq<char>) -> bool {
    exists|k: int|
        0 <= k < split_on(s, '\n').len() && (#[trigger] line_bracket(split_on(s, '\n')[k])) is Some
}

/// `s` with every match of `\(.*\)` removed: on each line, the text from the
/// first `(` to the last `)` after it.
pub open spec fn without_brackets(s: Seq<char>) -> Seq<char> {
    join_on(split_on(s, '\n').map_values(|l: Seq<char>| strip_line_bracket(l)), '\n')
}

/// Relies on regex's `Regex::new(r"\(.*\)")` and `Regex::find`: a match is a
/// `(` followed, on the same line, by a `)`.
#[verifier::external_body]
fn bracket_found(s: &str) -> (r: bool)
    ensures
        r == has_bracket(s@),
{
    regex::Regex::new(r"\(.*\)").expect("Failed to compile bracket regex").find(s).is_some()
}

/// Relies on regex's `Regex::replace_all` with the pattern `\(.*\)` and an
/// empty replacement: matches are leftmost-first and greedy, so on each line
/// the text from the first `(` to the last `)` after it goes.
#[verifier::external_body]
fn bracket_removed(s: &str) -> (r: String)
    ensures
        r@ == without_brackets(s@),
{
    regex::Regex::new(r"\(.*\)").expect("Failed to compile bracket regex").replace_all(s, "").into_owned()
}

/// A word as shown, with the answers accepted for it.
#[derive(Debug, Clone)]
pub struct VocabWord {
    pub base: String,
    pub variants: Vec<String>,
}

pub struct WordView {
    pub base: Seq<char>,
    pub variants: Seq<Seq<char>>,
}

impl View for VocabWord {
    type V = WordView;

    open spec fn view(&self) -> WordView {
        WordView { base: self.base@, variants: strings_view(self.variants@) }
    }
}

/// The trimmed comma-separated parts of `s`, when it has a comma.
pub open spec fn comma_variants(s: Seq<char>) -> Seq<Seq<char>> {
    let parts = split_on(s, ',');
    if parts.len() > 1 {
        parts.map_values(|p: Seq<char>| trimmed(p))
    } else {
        Seq::empty()
    }
}

pub open spec fn bracket_pred() -> spec_fn(Seq<char>) -> bool {
    |v: Seq<char>| has_bracket(v)
}

/// For each of `vs` that holds a bracketed segment, that variant without it, trimmed.
pub open spec fn bracket_variants(vs: Seq<Seq<char>>) -> Seq<Seq<char>> {
    vs.filter(bracket_pred()).map_values(|v: Seq<char>| trimmed(without_brackets(v)))
}

/// The word that a field of a data line denotes: the text itself, then its
/// comma-separated parts, then each of those without its bracketed segment.
pub open spec fn word_of(s: Seq<char>) -> WordView {
    let first = seq![s] + comma_variants(s);
    WordView { base: s, variants: first + bracket_variants(first) }
}

impl VocabWord {
    /// Reads a word field, deriving its accepted variants.
    pub fn from_str(s: &str) -> (r: VocabWord)
        ensures
            r@ == word_of(s@),
    {
        let base = owned(s);
        let mut variants: Vec<String> = Vec::new();
        variants.push(owned(s));
        let parts = split_fields(s, ',');
        let ghost parts_view = views_of(parts@);
        if parts.len() > 1 {
            let mut k: usize = 0;
            while k < parts.len()
                invariant
                    parts_view == views_of(parts@),
                    parts_view == split_on(s@, ','),
                    k <= parts.len(),
                    strings_view(variants@) == seq![s@] + parts_view.take(k as int).map_values(
                        |p: Seq<char>| trimmed(p),
                    ),
                decreases parts.len() - k,
            {
                let ghost before = variants@;
                let t = trim_str(parts[k]);
                variants.push(owned(t));
                assert(parts_view.take(k + 1) =~= parts_view.take(k as int).push(parts_view[k as int]));
                assert(strings_view(variants@) =~= strings_view(before).push(trimmed(parts_view[k as int])));
                assert(strings_view(variants@) =~= seq![s@] + parts_view.take(k + 1).map_values(
                    |p: Seq<char>| trimmed(p),
                ));
                k += 1;
            }
            assert(parts_view.take(k as int) =~= parts_view);
        } else {
            assert(strings_view(variants@) =~= seq![s@] + comma_variants(s@));
        }
        let ghost first = strings_view(variants@);
        assert(first =~= seq![s@] + comma_variants(s@));
        let first_len = variants.len();
        let mut extra: Vec<String> = Vec::new();
        let mut k: usize = 0;
        while k < first_len
            invariant
                first_len == variants@.len(),
                first == strings_view(variants@),
                k <= first_len,
                strings_view(extra@) == first.take(k as int).filter(bracket_pred()).map_values(
                    |v: Seq<char>| trimmed(without_brackets(v)),
                ),
            decreases first_len - k,
        {
            assert(first.take(k + 1) =~= first.take(k as int).push(first[k as int]));
            proof {
                first.take(k as int).lemma_filter_push(first[k as int], bracket_pred());
            }
            let ghost before = extra@;
            if bracket_found(variants[k].as_str()) {
                let removed = bracket_removed(variants[k].as_str());
                let t = trim_str(removed.as_str());
                extra.push(owned(t));
                assert(strings_view(extra@) =~= strings_view(before).push(
                    trimmed(without_brackets(first[k as int])),
                ));
            }
            assert(strings_view(extra@) =~= first.take(k + 1).filter(bracket_pred()).map_values(
                |v: Seq<char>| trimmed(without_brackets(v)),
            ));
            k += 1;
        }
        assert(first.take(k as int) =~= first);
        let ghost extra_view = strings_view(extra@);
        variants.append(&mut extra);
        assert(strings_view(variants@) =~= first + extra_view);
        VocabWord { base, variants }
    }
}

/// Scheduling state of a card that has been seen: a deck and a due instant
/// for each direction.
#[derive(Debug, Clone, Copy, PartialEq, Eq, Structural)]
pub struct VocabMetadata {
    pub due_date: Timestamp,
    pub deck: u8,
    pub due_date_reverse: Timestamp,
    pub deck_reverse: u8,
}

impl VocabMetadata {
    /// Seen, but not yet scheduled: deck 0 and already due in both directions.
    pub open spec fn default_spec() -> VocabMetadata {
        VocabMetadata {
            due_date: Timestamp::min_spec(),
            deck: 0,
            due_date_reverse: Timestamp::min_spec(),
            deck_reverse: 0,
        }
    }

    /// The deck of one direction.
    pub open spec fn deck_of(self, reverse: bool) -> u8 {
        if reverse {
            self.deck_reverse
        } else {
            self.deck
        }
    }

    /// The due instant of one direction.
    pub open spec fn due_of(self, reverse: bool) -> Timestamp {
        if reverse {
            self.due_date_reverse
        } else {
            self.due_date
        }
    }
}

impl Default for VocabMetadata {
    fn default() -> (r: Self)
        ensures
            r == VocabMetadata::default_spec(),
    {
        VocabMetadata {
            due_date: Timestamp::min(),
            deck: 0,
            due_date_reverse: Timestamp::min(),
            deck_reverse: 0,
        }
    }
}

/// A word pair, with its scheduling state once it has been seen.
#[derive(Debug, Clone)]
pub struct Vocab {
    pub word_a: VocabWord,
    pub word_b: VocabWord,
    pub metadata: Option<VocabMetadata>,
}

pub struct CardView {
    pub word_a: WordView,
    pub word_b: WordView,
    pub metadata: Option<VocabMetadata>,
}

impl View for Vocab {
    type V = CardView;

    open spec fn view(&self) -> CardView {
        CardView { word_a: self.word_a@, word_b: self.word_b@, metadata: self.metadata }
    }
}

/// Whether a card with metadata `meta` is due in one direction under `mode`.
pub open spec fn due_spec(
    meta: Option<VocabMetadata>,
    reverse: bool,
    mode: FilterMode,
    now: Timestamp,
) -> bool {
    match mode {
        FilterMode::All => true,
        FilterMode::Unseen => meta is None,
        FilterMode::Seen | FilterMode::Normal => match meta {
            Some(m) => m.due_of(reverse).secs < now.secs,
            None => mode == FilterMode::Normal,
        },
    }
}

/// Metadata after one direction moves to `deck`, due at `due`; a new card
/// starts from the default state.
pub open spec fn with_deck(
    meta: Option<VocabMetadata>,
    deck: u8,
    due: Timestamp,
    reverse: bool,
) -> VocabMetadata {
    let m = match meta {
        Some(m) => m,
        None => VocabMetadata::default_spec(),
    };
    if reverse {
        VocabMetadata { deck_reverse: deck, due_date_reverse: due, ..m }
    } else {
        VocabMetadata { deck, due_date: due, ..m }
    }
}

/// The metadata that fields 3 to 6 of a data line denote; `f` has at least three fields.
pub open spec fn metadata_of_fields(f: Seq<Seq<char>>) -> Result<VocabMetadata, VocaLineError> {
    match u8_of(f[2]) {
        None => Err(VocaLineError::InvalidDeck),
        Some(deck) => if f.len() < 4 {
            Err(VocaLineError::MissingDueDate)
        } else {
            match parsed_timestamp(f[3]) {
                None => Err(VocaLineError::InvalidDueDate),
                Some(due) => if f.len() < 5 {
                    Err(VocaLineError::MissingDeck)
                } else {
                    match u8_of(f[4]) {
                        None => Err(VocaLineError::InvalidDeck),
                        Some(deck_reverse) => if f.len() < 6 {
                            Err(VocaLineError::MissingDueDate)
                        } else {
                            match parsed_timestamp(f[5]) {
                                None => Err(VocaLineError::InvalidDueDate),
                                Some(due_reverse) => Ok(
                                    VocabMetadata {
                                        due_date: Timestamp { secs: due },
                                        deck,
                                        due_date_reverse: Timestamp { secs: due_reverse },
                                        deck_reverse,
                                    },
                                ),
                            }
                        },
                    }
                },
            }
        },
    }
}

/// The card that a tab-separated data line denotes: two words, then either
/// nothing or deck, due date, reverse deck and reverse due date.
pub open spec fn card_of_line(line: Seq<char>) -> Result<CardView, VocaLineError> {
    let f = split_on(line, '\t');
    if f.len() < 1 {
        Err(VocaLineError::MissingWordA)
    } else if f.len() < 2 {
        Err(VocaLineError::MissingWordB)
    } else if f.len() == 2 {
        Ok(CardView { word_a: word_of(f[0]), word_b: word_of(f[1]), metadata: None })
    } else {
        match metadata_of_fields(f) {
            Ok(m) => Ok(CardView { word_a: word_of(f[0]), word_b: word_of(f[1]), metadata: Some(m) }),
            Err(e) => Err(e),
        }
    }
}

/// The data line that a card is written as.
pub open spec fn line_of_card(c: CardView) -> Seq<char> {
    match c.metadata {
        Some(m) => c.word_a.base + seq!['\t'] + c.word_b.base + seq!['\t'] + decimal(m.deck as nat)
            + seq!['\t'] + formatted_timestamp(m.due_date.secs) + seq!['\t'] + decimal(
            m.deck_reverse as nat,
        ) + seq!['\t'] + formatted_timestamp(m.due_date_reverse.secs),
        None => c.word_a.base + seq!['\t'] + c.word_b.base,
    }
}

impl Vocab {
    /// Whether the card is due in one direction under `filter_mode` at `current_date`.
    pub fn is_due(&self, reverse: bool, filter_mode: FilterMode, current_date: Timestamp) -> (r:
        bool)
        ensures
            r == due_spec(self.metadata, reverse, filter_mode, current_date),
    {
        match filter_mode {
            FilterMode::All => true,
            FilterMode::Unseen => self.metadata.is_none(),
            FilterMode::Seen | FilterMode::Normal => {
                match &self.metadata {
                    Some(metadata) => {
                        if reverse {
                            metadata.due_date_reverse.secs < current_date.secs
                        } else {
                            metadata.due_date.secs < current_date.secs
                        }
                    },
                    None => match filter_mode {
                        FilterMode::Normal => true,
                        _ => false,
                    },
                }
            },
        }
    }

    /// Moves one direction to `deck`, due at `due_date`.
    pub fn update_metadata(&mut self, deck: u8, due_date: Timestamp, reverse: bool)
        ensures
            final(self).word_a == old(self).word_a,
            final(self).word_b == old(self).word_b,
            final(self).metadata == Some(with_deck(old(self).metadata, deck, due_date, reverse)),
    {
        let m = match self.metadata {
            Some(m) => m,
            None => VocabMetadata::default(),
        };
        if reverse {
            self.metadata = Some(VocabMetadata { deck_reverse: deck, due_date_reverse: due_date, ..m });
        } else {
            self.metadata = Some(VocabMetadata { deck, due_date, ..m });
        }
    }

    /// The deck of one direction, if the card has been seen.
    pub fn get_deck(&self, reverse: bool) -> (r: Option<u8>)
        ensures
            r == (match self.metadata {
                Some(m) => Some(m.deck_of(reverse)),
                None => None,
            }),
    {
        match &self.metadata {
            Some(metadata) => {
                if reverse {
                    Some(metadata.deck_reverse)
                } else {
                    Some(metadata.deck)
                }
            },
            None => None,
        }
    }

    /// Reads one data line.
    pub fn from_line(line: &str) -> (r: Result<Vocab, VocaLineError>)
        ensures
            match r {
                Ok(card) => card_of_line(line@) == Ok::<CardView, VocaLineError>(card@),
                Err(e) => card_of_line(line@) == Err::<CardView, VocaLineError>(e),
            },
    {
        let parts = split_fields(line, '\t');
        if parts.len() < 1 {
            return Err(VocaLineError::MissingWordA);
        }
        if parts.len() < 2 {
            return Err(VocaLineError::MissingWordB);
        }
        let word_a = VocabWord::from_str(parts[0]);
        let word_b = VocabWord::from_str(parts[1]);
        if parts.len() == 2 {
            return Ok(Vocab { word_a, word_b, metadata: None });
        }
        let deck = match parse_u8(parts[2]) {
            Some(d) => d,
            None => {
                return Err(VocaLineError::InvalidDeck);
            },
        };
        if parts.len() < 4 {
            return Err(VocaLineError::MissingDueDate);
        }
        let due_date = match Timestamp::parse(parts[3]) {
            Some(t) => t,
            None => {
                return Err(VocaLineError::InvalidDueDate);
            },
        };
        if parts.len() < 5 {
            return Err(VocaLineError::MissingDeck);
        }
        let deck_reverse = match parse_u8(parts[4]) {
            Some(d) => d,
            None => {
                return Err(VocaLineError::InvalidDeck);
            },
        };
        if parts.len() < 6 {
            return Err(VocaLineError::MissingDueDate);
        }
        let due_date_reverse = match Timestamp::parse(parts[5]) {
            Some(t) => t,
            None => {
                return Err(VocaLineError::InvalidDueDate);
            },
        };
        Ok(
            Vocab {
                word_a,
                word_b,
                metadata: Some(VocabMetadata { due_date, deck, due_date_reverse, deck_reverse }),
            },
        )
    }

    /// Writes the card as a data line.
    pub fn to_line(&self) -> (r: String)
        ensures
            r@ == line_of_card(self@),
    {
        proof {
            reveal_strlit("\t");
        }
        let line = self.word_a.base.clone().concat("\t").concat(self.word_b.base.as_str());
        match &self.metadata {
            Some(m) => {
                let deck = decimal_string(m.deck as u64);
                let due = m.due_date.format();
                let deck_reverse = decimal_string(m.deck_reverse as u64);
                let due_reverse = m.due_date_reverse.format();
                line.concat("\t").concat(deck.as_str()).concat("\t").concat(due.as_str()).concat(
                    "\t",
                ).concat(deck_reverse.as_str()).concat("\t").concat(due_reverse.as_str())
            },
            None => line,
        }
    }
}

/// Why a data line was refused.
#[derive(Debug, Clone, Copy, PartialEq, Eq, Structural)]
pub enum VocaLineError {
    MissingWordA,
    MissingWordB,
    MissingDeck,
    MissingDueDate,
    InvalidDueDate,
    InvalidDeck,
}

impl VocaLineError {
    pub open spec fn message_spec(self) -> Seq<char> {
        match self {
            VocaLineError::MissingWordA => "Missing word A"@,
            VocaLineError::MissingWordB => "Missing word B"@,
            VocaLineError::MissingDeck => "Missing deck"@,
            VocaLineError::MissingDueDate => "Missing due date"@,
            VocaLineError::InvalidDueDate => "Invalid due date"@,
            VocaLineError::InvalidDeck => "Invalid deck"@,
        }
    }

    /// The reason, as a sentence.
    pub fn message(&self) -> (r: String)
        ensures
            r@ == self.message_spec(),
    {
        match self {
            VocaLineError::MissingWordA => owned("Missing word A"),
            VocaLineError::MissingWordB => owned("Missing word B"),
            VocaLineError::MissingDeck => owned("Missing deck"),
            VocaLineError::MissingDueDate => owned("Missing due date"),
            VocaLineError::InvalidDueDate => owned("Invalid due date"),
            VocaLineError::InvalidDeck => owned("Invalid deck"),
        }
    }

    /// The same error, placed at a line of a file.
    pub fn to_parse_error(&self, filename: &str, line: usize) -> (r: VocaParseError)
        ensures
            r@ == (ParseErrorView::InvalidFormat {
                filename: filename@,
                line: line as int,
                reason: self.message_spec(),
            }),
    {
        VocaParseError::InvalidFormat { filename: owned(filename), line, reason: self.message() }
    }
}

/// The cards of one file, in file order, with the file's path and the two
/// language names of its header.
#[derive(Debug, Clone)]
pub struct VocaCardDataset {
    pub cards: Vec<Vocab>,
    pub file_path: String,
    pub lang_a: String,
    pub lang_b: String,
}

pub struct DatasetView {
    pub cards: Seq<CardView>,
    pub file_path: Seq<char>,
    pub lang_a: Seq<char>,
    pub lang_b: Seq<char>,
}

/// The views of a sequence of cards.
pub open spec fn cards_view(v: Seq<Vocab>) -> Seq<CardView> {
    v.map_values(|c: Vocab| c@)
}

impl View for VocaCardDataset {
    type V = DatasetView;

    open spec fn view(&self) -> DatasetView {
        DatasetView {
            cards: cards_view(self.cards@),
            file_path: self.file_path@,
            lang_a: self.lang_a@,
            lang_b: self.lang_b@,
        }
    }
}

/// A line with nothing but white space.
pub open spec fn is_blank(line: Seq<char>) -> bool {
    trimmed(line).len() == 0
}

/// The index of the first non-empty line at or after `k`.
pub open spec fn first_nonempty_from(lines: Seq<Seq<char>>, k: int) -> Option<int>
    decreases lines.len() - k,
{
    if k < 0 || k >= lines.len() {
        None
    } else if lines[k].len() > 0 {
        Some(k)
    } else {
        first_nonempty_from(lines, k + 1)
    }
}

/// Reading the data lines `start .. end`: the cards of the non-blank ones, or
/// the index and reason of the first line refused.
pub open spec fn cards_scan(lines: Seq<Seq<char>>, start: int, end: int) -> Result<
    Seq<CardView>,
    (int, VocaLineError),
>
    decreases end - start,
{
    if end <= start {
        Ok(Seq::empty())
    } else {
        match cards_scan(lines, start, end - 1) {
            Err(x) => Err(x),
            Ok(cs) => if is_blank(lines[end - 1]) {
                Ok(cs)
            } else {
                match card_of_line(lines[end - 1]) {
                    Err(e) => Err((end - 1, e)),
                    Ok(c) => Ok(cs.push(c)),
                }
            },
        }
    }
}

/// The dataset that the lines of a file denote: the first non-empty line is
/// the header, two language names split by a tab; each later non-blank line
/// is a card. Line numbers in errors count from 1.
pub open spec fn dataset_of_lines(path: Seq<char>, lines: Seq<Seq<char>>) -> Result<
    DatasetView,
    ParseErrorView,
> {
    match first_nonempty_from(lines, 0) {
        None => Err(ParseErrorView::EmptyFile { filename: path }),
        Some(h) => {
            let header = split_on(lines[h], '\t');
            if header.len() < 2 {
                Err(
                    ParseErrorView::InvalidFormat {
                        filename: path,
                        line: h + 1,
                        reason: "Expected second column"@,
                    },
                )
            } else {
                match cards_scan(lines, h + 1, lines.len() as int) {
                    Err((k, e)) => Err(
                        ParseErrorView::InvalidFormat {
                            filename: path,
                            line: k + 1,
                            reason: e.message_spec(),
                        },
                    ),
                    Ok(cards) => Ok(
                        DatasetView { cards, file_path: path, lang_a: header[0], lang_b: header[1] },
                    ),
                }
            }
        },
    }
}

/// The view of a load result.
pub open spec fn load_view(r: Result<VocaCardDataset, VocaParseError>) -> Result<
    DatasetView,
    ParseErrorView,
> {
    match r {
        Ok(d) => Ok(d@),
        Err(e) => Err(e@),
    }
}

/// The data lines of the cards, one each.
pub open spec fn lines_of_cards(cs: Seq<CardView>) -> Seq<Seq<char>> {
    cs.map_values(|c: CardView| line_of_card(c))
}

/// The lines a dataset is written as: the header, then one line per card.
pub open spec fn lines_of_dataset(d: DatasetView) -> Seq<Seq<char>> {
    seq![d.lang_a + seq!['\t'] + d.lang_b] + lines_of_cards(d.cards)
}

proof fn lemma_cards_scan_err_stays(lines: Seq<Seq<char>>, start: int, k: int, end: int)
    requires
        start <= k <= end,
        cards_scan(lines, start, k) is Err,
    ensures
        cards_scan(lines, start, end) == cards_scan(lines, start, k),
    decreases end - k,
{
    if k < end {
        lemma_cards_scan_err_stays(lines, start, k, end - 1);
    }
}

impl VocaCardDataset {
    /// Reads a dataset from the lines of the file at `file_path`.
    pub fn from_lines(file_path: &str, lines: &Vec<String>) -> (r: Result<
        VocaCardDataset,
        VocaParseError,
    >)
        ensures
            load_view(r) == dataset_of_lines(file_path@, strings_view(lines@)),
    {
        let ghost lv = strings_view(lines@);
        let mut h: usize = 0;
        while h < lines.len() && lines[h].as_str().is_empty()
            invariant
                lv == strings_view(lines@),
                h <= lines.len(),
                first_nonempty_from(lv, 0) == first_nonempty_from(lv, h as int),
            decreases lines.len() - h,
        {
            h += 1;
        }
        if h == lines.len() {
            return Err(VocaParseError::EmptyFile { filename: owned(file_path) });
        }
        let header = split_fields(lines[h].as_str(), '\t');
        assert(views_of(header@).len() == header@.len());
        if header.len() < 2 {
            return Err(
                VocaParseError::InvalidFormat {
                    filename: owned(file_path),
                    line: h + 1,
                    reason: owned("Expected second column"),
                },
            );
        }
        let lang_a = owned(header[0]);
        let lang_b = owned(header[1]);
        let mut cards: Vec<Vocab> = Vec::new();
        let mut i: usize = h + 1;
        assert(cards_view(cards@) =~= Seq::<CardView>::empty());
        let ghost hf = split_on(lv[h as int], '\t');
        assert(hf == views_of(header@));
        while i < lines.len()
            invariant
                lv == strings_view(lines@),
                h < i <= lines.len(),
                first_nonempty_from(lv, 0) == Some(h as int),
                hf == split_on(lv[h as int], '\t'),
                hf.len() >= 2,
                lang_a@ == hf[0],
                lang_b@ == hf[1],
                cards_scan(lv, h + 1, i as int) == Ok::<Seq<CardView>, (int, VocaLineError)>(
                    cards_view(cards@),
                ),
            decreases lines.len() - i,
        {
            let line = lines[i].as_str();
            let blank = trim_str(line).is_empty();
            if !blank {
                match Vocab::from_line(line) {
                    Ok(card) => {
                        let ghost before = cards@;
                        cards.push(card);
                        assert(cards_view(cards@) =~= cards_view(before).push(card@));
                    },
                    Err(e) => {
                        proof {
                            lemma_cards_scan_err_stays(lv, h + 1, i + 1, lv.len() as int);
                        }
                        return Err(e.to_parse_error(file_path, i + 1));
                    },
                }
            }
            i += 1;
        }
        Ok(VocaCardDataset { cards, file_path: owned(file_path), lang_a, lang_b })
    }

    /// The lines the dataset is written as.
    pub fn to_lines(&self) -> (r: Vec<String>)
        ensures
            strings_view(r@) == lines_of_dataset(self@),
    {
        proof {
            reveal_strlit("\t");
        }
        assert("\t"@ =~= seq!['\t']);
        let mut r: Vec<String> = Vec::new();
        let header = self.lang_a.clone().concat("\t").concat(self.lang_b.as_str());
        assert(header@ =~= self@.lang_a + seq!['\t'] + self@.lang_b);
        r.push(header);
        let mut k: usize = 0;
        assert(strings_view(r@) =~= seq![self@.lang_a + seq!['\t'] + self@.lang_b] + lines_of_cards(
            cards_view(self.cards@).take(0),
        ));
        while k < self.cards.len()
            invariant
                k <= self.cards@.len(),
                strings_view(r@) == seq![self@.lang_a + seq!['\t'] + self@.lang_b] + lines_of_cards(
                    cards_view(self.cards@).take(k as int),
                ),
            decreases self.cards@.len() - k,
        {
            let ghost before = r@;
            r.push(self.cards[k].to_line());
            assert(cards_view(self.cards@).take(k + 1) =~= cards_view(self.cards@).take(
                k as int,
            ).push(self.cards@[k as int]@));
            assert(strings_view(r@) =~= strings_view(before).push(line_of_card(self.cards@[k as int]@)));
            assert(strings_view(r@) =~= seq![self@.lang_a + seq!['\t'] + self@.lang_b] + lines_of_cards(
                cards_view(self.cards@).take(k + 1),
            ));
            k += 1;
        }
        assert(cards_view(self.cards@).take(k as int) =~= cards_view(self.cards@));
        r
    }
}

proof fn lemma_join_extend_last(p: Seq<Seq<char>>, sep: char, c: char)
    requires
        p.len() >= 1,
    ensures
        join_on(p.update(p.len() - 1, p.last().push(c)), sep) == join_on(p, sep).push(c),
{
    let q = p.update(p.len() - 1, p.last().push(c));
    if p.len() > 1 {
        assert(q.drop_last() =~= p.drop_last());
        assert(join_on(q, sep) =~= join_on(p, sep).push(c));
    }
}

proof fn lemma_join_step(p: Seq<Seq<char>>, sep: char)
    requires
        p.len() >= 2,
    ensures
        join_on(p, sep) == join_on(p.drop_last(), sep) + seq![sep] + p.last(),
{
    assert(join_on(p, sep) =~= join_on(p.drop_last(), sep) + seq![sep] + p.last());
}

proof fn lemma_join_push_empty(p: Seq<Seq<char>>, sep: char)
    requires
        p.len() >= 1,
    ensures
        join_on(p.push(Seq::empty()), sep) == join_on(p, sep).push(sep),
{
    assert(p.push(Seq::empty()).drop_last() =~= p);
    assert(join_on(p.push(Seq::empty()), sep) =~= join_on(p, sep).push(sep));
}

/// Joining the pieces of a split with the same separator gives the text back.
pub proof fn lemma_join_split(s: Seq<char>, sep: char)
    ensures
        join_on(split_on(s, sep), sep) == s,
    decreases s.len(),
{
    if s.len() == 0 {
        assert(join_on(split_on(s, sep), sep) =~= s);
    } else {
        let init = split_on(s.drop_last(), sep);
        lemma_join_split(s.drop_last(), sep);
        crate::text::lemma_split_on_nonempty(s.drop_last(), sep);
        if s.last() == sep {
            lemma_join_push_empty(init, sep);
        } else {
            lemma_join_extend_last(init, sep, s.last());
        }
        assert(s.drop_last().push(s.last()) =~= s);
    }
}

/// A deck field as the writer writes it: plain decimal digits.
pub open spec fn canonical_deck(field: Seq<char>) -> bool {
    u8_of(field) matches Some(d) && decimal(d as nat) == field
}

/// A timestamp field as the writer writes it.
pub open spec fn canonical_timestamp(field: Seq<char>) -> bool {
    parsed_timestamp(field) matches Some(t) && formatted_timestamp(t) == field
}

/// A data line as the writer writes it: two words, or two words and four
/// metadata fields each in written form.
pub open spec fn written_data_line(line: Seq<char>) -> bool {
    let f = split_on(line, '\t');
    f.len() == 2 || (f.len() == 6 && canonical_deck(f[2]) && canonical_timestamp(f[3])
        && canonical_deck(f[4]) && canonical_timestamp(f[5]))
}

/// Whether a line holds more than white space.
pub open spec fn not_blank() -> spec_fn(Seq<char>) -> bool {
    |l: Seq<char>| !is_blank(l)
}

/// The lines of a file whose header has exactly two names and whose
/// non-blank data lines are all in written form; blank lines may stand
/// anywhere.
pub open spec fn written_lines(lines: Seq<Seq<char>>) -> bool {
    &&& first_nonempty_from(lines, 0) is Some
    &&& split_on(lines[first_nonempty_from(lines, 0)->0], '\t').len() == 2
    &&& forall|k: int|
        first_nonempty_from(lines, 0)->0 < k < lines.len() && !is_blank(#[trigger] lines[k])
            ==> written_data_line(lines[k])
}

proof fn lemma_join_two(f: Seq<Seq<char>>)
    requires
        f.len() == 2,
    ensures
        join_on(f, '\t') == f[0] + seq!['\t'] + f[1],
{
    lemma_join_step(f, '\t');
    assert(join_on(f.drop_last(), '\t') == f[0]);
}

proof fn lemma_join_six(f: Seq<Seq<char>>)
    requires
        f.len() == 6,
    ensures
        join_on(f, '\t') == f[0] + seq!['\t'] + f[1] + seq!['\t'] + f[2] + seq!['\t'] + f[3]
            + seq!['\t'] + f[4] + seq!['\t'] + f[5],
{
    let f5 = f.drop_last();
    let f4 = f5.drop_last();
    let f3 = f4.drop_last();
    let f2 = f3.drop_last();
    lemma_join_step(f, '\t');
    lemma_join_step(f5, '\t');
    lemma_join_step(f4, '\t');
    lemma_join_step(f3, '\t');
    lemma_join_two(f2);
}

/// A data line in written form reads as a card that is written back as the
/// same line: its six fields for a card with metadata, its two words for a
/// new card.
#[verifier::rlimit(40)]
pub proof fn lemma_line_round_trip(line: Seq<char>)
    requires
        written_data_line(line),
    ensures
        card_of_line(line) matches Ok(c) && line_of_card(c) == line,
{
    let f = split_on(line, '\t');
    lemma_join_split(line, '\t');
    if f.len() == 2 {
        lemma_join_two(f);
    } else {
        lemma_join_six(f);
        let m = metadata_of_fields(f)->Ok_0;
        assert(decimal(m.deck as nat) == f[2]);
        assert(formatted_timestamp(m.due_date.secs) == f[3]);
        assert(decimal(m.deck_reverse as nat) == f[4]);
        assert(formatted_timestamp(m.due_date_reverse.secs) == f[5]);
    }
}

proof fn lemma_cards_round_trip(lines: Seq<Seq<char>>, start: int, end: int)
    requires
        1 <= start <= end <= lines.len(),
        forall|k: int| start <= k < lines.len() && !is_blank(#[trigger] lines[k])
            ==> written_data_line(lines[k]),
    ensures
        cards_scan(lines, start, end) matches Ok(cs) && lines_of_cards(cs) == lines.subrange(
            start,
            end,
        ).filter(not_blank()),
    decreases end - start,
{
    if end > start {
        lemma_cards_round_trip(lines, start, end - 1);
        let cs = cards_scan(lines, start, end - 1)->Ok_0;
        let l = lines[end - 1];
        let before = lines.subrange(start, end - 1);
        assert(lines.subrange(start, end) =~= before.push(l));
        before.lemma_filter_push(l, not_blank());
        if !is_blank(l) {
            lemma_line_round_trip(l);
            let c = card_of_line(l)->Ok_0;
            assert(cards_scan(lines, start, end) == Ok::<Seq<CardView>, (int, VocaLineError)>(
                cs.push(c),
            ));
            assert(lines_of_cards(cs.push(c)) =~= lines_of_cards(cs).push(l));
        }
    } else {
        assert(lines.subrange(start, start) =~= Seq::<Seq<char>>::empty());
        assert(Seq::<Seq<char>>::empty().filter(not_blank()) =~= Seq::<Seq<char>>::empty()) by {
            reveal(Seq::filter);
        }
        assert(lines_of_cards(Seq::<CardView>::empty()) =~= Seq::<Seq<char>>::empty());
    }
}

/// Loading a file whose lines are in written form and writing the dataset
/// back gives its header line, then every non-blank data line unchanged in
/// file order: each card with metadata as its six fields, each new card as
/// its two words. Only blank lines are dropped.
pub proof fn lemma_lines_round_trip(path: Seq<char>, lines: Seq<Seq<char>>)
    requires
        written_lines(lines),
    ensures
        ({
            let h = first_nonempty_from(lines, 0)->0;
            dataset_of_lines(path, lines) matches Ok(d) && lines_of_dataset(d) == seq![lines[h]]
                + lines.subrange(h + 1, lines.len() as int).filter(not_blank())
        }),
{
    let h = first_nonempty_from(lines, 0)->0;
    lemma_first_nonempty_bounds(lines, 0);
    lemma_cards_round_trip(lines, h + 1, lines.len() as int);
    let header = split_on(lines[h], '\t');
    lemma_join_split(lines[h], '\t');
    lemma_join_two(header);
    let d = dataset_of_lines(path, lines)->Ok_0;
    assert(lines_of_dataset(d) =~= seq![lines[h]] + lines.subrange(h + 1, lines.len() as int).filter(
        not_blank(),
    ));
}

proof fn lemma_first_nonempty_bounds(lines: Seq<Seq<char>>, k: int)
    requires
        0 <= k,
    ensures
        first_nonempty_from(lines, k) matches Some(h) ==> k <= h < lines.len(),
    decreases lines.len() - k,
{
    if k < lines.len() && lines[k].len() == 0 {
        lemma_first_nonempty_bounds(lines, k + 1);
    }
}

/// std's `io::Error`, carried unopened by `VocaParseError::IoError`.
#[verifier::external_type_specification]
#[verifier::external_body]
pub struct ExIoError(std::io::Error);

/// Why a dataset could not be loaded.
#[derive(Debug)]
pub enum VocaParseError {
    EmptyFile { filename: String },
    IoError(std::io::Error),
    InvalidFormat { filename: String, line: usize, reason: String },
}

pub enum ParseErrorView {
    EmptyFile { filename: Seq<char> },
    IoError,
    InvalidFormat { filename: Seq<char>, line: int, reason: Seq<char> },
}

impl View for VocaParseError {
    type V = ParseErrorView;

    open spec fn view(&self) -> ParseErrorView {
        match self {
            VocaParseError::EmptyFile { filename } => ParseErrorView::EmptyFile {
                filename: filename@,
            },
            VocaParseError::IoError(_) => ParseErrorView::IoError,
            VocaParseError::InvalidFormat { filename, line, reason } => ParseErrorView::InvalidFormat {
                filename: filename@,
                line: *line as int,
                reason: reason@,
            },
        }
    }
}

impl VocaParseError {
    /// The error as a sentence naming the file, and the line where one applies.
    pub fn message(&self) -> (r: String)
        ensures
            match self {
                VocaParseError::EmptyFile { filename } => r@ == "Empty file: "@ + filename@,
                VocaParseError::IoError(_) => "IO error: "@.is_prefix_of(r@),
                VocaParseError::InvalidFormat { filename, line, reason } => r@ == "Invalid format in file '"@
                    + filename@ + "', line "@ + decimal(*line as nat) + ": "@ + reason@,
            },
    {
        match self {
            VocaParseError::EmptyFile { filename } => owned("Empty file: ").concat(filename.as_str()),
            VocaParseError::IoError(err) => {
                let text = err.to_string();
                let r = owned("IO error: ").concat(text.as_str());
                assert("IO error: "@.is_prefix_of(r@)) by {
                    assert(r@.subrange(0, "IO error: "@.len() as int) =~= "IO error: "@);
                }
                r
            },
            VocaParseError::InvalidFormat { filename, line, reason } => {
                let number = decimal_string(*line as u64);
                owned("Invalid format in file '").concat(filename.as_str()).concat("', line ").concat(
                    number.as_str(),
                ).concat(": ").concat(reason.as_str())
            },
        }
    }
}

impl From<std::io::Error> for VocaParseError {
    fn from(err: std::io::Error) -> Self {
        VocaParseError::IoError(err)
    }
}

impl vstd::std_specs::convert::FromSpecImpl<std::io::Error> for VocaParseError {
    open spec fn obeys_from_spec() -> bool {
        true
    }

    open spec fn from_spec(v: std::io::Error) -> Self {
        VocaParseError::IoError(v)
    }
}

} // verus!
