//! Text helpers over `Seq<char>`: splitting on a separator, trimming white
//! space, decimal numbers, and the edit distance between two words.
use vstd::prelude::*;
use vstd::std_specs::iter::IteratorSpec;

verus! {

broadcast use vstd::string::group_string_axioms;

/// The pieces of `s` between occurrences of `sep`, as `str::split` yields them:
/// always at least one piece, empty pieces included.
pub open spec fn split_on(s: Seq<char>, sep: char) -> Seq<Seq<char>>
    decreases s.len(),
{
    if s.len() == 0 {
        seq![Seq::<char>::empty()]
    } else {
        let init = split_on(s.drop_last(), sep);
        if s.last() == sep {
            init.push(Seq::<char>::empty())
        } else {
            init.update(init.len() - 1, init.last().push(s.last()))
        }
    }
}

pub proof fn lemma_split_on_nonempty(s: Seq<char>, sep: char)
    ensures
        split_on(s, sep).len() >= 1,
    decreases s.len(),
{
    if s.len() > 0 {
        lemma_split_on_nonempty(s.drop_last(), sep);
    }
}

/// The characters of `s`, in order.
pub fn chars_of(s: &str) -> (r: Vec<char>)
    ensures
        r@ == s@,
{
    let mut r: Vec<char> = Vec::new();
    let mut it = s.chars();
    loop
        invariant
            r@ + it.remaining() == s@,
            it.decrease() is Some,
        ensures
            r@ == s@,
        decreases it.decrease()->0,
    {
        match it.next() {
            Some(c) => {
                r.push(c);
            },
            None => {
                break;
            },
        }
    }
    r
}

/// The views of a sequence of string slices.
pub open spec fn views_of(v: Seq<&str>) -> Seq<Seq<char>> {
    v.map_values(|p: &str| p@)
}

/// An owned copy of `s`.
pub fn owned(s: &str) -> (r: String)
    ensures
        r@ == s@,
{
    s.to_string()
}

/// Splits `s` at every `sep`, as `str::split` does.
pub fn split_fields<'a>(s: &'a str, sep: char) -> (r: Vec<&'a str>)
    ensures
        views_of(r@) == split_on(s@, sep),
{
    let cs = chars_of(s);
    let mut r: Vec<&'a str> = Vec::new();
    let mut start: usize = 0;
    let mut i: usize = 0;
    assert(s@.subrange(0, 0) =~= Seq::<char>::empty());
    assert(views_of(r@).push(s@.subrange(0, 0)) =~= seq![Seq::<char>::empty()]);
    while i < cs.len()
        invariant
            cs@ == s@,
            start <= i <= cs.len(),
            views_of(r@).push(s@.subrange(start as int, i as int)) == split_on(
                s@.subrange(0, i as int),
                sep,
            ),
        decreases cs.len() - i,
    {
        let ghost prev = views_of(r@).push(s@.subrange(start as int, i as int));
        assert(s@.subrange(0, i + 1).drop_last() =~= s@.subrange(0, i as int));
        assert(s@.subrange(0, i + 1).last() == cs@[i as int]);
        if cs[i] == sep {
            let ghost before = r@;
            let piece = s.substring_char(start, i);
            r.push(piece);
            start = i + 1;
            assert(views_of(r@) =~= views_of(before).push(piece@));
            assert(s@.subrange(start as int, i + 1) =~= Seq::<char>::empty());
        } else {
            assert(s@.subrange(start as int, i + 1) =~= s@.subrange(start as int, i as int).push(
                cs@[i as int],
            ));
            assert(views_of(r@).push(s@.subrange(start as int, i + 1)) =~= prev.update(
                prev.len() - 1,
                prev.last().push(cs@[i as int]),
            ));
        }
        i += 1;
    }
    let last = s.substring_char(start, i);
    let ghost before = r@;
    r.push(last);
    assert(views_of(r@) =~= views_of(before).push(last@));
    assert(s@.subrange(0, i as int) =~= s@);
    r
}

/// Unicode's White_Space property, which `char::is_whitespace` and `str::trim` use.
pub open spec fn is_white_space(c: char) -> bool {
    let u = c as u32;
    ||| 0x09 <= u <= 0x0d
    ||| u == 0x20
    ||| u == 0x85
    ||| u == 0xa0
    ||| u == 0x1680
    ||| 0x2000 <= u <= 0x200a
    ||| u == 0x2028
    ||| u == 0x2029
    ||| u == 0x202f
    ||| u == 0x205f
    ||| u == 0x3000
}

/// `s` without its leading white space.
pub open spec fn trim_start_spec(s: Seq<char>) -> Seq<char>
    decreases s.len(),
{
    if s.len() > 0 && is_white_space(s[0]) {
        trim_start_spec(s.drop_first())
    } else {
        s
    }
}

/// `s` without its trailing white space.
pub open spec fn trim_end_spec(s: Seq<char>) -> Seq<char>
    decreases s.len(),
{
    if s.len() > 0 && is_white_space(s.last()) {
        trim_end_spec(s.drop_last())
    } else {
        s
    }
}

/// `s` without leading and trailing white space.
pub open spec fn trimmed(s: Seq<char>) -> Seq<char> {
    trim_end_spec(trim_start_spec(s))
}

/// Relies on `str::trim`: the slice with leading and trailing characters of
/// the White_Space property removed.
#[verifier::external_body]
pub(crate) fn trim_str(s: &str) -> (r: &str)
    ensures
        r@ == trimmed(s@),
{
    s.trim()
}

pub open spec fn is_digit(c: char) -> bool {
    '0' <= c <= '9'
}

pub open spec fn all_digits(s: Seq<char>) -> bool {
    forall|i: int| 0 <= i < s.len() ==> is_digit(#[trigger] s[i])
}

/// The number that the decimal digits `s` denote.
pub open spec fn digits_value(s: Seq<char>) -> int
    decreases s.len(),
{
    if s.len() == 0 {
        0
    } else {
        digits_value(s.drop_last()) * 10 + (s.last() as int - '0' as int)
    }
}

/// `s` without one leading `+`, if it has one.
pub open spec fn without_plus(s: Seq<char>) -> Seq<char> {
    if s.len() > 0 && s[0] == '+' {
        s.drop_first()
    } else {
        s
    }
}

/// What `str::parse::<u8>` accepts: an optional `+`, then one or more decimal
/// digits whose value is at most 255.
pub open spec fn u8_of(s: Seq<char>) -> Option<u8> {
    let d = without_plus(s);
    if d.len() > 0 && all_digits(d) && digits_value(d) <= 255 {
        Some(digits_value(d) as u8)
    } else {
        None
    }
}

pub proof fn lemma_digits_value_nonneg(s: Seq<char>)
    requires
        all_digits(s),
    ensures
        digits_value(s) >= 0,
    decreases s.len(),
{
    if s.len() > 0 {
        assert(all_digits(s.drop_last()));
        lemma_digits_value_nonneg(s.drop_last());
        assert(is_digit(s[s.len() - 1]));
    }
}

proof fn lemma_digits_value_grows(s: Seq<char>, k: int)
    requires
        all_digits(s),
        0 <= k <= s.len(),
    ensures
        digits_value(s.take(k)) <= digits_value(s),
        0 <= digits_value(s.take(k)),
    decreases s.len(),
{
    if s.len() > 0 {
        assert(all_digits(s.drop_last()));
        if k == s.len() {
            assert(s.take(k) =~= s);
            lemma_digits_value_grows(s.drop_last(), k - 1);
            assert(s.drop_last().take(k - 1) =~= s.drop_last());
        } else {
            lemma_digits_value_grows(s.drop_last(), k);
            assert(s.drop_last().take(k) =~= s.take(k));
            lemma_digits_value_grows(s.drop_last(), s.len() - 1);
            assert(s.drop_last().take(s.len() - 1) =~= s.drop_last());
        }
    } else {
        assert(s.take(k) =~= s);
    }
}

/// Reads a `u8` as `str::parse::<u8>` does.
pub fn parse_u8(s: &str) -> (r: Option<u8>)
    ensures
        r == u8_of(s@),
{
    let cs = chars_of(s);
    let start: usize = if cs.len() > 0 && cs[0] == '+' {
        1
    } else {
        0
    };
    let ghost d = s@.subrange(start as int, s@.len() as int);
    assert(d =~= without_plus(s@));
    if start == cs.len() {
        return None;
    }
    let mut value: u32 = 0;
    let mut i: usize = start;
    assert(d.take(0) =~= Seq::<char>::empty());
    while i < cs.len()
        invariant
            cs@ == s@,
            start <= i <= cs.len(),
            d == s@.subrange(start as int, s@.len() as int),
            d == without_plus(s@),
            d.len() > 0,
            all_digits(d.take(i - start)),
            value as int == digits_value(d.take(i - start)),
            value <= 255,
        decreases cs.len() - i,
    {
        let c = cs[i];
        let ghost k = i - start;
        assert(d[k] == c);
        if c < '0' || c > '9' {
            assert(!is_digit(d[k]));
            assert(!all_digits(d));
            return None;
        }
        assert(d.take(k + 1).drop_last() =~= d.take(k));
        assert(d.take(k + 1).last() == c);
        value = value * 10 + (c as u32 - '0' as u32);
        i += 1;
        assert(value as int == digits_value(d.take(k + 1)));
        assert(all_digits(d.take(k + 1))) by {
            assert forall|j: int| 0 <= j < k + 1 implies is_digit(#[trigger] d.take(k + 1)[j]) by {
                if j < k {
                    assert(d.take(k + 1)[j] == d.take(k)[j]);
                }
            }
        }
        if value > 255 {
            proof {
                if all_digits(d) {
                    lemma_digits_value_grows(d, k + 1);
                }
            }
            return None;
        }
    }
    assert(d.take(i - start) =~= d);
    Some(value as u8)
}

pub open spec fn digit_char(d: int) -> char {
    seq!['0', '1', '2', '3', '4', '5', '6', '7', '8', '9'][d]
}

/// The decimal digits of `n`, without sign or leading zeros.
pub open spec fn decimal(n: nat) -> Seq<char>
    decreases n,
{
    if n < 10 {
        seq![digit_char(n as int)]
    } else {
        decimal(n / 10).push(digit_char((n % 10) as int))
    }
}

fn digit(d: u64) -> (c: char)
    requires
        d < 10,
    ensures
        c == digit_char(d as int),
{
    match d {
        0 => '0',
        1 => '1',
        2 => '2',
        3 => '3',
        4 => '4',
        5 => '5',
        6 => '6',
        7 => '7',
        8 => '8',
        _ => '9',
    }
}

fn push_decimal(n: u64, out: &mut Vec<char>)
    ensures
        final(out)@ == old(out)@ + decimal(n as nat),
    decreases n,
{
    if n >= 10 {
        push_decimal(n / 10, out);
    }
    let ghost mid = out@;
    out.push(digit(n % 10));
    if n >= 10 {
        assert(out@ =~= old(out)@ + decimal(n as nat));
    } else {
        assert(out@ =~= old(out)@ + decimal(n as nat));
    }
}

/// Relies on `String`'s `FromIterator<char>`: the characters in order.
#[verifier::external_body]
fn string_from_chars(v: Vec<char>) -> (r: String)
    ensures
        r@ == v@,
{
    String::from_iter(v)
}

/// `n` written in decimal, as its `Display` writes it.
pub fn decimal_string(n: u64) -> (r: String)
    ensures
        r@ == decimal(n as nat),
{
    let mut v: Vec<char> = Vec::new();
    push_decimal(n, &mut v);
    assert(v@ =~= decimal(n as nat));
    string_from_chars(v)
}

pub open spec fn min3(a: nat, b: nat, c: nat) -> nat {
    if a <= b && a <= c {
        a
    } else if b <= c {
        b
    } else {
        c
    }
}

/// The Levenshtein distance between `a` and `b`: the fewest single-character
/// insertions, deletions and substitutions that turn one into the other.
pub open spec fn levenshtein(a: Seq<char>, b: Seq<char>) -> nat
    decreases a.len() + b.len(),
{
    if a.len() == 0 {
        b.len()
    } else if b.len() == 0 {
        a.len()
    } else {
        min3(
            levenshtein(a.drop_last(), b) + 1,
            levenshtein(a, b.drop_last()) + 1,
            levenshtein(a.drop_last(), b.drop_last()) + if a.last() == b.last() {
                0nat
            } else {
                1nat
            },
        )
    }
}

/// Relies on `edit_distance::edit_distance`, which computes the Levenshtein
/// distance over the characters of its two arguments.
#[verifier::external_body]
pub(crate) fn edit_distance(a: &str, b: &str) -> (r: usize)
    ensures
        r as nat == levenshtein(a@, b@),
{
    edit_distance::edit_distance(a, b)
}

} // verus!
