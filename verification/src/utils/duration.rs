use std::time::Duration;
use vstd::prelude::*;

verus! {

/// The units that a duration text may name.
#[derive(Debug, Clone, Copy, PartialEq, Eq, Structural)]
pub enum DurationUnit {
    Milliseconds,
    Seconds,
    Minutes,
    Hours,
}

/// Whether `c` has the Unicode `White_Space` property, as `char::is_whitespace` decides.
pub open spec fn is_whitespace_char(c: char) -> bool {
    let u = c as u32;
    ||| 0x09 <= u <= 0x0d
    ||| u == 0x20
    ||| u == 0x85
    ||| u == 0xa0
    ||| u == 0x1680
    ||| 0x2000 <= u <= 0x200a
    ||| u == 0x2028
    ||| u == 0x2029
    ||| u == 0x202f
    ||| u == 0x205f
    ||| u == 0x3000
}

/// The words of `s` after the word `cur` that is being read: the maximal runs of
/// characters that are not whitespace.
pub open spec fn words_from(s: Seq<char>, cur: Seq<char>) -> Seq<Seq<char>>
    decreases s.len(),
{
    if s.len() == 0 {
        if cur.len() > 0 {
            seq![cur]
        } else {
            seq![]
        }
    } else if is_whitespace_char(s[0]) {
        (if cur.len() > 0 {
            seq![cur]
        } else {
            seq![]
        }) + words_from(s.drop_first(), seq![])
    } else {
        words_from(s.drop_first(), cur.push(s[0]))
    }
}

/// The words of `s`, in order, as `str::split_whitespace` yields them.
pub open spec fn words(s: Seq<char>) -> Seq<Seq<char>> {
    words_from(s, seq![])
}

pub open spec fn is_ascii_digit(c: char) -> bool {
    '0' <= c && c <= '9'
}

pub open spec fn digit_value(c: char) -> nat {
    ((c as u32) - ('0' as u32)) as nat
}

/// The number that a text of decimal digits denotes.
pub open spec fn digits_value(s: Seq<char>) -> nat
    decreases s.len(),
{
    if s.len() == 0 {
        0
    } else {
        digits_value(s.drop_last()) * 10 + digit_value(s.last())
    }
}

/// The digits of a number text: what follows an optional leading `+`.
pub open spec fn unsigned_body(s: Seq<char>) -> Seq<char> {
    if s.len() > 0 && s[0] == '+' {
        s.drop_first()
    } else {
        s
    }
}

pub open spec fn all_digits(s: Seq<char>) -> bool {
    forall|i: int| 0 <= i < s.len() ==> is_ascii_digit(#[trigger] s[i])
}

/// What `str::parse::<u64>` accepts: an optional `+`, then at least one decimal digit,
/// denoting a number that fits in 64 bits.
pub open spec fn parse_u64_text(s: Seq<char>) -> Option<u64> {
    let body = unsigned_body(s);
    if body.len() > 0 && all_digits(body) && digits_value(body) <= u64::MAX {
        Some(digits_value(body) as u64)
    } else {
        None
    }
}

pub open spec fn ascii_lower(c: char) -> char {
    if 'A' <= c && c <= 'Z' {
        ((c as u32) + 32) as char
    } else {
        c
    }
}

/// `s` equals `target` once its ASCII capitals are made small. For the unit names this
/// is what `to_lowercase` and a comparison decide: no character outside ASCII becomes a
/// letter of these names when made small.
pub open spec fn matches_lowercase(s: Seq<char>, target: Seq<char>) -> bool {
    s.len() == target.len() && forall|i: int| 0 <= i < s.len() ==> ascii_lower(#[trigger] s[i]) == target[i]
}

/// The unit that a word names, if any.
pub open spec fn unit_of(w: Seq<char>) -> Option<DurationUnit> {
    if matches_lowercase(w, seq!['m', 's']) || matches_lowercase(
        w,
        seq!['m', 'i', 'l', 'l', 'i', 's', 'e', 'c', 'o', 'n', 'd', 's'],
    ) || matches_lowercase(w, seq!['m', 'i', 'l', 'l', 'i', 's', 'e', 'c', 'o', 'n', 'd']) {
        Some(DurationUnit::Milliseconds)
    } else if matches_lowercase(w, seq!['s']) || matches_lowercase(
        w,
        seq!['s', 'e', 'c', 'o', 'n', 'd', 's'],
    ) || matches_lowercase(w, seq!['s', 'e', 'c', 'o', 'n', 'd']) {
        Some(DurationUnit::Seconds)
    } else if matches_lowercase(w, seq!['m']) || matches_lowercase(
        w,
        seq!['m', 'i', 'n', 'u', 't', 'e', 's'],
    ) || matches_lowercase(w, seq!['m', 'i', 'n', 'u', 't', 'e']) {
        Some(DurationUnit::Minutes)
    } else if matches_lowercase(w, seq!['h']) || matches_lowercase(w, seq!['h', 'o', 'u', 'r', 's'])
        || matches_lowercase(w, seq!['h', 'o', 'u', 'r']) {
        Some(DurationUnit::Hours)
    } else {
        None
    }
}

/// The amount and unit that a duration text names: exactly two words, a number and a unit.
pub open spec fn duration_parts(s: Seq<char>) -> Option<(u64, DurationUnit)> {
    let w = words(s);
    if w.len() == 2 {
        match (parse_u64_text(w[0]), unit_of(w[1])) {
            (Some(v), Some(u)) => Some((v, u)),
            _ => None,
        }
    } else {
        None
    }
}

/// Seconds in one unit, for the units counted in seconds.
pub open spec fn unit_seconds(u: DurationUnit) -> nat {
    match u {
        DurationUnit::Milliseconds => 0,
        DurationUnit::Seconds => 1,
        DurationUnit::Minutes => 60,
        DurationUnit::Hours => 3600,
    }
}

/// The duration that `Duration::from_millis` returns for `ms`.
pub uninterp spec fn duration_from_millis(ms: u64) -> Duration;

/// The duration that `Duration::from_secs` returns for `secs`.
pub uninterp spec fn duration_from_secs(secs: u64) -> Duration;

/// The duration that a text names, by `duration_parts`.
pub open spec fn duration_of_text(s: Seq<char>) -> Option<Duration> {
    match duration_parts(s) {
        Some((v, DurationUnit::Milliseconds)) => Some(duration_from_millis(v)),
        Some((v, DurationUnit::Seconds)) => Some(duration_from_secs(v)),
        Some((v, DurationUnit::Minutes)) => Some(duration_from_secs((v * 60) as u64)),
        Some((v, DurationUnit::Hours)) => Some(duration_from_secs((v * 3600) as u64)),
        None => None,
    }
}

/// Calls `std::time::Duration::from_millis`; the result is taken as `duration_from_millis(ms)`.
#[verifier::external_body]
pub(crate) fn millis_duration(ms: u64) -> (d: Duration)
    ensures
        d == duration_from_millis(ms),
{
    Duration::from_millis(ms)
}

/// Calls `std::time::Duration::from_secs`; the result is taken as `duration_from_secs(secs)`.
#[verifier::external_body]
fn secs_duration(secs: u64) -> (d: Duration)
    ensures
        d == duration_from_secs(secs),
{
    Duration::from_secs(secs)
}

proof fn lemma_words_step(s: Seq<char>, i: int, cur: Seq<char>)
    requires
        0 <= i < s.len(),
    ensures
        s.skip(i)[0] == s[i],
        s.skip(i).drop_first() =~= s.skip(i + 1),
{
}

/// The texts that a list of character vectors holds.
pub open spec fn texts(v: Seq<Vec<char>>) -> Seq<Seq<char>> {
    v.map_values(|w: Vec<char>| w@)
}

/// Splits `s` at whitespace into its words.
fn split_words(s: &str) -> (r: Vec<Vec<char>>)
    ensures
        texts(r@) == words(s@),
{
    let mut out: Vec<Vec<char>> = Vec::new();
    let mut cur: Vec<char> = Vec::new();
    let n = s.unicode_len();
    let mut i: usize = 0;
    assert(s@.skip(0) =~= s@);
    while i < n
        invariant
            n == s@.len(),
            i <= n,
            words(s@) =~= texts(out@) + words_from(s@.skip(i as int), cur@),
        decreases n - i,
    {
        let c = s.get_char(i);
        proof {
            lemma_words_step(s@, i as int, cur@);
        }
        let ghost rest = s@.skip(i as int);
        if is_space(c) {
            if cur.len() > 0 {
                let ghost old_out = texts(out@);
                let w = cur;
                out.push(w);
                cur = Vec::new();
                proof {
                    assert(texts(out@) =~= old_out.push(w@));
                    assert(words_from(rest, w@) == seq![w@] + words_from(s@.skip(i + 1), seq![]));
                }
            } else {
                proof {
                    assert(cur@ =~= seq![]);
                    assert(words_from(rest, cur@) =~= words_from(s@.skip(i + 1), seq![]));
                }
            }
        } else {
            cur.push(c);
        }
        i = i + 1;
    }
    proof {
        assert(s@.skip(n as int) =~= seq![]);
    }
    if cur.len() > 0 {
        let ghost old_out = texts(out@);
        let w = cur;
        out.push(w);
        proof {
            assert(texts(out@) =~= old_out.push(w@));
        }
    }
    out
}

fn is_space(c: char) -> (r: bool)
    ensures
        r == is_whitespace_char(c),
{
    let u = c as u32;
    (0x09 <= u && u <= 0x0d) || u == 0x20 || u == 0x85 || u == 0xa0 || u == 0x1680 || (0x2000 <= u
        && u <= 0x200a) || u == 0x2028 || u == 0x2029 || u == 0x202f || u == 0x205f || u == 0x3000
}

proof fn lemma_digits_value_grows(s: Seq<char>, k: int)
    requires
        0 <= k <= s.len(),
    ensures
        digits_value(s.take(k)) <= digits_value(s),
    decreases s.len() - k,
{
    if k < s.len() {
        lemma_digits_value_grows(s, k + 1);
        assert(s.take(k + 1).drop_last() =~= s.take(k));
    } else {
        assert(s.take(k) =~= s);
    }
}

/// Reads a number as `str::parse::<u64>` does.
pub(crate) fn parse_u64(w: &Vec<char>) -> (r: Option<u64>)
    ensures
        r == parse_u64_text(w@),
{
    let n = w.len();
    let start: usize = if n > 0 && w[0] == '+' {
        1
    } else {
        0
    };
    let ghost body = unsigned_body(w@);
    assert(body =~= w@.skip(start as int));
    if start >= n {
        return None;
    }
    let mut acc: u128 = 0;
    let mut i: usize = start;
    while i < n
        invariant
            start <= i <= n,
            n == w@.len(),
            body == unsigned_body(w@),
            body =~= w@.skip(start as int),
            acc == digits_value(body.take(i - start)),
            acc <= u64::MAX,
            forall|j: int| 0 <= j < i - start ==> is_ascii_digit(#[trigger] body[j]),
        decreases n - i,
    {
        let c = w[i];
        assert(body[i - start] == c);
        if !('0' <= c && c <= '9') {
            assert(!is_ascii_digit(body[i - start]));
            assert(body.len() > 0);
            assert(parse_u64_text(w@) is None);
            return None;
        }
        let d = (c as u32 - '0' as u32) as u128;
        proof {
            assert(body.take(i - start + 1).drop_last() =~= body.take(i - start));
            assert(body.take(i - start + 1).last() == c);
        }
        acc = acc * 10 + d;
        assert(acc == digits_value(body.take(i - start + 1)));
        if acc > u64::MAX as u128 {
            proof {
                lemma_digits_value_grows(body, i - start + 1);
                assert(digits_value(body) > u64::MAX);
            }
            return None;
        }
        i = i + 1;
    }
    assert(body.take(n - start) =~= body);
    Some(acc as u64)
}

/// Whether `w`, with its ASCII capitals made small, is `target`.
fn word_is(w: &Vec<char>, target: &[char]) -> (r: bool)
    ensures
        r == matches_lowercase(w@, target@),
{
    if w.len() != target.len() {
        return false;
    }
    let mut i: usize = 0;
    while i < w.len()
        invariant
            w@.len() == target@.len(),
            i <= w@.len(),
            forall|j: int| 0 <= j < i ==> ascii_lower(#[trigger] w@[j]) == target@[j],
        decreases w.len() - i,
    {
        let c = w[i];
        let l = if 'A' <= c && c <= 'Z' {
            ((c as u32) + 32) as u8 as char
        } else {
            c
        };
        assert(l == ascii_lower(c)) by {
            if 'A' <= c && c <= 'Z' {
                assert((c as u32) + 32 < 256);
            }
        };
        if l != target[i] {
            return false;
        }
        i = i + 1;
    }
    true
}

fn read_unit(w: &Vec<char>) -> (r: Option<DurationUnit>)
    ensures
        r == unit_of(w@),
{
    let ms = ['m', 's'];
    let milliseconds = ['m', 'i', 'l', 'l', 'i', 's', 'e', 'c', 'o', 'n', 'd', 's'];
    let millisecond = ['m', 'i', 'l', 'l', 'i', 's', 'e', 'c', 'o', 'n', 'd'];
    let s = ['s'];
    let seconds = ['s', 'e', 'c', 'o', 'n', 'd', 's'];
    let second = ['s', 'e', 'c', 'o', 'n', 'd'];
    let m = ['m'];
    let minutes = ['m', 'i', 'n', 'u', 't', 'e', 's'];
    let minute = ['m', 'i', 'n', 'u', 't', 'e'];
    let h = ['h'];
    let hours = ['h', 'o', 'u', 'r', 's'];
    let hour = ['h', 'o', 'u', 'r'];
    assert(ms@ =~= seq!['m', 's']);
    assert(milliseconds@ =~= seq!['m', 'i', 'l', 'l', 'i', 's', 'e', 'c', 'o', 'n', 'd', 's']);
    assert(millisecond@ =~= seq!['m', 'i', 'l', 'l', 'i', 's', 'e', 'c', 'o', 'n', 'd']);
    assert(s@ =~= seq!['s']);
    assert(seconds@ =~= seq!['s', 'e', 'c', 'o', 'n', 'd', 's']);
    assert(second@ =~= seq!['s', 'e', 'c', 'o', 'n', 'd']);
    assert(m@ =~= seq!['m']);
    assert(minutes@ =~= seq!['m', 'i', 'n', 'u', 't', 'e', 's']);
    assert(minute@ =~= seq!['m', 'i', 'n', 'u', 't', 'e']);
    assert(h@ =~= seq!['h']);
    assert(hours@ =~= seq!['h', 'o', 'u', 'r', 's']);
    assert(hour@ =~= seq!['h', 'o', 'u', 'r']);
    if word_is(w, &ms) || word_is(w, &milliseconds) || word_is(w, &millisecond) {
        Some(DurationUnit::Milliseconds)
    } else if word_is(w, &s) || word_is(w, &seconds) || word_is(w, &second) {
        Some(DurationUnit::Seconds)
    } else if word_is(w, &m) || word_is(w, &minutes) || word_is(w, &minute) {
        Some(DurationUnit::Minutes)
    } else if word_is(w, &h) || word_is(w, &hours) || word_is(w, &hour) {
        Some(DurationUnit::Hours)
    } else {
        None
    }
}

/// Parses a duration written as a number, whitespace, and a unit: `ms`, `millisecond(s)`,
/// `s`, `second(s)`, `m`, `minute(s)`, `h` or `hour(s)`, in any ASCII case.
///
/// The text must hold exactly these two words; anything else gives `None`.
pub fn parse_duration(duration_str: &str) -> (r: Option<Duration>)
    requires
        duration_parts(duration_str@) matches Some((v, u)) ==> v * unit_seconds(u) <= u64::MAX,
    ensures
        r == duration_of_text(duration_str@),
{
    let parts = split_words(duration_str);
    if parts.len() != 2 {
        return None;
    }
    assert(parts@[0]@ == words(duration_str@)[0]);
    assert(parts@[1]@ == words(duration_str@)[1]);
    let value = match parse_u64(&parts[0]) {
        Some(v) => v,
        None => return None,
    };
    let unit = read_unit(&parts[1]);
    match unit {
        Some(DurationUnit::Milliseconds) => {
            let d = millis_duration(value);
            assert(duration_parts(duration_str@) == Some((value, DurationUnit::Milliseconds)));
            assert(duration_of_text(duration_str@) == Some(duration_from_millis(value)));
            Some(d)
        },
        Some(DurationUnit::Seconds) => {
            assert(duration_parts(duration_str@) == Some((value, DurationUnit::Seconds)));
            let d = secs_duration(value);
            assert(duration_of_text(duration_str@) == Some(duration_from_secs(value)));
            Some(d)
        },
        Some(DurationUnit::Minutes) => {
            assert(duration_parts(duration_str@) == Some((value, DurationUnit::Minutes)));
            let d = secs_duration(value * 60);
            assert(duration_of_text(duration_str@) == Some(duration_from_secs((value * 60) as u64)));
            Some(d)
        },
        Some(DurationUnit::Hours) => {
            assert(duration_parts(duration_str@) == Some((value, DurationUnit::Hours)));
            let d = secs_duration(value * 3600);
            assert(duration_of_text(duration_str@) == Some(duration_from_secs((value * 3600) as u64)));
            Some(d)
        },
        None => {
            assert(duration_parts(duration_str@) is None);
            None
        },
    }
}

} // verus!
