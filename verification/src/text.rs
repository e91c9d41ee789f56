//! Text as sequences of characters: the few string operations the rest of the
//! crate is built from, each with its exact meaning.

use crate::sequence;
use vstd::prelude::*;

verus! {

/// `String::push`: the string afterwards is the string before with `ch` at its
/// end.
pub assume_specification[ String::push ](string: &mut String, ch: char)
    ensures
        final(string)@ == old(string)@.push(ch),
;

/// The characters with the Unicode property White_Space.
pub open spec fn is_white_space(c: char) -> bool {
    ||| '\u{9}' <= c <= '\u{d}'
    ||| c == ' '
    ||| c == '\u{85}'
    ||| c == '\u{a0}'
    ||| c == '\u{1680}'
    ||| '\u{2000}' <= c <= '\u{200a}'
    ||| c == '\u{2028}'
    ||| c == '\u{2029}'
    ||| c == '\u{202f}'
    ||| c == '\u{205f}'
    ||| c == '\u{3000}'
}

/// Whether `c` is white space.
pub fn white_space(c: char) -> (white: bool)
    ensures
        white == is_white_space(c),
{
    ('\u{9}' <= c && c <= '\u{d}') || c == ' ' || c == '\u{85}' || c == '\u{a0}' || c == '\u{1680}'
        || ('\u{2000}' <= c && c <= '\u{200a}') || c == '\u{2028}' || c == '\u{2029}' || c
        == '\u{202f}' || c == '\u{205f}' || c == '\u{3000}'
}

/// `c`, or its lower-case form where it is one of the letters A to Z.
pub open spec fn lower(c: char) -> char {
    if 'A' <= c <= 'Z' {
        (c as u32 + 32) as char
    } else {
        c
    }
}

/// `c`, or its lower-case form where it is one of the letters A to Z.
pub fn lower_case(c: char) -> (l: char)
    ensures
        l == lower(c),
{
    if 'A' <= c && c <= 'Z' {
        (c as u8 + 32) as char
    } else {
        c
    }
}

/// The characters of `text`.
pub fn chars_of(text: &str) -> (chars: Vec<char>)
    ensures
        chars@ == text@,
{
    let mut chars: Vec<char> = Vec::new();
    for c in it: text.chars()
        invariant
            it.seq() == text@,
            chars@ == text@.take(it.index()),
    {
        chars.push(c);
    }
    chars
}

/// The string made of `chars`.
pub fn string_of(chars: &[char]) -> (text: String)
    ensures
        text@ == chars@,
{
    let mut text = String::new();
    let mut i: usize = 0;
    while i < chars.len()
        invariant
            i <= chars@.len(),
            text@ == chars@.take(i as int),
        decreases chars@.len() - i,
    {
        text.push(chars[i]);
        i += 1;
    }
    text
}

/// Whether two texts are equal.
pub fn same_text(a: &str, b: &str) -> (same: bool)
    ensures
        same == (a@ == b@),
{
    let mut left = a.chars();
    let mut right = b.chars();
    let ghost mut n: int = 0;
    loop
        invariant
            0 <= n <= a@.len(),
            n <= b@.len(),
            vstd::std_specs::iter::IteratorSpec::remaining(&left) == a@.skip(n),
            vstd::std_specs::iter::IteratorSpec::remaining(&right) == b@.skip(n),
            a@.take(n) == b@.take(n),
        decreases a@.len() - n,
    {
        match (left.next(), right.next()) {
            (Some(x), Some(y)) => {
                if x != y {
                    assert(a@[n] != b@[n]);
                    return false;
                }
                proof {
                    n = n + 1;
                }
            },
            (None, None) => {
                assert(a@.take(n) == a@ && b@.take(n) == b@);
                return true;
            },
            _ => {
                return false;
            },
        }
    }
}

/// `s` without the run of characters at its end that satisfy `p`.
pub open spec fn trim_end_by(s: Seq<char>, p: spec_fn(char) -> bool) -> Seq<char>
    decreases s.len(),
{
    if s.len() > 0 && p(s.last()) {
        trim_end_by(s.drop_last(), p)
    } else {
        s
    }
}

/// `s` without the run of characters at its start that satisfy `p`.
pub open spec fn trim_start_by(s: Seq<char>, p: spec_fn(char) -> bool) -> Seq<char>
    decreases s.len(),
{
    if s.len() > 0 && p(s[0]) {
        trim_start_by(s.drop_first(), p)
    } else {
        s
    }
}

/// The predicate "is white space".
pub open spec fn white() -> spec_fn(char) -> bool {
    |c: char| is_white_space(c)
}

/// The predicate "is a carriage return".
pub open spec fn carriage_return() -> spec_fn(char) -> bool {
    |c: char| c == '\r'
}

/// `s` without the carriage returns at its end.
pub open spec fn bare(s: Seq<char>) -> Seq<char> {
    trim_end_by(s, carriage_return())
}

/// `s` without the white space at its two ends.
pub open spec fn trimmed(s: Seq<char>) -> Seq<char> {
    trim_end_by(trim_start_by(s, white()), white())
}

/// How many of `chars` are left once the run at the end that satisfies `f` is
/// dropped.
pub(crate) fn trim_end_len<F: Fn(char) -> bool>(
    chars: &[char],
    f: F,
    Ghost(p): Ghost<spec_fn(char) -> bool>,
) -> (len: usize)
    requires
        forall|c: char| call_requires(f, (c,)),
        forall|c: char, r: bool| call_ensures(f, (c,), r) ==> r == p(c),
    ensures
        len <= chars@.len(),
        chars@.take(len as int) == trim_end_by(chars@, p),
        len > 0 ==> !p(chars@[len - 1]),
{
    let mut len: usize = chars.len();
    assert(chars@.take(len as int) == chars@);
    while len > 0
        invariant
            len <= chars@.len(),
            trim_end_by(chars@.take(len as int), p) == trim_end_by(chars@, p),
            forall|c: char| call_requires(f, (c,)),
            forall|c: char, r: bool| call_ensures(f, (c,), r) ==> r == p(c),
        ensures
            len <= chars@.len(),
            chars@.take(len as int) == trim_end_by(chars@, p),
            len > 0 ==> !p(chars@[len - 1]),
        decreases len,
    {
        assert(chars@.take(len as int).last() == chars@[len - 1]);
        assert(chars@.take(len as int).drop_last() == chars@.take(len - 1));
        if !f(chars[len - 1]) {
            break;
        }
        len -= 1;
    }
    len
}

/// How many of `chars` stand in the white space at the start.
fn white_start_len(chars: &[char]) -> (len: usize)
    ensures
        len <= chars@.len(),
        chars@.skip(len as int) == trim_start_by(chars@, white()),
{
    let mut len: usize = 0;
    assert(chars@.skip(0) == chars@);
    while len < chars.len()
        invariant
            len <= chars@.len(),
            trim_start_by(chars@.skip(len as int), white()) == trim_start_by(chars@, white()),
        ensures
            len <= chars@.len(),
            chars@.skip(len as int) == trim_start_by(chars@, white()),
        decreases chars@.len() - len,
    {
        assert(chars@.skip(len as int)[0] == chars@[len as int]);
        assert(chars@.skip(len as int).drop_first() == chars@.skip(len + 1));
        if !white_space(chars[len]) {
            break;
        }
        len += 1;
    }
    len
}

/// `chars` without the white space at its two ends.
pub fn trim_chars(chars: &[char]) -> (inner: &[char])
    ensures
        inner@ == trimmed(chars@),
{
    let start = white_start_len(chars);
    let rest = vstd::slice::slice_subrange(chars, start, chars.len());
    assert(rest@ == chars@.skip(start as int));
    let end = trim_end_len(rest, white_space, Ghost(white()));
    let inner = vstd::slice::slice_subrange(rest, 0, end);
    assert(inner@ == rest@.take(end as int));
    inner
}

/// The views of a sequence of strings.
pub open spec fn texts(strings: Seq<String>) -> Seq<Seq<char>> {
    Seq::new(strings.len(), |i: int| strings[i]@)
}

/// The position of the first line feed of `s`, or its length.
pub open spec fn line_feed(s: Seq<char>) -> int {
    sequence::first_at(s, '\n')
}

/// `line` without one carriage return at its end.
pub open spec fn without_return(line: Seq<char>) -> Seq<char> {
    if line.len() > 0 && line.last() == '\r' {
        line.drop_last()
    } else {
        line
    }
}

/// The lines of `s`. A line ends in a line feed, or in a carriage return and a
/// line feed, and does not hold its ending; the last line may lack one, and then
/// keeps every character it has.
pub open spec fn lines(s: Seq<char>) -> Seq<Seq<char>>
    decreases s.len(),
{
    let n = line_feed(s);
    if s.len() == 0 {
        Seq::empty()
    } else if 0 <= n < s.len() {
        seq![without_return(s.take(n))] + lines(s.skip(n + 1))
    } else {
        seq![s]
    }
}

/// The lines of `text`.
pub fn lines_of(text: &str) -> (out: Vec<String>)
    ensures
        texts(out@) == lines(text@),
{
    let chars = chars_of(text);
    let mut out: Vec<String> = Vec::new();
    let mut start: usize = 0;
    let mut i: usize = 0;
    assert(chars@.skip(0) == text@);
    assert(texts(out@) + lines(chars@) == lines(text@));
    while i < chars.len()
        invariant
            start <= i <= chars@.len(),
            chars@ == text@,
            texts(out@) + lines(chars@.skip(start as int)) == lines(text@),
            forall|j: int| start <= j < i ==> chars@[j] != '\n',
        decreases chars@.len() - i,
    {
        if chars[i] == '\n' {
            let ghost rest = chars@.skip(start as int);
            let ghost before = texts(out@);
            proof {
                sequence::lemma_first_at(rest, '\n', i - start);
                assert(rest.skip(i - start + 1) == chars@.skip(i + 1));
                assert(rest.take(i - start) == chars@.subrange(start as int, i as int));
            }
            let mut end: usize = i;
            if start < i && chars[i - 1] == '\r' {
                end = i - 1;
            }
            let line = string_of(vstd::slice::slice_subrange(chars.as_slice(), start, end));
            assert(line@ == without_return(rest.take(i - start)));
            out.push(line);
            assert(texts(out@) == before.push(line@));
            assert(before.push(line@) + lines(chars@.skip(i + 1)) == before + lines(rest));
            start = i + 1;
        }
        i += 1;
    }
    let ghost rest = chars@.skip(start as int);
    let ghost before = texts(out@);
    if start < chars.len() {
        proof {
            sequence::lemma_first_at(rest, '\n', rest.len() as int);
        }
        let line = string_of(vstd::slice::slice_subrange(chars.as_slice(), start, chars.len()));
        assert(line@ == rest);
        out.push(line);
        assert(texts(out@) == before + seq![rest]);
    } else {
        assert(lines(rest) == Seq::<Seq<char>>::empty());
        assert(before + Seq::<Seq<char>>::empty() == before);
    }
    out
}

/// The character of a digit below ten.
pub open spec fn digit_char(d: nat) -> char {
    (48 + d) as char
}

/// The decimal notation of `n`, without leading zeros.
pub open spec fn decimal(n: nat) -> Seq<char>
    decreases n,
{
    if n < 10 {
        seq![digit_char(n)]
    } else {
        decimal(n / 10).push(digit_char(n % 10))
    }
}

/// Writes `n` in decimal at the end of `out`.
pub fn push_decimal(out: &mut String, n: u64)
    ensures
        final(out)@ == old(out)@ + decimal(n as nat),
    decreases n,
{
    if n >= 10 {
        push_decimal(out, n / 10);
    }
    let digit: u8 = (n % 10) as u8;
    out.push((48u8 + digit) as char);
    assert(out@ == old(out)@ + decimal(n as nat));
}

} // verus!
