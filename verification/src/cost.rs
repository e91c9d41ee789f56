//! The figure that a record names as its cost.
//!
//! A cost travels as text, so that money is never read back as a binary
//! fraction. What the crate decides of such a text is whether it is written as the
//! standard library reads doubles, infinities and not-a-numbers among them, and
//! whether it is a number that is zero.

use crate::digits;
use crate::text;
use crate::text::{chars_of, lower_case};
use vstd::prelude::*;

verus! {

/// What a text says as a cost.
#[derive(Clone, Copy, Debug, PartialEq, Eq, Structural)]
pub enum CostReading {
    /// No double is written like that.
    Unreadable,
    /// It is a number that a double holds as zero.
    Zero,
    /// It is any other number, an infinity or a not-a-number.
    Figure,
}

/// Whether `s` starts with a sign.
pub open spec fn is_signed(s: Seq<char>) -> bool {
    s.len() > 0 && (s[0] == '+' || s[0] == '-')
}

/// `s` without a sign at its start.
pub open spec fn unsigned(s: Seq<char>) -> Seq<char> {
    if is_signed(s) {
        s.drop_first()
    } else {
        s
    }
}

/// The exponent that `s`, all that follows the digits of a number, stands for:
/// nothing, or an `e` in either case, a sign if there is one, and digits.
pub open spec fn exponent(s: Seq<char>) -> Option<int> {
    if s.len() == 0 {
        Some(0)
    } else if s[0] == 'e' || s[0] == 'E' {
        let signed = s.drop_first();
        let digits = unsigned(signed);
        if digits.len() > 0 && digits::digit_run(digits) == digits.len() {
            let magnitude = digits::digits_value(digits::digits_of(digits)) as int;
            Some(
                if signed[0] == '-' {
                    -magnitude
                } else {
                    magnitude
                },
            )
        } else {
            None
        }
    } else {
        None
    }
}

/// The digits of the unsigned number `s`, and the power of ten they are scaled by:
/// digits with a point before, among or after them, or none, at least one digit,
/// then an exponent if there is one.
pub open spec fn number(s: Seq<char>) -> Option<(Seq<u8>, int)> {
    let whole = digits::digit_run(s) as int;
    if whole < s.len() && s[whole] == '.' {
        let rest = s.skip(whole + 1);
        let part = digits::digit_run(rest) as int;
        match exponent(rest.skip(part)) {
            Some(e) if whole + part > 0 => Some(
                (digits::digits_of(s.take(whole) + rest.take(part)), e - part),
            ),
            _ => None,
        }
    } else {
        match exponent(s.skip(whole)) {
            Some(e) if whole > 0 => Some((digits::digits_of(s.take(whole)), e)),
            _ => None,
        }
    }
}

/// Whether `s` is the lower-case `word`, in either case.
pub open spec fn is_word(s: Seq<char>, word: Seq<char>) -> bool {
    s.len() == word.len() && forall|i: int| 0 <= i < s.len() ==> text::lower(#[trigger] s[i]) == word[i]
}

/// What `s` says as a cost: a sign if there is one, then an infinity, a
/// not-a-number, or a number.
pub open spec fn reading(s: Seq<char>) -> CostReading {
    let u = unsigned(s);
    if is_word(u, "inf"@) || is_word(u, "infinity"@) || is_word(u, "nan"@) {
        CostReading::Figure
    } else {
        match number(u) {
            None => CostReading::Unreadable,
            Some((digits, scale)) => if digits::rounds_to_zero(digits::digits_value(digits), scale) {
                CostReading::Zero
            } else {
                CostReading::Figure
            },
        }
    }
}

/// Whether `x` may stand for the exponent `e`: they are equal, or both so far from
/// zero that no text has digits enough to bring the number back.
spec fn stands_for(x: i128, e: int) -> bool {
    &&& -0x100_0000_0000_0000_0000_0000_0000 <= x <= 0x100_0000_0000_0000_0000_0000_0000
    &&& x == e || (x >= 0x10_0000_0000_0000_0000_0000 && e >= 0x10_0000_0000_0000_0000_0000) || (x
        <= -0x10_0000_0000_0000_0000_0000 && e <= -0x10_0000_0000_0000_0000_0000)
}

/// Reads the exponent that starts at `from`.
fn read_exponent(chars: &[char], from: usize) -> (r: Option<i128>)
    requires
        from <= chars@.len(),
    ensures
        match r {
            Some(x) => exponent(chars@.skip(from as int)) is Some && stands_for(
                x,
                exponent(chars@.skip(from as int))->0,
            ),
            None => exponent(chars@.skip(from as int)) is None,
        },
{
    let ghost s = chars@.skip(from as int);
    let len: usize = chars.len();
    if from == len {
        return Some(0);
    }
    if chars[from] != 'e' && chars[from] != 'E' {
        return None;
    }
    let mut at: usize = from + 1;
    let mut negative: bool = false;
    if at < len && (chars[at] == '+' || chars[at] == '-') {
        negative = chars[at] == '-';
        at += 1;
    }
    let ghost tail = unsigned(s.drop_first());
    assert(tail == chars@.skip(at as int));
    let end = digits::digits_end(chars, at);
    if at == len || end != len {
        return None;
    }
    let mut magnitude: i128 = 0;
    let mut i: usize = at;
    assert(digits::digits_of(tail).take(0).len() == 0);
    while i < len
        invariant
            at <= i <= len == chars@.len(),
            tail == chars@.skip(at as int),
            forall|j: int| at <= j < len ==> digits::is_digit(#[trigger] chars@[j]),
            0 <= magnitude <= 0x100_0000_0000_0000_0000_0000_0000,
            ({
                let v = digits::digits_value(digits::digits_of(tail).take(i - at)) as int;
                magnitude == v || (magnitude >= 0x10_0000_0000_0000_0000_0000 && v
                    >= 0x10_0000_0000_0000_0000_0000)
            }),
        decreases len - i,
    {
        let c: char = chars[i];
        let digit: i128 = (c as u32 - 48) as i128;
        proof {
            let d = digits::digits_of(tail);
            assert(d.take(i - at + 1).drop_last() == d.take(i - at));
            assert(d.take(i - at + 1).last() == d[i - at]);
            assert(tail[i - at] == c);
        }
        if magnitude < 0x10_0000_0000_0000_0000_0000 {
            magnitude = magnitude * 10 + digit;
        }
        i += 1;
    }
    assert(digits::digits_of(tail).take(len - at) == digits::digits_of(tail));
    assert(s.drop_first()[0] == chars@[from + 1]);
    Some(
        if negative {
            -magnitude
        } else {
            magnitude
        },
    )
}

/// Whether `chars` is the lower-case `word`, in either case.
fn matches_word(chars: &[char], word: &str) -> (r: bool)
    ensures
        r == is_word(chars@, word@),
{
    let letters = chars_of(word);
    if letters.len() != chars.len() {
        return false;
    }
    let mut i: usize = 0;
    while i < chars.len()
        invariant
            i <= chars@.len() == letters@.len(),
            letters@ == word@,
            forall|j: int| 0 <= j < i ==> text::lower(#[trigger] chars@[j]) == word@[j],
        decreases chars@.len() - i,
    {
        if lower_case(chars[i]) != letters[i] {
            return false;
        }
        i += 1;
    }
    true
}

/// Appends the values of the digits of `chars` between `from` and `to`.
fn push_digits(out: &mut Vec<u8>, chars: &[char], from: usize, to: usize)
    requires
        from <= to <= chars@.len(),
        forall|j: int| from <= j < to ==> digits::is_digit(#[trigger] chars@[j]),
        digits::are_digits(old(out)@),
    ensures
        final(out)@ == old(out)@ + digits::digits_of(chars@.subrange(from as int, to as int)),
        digits::are_digits(final(out)@),
{
    let mut i: usize = from;
    while i < to
        invariant
            from <= i <= to <= chars@.len(),
            forall|j: int| from <= j < to ==> digits::is_digit(#[trigger] chars@[j]),
            out@ == old(out)@ + digits::digits_of(chars@.subrange(from as int, i as int)),
            digits::are_digits(out@),
        decreases to - i,
    {
        let c: char = chars[i];
        out.push((c as u32 - 48) as u8);
        assert(out@ == old(out)@ + digits::digits_of(chars@.subrange(from as int, i + 1)));
        i += 1;
    }
}

/// Reads the unsigned number that starts at `from` and reaches to the end.
#[verifier::spinoff_prover]
fn read_number(chars: &[char], from: usize) -> (r: CostReading)
    requires
        from <= chars@.len(),
    ensures
        r == (match number(chars@.skip(from as int)) {
            None => CostReading::Unreadable,
            Some((digits, scale)) => if digits::rounds_to_zero(digits::digits_value(digits), scale) {
                CostReading::Zero
            } else {
                CostReading::Figure
            },
        }),
{
    let ghost s = chars@.skip(from as int);
    let whole = digits::digits_end(chars, from);
    let mut digits: Vec<u8> = Vec::new();
    push_digits(&mut digits, chars, from, whole);
    assert(chars@.subrange(from as int, whole as int) == s.take(whole - from));
    let mut part: usize = 0;
    let mut end: usize = whole;
    if whole < chars.len() && chars[whole] == '.' {
        let last = digits::digits_end(chars, whole + 1);
        push_digits(&mut digits, chars, whole + 1, last);
        part = last - (whole + 1);
        end = last;
        proof {
            let rest = s.skip(whole - from + 1);
            assert(rest == chars@.skip(whole + 1));
            assert(chars@.subrange(whole + 1, last as int) == rest.take(part as int));
            assert(rest.skip(part as int) == chars@.skip(last as int));
            assert(digits@ == digits::digits_of(s.take(whole - from) + rest.take(part as int)));
        }
    } else {
        assert(s.skip(whole - from) == chars@.skip(whole as int));
        assert(digits@ == digits::digits_of(s.take(whole - from)));
    }
    if digits.len() == 0 {
        return CostReading::Unreadable;
    }
    match read_exponent(chars, end) {
        None => CostReading::Unreadable,
        Some(e) => {
            let ghost exact = exponent(chars@.skip(end as int))->0 - part;
            if digits::scaled_rounds_to_zero(&digits, e - part as i128, Ghost(exact)) {
                CostReading::Zero
            } else {
                CostReading::Figure
            }
        },
    }
}

/// What `chars` says as a cost.
pub fn read_cost(chars: &[char]) -> (r: CostReading)
    ensures
        r == reading(chars@),
{
    let mut from: usize = 0;
    if chars.len() > 0 && (chars[0] == '+' || chars[0] == '-') {
        from = 1;
    }
    let rest = vstd::slice::slice_subrange(chars, from, chars.len());
    assert(rest@ == unsigned(chars@));
    if matches_word(rest, "inf") || matches_word(rest, "infinity") || matches_word(rest, "nan") {
        return CostReading::Figure;
    }
    assert(rest@.skip(0) == rest@);
    read_number(rest, 0)
}

} // verus!
