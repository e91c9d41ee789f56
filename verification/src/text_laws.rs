//! What trimming, lines, numbers and digests are, stated by how texts are put together.

use crate::cost;
use crate::cost::CostReading;
use crate::digest;
use crate::digits;
use crate::laws;
use crate::parser;
use crate::sequence;
use crate::text;
use vstd::arithmetic::{power, power2};
use vstd::prelude::*;

verus! {

/// Whether all of `s` is white space.
pub open spec fn all_white(s: Seq<char>) -> bool {
    forall|i: int| 0 <= i < s.len() ==> text::is_white_space(#[trigger] s[i])
}

/// Whether `s` is not empty and all of it are the digits 0 to 9.
pub open spec fn is_numeral(s: Seq<char>) -> bool {
    s.len() > 0 && all_digits(s)
}

/// Whether all of `s` are the digits 0 to 9.
pub open spec fn all_digits(s: Seq<char>) -> bool {
    forall|i: int| 0 <= i < s.len() ==> '0' <= #[trigger] s[i] && s[i] <= '9'
}

/// A run of characters that satisfy `p` at the end is dropped, whatever stands before it.
pub proof fn law_a_run_at_the_end_is_dropped(
    s: Seq<char>,
    run: Seq<char>,
    p: spec_fn(char) -> bool,
)
    requires
        s.len() > 0 ==> !p(s.last()),
        forall|i: int| 0 <= i < run.len() ==> p(#[trigger] run[i]),
    ensures
        text::trim_end_by(s + run, p) == s,
    decreases run.len(),
{
    if run.len() > 0 {
        assert((s + run).drop_last() == s + run.drop_last());
        assert((s + run).last() == run[run.len() - 1]);
        law_a_run_at_the_end_is_dropped(s, run.drop_last(), p);
    } else {
        assert(s + run == s);
    }
}

/// A run of characters that satisfy `p` at the start is dropped, whatever comes after it.
pub proof fn law_a_run_at_the_start_is_dropped(
    run: Seq<char>,
    s: Seq<char>,
    p: spec_fn(char) -> bool,
)
    requires
        s.len() > 0 ==> !p(s[0]),
        forall|i: int| 0 <= i < run.len() ==> p(#[trigger] run[i]),
    ensures
        text::trim_start_by(run + s, p) == s,
    decreases run.len(),
{
    if run.len() > 0 {
        assert((run + s).drop_first() == run.drop_first() + s);
        assert((run + s)[0] == run[0]);
        law_a_run_at_the_start_is_dropped(run.drop_first(), s, p);
    } else {
        assert(run + s == s);
    }
}

/// Trimming takes the white space off both ends, and nothing else.
pub proof fn law_white_space_around_a_text_is_trimmed(
    before: Seq<char>,
    s: Seq<char>,
    after: Seq<char>,
)
    requires
        all_white(before),
        all_white(after),
        s.len() > 0 ==> !text::is_white_space(s[0]) && !text::is_white_space(s.last()),
    ensures
        text::trimmed(before + s + after) == s,
{
    let p = text::white();
    if s.len() == 0 {
        assert(before + s + after == (before + after) + s);
        assert forall|i: int| 0 <= i < (before + after).len() implies p(
            #[trigger] (before + after)[i],
        ) by {}
        law_a_run_at_the_start_is_dropped(before + after, s, p);
    } else {
        assert(before + s + after == before + (s + after));
        assert((s + after)[0] == s[0]);
        law_a_run_at_the_start_is_dropped(before, s + after, p);
        law_a_run_at_the_end_is_dropped(s, after, p);
    }
}

/// A line is blank exactly where all of it is white space.
pub proof fn law_blank_is_all_white(s: Seq<char>)
    ensures
        parser::is_blank(s) <==> all_white(s),
{
    laws::lemma_blank(s);
}

/// The first line of a text that holds a line feed is what stands before it, without one
/// carriage return at its end, and the other lines are those of what comes after it. A
/// text without a line feed is one line, as it is, and an empty text has none.
pub proof fn law_lines(line: Seq<char>, rest: Seq<char>)
    requires
        forall|i: int| 0 <= i < line.len() ==> line[i] != '\n',
    ensures
        line.len() > 0 && line.last() == '\r' ==> text::lines(line + seq!['\n'] + rest) == seq![
            line.take(line.len() - 1),
        ] + text::lines(rest),
        line.len() == 0 || line.last() != '\r' ==> text::lines(line + seq!['\n'] + rest) == seq![
            line,
        ] + text::lines(rest),
        line.len() > 0 ==> text::lines(line) == seq![line],
        text::lines(Seq::empty()) == Seq::<Seq<char>>::empty(),
{
    let s = line + seq!['\n'] + rest;
    let n = line.len() as int;
    assert forall|i: int| 0 <= i < n implies s[i] != '\n' by {
        assert(s[i] == line[i]);
    }
    assert(s[n] == '\n');
    sequence::lemma_first_at(s, '\n', n);
    assert(s.take(n) == line);
    assert(s.skip(n + 1) == rest);
    sequence::lemma_first_at(line, '\n', n);
    if n > 0 {
        assert(line.drop_last() == line.take(n - 1));
    }
}

/// A number with one more digit is ten times as large, and that digit more.
pub proof fn law_digits_have_places(d: Seq<u8>, x: u8)
    ensures
        digits::digits_value(Seq::empty()) == 0,
        digits::digits_value(d.push(x)) == digits::digits_value(d) * 10 + x,
{
    assert(d.push(x).drop_last() == d);
}

/// The digits of a text are the values of its characters, one for one.
pub proof fn law_digits_of_a_text(s: Seq<char>)
    requires
        all_digits(s),
    ensures
        digits::digits_of(s).len() == s.len(),
        forall|i: int|
            0 <= i < s.len() ==> #[trigger] digits::digits_of(s)[i] as int == s[i] as int - 48,
{
}

/// A number in decimal reads back as itself, and starts with a zero only where it is zero.
pub proof fn law_a_decimal_reads_back(n: nat)
    ensures
        is_numeral(text::decimal(n)),
        digits::digits_value(digits::digits_of(text::decimal(n))) == n,
        n > 0 ==> text::decimal(n)[0] != '0',
        n == 0 ==> text::decimal(n) == seq!['0'],
    decreases n,
{
    laws::lemma_decimal_digits(n);
    let s = text::decimal(n);
    assert(s.last() as int == 48 + n % 10);
    if n < 10 {
        assert(digits::digits_of(s) == Seq::<u8>::empty().push(n as u8));
        law_digits_have_places(Seq::empty(), n as u8);
        assert(s[0] as int == 48 + n);
        if n == 0 {
            assert(s =~= seq!['0']);
        }
    } else {
        law_a_decimal_reads_back(n / 10);
        let t = text::decimal(n / 10);
        assert(digits::digits_of(s) == digits::digits_of(t).push((n % 10) as u8));
        law_digits_have_places(digits::digits_of(t), (n % 10) as u8);
        assert(s[0] == t[0]);
    }
}

/// FNV-1a over 64 bits, byte by byte.
pub proof fn law_digest_steps(bytes: Seq<u8>, x: u8)
    ensures
        digest::fnv1a64(Seq::empty()) == 0xcbf2_9ce4_8422_2325,
        digest::fnv1a64(bytes.push(x)) == ((digest::fnv1a64(bytes) ^ (x as u64)) * 0x100_0000_01b3)
            % 0x1_0000_0000_0000_0000,
{
    assert(bytes.push(x).drop_last() == bytes);
}

/// Each hexadecimal digit has the value of its place.
pub proof fn law_hexadecimal_places(x: nat, n: nat, i: nat)
    requires
        i < n,
    ensures
        digest::hex(x, n).len() == n,
        ({
            let c = digest::hex(x, n)[n - 1 - i] as int;
            let d = (x as int / power::pow(16, i)) % 16;
            c == if d < 10 {
                48 + d
            } else {
                87 + d
            }
        }),
    decreases n,
{
    laws::lemma_hex_shape(x, n);
    laws::lemma_hex_shape(x / 16, (n - 1) as nat);
    if i == 0 {
        power::lemma_pow0(16);
        assert(x as int / 1 == x);
        assert(digest::hex(x, n)[n - 1] == digest::hex_char(x % 16));
    } else {
        law_hexadecimal_places(x / 16, (n - 1) as nat, (i - 1) as nat);
        assert(digest::hex(x, n)[n - 1 - i] == digest::hex(x / 16, (n - 1) as nat)[n - 1 - i]);
        power::lemma_pow_positive(16, (i - 1) as nat);
        vstd::arithmetic::div_mod::lemma_div_denominator(x as int, 16, power::pow(16, (i - 1) as nat));
        assert(power::pow(16, i) == 16 * power::pow(16, (i - 1) as nat)) by {
            reveal(power::pow);
        }
    }
}

/// A number as it can be written.
pub ghost struct Numeral {
    pub sign: Seq<char>,
    pub whole: Seq<char>,
    pub point: bool,
    pub part: Seq<char>,
    /// What marks the exponent, or nothing where there is none.
    pub mark: Seq<char>,
    pub exponent_sign: Seq<char>,
    pub exponent: Seq<char>,
}

/// Whether `s` is a sign or nothing.
pub open spec fn is_sign(s: Seq<char>) -> bool {
    s.len() == 0 || s == seq!['+'] || s == seq!['-']
}

impl Numeral {
    /// Whether the pieces can stand where they are: digits before or after the point,
    /// something after the point only where there is one, and an exponent of at least one
    /// digit exactly where one is marked.
    pub open spec fn is_proper(self) -> bool {
        &&& is_sign(self.sign)
        &&& all_digits(self.whole)
        &&& all_digits(self.part)
        &&& !self.point ==> self.part.len() == 0
        &&& self.whole.len() + self.part.len() > 0
        &&& self.mark.len() == 0 || self.mark == seq!['e'] || self.mark == seq!['E']
        &&& is_sign(self.exponent_sign)
        &&& self.mark.len() > 0 ==> is_numeral(self.exponent)
        &&& self.mark.len() == 0 ==> self.exponent_sign.len() == 0 && self.exponent.len() == 0
    }

    pub open spec fn fraction(self) -> Seq<char> {
        if self.point {
            seq!['.'] + self.part
        } else {
            Seq::empty()
        }
    }

    pub open spec fn tail(self) -> Seq<char> {
        self.mark + (self.exponent_sign + self.exponent)
    }

    /// The text of the number.
    pub open spec fn written(self) -> Seq<char> {
        self.sign + (self.whole + (self.fraction() + self.tail()))
    }

    /// The power of ten that its digits are scaled by.
    pub open spec fn scale(self) -> int {
        let magnitude = digits::digits_value(digits::digits_of(self.exponent)) as int;
        if self.exponent_sign == seq!['-'] {
            -magnitude - self.part.len()
        } else {
            magnitude - self.part.len()
        }
    }

    /// Its digits as a whole number.
    pub open spec fn mantissa(self) -> nat {
        digits::digits_value(digits::digits_of(self.whole + self.part))
    }
}

/// Whether `s` is `word`, each letter small or capital.
pub open spec fn spells(s: Seq<char>, word: Seq<char>) -> bool {
    s.len() == word.len() && forall|i: int|
        0 <= i < s.len() ==> (#[trigger] s[i] == word[i] || s[i] as int + 32 == word[i] as int)
}

/// Whether `word` is an infinity or a not-a-number, and `sign` a sign or nothing.
pub open spec fn is_signed_word(sign: Seq<char>, word: Seq<char>) -> bool {
    is_sign(sign) && (spells(word, "inf"@) || spells(word, "infinity"@) || spells(word, "nan"@))
}

/// Every number reads as one, however many digits it has: as a zero exactly where it is
/// at most half of the least double, and as a figure where it is more.
pub proof fn law_every_number_is_read(n: Numeral)
    requires
        n.is_proper(),
    ensures
        n.scale() >= 0 ==> (cost::reading(n.written()) == if n.mantissa() == 0 {
            CostReading::Zero
        } else {
            CostReading::Figure
        }),
        n.scale() < 0 ==> (cost::reading(n.written()) == if n.mantissa() * power2::pow2(1075)
            <= power::pow(10, (-n.scale()) as nat) {
            CostReading::Zero
        } else {
            CostReading::Figure
        }),
{
    let s = n.written();
    let body = n.whole + (n.fraction() + n.tail());
    let w = n.whole.len() as int;
    reveal_strlit("inf");
    reveal_strlit("infinity");
    reveal_strlit("nan");
    if w > 0 {
        assert(body[0] == n.whole[0]);
    } else {
        assert(body[0] == '.');
    }
    if n.sign.len() > 0 {
        assert(s[0] == n.sign[0]);
        assert(s.drop_first() == body);
    } else {
        assert(s == body);
        assert(s[0] == body[0]);
    }
    assert(cost::unsigned(s) == body);
    assert(text::lower(body[0]) == body[0]);
    assert(!cost::is_word(body, "inf"@) && !cost::is_word(body, "infinity"@) && !cost::is_word(
        body,
        "nan"@,
    ));
    lemma_number_is_read(n);
}

proof fn lemma_number_is_read(n: Numeral)
    requires
        n.is_proper(),
    ensures
        cost::number(n.whole + (n.fraction() + n.tail())) == Some(
            (digits::digits_of(n.whole + n.part), n.scale()),
        ),
{
    let body = n.whole + (n.fraction() + n.tail());
    let w = n.whole.len() as int;
    lemma_exponent_is_read(n);
    assert forall|j: int| 0 <= j < w implies digits::is_digit(#[trigger] body[j]) by {
        assert(body[j] == n.whole[j]);
    }
    if n.point {
        assert(body[w] == '.');
        digits::lemma_digit_run(body, w);
        let rest = body.skip(w + 1);
        let p = n.part.len() as int;
        assert(rest == n.part + n.tail());
        assert forall|j: int| 0 <= j < p implies digits::is_digit(#[trigger] rest[j]) by {
            assert(rest[j] == n.part[j]);
        }
        if p < rest.len() {
            assert(rest[p] == n.mark[0]);
        }
        digits::lemma_digit_run(rest, p);
        assert(rest.skip(p) == n.tail());
        assert(body.take(w) == n.whole && rest.take(p) == n.part);
    } else {
        assert(body == n.whole + n.tail());
        if w < body.len() {
            assert(body[w] == n.mark[0]);
        }
        digits::lemma_digit_run(body, w);
        assert(body.skip(w) == n.tail());
        assert(body.take(w) == n.whole);
        assert(n.whole + n.part == n.whole);
    }
}

proof fn lemma_exponent_is_read(n: Numeral)
    requires
        n.is_proper(),
    ensures
        cost::exponent(n.tail()) == Some(n.scale() + n.part.len()),
{
    let t = n.tail();
    if n.mark.len() > 0 {
        assert(t[0] == n.mark[0]);
        let signed = t.drop_first();
        assert(signed == n.exponent_sign + n.exponent);
        let k = n.exponent.len() as int;
        if n.exponent_sign.len() > 0 {
            assert(signed[0] == n.exponent_sign[0]);
            assert(signed.drop_first() == n.exponent);
        } else {
            assert(signed == n.exponent);
            assert(signed[0] == n.exponent[0]);
        }
        assert(cost::unsigned(signed) == n.exponent);
        digits::lemma_digit_run(n.exponent, k);
    } else {
        assert(t.len() == 0);
        assert(digits::digits_of(n.exponent).len() == 0);
    }
}

/// An infinity and a not-a-number read as figures, in small letters or capitals, with a
/// sign or without one.
pub proof fn law_words_are_figures(sign: Seq<char>, word: Seq<char>)
    requires
        is_signed_word(sign, word),
    ensures
        cost::reading(sign + word) == CostReading::Figure,
{
    reveal_strlit("inf");
    reveal_strlit("infinity");
    reveal_strlit("nan");
    let s = sign + word;
    if sign.len() > 0 {
        assert(s[0] == sign[0]);
        assert(s.drop_first() == word);
    } else {
        assert(s == word);
    }
    assert forall|i: int| 0 <= i < word.len() implies text::lower(#[trigger] word[i]) as int
        == word[i] as int || text::lower(word[i]) as int == word[i] as int + 32 by {}
    if spells(word, "inf"@) {
        lemma_spelled(word, "inf"@);
    } else if spells(word, "infinity"@) {
        lemma_spelled(word, "infinity"@);
    } else {
        lemma_spelled(word, "nan"@);
    }
    assert(word[0] != '+' && word[0] != '-');
}

proof fn lemma_spelled(s: Seq<char>, word: Seq<char>)
    requires
        spells(s, word),
        forall|i: int| 0 <= i < word.len() ==> 'a' <= #[trigger] word[i] && word[i] <= 'z',
    ensures
        cost::is_word(s, word),
{
    assert forall|i: int| 0 <= i < s.len() implies text::lower(#[trigger] s[i]) == word[i] by {
        assert('a' <= word[i] && word[i] <= 'z');
        if s[i] != word[i] {
            assert(s[i] as int + 32 == word[i] as int);
            assert('A' <= s[i] && s[i] <= 'Z');
            assert(text::lower(s[i]) as int == word[i] as int);
        }
    }
}

/// Nothing else reads as a cost: what is readable is a number, an infinity or a
/// not-a-number.
pub proof fn law_only_numbers_and_words_are_read(s: Seq<char>)
    requires
        cost::reading(s) != CostReading::Unreadable,
    ensures
        (exists|n: Numeral| #[trigger] n.is_proper() && n.written() == s) || (exists|
            sign: Seq<char>,
            word: Seq<char>,
        | #[trigger]
            is_signed_word(sign, word) && s == sign + word),
{
    reveal_strlit("inf");
    reveal_strlit("infinity");
    reveal_strlit("nan");
    let u = cost::unsigned(s);
    let sign = if cost::is_signed(s) {
        s.take(1)
    } else {
        Seq::empty()
    };
    assert(is_sign(sign)) by {
        if cost::is_signed(s) {
            assert(sign == seq![s[0]]);
        }
    }
    assert(s == sign + u);
    if cost::is_word(u, "inf"@) || cost::is_word(u, "infinity"@) || cost::is_word(u, "nan"@) {
        let word = if cost::is_word(u, "inf"@) {
            "inf"@
        } else if cost::is_word(u, "infinity"@) {
            "infinity"@
        } else {
            "nan"@
        };
        assert forall|i: int| 0 <= i < u.len() implies (#[trigger] u[i] == word[i] || u[i] as int
            + 32 == word[i] as int) by {
            assert(text::lower(u[i]) == word[i]);
            if 'A' <= u[i] && u[i] <= 'Z' {
                assert(text::lower(u[i]) as int == u[i] as int + 32);
            }
        }
        assert(spells(u, word));
        assert(is_signed_word(sign, u));
    } else {
        let n = lemma_number_is_written(u, sign);
        assert(n.is_proper() && n.written() == s);
    }
}

proof fn lemma_number_is_written(u: Seq<char>, sign: Seq<char>) -> (n: Numeral)
    requires
        cost::number(u) is Some,
        is_sign(sign),
    ensures
        n.is_proper(),
        n.written() == sign + u,
{
    let w = digits::digit_run(u) as int;
    lemma_digit_run_bounds(u);
    let whole = u.take(w);
    let point = w < u.len() && u[w] == '.';
    let rest = if point {
        u.skip(w + 1)
    } else {
        u.skip(w)
    };
    let p = if point {
        digits::digit_run(rest) as int
    } else {
        0
    };
    lemma_digit_run_bounds(rest);
    let part = rest.take(p);
    let tail = rest.skip(p);
    assert(rest.skip(0) == rest);
    assert(cost::exponent(tail) is Some);
    let m = lemma_exponent_is_written(tail);
    let n = Numeral {
        sign,
        whole,
        point,
        part,
        mark: m.mark,
        exponent_sign: m.exponent_sign,
        exponent: m.exponent,
    };
    assert(n.tail() == tail);
    assert(part + tail == rest);
    if point {
        assert(n.fraction() + n.tail() == seq!['.'] + rest);
        assert(u == whole + (seq!['.'] + rest));
    } else {
        assert(n.fraction() + n.tail() == rest);
        assert(u == whole + rest);
    }
    n
}

pub proof fn lemma_digit_run_bounds(s: Seq<char>)
    ensures
        0 <= digits::digit_run(s) <= s.len(),
        all_digits(s.take(digits::digit_run(s) as int)),
    decreases s.len(),
{
    if s.len() > 0 && digits::is_digit(s[0]) {
        lemma_digit_run_bounds(s.drop_first());
        let n = digits::digit_run(s) as int;
        assert forall|i: int| 0 <= i < n implies '0' <= #[trigger] s.take(n)[i] && s.take(n)[i]
            <= '9' by {
            if i > 0 {
                assert(s.drop_first().take(n - 1)[i - 1] == s.take(n)[i]);
            }
        }
    }
}

proof fn lemma_exponent_is_written(t: Seq<char>) -> (m: Numeral)
    requires
        cost::exponent(t) is Some,
    ensures
        m.mark + (m.exponent_sign + m.exponent) == t,
        m.mark.len() == 0 || m.mark == seq!['e'] || m.mark == seq!['E'],
        is_sign(m.exponent_sign),
        m.mark.len() > 0 ==> is_numeral(m.exponent),
        m.mark.len() == 0 ==> m.exponent_sign.len() == 0 && m.exponent.len() == 0,
{
    let none: Seq<char> = Seq::empty();
    if t.len() == 0 {
        let m = Numeral {
            sign: none,
            whole: none,
            point: false,
            part: none,
            mark: none,
            exponent_sign: none,
            exponent: none,
        };
        assert(m.mark + (m.exponent_sign + m.exponent) == t);
        m
    } else {
        let signed = t.drop_first();
        let d = cost::unsigned(signed);
        let exponent_sign = if cost::is_signed(signed) {
            signed.take(1)
        } else {
            none
        };
        if cost::is_signed(signed) {
            assert(exponent_sign == seq![signed[0]]);
        }
        assert(exponent_sign + d == signed);
        lemma_digit_run_bounds(d);
        assert(d.take(d.len() as int) == d);
        let m = Numeral {
            sign: none,
            whole: none,
            point: false,
            part: none,
            mark: seq![t[0]],
            exponent_sign,
            exponent: d,
        };
        assert(m.mark + (m.exponent_sign + m.exponent) == t);
        m
    }
}

} // verus!
