//! Numbers of any size as sequences of decimal digits, and the question whether
//! such a number, scaled by a power of ten, is too small for a double.

use vstd::arithmetic::{power, power2};
use vstd::prelude::*;

verus! {

/// The number whose decimal digits are `d`, the most significant one first.
pub open spec fn digits_value(d: Seq<u8>) -> nat
    decreases d.len(),
{
    if d.len() == 0 {
        0
    } else {
        digits_value(d.drop_last()) * 10 + d.last() as nat
    }
}

/// Every element is a digit.
pub open spec fn are_digits(d: Seq<u8>) -> bool {
    forall|i: int| 0 <= i < d.len() ==> #[trigger] d[i] < 10
}

/// The number whose decimal digits are `d`, the least significant one first.
pub open spec fn little_value(d: Seq<u8>) -> nat
    decreases d.len(),
{
    if d.len() == 0 {
        0
    } else {
        little_value(d.drop_last()) + (d.last() as nat) * (power::pow(10, (d.len() - 1) as nat) as nat)
    }
}

/// Whether `m * 10^scale` is at most half of the least positive double, that is
/// `2^-1075`: the numbers that round to zero.
pub open spec fn rounds_to_zero(m: nat, scale: int) -> bool {
    if scale >= 0 {
        m == 0
    } else {
        m * power2::pow2(1075) <= power::pow(10, (-scale) as nat)
    }
}

/// The characters of the ten digits.
pub open spec fn is_digit(c: char) -> bool {
    '0' <= c <= '9'
}

/// How many digits `s` starts with.
pub open spec fn digit_run(s: Seq<char>) -> nat
    decreases s.len(),
{
    if s.len() > 0 && is_digit(s[0]) {
        1 + digit_run(s.drop_first())
    } else {
        0
    }
}

/// The values of the digits in `s`.
pub open spec fn digits_of(s: Seq<char>) -> Seq<u8> {
    Seq::new(s.len(), |i: int| (s[i] as u32 - 48) as u8)
}

/// The run of digits ends where the first other character stands.
pub proof fn lemma_digit_run(s: Seq<char>, n: int)
    requires
        0 <= n <= s.len(),
        forall|j: int| 0 <= j < n ==> is_digit(#[trigger] s[j]),
        n < s.len() ==> !is_digit(s[n]),
    ensures
        digit_run(s) == n,
    decreases n,
{
    if n > 0 {
        assert forall|j: int| 0 <= j < n - 1 implies is_digit(#[trigger] s.drop_first()[j]) by {
            assert(s.drop_first()[j] == s[j + 1]);
        }
        lemma_digit_run(s.drop_first(), n - 1);
    }
}

/// Where the digits that start at `from` end.
pub fn digits_end(chars: &[char], from: usize) -> (end: usize)
    requires
        from <= chars@.len(),
    ensures
        from <= end <= chars@.len(),
        digit_run(chars@.skip(from as int)) == end - from,
        forall|j: int| from <= j < end ==> is_digit(#[trigger] chars@[j]),
{
    let mut end: usize = from;
    while end < chars.len() && '0' <= chars[end] && chars[end] <= '9'
        invariant
            from <= end <= chars@.len(),
            forall|j: int| from <= j < end ==> is_digit(#[trigger] chars@[j]),
        decreases chars@.len() - end,
    {
        end += 1;
    }
    proof {
        lemma_digit_run(chars@.skip(from as int), end - from);
    }
    end
}

proof fn lemma_pow10_step(e: nat)
    ensures
        power::pow(10, e + 1) == 10 * power::pow(10, e),
        power::pow(10, e) > 0,
{
    reveal(power::pow);
    power::lemma_pow_positive(10, e);
}

/// A number of `n` digits is below `10^n`.
proof fn lemma_digits_value_upper(d: Seq<u8>)
    requires
        are_digits(d),
    ensures
        digits_value(d) < power::pow(10, d.len()),
    decreases d.len(),
{
    if d.len() == 0 {
        power::lemma_pow0(10);
    } else {
        assert(are_digits(d.drop_last()));
        lemma_digits_value_upper(d.drop_last());
        lemma_pow10_step((d.len() - 1) as nat);
    }
}

/// A number of `n` digits whose first digit is not zero is at least `10^(n - 1)`.
proof fn lemma_digits_value_lower(d: Seq<u8>)
    requires
        d.len() > 0,
        d[0] != 0,
    ensures
        digits_value(d) >= power::pow(10, (d.len() - 1) as nat),
    decreases d.len(),
{
    if d.len() == 1 {
        power::lemma_pow0(10);
        reveal_with_fuel(digits_value, 2);
    } else {
        lemma_digits_value_lower(d.drop_last());
        lemma_pow10_step((d.len() - 2) as nat);
    }
}

/// Zeros at the front do not count.
proof fn lemma_digits_value_leading_zero(d: Seq<u8>)
    requires
        d.len() > 0,
        d[0] == 0,
    ensures
        digits_value(d.drop_first()) == digits_value(d),
    decreases d.len(),
{
    if d.len() == 1 {
        reveal_with_fuel(digits_value, 2);
    } else {
        lemma_digits_value_leading_zero(d.drop_last());
        assert(d.drop_first().drop_last() == d.drop_last().drop_first());
    }
}

proof fn lemma_digits_value_first(d: Seq<u8>)
    requires
        d.len() > 0,
    ensures
        digits_value(d) == d[0] * power::pow(10, (d.len() - 1) as nat) + digits_value(d.drop_first()),
    decreases d.len(),
{
    if d.len() == 1 {
        power::lemma_pow0(10);
        reveal_with_fuel(digits_value, 2);
    } else {
        lemma_digits_value_first(d.drop_last());
        assert(d.drop_first().drop_last() == d.drop_last().drop_first());
        lemma_pow10_step((d.len() - 2) as nat);
        let p = power::pow(10, (d.len() - 2) as nat);
        assert((d[0] * p) * 10 == d[0] * (10 * p)) by (nonlinear_arith);
    }
}

/// Reading the digits from the other end.
proof fn lemma_little_is_reverse(d: Seq<u8>)
    ensures
        little_value(d.reverse()) == digits_value(d),
    decreases d.len(),
{
    if d.len() > 0 {
        lemma_digits_value_first(d);
        lemma_little_is_reverse(d.drop_first());
        assert(d.reverse().drop_last() == d.drop_first().reverse());
        power::lemma_pow_positive(10, (d.len() - 1) as nat);
    }
}

proof fn lemma_little_value_upper(d: Seq<u8>)
    requires
        are_digits(d),
    ensures
        little_value(d) < power::pow(10, d.len()),
    decreases d.len(),
{
    if d.len() == 0 {
        power::lemma_pow0(10);
    } else {
        assert(are_digits(d.drop_last()));
        lemma_little_value_upper(d.drop_last());
        lemma_pow10_step((d.len() - 1) as nat);
        let p = power::pow(10, (d.len() - 1) as nat);
        let x = d.last();
        assert(x * p <= 9 * p) by (nonlinear_arith)
            requires
                x <= 9,
                p > 0,
        ;
    }
}

/// A nonzero digit at place `k` or above makes the number at least `10^k`.
proof fn lemma_little_value_lower(d: Seq<u8>, k: int)
    requires
        0 <= k < d.len(),
        d[k] != 0,
    ensures
        little_value(d) >= power::pow(10, k as nat),
    decreases d.len(),
{
    let p = power::pow(10, (d.len() - 1) as nat);
    power::lemma_pow_positive(10, (d.len() - 1) as nat);
    let x = d.last();
    assert(x * p >= 0) by (nonlinear_arith)
        requires
            p > 0,
    ;
    if k == d.len() - 1 {
        assert(x * p >= p) by (nonlinear_arith)
            requires
                p > 0,
                x >= 1,
        ;
    } else {
        lemma_little_value_lower(d.drop_last(), k);
    }
}

proof fn lemma_little_value_top_zero(d: Seq<u8>)
    requires
        d.len() > 0,
        d.last() == 0,
    ensures
        little_value(d) == little_value(d.drop_last()),
{
    let p = power::pow(10, (d.len() - 1) as nat) as nat;
    assert(0 * p == 0) by (nonlinear_arith);
}

/// Doubles the number that `v` holds, the least significant digit first.
fn double(v: &mut Vec<u8>)
    requires
        are_digits(old(v)@),
        old(v)@.len() < usize::MAX,
    ensures
        are_digits(final(v)@),
        little_value(final(v)@) == 2 * little_value(old(v)@),
        old(v)@.len() <= final(v)@.len() <= old(v)@.len() + 1,
{
    let ghost d = v@;
    let mut carry: u8 = 0;
    let mut i: usize = 0;
    let n: usize = v.len();
    proof {
        power::lemma_pow0(10);
    }
    while i < n
        invariant
            i <= n,
            n == d.len(),
            v@.len() == n,
            carry <= 1,
            are_digits(d),
            are_digits(v@),
            forall|j: int| i <= j < n ==> v@[j] == d[j],
            little_value(v@.take(i as int)) + carry * power::pow(10, i as nat) == 2 * little_value(
                d.take(i as int),
            ),
        decreases n - i,
    {
        let ghost before = v@;
        let x: u8 = v[i];
        assert(x < 10);
        let twice: u8 = 2 * x + carry;
        let ghost old_carry = carry;
        let digit: u8 = twice % 10;
        v.set(i, digit);
        carry = twice / 10;
        proof {
            let p = power::pow(10, i as nat);
            assert(v@.take(i + 1).drop_last() == before.take(i as int));
            assert(d.take(i + 1).drop_last() == d.take(i as int));
            assert(v@.take(i + 1).last() == digit);
            assert(d.take(i + 1).last() == x);
            lemma_pow10_step(i as nat);
            assert(digit * p + carry * (10 * p) == 2 * (x * p) + old_carry * p)
                by (nonlinear_arith)
                requires
                    digit + 10 * carry == 2 * x + old_carry,
            ;
        }
        i += 1;
    }
    assert(v@.take(n as int) == v@);
    assert(d.take(n as int) == d);
    if carry > 0 {
        let ghost before = v@;
        v.push(carry);
        assert(v@.drop_last() == before);
        assert(power::pow(10, n as nat) >= 0) by {
            power::lemma_pow_positive(10, n as nat);
        }
    }
}

/// Whether the number that `v` holds, the least significant digit first, is at
/// most `10^k`.
fn at_most_power(v: &Vec<u8>, k: usize) -> (r: bool)
    requires
        are_digits(v@),
    ensures
        r == (little_value(v@) <= power::pow(10, k as nat)),
{
    let n: usize = v.len();
    if n <= k {
        proof {
            lemma_little_value_upper(v@);
            power::lemma_pow_increases(10, n as nat, k as nat);
        }
        return true;
    }
    let mut i: usize = n;
    let ghost d = v@;
    assert(d.take(n as int) == d);
    while i > k + 1
        invariant
            k < i <= n,
            n == v@.len(),
            v@ == d,
            n > k,
            are_digits(d),
            little_value(d.take(i as int)) == little_value(d),
        decreases i,
    {
        i -= 1;
        if v[i] != 0 {
            proof {
                lemma_little_value_lower(d, i as int);
                power::lemma_pow_strictly_increases(10, k as nat, i as nat);
            }
            return false;
        }
        proof {
            lemma_little_value_top_zero(d.take(i + 1));
            assert(d.take(i + 1).drop_last() == d.take(i as int));
        }
    }
    let top: u8 = v[k];
    let ghost lower = d.take(k as int);
    proof {
        assert(d.take(k + 1).drop_last() == lower);
        assert(d.take(k + 1).last() == top);
        assert(are_digits(lower));
        lemma_little_value_upper(lower);
        power::lemma_pow_positive(10, k as nat);
        let p = power::pow(10, k as nat);
        assert(top >= 2 ==> top * p >= 2 * p) by (nonlinear_arith)
            requires
                p > 0,
        ;
        assert(top == 1 ==> top * p == p) by (nonlinear_arith);
    }
    if top == 0 {
        proof {
            lemma_little_value_top_zero(d.take(k + 1));
        }
        return true;
    }
    if top >= 2 {
        return false;
    }
    let mut j: usize = k;
    assert(lower.take(k as int) == lower);
    while j > 0
        invariant
            j <= k < n,
            n == v@.len(),
            v@ == d,
            lower == d.take(k as int),
            little_value(lower.take(j as int)) == little_value(lower),
            little_value(d) == little_value(lower) + power::pow(10, k as nat),
        decreases j,
    {
        j -= 1;
        if v[j] != 0 {
            proof {
                lemma_little_value_lower(lower, j as int);
                power::lemma_pow_positive(10, j as nat);
            }
            return false;
        }
        proof {
            lemma_little_value_top_zero(lower.take(j + 1));
            assert(lower.take(j + 1).drop_last() == lower.take(j as int));
        }
    }
    true
}

proof fn lemma_pow_base(x: int, y: int, e: nat)
    requires
        0 <= x <= y,
    ensures
        0 <= power::pow(x, e) <= power::pow(y, e),
    decreases e,
{
    reveal(power::pow);
    if e > 0 {
        lemma_pow_base(x, y, (e - 1) as nat);
        let a = power::pow(x, (e - 1) as nat);
        let b = power::pow(y, (e - 1) as nat);
        assert(0 <= x * a <= y * b) by (nonlinear_arith)
            requires
                0 <= x <= y,
                0 <= a <= b,
        ;
    }
}

/// Half of the least positive double lies between `10^-324` and `10^-323`.
proof fn lemma_half_least_double()
    ensures
        power::pow(10, 323) < power2::pow2(1075) < power::pow(10, 324),
{
    use_powers_of_two();
    assert(power::pow(10, 13) == 10000000000000 && power::pow(10, 16) == 10000000000000000) by {
        reveal_with_fuel(power::pow, 17);
    }
    assert(power::pow(10, 28) == 10000000000000000000000000000) by {
        power::lemma_pow_adds(10, 13, 13);
        power::lemma_pow_adds(10, 26, 2);
        assert(power::pow(10, 2) == 100) by {
            reveal_with_fuel(power::pow, 3);
        }
    }
    assert(power::pow(10, 31) == 10000000000000000000000000000000) by {
        power::lemma_pow_adds(10, 28, 3);
        assert(power::pow(10, 3) == 1000) by {
            reveal_with_fuel(power::pow, 4);
        }
    }
    // 2^103 > 10^31 and 2^45 > 10^13, so 2^1075 > 10^323.
    power::lemma_pow_multiplies(2, 103, 10);
    power::lemma_pow_multiplies(10, 31, 10);
    lemma_pow_base(power::pow(10, 31), power::pow(2, 103), 10);
    power::lemma_pow_adds(2, 1030, 45);
    power::lemma_pow_adds(10, 310, 13);
    power::lemma_pow_positive(10, 310);
    let (a, b) = (power::pow(10, 310), power::pow(2, 1030));
    let (c, d) = (power::pow(10, 13), power::pow(2, 45));
    assert(a * c < b * d) by (nonlinear_arith)
        requires
            0 < a <= b,
            0 < c < d,
    ;
    // 2^93 < 10^28 and 2^52 < 10^16, so 2^1075 < 10^324.
    power::lemma_pow_multiplies(2, 93, 11);
    power::lemma_pow_multiplies(10, 28, 11);
    lemma_pow_base(power::pow(2, 93), power::pow(10, 28), 11);
    power::lemma_pow_adds(2, 1023, 52);
    power::lemma_pow_adds(10, 308, 16);
    power::lemma_pow_positive(2, 1023);
    let (e, f) = (power::pow(2, 1023), power::pow(10, 308));
    let (g, h) = (power::pow(2, 52), power::pow(10, 16));
    assert(e * g < f * h) by (nonlinear_arith)
        requires
            0 < e <= f,
            0 < g < h,
    ;
}

proof fn use_powers_of_two()
    ensures
        power::pow(2, 45) == 0x200000000000,
        power::pow(2, 52) == 0x10000000000000,
        power::pow(2, 93) == 0x10000000000000000 * 0x20000000,
        power::pow(2, 103) == 0x10000000000000000 * 0x8000000000,
{
    power2::lemma2_to64();
    power2::lemma2_to64_rest();
    power::lemma_pow_positive(2, 45);
    power::lemma_pow_positive(2, 52);
    power::lemma_pow_positive(2, 64);
    power::lemma_pow_positive(2, 29);
    power::lemma_pow_positive(2, 39);
    power::lemma_pow_adds(2, 64, 29);
    power::lemma_pow_adds(2, 64, 39);
}

/// A number of `n` significant digits whose first digit stands above the place
/// `10^-324` does not round to zero; one whose first digit stands below it does.
proof fn lemma_rounds_by_place(d: Seq<u8>, scale: int)
    requires
        are_digits(d),
        d.len() > 0,
        d[0] != 0,
    ensures
        d.len() - 1 + scale > -324 ==> !rounds_to_zero(digits_value(d), scale),
        d.len() - 1 + scale < -324 ==> rounds_to_zero(digits_value(d), scale),
{
    let n = d.len();
    let m = digits_value(d) as int;
    lemma_digits_value_lower(d);
    lemma_digits_value_upper(d);
    lemma_half_least_double();
    power::lemma_pow_positive(10, (n - 1) as nat);
    let half = power2::pow2(1075) as int;
    power2::lemma_pow2_pos(1075);
    if scale < 0 {
        let k = (-scale) as nat;
        if n - 1 - k > -324 {
            let low = power::pow(10, (n - 1) as nat);
            power::lemma_pow_increases(10, k, (n - 1 + 323) as nat);
            power::lemma_pow_adds(10, (n - 1) as nat, 323);
            let t = power::pow(10, 323);
            assert(low * t < m * half) by (nonlinear_arith)
                requires
                    0 < low <= m,
                    t < half,
                    0 < half,
            ;
        }
        if n - 1 - k < -324 {
            let high = power::pow(10, n);
            power::lemma_pow_increases(10, n + 324, k);
            power::lemma_pow_adds(10, n, 324);
            let t = power::pow(10, 324);
            assert(m * half <= high * t) by (nonlinear_arith)
                requires
                    0 <= m <= high,
                    0 < half <= t,
            ;
        }
    }
}

/// Whether the number that `v` holds, the least significant digit first, is below
/// `10^k`.
fn below_power(v: &Vec<u8>, k: usize) -> (r: bool)
    requires
        are_digits(v@),
    ensures
        r == (little_value(v@) < power::pow(10, k as nat)),
{
    let n: usize = v.len();
    let ghost d = v@;
    let mut i: usize = n;
    assert(d.take(n as int) == d);
    while i > k
        invariant
            i <= n,
            n == v@.len(),
            v@ == d,
            n <= k ==> i == n,
            n > k ==> k <= i,
            little_value(d.take(i as int)) == little_value(d),
        decreases i,
    {
        i -= 1;
        if v[i] != 0 {
            proof {
                lemma_little_value_lower(d, i as int);
                power::lemma_pow_increases(10, k as nat, i as nat);
            }
            return false;
        }
        proof {
            lemma_little_value_top_zero(d.take(i + 1));
            assert(d.take(i + 1).drop_last() == d.take(i as int));
        }
    }
    proof {
        assert(are_digits(d.take(i as int)));
        lemma_little_value_upper(d.take(i as int));
        power::lemma_pow_increases(10, i as nat, k as nat);
    }
    true
}

/// The digits of a number, split after the first `a` of them.
proof fn lemma_digits_value_split(d: Seq<u8>, a: int)
    requires
        0 <= a <= d.len(),
    ensures
        digits_value(d) == digits_value(d.take(a)) * power::pow(10, (d.len() - a) as nat) + digits_value(
            d.skip(a),
        ),
    decreases d.len() - a,
{
    if a == d.len() {
        power::lemma_pow0(10);
        assert(d.take(a) == d);
        assert(d.skip(a).len() == 0);
        let x = digits_value(d) as int;
        assert(x * 1 == x);
    } else {
        let b = d.drop_last();
        lemma_digits_value_split(b, a);
        assert(b.take(a) == d.take(a));
        assert(d.skip(a).drop_last() == b.skip(a));
        assert(d.skip(a).last() == d.last());
        lemma_pow10_step((d.len() - 1 - a) as nat);
        let x = digits_value(d.take(a)) as int;
        let p = power::pow(10, (d.len() - 1 - a) as nat);
        assert((x * p) * 10 == x * (10 * p)) by (nonlinear_arith);
    }
}

/// Of a long number only the first 800 digits, and whether anything but zeros
/// follows them, decide the comparison with half of the least double.
proof fn lemma_first_digits_decide(s: Seq<u8>)
    requires
        are_digits(s),
        s.len() > 800,
    ensures
        ({
            let t = digits_value(s.take(800));
            let r = digits_value(s.skip(800));
            &&& r == 0 ==> (digits_value(s) * power2::pow2(1075) <= power::pow(10, s.len() + 323) <==> t * power2::pow2(
                1075,
            ) <= power::pow(10, 1123))
            &&& r > 0 ==> (digits_value(s) * power2::pow2(1075) <= power::pow(10, s.len() + 323) <==> t * power2::pow2(
                1075,
            ) < power::pow(10, 1123))
        }),
{
    let t = digits_value(s.take(800)) as int;
    let r = digits_value(s.skip(800)) as int;
    let q = (s.len() - 800) as nat;
    let m = digits_value(s) as int;
    let h = power::pow(2, 1075);
    let p = power::pow(10, 1123);
    let w = power::pow(10, q);
    let b = power::pow(2, 48) * power::pow(5, 1123);
    lemma_digits_value_split(s, 800);
    assert(are_digits(s.skip(800)));
    lemma_digits_value_upper(s.skip(800));
    power::lemma_pow_positive(2, 1075);
    power::lemma_pow_positive(10, q);
    power::lemma_pow_adds(10, 1123, q);
    assert(p == h * b) by {
        power::lemma_pow_distributes(2, 5, 1123);
        power::lemma_pow_adds(2, 1075, 48);
        let x = power::pow(2, 48);
        let y = power::pow(5, 1123);
        assert((h * x) * y == h * (x * y)) by (nonlinear_arith);
    }
    assert(m == t * w + r && 0 <= r < w);
    assert(t * h <= h * b <==> t <= b) by (nonlinear_arith)
        requires
            h > 0,
    ;
    assert(t * h < h * b <==> t < b) by (nonlinear_arith)
        requires
            h > 0,
    ;
    assert(m * h <= (h * b) * w <==> m <= b * w) by (nonlinear_arith)
        requires
            h > 0,
    ;
    assert(t <= b ==> t * w <= b * w) by (nonlinear_arith)
        requires
            w > 0,
    ;
    assert(t < b ==> t * w + w <= b * w) by (nonlinear_arith)
        requires
            w > 0,
    ;
    assert(t >= b ==> t * w >= b * w) by (nonlinear_arith)
        requires
            w > 0,
    ;
    assert(t > b ==> t * w > b * w) by (nonlinear_arith)
        requires
            w > 0,
    ;
}

/// Whether the number with the digits of `d` from `first` on, the most significant
/// one first and standing at the place `10^-324`, is at most half of the least
/// positive double.
fn at_most_half_least(d: &Vec<u8>, first: usize) -> (r: bool)
    requires
        are_digits(d@),
        first < d@.len(),
    ensures
        r == (digits_value(d@.skip(first as int)) * power2::pow2(1075) <= power::pow(
            10,
            (d@.len() - first + 323) as nat,
        )),
{
    let ghost s = d@.skip(first as int);
    assert(are_digits(s));
    let total: usize = d.len();
    let n: usize = total - first;
    let kept: usize = if n > 800 { 800 } else { n };
    let ghost t = s.take(kept as int);
    // The kept digits, the least significant one first.
    let mut v: Vec<u8> = Vec::new();
    let mut i: usize = kept;
    while i > 0
        invariant
            first < total == d@.len(),
            i <= kept <= n == total - first,
            s == d@.skip(first as int),
            t == s.take(kept as int),
            are_digits(s),
            v@ == t.skip(i as int).reverse(),
        decreases i,
    {
        i -= 1;
        v.push(d[first + i]);
        assert(v@ == t.skip(i as int).reverse());
    }
    assert(t.skip(0) == t);
    proof {
        lemma_little_is_reverse(t);
        assert(are_digits(t));
    }
    let mut k: u32 = 0;
    assert(power2::pow2(0) == 1) by {
        power::lemma_pow0(2);
    }
    while k < 1075
        invariant
            k <= 1075,
            are_digits(v@),
            v@.len() <= 800 + k,
            little_value(v@) == digits_value(t) * power2::pow2(k as nat),
        decreases 1075 - k,
    {
        double(&mut v);
        proof {
            power2::lemma_pow2_unfold((k + 1) as nat);
            let x = digits_value(t) as int;
            let p = power2::pow2(k as nat) as int;
            assert(2 * (x * p) == x * (2 * p)) by (nonlinear_arith);
        }
        k += 1;
    }
    let mut rest: bool = false;
    if n > 800 {
        let mut j: usize = kept;
        assert(digits_value(s.subrange(800, 800)) == 0);
        while j < n
            invariant
                first < total == d@.len(),
                kept == 800 <= j <= n == total - first,
                s == d@.skip(first as int),
                rest == (digits_value(s.subrange(800, j as int)) > 0),
            decreases n - j,
        {
            assert(s.subrange(800, j + 1).drop_last() == s.subrange(800, j as int));
            if d[first + j] != 0 {
                rest = true;
            }
            j += 1;
        }
        assert(s.subrange(800, n as int) == s.skip(800));
        proof {
            lemma_first_digits_decide(s);
        }
    } else {
        assert(t == s);
    }
    if rest {
        below_power(&v, 1123)
    } else {
        at_most_power(&v, kept + 323)
    }
}

/// Whether the number with the digits `d`, the most significant one first, times
/// `10^scale` rounds to zero. `scale` stands for `exact`: it may differ from it
/// where both are further from zero than any number of digits can make up for.
pub(crate) fn scaled_rounds_to_zero(
    d: &Vec<u8>,
    scale: i128,
    Ghost(exact): Ghost<int>,
) -> (r: bool)
    requires
        are_digits(d@),
        -0x1_0000_0000_0000_0000_0000_0000_0000 <= scale
            <= 0x1_0000_0000_0000_0000_0000_0000_0000,
        scale == exact || (scale > 0x2_0000_0000_0000_0000 && exact > 0x2_0000_0000_0000_0000) || (
        scale < -0x2_0000_0000_0000_0000 && exact < -0x2_0000_0000_0000_0000),
    ensures
        r == rounds_to_zero(digits_value(d@), exact),
{
    let len: usize = d.len();
    let mut first: usize = 0;
    assert(d@.skip(0) == d@);
    while first < len && d[first] == 0
        invariant
            first <= len == d@.len(),
            digits_value(d@.skip(first as int)) == digits_value(d@),
        decreases len - first,
    {
        proof {
            lemma_digits_value_leading_zero(d@.skip(first as int));
            assert(d@.skip(first as int).drop_first() == d@.skip(first + 1));
        }
        first += 1;
    }
    let ghost s = d@.skip(first as int);
    if first == len {
        proof {
            assert(digits_value(d@) == 0);
            power2::lemma_pow2_pos(1075);
            if exact < 0 {
                power::lemma_pow_positive(10, (-exact) as nat);
            }
        }
        return true;
    }
    let n: usize = len - first;
    let place: i128 = (n as i128) - 1 + scale;
    proof {
        assert(are_digits(s));
        lemma_rounds_by_place(s, exact);
    }
    if place > -324 {
        return false;
    }
    if place < -324 {
        return true;
    }
    assert(exact == scale);
    at_most_half_least(d, first)
}

} // verus!
