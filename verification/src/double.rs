//! Decimal texts as numbers of double precision, worked out in whole numbers.
//!
//! A number is rounded to 53 significant bits, as the hardware would round it.
//! The bounds on its exponent need no regard here: a number too large for them
//! stands for the greatest count, and one too small for zero.
use vstd::prelude::*;
use vstd::utf8::*;
use crate::text;

verus! {

// ---------------------------------------------------------------
// Rounding to 53 bits
// ---------------------------------------------------------------

/// `num / den` as a whole number: the nearest, and of two equally near the even one.
pub open spec fn half_even(num: nat, den: nat) -> nat {
    let whole = num / den;
    let rest = num % den;
    if 2 * rest < den || (2 * rest == den && whole % 2 == 0) {
        whole
    } else {
        whole + 1
    }
}

/// The number of 53 significant bits nearest to `num / den`, as a fraction.
pub open spec fn nearest(num: nat, den: nat) -> (nat, nat)
    decreases
            (if num < 0x10_0000_0000_0000 * den {
                1nat
            } else {
                0nat
            }),
            (if num < 0x10_0000_0000_0000 * den {
                0x10_0000_0000_0000 * den - num
            } else {
                num - den
            }),
{
    if num == 0 || den == 0 {
        (0, 1)
    } else if num < 0x10_0000_0000_0000 * den {
        let (n, d) = nearest(2 * num, den);
        (n, 2 * d)
    } else if num >= 0x20_0000_0000_0000 * den {
        let (n, d) = nearest(num, 2 * den);
        (2 * n, d)
    } else {
        (half_even(num, den), 1)
    }
}

pub open spec fn two(n: nat) -> nat
    decreases n,
{
    if n == 0 {
        1
    } else {
        2 * two((n - 1) as nat)
    }
}

pub open spec fn ten(n: nat) -> nat
    decreases n,
{
    if n == 0 {
        1
    } else {
        10 * ten((n - 1) as nat)
    }
}

proof fn lemma_two_adds(a: nat, b: nat)
    ensures
        two(a + b) == two(a) * two(b),
        two(a) > 0,
    decreases a,
{
    if a > 0 {
        lemma_two_adds((a - 1) as nat, b);
        assert(two(a + b) == 2 * two((a - 1 + b) as nat));
        assert(2 * (two((a - 1) as nat) * two(b)) == (2 * two((a - 1) as nat)) * two(b))
            by (nonlinear_arith);
    } else {
        assert(two(0) * two(b) == two(b)) by (nonlinear_arith)
            requires
                two(0) == 1,
        ;
    }
}

proof fn lemma_ten_adds(a: nat, b: nat)
    ensures
        ten(a + b) == ten(a) * ten(b),
        ten(a) > 0,
    decreases a,
{
    if a > 0 {
        lemma_ten_adds((a - 1) as nat, b);
        assert(ten(a + b) == 10 * ten((a - 1 + b) as nat));
        assert(10 * (ten((a - 1) as nat) * ten(b)) == (10 * ten((a - 1) as nat)) * ten(b))
            by (nonlinear_arith);
    } else {
        assert(ten(0) * ten(b) == ten(b)) by (nonlinear_arith)
            requires
                ten(0) == 1,
        ;
    }
}

/// A fraction in higher terms is rounded the same.
proof fn lemma_half_even_terms(num: nat, den: nat, c: nat)
    requires
        den > 0,
        c > 0,
    ensures
        half_even(c * num, c * den) == half_even(num, den),
{
    let w = num / den;
    let r = num % den;
    assert(num == w * den + r && r < den) by (nonlinear_arith)
        requires
            den > 0,
            w == num / den,
            r == num % den,
    ;
    assert(c * num == w * (c * den) + c * r) by (nonlinear_arith)
        requires
            num == w * den + r,
    ;
    assert(0 <= c * r < c * den) by (nonlinear_arith)
        requires
            0 <= r < den,
            c > 0,
    ;
    vstd::arithmetic::div_mod::lemma_fundamental_div_mod_converse(
        (c * num) as int,
        (c * den) as int,
        w as int,
        (c * r) as int,
    );
    assert((2 * (c * r) < c * den) == (2 * r < den)) by (nonlinear_arith)
        requires
            c > 0,
    ;
    assert((2 * (c * r) == c * den) == (2 * r == den)) by (nonlinear_arith)
        requires
            c > 0,
    ;
}

proof fn lemma_nearest_terms(num: nat, den: nat, c: nat)
    requires
        den > 0,
        c > 0,
    ensures
        nearest(c * num, c * den) == nearest(num, den),
    decreases
            (if num < 0x10_0000_0000_0000 * den {
                1nat
            } else {
                0nat
            }),
            (if num < 0x10_0000_0000_0000 * den {
                0x10_0000_0000_0000 * den - num
            } else {
                num - den
            }),
{
    assert((c * num == 0) == (num == 0)) by (nonlinear_arith)
        requires
            c > 0,
    ;
    assert(c * den > 0) by (nonlinear_arith)
        requires
            c > 0,
            den > 0,
    ;
    assert((c * num < 0x10_0000_0000_0000 * (c * den)) == (num < 0x10_0000_0000_0000 * den))
        by (nonlinear_arith)
        requires
            c > 0,
    ;
    assert((c * num >= 0x20_0000_0000_0000 * (c * den)) == (num >= 0x20_0000_0000_0000 * den))
        by (nonlinear_arith)
        requires
            c > 0,
    ;
    assert(2 * (c * num) == c * (2 * num)) by (nonlinear_arith);
    assert(2 * (c * den) == c * (2 * den)) by (nonlinear_arith);
    if num == 0 {
    } else if num < 0x10_0000_0000_0000 * den {
        lemma_nearest_terms(2 * num, den, c);
    } else if num >= 0x20_0000_0000_0000 * den {
        lemma_nearest_terms(num, 2 * den, c);
    } else {
        lemma_half_even_terms(num, den, c);
    }
}

/// Two fractions of one value.
pub open spec fn same_value(a: (nat, nat), b: (nat, nat)) -> bool {
    a.0 * b.1 == b.0 * a.1
}

proof fn lemma_nearest_same(a: (nat, nat), b: (nat, nat))
    requires
        a.1 > 0,
        b.1 > 0,
        same_value(a, b),
    ensures
        nearest(a.0, a.1) == nearest(b.0, b.1),
{
    lemma_nearest_terms(a.0, a.1, b.1);
    lemma_nearest_terms(b.0, b.1, a.1);
    assert(b.1 * a.0 == a.1 * b.0) by (nonlinear_arith)
        requires
            a.0 * b.1 == b.0 * a.1,
    ;
    assert(b.1 * a.1 == a.1 * b.1) by (nonlinear_arith);
}

proof fn lemma_floor_same(a: (nat, nat), b: (nat, nat))
    requires
        a.1 > 0,
        b.1 > 0,
        same_value(a, b),
    ensures
        a.0 / a.1 == b.0 / b.1,
{
    let w = a.0 / a.1;
    let r = a.0 % a.1;
    assert(a.0 == w * a.1 + r && r < a.1) by (nonlinear_arith)
        requires
            a.1 > 0,
            w == a.0 / a.1,
            r == a.0 % a.1,
    ;
    let s = b.0 - w * b.1;
    assert(s * a.1 == r * b.1) by (nonlinear_arith)
        requires
            a.0 == w * a.1 + r,
            a.0 * b.1 == b.0 * a.1,
            s == b.0 - w * b.1,
    ;
    assert(0 <= s < b.1) by (nonlinear_arith)
        requires
            s * a.1 == r * b.1,
            0 <= r < a.1,
            b.1 > 0,
    ;
    vstd::arithmetic::div_mod::lemma_fundamental_div_mod_converse(
        b.0 as int,
        b.1 as int,
        w as int,
        s as int,
    );
}

/// The denominator is positive, and the value is less than twice and more than
/// half of what was rounded.
proof fn lemma_nearest_near(num: nat, den: nat)
    requires
        den > 0,
    ensures
        nearest(num, den).1 > 0,
        nearest(num, den).0 * den <= 2 * num * nearest(num, den).1,
        num * nearest(num, den).1 <= 2 * nearest(num, den).0 * den,
    decreases
            (if num < 0x10_0000_0000_0000 * den {
                1nat
            } else {
                0nat
            }),
            (if num < 0x10_0000_0000_0000 * den {
                0x10_0000_0000_0000 * den - num
            } else {
                num - den
            }),
{
    if num == 0 {
        assert(nearest(num, den) == (0nat, 1nat));
        assert(0 * den <= 2 * num * 1) by (nonlinear_arith)
            requires
                num == 0,
        ;
    } else if num < 0x10_0000_0000_0000 * den {
        lemma_nearest_near(2 * num, den);
        let (n, d) = nearest(2 * num, den);
        assert(n * den <= 2 * num * (2 * d)) by (nonlinear_arith)
            requires
                n * den <= 2 * (2 * num) * d,
        ;
        assert(num * (2 * d) <= 2 * n * den) by (nonlinear_arith)
            requires
                (2 * num) * d <= 2 * n * den,
        ;
    } else if num >= 0x20_0000_0000_0000 * den {
        lemma_nearest_near(num, 2 * den);
        let (n, d) = nearest(num, 2 * den);
        assert((2 * n) * den <= 2 * num * d) by (nonlinear_arith)
            requires
                n * (2 * den) <= 2 * num * d,
        ;
        assert(num * d <= 2 * (2 * n) * den) by (nonlinear_arith)
            requires
                num * d <= 2 * n * (2 * den),
        ;
    } else {
        let w = num / den;
        let r = num % den;
        assert(num == w * den + r && r < den) by (nonlinear_arith)
            requires
                den > 0,
                w == num / den,
                r == num % den,
        ;
        let m = half_even(num, den);
        assert(m * den <= 2 * num) by (nonlinear_arith)
            requires
                m <= w + 1,
                num == w * den + r,
                num >= den,
        ;
        assert(num <= 2 * m * den) by (nonlinear_arith)
            requires
                m >= w,
                num == w * den + r,
                r < den,
                num >= den,
        ;
        assert(m * den <= 2 * num * 1);
    }
}

/// Twice the number is rounded to twice the value.
proof fn lemma_nearest_twice(num: nat, den: nat)
    requires
        den > 0,
    ensures
        nearest(2 * num, den).0 * nearest(num, den).1 == 2 * nearest(num, den).0 * nearest(
            2 * num,
            den,
        ).1,
{
    if num == 0 {
    } else if num < 0x10_0000_0000_0000 * den {
        let (n, d) = nearest(2 * num, den);
        assert(n * (2 * d) == 2 * n * d) by (nonlinear_arith);
    } else {
        lemma_nearest_terms(num, den, 2);
        let (n, d) = nearest(num, den);
        assert(nearest(2 * num, 2 * den) == (n, d));
        assert(nearest(2 * num, den) == (2 * n, d));
        assert((2 * n) * d == 2 * n * d) by (nonlinear_arith);
    }
}

proof fn lemma_nearest_scaled(num: nat, den: nat, k: nat)
    requires
        den > 0,
    ensures
        nearest(num * two(k), den).0 * nearest(num, den).1 == two(k) * nearest(num, den).0
            * nearest(num * two(k), den).1,
    decreases k,
{
    if k == 0 {
        assert(num * two(0) == num) by (nonlinear_arith)
            requires
                two(0) == 1,
        ;
        let (n, d) = nearest(num, den);
        assert(n * d == two(0) * n * d) by (nonlinear_arith)
            requires
                two(0) == 1,
        ;
    } else {
        let j = (k - 1) as nat;
        lemma_nearest_scaled(num, den, j);
        lemma_nearest_twice(num * two(j), den);
        assert(num * two(k) == 2 * (num * two(j))) by (nonlinear_arith)
            requires
                two(k) == 2 * two(j),
        ;
        let (n, d) = nearest(num, den);
        let (a, b) = nearest(num * two(j), den);
        let (e, f) = nearest(num * two(k), den);
        lemma_nearest_near(num * two(j), den);
        lemma_nearest_near(num, den);
        let t = two(j);
        assert(e * d * b == 2 * t * n * f * b) by (nonlinear_arith)
            requires
                e * b == 2 * a * f,
                a * d == t * n * b,
        ;
        assert(e * d == 2 * t * n * f) by (nonlinear_arith)
            requires
                e * d * b == 2 * t * n * f * b,
                b > 0,
        ;
        assert(two(k) * n * f == 2 * t * n * f) by (nonlinear_arith)
            requires
                two(k) == 2 * t,
        ;
    }
}

/// Rounds the fraction `num / den`, whose whole part is `t` and which has a
/// rest where `rest` says so. The result is the first part of the pair, doubled
/// as often as the second part says.
fn round(t: u128, rest: bool, Ghost(num): Ghost<nat>, Ghost(den): Ghost<nat>) -> (r: (u128, u128))
    requires
        t >= 0x20_0000_0000_0000,
        den > 0,
        t * den <= num < (t + 1) * den,
        rest == (num != t * den),
    ensures
        0x10_0000_0000_0000 <= r.0 <= 0x20_0000_0000_0000,
        r.1 <= t,
        nearest(num, den) == ((r.0 * two(r.1 as nat)) as nat, 1nat),
{
    let mut v: u128 = t;
    let mut j: u128 = 0;
    // Whether what was cut off is at least a half, and whether it is more than
    // that (or more than nothing).
    let mut half: bool = false;
    let mut more: bool = rest;
    let ghost mut d = den;
    proof {
        let (a, b) = nearest(num, den);
        assert(a == two(0) * a) by (nonlinear_arith)
            requires
                two(0) == 1,
        ;
    }
    while v >= 0x20_0000_0000_0000
        invariant
            d > 0,
            j + v <= t,
            v >= 0x10_0000_0000_0000,
            j == 0 ==> v == t >= 0x20_0000_0000_0000,
            v * d <= num < (v + 1) * d,
            j == 0 ==> !half && more == (num != v * d),
            j > 0 ==> half == (2 * (num - v * d) >= d),
            j > 0 ==> more == (if half {
                2 * (num - v * d) != d
            } else {
                num != v * d
            }),
            nearest(num, den) == ((two(j as nat) * nearest(num, d).0) as nat, nearest(num, d).1),
        decreases v,
    {
        let ghost r = num - v * d;
        let bit: bool = v % 2 == 1;
        let ghost before = v;
        more = half || more;
        half = bit;
        v = v / 2;
        proof {
            assert(num >= 0x20_0000_0000_0000 * d) by (nonlinear_arith)
                requires
                    before >= 0x20_0000_0000_0000,
                    before * d <= num,
            ;
            let (a, b) = nearest(num, 2 * d);
            assert(two((j + 1) as nat) * a == two(j as nat) * (2 * a)) by (nonlinear_arith)
                requires
                    two((j + 1) as nat) == 2 * two(j as nat),
            ;
            let c = if bit { 1int } else { 0 };
            assert(before == 2 * v + c);
            assert(num - v * (2 * d) == r + c * d) by (nonlinear_arith)
                requires
                    before == 2 * v + c,
                    r == num - before * d,
            ;
            assert((v + 1) * (2 * d) == v * (2 * d) + 2 * d) by (nonlinear_arith);
            assert((before + 1) * d == before * d + d) by (nonlinear_arith);
            assert(c * d == if bit { d as int } else { 0 }) by (nonlinear_arith)
                requires
                    c == if bit { 1int } else { 0 },
            ;
            d = 2 * d;
        }
        j += 1;
    }
    let up: bool = half && (more || v % 2 == 1);
    proof {
        assert((v + 1) * d == v * d + d) by (nonlinear_arith);
        vstd::arithmetic::div_mod::lemma_fundamental_div_mod_converse(
            num as int,
            d as int,
            v as int,
            num - v * d,
        );
        assert(num < 0x20_0000_0000_0000 * d) by (nonlinear_arith)
            requires
                v < 0x20_0000_0000_0000,
                num < (v + 1) * d,
        ;
        assert(num >= 0x10_0000_0000_0000 * d) by (nonlinear_arith)
            requires
                v >= 0x10_0000_0000_0000,
                v * d <= num,
        ;
        assert(num > 0) by (nonlinear_arith)
            requires
                num >= 0x10_0000_0000_0000 * d,
                d > 0,
        ;
    }
    let m: u128 = if up {
        v + 1
    } else {
        v
    };
    assert(m == half_even(num, d));
    assert(m * two(j as nat) == two(j as nat) * m) by (nonlinear_arith);
    (m, j)
}

/// The whole part of a fraction, or the greatest count where that is less.
pub open spec fn count_of(f: (nat, nat)) -> u64 {
    if f.0 / f.1 > u64::MAX {
        u64::MAX
    } else {
        (f.0 / f.1) as u64
    }
}

/// `m`, doubled `up` times and halved `down` times, as a count.
fn shifted(m: u128, up: u128, down: u128) -> (r: u64)
    requires
        m <= 0x20_0000_0000_0000,
    ensures
        r == count_of(((m * two(up as nat)) as nat, two(down as nat))),
{
    let mut v: u128 = m;
    proof {
        lemma_two_adds(up as nat, 0);
        lemma_two_adds(down as nat, 0);
    }
    if up >= down {
        let mut k: u128 = up - down;
        let ghost all = (up - down) as nat;
        proof {
            lemma_two_adds(all, down as nat);
            assert((m * two(up as nat)) * 1 == (m * two(all)) * two(down as nat))
                by (nonlinear_arith)
                requires
                    two(up as nat) == two(all) * two(down as nat),
            ;
            lemma_floor_same(
                ((m * two(up as nat)) as nat, two(down as nat)),
                ((m * two(all)) as nat, 1),
            );
        }
        while k > 0
            invariant
                v <= 0x2_0000_0000_0000_0000,
                k <= all,
                m * two(all) == v * two(k as nat),
                count_of(((m * two(up as nat)) as nat, two(down as nat))) == count_of(
                    ((m * two(all)) as nat, 1),
                ),
            decreases k,
        {
            if v > 0xffff_ffff_ffff_ffff {
                proof {
                    lemma_two_adds(k as nat, 0);
                    assert(v * two(k as nat) >= v) by (nonlinear_arith)
                        requires
                            two(k as nat) >= 1,
                    ;
                }
                return u64::MAX;
            }
            proof {
                assert((2 * v) * two((k - 1) as nat) == v * two(k as nat)) by (nonlinear_arith)
                    requires
                        two(k as nat) == 2 * two((k - 1) as nat),
                ;
            }
            v = 2 * v;
            k = k - 1;
        }
        assert(v * two(0) == v) by (nonlinear_arith)
            requires
                two(0) == 1,
        ;
        if v > 0xffff_ffff_ffff_ffff {
            u64::MAX
        } else {
            v as u64
        }
    } else {
        let mut k: u128 = 0;
        let n: u128 = down - up;
        proof {
            lemma_two_adds(n as nat, up as nat);
            lemma_two_adds(n as nat, 0);
            assert((m * two(up as nat)) * two(n as nat) == m * two(down as nat))
                by (nonlinear_arith)
                requires
                    two(down as nat) == two(n as nat) * two(up as nat),
            ;
            lemma_floor_same(
                ((m * two(up as nat)) as nat, two(down as nat)),
                (m as nat, two(n as nat)),
            );
            assert(m as nat / two(0) == m);
        }
        while k < n
            invariant
                k <= n,
                v <= m <= 0x20_0000_0000_0000,
                v == m as nat / two(k as nat),
            decreases n - k,
        {
            proof {
                lemma_two_adds(k as nat, 0);
                vstd::arithmetic::div_mod::lemma_div_denominator(
                    m as int,
                    two(k as nat) as int,
                    2,
                );
                assert(two(k as nat) * 2 == two((k + 1) as nat));
            }
            v = v / 2;
            k = k + 1;
        }
        v as u64
    }
}

// ---------------------------------------------------------------
// Decimal fractions in binary
// ---------------------------------------------------------------

/// A run of digits behind another.
proof fn lemma_value_joined(a: Seq<u8>, b: Seq<u8>)
    requires
        text::all_digits(b),
    ensures
        text::digits_value(a + b) == text::digits_value(a) * ten(b.len()) + text::digits_value(b),
    decreases b.len(),
{
    if b.len() == 0 {
        assert(a + b =~= a);
        let v = text::digits_value(a);
        assert(v * ten(0) == v) by (nonlinear_arith)
            requires
                ten(0) == 1,
        ;
    } else {
        let c = b.drop_last();
        lemma_value_joined(a, c);
        assert((a + b).drop_last() =~= a + c);
        assert((a + b).last() == b.last());
        let v = text::digits_value(a);
        assert(10 * (v * ten(c.len())) == v * ten(b.len())) by (nonlinear_arith)
            requires
                ten(b.len()) == 10 * ten(c.len()),
        ;
    }
}

/// A run of digits is less than the power of ten of its length, and zero only
/// where every digit is.
proof fn lemma_value_bound(s: Seq<u8>)
    requires
        text::all_digits(s),
    ensures
        text::digits_value(s) < ten(s.len()),
        text::digits_value(s) == 0 <==> forall|i: int| 0 <= i < s.len() ==> #[trigger] s[i] == 48,
    decreases s.len(),
{
    if s.len() > 0 {
        let c = s.drop_last();
        lemma_value_bound(c);
        assert(text::is_digit(s.last()));
        if text::digits_value(s) == 0 {
            assert forall|i: int| 0 <= i < s.len() implies #[trigger] s[i] == 48 by {
                if i < c.len() {
                    assert(c[i] == 48);
                }
            }
        }
        if forall|i: int| 0 <= i < s.len() ==> #[trigger] s[i] == 48 {
            assert forall|i: int| 0 <= i < c.len() implies #[trigger] c[i] == 48 by {
                assert(s[i] == 48);
            }
        }
    }
}

/// The digits from index `i` on: one, and the rest.
proof fn lemma_value_from(s: Seq<u8>, i: int)
    requires
        text::all_digits(s),
        0 <= i < s.len(),
    ensures
        text::digits_value(s.skip(i)) == (s[i] - 48) * ten((s.len() - i - 1) as nat)
            + text::digits_value(s.skip(i + 1)),
{
    let one = seq![s[i]];
    let rest = s.skip(i + 1);
    assert(s.skip(i) =~= one + rest);
    lemma_value_joined(one, rest);
    assert(one.drop_last() =~= Seq::empty());
    assert(text::digits_value(one.drop_last()) == 0);
    assert(text::digits_value(one) == s[i] - 48);
}

/// Doubles a decimal fraction. Returns the digit that is carried before the point.
fn double_fraction(digits: &mut Vec<u8>) -> (carry: u8)
    requires
        text::all_digits(old(digits)@),
    ensures
        text::all_digits(final(digits)@),
        final(digits)@.len() == old(digits)@.len(),
        carry <= 1,
        2 * text::digits_value(old(digits)@) == carry * ten(old(digits)@.len())
            + text::digits_value(final(digits)@),
{
    let ghost before = digits@;
    let ghost n = digits@.len() as int;
    let mut i: usize = digits.len();
    let mut carry: u8 = 0;
    assert(before.skip(n) =~= Seq::empty());
    assert(digits@.skip(n) =~= Seq::empty());
    while i > 0
        invariant
            0 <= i <= n,
            n == before.len() == digits@.len(),
            carry <= 1,
            text::all_digits(before),
            text::all_digits(digits@),
            forall|j: int| 0 <= j < i ==> #[trigger] digits@[j] == before[j],
            2 * text::digits_value(before.skip(i as int)) == carry * ten((n - i) as nat)
                + text::digits_value(digits@.skip(i as int)),
        decreases i,
    {
        let ghost old_carry = carry as int;
        let ghost at = digits@;
        i = i - 1;
        assert(digits@[i as int] == before[i as int]);
        assert(text::is_digit(before[i as int]));
        let twice: u8 = 2 * (digits[i] - 48) + carry;
        let low: u8 = twice % 10;
        carry = twice / 10;
        digits.set(i, 48 + low);
        proof {
            let k = (n - i - 1) as nat;
            let t = ten(k) as int;
            lemma_value_from(before, i as int);
            assert(text::all_digits(digits@));
            lemma_value_from(digits@, i as int);
            assert(digits@.skip(i + 1) =~= at.skip(i + 1));
            let b = before[i as int] - 48;
            assert(2 * (b * t) + old_carry * t == carry * (10 * t) + low * t) by (nonlinear_arith)
                requires
                    2 * b + old_carry == 10 * carry + low,
            ;
            assert(ten((n - i) as nat) == 10 * t);
        }
    }
    assert(before.skip(0) =~= before);
    assert(digits@.skip(0) =~= digits@);
    carry
}

/// Whether any digit is not zero.
fn any_nonzero(digits: &Vec<u8>) -> (r: bool)
    requires
        text::all_digits(digits@),
    ensures
        r == (text::digits_value(digits@) != 0),
{
    proof {
        lemma_value_bound(digits@);
    }
    let mut i: usize = 0;
    while i < digits.len()
        invariant
            i <= digits@.len(),
            forall|j: int| 0 <= j < i ==> #[trigger] digits@[j] == 48,
            text::digits_value(digits@) == 0 <==> forall|j: int|
                0 <= j < digits@.len() ==> #[trigger] digits@[j] == 48,
        decreases digits@.len() - i,
    {
        if digits[i] != 48 {
            return true;
        }
        i += 1;
    }
    false
}

/// The first 68 bits of a decimal fraction, and whether there is a rest.
fn fraction_bits(digits: Vec<u8>) -> (r: (u128, bool))
    requires
        text::all_digits(digits@),
    ensures
        r.0 < two(68),
        r.0 * ten(digits@.len()) <= text::digits_value(digits@) * two(68) < (r.0 + 1) * ten(
            digits@.len(),
        ),
        r.1 == (text::digits_value(digits@) * two(68) != r.0 * ten(digits@.len())),
{
    let ghost v = text::digits_value(digits@);
    let ghost p = ten(digits@.len());
    let mut left = digits;
    let mut bits: u128 = 0;
    let mut k: u128 = 0;
    assert(two(68) == 0x10_0000_0000_0000_0000) by {
        reveal_with_fuel(two, 69);
    }
    assert(v * two(0) == 0 * p + v) by (nonlinear_arith)
        requires
            two(0) == 1,
    ;
    while k < 68
        invariant
            k <= 68,
            text::all_digits(left@),
            p == ten(left@.len()),
            bits < two(k as nat) <= two(68) == 0x10_0000_0000_0000_0000,
            v * two(k as nat) == bits * p + text::digits_value(left@),
        decreases 68 - k,
    {
        let ghost w = text::digits_value(left@);
        let carry: u8 = double_fraction(&mut left);
        proof {
            let next = text::digits_value(left@);
            assert(v * two((k + 1) as nat) == (2 * bits + carry) * p + next) by (nonlinear_arith)
                requires
                    two((k + 1) as nat) == 2 * two(k as nat),
                    v * two(k as nat) == bits * p + w,
                    2 * w == carry * p + next,
            ;
            lemma_two_adds((k + 1) as nat, (67 - k) as nat);
            lemma_two_adds((67 - k) as nat, 0);
            let a = two((k + 1) as nat);
            let b = two((67 - k) as nat);
            assert(a <= a * b) by (nonlinear_arith)
                requires
                    b >= 1,
            ;
        }
        bits = 2 * bits + carry as u128;
        k += 1;
    }
    proof {
        lemma_value_bound(left@);
        assert((bits + 1) * p == bits * p + p) by (nonlinear_arith);
    }
    let rest: bool = any_nonzero(&left);
    (bits, rest)
}

/// `num / den` in double precision, or a thousand times that, as a count.
pub open spec fn counted(num: nat, den: nat, thousandfold: bool) -> u64 {
    let (n, d) = nearest(num, den);
    if thousandfold {
        count_of(nearest(1000 * n, d))
    } else {
        count_of((n, d))
    }
}

proof fn lemma_count_same(a: (nat, nat), b: (nat, nat))
    requires
        a.1 > 0,
        b.1 > 0,
        same_value(a, b),
    ensures
        count_of(a) == count_of(b),
{
    lemma_floor_same(a, b);
}

/// A number of `j` doublings and `s` halvings, rounded.
proof fn lemma_nearest_shifted(a: nat, j: nat, s: nat, m: nat)
    requires
        nearest(a, 1) == (m, 1nat),
    ensures
        nearest(a * two(j), two(s)).1 > 0,
        same_value(nearest(a * two(j), two(s)), (m * two(j), two(s))),
{
    let ts = two(s);
    let tj = two(j);
    lemma_two_adds(s, 0);
    lemma_nearest_terms(a, 1, ts);
    assert(ts * a == a * ts) by (nonlinear_arith);
    assert(ts * 1 == ts);
    lemma_nearest_scaled(a, ts, s);
    lemma_nearest_scaled(a, ts, j);
    lemma_nearest_near(a, ts);
    lemma_nearest_near(a * tj, ts);
    let (p, q) = nearest(a, ts);
    let (u, v) = nearest(a * tj, ts);
    assert(m * q == ts * p * 1);
    assert(u * q == tj * p * v);
    assert(u * ts * q == m * tj * v * q) by (nonlinear_arith)
        requires
            m * q == ts * p,
            u * q == tj * p * v,
    ;
    assert(u * ts == (m * tj) * v) by (nonlinear_arith)
        requires
            u * ts * q == m * tj * v * q,
            q > 0,
    ;
}

/// A number from its whole part and its fraction, as a count.
fn count_parts(whole: u128, frac: Vec<u8>, thousandfold: bool) -> (r: u64)
    requires
        text::all_digits(frac@),
        whole <= 0x1_0000_0000_0000_0000_0000,
        10_000 * (whole * ten(frac@.len()) + text::digits_value(frac@)) >= ten(frac@.len()),
    ensures
        r == counted(
            (whole * ten(frac@.len()) + text::digits_value(frac@)) as nat,
            ten(frac@.len()),
            thousandfold,
        ),
{
    let ghost den = ten(frac@.len());
    let ghost fv = text::digits_value(frac@);
    let ghost num = (whole * den + fv) as nat;
    proof {
        lemma_ten_adds(frac@.len(), 0);
        lemma_value_bound(frac@);
        assert((whole + 1) * den == whole * den + den) by (nonlinear_arith);
        assert(two(68) == 0x10_0000_0000_0000_0000) by {
            reveal_with_fuel(two, 69);
        }
    }
    let m: u128;
    let j: u128;
    let s: u128;
    if whole >= 0x20_0000_0000_0000 {
        let rest: bool = any_nonzero(&frac);
        let r = round(whole, rest, Ghost(num), Ghost(den));
        m = r.0;
        j = r.1;
        s = 0;
        assert(num * two(0) == num) by (nonlinear_arith)
            requires
                two(0) == 1,
        ;
    } else {
        let (bits, rest) = fraction_bits(frac);
        let t: u128 = whole * 0x10_0000_0000_0000_0000 + bits;
        let ghost big = (num * two(68)) as nat;
        proof {
            let ts = two(68);
            assert(big == (whole * ts) * den + fv * ts) by (nonlinear_arith)
                requires
                    big == num * ts,
                    num == whole * den + fv,
            ;
            assert(t * den == (whole * ts) * den + bits * den) by (nonlinear_arith)
                requires
                    t == whole * ts + bits,
            ;
            assert((t + 1) * den == (whole * ts) * den + (bits + 1) * den) by (nonlinear_arith)
                requires
                    t == whole * ts + bits,
            ;
            assert(10_000 * big >= ts * den) by (nonlinear_arith)
                requires
                    big == num * ts,
                    10_000 * num >= den,
                    ts > 0,
            ;
            assert(10_000 * (t + 1) * den > ts * den) by (nonlinear_arith)
                requires
                    10_000 * big >= ts * den,
                    big < (t + 1) * den,
            ;
            assert(10_000 * (t + 1) > ts) by (nonlinear_arith)
                requires
                    10_000 * (t + 1) * den > ts * den,
                    den > 0,
            ;
        }
        let r = round(t, rest, Ghost(big), Ghost(den));
        m = r.0;
        j = r.1;
        s = 68;
    }
    proof {
        lemma_nearest_scaled(num, den, s as nat);
        lemma_nearest_near(num, den);
        lemma_two_adds(s as nat, 0);
        let (n, d) = nearest(num, den);
        let mj = (m * two(j as nat)) as nat;
        assert(mj * d == two(s as nat) * n * 1);
        assert(n * two(s as nat) == mj * d) by (nonlinear_arith)
            requires
                mj * d == two(s as nat) * n * 1,
        ;
        assert(same_value((n, d), (mj, two(s as nat))));
        lemma_count_same((n, d), (mj, two(s as nat)));
    }
    if thousandfold {
        let (m2, j2) = round(m * 1000, false, Ghost((m * 1000) as nat), Ghost(1));
        proof {
            let ts = two(s as nat);
            let tj = two(j as nat);
            let (n, d) = nearest(num, den);
            let a = (m * 1000) as nat;
            assert((1000 * n) * ts == (a * tj) * d) by (nonlinear_arith)
                requires
                    n * ts == (m * tj) * d,
                    a == m * 1000,
            ;
            lemma_nearest_same(((1000 * n) as nat, d), ((a * tj) as nat, ts));
            let c = (m2 * two(j2 as nat)) as nat;
            lemma_nearest_shifted(a, j as nat, s as nat, c);
            lemma_two_adds(j2 as nat, j as nat);
            assert(c * tj == m2 * two((j2 + j) as nat)) by (nonlinear_arith)
                requires
                    c == m2 * two(j2 as nat),
                    two((j2 + j) as nat) == two(j2 as nat) * tj,
            ;
            lemma_count_same(nearest((a * tj) as nat, ts), ((c * tj) as nat, ts));
        }
        shifted(m2, j2 + j, s)
    } else {
        shifted(m, j, s)
    }
}

// ---------------------------------------------------------------
// Texts
// ---------------------------------------------------------------

/// What the text of a number says.
pub enum Number {
    NotANumber,
    Infinite { negative: bool },
    /// The digits as a whole number, times ten to the power of `scale`.
    Finite { negative: bool, digits: Seq<u8>, scale: int },
}

/// `b` spells `name`, in capitals or not.
pub open spec fn spells(b: Seq<u8>, name: Seq<char>) -> bool {
    text::same_ignoring_case(b, encode_utf8(name))
}

/// Digits with a point before, between or behind them: the digits, and how many
/// stand behind the point.
pub open spec fn point_number(b: Seq<u8>) -> Option<(Seq<u8>, nat)> {
    let (whole, frac) = match text::first_from(b, 0, 46) {
        Some(at) => (b.subrange(0, at), b.subrange(at + 1, b.len() as int)),
        None => (b, Seq::empty()),
    };
    if whole.len() + frac.len() > 0 && text::all_digits(whole) && text::all_digits(frac) {
        Some((whole + frac, frac.len()))
    } else {
        None
    }
}

/// Where the letter of an exponent stands.
pub open spec fn exponent_at(b: Seq<u8>) -> Option<int> {
    match text::first_from(b, 0, 101) {
        Some(at) => Some(at),
        None => text::first_from(b, 0, 69),
    }
}

/// Digits with a point, perhaps with an exponent: the digits, and the scale.
pub open spec fn plain_number(b: Seq<u8>) -> Option<(Seq<u8>, int)> {
    match exponent_at(b) {
        Some(at) => match (
            point_number(b.subrange(0, at)),
            text::signed_value(b.subrange(at + 1, b.len() as int)),
        ) {
            (Some((digits, behind)), Some(exponent)) => Some((digits, exponent - behind)),
            _ => None,
        },
        None => match point_number(b) {
            Some((digits, behind)) => Some((digits, -(behind as int))),
            None => None,
        },
    }
}

/// The number that a text denotes, if it denotes one.
pub open spec fn number(b: Seq<u8>) -> Option<Number> {
    let negative = b.len() > 0 && b[0] == 45;
    let body = if b.len() > 0 && (b[0] == 43 || b[0] == 45) {
        b.subrange(1, b.len() as int)
    } else {
        b
    };
    if spells(body, "inf"@) || spells(body, "infinity"@) {
        Some(Number::Infinite { negative })
    } else if spells(body, "nan"@) {
        Some(Number::NotANumber)
    } else {
        match plain_number(body) {
            Some((digits, scale)) => Some(Number::Finite { negative, digits, scale }),
            None => None,
        }
    }
}

/// Digits and a scale as a fraction.
pub open spec fn fraction(digits: Seq<u8>, scale: int) -> (nat, nat) {
    if scale >= 0 {
        (text::digits_value(digits) * ten(scale as nat), 1)
    } else {
        (text::digits_value(digits), ten((-scale) as nat))
    }
}

/// The count that a text denotes: its number in double precision, or a thousand
/// times that, cut to a whole number and to the counts that there are.
pub open spec fn count_text(b: Seq<u8>, thousandfold: bool) -> Option<u64> {
    match number(b) {
        None => None,
        Some(Number::NotANumber) => Some(0),
        Some(Number::Infinite { negative }) => Some(
            if negative {
                0
            } else {
                u64::MAX
            },
        ),
        Some(Number::Finite { negative, digits, scale }) => Some(
            if negative {
                0
            } else {
                counted(fraction(digits, scale).0, fraction(digits, scale).1, thousandfold)
            },
        ),
    }
}

proof fn lemma_ten_grows(a: nat, b: nat)
    requires
        a <= b,
    ensures
        0 < ten(a) <= ten(b),
{
    lemma_ten_adds(a, (b - a) as nat);
    lemma_ten_adds((b - a) as nat, 0);
    let x = ten(a);
    let y = ten((b - a) as nat);
    assert(x <= x * y) by (nonlinear_arith)
        requires
            y >= 1,
    ;
}

/// A number without leading zeros is at least the power of ten of its length
/// less one.
proof fn lemma_value_least(s: Seq<u8>)
    requires
        text::all_digits(s),
        s.len() > 0,
        s[0] != 48,
    ensures
        text::digits_value(s) >= ten((s.len() - 1) as nat),
{
    lemma_value_from(s, 0);
    assert(s.skip(0) =~= s);
    assert(text::is_digit(s[0]));
    let t = ten((s.len() - 1) as nat);
    assert((s[0] - 48) * t >= t) by (nonlinear_arith)
        requires
            s[0] >= 49,
            t >= 0,
    ;
}

proof fn lemma_zeros(s: Seq<u8>)
    requires
        forall|i: int| 0 <= i < s.len() ==> #[trigger] s[i] == 48,
    ensures
        text::all_digits(s),
        text::digits_value(s) == 0,
{
    assert(text::all_digits(s));
    lemma_value_bound(s);
}

/// Leading zeros do not count.
proof fn lemma_leading_zeros(zeros: Seq<u8>, s: Seq<u8>)
    requires
        forall|i: int| 0 <= i < zeros.len() ==> #[trigger] zeros[i] == 48,
        text::all_digits(s),
    ensures
        text::all_digits(zeros + s),
        text::digits_value(zeros + s) == text::digits_value(s),
{
    lemma_zeros(zeros);
    lemma_value_joined(zeros, s);
    assert(0 * ten(s.len()) == 0) by (nonlinear_arith);
}

/// From 10^20 on, every number stands for the greatest count.
proof fn lemma_count_large(num: nat, den: nat, thousandfold: bool)
    requires
        den > 0,
        num >= ten(20) * den,
    ensures
        counted(num, den, thousandfold) == u64::MAX,
{
    assert(ten(20) == 100_000_000_000_000_000_000) by {
        reveal_with_fuel(ten, 21);
    }
    let t = ten(20) as int;
    lemma_nearest_near(num, den);
    let (n, d) = nearest(num, den);
    assert(t * d <= 2 * n) by (nonlinear_arith)
        requires
            num * d <= 2 * n * den,
            num >= t * den,
            den > 0,
    ;
    if thousandfold {
        lemma_nearest_near(1000 * n, d);
        let (n2, d2) = nearest(1000 * n, d);
        assert(500 * t * d2 <= 2 * n2) by (nonlinear_arith)
            requires
                (1000 * n) * d2 <= 2 * n2 * d,
                t * d <= 2 * n,
                d > 0,
        ;
        assert(n2 / d2 > u64::MAX) by (nonlinear_arith)
            requires
                500 * t * d2 <= 2 * n2,
                t == 100_000_000_000_000_000_000,
                d2 > 0,
        ;
    } else {
        assert(n / d > u64::MAX) by (nonlinear_arith)
            requires
                t * d <= 2 * n,
                t == 100_000_000_000_000_000_000,
                d > 0,
        ;
    }
}

/// Below 10^-4, every number stands for zero, and so does a thousand times that.
proof fn lemma_count_tiny(num: nat, den: nat, thousandfold: bool)
    requires
        den > 0,
        10_000 * num < den,
    ensures
        counted(num, den, thousandfold) == 0,
{
    lemma_nearest_near(num, den);
    let (n, d) = nearest(num, den);
    if num == 0 {
        assert((n, d) == (0nat, 1nat));
    }
    assert(10_000 * n <= 2 * d) by (nonlinear_arith)
        requires
            n * den <= 2 * num * d,
            10_000 * num < den,
            num == 0 ==> n == 0,
            d > 0,
    ;
    if thousandfold {
        lemma_nearest_near(1000 * n, d);
        let (n2, d2) = nearest(1000 * n, d);
        assert(10 * n2 <= 4 * d2) by (nonlinear_arith)
            requires
                n2 * d <= 2 * (1000 * n) * d2,
                10_000 * n <= 2 * d,
                d > 0,
        ;
        vstd::arithmetic::div_mod::lemma_basic_div(n2 as int, d2 as int);
    } else {
        vstd::arithmetic::div_mod::lemma_basic_div(n as int, d as int);
    }
}

/// `e` stands for `v`: it is `v`, or both lie beyond all bounds of use.
spec fn stands_for(e: int, v: int) -> bool {
    ||| e == v
    ||| e >= 0x1_0000_0000_0000_0000_0000 && v >= 0x1_0000_0000_0000_0000_0000
    ||| e <= -0x1_0000_0000_0000_0000_0000 && v <= -0x1_0000_0000_0000_0000_0000
}

/// Reads one or more digits from `start` on. Very large numbers are cut short.
fn read_digits(buf: &[u8], start: usize) -> (r: Option<u128>)
    requires
        start <= buf@.len(),
    ensures
        match r {
            Some(n) => {
                let digits = buf@.skip(start as int);
                &&& digits.len() > 0
                &&& text::all_digits(digits)
                &&& stands_for(n as int, text::digits_value(digits) as int)
                &&& n < 0x1_0000_0000_0000_0000_0000_0000
            },
            None => {
                let digits = buf@.skip(start as int);
                digits.len() == 0 || !text::all_digits(digits)
            },
        },
{
    let ghost digits = buf@.skip(start as int);
    if start == buf.len() {
        return None;
    }
    let mut acc: u128 = 0;
    let mut i: usize = start;
    assert(digits.take(0) =~= Seq::empty());
    while i < buf.len()
        invariant
            start <= i <= buf@.len(),
            digits == buf@.skip(start as int),
            text::all_digits(digits.take(i - start)),
            acc < 0x1_0000_0000_0000_0000_0000_0000,
            acc == text::digits_value(digits.take(i - start)) || (acc
                >= 0x1_0000_0000_0000_0000_0000 && text::digits_value(digits.take(i - start))
                >= 0x1_0000_0000_0000_0000_0000),
        decreases buf@.len() - i,
    {
        let b: u8 = buf[i];
        assert(digits[i - start] == b);
        if b < 48 || b > 57 {
            assert(!text::is_digit(digits[i - start]));
            return None;
        }
        proof {
            let next = digits.take(i + 1 - start);
            assert(next.drop_last() =~= digits.take(i - start));
            assert(next.last() == b);
            assert forall|k: int| 0 <= k < next.len() implies text::is_digit(#[trigger] next[k]) by {
                if k < i - start {
                    assert(digits.take(i - start)[k] == next[k]);
                }
            }
        }
        if acc < 0x1_0000_0000_0000_0000_0000 {
            acc = 10 * acc + (b - 48) as u128;
        }
        i += 1;
    }
    assert(digits.take(i - start) =~= digits);
    Some(acc)
}

/// Reads the number behind the letter of an exponent.
fn read_exponent(buf: &[u8]) -> (r: Option<i128>)
    ensures
        match r {
            Some(e) => {
                &&& text::signed_value(buf@) matches Some(v)
                &&& stands_for(e as int, v)
                &&& -0x1_0000_0000_0000_0000_0000_0000 < e < 0x1_0000_0000_0000_0000_0000_0000
            },
            None => text::signed_value(buf@) is None,
        },
{
    let negative: bool = buf.len() > 0 && buf[0] == 45;
    let start: usize = if buf.len() > 0 && (buf[0] == 43 || buf[0] == 45) {
        1
    } else {
        0
    };
    assert(buf@.skip(0) =~= buf@);
    match read_digits(buf, start) {
        Some(n) => Some(
            if negative {
                -(n as i128)
            } else {
                n as i128
            },
        ),
        None => None,
    }
}

fn digits_only(buf: &[u8]) -> (r: bool)
    ensures
        r == text::all_digits(buf@),
{
    let mut i: usize = 0;
    while i < buf.len()
        invariant
            i <= buf@.len(),
            forall|j: int| 0 <= j < i ==> text::is_digit(#[trigger] buf@[j]),
        decreases buf@.len() - i,
    {
        if buf[i] < 48 || buf[i] > 57 {
            assert(!text::is_digit(buf@[i as int]));
            return false;
        }
        i += 1;
    }
    true
}

/// Reads digits with a point: the digits, and how many stand behind the point.
fn read_point_number(buf: &[u8]) -> (r: Option<(Vec<u8>, usize)>)
    ensures
        match r {
            Some((digits, behind)) => point_number(buf@) == Some((digits@, behind as nat)),
            None => point_number(buf@) is None,
        },
{
    let len: usize = buf.len();
    let at = text::find_from(buf, 0, 46);
    let (end, start): (usize, usize) = match at {
        Some(at) => {
            proof {
                text::lemma_first_from(buf@, 0, 46);
            }
            (at, at + 1)
        },
        None => (len, len),
    };
    let whole = vstd::slice::slice_subrange(buf, 0, end);
    let frac = vstd::slice::slice_subrange(buf, start, len);
    assert(at is None ==> whole@ =~= buf@ && frac@ =~= Seq::empty());
    if whole.len() == 0 && frac.len() == 0 {
        return None;
    }
    if !digits_only(whole) || !digits_only(frac) {
        return None;
    }
    let mut digits: Vec<u8> = vstd::slice::slice_to_vec(whole);
    text::push_bytes(&mut digits, frac);
    Some((digits, len - start))
}

/// Reads a whole number of at most 20 digits.
fn read_whole(digits: &[u8]) -> (r: u128)
    requires
        text::all_digits(digits@),
        digits@.len() <= 20,
    ensures
        r == text::digits_value(digits@),
        r < 100_000_000_000_000_000_000,
{
    let mut acc: u128 = 0;
    let mut i: usize = 0;
    assert(digits@.take(0) =~= Seq::empty());
    assert(ten(20) == 100_000_000_000_000_000_000) by {
        reveal_with_fuel(ten, 21);
    }
    while i < digits.len()
        invariant
            i <= digits@.len() <= 20,
            text::all_digits(digits@),
            ten(20) == 100_000_000_000_000_000_000,
            acc == text::digits_value(digits@.take(i as int)),
            acc < ten(i as nat),
        decreases digits@.len() - i,
    {
        proof {
            let next = digits@.take(i + 1);
            assert(next.drop_last() =~= digits@.take(i as int));
            assert(next.last() == digits@[i as int]);
            assert(text::is_digit(digits@[i as int]));
            lemma_ten_grows(i as nat, 20);
            assert(ten((i + 1) as nat) == 10 * ten(i as nat));
        }
        acc = 10 * acc + (digits[i] - 48) as u128;
        i += 1;
    }
    proof {
        assert(digits@.take(i as int) =~= digits@);
        lemma_ten_grows(i as nat, 20);
    }
    acc
}

fn push_zeros(out: &mut Vec<u8>, count: usize)
    ensures
        final(out)@ == old(out)@ + Seq::new(count as nat, |i: int| 48u8),
{
    let mut i: usize = 0;
    assert(out@ =~= old(out)@ + Seq::new(0, |i: int| 48u8));
    while i < count
        invariant
            i <= count,
            out@ == old(out)@ + Seq::new(i as nat, |i: int| 48u8),
        decreases count - i,
    {
        out.push(48);
        assert(out@ =~= old(out)@ + Seq::new((i + 1) as nat, |i: int| 48u8));
        i += 1;
    }
}

/// `known` stands for a scale: it is the scale, or both lie beyond all bounds of
/// use.
spec fn scale_known(known: int, scale: int) -> bool {
    &&& -0x8_0000_0000_0000_0000_0000_0000 < known < 0x8_0000_0000_0000_0000_0000_0000
    &&& {
        ||| known == scale
        ||| known > 0x8000_0000_0000_0000_0000 && scale > 0x8000_0000_0000_0000_0000
        ||| known < -0x8000_0000_0000_0000_0000 && scale < -0x8000_0000_0000_0000_0000
    }
}

/// A number without leading zeros.
spec fn is_stripped(digits: Seq<u8>) -> bool {
    text::all_digits(digits) && digits.len() > 0 && digits[0] != 48
}

proof fn lemma_large_digits(digits: Seq<u8>, scale: int, thousandfold: bool)
    requires
        is_stripped(digits),
        digits.len() + scale > 20,
    ensures
        counted(fraction(digits, scale).0, fraction(digits, scale).1, thousandfold) == u64::MAX,
{
    let n = digits.len() as int;
    let v = text::digits_value(digits);
    let (num, den) = fraction(digits, scale);
    lemma_value_least(digits);
    let a = ten((n - 1) as nat);
    if scale >= 0 {
        lemma_ten_adds((n - 1) as nat, scale as nat);
        lemma_ten_adds(scale as nat, 0);
        let b = ten(scale as nat);
        assert(v * b >= a * b) by (nonlinear_arith)
            requires
                v >= a,
                b >= 0,
        ;
        lemma_ten_grows(20, (n - 1 + scale) as nat);
        assert(ten(20) * 1 == ten(20));
    } else {
        lemma_ten_adds((-scale) as nat, 0);
        lemma_ten_adds((n - 1 + scale) as nat, (-scale) as nat);
        lemma_ten_grows(20, (n - 1 + scale) as nat);
        let c = ten((n - 1 + scale) as nat);
        assert(c * den >= ten(20) * den) by (nonlinear_arith)
            requires
                c >= ten(20),
        ;
    }
    lemma_count_large(num, den, thousandfold);
}

proof fn lemma_tiny_digits(digits: Seq<u8>, scale: int, thousandfold: bool)
    requires
        is_stripped(digits),
        digits.len() + scale <= -4,
    ensures
        counted(fraction(digits, scale).0, fraction(digits, scale).1, thousandfold) == 0,
{
    let n = digits.len();
    let (num, den) = fraction(digits, scale);
    lemma_value_bound(digits);
    lemma_ten_adds(4, n);
    lemma_ten_grows((n + 4) as nat, (-scale) as nat);
    assert(ten(4) == 10_000) by {
        reveal_with_fuel(ten, 5);
    }
    lemma_count_tiny(num, den, thousandfold);
}

proof fn lemma_not_tiny(digits: Seq<u8>, scale: int)
    requires
        is_stripped(digits),
        digits.len() + scale > -4,
    ensures
        10_000 * fraction(digits, scale).0 >= fraction(digits, scale).1,
{
    let n = digits.len() as int;
    let v = text::digits_value(digits);
    let (num, den) = fraction(digits, scale);
    let before = n + scale;
    lemma_value_least(digits);
    let a = ten((n - 1) as nat);
    if scale < 0 {
        if before <= 1 {
            lemma_ten_adds((n - 1) as nat, (1 - before) as nat);
            lemma_ten_grows((1 - before) as nat, 4);
            assert(ten(4) == 10_000) by {
                reveal_with_fuel(ten, 5);
            }
            let b = ten((1 - before) as nat);
            assert(a * b <= 10_000 * v) by (nonlinear_arith)
                requires
                    a <= v,
                    0 <= b <= 10_000,
                    a >= 0,
            ;
            assert(-scale == n - 1 + (1 - before));
        } else {
            lemma_ten_grows((-scale) as nat, (n - 1) as nat);
        }
    } else {
        lemma_ten_adds((n - 1) as nat, scale as nat);
        lemma_ten_adds(scale as nat, 0);
        lemma_ten_grows(0, (n - 1 + scale) as nat);
        let b = ten(scale as nat);
        assert(v * b >= a * b) by (nonlinear_arith)
            requires
                v >= a,
                b >= 0,
        ;
    }
}

/// Parts a number at its point, of which `before` says how many digits stand
/// before it.
fn split_at_point(digits: &[u8], before: i128) -> (r: (Vec<u8>, Vec<u8>))
    requires
        text::all_digits(digits@),
        -4 < before <= 20,
    ensures
        text::all_digits(r.0@),
        text::all_digits(r.1@),
        r.0@.len() <= 20,
        fraction(digits@, before - digits@.len()) == (
            (text::digits_value(r.0@) * ten(r.1@.len()) + text::digits_value(r.1@)) as nat,
            ten(r.1@.len()),
        ),
{
    let n: usize = digits.len();
    let mut whole: Vec<u8> = Vec::new();
    let mut frac: Vec<u8> = Vec::new();
    if before >= n as i128 {
        let more: usize = (before - n as i128) as usize;
        text::push_bytes(&mut whole, digits);
        push_zeros(&mut whole, more);
        proof {
            let zeros = Seq::new(more as nat, |i: int| 48u8);
            lemma_zeros(zeros);
            lemma_value_joined(digits@, zeros);
            assert(whole@ =~= digits@ + zeros);
            assert(frac@ =~= Seq::empty());
            let v = text::digits_value(whole@);
            assert(v * ten(0) == v) by (nonlinear_arith)
                requires
                    ten(0) == 1,
            ;
        }
    } else if before > 0 {
        let cut: usize = before as usize;
        text::push_bytes(&mut whole, vstd::slice::slice_subrange(digits, 0, cut));
        text::push_bytes(&mut frac, vstd::slice::slice_subrange(digits, cut, n));
        proof {
            assert(digits@ =~= whole@ + frac@);
            lemma_value_joined(whole@, frac@);
        }
    } else {
        let more: usize = (-before) as usize;
        push_zeros(&mut frac, more);
        text::push_bytes(&mut frac, digits);
        proof {
            let zeros = Seq::new(more as nat, |i: int| 48u8);
            assert(frac@ =~= zeros + digits@);
            lemma_leading_zeros(zeros, digits@);
            assert(whole@ =~= Seq::empty());
            assert(0 * ten(frac@.len()) == 0) by (nonlinear_arith);
        }
    }
    (whole, frac)
}

/// The count of a number without leading zeros, whose scale is known as `known`.
fn count_digits(digits: &[u8], known: i128, thousandfold: bool, Ghost(scale): Ghost<int>) -> (r:
    u64)
    requires
        is_stripped(digits@),
        scale_known(known as int, scale),
    ensures
        r == counted(fraction(digits@, scale).0, fraction(digits@, scale).1, thousandfold),
{
    // How many digits stand before the point.
    let before: i128 = digits.len() as i128 + known;
    if before > 20 {
        proof {
            lemma_large_digits(digits@, scale, thousandfold);
        }
        return u64::MAX;
    }
    if before <= -4 {
        proof {
            lemma_tiny_digits(digits@, scale, thousandfold);
        }
        return 0;
    }
    assert(known == scale);
    let (whole, frac) = split_at_point(digits, before);
    proof {
        lemma_not_tiny(digits@, scale);
    }
    let w: u128 = read_whole(whole.as_slice());
    count_parts(w, frac, thousandfold)
}

/// Reads digits with a point, perhaps with an exponent: the digits, and the scale
/// as far as it is known.
fn read_plain_number(body: &[u8]) -> (r: Option<(Vec<u8>, i128)>)
    ensures
        match r {
            Some((digits, known)) => {
                &&& plain_number(body@) matches Some((want, scale))
                &&& digits@ == want
                &&& text::all_digits(want)
                &&& scale_known(known as int, scale)
            },
            None => plain_number(body@) is None,
        },
{
    let len: usize = body.len();
    let at = match text::find_from(body, 0, 101) {
        Some(at) => Some(at),
        None => text::find_from(body, 0, 69),
    };
    proof {
        text::lemma_first_from(body@, 0, 101);
        text::lemma_first_from(body@, 0, 69);
    }
    let (mantissa, exponent) = match at {
        Some(at) => (
            vstd::slice::slice_subrange(body, 0, at),
            read_exponent(vstd::slice::slice_subrange(body, at + 1, len)),
        ),
        None => (body, Some(0)),
    };
    let (digits, behind) = match read_point_number(mantissa) {
        Some(found) => found,
        None => {
            return None;
        },
    };
    let exponent: i128 = match exponent {
        Some(e) => e,
        None => {
            return None;
        },
    };
    proof {
        assert forall|i: int| 0 <= i < digits@.len() implies text::is_digit(
            #[trigger] digits@[i],
        ) by {}
    }
    Some((digits, exponent - behind as i128))
}

/// The count of a number whose scale is known as `known`.
fn count_number(digits: &Vec<u8>, known: i128, thousandfold: bool, Ghost(scale): Ghost<int>) -> (r:
    u64)
    requires
        text::all_digits(digits@),
        scale_known(known as int, scale),
    ensures
        r == counted(fraction(digits@, scale).0, fraction(digits@, scale).1, thousandfold),
{
    let mut zeros: usize = 0;
    while zeros < digits.len() && digits[zeros] == 48
        invariant
            zeros <= digits@.len(),
            forall|i: int| 0 <= i < zeros ==> #[trigger] digits@[i] == 48,
        decreases digits@.len() - zeros,
    {
        zeros += 1;
    }
    let ghost rest = digits@.skip(zeros as int);
    proof {
        assert(digits@.take(zeros as int) + rest =~= digits@);
        assert forall|i: int| 0 <= i < rest.len() implies text::is_digit(#[trigger] rest[i]) by {
            assert(text::is_digit(digits@[i + zeros]));
        }
        lemma_leading_zeros(digits@.take(zeros as int), rest);
    }
    if zeros == digits.len() {
        proof {
            assert(rest =~= Seq::empty());
            let (num, den) = fraction(digits@, scale);
            assert(num == 0) by (nonlinear_arith)
                requires
                    scale >= 0 ==> num == text::digits_value(digits@) * ten(scale as nat),
                    scale < 0 ==> num == text::digits_value(digits@),
                    text::digits_value(digits@) == 0,
            ;
            assert(nearest(num, den) == (0nat, 1nat));
        }
        return 0;
    }
    let slice = vstd::slice::slice_subrange(digits.as_slice(), zeros, digits.len());
    assert(slice@ =~= rest);
    count_digits(slice, known, thousandfold, Ghost(scale))
}

/// Reads the count that a text denotes.
pub fn parse_count(buf: &[u8], thousandfold: bool) -> (r: Option<u64>)
    ensures
        r == count_text(buf@, thousandfold),
{
    let negative: bool = buf.len() > 0 && buf[0] == 45;
    let start: usize = if buf.len() > 0 && (buf[0] == 43 || buf[0] == 45) {
        1
    } else {
        0
    };
    let body = vstd::slice::slice_subrange(buf, start, buf.len());
    assert(start == 0 ==> body@ =~= buf@);
    if text::eq_ignore_case(body, "inf".as_bytes()) || text::eq_ignore_case(
        body,
        "infinity".as_bytes(),
    ) {
        return Some(
            if negative {
                0
            } else {
                u64::MAX
            },
        );
    }
    if text::eq_ignore_case(body, "nan".as_bytes()) {
        return Some(0);
    }
    match read_plain_number(body) {
        None => None,
        Some((digits, known)) => if negative {
            Some(0)
        } else {
            let ghost scale = (plain_number(body@)->0).1;
            Some(count_number(&digits, known, thousandfold, Ghost(scale)))
        },
    }
}

// ---------------------------------------------------------------
// Whole numbers
// ---------------------------------------------------------------

/// A whole number of at most 53 bits is not changed by rounding.
proof fn lemma_whole_is_exact(t: nat, num: nat, den: nat)
    requires
        den > 0,
        t < 0x20_0000_0000_0000,
        num == t * den,
    ensures
        nearest(num, den).1 > 0,
        nearest(num, den).0 == t * nearest(num, den).1,
    decreases 0x20_0000_0000_0000 - t,
{
    lemma_nearest_near(num, den);
    if t == 0 {
        assert(num == 0) by (nonlinear_arith)
            requires
                num == t * den,
                t == 0,
        ;
        assert(nearest(num, den) == (0nat, 1nat));
    } else {
        assert(num > 0 && num < 0x20_0000_0000_0000 * den) by (nonlinear_arith)
            requires
                num == t * den,
                0 < t < 0x20_0000_0000_0000,
                den > 0,
        ;
        if num < 0x10_0000_0000_0000 * den {
            assert(t < 0x10_0000_0000_0000) by (nonlinear_arith)
                requires
                    num == t * den,
                    num < 0x10_0000_0000_0000 * den,
            ;
            assert(2 * num == (2 * t) * den) by (nonlinear_arith)
                requires
                    num == t * den,
            ;
            lemma_whole_is_exact(2 * t, 2 * num, den);
            let (n, d) = nearest(2 * num, den);
            assert(n == t * (2 * d)) by (nonlinear_arith)
                requires
                    n == (2 * t) * d,
            ;
        } else {
            vstd::arithmetic::div_mod::lemma_fundamental_div_mod_converse(
                num as int,
                den as int,
                t as int,
                0,
            );
            assert(half_even(num, den) == t);
            assert(t * 1 == t);
        }
    }
}

/// Law: a whole number that 53 bits can hold stands for itself, and a thousand
/// times it for the product.
pub proof fn law_whole_numbers_are_exact(n: nat)
    ensures
        n < 0x20_0000_0000_0000 ==> counted(n, 1, false) == n,
        1000 * n < 0x20_0000_0000_0000 ==> counted(n, 1, true) == 1000 * n,
{
    if n < 0x20_0000_0000_0000 {
        lemma_whole_is_exact(n, n, 1);
        let (a, b) = nearest(n, 1);
        vstd::arithmetic::div_mod::lemma_fundamental_div_mod_converse(
            a as int,
            b as int,
            n as int,
            0,
        );
        if 1000 * n < 0x20_0000_0000_0000 {
            assert(1000 * a == (1000 * n) * b) by (nonlinear_arith)
                requires
                    a == n * b,
            ;
            lemma_whole_is_exact(1000 * n, 1000 * a, b);
            let (c, d) = nearest(1000 * a, b);
            vstd::arithmetic::div_mod::lemma_fundamental_div_mod_converse(
                c as int,
                d as int,
                (1000 * n) as int,
                0,
            );
        }
    }
}

/// A text that begins with a digit spells no name that begins with a letter.
proof fn lemma_digit_spells_nothing(b: Seq<u8>, name: Seq<char>)
    requires
        b.len() > 0,
        text::is_digit(b[0]),
        name.len() > 0,
        is_ascii_chars(name),
        name[0] == 'i' || name[0] == 'n',
    ensures
        !spells(b, name),
{
    is_ascii_chars_encode_utf8(name);
    let w = encode_utf8(name);
    assert(w.len() == name.len());
    assert(name[0] as u8 == w[0]);
    if spells(b, name) {
        assert(text::lower(b[0]) == text::lower(w[0]));
    }
}

/// Law: the decimal notation of a whole number denotes that number, so EX counts
/// in seconds and PX in milliseconds.
pub proof fn law_decimal_counts(n: nat)
    ensures
        n < 0x20_0000_0000_0000 ==> count_text(text::decimal(n), false) == Some(n as u64),
        1000 * n < 0x20_0000_0000_0000 ==> count_text(text::decimal(n), true) == Some(
            (1000 * n) as u64,
        ),
{
    let b = text::decimal(n);
    text::law_decimal_roundtrip(n);
    text::lemma_decimal_digits(n);
    assert(text::is_digit(b[0]));
    reveal_strlit("inf");
    reveal_strlit("infinity");
    reveal_strlit("nan");
    lemma_digit_spells_nothing(b, "inf"@);
    lemma_digit_spells_nothing(b, "infinity"@);
    lemma_digit_spells_nothing(b, "nan"@);
    assert forall|i: int| 0 <= i < b.len() implies #[trigger] b[i] != 46 && b[i] != 101 && b[i]
        != 69 by {
        assert(text::is_digit(b[i]));
    }
    text::lemma_first_from(b, 0, 46);
    text::lemma_first_from(b, 0, 101);
    text::lemma_first_from(b, 0, 69);
    assert(b + Seq::<u8>::empty() =~= b);
    assert(plain_number(b) == Some((b, 0int)));
    assert(text::digits_value(b) == n) by {
        assert(b.len() > 0 && b[0] != 43);
    }
    assert(n * ten(0) == n) by (nonlinear_arith)
        requires
            ten(0) == 1,
    ;
    law_whole_numbers_are_exact(n);
}

proof fn lemma_letters(b: Seq<u8>)
    requires
        b.len() > 0,
        text::is_digit(b[0]),
    ensures
        !spells(b, "inf"@) && !spells(b, "infinity"@) && !spells(b, "nan"@),
{
    reveal_strlit("inf");
    reveal_strlit("infinity");
    reveal_strlit("nan");
    lemma_digit_spells_nothing(b, "inf"@);
    lemma_digit_spells_nothing(b, "infinity"@);
    lemma_digit_spells_nothing(b, "nan"@);
}

/// Law: a plus sign in front of a number changes nothing, and a number with a minus
/// sign counts as nothing.
pub proof fn law_signs_of_counts(n: nat, thousandfold: bool)
    ensures
        count_text(seq![43u8] + text::decimal(n), thousandfold) == count_text(
            text::decimal(n),
            thousandfold,
        ),
        count_text(seq![45u8] + text::decimal(n), thousandfold) == Some(0u64),
{
    let b = text::decimal(n);
    text::lemma_decimal_digits(n);
    assert(text::is_digit(b[0]));
    lemma_letters(b);
    let plus = seq![43u8] + b;
    let minus = seq![45u8] + b;
    assert(plus.subrange(1, plus.len() as int) =~= b);
    assert(minus.subrange(1, minus.len() as int) =~= b);
    assert forall|i: int| 0 <= i < b.len() implies #[trigger] b[i] != 46 && b[i] != 101 && b[i]
        != 69 by {
        assert(text::is_digit(b[i]));
    }
    text::lemma_first_from(b, 0, 46);
    text::lemma_first_from(b, 0, 101);
    text::lemma_first_from(b, 0, 69);
    assert(b + Seq::<u8>::empty() =~= b);
    assert(plain_number(b) == Some((b, 0int)));
}

/// Law: a number and a half is that, a thousand times: `n` thousand and five hundred;
/// and as a count by itself it is cut to `n`.
pub proof fn law_halves(n: nat)
    requires
        1000 * n + 500 < 0x20_0000_0000_0000,
    ensures
        count_text(text::decimal(n) + seq![46u8, 53u8], true) == Some((1000 * n + 500) as u64),
        count_text(text::decimal(n) + seq![46u8, 53u8], false) == Some(n as u64),
{
    let w = text::decimal(n);
    let b = w + seq![46u8, 53u8];
    let at = w.len() as int;
    text::lemma_decimal_digits(n);
    assert(text::is_digit(w[0]) && b[0] == w[0]);
    lemma_letters(b);
    assert forall|i: int| 0 <= i < b.len() implies #[trigger] b[i] != 101 && b[i] != 69 && (b[i]
        == 46 ==> i == at) by {
        if i < at {
            assert(text::is_digit(w[i]));
        }
    }
    text::lemma_first_from(b, 0, 101);
    text::lemma_first_from(b, 0, 69);
    assert(b[at] == 46);
    text::lemma_first_from_is(b, 0, 46, at);
    let frac = b.subrange(at + 1, b.len() as int);
    assert(b.subrange(0, at) =~= w);
    assert(frac =~= seq![53u8]);
    let digits = w + frac;
    assert(digits =~= w.push(53));
    assert(digits.drop_last() =~= w);
    assert(text::digits_value(digits) == 10 * n + 5);
    assert(plain_number(b) == Some((digits, -1int)));
    reveal_with_fuel(ten, 2);
    let num = 10 * n + 5;
    assert(fraction(digits, -1) == (num, 10nat));
    lemma_whole_is_exact(2 * n + 1, 2 * num, 10);
    let (a, d) = nearest(2 * num, 10);
    assert(nearest(num, 10) == (a, 2 * d));
    assert(a == (2 * n + 1) * d);
    assert(1000 * a == (1000 * n + 500) * (2 * d)) by (nonlinear_arith)
        requires
            a == (2 * n + 1) * d,
    ;
    lemma_whole_is_exact(1000 * n + 500, 1000 * a, 2 * d);
    let (p, q) = nearest(1000 * a, 2 * d);
    vstd::arithmetic::div_mod::lemma_fundamental_div_mod_converse(
        p as int,
        q as int,
        (1000 * n + 500) as int,
        0,
    );
    assert(a == n * (2 * d) + d) by (nonlinear_arith)
        requires
            a == (2 * n + 1) * d,
    ;
    vstd::arithmetic::div_mod::lemma_fundamental_div_mod_converse(
        a as int,
        (2 * d) as int,
        n as int,
        d as int,
    );
}

} // verus!
