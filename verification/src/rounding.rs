//! Correct rounding to binary64: the nearest representable magnitude to an
//! exact ratio, ties to the even significand.
//!
//! Magnitudes are counted in the smallest subnormal step, two to the power
//! -1074, so the magnitude of every finite number is a natural number, and an
//! exact result is a ratio `n / d` of naturals in that unit. A magnitude is
//! encoded as `k * 2^52 + m`: the significand `m` is below `2^53`, the
//! exponent `k` is zero or `m` is at least `2^52`, and the number is
//! `m * 2^k` steps.
use vstd::arithmetic::div_mod::{lemma_fundamental_div_mod, lemma_fundamental_div_mod_converse};
use vstd::arithmetic::mul::lemma_mul_is_commutative;
use vstd::arithmetic::power2::{
    lemma2_to64_rest, lemma_pow2_adds, lemma_pow2_pos, lemma_pow2_strictly_increases, lemma_pow2_unfold,
    pow2,
};
use vstd::prelude::*;

verus! {

/// Encoding of the infinite magnitude; every finite one lies below it.
pub const INFINITE: u64 = 0x7ff0_0000_0000_0000;

/// Two to the 52nd power: the weight of the leading bit of a normal
/// significand.
pub const LEAD: u64 = 0x10_0000_0000_0000;

/// Exponent that leaves the integer part `t` with at most 53 bits.
pub open spec fn scale(t: nat) -> nat
    decreases t,
{
    if t < 0x20_0000_0000_0000 {
        0
    } else {
        1 + scale(t / 2)
    }
}

/// The natural number nearest to `n / d`, the even one of two that are
/// equally near.
pub open spec fn nearest_even(n: nat, d: nat) -> nat {
    let q = n / d;
    let r = n % d;
    if 2 * r > d || (2 * r == d && q % 2 == 1) {
        q + 1
    } else {
        q
    }
}

/// Encoded magnitude nearest to the exact ratio `n / d`; anything that
/// rounds past the largest finite magnitude is infinite.
pub open spec fn round_magnitude(n: nat, d: nat) -> nat {
    let k = scale(n / d);
    let encoded = k * 0x10_0000_0000_0000 + nearest_even(n, d * pow2(k));
    if encoded >= 0x7ff0_0000_0000_0000 {
        0x7ff0_0000_0000_0000
    } else {
        encoded
    }
}

/// Power of two of the positive part of a binary exponent.
pub open spec fn up(s: int) -> nat {
    if s >= 0 {
        pow2(s as nat)
    } else {
        1
    }
}

/// Power of two of the negative part of a binary exponent.
pub open spec fn down(s: int) -> nat {
    if s < 0 {
        pow2((-s) as nat)
    } else {
        1
    }
}

/// `n / d` is `m * 2^s` when `sticky` is false, and lies strictly between
/// that and `(m + 1) * 2^s` when it is true.
pub open spec fn represents(m: nat, s: int, sticky: bool, n: nat, d: nat) -> bool {
    &&& m * (up(s) * d) <= n * down(s)
    &&& n * down(s) < (m + 1) * (up(s) * d)
    &&& sticky <==> n * down(s) != m * (up(s) * d)
}

/// `scale` is the only exponent that leaves a leading bit in place.
pub proof fn lemma_scale(t: nat, k: nat)
    requires
        t < pow2(53 + k),
        k > 0 ==> t >= pow2((52 + k) as nat),
    ensures
        scale(t) == k,
    decreases k,
{
    lemma2_to64_rest();
    if k > 0 {
        lemma_pow2_unfold(53 + k);
        lemma_pow2_unfold((52 + k) as nat);
        if k > 1 {
            lemma_pow2_strictly_increases(53, (52 + k) as nat);
        }
        lemma_scale(t / 2, (k - 1) as nat);
    }
}

/// A quotient is fixed by the multiple of the divisor below it.
proof fn lemma_quotient(n: int, d: int, q: int, r: int)
    requires
        n == q * d + r,
        0 <= r < d,
    ensures
        n / d == q,
        n % d == r,
{
    lemma_fundamental_div_mod_converse(n, d, q, r);
}

/// Rounding at `u * w` steps of a value known to lie in the `lo`-th of `w`
/// parts above `hi`: only the half mark and the parity of `hi` matter.
proof fn lemma_nearest_from_parts(
    n: nat,
    d: nat,
    c: nat,
    u: nat,
    hi: nat,
    lo: nat,
    half: nat,
    sticky: bool,
)
    requires
        d > 0,
        c > 0,
        u > 0,
        half > 0,
        lo < 2 * half,
        d * c == 2 * half * u,
        (hi * (2 * half) + lo) * u <= n * c,
        n * c < (hi * (2 * half) + lo + 1) * u,
        sticky <==> n * c != (hi * (2 * half) + lo) * u,
    ensures
        nearest_even(n, d) == if lo > half || (lo == half && (sticky || hi % 2 == 1)) {
            hi + 1
        } else {
            hi
        },
{
    let w = 2 * half;
    let hw = hi * w;
    let r = n - hi * d;
    assert((hw + lo) * u == hw * u + lo * u) by (nonlinear_arith);
    assert((hw + lo + 1) * u == hw * u + (lo + 1) * u) by (nonlinear_arith);
    assert(hw * u == hi * (d * c)) by (nonlinear_arith)
        requires
            hw == hi * w,
            d * c == w * u,
    ;
    assert(hi * (d * c) == (hi * d) * c) by (nonlinear_arith);
    assert(r * c == n * c - (hi * d) * c) by (nonlinear_arith)
        requires
            r == n - hi * d,
    ;
    // r * c lies in [lo * u, (lo + 1) * u).
    assert(lo * u <= r * c < (lo + 1) * u);
    assert(0 <= r) by (nonlinear_arith)
        requires
            0 <= lo * u,
            lo * u <= r * c,
            c > 0,
    ;
    assert(0 <= lo * u) by (nonlinear_arith);
    assert((lo + 1) * u <= w * u) by (nonlinear_arith)
        requires
            lo + 1 <= w,
    ;
    assert(r < d) by (nonlinear_arith)
        requires
            r * c < d * c,
            c > 0,
    ;
    lemma_quotient(n as int, d as int, hi as int, r);
    assert(half * u + half * u == d * c) by (nonlinear_arith)
        requires
            d * c == 2 * half * u,
    ;
    assert((2 * r) * c == 2 * (r * c)) by (nonlinear_arith);
    if lo > half {
        assert((half + 1) * u <= lo * u) by (nonlinear_arith)
            requires
                half + 1 <= lo,
        ;
        assert((half + 1) * u == half * u + u) by (nonlinear_arith);
        assert(2 * r > d) by (nonlinear_arith)
            requires
                (2 * r) * c > d * c,
                c > 0,
        ;
    } else if lo == half {
        if sticky {
            assert(2 * r > d) by (nonlinear_arith)
                requires
                    (2 * r) * c > d * c,
                    c > 0,
            ;
        } else {
            assert(2 * r == d) by (nonlinear_arith)
                requires
                    (2 * r) * c == d * c,
                    c > 0,
            ;
        }
    } else {
        assert((lo + 1) * u <= half * u) by (nonlinear_arith)
            requires
                lo + 1 <= half,
        ;
        assert(2 * r < d) by (nonlinear_arith)
            requires
                (2 * r) * c < d * c,
                c > 0,
        ;
    }
}

/// Products of a power of two by the parts of an exponent.
proof fn lemma_up_down(s: int, e: nat)
    requires
        e + s >= 0,
    ensures
        pow2(e) * up(s) == pow2((e + s) as nat) * down(s),
{
    if s >= 0 {
        lemma_pow2_adds(e, s as nat);
        assert(pow2((e + s) as nat) * 1 == pow2((e + s) as nat));
    } else {
        lemma_pow2_adds((e + s) as nat, (-s) as nat);
        assert(pow2(e) * 1 == pow2(e));
    }
}

/// Where the integer part of a represented ratio lies.
proof fn lemma_integer_part(m: nat, s: int, sticky: bool, n: nat, d: nat, len: nat, k: nat)
    requires
        d > 0,
        represents(m, s, sticky, n, d),
        m < pow2(len),
        m > 0 ==> len > 0 && pow2((len - 1) as nat) <= m,
        m == 0 ==> len == 0,
        k == if len + s >= 53 { len + s - 53 } else { 0 },
        k > 0 ==> m > 0,
    ensures
        scale(n / d) == k,
{
    let t = n / d;
    let a = up(s);
    let b = down(s);
    lemma_pow2_pos((if s < 0 { -s } else { 0 }) as nat);
    lemma_pow2_pos((if s >= 0 { s } else { 0 }) as nat);
    assert(a > 0 && b > 0);
    lemma_fundamental_div_mod(n as int, d as int);
    assert((m + 1) * (a * d) <= pow2(len) * (a * d)) by (nonlinear_arith)
        requires
            m + 1 <= pow2(len),
    ;
    let top = 53 + k;
    // n < d * 2^(53 + k)
    if len + s >= 0 {
        lemma_up_down(s, len);
        let e = (len + s) as nat;
        assert(n < pow2(e) * d) by (nonlinear_arith)
            requires
                n * b < pow2(len) * (a * d),
                pow2(len) * a == pow2(e) * b,
                b > 0,
        ;
        if e < top {
            lemma_pow2_strictly_increases(e, top);
        }
        assert(pow2(e) * d <= pow2(top) * d) by (nonlinear_arith)
            requires
                pow2(e) <= pow2(top),
        ;
    } else {
        lemma_pow2_strictly_increases(len, (-s) as nat);
        assert(n < d) by (nonlinear_arith)
            requires
                n * b < pow2(len) * (a * d),
                a == 1,
                pow2(len) < b,
                d > 0,
        ;
        lemma_pow2_pos(top);
        assert(d <= pow2(top) * d) by (nonlinear_arith)
            requires
                pow2(top) >= 1,
        ;
    }
    assert(t < pow2(top)) by (nonlinear_arith)
        requires
            n < pow2(top) * d,
            n == d * t + n % d,
            0 <= n % d,
            d > 0,
    ;
    if k > 0 {
        let e = (len - 1) as nat;
        lemma_up_down(s, e);
        let f = (e + s) as nat;
        assert(f == 52 + k);
        assert(pow2(f) * d <= n) by (nonlinear_arith)
            requires
                m * (a * d) <= n * b,
                pow2(e) <= m,
                pow2(e) * a == pow2(f) * b,
                b > 0,
                d > 0,
                a > 0,
        ;
        assert(pow2(f) <= t) by (nonlinear_arith)
            requires
                pow2(f) * d <= n,
                n == d * t + n % d,
                n % d < d,
                d > 0,
        ;
    }
    lemma_scale(t, k);
}

/// Two to the power of a small exponent.
pub(crate) fn power(e: u32) -> (r: u128)
    requires
        e < 128,
    ensures
        r == pow2(e as nat),
{
    let mut r: u128 = 1;
    let mut i: u32 = 0;
    proof {
        vstd::arithmetic::power2::lemma2_to64();
    }
    while i < e
        invariant
            i <= e < 128,
            r == pow2(i as nat),
        decreases e - i,
    {
        proof {
            lemma_pow2_unfold((i + 1) as nat);
            lemma_pow2_below_128((i + 1) as nat);
        }
        r = r * 2;
        i = i + 1;
    }
    r
}

/// Powers of two below the 128th fit in 128 bits.
proof fn lemma_pow2_below_128(e: nat)
    requires
        e < 128,
    ensures
        pow2(e) <= 0x8000_0000_0000_0000_0000_0000_0000_0000,
{
    lemma2_to64_rest();
    vstd::arithmetic::power2::lemma2_to64();
    lemma_pow2_adds(63, 64);
    assert(pow2(127) == 0x8000_0000_0000_0000_0000_0000_0000_0000);
    if e < 127 {
        lemma_pow2_strictly_increases(e, 127);
    }
}

/// Number of significant bits.
fn bit_length(m: u128) -> (len: u32)
    ensures
        len <= 128,
        m < pow2(len as nat),
        m > 0 ==> len > 0 && pow2((len - 1) as nat) <= m,
        m == 0 ==> len == 0,
{
    let mut len: u32 = 0;
    let mut t: u128 = m;
    proof {
        vstd::arithmetic::power2::lemma2_to64();
        lemma_pow2_adds(64, 64);
        assert((m / 1) == m);
    }
    while t > 0
        invariant
            len <= 128,
            t == m as nat / pow2(len as nat),
            pow2(len as nat) > 0,
            pow2(128) == 0x1_0000_0000_0000_0000_0000_0000_0000_0000,
            m > 0 && len > 0 ==> pow2((len - 1) as nat) <= m,
            m == 0 ==> len == 0,
        decreases t,
    {
        proof {
            let p = pow2(len as nat) as int;
            lemma_fundamental_div_mod(m as int, p);
            assert(p <= m) by (nonlinear_arith)
                requires
                    m == p * (m as int / p) + m as int % p,
                    m as int / p >= 1,
                    m as int % p >= 0,
                    p > 0,
            ;
            if len == 128 {
                assert(false);
            }
            lemma_pow2_unfold((len + 1) as nat);
            vstd::arithmetic::div_mod::lemma_div_denominator(m as int, p, 2);
            lemma_mul_is_commutative(p, 2);
        }
        t = t / 2;
        len = len + 1;
    }
    proof {
        let p = pow2(len as nat) as int;
        lemma_fundamental_div_mod(m as int, p);
        assert(m < p) by (nonlinear_arith)
            requires
                m == p * (m as int / p) + m as int % p,
                m as int / p == 0,
                m as int % p < p,
                p > 0,
        ;
    }
    len
}

/// Encoded magnitude nearest to the ratio that `m`, `s` and `sticky`
/// represent. Lost bits are allowed only below a significand that is already
/// longer than the 53 bits kept, or below one step.
pub(crate) fn pack(m: u128, s: i32, sticky: bool, Ghost(n): Ghost<nat>, Ghost(d): Ghost<nat>) -> (r:
    u64)
    requires
        d > 0,
        m < 0x8000_0000_0000_0000_0000_0000_0000_0000,
        -3000 <= s <= 3100,
        represents(m as nat, s as int, sticky, n, d),
        sticky ==> m >= 0x20_0000_0000_0000 || s < 0,
    ensures
        r == round_magnitude(n, d),
        r <= INFINITE,
{
    if m == 0 {
        proof {
            lemma_nothing(s as int, sticky, n, d);
        }
        return 0;
    }
    let len: u32 = bit_length(m);
    proof {
        vstd::arithmetic::power2::lemma2_to64();
        lemma2_to64_rest();
        lemma_pow2_adds(63, 64);
        if len == 128 {
            assert(pow2(127) == 0x8000_0000_0000_0000_0000_0000_0000_0000);
        }
    }
    let len: i32 = len as i32;
    let k: i32 = if len + s > 53 { len + s - 53 } else { 0 };
    let lost: i32 = k - s;
    proof {
        lemma_integer_part(m as nat, s as int, sticky, n, d, len as nat, k as nat);
        lemma_pow2_pos((if s < 0 { -s } else { 0 }) as nat);
        lemma_pow2_pos((if s >= 0 { s } else { 0 } ) as nat);
        lemma_pow2_pos(k as nat);
    }
    let ghost dk = d * pow2(k as nat);
    assert(dk > 0) by (nonlinear_arith)
        requires
            d > 0,
            pow2(k as nat) > 0,
            dk == d * pow2(k as nat),
    ;
    let rounded: u128;
    if lost <= 0 {
        let f: u128 = power((-lost) as u32);
        proof {
            lemma_kept_whole(m as nat, s as int, sticky, n, d, len as nat, k as nat, f as nat);
        }
        rounded = m * f;
    } else if lost >= 128 {
        proof {
            lemma_all_lost(m as nat, s as int, sticky, n, d, lost as nat);
        }
        rounded = 0;
    } else {
        let half: u128 = power((lost - 1) as u32);
        proof {
            lemma_pow2_pos((lost - 1) as nat);
        }
        let low: u128 = m % half;
        let upper: u128 = m / half;
        let hi: u128 = upper / 2;
        let above: bool = upper % 2 == 1;
        proof {
            lemma_split(m as nat, half as nat);
            lemma_part_lost(m as nat, s as int, sticky, n, d, k as nat, half as nat);
            lemma_significand_bound(m as nat, s as int, len as nat, k as nat, half as nat);
        }
        rounded = if above && (low > 0 || sticky || hi % 2 == 1) { hi + 1 } else { hi };
    }
    assert(rounded == nearest_even(n, dk));
    assert(rounded <= 0x20_0000_0000_0000);
    let encoded: u64 = k as u64 * LEAD + rounded as u64;
    if encoded >= INFINITE {
        INFINITE
    } else {
        encoded
    }
}

/// A ratio with no significand is zero or below half a step.
proof fn lemma_nothing(s: int, sticky: bool, n: nat, d: nat)
    requires
        d > 0,
        represents(0, s, sticky, n, d),
        sticky ==> s < 0,
    ensures
        round_magnitude(n, d) == 0,
{
    vstd::arithmetic::power2::lemma2_to64();
    assert(0 * (up(s) * d) == 0);
    assert((0 + 1) * (up(s) * d) == up(s) * d) by (nonlinear_arith);
    if sticky {
        let p = pow2((-s) as nat);
        lemma_pow2_unfold((-s) as nat);
        lemma_pow2_pos((-s - 1) as nat);
        assert(1 * d == d);
        assert(2 * n < d) by (nonlinear_arith)
            requires
                n * p < d,
                p >= 2,
        ;
    } else {
        lemma_pow2_pos((if s < 0 { -s } else { 0 }) as nat);
        assert(n == 0) by (nonlinear_arith)
            requires
                n * down(s) == 0,
                down(s) > 0,
        ;
    }
    lemma_quotient(n as int, d as int, 0, n as int);
    assert(d * pow2(0) == d);
}

/// Splitting a number at a half mark.
proof fn lemma_split(m: nat, half: nat)
    requires
        half > 0,
    ensures
        m == ((m / half) / 2) * (2 * half) + ((m / half) % 2) * half + m % half,
        m % half < half,
{
    lemma_fundamental_div_mod(m as int, half as int);
    let u = m / half;
    assert(u == 2 * (u / 2) + u % 2);
    assert(half * u == (u / 2) * (2 * half) + (u % 2) * half) by (nonlinear_arith)
        requires
            u == 2 * (u / 2) + u % 2,
    ;
}

/// No bit is lost: the ratio is a whole number of rounding units.
proof fn lemma_kept_whole(
    m: nat,
    s: int,
    sticky: bool,
    n: nat,
    d: nat,
    len: nat,
    k: nat,
    f: nat,
)
    requires
        d > 0,
        represents(m, s, sticky, n, d),
        sticky ==> m >= pow2(53) || s < 0,
        m < pow2(len),
        len <= 128,
        m > 0 ==> len > 0 && pow2((len - 1) as nat) <= m,
        k == if len + s > 53 { len + s - 53 } else { 0 },
        k <= s,
        f == pow2((s - k) as nat),
    ensures
        nearest_even(n, d * pow2(k)) == m * f,
        m * f < pow2(53),
        s - k < 54 || m == 0,
{
    lemma_pow2_pos(s as nat);
    lemma_pow2_pos(k);
    lemma_pow2_pos((s - k) as nat);
    if len + s > 53 {
        assert(len <= 53);
    }
    if len < 53 {
        lemma_pow2_strictly_increases(len, 53);
    }
    lemma_pow2_adds((s - k) as nat, k);
    assert(!sticky);
    assert(down(s) == 1 && up(s) == pow2(s as nat));
    let w = d * pow2(k);
    assert(n == (m * f) * w) by (nonlinear_arith)
        requires
            n * 1 == m * (pow2(s as nat) * d),
            pow2(s as nat) == f * pow2(k),
            w == d * pow2(k),
    ;
    assert(w > 0) by (nonlinear_arith)
        requires
            d > 0,
            pow2(k) > 0,
            w == d * pow2(k),
    ;
    lemma_quotient(n as int, w as int, (m * f) as int, 0);
    lemma_pow2_adds(len, (s - k) as nat);
    let e = (len + (s - k)) as nat;
    assert(m * f < pow2(e)) by (nonlinear_arith)
        requires
            m < pow2(len),
            f > 0,
            pow2(e) == pow2(len) * f,
    ;
    if e < 53 {
        lemma_pow2_strictly_increases(e, 53);
    }
}

/// Every bit is lost: the ratio is below half a step.
proof fn lemma_all_lost(m: nat, s: int, sticky: bool, n: nat, d: nat, lost: nat)
    requires
        d > 0,
        represents(m, s, sticky, n, d),
        m < pow2(127),
        lost >= 128,
        s == -lost,
    ensures
        nearest_even(n, d * pow2(0)) == 0,
{
    vstd::arithmetic::power2::lemma2_to64();
    assert(d * pow2(0) == d);
    lemma_pow2_unfold(lost);
    let half = pow2((lost - 1) as nat);
    if lost > 128 {
        lemma_pow2_strictly_increases(127, (lost - 1) as nat);
    }
    assert(m + 1 <= half);
    assert((m + 1) * (1 * d) <= half * d) by (nonlinear_arith)
        requires
            m + 1 <= half,
    ;
    assert(2 * n < d) by (nonlinear_arith)
        requires
            n * (2 * half) < half * d,
            half > 0,
    ;
    lemma_quotient(n as int, d as int, 0, n as int);
}

/// Some bits are lost: the half mark decides.
proof fn lemma_part_lost(m: nat, s: int, sticky: bool, n: nat, d: nat, k: nat, half: nat)
    requires
        d > 0,
        represents(m, s, sticky, n, d),
        k - s >= 1,
        half == pow2((k - s - 1) as nat),
        m == ((m / half) / 2) * (2 * half) + ((m / half) % 2) * half + m % half,
        m % half < half,
    ensures
        nearest_even(n, d * pow2(k)) == ({
            let hi = (m / half) / 2;
            if (m / half) % 2 == 1 && (m % half > 0 || sticky || hi % 2 == 1) {
                hi + 1
            } else {
                hi
            }
        }),
{
    let hi = (m / half) / 2;
    let lo = ((m / half) % 2) * half + m % half;
    let lost = (k - s) as nat;
    let u = up(s) * d;
    let c = down(s);
    let w = d * pow2(k);
    lemma_pow2_pos((if s < 0 { -s } else { 0 }) as nat);
    lemma_pow2_pos((if s >= 0 { s } else { 0 }) as nat);
    lemma_pow2_pos(k);
    lemma_pow2_pos((lost - 1) as nat);
    assert(u > 0) by (nonlinear_arith)
        requires
            u == up(s) * d,
            up(s) > 0,
            d > 0,
    ;
    assert(w > 0) by (nonlinear_arith)
        requires
            w == d * pow2(k),
            pow2(k) > 0,
            d > 0,
    ;
    lemma_pow2_unfold(lost);
    lemma_up_down(s, lost);
    assert((lost + s) as nat == k);
    assert(w * c == 2 * half * u) by (nonlinear_arith)
        requires
            w == d * pow2(k),
            u == up(s) * d,
            (2 * half) * up(s) == pow2(k) * c,
    ;
    let bit = (m / half) % 2;
    if bit == 1 {
        assert(bit * half == half);
    } else {
        assert(bit * half == 0);
    }
    assert(m == hi * (2 * half) + lo);
    lemma_nearest_from_parts(n, w, c, u, hi, lo, half, sticky);
}

/// The kept significand has at most 53 bits.
proof fn lemma_significand_bound(m: nat, s: int, len: nat, k: nat, half: nat)
    requires
        m < pow2(len),
        k == if len + s > 53 { len + s - 53 } else { 0 },
        k - s >= 1,
        half == pow2((k - s - 1) as nat),
    ensures
        (m / half) / 2 < pow2(53),
{
    let lost = (k - s) as nat;
    lemma_pow2_pos((lost - 1) as nat);
    lemma_pow2_unfold(lost);
    lemma_pow2_adds(53, lost);
    let e = 53 + lost;
    assert(len <= e);
    if len < e {
        lemma_pow2_strictly_increases(len, e);
    }
    vstd::arithmetic::div_mod::lemma_div_denominator(m as int, half as int, 2);
    lemma_mul_is_commutative(half as int, 2);
    let p = pow2(lost) as int;
    let q = m as int / p;
    lemma_fundamental_div_mod(m as int, p);
    assert(q < pow2(53)) by (nonlinear_arith)
        requires
            m < pow2(53) * p,
            m == p * q + m as int % p,
            m as int % p >= 0,
            p > 0,
    ;
}

} // verus!
