use crate::heap::BigIntCell;
use crate::number::is_nan;
use crate::number::INFINITY_BITS;
use crate::number::NEG_INFINITY_BITS;
use vstd::arithmetic::div_mod::lemma_fundamental_div_mod_converse;
use vstd::arithmetic::power2::lemma2_to64;
use vstd::arithmetic::power2::lemma2_to64_rest;
use vstd::arithmetic::power2::lemma_pow2_adds;
use vstd::arithmetic::power2::lemma_pow2_pos;
use vstd::arithmetic::power2::lemma_pow2_strictly_increases;
use vstd::arithmetic::power2::lemma_pow2_unfold;
use vstd::arithmetic::power2::pow2;
use vstd::prelude::*;

verus! {

/// Two to the power 53: the first whole number that a double may not hold exactly.
pub const MANTISSA_LIMIT: u64 = 0x20_0000_0000_0000;

/// How many of its lowest bits a whole number loses when it is brought down to the
/// 53 significant bits of a double.
pub open spec fn excess_bits(n: nat) -> nat
    decreases n,
{
    if n < 0x20_0000_0000_0000 {
        0
    } else {
        1 + excess_bits(n / 2)
    }
}

/// A whole number rounded to the nearest one that has at most 53 significant bits;
/// of two equally near, to the one whose last kept bit is zero.
pub open spec fn round53(n: nat) -> nat {
    let k = excess_bits(n);
    let p = pow2(k);
    let q = n / p;
    let r = n % p;
    if k == 0 {
        n
    } else if 2 * r > p || (2 * r == p && q % 2 == 1) {
        (q + 1) * p
    } else {
        q * p
    }
}

/// A whole number between two neighbouring powers of two loses the bits that the
/// lower of them has beyond the 53rd.
pub proof fn lemma_excess_bits(n: nat, k: nat)
    requires
        k == 0 ==> n < pow2(53),
        k > 0 ==> pow2(52 + k) <= n < pow2(53 + k),
    ensures
        excess_bits(n) == k,
    decreases k,
{
    lemma2_to64_rest();
    if k > 0 {
        lemma_pow2_strictly_increases(53, 53 + k);
        lemma_pow2_unfold(52 + k);
        lemma_pow2_unfold(53 + k);
        if k > 1 {
            lemma_pow2_strictly_increases(53, 52 + k);
        }
        lemma_excess_bits(n / 2, (k - 1) as nat);
    }
}

/// A whole number of more than 53 bits lies between the two neighbouring powers of
/// two that its lost bits tell.
pub proof fn lemma_excess_bounds(n: nat)
    requires
        n >= pow2(53),
    ensures
        excess_bits(n) >= 1,
        pow2(52 + excess_bits(n)) <= n < pow2(53 + excess_bits(n)),
    decreases n,
{
    lemma2_to64_rest();
    if n / 2 >= pow2(53) {
        let half = n / 2;
        let k = excess_bits(half);
        lemma_excess_bounds(half);
        assert(excess_bits(n) == k + 1);
        lemma_pow2_unfold(52 + k + 1);
        lemma_pow2_unfold(53 + k + 1);
        assert(pow2(52 + k + 1) == 2 * pow2(52 + k));
        assert(pow2(53 + k + 1) == 2 * pow2(53 + k));
    } else {
        assert(excess_bits(n / 2) == 0);
        assert(excess_bits(n) == 1);
    }
}

/// Of two powers of two, the one that is not larger has the exponent that is not
/// larger.
pub proof fn lemma_pow2_order(a: nat, b: nat)
    requires
        pow2(a) <= pow2(b),
    ensures
        a <= b,
{
    if a > b {
        lemma_pow2_strictly_increases(b, a);
    }
}

/// Rounding leaves a double's own value alone, and with it every whole number that
/// exceeds that value by less than half the weight of its last bit.
pub proof fn lemma_round53_near(m: nat, e: nat, a: nat)
    requires
        0x10_0000_0000_0000 <= m < 0x20_0000_0000_0000,
        2 * a < pow2(e),
    ensures
        round53(m * pow2(e) + a) == m * pow2(e),
{
    let n = m * pow2(e) + a;
    let p = pow2(e);
    lemma_pow2_pos(e);
    lemma2_to64_rest();
    lemma2_to64();
    if e == 0 {
        assert(p == 1);
        assert(m * p == m) by (nonlinear_arith)
            requires
                p == 1,
        ;
        assert(n == m);
    } else {
        lemma_pow2_adds(52, e);
        lemma_pow2_adds(53, e);
        assert(pow2(52) * p <= m * p) by (nonlinear_arith)
            requires
                pow2(52) <= m,
                p > 0,
        ;
        assert((m + 1) * p <= pow2(53) * p) by (nonlinear_arith)
            requires
                m + 1 <= pow2(53),
                p > 0,
        ;
        assert((m + 1) * p == m * p + p) by (nonlinear_arith);
        lemma_excess_bits(n, e);
        lemma_fundamental_div_mod_converse(n as int, p as int, m as int, a as int);
    }
}

/// Rounding and scaling by a power of two may be done in either order.
pub proof fn lemma_round53_scale(x: nat, e: nat)
    ensures
        round53(x * pow2(e)) == round53(x) * pow2(e),
{
    let pe = pow2(e);
    let n = x * pe;
    lemma_pow2_pos(e);
    lemma2_to64_rest();
    lemma2_to64();
    if x < 0x20_0000_0000_0000 {
        if n >= 0x20_0000_0000_0000 {
            lemma_excess_bounds(n);
            let k = excess_bits(n);
            lemma_pow2_adds(53, e);
            assert(x * pe < pow2(53) * pe) by (nonlinear_arith)
                requires
                    x < pow2(53),
                    pe > 0,
            ;
            lemma_pow2_strictly_increases_converse(52 + k, 53 + e);
            lemma_pow2_adds(k, (e - k) as nat);
            let rest = pow2((e - k) as nat);
            assert(n == (x * rest) * pow2(k)) by (nonlinear_arith)
                requires
                    n == x * pe,
                    pe == pow2(k) * rest,
            ;
            lemma_pow2_pos(k);
            lemma_fundamental_div_mod_converse(n as int, pow2(k) as int, (x * rest) as int, 0);
        }
    } else {
        lemma_excess_bounds(x);
        let k = excess_bits(x);
        let pk = pow2(k);
        lemma_pow2_pos(k);
        lemma_pow2_adds(52 + k, e);
        lemma_pow2_adds(53 + k, e);
        lemma_pow2_adds(k, e);
        assert(pow2(52 + k) * pe <= x * pe) by (nonlinear_arith)
            requires
                pow2(52 + k) <= x,
                pe > 0,
        ;
        assert(x * pe < pow2(53 + k) * pe) by (nonlinear_arith)
            requires
                x < pow2(53 + k),
                pe > 0,
        ;
        lemma_excess_bits(n, k + e);
        let q = x / pk;
        let r = x % pk;
        assert(x == q * pk + r) by {
            vstd::arithmetic::div_mod::lemma_fundamental_div_mod(x as int, pk as int);
            assert(pk * q == q * pk) by (nonlinear_arith);
        }
        assert(n == q * (pk * pe) + r * pe) by (nonlinear_arith)
            requires
                n == x * pe,
                x == q * pk + r,
        ;
        assert(r * pe < pk * pe) by (nonlinear_arith)
            requires
                r < pk,
                pe > 0,
        ;
        lemma_fundamental_div_mod_converse(n as int, (pk * pe) as int, q as int, (r * pe) as int);
        assert((2 * (r * pe) > pk * pe) == (2 * r > pk)) by (nonlinear_arith)
            requires
                pe > 0,
        ;
        assert((2 * (r * pe) == pk * pe) == (2 * r == pk)) by (nonlinear_arith)
            requires
                pe > 0,
        ;
        assert((q + 1) * (pk * pe) == ((q + 1) * pk) * pe) by (nonlinear_arith);
        assert(q * (pk * pe) == (q * pk) * pe) by (nonlinear_arith);
    }
}

/// Of two powers of two, the one that is smaller has the smaller exponent.
pub proof fn lemma_pow2_strictly_increases_converse(a: nat, b: nat)
    requires
        pow2(a) < pow2(b),
    ensures
        a < b,
{
    if a > b {
        lemma_pow2_strictly_increases(b, a);
    }
}

/// Rounding does not lift a whole number over a power of two that it does not
/// exceed.
pub proof fn lemma_round53_bounded(n: nat, j: nat)
    requires
        n <= pow2(j),
        j >= 53,
    ensures
        round53(n) <= pow2(j),
{
    lemma2_to64_rest();
    lemma2_to64();
    if n == pow2(j) {
        lemma_pow2_adds(52, (j - 52) as nat);
        lemma_pow2_pos((j - 52) as nat);
        lemma_round53_near(pow2(52), (j - 52) as nat, 0);
    } else if n >= 0x20_0000_0000_0000 {
        lemma_excess_bounds(n);
        let k = excess_bits(n);
        let pk = pow2(k);
        lemma_pow2_pos(k);
        lemma_pow2_strictly_increases_converse(52 + k, j);
        if 53 + k < j {
            lemma_pow2_strictly_increases(53 + k, j);
        }
        lemma_pow2_adds(53, k);
        let q = n / pk;
        vstd::arithmetic::div_mod::lemma_fundamental_div_mod(n as int, pk as int);
        vstd::arithmetic::div_mod::lemma_mod_bound(n as int, pk as int);
        assert(q < pow2(53)) by (nonlinear_arith)
            requires
                n == pk * q + (n % pk),
                n % pk >= 0,
                n < pow2(53) * pk,
                pk > 0,
        ;
        assert((q + 1) * pk <= pow2(53) * pk) by (nonlinear_arith)
            requires
                q + 1 <= pow2(53),
                pk > 0,
        ;
        assert(q * pk <= (q + 1) * pk) by (nonlinear_arith)
            requires
                pk > 0,
        ;
    }
}

/// The weighted sum of the first `upto` words as double arithmetic computes it, from
/// the lowest word up: each word is rounded to a double, given its weight of 64 bits
/// for each word below it, and added to the sum so far, which is rounded again.
pub open spec fn rounded_sum(words: Seq<u64>, upto: nat) -> nat
    decreases upto,
{
    if upto == 0 {
        0
    } else {
        round53(
            rounded_sum(words, (upto - 1) as nat) + round53(words[upto - 1] as nat) * pow2(
                (64 * (upto - 1)) as nat,
            ),
        )
    }
}

/// The place of the highest set bit of a whole number, counted from zero.
pub open spec fn top_bit(n: nat) -> nat
    decreases n,
{
    if n < 2 {
        0
    } else {
        1 + top_bit(n / 2)
    }
}

/// The bit pattern of the double with the given sign and magnitude, for a magnitude
/// that has at most 53 significant bits. From two to the power 1024 on, the double
/// is an infinity.
pub open spec fn double_bits(negative: bool, value: nat) -> u64 {
    let sign: nat = if negative {
        0x8000_0000_0000_0000
    } else {
        0
    };
    let top = top_bit(value);
    if value == 0 {
        sign as u64
    } else if top >= 1024 {
        (sign + 0x7ff0_0000_0000_0000) as u64
    } else {
        let mantissa = if top >= 52 {
            value / pow2((top - 52) as nat)
        } else {
            value * pow2((52 - top) as nat)
        };
        (sign + (top + 1023) * 0x10_0000_0000_0000 + (mantissa - 0x10_0000_0000_0000)) as u64
    }
}

/// A whole number between two neighbouring powers of two has its highest bit at the
/// place of the lower one.
pub proof fn lemma_top_bit(n: nat, t: nat)
    requires
        pow2(t) <= n < pow2(t + 1),
    ensures
        top_bit(n) == t,
    decreases t,
{
    lemma2_to64();
    if t > 0 {
        lemma_pow2_unfold(t);
        lemma_pow2_unfold(t + 1);
        lemma_pow2_pos((t - 1) as nat);
        lemma_top_bit(n / 2, (t - 1) as nat);
    }
}

/// `k` doublings of one.
fn power_of_two_wide(k: u32) -> (r: u128)
    requires
        k < 120,
    ensures
        r as nat == pow2(k as nat),
{
    let mut r: u128 = 1;
    let mut i: u32 = 0;
    proof {
        lemma2_to64();
        lemma2_to64_rest();
        lemma_pow2_adds(60, 60);
    }
    while i < k
        invariant
            i <= k,
            k < 120,
            r as nat == pow2(i as nat),
            pow2(120) == 0x1000_0000_0000_0000 * 0x1000_0000_0000_0000,
        decreases k - i,
    {
        proof {
            lemma_pow2_unfold((i + 1) as nat);
            lemma_pow2_strictly_increases((i + 1) as nat, 120);
        }
        r = r * 2;
        i = i + 1;
    }
    r
}

/// A mantissa below two to the power 53, and not zero, shifted up until its 53rd bit
/// is set, with the number of places.
fn normalized(m: u64) -> (r: (u64, u32))
    requires
        0 < m < MANTISSA_LIMIT,
    ensures
        r.0 as nat == m as nat * pow2(r.1 as nat),
        0x10_0000_0000_0000 <= r.0 < MANTISSA_LIMIT,
        r.1 <= 52,
{
    let mut wide: u64 = m;
    let mut places: u32 = 0;
    proof {
        lemma2_to64();
        assert(m as nat * pow2(0) == m) by (nonlinear_arith)
            requires
                pow2(0) == 1,
        ;
    }
    while wide < 0x10_0000_0000_0000
        invariant
            wide as nat == m as nat * pow2(places as nat),
            0 < m,
            0 < wide < MANTISSA_LIMIT,
            places <= 52,
        decreases 52 - places,
    {
        proof {
            lemma_pow2_unfold((places + 1) as nat);
            assert(m as nat * (2 * pow2(places as nat)) == 2 * (m as nat * pow2(places as nat)))
                by (nonlinear_arith);
            lemma2_to64_rest();
            if places >= 52 {
                assert(m as nat * pow2(52) >= pow2(52)) by (nonlinear_arith)
                    requires
                        m >= 1,
                ;
            }
        }
        wide = wide * 2;
        places = places + 1;
    }
    (wide, places)
}

/// Adds the word `w`, which has `i` words below it, to the sum so far, as double
/// arithmetic does. The sum so far is `m` shifted up by `e` bits.
fn add_word(m: u64, e: u32, w: u64, i: u32) -> (r: (u64, u32))
    requires
        i < 16,
        m < MANTISSA_LIMIT,
        e == 0 || m >= 0x10_0000_0000_0000,
        m as nat * pow2(e as nat) <= pow2((64 * i) as nat),
        i == 0 ==> m == 0,
    ensures
        r.0 as nat * pow2(r.1 as nat) == round53(
            m as nat * pow2(e as nat) + round53(w as nat) * pow2((64 * i) as nat),
        ),
        r.0 < MANTISSA_LIMIT,
        r.1 == 0 || r.0 >= 0x10_0000_0000_0000,
        r.0 as nat * pow2(r.1 as nat) <= pow2((64 * (i + 1)) as nat),
        r.1 <= 64 * (i + 1),
{
    let s: u32 = 64 * i;
    let ghost acc: nat = m as nat * pow2(e as nat);
    let ghost ps: nat = pow2(s as nat);
    let ghost term: nat = round53(w as nat) * ps;
    proof {
        lemma2_to64();
        lemma2_to64_rest();
        lemma_pow2_pos(s as nat);
        lemma_pow2_pos(e as nat);
        lemma_round53_bounded(w as nat, 64);
        lemma_pow2_adds(64, s as nat);
        assert(term <= pow2(64) * ps) by (nonlinear_arith)
            requires
                term == round53(w as nat) * ps,
                round53(w as nat) <= pow2(64),
                ps > 0,
        ;
        if e > 0 {
            lemma_pow2_adds(52, e as nat);
            assert(pow2(52) * pow2(e as nat) <= m as nat * pow2(e as nat)) by (nonlinear_arith)
                requires
                    pow2(52) <= m,
                    pow2(e as nat) > 0,
            ;
            lemma_pow2_order((52 + e) as nat, s as nat);
        }
    }
    assert(e > 0 ==> 52 + e <= s);
    let (first, shift) = round_to_53(w as u128);
    assert(shift <= 129);
    if first == 0 {
        proof {
            assert(0 * pow2(shift as nat) == 0) by (nonlinear_arith);
            assert(term == 0) by (nonlinear_arith)
                requires
                    term == round53(w as nat) * ps,
                    round53(w as nat) == 0,
            ;
            if e == 0 {
                assert(acc == m) by (nonlinear_arith)
                    requires
                        acc == m as nat * pow2(e as nat),
                        pow2(e as nat) == 1,
                ;
            } else {
                lemma_round53_near(m as nat, e as nat, 0);
            }
            lemma_pow2_strictly_increases(s as nat, (64 * (i + 1)) as nat);
        }
        return (m, e);
    }
    // The term, with its 53rd bit set.
    let (mt, et): (u64, u32) = if shift > 0 {
        proof {
            lemma_pow2_adds(shift as nat, s as nat);
            assert(first as nat * (pow2(shift as nat) * ps) == (first as nat * pow2(shift as nat))
                * ps) by (nonlinear_arith);
        }
        (first, shift + s)
    } else if i == 0 {
        proof {
            assert(first as nat * pow2(0) == first) by (nonlinear_arith)
                requires
                    pow2(0) == 1,
            ;
            assert(term == first) by (nonlinear_arith)
                requires
                    term == round53(w as nat) * ps,
                    round53(w as nat) == first,
                    ps == 1,
            ;
            assert(acc == 0) by (nonlinear_arith)
                requires
                    acc == m as nat * pow2(e as nat),
                    m == 0,
            ;
            assert(excess_bits(first as nat) == 0);
        }
        return (first, 0);
    } else {
        let (wide, places) = normalized(first);
        proof {
            lemma_pow2_adds(places as nat, (s - places) as nat);
            assert(first as nat * pow2(0) == first) by (nonlinear_arith)
                requires
                    pow2(0) == 1,
            ;
            assert(wide as nat * pow2((s - places) as nat) == first as nat * ps)
                by (nonlinear_arith)
                requires
                    wide as nat == first as nat * pow2(places as nat),
                    ps == pow2(places as nat) * pow2((s - places) as nat),
            ;
        }
        (wide, s - places)
    };
    let ghost pet: nat = pow2(et as nat);
    assert(mt as nat * pet == term);
    assert(0x10_0000_0000_0000 <= mt < MANTISSA_LIMIT);
    assert(et >= e);
    assert(et <= s + 129);
    proof {
        lemma_pow2_pos(et as nat);
        lemma_pow2_adds(52, et as nat);
        assert(pow2(52) * pet <= mt as nat * pet) by (nonlinear_arith)
            requires
                pow2(52) <= mt,
                pet > 0,
        ;
        lemma_pow2_order((52 + et) as nat, (s + 64) as nat);
        lemma_pow2_strictly_increases(s as nat, (64 * (i + 1)) as nat);
    }
    let d: u32 = et - e;
    if m == 0 || d >= 55 {
        proof {
            if m == 0 {
                assert(acc == 0) by (nonlinear_arith)
                    requires
                        acc == m as nat * pow2(e as nat),
                        m == 0,
                ;
            } else {
                // The sum so far is less than half the weight of the term's last bit.
                lemma_pow2_adds(53, e as nat);
                assert(acc < pow2(53) * pow2(e as nat)) by (nonlinear_arith)
                    requires
                        acc == m as nat * pow2(e as nat),
                        m < pow2(53),
                        pow2(e as nat) > 0,
                ;
                lemma_pow2_unfold((54 + e) as nat);
                if 54 + e < et {
                    lemma_pow2_strictly_increases((54 + e) as nat, et as nat);
                }
            }
            lemma_round53_near(mt as nat, et as nat, acc);
        }
        return (mt, et);
    }
    let scale = power_of_two_wide(d);
    proof {
        lemma_pow2_strictly_increases(d as nat, 55);
        assert(pow2(55) == 0x80_0000_0000_0000);
        assert(mt as nat * scale as nat <= 0x20_0000_0000_0000 * 0x80_0000_0000_0000)
            by (nonlinear_arith)
            requires
                mt < 0x20_0000_0000_0000,
                scale < 0x80_0000_0000_0000,
        ;
    }
    let x: u128 = (mt as u128) * scale + (m as u128);
    let (mr, kr) = round_to_53(x);
    proof {
        let pe = pow2(e as nat);
        lemma_pow2_adds(d as nat, e as nat);
        assert(x as nat * pe == acc + term) by (nonlinear_arith)
            requires
                x as nat == mt as nat * scale as nat + m as nat,
                acc == m as nat * pe,
                term == mt as nat * pet,
                pet == scale as nat * pe,
        ;
        lemma_round53_scale(x as nat, e as nat);
        lemma_pow2_adds(kr as nat, e as nat);
        assert(mr as nat * (pow2(kr as nat) * pe) == (mr as nat * pow2(kr as nat)) * pe)
            by (nonlinear_arith);
        // The sum does not reach the weight of the next word.
        lemma_pow2_adds(53, et as nat);
        assert(term < pow2(53) * pet) by (nonlinear_arith)
            requires
                term == mt as nat * pet,
                mt < pow2(53),
                pet > 0,
        ;
        assert(53 + et <= s + 55);
        if 53 + et < s + 55 {
            lemma_pow2_strictly_increases((53 + et) as nat, (s + 55) as nat);
        }
        lemma_pow2_strictly_increases(s as nat, (s + 55) as nat);
        lemma_pow2_unfold((s + 56) as nat);
        lemma_pow2_strictly_increases((s + 56) as nat, (s + 64) as nat);
        lemma_round53_bounded(acc + term, (s + 64) as nat);
        // The result is a double again.
        if kr == 0 {
            assert(mr as nat * pow2(0) == mr) by (nonlinear_arith)
                requires
                    pow2(0) == 1,
            ;
            assert(excess_bits(x as nat) == 0 || kr > 0) by {
                if x >= 0x20_0000_0000_0000 {
                    lemma_excess_bounds(x as nat);
                    lemma_round53_lower(x as nat);
                }
            }
            assert(mt as nat * scale as nat >= 0x10_0000_0000_0000) by (nonlinear_arith)
                requires
                    mt >= 0x10_0000_0000_0000,
                    scale >= 1,
            ;
        }
        if mr >= 0x10_0000_0000_0000 {
            lemma_pow2_adds(52, (kr + e) as nat);
            lemma_pow2_pos((kr + e) as nat);
            assert(pow2(52) * pow2((kr + e) as nat) <= mr as nat * pow2((kr + e) as nat))
                by (nonlinear_arith)
                requires
                    pow2(52) <= mr,
                    pow2((kr + e) as nat) > 0,
            ;
            lemma_pow2_pos((kr + e) as nat);
            lemma_pow2_order((52 + kr + e) as nat, (s + 64) as nat);
        }
    }
    (mr, e + kr)
}

/// Rounding a whole number of more than 53 bits leaves it with more than 53 bits.
pub proof fn lemma_round53_lower(n: nat)
    requires
        n >= pow2(53),
    ensures
        round53(n) >= pow2(53),
{
    lemma_excess_bounds(n);
    let k = excess_bits(n);
    let pk = pow2(k);
    lemma_pow2_pos(k);
    lemma_pow2_adds(52, k);
    lemma_pow2_unfold(53);
    lemma2_to64_rest();
    let q = n / pk;
    vstd::arithmetic::div_mod::lemma_fundamental_div_mod(n as int, pk as int);
    vstd::arithmetic::div_mod::lemma_mod_bound(n as int, pk as int);
    assert(q >= pow2(52)) by (nonlinear_arith)
        requires
            n == pk * q + (n % pk),
            n % pk < pk,
            n >= pow2(52) * pk,
            pk > 0,
    ;
    assert(q * pk >= pow2(52) * pk) by (nonlinear_arith)
        requires
            q >= pow2(52),
            pk > 0,
    ;
    assert((q + 1) * pk >= q * pk) by (nonlinear_arith)
        requires
            pk > 0,
    ;
    assert(pk >= 2) by {
        lemma_pow2_unfold(k);
        lemma_pow2_pos((k - 1) as nat);
    }
    assert(pow2(52) * pk >= pow2(52) * 2) by (nonlinear_arith)
        requires
            pk >= 2,
    ;
}

/// The bit pattern of the double with the given sign whose magnitude is `m` shifted
/// up by `e` bits.
fn pack(negative: bool, m: u64, e: u32) -> (bits: u64)
    requires
        m < MANTISSA_LIMIT,
        e == 0 || m >= 0x10_0000_0000_0000,
        e <= 1100,
    ensures
        bits == double_bits(negative, m as nat * pow2(e as nat)),
{
    let sign: u64 = if negative {
        0x8000_0000_0000_0000
    } else {
        0
    };
    let ghost pe: nat = pow2(e as nat);
    let ghost value: nat = m as nat * pe;
    proof {
        lemma2_to64();
        lemma2_to64_rest();
        lemma_pow2_pos(e as nat);
    }
    if m == 0 {
        assert(value == 0) by (nonlinear_arith)
            requires
                value == m as nat * pe,
                m == 0,
        ;
        return sign;
    }
    let (wide, places) = normalized(m);
    let ghost pp: nat = pow2(places as nat);
    proof {
        lemma_pow2_pos(places as nat);
        if m >= 0x10_0000_0000_0000 && places > 0 {
            lemma_pow2_unfold(places as nat);
            lemma_pow2_pos((places - 1) as nat);
            assert(m as nat * pp >= 0x10_0000_0000_0000 * 2) by (nonlinear_arith)
                requires
                    m >= 0x10_0000_0000_0000,
                    pp >= 2,
            ;
        }
    }
    assert(e == 0 || places == 0);
    let top: u32 = 52 + e - places;
    proof {
        if places == 0 {
            assert(wide == m) by (nonlinear_arith)
                requires
                    wide as nat == m as nat * pp,
                    pp == 1,
            ;
            lemma_pow2_adds(52, e as nat);
            lemma_pow2_adds(53, e as nat);
            assert(pow2(52) * pe <= m as nat * pe) by (nonlinear_arith)
                requires
                    pow2(52) <= m,
                    pe > 0,
            ;
            assert(m as nat * pe < pow2(53) * pe) by (nonlinear_arith)
                requires
                    m < pow2(53),
                    pe > 0,
            ;
            lemma_top_bit(value, top as nat);
            lemma_fundamental_div_mod_converse(value as int, pe as int, m as int, 0);
        } else {
            assert(value == m) by (nonlinear_arith)
                requires
                    value == m as nat * pe,
                    pe == 1,
            ;
            lemma_pow2_adds((52 - places) as nat, places as nat);
            lemma_pow2_adds((53 - places) as nat, places as nat);
            assert(pow2((52 - places) as nat) <= m) by (nonlinear_arith)
                requires
                    pow2((52 - places) as nat) * pp <= m as nat * pp,
                    pp > 0,
            ;
            assert(m < pow2((53 - places) as nat)) by (nonlinear_arith)
                requires
                    m as nat * pp < pow2((53 - places) as nat) * pp,
                    pp > 0,
            ;
            lemma_top_bit(value, top as nat);
        }
    }
    if top >= 1024 {
        return sign + 0x7ff0_0000_0000_0000;
    }
    sign + (top as u64 + 1023) * 0x10_0000_0000_0000 + (wide - 0x10_0000_0000_0000)
}

/// The double that a big integer converts to, as its bit pattern. A magnitude of
/// more than 16 words gives the infinity of the integer's sign. Any other gives the
/// weighted sum of its words as double arithmetic computes it, with the integer's
/// sign.
pub open spec fn bigint_double(negative: bool, words: Seq<u64>) -> u64 {
    if words.len() > 16 {
        if negative {
            NEG_INFINITY_BITS
        } else {
            INFINITY_BITS
        }
    } else {
        double_bits(negative, rounded_sum(words, words.len()))
    }
}

/// A whole number other than zero lies between the power of two at its highest bit
/// and the next one.
pub proof fn lemma_top_bit_bounds(n: nat)
    requires
        n > 0,
    ensures
        pow2(top_bit(n)) <= n < pow2(top_bit(n) + 1),
    decreases n,
{
    lemma2_to64();
    if n >= 2 {
        lemma_top_bit_bounds(n / 2);
        lemma_pow2_unfold(top_bit(n));
        lemma_pow2_unfold(top_bit(n) + 1);
    }
}

/// The double of a magnitude other than zero is a number other than zero or an
/// infinity: behind its sign bit lies a pattern from that of the double 1 up to
/// that of infinity.
pub proof fn lemma_double_bits_range(value: nat)
    requires
        value > 0,
    ensures
        0x3ff0_0000_0000_0000 <= double_bits(false, value) <= 0x7ff0_0000_0000_0000,
        double_bits(true, value) == double_bits(false, value) + 0x8000_0000_0000_0000,
{
    let top = top_bit(value);
    if top < 1024 {
        lemma_top_bit_bounds(value);
        lemma2_to64_rest();
        if top >= 52 {
            let low = pow2((top - 52) as nat);
            lemma_pow2_pos((top - 52) as nat);
            lemma_pow2_adds(52, (top - 52) as nat);
            lemma_pow2_adds(53, (top - 52) as nat);
            let mantissa = value / low;
            vstd::arithmetic::div_mod::lemma_fundamental_div_mod(value as int, low as int);
            vstd::arithmetic::div_mod::lemma_mod_bound(value as int, low as int);
            assert(pow2(52) <= mantissa < pow2(53)) by (nonlinear_arith)
                requires
                    value == low * mantissa + (value % low),
                    0 <= value % low < low,
                    pow2(52) * low <= value < pow2(53) * low,
                    low > 0,
            ;
        } else {
            let up = pow2((52 - top) as nat);
            lemma_pow2_pos((52 - top) as nat);
            lemma_pow2_adds(top, (52 - top) as nat);
            lemma_pow2_adds(top + 1, (52 - top) as nat);
            assert(pow2(52) <= value * up < pow2(53)) by (nonlinear_arith)
                requires
                    pow2(top) <= value < pow2(top + 1),
                    pow2(52) == pow2(top) * up,
                    pow2(53) == pow2(top + 1) * up,
                    up > 0,
            ;
        }
    }
}

/// The sign of a big integer is the sign of its double, and nothing else of the
/// double depends on it: the two doubles of a magnitude differ in the sign bit
/// alone.
pub proof fn lemma_bigint_double_sign(words: Seq<u64>)
    ensures
        bigint_double(false, words) < 0x8000_0000_0000_0000,
        bigint_double(true, words) == bigint_double(false, words) + 0x8000_0000_0000_0000,
{
    if words.len() <= 16 {
        let value = rounded_sum(words, words.len());
        if value > 0 {
            lemma_double_bits_range(value);
        }
    }
}

/// Rounding gives zero for zero alone.
pub proof fn lemma_round53_zero(n: nat)
    ensures
        round53(n) == 0 <==> n == 0,
{
    lemma2_to64_rest();
    if n >= 0x20_0000_0000_0000 {
        lemma_round53_lower(n);
    }
}

/// The weighted sum in double arithmetic is zero exactly when every word is zero.
pub proof fn lemma_rounded_sum_zero(words: Seq<u64>, upto: nat)
    requires
        upto <= words.len(),
    ensures
        rounded_sum(words, upto) == 0 <==> forall|i: int| 0 <= i < upto ==> words[i] == 0,
    decreases upto,
{
    if upto > 0 {
        let before = rounded_sum(words, (upto - 1) as nat);
        let word = round53(words[upto - 1] as nat);
        let weight = pow2((64 * (upto - 1)) as nat);
        lemma_rounded_sum_zero(words, (upto - 1) as nat);
        lemma_round53_zero(words[upto - 1] as nat);
        lemma_round53_zero(before + word * weight);
        lemma_pow2_pos((64 * (upto - 1)) as nat);
        assert((word * weight == 0) == (word == 0)) by (nonlinear_arith)
            requires
                weight > 0,
                word >= 0,
        ;
        assert(word * weight >= 0) by (nonlinear_arith)
            requires
                weight > 0,
                word >= 0,
        ;
        if rounded_sum(words, upto) == 0 {
            assert forall|i: int| 0 <= i < upto implies words[i] == 0 by {
                if i < upto - 1 {
                    assert(words[i] == 0);
                }
            }
        }
    }
}

/// Whether a bit pattern is the double zero, of either sign.
pub open spec fn is_zero(bits: u64) -> bool {
    bits == 0 || bits == 0x8000_0000_0000_0000
}

/// The double of a big integer is never not-a-number, and it is zero exactly when
/// the integer is: when the magnitude has no more than 16 words and every one of
/// them is zero.
pub proof fn lemma_bigint_double_kind(negative: bool, words: Seq<u64>)
    ensures
        !is_nan(bigint_double(negative, words)),
        is_zero(bigint_double(negative, words)) <==> words.len() <= 16 && forall|i: int|
            0 <= i < words.len() ==> words[i] == 0,
{
    let bits = bigint_double(negative, words);
    if words.len() <= 16 {
        let value = rounded_sum(words, words.len());
        lemma_rounded_sum_zero(words, words.len());
        if value > 0 {
            lemma_double_bits_range(value);
            let plain = double_bits(false, value);
            if negative {
                assert(bits == plain + 0x8000_0000_0000_0000);
                assert(bits as int / 0x10_0000_0000_0000 == plain as int / 0x10_0000_0000_0000
                    + 0x800);
                assert(bits as int % 0x10_0000_0000_0000 == plain as int % 0x10_0000_0000_0000);
            }
            assert(plain as int / 0x10_0000_0000_0000 <= 0x7ff);
            if plain as int / 0x10_0000_0000_0000 == 0x7ff {
                assert(plain == 0x7ff0_0000_0000_0000);
            }
        }
    }
}

/// Converts a big integer to a double. The conversion loses precision: every step of
/// the weighted sum rounds.
pub fn bigint_to_f64(b: &BigIntCell) -> (bits: u64)
    ensures
        bits == bigint_double(b.negative, b.words@),
{
    if b.words.len() > 16 {
        return if b.negative {
            NEG_INFINITY_BITS
        } else {
            INFINITY_BITS
        };
    }
    let mut m: u64 = 0;
    let mut e: u32 = 0;
    let mut i: u32 = 0;
    proof {
        lemma2_to64();
        assert(0 * pow2(0) == 0) by (nonlinear_arith);
    }
    while (i as usize) < b.words.len()
        invariant
            i <= b.words@.len() <= 16,
            m as nat * pow2(e as nat) == rounded_sum(b.words@, i as nat),
            m < MANTISSA_LIMIT,
            e == 0 || m >= 0x10_0000_0000_0000,
            m as nat * pow2(e as nat) <= pow2((64 * i) as nat),
            i == 0 ==> m == 0,
            e <= 64 * i,
        decreases b.words@.len() - i,
    {
        let r = add_word(m, e, b.words[i as usize], i);
        m = r.0;
        e = r.1;
        i = i + 1;
    }
    pack(b.negative, m, e)
}

/// `x` rounded to 53 significant bits, as a mantissa and the number of bits it is
/// shifted up by.
pub fn round_to_53(x: u128) -> (r: (u64, u32))
    ensures
        r.0 as nat * pow2(r.1 as nat) == round53(x as nat),
        r.0 < MANTISSA_LIMIT,
        r.1 == 0 || r.0 >= 0x10_0000_0000_0000,
        r.1 <= 129,
{
    let mut q: u128 = x;
    let mut k: u32 = 0;
    let mut half = false;
    let mut sticky = false;
    let ghost mut p: nat = 1;
    let ghost mut rem: nat = 0;
    proof {
        lemma2_to64();
    }
    while q >= 0x20_0000_0000_0000
        invariant
            p == pow2(k as nat),
            p > 0,
            k <= 128,
            x as nat == q as nat * p + rem,
            rem < p,
            excess_bits(x as nat) == k + excess_bits(q as nat),
            k >= 1 ==> q >= 0x10_0000_0000_0000,
            q as nat * p <= x,
            k == 0 ==> !half && !sticky,
            (2 * rem > p) == (half && sticky),
            (2 * rem == p) == (half && !sticky),
            (rem != 0) == (half || sticky),
            k < 128 || q < 0x20_0000_0000_0000,
        decreases q,
    {
        let bit: u128 = q % 2;
        let ghost q_old = q;
        sticky = sticky || half;
        half = bit == 1;
        q = q / 2;
        proof {
            assert((2 * (q as nat) + bit as nat) * p == q as nat * (2 * p) + bit as nat * p)
                by (nonlinear_arith);
            assert(q_old as nat == 2 * (q as nat) + bit as nat);
            rem = rem + bit as nat * p;
            assert(bit as nat * p == if bit == 1 {
                p
            } else {
                0
            }) by (nonlinear_arith)
                requires
                    bit == 0 || bit == 1,
            ;
            lemma_pow2_unfold((k + 1) as nat);
            p = 2 * p;
            assert(q as nat * p <= x);
            if k >= 127 {
                // q has lost 128 bits of a 128-bit number
                lemma_pow2_strictly_increases(64, 127);
                lemma2_to64();
                lemma_pow2_adds(64, 64);
                lemma_pow2_unfold(128);
                assert(pow2(127) * 2 == pow2(128));
                assert(q as nat * p >= 0x20_0000_0000_0000 * p || q < 0x20_0000_0000_0000)
                    by (nonlinear_arith)
                    requires
                        p > 0,
                ;
            }
        }
        k = k + 1;
    }
    proof {
        lemma_fundamental_div_mod_converse(x as int, p as int, q as int, rem as int);
    }
    if k == 0 {
        (q as u64, 0)
    } else if half && (sticky || q % 2 == 1) {
        if q + 1 == 0x20_0000_0000_0000 {
            proof {
                lemma_pow2_unfold((k + 1) as nat);
                assert(0x10_0000_0000_0000 * (2 * p) == (q as nat + 1) * p) by (nonlinear_arith)
                    requires
                        q + 1 == 0x20_0000_0000_0000,
                ;
            }
            (0x10_0000_0000_0000, k + 1)
        } else {
            ((q + 1) as u64, k)
        }
    } else {
        (q as u64, k)
    }
}

} // verus!
