//! Natural numbers of any size: a number is a vector of limbs to the base
//! 2^32, the least significant first.

use vstd::prelude::*;

verus! {

/// The base of the limbs.
pub open spec fn base() -> nat {
    0x1_0000_0000
}

/// `b` to the power `e`.
pub open spec fn power(b: nat, e: nat) -> nat
    decreases e,
{
    if e == 0 {
        1
    } else {
        b * power(b, (e - 1) as nat)
    }
}

/// The number that the limbs stand for.
pub open spec fn value(limbs: Seq<u32>) -> nat
    decreases limbs.len(),
{
    if limbs.len() == 0 {
        0
    } else {
        limbs[0] as nat + base() * value(limbs.drop_first())
    }
}

/// A power of a base above 0 is above 0.
pub proof fn lemma_power_positive(b: nat, e: nat)
    requires
        b > 0,
    ensures
        power(b, e) > 0,
    decreases e,
{
    if e > 0 {
        lemma_power_positive(b, (e - 1) as nat);
        assert(b * power(b, (e - 1) as nat) > 0) by (nonlinear_arith)
            requires
                b > 0,
                power(b, (e - 1) as nat) > 0,
        ;
    }
}

/// The exponents of a product of powers add up.
pub proof fn lemma_power_adds(b: nat, x: nat, y: nat)
    ensures
        power(b, x + y) == power(b, x) * power(b, y),
    decreases x,
{
    if x == 0 {
        assert(power(b, 0) * power(b, y) == power(b, y)) by (nonlinear_arith)
            requires
                power(b, 0) == 1,
        ;
    } else {
        lemma_power_adds(b, (x - 1) as nat, y);
        let px = power(b, (x - 1) as nat);
        let py = power(b, y);
        assert(power(b, x + y) == b * power(b, (x + y - 1) as nat));
        assert((x - 1) as nat + y == (x + y - 1) as nat);
        assert(b * (px * py) == (b * px) * py) by (nonlinear_arith);
    }
}

/// A power of a power: `(b^x)^y` is `b^(x·y)`.
pub proof fn lemma_power_of_power(b: nat, x: nat, y: nat)
    ensures
        power(power(b, x), y) == power(b, x * y),
    decreases y,
{
    if y == 0 {
        assert(x * y == 0) by (nonlinear_arith)
            requires
                y == 0,
        ;
    } else {
        lemma_power_of_power(b, x, (y - 1) as nat);
        assert(x * y == x + x * (y - 1)) by (nonlinear_arith);
        assert(x * (y - 1) >= 0) by (nonlinear_arith)
            requires
                y >= 1,
        ;
        lemma_power_adds(b, x, (x * (y - 1)) as nat);
        assert(x * ((y - 1) as nat) == x * (y - 1));
    }
}

/// A greater exponent gives a greater power.
pub proof fn lemma_power_increases(b: nat, x: nat, y: nat)
    requires
        b > 0,
        x <= y,
    ensures
        power(b, x) <= power(b, y),
{
    lemma_power_adds(b, x, (y - x) as nat);
    lemma_power_positive(b, (y - x) as nat);
    lemma_power_positive(b, x);
    assert(power(b, x) * power(b, (y - x) as nat) >= power(b, x)) by (nonlinear_arith)
        requires
            power(b, (y - x) as nat) >= 1,
            power(b, x) >= 1,
    ;
    assert(x + (y - x) as nat == y);
}

/// A greater base gives a greater power.
pub proof fn lemma_power_base_increases(a: nat, b: nat, e: nat)
    requires
        a <= b,
    ensures
        power(a, e) <= power(b, e),
    decreases e,
{
    if e > 0 {
        lemma_power_base_increases(a, b, (e - 1) as nat);
        let pa = power(a, (e - 1) as nat);
        let pb = power(b, (e - 1) as nat);
        assert(a * pa <= b * pb) by (nonlinear_arith)
            requires
                a <= b,
                pa <= pb,
        ;
    }
}

/// Some powers of two.
pub proof fn lemma_powers_of_two()
    ensures
        power(2, 0) == 1,
        power(2, 1) == 2,
        power(2, 8) == 0x100,
        power(2, 16) == 0x1_0000,
        power(2, 20) == 0x10_0000,
        power(2, 32) == 0x1_0000_0000,
        power(2, 52) == 0x10_0000_0000_0000,
        power(2, 53) == 0x20_0000_0000_0000,
        power(2, 54) == 0x40_0000_0000_0000,
        power(2, 63) == 0x8000_0000_0000_0000,
        power(2, 64) == 0x1_0000_0000_0000_0000,
{
    assert(power(2, 8) == 0x100 && power(2, 1) == 2 && power(2, 4) == 16 && power(2, 3) == 8) by {
        reveal_with_fuel(power, 9);
    }
    lemma_power_adds(2, 8, 8);
    assert(power(2, 16) == 0x100 * 0x100);
    lemma_power_adds(2, 16, 4);
    assert(power(2, 20) == 0x1_0000 * 16);
    lemma_power_adds(2, 16, 16);
    assert(power(2, 32) == 0x1_0000 * 0x1_0000);
    lemma_power_adds(2, 32, 20);
    assert(power(2, 52) == 0x1_0000_0000 * 0x10_0000);
    lemma_power_adds(2, 52, 1);
    assert(power(2, 53) == 0x10_0000_0000_0000 * 2);
    lemma_power_adds(2, 53, 1);
    assert(power(2, 54) == 0x20_0000_0000_0000 * 2);
    lemma_power_adds(2, 32, 32);
    assert(power(2, 64) == 0x1_0000_0000 * 0x1_0000_0000);
    assert(power(2, 64) == 2 * power(2, 63));
}

/// The base is 2^32.
pub proof fn lemma_base_is_power()
    ensures
        base() == power(2, 32),
{
    lemma_powers_of_two();
}

/// A power of the base is a power of two.
pub proof fn lemma_base_power(a: nat)
    ensures
        power(base(), a) == power(2, 32 * a),
{
    lemma_base_is_power();
    lemma_power_of_power(2, 32, a);
}

/// The value of limbs put end to end.
pub proof fn lemma_value_concat(low: Seq<u32>, high: Seq<u32>)
    ensures
        value(low + high) == value(low) + power(base(), low.len()) * value(high),
    decreases low.len(),
{
    if low.len() == 0 {
        assert(low + high =~= high);
        assert(power(base(), 0) * value(high) == value(high)) by (nonlinear_arith)
            requires
                power(base(), 0) == 1,
        ;
    } else {
        let rest = low.drop_first();
        lemma_value_concat(rest, high);
        assert((low + high).drop_first() =~= rest + high);
        let p = power(base(), rest.len());
        assert(power(base(), low.len()) == base() * p);
        assert(base() * (value(rest) + p * value(high)) == base() * value(rest) + (base() * p)
            * value(high)) by (nonlinear_arith);
    }
}

/// The value of limbs with one more on top.
pub proof fn lemma_value_push(limbs: Seq<u32>, top: u32)
    ensures
        value(limbs.push(top)) == value(limbs) + power(base(), limbs.len()) * top,
{
    lemma_value_concat(limbs, seq![top]);
    assert(limbs.push(top) =~= limbs + seq![top]);
    assert(seq![top].drop_first() =~= Seq::<u32>::empty());
    assert(value(seq![top].drop_first()) == 0);
    assert(seq![top][0] == top);
    assert(value(seq![top]) == top as nat + base() * value(seq![top].drop_first()));
}

/// The value is below the base to the power of the number of limbs.
pub proof fn lemma_value_bound(limbs: Seq<u32>)
    ensures
        value(limbs) < power(base(), limbs.len()),
    decreases limbs.len(),
{
    if limbs.len() > 0 {
        lemma_value_bound(limbs.drop_first());
        let v = value(limbs.drop_first());
        let p = power(base(), (limbs.len() - 1) as nat);
        assert(limbs[0] as nat + base() * v < base() * p) by (nonlinear_arith)
            requires
                v < p,
                limbs[0] < base(),
        ;
    }
}

/// Limbs that are all zero stand for zero, and only those do.
pub proof fn lemma_value_zero(limbs: Seq<u32>)
    ensures
        value(limbs) == 0 <==> (forall|i: int| 0 <= i < limbs.len() ==> limbs[i] == 0),
    decreases limbs.len(),
{
    if limbs.len() > 0 {
        let rest = limbs.drop_first();
        lemma_value_zero(rest);
        if value(limbs) == 0 {
            assert(base() * value(rest) >= 0);
            assert(value(rest) == 0) by (nonlinear_arith)
                requires
                    limbs[0] as nat + base() * value(rest) == 0,
                    base() == 0x1_0000_0000,
            ;
            assert forall|i: int| 0 <= i < limbs.len() implies limbs[i] == 0 by {
                if i > 0 {
                    assert(rest[i - 1] == limbs[i]);
                }
            }
        }
        if forall|i: int| 0 <= i < limbs.len() ==> limbs[i] == 0 {
            assert forall|i: int| 0 <= i < rest.len() implies rest[i] == 0 by {
                assert(rest[i] == limbs[i + 1]);
            }
        }
    }
}

/// The limbs above `a` are the quotient by the base to the power `a`, and
/// the limbs below it are the remainder.
pub proof fn lemma_value_split(limbs: Seq<u32>, a: int)
    requires
        0 <= a <= limbs.len(),
    ensures
        value(limbs) == value(limbs.subrange(0, a)) + power(base(), a as nat) * value(
            limbs.subrange(a, limbs.len() as int),
        ),
        value(limbs.subrange(0, a)) < power(base(), a as nat),
        value(limbs) / power(base(), a as nat) == value(limbs.subrange(a, limbs.len() as int)),
        value(limbs) % power(base(), a as nat) == value(limbs.subrange(0, a)),
{
    let low = limbs.subrange(0, a);
    let high = limbs.subrange(a, limbs.len() as int);
    assert(limbs =~= low + high);
    lemma_value_concat(low, high);
    lemma_value_bound(low);
    let p = power(base(), a as nat);
    lemma_power_positive(base(), a as nat);
    assert(value(limbs) == value(high) * p + value(low)) by (nonlinear_arith)
        requires
            value(limbs) == value(low) + p * value(high),
    ;
    vstd::arithmetic::div_mod::lemma_fundamental_div_mod_converse(
        value(limbs) as int,
        p as int,
        value(high) as int,
        value(low) as int,
    );
}

/// Multiplies the number by `m` and adds `add` to it.
pub fn mul_small(limbs: &mut Vec<u32>, m: u32, add: u32)
    ensures
        value(final(limbs)@) == value(old(limbs)@) * m + add,
        final(limbs).len() <= old(limbs).len() + 1,
        final(limbs).len() >= old(limbs).len(),
{
    let n = limbs.len();
    let mut carry: u64 = add as u64;
    let mut i: usize = 0;
    proof {
        assert(limbs@.subrange(0, 0) =~= Seq::<u32>::empty());
        assert(value(limbs@.subrange(0, 0)) == 0);
        assert(value(limbs@.subrange(0, 0)) * m == 0) by (nonlinear_arith)
            requires
                value(limbs@.subrange(0, 0)) == 0,
        ;
        assert(power(base(), 0) * carry == carry) by (nonlinear_arith)
            requires
                power(base(), 0) == 1,
        ;
    }
    while i < n
        invariant
            i <= n,
            limbs.len() == n,
            n == old(limbs).len(),
            carry < 0x1_0000_0000,
            forall|k: int| i <= k < n ==> limbs[k] == old(limbs)[k],
            value(limbs@.subrange(0, i as int)) + power(base(), i as nat) * carry == value(
                old(limbs)@.subrange(0, i as int),
            ) * m + add,
        decreases n - i,
    {
        let x: u32 = limbs[i];
        assert((x as u64) * (m as u64) <= 0xFFFF_FFFF * 0xFFFF_FFFF) by (nonlinear_arith)
            requires
                x <= 0xFFFF_FFFF,
                m <= 0xFFFF_FFFF,
        ;
        let cur: u64 = (x as u64) * (m as u64) + carry;
        let lo: u32 = (cur % 0x1_0000_0000) as u32;
        let next: u64 = cur / 0x1_0000_0000;
        let ghost before = limbs@;
        limbs.set(i, lo);
        proof {
            let p = power(base(), i as nat);
            let v = value(before.subrange(0, i as int));
            let a = value(old(limbs)@.subrange(0, i as int));
            assert(limbs@.subrange(0, i as int) =~= before.subrange(0, i as int));
            assert(limbs@.subrange(0, i as int + 1) =~= limbs@.subrange(0, i as int).push(lo));
            assert(old(limbs)@.subrange(0, i as int + 1) =~= old(limbs)@.subrange(0, i as int).push(
                x,
            ));
            lemma_value_push(limbs@.subrange(0, i as int), lo);
            lemma_value_push(old(limbs)@.subrange(0, i as int), x);
            assert(power(base(), (i + 1) as nat) == base() * p);
            assert(v + p * lo + (base() * p) * next == (a + p * x) * m + add) by (nonlinear_arith)
                requires
                    v + p * carry == a * m + add,
                    x * m + carry == lo + base() * next,
            ;
        }
        carry = next;
        i += 1;
    }
    proof {
        assert(limbs@.subrange(0, n as int) =~= limbs@);
        assert(old(limbs)@.subrange(0, n as int) =~= old(limbs)@);
    }
    if carry > 0 {
        proof {
            lemma_value_push(limbs@, carry as u32);
        }
        limbs.push(carry as u32);
    } else {
        proof {
            assert(power(base(), n as nat) * 0 == 0) by (nonlinear_arith);
        }
    }
}

/// Divides the number by `d` and hands back the remainder.
pub fn div_small(limbs: &mut Vec<u32>, d: u32) -> (rem: u32)
    requires
        d > 0,
    ensures
        final(limbs).len() == old(limbs).len(),
        value(old(limbs)@) == value(final(limbs)@) * d + rem,
        rem < d,
{
    let n = limbs.len();
    let mut rem: u64 = 0;
    let mut i: usize = n;
    proof {
        assert(limbs@.subrange(n as int, n as int) =~= Seq::<u32>::empty());
        assert(value(limbs@.subrange(n as int, n as int)) == 0);
        assert(value(limbs@.subrange(n as int, n as int)) * d == 0) by (nonlinear_arith)
            requires
                value(limbs@.subrange(n as int, n as int)) == 0,
        ;
    }
    while i > 0
        invariant
            i <= n,
            limbs.len() == n,
            n == old(limbs).len(),
            rem < d,
            d > 0,
            forall|k: int| 0 <= k < i ==> limbs[k] == old(limbs)[k],
            value(old(limbs)@.subrange(i as int, n as int)) == value(
                limbs@.subrange(i as int, n as int),
            ) * d + rem,
        decreases i,
    {
        i -= 1;
        let x: u32 = limbs[i];
        let cur: u64 = rem * 0x1_0000_0000 + x as u64;
        let q: u64 = cur / (d as u64);
        let next: u64 = cur % (d as u64);
        proof {
            assert(cur == q * d + next) by {
                vstd::arithmetic::div_mod::lemma_fundamental_div_mod(cur as int, d as int);
                assert(d * q == q * d) by (nonlinear_arith);
            }
            assert(q < 0x1_0000_0000) by (nonlinear_arith)
                requires
                    cur == q * d + next,
                    cur < d * 0x1_0000_0000,
                    d > 0,
                    next >= 0,
            ;
        }
        let ghost before = limbs@;
        limbs.set(i, q as u32);
        proof {
            let old_high = old(limbs)@.subrange(i as int + 1, n as int);
            let new_high = limbs@.subrange(i as int + 1, n as int);
            assert(new_high =~= before.subrange(i as int + 1, n as int));
            assert(old(limbs)@.subrange(i as int, n as int).drop_first() =~= old_high);
            assert(limbs@.subrange(i as int, n as int).drop_first() =~= new_high);
            let vo = value(old_high);
            let vn = value(new_high);
            assert(x + base() * vo == (q + base() * vn) * d + next) by (nonlinear_arith)
                requires
                    vo == vn * d + rem,
                    rem * base() + x == q * d + next,
            ;
        }
        rem = next;
    }
    proof {
        assert(limbs@.subrange(0, n as int) =~= limbs@);
        assert(old(limbs)@.subrange(0, n as int) =~= old(limbs)@);
    }
    rem as u32
}

/// The number times the base to the power `k`: `k` zero limbs below it.
pub fn shift_limbs(limbs: &Vec<u32>, k: usize) -> (r: Vec<u32>)
    ensures
        value(r@) == value(limbs@) * power(base(), k as nat),
        r@ == Seq::new(k as nat, |i: int| 0u32) + limbs@,
{
    let mut out: Vec<u32> = Vec::new();
    let mut i: usize = 0;
    while i < k
        invariant
            i <= k,
            out@ == Seq::new(i as nat, |j: int| 0u32),
        decreases k - i,
    {
        out.push(0);
        proof {
            assert(out@ =~= Seq::new((i + 1) as nat, |j: int| 0u32));
        }
        i += 1;
    }
    let ghost zeros = out@;
    let mut j: usize = 0;
    while j < limbs.len()
        invariant
            j <= limbs.len(),
            out@ == zeros + limbs@.subrange(0, j as int),
        decreases limbs.len() - j,
    {
        out.push(limbs[j]);
        proof {
            assert(out@ =~= zeros + limbs@.subrange(0, j as int + 1));
        }
        j += 1;
    }
    proof {
        assert(limbs@.subrange(0, limbs.len() as int) =~= limbs@);
        lemma_value_concat(zeros, limbs@);
        lemma_value_zero(zeros);
        assert(power(base(), k as nat) * value(limbs@) == value(limbs@) * power(base(), k as nat))
            by (nonlinear_arith);
    }
    out
}

/// The limbs of a number below 2^64.
pub fn limbs_of(x: u64) -> (r: Vec<u32>)
    ensures
        value(r@) == x,
        r.len() == 2,
{
    let mut out: Vec<u32> = Vec::new();
    let lo: u32 = (x % 0x1_0000_0000) as u32;
    let hi: u32 = (x / 0x1_0000_0000) as u32;
    out.push(lo);
    out.push(hi);
    proof {
        assert(out@ =~= seq![lo, hi]);
        assert(out@.drop_first() =~= seq![hi]);
        assert(seq![hi].drop_first() =~= Seq::<u32>::empty());
        assert(value(seq![hi]) == hi as nat + base() * value(seq![hi].drop_first()));
    }
    out
}

} // verus!
