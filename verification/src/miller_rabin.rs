use vstd::prelude::*;

verus! {

use vstd::arithmetic::power::pow;
use vstd::arithmetic::power::lemma_pow_adds;
use vstd::arithmetic::power::lemma_pow_positive;
use vstd::arithmetic::power2::pow2;
use vstd::arithmetic::power2::lemma_pow2_unfold;
use vstd::arithmetic::power2::lemma_pow2_pos;
use vstd::arithmetic::div_mod::lemma_mul_mod_noop_general;
use crate::bignum::Natural;
use crate::bignum::pow_mod;

/// Number of factors of two in `m` (0 when `m` is odd or zero).
pub open spec fn twos(m: nat) -> nat
    decreases m,
{
    if m == 0 || m % 2 == 1 {
        0
    } else {
        1 + twos(m / 2)
    }
}

/// `m` with all factors of two removed.
pub open spec fn odd_part(m: nat) -> nat
    decreases m,
{
    if m == 0 || m % 2 == 1 {
        m
    } else {
        odd_part(m / 2)
    }
}

/// The decomposition `m == t * 2^s` with `t` odd is unique.
pub proof fn lemma_decompose(m: nat, t: nat, s: nat)
    requires
        t % 2 == 1,
        m == t * pow2(s),
    ensures
        twos(m) == s,
        odd_part(m) == t,
    decreases s,
{
    lemma_pow2_pos(s);
    if s == 0 {
        assert(pow2(0) == 1) by {
            vstd::arithmetic::power2::lemma2_to64();
        }
        assert(m == t);
    } else {
        lemma_pow2_unfold(s);
        assert(m == (t * pow2((s - 1) as nat)) * 2) by (nonlinear_arith)
            requires
                m == t * pow2(s),
                pow2(s) == 2 * pow2((s - 1) as nat),
        ;
        let h = t * pow2((s - 1) as nat);
        assert(m % 2 == 0 && m / 2 == h) by (nonlinear_arith)
            requires
                m == h * 2,
                h >= 0,
        ;
        lemma_pow2_pos((s - 1) as nat);
        assert(h > 0) by (nonlinear_arith)
            requires
                t >= 1,
                pow2((s - 1) as nat) >= 1,
                h == t * pow2((s - 1) as nat),
        ;
        lemma_decompose((m / 2) as nat, t, (s - 1) as nat);
    }
}

/// `n` is a strong probable prime to base 2: writing `n - 1 == t * 2^s` with
/// `t` odd, either `2^t == 1 (mod n)`, or squaring `2^t` some `j < s` times
/// reaches `n - 1 (mod n)`.
pub open spec fn is_sprp2(n: nat) -> bool
    recommends
        n > 1,
        n % 2 == 1,
{
    let s = twos((n - 1) as nat);
    let t = odd_part((n - 1) as nat);
    pow_mod(2, t, n) == 1 || exists|j: nat|
        j < s && #[trigger] pow_mod(2, t * pow2(j), n) == n - 1
}

/// Squaring a power of two modulo `n` doubles the exponent.
proof fn lemma_square_step(e: nat, n: nat)
    requires
        n > 0,
    ensures
        (pow_mod(2, e, n) * pow_mod(2, e, n)) % n == pow_mod(2, 2 * e, n),
{
    let p = pow(2, e);
    lemma_pow_positive(2, e);
    lemma_pow_adds(2, e, e);
    lemma_mul_mod_noop_general(p, p, n as int);
}

/// Performs a Miller-Rabin test with base 2.
pub fn prime_test(num: &Natural) -> (r: bool)
    requires
        num.wf(),
        num@ > 1,
        num@ % 2 == 1,
    ensures
        r == is_sprp2(num@),
{
    let ghost n = num@;
    let one = Natural::from_u32(1);
    let two = Natural::from_u32(2);
    let num_minus_one = num.sub(&one);

    // `num - 1 == t * 2^s` with `t` odd
    let mut s = Natural::from_u32(0);
    let mut t = num_minus_one.duplicate();
    proof {
        assert(pow2(0) == 1) by {
            vstd::arithmetic::power2::lemma2_to64();
        }
    }
    proof {
        assert(t@ * pow2(0) == t@) by (nonlinear_arith)
            requires
                pow2(0) == 1,
        ;
    }
    let mut even = t.is_even();
    while even
        invariant
            t.wf(),
            s.wf(),
            two@ == 2,
            one@ == 1,
            n > 1,
            t@ >= 1,
            even == (t@ % 2 == 0),
            t@ * pow2(s@) == n - 1,
        decreases t@,
    {
        proof {
            lemma_pow2_unfold((s@ + 1) as nat);
            assert((t@ / 2) * pow2(s@ + 1) == t@ * pow2(s@)) by (nonlinear_arith)
                requires
                    t@ % 2 == 0,
                    t@ == 2 * (t@ / 2),
                    pow2((s@ + 1) as nat) == 2 * pow2(s@),
            ;
        }
        t = t.div(&two);
        s = s.add(&one);
        even = t.is_even();
    }
    proof {
        lemma_decompose((n - 1) as nat, t@, s@);
        assert(s@ >= 1) by {
            assert((n - 1) % 2 == 0);
        }
    }
    let ghost st = s@;
    let ghost tt = t@;

    let mut x = two.modpow(&t, num);
    if x.equals(&one) {
        return true;
    }
    if x.equals(&num_minus_one) {
        proof {
            assert(pow2(0) == 1) by {
                vstd::arithmetic::power2::lemma2_to64();
            }
            assert(tt * pow2(0) == tt);
            assert(pow_mod(2, tt * pow2(0), n) == n - 1);
        }
        return true;
    }

    let mut k = Natural::from_u32(1);
    let mut cont = k.lt(&s);
    while cont
        invariant
            k.wf(),
            x.wf(),
            s.wf(),
            num.wf(),
            num_minus_one.wf(),
            one@ == 1,
            cont == (k@ < st),
            n == num@,
            n > 1,
            n % 2 == 1,
            num_minus_one@ == n - 1,
            st == s@,
            tt % 2 == 1,
            st == twos((n - 1) as nat),
            tt == odd_part((n - 1) as nat),
            1 <= k@ <= st,
            pow_mod(2, tt, n) != 1,
            x@ == pow_mod(2, tt * pow2((k@ - 1) as nat), n),
            forall|j: nat| j < k@ ==> #[trigger] pow_mod(2, tt * pow2(j), n) != n - 1,
        decreases st - k@,
    {
        let xx = x.mul(&x);
        x = xx.rem(num);
        proof {
            lemma_square_step((tt * pow2((k@ - 1) as nat)) as nat, n);
            lemma_pow2_unfold(k@);
            assert(2 * (tt * pow2((k@ - 1) as nat)) == tt * pow2(k@)) by (nonlinear_arith)
                requires
                    pow2(k@) == 2 * pow2((k@ - 1) as nat),
            ;
        }
        if x.equals(&num_minus_one) {
            proof {
                assert(pow_mod(2, tt * pow2(k@), n) == n - 1);
            }
            return true;
        }
        let ghost kold = k@;
        k = k.add(&one);
        cont = k.lt(&s);
        proof {
            assert forall|j: nat| j < k@ implies #[trigger] pow_mod(2, tt * pow2(j), n) != n
                - 1 by {
                if j == kold {
                    assert(pow_mod(2, tt * pow2(kold), n) == x@);
                }
            }
        }
    }
    proof {
        assert(k@ == st);
        assert(!is_sprp2(n));
    }
    false
}

} // verus!
