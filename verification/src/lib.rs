pub mod bignum;
pub mod evaluation;
pub mod lucas;
pub mod miller_rabin;

use vstd::prelude::*;

verus! {

use vstd::pervasive::VecAdditionalExecFns;
use vstd::arithmetic::div_mod::lemma_small_mod;
use vstd::arithmetic::div_mod::lemma_mod_multiples_basic;
use vstd::arithmetic::div_mod::lemma_fundamental_div_mod;
use crate::bignum::Natural;
use crate::bignum::bytes_le_value;

/// `p` has no divisor strictly between 1 and itself, and is at least 2.
pub open spec fn is_prime(p: nat) -> bool {
    p >= 2 && forall|d: nat| 2 <= d < p ==> #[trigger] (p % d) != 0
}

/// `v` is a perfect square.
pub open spec fn is_square(v: nat) -> bool {
    exists|k: nat| #[trigger] (k * k) == v
}

/// What the sieve knows about `j` once all divisors below `i` were tried:
/// no divisor `d` with `2 <= d < i` divides `j`, except `j` itself.
pub open spec fn sieve_pred(j: nat, i: nat) -> bool {
    j >= 2 && forall|d: nat| 2 <= d < i && #[trigger] (j % d) == 0 ==> j == d
}

proof fn lemma_divides_trans(d: nat, i: nat, j: nat)
    requires
        d > 0,
        i > 0,
        i % d == 0,
        j % i == 0,
    ensures
        j % d == 0,
{
    lemma_fundamental_div_mod(i as int, d as int);
    lemma_fundamental_div_mod(j as int, i as int);
    let a = i / d;
    let b = j / i;
    assert(j == d * (a * b)) by (nonlinear_arith)
        requires
            i == d * a,
            j == i * b,
    ;
    lemma_mod_multiples_basic((a * b) as int, d as int);
    assert((d * (a * b)) == ((a * b) * d)) by (nonlinear_arith);
}

proof fn lemma_prime_divisor(q: nat, d: nat)
    requires
        is_prime(q),
        d >= 2,
        q % d == 0,
    ensures
        q == d,
{
    if d < q {
        assert(q % d != 0);
    } else if d > q {
        lemma_small_mod(q, d);
    }
}

proof fn lemma_sieve_pred_step(j: nat, i: nat)
    requires
        i >= 2,
    ensures
        sieve_pred(j, i + 1) == (sieve_pred(j, i) && !(j >= i * i && j % i == 0)),
{
    if sieve_pred(j, i + 1) {
        assert forall|d: nat| 2 <= d < i && #[trigger] (j % d) == 0 implies j == d by {
            assert(2 <= d < i + 1);
        }
        assert(sieve_pred(j, i));
        if j >= i * i && j % i == 0 {
            assert(j == i);
            assert(i * i >= 2 * i) by (nonlinear_arith)
                requires
                    i >= 2,
            ;
            assert(false);
        }
    }
    if sieve_pred(j, i) && !(j >= i * i && j % i == 0) {
        assert forall|d: nat| 2 <= d < i + 1 && #[trigger] (j % d) == 0 implies j == d by {
            if d == i {
                // j is a multiple of i below i * i, so the cofactor is 0, 1,
                // or a proper divisor smaller than i.
                lemma_fundamental_div_mod(j as int, i as int);
                let q = j / i;
                assert(q < i) by (nonlinear_arith)
                    requires
                        j == i * q + 0,
                        j < i * i,
                        i >= 2,
                        q >= 0,
                ;
                if q == 0 {
                    assert(j == 0) by (nonlinear_arith)
                        requires
                            j == i * q + 0,
                            q == 0,
                    ;
                } else if q == 1 {
                    assert(j == i) by (nonlinear_arith)
                        requires
                            j == i * q + 0,
                            q == 1,
                    ;
                } else {
                    assert(j == i * q);
                    lemma_mod_multiples_basic(i as int, q as int);
                    assert(i * q == q * i) by (nonlinear_arith);
                    assert(j % q == 0);
                    assert(j == q);
                    assert(i * q >= 2 * q) by (nonlinear_arith)
                        requires
                            i >= 2,
                            q >= 1,
                    ;
                }
            }
        }
    }
}

proof fn lemma_sieve_pred_composite(j: nat, i: nat)
    requires
        i >= 2,
        !sieve_pred(i, i),
        sieve_pred(j, i),
    ensures
        j % i != 0,
{
    let d = choose|d: nat| 2 <= d < i && #[trigger] (i % d) == 0 && i != d;
    assert(2 <= d < i && i % d == 0);
    if j % i == 0 {
        lemma_divides_trans(d, i, j);
        assert(j == d);
        lemma_small_mod(d, i);
    }
}

proof fn lemma_sieve_pred_prime(j: nat, n: nat)
    requires
        2 <= j < n,
    ensures
        sieve_pred(j, n) == is_prime(j),
{
    if sieve_pred(j, n) {
        assert forall|d: nat| 2 <= d < j implies #[trigger] (j % d) != 0 by {
            if j % d == 0 {
                assert(j == d);
            }
        }
    }
    if is_prime(j) {
        assert forall|d: nat| 2 <= d < n && #[trigger] (j % d) == 0 implies j == d by {
            lemma_prime_divisor(j, d);
        }
    }
}

/// Returns the list of primes less than `n`, in increasing order, by the
/// sieve of Eratosthenes.
pub fn sieve(n: u32) -> (r: Vec<u32>)
    requires
        n >= 2,
    ensures
        forall|k: int| 0 <= k < r@.len() ==> is_prime(#[trigger] r@[k] as nat) && r@[k] < n,
        forall|p: nat| 2 <= p < n && is_prime(p) ==> r@.contains(p as u32),
        forall|k1: int, k2: int| 0 <= k1 < k2 < r@.len() ==> r@[k1] < r@[k2],
{
    let nu: usize = n as usize;
    let mut flags: Vec<bool> = Vec::new();
    let mut z: usize = 0;
    while z < nu
        invariant
            z <= nu,
            flags@.len() == z,
            forall|j: int| 0 <= j < z ==> flags@[j] == true,
        decreases nu - z,
    {
        flags.push(true);
        z += 1;
    }
    flags.set(0, false);
    flags.set(1, false);
    let mut i: usize = 2;
    while i < nu
        invariant
            2 <= i <= nu,
            nu == n,
            flags@.len() == nu,
            forall|j: int| 0 <= j < nu ==> flags@[j] == sieve_pred(j as nat, i as nat),
        decreases nu - i,
    {
        if flags[i] {
            let ghost pre = flags@;
            proof {
                assert((i as u64) * (i as u64) < 0x1_0000_0000_0000_0000) by (nonlinear_arith)
                    requires
                        i < 0x1_0000_0000,
                ;
            }
            let mut j: u64 = (i as u64) * (i as u64);
            proof {
                lemma_mod_multiples_basic(i as int, i as int);
            }
            while j < n as u64
                invariant
                    nu == n,
                    2 <= i < nu,
                    flags@.len() == nu,
                    pre.len() == nu,
                    (j as int) % (i as int) == 0,
                    j >= (i as u64) * (i as u64),
                    forall|k: int| 0 <= k < nu ==> #[trigger] flags@[k] == (pre[k] && !((i
                        * i) as int <= k < j && ((k as nat) % (i as nat)) == 0)),
                decreases (n as int) + (i as int) - (j as int),
            {
                let ghost jold = j as int;
                let ghost entry = flags@;
                proof {
                    assert(forall|k: int|
                        0 <= k < nu ==> #[trigger] entry[k] == (pre[k] && !((i * i) as int
                            <= k < jold && ((k as nat) % (i as nat)) == 0)));
                }
                flags.set(j as usize, false);
                proof {
                    assert((jold + i) % (i as int) == 0 && jold == (i as int) * (jold / (
                    i as int))) by {
                        lemma_fundamental_div_mod(jold, i as int);
                        lemma_mod_multiples_basic(jold / (i as int) + 1, i as int);
                        assert(jold + i == (jold / (i as int) + 1) * (i as int))
                            by (nonlinear_arith)
                            requires
                                jold == (i as int) * (jold / (i as int)),
                        ;
                    }
                }
                j = j + i as u64;
                proof {
                    assert(flags@ == entry.update(jold, false));
                    assert forall|k: int| 0 <= k < nu implies #[trigger] flags@[k] == (pre[k]
                        && !((i * i) as int <= k < j && ((k as nat) % (i as nat)) == 0)) by {
                        let cond_old = ((i * i) as int <= k < jold && ((k as nat) % (
                        i as nat)) == 0);
                        let cond_new = ((i * i) as int <= k < j && ((k as nat) % (i as nat))
                            == 0);
                        if k == jold {
                            assert(flags@[k] == false);
                            assert(cond_new);
                        } else {
                            assert(flags@[k] == entry[k]);
                            assert(entry[k] == (pre[k] && !cond_old));
                            if cond_new != cond_old {
                                assert(jold < k < jold + i && ((k as nat) % (i as nat))
                                    == 0);
                                lemma_fundamental_div_mod(k, i as int);
                                assert(false) by (nonlinear_arith)
                                    requires
                                        k == (i as int) * (k / (i as int)),
                                        jold == (i as int) * (jold / (i as int)),
                                        jold < k < jold + i,
                                        i >= 2,
                                ;
                            }
                        }
                    }
                }
            }
            proof {
                assert forall|k: int| 0 <= k < nu implies flags@[k] == sieve_pred(
                    k as nat,
                    (i + 1) as nat,
                ) by {
                    lemma_sieve_pred_step(k as nat, i as nat);
                }
            }
        } else {
            proof {
                assert forall|k: int| 0 <= k < nu implies flags@[k] == sieve_pred(
                    k as nat,
                    (i + 1) as nat,
                ) by {
                    lemma_sieve_pred_step(k as nat, i as nat);
                    if sieve_pred(k as nat, i as nat) {
                        lemma_sieve_pred_composite(k as nat, i as nat);
                    }
                }
            }
        }
        i += 1;
    }
    let mut out: Vec<u32> = Vec::new();
    let mut q: usize = 2;
    while q < nu
        invariant
            2 <= q <= nu,
            nu == n,
            flags@.len() == nu,
            forall|j: int| 0 <= j < nu ==> flags@[j] == sieve_pred(j as nat, nu as nat),
            forall|k: int| 0 <= k < out@.len() ==> 2 <= #[trigger] out@[k] && (out@[k] as int)
                < q,
            forall|k: int| 0 <= k < out@.len() ==> sieve_pred(#[trigger] out@[k] as nat,
                nu as nat),
            forall|p: nat| 2 <= p < q && sieve_pred(p, nu as nat) ==> out@.contains(p as u32),
            forall|k1: int, k2: int| 0 <= k1 < k2 < out@.len() ==> out@[k1] < out@[k2],
        decreases nu - q,
    {
        if flags[q] {
            let ghost old_out = out@;
            out.push(q as u32);
            proof {
                assert forall|p: nat| 2 <= p < q + 1 && sieve_pred(p, nu as nat) implies out@
                    .contains(p as u32) by {
                    if p < q {
                        let w = choose|w: int| 0 <= w < old_out.len() && old_out[w] == p as u32;
                        assert(out@[w] == p as u32);
                    } else {
                        assert(out@[out@.len() - 1] == p as u32);
                    }
                }
            }
        }
        q += 1;
    }
    proof {
        assert forall|k: int| 0 <= k < out@.len() implies is_prime(#[trigger] out@[k] as nat)
            && out@[k] < n by {
            lemma_sieve_pred_prime(out@[k] as nat, nu as nat);
        }
        assert forall|p: nat| 2 <= p < n && is_prime(p) implies out@.contains(p as u32) by {
            lemma_sieve_pred_prime(p, nu as nat);
        }
    }
    out
}

/// True when no listed prime divides `num`, except `num` itself.
fn trial_division(num: &Natural, primes: &Vec<u32>) -> (r: bool)
    requires
        num.wf(),
        forall|k: int| 0 <= k < primes@.len() ==> is_prime(#[trigger] primes@[k] as nat),
    ensures
        r == (forall|k: int| 0 <= k < primes@.len() ==> (num@ % (#[trigger] primes@[k] as nat)
            == 0 ==> num@ == primes@[k] as nat)),
{
    let mut k: usize = 0;
    while k < primes.len()
        invariant
            k <= primes@.len(),
            num.wf(),
            forall|k2: int| 0 <= k2 < primes@.len() ==> is_prime(#[trigger] primes@[k2] as nat),
            forall|k2: int| 0 <= k2 < k ==> num@ % (#[trigger] primes@[k2] as nat) != 0,
        decreases primes@.len() - k,
    {
        let p = Natural::from_u32(primes[k]);
        let rm = num.rem(&p);
        if rm.is_zero() {
            let eq = num.equals(&p);
            proof {
                if eq {
                    assert forall|k2: int| 0 <= k2 < primes@.len() && num@ % (
                    #[trigger] primes@[k2] as nat) == 0 implies num@ == primes@[k2] as nat by {
                        lemma_prime_divisor(num@, primes@[k2] as nat);
                    }
                }
            }
            return eq;
        }
        k += 1;
    }
    true
}

/// What the trial-division stage accepts: a value at least 2 with no proper
/// prime divisor below 1000 and which is not a perfect square.
pub open spec fn spec_trivial_prime(v: nat) -> bool {
    &&& v >= 2
    &&& forall|p: nat| is_prime(p) && p < 1000 && #[trigger] (v % p) == 0 ==> v == p
    &&& !is_square(v)
}

/// Performs a Miller-Rabin test with base 2 on a little-endian byte value.
pub fn miller_rabin_test(bytes: &[u8]) -> (r: bool)
    requires
        bytes_le_value(bytes@) > 1,
        bytes_le_value(bytes@) % 2 == 1,
    ensures
        r == crate::miller_rabin::is_sprp2(bytes_le_value(bytes@)),
{
    let num = Natural::from_bytes_le(bytes);
    crate::miller_rabin::prime_test(&num)
}

/// Performs an extra strong Lucas test on a little-endian byte value.
pub fn extra_strong_lucas_test(bytes: &[u8]) -> (r: bool)
    requires
        bytes_le_value(bytes@) > 1,
        bytes_le_value(bytes@) % 2 == 1,
    ensures
        r == crate::lucas::es_lucas(bytes_le_value(bytes@)),
{
    let num = Natural::from_bytes_le(bytes);
    crate::lucas::prime_test(&num)
}

/// Performs trial division and a square check on a little-endian byte value.
pub fn trivial_prime_test(bytes: &[u8]) -> (r: bool)
    ensures
        r == spec_trivial_prime(bytes_le_value(bytes@)),
{
    let num = Natural::from_bytes_le(bytes);
    let ghost v = num@;
    if num.is_zero() {
        return false;
    }
    let one = Natural::from_u32(1);
    if num.equals(&one) {
        return false;
    }
    let primes = sieve(1000);
    if !trial_division(&num, &primes) {
        proof {
            let k = choose|k: int| 0 <= k < primes@.len() && v % (#[trigger] primes@[k] as nat)
                == 0 && v != primes@[k] as nat;
            assert(is_prime(primes@[k] as nat) && primes@[k] < 1000);
        }
        return false;
    }
    assert forall|p: nat| is_prime(p) && p < 1000 && #[trigger] (v % p) == 0 implies v == p by {
        assert(primes@.contains(p as u32));
        let k = choose|k: int| 0 <= k < primes@.len() && primes@[k] == p as u32;
        assert(v % (primes@[k] as nat) == 0);
    }
    let s = num.sqrt();
    let ss = s.mul(&s);
    let sq = ss.equals(&num);
    proof {
        if sq {
            assert(s@ * s@ == v);
            assert(is_square(v));
        } else {
            assert forall|c: nat| #[trigger] (c * c) != v by {
                if c <= s@ {
                    assert(c * c <= s@ * s@) by (nonlinear_arith)
                        requires
                            c <= s@,
                    ;
                } else {
                    assert(c * c >= (s@ + 1) * (s@ + 1)) by (nonlinear_arith)
                        requires
                            c >= s@ + 1,
                    ;
                }
            }
        }
    }
    !sq
}

} // verus!
