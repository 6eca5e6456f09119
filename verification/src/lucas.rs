use vstd::prelude::*;

verus! {

use crate::bignum::Natural;
use crate::miller_rabin::odd_part;
use crate::miller_rabin::twos;
use vstd::arithmetic::power2::pow2;
use vstd::arithmetic::power2::lemma_pow2_unfold;

/// The sign contributed by stripping factors of two from `m`: each factor
/// flips the sign when `n mod 8` is 3 or 5.
pub open spec fn strip_sign(m: nat, n: nat) -> int
    decreases m,
{
    if m == 0 || m % 2 == 1 {
        1
    } else if n % 8 == 3 || n % 8 == 5 {
        -strip_sign(m / 2, n)
    } else {
        strip_sign(m / 2, n)
    }
}

/// One round of the quadratic-reciprocity reduction: strip twos from `m`,
/// swap the arguments (flipping the sign when both are 3 mod 4), and reduce.
/// The accumulated sign when `m` reaches zero is the result; zero is never
/// returned.
pub open spec fn jacobi_loop(m: nat, n: nat) -> int
    decreases m,
{
    if m == 0 {
        1
    } else {
        let m1 = odd_part(m);
        let s1 = strip_sign(m, n);
        let s2: int = if m1 % 4 == 3 && n % 4 == 3 {
            -1
        } else {
            1
        };
        if 0 < m1 <= m {
            s1 * s2 * jacobi_loop(n % m1, m1)
        } else {
            1
        }
    }
}

/// The Jacobi symbol `(m | n)` as the reduction computes it for odd `n`,
/// after first reducing `m` modulo `n` when `m` exceeds `n`.
pub open spec fn jacobi_spec(m: nat, n: nat) -> int
    recommends
        n % 2 == 1,
{
    if m > n {
        jacobi_loop((m % n) as nat, n)
    } else {
        jacobi_loop(m, n)
    }
}

pub proof fn lemma_odd_part_bounds(m: nat)
    requires
        m >= 1,
    ensures
        1 <= odd_part(m) <= m,
        odd_part(m) % 2 == 1,
    decreases m,
{
    if m % 2 == 0 {
        lemma_odd_part_bounds(m / 2);
    }
}

pub proof fn lemma_strip_sign_unit(m: nat, n: nat)
    ensures
        strip_sign(m, n) == 1 || strip_sign(m, n) == -1,
    decreases m,
{
    if !(m == 0 || m % 2 == 1) {
        lemma_strip_sign_unit(m / 2, n);
    }
}

pub proof fn lemma_jacobi_loop_unit(m: nat, n: nat)
    ensures
        jacobi_loop(m, n) == 1 || jacobi_loop(m, n) == -1,
    decreases m,
{
    if m > 0 {
        let m1 = odd_part(m);
        lemma_odd_part_bounds(m);
        lemma_strip_sign_unit(m, n);
        lemma_jacobi_loop_unit((n % m1) as nat, m1);
        let s1 = strip_sign(m, n);
        let s2: int = if m1 % 4 == 3 && n % 4 == 3 {
            -1
        } else {
            1
        };
        let l = jacobi_loop((n % m1) as nat, m1);
        assert(s1 * s2 * l == 1 || s1 * s2 * l == -1) by (nonlinear_arith)
            requires
                s1 == 1 || s1 == -1,
                s2 == 1 || s2 == -1,
                l == 1 || l == -1,
        ;
    }
}

/// Computes the Jacobi symbol `(m | n)`; `n` must be odd.
pub fn jacobi(m: &Natural, n: &Natural) -> (r: i32)
    requires
        m.wf(),
        n.wf(),
        n@ % 2 == 1,
    ensures
        r as int == jacobi_spec(m@, n@),
        r == 1 || r == -1i32,
{
    let two = Natural::from_u32(2);
    let mut mm = m.duplicate();
    let mut nn = n.duplicate();
    if nn.lt(&mm) {
        mm = mm.rem(&nn);
    }
    let ghost total = jacobi_spec(m@, n@);
    proof {
        assert(total == jacobi_loop(mm@, nn@));
    }
    let mut res: i32 = 1;
    let mut mz = mm.is_zero();
    while !mz
        invariant
            mm.wf(),
            nn.wf(),
            two@ == 2,
            nn@ % 2 == 1,
            nn@ >= 1,
            mz == (mm@ == 0),
            res == 1 || res == -1i32,
            total == res * jacobi_loop(mm@, nn@),
        decreases mm@,
    {
        let ghost m0 = mm@;
        let ghost n0 = nn@;
        let ghost res0 = res as int;

        // strip factors of two from mm
        let mut even = mm.is_even();
        while even
            invariant
                mm.wf(),
                nn.wf(),
                two@ == 2,
                nn@ == n0,
                mm@ >= 1,
                m0 >= 1,
                even == (mm@ % 2 == 0),
                res == 1 || res == -1i32,
                odd_part(mm@) == odd_part(m0),
                (res as int) * strip_sign(mm@, nn@) == res0 * strip_sign(m0, n0),
            decreases mm@,
        {
            let ghost mprev = mm@;
            let ghost rprev = res as int;
            let flip = nn.mod_small(8);
            if flip == 3 || flip == 5 {
                res = -res;
            }
            mm = mm.div(&two);
            even = mm.is_even();
            proof {
                if n0 % 8 == 3 || n0 % 8 == 5 {
                    assert((res as int) * strip_sign(mm@, n0) == rprev * strip_sign(
                        mprev,
                        n0,
                    )) by (nonlinear_arith)
                        requires
                            res as int == -rprev,
                            strip_sign(mprev, n0) == -strip_sign(mm@, n0),
                    ;
                } else {
                    assert(strip_sign(mprev, n0) == strip_sign(mm@, n0));
                }
            }
        }
        proof {
            assert(strip_sign(mm@, nn@) == 1);
            assert(mm@ == odd_part(m0));
            lemma_odd_part_bounds(m0);
        }
        let ghost res1 = res as int;
        proof {
            assert(res1 == res0 * strip_sign(m0, n0));
        }
        // swap and flip when both are 3 mod 4
        let tmp = mm;
        mm = nn;
        nn = tmp;
        let a = mm.mod_small(4);
        let b = nn.mod_small(4);
        let ghost s2: int = if a == 3 && b == 3 {
            -1
        } else {
            1
        };
        if a == 3 && b == 3 {
            res = -res;
        }
        mm = mm.rem(&nn);
        proof {
            let m1 = odd_part(m0);
            assert(nn@ == m1 && mm@ == n0 % m1);
            assert(jacobi_loop(m0, n0) == strip_sign(m0, n0) * s2 * jacobi_loop(
                (n0 % m1) as nat,
                m1,
            ));
            lemma_strip_sign_unit(m0, n0);
            lemma_jacobi_loop_unit((n0 % m1) as nat, m1);
            assert(res as int == res1 * s2);
            assert(total == (res as int) * jacobi_loop(mm@, nn@)) by (nonlinear_arith)
                requires
                    total == res0 * jacobi_loop(m0, n0),
                    jacobi_loop(m0, n0) == strip_sign(m0, n0) * s2 * jacobi_loop(
                        (n0 % m1) as nat,
                        m1,
                    ),
                    res as int == res1 * s2,
                    res1 == res0 * strip_sign(m0, n0),
                    mm@ == n0 % m1,
                    nn@ == m1,
            ;
        }
        mz = mm.is_zero();
    }
    proof {
        assert(jacobi_loop(0, nn@) == 1);
    }
    res
}

/// The bound on the Lucas parameter search; exceeding it reports the
/// candidate as composite instead of searching forever.
pub const SEARCH_BOUND: u64 = 1000000;

/// `p` yields a usable discriminant: the Jacobi symbol of `p^2 - 4` is -1.
pub open spec fn good_p(p: nat, n: nat) -> bool {
    jacobi_spec((p * p - 4) as nat, n) == -1
}

/// The least usable parameter at or after `p`, or 0 when none exists up to
/// the search bound.
pub open spec fn first_p_from(p: nat, n: nat) -> nat
    decreases SEARCH_BOUND + 1 - p,
{
    if p > SEARCH_BOUND {
        0
    } else if good_p(p, n) {
        p
    } else {
        first_p_from(p + 1, n)
    }
}

/// The bits of `t`, least significant first.
pub open spec fn bits_of(t: nat) -> Seq<bool>
    decreases t,
{
    if t == 0 {
        Seq::empty()
    } else {
        seq![t % 2 == 1] + bits_of(t / 2)
    }
}

/// The Lucas pair `(u, v)` after the doubling ladder has consumed the bits
/// of `t` from the most significant down to index `i`, exactly as the code
/// computes it: doubling modulo `n`, then an odd step that folds in `p` and
/// `d` and halves after an odd adjustment by `n`.
pub open spec fn ladder(p: nat, d: nat, n: nat, bits: Seq<bool>, i: nat) -> (nat, nat)
    decreases bits.len() - i,
{
    if i + 1 >= bits.len() {
        (1nat, p)
    } else {
        let uv = ladder(p, d, n, bits, i + 1);
        let u1 = (uv.0 * uv.1) % n;
        let v1 = (((uv.1 * uv.1 + n) - 2) % (n as int)) as nat;
        if bits[i as int] {
            let u2 = u1 * p + v1;
            let v2 = u1 * d + v1 * p;
            let u3 = (if u2 % 2 == 1 {
                u2 + n
            } else {
                u2
            }) / 2;
            let v3 = (if v2 % 2 == 1 {
                v2 + n
            } else {
                v2
            }) / 2;
            (u3, v3)
        } else {
            (u1, v1)
        }
    }
}

/// `v` after `j` squaring steps `v <- v^2 - 2 (mod n)`.
pub open spec fn vchain(v0: nat, n: nat, j: nat) -> nat
    decreases j,
{
    if j == 0 {
        v0
    } else {
        let w = vchain(v0, n, (j - 1) as nat);
        (((w * w + n) - 2) % (n as int)) as nat
    }
}

/// What the extra strong Lucas test returns for odd `n > 1`: with the least
/// usable parameter `p` and `n + 1 == t * 2^s`, `t` odd, the candidate
/// passes when `u == 0` and `v` is `2` or `n - 2`, or `v` reaches `0`
/// within `s - 1` further squarings; it fails when no parameter is found.
pub open spec fn es_lucas(n: nat) -> bool
    recommends
        n > 1,
        n % 2 == 1,
{
    let p = first_p_from(3, n);
    if p == 0 {
        false
    } else {
        let d = (p * p - 4) as nat;
        let s = twos(n + 1);
        let t = crate::miller_rabin::odd_part(n + 1);
        let uv = ladder(p, d, n, bits_of(t), 0);
        let u = uv.0 % n;
        let v = uv.1 % n;
        (u == 0 && (v == 2 || v == n - 2)) || v == 0 || (exists|j: nat|
            1 <= j < s && #[trigger] vchain(v, n, j) == 0)
    }
}

proof fn lemma_first_p_none(q: nat, n: nat)
    requires
        3 <= q,
        forall|r: nat| q <= r <= SEARCH_BOUND ==> !#[trigger] good_p(r, n),
    ensures
        first_p_from(q, n) == 0,
    decreases SEARCH_BOUND + 1 - q,
{
    if q <= SEARCH_BOUND {
        lemma_first_p_none(q + 1, n);
    }
}

proof fn lemma_first_p_found(q: nat, p: nat, n: nat)
    requires
        3 <= q <= p <= SEARCH_BOUND,
        good_p(p, n),
        forall|r: nat| q <= r < p ==> !#[trigger] good_p(r, n),
    ensures
        first_p_from(q, n) == p,
    decreases p - q,
{
    if q < p {
        lemma_first_p_found(q + 1, p, n);
    }
}

/// Performs an extra strong Lucas test.
pub fn prime_test(num: &Natural) -> (r: bool)
    requires
        num.wf(),
        num@ > 1,
        num@ % 2 == 1,
    ensures
        r == es_lucas(num@),
{
    let ghost n = num@;
    let one = Natural::from_u32(1);
    let two = Natural::from_u32(2);

    // search for a parameter p with Jacobi(p * p - 4 | n) == -1
    let mut p: u64 = 3;
    let mut j = jacobi(&Natural::from_u64(p * p - 4), num);
    while j != -1 && p < SEARCH_BOUND
        invariant
            num.wf(),
            n == num@,
            n > 1,
            n % 2 == 1,
            3 <= p <= SEARCH_BOUND,
            j as int == jacobi_spec((p * p - 4) as nat, n),
            forall|q: nat| 3 <= q < p ==> !#[trigger] good_p(q, n),
        decreases SEARCH_BOUND - p,
    {
        p = p + 1;
        proof {
            assert(9 <= p * p < 0x1_0000_0000_0000_0000) by (nonlinear_arith)
                requires
                    3 <= p <= 1000000,
            ;
        }
        j = jacobi(&Natural::from_u64(p * p - 4), num);
    }
    if j != -1 {
        proof {
            assert(!good_p(p as nat, n));
            lemma_first_p_none(3, n);
            assert(!es_lucas(n));
        }
        return false;
    }
    proof {
        lemma_first_p_found(3, p as nat, n);
    }
    let ghost pp = p as nat;
    proof {
        assert(9 <= p * p < 0x1_0000_0000_0000_0000) by (nonlinear_arith)
            requires
                3 <= p <= 1000000,
        ;
    }
    let d: u64 = p * p - 4;
    let pnat = Natural::from_u64(p);
    let dnat = Natural::from_u64(d);

    // `num + 1 == t * 2^s` with `t` odd
    let mut s = Natural::from_u32(0);
    let mut t = num.add(&one);
    proof {
        assert(pow2(0) == 1) by {
            vstd::arithmetic::power2::lemma2_to64();
        }
        assert(t@ * pow2(0) == t@) by (nonlinear_arith)
            requires
                pow2(0) == 1,
        ;
    }
    let mut even = t.is_even();
    while even
        invariant
            t.wf(),
            s.wf(),
            two@ == 2,
            one@ == 1,
            n > 1,
            t@ >= 1,
            even == (t@ % 2 == 0),
            t@ * pow2(s@) == n + 1,
        decreases t@,
    {
        proof {
            lemma_pow2_unfold((s@ + 1) as nat);
            assert((t@ / 2) * pow2(s@ + 1) == t@ * pow2(s@)) by (nonlinear_arith)
                requires
                    t@ % 2 == 0,
                    t@ == 2 * (t@ / 2),
                    pow2((s@ + 1) as nat) == 2 * pow2(s@),
            ;
        }
        t = t.div(&two);
        s = s.add(&one);
        even = t.is_even();
    }
    proof {
        crate::miller_rabin::lemma_decompose(n + 1, t@, s@);
    }
    let ghost st = s@;
    let ghost tt = t@;

    // collect the bits of `t`, least significant first
    let mut bits: Vec<bool> = Vec::new();
    let mut tz = t.is_zero();
    while !tz
        invariant
            t.wf(),
            two@ == 2,
            tz == (t@ == 0),
            bits_of(tt) == bits@ + bits_of(t@),
        decreases t@,
    {
        let ghost tprev = t@;
        bits.push(t.is_odd());
        t = t.div(&two);
        tz = t.is_zero();
        proof {
            assert(bits_of(tprev) == seq![tprev % 2 == 1] + bits_of(tprev / 2));
            assert(bits_of(tt) =~= bits@ + bits_of(t@));
        }
    }
    proof {
        assert(bits_of(tt) =~= bits@);
        assert(tt >= 1);
        assert(bits_of(tt).len() >= 1);
    }

    // the doubling ladder over the bits of `t`, most significant first
    let mut u = Natural::from_u32(1);
    let mut v = pnat.duplicate();
    let mut idx = bits.len() - 1;
    while idx > 0
        invariant
            u.wf(),
            v.wf(),
            num.wf(),
            pnat.wf(),
            dnat.wf(),
            two@ == 2,
            pnat@ == pp,
            dnat@ == pp * pp - 4,
            n == num@,
            n > 1,
            n % 2 == 1,
            0 <= idx < bits@.len(),
            (u@, v@) == ladder(pp, (pp * pp - 4) as nat, n, bits@, idx as nat),
        decreases idx,
    {
        idx = idx - 1;
        u = u.mul(&v).rem(num);
        v = v.mul(&v).add(num).sub(&two).rem(num);
        if bits[idx] {
            let uu = u.mul(&pnat).add(&v);
            let vv = u.mul(&dnat).add(&v.mul(&pnat));
            let mut u2 = uu;
            let mut v2 = vv;
            if u2.is_odd() {
                u2 = u2.add(num);
            }
            if v2.is_odd() {
                v2 = v2.add(num);
            }
            u = u2.div(&two);
            v = v2.div(&two);
        }
    }
    u = u.rem(num);
    v = v.rem(num);
    let ghost u0 = u@;
    let ghost v0 = v@;
    proof {
        assert((u0, v0) == (ladder(pp, (pp * pp - 4) as nat, n, bits_of(tt), 0).0 % n, ladder(
            pp,
            (pp * pp - 4) as nat,
            n,
            bits_of(tt),
            0,
        ).1 % n));
    }

    let nm2 = num.sub(&two);
    if u.is_zero() && (v.equals(&two) || v.equals(&nm2)) {
        proof {
            assert(es_lucas(n));
        }
        return true;
    }
    if v.is_zero() {
        proof {
            assert(es_lucas(n));
        }
        return true;
    }

    let mut k = Natural::from_u32(1);
    let mut cont = k.lt(&s);
    while cont
        invariant
            k.wf(),
            v.wf(),
            s.wf(),
            num.wf(),
            two@ == 2,
            one@ == 1,
            cont == (k@ < st),
            st == s@,
            n == num@,
            n > 1,
            n % 2 == 1,
            1 <= k@ <= st,
            st == twos(n + 1),
            pp == first_p_from(3, n),
            pp >= 3,
            u0 == ladder(pp, (pp * pp - 4) as nat, n, bits_of(odd_part(n + 1)), 0).0 % n,
            v0 == ladder(pp, (pp * pp - 4) as nat, n, bits_of(odd_part(n + 1)), 0).1 % n,
            !(u0 == 0 && (v0 == 2 || v0 == n - 2)),
            v0 != 0,
            v@ == vchain(v0, n, (k@ - 1) as nat),
            forall|j2: nat| 1 <= j2 < k@ ==> #[trigger] vchain(v0, n, j2) != 0,
        decreases st - k@,
    {
        v = v.mul(&v).add(num).sub(&two).rem(num);
        proof {
            assert(v@ == vchain(v0, n, k@));
        }
        if v.is_zero() {
            proof {
                assert(1 <= k@ < st);
                assert(vchain(v0, n, k@) == 0);
                assert(es_lucas(n));
            }
            return true;
        }
        let ghost kold = k@;
        k = k.add(&one);
        cont = k.lt(&s);
        proof {
            assert forall|j2: nat| 1 <= j2 < k@ implies #[trigger] vchain(v0, n, j2) != 0 by {
                if j2 == kold {
                    assert(vchain(v0, n, kold) == v@);
                }
            }
        }
    }
    proof {
        assert(k@ == st);
        assert(!es_lucas(n));
    }
    false
}

} // verus!
