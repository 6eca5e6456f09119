use vstd::prelude::*;

verus! {

use vstd::arithmetic::power::pow;
use vstd::arithmetic::div_mod::lemma_mod_multiples_vanish;
use vstd::arithmetic::power::lemma_pow_positive;
use vstd::arithmetic::power::lemma0_pow;

/// Value of a little-endian sequence of base-2^32 digits.
pub open spec fn limbs_value(s: Seq<u32>) -> nat
    decreases s.len(),
{
    if s.len() == 0 {
        0
    } else {
        (s[0] as nat) + limbs_value(s.skip(1)) * 0x1_0000_0000
    }
}

/// Value of a little-endian sequence of base-256 digits.
pub open spec fn bytes_le_value(s: Seq<u8>) -> nat
    decreases s.len(),
{
    if s.len() == 0 {
        0
    } else {
        (s[0] as nat) + bytes_le_value(s.skip(1)) * 256
    }
}

/// `pow(b, e) % m`, the value a modular exponentiation returns.
pub open spec fn pow_mod(b: nat, e: nat, m: nat) -> nat
    recommends
        m > 0,
{
    (pow(b as int, e) % (m as int)) as nat
}

/// An arbitrary-precision non-negative integer, stored as base-2^32 digits,
/// least significant first.
pub struct Natural {
    limbs: Vec<u32>,
}

impl View for Natural {
    type V = nat;

    closed spec fn view(&self) -> nat {
        limbs_value(self.limbs@)
    }
}

/// An arbitrary-precision signed integer in sign-magnitude form.
pub struct Signed {
    negative: bool,
    magnitude: Natural,
}

impl View for Signed {
    type V = int;

    closed spec fn view(&self) -> int {
        if self.negative {
            -(self.magnitude@ as int)
        } else {
            self.magnitude@ as int
        }
    }
}

pub proof fn lemma_limbs_value_bounds(s: Seq<u32>)
    requires
        s.len() == 0 || s[s.len() - 1] != 0,
    ensures
        s.len() == 0 ==> limbs_value(s) == 0,
        s.len() == 1 ==> limbs_value(s) == s[0],
        s.len() >= 2 ==> limbs_value(s) >= 0x1_0000_0000,
        s.len() >= 1 ==> limbs_value(s) > 0,
    decreases s.len(),
{
    if s.len() == 1 {
        assert(s.skip(1).len() == 0);
    } else if s.len() >= 2 {
        let t = s.skip(1);
        assert(t[t.len() - 1] == s[s.len() - 1]);
        lemma_limbs_value_bounds(t);
        assert(limbs_value(t) * 0x1_0000_0000 >= 0x1_0000_0000) by (nonlinear_arith)
            requires
                limbs_value(t) >= 1,
        ;
    }
}

pub proof fn lemma_limbs_value_low_mod(s: Seq<u32>, m: nat)
    requires
        m > 0,
        (0x1_0000_0000 as nat) % m == 0,
    ensures
        s.len() == 0 ==> limbs_value(s) % m == 0,
        s.len() > 0 ==> limbs_value(s) % m == (s[0] as nat) % m,
{
    reveal_with_fuel(limbs_value, 2);
    if s.len() > 0 {
        let rest = limbs_value(s.skip(1));
        let b: nat = 0x1_0000_0000;
        assert(limbs_value(s) == (s[0] as nat) + rest * b);
        assert(b == (b / m) * m) by {
            vstd::arithmetic::div_mod::lemma_fundamental_div_mod(b as int, m as int);
        }
        assert(rest * b == (m as int) * ((b / m) * rest)) by (nonlinear_arith)
            requires
                b == (b / m) * m,
        ;
        lemma_mod_multiples_vanish(((b / m) * rest) as int, s[0] as int, m as int);
        assert((m as int) * (((b / m) * rest) as int) + (s[0] as int) == limbs_value(s) as int);
        assert((limbs_value(s) as int) % (m as int) == (s[0] as int) % (m as int));
        assert(limbs_value(s) % m == (s[0] as nat) % m);
    } else {
        assert(limbs_value(s) == 0);
        assert(limbs_value(s) % m == 0) by (nonlinear_arith)
            requires
                limbs_value(s) == 0,
                m > 0,
        ;
    }
}

impl Natural {
    /// The digit sequence is canonical: no most significant zero digit.
    pub closed spec fn wf(&self) -> bool {
        self.limbs@.len() == 0 || self.limbs@[self.limbs@.len() - 1] != 0
    }

    pub fn from_u32(n: u32) -> (r: Natural)
        ensures
            r@ == n as nat,
            r.wf(),
    {
        let mut v: Vec<u32> = Vec::new();
        if n > 0 {
            v.push(n);
        }
        proof {
            reveal_with_fuel(limbs_value, 3);
            if n > 0 {
                assert(v@.skip(1).len() == 0);
            }
        }
        Natural { limbs: v }
    }

    pub fn from_u64(n: u64) -> (r: Natural)
        ensures
            r@ == n as nat,
            r.wf(),
    {
        let lo: u32 = (n % 0x1_0000_0000) as u32;
        let hi: u32 = (n / 0x1_0000_0000) as u32;
        let mut v: Vec<u32> = Vec::new();
        if hi > 0 {
            v.push(lo);
            v.push(hi);
            proof {
                reveal_with_fuel(limbs_value, 3);
                assert(v@.skip(1).len() == 1);
                assert(v@.skip(1)[0] == hi);
                assert(v@.skip(1).skip(1).len() == 0);
                assert(limbs_value(v@) == lo + (hi as nat) * 0x1_0000_0000);
            }
        } else if lo > 0 {
            v.push(lo);
            proof {
                reveal_with_fuel(limbs_value, 2);
                assert(v@.skip(1).len() == 0);
            }
        } else {
            proof {
                reveal_with_fuel(limbs_value, 1);
            }
        }
        Natural { limbs: v }
    }

    pub fn duplicate(&self) -> (r: Natural)
        ensures
            r@ == self@,
            r.wf() == self.wf(),
    {
        let mut v: Vec<u32> = Vec::new();
        let mut i: usize = 0;
        while i < self.limbs.len()
            invariant
                i <= self.limbs.len(),
                v@ == self.limbs@.take(i as int),
            decreases self.limbs.len() - i,
        {
            v.push(self.limbs[i]);
            proof {
                assert(v@ =~= self.limbs@.take(i + 1 as int));
            }
            i += 1;
        }
        proof {
            assert(v@ =~= self.limbs@);
        }
        Natural { limbs: v }
    }

    pub fn is_zero(&self) -> (r: bool)
        requires
            self.wf(),
        ensures
            r == (self@ == 0),
    {
        proof {
            lemma_limbs_value_bounds(self.limbs@);
        }
        self.limbs.len() == 0
    }

    pub fn to_u32(&self) -> (r: Option<u32>)
        requires
            self.wf(),
        ensures
            (r is Some) == (self@ <= u32::MAX),
            r is Some ==> r.unwrap() as nat == self@,
    {
        proof {
            lemma_limbs_value_bounds(self.limbs@);
        }
        if self.limbs.len() == 0 {
            Some(0)
        } else if self.limbs.len() == 1 {
            Some(self.limbs[0])
        } else {
            None
        }
    }

    /// The value modulo a small divisor of 2^32, read off the lowest digit.
    pub fn mod_small(&self, m: u32) -> (r: u32)
        requires
            m > 0,
            (0x1_0000_0000 as nat) % (m as nat) == 0,
        ensures
            r as nat == self@ % (m as nat),
    {
        proof {
            lemma_limbs_value_low_mod(self.limbs@, m as nat);
        }
        if self.limbs.len() == 0 {
            0
        } else {
            self.limbs[0] % m
        }
    }

    pub fn is_even(&self) -> (r: bool)
        ensures
            r == (self@ % 2 == 0),
    {
        self.mod_small(2) == 0
    }

    pub fn is_odd(&self) -> (r: bool)
        ensures
            r == (self@ % 2 == 1),
    {
        self.mod_small(2) == 1
    }

    pub fn equals(&self, other: &Natural) -> (r: bool)
        ensures
            r == (self@ == other@),
    {
        !self.lt(other) && !other.lt(self)
    }

    /// Relies on `num_bigint::BigUint` addition; `from_slice` reads base-2^32
    /// digits least significant first and `to_u32_digits` writes the sum back
    /// the same way, without a most significant zero digit.
    #[verifier::external_body]
    pub fn add(&self, other: &Natural) -> (r: Natural)
        ensures
            r@ == self@ + other@,
            r.wf(),
    {
        let a = num_bigint::BigUint::from_slice(&self.limbs);
        let b = num_bigint::BigUint::from_slice(&other.limbs);
        Natural { limbs: (a + b).to_u32_digits() }
    }

    /// Relies on `num_bigint::BigUint` subtraction, which panics when the
    /// subtrahend exceeds the minuend, hence the precondition.
    #[verifier::external_body]
    pub fn sub(&self, other: &Natural) -> (r: Natural)
        requires
            other@ <= self@,
        ensures
            r@ == self@ - other@,
            r.wf(),
    {
        let a = num_bigint::BigUint::from_slice(&self.limbs);
        let b = num_bigint::BigUint::from_slice(&other.limbs);
        Natural { limbs: (a - b).to_u32_digits() }
    }

    /// Relies on `num_bigint::BigUint` multiplication.
    #[verifier::external_body]
    pub fn mul(&self, other: &Natural) -> (r: Natural)
        ensures
            r@ == self@ * other@,
            r.wf(),
    {
        let a = num_bigint::BigUint::from_slice(&self.limbs);
        let b = num_bigint::BigUint::from_slice(&other.limbs);
        Natural { limbs: (a * b).to_u32_digits() }
    }

    /// Relies on `num_bigint::BigUint` division, which truncates and panics on
    /// a zero divisor.
    #[verifier::external_body]
    pub fn div(&self, other: &Natural) -> (r: Natural)
        requires
            other@ > 0,
        ensures
            r@ == self@ / other@,
            r.wf(),
    {
        let a = num_bigint::BigUint::from_slice(&self.limbs);
        let b = num_bigint::BigUint::from_slice(&other.limbs);
        Natural { limbs: (a / b).to_u32_digits() }
    }

    /// Relies on `num_bigint::BigUint` remainder, which panics on a zero
    /// divisor.
    #[verifier::external_body]
    pub fn rem(&self, other: &Natural) -> (r: Natural)
        requires
            other@ > 0,
        ensures
            r@ == self@ % other@,
            r.wf(),
    {
        let a = num_bigint::BigUint::from_slice(&self.limbs);
        let b = num_bigint::BigUint::from_slice(&other.limbs);
        Natural { limbs: (a % b).to_u32_digits() }
    }

    /// Relies on `num_bigint::BigUint::modpow`, which returns
    /// `(self ^ exponent) % modulus` and panics when the modulus is zero.
    #[verifier::external_body]
    pub fn modpow(&self, exponent: &Natural, modulus: &Natural) -> (r: Natural)
        requires
            modulus@ > 0,
        ensures
            r@ == pow_mod(self@, exponent@, modulus@),
            r.wf(),
    {
        let b = num_bigint::BigUint::from_slice(&self.limbs);
        let e = num_bigint::BigUint::from_slice(&exponent.limbs);
        let m = num_bigint::BigUint::from_slice(&modulus.limbs);
        Natural { limbs: b.modpow(&e, &m).to_u32_digits() }
    }

    /// Relies on `num_bigint::BigUint::pow` (via `num_traits::Pow`), which
    /// raises to a `u32` exponent exactly.
    #[verifier::external_body]
    pub fn pow_u32(&self, e: u32) -> (r: Natural)
        ensures
            r@ as int == pow(self@ as int, e as nat),
            r.wf(),
    {
        let a = num_bigint::BigUint::from_slice(&self.limbs);
        Natural { limbs: num_traits::Pow::pow(a, e).to_u32_digits() }
    }

    /// Relies on `num_bigint::BigUint::sqrt`, the truncated principal square
    /// root.
    #[verifier::external_body]
    pub fn sqrt(&self) -> (r: Natural)
        ensures
            r@ * r@ <= self@,
            self@ < (r@ + 1) * (r@ + 1),
            r.wf(),
    {
        let a = num_bigint::BigUint::from_slice(&self.limbs);
        Natural { limbs: a.sqrt().to_u32_digits() }
    }

    /// Relies on the `num_bigint::BigUint` order, which compares values.
    #[verifier::external_body]
    pub fn lt(&self, other: &Natural) -> (r: bool)
        ensures
            r == (self@ < other@),
    {
        let a = num_bigint::BigUint::from_slice(&self.limbs);
        let b = num_bigint::BigUint::from_slice(&other.limbs);
        a < b
    }

    /// Relies on `num_bigint::BigUint::from_bytes_le`, which reads base-256
    /// digits least significant first.
    #[verifier::external_body]
    pub fn from_bytes_le(bytes: &[u8]) -> (r: Natural)
        ensures
            r@ == bytes_le_value(bytes@),
            r.wf(),
    {
        Natural { limbs: num_bigint::BigUint::from_bytes_le(bytes).to_u32_digits() }
    }

    /// Relies on `num_bigint::BigUint::to_bytes_le`, which writes base-256
    /// digits least significant first.
    #[verifier::external_body]
    pub fn to_bytes_le(&self) -> (r: Vec<u8>)
        ensures
            bytes_le_value(r@) == self@,
    {
        num_bigint::BigUint::from_slice(&self.limbs).to_bytes_le()
    }
}

/// Quotient of division truncated toward zero, as on native signed integers.
pub open spec fn tdiv(a: int, b: int) -> int {
    let q = (vstd::math::abs(a) / vstd::math::abs(b)) as int;
    if (a < 0) != (b < 0) {
        -q
    } else {
        q
    }
}

/// Remainder of division truncated toward zero: it takes the dividend's sign.
pub open spec fn trem(a: int, b: int) -> int {
    let r = (vstd::math::abs(a) % vstd::math::abs(b)) as int;
    if a < 0 {
        -r
    } else {
        r
    }
}

pub proof fn lemma_pow_nonneg(b: int, e: nat)
    requires
        b >= 0,
    ensures
        pow(b, e) >= 0,
{
    if b > 0 {
        lemma_pow_positive(b, e);
    } else if e > 0 {
        lemma0_pow(e);
    } else {
        vstd::arithmetic::power::lemma_pow0(b);
    }
}

pub proof fn lemma_pow_neg(b: int, e: nat)
    ensures
        e % 2 == 0 ==> pow(-b, e) == pow(b, e),
        e % 2 == 1 ==> pow(-b, e) == -pow(b, e),
    decreases e,
{
    reveal(pow);
    if e > 0 {
        lemma_pow_neg(b, (e - 1) as nat);
        let p = pow(b, (e - 1) as nat);
        if e % 2 == 0 {
            assert((-b) * (-p) == b * p) by (nonlinear_arith);
        } else {
            assert((-b) * p == -(b * p)) by (nonlinear_arith);
        }
    }
}

impl Signed {
    pub closed spec fn wf(&self) -> bool {
        &&& self.magnitude.wf()
        &&& (self.negative ==> self.magnitude@ > 0)
    }

    pub fn from_natural(magnitude: Natural) -> (r: Signed)
        ensures
            r@ == magnitude@,
            magnitude.wf() ==> r.wf(),
    {
        Signed { negative: false, magnitude }
    }

    pub fn from_u32(n: u32) -> (r: Signed)
        ensures
            r@ == n as int,
            r.wf(),
    {
        Signed { negative: false, magnitude: Natural::from_u32(n) }
    }

    pub fn duplicate(&self) -> (r: Signed)
        ensures
            r@ == self@,
            r.wf() == self.wf(),
    {
        Signed { negative: self.negative, magnitude: self.magnitude.duplicate() }
    }

    pub fn is_negative(&self) -> (r: bool)
        requires
            self.wf(),
        ensures
            r == (self@ < 0),
    {
        self.negative
    }

    pub fn is_zero(&self) -> (r: bool)
        requires
            self.wf(),
        ensures
            r == (self@ == 0),
    {
        self.magnitude.is_zero()
    }

    /// The magnitude, discarding the sign.
    pub fn into_magnitude(self) -> (r: Natural)
        ensures
            r@ == vstd::math::abs(self@),
            self.wf() ==> r.wf(),
    {
        self.magnitude
    }

    pub fn neg(&self) -> (r: Signed)
        requires
            self.wf(),
        ensures
            r@ == -self@,
            r.wf(),
    {
        let m = self.magnitude.duplicate();
        if m.is_zero() {
            Signed { negative: false, magnitude: m }
        } else {
            Signed { negative: !self.negative, magnitude: m }
        }
    }

    pub fn add(&self, other: &Signed) -> (r: Signed)
        requires
            self.wf(),
            other.wf(),
        ensures
            r@ == self@ + other@,
            r.wf(),
    {
        if self.negative == other.negative {
            Signed {
                negative: self.negative,
                magnitude: self.magnitude.add(&other.magnitude),
            }
        } else if self.magnitude.lt(&other.magnitude) {
            Signed {
                negative: other.negative,
                magnitude: other.magnitude.sub(&self.magnitude),
            }
        } else {
            let m = self.magnitude.sub(&other.magnitude);
            let z = m.is_zero();
            Signed { negative: self.negative && !z, magnitude: m }
        }
    }

    pub fn sub(&self, other: &Signed) -> (r: Signed)
        requires
            self.wf(),
            other.wf(),
        ensures
            r@ == self@ - other@,
            r.wf(),
    {
        self.add(&other.neg())
    }

    pub fn mul(&self, other: &Signed) -> (r: Signed)
        requires
            self.wf(),
            other.wf(),
        ensures
            r@ == self@ * other@,
            r.wf(),
    {
        let m = self.magnitude.mul(&other.magnitude);
        let z = m.is_zero();
        let r = Signed { negative: (self.negative != other.negative) && !z, magnitude: m };
        proof {
            assert(r@ == self@ * other@) by (nonlinear_arith)
                requires
                    m@ == self.magnitude@ * other.magnitude@,
                    r@ == if r.negative {
                        -(m@ as int)
                    } else {
                        m@ as int
                    },
                    r.negative == ((self.negative != other.negative) && m@ != 0),
                    self@ == if self.negative {
                        -(self.magnitude@ as int)
                    } else {
                        self.magnitude@ as int
                    },
                    other@ == if other.negative {
                        -(other.magnitude@ as int)
                    } else {
                        other.magnitude@ as int
                    },
            ;
        }
        r
    }

    pub fn div(&self, other: &Signed) -> (r: Signed)
        requires
            self.wf(),
            other.wf(),
            other@ != 0,
        ensures
            r@ == tdiv(self@, other@),
            r.wf(),
    {
        let m = self.magnitude.div(&other.magnitude);
        let z = m.is_zero();
        Signed { negative: (self.negative != other.negative) && !z, magnitude: m }
    }

    pub fn rem(&self, other: &Signed) -> (r: Signed)
        requires
            self.wf(),
            other.wf(),
            other@ != 0,
        ensures
            r@ == trem(self@, other@),
            r.wf(),
    {
        let m = self.magnitude.rem(&other.magnitude);
        let z = m.is_zero();
        Signed { negative: self.negative && !z, magnitude: m }
    }

    pub fn pow(&self, e: u32) -> (r: Signed)
        requires
            self.wf(),
        ensures
            r@ == pow(self@, e as nat),
            r.wf(),
    {
        let m = self.magnitude.pow_u32(e);
        proof {
            lemma_pow_nonneg(self.magnitude@ as int, e as nat);
            if self.negative {
                lemma_pow_positive(self.magnitude@ as int, e as nat);
                lemma_pow_neg(self.magnitude@ as int, e as nat);
            }
        }
        if self.negative && e % 2 == 1 {
            Signed { negative: true, magnitude: m }
        } else {
            Signed { negative: false, magnitude: m }
        }
    }

    /// The value as a `u32` magnitude, when non-negative and small enough.
    pub fn to_u32(&self) -> (r: Option<u32>)
        requires
            self.wf(),
        ensures
            (r is Some) == (0 <= self@ <= u32::MAX),
            r is Some ==> r.unwrap() as int == self@,
    {
        if self.negative {
            None
        } else {
            self.magnitude.to_u32()
        }
    }
}

} // verus!
