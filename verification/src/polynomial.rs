//! Polynomials as arrays of 256 sixteen-bit coefficients, with the
//! arithmetic of the ring modulo 3329, by name and by operator.

use vstd::prelude::*;

verus! {

/// A polynomial of degree below 256, one coefficient per array slot.
///
/// Any sixteen-bit value may sit in a slot. A polynomial is an element of the
/// ring when it is canonical: every coefficient below 3329.
#[derive(Clone, Copy, Debug)]
pub struct Polynomial {
    coeffs: [u16; 256],
}

/// The polynomial type of the scheme.
pub type Poly16 = Polynomial;

impl View for Polynomial {
    type V = Seq<int>;

    /// The coefficients as mathematical integers, lowest degree first.
    closed spec fn view(&self) -> Seq<int> {
        Seq::new(256, |i: int| self.coeffs[i] as int)
    }
}

/// A sequence of 256 residues modulo 3329.
pub open spec fn is_canonical_seq(s: Seq<int>) -> bool {
    &&& s.len() == 256
    &&& forall|i: int| 0 <= i < 256 ==> 0 <= #[trigger] s[i] < 3329
}

/// The polynomial whose view is `s`.
pub closed spec fn from_ints(s: Seq<int>) -> Polynomial {
    choose|p: Polynomial| p@ == s
}

/// Coefficient-wise sum as sixteen bits hold it: wrapping at 65536. On
/// residues modulo 3329 it is the plain sum.
pub open spec fn wrapping_sum(a: Seq<int>, b: Seq<int>) -> Seq<int> {
    Seq::new(256, |i: int| (a[i] + b[i]) % 0x1_0000)
}

/// Every coefficient reduced modulo `m`.
pub open spec fn remainders(a: Seq<int>, m: int) -> Seq<int> {
    Seq::new(256, |i: int| a[i] % m)
}

/// Coefficient-wise sum in the ring.
pub open spec fn ring_sum(a: Seq<int>, b: Seq<int>) -> Seq<int> {
    Seq::new(256, |i: int| (a[i] + b[i]) % 3329)
}

/// Coefficient-wise difference in the ring.
pub open spec fn ring_difference(a: Seq<int>, b: Seq<int>) -> Seq<int> {
    Seq::new(256, |i: int| (a[i] - b[i]) % 3329)
}

/// Every coefficient times `c`, in the ring.
pub open spec fn ring_scaled(a: Seq<int>, c: int) -> Seq<int> {
    Seq::new(256, |i: int| (a[i] * c) % 3329)
}

/// `num_traits::zero` at `u16`: the additive identity of the coefficient
/// type. Trusted: it returns 0.
#[verifier::external_body]
fn zero_coefficient() -> (z: u16)
    ensures
        z == 0,
{
    num_traits::zero::<u16>()
}

impl Polynomial {
    /// The polynomial with the given coefficients.
    pub fn new(coefficients: &[u16; 256]) -> (p: Polynomial)
        ensures
            p@ == Seq::new(256, |i: int| coefficients[i] as int),
    {
        Polynomial { coeffs: *coefficients }
    }

    /// The polynomial whose coefficients are all zero.
    pub fn zero() -> (p: Polynomial)
        ensures
            p@ == Seq::new(256, |i: int| 0int),
            p.is_canonical(),
    {
        let p = Polynomial { coeffs: [zero_coefficient();256] };
        assert(p@ =~= Seq::new(256, |i: int| 0int));
        p
    }

    /// Every coefficient is a residue modulo 3329.
    pub open spec fn is_canonical(&self) -> bool {
        is_canonical_seq(self@)
    }

    /// The coefficients, lowest degree first.
    pub fn coefficients(&self) -> (c: [u16; 256])
        ensures
            self@ == Seq::new(256, |i: int| c[i] as int),
    {
        self.coeffs
    }

    /// The coefficients as a vector, lowest degree first.
    pub fn to_vec(&self) -> (v: Vec<u16>)
        ensures
            v@.len() == 256,
            forall|i: int| 0 <= i < 256 ==> v@[i] as int == self@[i],
    {
        let mut v: Vec<u16> = Vec::new();
        let mut i: usize = 0;
        while i < 256
            invariant
                i <= 256,
                v@.len() == i,
                forall|k: int| 0 <= k < i ==> v@[k] as int == self@[k],
            decreases 256 - i,
        {
            v.push(self.coeffs[i]);
            i += 1;
        }
        v
    }

    /// Replaces the coefficient of degree `i`.
    pub fn set(&mut self, i: usize, value: u16)
        requires
            i < 256,
        ensures
            final(self)@ == old(self)@.update(i as int, value as int),
    {
        self.coeffs[i] = value;
        assert(self@ =~= old(self)@.update(i as int, value as int));
    }

    /// Whether every coefficient is below 3329.
    pub fn check_canonical(&self) -> (ok: bool)
        ensures
            ok == self.is_canonical(),
    {
        let mut i: usize = 0;
        while i < 256
            invariant
                i <= 256,
                forall|k: int| 0 <= k < i ==> 0 <= #[trigger] self@[k] < 3329,
            decreases 256 - i,
        {
            if self.coeffs[i] >= 3329 {
                assert(self@[i as int] >= 3329);
                return false;
            }
            i += 1;
        }
        true
    }

    /// Every view has 256 entries, each a sixteen-bit value.
    pub proof fn lemma_view_bounds(self)
        ensures
            self@.len() == 256,
            forall|i: int| 0 <= i < 256 ==> 0 <= #[trigger] self@[i] <= 0xffff,
    {
    }

    /// Two polynomials with the same coefficients are the same polynomial.
    pub proof fn lemma_equal_by_view(self, other: Polynomial)
        requires
            self@ == other@,
        ensures
            self == other,
    {
        assert forall|i: int| 0 <= i < 256 implies self.coeffs[i] == other.coeffs[i] by {
            assert(self@[i] == self.coeffs[i] as int);
            assert(other@[i] == other.coeffs[i] as int);
            assert(self@[i] == other@[i]);
        }
        assert(self.coeffs =~= other.coeffs);
    }

    /// `from_ints` inverts the view.
    pub proof fn lemma_from_ints_view(self)
        ensures
            from_ints(self@) == self,
    {
        let p = from_ints(self@);
        assert(p@ == self@);
        p.lemma_equal_by_view(self);
    }

    /// The sum in the ring: each pair of coefficients added and reduced
    /// modulo 3329.
    pub fn ring_add(&self, other: &Polynomial) -> (r: Polynomial)
        ensures
            r@ == ring_sum(self@, other@),
            r.is_canonical(),
    {
        let mut coeffs: [u16; 256] = [zero_coefficient();256];
        let mut i: usize = 0;
        while i < 256
            invariant
                i <= 256,
                forall|k: int| 0 <= k < i ==> coeffs[k] as int == (self@[k] + other@[k]) % 3329,
            decreases 256 - i,
        {
            coeffs[i] = ((self.coeffs[i] as u32 + other.coeffs[i] as u32) % 3329) as u16;
            i += 1;
        }
        let r = Polynomial { coeffs };
        assert(r@ =~= ring_sum(self@, other@));
        r
    }

    /// The difference in the ring: each pair of coefficients subtracted and
    /// reduced into the range from 0 to 3328.
    pub fn ring_sub(&self, other: &Polynomial) -> (r: Polynomial)
        ensures
            r@ == ring_difference(self@, other@),
            r.is_canonical(),
    {
        let mut coeffs: [u16; 256] = [zero_coefficient();256];
        let mut i: usize = 0;
        while i < 256
            invariant
                i <= 256,
                forall|k: int| 0 <= k < i ==> coeffs[k] as int == (self@[k] - other@[k]) % 3329,
            decreases 256 - i,
        {
            let a = self.coeffs[i] as u32;
            let b = (other.coeffs[i] % 3329) as u32;
            coeffs[i] = ((a + (3329 - b)) % 3329) as u16;
            i += 1;
        }
        let r = Polynomial { coeffs };
        assert(r@ =~= ring_difference(self@, other@));
        r
    }

    /// The product with a scalar in the ring: each coefficient multiplied by
    /// `c` and reduced modulo 3329.
    pub fn ring_mul_scalar(&self, c: u16) -> (r: Polynomial)
        ensures
            r@ == ring_scaled(self@, c as int),
            r.is_canonical(),
    {
        let mut coeffs: [u16; 256] = [zero_coefficient();256];
        let mut i: usize = 0;
        while i < 256
            invariant
                i <= 256,
                forall|k: int| 0 <= k < i ==> coeffs[k] as int == (self@[k] * c) % 3329,
            decreases 256 - i,
        {
            let a = self.coeffs[i] as u32;
            assert(a * c <= 0xffff * 0xffff) by (nonlinear_arith)
                requires
                    a <= 0xffff,
                    c <= 0xffff,
            ;
            coeffs[i] = ((a * c as u32) % 3329) as u16;
            i += 1;
        }
        let r = Polynomial { coeffs };
        assert(r@ =~= ring_scaled(self@, c as int));
        r
    }

    /// The canonical form: each coefficient reduced modulo 3329.
    pub fn ring_reduce(&self) -> (r: Polynomial)
        ensures
            r@ == remainders(self@, 3329),
            r.is_canonical(),
    {
        let mut coeffs: [u16; 256] = [zero_coefficient();256];
        let mut i: usize = 0;
        while i < 256
            invariant
                i <= 256,
                forall|k: int| 0 <= k < i ==> coeffs[k] as int == self@[k] % 3329,
            decreases 256 - i,
        {
            coeffs[i] = self.coeffs[i] % 3329;
            i += 1;
        }
        let r = Polynomial { coeffs };
        assert(r@ =~= remainders(self@, 3329));
        r
    }
}

impl vstd::std_specs::core::IndexSpecImpl<usize> for Polynomial {
    open spec fn index_req(&self, index: &usize) -> bool {
        *index < 256
    }
}

impl std::ops::Index<usize> for Polynomial {
    type Output = u16;

    /// The coefficient of degree `index`.
    fn index(&self, index: usize) -> (c: &u16)
        ensures
            *c as int == self@[index as int],
    {
        &self.coeffs[index]
    }
}

impl vstd::std_specs::ops::AddSpecImpl for Polynomial {
    open spec fn obeys_add_spec() -> bool {
        true
    }

    open spec fn add_req(self, rhs: Polynomial) -> bool {
        true
    }

    open spec fn add_spec(self, rhs: Polynomial) -> Polynomial {
        from_ints(remainders(wrapping_sum(self@, rhs@), 3329))
    }
}

impl std::ops::Add for Polynomial {
    type Output = Polynomial;

    /// The sum in the ring: each pair of coefficients added in sixteen bits
    /// and reduced modulo 3329. On canonical operands the sixteen bits do not
    /// wrap, and the result is that of `ring_add`.
    fn add(self, other: Polynomial) -> (r: Polynomial)
        ensures
            r@ == remainders(wrapping_sum(self@, other@), 3329),
            r.is_canonical(),
            self.is_canonical() && other.is_canonical() ==> r@ == ring_sum(self@, other@),
    {
        let mut coeffs: [u16; 256] = [zero_coefficient();256];
        let mut i: usize = 0;
        while i < 256
            invariant
                i <= 256,
                forall|k: int|
                    0 <= k < i ==> coeffs[k] as int == ((self@[k] + other@[k]) % 0x1_0000) % 3329,
            decreases 256 - i,
        {
            coeffs[i] = self.coeffs[i].wrapping_add(other.coeffs[i]) % 3329;
            i += 1;
        }
        let r = Polynomial { coeffs };
        proof {
            assert(r@ =~= remainders(wrapping_sum(self@, other@), 3329));
            r.lemma_from_ints_view();
            if self.is_canonical() && other.is_canonical() {
                lemma_reduced_raw_sum_is_ring_sum(self@, other@);
            }
        }
        r
    }
}

impl vstd::std_specs::ops::MulSpecImpl<u16> for Polynomial {
    open spec fn obeys_mul_spec() -> bool {
        true
    }

    open spec fn mul_req(self, rhs: u16) -> bool {
        true
    }

    open spec fn mul_spec(self, rhs: u16) -> Polynomial {
        from_ints(ring_scaled(self@, rhs as int))
    }
}

impl std::ops::Mul<u16> for Polynomial {
    type Output = Polynomial;

    /// The product with a scalar in the ring: each coefficient multiplied by
    /// `rhs` and reduced modulo 3329.
    fn mul(self, rhs: u16) -> (r: Polynomial)
        ensures
            r@ == ring_scaled(self@, rhs as int),
            r.is_canonical(),
    {
        let r = self.ring_mul_scalar(rhs);
        proof {
            r.lemma_from_ints_view();
        }
        r
    }
}

impl vstd::std_specs::ops::RemSpecImpl<u16> for Polynomial {
    open spec fn obeys_rem_spec() -> bool {
        true
    }

    open spec fn rem_req(self, rhs: u16) -> bool {
        rhs != 0
    }

    open spec fn rem_spec(self, rhs: u16) -> Polynomial {
        from_ints(remainders(self@, rhs as int))
    }
}

impl std::ops::Rem<u16> for Polynomial {
    type Output = Polynomial;

    /// Each coefficient reduced modulo `rhs`, which is not zero.
    fn rem(self, rhs: u16) -> (r: Polynomial)
        ensures
            r@ == remainders(self@, rhs as int),
    {
        let mut coeffs: [u16; 256] = [zero_coefficient();256];
        let mut i: usize = 0;
        while i < 256
            invariant
                i <= 256,
                rhs != 0,
                forall|k: int| 0 <= k < i ==> coeffs[k] as int == self@[k] % (rhs as int),
            decreases 256 - i,
        {
            coeffs[i] = self.coeffs[i] % rhs;
            i += 1;
        }
        let r = Polynomial { coeffs };
        proof {
            assert(r@ =~= remainders(self@, rhs as int));
            r.lemma_from_ints_view();
        }
        r
    }
}

/// Addition in the ring is commutative.
pub proof fn lemma_ring_add_commutative(a: Seq<int>, b: Seq<int>)
    ensures
        ring_sum(a, b) == ring_sum(b, a),
{
    assert(ring_sum(a, b) =~= ring_sum(b, a));
}

/// Adding three numbers modulo `m` gives the same whichever pair is added
/// and reduced first.
proof fn lemma_add_mod_associative(x: int, y: int, z: int, m: int)
    requires
        m > 0,
    ensures
        ((x + y) % m + z) % m == (x + (y + z) % m) % m,
{
    vstd::arithmetic::div_mod::lemma_add_mod_noop(x + y, z, m);
    vstd::arithmetic::div_mod::lemma_add_mod_noop(x, y + z, m);
    vstd::arithmetic::div_mod::lemma_add_mod_noop((x + y) % m, z, m);
    vstd::arithmetic::div_mod::lemma_add_mod_noop(x, (y + z) % m, m);
    vstd::arithmetic::div_mod::lemma_mod_twice(x + y, m);
    vstd::arithmetic::div_mod::lemma_mod_twice(y + z, m);
}

/// Addition in the ring is associative.
pub proof fn lemma_ring_add_associative(a: Seq<int>, b: Seq<int>, c: Seq<int>)
    ensures
        ring_sum(ring_sum(a, b), c) == ring_sum(a, ring_sum(b, c)),
{
    assert forall|i: int| 0 <= i < 256 implies ring_sum(ring_sum(a, b), c)[i] == ring_sum(
        a,
        ring_sum(b, c),
    )[i] by {
        lemma_add_mod_associative(a[i], b[i], c[i], 3329);
    }
    assert(ring_sum(ring_sum(a, b), c) =~= ring_sum(a, ring_sum(b, c)));
}

/// The sum that `+` computes is commutative, whatever the operands hold.
pub proof fn lemma_operator_add_commutative(a: Seq<int>, b: Seq<int>)
    ensures
        remainders(wrapping_sum(a, b), 3329) == remainders(wrapping_sum(b, a), 3329),
{
    assert(wrapping_sum(a, b) =~= wrapping_sum(b, a));
}

/// The sum that `+` computes is associative on canonical polynomials, and
/// both groupings give the sum of the three, reduced.
pub proof fn lemma_operator_add_associative(a: Seq<int>, b: Seq<int>, c: Seq<int>)
    requires
        is_canonical_seq(a),
        is_canonical_seq(b),
        is_canonical_seq(c),
    ensures
        remainders(wrapping_sum(remainders(wrapping_sum(a, b), 3329), c), 3329) == remainders(
            wrapping_sum(a, remainders(wrapping_sum(b, c), 3329)),
            3329,
        ),
        remainders(wrapping_sum(remainders(wrapping_sum(a, b), 3329), c), 3329) == Seq::new(
            256,
            |i: int| (a[i] + b[i] + c[i]) % 3329,
        ),
{
    lemma_reduced_raw_sum_is_ring_sum(a, b);
    lemma_reduced_raw_sum_is_ring_sum(b, c);
    lemma_reduced_raw_sum_is_ring_sum(ring_sum(a, b), c);
    lemma_reduced_raw_sum_is_ring_sum(a, ring_sum(b, c));
    lemma_ring_add_associative(a, b, c);
    assert forall|i: int| 0 <= i < 256 implies ring_sum(ring_sum(a, b), c)[i] == (a[i] + b[i]
        + c[i]) % 3329 by {
        vstd::arithmetic::div_mod::lemma_add_mod_noop(a[i] + b[i], c[i], 3329);
        assert(0 <= c[i] < 3329);
    }
    assert(ring_sum(ring_sum(a, b), c) =~= Seq::new(256, |i: int| (a[i] + b[i] + c[i]) % 3329));
}

/// On canonical polynomials the sum that `+` computes is the sum in the
/// ring: sixteen bits hold the sum of two residues without wrapping.
pub proof fn lemma_reduced_raw_sum_is_ring_sum(a: Seq<int>, b: Seq<int>)
    requires
        is_canonical_seq(a),
        is_canonical_seq(b),
    ensures
        remainders(wrapping_sum(a, b), 3329) == ring_sum(a, b),
{
    assert forall|i: int| 0 <= i < 256 implies remainders(wrapping_sum(a, b), 3329)[i] == ring_sum(
        a,
        b,
    )[i] by {
        assert(0 <= a[i] < 3329 && 0 <= b[i] < 3329);
    }
    assert(remainders(wrapping_sum(a, b), 3329) =~= ring_sum(a, b));
}

} // verus!
