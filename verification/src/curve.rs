//! The pairing-friendly curve layer: scalars, the two source groups, the
//! target group and the bilinear pairing, together with the randomness
//! source that every protocol operation draws from.
//!
//! All arithmetic is carried out by the arkworks crates (`ark-bls12-381`,
//! `ark-ec`, `ark-ff`); every item that touches it is trusted, and each
//! holds nothing beyond the calls it is named for. Each deterministic
//! operation — one whose result is a function of its arguments alone — is
//! given a name (`fr_add`, `g_scale`, `pairing_of`, ...), and its wrapper
//! promises exactly that its result is the named function of its
//! arguments; the protocol contracts above speak in this vocabulary.
use vstd::prelude::*;

verus! {

/// Relies on `rand::rngs::StdRng` of `rand`: the seedable standard random
/// number generator, opaque to the verifier.
#[verifier::external_type_specification]
#[verifier::external_body]
pub struct ExStdRng(rand::rngs::StdRng);

/// An element of the scalar field of the curve, held opaquely. The arkworks
/// types cannot be declared to the verifier (their generics carry const
/// parameters and outside trait bounds), so each curve type is an opaque
/// struct around the arkworks value.
#[verifier::external_body]
pub struct ScalarField {
    inner: ark_bls12_381::Fr,
}

/// An element of the first source group of the pairing, held opaquely.
#[verifier::external_body]
pub struct G {
    inner: ark_bls12_381::G1Projective,
}

/// An element of the second source group of the pairing, held opaquely.
#[verifier::external_body]
pub struct H {
    inner: ark_bls12_381::G2Projective,
}

/// An element of the target group of the pairing: the type of session keys.
#[verifier::external_body]
pub struct Gt {
    inner: ark_ec::pairing::PairingOutput<ark_bls12_381::Bls12_381>,
}

/// The scalar whose little-endian representative the text's bytes spell,
/// reduced modulo the field order: what `ScalarField::from_string_bytes`
/// returns. The empty text maps to the additive identity.
pub uninterp spec fn scalar_of(s: Seq<char>) -> ScalarField;

/// The field sum: what `ScalarField::add` returns.
pub uninterp spec fn fr_add(a: ScalarField, b: ScalarField) -> ScalarField;

/// The field difference: what `ScalarField::sub` returns.
pub uninterp spec fn fr_sub(a: ScalarField, b: ScalarField) -> ScalarField;

/// The field product: what `ScalarField::mul` returns.
pub uninterp spec fn fr_mul(a: ScalarField, b: ScalarField) -> ScalarField;

/// The additive inverse: what `ScalarField::neg` returns.
pub uninterp spec fn fr_neg(a: ScalarField) -> ScalarField;

/// The multiplicative inverse of `a - b`, where the two differ: what
/// `ScalarField::inv_diff` returns on success.
pub uninterp spec fn fr_inv_diff(a: ScalarField, b: ScalarField) -> ScalarField;

/// The group sum in the first source group: what `G::add` returns.
pub uninterp spec fn g_sum(a: G, b: G) -> G;

/// The group inverse in the first source group: what `G::neg` returns.
pub uninterp spec fn g_inv(a: G) -> G;

/// The scalar multiple in the first source group: what `G::mul` returns.
pub uninterp spec fn g_scale(p: G, s: ScalarField) -> G;

/// The fixed generator of the first source group raised to the scalar:
/// what `G::base` returns. The zero scalar yields the group identity.
pub uninterp spec fn g_of(s: ScalarField) -> G;

/// The group sum in the second source group: what `H::add` returns.
pub uninterp spec fn h_sum(a: H, b: H) -> H;

/// The group inverse in the second source group: what `H::neg` returns.
pub uninterp spec fn h_inv(a: H) -> H;

/// The scalar multiple in the second source group: what `H::mul` returns.
pub uninterp spec fn h_scale(p: H, s: ScalarField) -> H;

/// The fixed generator of the second source group raised to the scalar:
/// what `H::base` returns. The zero scalar yields the group identity.
pub uninterp spec fn h_of(s: ScalarField) -> H;

/// The target-group product: what `Gt::mul` returns.
pub uninterp spec fn gt_prod(a: Gt, b: Gt) -> Gt;

/// The target-group power: what `Gt::exp` returns.
pub uninterp spec fn gt_power(a: Gt, s: ScalarField) -> Gt;

/// The bilinear map: what `pairing` returns.
pub uninterp spec fn pairing_of(a: G, b: H) -> Gt;

/// The pairing of the first group's fixed generator with the argument:
/// what `pair_with_base` returns.
pub uninterp spec fn base_paired_with(b: H) -> Gt;

/// The pairing of the two fixed generators raised to the scalar — the
/// session key of an encryption that drew the scalar as its secret: what
/// `session_key` returns. The zero scalar yields the target-group
/// identity.
pub uninterp spec fn session_key_of(s: ScalarField) -> Gt;

/// The additive identity of the scalar field: what the empty text maps to.
pub open spec fn fr_zero_val() -> ScalarField {
    scalar_of(Seq::<char>::empty())
}

/// The identity of the first source group: the generator raised to zero.
pub open spec fn g_zero_val() -> G {
    g_of(fr_zero_val())
}

/// The identity of the second source group: the generator raised to zero.
pub open spec fn h_zero_val() -> H {
    h_of(fr_zero_val())
}

/// The identity of the target group, written multiplicatively the element
/// one: the session key of the zero secret.
pub open spec fn gt_one_val() -> Gt {
    session_key_of(fr_zero_val())
}

impl ScalarField {
    /// Relies on `ark_ff::UniformRand::rand`: a scalar drawn from the given
    /// randomness source. Nothing is promised of the value drawn.
    #[verifier::external_body]
    pub fn rand(rng: &mut rand::rngs::StdRng) -> ScalarField {
        ScalarField { inner: <ark_bls12_381::Fr as ark_ff::UniformRand>::rand(rng) }
    }

    /// Relies on `ark_ff::Zero::zero`: the additive identity of the field,
    /// the same value `from_le_bytes_mod_order` yields for an empty byte
    /// slice, so it is `scalar_of` of the empty text.
    #[verifier::external_body]
    pub fn zero() -> (r: ScalarField)
        ensures
            r == scalar_of(Seq::<char>::empty()),
    {
        ScalarField { inner: <ark_bls12_381::Fr as ark_ff::Zero>::zero() }
    }

    /// Relies on `ark_ff::PrimeField::from_le_bytes_mod_order`: the scalar
    /// whose representative is the little-endian integer the text's bytes
    /// spell, reduced modulo the field order. The result depends on the
    /// text alone.
    #[verifier::external_body]
    pub fn from_string_bytes(s: &String) -> (r: ScalarField)
        ensures
            r == scalar_of(s@),
    {
        ScalarField {
            inner: <ark_bls12_381::Fr as ark_ff::PrimeField>::from_le_bytes_mod_order(
                s.as_bytes(),
            ),
        }
    }

    /// Relies on `core::ops::Add` of `ark_ff::Fp`: field addition, a
    /// function of its two arguments.
    #[verifier::external_body]
    pub fn add(&self, other: &ScalarField) -> (r: ScalarField)
        ensures
            r == fr_add(*self, *other),
    {
        ScalarField { inner: self.inner + other.inner }
    }

    /// Relies on `core::ops::Sub` of `ark_ff::Fp`: field subtraction, a
    /// function of its two arguments.
    #[verifier::external_body]
    pub fn sub(&self, other: &ScalarField) -> (r: ScalarField)
        ensures
            r == fr_sub(*self, *other),
    {
        ScalarField { inner: self.inner - other.inner }
    }

    /// Relies on `core::ops::Mul` of `ark_ff::Fp`: field multiplication, a
    /// function of its two arguments.
    #[verifier::external_body]
    pub fn mul(&self, other: &ScalarField) -> (r: ScalarField)
        ensures
            r == fr_mul(*self, *other),
    {
        ScalarField { inner: self.inner * other.inner }
    }

    /// Relies on `core::ops::Neg` of `ark_ff::Fp`: the additive inverse, a
    /// function of its argument.
    #[verifier::external_body]
    pub fn neg(&self) -> (r: ScalarField)
        ensures
            r == fr_neg(*self),
    {
        ScalarField { inner: -self.inner }
    }

    /// Relies on `core::ops::Sub` and `ark_ff::Field::inverse` of `ark-ff`:
    /// the multiplicative inverse of `self - other`. The subtraction is zero
    /// exactly when the two scalars are equal, and `inverse` returns `None`
    /// exactly on zero, so the call succeeds if and only if they differ;
    /// it never panics, and on success the result is a function of the two
    /// arguments.
    #[verifier::external_body]
    pub fn inv_diff(&self, other: &ScalarField) -> (r: Option<ScalarField>)
        ensures
            r.is_some() <==> *self != *other,
            r.is_some() ==> r.unwrap() == fr_inv_diff(*self, *other),
    {
        match ark_ff::Field::inverse(&(self.inner - other.inner)) {
            Some(inv) => Some(ScalarField { inner: inv }),
            None => None,
        }
    }
}

impl G {
    /// Relies on `ark_ec::Group::generator` and `core::ops::Mul`: the fixed
    /// generator raised to the scalar, a function of the scalar alone.
    #[verifier::external_body]
    pub fn base(s: &ScalarField) -> (r: G)
        ensures
            r == g_of(*s),
    {
        G { inner: <ark_bls12_381::G1Projective as ark_ec::Group>::generator() * s.inner }
    }

    /// Relies on `ark_std::Zero::zero`: the identity element of the group,
    /// the same value the generator raised to the zero scalar yields.
    #[verifier::external_body]
    pub fn zero() -> (r: G)
        ensures
            r == g_of(scalar_of(Seq::<char>::empty())),
    {
        G { inner: <ark_bls12_381::G1Projective as ark_std::Zero>::zero() }
    }

    /// Relies on `core::ops::Add` of `ark_ec::short_weierstrass::Projective`:
    /// the group operation, a function of its two arguments.
    #[verifier::external_body]
    pub fn add(&self, other: &G) -> (r: G)
        ensures
            r == g_sum(*self, *other),
    {
        G { inner: self.inner + other.inner }
    }

    /// Relies on `core::ops::Neg` of `ark_ec::short_weierstrass::Projective`:
    /// the group inverse, a function of its argument.
    #[verifier::external_body]
    pub fn neg(&self) -> (r: G)
        ensures
            r == g_inv(*self),
    {
        G { inner: -self.inner }
    }

    /// Relies on `core::ops::Mul` of `ark_ec::short_weierstrass::Projective`
    /// by a scalar: the scalar multiple of the point, a function of its two
    /// arguments.
    #[verifier::external_body]
    pub fn mul(&self, s: &ScalarField) -> (r: G)
        ensures
            r == g_scale(*self, *s),
    {
        G { inner: self.inner * s.inner }
    }
}

impl H {
    /// Relies on `ark_ec::Group::generator` and `core::ops::Mul`: the fixed
    /// generator raised to the scalar, a function of the scalar alone.
    #[verifier::external_body]
    pub fn base(s: &ScalarField) -> (r: H)
        ensures
            r == h_of(*s),
    {
        H { inner: <ark_bls12_381::G2Projective as ark_ec::Group>::generator() * s.inner }
    }

    /// Relies on `ark_std::Zero::zero`: the identity element of the group,
    /// the same value the generator raised to the zero scalar yields.
    #[verifier::external_body]
    pub fn zero() -> (r: H)
        ensures
            r == h_of(scalar_of(Seq::<char>::empty())),
    {
        H { inner: <ark_bls12_381::G2Projective as ark_std::Zero>::zero() }
    }

    /// Relies on `core::ops::Add` of `ark_ec::short_weierstrass::Projective`:
    /// the group operation, a function of its two arguments.
    #[verifier::external_body]
    pub fn add(&self, other: &H) -> (r: H)
        ensures
            r == h_sum(*self, *other),
    {
        H { inner: self.inner + other.inner }
    }

    /// Relies on `core::ops::Neg` of `ark_ec::short_weierstrass::Projective`:
    /// the group inverse, a function of its argument.
    #[verifier::external_body]
    pub fn neg(&self) -> (r: H)
        ensures
            r == h_inv(*self),
    {
        H { inner: -self.inner }
    }

    /// Relies on `core::ops::Mul` of `ark_ec::short_weierstrass::Projective`
    /// by a scalar: the scalar multiple of the point, a function of its two
    /// arguments.
    #[verifier::external_body]
    pub fn mul(&self, s: &ScalarField) -> (r: H)
        ensures
            r == h_scale(*self, *s),
    {
        H { inner: self.inner * s.inner }
    }
}

impl Gt {
    /// Relies on `ark_std::Zero::zero` of `ark_ec::pairing::PairingOutput`:
    /// the identity of the target group, written multiplicatively the
    /// element one — the same value any pairing raised to the zero scalar
    /// yields.
    #[verifier::external_body]
    pub fn one() -> (r: Gt)
        ensures
            r == session_key_of(scalar_of(Seq::<char>::empty())),
    {
        Gt {
            inner: <ark_ec::pairing::PairingOutput<ark_bls12_381::Bls12_381> as ark_std::Zero>::zero(),
        }
    }

    /// Relies on `core::ops::Add` of `ark_ec::pairing::PairingOutput`: the
    /// target-group operation, written multiplicatively the product, a
    /// function of its two arguments.
    #[verifier::external_body]
    pub fn mul(&self, other: &Gt) -> (r: Gt)
        ensures
            r == gt_prod(*self, *other),
    {
        Gt { inner: self.inner + other.inner }
    }

    /// Relies on `core::ops::Mul` of `ark_ec::pairing::PairingOutput` by a
    /// scalar: written multiplicatively, `self` raised to the scalar, a
    /// function of its two arguments.
    #[verifier::external_body]
    pub fn exp(&self, s: &ScalarField) -> (r: Gt)
        ensures
            r == gt_power(*self, *s),
    {
        Gt { inner: self.inner * s.inner }
    }

    /// Relies on the derived `PartialEq` of `ark_ec::pairing::PairingOutput`:
    /// equality of target-group elements, used by callers to confirm that a
    /// recovered session key matches the one encryption produced.
    #[verifier::external_body]
    pub fn eq(&self, other: &Gt) -> (r: bool)
        ensures
            r == (*self == *other),
    {
        self.inner == other.inner
    }
}

/// Relies on `ark_ec::pairing::Pairing::pairing` of `ark-ec`: the bilinear
/// map from the two source groups into the target group, a function of its
/// two arguments.
#[verifier::external_body]
pub fn pairing(g: &G, h: &H) -> (r: Gt)
    ensures
        r == pairing_of(*g, *h),
{
    Gt {
        inner: <ark_bls12_381::Bls12_381 as ark_ec::pairing::Pairing>::pairing(g.inner, h.inner),
    }
}

/// Relies on `ark_ec::Group::generator` and
/// `ark_ec::pairing::Pairing::pairing`: the first group's fixed generator
/// paired with the argument, a function of the argument alone.
#[verifier::external_body]
pub fn pair_with_base(b: &H) -> (r: Gt)
    ensures
        r == base_paired_with(*b),
{
    Gt {
        inner: <ark_bls12_381::Bls12_381 as ark_ec::pairing::Pairing>::pairing(
            <ark_bls12_381::G1Projective as ark_ec::Group>::generator(),
            b.inner,
        ),
    }
}

/// Relies on `ark_ec::Group::generator`, `ark_ec::pairing::Pairing::pairing`
/// and `core::ops::Mul` of `ark_ec::pairing::PairingOutput`: the pairing of
/// the two fixed generators raised to the scalar, a function of the scalar
/// alone — the session key hidden by an encryption whose secret it is.
#[verifier::external_body]
pub fn session_key(s: &ScalarField) -> (r: Gt)
    ensures
        r == session_key_of(*s),
{
    Gt {
        inner: <ark_bls12_381::Bls12_381 as ark_ec::pairing::Pairing>::pairing(
            <ark_bls12_381::G1Projective as ark_ec::Group>::generator(),
            <ark_bls12_381::G2Projective as ark_ec::Group>::generator(),
        ) * s.inner,
    }
}

impl Clone for ScalarField {
    /// Relies on the `Copy` of `ark_ff::Fp`: the copy is the same scalar.
    #[verifier::external_body]
    fn clone(&self) -> (r: Self)
        ensures
            r == *self,
    {
        ScalarField { inner: self.inner }
    }
}

impl Clone for G {
    /// Relies on the `Copy` of `ark_ec::short_weierstrass::Projective`: the
    /// copy is the same point.
    #[verifier::external_body]
    fn clone(&self) -> (r: Self)
        ensures
            r == *self,
    {
        G { inner: self.inner }
    }
}

impl Clone for H {
    /// Relies on the `Copy` of `ark_ec::short_weierstrass::Projective`: the
    /// copy is the same point.
    #[verifier::external_body]
    fn clone(&self) -> (r: Self)
        ensures
            r == *self,
    {
        H { inner: self.inner }
    }
}

impl Clone for Gt {
    /// Relies on the `Copy` of `ark_ec::pairing::PairingOutput`: the copy is
    /// the same element.
    #[verifier::external_body]
    fn clone(&self) -> (r: Self)
        ensures
            r == *self,
    {
        Gt { inner: self.inner }
    }
}

} // verus!
