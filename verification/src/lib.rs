//! Exact arithmetic over finite algebraic structures: residues modulo a
//! fixed modulus, and sparse polynomials over any ring or field that meets
//! the `Ring` / `Field` capability contract.

use vstd::prelude::*;

pub mod modulo_ints;
pub mod polynomial;
pub mod tools;

verus! {

/// Type-level tag for polynomials in the variable T. A polynomial type
/// carries such a tag so that polynomials in different symbolic variables
/// are statically distinct and never combined; the tag has no runtime
/// arithmetic meaning.
pub struct T;

/// Type-level tag for polynomials in the variable X.
pub struct X;

/// Type-level tag for polynomials in the variable Y.
pub struct Y;

/// Type-level tag for polynomials in the variable Z.
pub struct Z;

/// Failure of a single arithmetic operation.
#[derive(Clone, Copy, PartialEq, Eq, Structural, Debug)]
pub enum AlgebraError {
    /// Division by a field element that has no multiplicative inverse.
    NonInvertibleElement,
    /// Division by the zero polynomial.
    DivisionByZeroPolynomial,
}

/// The capability contract every coefficient type must satisfy: a
/// commutative ring with distinguished zero and one, total addition,
/// multiplication and negation, and the ring axioms as proof obligations.
///
/// `ring_ok()` says the type's parameters admit a ring at all (for residues,
/// that the modulus is at least one); `wf` says a value is a normalized
/// inhabitant. The `sp_` functions are the mathematical model that every
/// executable operation is pinned to.
pub trait Ring: Sized {
    /// The type's parameters admit a ring.
    spec fn ring_ok() -> bool;

    /// The value is a normalized inhabitant of the ring.
    spec fn wf(&self) -> bool;

    /// The additive identity, as a mathematical value.
    spec fn sp_zero() -> Self;

    /// The multiplicative identity, as a mathematical value.
    spec fn sp_one() -> Self;

    /// Addition, as a mathematical function.
    spec fn sp_add(self, rhs: Self) -> Self;

    /// Multiplication, as a mathematical function.
    spec fn sp_mul(self, rhs: Self) -> Self;

    /// Additive inverse, as a mathematical function.
    spec fn sp_neg(self) -> Self;

    /// The identity elements are normalized.
    proof fn axiom_identities_wf()
        requires
            Self::ring_ok(),
        ensures
            Self::sp_zero().wf(),
            Self::sp_one().wf(),
    ;

    /// The operations stay inside the normalized inhabitants.
    proof fn axiom_closed(a: Self, b: Self)
        requires
            Self::ring_ok(),
            a.wf(),
            b.wf(),
        ensures
            a.sp_add(b).wf(),
            a.sp_mul(b).wf(),
            a.sp_neg().wf(),
    ;

    /// Addition is commutative.
    proof fn axiom_add_comm(a: Self, b: Self)
        requires
            Self::ring_ok(),
            a.wf(),
            b.wf(),
        ensures
            a.sp_add(b) == b.sp_add(a),
    ;

    /// Addition is associative.
    proof fn axiom_add_assoc(a: Self, b: Self, c: Self)
        requires
            Self::ring_ok(),
            a.wf(),
            b.wf(),
            c.wf(),
        ensures
            a.sp_add(b).sp_add(c) == a.sp_add(b.sp_add(c)),
    ;

    /// Zero is the additive identity.
    proof fn axiom_add_zero(a: Self)
        requires
            Self::ring_ok(),
            a.wf(),
        ensures
            a.sp_add(Self::sp_zero()) == a,
    ;

    /// Every element has an additive inverse.
    proof fn axiom_add_neg(a: Self)
        requires
            Self::ring_ok(),
            a.wf(),
        ensures
            a.sp_add(a.sp_neg()) == Self::sp_zero(),
    ;

    /// Multiplication is commutative.
    proof fn axiom_mul_comm(a: Self, b: Self)
        requires
            Self::ring_ok(),
            a.wf(),
            b.wf(),
        ensures
            a.sp_mul(b) == b.sp_mul(a),
    ;

    /// Multiplication is associative.
    proof fn axiom_mul_assoc(a: Self, b: Self, c: Self)
        requires
            Self::ring_ok(),
            a.wf(),
            b.wf(),
            c.wf(),
        ensures
            a.sp_mul(b).sp_mul(c) == a.sp_mul(b.sp_mul(c)),
    ;

    /// One is the multiplicative identity.
    proof fn axiom_mul_one(a: Self)
        requires
            Self::ring_ok(),
            a.wf(),
        ensures
            a.sp_mul(Self::sp_one()) == a,
    ;

    /// Multiplication distributes over addition.
    proof fn axiom_distribute(a: Self, b: Self, c: Self)
        requires
            Self::ring_ok(),
            a.wf(),
            b.wf(),
            c.wf(),
        ensures
            a.sp_add(b).sp_mul(c) == a.sp_mul(c).sp_add(b.sp_mul(c)),
    ;

    /// The additive identity, as a value.
    fn zero() -> (r: Self)
        requires
            Self::ring_ok(),
        ensures
            r.wf(),
            r == Self::sp_zero(),
    ;

    /// The multiplicative identity, as a value.
    fn one() -> (r: Self)
        requires
            Self::ring_ok(),
        ensures
            r.wf(),
            r == Self::sp_one(),
    ;

    /// Addition.
    fn add(&self, rhs: &Self) -> (r: Self)
        requires
            Self::ring_ok(),
            self.wf(),
            rhs.wf(),
        ensures
            r.wf(),
            r == self.sp_add(*rhs),
    ;

    /// Subtraction: addition of the additive inverse.
    fn sub(&self, rhs: &Self) -> (r: Self)
        requires
            Self::ring_ok(),
            self.wf(),
            rhs.wf(),
        ensures
            r.wf(),
            r == self.sp_add(rhs.sp_neg()),
    ;

    /// Multiplication.
    fn mul(&self, rhs: &Self) -> (r: Self)
        requires
            Self::ring_ok(),
            self.wf(),
            rhs.wf(),
        ensures
            r.wf(),
            r == self.sp_mul(*rhs),
    ;

    /// Additive inverse.
    fn neg(&self) -> (r: Self)
        requires
            Self::ring_ok(),
            self.wf(),
        ensures
            r.wf(),
            r == self.sp_neg(),
    ;

    /// An owned copy of the value.
    fn dup(&self) -> (r: Self)
        ensures
            r == *self,
    ;

    /// Decidable equality of values.
    fn eq_val(&self, rhs: &Self) -> (r: bool)
        ensures
            r == (*self == *rhs),
    ;
}

/// A ring whose nonzero elements may carry multiplicative inverses; when
/// `field_ok()` holds, every nonzero normalized element does, and the type
/// is a field.
pub trait Field: Ring {
    /// Every nonzero normalized element is invertible (for residues: the
    /// modulus is one or a prime).
    spec fn field_ok() -> bool;

    /// The element has a multiplicative inverse.
    spec fn sp_invertible(self) -> bool;

    /// The multiplicative inverse, as a mathematical value; meaningful only
    /// for invertible elements.
    spec fn sp_inv(self) -> Self;

    /// The inverse of an invertible element multiplies with it to one.
    proof fn axiom_inverse(a: Self)
        requires
            Self::ring_ok(),
            a.wf(),
            a.sp_invertible(),
        ensures
            a.sp_inv().wf(),
            a.sp_mul(a.sp_inv()) == Self::sp_one(),
    ;

    /// In a field, every nonzero normalized element is invertible.
    proof fn axiom_field(a: Self)
        requires
            Self::ring_ok(),
            Self::field_ok(),
            a.wf(),
            a != Self::sp_zero(),
        ensures
            a.sp_invertible(),
    ;

    /// The multiplicative inverse, if one exists.
    fn inverse(&self) -> (r: Option<Self>)
        requires
            Self::ring_ok(),
            self.wf(),
        ensures
            (r is Some) == self.sp_invertible(),
            r matches Some(i) ==> i.wf() && i == self.sp_inv(),
    ;
}

/// Multiplying by zero yields zero, in any ring.
pub proof fn lemma_mul_zero<R: Ring>(a: R)
    requires
        R::ring_ok(),
        a.wf(),
    ensures
        R::sp_zero().sp_mul(a) == R::sp_zero(),
{
    let z = R::sp_zero();
    R::axiom_identities_wf();
    R::axiom_closed(z, a);
    let za = z.sp_mul(a);
    R::axiom_add_zero(z);
    // (z + z) * a == z * a + z * a, while z + z == z
    R::axiom_distribute(z, z, a);
    assert(za == za.sp_add(za));
    R::axiom_closed(za, za);
    R::axiom_closed(za, a);
    R::axiom_add_neg(za);
    R::axiom_add_assoc(za, za, za.sp_neg());
    // za + (za + -za) == (za + za) + -za == za + -za
    R::axiom_add_zero(za);
    assert(za.sp_add(za.sp_neg()) == za.sp_add(za).sp_add(za.sp_neg()));
    assert(R::sp_zero() == za.sp_add(za.sp_neg()));
    assert(za.sp_add(za.sp_neg()) == za.sp_add(R::sp_zero()));
}

/// The additive inverse of zero is zero, in any ring.
pub proof fn lemma_neg_zero<R: Ring>()
    requires
        R::ring_ok(),
    ensures
        R::sp_zero().sp_neg() == R::sp_zero(),
{
    let z = R::sp_zero();
    R::axiom_identities_wf();
    R::axiom_closed(z, z);
    R::axiom_add_neg(z);
    R::axiom_add_zero(z.sp_neg());
    R::axiom_add_comm(z.sp_neg(), z);
    // -z == -z + z == z + -z == z
}

/// The additive inverse of a nonzero element is nonzero, in any ring.
pub proof fn lemma_neg_nonzero<R: Ring>(a: R)
    requires
        R::ring_ok(),
        a.wf(),
        a != R::sp_zero(),
    ensures
        a.sp_neg() != R::sp_zero(),
{
    if a.sp_neg() == R::sp_zero() {
        R::axiom_add_zero(a);
        R::axiom_add_neg(a);
        assert(a == a.sp_add(a.sp_neg()));
    }
}

/// Sums of sums can be paired either way:
/// `(a + b) + (c + d) == (a + c) + (b + d)`, in any ring.
pub proof fn lemma_add_exchange<R: Ring>(a: R, b: R, c: R, d: R)
    requires
        R::ring_ok(),
        a.wf(),
        b.wf(),
        c.wf(),
        d.wf(),
    ensures
        a.sp_add(b).sp_add(c.sp_add(d)) == a.sp_add(c).sp_add(b.sp_add(d)),
{
    R::axiom_closed(a, b);
    R::axiom_closed(c, d);
    R::axiom_closed(b, c);
    R::axiom_closed(b, d);
    // (a + b) + (c + d) == a + (b + (c + d)) == a + ((b + c) + d)
    R::axiom_add_assoc(a, b, c.sp_add(d));
    R::axiom_add_assoc(b, c, d);
    // == a + ((c + b) + d) == a + (c + (b + d)) == (a + c) + (b + d)
    R::axiom_add_comm(b, c);
    R::axiom_add_assoc(c, b, d);
    R::axiom_add_assoc(a, c, b.sp_add(d));
}

/// Moving a summand from one side of a sum to the other leaves the total
/// unchanged: `(x + z) + (y - z) == x + y`, in any ring.
pub proof fn lemma_add_sub_shuffle<R: Ring>(x: R, y: R, z: R)
    requires
        R::ring_ok(),
        x.wf(),
        y.wf(),
        z.wf(),
    ensures
        x.sp_add(z).sp_add(y.sp_add(z.sp_neg())) == x.sp_add(y),
{
    R::axiom_identities_wf();
    R::axiom_closed(x, x);
    R::axiom_closed(y, y);
    R::axiom_closed(z, z);
    let nz = z.sp_neg();
    R::axiom_closed(y, nz);
    // (x + z) + (y + -z) == x + (z + (y + -z))
    R::axiom_add_assoc(x, z, y.sp_add(nz));
    // z + (y + -z) == (z + y) + -z == (y + z) + -z == y + (z + -z) == y
    R::axiom_add_assoc(z, y, nz);
    R::axiom_add_comm(z, y);
    R::axiom_add_assoc(y, z, nz);
    R::axiom_add_neg(z);
    R::axiom_add_zero(y);
}

/// Law: for any field elements `a` and `b` with `b` invertible, dividing
/// `a` by `b` and multiplying the quotient back by `b` restores `a`.
pub proof fn lemma_div_mul_cancel<R: Field>(a: R, b: R)
    requires
        R::ring_ok(),
        a.wf(),
        b.wf(),
        b.sp_invertible(),
    ensures
        a.sp_mul(b.sp_inv()).sp_mul(b) == a,
{
    R::axiom_inverse(b);
    R::axiom_mul_assoc(a, b.sp_inv(), b);
    R::axiom_mul_comm(b.sp_inv(), b);
    R::axiom_mul_one(a);
}

/// A runtime description of a polynomial variable: its one-character name.
/// The compile-time counterparts are the tag types `T`, `X`, `Y` and `Z`
/// that parameterize `Polynomial`.
#[derive(Clone, Copy, PartialEq, Eq, Structural)]
pub struct Indeterminate {
    name: char,
}

impl Indeterminate {
    /// The character naming this variable.
    pub closed spec fn symbol(&self) -> char {
        self.name
    }

    /// Two variable descriptions are equal exactly when their names are.
    pub proof fn lemma_eq_symbol(a: Self, b: Self)
        ensures
            (a == b) == (a.symbol() == b.symbol()),
    {
    }

    pub fn new(name: char) -> (r: Self)
        ensures
            r.symbol() == name,
    {
        Indeterminate { name }
    }
}

} // verus!
