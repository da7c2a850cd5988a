//! Residues modulo a fixed modulus `BASE`, a realization of the `Ring` and
//! `Field` capability contracts.

use vstd::prelude::*;

verus! {

use vstd::arithmetic::div_mod::lemma_add_mod_noop;
use vstd::arithmetic::div_mod::lemma_mod_add_multiples_vanish;
use vstd::arithmetic::div_mod::lemma_mod_bound;
use vstd::arithmetic::div_mod::lemma_mod_self_0;
use vstd::arithmetic::div_mod::lemma_mul_mod_noop_general;
use vstd::arithmetic::div_mod::lemma_mul_mod_noop_right;
use vstd::arithmetic::div_mod::lemma_small_mod;
use crate::tools::gcd_nat;
use crate::tools::lemma_bezout;
use crate::tools::lemma_mul_mod_one_unique;
use crate::tools::mod_inverse;
use crate::tools::mul_mod_one;
use crate::AlgebraError;
use crate::Field;
use crate::Ring;

/// An integer residue modulo `BASE`, always held reduced:
/// `0 <= val < BASE`.
#[derive(Clone, Copy, PartialEq, Eq, Debug)]
pub struct IMod<const BASE: u64> {
    val: u64,
}

impl<const BASE: u64> IMod<BASE> {
    /// The reduced representative of this residue.
    pub closed spec fn sp_val(&self) -> u64 {
        self.val
    }

    /// Construction at the specification level: the residue of `v`.
    pub closed spec fn sp_new(v: nat) -> Self {
        IMod { val: (v % (BASE as nat)) as u64 }
    }

    /// What `sp_new` holds: the representative is `v` reduced modulo
    /// `BASE`, hence normalized.
    pub proof fn lemma_sp_new(v: nat)
        requires
            BASE >= 1,
        ensures
            Self::sp_new(v).wf(),
            Self::sp_new(v).sp_val() == v % (BASE as nat),
    {
        lemma_mod_bound(v as int, BASE as int);
    }

    /// Two residues are equal exactly when their representatives are.
    pub proof fn lemma_eq_val(a: Self, b: Self)
        ensures
            (a == b) == (a.sp_val() == b.sp_val()),
    {
    }

    /// Law: construction is periodic in the modulus: `v` and `v + BASE`
    /// name the same residue.
    pub proof fn lemma_new_periodic(v: nat)
        requires
            BASE >= 1,
        ensures
            Self::sp_new(v) == Self::sp_new((v + BASE) as nat),
    {
        lemma_mod_add_multiples_vanish(v as int, BASE as int);
    }

    /// Construct the residue of `val`, reducing it modulo `BASE`.
    pub fn new(val: u128) -> (r: Self)
        requires
            BASE >= 1,
        ensures
            r == Self::sp_new(val as nat),
            r.wf(),
    {
        proof {
            Self::lemma_sp_new(val as nat);
            lemma_mod_bound(val as int, BASE as int);
        }
        IMod { val: (val % (BASE as u128)) as u64 }
    }

    /// The reduced representative, as an integer.
    pub fn val(&self) -> (r: u64)
        ensures
            r == self.sp_val(),
    {
        self.val
    }

    /// Division: multiplication by the divisor's inverse; fails with
    /// `NonInvertibleElement` exactly when the divisor has none.
    pub fn div(&self, rhs: &Self) -> (r: Result<Self, AlgebraError>)
        requires
            BASE >= 1,
            self.wf(),
            rhs.wf(),
        ensures
            (r is Ok) == rhs.sp_invertible(),
            r matches Ok(v) ==> v.wf() && v == self.sp_mul(rhs.sp_inv()),
            r matches Err(e) ==> e == AlgebraError::NonInvertibleElement,
    {
        match rhs.inverse() {
            Some(i) => Ok(self.mul(&i)),
            None => Err(AlgebraError::NonInvertibleElement),
        }
    }

    /// In-place addition.
    pub fn add_assign(&mut self, rhs: &Self)
        requires
            BASE >= 1,
            old(self).wf(),
            rhs.wf(),
        ensures
            final(self).wf(),
            *final(self) == old(self).sp_add(*rhs),
    {
        *self = self.add(rhs);
    }

    /// In-place subtraction.
    pub fn sub_assign(&mut self, rhs: &Self)
        requires
            BASE >= 1,
            old(self).wf(),
            rhs.wf(),
        ensures
            final(self).wf(),
            *final(self) == old(self).sp_add(rhs.sp_neg()),
    {
        *self = self.sub(rhs);
    }

    /// In-place multiplication.
    pub fn mul_assign(&mut self, rhs: &Self)
        requires
            BASE >= 1,
            old(self).wf(),
            rhs.wf(),
        ensures
            final(self).wf(),
            *final(self) == old(self).sp_mul(*rhs),
    {
        *self = self.mul(rhs);
    }

    /// In-place division; fails with `NonInvertibleElement` exactly when
    /// the divisor has no inverse, leaving the value unchanged.
    pub fn div_assign(&mut self, rhs: &Self) -> (r: Result<(), AlgebraError>)
        requires
            BASE >= 1,
            old(self).wf(),
            rhs.wf(),
        ensures
            final(self).wf(),
            (r is Ok) == rhs.sp_invertible(),
            r is Ok ==> *final(self) == old(self).sp_mul(rhs.sp_inv()),
            r is Err ==> *final(self) == *old(self),
            r matches Err(e) ==> e == AlgebraError::NonInvertibleElement,
    {
        match self.div(rhs) {
            Ok(v) => {
                *self = v;
                Ok(())
            },
            Err(e) => Err(e),
        }
    }
}

impl<const BASE: u64> Ring for IMod<BASE> {
    open spec fn ring_ok() -> bool {
        BASE >= 1
    }

    open spec fn wf(&self) -> bool {
        self.sp_val() < BASE
    }

    open spec fn sp_zero() -> Self {
        Self::sp_new(0)
    }

    open spec fn sp_one() -> Self {
        Self::sp_new(1)
    }

    open spec fn sp_add(self, rhs: Self) -> Self {
        Self::sp_new((self.sp_val() + rhs.sp_val()) as nat)
    }

    open spec fn sp_mul(self, rhs: Self) -> Self {
        Self::sp_new((self.sp_val() * rhs.sp_val()) as nat)
    }

    open spec fn sp_neg(self) -> Self {
        Self::sp_new((BASE - self.sp_val()) as nat)
    }

    proof fn axiom_identities_wf() {
        Self::lemma_sp_new(0);
        Self::lemma_sp_new(1);
    }

    proof fn axiom_closed(a: Self, b: Self) {
        Self::lemma_sp_new((a.sp_val() + b.sp_val()) as nat);
        Self::lemma_sp_new((a.sp_val() * b.sp_val()) as nat);
        Self::lemma_sp_new((BASE - a.sp_val()) as nat);
    }

    proof fn axiom_add_comm(a: Self, b: Self) {
    }

    proof fn axiom_add_assoc(a: Self, b: Self, c: Self) {
        let m = BASE as int;
        let x = a.sp_val() as int;
        let y = b.sp_val() as int;
        let z = c.sp_val() as int;
        lemma_small_mod(z as nat, BASE as nat);
        lemma_small_mod(x as nat, BASE as nat);
        // both associations reduce to (x + y + z) % m
        lemma_add_mod_noop(x + y, z, m);
        lemma_add_mod_noop(x, y + z, m);
        Self::lemma_sp_new((x + y) as nat);
        Self::lemma_sp_new((y + z) as nat);
        Self::lemma_sp_new((x + y + z) as nat);
    }

    proof fn axiom_add_zero(a: Self) {
        let m = BASE as nat;
        lemma_small_mod(0, m);
        lemma_small_mod(a.sp_val() as nat, m);
    }

    proof fn axiom_add_neg(a: Self) {
        let m = BASE as nat;
        let v = a.sp_val() as nat;
        lemma_small_mod(0, m);
        if v == 0 {
            lemma_mod_self_0(m as int);
        } else {
            lemma_small_mod((m - v) as nat, m);
            lemma_mod_self_0(m as int);
        }
    }

    proof fn axiom_mul_comm(a: Self, b: Self) {
    }

    proof fn axiom_mul_assoc(a: Self, b: Self, c: Self) {
        let m = BASE as int;
        let x = a.sp_val() as int;
        let y = b.sp_val() as int;
        let z = c.sp_val() as int;
        lemma_small_mod(x as nat, BASE as nat);
        lemma_small_mod(z as nat, BASE as nat);
        // both associations reduce to (x * y * z) % m
        lemma_mul_mod_noop_general(x * y, z, m);
        lemma_mul_mod_noop_general(x, y * z, m);
        assert((x * y) * z == x * (y * z)) by (nonlinear_arith);
        Self::lemma_sp_new((x * y) as nat);
        Self::lemma_sp_new((y * z) as nat);
        Self::lemma_sp_new((x * y * z) as nat);
    }

    proof fn axiom_mul_one(a: Self) {
        let m = BASE as nat;
        let v = a.sp_val() as nat;
        lemma_small_mod(v, m);
        if BASE == 1 {
            assert(v == 0);
            lemma_small_mod(0, m);
        } else {
            lemma_small_mod(1, m);
            assert(v * 1 == v);
        }
    }

    proof fn axiom_distribute(a: Self, b: Self, c: Self) {
        let m = BASE as int;
        let x = a.sp_val() as int;
        let y = b.sp_val() as int;
        let z = c.sp_val() as int;
        lemma_small_mod(z as nat, BASE as nat);
        // ((x + y) % m) * z reduces to (x * z + y * z) % m
        lemma_mul_mod_noop_general(x + y, z, m);
        assert((x + y) * z == x * z + y * z) by (nonlinear_arith);
        lemma_add_mod_noop(x * z, y * z, m);
        Self::lemma_sp_new((x + y) as nat);
        Self::lemma_sp_new((x * z) as nat);
        Self::lemma_sp_new((y * z) as nat);
        Self::lemma_sp_new((x * z + y * z) as nat);
    }

    fn zero() -> (r: Self) {
        Self::new(0)
    }

    fn one() -> (r: Self) {
        Self::new(1)
    }

    fn add(&self, rhs: &Self) -> (r: Self) {
        Self::new(self.val as u128 + rhs.val as u128)
    }

    fn sub(&self, rhs: &Self) -> (r: Self) {
        let d = if self.val >= rhs.val {
            self.val - rhs.val
        } else {
            // add one period to keep the difference non-negative
            (BASE - rhs.val) + self.val
        };
        proof {
            let m = BASE as int;
            let x = self.sp_val() as int;
            let y = rhs.sp_val() as int;
            Self::lemma_sp_new((BASE - y) as nat);
            // the residue of the difference equals x plus the negation of y
            if y == 0 {
                lemma_mod_self_0(m);
                lemma_small_mod(x as nat, BASE as nat);
            } else {
                lemma_small_mod((m - y) as nat, BASE as nat);
                if self.val >= rhs.val {
                    lemma_mod_add_multiples_vanish((x - y) as int, m);
                    lemma_small_mod((x - y) as nat, BASE as nat);
                } else {
                    lemma_small_mod((x + (m - y)) as nat, BASE as nat);
                }
            }
        }
        Self::new(d as u128)
    }

    fn mul(&self, rhs: &Self) -> (r: Self) {
        proof {
            assert(self.val as int * rhs.val as int <= u128::MAX) by (nonlinear_arith)
                requires
                    self.val <= u64::MAX,
                    rhs.val <= u64::MAX,
            ;
        }
        Self::new(self.val as u128 * rhs.val as u128)
    }

    fn neg(&self) -> (r: Self) {
        Self::new((BASE - self.val) as u128)
    }

    fn dup(&self) -> (r: Self) {
        IMod { val: self.val }
    }

    fn eq_val(&self, rhs: &Self) -> (r: bool) {
        self.val == rhs.val
    }
}

impl<const BASE: u64> Field for IMod<BASE> {
    open spec fn field_ok() -> bool {
        forall|v: nat| 1 <= v < BASE ==> #[trigger] gcd_nat(v, BASE as nat) == 1
    }

    open spec fn sp_invertible(self) -> bool {
        gcd_nat(self.sp_val() as nat, BASE as nat) == 1
    }

    open spec fn sp_inv(self) -> Self {
        Self::sp_new(choose|i: nat| #[trigger] mul_mod_one(self.sp_val() as nat, i, BASE as nat))
    }

    proof fn axiom_inverse(a: Self) {
        let m = BASE as nat;
        let v = a.sp_val() as nat;
        let (x, y) = lemma_bezout(v, m);
        lemma_mod_bound(x, m as int);
        let i = (x % (m as int)) as nat;
        lemma_mul_mod_noop_right(v as int, x, m as int);
        vstd::arithmetic::div_mod::lemma_mod_multiples_vanish(-y, 1, m as int);
        assert(v * x == m * (-y) + 1) by (nonlinear_arith)
            requires
                v * x + m * y == 1,
        ;
        assert((v * i) % m == 1nat % m) by {
            assert(v as int * (x % (m as int)) == (v * i) as int);
        }
        assert(mul_mod_one(v, i, m));
        let w = choose|j: nat| #[trigger] mul_mod_one(v, j, m);
        assert(mul_mod_one(v, w, m));
        Self::lemma_sp_new(w);
        lemma_small_mod(w, m);
        // the product of the residue and its inverse reduces to one
        Self::lemma_sp_new((v * w) as nat);
        Self::lemma_sp_new(1);
    }

    proof fn axiom_field(a: Self) {
        Self::lemma_sp_new(0);
        lemma_small_mod(0, BASE as nat);
        assert(a.sp_val() != 0);
    }

    fn inverse(&self) -> (r: Option<Self>) {
        match mod_inverse(self.val, BASE) {
            Some(i) => {
                proof {
                    let m = BASE as nat;
                    let v = self.sp_val() as nat;
                    let w = choose|j: nat| #[trigger] mul_mod_one(v, j, m);
                    assert(mul_mod_one(v, w, m));
                    lemma_mul_mod_one_unique(v, m, i as nat, w);
                    Self::lemma_sp_new(w);
                    lemma_small_mod(w, m);
                }
                Some(IMod { val: i })
            },
            None => None,
        }
    }
}

} // verus!
