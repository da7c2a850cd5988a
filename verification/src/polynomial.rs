//! Sparse polynomials over any coefficient type satisfying the `Ring`
//! capability contract, with exact Euclidean division when the coefficients
//! form a field.
//!
//! A polynomial is a strictly sorted vector of `(exponent, coefficient)`
//! pairs holding no zero coefficient; its mathematical model is the total
//! coefficient function `pcoeff` from exponents to ring elements.

use vstd::prelude::*;

verus! {

use core::marker::PhantomData;
use crate::lemma_add_exchange;
use crate::lemma_add_sub_shuffle;
use crate::lemma_mul_zero;
use crate::lemma_neg_nonzero;
use crate::lemma_neg_zero;
use crate::AlgebraError;
use crate::Field;
use crate::Ring;

/// No two stored terms share an exponent.
pub open spec fn uniq_exps<R>(s: Seq<(usize, R)>) -> bool {
    forall|i: int, j: int|
        0 <= i < s.len() && 0 <= j < s.len() && i != j ==> (#[trigger] s[i]).0 != (#[trigger] s[j]).0
}

/// Exponents strictly increase along the stored terms.
pub open spec fn sorted_exps<R>(s: Seq<(usize, R)>) -> bool {
    forall|i: int, j: int| 0 <= i < j < s.len() ==> (#[trigger] s[i]).0 < (#[trigger] s[j]).0
}

/// Some stored term has exponent `k`.
pub open spec fn has_exp<R>(s: Seq<(usize, R)>, k: nat) -> bool {
    exists|i: int| 0 <= i < s.len() && (#[trigger] s[i]).0 as nat == k
}

/// The index of the stored term with exponent `k`.
pub open spec fn idx_of<R>(s: Seq<(usize, R)>, k: nat) -> int {
    choose|i: int| 0 <= i < s.len() && (#[trigger] s[i]).0 as nat == k
}

/// The coefficient of the exponent `k` in a term sequence: the stored
/// value, or zero when no term carries `k`.
pub open spec fn coeff_of<R: Ring>(s: Seq<(usize, R)>, k: nat) -> R {
    if has_exp(s, k) {
        s[idx_of(s, k)].1
    } else {
        R::sp_zero()
    }
}

/// A strictly sorted sequence has pairwise distinct exponents.
proof fn lemma_sorted_uniq<R>(s: Seq<(usize, R)>)
    requires
        sorted_exps(s),
    ensures
        uniq_exps(s),
{
}

/// With distinct exponents, the stored term at any index gives the
/// coefficient of its exponent.
proof fn lemma_coeff_at_index<R: Ring>(s: Seq<(usize, R)>, i: int)
    requires
        uniq_exps(s),
        0 <= i < s.len(),
    ensures
        coeff_of(s, s[i].0 as nat) == s[i].1,
{
    let k = s[i].0 as nat;
    assert(has_exp(s, k));
    let j = idx_of(s, k);
    assert(0 <= j < s.len() && s[j].0 as nat == k);
    assert(j == i);
}

/// Appending a term with a fresh exponent sets that exponent's coefficient
/// and leaves every other coefficient unchanged.
proof fn lemma_coeff_push<R: Ring>(s: Seq<(usize, R)>, e: usize, c: R, k: nat)
    requires
        uniq_exps(s),
        !has_exp(s, e as nat),
    ensures
        uniq_exps(s.push((e, c))),
        coeff_of(s.push((e, c)), k) == if k == e as nat {
            c
        } else {
            coeff_of(s, k)
        },
{
    let s2 = s.push((e, c));
    assert forall|i: int, j: int|
        0 <= i < s2.len() && 0 <= j < s2.len() && i != j implies (#[trigger] s2[i]).0 != (
    #[trigger] s2[j]).0 by {
        if i < s.len() && j < s.len() {
            assert(s2[i] == s[i] && s2[j] == s[j]);
        } else if i < s.len() {
            assert(s2[i] == s[i] && s2[j] == (e, c));
            assert(s[i].0 != e) by {
                if s[i].0 == e {
                    assert(s[i].0 as nat == e as nat);
                    assert(has_exp(s, e as nat));
                }
            }
        } else {
            assert(s2[j] == s[j] && s2[i] == (e, c));
            assert(s[j].0 != e) by {
                if s[j].0 == e {
                    assert(s[j].0 as nat == e as nat);
                    assert(has_exp(s, e as nat));
                }
            }
        }
    }
    if k == e as nat {
        assert(s2[s.len() as int].0 as nat == k);
        lemma_coeff_at_index(s2, s.len() as int);
    } else if has_exp(s, k) {
        let i = idx_of(s, k);
        assert(0 <= i < s.len() && s[i].0 as nat == k);
        lemma_coeff_at_index(s, i);
        assert(s2[i] == s[i]);
        lemma_coeff_at_index(s2, i);
    } else {
        if has_exp(s2, k) {
            let j = idx_of(s2, k);
            assert(0 <= j < s2.len() && s2[j].0 as nat == k);
            assert(j < s.len());
            assert(s2[j] == s[j]);
            assert(has_exp(s, k));
        }
    }
}

/// Inserting a term at its sorted position sets that exponent's coefficient
/// and leaves every other coefficient unchanged.
proof fn lemma_coeff_insert<R: Ring>(s: Seq<(usize, R)>, idx: int, e: usize, c: R, k: nat)
    requires
        sorted_exps(s),
        0 <= idx <= s.len(),
        forall|i: int| 0 <= i < idx ==> (#[trigger] s[i]).0 < e,
        forall|i: int| idx <= i < s.len() ==> (#[trigger] s[i]).0 > e,
    ensures
        sorted_exps(s.insert(idx, (e, c))),
        coeff_of(s.insert(idx, (e, c)), k) == if k == e as nat {
            c
        } else {
            coeff_of(s, k)
        },
{
    let s2 = s.insert(idx, (e, c));
    assert forall|i: int, j: int| 0 <= i < j < s2.len() implies (#[trigger] s2[i]).0 < (
    #[trigger] s2[j]).0 by {
        if i < idx {
            assert(s2[i] == s[i]);
        } else if i == idx {
            assert(s2[i] == (e, c));
        } else {
            assert(s2[i] == s[i - 1]);
        }
        if j < idx {
            assert(s2[j] == s[j]);
        } else if j == idx {
            assert(s2[j] == (e, c));
        } else {
            assert(s2[j] == s[j - 1]);
        }
    }
    lemma_sorted_uniq(s);
    lemma_sorted_uniq(s2);
    if k == e as nat {
        assert(s2[idx].0 as nat == k);
        lemma_coeff_at_index(s2, idx);
    } else if has_exp(s, k) {
        let i = idx_of(s, k);
        assert(0 <= i < s.len() && s[i].0 as nat == k);
        lemma_coeff_at_index(s, i);
        if i < idx {
            assert(s2[i] == s[i]);
            lemma_coeff_at_index(s2, i);
        } else {
            assert(s2[i + 1] == s[i]);
            lemma_coeff_at_index(s2, i + 1);
        }
    } else {
        if has_exp(s2, k) {
            let j = idx_of(s2, k);
            assert(0 <= j < s2.len() && s2[j].0 as nat == k);
            if j < idx {
                assert(s2[j] == s[j]);
                assert(has_exp(s, k));
            } else if j == idx {
                assert(s2[j] == (e, c));
            } else {
                assert(s2[j] == s[j - 1]);
                assert(has_exp(s, k));
            }
        }
    }
}

/// Removing the term at an index zeroes that exponent's coefficient and
/// leaves every other coefficient unchanged.
proof fn lemma_coeff_remove<R: Ring>(s: Seq<(usize, R)>, idx: int, k: nat)
    requires
        sorted_exps(s),
        0 <= idx < s.len(),
    ensures
        sorted_exps(s.remove(idx)),
        coeff_of(s.remove(idx), k) == if k == s[idx].0 as nat {
            R::sp_zero()
        } else {
            coeff_of(s, k)
        },
{
    let s2 = s.remove(idx);
    assert forall|i: int, j: int| 0 <= i < j < s2.len() implies (#[trigger] s2[i]).0 < (
    #[trigger] s2[j]).0 by {
        if i < idx {
            assert(s2[i] == s[i]);
        } else {
            assert(s2[i] == s[i + 1]);
        }
        if j < idx {
            assert(s2[j] == s[j]);
        } else {
            assert(s2[j] == s[j + 1]);
        }
    }
    lemma_sorted_uniq(s);
    lemma_sorted_uniq(s2);
    if k == s[idx].0 as nat {
        if has_exp(s2, k) {
            let j = idx_of(s2, k);
            assert(0 <= j < s2.len() && s2[j].0 as nat == k);
            if j < idx {
                assert(s2[j] == s[j]);
            } else {
                assert(s2[j] == s[j + 1]);
            }
        }
    } else if has_exp(s, k) {
        let i = idx_of(s, k);
        assert(0 <= i < s.len() && s[i].0 as nat == k);
        lemma_coeff_at_index(s, i);
        assert(i != idx);
        if i < idx {
            assert(s2[i] == s[i]);
            lemma_coeff_at_index(s2, i);
        } else {
            assert(s2[i - 1] == s[i]);
            lemma_coeff_at_index(s2, i - 1);
        }
    } else {
        if has_exp(s2, k) {
            let j = idx_of(s2, k);
            assert(0 <= j < s2.len() && s2[j].0 as nat == k);
            if j < idx {
                assert(s2[j] == s[j]);
                assert(has_exp(s, k));
            } else {
                assert(s2[j] == s[j + 1]);
                assert(has_exp(s, k));
            }
        }
    }
}

/// The tail of the convolution sum at exponent `k`, starting at index `i`:
/// the sum over `j` from `i` to `k` of `a(j) * b(k - j)`.
pub open spec fn conv_from<R: Ring>(
    a: spec_fn(nat) -> R,
    b: spec_fn(nat) -> R,
    k: nat,
    i: nat,
) -> R
    decreases k + 1 - i,
{
    if i > k {
        R::sp_zero()
    } else {
        a(i).sp_mul(b((k - i) as nat)).sp_add(conv_from(a, b, k, (i + 1) as nat))
    }
}

/// The coefficient of the exponent `k` in the product of two coefficient
/// functions: the full convolution sum.
pub open spec fn conv<R: Ring>(a: spec_fn(nat) -> R, b: spec_fn(nat) -> R, k: nat) -> R {
    conv_from(a, b, k, 0)
}

/// A coefficient function takes only normalized values.
pub open spec fn fn_wf<R: Ring>(a: spec_fn(nat) -> R) -> bool {
    forall|j: nat| (#[trigger] a(j)).wf()
}

/// Convolution sums of normalized coefficient functions are normalized.
proof fn lemma_conv_wf<R: Ring>(a: spec_fn(nat) -> R, b: spec_fn(nat) -> R, k: nat, i: nat)
    requires
        R::ring_ok(),
        fn_wf(a),
        fn_wf(b),
    ensures
        conv_from(a, b, k, i).wf(),
    decreases k + 1 - i,
{
    R::axiom_identities_wf();
    if i <= k {
        lemma_conv_wf(a, b, k, (i + 1) as nat);
        R::axiom_closed(a(i), b((k - i) as nat));
        R::axiom_closed(a(i).sp_mul(b((k - i) as nat)), conv_from(a, b, k, (i + 1) as nat));
    }
}

/// The convolution of the zero function with anything is zero.
proof fn lemma_conv_zero<R: Ring>(a: spec_fn(nat) -> R, b: spec_fn(nat) -> R, k: nat, i: nat)
    requires
        R::ring_ok(),
        fn_wf(b),
        forall|j: nat| #[trigger] a(j) == R::sp_zero(),
    ensures
        conv_from(a, b, k, i) == R::sp_zero(),
    decreases k + 1 - i,
{
    R::axiom_identities_wf();
    if i <= k {
        lemma_conv_zero(a, b, k, (i + 1) as nat);
        lemma_mul_zero::<R>(b((k - i) as nat));
        R::axiom_add_zero(R::sp_zero());
    }
}

/// Raising one coefficient of the left function from zero to `c` adds one
/// term to every convolution sum: `c` times the matching coefficient of the
/// right function.
proof fn lemma_conv_add_point<R: Ring>(
    f1: spec_fn(nat) -> R,
    f2: spec_fn(nat) -> R,
    b: spec_fn(nat) -> R,
    e: nat,
    c: R,
    k: nat,
    i: nat,
)
    requires
        R::ring_ok(),
        c.wf(),
        fn_wf(f1),
        fn_wf(f2),
        fn_wf(b),
        f1(e) == R::sp_zero(),
        f2(e) == c,
        forall|j: nat| j != e ==> #[trigger] f2(j) == f1(j),
    ensures
        conv_from(f2, b, k, i) == conv_from(f1, b, k, i).sp_add(
            if i <= e <= k {
                c.sp_mul(b((k - e) as nat))
            } else {
                R::sp_zero()
            },
        ),
    decreases k + 1 - i,
{
    R::axiom_identities_wf();
    lemma_conv_wf(f1, b, k, i);
    if i > k {
        R::axiom_add_zero(R::sp_zero());
    } else {
        lemma_conv_add_point(f1, f2, b, e, c, k, (i + 1) as nat);
        let t1 = conv_from(f1, b, k, (i + 1) as nat);
        let t2 = conv_from(f2, b, k, (i + 1) as nat);
        lemma_conv_wf(f1, b, k, (i + 1) as nat);
        lemma_conv_wf(f2, b, k, (i + 1) as nat);
        let h1 = f1(i).sp_mul(b((k - i) as nat));
        let h2 = f2(i).sp_mul(b((k - i) as nat));
        R::axiom_closed(f1(i), b((k - i) as nat));
        R::axiom_closed(f2(i), b((k - i) as nat));
        if i == e {
            // the head changes from zero to c * b(k - e); the tails agree
            R::axiom_add_zero(t1);
            assert(t2 == t1);
            lemma_mul_zero::<R>(b((k - i) as nat));
            assert(h1 == R::sp_zero());
            let ct = c.sp_mul(b((k - e) as nat));
            R::axiom_closed(c, b((k - e) as nat));
            // h2 + t = ct + t = (t + zero) + ct = (zero + t) + ct
            R::axiom_add_comm(h2, t2);
            R::axiom_add_zero(t1);
            R::axiom_add_comm(t1, R::sp_zero());
            R::axiom_add_comm(t1, ct);
            assert(conv_from(f2, b, k, i) == h2.sp_add(t2));
            assert(conv_from(f1, b, k, i) == R::sp_zero().sp_add(t1));
            assert(conv_from(f1, b, k, i) == t1);
            assert(conv_from(f2, b, k, i) == t1.sp_add(ct));
        } else {
            // the heads agree; the tails differ by the added term
            assert(h2 == h1);
            if i + 1 <= e <= k {
                let ct = c.sp_mul(b((k - e) as nat));
                R::axiom_closed(c, b((k - e) as nat));
                // h + (t1 + ct) == (h + t1) + ct
                R::axiom_add_assoc(h1, t1, ct);
                assert(t2 == t1.sp_add(ct));
                assert(conv_from(f2, b, k, i) == h1.sp_add(t1.sp_add(ct)));
            } else {
                // no term is added on this tail: e < i or e > k
                R::axiom_add_zero(t1);
                assert(t2 == t1);
                R::axiom_closed(h1, t1);
                R::axiom_add_zero(h1.sp_add(t1));
            }
        }
    }
}

/// Convolution is associative, by structural induction over the terms of
/// the left polynomial: each term contributes a scaled shift, which passes
/// through the right convolution.
proof fn lemma_conv_assoc_terms<R: Ring>(
    s: Seq<(usize, R)>,
    f: spec_fn(nat) -> R,
    ab: spec_fn(nat) -> R,
    b: spec_fn(nat) -> R,
    bc: spec_fn(nat) -> R,
    c: spec_fn(nat) -> R,
    k: nat,
)
    requires
        R::ring_ok(),
        sorted_exps(s),
        forall|i: int| 0 <= i < s.len() ==> (#[trigger] s[i]).1.wf(),
        fn_wf(b),
        fn_wf(c),
        forall|l: nat| #[trigger] f(l) == coeff_of(s, l),
        forall|j: nat| #[trigger] ab(j) == conv_from(f, b, j, 0),
        forall|j: nat| #[trigger] bc(j) == conv_from(b, c, j, 0),
    ensures
        conv_from(ab, c, k, 0) == conv_from(f, bc, k, 0),
    decreases s.len(),
{
    R::axiom_identities_wf();
    assert forall|l: nat| (#[trigger] f(l)).wf() by {
        if has_exp(s, l) {
            let m = idx_of(s, l);
            assert(0 <= m < s.len() && s[m].0 as nat == l);
            assert(f(l) == s[m].1);
        } else {
            assert(f(l) == R::sp_zero());
        }
    }
    assert forall|j: nat| (#[trigger] ab(j)).wf() by {
        lemma_conv_wf(f, b, j, 0);
        assert(ab(j) == conv_from(f, b, j, 0));
    }
    assert forall|j: nat| (#[trigger] bc(j)).wf() by {
        lemma_conv_wf(b, c, j, 0);
        assert(bc(j) == conv_from(b, c, j, 0));
    }
    if s.len() == 0 {
        assert forall|l: nat| #[trigger] f(l) == R::sp_zero() by {
            assert(f(l) == coeff_of(s, l));
        }
        assert forall|j: nat| #[trigger] ab(j) == R::sp_zero() by {
            lemma_conv_zero(f, b, j, 0);
            assert(ab(j) == conv_from(f, b, j, 0));
        }
        lemma_conv_zero(ab, c, k, 0);
        lemma_conv_zero(f, bc, k, 0);
    } else {
        let s0 = s.drop_last();
        let e = s.last().0;
        let v = s.last().1;
        let f0 = |l: nat| coeff_of(s0, l);
        lemma_sorted_uniq(s);
        lemma_coeff_at_index(s, s.len() - 1);
        assert(s0 =~= s.remove(s.len() - 1));
        assert forall|l: nat| true implies #[trigger] f0(l) == if l == e as nat {
            R::sp_zero()
        } else {
            f(l)
        } by {
            lemma_coeff_remove(s, s.len() - 1, l);
            assert(f0(l) == coeff_of(s0, l) && f(l) == coeff_of(s, l));
        }
        assert forall|i: int| 0 <= i < s0.len() implies (#[trigger] s0[i]).1.wf() by {
            assert(s0[i] == s[i]);
        }
        assert forall|l: nat| (#[trigger] f0(l)).wf() by {
            assert(f0(l) == if l == e as nat { R::sp_zero() } else { f(l) });
        }
        let ab0 = |j: nat| conv_from(f0, b, j, 0);
        assert forall|l: nat| true implies #[trigger] f0(l) == coeff_of(s0, l) by {}
        assert forall|j: nat| true implies #[trigger] ab0(j) == conv_from(f0, b, j, 0) by {}
        lemma_conv_assoc_terms(s0, f0, ab0, b, bc, c, k);
        assert forall|j: nat| (#[trigger] ab0(j)).wf() by {
            lemma_conv_wf(f0, b, j, 0);
            assert(ab0(j) == conv_from(f0, b, j, 0));
        }
        // the last term contributes a scaled shift of b to the product
        let sb = |j: nat| v.sp_mul(b(j));
        let ct = |j: nat|
            if j >= e as nat {
                sb((j - e) as nat)
            } else {
                R::sp_zero()
            };
        assert forall|j: nat| (#[trigger] sb(j)).wf() by {
            R::axiom_closed(v, b(j));
            assert(sb(j) == v.sp_mul(b(j)));
        }
        assert forall|j: nat| (#[trigger] ct(j)).wf() by {
            assert(ct(j) == if j >= e as nat { sb((j - e) as nat) } else { R::sp_zero() });
        }
        // pointwise, the product of s with b is the product of s0 with b
        // plus that contribution
        assert forall|j: nat| #[trigger] ab(j) == ab0(j).sp_add(ct(j)) by {
            lemma_conv_add_point(f0, f, b, e as nat, v, j, 0);
            assert(ab(j) == conv_from(f, b, j, 0) && ab0(j) == conv_from(f0, b, j, 0));
            assert(ct(j) == if j >= e as nat { v.sp_mul(b((j - e) as nat)) } else { R::sp_zero() });
        }
        lemma_conv_add_left(ab0, ct, ab, c, k, 0);
        // the contribution passes through the right convolution
        lemma_conv_shift_up(sb, ct, c, e as nat, k);
        if k >= e as nat {
            lemma_conv_scale(v, b, sb, c, (k - e) as nat, 0);
        }
        // and on the right-hand side the same contribution appears directly
        lemma_conv_add_point(f0, f, bc, e as nat, v, k, 0);
        assert(conv_from(f, bc, k, 0) == conv_from(f0, bc, k, 0).sp_add(
            if k >= e as nat {
                v.sp_mul(bc((k - e) as nat))
            } else {
                R::sp_zero()
            },
        ));
        assert(k >= e as nat ==> bc((k - e) as nat) == conv_from(b, c, (k - e) as nat, 0));
    }
}

/// The sparse representation is canonical: two strictly sorted, zero-free
/// term sequences with the same coefficient at every exponent are equal.
proof fn lemma_terms_ext<R: Ring>(s1: Seq<(usize, R)>, s2: Seq<(usize, R)>)
    requires
        sorted_exps(s1),
        sorted_exps(s2),
        forall|i: int| 0 <= i < s1.len() ==> (#[trigger] s1[i]).1 != R::sp_zero(),
        forall|i: int| 0 <= i < s2.len() ==> (#[trigger] s2[i]).1 != R::sp_zero(),
        forall|k: nat| coeff_of(s1, k) == coeff_of(s2, k),
    ensures
        s1 == s2,
    decreases s1.len(),
{
    lemma_sorted_uniq(s1);
    lemma_sorted_uniq(s2);
    if s1.len() == 0 && s2.len() == 0 {
        assert(s1 =~= s2);
    } else if s1.len() == 0 {
        lemma_coeff_at_index(s2, s2.len() - 1);
        let k = s2.last().0 as nat;
        assert(coeff_of(s1, k) == coeff_of(s2, k));
        assert(!has_exp(s1, k));
        assert(false);
    } else if s2.len() == 0 {
        lemma_coeff_at_index(s1, s1.len() - 1);
        let k = s1.last().0 as nat;
        assert(coeff_of(s1, k) == coeff_of(s2, k));
        assert(!has_exp(s2, k));
        assert(false);
    } else {
        let e1 = s1.last().0;
        let e2 = s2.last().0;
        lemma_coeff_at_index(s1, s1.len() - 1);
        lemma_coeff_at_index(s2, s2.len() - 1);
        // the top exponents agree: above either top the other is zero
        if e1 as nat > e2 as nat {
            assert(coeff_of(s1, e1 as nat) == coeff_of(s2, e1 as nat));
            assert(!has_exp(s2, e1 as nat)) by {
                if has_exp(s2, e1 as nat) {
                    let j = idx_of(s2, e1 as nat);
                    assert(0 <= j < s2.len() && s2[j].0 as nat == e1 as nat);
                    if j < s2.len() - 1 {
                        assert(s2[j].0 < s2[s2.len() - 1].0);
                    }
                }
            }
            assert(false);
        }
        if e2 as nat > e1 as nat {
            assert(coeff_of(s1, e2 as nat) == coeff_of(s2, e2 as nat));
            assert(!has_exp(s1, e2 as nat)) by {
                if has_exp(s1, e2 as nat) {
                    let j = idx_of(s1, e2 as nat);
                    assert(0 <= j < s1.len() && s1[j].0 as nat == e2 as nat);
                    if j < s1.len() - 1 {
                        assert(s1[j].0 < s1[s1.len() - 1].0);
                    }
                }
            }
            assert(false);
        }
        assert(e1 == e2);
        assert(s1.last().1 == s2.last().1);
        let t1 = s1.drop_last();
        let t2 = s2.drop_last();
        assert(t1 =~= s1.remove(s1.len() - 1));
        assert(t2 =~= s2.remove(s2.len() - 1));
        assert forall|k: nat| true implies coeff_of(t1, k) == coeff_of(t2, k) by {
            lemma_coeff_remove(s1, s1.len() - 1, k);
            lemma_coeff_remove(s2, s2.len() - 1, k);
        }
        lemma_coeff_remove(s1, s1.len() - 1, 0);
        lemma_coeff_remove(s2, s2.len() - 1, 0);
        assert forall|i: int| 0 <= i < t1.len() implies (#[trigger] t1[i]).1 != R::sp_zero() by {
            assert(t1[i] == s1[i]);
        }
        assert forall|i: int| 0 <= i < t2.len() implies (#[trigger] t2[i]).1 != R::sp_zero() by {
            assert(t2[i] == s2[i]);
        }
        lemma_terms_ext(t1, t2);
        assert(s1 =~= t1.push(s1.last()));
        assert(s2 =~= t2.push(s2.last()));
    }
}

/// Convolution distributes over a coefficient-wise sum on the right.
proof fn lemma_conv_add_right<R: Ring>(
    f: spec_fn(nat) -> R,
    b1: spec_fn(nat) -> R,
    b2: spec_fn(nat) -> R,
    bs: spec_fn(nat) -> R,
    k: nat,
    i: nat,
)
    requires
        R::ring_ok(),
        fn_wf(f),
        fn_wf(b1),
        fn_wf(b2),
        forall|j: nat| #[trigger] bs(j) == b1(j).sp_add(b2(j)),
    ensures
        conv_from(f, bs, k, i) == conv_from(f, b1, k, i).sp_add(conv_from(f, b2, k, i)),
    decreases k + 1 - i,
{
    R::axiom_identities_wf();
    if i > k {
        R::axiom_add_zero(R::sp_zero());
    } else {
        lemma_conv_add_right(f, b1, b2, bs, k, (i + 1) as nat);
        let v = f(i);
        let w1 = b1((k - i) as nat);
        let w2 = b2((k - i) as nat);
        R::axiom_closed(w1, w2);
        // the head splits by distributivity, through commutativity
        R::axiom_mul_comm(v, w1.sp_add(w2));
        R::axiom_distribute(w1, w2, v);
        R::axiom_mul_comm(w1, v);
        R::axiom_mul_comm(w2, v);
        assert(v.sp_mul(bs((k - i) as nat)) == v.sp_mul(w1).sp_add(v.sp_mul(w2)));
        // the tails split by induction; regroup the four summands
        R::axiom_closed(v, w1);
        R::axiom_closed(v, w2);
        lemma_conv_wf(f, b1, k, (i + 1) as nat);
        lemma_conv_wf(f, b2, k, (i + 1) as nat);
        lemma_add_exchange::<R>(
            v.sp_mul(w1),
            v.sp_mul(w2),
            conv_from(f, b1, k, (i + 1) as nat),
            conv_from(f, b2, k, (i + 1) as nat),
        );
    }
}

/// Shifting the left function down one exponent shifts the sum's window.
proof fn lemma_conv_shift<R: Ring>(
    f: spec_fn(nat) -> R,
    fs: spec_fn(nat) -> R,
    g: spec_fn(nat) -> R,
    k: nat,
    i: nat,
)
    requires
        k >= 1,
        i >= 1,
        forall|j: nat| #[trigger] fs(j) == f((j + 1) as nat),
    ensures
        conv_from(f, g, k, i) == conv_from(fs, g, (k - 1) as nat, (i - 1) as nat),
    decreases k + 1 - i,
{
    if i > k {
    } else {
        assert(fs((i - 1) as nat) == f(i));
        lemma_conv_shift(f, fs, g, k, (i + 1) as nat);
    }
}

/// Splitting off the last term of the convolution sum.
proof fn lemma_conv_peel_last<R: Ring>(
    f: spec_fn(nat) -> R,
    g: spec_fn(nat) -> R,
    gs: spec_fn(nat) -> R,
    k: nat,
    i: nat,
)
    requires
        R::ring_ok(),
        fn_wf(f),
        fn_wf(g),
        1 <= k,
        i <= k,
        forall|j: nat| #[trigger] gs(j) == g((j + 1) as nat),
    ensures
        conv_from(f, g, k, i) == conv_from(f, gs, (k - 1) as nat, i).sp_add(
            f(k).sp_mul(g(0)),
        ),
    decreases k - i,
{
    R::axiom_identities_wf();
    let last = f(k).sp_mul(g(0));
    R::axiom_closed(f(k), g(0));
    assert forall|j: nat| (#[trigger] gs(j)).wf() by {
        assert(gs(j) == g((j + 1) as nat));
    }
    if i == k {
        // one term on the left, an empty sum plus that term on the right
        assert(conv_from(f, g, k, (k + 1) as nat) == R::sp_zero());
        assert(conv_from(f, gs, (k - 1) as nat, i) == R::sp_zero());
        assert(conv_from(f, g, k, i) == last.sp_add(R::sp_zero()));
        R::axiom_add_zero(last);
        R::axiom_add_comm(last, R::sp_zero());
    } else {
        lemma_conv_peel_last(f, g, gs, k, (i + 1) as nat);
        let h = f(i).sp_mul(g((k - i) as nat));
        assert(gs((k - 1 - i) as nat) == g((k - i) as nat));
        let t = conv_from(f, gs, (k - 1) as nat, (i + 1) as nat);
        R::axiom_closed(f(i), g((k - i) as nat));
        lemma_conv_wf(f, gs, (k - 1) as nat, (i + 1) as nat);
        // h + (t + last) == (h + t) + last
        R::axiom_add_assoc(h, t, last);
    }
}

/// Convolution is commutative: the full sum does not depend on the order
/// of the two coefficient functions.
proof fn lemma_conv_comm<R: Ring>(f: spec_fn(nat) -> R, g: spec_fn(nat) -> R, k: nat)
    requires
        R::ring_ok(),
        fn_wf(f),
        fn_wf(g),
    ensures
        conv_from(f, g, k, 0) == conv_from(g, f, k, 0),
    decreases k,
{
    R::axiom_identities_wf();
    if k == 0 {
        assert(conv_from(f, g, 0, 1) == R::sp_zero());
        assert(conv_from(g, f, 0, 1) == R::sp_zero());
        R::axiom_mul_comm(f(0), g(0));
        assert(conv_from(f, g, k, 0) == f(0).sp_mul(g(0)).sp_add(R::sp_zero()));
        assert(conv_from(g, f, k, 0) == g(0).sp_mul(f(0)).sp_add(R::sp_zero()));
    } else {
        let fs = |j: nat| f((j + 1) as nat);
        assert forall|j: nat| (#[trigger] fs(j)).wf() by {
            assert(fs(j) == f((j + 1) as nat));
        }
        assert(forall|j: nat| #[trigger] fs(j) == f((j + 1) as nat));
        // the left sum with its head removed is a shifted full sum
        lemma_conv_shift(f, fs, g, k, 1);
        lemma_conv_comm(fs, g, (k - 1) as nat);
        // the right sum with its last term removed is the same shifted sum
        lemma_conv_peel_last(g, f, fs, k, 0);
        let h = f(0).sp_mul(g(k));
        let t = conv_from(f, g, k, 1);
        R::axiom_mul_comm(f(0), g(k));
        R::axiom_closed(f(0), g(k));
        lemma_conv_wf(f, g, k, 1);
        assert(conv_from(f, g, k, 0) == h.sp_add(t));
        assert(t == conv_from(fs, g, (k - 1) as nat, 0));
        assert(conv_from(g, f, k, 0) == conv_from(g, fs, (k - 1) as nat, 0).sp_add(
            g(k).sp_mul(f(0)),
        ));
        assert(conv_from(g, fs, (k - 1) as nat, 0) == t);
        R::axiom_add_comm(h, t);
        assert(conv_from(g, f, k, 0) == t.sp_add(h));
    }
}

/// Convolution distributes over a coefficient-wise sum on the left.
proof fn lemma_conv_add_left<R: Ring>(
    f1: spec_fn(nat) -> R,
    f2: spec_fn(nat) -> R,
    fs: spec_fn(nat) -> R,
    c: spec_fn(nat) -> R,
    k: nat,
    i: nat,
)
    requires
        R::ring_ok(),
        fn_wf(f1),
        fn_wf(f2),
        fn_wf(c),
        forall|j: nat| #[trigger] fs(j) == f1(j).sp_add(f2(j)),
    ensures
        conv_from(fs, c, k, i) == conv_from(f1, c, k, i).sp_add(conv_from(f2, c, k, i)),
    decreases k + 1 - i,
{
    R::axiom_identities_wf();
    if i > k {
        R::axiom_add_zero(R::sp_zero());
    } else {
        lemma_conv_add_left(f1, f2, fs, c, k, (i + 1) as nat);
        let w = c((k - i) as nat);
        R::axiom_closed(f1(i), f2(i));
        R::axiom_distribute(f1(i), f2(i), w);
        R::axiom_closed(f1(i), w);
        R::axiom_closed(f2(i), w);
        lemma_conv_wf(f1, c, k, (i + 1) as nat);
        lemma_conv_wf(f2, c, k, (i + 1) as nat);
        lemma_add_exchange::<R>(
            f1(i).sp_mul(w),
            f2(i).sp_mul(w),
            conv_from(f1, c, k, (i + 1) as nat),
            conv_from(f2, c, k, (i + 1) as nat),
        );
    }
}

/// A scalar factor on every left coefficient comes out of the sum.
proof fn lemma_conv_scale<R: Ring>(
    v: R,
    b: spec_fn(nat) -> R,
    bs: spec_fn(nat) -> R,
    c: spec_fn(nat) -> R,
    k: nat,
    i: nat,
)
    requires
        R::ring_ok(),
        v.wf(),
        fn_wf(b),
        fn_wf(c),
        forall|j: nat| #[trigger] bs(j) == v.sp_mul(b(j)),
    ensures
        conv_from(bs, c, k, i) == v.sp_mul(conv_from(b, c, k, i)),
    decreases k + 1 - i,
{
    R::axiom_identities_wf();
    if i > k {
        lemma_mul_zero::<R>(v);
        R::axiom_mul_comm(R::sp_zero(), v);
    } else {
        lemma_conv_scale(v, b, bs, c, k, (i + 1) as nat);
        let h = b(i).sp_mul(c((k - i) as nat));
        let t = conv_from(b, c, k, (i + 1) as nat);
        R::axiom_closed(b(i), c((k - i) as nat));
        lemma_conv_wf(b, c, k, (i + 1) as nat);
        // the head gathers the factor by associativity
        R::axiom_mul_assoc(v, b(i), c((k - i) as nat));
        // v*h + v*t == v*(h + t), by distributivity through commutativity
        R::axiom_closed(h, t);
        R::axiom_mul_comm(v, h.sp_add(t));
        R::axiom_distribute(h, t, v);
        R::axiom_mul_comm(h, v);
        R::axiom_mul_comm(t, v);
    }
}

/// Shifting every left coefficient up by one shifts the whole sum.
proof fn lemma_conv_shift_up_one<R: Ring>(
    f: spec_fn(nat) -> R,
    f1: spec_fn(nat) -> R,
    c: spec_fn(nat) -> R,
    k: nat,
)
    requires
        R::ring_ok(),
        fn_wf(f),
        fn_wf(c),
        f1(0) == R::sp_zero(),
        forall|j: nat| j >= 1 ==> #[trigger] f1(j) == f((j - 1) as nat),
    ensures
        conv_from(f1, c, k, 0) == if k >= 1 {
            conv_from(f, c, (k - 1) as nat, 0)
        } else {
            R::sp_zero()
        },
{
    R::axiom_identities_wf();
    lemma_mul_zero::<R>(c(k));
    assert(f1(0).sp_mul(c(k)) == R::sp_zero());
    if k == 0 {
        assert(conv_from(f1, c, 0, 1) == R::sp_zero());
        R::axiom_add_zero(R::sp_zero());
    } else {
        lemma_conv_shift(f1, f, c, k, 1);
        assert(conv_from(f1, c, k, 1) == conv_from(f, c, (k - 1) as nat, 0));
        let t = conv_from(f, c, (k - 1) as nat, 0);
        lemma_conv_wf(f, c, (k - 1) as nat, 0);
        R::axiom_add_comm(R::sp_zero(), t);
        R::axiom_add_zero(t);
    }
}

/// Shifting every left coefficient up by `e` shifts the whole sum by `e`.
proof fn lemma_conv_shift_up<R: Ring>(
    f: spec_fn(nat) -> R,
    fe: spec_fn(nat) -> R,
    c: spec_fn(nat) -> R,
    e: nat,
    k: nat,
)
    requires
        R::ring_ok(),
        fn_wf(f),
        fn_wf(c),
        forall|j: nat|
            #[trigger] fe(j) == if j >= e {
                f((j - e) as nat)
            } else {
                R::sp_zero()
            },
    ensures
        conv_from(fe, c, k, 0) == if k >= e {
            conv_from(f, c, (k - e) as nat, 0)
        } else {
            R::sp_zero()
        },
    decreases e,
{
    R::axiom_identities_wf();
    if e == 0 {
        assert forall|j: nat| #[trigger] fe(j) == f(j) by {}
        lemma_conv_congruence(fe, f, c, c, k, 0);
    } else {
        let fm = |j: nat|
            if j >= (e - 1) as nat {
                f((j - (e - 1)) as nat)
            } else {
                R::sp_zero()
            };
        assert forall|j: nat| (#[trigger] fm(j)).wf() by {
            if j >= (e - 1) as nat {
                assert(fm(j) == f((j - (e - 1)) as nat));
            } else {
                assert(fm(j) == R::sp_zero());
            }
        }
        assert(fe(0) == R::sp_zero());
        assert forall|j: nat| j >= 1 implies #[trigger] fe(j) == fm((j - 1) as nat) by {
            assert(fe(j) == if j >= e { f((j - e) as nat) } else { R::sp_zero() });
        }
        lemma_conv_shift_up_one(fm, fe, c, k);
        if k >= 1 {
            lemma_conv_shift_up(f, fm, c, (e - 1) as nat, (k - 1) as nat);
        }
    }
}

/// Convolution sums agree on pointwise equal coefficient functions.
proof fn lemma_conv_congruence<R: Ring>(
    f1: spec_fn(nat) -> R,
    f2: spec_fn(nat) -> R,
    b1: spec_fn(nat) -> R,
    b2: spec_fn(nat) -> R,
    k: nat,
    i: nat,
)
    requires
        forall|j: nat| #[trigger] f1(j) == f2(j),
        forall|j: nat| #[trigger] b1(j) == b2(j),
    ensures
        conv_from(f1, b1, k, i) == conv_from(f2, b2, k, i),
    decreases k + 1 - i,
{
    if i <= k {
        lemma_conv_congruence(f1, f2, b1, b2, k, (i + 1) as nat);
    }
}

/// A sparse polynomial over the ring `R`, in the variable tagged by `V`.
///
/// Polynomials form a commutative ring themselves: the laws are stated as
/// the public lemmas over the coefficient model (`lemma_poly_add_comm`,
/// `lemma_poly_add_assoc`, `lemma_poly_mul_comm`, `lemma_poly_mul_assoc`,
/// `lemma_poly_mul_distributes`), each proved for all normalized
/// polynomials. The type does not implement the `Ring` trait itself: that
/// trait's multiplication is total, while polynomial multiplication must
/// bound the sum of the operands' degrees by what a `usize` exponent can
/// hold.
pub struct Polynomial<R: Ring, V> {
    terms: Vec<(usize, R)>,
    var: PhantomData<V>,
}

impl<R: Ring, V> Polynomial<R, V> {
    /// The stored terms: exponent and coefficient pairs.
    pub closed spec fn terms_seq(self) -> Seq<(usize, R)> {
        self.terms@
    }

    /// The structural invariant: exponents strictly increase, and every
    /// stored coefficient is normalized and nonzero.
    pub open spec fn wf(self) -> bool {
        &&& sorted_exps(self.terms_seq())
        &&& forall|i: int|
            0 <= i < self.terms_seq().len() ==> (#[trigger] self.terms_seq()[i]).1.wf()
        &&& forall|i: int|
            0 <= i < self.terms_seq().len() ==> (#[trigger] self.terms_seq()[i]).1 != R::sp_zero()
    }

    /// The mathematical model: the coefficient of the exponent `k`.
    pub open spec fn pcoeff(self, k: nat) -> R {
        coeff_of(self.terms_seq(), k)
    }

    /// The polynomial is the additive identity: it stores no term.
    pub open spec fn is_zero_poly(self) -> bool {
        self.terms_seq().len() == 0
    }

    /// The degree: the largest stored exponent; meaningful only for a
    /// nonzero polynomial.
    pub open spec fn sp_deg(self) -> nat
        recommends
            !self.is_zero_poly(),
    {
        self.terms_seq().last().0 as nat
    }

    /// Every coefficient of a normalized polynomial is normalized.
    pub proof fn lemma_pcoeff_wf(self)
        requires
            R::ring_ok(),
            self.wf(),
        ensures
            forall|k: nat| (#[trigger] self.pcoeff(k)).wf(),
    {
        R::axiom_identities_wf();
        assert forall|k: nat| (#[trigger] self.pcoeff(k)).wf() by {
            let s = self.terms_seq();
            if has_exp(s, k) {
                let i = idx_of(s, k);
                assert(0 <= i < s.len() && s[i].0 as nat == k);
            }
        }
    }

    /// Above the degree every coefficient is zero.
    pub proof fn lemma_coeff_above_deg(self, k: nat)
        requires
            self.wf(),
            self.is_zero_poly() || k > self.sp_deg(),
        ensures
            self.pcoeff(k) == R::sp_zero(),
    {
        let s = self.terms_seq();
        if has_exp(s, k) {
            let i = idx_of(s, k);
            assert(0 <= i < s.len() && s[i].0 as nat == k);
            if i < s.len() - 1 {
                assert(s[i].0 < s[s.len() - 1].0);
            }
            assert(false);
        }
    }

    /// A nonzero polynomial whose coefficients vanish from `d` on has
    /// degree below `d`.
    pub proof fn lemma_deg_below(self, d: nat)
        requires
            self.wf(),
            !self.is_zero_poly(),
            forall|k: nat| k >= d ==> self.pcoeff(k) == R::sp_zero(),
        ensures
            self.sp_deg() < d,
    {
        let s = self.terms_seq();
        lemma_sorted_uniq(s);
        lemma_coeff_at_index(s, s.len() - 1);
        assert(self.pcoeff(self.sp_deg()) == s.last().1);
    }

    /// Law: the pruned sparse representation is canonical, so equality of
    /// polynomials is exactly equality of their coefficient functions: two
    /// normalized polynomials with the same coefficient at every exponent
    /// store the same terms.
    pub proof fn lemma_coeff_extensionality(a: Self, b: Self)
        requires
            R::ring_ok(),
            a.wf(),
            b.wf(),
            forall|k: nat| a.pcoeff(k) == b.pcoeff(k),
        ensures
            a.terms_seq() == b.terms_seq(),
    {
        assert forall|k: nat| true implies coeff_of(a.terms_seq(), k) == coeff_of(
            b.terms_seq(),
            k,
        ) by {
            assert(a.pcoeff(k) == b.pcoeff(k));
        }
        lemma_terms_ext(a.terms_seq(), b.terms_seq());
    }

    /// Law: polynomial addition is commutative: the sum's coefficients do
    /// not depend on the operands' order.
    pub proof fn lemma_poly_add_comm(a: Self, b: Self, k: nat)
        requires
            R::ring_ok(),
            a.wf(),
            b.wf(),
        ensures
            a.pcoeff(k).sp_add(b.pcoeff(k)) == b.pcoeff(k).sp_add(a.pcoeff(k)),
    {
        a.lemma_pcoeff_wf();
        b.lemma_pcoeff_wf();
        R::axiom_add_comm(a.pcoeff(k), b.pcoeff(k));
    }

    /// Law: polynomial addition is associative: summing coefficient-wise
    /// groups either way.
    pub proof fn lemma_poly_add_assoc(a: Self, b: Self, c: Self, k: nat)
        requires
            R::ring_ok(),
            a.wf(),
            b.wf(),
            c.wf(),
        ensures
            a.pcoeff(k).sp_add(b.pcoeff(k)).sp_add(c.pcoeff(k)) == a.pcoeff(k).sp_add(
                b.pcoeff(k).sp_add(c.pcoeff(k)),
            ),
    {
        a.lemma_pcoeff_wf();
        b.lemma_pcoeff_wf();
        c.lemma_pcoeff_wf();
        R::axiom_add_assoc(a.pcoeff(k), b.pcoeff(k), c.pcoeff(k));
    }

    /// Law: polynomial multiplication is commutative: the convolution of
    /// two coefficient functions does not depend on their order.
    pub proof fn lemma_poly_mul_comm(a: Self, b: Self, k: nat)
        requires
            R::ring_ok(),
            a.wf(),
            b.wf(),
        ensures
            conv(a.coeff_fn(), b.coeff_fn(), k) == conv(b.coeff_fn(), a.coeff_fn(), k),
    {
        a.lemma_coeff_fn_wf();
        b.lemma_coeff_fn_wf();
        lemma_conv_comm(a.coeff_fn(), b.coeff_fn(), k);
    }

    /// Law: polynomial multiplication distributes over addition: against
    /// any polynomial, the convolution of a coefficient-wise sum is the
    /// coefficient-wise sum of the convolutions. The polynomial `s` is the
    /// sum of `b` and `c`, as `add` produces it.
    pub proof fn lemma_poly_mul_distributes(a: Self, b: Self, c: Self, s: Self, k: nat)
        requires
            R::ring_ok(),
            a.wf(),
            b.wf(),
            c.wf(),
            forall|j: nat| #[trigger] s.pcoeff(j) == b.pcoeff(j).sp_add(c.pcoeff(j)),
        ensures
            conv(a.coeff_fn(), s.coeff_fn(), k) == conv(a.coeff_fn(), b.coeff_fn(), k).sp_add(
                conv(a.coeff_fn(), c.coeff_fn(), k),
            ),
    {
        a.lemma_coeff_fn_wf();
        b.lemma_coeff_fn_wf();
        c.lemma_coeff_fn_wf();
        assert forall|j: nat| #[trigger] s.coeff_fn()(j) == b.coeff_fn()(j).sp_add(
            c.coeff_fn()(j),
        ) by {
            assert(s.coeff_fn()(j) == s.pcoeff(j));
        }
        lemma_conv_add_right(a.coeff_fn(), b.coeff_fn(), c.coeff_fn(), s.coeff_fn(), k, 0);
    }

    /// Law: polynomial multiplication is associative: convolving with `b`
    /// and then `c` equals convolving with the product of `b` and `c`.
    pub proof fn lemma_poly_mul_assoc(a: Self, b: Self, c: Self, k: nat)
        requires
            R::ring_ok(),
            a.wf(),
            b.wf(),
            c.wf(),
        ensures
            conv(
                (|j: nat| conv(a.coeff_fn(), b.coeff_fn(), j)),
                c.coeff_fn(),
                k,
            ) == conv(
                a.coeff_fn(),
                (|j: nat| conv(b.coeff_fn(), c.coeff_fn(), j)),
                k,
            ),
    {
        a.lemma_coeff_fn_wf();
        b.lemma_coeff_fn_wf();
        c.lemma_coeff_fn_wf();
        let s = a.terms_seq();
        let fa = a.coeff_fn();
        let fb = b.coeff_fn();
        let fc = c.coeff_fn();
        let ab = |j: nat| conv_from(fa, fb, j, 0);
        let bc = |j: nat| conv_from(fb, fc, j, 0);
        assert forall|l: nat| true implies #[trigger] fa(l) == coeff_of(s, l) by {
            assert(fa(l) == a.pcoeff(l));
        }
        assert forall|j: nat| true implies #[trigger] ab(j) == conv_from(fa, fb, j, 0) by {}
        assert forall|j: nat| true implies #[trigger] bc(j) == conv_from(fb, fc, j, 0) by {}
        lemma_conv_assoc_terms(s, fa, ab, fb, bc, fc, k);
        let abl = |j: nat| conv(a.coeff_fn(), b.coeff_fn(), j);
        let bcl = |j: nat| conv(b.coeff_fn(), c.coeff_fn(), j);
        assert forall|j: nat| true implies #[trigger] abl(j) == ab(j) by {}
        assert forall|j: nat| true implies #[trigger] bcl(j) == bc(j) by {}
        lemma_conv_congruence(abl, ab, fc, fc, k, 0);
        lemma_conv_congruence(fa, fa, bcl, bc, k, 0);
    }

    /// The additive identity: the empty polynomial.
    pub fn zero() -> (r: Self)
        requires
            R::ring_ok(),
        ensures
            r.wf(),
            r.is_zero_poly(),
            forall|k: nat| r.pcoeff(k) == R::sp_zero(),
    {
        Polynomial { terms: Vec::new(), var: PhantomData }
    }

    /// The multiplicative identity: coefficient one at exponent zero.
    pub fn one() -> (r: Self)
        requires
            R::ring_ok(),
        ensures
            r.wf(),
            r.pcoeff(0) == R::sp_one(),
            forall|k: nat| k != 0 ==> r.pcoeff(k) == R::sp_zero(),
    {
        Self::indeterminant_power(0)
    }

    /// The monomial with coefficient one at the exponent `pow`.
    pub fn indeterminant_power(pow: usize) -> (r: Self)
        requires
            R::ring_ok(),
        ensures
            r.wf(),
            r.pcoeff(pow as nat) == R::sp_one(),
            forall|k: nat| k != pow as nat ==> r.pcoeff(k) == R::sp_zero(),
    {
        let o = R::one();
        let z = R::zero();
        if o.eq_val(&z) {
            // in the trivial ring one equals zero and the term prunes away
            Polynomial { terms: Vec::new(), var: PhantomData }
        } else {
            let mut v: Vec<(usize, R)> = Vec::new();
            v.push((pow, o));
            proof {
                assert forall|k: nat| true implies coeff_of(v@, k) == if k == pow as nat {
                    R::sp_one()
                } else {
                    R::sp_zero()
                } by {
                    lemma_coeff_push(Seq::<(usize, R)>::empty(), pow, o, k);
                }
            }
            Polynomial { terms: v, var: PhantomData }
        }
    }

    /// The degree, or nothing for the zero polynomial; every coefficient
    /// above it is zero and the one at it is not.
    pub fn deg(&self) -> (r: Option<usize>)
        requires
            R::ring_ok(),
            self.wf(),
        ensures
            (r is None) == self.is_zero_poly(),
            r matches Some(d) ==> d as nat == self.sp_deg() && self.pcoeff(d as nat) != R::sp_zero()
                && forall|k: nat| k > d as nat ==> self.pcoeff(k) == R::sp_zero(),
    {
        if self.terms.len() == 0 {
            None
        } else {
            let d = self.terms[self.terms.len() - 1].0;
            proof {
                lemma_sorted_uniq(self.terms_seq());
                lemma_coeff_at_index(self.terms_seq(), self.terms_seq().len() - 1);
                assert forall|k: nat| k > d as nat implies self.pcoeff(k) == R::sp_zero() by {
                    self.lemma_coeff_above_deg(k);
                }
            }
            Some(d)
        }
    }

    /// The coefficient at the degree, or nothing for the zero polynomial.
    pub fn leading(&self) -> (r: Option<&R>)
        requires
            R::ring_ok(),
            self.wf(),
        ensures
            (r is None) == self.is_zero_poly(),
            r matches Some(c) ==> *c == self.pcoeff(self.sp_deg()) && *c != R::sp_zero() && c.wf(),
    {
        if self.terms.len() == 0 {
            None
        } else {
            proof {
                lemma_sorted_uniq(self.terms_seq());
                lemma_coeff_at_index(self.terms_seq(), self.terms_seq().len() - 1);
            }
            Some(&self.terms[self.terms.len() - 1].1)
        }
    }

    /// An owned copy.
    fn dup_poly(&self) -> (r: Self)
        ensures
            r.terms_seq() == self.terms_seq(),
    {
        let mut v: Vec<(usize, R)> = Vec::new();
        let mut i: usize = 0;
        while i < self.terms.len()
            invariant
                i <= self.terms.len(),
                v@ == self.terms_seq().take(i as int),
            decreases self.terms.len() - i,
        {
            let e = self.terms[i].0;
            let c = self.terms[i].1.dup();
            v.push((e, c));
            proof {
                assert(v@ =~= self.terms_seq().take(i as int + 1));
            }
            i += 1;
        }
        proof {
            assert(self.terms_seq().take(self.terms_seq().len() as int) =~= self.terms_seq());
        }
        Polynomial { terms: v, var: PhantomData }
    }

    /// Add the coefficient `c` at the exponent `e`, pruning a zero sum.
    pub fn add_term(&mut self, e: usize, c: R)
        requires
            R::ring_ok(),
            old(self).wf(),
            c.wf(),
        ensures
            final(self).wf(),
            forall|k: nat|
                final(self).pcoeff(k) == if k == e as nat {
                    old(self).pcoeff(k).sp_add(c)
                } else {
                    old(self).pcoeff(k)
                },
    {
        proof {
            old(self).lemma_pcoeff_wf();
            R::axiom_identities_wf();
        }
        let ghost s0 = self.terms_seq();
        let z = R::zero();
        let mut idx: usize = 0;
        while idx < self.terms.len() && self.terms[idx].0 < e
            invariant
                idx <= self.terms.len(),
                forall|i: int| 0 <= i < idx ==> (#[trigger] self.terms_seq()[i]).0 < e,
            decreases self.terms.len() - idx,
        {
            idx += 1;
        }
        proof {
            // every term from idx on carries an exponent at least e
            assert forall|i: int| idx <= i < self.terms_seq().len() implies (
            #[trigger] self.terms_seq()[i]).0 >= e by {
                if i > idx {
                    assert(self.terms_seq()[idx as int].0 < self.terms_seq()[i].0);
                }
            }
        }
        if idx < self.terms.len() && self.terms[idx].0 == e {
            let old_term = self.terms.remove(idx);
            let sum = old_term.1.add(&c);
            proof {
                lemma_sorted_uniq(s0);
                lemma_coeff_at_index(s0, idx as int);
                assert forall|k: nat| true implies coeff_of(self.terms_seq(), k) == if k
                    == e as nat {
                    R::sp_zero()
                } else {
                    coeff_of(s0, k)
                } by {
                    lemma_coeff_remove(s0, idx as int, k);
                }
            }
            if sum.eq_val(&z) {
                proof {
                    R::axiom_closed(old_term.1, c);
                    assert forall|k: nat| true implies self.pcoeff(k) == if k == e as nat {
                        old(self).pcoeff(k).sp_add(c)
                    } else {
                        old(self).pcoeff(k)
                    } by {}
                }
            } else {
                let ghost s1 = self.terms_seq();
                self.terms.insert(idx, (e, sum));
                proof {
                    assert forall|i: int| idx <= i < s1.len() implies (#[trigger] s1[i]).0 > e by {
                        assert(s1[i] == s0[i + 1]);
                    }
                    assert forall|i: int| 0 <= i < idx implies (#[trigger] s1[i]).0 < e by {
                        assert(s1[i] == s0[i]);
                    }
                    assert forall|k: nat| true implies self.pcoeff(k) == if k == e as nat {
                        old(self).pcoeff(k).sp_add(c)
                    } else {
                        old(self).pcoeff(k)
                    } by {
                        lemma_coeff_insert(s1, idx as int, e, sum, k);
                    }
                }
            }
        } else {
            // no stored term carries e
            proof {
                assert forall|i: int| idx <= i < self.terms_seq().len() implies (
                #[trigger] self.terms_seq()[i]).0 > e by {}
                assert(!has_exp(self.terms_seq(), e as nat));
                assert(old(self).pcoeff(e as nat) == R::sp_zero());
            }
            if !c.eq_val(&z) {
                let ghost s1 = self.terms_seq();
                self.terms.insert(idx, (e, c));
                proof {
                    R::axiom_add_comm(R::sp_zero(), c);
                    R::axiom_add_zero(c);
                    assert forall|k: nat| true implies self.pcoeff(k) == if k == e as nat {
                        old(self).pcoeff(k).sp_add(c)
                    } else {
                        old(self).pcoeff(k)
                    } by {
                        lemma_coeff_insert(s1, idx as int, e, c, k);
                    }
                }
            } else {
                proof {
                    assert forall|k: nat| true implies self.pcoeff(k) == if k == e as nat {
                        old(self).pcoeff(k).sp_add(c)
                    } else {
                        old(self).pcoeff(k)
                    } by {
                        if k == e as nat {
                            R::axiom_add_zero(old(self).pcoeff(k));
                        }
                    }
                }
            }
        }
    }
    /// Construct a polynomial from exponent/coefficient pairs with pairwise
    /// distinct exponents, pruning every zero coefficient.
    pub fn new(vals: Vec<(usize, R)>) -> (r: Self)
        requires
            R::ring_ok(),
            uniq_exps(vals@),
            forall|i: int| 0 <= i < vals@.len() ==> (#[trigger] vals@[i]).1.wf(),
        ensures
            r.wf(),
            forall|k: nat| r.pcoeff(k) == coeff_of(vals@, k),
    {
        let ghost s = vals@;
        let mut p = Self::zero();
        let mut i: usize = 0;
        proof {
            R::axiom_identities_wf();
            assert forall|j: int, l: int|
                0 <= j < s.take(0).len() && 0 <= l < s.take(0).len() && j != l implies (
            #[trigger] s.take(0)[j]).0 != (#[trigger] s.take(0)[l]).0 by {}
        }
        while i < vals.len()
            invariant
                R::ring_ok(),
                i <= vals.len(),
                s == vals@,
                uniq_exps(s),
                forall|j: int| 0 <= j < s.len() ==> (#[trigger] s[j]).1.wf(),
                p.wf(),
                forall|k: nat| p.pcoeff(k) == coeff_of(s.take(i as int), k),
            decreases vals.len() - i,
        {
            let e = vals[i].0;
            let c = vals[i].1.dup();
            let ghost pre = s.take(i as int);
            proof {
                assert forall|j: int, l: int|
                    0 <= j < pre.len() && 0 <= l < pre.len() && j != l implies (
                #[trigger] pre[j]).0 != (#[trigger] pre[l]).0 by {
                    assert(pre[j] == s[j] && pre[l] == s[l]);
                }
                assert(!has_exp(pre, e as nat)) by {
                    if has_exp(pre, e as nat) {
                        let j = idx_of(pre, e as nat);
                        assert(0 <= j < pre.len() && pre[j].0 as nat == e as nat);
                        assert(s[j].0 == s[i as int].0);
                    }
                }
                assert(p.pcoeff(e as nat) == R::sp_zero());
            }
            p.add_term(e, c);
            proof {
                assert(s.take(i as int + 1) =~= pre.push(s[i as int]));
                R::axiom_identities_wf();
                R::axiom_add_comm(R::sp_zero(), c);
                R::axiom_add_zero(c);
                assert forall|k: nat| true implies p.pcoeff(k) == coeff_of(
                    s.take(i as int + 1),
                    k,
                ) by {
                    lemma_coeff_push(pre, e, c, k);
                }
            }
            i += 1;
        }
        proof {
            assert(s.take(s.len() as int) =~= s);
        }
        p
    }

    /// Addition: the coefficient-wise sum, pruned.
    pub fn add(&self, rhs: &Self) -> (r: Self)
        requires
            R::ring_ok(),
            self.wf(),
            rhs.wf(),
        ensures
            r.wf(),
            forall|k: nat| r.pcoeff(k) == self.pcoeff(k).sp_add(rhs.pcoeff(k)),
    {
        let ghost s = rhs.terms_seq();
        let mut out = self.dup_poly();
        let mut i: usize = 0;
        proof {
            self.lemma_pcoeff_wf();
            lemma_sorted_uniq(s);
            assert forall|k: nat| true implies out.pcoeff(k) == self.pcoeff(k).sp_add(
                coeff_of(s.take(0), k),
            ) by {
                R::axiom_add_zero(self.pcoeff(k));
            }
        }
        while i < rhs.terms.len()
            invariant
                R::ring_ok(),
                i <= rhs.terms.len(),
                s == rhs.terms_seq(),
                self.wf(),
                rhs.wf(),
                out.wf(),
                forall|k: nat|
                    out.pcoeff(k) == self.pcoeff(k).sp_add(coeff_of(s.take(i as int), k)),
            decreases rhs.terms.len() - i,
        {
            let e = rhs.terms[i].0;
            let c = rhs.terms[i].1.dup();
            let ghost pre = s.take(i as int);
            proof {
                self.lemma_pcoeff_wf();
                lemma_sorted_uniq(s);
                assert forall|j: int, l: int|
                    0 <= j < pre.len() && 0 <= l < pre.len() && j != l implies (
                #[trigger] pre[j]).0 != (#[trigger] pre[l]).0 by {
                    assert(pre[j] == s[j] && pre[l] == s[l]);
                }
                assert(!has_exp(pre, e as nat)) by {
                    if has_exp(pre, e as nat) {
                        let j = idx_of(pre, e as nat);
                        assert(0 <= j < pre.len() && pre[j].0 as nat == e as nat);
                        assert(s[j].0 == s[i as int].0);
                    }
                }
            }
            out.add_term(e, c);
            proof {
                assert(s.take(i as int + 1) =~= pre.push(s[i as int]));
                R::axiom_add_zero(self.pcoeff(e as nat));
                assert forall|k: nat| true implies out.pcoeff(k) == self.pcoeff(k).sp_add(
                    coeff_of(s.take(i as int + 1), k),
                ) by {
                    lemma_coeff_push(pre, e, c, k);
                }
            }
            i += 1;
        }
        proof {
            assert(s.take(s.len() as int) =~= s);
        }
        out
    }

    /// Negation: every coefficient replaced by its additive inverse.
    pub fn neg(&self) -> (r: Self)
        requires
            R::ring_ok(),
            self.wf(),
        ensures
            r.wf(),
            forall|k: nat| r.pcoeff(k) == self.pcoeff(k).sp_neg(),
    {
        let ghost s = self.terms_seq();
        let mut v: Vec<(usize, R)> = Vec::new();
        let mut i: usize = 0;
        while i < self.terms.len()
            invariant
                R::ring_ok(),
                i <= self.terms.len(),
                s == self.terms_seq(),
                self.wf(),
                v@.len() == i,
                forall|j: int|
                    0 <= j < i ==> (#[trigger] v@[j]).0 == s[j].0 && v@[j].1 == s[j].1.sp_neg(),
            decreases self.terms.len() - i,
        {
            let e = self.terms[i].0;
            let c = self.terms[i].1.neg();
            v.push((e, c));
            i += 1;
        }
        proof {
            lemma_sorted_uniq(s);
            assert forall|j: int, l: int| 0 <= j < l < v@.len() implies (#[trigger] v@[j]).0 < (
            #[trigger] v@[l]).0 by {
                assert(v@[j].0 == s[j].0 && v@[l].0 == s[l].0);
            }
            lemma_sorted_uniq(v@);
            assert forall|j: int| 0 <= j < v@.len() implies (#[trigger] v@[j]).1.wf() && v@[j].1
                != R::sp_zero() by {
                R::axiom_closed(s[j].1, s[j].1);
                lemma_neg_nonzero::<R>(s[j].1);
            }
            assert forall|k: nat| true implies coeff_of(v@, k) == coeff_of(s, k).sp_neg() by {
                if has_exp(s, k) {
                    let j = idx_of(s, k);
                    assert(0 <= j < s.len() && s[j].0 as nat == k);
                    lemma_coeff_at_index(s, j);
                    assert(v@[j].0 as nat == k);
                    lemma_coeff_at_index(v@, j);
                } else {
                    if has_exp(v@, k) {
                        let j = idx_of(v@, k);
                        assert(0 <= j < v@.len() && v@[j].0 as nat == k);
                        assert(s[j].0 as nat == k);
                    }
                    lemma_neg_zero::<R>();
                }
            }
        }
        Polynomial { terms: v, var: PhantomData }
    }

    /// Subtraction: addition of the negation.
    pub fn sub(&self, rhs: &Self) -> (r: Self)
        requires
            R::ring_ok(),
            self.wf(),
            rhs.wf(),
        ensures
            r.wf(),
            forall|k: nat| r.pcoeff(k) == self.pcoeff(k).sp_add(rhs.pcoeff(k).sp_neg()),
    {
        self.add(&rhs.neg())
    }

    /// Scalar multiplication: every coefficient multiplied by `c`, pruned.
    pub fn mul_scalar(&self, c: &R) -> (r: Self)
        requires
            R::ring_ok(),
            self.wf(),
            c.wf(),
        ensures
            r.wf(),
            forall|k: nat| r.pcoeff(k) == self.pcoeff(k).sp_mul(*c),
    {
        let ghost s = self.terms_seq();
        let z = R::zero();
        let mut v: Vec<(usize, R)> = Vec::new();
        let mut i: usize = 0;
        proof {
            lemma_sorted_uniq(s);
            R::axiom_identities_wf();
            lemma_mul_zero::<R>(*c);
            R::axiom_mul_comm(R::sp_zero(), *c);
        }
        while i < self.terms.len()
            invariant
                R::ring_ok(),
                i <= self.terms.len(),
                s == self.terms_seq(),
                self.wf(),
                c.wf(),
                z == R::sp_zero(),
                uniq_exps(v@),
                sorted_exps(v@),
                forall|j: int|
                    0 <= j < v@.len() ==> has_exp(s.take(i as int), (#[trigger] v@[j]).0 as nat),
                forall|j: int|
                    0 <= j < v@.len() ==> (#[trigger] v@[j]).1.wf() && v@[j].1 != R::sp_zero(),
                forall|k: nat|
                    coeff_of(v@, k) == #[trigger] coeff_of(s.take(i as int), k).sp_mul(*c),
            decreases self.terms.len() - i,
        {
            let e = self.terms[i].0;
            let p = self.terms[i].1.mul(c);
            let ghost pre = s.take(i as int);
            let ghost v0 = v@;
            proof {
                lemma_sorted_uniq(s);
                R::axiom_identities_wf();
                lemma_mul_zero::<R>(*c);
                // e is larger than every exponent already emitted
                assert forall|j: int| 0 <= j < v0.len() implies (#[trigger] v0[j]).0 < e by {
                    let m = idx_of(pre, v0[j].0 as nat);
                    assert(0 <= m < pre.len() && pre[m].0 as nat == v0[j].0 as nat);
                    assert(s[m] == pre[m]);
                    assert(s[m].0 < s[i as int].0);
                }
                assert(!has_exp(v0, e as nat)) by {
                    if has_exp(v0, e as nat) {
                        let j = idx_of(v0, e as nat);
                        assert(0 <= j < v0.len() && v0[j].0 as nat == e as nat);
                    }
                }
                lemma_coeff_at_index(s, i as int);
                assert(coeff_of(pre, e as nat) == R::sp_zero()) by {
                    if has_exp(pre, e as nat) {
                        let j = idx_of(pre, e as nat);
                        assert(0 <= j < pre.len() && pre[j].0 as nat == e as nat);
                        assert(s[j].0 == s[i as int].0);
                    }
                }
                assert(s.take(i as int + 1) =~= pre.push(s[i as int]));
            }
            if !p.eq_val(&z) {
                v.push((e, p));
                proof {
                    assert forall|k: nat| true implies coeff_of(v@, k) == coeff_of(
                        s.take(i as int + 1),
                        k,
                    ).sp_mul(*c) by {
                        lemma_coeff_push(v0, e, p, k);
                        lemma_coeff_push(pre, s[i as int].0, s[i as int].1, k);
                        lemma_mul_zero::<R>(*c);
                        assert(coeff_of(v0, k) == coeff_of(pre, k).sp_mul(*c));
                    }
                    assert forall|j: int| 0 <= j < v@.len() implies (#[trigger] v@[j]).1.wf()
                        && v@[j].1 != R::sp_zero() by {
                        if j < v0.len() {
                            assert(v@[j] == v0[j]);
                        } else {
                            assert(v@[j] == (e, p));
                        }
                    }
                    assert forall|j: int| 0 <= j < v@.len() implies has_exp(
                        s.take(i as int + 1),
                        (#[trigger] v@[j]).0 as nat,
                    ) by {
                        if j < v0.len() {
                            assert(v@[j] == v0[j]);
                            let m = idx_of(pre, v0[j].0 as nat);
                            assert(0 <= m < pre.len() && pre[m].0 as nat == v0[j].0 as nat);
                            assert(s.take(i as int + 1)[m] == pre[m]);
                        } else {
                            assert(v@[j] == (e, p));
                            assert(s.take(i as int + 1)[i as int].0 as nat == e as nat);
                        }
                    }
                }
            } else {
                proof {
                    assert forall|k: nat| true implies coeff_of(v@, k) == coeff_of(
                        s.take(i as int + 1),
                        k,
                    ).sp_mul(*c) by {
                        lemma_coeff_push(pre, s[i as int].0, s[i as int].1, k);
                        lemma_mul_zero::<R>(*c);
                        assert(coeff_of(v0, k) == coeff_of(pre, k).sp_mul(*c));
                    }
                    assert forall|j: int| 0 <= j < v@.len() implies has_exp(
                        s.take(i as int + 1),
                        (#[trigger] v@[j]).0 as nat,
                    ) by {
                        let m = idx_of(pre, v0[j].0 as nat);
                        assert(0 <= m < pre.len() && pre[m].0 as nat == v0[j].0 as nat);
                        assert(s.take(i as int + 1)[m] == pre[m]);
                    }
                }
            }
            i += 1;
        }
        proof {
            assert(s.take(s.len() as int) =~= s);
        }
        Polynomial { terms: v, var: PhantomData }
    }

    /// In-place addition.
    pub fn add_assign(&mut self, rhs: &Self)
        requires
            R::ring_ok(),
            old(self).wf(),
            rhs.wf(),
        ensures
            final(self).wf(),
            forall|k: nat| final(self).pcoeff(k) == old(self).pcoeff(k).sp_add(rhs.pcoeff(k)),
    {
        let t = self.add(rhs);
        *self = t;
    }

    /// The coefficient function: the polynomial's mathematical model.
    pub open spec fn coeff_fn(self) -> spec_fn(nat) -> R {
        |k: nat| self.pcoeff(k)
    }

    /// The coefficient function of a normalized polynomial is normalized.
    pub proof fn lemma_coeff_fn_wf(self)
        requires
            R::ring_ok(),
            self.wf(),
        ensures
            fn_wf(self.coeff_fn()),
    {
        self.lemma_pcoeff_wf();
        assert forall|j: nat| (#[trigger] self.coeff_fn()(j)).wf() by {
            assert(self.coeff_fn()(j) == self.pcoeff(j));
        }
    }

    /// Multiplication by the monomial `c` times the variable to the `e`:
    /// every term shifted up by `e` and scaled by `c`, pruned.
    pub fn mul_term(&self, e: usize, c: &R) -> (r: Self)
        requires
            R::ring_ok(),
            self.wf(),
            c.wf(),
            self.is_zero_poly() || self.sp_deg() + e <= usize::MAX,
        ensures
            r.wf(),
            forall|k: nat|
                r.pcoeff(k) == if k >= e as nat {
                    c.sp_mul(self.pcoeff((k - e) as nat))
                } else {
                    R::sp_zero()
                },
    {
        let ghost s = self.terms_seq();
        let z = R::zero();
        let mut v: Vec<(usize, R)> = Vec::new();
        let mut i: usize = 0;
        proof {
            R::axiom_identities_wf();
            assert forall|k: nat| true implies coeff_of(v@, k) == (if k >= e as nat {
                c.sp_mul(coeff_of(s.take(0), (k - e) as nat))
            } else {
                R::sp_zero()
            }) by {
                if k >= e as nat {
                    lemma_mul_zero::<R>(*c);
                    R::axiom_mul_comm(R::sp_zero(), *c);
                }
            }
        }
        while i < self.terms.len()
            invariant
                R::ring_ok(),
                i <= self.terms.len(),
                s == self.terms_seq(),
                self.wf(),
                c.wf(),
                z == R::sp_zero(),
                self.is_zero_poly() || self.sp_deg() + e <= usize::MAX,
                uniq_exps(v@),
                sorted_exps(v@),
                forall|j: int|
                    0 <= j < v@.len() ==> (#[trigger] v@[j]).0 >= e && has_exp(
                        s.take(i as int),
                        (v@[j].0 - e) as nat,
                    ),
                forall|j: int|
                    0 <= j < v@.len() ==> (#[trigger] v@[j]).1.wf() && v@[j].1 != R::sp_zero(),
                forall|k: nat|
                    coeff_of(v@, k) == if k >= e as nat {
                        c.sp_mul(#[trigger] coeff_of(s.take(i as int), (k - e) as nat))
                    } else {
                        R::sp_zero()
                    },
            decreases self.terms.len() - i,
        {
            let g = self.terms[i].0;
            proof {
                lemma_sorted_uniq(s);
                if i < self.terms.len() - 1 {
                    assert(s[i as int].0 < s[s.len() - 1].0);
                }
                assert(g + e <= usize::MAX);
            }
            let ge = g + e;
            let p = c.mul(&self.terms[i].1);
            let ghost pre = s.take(i as int);
            let ghost v0 = v@;
            proof {
                R::axiom_identities_wf();
                // the shifted exponent is fresh and largest so far
                assert forall|j: int| 0 <= j < v0.len() implies (#[trigger] v0[j]).0 < ge by {
                    let m = idx_of(pre, (v0[j].0 - e) as nat);
                    assert(0 <= m < pre.len() && pre[m].0 as nat == (v0[j].0 - e) as nat);
                    assert(s[m] == pre[m]);
                    assert(s[m].0 < s[i as int].0);
                }
                assert(!has_exp(v0, ge as nat)) by {
                    if has_exp(v0, ge as nat) {
                        let j = idx_of(v0, ge as nat);
                        assert(0 <= j < v0.len() && v0[j].0 as nat == ge as nat);
                    }
                }
                assert(coeff_of(pre, g as nat) == R::sp_zero()) by {
                    if has_exp(pre, g as nat) {
                        let j = idx_of(pre, g as nat);
                        assert(0 <= j < pre.len() && pre[j].0 as nat == g as nat);
                        assert(s[j].0 == s[i as int].0);
                    }
                }
                lemma_coeff_at_index(s, i as int);
                assert(s.take(i as int + 1) =~= pre.push(s[i as int]));
            }
            if !p.eq_val(&z) {
                v.push((ge, p));
                proof {
                    assert forall|k: nat| true implies coeff_of(v@, k) == (if k >= e as nat {
                        c.sp_mul(coeff_of(s.take(i as int + 1), (k - e) as nat))
                    } else {
                        R::sp_zero()
                    }) by {
                        lemma_coeff_push(v0, ge, p, k);
                        if k >= e as nat {
                            lemma_coeff_push(pre, s[i as int].0, s[i as int].1, (k - e) as nat);
                            assert(coeff_of(v0, k) == (if k >= e as nat {
                                c.sp_mul(coeff_of(pre, (k - e) as nat))
                            } else {
                                R::sp_zero()
                            }));
                        }
                    }
                    assert forall|j: int| 0 <= j < v@.len() implies (#[trigger] v@[j]).0 >= e
                        && has_exp(s.take(i as int + 1), (v@[j].0 - e) as nat) by {
                        if j < v0.len() {
                            assert(v@[j] == v0[j]);
                            let m = idx_of(pre, (v0[j].0 - e) as nat);
                            assert(0 <= m < pre.len() && pre[m].0 as nat == (v0[j].0 - e) as nat);
                            assert(s.take(i as int + 1)[m] == pre[m]);
                        } else {
                            assert(v@[j] == (ge, p));
                            assert(s.take(i as int + 1)[i as int].0 as nat == (ge - e) as nat);
                        }
                    }
                    assert forall|j: int| 0 <= j < v@.len() implies (#[trigger] v@[j]).1.wf()
                        && v@[j].1 != R::sp_zero() by {
                        if j < v0.len() {
                            assert(v@[j] == v0[j]);
                        } else {
                            assert(v@[j] == (ge, p));
                        }
                    }
                }
            } else {
                proof {
                    assert forall|k: nat| true implies coeff_of(v@, k) == (if k >= e as nat {
                        c.sp_mul(coeff_of(s.take(i as int + 1), (k - e) as nat))
                    } else {
                        R::sp_zero()
                    }) by {
                        if k >= e as nat {
                            lemma_coeff_push(pre, s[i as int].0, s[i as int].1, (k - e) as nat);
                            assert(coeff_of(v0, k) == (if k >= e as nat {
                                c.sp_mul(coeff_of(pre, (k - e) as nat))
                            } else {
                                R::sp_zero()
                            }));
                            if k == ge as nat {
                                assert(!has_exp(v0, k));
                            }
                        }
                    }
                    assert forall|j: int| 0 <= j < v@.len() implies (#[trigger] v@[j]).0 >= e
                        && has_exp(s.take(i as int + 1), (v@[j].0 - e) as nat) by {
                        let m = idx_of(pre, (v0[j].0 - e) as nat);
                        assert(0 <= m < pre.len() && pre[m].0 as nat == (v0[j].0 - e) as nat);
                        assert(s.take(i as int + 1)[m] == pre[m]);
                    }
                }
            }
            i += 1;
        }
        proof {
            assert(s.take(s.len() as int) =~= s);
        }
        Polynomial { terms: v, var: PhantomData }
    }

    /// Multiplication: the full convolution of the two coefficient
    /// functions, pruned.
    pub fn mul(&self, rhs: &Self) -> (r: Self)
        requires
            R::ring_ok(),
            self.wf(),
            rhs.wf(),
            self.is_zero_poly() || rhs.is_zero_poly() || self.sp_deg() + rhs.sp_deg()
                <= usize::MAX,
        ensures
            r.wf(),
            forall|k: nat| r.pcoeff(k) == conv(self.coeff_fn(), rhs.coeff_fn(), k),
    {
        let ghost s = self.terms_seq();
        let mut out = Self::zero();
        let mut i: usize = 0;
        proof {
            rhs.lemma_coeff_fn_wf();
            assert forall|k: nat| true implies out.pcoeff(k) == conv_from(
                |j: nat| coeff_of(s.take(0), j),
                rhs.coeff_fn(),
                k,
                0,
            ) by {
                lemma_conv_zero(|j: nat| coeff_of(s.take(0), j), rhs.coeff_fn(), k, 0);
            }
        }
        while i < self.terms.len()
            invariant
                R::ring_ok(),
                i <= self.terms.len(),
                s == self.terms_seq(),
                self.wf(),
                rhs.wf(),
                self.is_zero_poly() || rhs.is_zero_poly() || self.sp_deg() + rhs.sp_deg()
                    <= usize::MAX,
                out.wf(),
                forall|k: nat|
                    out.pcoeff(k) == conv_from(
                        |j: nat| coeff_of(s.take(i as int), j),
                        rhs.coeff_fn(),
                        k,
                        0,
                    ),
            decreases self.terms.len() - i,
        {
            let e = self.terms[i].0;
            let c = self.terms[i].1.dup();
            let ghost pre = s.take(i as int);
            proof {
                lemma_sorted_uniq(s);
                R::axiom_identities_wf();
                if rhs.terms_seq().len() > 0 {
                    if i < self.terms.len() - 1 {
                        assert(s[i as int].0 < s[s.len() - 1].0);
                    }
                    assert(rhs.sp_deg() + e <= usize::MAX);
                }
            }
            let piece = rhs.mul_term(e, &c);
            let out2 = out.add(&piece);
            proof {
                let f1 = |j: nat| coeff_of(pre, j);
                let f2 = |j: nat| coeff_of(s.take(i as int + 1), j);
                let b = rhs.coeff_fn();
                assert(s.take(i as int + 1) =~= pre.push(s[i as int]));
                assert(coeff_of(pre, e as nat) == R::sp_zero()) by {
                    if has_exp(pre, e as nat) {
                        let j = idx_of(pre, e as nat);
                        assert(0 <= j < pre.len() && pre[j].0 as nat == e as nat);
                        assert(s[j].0 == s[i as int].0);
                    }
                }
                assert forall|j: nat| (#[trigger] f1(j)).wf() by {
                    if has_exp(pre, j) {
                        let m = idx_of(pre, j);
                        assert(0 <= m < pre.len() && pre[m].0 as nat == j);
                        assert(pre[m] == s[m]);
                    }
                }
                assert forall|j: nat| (#[trigger] f2(j)).wf() by {
                    lemma_coeff_push(pre, s[i as int].0, s[i as int].1, j);
                    assert(f1(j).wf());
                }
                rhs.lemma_coeff_fn_wf();
                lemma_coeff_at_index(s, i as int);
                assert(f2(e as nat) == c) by {
                    lemma_coeff_push(pre, s[i as int].0, s[i as int].1, e as nat);
                }
                assert forall|j: nat| j != e as nat implies #[trigger] f2(j) == f1(j) by {
                    lemma_coeff_push(pre, s[i as int].0, s[i as int].1, j);
                }
                assert forall|k: nat| true implies out2.pcoeff(k) == conv_from(f2, b, k, 0) by {
                    lemma_conv_add_point(f1, f2, b, e as nat, c, k, 0);
                    assert(out.pcoeff(k) == conv_from(f1, b, k, 0));
                    if e as nat <= k {
                        assert(b((k - e) as nat) == rhs.pcoeff((k - e) as nat));
                        assert(piece.pcoeff(k) == c.sp_mul(rhs.pcoeff((k - e) as nat)));
                    } else {
                        assert(piece.pcoeff(k) == R::sp_zero());
                        R::axiom_add_zero(conv_from(f1, b, k, 0));
                        lemma_conv_wf(f1, b, k, 0);
                    }
                }
            }
            out = out2;
            i += 1;
        }
        proof {
            assert(s.take(s.len() as int) =~= s);
            assert forall|k: nat| true implies out.pcoeff(k) == conv(
                self.coeff_fn(),
                rhs.coeff_fn(),
                k,
            ) by {
                lemma_conv_congruence(
                    |j: nat| coeff_of(s.take(s.len() as int), j),
                    self.coeff_fn(),
                    rhs.coeff_fn(),
                    rhs.coeff_fn(),
                    k,
                    0,
                );
            }
        }
        out
    }

    /// In-place multiplication.
    pub fn mul_assign(&mut self, rhs: &Self)
        requires
            R::ring_ok(),
            old(self).wf(),
            rhs.wf(),
            old(self).is_zero_poly() || rhs.is_zero_poly() || old(self).sp_deg() + rhs.sp_deg()
                <= usize::MAX,
        ensures
            final(self).wf(),
            forall|k: nat|
                final(self).pcoeff(k) == conv(old(self).coeff_fn(), rhs.coeff_fn(), k),
    {
        let t = self.mul(rhs);
        *self = t;
    }

    /// In-place subtraction.
    pub fn sub_assign(&mut self, rhs: &Self)
        requires
            R::ring_ok(),
            old(self).wf(),
            rhs.wf(),
        ensures
            final(self).wf(),
            forall|k: nat|
                final(self).pcoeff(k) == old(self).pcoeff(k).sp_add(rhs.pcoeff(k).sp_neg()),
    {
        let t = self.sub(rhs);
        *self = t;
    }
}

impl<R: Field, V> Polynomial<R, V> {
    /// Scalar division: every coefficient multiplied by the inverse of `c`;
    /// fails with `NonInvertibleElement` exactly when `c` has none.
    pub fn div_scalar(&self, c: &R) -> (r: Result<Self, AlgebraError>)
        requires
            R::ring_ok(),
            self.wf(),
            c.wf(),
        ensures
            (r is Ok) == c.sp_invertible(),
            r matches Ok(p) ==> p.wf() && forall|k: nat|
                p.pcoeff(k) == self.pcoeff(k).sp_mul(c.sp_inv()),
            r matches Err(e) ==> e == AlgebraError::NonInvertibleElement,
    {
        match c.inverse() {
            Some(i) => {
                proof {
                    R::axiom_inverse(*c);
                }
                Ok(self.mul_scalar(&i))
            },
            None => Err(AlgebraError::NonInvertibleElement),
        }
    }

    /// Euclidean division: the quotient and remainder of dividing by `rhs`
    /// over a field. Fails with `DivisionByZeroPolynomial` exactly when
    /// `rhs` is the zero polynomial; otherwise the dividend equals the
    /// quotient times the divisor plus the remainder, and the remainder is
    /// zero or of degree strictly below the divisor's.
    pub fn div_rem(&self, rhs: &Self) -> (r: Result<(Self, Self), AlgebraError>)
        requires
            R::ring_ok(),
            R::field_ok(),
            self.wf(),
            rhs.wf(),
        ensures
            (r is Err) == rhs.is_zero_poly(),
            r matches Err(e) ==> e == AlgebraError::DivisionByZeroPolynomial,
            r matches Ok(qr) ==> qr.0.wf() && qr.1.wf() && (qr.1.is_zero_poly()
                || qr.1.sp_deg() < rhs.sp_deg()) && forall|k: nat|
                self.pcoeff(k) == conv(qr.0.coeff_fn(), rhs.coeff_fn(), k).sp_add(qr.1.pcoeff(k)),
    {
        if rhs.terms.len() == 0 {
            return Err(AlgebraError::DivisionByZeroPolynomial);
        }
        let ghost rs = rhs.terms_seq();
        proof {
            lemma_sorted_uniq(rs);
            lemma_coeff_at_index(rs, rs.len() - 1);
            R::axiom_field(rs.last().1);
        }
        let dr = rhs.terms[rhs.terms.len() - 1].0;
        let lead_inv = match rhs.terms[rhs.terms.len() - 1].1.inverse() {
            Some(iv) => iv,
            None => {
                proof {
                    assert(false);
                }
                return Err(AlgebraError::DivisionByZeroPolynomial);
            },
        };
        let mut quot = Self::zero();
        let mut curr = self.dup_poly();
        proof {
            self.lemma_pcoeff_wf();
            rhs.lemma_coeff_fn_wf();
            R::axiom_identities_wf();
            assert forall|k: nat| true implies self.pcoeff(k) == conv(
                quot.coeff_fn(),
                rhs.coeff_fn(),
                k,
            ).sp_add(curr.pcoeff(k)) by {
                lemma_conv_zero(quot.coeff_fn(), rhs.coeff_fn(), k, 0);
                R::axiom_add_comm(R::sp_zero(), self.pcoeff(k));
                R::axiom_add_zero(self.pcoeff(k));
            }
        }
        while curr.terms.len() > 0 && curr.terms[curr.terms.len() - 1].0 >= dr
            invariant
                R::ring_ok(),
                R::field_ok(),
                self.wf(),
                rhs.wf(),
                quot.wf(),
                curr.wf(),
                rs == rhs.terms_seq(),
                rs.len() > 0,
                dr as nat == rhs.sp_deg(),
                rhs.pcoeff(rhs.sp_deg()).sp_invertible(),
                lead_inv.wf(),
                lead_inv == rhs.pcoeff(rhs.sp_deg()).sp_inv(),
                forall|k: nat|
                    self.pcoeff(k) == conv(quot.coeff_fn(), rhs.coeff_fn(), k).sp_add(
                        curr.pcoeff(k),
                    ),
                forall|k: nat|
                    (!curr.is_zero_poly() && rhs.sp_deg() <= curr.sp_deg() && k + rhs.sp_deg()
                        <= curr.sp_deg()) ==> quot.pcoeff(k) == R::sp_zero(),
            decreases (if curr.terms_seq().len() == 0 {
                0int
            } else {
                curr.sp_deg() as int + 1
            }),
        {
            let ghost cs = curr.terms_seq();
            let dc = curr.terms[curr.terms.len() - 1].0;
            let lc = curr.terms[curr.terms.len() - 1].1.dup();
            let cf = lc.mul(&lead_inv);
            let ef = dc - dr;
            let ghost lr = rhs.pcoeff(rhs.sp_deg());
            proof {
                lemma_sorted_uniq(cs);
                lemma_coeff_at_index(cs, cs.len() - 1);
                lemma_sorted_uniq(rs);
                lemma_coeff_at_index(rs, rs.len() - 1);
                R::axiom_identities_wf();
                R::axiom_inverse(lr);
                // the factor coefficient cancels the leading coefficient
                R::axiom_mul_assoc(lc, lr.sp_inv(), lr);
                R::axiom_mul_comm(lr.sp_inv(), lr);
                R::axiom_mul_one(lc);
                assert(cf.sp_mul(lr) == lc);
                assert(cf != R::sp_zero()) by {
                    if cf == R::sp_zero() {
                        lemma_mul_zero::<R>(lr);
                    }
                }
            }
            let piece = rhs.mul_term(ef, &cf);
            let new_curr = curr.sub(&piece);
            let ghost quot0 = quot;
            proof {
                // the factor's exponent is not yet in the quotient
                assert(quot.pcoeff(ef as nat) == R::sp_zero());
            }
            quot.add_term(ef, cf);
            proof {
                let f1 = quot0.coeff_fn();
                let f2 = quot.coeff_fn();
                let b = rhs.coeff_fn();
                quot0.lemma_coeff_fn_wf();
                quot.lemma_coeff_fn_wf();
                rhs.lemma_coeff_fn_wf();
                curr.lemma_pcoeff_wf();
                piece.lemma_pcoeff_wf();
                R::axiom_add_comm(R::sp_zero(), cf);
                R::axiom_add_zero(cf);
                assert(f2(ef as nat) == cf);
                assert forall|j: nat| j != ef as nat implies #[trigger] f2(j) == f1(j) by {}
                // the division invariant carries to the next state
                assert forall|k: nat| true implies self.pcoeff(k) == conv(f2, b, k).sp_add(
                    new_curr.pcoeff(k),
                ) by {
                    lemma_conv_add_point(f1, f2, b, ef as nat, cf, k, 0);
                    lemma_conv_wf(f1, b, k, 0);
                    assert(self.pcoeff(k) == conv(f1, b, k).sp_add(curr.pcoeff(k)));
                    if ef as nat <= k {
                        assert(b((k - ef) as nat) == rhs.pcoeff((k - ef) as nat));
                        assert(piece.pcoeff(k) == cf.sp_mul(rhs.pcoeff((k - ef) as nat)));
                        lemma_add_sub_shuffle::<R>(conv(f1, b, k), curr.pcoeff(k), piece.pcoeff(k));
                    } else {
                        assert(piece.pcoeff(k) == R::sp_zero());
                        lemma_add_sub_shuffle::<R>(conv(f1, b, k), curr.pcoeff(k), piece.pcoeff(k));
                    }
                }
                // every coefficient of the new remainder from the old degree
                // up is zero: the leading terms cancel exactly
                assert forall|k: nat| k >= dc as nat implies new_curr.pcoeff(k) == R::sp_zero() by {
                    if k > dc as nat {
                        curr.lemma_coeff_above_deg(k);
                        rhs.lemma_coeff_above_deg((k - ef) as nat);
                        lemma_mul_zero::<R>(cf);
                        R::axiom_mul_comm(R::sp_zero(), cf);
                        lemma_neg_zero::<R>();
                        R::axiom_add_zero(R::sp_zero());
                        assert(piece.pcoeff(k) == cf.sp_mul(R::sp_zero()));
                    } else {
                        // k == dc: the cancellation point
                        assert(curr.pcoeff(k) == lc);
                        assert(piece.pcoeff(k) == cf.sp_mul(rhs.pcoeff(dr as nat)));
                        assert(piece.pcoeff(k) == lc);
                        R::axiom_add_neg(lc);
                    }
                }
                if new_curr.terms_seq().len() > 0 {
                    new_curr.lemma_deg_below(dc as nat);
                }
                // the quotient stays zero below the next factor exponent
                assert forall|k: nat|
                    (!new_curr.is_zero_poly() && rhs.sp_deg() <= new_curr.sp_deg() && k
                        + rhs.sp_deg() <= new_curr.sp_deg()) implies quot.pcoeff(k)
                    == R::sp_zero() by {
                    assert(k + rhs.sp_deg() < dc as nat);
                    assert(k != ef as nat);
                    assert(quot.pcoeff(k) == quot0.pcoeff(k));
                }
            }
            curr = new_curr;
        }
        proof {
            assert(curr.is_zero_poly() || curr.sp_deg() < rhs.sp_deg());
        }
        Ok((quot, curr))
    }

    /// The quotient of Euclidean division; fails with
    /// `DivisionByZeroPolynomial` exactly when `rhs` is the zero
    /// polynomial. From the divisor's degree up, the dividend's
    /// coefficients equal the product's: the remainder lives strictly
    /// below that degree.
    pub fn div(&self, rhs: &Self) -> (r: Result<Self, AlgebraError>)
        requires
            R::ring_ok(),
            R::field_ok(),
            self.wf(),
            rhs.wf(),
        ensures
            (r is Err) == rhs.is_zero_poly(),
            r matches Err(e) ==> e == AlgebraError::DivisionByZeroPolynomial,
            r matches Ok(q) ==> q.wf() && forall|k: nat|
                k >= rhs.sp_deg() ==> self.pcoeff(k) == conv(q.coeff_fn(), rhs.coeff_fn(), k),
    {
        match self.div_rem(rhs) {
            Ok((q, rem)) => {
                proof {
                    q.lemma_coeff_fn_wf();
                    rhs.lemma_coeff_fn_wf();
                    assert forall|k: nat| k >= rhs.sp_deg() implies self.pcoeff(k) == conv(
                        q.coeff_fn(),
                        rhs.coeff_fn(),
                        k,
                    ) by {
                        rem.lemma_coeff_above_deg(k);
                        lemma_conv_wf(q.coeff_fn(), rhs.coeff_fn(), k, 0);
                        R::axiom_add_zero(conv(q.coeff_fn(), rhs.coeff_fn(), k));
                    }
                }
                Ok(q)
            },
            Err(e) => Err(e),
        }
    }

    /// The remainder of Euclidean division; fails with
    /// `DivisionByZeroPolynomial` exactly when `rhs` is the zero
    /// polynomial. Some quotient completes it to the dividend, and it is
    /// zero or of degree strictly below the divisor's.
    pub fn rem(&self, rhs: &Self) -> (r: Result<Self, AlgebraError>)
        requires
            R::ring_ok(),
            R::field_ok(),
            self.wf(),
            rhs.wf(),
        ensures
            (r is Err) == rhs.is_zero_poly(),
            r matches Err(e) ==> e == AlgebraError::DivisionByZeroPolynomial,
            r matches Ok(rm) ==> rm.wf() && (rm.is_zero_poly() || rm.sp_deg() < rhs.sp_deg())
                && exists|q: Self|
                (#[trigger] q.wf()) && forall|k: nat|
                    self.pcoeff(k) == conv(q.coeff_fn(), rhs.coeff_fn(), k).sp_add(rm.pcoeff(k)),
    {
        match self.div_rem(rhs) {
            Ok((q, rm)) => {
                proof {
                    assert((#[trigger] q.wf()) && forall|k: nat|
                        self.pcoeff(k) == conv(q.coeff_fn(), rhs.coeff_fn(), k).sp_add(
                            rm.pcoeff(k),
                        ));
                }
                Ok(rm)
            },
            Err(e) => Err(e),
        }
    }
}

impl<R: Ring, V> PartialEq for Polynomial<R, V> {
    fn eq(&self, other: &Self) -> (r: bool) {
        if self.terms.len() != other.terms.len() {
            return false;
        }
        let mut i: usize = 0;
        while i < self.terms.len()
            invariant
                i <= self.terms.len(),
                self.terms_seq().len() == other.terms_seq().len(),
                forall|j: int| 0 <= j < i ==> self.terms_seq()[j] == other.terms_seq()[j],
            decreases self.terms.len() - i,
        {
            if self.terms[i].0 != other.terms[i].0 {
                return false;
            }
            if !self.terms[i].1.eq_val(&other.terms[i].1) {
                return false;
            }
            i += 1;
        }
        proof {
            assert(self.terms_seq() =~= other.terms_seq());
        }
        true
    }
}

impl<R: Ring, V> vstd::std_specs::cmp::PartialEqSpecImpl for Polynomial<R, V> {
    open spec fn obeys_eq_spec() -> bool {
        true
    }

    open spec fn eq_spec(&self, other: &Self) -> bool {
        self.terms_seq() == other.terms_seq()
    }
}

} // verus!
