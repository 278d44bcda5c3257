use vstd::prelude::*;

use crate::errors::SchubertError;
use crate::grassmannian::Grassmannian;
use crate::integer::{big_is_one, big_is_zero, big_mul, big_neg, Integer};
use crate::partition::{all_zero, rectangle_parts, valid_for, validation_error, zero_parts, Partition};
use crate::giambelli::{giambelli_fn, multiply_expr_by_class};
use crate::powers::{lemma_pow_repeated, repeated_power};
use crate::associativity::on_partitions;
use crate::pieri::{
    is_strip, lemma_strip_valid, lemma_strip_weighted_pieri, lemma_strip_weighted_support,
    multiply_partition_by_special, parts_of, pieri_fn, strip_weighted,
};
use crate::sums::{box_sum, in_box, lemma_box_sum_ext};
use crate::terms::{
    box_weighted, int_of_u16, lemma_box_sum_terms, lemma_u16_embeds, u16_of,
    add_term, canonical, clone_terms, find_coefficient, lc_coeff, lemma_lc_absent, lemma_lc_at,
    lemma_lc_single, terms_view,
};

verus! {

/// The error for two different Grassmannians, `left` first.
pub open spec fn incompatible(left: Grassmannian, right: Grassmannian) -> SchubertError {
    SchubertError::IncompatibleGrassmannian {
        left_k: left.k_spec() as usize,
        left_n: left.n_spec() as usize,
        right_k: right.k_spec() as usize,
        right_n: right.n_spec() as usize,
    }
}

/// The coefficient function of the zero expression.
pub open spec fn zero_fn() -> spec_fn(Seq<u16>) -> int {
    |key: Seq<u16>| 0int
}

/// The coefficient function of the single class `sigma_p`.
pub open spec fn class_fn(p: Seq<u16>) -> spec_fn(Seq<u16>) -> int {
    |key: Seq<u16>| if key == p { 1int } else { 0int }
}

/// The coefficient function of `s * f`.
pub open spec fn scaled_fn(f: spec_fn(Seq<u16>) -> int, s: int) -> spec_fn(Seq<u16>) -> int {
    |key: Seq<u16>| s * f(key)
}

/// `e` is the validation error of the first key of `ts` that is not valid for `g`.
pub open spec fn first_invalid_error(ts: Seq<(Seq<u16>, int)>, g: Grassmannian, e: SchubertError) -> bool {
    exists|i: int|
        0 <= i < ts.len() && !valid_for(#[trigger] ts[i].0, g) && (forall|j: int|
            0 <= j < i ==> valid_for(#[trigger] ts[j].0, g)) && validation_error(ts[i].0, g, e)
}

/// Every key of `ts` is valid for `g`.
pub open spec fn keys_valid(ts: Seq<(Seq<u16>, int)>, g: Grassmannian) -> bool {
    forall|i: int| 0 <= i < ts.len() ==> valid_for(#[trigger] ts[i].0, g)
}

/// Multiplication by the special class `sigma_r` on coefficient functions: the identity
/// for `r == 0`, zero for `r < 0` or `r > w` (the determinant convention), Pieri's rule otherwise.
pub open spec fn special_fn(f: spec_fn(Seq<u16>) -> int, k: nat, w: nat, r: int) -> spec_fn(Seq<u16>) -> int {
    if r == 0 {
        f
    } else if r < 0 || r > w {
        zero_fn()
    } else {
        pieri_fn(f, k, w, r)
    }
}

/// A canonical combination whose nonzero coefficients all sit on valid keys has valid keys.
pub proof fn lemma_keys_valid_from_support(ts: Seq<(Seq<u16>, int)>, g: Grassmannian)
    requires
        canonical(ts),
        forall|key: Seq<u16>| lc_coeff(ts, key) != 0 ==> valid_for(key, g),
    ensures
        keys_valid(ts, g),
{
    assert forall|i: int| 0 <= i < ts.len() implies valid_for(#[trigger] ts[i].0, g) by {
        lemma_lc_at(ts, i);
    }
}

/// Multiplying `ts` (on `g`) by `sigma_mu` fails: `mu` is not valid for `g`, or `ts` has a
/// key that is not valid for `g`.
pub open spec fn class_fails(ts: Seq<(Seq<u16>, int)>, g: Grassmannian, mu: Seq<u16>) -> bool {
    !valid_for(mu, g) || !keys_valid(ts, g)
}

/// `e` is the error of multiplying `ts` by `sigma_mu`: the validation error of `mu`, else
/// that of the first invalid key of `ts`.
pub open spec fn class_error(ts: Seq<(Seq<u16>, int)>, g: Grassmannian, mu: Seq<u16>, e: SchubertError) -> bool {
    if !valid_for(mu, g) {
        validation_error(mu, g, e)
    } else {
        first_invalid_error(ts, g, e)
    }
}

/// `e` is the error of multiplying `a` by the first term of `b` whose multiplication fails.
pub open spec fn product_error(
    a: Seq<(Seq<u16>, int)>,
    b: Seq<(Seq<u16>, int)>,
    g: Grassmannian,
    e: SchubertError,
) -> bool {
    exists|i: int|
        0 <= i < b.len() && class_fails(a, g, #[trigger] b[i].0) && (forall|j: int|
            0 <= j < i ==> !class_fails(a, g, #[trigger] b[j].0)) && class_error(a, g, b[i].0, e)
}

/// The lower corner `(0, ..., 0)` of the `k x w` rectangle.
pub open spec fn rect_lo(k: nat) -> Seq<int> {
    Seq::new(k, |i: int| 0int)
}

/// The upper corner `(w, ..., w)` of the `k x w` rectangle.
pub open spec fn rect_hi(k: nat, w: nat) -> Seq<int> {
    Seq::new(k, |i: int| w as int)
}

/// The Schubert product on coefficient functions: `f * h` is the sum over the partitions `mu`
/// of the `k x w` rectangle of `h(mu) * (f * sigma_mu)`, each factor by Giambelli's formula.
pub open spec fn product_fn(
    f: spec_fn(Seq<u16>) -> int,
    h: spec_fn(Seq<u16>) -> int,
    k: nat,
    w: nat,
) -> spec_fn(Seq<u16>) -> int {
    |nu: Seq<u16>| box_sum(rect_lo(k), rect_hi(k, w), u16_of(), |mu: Seq<u16>| h(mu) * giambelli_fn(f, k, w, mu)(nu))
}

/// Binary powering: `acc * base^e` computed by squaring `base` and multiplying `acc` by it
/// for each set bit of `e`, lowest bit first.
pub open spec fn binary_power(
    acc: spec_fn(Seq<u16>) -> int,
    base: spec_fn(Seq<u16>) -> int,
    e: nat,
    k: nat,
    w: nat,
) -> spec_fn(Seq<u16>) -> int
    decreases e,
{
    if e == 0 {
        acc
    } else {
        let acc2 = if e % 2 == 1 { product_fn(acc, base, k, w) } else { acc };
        if e / 2 > 0 {
            binary_power(acc2, product_fn(base, base, k, w), e / 2, k, w)
        } else {
            acc2
        }
    }
}

/// `f^e` by binary powering from the unit class.
pub open spec fn pow_fn(f: spec_fn(Seq<u16>) -> int, e: nat, k: nat, w: nat) -> spec_fn(Seq<u16>) -> int {
    binary_power(class_fn(zero_parts(k)), f, e, k, w)
}

/// Every key with a nonzero coefficient in a combination with valid keys is valid.
pub proof fn lemma_support_of_keys_valid(ts: Seq<(Seq<u16>, int)>, g: Grassmannian)
    requires
        keys_valid(ts, g),
    ensures
        forall|key: Seq<u16>| lc_coeff(ts, key) != 0 ==> valid_for(key, g),
{
    assert forall|key: Seq<u16>| lc_coeff(ts, key) != 0 implies valid_for(key, g) by {
        if !valid_for(key, g) {
            assert forall|j: int| 0 <= j < ts.len() implies #[trigger] ts[j].0 != key by {
                assert(valid_for(ts[j].0, g));
            }
            lemma_lc_absent(ts, key);
        }
    }
}

/// A sparse integral linear combination of Schubert classes on one Grassmannian.
///
/// Terms are kept in canonical form: partitions in increasing lexicographic order,
/// each with a nonzero coefficient.  The view is that list of terms, as pairs of part
/// sequences and integers.
#[derive(Debug, PartialEq, Eq)]
pub struct SchubertExpr {
    g: Grassmannian,
    terms: Vec<(Partition, Integer)>,
}

impl View for SchubertExpr {
    type V = Seq<(Seq<u16>, int)>;

    closed spec fn view(&self) -> Seq<(Seq<u16>, int)> {
        terms_view(self.terms@)
    }
}

impl SchubertExpr {
    #[verifier::type_invariant]
    closed spec fn inv(self) -> bool {
        canonical(terms_view(self.terms@))
    }

    /// The ambient Grassmannian.
    pub closed spec fn grass(self) -> Grassmannian {
        self.g
    }

    /// The coefficient of `sigma_key`.
    pub open spec fn coeff(self, key: Seq<u16>) -> int {
        lc_coeff(self@, key)
    }

    /// All coefficients, as a function of the part sequence.
    pub open spec fn coeff_fn(self) -> spec_fn(Seq<u16>) -> int {
        |key: Seq<u16>| lc_coeff(self@, key)
    }

    /// The zero expression in `CH^*(g)`.
    pub fn zero(g: &Grassmannian) -> (r: SchubertExpr)
        ensures
            r.grass() == *g,
            r@ == Seq::<(Seq<u16>, int)>::empty(),
            r.coeff_fn() == zero_fn(),
            canonical(r@),
    {
        let r = SchubertExpr { g: g.clone(), terms: Vec::new() };
        proof {
            assert(r@ =~= Seq::<(Seq<u16>, int)>::empty());
            assert(r.coeff_fn() =~= zero_fn());
        }
        r
    }

    /// The multiplicative unit `sigma_()` in `CH^*(g)`.
    pub fn one(g: &Grassmannian) -> (r: SchubertExpr)
        ensures
            r.grass() == *g,
            r@ == seq![(zero_parts(g.k_spec()), 1int)],
            r.coeff_fn() == class_fn(zero_parts(g.k_spec())),
            canonical(r@),
    {
        Self::from_class(g, Partition::zero(g))
    }

    /// The single Schubert basis class `sigma_partition` in `CH^*(g)`.
    ///
    /// The partition is revalidated against `g` when it appears in products,
    /// so prefer [`Grassmannian::class`] for user input.
    pub fn from_class(g: &Grassmannian, partition: Partition) -> (r: SchubertExpr)
        ensures
            r.grass() == *g,
            r@ == seq![(partition@, 1int)],
            r.coeff_fn() == class_fn(partition@),
            canonical(r@),
    {
        let ghost pv = partition@;
        let mut terms: Vec<(Partition, Integer)> = Vec::new();
        terms.push((partition, Integer::one()));
        let r = SchubertExpr { g: g.clone(), terms };
        proof {
            assert(r@ =~= seq![(pv, 1int)]);
            assert forall|key: Seq<u16>| #[trigger] r.coeff_fn()(key) == class_fn(pv)(key) by {
                lemma_lc_single((pv, 1int), key);
            }
            assert(r.coeff_fn() =~= class_fn(pv));
        }
        r
    }

    /// The ambient Grassmannian carried by this expression.
    pub fn grassmannian(&self) -> (r: &Grassmannian)
        ensures
            *r == self.grass(),
    {
        &self.g
    }

    /// Schubert-basis terms, ordered lexicographically by partition, all coefficients nonzero.
    pub fn terms(&self) -> (r: &Vec<(Partition, Integer)>)
        ensures
            terms_view(r@) == self@,
            canonical(self@),
    {
        proof {
            use_type_invariant(self);
        }
        &self.terms
    }

    /// Number of nonzero Schubert-basis terms.
    pub fn term_count(&self) -> (r: usize)
        ensures
            r == self@.len(),
    {
        self.terms.len()
    }

    /// Whether all Schubert-basis coefficients are zero.
    pub fn is_zero(&self) -> (r: bool)
        ensures
            r == (self@.len() == 0),
            r == (forall|key: Seq<u16>| self.coeff(key) == 0),
    {
        proof {
            use_type_invariant(self);
            if self@.len() > 0 {
                lemma_lc_at(self@, 0);
                assert(self.coeff(self@[0].0) != 0);
            } else {
                assert forall|key: Seq<u16>| self.coeff(key) == 0 by {
                    lemma_lc_absent(self@, key);
                }
            }
        }
        self.terms.len() == 0
    }

    /// Whether this expression is the multiplicative unit `sigma_()`.
    pub fn is_one(&self) -> (r: bool)
        ensures
            r == (self@.len() == 1 && all_zero(self@[0].0) && self@[0].1 == 1),
    {
        self.terms.len() == 1 && self.terms[0].0.is_empty() && big_is_one(&self.terms[0].1)
    }

    /// Coefficient of a Schubert basis class, or zero if it is absent.
    pub fn coefficient(&self, partition: &Partition) -> (r: Integer)
        ensures
            r@ == self.coeff(partition@),
    {
        proof {
            use_type_invariant(self);
        }
        find_coefficient(&self.terms, partition)
    }

    /// A copy of this expression.
    pub(crate) fn duplicate(&self) -> (r: SchubertExpr)
        ensures
            r.grass() == self.grass(),
            r@ == self@,
            r.coeff_fn() == self.coeff_fn(),
            canonical(r@),
    {
        proof {
            use_type_invariant(self);
        }
        SchubertExpr { g: self.g.clone(), terms: clone_terms(&self.terms) }
    }

    /// Add `c * sigma_partition` to this expression.
    pub(crate) fn add_term(&mut self, partition: Partition, c: Integer)
        ensures
            final(self).grass() == old(self).grass(),
            canonical(final(self)@),
            forall|key: Seq<u16>|
                #[trigger] final(self).coeff(key) == old(self).coeff(key) + if key == partition@ {
                    c@
                } else {
                    0
                },
    {
        proof {
            use_type_invariant(&*self);
        }
        let mut terms: Vec<(Partition, Integer)> = Vec::new();
        std::mem::swap(&mut terms, &mut self.terms);
        add_term(&mut terms, partition, c);
        self.terms = terms;
    }

    /// Check that every partition of this expression is valid for its Grassmannian: the error
    /// of the first one that is not.
    pub(crate) fn ensure_keys_valid(&self) -> (r: Result<(), SchubertError>)
        ensures
            r is Ok <==> keys_valid(self@, self.grass()),
            r matches Err(e) ==> first_invalid_error(self@, self.grass(), e),
    {
        let mut i: usize = 0;
        while i < self.terms.len()
            invariant
                i <= self.terms@.len(),
                self@ == terms_view(self.terms@),
                forall|j: int| 0 <= j < i ==> valid_for(#[trigger] self@[j].0, self.grass()),
            decreases self.terms.len() - i,
        {
            let ghost key = self.terms@[i as int].0@;
            proof {
                assert(self@[i as int].0 == key);
            }
            match self.terms[i].0.validate_for(&self.g) {
                Ok(()) => {},
                Err(e) => {
                    proof {
                        assert(!valid_for(self@[i as int].0, self.grass()));
                    }
                    return Err(e);
                },
            }
            i = i + 1;
        }
        Ok(())
    }

    /// Check that this expression lives on `g`.
    pub(crate) fn ensure_grassmannian(&self, g: &Grassmannian) -> (r: Result<(), SchubertError>)
        ensures
            r is Ok <==> self.grass() == *g,
            r matches Err(e) ==> e == incompatible(self.grass(), *g),
    {
        if self.g == *g {
            Ok(())
        } else {
            Err(
                SchubertError::IncompatibleGrassmannian {
                    left_k: self.g.k(),
                    left_n: self.g.n(),
                    right_k: g.k(),
                    right_n: g.n(),
                },
            )
        }
    }

    fn ensure_same_grassmannian(&self, rhs: &Self) -> (r: Result<(), SchubertError>)
        ensures
            r is Ok <==> self.grass() == rhs.grass(),
            r matches Err(e) ==> e == incompatible(self.grass(), rhs.grass()),
    {
        self.ensure_grassmannian(&rhs.g)
    }

    /// Checked addition of two expressions on the same Grassmannian.
    pub fn checked_add(&self, rhs: &Self) -> (r: Result<SchubertExpr, SchubertError>)
        ensures
            r is Ok <==> self.grass() == rhs.grass(),
            r matches Err(e) ==> e == incompatible(self.grass(), rhs.grass()),
            r matches Ok(out) ==> out.grass() == self.grass() && forall|key: Seq<u16>|
                #[trigger] out.coeff(key) == self.coeff(key) + rhs.coeff(key),
            r matches Ok(out) ==> (keys_valid(self@, self.grass()) && keys_valid(rhs@, self.grass())
                ==> keys_valid(out@, self.grass())),
            r matches Ok(out) ==> canonical(out@),
    {
        self.ensure_same_grassmannian(rhs)?;
        let mut out = self.duplicate();
        let mut i: usize = 0;
        proof {
            use_type_invariant(rhs);
        }
        while i < rhs.terms.len()
            invariant
                i <= rhs.terms@.len(),
                out.grass() == self.grass(),
                forall|key: Seq<u16>|
                    #[trigger] out.coeff(key) == self.coeff(key) + lc_coeff(rhs@.subrange(0, i as int), key),
            decreases rhs.terms.len() - i,
        {
            let p = rhs.terms[i].0.clone();
            let c = rhs.terms[i].1.clone();
            let ghost before = out;
            out.add_term(p, c);
            proof {
                assert(rhs@.subrange(0, i + 1).drop_last() =~= rhs@.subrange(0, i as int));
                assert(rhs@.subrange(0, i + 1).last() == rhs@[i as int]);
                assert forall|key: Seq<u16>| #[trigger] out.coeff(key) == self.coeff(key) + lc_coeff(
                    rhs@.subrange(0, i + 1),
                    key,
                ) by {
                    assert(before.coeff(key) == self.coeff(key) + lc_coeff(rhs@.subrange(0, i as int), key));
                }
            }
            i = i + 1;
        }
        proof {
            assert(rhs@.subrange(0, i as int) =~= rhs@);
            if keys_valid(self@, self.g) && keys_valid(rhs@, self.g) {
                lemma_support_of_keys_valid(self@, self.g);
                lemma_support_of_keys_valid(rhs@, self.g);
                use_type_invariant(&out);
                assert forall|key: Seq<u16>| lc_coeff(out@, key) != 0 implies valid_for(key, self.g) by {
                    assert(out.coeff(key) == self.coeff(key) + rhs.coeff(key));
                }
                lemma_keys_valid_from_support(out@, self.g);
            }
            use_type_invariant(&out);
        }
        Ok(out)
    }

    /// Checked subtraction of two expressions on the same Grassmannian.
    pub fn checked_sub(&self, rhs: &Self) -> (r: Result<SchubertExpr, SchubertError>)
        ensures
            r is Ok <==> self.grass() == rhs.grass(),
            r matches Err(e) ==> e == incompatible(self.grass(), rhs.grass()),
            r matches Ok(out) ==> out.grass() == self.grass() && forall|key: Seq<u16>|
                #[trigger] out.coeff(key) == self.coeff(key) - rhs.coeff(key),
            r matches Ok(out) ==> canonical(out@),
    {
        self.ensure_same_grassmannian(rhs)?;
        let mut out = self.duplicate();
        let mut i: usize = 0;
        proof {
            use_type_invariant(rhs);
        }
        while i < rhs.terms.len()
            invariant
                i <= rhs.terms@.len(),
                out.grass() == self.grass(),
                forall|key: Seq<u16>|
                    #[trigger] out.coeff(key) == self.coeff(key) - lc_coeff(rhs@.subrange(0, i as int), key),
            decreases rhs.terms.len() - i,
        {
            let p = rhs.terms[i].0.clone();
            let c = big_neg(&rhs.terms[i].1);
            let ghost before = out;
            out.add_term(p, c);
            proof {
                assert(rhs@.subrange(0, i + 1).drop_last() =~= rhs@.subrange(0, i as int));
                assert(rhs@.subrange(0, i + 1).last() == rhs@[i as int]);
                assert forall|key: Seq<u16>| #[trigger] out.coeff(key) == self.coeff(key) - lc_coeff(
                    rhs@.subrange(0, i + 1),
                    key,
                ) by {
                    assert(before.coeff(key) == self.coeff(key) - lc_coeff(rhs@.subrange(0, i as int), key));
                }
            }
            i = i + 1;
        }
        proof {
            assert(rhs@.subrange(0, i as int) =~= rhs@);
            use_type_invariant(&out);
        }
        Ok(out)
    }

    /// Multiply every Schubert coefficient by an integer scalar.
    pub fn scalar_mul(&self, scalar: &Integer) -> (r: SchubertExpr)
        ensures
            r.grass() == self.grass(),
            forall|key: Seq<u16>| #[trigger] r.coeff(key) == scalar@ * self.coeff(key),
            r.coeff_fn() == scaled_fn(self.coeff_fn(), scalar@),
            keys_valid(self@, self.grass()) ==> keys_valid(r@, self.grass()),
            canonical(r@),
    {
        proof {
            use_type_invariant(self);
        }
        if big_is_zero(scalar) || self.terms.len() == 0 {
            let r = Self::zero(&self.g);
            proof {
                assert forall|key: Seq<u16>| #[trigger] r.coeff(key) == scalar@ * self.coeff(key) by {
                    lemma_lc_absent(r@, key);
                    if self@.len() == 0 {
                        lemma_lc_absent(self@, key);
                        assert(scalar@ * 0 == 0);
                    } else {
                        assert(scalar@ == 0);
                        assert(0 * self.coeff(key) == 0);
                    }
                }
                assert forall|key: Seq<u16>| #[trigger] r.coeff_fn()(key) == scaled_fn(self.coeff_fn(), scalar@)(key) by {
                    assert(r.coeff(key) == scalar@ * self.coeff(key));
                }
                assert(r.coeff_fn() =~= scaled_fn(self.coeff_fn(), scalar@));
                assert(keys_valid(r@, self.g));
            }
            return r;
        }
        let ghost ts = self@;
        let mut terms: Vec<(Partition, Integer)> = Vec::new();
        let mut i: usize = 0;
        while i < self.terms.len()
            invariant
                i <= self.terms@.len(),
                ts == self@,
                canonical(ts),
                scalar@ != 0,
                terms_view(terms@) == Seq::new(i as nat, |j: int| (ts[j].0, scalar@ * ts[j].1)),
            decreases self.terms.len() - i,
        {
            let c = big_mul(&self.terms[i].1, scalar);
            if !big_is_zero(&c) {
                let ghost before = terms@;
                let t = (self.terms[i].0.clone(), c);
                let ghost tv = (t.0@, t.1@);
                terms.push(t);
                proof {
                    assert(tv == (ts[i as int].0, scalar@ * ts[i as int].1)) by {
                        assert(ts[i as int] == (self.terms@[i as int].0@, self.terms@[i as int].1@));
                        assert(c@ == self.terms@[i as int].1@ * scalar@);
                        assert(self.terms@[i as int].1@ * scalar@ == scalar@ * self.terms@[i as int].1@) by (nonlinear_arith);
                    }
                    assert(terms_view(terms@) =~= terms_view(before).push(tv));
                    assert(terms_view(terms@) =~= Seq::new((i + 1) as nat, |j: int| (ts[j].0, scalar@ * ts[j].1)));
                }
            } else {
                proof {
                    assert(ts[i as int].1 != 0);
                    assert(c@ == ts[i as int].1 * scalar@);
                    assert(ts[i as int].1 * scalar@ != 0) by (nonlinear_arith)
                        requires
                            ts[i as int].1 != 0,
                            scalar@ != 0,
                    ;
                }
            }
            i = i + 1;
        }
        let ghost rv = Seq::new(ts.len(), |j: int| (ts[j].0, scalar@ * ts[j].1));
        proof {
            assert(terms_view(terms@) == rv);
            assert forall|j: int| 0 <= j < rv.len() implies #[trigger] rv[j].1 != 0 by {
                assert(ts[j].1 != 0);
                assert(scalar@ * ts[j].1 != 0) by (nonlinear_arith)
                    requires
                        ts[j].1 != 0,
                        scalar@ != 0,
                ;
            }
            assert(canonical(rv));
        }
        let r = SchubertExpr { g: self.g.clone(), terms };
        proof {
            assert forall|key: Seq<u16>| #[trigger] r.coeff(key) == scalar@ * self.coeff(key) by {
                if exists|j: int| 0 <= j < ts.len() && ts[j].0 == key {
                    let j = choose|j: int| 0 <= j < ts.len() && ts[j].0 == key;
                    lemma_lc_at(ts, j);
                    lemma_lc_at(rv, j);
                } else {
                    lemma_lc_absent(ts, key);
                    assert forall|j: int| 0 <= j < rv.len() implies #[trigger] rv[j].0 != key by {
                        assert(rv[j].0 == ts[j].0);
                    }
                    lemma_lc_absent(rv, key);
                }
            }
            assert forall|key: Seq<u16>| #[trigger] r.coeff_fn()(key) == scaled_fn(self.coeff_fn(), scalar@)(key) by {
                assert(r.coeff(key) == scalar@ * self.coeff(key));
            }
            assert(r.coeff_fn() =~= scaled_fn(self.coeff_fn(), scalar@));
            if keys_valid(ts, self.g) {
                assert forall|j: int| 0 <= j < rv.len() implies valid_for(#[trigger] rv[j].0, self.g) by {
                    assert(rv[j].0 == ts[j].0);
                }
            }
            use_type_invariant(&r);
        }
        r
    }

    /// Multiply by the special Schubert class `sigma_r` using Pieri's rule.
    ///
    /// Out-of-range special classes (`r < 0` or `r > n-k`) are interpreted as
    /// zero, matching the Giambelli determinant convention.
    pub fn multiply_by_special(&self, r: isize) -> (res: Result<SchubertExpr, SchubertError>)
        ensures
            res is Err <==> (1 <= r <= self.grass().w_spec() && !keys_valid(self@, self.grass())),
            res matches Err(e) ==> first_invalid_error(self@, self.grass(), e),
            res matches Ok(out) ==> {
                &&& out.grass() == self.grass()
                &&& out.coeff_fn() == special_fn(
                    self.coeff_fn(),
                    self.grass().k_spec(),
                    self.grass().w_spec(),
                    r as int,
                )
                &&& r == 0 ==> out@ == self@
                &&& keys_valid(self@, self.grass()) ==> keys_valid(out@, self.grass())
                &&& 1 <= r <= self.grass().w_spec() ==> keys_valid(out@, self.grass())
                &&& canonical(out@)
            },
    {
        proof {
            use_type_invariant(self);
        }
        let w = self.g.width();
        if r < 0 || r as usize > w {
            let z = Self::zero(&self.g);
            proof {
                assert(keys_valid(z@, self.g));
            }
            return Ok(z);
        }
        if r == 0 {
            return Ok(self.duplicate());
        }
        let ghost g = self.g;
        let ghost k = g.k_spec();
        let ghost ts = self@;
        let mut out = Self::zero(&self.g);
        let mut i: usize = 0;
        while i < self.terms.len()
            invariant
                i <= self.terms@.len(),
                ts == self@,
                g == self.g,
                canonical(ts),
                w == g.w_spec(),
                k == g.k_spec(),
                1 <= r <= w,
                g.valid(),
                out.grass() == g,
                forall|j: int| 0 <= j < i ==> valid_for(#[trigger] ts[j].0, g),
                forall|nu: Seq<u16>| #[trigger] out.coeff(nu) == strip_weighted(
                    ts.subrange(0, i as int),
                    k,
                    w as nat,
                    r as int,
                    nu,
                ),
            decreases self.terms.len() - i,
        {
            let strips = match multiply_partition_by_special(&self.g, &self.terms[i].0, r as usize) {
                Ok(v) => v,
                Err(e) => {
                    proof {
                        assert(ts[i as int].0 == self.terms@[i as int].0@);
                        assert(first_invalid_error(ts, g, e));
                    }
                    return Err(e);
                },
            };
            proof {
                assert(forall|x: Seq<u16>|
                    #[trigger] parts_of(strips@).contains(x) <==> is_strip(
                        g.k_spec(),
                        g.w_spec(),
                        self.terms@[i as int].0@,
                        x,
                        (r as usize) as int,
                    ));
            }
            let ghost lam = ts[i as int].0;
            let ghost c = ts[i as int].1;
            let ghost sv = parts_of(strips@);
            let ghost base = out;
            proof {
                assert(lam == self.terms@[i as int].0@);
                assert(c == self.terms@[i as int].1@);
            }
            let mut j: usize = 0;
            while j < strips.len()
                invariant
                    j <= strips@.len(),
                    sv == parts_of(strips@),
                    sv.no_duplicates(),
                    i < self.terms@.len(),
                    w == g.w_spec(),
                    k == g.k_spec(),
                    1 <= r <= w,
                    lam == self.terms@[i as int].0@,
                    c == self.terms@[i as int].1@,
                    out.grass() == g,
                    forall|nu: Seq<u16>|
                        #[trigger] out.coeff(nu) == base.coeff(nu) + if sv.subrange(0, j as int).contains(nu) {
                            c
                        } else {
                            0
                        },
                decreases strips.len() - j,
            {
                let ghost before = out;
                out.add_term(strips[j].clone(), self.terms[i].1.clone());
                proof {
                    assert forall|nu: Seq<u16>|
                        #[trigger] out.coeff(nu) == base.coeff(nu) + if sv.subrange(0, j + 1).contains(nu) {
                            c
                        } else {
                            0
                        } by {
                        assert(sv[j as int] == strips@[j as int]@);
                        if sv.subrange(0, j + 1).contains(nu) {
                            let a = choose|a: int| 0 <= a < j + 1 && #[trigger] sv.subrange(0, j + 1)[a] == nu;
                            if a < j {
                                assert(sv.subrange(0, j as int)[a] == nu);
                            }
                        }
                        if sv.subrange(0, j as int).contains(nu) {
                            let a = choose|a: int| 0 <= a < j && #[trigger] sv.subrange(0, j as int)[a] == nu;
                            assert(sv.subrange(0, j + 1)[a] == nu);
                            assert(sv[a] == nu);
                            assert(sv[j as int] != nu);
                        }
                        if nu == sv[j as int] {
                            assert(sv.subrange(0, j + 1)[j as int] == nu);
                        }
                        assert(before.coeff(nu) == base.coeff(nu) + if sv.subrange(0, j as int).contains(nu) {
                            c
                        } else {
                            0
                        });
                    }
                }
                j = j + 1;
            }
            proof {
                assert(sv.subrange(0, j as int) =~= sv);
                assert(ts.subrange(0, i + 1).drop_last() =~= ts.subrange(0, i as int));
                assert(ts.subrange(0, i + 1).last() == ts[i as int]);
                assert forall|nu: Seq<u16>| #[trigger] out.coeff(nu) == strip_weighted(
                    ts.subrange(0, i + 1),
                    k,
                    w as nat,
                    r as int,
                    nu,
                ) by {
                    assert(parts_of(strips@).contains(nu) <==> is_strip(
                        g.k_spec(),
                        g.w_spec(),
                        self.terms@[i as int].0@,
                        nu,
                        (r as usize) as int,
                    ));
                    assert(sv.contains(nu) <==> is_strip(k, w as nat, lam, nu, r as int));
                }
            }
            i = i + 1;
        }
        proof {
            assert(ts.subrange(0, i as int) =~= ts);
            assert forall|a: int| 0 <= a < ts.len() implies (#[trigger] ts[a].0).len() == k by {
                assert(valid_for(ts[a].0, g));
            }
            assert forall|nu: Seq<u16>| #[trigger] out.coeff_fn()(nu) == special_fn(
                self.coeff_fn(),
                k,
                w as nat,
                r as int,
            )(nu) by {
                assert forall|key: Seq<u16>| #[trigger] self.coeff_fn()(key) == lc_coeff(ts, key) by {}
                lemma_strip_weighted_pieri(ts, self.coeff_fn(), k, w as nat, r as int, nu);
                assert(out.coeff_fn()(nu) == out.coeff(nu));
                assert(special_fn(self.coeff_fn(), k, w as nat, r as int) == pieri_fn(
                    self.coeff_fn(),
                    k,
                    w as nat,
                    r as int,
                ));
            }
            assert(out.coeff_fn() =~= special_fn(self.coeff_fn(), k, w as nat, r as int));
            use_type_invariant(&out);
            assert forall|nu: Seq<u16>| lc_coeff(out@, nu) != 0 implies valid_for(nu, g) by {
                assert(out.coeff(nu) == strip_weighted(ts, k, w as nat, r as int, nu));
                lemma_strip_weighted_support(ts, k, w as nat, r as int, nu);
                let a = choose|a: int| 0 <= a < ts.len() && is_strip(k, w as nat, #[trigger] ts[a].0, nu, r as int);
                assert(valid_for(ts[a].0, g));
                lemma_strip_valid(g, ts[a].0, nu, r as int);
            }
            lemma_keys_valid_from_support(out@, g);
        }
        Ok(out)
    }

    /// Multiply by one Schubert basis class `sigma_rhs` using Giambelli plus Pieri.
    pub fn mul_class(&self, rhs: &Partition) -> (res: Result<SchubertExpr, SchubertError>)
        ensures
            res is Err <==> class_fails(self@, self.grass(), rhs@),
            res matches Err(e) ==> class_error(self@, self.grass(), rhs@, e),
            res matches Ok(out) ==> {
                &&& out.grass() == self.grass()
                &&& out.coeff_fn() == giambelli_fn(
                    self.coeff_fn(),
                    self.grass().k_spec(),
                    self.grass().w_spec(),
                    rhs@,
                )
                &&& keys_valid(self@, self.grass()) ==> keys_valid(out@, self.grass())
                &&& canonical(out@)
            },
    {
        rhs.validate_for(&self.g)?;
        self.ensure_keys_valid()?;
        let out = multiply_expr_by_class(self, rhs)?;
        proof {
            use_type_invariant(&out);
        }
        Ok(out)
    }

    /// Schubert product of two expressions in the same Grassmannian.
    pub fn product(&self, rhs: &Self) -> (res: Result<SchubertExpr, SchubertError>)
        ensures
            res is Err <==> self.grass() != rhs.grass() || exists|i: int|
                0 <= i < rhs@.len() && class_fails(self@, self.grass(), #[trigger] rhs@[i].0),
            res matches Err(e) ==> if self.grass() != rhs.grass() {
                e == incompatible(self.grass(), rhs.grass())
            } else {
                product_error(self@, rhs@, self.grass(), e)
            },
            res matches Ok(out) ==> {
                &&& out.grass() == self.grass()
                &&& out.coeff_fn() == product_fn(
                    self.coeff_fn(),
                    rhs.coeff_fn(),
                    self.grass().k_spec(),
                    self.grass().w_spec(),
                )
                &&& keys_valid(rhs@, self.grass())
                &&& keys_valid(self@, self.grass()) ==> keys_valid(out@, self.grass())
                &&& canonical(out@)
            },
    {
        self.ensure_same_grassmannian(rhs)?;
        let ghost g = self.g;
        let ghost k = g.k_spec();
        let ghost w = g.w_spec();
        let ghost f = self.coeff_fn();
        let ghost bs = rhs@;
        proof {
            use_type_invariant(rhs);
        }
        let kk: usize = self.g.k();
        let ww: usize = self.g.width();
        let mut out = Self::zero(&self.g);
        let mut i: usize = 0;
        while i < rhs.terms.len()
            invariant
                i <= rhs.terms@.len(),
                bs == rhs@,
                g == self.g,
                g == rhs.grass(),
                kk == k,
                ww == w,
                k == g.k_spec(),
                w == g.w_spec(),
                w <= u16::MAX,
                f == self.coeff_fn(),
                out.grass() == g,
                forall|j: int| 0 <= j < i ==> !class_fails(self@, g, #[trigger] bs[j].0),
                forall|nu: Seq<u16>|
                    #[trigger] out.coeff(nu) == box_weighted(
                        bs.subrange(0, i as int),
                        rect_lo(k),
                        rect_hi(k, w),
                        |mu: Seq<u16>| giambelli_fn(f, k, w, mu)(nu),
                    ),
                keys_valid(self@, g) ==> keys_valid(out@, g),
            decreases rhs.terms.len() - i,
        {
            let part = match self.mul_class(&rhs.terms[i].0) {
                Ok(x) => x,
                Err(e) => {
                    proof {
                        assert(bs[i as int].0 == rhs.terms@[i as int].0@);
                        assert(product_error(self@, bs, g, e));
                    }
                    return Err(e);
                },
            };
            let scaled = part.scalar_mul(&rhs.terms[i].1);
            let ghost before = out;
            out = match out.checked_add(&scaled) {
                Ok(x) => x,
                Err(e) => {
                    return Err(e);
                },
            };
            proof {
                let mu = bs[i as int].0;
                let c = bs[i as int].1;
                assert(mu == rhs.terms@[i as int].0@);
                assert(c == rhs.terms@[i as int].1@);
                assert(!class_fails(self@, g, mu));
                assert(in_box(rect_lo(k), rect_hi(k, w), int_of_u16(), mu)) by {
                    assert forall|t: int| 0 <= t < mu.len() implies rect_lo(k)[t] <= #[trigger] int_of_u16()(mu[t])
                        <= rect_hi(k, w)[t] by {
                        assert(mu[t] <= w);
                    }
                }
                assert(bs.subrange(0, i + 1).drop_last() =~= bs.subrange(0, i as int));
                assert(bs.subrange(0, i + 1).last() == bs[i as int]);
                assert forall|nu: Seq<u16>| #[trigger] out.coeff(nu) == box_weighted(
                    bs.subrange(0, i + 1),
                    rect_lo(k),
                    rect_hi(k, w),
                    |mu: Seq<u16>| giambelli_fn(f, k, w, mu)(nu),
                ) by {
                    assert(out.coeff(nu) == before.coeff(nu) + scaled.coeff(nu));
                    assert(scaled.coeff(nu) == c * part.coeff(nu));
                    assert(part.coeff(nu) == part.coeff_fn()(nu));
                }
            }
            i = i + 1;
        }
        proof {
            assert(bs.subrange(0, i as int) =~= bs);
            assert forall|t: int| 0 <= t < rect_lo(k).len() implies 0 <= #[trigger] rect_lo(k)[t] && rect_hi(k, w)[t]
                <= u16::MAX by {}
            lemma_u16_embeds(rect_lo(k), rect_hi(k, w));
            assert forall|nu: Seq<u16>| #[trigger] out.coeff_fn()(nu) == product_fn(f, rhs.coeff_fn(), k, w)(nu) by {
                let wt = |mu: Seq<u16>| giambelli_fn(f, k, w, mu)(nu);
                lemma_box_sum_terms(bs, rect_lo(k), rect_hi(k, w), wt);
                lemma_box_sum_ext(
                    rect_lo(k),
                    rect_hi(k, w),
                    u16_of(),
                    |x: Seq<u16>| lc_coeff(bs, x) * wt(x),
                    |mu: Seq<u16>| rhs.coeff_fn()(mu) * giambelli_fn(f, k, w, mu)(nu),
                );
                assert(out.coeff_fn()(nu) == out.coeff(nu));
            }
            assert(out.coeff_fn() =~= product_fn(f, rhs.coeff_fn(), k, w));
            assert forall|j: int| 0 <= j < bs.len() implies valid_for(#[trigger] bs[j].0, g) by {
                assert(!class_fails(self@, g, bs[j].0));
            }
            use_type_invariant(&out);
        }
        Ok(out)
    }

    /// Compatibility alias for [`Self::product`].
    pub fn mul(&self, rhs: &Self) -> (res: Result<SchubertExpr, SchubertError>)
        ensures
            res is Err <==> self.grass() != rhs.grass() || exists|i: int|
                0 <= i < rhs@.len() && class_fails(self@, self.grass(), #[trigger] rhs@[i].0),
            res matches Err(e) ==> if self.grass() != rhs.grass() {
                e == incompatible(self.grass(), rhs.grass())
            } else {
                product_error(self@, rhs@, self.grass(), e)
            },
            res matches Ok(out) ==> {
                &&& out.grass() == self.grass()
                &&& out.coeff_fn() == product_fn(
                    self.coeff_fn(),
                    rhs.coeff_fn(),
                    self.grass().k_spec(),
                    self.grass().w_spec(),
                )
                &&& keys_valid(rhs@, self.grass())
                &&& keys_valid(self@, self.grass()) ==> keys_valid(out@, self.grass())
                &&& canonical(out@)
            },
    {
        self.product(rhs)
    }

    /// Repeated Schubert product by exponentiation by squaring.
    pub fn pow(&self, exponent: u32) -> (res: Result<SchubertExpr, SchubertError>)
        ensures
            res is Err <==> exponent >= 1 && !keys_valid(self@, self.grass()),
            res matches Err(e) ==> first_invalid_error(self@, self.grass(), e),
            res matches Ok(out) ==> {
                &&& out.grass() == self.grass()
                &&& out.coeff_fn() == pow_fn(
                    self.coeff_fn(),
                    exponent as nat,
                    self.grass().k_spec(),
                    self.grass().w_spec(),
                )
                &&& self.grass().k_spec() <= 2 ==> out.coeff_fn() == repeated_power(
                    self.coeff_fn(),
                    exponent as nat,
                    self.grass().k_spec(),
                    self.grass().w_spec(),
                )
                &&& keys_valid(out@, self.grass())
                &&& canonical(out@)
            },
    {
        let ghost g = self.g;
        let ghost k = g.k_spec();
        let ghost w = g.w_spec();
        let ghost f = self.coeff_fn();
        let ghost sv = self@;
        let mut exp = exponent;
        let mut result = Self::one(&self.g);
        let ghost one_v = result@;
        let mut base = self.duplicate();
        let width: usize = self.g.width();
        proof {
            assert(keys_valid(result@, g)) by {
                assert(valid_for(zero_parts(k), g)) by {
                    assert forall|i: int| 0 < i < zero_parts(k).len() implies zero_parts(k)[i - 1] >= #[trigger] zero_parts(
                        k,
                    )[i] by {}
                }
            }
        }
        while exp > 0
            invariant
                result.grass() == g,
                base.grass() == g,
                g == self.grass(),
                k == g.k_spec(),
                w == g.w_spec(),
                f == self.coeff_fn(),
                sv == self@,
                keys_valid(one_v, g),
                keys_valid(result@, g),
                keys_valid(sv, g) ==> keys_valid(base@, g),
                !keys_valid(sv, g) ==> exp == exponent && result@ == one_v && base@ == sv,
                binary_power(result.coeff_fn(), base.coeff_fn(), exp as nat, k, w) == pow_fn(f, exponent as nat, k, w),
            decreases exp,
        {
            let ghost r0 = result.coeff_fn();
            let ghost b0 = base.coeff_fn();
            let ghost e0 = exp as nat;
            if exp % 2 == 1 {
                result = match result.product(&base) {
                    Ok(x) => x,
                    Err(e) => {
                        proof {
                            assert(!keys_valid(sv, g));
                            assert(product_error(one_v, sv, g, e));
                            let i = choose|i: int|
                                0 <= i < sv.len() && class_fails(one_v, g, #[trigger] sv[i].0) && (forall|j: int|
                                    0 <= j < i ==> !class_fails(one_v, g, #[trigger] sv[j].0)) && class_error(
                                    one_v,
                                    g,
                                    sv[i].0,
                                    e,
                                );
                            assert(!valid_for(sv[i].0, g));
                            assert forall|j: int| 0 <= j < i implies valid_for(#[trigger] sv[j].0, g) by {
                                assert(!class_fails(one_v, g, sv[j].0));
                            }
                        }
                        return Err(e);
                    },
                };
            }
            exp = exp / 2;
            if exp > 0 {
                base = match base.product(&base) {
                    Ok(x) => x,
                    Err(e) => {
                        proof {
                            assert(!keys_valid(sv, g));
                            assert(product_error(sv, sv, g, e));
                            let i = choose|i: int|
                                0 <= i < sv.len() && class_fails(sv, g, #[trigger] sv[i].0) && (forall|j: int|
                                    0 <= j < i ==> !class_fails(sv, g, #[trigger] sv[j].0)) && class_error(
                                    sv,
                                    g,
                                    sv[i].0,
                                    e,
                                );
                            assert forall|j: int| 0 <= j < i implies valid_for(#[trigger] sv[j].0, g) by {
                                assert(!class_fails(sv, g, sv[j].0));
                            }
                        }
                        return Err(e);
                    },
                };
            }
            proof {
                assert(binary_power(r0, b0, e0, k, w) == binary_power(result.coeff_fn(), base.coeff_fn(), exp as nat, k, w));
            }
        }
        proof {
            if !keys_valid(sv, g) && exponent >= 1 {
                assert(exp == exponent);
            }
            use_type_invariant(&result);
            if k <= 2 {
                if exponent == 0 {
                    assert(pow_fn(f, 0, k, w) == repeated_power(f, 0, k, w));
                } else {
                    use_type_invariant(self);
                    lemma_support_of_keys_valid(sv, g);
                    assert(on_partitions(f, k, w));
                    lemma_pow_repeated(f, exponent as nat, k, w);
                }
            }
        }
        Ok(result)
    }

    /// Integrate over `g` by extracting the coefficient of the top class.
    ///
    /// The explicit `g` parameter is checked against the expression's embedded context.
    pub fn integral(&self, g: &Grassmannian) -> (r: Result<Integer, SchubertError>)
        ensures
            r is Ok <==> self.grass() == *g,
            r matches Err(e) ==> e == incompatible(self.grass(), *g),
            r matches Ok(v) ==> v@ == self.coeff(rectangle_parts(g.k_spec(), g.w_spec() as u16)),
    {
        self.ensure_grassmannian(g)?;
        let top = g.top_partition()?;
        Ok(self.coefficient(&top))
    }
}

impl Clone for SchubertExpr {
    fn clone(&self) -> (r: Self)
        ensures
            r.grass() == self.grass(),
            r@ == self@,
            canonical(r@),
    {
        self.duplicate()
    }
}

} // verus!
