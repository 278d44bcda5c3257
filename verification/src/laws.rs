use vstd::prelude::*;

use crate::expr::{binary_power, class_fn, pow_fn, product_fn, special_fn, zero_fn, rect_hi, rect_lo};
use crate::giambelli::{
    chain_fn, giambelli_fn, giambelli_indices, giambelli_term, indices_in_range, inversions_before, is_perm,
    lemma_perm_above_diagonal, perm_sign, row_inversions,
};
use crate::pieri_commute::{lemma_pieri_pair_commute, lemma_pieri_zero};
use crate::two_rows::{
    lemma_class_product_nonnegative_two, lemma_classes_commute_two, lemma_duality_two, lemma_giambelli_unit_two,
};
use crate::bilinear::{
    lemma_commute_from_classes, lemma_nonnegative_from_classes, lemma_product_expand, lemma_valid_in_rect, rect_sum,
};
use crate::degrees::{lemma_pow_degree, lemma_product_degree};
pub use crate::giambelli::law_sign_flips_on_neighbour_swap;
pub use crate::text::{digits_value, law_decimal_reads_back, law_text_shows_signs, minus_count, negative_count};
use crate::powers::{lemma_pow_add, lemma_pow_repeated, repeated_power};
use crate::small::{
    lemma_associative_small, lemma_commutative_small, lemma_left_unit_small, lemma_nonnegative_small,
};
use crate::associativity::{lemma_product_on_partitions, lemma_right_products_commute, on_partitions};
use crate::littlewood_richardson::{
    lemma_diff_is_part_sums, lemma_lr_left_unit_coefficient, lemma_one_row_sum, lemma_zero_parts_sum,
    lemma_completions_nonneg, lemma_lr_one_row_coefficient, lemma_unit_weighted, lr_coefficient, lr_fn, lr_weight,
    mu_content, reading_cells,
};
use crate::pieri::{is_strip, lemma_strip_weighted_pieri, pieri_fn, strip_weighted};
use crate::terms::box_weighted;
use crate::partition::{part_sum, valid_parts, zero_parts};
use crate::sums::{embeds, in_box, lemma_box_sum_add, lemma_box_sum_point, lemma_box_sum_zero};
use crate::terms::{
    canonical, int_of_u16, lc_coeff, lemma_box_sum_terms, lemma_canonical_unique, lemma_u16_embeds, u16_of,
};

verus! {

/// Addition is commutative: the sums `a + b` and `b + a` (as `checked_add` describes its result)
/// are the same expression.
pub proof fn law_add_commutative(
    a: Seq<(Seq<u16>, int)>,
    b: Seq<(Seq<u16>, int)>,
    ab: Seq<(Seq<u16>, int)>,
    ba: Seq<(Seq<u16>, int)>,
)
    requires
        canonical(ab),
        canonical(ba),
        forall|key: Seq<u16>| #[trigger] lc_coeff(ab, key) == lc_coeff(a, key) + lc_coeff(b, key),
        forall|key: Seq<u16>| #[trigger] lc_coeff(ba, key) == lc_coeff(b, key) + lc_coeff(a, key),
    ensures
        ab == ba,
{
    assert forall|key: Seq<u16>| lc_coeff(ab, key) == lc_coeff(ba, key) by {
        assert(lc_coeff(ab, key) == lc_coeff(a, key) + lc_coeff(b, key));
        assert(lc_coeff(ba, key) == lc_coeff(b, key) + lc_coeff(a, key));
    }
    lemma_canonical_unique(ab, ba);
}

/// Subtraction undoes addition: `(a + b) - b` (as `checked_add` and `checked_sub` describe
/// their results) is `a`.
pub proof fn law_add_then_sub(
    a: Seq<(Seq<u16>, int)>,
    b: Seq<(Seq<u16>, int)>,
    s: Seq<(Seq<u16>, int)>,
    d: Seq<(Seq<u16>, int)>,
)
    requires
        canonical(a),
        canonical(d),
        forall|key: Seq<u16>| #[trigger] lc_coeff(s, key) == lc_coeff(a, key) + lc_coeff(b, key),
        forall|key: Seq<u16>| #[trigger] lc_coeff(d, key) == lc_coeff(s, key) - lc_coeff(b, key),
    ensures
        d == a,
{
    assert forall|key: Seq<u16>| lc_coeff(d, key) == lc_coeff(a, key) by {
        assert(lc_coeff(d, key) == lc_coeff(s, key) - lc_coeff(b, key));
        assert(lc_coeff(s, key) == lc_coeff(a, key) + lc_coeff(b, key));
    }
    lemma_canonical_unique(d, a);
}

/// Adding zero changes nothing: `a + 0` (as `checked_add` describes its result) is `a`.
pub proof fn law_add_zero(a: Seq<(Seq<u16>, int)>, s: Seq<(Seq<u16>, int)>)
    requires
        canonical(a),
        canonical(s),
        forall|key: Seq<u16>| #[trigger] lc_coeff(s, key) == lc_coeff(a, key) + lc_coeff(Seq::empty(), key),
    ensures
        s == a,
{
    assert forall|key: Seq<u16>| lc_coeff(s, key) == lc_coeff(a, key) by {
        assert(lc_coeff(s, key) == lc_coeff(a, key) + lc_coeff(Seq::empty(), key));
    }
    lemma_canonical_unique(s, a);
}

/// An expression minus itself is zero: `a - a` (as `checked_sub` describes its result) has no terms.
pub proof fn law_sub_self(a: Seq<(Seq<u16>, int)>, d: Seq<(Seq<u16>, int)>)
    requires
        canonical(d),
        forall|key: Seq<u16>| #[trigger] lc_coeff(d, key) == lc_coeff(a, key) - lc_coeff(a, key),
    ensures
        d.len() == 0,
{
    assert forall|key: Seq<u16>| lc_coeff(d, key) == lc_coeff(Seq::<(Seq<u16>, int)>::empty(), key) by {
        assert(lc_coeff(d, key) == lc_coeff(a, key) - lc_coeff(a, key));
    }
    lemma_canonical_unique(d, Seq::empty());
}

/// Scaling by one changes nothing and scaling by zero gives zero (as `scalar_mul` describes
/// its result).
pub proof fn law_scalar_unit_and_zero(a: Seq<(Seq<u16>, int)>, one: Seq<(Seq<u16>, int)>, zero: Seq<(Seq<u16>, int)>)
    requires
        canonical(a),
        canonical(one),
        canonical(zero),
        forall|key: Seq<u16>| #[trigger] lc_coeff(one, key) == 1 * lc_coeff(a, key),
        forall|key: Seq<u16>| #[trigger] lc_coeff(zero, key) == 0 * lc_coeff(a, key),
    ensures
        one == a,
        zero.len() == 0,
{
    assert forall|key: Seq<u16>| lc_coeff(one, key) == lc_coeff(a, key) by {
        assert(lc_coeff(one, key) == 1 * lc_coeff(a, key));
    }
    lemma_canonical_unique(one, a);
    assert forall|key: Seq<u16>| lc_coeff(zero, key) == lc_coeff(Seq::<(Seq<u16>, int)>::empty(), key) by {
        assert(lc_coeff(zero, key) == 0 * lc_coeff(a, key));
    }
    lemma_canonical_unique(zero, Seq::empty());
}

/// The coefficient function of `f + g`.
pub open spec fn sum_fn(f: spec_fn(Seq<u16>) -> int, g: spec_fn(Seq<u16>) -> int) -> spec_fn(Seq<u16>) -> int {
    |key: Seq<u16>| f(key) + g(key)
}

/// The one-row partition `(r, 0, ..., 0)` with `k` parts.
pub open spec fn one_row(k: nat, r: u16) -> Seq<u16> {
    Seq::new(k, |i: int| if i == 0 { r } else { 0u16 })
}

/// The identity permutation of `0, ..., k-1`.
pub open spec fn identity_perm(k: nat) -> Seq<int> {
    Seq::new(k, |i: int| i)
}

proof fn lemma_identity_rows(k: nat, i: int, upto: int)
    requires
        0 <= i,
        upto <= k,
    ensures
        row_inversions(identity_perm(k), i, upto) == 0,
    decreases upto - i,
{
    if upto > i + 1 {
        lemma_identity_rows(k, i, upto - 1);
    }
}

proof fn lemma_identity_inversions(k: nat, upto: int)
    requires
        upto <= k,
    ensures
        inversions_before(identity_perm(k), upto) == 0,
    decreases upto,
{
    if upto > 0 {
        lemma_identity_inversions(k, upto - 1);
        lemma_identity_rows(k, upto - 1, k as int);
    }
}

/// The identity permutation is even.
pub proof fn lemma_identity_sign(k: nat)
    ensures
        perm_sign(identity_perm(k)) == 1,
{
    lemma_identity_inversions(k, k as int);
}

proof fn lemma_chain_one_row(f: spec_fn(Seq<u16>) -> int, k: nat, w: nat, r: int, m: nat)
    requires
        1 <= m,
    ensures
        chain_fn(f, k, w, Seq::new(m, |i: int| if i == 0 { r } else { 0int })) == special_fn(f, k, w, r),
    decreases m,
{
    let rs = Seq::new(m, |i: int| if i == 0 { r } else { 0int });
    if m == 1 {
        assert(rs.drop_last() =~= Seq::<int>::empty());
        assert(chain_fn(f, k, w, rs.drop_last()) == f);
        assert(rs.last() == r);
    } else {
        lemma_chain_one_row(f, k, w, r, (m - 1) as nat);
        assert(rs.drop_last() =~= Seq::new((m - 1) as nat, |i: int| if i == 0 { r } else { 0int }));
        assert(rs.last() == 0);
    }
}

/// Giambelli's determinant for a one-row partition `(r)` is the special class `sigma_r`:
/// multiplying by the class `(r, 0, ..., 0)` is multiplying by `sigma_r`.
pub proof fn lemma_giambelli_one_row(f: spec_fn(Seq<u16>) -> int, k: nat, w: nat, r: u16)
    requires
        k >= 1,
        r <= w,
    ensures
        giambelli_fn(f, k, w, one_row(k, r)) == special_fn(f, k, w, r as int),
{
    let mu = one_row(k, r);
    let id = identity_perm(k);
    let lo = Seq::new(k, |i: int| 0int);
    let hi = Seq::new(k, |i: int| k - 1);
    let emb = |v: int| v;
    assert(embeds(lo, hi, emb, emb));
    assert(giambelli_indices(mu, id) =~= Seq::new(k, |i: int| if i == 0 { r as int } else { 0int }));
    lemma_chain_one_row(f, k, w, r as int, k);
    lemma_identity_sign(k);
    assert(is_perm(id, k));
    assert(indices_in_range(giambelli_indices(mu, id), w));
    assert forall|nu: Seq<u16>| #[trigger] giambelli_fn(f, k, w, mu)(nu) == special_fn(f, k, w, r as int)(nu) by {
        let t = |p: Seq<int>| giambelli_term(f, k, w, mu, p)(nu);
        assert forall|p: Seq<int>| #[trigger] t(p) == if p == id { special_fn(f, k, w, r as int)(nu) } else { 0 } by {
            if p != id && is_perm(p, k) && indices_in_range(giambelli_indices(mu, p), w) {
                assert forall|i: int| 0 <= i < k implies #[trigger] p[i] >= i by {
                    assert(0 <= giambelli_indices(mu, p)[i]);
                    if i > 0 {
                        assert(mu[i] == 0);
                    }
                }
                lemma_perm_above_diagonal(p, k, 0);
                assert(p =~= id);
            }
        }
        assert(in_box(lo, hi, emb, id));
        lemma_box_sum_point(lo, hi, emb, emb, t, id, special_fn(f, k, w, r as int)(nu));
    }
    assert(giambelli_fn(f, k, w, mu) =~= special_fn(f, k, w, r as int));
}

/// The product by the class of a one-row partition `(r)` is multiplication by the special
/// class `sigma_r`: `product` and `multiply_by_special` agree.
pub proof fn law_product_by_one_row(f: spec_fn(Seq<u16>) -> int, k: nat, w: nat, r: u16)
    requires
        k >= 1,
        r <= w <= u16::MAX,
    ensures
        product_fn(f, class_fn(one_row(k, r)), k, w) == special_fn(f, k, w, r as int),
{
    let q = one_row(k, r);
    lemma_giambelli_one_row(f, k, w, r);
    assert forall|t: int| 0 <= t < rect_lo(k).len() implies 0 <= #[trigger] rect_lo(k)[t] && rect_hi(k, w)[t]
        <= u16::MAX by {}
    lemma_u16_embeds(rect_lo(k), rect_hi(k, w));
    assert(in_box(rect_lo(k), rect_hi(k, w), int_of_u16(), q)) by {
        assert forall|i: int| 0 <= i < q.len() implies rect_lo(k)[i] <= #[trigger] int_of_u16()(q[i]) <= rect_hi(k, w)[i] by {}
    }
    assert forall|nu: Seq<u16>| #[trigger] product_fn(f, class_fn(q), k, w)(nu) == special_fn(f, k, w, r as int)(nu) by {
        let t = |mu: Seq<u16>| class_fn(q)(mu) * giambelli_fn(f, k, w, mu)(nu);
        assert forall|mu: Seq<u16>| #[trigger] t(mu) == if mu == q { giambelli_fn(f, k, w, q)(nu) } else { 0 } by {}
        lemma_box_sum_point(rect_lo(k), rect_hi(k, w), u16_of(), int_of_u16(), t, q, giambelli_fn(f, k, w, q)(nu));
    }
    assert(product_fn(f, class_fn(q), k, w) =~= special_fn(f, k, w, r as int));
}

/// The unit class `sigma_()` is a right identity of the product.
pub proof fn law_product_right_unit(f: spec_fn(Seq<u16>) -> int, k: nat, w: nat)
    requires
        k >= 1,
        w <= u16::MAX,
    ensures
        product_fn(f, class_fn(zero_parts(k)), k, w) == f,
{
    law_product_by_one_row(f, k, w, 0);
    assert(one_row(k, 0) =~= zero_parts(k));
}

/// Multiplying by zero on the right gives zero.
pub proof fn law_product_right_zero(f: spec_fn(Seq<u16>) -> int, k: nat, w: nat)
    ensures
        product_fn(f, zero_fn(), k, w) == zero_fn(),
{
    assert forall|nu: Seq<u16>| #[trigger] product_fn(f, zero_fn(), k, w)(nu) == zero_fn()(nu) by {
        let t = |mu: Seq<u16>| zero_fn()(mu) * giambelli_fn(f, k, w, mu)(nu);
        assert forall|mu: Seq<u16>| #[trigger] t(mu) == 0 by {}
        lemma_box_sum_zero(rect_lo(k), rect_hi(k, w), u16_of(), t);
    }
    assert(product_fn(f, zero_fn(), k, w) =~= zero_fn());
}

proof fn lemma_chain_zero(k: nat, w: nat, rs: Seq<int>)
    ensures
        chain_fn(zero_fn(), k, w, rs) == zero_fn(),
    decreases rs.len(),
{
    if rs.len() > 0 {
        lemma_chain_zero(k, w, rs.drop_last());
        let r = rs.last();
        if r != 0 && !(r < 0 || r > w) {
            assert forall|nu: Seq<u16>| #[trigger] pieri_zero(k, w, r)(nu) == zero_fn()(nu) by {
                if nu.len() == k && crate::partition::fits_width(nu, w) {
                    let t = |lam: Seq<u16>| if crate::pieri::diff_sum(nu, lam, 0) == r { zero_fn()(lam) } else { 0 };
                    assert forall|lam: Seq<u16>| #[trigger] t(lam) == 0 by {}
                    lemma_box_sum_zero(crate::pieri::strip_lo(nu), crate::pieri::strip_hi(nu), u16_of(), t);
                }
            }
            assert(pieri_zero(k, w, r) =~= zero_fn());
        }
    }
}

spec fn pieri_zero(k: nat, w: nat, r: int) -> spec_fn(Seq<u16>) -> int {
    pieri_fn(zero_fn(), k, w, r)
}

/// Multiplying zero on the left gives zero.
pub proof fn law_product_left_zero(h: spec_fn(Seq<u16>) -> int, k: nat, w: nat)
    ensures
        product_fn(zero_fn(), h, k, w) == zero_fn(),
{
    assert forall|mu: Seq<u16>| #[trigger] giambelli_fn(zero_fn(), k, w, mu) == zero_fn() by {
        assert forall|nu: Seq<u16>| #[trigger] giambelli_fn(zero_fn(), k, w, mu)(nu) == zero_fn()(nu) by {
            let t = |p: Seq<int>| giambelli_term(zero_fn(), k, w, mu, p)(nu);
            assert forall|p: Seq<int>| #[trigger] t(p) == 0 by {
                lemma_chain_zero(k, w, giambelli_indices(mu, p));
            }
            lemma_box_sum_zero(Seq::new(k, |i: int| 0int), Seq::new(k, |i: int| k - 1), |v: int| v, t);
        }
        assert(giambelli_fn(zero_fn(), k, w, mu) =~= zero_fn());
    }
    assert forall|nu: Seq<u16>| #[trigger] product_fn(zero_fn(), h, k, w)(nu) == zero_fn()(nu) by {
        let t = |mu: Seq<u16>| h(mu) * giambelli_fn(zero_fn(), k, w, mu)(nu);
        assert forall|mu: Seq<u16>| #[trigger] t(mu) == 0 by {
            assert(giambelli_fn(zero_fn(), k, w, mu)(nu) == 0);
        }
        lemma_box_sum_zero(rect_lo(k), rect_hi(k, w), u16_of(), t);
    }
    assert(product_fn(zero_fn(), h, k, w) =~= zero_fn());
}

/// The product distributes over addition on the right: `f * (h1 + h2) == f * h1 + f * h2`.
pub proof fn law_product_right_additive(
    f: spec_fn(Seq<u16>) -> int,
    h1: spec_fn(Seq<u16>) -> int,
    h2: spec_fn(Seq<u16>) -> int,
    k: nat,
    w: nat,
)
    ensures
        product_fn(f, sum_fn(h1, h2), k, w) == sum_fn(product_fn(f, h1, k, w), product_fn(f, h2, k, w)),
{
    assert forall|nu: Seq<u16>| #[trigger] product_fn(f, sum_fn(h1, h2), k, w)(nu) == sum_fn(
        product_fn(f, h1, k, w),
        product_fn(f, h2, k, w),
    )(nu) by {
        let a = |mu: Seq<u16>| sum_fn(h1, h2)(mu) * giambelli_fn(f, k, w, mu)(nu);
        let b = |mu: Seq<u16>| h1(mu) * giambelli_fn(f, k, w, mu)(nu);
        let c = |mu: Seq<u16>| h2(mu) * giambelli_fn(f, k, w, mu)(nu);
        assert forall|mu: Seq<u16>| #[trigger] a(mu) == b(mu) + c(mu) by {
            let x = h1(mu);
            let y = h2(mu);
            let z = giambelli_fn(f, k, w, mu)(nu);
            assert((x + y) * z == x * z + y * z) by (nonlinear_arith);
        }
        lemma_box_sum_add(rect_lo(k), rect_hi(k, w), u16_of(), a, b, c);
    }
    assert(product_fn(f, sum_fn(h1, h2), k, w) =~= sum_fn(product_fn(f, h1, k, w), product_fn(f, h2, k, w)));
}

/// Pieri's rule on a basis class: the coefficient of `sigma_nu` in `sigma_lam * sigma_r` is
/// one when `nu / lam` is a horizontal strip of `r` boxes in the rectangle, zero otherwise.
pub proof fn law_pieri_on_class(k: nat, w: nat, lam: Seq<u16>, r: int, nu: Seq<u16>)
    requires
        lam.len() == k,
    ensures
        pieri_fn(class_fn(lam), k, w, r)(nu) == if is_strip(k, w, lam, nu, r) {
            1int
        } else {
            0int
        },
{
    crate::pieri::lemma_strip_box(k, w, lam, nu, r);
    if nu.len() == k && crate::partition::fits_width(nu, w) {
        let lo = crate::pieri::strip_lo(nu);
        let hi = crate::pieri::strip_hi(nu);
        assert forall|t: int| 0 <= t < lo.len() implies 0 <= #[trigger] lo[t] && hi[t] <= u16::MAX by {}
        lemma_u16_embeds(lo, hi);
        let y = if crate::pieri::diff_sum(nu, lam, 0) == r { 1int } else { 0int };
        let t = |x: Seq<u16>| if crate::pieri::diff_sum(nu, x, 0) == r { class_fn(lam)(x) } else { 0 };
        assert forall|x: Seq<u16>| #[trigger] t(x) == if x == lam { y } else { 0 } by {}
        lemma_box_sum_point(lo, hi, u16_of(), int_of_u16(), t, lam, y);
    }
}

proof fn lemma_special_additive(
    a: spec_fn(Seq<u16>) -> int,
    b: spec_fn(Seq<u16>) -> int,
    k: nat,
    w: nat,
    r: int,
)
    ensures
        special_fn(sum_fn(a, b), k, w, r) == sum_fn(special_fn(a, k, w, r), special_fn(b, k, w, r)),
{
    if r == 0 {
    } else if r < 0 || r > w {
        assert(sum_fn(zero_fn(), zero_fn()) =~= zero_fn());
    } else {
        assert forall|nu: Seq<u16>| #[trigger] pieri_fn(sum_fn(a, b), k, w, r)(nu) == sum_fn(
            pieri_fn(a, k, w, r),
            pieri_fn(b, k, w, r),
        )(nu) by {
            if nu.len() == k && crate::partition::fits_width(nu, w) {
                let lo = crate::pieri::strip_lo(nu);
                let hi = crate::pieri::strip_hi(nu);
                let fa = |lam: Seq<u16>| if crate::pieri::diff_sum(nu, lam, 0) == r { sum_fn(a, b)(lam) } else { 0 };
                let fb = |lam: Seq<u16>| if crate::pieri::diff_sum(nu, lam, 0) == r { a(lam) } else { 0 };
                let fc = |lam: Seq<u16>| if crate::pieri::diff_sum(nu, lam, 0) == r { b(lam) } else { 0 };
                assert forall|lam: Seq<u16>| #[trigger] fa(lam) == fb(lam) + fc(lam) by {}
                lemma_box_sum_add(lo, hi, u16_of(), fa, fb, fc);
            }
        }
        assert(pieri_fn(sum_fn(a, b), k, w, r) =~= sum_fn(
            pieri_fn(a, k, w, r),
            pieri_fn(b, k, w, r),
        ));
    }
}

proof fn lemma_chain_additive(
    a: spec_fn(Seq<u16>) -> int,
    b: spec_fn(Seq<u16>) -> int,
    k: nat,
    w: nat,
    rs: Seq<int>,
)
    ensures
        chain_fn(sum_fn(a, b), k, w, rs) == sum_fn(chain_fn(a, k, w, rs), chain_fn(b, k, w, rs)),
    decreases rs.len(),
{
    if rs.len() > 0 {
        lemma_chain_additive(a, b, k, w, rs.drop_last());
        lemma_special_additive(chain_fn(a, k, w, rs.drop_last()), chain_fn(b, k, w, rs.drop_last()), k, w, rs.last());
    }
}

proof fn lemma_giambelli_additive(
    a: spec_fn(Seq<u16>) -> int,
    b: spec_fn(Seq<u16>) -> int,
    k: nat,
    w: nat,
    mu: Seq<u16>,
)
    ensures
        giambelli_fn(sum_fn(a, b), k, w, mu) == sum_fn(giambelli_fn(a, k, w, mu), giambelli_fn(b, k, w, mu)),
{
    assert forall|nu: Seq<u16>| #[trigger] giambelli_fn(sum_fn(a, b), k, w, mu)(nu) == sum_fn(
        giambelli_fn(a, k, w, mu),
        giambelli_fn(b, k, w, mu),
    )(nu) by {
        let ta = |p: Seq<int>| giambelli_term(sum_fn(a, b), k, w, mu, p)(nu);
        let tb = |p: Seq<int>| giambelli_term(a, k, w, mu, p)(nu);
        let tc = |p: Seq<int>| giambelli_term(b, k, w, mu, p)(nu);
        assert forall|p: Seq<int>| #[trigger] ta(p) == tb(p) + tc(p) by {
            let rs = giambelli_indices(mu, p);
            lemma_chain_additive(a, b, k, w, rs);
            let s = perm_sign(p);
            let x = chain_fn(a, k, w, rs)(nu);
            let y = chain_fn(b, k, w, rs)(nu);
            assert(s * (x + y) == s * x + s * y) by (nonlinear_arith);
        }
        lemma_box_sum_add(Seq::new(k, |i: int| 0int), Seq::new(k, |i: int| k - 1), |v: int| v, ta, tb, tc);
    }
    assert(giambelli_fn(sum_fn(a, b), k, w, mu) =~= sum_fn(giambelli_fn(a, k, w, mu), giambelli_fn(b, k, w, mu)));
}

/// The product distributes over addition on the left: `(f1 + f2) * h == f1 * h + f2 * h`.
pub proof fn law_product_left_additive(
    f1: spec_fn(Seq<u16>) -> int,
    f2: spec_fn(Seq<u16>) -> int,
    h: spec_fn(Seq<u16>) -> int,
    k: nat,
    w: nat,
)
    ensures
        product_fn(sum_fn(f1, f2), h, k, w) == sum_fn(product_fn(f1, h, k, w), product_fn(f2, h, k, w)),
{
    assert forall|nu: Seq<u16>| #[trigger] product_fn(sum_fn(f1, f2), h, k, w)(nu) == sum_fn(
        product_fn(f1, h, k, w),
        product_fn(f2, h, k, w),
    )(nu) by {
        let a = |mu: Seq<u16>| h(mu) * giambelli_fn(sum_fn(f1, f2), k, w, mu)(nu);
        let b = |mu: Seq<u16>| h(mu) * giambelli_fn(f1, k, w, mu)(nu);
        let c = |mu: Seq<u16>| h(mu) * giambelli_fn(f2, k, w, mu)(nu);
        assert forall|mu: Seq<u16>| #[trigger] a(mu) == b(mu) + c(mu) by {
            lemma_giambelli_additive(f1, f2, k, w, mu);
            let x = giambelli_fn(f1, k, w, mu)(nu);
            let y = giambelli_fn(f2, k, w, mu)(nu);
            let z = h(mu);
            assert(z * (x + y) == z * x + z * y) by (nonlinear_arith);
        }
        lemma_box_sum_add(rect_lo(k), rect_hi(k, w), u16_of(), a, b, c);
    }
    assert(product_fn(sum_fn(f1, f2), h, k, w) =~= sum_fn(product_fn(f1, h, k, w), product_fn(f2, h, k, w)));
}

/// Littlewood-Richardson coefficients are never negative: they count tableaux.
pub proof fn law_lr_coefficient_nonnegative(k: nat, w: nat, lam: Seq<u16>, mu: Seq<u16>, nu: Seq<u16>)
    ensures
        lr_coefficient(k, w, lam, mu, nu) >= 0,
{
    lemma_completions_nonneg(reading_cells(lam, nu), mu_content(mu), Seq::empty());
}

/// Multiplying by the unit class `sigma_()` with the Littlewood-Richardson rule leaves an
/// expression with valid keys unchanged.
pub proof fn law_lr_right_unit(ts: Seq<(Seq<u16>, int)>, k: nat, w: nat)
    requires
        w <= u16::MAX,
        forall|i: int| 0 <= i < ts.len() ==> valid_parts(#[trigger] ts[i].0, k, w),
    ensures
        lr_fn(|x: Seq<u16>| lc_coeff(ts, x), k, w, zero_parts(k)) == (|x: Seq<u16>| lc_coeff(ts, x)),
{
    let f = |x: Seq<u16>| lc_coeff(ts, x);
    let lo = rect_lo(k);
    let hi = rect_hi(k, w);
    assert forall|t: int| 0 <= t < lo.len() implies 0 <= #[trigger] lo[t] && hi[t] <= u16::MAX by {}
    lemma_u16_embeds(lo, hi);
    assert forall|nu: Seq<u16>| #[trigger] lr_fn(f, k, w, zero_parts(k))(nu) == f(nu) by {
        let wt = lr_weight(k, w, zero_parts(k), nu);
        lemma_box_sum_terms(ts, lo, hi, wt);
        lemma_unit_weighted(ts, k, w, nu);
        assert((|lam: Seq<u16>| f(lam) * lr_coefficient(k, w, lam, zero_parts(k), nu)) =~= (|x: Seq<u16>| lc_coeff(ts, x)
            * wt(x)));
    }
    assert(lr_fn(f, k, w, zero_parts(k)) =~= f);
}

/// With valid keys, weighting each term by `c^nu_{lam,(r)}` sums the coefficients of the
/// terms under the horizontal strips of `r` boxes below `nu`.
proof fn lemma_strip_weighted_lr(ts: Seq<(Seq<u16>, int)>, k: nat, w: nat, r: u16, nu: Seq<u16>)
    requires
        k >= 1,
        forall|i: int| 0 <= i < ts.len() ==> valid_parts(#[trigger] ts[i].0, k, w),
    ensures
        box_weighted(ts, rect_lo(k), rect_hi(k, w), lr_weight(k, w, one_row(k, r), nu)) == strip_weighted(
            ts,
            k,
            w,
            r as int,
            nu,
        ),
    decreases ts.len(),
{
    if ts.len() > 0 {
        let t = ts.last();
        assert(valid_parts(ts[ts.len() - 1].0, k, w));
        assert forall|i: int| 0 <= i < ts.drop_last().len() implies valid_parts(#[trigger] ts.drop_last()[i].0, k, w) by {
            assert(ts.drop_last()[i] == ts[i]);
        }
        lemma_strip_weighted_lr(ts.drop_last(), k, w, r, nu);
        let mu = one_row(k, r);
        assert forall|i: int| 1 <= i < k implies #[trigger] mu[i] == 0 by {}
        lemma_lr_one_row_coefficient(k, w, t.0, mu, nu);
        assert(in_box(rect_lo(k), rect_hi(k, w), int_of_u16(), t.0));
    }
}

/// The Littlewood-Richardson rule agrees with Pieri's rule: multiplying an expression with
/// valid keys by the one-row class `sigma_(r)` with the LR rule is multiplication by the
/// special class `sigma_r`.
pub proof fn law_lr_agrees_with_pieri(ts: Seq<(Seq<u16>, int)>, k: nat, w: nat, r: u16)
    requires
        k >= 1,
        r <= w <= u16::MAX,
        forall|i: int| 0 <= i < ts.len() ==> valid_parts(#[trigger] ts[i].0, k, w),
    ensures
        lr_fn(|x: Seq<u16>| lc_coeff(ts, x), k, w, one_row(k, r)) == special_fn(
            |x: Seq<u16>| lc_coeff(ts, x),
            k,
            w,
            r as int,
        ),
{
    let f = |x: Seq<u16>| lc_coeff(ts, x);
    if r == 0 {
        assert(one_row(k, r) =~= zero_parts(k));
        law_lr_right_unit(ts, k, w);
    } else {
        let lo = rect_lo(k);
        let hi = rect_hi(k, w);
        let mu = one_row(k, r);
        assert forall|t: int| 0 <= t < lo.len() implies 0 <= #[trigger] lo[t] && hi[t] <= u16::MAX by {}
        lemma_u16_embeds(lo, hi);
        assert forall|nu: Seq<u16>| #[trigger] lr_fn(f, k, w, mu)(nu) == pieri_fn(f, k, w, r as int)(nu) by {
            let wt = lr_weight(k, w, mu, nu);
            lemma_box_sum_terms(ts, lo, hi, wt);
            assert((|lam: Seq<u16>| f(lam) * lr_coefficient(k, w, lam, mu, nu)) =~= (|x: Seq<u16>| lc_coeff(ts, x)
                * wt(x)));
            lemma_strip_weighted_lr(ts, k, w, r, nu);
            assert forall|i: int| 0 <= i < ts.len() implies (#[trigger] ts[i].0).len() == k by {
                assert(valid_parts(ts[i].0, k, w));
            }
            lemma_strip_weighted_pieri(ts, f, k, w, r as int, nu);
        }
        assert(lr_fn(f, k, w, mu) =~= pieri_fn(f, k, w, r as int));
    }
}

/// The coefficient function of `sigma_(e)` in `Gr(1, w + 1)`: the class of a linear subspace
/// of codimension `e`, zero past the point class.
pub open spec fn projective_class(w: nat, e: nat) -> spec_fn(Seq<u16>) -> int {
    if e <= w {
        class_fn(seq![e as u16])
    } else {
        zero_fn()
    }
}

/// In projective space `sigma_(a) * sigma_(b) = sigma_(a+b)`, zero past the point class.
proof fn lemma_projective_product(w: nat, a: nat, b: nat)
    requires
        w <= u16::MAX,
    ensures
        product_fn(projective_class(w, a), projective_class(w, b), 1, w) == projective_class(w, a + b),
{
    if b > w {
        law_product_right_zero(projective_class(w, a), 1, w);
    } else if a > w {
        law_product_left_zero(projective_class(w, b), 1, w);
    } else {
        let lam = seq![a as u16];
        assert(seq![b as u16] =~= one_row(1, b as u16));
        law_product_by_one_row(class_fn(lam), 1, w, b as u16);
        if b > 0 {
            assert forall|nu: Seq<u16>| #[trigger] special_fn(class_fn(lam), 1, w, b as int)(nu) == projective_class(
                w,
                a + b,
            )(nu) by {
                law_pieri_on_class(1, w, lam, b as int, nu);
                if nu.len() == 1 {
                    assert(crate::pieri::diff_sum(nu, lam, 1) == 0);
                    assert(crate::pieri::diff_sum(nu, lam, 0) == nu[0] - a);
                    if a + b <= w {
                        if nu[0] == a + b {
                            assert(nu =~= seq![(a + b) as u16]);
                        }
                    }
                }
            }
            assert(special_fn(class_fn(lam), 1, w, b as int) =~= projective_class(w, a + b));
        }
    }
}

/// Binary powering stays among the classes of projective space: `sigma_(x) * sigma_(y)^e`
/// is `sigma_(x + y e)`.
proof fn lemma_projective_binary_power(w: nat, x: nat, y: nat, e: nat)
    requires
        w <= u16::MAX,
    ensures
        binary_power(projective_class(w, x), projective_class(w, y), e, 1, w) == projective_class(w, x + y * e),
    decreases e,
{
    if e == 0 {
        assert(y * e == 0) by (nonlinear_arith)
            requires
                e == 0,
        ;
    } else {
        let x2: nat = if e % 2 == 1 { x + y } else { x };
        if e % 2 == 1 {
            lemma_projective_product(w, x, y);
        }
        lemma_projective_product(w, y, y);
        if e / 2 > 0 {
            lemma_projective_binary_power(w, x2, y + y, e / 2);
        }
        assert(x2 + (y + y) * (e / 2) == x + y * e) by (nonlinear_arith)
            requires
                x2 == if e % 2 == 1 { x + y } else { x },
                e > 0,
        ;
        assert(e / 2 == 0 ==> x2 == x + y * e) by (nonlinear_arith)
            requires
                x2 == if e % 2 == 1 { x + y } else { x },
                e > 0,
        ;
    }
}

/// `Gr(1, n)` is projective space: the powers `h^e` of the hyperplane class `h = sigma_(1)`
/// (a class of `Gr(1, n)` for `n >= 2`) are the classes `sigma_(e)` for `e <= n - 1` and
/// vanish from `e = n` on, so the Schubert ring is `Z[h] / (h^n)`.
pub proof fn law_projective_space_powers(w: nat, e: nat)
    requires
        1 <= w <= u16::MAX,
    ensures
        pow_fn(class_fn(seq![1u16]), e, 1, w) == projective_class(w, e),
{
    assert(zero_parts(1) =~= seq![0u16]);
    assert(seq![(0nat) as u16] =~= seq![0u16]);
    assert(seq![(1nat) as u16] =~= seq![1u16]);
    assert(projective_class(w, 0) == class_fn(zero_parts(1)));
    assert(projective_class(w, 1) == class_fn(seq![1u16]));
    lemma_projective_binary_power(w, 0, 1, e);
    assert(0 + 1 * e == e);
}

/// In projective space `Gr(1, w + 1)` the product of Schubert classes is commutative.
pub proof fn law_projective_commutative(w: nat, a: nat, b: nat)
    requires
        w <= u16::MAX,
    ensures
        product_fn(projective_class(w, a), projective_class(w, b), 1, w) == product_fn(
            projective_class(w, b),
            projective_class(w, a),
            1,
            w,
        ),
{
    lemma_projective_product(w, a, b);
    lemma_projective_product(w, b, a);
}

/// In projective space `Gr(1, w + 1)` the product of Schubert classes is associative.
pub proof fn law_projective_associative(w: nat, a: nat, b: nat, c: nat)
    requires
        w <= u16::MAX,
    ensures
        product_fn(product_fn(projective_class(w, a), projective_class(w, b), 1, w), projective_class(w, c), 1, w)
            == product_fn(projective_class(w, a), product_fn(projective_class(w, b), projective_class(w, c), 1, w), 1, w),
{
    lemma_projective_product(w, a, b);
    lemma_projective_product(w, a + b, c);
    lemma_projective_product(w, b, c);
    lemma_projective_product(w, a, b + c);
    assert(a + b + c == a + (b + c));
}

/// Poincare duality in projective space `Gr(1, w + 1)`: the coefficient of the point class
/// `sigma_(w)` in `sigma_(a) * sigma_(b)` is one when `a + b == w` and zero otherwise.
pub proof fn law_projective_duality(w: nat, a: nat, b: nat)
    requires
        w <= u16::MAX,
    ensures
        product_fn(projective_class(w, a), projective_class(w, b), 1, w)(seq![w as u16]) == if a + b == w {
            1int
        } else {
            0int
        },
{
    lemma_projective_product(w, a, b);
    if a + b <= w && a + b != w {
        assert(seq![(a + b) as u16][0] != seq![w as u16][0]);
    }
}

/// Multiplications by special classes commute: multiplying an expression with valid keys by
/// `sigma_a` and then by `sigma_b` gives the same as multiplying by `sigma_b` and then by `sigma_a`.
pub proof fn law_special_commute(ts: Seq<(Seq<u16>, int)>, k: nat, w: nat, a: int, b: int)
    requires
        k >= 1,
        w <= u16::MAX,
        forall|i: int| 0 <= i < ts.len() ==> valid_parts(#[trigger] ts[i].0, k, w),
    ensures
        special_fn(special_fn(|x: Seq<u16>| lc_coeff(ts, x), k, w, a), k, w, b) == special_fn(
            special_fn(|x: Seq<u16>| lc_coeff(ts, x), k, w, b),
            k,
            w,
            a,
        ),
{
    let f = |x: Seq<u16>| lc_coeff(ts, x);
    let a_in = 1 <= a <= w;
    let b_in = 1 <= b <= w;
    if a != 0 && b != 0 {
        if a_in && b_in {
            lemma_pieri_pair_commute(ts, k, w, a, b);
        } else {
            lemma_pieri_zero(k, w, a);
            lemma_pieri_zero(k, w, b);
        }
    }
}

/// `sigma_(a)` is `sigma_a` applied to the unit class.
pub(crate) proof fn lemma_one_row_class(k: nat, w: nat, a: u16)
    requires
        k >= 1,
        a <= w,
    ensures
        class_fn(one_row(k, a)) == special_fn(class_fn(zero_parts(k)), k, w, a as int),
{
    let z = zero_parts(k);
    let q = one_row(k, a);
    if a == 0 {
        assert(q =~= z);
    } else {
        assert forall|nu: Seq<u16>| #[trigger] pieri_fn(class_fn(z), k, w, a as int)(nu) == class_fn(q)(nu) by {
            law_pieri_on_class(k, w, z, a as int, nu);
            lemma_zero_parts_sum(k);
            if nu.len() == k {
                lemma_diff_is_part_sums(k, z, nu);
            }
            if is_strip(k, w, z, nu, a as int) {
                assert forall|i: int| 1 <= i < k implies #[trigger] nu[i] == 0 by {
                    assert(nu[i] <= z[i - 1]);
                }
                lemma_one_row_sum(nu, k);
                assert(nu =~= q);
            }
            if nu == q {
                assert forall|i: int| 1 <= i < k implies #[trigger] q[i] == 0 by {}
                lemma_one_row_sum(q, k);
                assert(is_strip(k, w, z, nu, a as int));
            }
        }
        assert(pieri_fn(class_fn(z), k, w, a as int) =~= class_fn(q));
    }
}

/// Special Schubert classes commute: `sigma_(a) * sigma_(b) == sigma_(b) * sigma_(a)` for the
/// one-row classes of the rectangle.
pub proof fn law_one_row_classes_commute(k: nat, w: nat, a: u16, b: u16)
    requires
        k >= 1,
        a <= w,
        b <= w <= u16::MAX,
    ensures
        product_fn(class_fn(one_row(k, a)), class_fn(one_row(k, b)), k, w) == product_fn(
            class_fn(one_row(k, b)),
            class_fn(one_row(k, a)),
            k,
            w,
        ),
{
    let z = zero_parts(k);
    let ts = seq![(z, 1int)];
    law_product_by_one_row(class_fn(one_row(k, a)), k, w, b);
    law_product_by_one_row(class_fn(one_row(k, b)), k, w, a);
    lemma_one_row_class(k, w, a);
    lemma_one_row_class(k, w, b);
    assert forall|x: Seq<u16>| #[trigger] lc_coeff(ts, x) == class_fn(z)(x) by {
        crate::terms::lemma_lc_single((z, 1int), x);
    }
    assert((|x: Seq<u16>| lc_coeff(ts, x)) =~= class_fn(z));
    assert(valid_parts(ts[0].0, k, w));
    law_special_commute(ts, k, w, a as int, b as int);
}

/// The unit class is a left identity for the special classes: `sigma_() * sigma_(r) == sigma_(r)`.
pub proof fn law_unit_times_one_row(k: nat, w: nat, r: u16)
    requires
        k >= 1,
        r <= w <= u16::MAX,
    ensures
        product_fn(class_fn(zero_parts(k)), class_fn(one_row(k, r)), k, w) == class_fn(one_row(k, r)),
{
    law_product_by_one_row(class_fn(zero_parts(k)), k, w, r);
    lemma_one_row_class(k, w, r);
}

/// The unit class `sigma_()` times `sigma_mu` is `sigma_mu` with the Littlewood-Richardson rule:
/// the only LR tableau of a straight shape is the one whose row `i` holds the label `i`.
pub proof fn law_lr_left_unit(k: nat, w: nat, mu: Seq<u16>)
    requires
        k <= usize::MAX,
        w <= u16::MAX,
        valid_parts(mu, k, w),
    ensures
        lr_fn(class_fn(zero_parts(k)), k, w, mu) == class_fn(mu),
{
    let z = zero_parts(k);
    let lo = rect_lo(k);
    let hi = rect_hi(k, w);
    assert forall|t: int| 0 <= t < lo.len() implies 0 <= #[trigger] lo[t] && hi[t] <= u16::MAX by {}
    lemma_u16_embeds(lo, hi);
    assert(in_box(lo, hi, int_of_u16(), z)) by {
        assert forall|i: int| 0 <= i < z.len() implies lo[i] <= #[trigger] int_of_u16()(z[i]) <= hi[i] by {}
    }
    assert forall|nu: Seq<u16>| #[trigger] lr_fn(class_fn(z), k, w, mu)(nu) == class_fn(mu)(nu) by {
        let y = lr_coefficient(k, w, z, mu, nu);
        let t = |lam: Seq<u16>| class_fn(z)(lam) * lr_coefficient(k, w, lam, mu, nu);
        assert forall|x: Seq<u16>| #[trigger] t(x) == if x == z { y } else { 0 } by {}
        lemma_box_sum_point(lo, hi, u16_of(), int_of_u16(), t, z, y);
        lemma_lr_left_unit_coefficient(k, w, mu, nu);
    }
    assert(lr_fn(class_fn(z), k, w, mu) =~= class_fn(mu));
}

/// In a Grassmannian of planes `Gr(2, n)` the unit class is a left identity of the product:
/// `sigma_() * h == h` for every expression `h` on the partitions of the rectangle.
pub proof fn law_two_rows_left_unit(w: nat, h: spec_fn(Seq<u16>) -> int)
    requires
        w <= u16::MAX,
        forall|x: Seq<u16>| #[trigger] h(x) != 0 ==> valid_parts(x, 2, w),
    ensures
        product_fn(class_fn(zero_parts(2)), h, 2, w) == h,
{
    lemma_left_unit_small(2, w, h);
}

/// In `Gr(2, n)` the first power of an expression is the expression itself.
pub proof fn law_two_rows_pow_one(w: nat, h: spec_fn(Seq<u16>) -> int)
    requires
        w <= u16::MAX,
        forall|x: Seq<u16>| #[trigger] h(x) != 0 ==> valid_parts(x, 2, w),
    ensures
        pow_fn(h, 1, 2, w) == h,
{
    law_two_rows_left_unit(w, h);
    assert(pow_fn(h, 1, 2, w) == binary_power(class_fn(zero_parts(2)), h, 1, 2, w));
    assert(1nat % 2 == 1 && 1nat / 2 == 0);
}

/// In a Grassmannian of planes `Gr(2, n)` the product is commutative: `f * h == h * f` for
/// all expressions `f` and `h` on the partitions of the rectangle.
pub proof fn law_two_rows_commutative(w: nat, f: spec_fn(Seq<u16>) -> int, h: spec_fn(Seq<u16>) -> int)
    requires
        w <= u16::MAX,
        forall|x: Seq<u16>| #[trigger] f(x) != 0 ==> valid_parts(x, 2, w),
        forall|x: Seq<u16>| #[trigger] h(x) != 0 ==> valid_parts(x, 2, w),
    ensures
        product_fn(f, h, 2, w) == product_fn(h, f, 2, w),
{
    lemma_commutative_small(2, w, f, h);
}

/// In `Gr(2, n)` the product of two expressions with no negative coefficient has no negative
/// coefficient: the structure constants are nonnegative.
pub proof fn law_two_rows_nonnegative(w: nat, f: spec_fn(Seq<u16>) -> int, h: spec_fn(Seq<u16>) -> int, nu: Seq<u16>)
    requires
        w <= u16::MAX,
        forall|x: Seq<u16>| #[trigger] f(x) != 0 ==> valid_parts(x, 2, w),
        forall|x: Seq<u16>| #[trigger] h(x) != 0 ==> valid_parts(x, 2, w),
        forall|x: Seq<u16>| #[trigger] f(x) >= 0,
        forall|x: Seq<u16>| #[trigger] h(x) >= 0,
    ensures
        product_fn(f, h, 2, w)(nu) >= 0,
{
    lemma_nonnegative_small(2, w, f, h, nu);
}

/// Poincare duality in `Gr(2, n)`, `w = n - 2`: the coefficient of the point class
/// `sigma_(w,w)` in `sigma_lam * sigma_mu` is one when `mu` is the complement
/// `(w - lam[1], w - lam[0])` of `lam` in the rectangle, and zero otherwise.
pub proof fn law_two_rows_duality(w: nat, lam: Seq<u16>, mu: Seq<u16>)
    requires
        w <= u16::MAX,
        valid_parts(lam, 2, w),
        valid_parts(mu, 2, w),
    ensures
        product_fn(class_fn(lam), class_fn(mu), 2, w)(seq![w as u16, w as u16]) == if mu[0] == w - lam[1] && mu[1]
            == w - lam[0] {
            1int
        } else {
            0int
        },
{
    lemma_duality_two(w, lam, mu);
}

/// Multiplications on the right commute in every Grassmannian: `(f * y) * z == (f * z) * y`
/// for every expression `f` on the partitions of the rectangle and all `y`, `z`.
pub proof fn law_right_products_commute(
    f: spec_fn(Seq<u16>) -> int,
    y: spec_fn(Seq<u16>) -> int,
    z: spec_fn(Seq<u16>) -> int,
    k: nat,
    w: nat,
)
    requires
        k >= 1,
        w <= u16::MAX,
        forall|x: Seq<u16>| #[trigger] f(x) != 0 ==> valid_parts(x, k, w),
    ensures
        product_fn(product_fn(f, y, k, w), z, k, w) == product_fn(product_fn(f, z, k, w), y, k, w),
{
    lemma_right_products_commute(f, y, z, k, w);
}

/// In a Grassmannian of planes `Gr(2, n)` the product is associative:
/// `(f * h) * g == f * (h * g)` for all expressions on the partitions of the rectangle.
pub proof fn law_two_rows_associative(
    w: nat,
    f: spec_fn(Seq<u16>) -> int,
    h: spec_fn(Seq<u16>) -> int,
    g: spec_fn(Seq<u16>) -> int,
)
    requires
        w <= u16::MAX,
        forall|x: Seq<u16>| #[trigger] f(x) != 0 ==> valid_parts(x, 2, w),
        forall|x: Seq<u16>| #[trigger] h(x) != 0 ==> valid_parts(x, 2, w),
        forall|x: Seq<u16>| #[trigger] g(x) != 0 ==> valid_parts(x, 2, w),
    ensures
        product_fn(product_fn(f, h, 2, w), g, 2, w) == product_fn(f, product_fn(h, g, 2, w), 2, w),
{
    lemma_associative_small(2, w, f, h, g);
}

/// In `Gr(2, n)` `pow` is the repeated product: `f^e == (..((1 * f) * f) ..) * f`.
pub proof fn law_two_rows_pow_is_repeated_product(w: nat, f: spec_fn(Seq<u16>) -> int, e: nat)
    requires
        w <= u16::MAX,
        forall|x: Seq<u16>| #[trigger] f(x) != 0 ==> valid_parts(x, 2, w),
    ensures
        pow_fn(f, e, 2, w) == repeated_power(f, e, 2, w),
{
    lemma_pow_repeated(f, e, 2, w);
}

/// In `Gr(2, n)` exponents add: `f^(a + b) == f^a * f^b`.
pub proof fn law_two_rows_pow_add(w: nat, f: spec_fn(Seq<u16>) -> int, a: nat, b: nat)
    requires
        w <= u16::MAX,
        forall|x: Seq<u16>| #[trigger] f(x) != 0 ==> valid_parts(x, 2, w),
    ensures
        pow_fn(f, a + b, 2, w) == product_fn(pow_fn(f, a, 2, w), pow_fn(f, b, 2, w), 2, w),
{
    lemma_pow_add(f, a, b, 2, w);
}

/// The product is bilinear over the basis: the coefficient of `sigma_nu` in `f * h` is the sum
/// over the partitions `lam`, `mu` of the rectangle of `f(lam) * h(mu)` times the coefficient
/// of `sigma_nu` in `sigma_lam * sigma_mu`.
pub proof fn law_product_expansion(
    f: spec_fn(Seq<u16>) -> int,
    h: spec_fn(Seq<u16>) -> int,
    k: nat,
    w: nat,
    nu: Seq<u16>,
)
    requires
        w <= u16::MAX,
        forall|x: Seq<u16>| #[trigger] f(x) != 0 ==> valid_parts(x, k, w),
    ensures
        product_fn(f, h, k, w)(nu) == rect_sum(
            k,
            w,
            |mu: Seq<u16>|
                rect_sum(
                    k,
                    w,
                    |lam: Seq<u16>| f(lam) * h(mu) * product_fn(class_fn(lam), class_fn(mu), k, w)(nu),
                ),
        ),
{
    lemma_valid_in_rect(f, k, w);
    lemma_product_expand(f, h, k, w, nu);
}

/// In projective space `Gr(1, n)` the unit class is a left identity of the product:
/// `sigma_() * h == h` for every expression `h` on the partitions of the rectangle.
pub proof fn law_projective_left_unit(w: nat, h: spec_fn(Seq<u16>) -> int)
    requires
        w <= u16::MAX,
        forall|x: Seq<u16>| #[trigger] h(x) != 0 ==> valid_parts(x, 1, w),
    ensures
        product_fn(class_fn(zero_parts(1)), h, 1, w) == h,
{
    lemma_left_unit_small(1, w, h);
}

/// In `Gr(1, n)` the product of expressions is commutative: `f * h == h * f`.
pub proof fn law_projective_expressions_commute(w: nat, f: spec_fn(Seq<u16>) -> int, h: spec_fn(Seq<u16>) -> int)
    requires
        w <= u16::MAX,
        forall|x: Seq<u16>| #[trigger] f(x) != 0 ==> valid_parts(x, 1, w),
        forall|x: Seq<u16>| #[trigger] h(x) != 0 ==> valid_parts(x, 1, w),
    ensures
        product_fn(f, h, 1, w) == product_fn(h, f, 1, w),
{
    lemma_commutative_small(1, w, f, h);
}

/// In `Gr(1, n)` the product of expressions is associative: `(f * h) * g == f * (h * g)`.
pub proof fn law_projective_expressions_associate(
    w: nat,
    f: spec_fn(Seq<u16>) -> int,
    h: spec_fn(Seq<u16>) -> int,
    g: spec_fn(Seq<u16>) -> int,
)
    requires
        w <= u16::MAX,
        forall|x: Seq<u16>| #[trigger] f(x) != 0 ==> valid_parts(x, 1, w),
        forall|x: Seq<u16>| #[trigger] h(x) != 0 ==> valid_parts(x, 1, w),
        forall|x: Seq<u16>| #[trigger] g(x) != 0 ==> valid_parts(x, 1, w),
    ensures
        product_fn(product_fn(f, h, 1, w), g, 1, w) == product_fn(f, product_fn(h, g, 1, w), 1, w),
{
    lemma_associative_small(1, w, f, h, g);
}

/// In `Gr(1, n)` the product of two expressions with no negative coefficient has no negative
/// coefficient.
pub proof fn law_projective_nonnegative(w: nat, f: spec_fn(Seq<u16>) -> int, h: spec_fn(Seq<u16>) -> int, nu: Seq<u16>)
    requires
        w <= u16::MAX,
        forall|x: Seq<u16>| #[trigger] f(x) != 0 ==> valid_parts(x, 1, w),
        forall|x: Seq<u16>| #[trigger] h(x) != 0 ==> valid_parts(x, 1, w),
        forall|x: Seq<u16>| #[trigger] f(x) >= 0,
        forall|x: Seq<u16>| #[trigger] h(x) >= 0,
    ensures
        product_fn(f, h, 1, w)(nu) >= 0,
{
    lemma_nonnegative_small(1, w, f, h, nu);
}

/// In `Gr(1, n)` `pow` is the repeated product, and exponents add: `f^(a + b) == f^a * f^b`.
pub proof fn law_projective_pow_add(w: nat, f: spec_fn(Seq<u16>) -> int, a: nat, b: nat)
    requires
        w <= u16::MAX,
        forall|x: Seq<u16>| #[trigger] f(x) != 0 ==> valid_parts(x, 1, w),
    ensures
        pow_fn(f, a, 1, w) == repeated_power(f, a, 1, w),
        pow_fn(f, a + b, 1, w) == product_fn(pow_fn(f, a, 1, w), pow_fn(f, b, 1, w), 1, w),
{
    lemma_pow_repeated(f, a, 1, w);
    lemma_pow_add(f, a, b, 1, w);
}

/// The product respects the grading in every Grassmannian: when every class in `f` has `a`
/// boxes and every class in `h` has `b` boxes, every class in `f * h` has `a + b` boxes.
pub proof fn law_product_adds_degrees(
    f: spec_fn(Seq<u16>) -> int,
    h: spec_fn(Seq<u16>) -> int,
    k: nat,
    w: nat,
    a: int,
    b: int,
)
    requires
        w <= u16::MAX,
        forall|x: Seq<u16>| #[trigger] f(x) != 0 ==> part_sum(x) == a,
        forall|x: Seq<u16>| #[trigger] h(x) != 0 ==> part_sum(x) == b,
    ensures
        forall|x: Seq<u16>| #[trigger] product_fn(f, h, k, w)(x) != 0 ==> part_sum(x) == a + b,
{
    lemma_product_degree(f, h, k, w, a, b);
}

/// Powers respect the grading in every Grassmannian: when every class in `f` has `d` boxes,
/// every class in `f^e` has `e * d` boxes.
pub proof fn law_pow_multiplies_degree(f: spec_fn(Seq<u16>) -> int, e: nat, k: nat, w: nat, d: int)
    requires
        w <= u16::MAX,
        forall|x: Seq<u16>| #[trigger] f(x) != 0 ==> part_sum(x) == d,
    ensures
        forall|x: Seq<u16>| #[trigger] pow_fn(f, e, k, w)(x) != 0 ==> part_sum(x) == e * d,
{
    lemma_pow_degree(f, e, k, w, d);
}

/// Giambelli's determinant `sigma_mu = det(sigma_(mu[i] + j - i))`: the term of the
/// permutation `p` multiplies in turn by `sigma_(mu[i] + p[i] - i)` for the rows `i`, with the
/// sign of `p`, and vanishes when one of these indices lies outside `0..=w`.
pub proof fn law_giambelli_term_entries(
    f: spec_fn(Seq<u16>) -> int,
    k: nat,
    w: nat,
    mu: Seq<u16>,
    p: Seq<int>,
    nu: Seq<u16>,
)
    requires
        mu.len() == k,
        is_perm(p, k),
    ensures
        giambelli_term(f, k, w, mu, p)(nu) == if forall|i: int| 0 <= i < k ==> 0 <= #[trigger] (mu[i] + p[i] - i) <= w {
            perm_sign(p) * chain_fn(f, k, w, Seq::new(k, |i: int| mu[i] + p[i] - i))(nu)
        } else {
            0
        },
{
    let rs = giambelli_indices(mu, p);
    assert(rs =~= Seq::new(k, |i: int| mu[i] + p[i] - i));
    if forall|i: int| 0 <= i < k ==> 0 <= #[trigger] (mu[i] + p[i] - i) <= w {
        assert(indices_in_range(rs, w)) by {
            assert forall|i: int| 0 <= i < rs.len() implies 0 <= #[trigger] rs[i] <= w by {
                assert(rs[i] == mu[i] + p[i] - i);
            }
        }
    } else {
        let i = choose|i: int| 0 <= i < k && !(0 <= #[trigger] (mu[i] + p[i] - i) <= w);
        assert(rs[i] == mu[i] + p[i] - i);
        assert(!indices_in_range(rs, w));
    }
}

} // verus!
