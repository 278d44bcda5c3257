//! The ring laws in the Grassmannians with one or two rows, `Gr(1,n)` and `Gr(2,n)`, where
//! Giambelli's determinant sends the unit class to the class of the partition.
use vstd::prelude::*;

use crate::associativity::{lemma_product_on_partitions, lemma_right_products_commute, on_partitions};
use crate::bilinear::{lemma_commute_from_classes, lemma_nonnegative_from_classes};
use crate::expr::{class_fn, product_fn, rect_hi, rect_lo};
use crate::giambelli::giambelli_fn;
use crate::laws::{
    law_one_row_classes_commute, law_pieri_on_class, law_product_by_one_row, lemma_giambelli_one_row,
    lemma_one_row_class, one_row,
};
use crate::partition::{valid_parts, zero_parts};
use crate::sums::{in_box, lemma_box_sum_point};
use crate::terms::{int_of_u16, lemma_u16_embeds, u16_of};
use crate::two_rows::{lemma_class_product_nonnegative_two, lemma_classes_commute_two, lemma_giambelli_unit_two};

verus! {

/// With one row every partition is a one-row partition.
proof fn lemma_one_row_shape(w: nat, mu: Seq<u16>)
    requires
        valid_parts(mu, 1, w),
    ensures
        mu == one_row(1, mu[0]),
        mu[0] <= w,
{
    assert(mu =~= one_row(1, mu[0]));
}

/// Giambelli's determinant applied to the unit class is the class of the partition, for one
/// or two rows.
pub proof fn lemma_unit_on_class_small(k: nat, w: nat, mu: Seq<u16>)
    requires
        1 <= k <= 2,
        w <= u16::MAX,
        valid_parts(mu, k, w),
    ensures
        giambelli_fn(class_fn(zero_parts(k)), k, w, mu) == class_fn(mu),
{
    if k == 2 {
        lemma_giambelli_unit_two(w, mu);
    } else {
        lemma_one_row_shape(w, mu);
        lemma_giambelli_one_row(class_fn(zero_parts(1)), 1, w, mu[0]);
        lemma_one_row_class(1, w, mu[0]);
    }
}

/// The unit class is a left identity of the product, for one or two rows.
pub proof fn lemma_left_unit_small(k: nat, w: nat, h: spec_fn(Seq<u16>) -> int)
    requires
        1 <= k <= 2,
        w <= u16::MAX,
        on_partitions(h, k, w),
    ensures
        product_fn(class_fn(zero_parts(k)), h, k, w) == h,
{
    let f = class_fn(zero_parts(k));
    let lo = rect_lo(k);
    let hi = rect_hi(k, w);
    assert forall|t: int| 0 <= t < lo.len() implies 0 <= #[trigger] lo[t] && hi[t] <= u16::MAX by {}
    lemma_u16_embeds(lo, hi);
    assert forall|nu: Seq<u16>| #[trigger] product_fn(f, h, k, w)(nu) == h(nu) by {
        let t = |mu: Seq<u16>| h(mu) * giambelli_fn(f, k, w, mu)(nu);
        assert forall|mu: Seq<u16>| #[trigger] t(mu) == if mu == nu { h(nu) } else { 0 } by {
            if h(mu) != 0 {
                lemma_unit_on_class_small(k, w, mu);
                assert(giambelli_fn(f, k, w, mu)(nu) == class_fn(mu)(nu));
            }
        }
        lemma_box_sum_point(lo, hi, u16_of(), int_of_u16(), t, nu, h(nu));
        if h(nu) != 0 {
            assert(valid_parts(nu, k, w));
            assert(in_box(lo, hi, int_of_u16(), nu)) by {
                assert forall|i: int| 0 <= i < nu.len() implies lo[i] <= #[trigger] int_of_u16()(nu[i]) <= hi[i] by {}
            }
        }
    }
    assert(product_fn(f, h, k, w) =~= h);
}

proof fn lemma_classes_commute_small(k: nat, w: nat, lam: Seq<u16>, mu: Seq<u16>)
    requires
        1 <= k <= 2,
        w <= u16::MAX,
        valid_parts(lam, k, w),
        valid_parts(mu, k, w),
    ensures
        product_fn(class_fn(lam), class_fn(mu), k, w) == product_fn(class_fn(mu), class_fn(lam), k, w),
{
    if k == 2 {
        lemma_classes_commute_two(w, lam, mu);
    } else {
        lemma_one_row_shape(w, lam);
        lemma_one_row_shape(w, mu);
        law_one_row_classes_commute(1, w, lam[0], mu[0]);
    }
}

proof fn lemma_class_product_nonnegative_small(k: nat, w: nat, lam: Seq<u16>, mu: Seq<u16>, nu: Seq<u16>)
    requires
        1 <= k <= 2,
        w <= u16::MAX,
        valid_parts(lam, k, w),
        valid_parts(mu, k, w),
    ensures
        product_fn(class_fn(lam), class_fn(mu), k, w)(nu) >= 0,
{
    if k == 2 {
        lemma_class_product_nonnegative_two(w, lam, mu, nu);
    } else {
        lemma_one_row_shape(w, mu);
        law_product_by_one_row(class_fn(lam), 1, w, mu[0]);
        if mu[0] != 0 {
            law_pieri_on_class(1, w, lam, mu[0] as int, nu);
        }
    }
}

/// The product is commutative, for one or two rows.
pub proof fn lemma_commutative_small(k: nat, w: nat, f: spec_fn(Seq<u16>) -> int, h: spec_fn(Seq<u16>) -> int)
    requires
        1 <= k <= 2,
        w <= u16::MAX,
        on_partitions(f, k, w),
        on_partitions(h, k, w),
    ensures
        product_fn(f, h, k, w) == product_fn(h, f, k, w),
{
    assert forall|lam: Seq<u16>, mu: Seq<u16>|
        valid_parts(lam, k, w) && valid_parts(mu, k, w) implies #[trigger] product_fn(
        class_fn(lam),
        class_fn(mu),
        k,
        w,
    ) == product_fn(class_fn(mu), class_fn(lam), k, w) by {
        lemma_classes_commute_small(k, w, lam, mu);
    }
    lemma_commute_from_classes(f, h, k, w);
}

/// Products of expressions with no negative coefficient have none, for one or two rows.
pub proof fn lemma_nonnegative_small(
    k: nat,
    w: nat,
    f: spec_fn(Seq<u16>) -> int,
    h: spec_fn(Seq<u16>) -> int,
    nu: Seq<u16>,
)
    requires
        1 <= k <= 2,
        w <= u16::MAX,
        on_partitions(f, k, w),
        on_partitions(h, k, w),
        forall|x: Seq<u16>| #[trigger] f(x) >= 0,
        forall|x: Seq<u16>| #[trigger] h(x) >= 0,
    ensures
        product_fn(f, h, k, w)(nu) >= 0,
{
    assert forall|lam: Seq<u16>, mu: Seq<u16>|
        valid_parts(lam, k, w) && valid_parts(mu, k, w) implies #[trigger] product_fn(
        class_fn(lam),
        class_fn(mu),
        k,
        w,
    )(nu) >= 0 by {
        lemma_class_product_nonnegative_small(k, w, lam, mu, nu);
    }
    lemma_nonnegative_from_classes(f, h, k, w, nu);
}

/// The product is associative, for one or two rows.
pub proof fn lemma_associative_small(
    k: nat,
    w: nat,
    f: spec_fn(Seq<u16>) -> int,
    h: spec_fn(Seq<u16>) -> int,
    g: spec_fn(Seq<u16>) -> int,
)
    requires
        1 <= k <= 2,
        w <= u16::MAX,
        on_partitions(f, k, w),
        on_partitions(h, k, w),
        on_partitions(g, k, w),
    ensures
        product_fn(product_fn(f, h, k, w), g, k, w) == product_fn(f, product_fn(h, g, k, w), k, w),
{
    let hg = product_fn(h, g, k, w);
    lemma_product_on_partitions(h, g, k, w);
    lemma_commutative_small(k, w, f, hg);
    lemma_right_products_commute(h, g, f, k, w);
    lemma_commutative_small(k, w, h, f);
}

} // verus!
