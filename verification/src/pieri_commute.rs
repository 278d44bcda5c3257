//! Pieri operators commute: multiplying by `sigma_a` and then by `sigma_b` is the same as
//! multiplying by `sigma_b` and then by `sigma_a`.
//!
//! For partitions `lam` and `nu`, the partitions `kappa` with `kappa / lam` a horizontal strip and
//! `nu / kappa` a horizontal strip form a box of part sequences; reflecting every coordinate
//! of that box exchanges the sizes of the two strips.
use vstd::prelude::*;

use crate::expr::{class_fn, special_fn, zero_fn};
use crate::laws::law_pieri_on_class;
use crate::littlewood_richardson::lemma_diff_is_part_sums;
use crate::partition::{fits_width, part_sum, valid_parts};
use crate::pieri::{diff_sum, is_strip, pieri_fn, strip_hi, strip_lo};
use crate::sums::{
    box_sum, first_slice, in_box, lemma_box_sum_add, lemma_box_sum_ext_in_box, lemma_box_sum_range,
    lemma_box_sum_restrict, lemma_box_sum_scale, lemma_box_sum_zero, lemma_range_sum_ext, lemma_range_sum_reverse,
    range_sum, seq_max, seq_min,
};
use crate::terms::{int_of_u16, lc_coeff, lemma_u16_embeds, u16_of};

verus! {

/// `lo[0] + hi[0] + lo[1] + hi[1] + ...`.
pub open spec fn corner_sum(lo: Seq<int>, hi: Seq<int>) -> int
    decreases lo.len(),
{
    if lo.len() == 0 {
        0
    } else {
        lo[0] + hi[0] + corner_sum(lo.drop_first(), hi.drop_first())
    }
}

/// One for the part sequences with `s` boxes, zero for the others.
pub open spec fn size_is(s: int) -> spec_fn(Seq<u16>) -> int {
    |x: Seq<u16>| if part_sum(x) == s { 1int } else { 0int }
}

/// The number of part sequences in the box `lo..=hi` with `s` boxes.
pub open spec fn size_count(lo: Seq<int>, hi: Seq<int>, s: int) -> int {
    box_sum(lo, hi, u16_of(), size_is(s))
}

/// `|a, rest| == a + |rest|`.
pub proof fn lemma_part_sum_cons(a: u16, rest: Seq<u16>)
    ensures
        part_sum(seq![a] + rest) == a + part_sum(rest),
    decreases rest.len(),
{
    if rest.len() > 0 {
        assert((seq![a] + rest).drop_last() =~= seq![a] + rest.drop_last());
        assert((seq![a] + rest).last() == rest.last());
        lemma_part_sum_cons(a, rest.drop_last());
        assert(part_sum(seq![a] + rest) == part_sum(seq![a] + rest.drop_last()) + rest.last());
        assert(part_sum(rest) == part_sum(rest.drop_last()) + rest.last());
    } else {
        assert(seq![a] + rest =~= seq![a]);
        assert(seq![a].drop_last() =~= Seq::<u16>::empty());
        assert(part_sum(Seq::<u16>::empty()) == 0);
        assert(part_sum(seq![a]) == a);
        assert(rest =~= Seq::<u16>::empty());
    }
}

/// Reflecting each coordinate of a box, `x[i] -> lo[i] + hi[i] - x[i]`, turns the points with
/// `s` boxes into the points with `corner_sum(lo, hi) - s` boxes.
pub proof fn lemma_size_count_reflect(lo: Seq<int>, hi: Seq<int>, s: int)
    requires
        lo.len() == hi.len(),
        forall|i: int| 0 <= i < lo.len() ==> 0 <= #[trigger] lo[i] && hi[i] <= u16::MAX,
    ensures
        size_count(lo, hi, s) == size_count(lo, hi, corner_sum(lo, hi) - s),
    decreases lo.len(),
{
    if lo.len() > 0 {
        let tlo = lo.drop_first();
        let thi = hi.drop_first();
        let tt = corner_sum(tlo, thi);
        let t = corner_sum(lo, hi);
        assert forall|i: int| 0 <= i < tlo.len() implies 0 <= #[trigger] tlo[i] && thi[i] <= u16::MAX by {
            assert(tlo[i] == lo[i + 1] && thi[i] == hi[i + 1]);
        }
        let cnt = |u: int| size_count(tlo, thi, u);
        assert forall|q: int, v: int| lo[0] <= v <= hi[0] implies #[trigger] first_slice(lo, hi, u16_of(), size_is(q))(v)
            == cnt(q - v) by {
            let f = size_is(q);
            assert forall|rest: Seq<u16>| #[trigger] f(seq![u16_of()(v)] + rest) == size_is(q - v)(rest) by {
                lemma_part_sum_cons(v as u16, rest);
            }
            assert((|rest: Seq<u16>| f(seq![u16_of()(v)] + rest)) =~= size_is(q - v));
        }
        let fs = size_is(s);
        let fr = size_is(t - s);
        lemma_box_sum_range(lo, hi, u16_of(), fs);
        lemma_box_sum_range(lo, hi, u16_of(), fr);
        assert forall|v: int| lo[0] <= v <= hi[0] implies #[trigger] first_slice(lo, hi, u16_of(), fs)(v) == cnt(
            tt - s + v,
        ) by {
            assert(first_slice(lo, hi, u16_of(), fs)(v) == cnt(s - v));
            lemma_size_count_reflect(tlo, thi, s - v);
        }
        lemma_range_sum_ext(lo[0], hi[0], first_slice(lo, hi, u16_of(), fs), |v: int| cnt(tt - s + v));
        lemma_range_sum_reverse(lo[0], hi[0], |v: int| cnt(tt - s + v));
        assert((|v: int| (|u: int| cnt(tt - s + u))(lo[0] + hi[0] - v)) =~= (|v: int| cnt(tt - s + (lo[0] + hi[0] - v))));
        assert forall|v: int| lo[0] <= v <= hi[0] implies #[trigger] first_slice(lo, hi, u16_of(), fr)(v) == cnt(
            tt - s + (lo[0] + hi[0] - v),
        ) by {
            assert(first_slice(lo, hi, u16_of(), fr)(v) == cnt(t - s - v));
        }
        lemma_range_sum_ext(
            lo[0],
            hi[0],
            |v: int| cnt(tt - s + (lo[0] + hi[0] - v)),
            first_slice(lo, hi, u16_of(), fr),
        );
        assert(size_count(lo, hi, s) == range_sum(lo[0], hi[0], first_slice(lo, hi, u16_of(), fs)));
        assert(size_count(lo, hi, t - s) == range_sum(lo[0], hi[0], first_slice(lo, hi, u16_of(), fr)));
    } else {
        assert(part_sum(Seq::<u16>::empty()) == 0);
        assert(size_is(s)(Seq::<u16>::empty()) == size_is(corner_sum(lo, hi) - s)(Seq::<u16>::empty()));
    }
}

/// The lower corner of the box of the `kappa` between `lam` and `nu`: `max(lam[i], nu[i+1])`.
pub open spec fn mid_lo(lam: Seq<u16>, nu: Seq<u16>) -> Seq<int> {
    Seq::new(
        lam.len(),
        |i: int|
            {
                let below = if i + 1 < nu.len() { nu[i + 1] as int } else { 0int };
                if lam[i] >= below { lam[i] as int } else { below }
            },
    )
}

/// The upper corner of the box of the `kappa` between `lam` and `nu`: `min(nu[i], lam[i-1])`,
/// with `top` standing for `lam[-1]`.
pub open spec fn mid_hi(lam: Seq<u16>, nu: Seq<u16>, top: int) -> Seq<int> {
    Seq::new(
        lam.len(),
        |i: int|
            {
                let above = if i > 0 { lam[i - 1] as int } else { top };
                if nu[i] <= above { nu[i] as int } else { above }
            },
    )
}

/// `|x| == x[0] + |x[1..]|`.
pub proof fn lemma_part_sum_first(x: Seq<u16>)
    requires
        x.len() > 0,
    ensures
        part_sum(x) == x[0] + part_sum(x.drop_first()),
{
    assert(x =~= seq![x[0]] + x.drop_first());
    lemma_part_sum_cons(x[0], x.drop_first());
}

/// The corners of the box between `lam` and `nu` add up to `|lam| + |nu|`, up to the top row:
/// `max(lam[i], nu[i+1]) + min(nu[i+1], lam[i]) == lam[i] + nu[i+1]`.
pub proof fn lemma_mid_corners(lam: Seq<u16>, nu: Seq<u16>, top: int)
    requires
        lam.len() == nu.len(),
        lam.len() >= 1,
    ensures
        corner_sum(mid_lo(lam, nu), mid_hi(lam, nu, top)) == part_sum(lam) + part_sum(nu) - nu[0] + if nu[0] <= top {
            nu[0] as int
        } else {
            top
        },
    decreases lam.len(),
{
    lemma_part_sum_first(lam);
    lemma_part_sum_first(nu);
    let lo = mid_lo(lam, nu);
    let hi = mid_hi(lam, nu, top);
    if lam.len() == 1 {
        assert(lam.drop_first() =~= Seq::<u16>::empty());
        assert(nu.drop_first() =~= Seq::<u16>::empty());
        assert(lo.drop_first() =~= Seq::<int>::empty());
        assert(part_sum(Seq::<u16>::empty()) == 0);
        assert(corner_sum(lo.drop_first(), hi.drop_first()) == 0);
        assert(corner_sum(lo, hi) == lo[0] + hi[0] + corner_sum(lo.drop_first(), hi.drop_first()));
        assert(lo[0] == lam[0]);
    } else {
        let l1 = lam.drop_first();
        let n1 = nu.drop_first();
        assert(lo.drop_first() =~= mid_lo(l1, n1));
        assert(hi.drop_first() =~= mid_hi(l1, n1, lam[0] as int));
        lemma_mid_corners(l1, n1, lam[0] as int);
        assert(n1[0] == nu[1]);
        assert(corner_sum(lo, hi) == lo[0] + hi[0] + corner_sum(lo.drop_first(), hi.drop_first()));
        assert(lo[0] == if lam[0] >= nu[1] { lam[0] as int } else { nu[1] as int });
        assert(hi[0] == if nu[0] <= top { nu[0] as int } else { top });
    }
}

/// The lower corner `lam` of the box of the `kappa` with `kappa / lam` a horizontal strip.
pub open spec fn pair_lo(lam: Seq<u16>) -> Seq<int> {
    Seq::new(lam.len(), |i: int| lam[i] as int)
}

/// The upper corner of the box of the `kappa` with `kappa / lam` a horizontal strip:
/// `kappa[i] <= lam[i-1]`, and `kappa[0] <= nu[0]`.
pub open spec fn pair_hi(lam: Seq<u16>, nu: Seq<u16>) -> Seq<int> {
    Seq::new(lam.len(), |i: int| if i > 0 { lam[i - 1] as int } else { nu[0] as int })
}

/// One for the `kappa` with `|lam| + a` boxes when `|nu| == |lam| + a + b`, zero otherwise.
pub open spec fn mid_indicator(lam: Seq<u16>, nu: Seq<u16>, a: int, b: int) -> spec_fn(Seq<u16>) -> int {
    |x: Seq<u16>| if part_sum(x) == part_sum(lam) + a && part_sum(nu) == part_sum(lam) + a + b { 1int } else { 0int }
}

/// The coefficient of `sigma_nu` in `sigma_lam * sigma_a * sigma_b` (Pieri twice) counts the
/// `kappa` in the box between `lam` and `nu` with `|lam| + a` boxes.
pub(crate) proof fn lemma_two_strips_count(k: nat, w: nat, lam: Seq<u16>, a: int, b: int, nu: Seq<u16>)
    requires
        k >= 1,
        w <= u16::MAX,
        valid_parts(lam, k, w),
        nu.len() == k,
        fits_width(nu, w),
    ensures
        pieri_fn(pieri_fn(class_fn(lam), k, w, a), k, w, b)(nu) == if part_sum(nu) == part_sum(lam) + a + b {
            size_count(mid_lo(lam, nu), mid_hi(lam, nu, nu[0] as int), part_sum(lam) + a)
        } else {
            0
        },
{
    let slo = strip_lo(nu);
    let shi = strip_hi(nu);
    assert forall|i: int| 0 <= i < slo.len() implies 0 <= #[trigger] slo[i] && shi[i] <= u16::MAX by {
        assert(nu[i] <= w);
    }
    lemma_u16_embeds(slo, shi);
    let inner = pieri_fn(class_fn(lam), k, w, a);
    let g = |x: Seq<u16>| if diff_sum(nu, x, 0) == b { inner(x) } else { 0 };
    let plo = pair_lo(lam);
    let phi = pair_hi(lam, nu);
    let ind = mid_indicator(lam, nu, a, b);
    let h = |x: Seq<u16>| if in_box(plo, phi, int_of_u16(), x) { ind(x) } else { 0 };
    assert forall|x: Seq<u16>| in_box(slo, shi, int_of_u16(), x) implies #[trigger] g(x) == h(x) by {
        law_pieri_on_class(k, w, lam, a, x);
        lemma_diff_is_part_sums(k, lam, x);
        lemma_diff_is_part_sums(k, x, nu);
        assert forall|i: int| 0 <= i < k implies #[trigger] x[i] <= nu[i] && (i + 1 < k ==> x[i] >= nu[i + 1]) by {
            assert(slo[i] <= int_of_u16()(x[i]) <= shi[i]);
        }
        if is_strip(k, w, lam, x, a) {
            assert forall|i: int| 0 <= i < x.len() implies plo[i] <= #[trigger] int_of_u16()(x[i]) <= phi[i] by {
                assert(lam[i] <= x[i]);
                if i > 0 {
                    assert(x[i] <= lam[i - 1]);
                }
            }
        }
        if in_box(plo, phi, int_of_u16(), x) {
            assert forall|i: int| 0 <= i < k implies lam[i] <= #[trigger] x[i] <= w by {
                assert(plo[i] <= int_of_u16()(x[i]) <= phi[i]);
                assert(nu[i] <= w);
            }
            assert forall|i: int| 0 < i < k implies #[trigger] x[i] <= lam[i - 1] by {
                assert(plo[i] <= int_of_u16()(x[i]) <= phi[i]);
            }
        }
    }
    lemma_box_sum_ext_in_box(slo, shi, u16_of(), int_of_u16(), g, h);
    lemma_box_sum_restrict(slo, shi, plo, phi, u16_of(), int_of_u16(), ind);
    assert(seq_max(slo, plo) =~= mid_lo(lam, nu));
    assert(seq_min(shi, phi) =~= mid_hi(lam, nu, nu[0] as int));
    if part_sum(nu) == part_sum(lam) + a + b {
        assert(ind =~= size_is(part_sum(lam) + a));
    } else {
        lemma_box_sum_zero(mid_lo(lam, nu), mid_hi(lam, nu, nu[0] as int), u16_of(), ind);
    }
}

/// Pieri's rule applied twice to a basis class does not depend on the order of the two strips.
proof fn lemma_two_strips_symmetric(k: nat, w: nat, lam: Seq<u16>, a: int, b: int)
    requires
        k >= 1,
        w <= u16::MAX,
        valid_parts(lam, k, w),
    ensures
        pieri_fn(pieri_fn(class_fn(lam), k, w, a), k, w, b) == pieri_fn(pieri_fn(class_fn(lam), k, w, b), k, w, a),
{
    let f = class_fn(lam);
    assert forall|nu: Seq<u16>| #[trigger] pieri_fn(pieri_fn(f, k, w, a), k, w, b)(nu) == pieri_fn(
        pieri_fn(f, k, w, b),
        k,
        w,
        a,
    )(nu) by {
        if nu.len() == k && fits_width(nu, w) {
            lemma_two_strips_count(k, w, lam, a, b, nu);
            lemma_two_strips_count(k, w, lam, b, a, nu);
            if part_sum(nu) == part_sum(lam) + a + b {
                let lo = mid_lo(lam, nu);
                let hi = mid_hi(lam, nu, nu[0] as int);
                assert forall|i: int| 0 <= i < lo.len() implies 0 <= #[trigger] lo[i] && hi[i] <= u16::MAX by {
                    assert(nu[i] <= w);
                }
                lemma_size_count_reflect(lo, hi, part_sum(lam) + a);
                lemma_mid_corners(lam, nu, nu[0] as int);
            }
        }
    }
    assert(pieri_fn(pieri_fn(f, k, w, a), k, w, b) =~= pieri_fn(pieri_fn(f, k, w, b), k, w, a));
}

/// `f + c * g` on coefficient functions.
pub open spec fn plus_scaled(f: spec_fn(Seq<u16>) -> int, c: int, g: spec_fn(Seq<u16>) -> int) -> spec_fn(Seq<u16>) -> int {
    |x: Seq<u16>| f(x) + c * g(x)
}

/// Pieri's rule is linear.
proof fn lemma_pieri_linear(f: spec_fn(Seq<u16>) -> int, c: int, g: spec_fn(Seq<u16>) -> int, k: nat, w: nat, r: int)
    ensures
        pieri_fn(plus_scaled(f, c, g), k, w, r) == plus_scaled(pieri_fn(f, k, w, r), c, pieri_fn(g, k, w, r)),
{
    assert forall|nu: Seq<u16>| #[trigger] pieri_fn(plus_scaled(f, c, g), k, w, r)(nu) == plus_scaled(
        pieri_fn(f, k, w, r),
        c,
        pieri_fn(g, k, w, r),
    )(nu) by {
        if nu.len() == k && fits_width(nu, w) {
            let lo = strip_lo(nu);
            let hi = strip_hi(nu);
            let tf = |lam: Seq<u16>| if diff_sum(nu, lam, 0) == r { f(lam) } else { 0 };
            let tg = |lam: Seq<u16>| if diff_sum(nu, lam, 0) == r { g(lam) } else { 0 };
            let tcg = |lam: Seq<u16>| c * tg(lam);
            let t = |lam: Seq<u16>| if diff_sum(nu, lam, 0) == r { plus_scaled(f, c, g)(lam) } else { 0 };
            assert forall|lam: Seq<u16>| #[trigger] t(lam) == tf(lam) + tcg(lam) by {}
            lemma_box_sum_add(lo, hi, u16_of(), t, tf, tcg);
            lemma_box_sum_scale(lo, hi, u16_of(), c, tg);
        }
    }
    assert(pieri_fn(plus_scaled(f, c, g), k, w, r) =~= plus_scaled(pieri_fn(f, k, w, r), c, pieri_fn(g, k, w, r)));
}

/// Pieri's rule maps zero to zero.
pub(crate) proof fn lemma_pieri_zero(k: nat, w: nat, r: int)
    ensures
        pieri_fn(zero_fn(), k, w, r) == zero_fn(),
{
    assert forall|nu: Seq<u16>| #[trigger] pieri_fn(zero_fn(), k, w, r)(nu) == zero_fn()(nu) by {
        if nu.len() == k && fits_width(nu, w) {
            let t = |lam: Seq<u16>| if diff_sum(nu, lam, 0) == r { zero_fn()(lam) } else { 0 };
            lemma_box_sum_zero(strip_lo(nu), strip_hi(nu), u16_of(), t);
        }
    }
    assert(pieri_fn(zero_fn(), k, w, r) =~= zero_fn());
}

/// Pieri's rule applied twice to an expression with valid keys does not depend on the order.
pub(crate) proof fn lemma_pieri_pair_commute(ts: Seq<(Seq<u16>, int)>, k: nat, w: nat, a: int, b: int)
    requires
        k >= 1,
        w <= u16::MAX,
        forall|i: int| 0 <= i < ts.len() ==> valid_parts(#[trigger] ts[i].0, k, w),
    ensures
        pieri_fn(pieri_fn(|x: Seq<u16>| lc_coeff(ts, x), k, w, a), k, w, b) == pieri_fn(
            pieri_fn(|x: Seq<u16>| lc_coeff(ts, x), k, w, b),
            k,
            w,
            a,
        ),
    decreases ts.len(),
{
    let f = |x: Seq<u16>| lc_coeff(ts, x);
    if ts.len() == 0 {
        assert(f =~= zero_fn());
        lemma_pieri_zero(k, w, a);
        lemma_pieri_zero(k, w, b);
    } else {
        let ts1 = ts.drop_last();
        let t = ts.last();
        let f1 = |x: Seq<u16>| lc_coeff(ts1, x);
        let g = class_fn(t.0);
        assert forall|i: int| 0 <= i < ts1.len() implies valid_parts(#[trigger] ts1[i].0, k, w) by {
            assert(ts1[i] == ts[i]);
        }
        assert(valid_parts(ts[ts.len() - 1].0, k, w));
        assert(f =~= plus_scaled(f1, t.1, g));
        lemma_pieri_pair_commute(ts1, k, w, a, b);
        lemma_two_strips_symmetric(k, w, t.0, a, b);
        lemma_pieri_linear(f1, t.1, g, k, w, a);
        lemma_pieri_linear(pieri_fn(f1, k, w, a), t.1, pieri_fn(g, k, w, a), k, w, b);
        lemma_pieri_linear(f1, t.1, g, k, w, b);
        lemma_pieri_linear(pieri_fn(f1, k, w, b), t.1, pieri_fn(g, k, w, b), k, w, a);
    }
}

} // verus!
