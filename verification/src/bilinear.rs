//! The Schubert product expanded over the basis: `f * h` is the sum over pairs of classes
//! `(lam, mu)` of `f(lam) * h(mu) * (sigma_lam * sigma_mu)`.
use vstd::prelude::*;

use crate::expr::{class_fn, product_fn, rect_hi, rect_lo, special_fn};
use crate::giambelli::{chain_fn, giambelli_fn, giambelli_indices, giambelli_term, indices_in_range, is_perm, perm_sign};
use crate::partition::{fits_width, valid_parts};
use crate::pieri::{diff_sum, strip_hi, strip_lo};
use crate::sums::{
    box_sum, in_box, lemma_box_sum_ext, lemma_box_sum_ext_in_box, lemma_box_sum_nonneg, lemma_box_sum_point,
    lemma_box_sum_scale, lemma_box_sum_swap, lemma_box_sum_zero,
};
use crate::terms::{int_of_u16, lemma_u16_embeds, u16_of};

verus! {

/// `f` vanishes off the points of the `k x w` rectangle.
pub open spec fn in_rect(f: spec_fn(Seq<u16>) -> int, k: nat, w: nat) -> bool {
    forall|x: Seq<u16>| #[trigger] f(x) != 0 ==> in_box(rect_lo(k), rect_hi(k, w), int_of_u16(), x)
}

/// The sum over the points `lam` of the `k x w` rectangle of `t(lam)`.
pub open spec fn rect_sum(k: nat, w: nat, t: spec_fn(Seq<u16>) -> int) -> int {
    box_sum(rect_lo(k), rect_hi(k, w), u16_of(), t)
}

proof fn lemma_rect_embeds(k: nat, w: nat)
    requires
        w <= u16::MAX,
    ensures
        crate::sums::embeds(rect_lo(k), rect_hi(k, w), u16_of(), int_of_u16()),
{
    let lo = rect_lo(k);
    let hi = rect_hi(k, w);
    assert forall|t: int| 0 <= t < lo.len() implies 0 <= #[trigger] lo[t] && hi[t] <= u16::MAX by {}
    lemma_u16_embeds(lo, hi);
}

/// `f(x)` is the sum over the rectangle of `f(lam) * sigma_lam(x)`.
proof fn lemma_expand_point(f: spec_fn(Seq<u16>) -> int, k: nat, w: nat, x: Seq<u16>)
    requires
        w <= u16::MAX,
        in_rect(f, k, w),
    ensures
        rect_sum(k, w, |lam: Seq<u16>| f(lam) * class_fn(lam)(x)) == f(x),
{
    lemma_rect_embeds(k, w);
    let t = |lam: Seq<u16>| f(lam) * class_fn(lam)(x);
    assert forall|lam: Seq<u16>| #[trigger] t(lam) == if lam == x { f(x) } else { 0 } by {}
    lemma_box_sum_point(rect_lo(k), rect_hi(k, w), u16_of(), int_of_u16(), t, x, f(x));
}

/// Multiplying by a special class keeps a function on the rectangle.
proof fn lemma_special_in_rect(f: spec_fn(Seq<u16>) -> int, k: nat, w: nat, r: int)
    requires
        in_rect(f, k, w),
    ensures
        in_rect(special_fn(f, k, w, r), k, w),
{
    if r != 0 && !(r < 0 || r > w) {
        assert forall|x: Seq<u16>| #[trigger] special_fn(f, k, w, r)(x) != 0 implies in_box(
            rect_lo(k),
            rect_hi(k, w),
            int_of_u16(),
            x,
        ) by {
            assert(x.len() == k && fits_width(x, w));
            assert forall|i: int| 0 <= i < x.len() implies rect_lo(k)[i] <= #[trigger] int_of_u16()(x[i]) <= rect_hi(
                k,
                w,
            )[i] by {}
        }
    }
}

proof fn lemma_chain_in_rect(f: spec_fn(Seq<u16>) -> int, k: nat, w: nat, rs: Seq<int>)
    requires
        in_rect(f, k, w),
    ensures
        in_rect(chain_fn(f, k, w, rs), k, w),
    decreases rs.len(),
{
    if rs.len() > 0 {
        lemma_chain_in_rect(f, k, w, rs.drop_last());
        lemma_special_in_rect(chain_fn(f, k, w, rs.drop_last()), k, w, rs.last());
    }
}

proof fn lemma_class_in_rect(lam: Seq<u16>, k: nat, w: nat)
    requires
        in_box(rect_lo(k), rect_hi(k, w), int_of_u16(), lam),
    ensures
        in_rect(class_fn(lam), k, w),
{
}

/// Multiplying by `sigma_r` expands over the classes of the rectangle.
pub(crate) proof fn lemma_special_expand(f: spec_fn(Seq<u16>) -> int, k: nat, w: nat, r: int, nu: Seq<u16>)
    requires
        w <= u16::MAX,
        in_rect(f, k, w),
    ensures
        special_fn(f, k, w, r)(nu) == rect_sum(k, w, |lam: Seq<u16>| f(lam) * special_fn(class_fn(lam), k, w, r)(nu)),
{
    let lo = rect_lo(k);
    let hi = rect_hi(k, w);
    let rhs = |lam: Seq<u16>| f(lam) * special_fn(class_fn(lam), k, w, r)(nu);
    if r == 0 {
        lemma_expand_point(f, k, w, nu);
        assert(rhs =~= (|lam: Seq<u16>| f(lam) * class_fn(lam)(nu)));
    } else if r < 0 || r > w {
        assert forall|lam: Seq<u16>| #[trigger] rhs(lam) == 0 by {}
        lemma_box_sum_zero(lo, hi, u16_of(), rhs);
    } else if !(nu.len() == k && fits_width(nu, w)) {
        assert forall|lam: Seq<u16>| #[trigger] rhs(lam) == 0 by {}
        lemma_box_sum_zero(lo, hi, u16_of(), rhs);
    } else {
        let slo = strip_lo(nu);
        let shi = strip_hi(nu);
        let a = |kap: Seq<u16>| if diff_sum(nu, kap, 0) == r { f(kap) } else { 0 };
        let fk = |kap: Seq<u16>, lam: Seq<u16>| if diff_sum(nu, kap, 0) == r { f(lam) * class_fn(lam)(kap) } else { 0 };
        let rows = |kap: Seq<u16>| box_sum(lo, hi, u16_of(), |lam: Seq<u16>| fk(kap, lam));
        assert forall|kap: Seq<u16>| #[trigger] a(kap) == rows(kap) by {
            if diff_sum(nu, kap, 0) == r {
                lemma_expand_point(f, k, w, kap);
                assert((|lam: Seq<u16>| fk(kap, lam)) =~= (|lam: Seq<u16>| f(lam) * class_fn(lam)(kap)));
            } else {
                lemma_box_sum_zero(lo, hi, u16_of(), |lam: Seq<u16>| fk(kap, lam));
            }
        }
        lemma_box_sum_ext(slo, shi, u16_of(), a, rows);
        lemma_box_sum_swap(slo, shi, u16_of(), lo, hi, u16_of(), fk);
        let cols = |lam: Seq<u16>| box_sum(slo, shi, u16_of(), |kap: Seq<u16>| fk(kap, lam));
        assert forall|lam: Seq<u16>| #[trigger] cols(lam) == rhs(lam) by {
            let b = |kap: Seq<u16>| if diff_sum(nu, kap, 0) == r { class_fn(lam)(kap) } else { 0 };
            lemma_box_sum_scale(slo, shi, u16_of(), f(lam), b);
            assert((|kap: Seq<u16>| fk(kap, lam)) =~= (|kap: Seq<u16>| f(lam) * b(kap)));
            assert(special_fn(class_fn(lam), k, w, r)(nu) == box_sum(slo, shi, u16_of(), b));
        }
        lemma_box_sum_ext(lo, hi, u16_of(), cols, rhs);
    }
}

/// Multiplying in turn by `sigma_rs[0]`, `sigma_rs[1]`, ... expands over the classes of the
/// rectangle.
pub(crate) proof fn lemma_chain_expand(f: spec_fn(Seq<u16>) -> int, k: nat, w: nat, rs: Seq<int>, nu: Seq<u16>)
    requires
        w <= u16::MAX,
        in_rect(f, k, w),
    ensures
        chain_fn(f, k, w, rs)(nu) == rect_sum(k, w, |lam: Seq<u16>| f(lam) * chain_fn(class_fn(lam), k, w, rs)(nu)),
    decreases rs.len(),
{
    let lo = rect_lo(k);
    let hi = rect_hi(k, w);
    lemma_rect_embeds(k, w);
    if rs.len() == 0 {
        lemma_expand_point(f, k, w, nu);
        assert((|lam: Seq<u16>| f(lam) * chain_fn(class_fn(lam), k, w, rs)(nu)) =~= (|lam: Seq<u16>| f(lam) * class_fn(
            lam,
        )(nu)));
    } else {
        let rs1 = rs.drop_last();
        let r = rs.last();
        let g = chain_fn(f, k, w, rs1);
        lemma_chain_in_rect(f, k, w, rs1);
        lemma_special_expand(g, k, w, r, nu);
        let sp = |kap: Seq<u16>| special_fn(class_fn(kap), k, w, r)(nu);
        let c1 = |lam: Seq<u16>, kap: Seq<u16>| chain_fn(class_fn(lam), k, w, rs1)(kap);
        let fk = |kap: Seq<u16>, lam: Seq<u16>| f(lam) * c1(lam, kap) * sp(kap);
        let rows = |kap: Seq<u16>| box_sum(lo, hi, u16_of(), |lam: Seq<u16>| fk(kap, lam));
        let lhs = |kap: Seq<u16>| g(kap) * special_fn(class_fn(kap), k, w, r)(nu);
        assert forall|kap: Seq<u16>| #[trigger] lhs(kap) == rows(kap) by {
            lemma_chain_expand(f, k, w, rs1, kap);
            let a = |lam: Seq<u16>| f(lam) * chain_fn(class_fn(lam), k, w, rs1)(kap);
            lemma_box_sum_scale(lo, hi, u16_of(), sp(kap), a);
            assert forall|lam: Seq<u16>| #[trigger] fk(kap, lam) == sp(kap) * a(lam) by {
                let x = f(lam);
                let y = c1(lam, kap);
                let z = sp(kap);
                assert(x * y * z == z * (x * y)) by (nonlinear_arith);
            }
            assert((|lam: Seq<u16>| fk(kap, lam)) =~= (|lam: Seq<u16>| sp(kap) * a(lam)));
            let ga = g(kap);
            let sa = box_sum(lo, hi, u16_of(), a);
            assert(ga == sa);
            assert(ga * sp(kap) == sp(kap) * sa) by (nonlinear_arith)
                requires
                    ga == sa,
            ;
        }
        lemma_box_sum_ext(lo, hi, u16_of(), lhs, rows);
        lemma_box_sum_swap(lo, hi, u16_of(), lo, hi, u16_of(), fk);
        let cols = |lam: Seq<u16>| box_sum(lo, hi, u16_of(), |kap: Seq<u16>| fk(kap, lam));
        let rhs = |lam: Seq<u16>| f(lam) * chain_fn(class_fn(lam), k, w, rs)(nu);
        assert forall|lam: Seq<u16>| in_box(lo, hi, int_of_u16(), lam) implies #[trigger] cols(lam) == rhs(lam) by {
            lemma_class_in_rect(lam, k, w);
            lemma_chain_in_rect(class_fn(lam), k, w, rs1);
            lemma_special_expand(chain_fn(class_fn(lam), k, w, rs1), k, w, r, nu);
            let b = |kap: Seq<u16>| c1(lam, kap) * sp(kap);
            lemma_box_sum_scale(lo, hi, u16_of(), f(lam), b);
            assert forall|kap: Seq<u16>| #[trigger] fk(kap, lam) == f(lam) * b(kap) by {
                let x = f(lam);
                let y = c1(lam, kap);
                let z = sp(kap);
                assert(x * y * z == x * (y * z)) by (nonlinear_arith);
            }
            assert((|kap: Seq<u16>| fk(kap, lam)) =~= (|kap: Seq<u16>| f(lam) * b(kap)));
            assert(b =~= (|kap: Seq<u16>| chain_fn(class_fn(lam), k, w, rs1)(kap) * special_fn(class_fn(kap), k, w, r)(
                nu,
            )));
        }
        lemma_box_sum_ext_in_box(lo, hi, u16_of(), int_of_u16(), cols, rhs);
    }
}

proof fn lemma_term_expand(f: spec_fn(Seq<u16>) -> int, k: nat, w: nat, mu: Seq<u16>, p: Seq<int>, nu: Seq<u16>)
    requires
        w <= u16::MAX,
        in_rect(f, k, w),
    ensures
        giambelli_term(f, k, w, mu, p)(nu) == rect_sum(
            k,
            w,
            |lam: Seq<u16>| f(lam) * giambelli_term(class_fn(lam), k, w, mu, p)(nu),
        ),
{
    let lo = rect_lo(k);
    let hi = rect_hi(k, w);
    let rhs = |lam: Seq<u16>| f(lam) * giambelli_term(class_fn(lam), k, w, mu, p)(nu);
    let rs = giambelli_indices(mu, p);
    if is_perm(p, k) && indices_in_range(rs, w) {
        let s = perm_sign(p);
        lemma_chain_expand(f, k, w, rs, nu);
        let a = |lam: Seq<u16>| f(lam) * chain_fn(class_fn(lam), k, w, rs)(nu);
        lemma_box_sum_scale(lo, hi, u16_of(), s, a);
        assert forall|lam: Seq<u16>| #[trigger] rhs(lam) == s * a(lam) by {
            let x = f(lam);
            let y = chain_fn(class_fn(lam), k, w, rs)(nu);
            assert(x * (s * y) == s * (x * y)) by (nonlinear_arith);
        }
        assert(rhs =~= (|lam: Seq<u16>| s * a(lam)));
    } else {
        assert forall|lam: Seq<u16>| #[trigger] rhs(lam) == 0 by {}
        lemma_box_sum_zero(lo, hi, u16_of(), rhs);
    }
}

/// Multiplying by `sigma_mu` through Giambelli's formula expands over the classes of the
/// rectangle.
proof fn lemma_giambelli_expand(f: spec_fn(Seq<u16>) -> int, k: nat, w: nat, mu: Seq<u16>, nu: Seq<u16>)
    requires
        w <= u16::MAX,
        in_rect(f, k, w),
    ensures
        giambelli_fn(f, k, w, mu)(nu) == rect_sum(k, w, |lam: Seq<u16>| f(lam) * giambelli_fn(class_fn(lam), k, w, mu)(nu)),
{
    let lo = rect_lo(k);
    let hi = rect_hi(k, w);
    let plo = Seq::new(k, |i: int| 0int);
    let phi = Seq::new(k, |i: int| k - 1);
    let id = |v: int| v;
    let fk = |p: Seq<int>, lam: Seq<u16>| f(lam) * giambelli_term(class_fn(lam), k, w, mu, p)(nu);
    let terms = |p: Seq<int>| giambelli_term(f, k, w, mu, p)(nu);
    let rows = |p: Seq<int>| box_sum(lo, hi, u16_of(), |lam: Seq<u16>| fk(p, lam));
    assert forall|p: Seq<int>| #[trigger] terms(p) == rows(p) by {
        lemma_term_expand(f, k, w, mu, p, nu);
        assert((|lam: Seq<u16>| fk(p, lam)) =~= (|lam: Seq<u16>| f(lam) * giambelli_term(class_fn(lam), k, w, mu, p)(
            nu,
        )));
    }
    lemma_box_sum_ext(plo, phi, id, terms, rows);
    lemma_box_sum_swap(plo, phi, id, lo, hi, u16_of(), fk);
    let cols = |lam: Seq<u16>| box_sum(plo, phi, id, |p: Seq<int>| fk(p, lam));
    let rhs = |lam: Seq<u16>| f(lam) * giambelli_fn(class_fn(lam), k, w, mu)(nu);
    assert forall|lam: Seq<u16>| #[trigger] cols(lam) == rhs(lam) by {
        let b = |p: Seq<int>| giambelli_term(class_fn(lam), k, w, mu, p)(nu);
        lemma_box_sum_scale(plo, phi, id, f(lam), b);
        assert((|p: Seq<int>| fk(p, lam)) =~= (|p: Seq<int>| f(lam) * b(p)));
    }
    lemma_box_sum_ext(lo, hi, u16_of(), cols, rhs);
}

/// The product expanded over pairs of classes: the coefficient of `sigma_nu` in `f * h` is the
/// sum over the rectangle of `f(lam) * h(mu)` times its coefficient in `sigma_lam * sigma_mu`.
pub proof fn lemma_product_expand(f: spec_fn(Seq<u16>) -> int, h: spec_fn(Seq<u16>) -> int, k: nat, w: nat, nu: Seq<u16>)
    requires
        w <= u16::MAX,
        in_rect(f, k, w),
    ensures
        product_fn(f, h, k, w)(nu) == rect_sum(
            k,
            w,
            |mu: Seq<u16>|
                rect_sum(
                    k,
                    w,
                    |lam: Seq<u16>| f(lam) * h(mu) * product_fn(class_fn(lam), class_fn(mu), k, w)(nu),
                ),
        ),
{
    let lo = rect_lo(k);
    let hi = rect_hi(k, w);
    lemma_rect_embeds(k, w);
    let lhs = |mu: Seq<u16>| h(mu) * giambelli_fn(f, k, w, mu)(nu);
    let rhs = |mu: Seq<u16>|
        rect_sum(k, w, |lam: Seq<u16>| f(lam) * h(mu) * product_fn(class_fn(lam), class_fn(mu), k, w)(nu));
    assert forall|mu: Seq<u16>| in_box(lo, hi, int_of_u16(), mu) implies #[trigger] lhs(mu) == rhs(mu) by {
        lemma_giambelli_expand(f, k, w, mu, nu);
        let a = |lam: Seq<u16>| f(lam) * giambelli_fn(class_fn(lam), k, w, mu)(nu);
        lemma_box_sum_scale(lo, hi, u16_of(), h(mu), a);
        assert forall|lam: Seq<u16>| #[trigger] product_fn(class_fn(lam), class_fn(mu), k, w)(nu) == giambelli_fn(
            class_fn(lam),
            k,
            w,
            mu,
        )(nu) by {
            let y = giambelli_fn(class_fn(lam), k, w, mu)(nu);
            let t = |m: Seq<u16>| class_fn(mu)(m) * giambelli_fn(class_fn(lam), k, w, m)(nu);
            assert forall|m: Seq<u16>| #[trigger] t(m) == if m == mu { y } else { 0 } by {}
            lemma_box_sum_point(lo, hi, u16_of(), int_of_u16(), t, mu, y);
        }
        let inner = |lam: Seq<u16>| f(lam) * h(mu) * product_fn(class_fn(lam), class_fn(mu), k, w)(nu);
        assert forall|lam: Seq<u16>| #[trigger] inner(lam) == h(mu) * a(lam) by {
            let x = f(lam);
            let z = h(mu);
            let y = giambelli_fn(class_fn(lam), k, w, mu)(nu);
            assert(x * z * y == z * (x * y)) by (nonlinear_arith);
        }
        assert(inner =~= (|lam: Seq<u16>| h(mu) * a(lam)));
    }
    lemma_box_sum_ext_in_box(lo, hi, u16_of(), int_of_u16(), lhs, rhs);
}

/// A function that vanishes off the partitions of the rectangle lives on the rectangle.
pub proof fn lemma_valid_in_rect(f: spec_fn(Seq<u16>) -> int, k: nat, w: nat)
    requires
        forall|x: Seq<u16>| #[trigger] f(x) != 0 ==> valid_parts(x, k, w),
    ensures
        in_rect(f, k, w),
{
    assert forall|x: Seq<u16>| #[trigger] f(x) != 0 implies in_box(rect_lo(k), rect_hi(k, w), int_of_u16(), x) by {
        assert(valid_parts(x, k, w));
        assert forall|i: int| 0 <= i < x.len() implies rect_lo(k)[i] <= #[trigger] int_of_u16()(x[i]) <= rect_hi(
            k,
            w,
        )[i] by {}
    }
}

/// When the classes of the rectangle commute, so do all products of functions on its partitions.
pub proof fn lemma_commute_from_classes(f: spec_fn(Seq<u16>) -> int, h: spec_fn(Seq<u16>) -> int, k: nat, w: nat)
    requires
        w <= u16::MAX,
        forall|x: Seq<u16>| #[trigger] f(x) != 0 ==> valid_parts(x, k, w),
        forall|x: Seq<u16>| #[trigger] h(x) != 0 ==> valid_parts(x, k, w),
        forall|lam: Seq<u16>, mu: Seq<u16>|
            valid_parts(lam, k, w) && valid_parts(mu, k, w) ==> #[trigger] product_fn(class_fn(lam), class_fn(mu), k, w)
                == product_fn(class_fn(mu), class_fn(lam), k, w),
    ensures
        product_fn(f, h, k, w) == product_fn(h, f, k, w),
{
    let lo = rect_lo(k);
    let hi = rect_hi(k, w);
    lemma_valid_in_rect(f, k, w);
    lemma_valid_in_rect(h, k, w);
    assert forall|nu: Seq<u16>| #[trigger] product_fn(f, h, k, w)(nu) == product_fn(h, f, k, w)(nu) by {
        lemma_product_expand(f, h, k, w, nu);
        lemma_product_expand(h, f, k, w, nu);
        let g = |m: Seq<u16>, l: Seq<u16>| h(l) * f(m) * product_fn(class_fn(l), class_fn(m), k, w)(nu);
        lemma_box_sum_swap(lo, hi, u16_of(), lo, hi, u16_of(), g);
        let left = |mu: Seq<u16>|
            rect_sum(k, w, |lam: Seq<u16>| f(lam) * h(mu) * product_fn(class_fn(lam), class_fn(mu), k, w)(nu));
        let right = |mu: Seq<u16>|
            rect_sum(k, w, |lam: Seq<u16>| h(lam) * f(mu) * product_fn(class_fn(lam), class_fn(mu), k, w)(nu));
        let unswapped = |m: Seq<u16>| box_sum(lo, hi, u16_of(), |l: Seq<u16>| g(m, l));
        assert forall|m: Seq<u16>| #[trigger] right(m) == unswapped(m) by {
            assert((|lam: Seq<u16>| h(lam) * f(m) * product_fn(class_fn(lam), class_fn(m), k, w)(nu)) =~= (|l: Seq<u16>|
                g(m, l)));
        }
        lemma_box_sum_ext(lo, hi, u16_of(), right, unswapped);
        let swapped = |l: Seq<u16>| box_sum(lo, hi, u16_of(), |m: Seq<u16>| g(m, l));
        assert forall|a: Seq<u16>| #[trigger] swapped(a) == left(a) by {
            let x = |m: Seq<u16>| g(m, a);
            let y = |lam: Seq<u16>| f(lam) * h(a) * product_fn(class_fn(lam), class_fn(a), k, w)(nu);
            assert forall|b: Seq<u16>| #[trigger] x(b) == y(b) by {
                let fb = f(b);
                let ha = h(a);
                let q1 = product_fn(class_fn(a), class_fn(b), k, w)(nu);
                let q2 = product_fn(class_fn(b), class_fn(a), k, w)(nu);
                if fb != 0 && ha != 0 {
                    assert(q1 == q2) by {
                        assert(product_fn(class_fn(a), class_fn(b), k, w) == product_fn(class_fn(b), class_fn(a), k, w));
                    }
                    assert(ha * fb * q1 == fb * ha * q2) by (nonlinear_arith)
                        requires
                            q1 == q2,
                    ;
                } else {
                    assert(ha * fb * q1 == 0 && fb * ha * q2 == 0) by (nonlinear_arith)
                        requires
                            fb == 0 || ha == 0,
                    ;
                }
            }
            lemma_box_sum_ext(lo, hi, u16_of(), x, y);
        }
        lemma_box_sum_ext(lo, hi, u16_of(), swapped, left);
        assert(product_fn(f, h, k, w)(nu) == box_sum(lo, hi, u16_of(), left));
        assert(product_fn(h, f, k, w)(nu) == box_sum(lo, hi, u16_of(), right));
    }
    assert(product_fn(f, h, k, w) =~= product_fn(h, f, k, w));
}

/// When the products of classes of the rectangle have no negative coefficient, neither has
/// the product of two functions on its partitions with no negative value.
pub proof fn lemma_nonnegative_from_classes(
    f: spec_fn(Seq<u16>) -> int,
    h: spec_fn(Seq<u16>) -> int,
    k: nat,
    w: nat,
    nu: Seq<u16>,
)
    requires
        w <= u16::MAX,
        forall|x: Seq<u16>| #[trigger] f(x) != 0 ==> valid_parts(x, k, w),
        forall|x: Seq<u16>| #[trigger] h(x) != 0 ==> valid_parts(x, k, w),
        forall|x: Seq<u16>| #[trigger] f(x) >= 0,
        forall|x: Seq<u16>| #[trigger] h(x) >= 0,
        forall|lam: Seq<u16>, mu: Seq<u16>|
            valid_parts(lam, k, w) && valid_parts(mu, k, w) ==> #[trigger] product_fn(class_fn(lam), class_fn(mu), k, w)(
                nu,
            ) >= 0,
    ensures
        product_fn(f, h, k, w)(nu) >= 0,
{
    let lo = rect_lo(k);
    let hi = rect_hi(k, w);
    lemma_valid_in_rect(f, k, w);
    lemma_product_expand(f, h, k, w, nu);
    let outer = |mu: Seq<u16>|
        rect_sum(k, w, |lam: Seq<u16>| f(lam) * h(mu) * product_fn(class_fn(lam), class_fn(mu), k, w)(nu));
    assert forall|mu: Seq<u16>| #[trigger] outer(mu) >= 0 by {
        let t = |lam: Seq<u16>| f(lam) * h(mu) * product_fn(class_fn(lam), class_fn(mu), k, w)(nu);
        assert forall|lam: Seq<u16>| #[trigger] t(lam) >= 0 by {
            let a = f(lam);
            let b = h(mu);
            let c = product_fn(class_fn(lam), class_fn(mu), k, w)(nu);
            if a != 0 && b != 0 {
                assert(c >= 0);
                assert(a * b * c >= 0) by (nonlinear_arith)
                    requires
                        a >= 0 && b >= 0 && c >= 0,
                ;
            } else {
                assert(a * b * c == 0) by (nonlinear_arith)
                    requires
                        a == 0 || b == 0,
                ;
            }
        }
        lemma_box_sum_nonneg(lo, hi, u16_of(), t);
    }
    lemma_box_sum_nonneg(lo, hi, u16_of(), outer);
}

} // verus!
