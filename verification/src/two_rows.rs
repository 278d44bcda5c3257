//! Grassmannians of planes, `Gr(2, n)`: the Giambelli determinant has two terms, and applied to
//! the unit class it gives back the class of the partition.
use vstd::prelude::*;

use crate::expr::{class_fn, product_fn, rect_hi, rect_lo, special_fn, zero_fn};
use crate::giambelli::{
    chain_fn, giambelli_fn, giambelli_indices, giambelli_term, indices_in_range, inversions_before, is_perm,
    perm_sign, row_inversions,
};
use crate::laws::{law_pieri_on_class, lemma_one_row_class, one_row};
use crate::partition::{valid_parts, zero_parts};
use crate::pieri::{diff_sum, is_strip};
use crate::sums::{
    embeds, first_slice, in_box, lemma_box_sum_add, lemma_box_sum_point, lemma_box_sum_range, lemma_range_sum_ext,
    lemma_range_sum_restrict, range_sum,
};
use crate::pieri_commute::{lemma_part_sum_cons, lemma_two_strips_count, mid_hi, mid_lo, size_count, size_is};
use crate::partition::{fits_width, part_sum};
use crate::terms::{int_of_u16, lemma_u16_embeds, u16_of};

verus! {

/// `sigma_b * (sigma_a * f)` when `0 <= a, b <= w`, zero otherwise.
pub open spec fn two_step(f: spec_fn(Seq<u16>) -> int, w: nat, a: int, b: int) -> spec_fn(Seq<u16>) -> int {
    if 0 <= a <= w && 0 <= b <= w {
        special_fn(special_fn(f, 2, w, a), 2, w, b)
    } else {
        zero_fn()
    }
}

proof fn lemma_sign_two(p: Seq<int>)
    requires
        p.len() == 2,
    ensures
        perm_sign(p) == if p[0] > p[1] { -1int } else { 1int },
{
    assert(row_inversions(p, 1, 2) == 0);
    assert(row_inversions(p, 0, 1) == 0);
    assert(row_inversions(p, 0, 2) == if p[0] > p[1] { 1nat } else { 0nat });
    assert(inversions_before(p, 0) == 0);
    assert(inversions_before(p, 1) == row_inversions(p, 0, 2));
    assert(inversions_before(p, 2) == inversions_before(p, 1) + row_inversions(p, 1, 2));
}

proof fn lemma_chain_two(f: spec_fn(Seq<u16>) -> int, w: nat, rs: Seq<int>)
    requires
        rs.len() == 2,
    ensures
        chain_fn(f, 2, w, rs) == special_fn(special_fn(f, 2, w, rs[0]), 2, w, rs[1]),
{
    assert(rs.drop_last() =~= seq![rs[0]]);
    assert(seq![rs[0]].drop_last() =~= Seq::<int>::empty());
    assert(seq![rs[0]].last() == rs[0]);
    assert(chain_fn(f, 2, w, Seq::<int>::empty()) == f);
    assert(rs.last() == rs[1]);
    assert(chain_fn(f, 2, w, seq![rs[0]]) == special_fn(f, 2, w, rs[0]));
}

/// Giambelli's determinant for two rows: `sigma_mu = sigma_mu0 sigma_mu1 - sigma_(mu0+1) sigma_(mu1-1)`.
pub proof fn lemma_giambelli_two(f: spec_fn(Seq<u16>) -> int, w: nat, mu: Seq<u16>, nu: Seq<u16>)
    requires
        mu.len() == 2,
    ensures
        giambelli_fn(f, 2, w, mu)(nu) == two_step(f, w, mu[0] as int, mu[1] as int)(nu) - two_step(
            f,
            w,
            mu[0] + 1,
            mu[1] - 1,
        )(nu),
{
    let id = seq![0int, 1int];
    let sw = seq![1int, 0int];
    let lo = Seq::new(2, |i: int| 0int);
    let hi = Seq::new(2, |i: int| 2 - 1);
    let emb = |v: int| v;
    assert(embeds(lo, hi, emb, emb));
    let c1 = giambelli_term(f, 2, w, mu, id)(nu);
    let c2 = giambelli_term(f, 2, w, mu, sw)(nu);
    let t = |p: Seq<int>| giambelli_term(f, 2, w, mu, p)(nu);
    let t1 = |p: Seq<int>| if p == id { c1 } else { 0 };
    let t2 = |p: Seq<int>| if p == sw { c2 } else { 0 };
    assert(is_perm(id, 2));
    assert(is_perm(sw, 2));
    assert(id != sw) by {
        assert(id[0] != sw[0]);
    }
    assert forall|p: Seq<int>| #[trigger] t(p) == t1(p) + t2(p) by {
        if is_perm(p, 2) {
            if p[0] == 0 {
                assert(p =~= id);
            } else {
                assert(p =~= sw);
            }
        }
    }
    lemma_box_sum_add(lo, hi, emb, t, t1, t2);
    assert(in_box(lo, hi, emb, id));
    assert(in_box(lo, hi, emb, sw));
    lemma_box_sum_point(lo, hi, emb, emb, t1, id, c1);
    lemma_box_sum_point(lo, hi, emb, emb, t2, sw, c2);
    let i1 = giambelli_indices(mu, id);
    let i2 = giambelli_indices(mu, sw);
    assert(i1 =~= seq![mu[0] as int, mu[1] as int]);
    assert(i2 =~= seq![mu[0] + 1, mu[1] - 1]);
    lemma_sign_two(id);
    lemma_sign_two(sw);
    lemma_chain_two(f, w, i1);
    lemma_chain_two(f, w, i2);
    assert(indices_in_range(i1, w) == (0 <= mu[0] <= w && 0 <= mu[1] <= w)) by {
        assert(i1[0] == mu[0] && i1[1] == mu[1]);
    }
    assert(indices_in_range(i2, w) == (0 <= mu[0] + 1 <= w && 0 <= mu[1] - 1 <= w)) by {
        assert(i2[0] == mu[0] + 1 && i2[1] == mu[1] - 1);
    }
}

proof fn lemma_diff_two(nu: Seq<u16>, lam: Seq<u16>)
    requires
        nu.len() == 2,
    ensures
        diff_sum(nu, lam, 0) == nu[0] - lam[0] + nu[1] - lam[1],
{
    assert(diff_sum(nu, lam, 2) == 0);
    assert(diff_sum(nu, lam, 1) == nu[1] - lam[1] + diff_sum(nu, lam, 2));
    assert(diff_sum(nu, lam, 0) == nu[0] - lam[0] + diff_sum(nu, lam, 1));
}

/// For two rows, `nu / lam` is a horizontal strip of `r` boxes in the rectangle exactly when
/// `lam[0] <= nu[0] <= w`, `lam[1] <= nu[1] <= lam[0]` and `|nu| - |lam| == r`.
proof fn lemma_strip_two(w: nat, lam: Seq<u16>, nu: Seq<u16>, r: int)
    requires
        lam.len() == 2,
    ensures
        is_strip(2, w, lam, nu, r) == (nu.len() == 2 && lam[0] <= nu[0] <= w && lam[1] <= nu[1] <= w && nu[1]
            <= lam[0] && nu[0] - lam[0] + nu[1] - lam[1] == r),
{
    if nu.len() == 2 {
        lemma_diff_two(nu, lam);
        if lam[0] <= nu[0] <= w && lam[1] <= nu[1] <= w && nu[1] <= lam[0] {
            assert forall|i: int| 0 <= i < 2 implies lam[i] <= #[trigger] nu[i] <= w by {}
            assert forall|i: int| 0 < i < 2 implies #[trigger] nu[i] <= lam[i - 1] by {}
        }
        if is_strip(2, w, lam, nu, r) {
            assert(lam[0] <= nu[0] <= w);
            assert(lam[1] <= nu[1] <= w);
            assert(nu[1] <= lam[0]);
        }
    }
}

/// `sigma_r * sigma_lam` for a two-row partition `lam` and `0 <= r <= w`: one on the horizontal
/// strips of `r` boxes over `lam`.
proof fn lemma_special_on_class_two(w: nat, lam: Seq<u16>, r: int, nu: Seq<u16>)
    requires
        valid_parts(lam, 2, w),
        0 <= r <= w,
    ensures
        special_fn(class_fn(lam), 2, w, r)(nu) == if is_strip(2, w, lam, nu, r) { 1int } else { 0int },
{
    lemma_strip_two(w, lam, nu, r);
    if r == 0 {
        assert(lam[0] >= lam[1]);
        if nu.len() == 2 && lam[0] <= nu[0] && lam[1] <= nu[1] && nu[0] - lam[0] + nu[1] - lam[1] == 0 {
            assert(nu =~= lam);
        }
    } else {
        law_pieri_on_class(2, w, lam, r, nu);
    }
}

/// Giambelli's determinant for two rows applied to the unit class: the class of the partition.
pub proof fn lemma_giambelli_unit_two(w: nat, mu: Seq<u16>)
    requires
        w <= u16::MAX,
        valid_parts(mu, 2, w),
    ensures
        giambelli_fn(class_fn(zero_parts(2)), 2, w, mu) == class_fn(mu),
{
    let z = zero_parts(2);
    let a = mu[0];
    let b = mu[1];
    assert(a >= b);
    let top = one_row(2, a);
    lemma_one_row_class(2, w, a);
    assert(valid_parts(top, 2, w)) by {
        assert(top[0] == a && top[1] == 0);
    }
    assert forall|nu: Seq<u16>| #[trigger] giambelli_fn(class_fn(z), 2, w, mu)(nu) == class_fn(mu)(nu) by {
        lemma_giambelli_two(class_fn(z), w, mu, nu);
        lemma_special_on_class_two(w, top, b as int, nu);
        lemma_strip_two(w, top, nu, b as int);
        assert(top[0] == a && top[1] == 0);
        assert(two_step(class_fn(z), w, a as int, b as int)(nu) == if is_strip(2, w, top, nu, b as int) {
            1int
        } else {
            0int
        });
        if a + 1 <= w && b >= 1 {
            let next = one_row(2, (a + 1) as u16);
            lemma_one_row_class(2, w, (a + 1) as u16);
            assert(next[0] == a + 1 && next[1] == 0);
            assert(valid_parts(next, 2, w));
            lemma_special_on_class_two(w, next, b - 1, nu);
            lemma_strip_two(w, next, nu, b - 1);
            assert(two_step(class_fn(z), w, a + 1, b - 1)(nu) == if is_strip(2, w, next, nu, b - 1) {
                1int
            } else {
                0int
            });
        } else {
            assert(two_step(class_fn(z), w, a + 1, b - 1)(nu) == 0);
        }
        if nu.len() == 2 && nu[0] == a && nu[1] == b {
            assert(nu =~= mu);
        }
    }
    assert(giambelli_fn(class_fn(z), 2, w, mu) =~= class_fn(mu));
}

/// The number of integers in `lo..=hi`.
pub open spec fn interval_len(lo: int, hi: int) -> int {
    if hi < lo {
        0
    } else {
        hi - lo + 1
    }
}

proof fn lemma_range_ones(lo: int, hi: int)
    ensures
        range_sum(lo, hi, |v: int| 1int) == interval_len(lo, hi),
    decreases hi + 1 - lo,
{
    if hi >= lo {
        lemma_range_ones(lo, hi - 1);
    }
}

proof fn lemma_size_slice(lo: Seq<int>, hi: Seq<int>, q: int, v: int)
    requires
        lo.len() == hi.len(),
        lo.len() > 0,
        0 <= v <= u16::MAX,
    ensures
        first_slice(lo, hi, u16_of(), size_is(q))(v) == size_count(lo.drop_first(), hi.drop_first(), q - v),
{
    let f = size_is(q);
    assert forall|rest: Seq<u16>| #[trigger] f(seq![u16_of()(v)] + rest) == size_is(q - v)(rest) by {
        lemma_part_sum_cons(v as u16, rest);
    }
    assert((|rest: Seq<u16>| f(seq![u16_of()(v)] + rest)) =~= size_is(q - v));
}

/// The points of a segment `lo[0]..=hi[0]` with `t` boxes: one when `t` is in the segment.
proof fn lemma_size_count_one(lo: Seq<int>, hi: Seq<int>, t: int)
    requires
        lo.len() == 1,
        hi.len() == 1,
        0 <= lo[0],
        hi[0] <= u16::MAX,
    ensures
        size_count(lo, hi, t) == if lo[0] <= t <= hi[0] { 1int } else { 0int },
{
    lemma_box_sum_range(lo, hi, u16_of(), size_is(t));
    assert forall|v: int| lo[0] <= v <= hi[0] implies #[trigger] first_slice(lo, hi, u16_of(), size_is(t))(v) == (if t
        <= v <= t {
        1int
    } else {
        0int
    }) by {
        lemma_size_slice(lo, hi, t, v);
        assert(lo.drop_first() =~= Seq::<int>::empty());
        assert(part_sum(Seq::<u16>::empty()) == 0);
    }
    lemma_range_sum_ext(lo[0], hi[0], first_slice(lo, hi, u16_of(), size_is(t)), |v: int| if t <= v <= t { 1int } else { 0int });
    lemma_range_sum_restrict(lo[0], hi[0], t, t, |v: int| 1int);
    assert((|v: int| if t <= v <= t { 1int } else { 0int }) =~= (|v: int| if t <= v <= t { (|u: int| 1int)(v) } else { 0 }));
    let a = if lo[0] >= t { lo[0] } else { t };
    let b = if hi[0] <= t { hi[0] } else { t };
    lemma_range_ones(a, b);
}

/// The points of a rectangle with `s` boxes: the length of the segment of first coordinates
/// whose second coordinate `s - v` lies in range.
pub proof fn lemma_size_count_two(lo: Seq<int>, hi: Seq<int>, s: int)
    requires
        lo.len() == 2,
        hi.len() == 2,
        0 <= lo[0],
        0 <= lo[1],
        hi[0] <= u16::MAX,
        hi[1] <= u16::MAX,
    ensures
        size_count(lo, hi, s) == interval_len(
            if lo[0] >= s - hi[1] { lo[0] } else { s - hi[1] },
            if hi[0] <= s - lo[1] { hi[0] } else { s - lo[1] },
        ),
{
    let tlo = lo.drop_first();
    let thi = hi.drop_first();
    lemma_box_sum_range(lo, hi, u16_of(), size_is(s));
    let ind = |v: int| if s - hi[1] <= v <= s - lo[1] { 1int } else { 0int };
    assert forall|v: int| lo[0] <= v <= hi[0] implies #[trigger] first_slice(lo, hi, u16_of(), size_is(s))(v) == ind(
        v,
    ) by {
        lemma_size_slice(lo, hi, s, v);
        lemma_size_count_one(tlo, thi, s - v);
    }
    lemma_range_sum_ext(lo[0], hi[0], first_slice(lo, hi, u16_of(), size_is(s)), ind);
    lemma_range_sum_restrict(lo[0], hi[0], s - hi[1], s - lo[1], |v: int| 1int);
    assert(ind =~= (|v: int| if s - hi[1] <= v <= s - lo[1] { (|u: int| 1int)(v) } else { 0 }));
    let a = if lo[0] >= s - hi[1] { lo[0] } else { s - hi[1] };
    let b = if hi[0] <= s - lo[1] { hi[0] } else { s - lo[1] };
    lemma_range_ones(a, b);
}

proof fn lemma_part_sum_two(x: Seq<u16>)
    requires
        x.len() == 2,
    ensures
        part_sum(x) == x[0] + x[1],
{
    assert(x.drop_last().drop_last() =~= Seq::<u16>::empty());
    assert(part_sum(Seq::<u16>::empty()) == 0);
    assert(x.drop_last().last() == x[0]);
    assert(part_sum(x.drop_last()) == x[0]);
}

/// For two rows, the number of `kappa` between `lam` and `nu` with `|lam| + a` boxes when
/// `|nu| == |lam| + a + b`: the coefficient of `sigma_nu` in `sigma_b * (sigma_a * sigma_lam)`.
pub open spec fn two_count(w: nat, lam: Seq<u16>, a: int, b: int, nu: Seq<u16>) -> int {
    if nu.len() == 2 && nu[0] <= w && nu[1] <= w && nu[0] + nu[1] == lam[0] + lam[1] + a + b {
        let s = lam[0] + lam[1] + a;
        let lo0 = if lam[0] >= nu[1] { lam[0] as int } else { nu[1] as int };
        let hi1 = if nu[1] <= lam[0] { nu[1] as int } else { lam[0] as int };
        interval_len(
            if lo0 >= s - hi1 { lo0 } else { s - hi1 },
            if nu[0] <= s - lam[1] { nu[0] as int } else { s - lam[1] },
        )
    } else {
        0
    }
}

/// `sigma_b * (sigma_a * sigma_lam)` for two rows, as a count.
pub proof fn lemma_two_step_class(w: nat, lam: Seq<u16>, a: int, b: int, nu: Seq<u16>)
    requires
        w <= u16::MAX,
        valid_parts(lam, 2, w),
        0 <= a <= w,
        0 <= b <= w,
    ensures
        two_step(class_fn(lam), w, a, b)(nu) == two_count(w, lam, a, b, nu),
{
    assert(lam[0] >= lam[1]);
    lemma_part_sum_two(lam);
    if a == 0 {
        lemma_special_on_class_two(w, lam, b, nu);
        lemma_strip_two(w, lam, nu, b);
    } else if b == 0 {
        lemma_special_on_class_two(w, lam, a, nu);
        lemma_strip_two(w, lam, nu, a);
    } else if nu.len() == 2 && fits_width(nu, w) {
        lemma_part_sum_two(nu);
        lemma_two_strips_count(2, w, lam, a, b, nu);
        let lo = mid_lo(lam, nu);
        let hi = mid_hi(lam, nu, nu[0] as int);
        assert(lo =~= seq![if lam[0] >= nu[1] { lam[0] as int } else { nu[1] as int }, lam[1] as int]);
        assert(hi =~= seq![nu[0] as int, if nu[1] <= lam[0] { nu[1] as int } else { lam[0] as int }]);
        lemma_size_count_two(lo, hi, part_sum(lam) + a);
    } else {
        assert(!(nu.len() == 2 && nu[0] <= w && nu[1] <= w)) by {
            if nu.len() == 2 && nu[0] <= w && nu[1] <= w {
                assert(fits_width(nu, w));
            }
        }
    }
}

/// The coefficient of `sigma_nu` in `sigma_lam * sigma_mu` for two rows, by Giambelli's formula.
pub open spec fn two_product(w: nat, lam: Seq<u16>, mu: Seq<u16>, nu: Seq<u16>) -> int {
    two_count(w, lam, mu[0] as int, mu[1] as int, nu) - if mu[0] + 1 <= w && mu[1] >= 1 {
        two_count(w, lam, mu[0] + 1, mu[1] - 1, nu)
    } else {
        0
    }
}

/// The two-row structure constants are symmetric in the two factors.
proof fn lemma_two_product_symmetric(w: nat, lam: Seq<u16>, mu: Seq<u16>, nu: Seq<u16>)
    requires
        valid_parts(lam, 2, w),
        valid_parts(mu, 2, w),
    ensures
        two_product(w, lam, mu, nu) == two_product(w, mu, lam, nu),
{
    assert(lam[0] >= lam[1]);
    assert(mu[0] >= mu[1]);
    assert(lam[0] <= w && mu[0] <= w);
}

/// The coefficient of `sigma_nu` in the product of two classes of `Gr(2, w + 2)`.
pub proof fn lemma_class_product_two(w: nat, lam: Seq<u16>, mu: Seq<u16>, nu: Seq<u16>)
    requires
        w <= u16::MAX,
        valid_parts(lam, 2, w),
        valid_parts(mu, 2, w),
    ensures
        product_fn(class_fn(lam), class_fn(mu), 2, w)(nu) == two_product(w, lam, mu, nu),
{
    let lo = rect_lo(2);
    let hi = rect_hi(2, w);
    assert forall|t: int| 0 <= t < lo.len() implies 0 <= #[trigger] lo[t] && hi[t] <= u16::MAX by {}
    lemma_u16_embeds(lo, hi);
    assert(in_box(lo, hi, int_of_u16(), mu)) by {
        assert forall|i: int| 0 <= i < mu.len() implies lo[i] <= #[trigger] int_of_u16()(mu[i]) <= hi[i] by {
            assert(mu[i] <= w);
        }
    }
    let y = giambelli_fn(class_fn(lam), 2, w, mu)(nu);
    let t = |m: Seq<u16>| class_fn(mu)(m) * giambelli_fn(class_fn(lam), 2, w, m)(nu);
    assert forall|m: Seq<u16>| #[trigger] t(m) == if m == mu { y } else { 0 } by {}
    lemma_box_sum_point(lo, hi, u16_of(), int_of_u16(), t, mu, y);
    lemma_giambelli_two(class_fn(lam), w, mu, nu);
    assert(mu[0] >= mu[1] && mu[0] <= w);
    lemma_two_step_class(w, lam, mu[0] as int, mu[1] as int, nu);
    if mu[0] + 1 <= w && mu[1] >= 1 {
        lemma_two_step_class(w, lam, mu[0] + 1, mu[1] - 1, nu);
    }
}

/// In `Gr(2, w + 2)` the classes of the rectangle commute.
pub proof fn lemma_classes_commute_two(w: nat, lam: Seq<u16>, mu: Seq<u16>)
    requires
        w <= u16::MAX,
        valid_parts(lam, 2, w),
        valid_parts(mu, 2, w),
    ensures
        product_fn(class_fn(lam), class_fn(mu), 2, w) == product_fn(class_fn(mu), class_fn(lam), 2, w),
{
    assert forall|nu: Seq<u16>| #[trigger] product_fn(class_fn(lam), class_fn(mu), 2, w)(nu) == product_fn(
        class_fn(mu),
        class_fn(lam),
        2,
        w,
    )(nu) by {
        lemma_class_product_two(w, lam, mu, nu);
        lemma_class_product_two(w, mu, lam, nu);
        lemma_two_product_symmetric(w, lam, mu, nu);
    }
    assert(product_fn(class_fn(lam), class_fn(mu), 2, w) =~= product_fn(class_fn(mu), class_fn(lam), 2, w));
}

/// Poincare duality in `Gr(2, w + 2)`: the coefficient of the point class `sigma_(w,w)` in
/// `sigma_lam * sigma_mu` is one when `mu` is the complement `(w - lam[1], w - lam[0])` of `lam`
/// and zero otherwise.
pub proof fn lemma_duality_two(w: nat, lam: Seq<u16>, mu: Seq<u16>)
    requires
        w <= u16::MAX,
        valid_parts(lam, 2, w),
        valid_parts(mu, 2, w),
    ensures
        product_fn(class_fn(lam), class_fn(mu), 2, w)(seq![w as u16, w as u16]) == if mu[0] == w - lam[1] && mu[1]
            == w - lam[0] {
            1int
        } else {
            0int
        },
{
    let top = seq![w as u16, w as u16];
    lemma_class_product_two(w, lam, mu, top);
    assert(lam[0] >= lam[1] && mu[0] >= mu[1] && lam[0] <= w && mu[0] <= w);
    assert(top[0] == w && top[1] == w);
}

/// In `Gr(2, w + 2)` the product of two classes has no negative coefficient.
pub proof fn lemma_class_product_nonnegative_two(w: nat, lam: Seq<u16>, mu: Seq<u16>, nu: Seq<u16>)
    requires
        w <= u16::MAX,
        valid_parts(lam, 2, w),
        valid_parts(mu, 2, w),
    ensures
        product_fn(class_fn(lam), class_fn(mu), 2, w)(nu) >= 0,
{
    lemma_class_product_two(w, lam, mu, nu);
    assert(lam[0] >= lam[1] && mu[0] >= mu[1] && lam[0] <= w && mu[0] <= w);
}

} // verus!
