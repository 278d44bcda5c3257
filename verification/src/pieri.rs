use vstd::prelude::*;

use crate::errors::SchubertError;
use crate::grassmannian::Grassmannian;
use crate::partition::{fits_width, lex_lt, valid_for, validation_error, weakly_decreasing, Partition};
use crate::littlewood_richardson::lemma_lex_at;
use crate::sums::{box_sum, in_box, lemma_box_sum_ext};
use crate::terms::{box_weighted, int_of_u16, lc_coeff, lemma_box_sum_terms, lemma_u16_embeds, u16_of};

verus! {

/// The part sequences of a list of partitions.
pub open spec fn parts_of(v: Seq<Partition>) -> Seq<Seq<u16>> {
    v.map_values(|p: Partition| p@)
}

/// `sum over i >= from of (nu[i] - lam[i])`.
pub open spec fn diff_sum(nu: Seq<u16>, lam: Seq<u16>, from: int) -> int
    decreases nu.len() - from,
{
    if from < 0 || from >= nu.len() {
        0
    } else {
        (nu[from] - lam[from]) + diff_sum(nu, lam, from + 1)
    }
}

/// `nu / lam` is a horizontal strip of `r` boxes inside the `k x w` rectangle:
/// `lam[i] <= nu[i] <= w`, `nu[i] <= lam[i-1]`, and `|nu| - |lam| == r`.
pub open spec fn is_strip(k: nat, w: nat, lam: Seq<u16>, nu: Seq<u16>, r: int) -> bool {
    &&& lam.len() == k
    &&& nu.len() == k
    &&& forall|i: int| 0 <= i < k ==> lam[i] <= #[trigger] nu[i] <= w
    &&& forall|i: int| 0 < i < k ==> #[trigger] nu[i] <= lam[i - 1]
    &&& diff_sum(nu, lam, 0) == r
}

/// `nu` agrees with `cur` on its first `row` parts and completes it to a horizontal strip
/// over `lam` with `rem` boxes in rows `row..k`.
pub open spec fn completes(k: nat, w: nat, lam: Seq<u16>, cur: Seq<u16>, row: int, rem: int, nu: Seq<u16>) -> bool {
    &&& nu.len() == k
    &&& forall|i: int| 0 <= i < row ==> #[trigger] nu[i] == cur[i]
    &&& forall|i: int| row <= i < k ==> lam[i] <= #[trigger] nu[i] <= w
    &&& forall|i: int| row <= i < k && 0 < i ==> #[trigger] nu[i] <= lam[i - 1]
    &&& diff_sum(nu, lam, row) == rem
}

/// `x` has length `k` and agrees with `cur` on its first `row` parts.
pub open spec fn agrees(k: nat, x: Seq<u16>, cur: Seq<u16>, row: int) -> bool {
    &&& x.len() == k
    &&& forall|i: int| 0 <= i < row ==> #[trigger] x[i] == cur[i]
}

/// Lower corner of the box of all `lam` with `nu / lam` a horizontal strip: `lam[i] >= nu[i+1]`.
pub open spec fn strip_lo(nu: Seq<u16>) -> Seq<int> {
    Seq::new(nu.len(), |i: int| if i + 1 < nu.len() { nu[i + 1] as int } else { 0 })
}

/// Upper corner of the box of all `lam` with `nu / lam` a horizontal strip: `lam[i] <= nu[i]`.
pub open spec fn strip_hi(nu: Seq<u16>) -> Seq<int> {
    Seq::new(nu.len(), |i: int| nu[i] as int)
}

/// Pieri's rule on coefficient functions: the coefficient of `sigma_nu` in `f * sigma_r` is the
/// sum of `f(lam)` over all `lam` such that `nu / lam` is a horizontal strip of `r` boxes,
/// for `nu` inside the `k x w` rectangle.
pub open spec fn pieri_fn(f: spec_fn(Seq<u16>) -> int, k: nat, w: nat, r: int) -> spec_fn(Seq<u16>) -> int {
    |nu: Seq<u16>|
        if nu.len() == k && fits_width(nu, w) {
            box_sum(
                strip_lo(nu),
                strip_hi(nu),
                u16_of(),
                |lam: Seq<u16>| if diff_sum(nu, lam, 0) == r { f(lam) } else { 0 },
            )
        } else {
            0
        }
}

/// `sum over the terms (lam, c) of ts with nu / lam a horizontal r-strip of c`.
pub open spec fn strip_weighted(ts: Seq<(Seq<u16>, int)>, k: nat, w: nat, r: int, nu: Seq<u16>) -> int
    decreases ts.len(),
{
    if ts.len() == 0 {
        0
    } else {
        strip_weighted(ts.drop_last(), k, w, r, nu) + if is_strip(k, w, ts.last().0, nu, r) {
            ts.last().1
        } else {
            0
        }
    }
}

/// A horizontal strip over a valid partition is a valid partition.
pub proof fn lemma_strip_valid(g: Grassmannian, lam: Seq<u16>, nu: Seq<u16>, r: int)
    requires
        valid_for(lam, g),
        is_strip(g.k_spec(), g.w_spec(), lam, nu, r),
    ensures
        valid_for(nu, g),
{
    assert forall|i: int| 0 < i < nu.len() implies nu[i - 1] >= #[trigger] nu[i] by {
        assert(nu[i] <= lam[i - 1]);
        assert(lam[i - 1] <= nu[i - 1]);
    }
    assert(weakly_decreasing(nu));
}

/// A nonzero strip-weighted sum has a term under `nu`.
pub proof fn lemma_strip_weighted_support(ts: Seq<(Seq<u16>, int)>, k: nat, w: nat, r: int, nu: Seq<u16>)
    requires
        strip_weighted(ts, k, w, r, nu) != 0,
    ensures
        exists|i: int| 0 <= i < ts.len() && is_strip(k, w, #[trigger] ts[i].0, nu, r),
    decreases ts.len(),
{
    if ts.len() > 0 {
        if !is_strip(k, w, ts.last().0, nu, r) {
            lemma_strip_weighted_support(ts.drop_last(), k, w, r, nu);
            let i = choose|i: int| 0 <= i < ts.drop_last().len() && is_strip(k, w, #[trigger] ts.drop_last()[i].0, nu, r);
            assert(ts[i] == ts.drop_last()[i]);
        } else {
            assert(ts[ts.len() - 1] == ts.last());
        }
    }
}

proof fn lemma_strip_weighted_box(ts: Seq<(Seq<u16>, int)>, k: nat, w: nat, r: int, nu: Seq<u16>)
    requires
        forall|i: int| 0 <= i < ts.len() ==> (#[trigger] ts[i].0).len() == k,
        nu.len() == k,
        fits_width(nu, w),
    ensures
        strip_weighted(ts, k, w, r, nu) == box_weighted(
            ts,
            strip_lo(nu),
            strip_hi(nu),
            |lam: Seq<u16>| if diff_sum(nu, lam, 0) == r { 1int } else { 0int },
        ),
    decreases ts.len(),
{
    if ts.len() > 0 {
        assert forall|i: int| 0 <= i < ts.drop_last().len() implies (#[trigger] ts.drop_last()[i].0).len() == k by {
            assert(ts.drop_last()[i] == ts[i]);
        }
        lemma_strip_weighted_box(ts.drop_last(), k, w, r, nu);
        assert(ts.last() == ts[ts.len() - 1]);
        lemma_strip_box(k, w, ts.last().0, nu, r);
    }
}

proof fn lemma_strip_weighted_zero(ts: Seq<(Seq<u16>, int)>, k: nat, w: nat, r: int, nu: Seq<u16>)
    requires
        !(nu.len() == k && fits_width(nu, w)),
    ensures
        strip_weighted(ts, k, w, r, nu) == 0,
    decreases ts.len(),
{
    if ts.len() > 0 {
        lemma_strip_weighted_zero(ts.drop_last(), k, w, r, nu);
        if is_strip(k, w, ts.last().0, nu, r) {
            assert forall|i: int| 0 <= i < nu.len() implies #[trigger] nu[i] <= w by {}
        }
    }
}

/// Summing Pieri's rule over the terms of a combination gives `pieri_fn` of its coefficients.
pub proof fn lemma_strip_weighted_pieri(
    ts: Seq<(Seq<u16>, int)>,
    f: spec_fn(Seq<u16>) -> int,
    k: nat,
    w: nat,
    r: int,
    nu: Seq<u16>,
)
    requires
        forall|i: int| 0 <= i < ts.len() ==> (#[trigger] ts[i].0).len() == k,
        forall|key: Seq<u16>| #[trigger] f(key) == lc_coeff(ts, key),
    ensures
        strip_weighted(ts, k, w, r, nu) == pieri_fn(f, k, w, r)(nu),
{
    if nu.len() == k && fits_width(nu, w) {
        let wt = |lam: Seq<u16>| if diff_sum(nu, lam, 0) == r { 1int } else { 0int };
        lemma_strip_weighted_box(ts, k, w, r, nu);
        assert forall|i: int| 0 <= i < strip_lo(nu).len() implies 0 <= #[trigger] strip_lo(nu)[i] && strip_hi(
            nu,
        )[i] <= u16::MAX by {}
        lemma_u16_embeds(strip_lo(nu), strip_hi(nu));
        lemma_box_sum_terms(ts, strip_lo(nu), strip_hi(nu), wt);
        let inner = |lam: Seq<u16>| if diff_sum(nu, lam, 0) == r { f(lam) } else { 0 };
        lemma_box_sum_ext(strip_lo(nu), strip_hi(nu), u16_of(), |x: Seq<u16>| lc_coeff(ts, x) * wt(x), inner);
    } else {
        lemma_strip_weighted_zero(ts, k, w, r, nu);
    }
}

pub proof fn lemma_diff_sum_nonneg(nu: Seq<u16>, lam: Seq<u16>, from: int)
    requires
        0 <= from,
        forall|i: int| from <= i < nu.len() ==> lam[i] <= #[trigger] nu[i],
    ensures
        diff_sum(nu, lam, from) >= 0,
    decreases nu.len() - from,
{
    if from < nu.len() {
        lemma_diff_sum_nonneg(nu, lam, from + 1);
    }
}

/// For `lam` with `k` parts, `nu / lam` is a horizontal `r`-strip exactly when `nu` fits the
/// rectangle, `lam` lies in the strip box of `nu`, and the sizes differ by `r`.
pub proof fn lemma_strip_box(k: nat, w: nat, lam: Seq<u16>, nu: Seq<u16>, r: int)
    requires
        lam.len() == k,
    ensures
        is_strip(k, w, lam, nu, r) <==> (nu.len() == k && fits_width(nu, w) && in_box(
            strip_lo(nu),
            strip_hi(nu),
            int_of_u16(),
            lam,
        ) && diff_sum(nu, lam, 0) == r),
{
    if nu.len() == k && fits_width(nu, w) && in_box(strip_lo(nu), strip_hi(nu), int_of_u16(), lam) {
        assert forall|i: int| 0 <= i < k implies lam[i] <= #[trigger] nu[i] <= w by {
            assert(int_of_u16()(lam[i]) <= strip_hi(nu)[i]);
        }
        assert forall|i: int| 0 < i < k implies #[trigger] nu[i] <= lam[i - 1] by {
            assert(strip_lo(nu)[i - 1] <= int_of_u16()(lam[i - 1]));
        }
    }
    if is_strip(k, w, lam, nu, r) {
        assert forall|i: int| 0 <= i < lam.len() implies strip_lo(nu)[i] <= #[trigger] int_of_u16()(lam[i])
            <= strip_hi(nu)[i] by {
            if i + 1 < k {
                assert(nu[i + 1] <= lam[i]);
            }
            assert(lam[i] <= nu[i]);
        }
    }
}

/// From position `from` on, each part sequence of `s` comes lexicographically after the
/// previous one.
pub open spec fn ascending(s: Seq<Seq<u16>>, from: int) -> bool {
    forall|a: int, b: int| from <= a < b < s.len() ==> lex_lt(#[trigger] s[a], #[trigger] s[b])
}

/// The strips found for the part `nu_i` in row `row` come after, and lexicographically after,
/// those found for the smaller parts.
proof fn lemma_ascending_step(
    out1: Seq<Seq<u16>>,
    outn: Seq<Seq<u16>>,
    len0: int,
    kk: nat,
    cur0: Seq<u16>,
    cur1: Seq<u16>,
    row: int,
    nu_i: int,
)
    requires
        0 <= len0 <= out1.len() <= outn.len(),
        outn.subrange(0, out1.len() as int) == out1,
        ascending(out1, len0),
        ascending(outn, out1.len() as int),
        0 <= row < kk,
        forall|i: int| 0 <= i < row ==> #[trigger] cur1[i] == cur0[i],
        cur1[row] == nu_i,
        forall|j: int| len0 <= j < out1.len() ==> agrees(kk, #[trigger] out1[j], cur0, row) && out1[j][row] < nu_i,
        forall|j: int| out1.len() <= j < outn.len() ==> agrees(kk, #[trigger] outn[j], cur1, row + 1),
    ensures
        ascending(outn, len0),
{
    let len1 = out1.len() as int;
    assert forall|a: int, b: int| len0 <= a < b < outn.len() implies lex_lt(#[trigger] outn[a], #[trigger] outn[b]) by {
        if b < len1 {
            assert(outn[a] == out1[a]);
            assert(outn[b] == out1[b]);
        } else if a < len1 {
            let x = outn[a];
            let y = outn[b];
            assert(x == out1[a]);
            assert(agrees(kk, out1[a], cur0, row));
            assert(agrees(kk, y, cur1, row + 1));
            assert(y[row] == cur1[row]);
            assert forall|i: int| 0 <= i < row implies #[trigger] x[i] == y[i] by {
                assert(y[i] == cur1[i]);
                assert(x[i] == cur0[i]);
            }
            lemma_lex_at(x, y, row);
        }
    }
}

/// A sequence whose items ascend lexicographically holds no item twice.
proof fn lemma_ascending_distinct(s: Seq<Seq<u16>>)
    requires
        ascending(s, 0),
    ensures
        s.no_duplicates(),
{
    assert forall|a: int, b: int| 0 <= a < s.len() && 0 <= b < s.len() && a != b implies s[a] != s[b] by {
        if a < b {
            assert(lex_lt(s[a], s[b]));
            lemma_lex_irreflexive(s[a]);
        } else {
            assert(lex_lt(s[b], s[a]));
            lemma_lex_irreflexive(s[b]);
        }
    }
}

pub(crate) proof fn lemma_lex_irreflexive(x: Seq<u16>)
    ensures
        !lex_lt(x, x),
    decreases x.len(),
{
    if x.len() > 0 {
        lemma_lex_irreflexive(x.drop_first());
    }
}

fn generate_horizontal_strips(
    g: &Grassmannian,
    lambda: &[u16],
    remaining: usize,
    row: usize,
    current: &mut Vec<u16>,
    out: &mut Vec<Partition>,
)
    requires
        row <= g.k_spec(),
        valid_for(lambda@, *g),
        old(current)@.len() == g.k_spec(),
    ensures
        final(current)@.len() == g.k_spec(),
        agrees(g.k_spec(), final(current)@, old(current)@, row as int),
        old(out)@.len() <= final(out)@.len(),
        parts_of(final(out)@).subrange(0, old(out)@.len() as int) == parts_of(old(out)@),
        forall|j: int|
            old(out)@.len() <= j < final(out)@.len() ==> completes(
                g.k_spec(),
                g.w_spec(),
                lambda@,
                old(current)@,
                row as int,
                remaining as int,
                #[trigger] parts_of(final(out)@)[j],
            ),
        forall|x: Seq<u16>|
            completes(g.k_spec(), g.w_spec(), lambda@, old(current)@, row as int, remaining as int, x)
                ==> #[trigger] parts_of(final(out)@).subrange(old(out)@.len() as int, final(out)@.len() as int).contains(x),
        ascending(parts_of(final(out)@), old(out)@.len() as int),
    decreases g.k_spec() - row,
{
    let k = g.k();
    let w = g.width();
    let ghost cur0 = current@;
    let ghost out0 = parts_of(out@);
    let ghost len0 = out@.len();
    let ghost kk = k as nat;
    let ghost ww = w as nat;
    if row == k {
        if remaining == 0 {
            let p = Partition::from_normalized_unchecked(current.clone());
            let ghost pv = p@;
            out.push(p);
            proof {
                assert(parts_of(out@) =~= out0.push(pv));
                assert(pv == cur0);
                assert forall|x: Seq<u16>|
                    completes(kk, ww, lambda@, cur0, row as int, remaining as int, x) implies #[trigger] parts_of(
                    out@,
                ).subrange(len0 as int, out@.len() as int).contains(x) by {
                    assert(x =~= cur0);
                    assert(parts_of(out@).subrange(len0 as int, out@.len() as int)[0] == x);
                }
                assert(diff_sum(cur0, lambda@, row as int) == 0);
            }
        } else {
            proof {
                assert forall|x: Seq<u16>|
                    completes(kk, ww, lambda@, cur0, row as int, remaining as int, x) implies #[trigger] parts_of(
                    out@,
                ).subrange(len0 as int, out@.len() as int).contains(x) by {
                    assert(diff_sum(x, lambda@, row as int) == 0);
                }
                assert(parts_of(out@).subrange(0, len0 as int) =~= out0);
            }
        }
        proof {
            assert(parts_of(out@).subrange(0, len0 as int) =~= out0);
        }
        return;
    }
    let lower = lambda[row] as usize;
    let upper = if row == 0 {
        w
    } else if w < lambda[row - 1] as usize {
        w
    } else {
        lambda[row - 1] as usize
    };
    let mut nu_i = lower;
    while nu_i <= upper
        invariant
            k == g.k_spec(),
            w == g.w_spec(),
            kk == k,
            ww == w,
            row < k,
            valid_for(lambda@, *g),
            lower == lambda@[row as int],
            upper == (if row == 0 { w as int } else if w < lambda@[row - 1] { w as int } else { lambda@[row - 1] as int }),
            lower <= nu_i <= upper + 1,
            upper <= w,
            w <= u16::MAX,
            cur0.len() == k,
            current@.len() == k,
            agrees(kk, current@, cur0, row as int),
            len0 <= out@.len(),
            parts_of(out@).subrange(0, len0 as int) == out0,
            forall|j: int|
                len0 <= j < out@.len() ==> completes(
                    kk,
                    ww,
                    lambda@,
                    cur0,
                    row as int,
                    remaining as int,
                    #[trigger] parts_of(out@)[j],
                ) && parts_of(out@)[j][row as int] < nu_i,
            forall|x: Seq<u16>|
                completes(kk, ww, lambda@, cur0, row as int, remaining as int, x) && x[row as int] < nu_i
                    ==> #[trigger] parts_of(out@).subrange(len0 as int, out@.len() as int).contains(x),
            ascending(parts_of(out@), len0 as int),
        ensures
            current@.len() == k,
            agrees(kk, current@, cur0, row as int),
            len0 <= out@.len(),
            parts_of(out@).subrange(0, len0 as int) == out0,
            forall|j: int|
                len0 <= j < out@.len() ==> completes(
                    kk,
                    ww,
                    lambda@,
                    cur0,
                    row as int,
                    remaining as int,
                    #[trigger] parts_of(out@)[j],
                ),
            forall|x: Seq<u16>|
                completes(kk, ww, lambda@, cur0, row as int, remaining as int, x) ==> #[trigger] parts_of(
                    out@,
                ).subrange(len0 as int, out@.len() as int).contains(x),
            ascending(parts_of(out@), len0 as int),
        decreases upper + 1 - nu_i,
    {
        let added = nu_i - lower;
        if added > remaining {
            proof {
                assert forall|x: Seq<u16>|
                    completes(kk, ww, lambda@, cur0, row as int, remaining as int, x) implies #[trigger] parts_of(
                    out@,
                ).subrange(len0 as int, out@.len() as int).contains(x) by {
                    lemma_diff_sum_nonneg(x, lambda@, row + 1);
                    assert(lambda@[row as int] <= x[row as int]);
                    assert(x[row as int] < nu_i);
                }
            }
            break;
        }
        let ghost out1 = parts_of(out@);
        let ghost len1 = out@.len();
        current.set(row, nu_i as u16);
        let ghost cur1 = current@;
        proof {
            assert(cur1[row as int] == nu_i);
        }
        generate_horizontal_strips(g, lambda, remaining - added, row + 1, current, out);
        proof {
            let outn = parts_of(out@);
            assert forall|j: int| len0 <= j < out1.len() implies agrees(kk, #[trigger] out1[j], cur0, row as int)
                && out1[j][row as int] < nu_i by {
                assert(completes(kk, ww, lambda@, cur0, row as int, remaining as int, out1[j]));
            }
            lemma_ascending_step(out1, outn, len0 as int, kk, cur0, cur1, row as int, nu_i as int);
            assert(outn.subrange(0, len0 as int) =~= out0) by {
                assert forall|j: int| 0 <= j < len0 implies outn[j] == out0[j] by {
                    assert(outn.subrange(0, len1 as int)[j] == out1[j]);
                    assert(out1.subrange(0, len0 as int)[j] == out0[j]);
                }
            }
            assert forall|j: int| len0 <= j < outn.len() implies completes(
                kk,
                ww,
                lambda@,
                cur0,
                row as int,
                remaining as int,
                #[trigger] outn[j],
            ) && outn[j][row as int] < nu_i + 1 by {
                if j < len1 {
                    assert(outn.subrange(0, len1 as int)[j] == out1[j]);
                    assert(outn[j] == out1[j]);
                } else {
                    let x = outn[j];
                    assert(completes(kk, ww, lambda@, cur1, row + 1, (remaining - added) as int, x));
                    assert(x[row as int] == nu_i);
                    assert forall|i: int| 0 <= i < row implies #[trigger] x[i] == cur0[i] by {
                        assert(x[i] == cur1[i]);
                    }
                }
            }
            assert forall|x: Seq<u16>|
                completes(kk, ww, lambda@, cur0, row as int, remaining as int, x) && x[row as int] < nu_i + 1
                    implies #[trigger] outn.subrange(len0 as int, outn.len() as int).contains(x) by {
                if x[row as int] < nu_i {
                    assert(out1.subrange(len0 as int, len1 as int).contains(x));
                    let j = choose|j: int|
                        0 <= j < len1 - len0 && #[trigger] out1.subrange(len0 as int, len1 as int)[j] == x;
                    assert(out1[len0 + j] == x);
                    assert(outn.subrange(0, len1 as int)[len0 + j] == out1[len0 + j]);
                    assert(outn.subrange(len0 as int, outn.len() as int)[j] == x);
                } else {
                    assert forall|i: int| 0 <= i < row + 1 implies #[trigger] x[i] == cur1[i] by {
                        if i < row {
                            assert(x[i] == cur0[i]);
                        }
                    }
                    assert(completes(kk, ww, lambda@, cur1, row + 1, (remaining - added) as int, x));
                    assert(outn.subrange(len1 as int, outn.len() as int).contains(x));
                    let j = choose|j: int|
                        0 <= j < outn.len() - len1 && #[trigger] outn.subrange(len1 as int, outn.len() as int)[j] == x;
                    assert(outn[len1 + j] == x);
                    assert(outn.subrange(len0 as int, outn.len() as int)[len1 - len0 + j] == x);
                }
            }
        }
        nu_i = nu_i + 1;
    }
}

/// The partitions `nu` in the rectangle of `g` with `nu / lambda` a horizontal strip of `r` boxes,
/// each once, in increasing lexicographic order; `[lambda]` when `r == 0`, none when `r > n-k`.
pub(crate) fn multiply_partition_by_special(g: &Grassmannian, lambda: &Partition, r: usize) -> (res: Result<
    Vec<Partition>,
    SchubertError,
>)
    ensures
        res is Ok <==> valid_for(lambda@, *g),
        res matches Err(e) ==> validation_error(lambda@, *g, e),
        res matches Ok(v) ==> {
            &&& r == 0 ==> parts_of(v@) == seq![lambda@]
            &&& r > g.w_spec() ==> v@.len() == 0
            &&& 0 < r <= g.w_spec() ==> parts_of(v@).no_duplicates() && forall|x: Seq<u16>|
                #[trigger] parts_of(v@).contains(x) <==> is_strip(g.k_spec(), g.w_spec(), lambda@, x, r as int)
            &&& ascending(parts_of(v@), 0)
        },
{
    lambda.validate_for(g)?;
    if r == 0 {
        let mut v: Vec<Partition> = Vec::new();
        v.push(lambda.clone());
        proof {
            assert(parts_of(v@) =~= seq![lambda@]);
        }
        return Ok(v);
    }
    if r > g.width() {
        return Ok(Vec::new());
    }
    let k = g.k();
    let mut current: Vec<u16> = Vec::new();
    while current.len() < k
        invariant
            current@.len() <= k,
        decreases k - current.len(),
    {
        current.push(0);
    }
    let ghost cur0 = current@;
    let mut out: Vec<Partition> = Vec::new();
    generate_horizontal_strips(g, lambda.parts(), r, 0, &mut current, &mut out);
    proof {
        assert(parts_of(out@).subrange(0, out@.len() as int) =~= parts_of(out@));
        lemma_ascending_distinct(parts_of(out@));
        assert forall|x: Seq<u16>| #[trigger] parts_of(out@).contains(x) <==> is_strip(
            g.k_spec(),
            g.w_spec(),
            lambda@,
            x,
            r as int,
        ) by {
            if parts_of(out@).contains(x) {
                let j = choose|j: int| 0 <= j < parts_of(out@).len() && parts_of(out@)[j] == x;
                assert(completes(g.k_spec(), g.w_spec(), lambda@, cur0, 0, r as int, parts_of(out@)[j]));
            }
            if is_strip(g.k_spec(), g.w_spec(), lambda@, x, r as int) {
                assert(completes(g.k_spec(), g.w_spec(), lambda@, cur0, 0, r as int, x));
            }
        }
    }
    Ok(out)
}

} // verus!
