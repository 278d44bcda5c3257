//! Classical Littlewood-Richardson multiplication for Grassmannian Schubert classes.
//!
//! The coefficient `c^nu_{lambda,mu}` is counted by semistandard tableaux of skew shape
//! `nu / lambda` and content `mu`.  Cells are filled in reading-word order: top row to
//! bottom row, right to left within each row.  Every prefix of that word must be a
//! lattice (Yamanouchi) word.
use vstd::prelude::*;

use crate::grassmannian::Grassmannian;
use crate::errors::SchubertError;
use crate::expr::{class_error, class_fails, keys_valid, lemma_keys_valid_from_support, rect_hi, rect_lo, SchubertExpr};
use crate::integer::{big_add, big_is_zero, big_mul, Integer};
use crate::sums::{box_sum, in_box};
use crate::terms::{box_weighted, canonical, int_of_u16, lc_coeff, lemma_box_sum_terms, lemma_u16_embeds, terms_view, u16_of};
use crate::partition::{fits_width, lex_lt, part_sum, valid_for, valid_parts, weakly_decreasing, Partition};
use crate::pieri::parts_of;

verus! {

/// The cells `(r, c)` of row `r` of `nu / lam`, right to left.
pub open spec fn row_cells(lam: Seq<u16>, nu: Seq<u16>, r: int) -> Seq<(int, int)> {
    Seq::new(
        if nu[r] > lam[r] { (nu[r] - lam[r]) as nat } else { 0 },
        |j: int| (r, nu[r] - 1 - j),
    )
}

/// The cells of rows `0..rows` of `nu / lam` in reading order.
pub open spec fn cells_upto(lam: Seq<u16>, nu: Seq<u16>, rows: int) -> Seq<(int, int)>
    decreases rows,
{
    if rows <= 0 {
        Seq::empty()
    } else {
        cells_upto(lam, nu, rows - 1) + row_cells(lam, nu, rows - 1)
    }
}

/// The cells of `nu / lam` in reading order: top row first, right to left in each row.
pub open spec fn reading_cells(lam: Seq<u16>, nu: Seq<u16>) -> Seq<(int, int)> {
    cells_upto(lam, nu, lam.len() as int)
}

/// A list of cells as pairs of integers.
pub open spec fn cells_view(v: Seq<(usize, usize)>) -> Seq<(int, int)> {
    v.map_values(|c: (usize, usize)| (c.0 as int, c.1 as int))
}

/// Every count is at least the next one.
pub open spec fn lattice(counts: Seq<usize>) -> bool {
    forall|i: int| 0 <= i < counts.len() - 1 ==> #[trigger] counts[i] >= counts[i + 1]
}

/// The cells of `nu / lambda` in reading order: top row first, right to left in each row.
fn reading_word_cells(lambda: &Partition, nu: &Partition) -> (r: Vec<(usize, usize)>)
    requires
        lambda@.len() <= nu@.len(),
    ensures
        cells_view(r@) == reading_cells(lambda@, nu@),
{
    let lam = lambda.parts();
    let nup = nu.parts();
    let mut cells: Vec<(usize, usize)> = Vec::new();
    let mut row: usize = 0;
    while row < lam.len()
        invariant
            row <= lam@.len(),
            lam@ == lambda@,
            nup@ == nu@,
            lam@.len() <= nup@.len(),
            cells_view(cells@) == cells_upto(lam@, nup@, row as int),
        decreases lam.len() - row,
    {
        let lo = lam[row] as usize;
        let mut col = nup[row] as usize;
        let ghost base = cells_view(cells@);
        while col > lo
            invariant
                row < lam@.len(),
                lam@.len() <= nup@.len(),
                lo == lam@[row as int],
                lo <= col <= nup@[row as int] || (col == nup@[row as int] && col < lo),
                col <= nup@[row as int],
                cells_view(cells@) == base + row_cells(lam@, nup@, row as int).subrange(
                    0,
                    nup@[row as int] - col,
                ),
            decreases col,
        {
            let ghost before = cells@;
            cells.push((row, col - 1));
            proof {
                assert(cells@ == before.push((row, (col - 1) as usize)));
                assert(cells_view(cells@) =~= cells_view(before).push((row as int, col - 1)));
                assert(row_cells(lam@, nup@, row as int)[nup@[row as int] - col] == (row as int, col - 1));
                assert(cells_view(cells@) =~= base + row_cells(lam@, nup@, row as int).subrange(
                    0,
                    nup@[row as int] - col + 1,
                ));
            }
            col = col - 1;
        }
        proof {
            if nup@[row as int] > lam@[row as int] {
                assert(row_cells(lam@, nup@, row as int).subrange(0, nup@[row as int] - col) =~= row_cells(
                    lam@,
                    nup@,
                    row as int,
                ));
            } else {
                assert(row_cells(lam@, nup@, row as int).subrange(0, nup@[row as int] - col) =~= row_cells(
                    lam@,
                    nup@,
                    row as int,
                ));
            }
        }
        row = row + 1;
    }
    cells
}

/// Whether every prefix count is at least the next one.
fn is_lattice_prefix(prefix_counts: &[usize]) -> (r: bool)
    ensures
        r == lattice(prefix_counts@),
{
    let n = prefix_counts.len();
    if n == 0 {
        return true;
    }
    let mut i: usize = 0;
    while i < n - 1
        invariant
            n == prefix_counts@.len(),
            n > 0,
            forall|j: int| 0 <= j < i && j + 1 < prefix_counts@.len() ==> #[trigger] prefix_counts@[j]
                >= prefix_counts@[j + 1],
        decreases n - i,
    {
        if prefix_counts[i] < prefix_counts[i + 1] {
            return false;
        }
        i = i + 1;
    }
    true
}

/// `x[a] + x[a+1] + ... + x[b-1]`.
pub open spec fn seg_sum(x: Seq<u16>, a: int, b: int) -> int
    decreases b - a,
{
    if b <= a {
        0
    } else {
        seg_sum(x, a, b - 1) + x[b - 1]
    }
}

/// `nu` contains `lam`: `nu[i] >= lam[i]` in every row.
pub open spec fn contains_parts(nu: Seq<u16>, lam: Seq<u16>) -> bool {
    forall|i: int| 0 <= i < nu.len() ==> #[trigger] nu[i] >= lam[i]
}

/// `x` has `k` parts, starts with `cur[0..row]`, contains `lam` from row `row` on, is weakly
/// decreasing from row `row` on with `x[row] <= max_part`, and has `target` boxes.
pub open spec fn extends(
    k: nat,
    lam: Seq<u16>,
    target: int,
    cur: Seq<u16>,
    row: int,
    max_part: int,
    x: Seq<u16>,
) -> bool {
    &&& x.len() == k
    &&& forall|i: int| 0 <= i < row ==> #[trigger] x[i] == cur[i]
    &&& forall|i: int| row <= i < k ==> #[trigger] x[i] >= lam[i]
    &&& row < k ==> x[row] <= max_part
    &&& forall|i: int| row < i < k ==> #[trigger] x[i] <= x[i - 1]
    &&& seg_sum(x, 0, k as int) == target
}

proof fn lemma_seg_split(x: Seq<u16>, a: int, m: int, b: int)
    requires
        a <= m <= b,
    ensures
        seg_sum(x, a, b) == seg_sum(x, a, m) + seg_sum(x, m, b),
    decreases b - m,
{
    if b > m {
        lemma_seg_split(x, a, m, b - 1);
    }
}

proof fn lemma_seg_agree(x: Seq<u16>, y: Seq<u16>, a: int, b: int)
    requires
        forall|i: int| a <= i < b ==> #[trigger] x[i] == y[i],
    ensures
        seg_sum(x, a, b) == seg_sum(y, a, b),
    decreases b - a,
{
    if b > a {
        lemma_seg_agree(x, y, a, b - 1);
    }
}

proof fn lemma_seg_ge(x: Seq<u16>, y: Seq<u16>, a: int, b: int)
    requires
        forall|i: int| a <= i < b ==> #[trigger] x[i] >= y[i],
    ensures
        seg_sum(x, a, b) >= seg_sum(y, a, b),
    decreases b - a,
{
    if b > a {
        lemma_seg_ge(x, y, a, b - 1);
    }
}

proof fn lemma_seg_bound(x: Seq<u16>, a: int, b: int, m: int)
    requires
        a <= b,
        forall|i: int| a <= i < b ==> #[trigger] x[i] <= m,
    ensures
        seg_sum(x, a, b) <= (b - a) * m,
    decreases b - a,
{
    if b > a {
        lemma_seg_bound(x, a, b - 1, m);
        assert(x[b - 1] <= m);
        assert(seg_sum(x, a, b) == seg_sum(x, a, b - 1) + x[b - 1]);
        assert((b - 1 - a) * m + m == (b - a) * m) by (nonlinear_arith);
    } else {
        assert((b - a) * m == 0) by (nonlinear_arith)
            requires
                b == a,
        ;
    }
}

proof fn lemma_seg_nonneg(x: Seq<u16>, a: int, b: int)
    ensures
        seg_sum(x, a, b) >= 0,
    decreases b - a,
{
    if b > a {
        lemma_seg_nonneg(x, a, b - 1);
    }
}

/// From position `from` on, each part sequence of `s` comes lexicographically before the
/// previous one.
pub open spec fn descending(s: Seq<Seq<u16>>, from: int) -> bool {
    forall|a: int, b: int| from <= a < b < s.len() ==> lex_lt(#[trigger] s[b], #[trigger] s[a])
}

/// Sequences that agree before position `row` are ordered by their entries at `row`.
pub(crate) proof fn lemma_lex_at(x: Seq<u16>, y: Seq<u16>, row: int)
    requires
        0 <= row < x.len(),
        row < y.len(),
        forall|i: int| 0 <= i < row ==> #[trigger] x[i] == y[i],
        x[row] < y[row],
    ensures
        lex_lt(x, y),
    decreases row,
{
    if row > 0 {
        assert(x[0] == y[0]);
        assert forall|i: int| 0 <= i < row - 1 implies #[trigger] x.drop_first()[i] == y.drop_first()[i] by {
            assert(x[i + 1] == y[i + 1]);
        }
        lemma_lex_at(x.drop_first(), y.drop_first(), row - 1);
    }
}

/// The partitions found for a part `part` in row `row` come after, and lexicographically before,
/// those found for the larger parts.
/// After the search below row `row` with part `part`, every completion whose part in row
/// `row` is at least `part` has been found.
#[verifier::spinoff_prover]
#[verifier::rlimit(40)]
proof fn lemma_found_after_step(
    out1: Seq<Seq<u16>>,
    outn: Seq<Seq<u16>>,
    len0: int,
    kk: nat,
    lam: Seq<u16>,
    target: int,
    cur0: Seq<u16>,
    cur1: Seq<u16>,
    row: int,
    max_part: int,
    part: int,
)
    requires
        0 <= len0 <= out1.len() <= outn.len(),
        outn.subrange(0, out1.len() as int) == out1,
        0 <= row < kk,
        cur0.len() == row,
        cur1 == cur0.push(part as u16),
        0 <= part <= u16::MAX,
        forall|x: Seq<u16>|
            extends(kk, lam, target, cur0, row, max_part, x) && x[row] >= part + 1
                ==> #[trigger] out1.subrange(len0, out1.len() as int).contains(x),
        forall|x: Seq<u16>|
            extends(kk, lam, target, cur1, row + 1, part, x) ==> #[trigger] outn.subrange(
                out1.len() as int,
                outn.len() as int,
            ).contains(x),
    ensures
        forall|x: Seq<u16>|
            extends(kk, lam, target, cur0, row, max_part, x) && x[row] >= part
                ==> #[trigger] outn.subrange(len0, outn.len() as int).contains(x),
{
    let len1 = out1.len() as int;
    assert forall|x: Seq<u16>|
        extends(kk, lam, target, cur0, row, max_part, x) && x[row] >= part implies #[trigger] outn.subrange(
        len0,
        outn.len() as int,
    ).contains(x) by {
        if x[row] > part {
            assert(out1.subrange(len0, len1).contains(x));
            let j = choose|j: int| 0 <= j < len1 - len0 && #[trigger] out1.subrange(len0, len1)[j] == x;
            assert(out1[len0 + j] == x);
            assert(outn.subrange(0, len1)[len0 + j] == out1[len0 + j]);
            assert(outn.subrange(len0, outn.len() as int)[j] == x);
        } else {
            assert forall|i: int| 0 <= i < row + 1 implies #[trigger] x[i] == cur1[i] by {
                if i < row {
                    assert(x[i] == cur0[i]);
                }
            }
            if row + 1 < kk {
                assert(x[row + 1] <= x[row]);
            }
            assert(extends(kk, lam, target, cur1, row + 1, part, x));
            assert(outn.subrange(len1, outn.len() as int).contains(x));
            let j = choose|j: int| 0 <= j < outn.len() - len1 && #[trigger] outn.subrange(len1, outn.len() as int)[j] == x;
            assert(outn[len1 + j] == x);
            assert(outn.subrange(len0, outn.len() as int)[len1 - len0 + j] == x);
        }
    }
}

/// A sequence whose items descend lexicographically holds no item twice.
proof fn lemma_descending_distinct(s: Seq<Seq<u16>>)
    requires
        descending(s, 0),
    ensures
        s.no_duplicates(),
{
    assert forall|a: int, b: int| 0 <= a < s.len() && 0 <= b < s.len() && a != b implies s[a] != s[b] by {
        if a < b {
            assert(lex_lt(s[b], s[a]));
            crate::pieri::lemma_lex_irreflexive(s[a]);
        } else {
            assert(lex_lt(s[a], s[b]));
            crate::pieri::lemma_lex_irreflexive(s[b]);
        }
    }
}

proof fn lemma_descending_step(
    out1: Seq<Seq<u16>>,
    outn: Seq<Seq<u16>>,
    len0: int,
    kk: nat,
    lam: Seq<u16>,
    target: int,
    cur0: Seq<u16>,
    row: int,
    max_part: int,
    part: int,
)
    requires
        0 <= len0 <= out1.len() <= outn.len(),
        outn.subrange(0, out1.len() as int) == out1,
        descending(out1, len0),
        descending(outn, out1.len() as int),
        0 <= row < kk,
        cur0.len() == row,
        forall|j: int|
            len0 <= j < out1.len() ==> extends(kk, lam, target, cur0, row, max_part, #[trigger] out1[j]) && out1[j][row]
                > part,
        forall|j: int|
            out1.len() <= j < outn.len() ==> extends(
                kk,
                lam,
                target,
                cur0.push(part as u16),
                row + 1,
                part,
                #[trigger] outn[j],
            ),
        0 <= part <= u16::MAX,
    ensures
        descending(outn, len0),
{
    let len1 = out1.len() as int;
    assert forall|a: int, b: int| len0 <= a < b < outn.len() implies lex_lt(#[trigger] outn[b], #[trigger] outn[a]) by {
        if b < len1 {
            assert(outn[a] == out1[a]);
            assert(outn[b] == out1[b]);
        } else if a < len1 {
            let x = outn[b];
            let y = outn[a];
            assert(y == out1[a]);
            assert(extends(kk, lam, target, cur0, row, max_part, out1[a]));
            assert(extends(kk, lam, target, cur0.push(part as u16), row + 1, part, x));
            assert(x[row] == part);
            assert forall|i: int| 0 <= i < row implies #[trigger] x[i] == y[i] by {
                assert(x[i] == cur0.push(part as u16)[i]);
                assert(y[i] == cur0[i]);
            }
            lemma_lex_at(x, y, row);
        }
    }
}

/// The depth-first search for the partitions of the rectangle of `g` that contain `lambda`
/// and have `target_size` boxes: `current` holds the parts chosen so far, `out` the
/// partitions found.
struct PartitionBuilder<'a> {
    g: &'a Grassmannian,
    lambda: &'a [u16],
    target_size: usize,
    current: Vec<u16>,
    out: Vec<Partition>,
}

impl PartitionBuilder<'_> {
    /// Append to `out` every completion of the parts in `current` (rows `0..row`) whose part
    /// in row `row` is at most `max_part`, largest parts first, skipping the choices that
    /// cannot reach `target_size` boxes; `current` is handed back as it came.
    #[verifier::rlimit(80)]
    #[verifier::spinoff_prover]
    fn generate(&mut self, row: usize, max_part: u16, current_size: usize)
        requires
            old(self).g.k_spec() * old(self).g.w_spec() <= usize::MAX,
            valid_for(old(self).lambda@, *old(self).g),
            row <= old(self).g.k_spec(),
            old(self).current@.len() == row,
            max_part <= old(self).g.w_spec(),
            current_size == seg_sum(old(self).current@, 0, row as int),
            forall|i: int| 0 <= i < row ==> #[trigger] old(self).current@[i] <= old(self).g.w_spec(),
        ensures
            final(self).g == old(self).g,
            final(self).lambda == old(self).lambda,
            final(self).target_size == old(self).target_size,
            final(self).current@ == old(self).current@,
            old(self).out@.len() <= final(self).out@.len(),
            parts_of(final(self).out@).subrange(0, old(self).out@.len() as int) == parts_of(old(self).out@),
            forall|j: int|
                old(self).out@.len() <= j < final(self).out@.len() ==> extends(
                    old(self).g.k_spec(),
                    old(self).lambda@,
                    old(self).target_size as int,
                    old(self).current@,
                    row as int,
                    max_part as int,
                    #[trigger] parts_of(final(self).out@)[j],
                ),
            forall|x: Seq<u16>|
                extends(
                    old(self).g.k_spec(),
                    old(self).lambda@,
                    old(self).target_size as int,
                    old(self).current@,
                    row as int,
                    max_part as int,
                    x,
                ) ==> #[trigger] parts_of(final(self).out@).subrange(
                    old(self).out@.len() as int,
                    final(self).out@.len() as int,
                ).contains(x),
            descending(parts_of(final(self).out@), old(self).out@.len() as int),
        decreases old(self).g.k_spec() - row,
    {
        let k = self.g.k();
        let w = self.g.width();
        let ghost kk = k as nat;
        let ghost lam = self.lambda@;
        let ghost target = self.target_size as int;
        let ghost cur0 = self.current@;
        let ghost out0 = parts_of(self.out@);
        let ghost len0 = self.out@.len();
        if row == k {
            if current_size == self.target_size {
                let p = Partition::from_normalized_unchecked(self.current.clone());
                let ghost pv = p@;
                self.out.push(p);
                proof {
                    assert(parts_of(self.out@) =~= out0.push(pv));
                    assert(pv == cur0);
                    assert forall|x: Seq<u16>| extends(kk, lam, target, cur0, row as int, max_part as int, x) implies #[trigger] parts_of(
                        self.out@,
                    ).subrange(len0 as int, self.out@.len() as int).contains(x) by {
                        assert(x =~= cur0);
                        assert(parts_of(self.out@).subrange(len0 as int, self.out@.len() as int)[0] == x);
                    }
                    assert(extends(kk, lam, target, cur0, row as int, max_part as int, pv)) by {
                        assert(seg_sum(pv, 0, kk as int) == seg_sum(cur0, 0, row as int));
                    }
                }
            } else {
                proof {
                    assert forall|x: Seq<u16>| extends(kk, lam, target, cur0, row as int, max_part as int, x) implies #[trigger] parts_of(
                        self.out@,
                    ).subrange(len0 as int, self.out@.len() as int).contains(x) by {
                        lemma_seg_agree(x, cur0, 0, row as int);
                    }
                }
            }
            proof {
                assert(parts_of(self.out@).subrange(0, len0 as int) =~= out0);
            }
            return;
        }
        let rows_left_after = k - row - 1;
        let lower = self.lambda[row];
        let mut lambda_rest: usize = 0;
        let mut t: usize = row + 1;
        proof {
            lemma_seg_bound(lam, row + 1, kk as int, w as int);
            assert((kk - row - 1) * w <= kk * w) by (nonlinear_arith)
                requires
                    row + 1 <= kk,
            ;
        }
        while t < k
            invariant
                row + 1 <= t <= k,
                self.g == old(self).g,
                self.lambda == old(self).lambda,
                self.target_size == old(self).target_size,
                self.current == old(self).current,
                self.out == old(self).out,
                k == kk,
                lam == self.lambda@,
                lam.len() == kk,
                lambda_rest == seg_sum(lam, row + 1, t as int),
                seg_sum(lam, row + 1, kk as int) <= kk * w,
                kk * w <= usize::MAX,
                forall|i: int| 0 <= i < kk ==> #[trigger] lam[i] <= w,
            decreases k - t,
        {
            proof {
                lemma_seg_split(lam, row + 1, t + 1, kk as int);
                lemma_seg_nonneg(lam, t + 1, kk as int);
            }
            lambda_rest = lambda_rest + self.lambda[t] as usize;
            t = t + 1;
        }
        let mut next: usize = max_part as usize + 1;
        while next > lower as usize
            invariant
                next <= max_part as usize + 1,
                lower as usize <= next || next == max_part as usize + 1,
                self.g == old(self).g,
                self.lambda == old(self).lambda,
                self.target_size == old(self).target_size,
                k == kk,
                w == self.g.w_spec(),
                kk == self.g.k_spec(),
                kk * w <= usize::MAX,
                row < kk,
                rows_left_after == kk - row - 1,
                lam == self.lambda@,
                valid_for(lam, *self.g),
                lower == lam[row as int],
                lambda_rest == seg_sum(lam, row + 1, kk as int),
                max_part <= w,
                target == self.target_size as int,
                self.current@ == cur0,
                cur0.len() == row,
                current_size == seg_sum(cur0, 0, row as int),
                forall|i: int| 0 <= i < row ==> #[trigger] cur0[i] <= w,
                len0 <= self.out@.len(),
                parts_of(self.out@).subrange(0, len0 as int) == out0,
                forall|j: int|
                    len0 <= j < self.out@.len() ==> extends(
                        kk,
                        lam,
                        target,
                        cur0,
                        row as int,
                        max_part as int,
                        #[trigger] parts_of(self.out@)[j],
                    ) && parts_of(self.out@)[j][row as int] >= next,
                forall|x: Seq<u16>|
                    extends(kk, lam, target, cur0, row as int, max_part as int, x) && x[row as int] >= next
                        ==> #[trigger] parts_of(self.out@).subrange(len0 as int, self.out@.len() as int).contains(x),
                descending(parts_of(self.out@), len0 as int),
            decreases next,
        {
            let part: u16 = (next - 1) as u16;
            proof {
                lemma_seg_bound(cur0, 0, row as int, w as int);
                assert(row * w + w <= kk * w) by (nonlinear_arith)
                    requires
                        row + 1 <= kk,
                ;
                assert(rows_left_after * part <= rows_left_after * w) by (nonlinear_arith)
                    requires
                        part <= w,
                ;
                assert((row + 1) * w + rows_left_after * w == kk * w) by (nonlinear_arith)
                    requires
                        rows_left_after == kk - row - 1,
                ;
                assert(row * w + w == (row + 1) * w) by (nonlinear_arith);
                lemma_seg_bound(lam, row + 1, kk as int, w as int);
            }
            let next_size = current_size + part as usize;
            let min_possible = next_size + lambda_rest;
            let max_possible = next_size + rows_left_after * part as usize;
            if self.target_size < min_possible || self.target_size > max_possible {
                proof {
                    assert forall|x: Seq<u16>|
                        extends(kk, lam, target, cur0, row as int, max_part as int, x) && x[row as int] >= part
                            implies #[trigger] parts_of(self.out@).subrange(len0 as int, self.out@.len() as int).contains(x) by {
                        if x[row as int] == part {
                            lemma_seg_split(x, 0, row as int, kk as int);
                            lemma_seg_split(x, row as int, row + 1, kk as int);
                            lemma_seg_agree(x, cur0, 0, row as int);
                            lemma_seg_ge(x, lam, row + 1, kk as int);
                            assert forall|i: int| row + 1 <= i < kk implies #[trigger] x[i] <= part by {
                                lemma_chain_below(x, row as int, i);
                            }
                            lemma_seg_bound(x, row + 1, kk as int, part as int);
                            assert(seg_sum(x, row as int, row + 1) == x[row as int]) by {
                                assert(seg_sum(x, row as int, row as int) == 0);
                            }
                            assert(seg_sum(x, 0, row as int) == current_size);
                            assert(seg_sum(x, row + 1, kk as int) >= lambda_rest);
                            assert(seg_sum(x, row + 1, kk as int) <= rows_left_after * part);
                            assert(false);
                        }
                    }
                }
                next = next - 1;
                continue;
            }
            let ghost out1 = parts_of(self.out@);
            let ghost len1 = self.out@.len();
            self.current.push(part);
            let ghost cur1 = self.current@;
            proof {
                assert(cur1 == cur0.push(part));
                assert(seg_sum(cur1, 0, row + 1) == next_size) by {
                    lemma_seg_agree(cur1, cur0, 0, row as int);
                }
            }
            self.generate(row + 1, part, next_size);
            self.current.pop();
            proof {
                assert(self.current@ =~= cur0);
                let outn = parts_of(self.out@);
                lemma_descending_step(out1, outn, len0 as int, kk, lam, target, cur0, row as int, max_part as int, part as int);
                assert(outn.subrange(0, len0 as int) =~= out0) by {
                    assert forall|j: int| 0 <= j < len0 implies outn[j] == out0[j] by {
                        assert(outn.subrange(0, len1 as int)[j] == out1[j]);
                        assert(out1.subrange(0, len0 as int)[j] == out0[j]);
                    }
                }
                assert forall|j: int| len0 <= j < outn.len() implies extends(
                    kk,
                    lam,
                    target,
                    cur0,
                    row as int,
                    max_part as int,
                    #[trigger] outn[j],
                ) && outn[j][row as int] >= part by {
                    if j < len1 {
                        assert(outn.subrange(0, len1 as int)[j] == out1[j]);
                        assert(outn[j] == out1[j]);
                    } else {
                        let x = outn[j];
                        assert(extends(kk, lam, target, cur1, row + 1, part as int, x));
                        assert(x[row as int] == part);
                        assert forall|i: int| 0 <= i < row implies #[trigger] x[i] == cur0[i] by {
                            assert(x[i] == cur1[i]);
                        }
                        if row + 1 < kk {
                            assert(x[row + 1] <= x[row as int]);
                        }
                    }
                }
                lemma_found_after_step(out1, outn, len0 as int, kk, lam, target, cur0, cur1, row as int, max_part as int, part as int);
            }
            next = next - 1;
        }
        proof {
            assert forall|x: Seq<u16>| extends(kk, lam, target, cur0, row as int, max_part as int, x) implies #[trigger] parts_of(
                self.out@,
            ).subrange(len0 as int, self.out@.len() as int).contains(x) by {
                assert(x[row as int] >= lam[row as int]);
            }
        }
    }
}

/// In a sequence weakly decreasing after `row`, every later part is at most `x[row]`.
proof fn lemma_chain_below(x: Seq<u16>, row: int, i: int)
    requires
        0 <= row < i < x.len(),
        forall|j: int| row < j < x.len() ==> #[trigger] x[j] <= x[j - 1],
    ensures
        x[i] <= x[row],
    decreases i - row,
{
    if i > row + 1 {
        lemma_chain_below(x, row, i - 1);
    }
}

/// The number of cells in row `r` of `nu / lam`.
pub open spec fn row_len(lam: Seq<u16>, nu: Seq<u16>, r: int) -> int {
    if nu[r] > lam[r] { nu[r] - lam[r] } else { 0 }
}

/// The position of cell `(r, c)` of `nu / lam` in reading order.
pub open spec fn cell_index(lam: Seq<u16>, nu: Seq<u16>, r: int, c: int) -> int {
    cells_upto(lam, nu, r).len() + nu[r] - 1 - c
}

proof fn lemma_cells_upto_len(lam: Seq<u16>, nu: Seq<u16>, r: int)
    requires
        0 <= r,
    ensures
        cells_upto(lam, nu, r + 1).len() == cells_upto(lam, nu, r).len() + row_len(lam, nu, r),
        cells_upto(lam, nu, r + 1).subrange(0, cells_upto(lam, nu, r).len() as int) == cells_upto(lam, nu, r),
{
    assert(cells_upto(lam, nu, r + 1).subrange(0, cells_upto(lam, nu, r).len() as int) =~= cells_upto(lam, nu, r));
}

proof fn lemma_cells_upto_mono(lam: Seq<u16>, nu: Seq<u16>, a: int, b: int)
    requires
        0 <= a <= b,
    ensures
        cells_upto(lam, nu, a).len() <= cells_upto(lam, nu, b).len(),
        cells_upto(lam, nu, b).subrange(0, cells_upto(lam, nu, a).len() as int) == cells_upto(lam, nu, a),
    decreases b - a,
{
    if a < b {
        lemma_cells_upto_mono(lam, nu, a, b - 1);
        lemma_cells_upto_len(lam, nu, b - 1);
        let la = cells_upto(lam, nu, a).len() as int;
        let lb1 = cells_upto(lam, nu, b - 1).len() as int;
        assert(cells_upto(lam, nu, b).subrange(0, la) =~= cells_upto(lam, nu, b).subrange(0, lb1).subrange(0, la));
    } else {
        assert(cells_upto(lam, nu, b).subrange(0, cells_upto(lam, nu, a).len() as int) =~= cells_upto(lam, nu, a));
    }
}

/// Each cell in reading order lies in its row of `nu / lam` at the position `cell_index` gives.
proof fn lemma_cell_at(lam: Seq<u16>, nu: Seq<u16>, rows: int, i: int)
    requires
        0 <= rows,
        0 <= i < cells_upto(lam, nu, rows).len(),
    ensures
        0 <= cells_upto(lam, nu, rows)[i].0 < rows,
        lam[cells_upto(lam, nu, rows)[i].0] <= cells_upto(lam, nu, rows)[i].1 < nu[cells_upto(lam, nu, rows)[i].0],
        i == cell_index(lam, nu, cells_upto(lam, nu, rows)[i].0, cells_upto(lam, nu, rows)[i].1),
    decreases rows,
{
    if rows > 0 {
        let prev = cells_upto(lam, nu, rows - 1);
        if i < prev.len() {
            lemma_cell_at(lam, nu, rows - 1, i);
            assert(cells_upto(lam, nu, rows)[i] == prev[i]);
        } else {
            let j = i - prev.len();
            assert(cells_upto(lam, nu, rows)[i] == row_cells(lam, nu, rows - 1)[j]);
        }
    }
}

/// Every cell `(r, c)` of `nu / lam` with `r < rows` sits at `cell_index(r, c)` in reading order.
proof fn lemma_index_of(lam: Seq<u16>, nu: Seq<u16>, rows: int, r: int, c: int)
    requires
        0 <= r < rows,
        lam[r] <= c < nu[r],
    ensures
        0 <= cell_index(lam, nu, r, c) < cells_upto(lam, nu, r + 1).len() <= cells_upto(lam, nu, rows).len(),
        cells_upto(lam, nu, rows)[cell_index(lam, nu, r, c)] == (r, c),
{
    lemma_cells_upto_len(lam, nu, r);
    lemma_cells_upto_mono(lam, nu, r + 1, rows);
    let idx = cell_index(lam, nu, r, c);
    let j = nu[r] - 1 - c;
    assert(cells_upto(lam, nu, r + 1)[idx] == row_cells(lam, nu, r)[j]);
    assert(cells_upto(lam, nu, rows).subrange(0, cells_upto(lam, nu, r + 1).len() as int)[idx] == cells_upto(
        lam,
        nu,
        r + 1,
    )[idx]);
}

/// How many labels of `p` equal `v`.
pub open spec fn occurrences(p: Seq<usize>, v: int) -> int
    decreases p.len(),
{
    if p.len() == 0 {
        0
    } else {
        occurrences(p.drop_last(), v) + if p.last() == v { 1int } else { 0int }
    }
}

/// In `p`, each label `u < m - 1` occurs at least as often as `u + 1`.
pub open spec fn lattice_word(p: Seq<usize>, m: int) -> bool {
    forall|u: int| 0 <= u < m - 1 ==> #[trigger] occurrences(p, u) >= occurrences(p, u + 1)
}

/// Label `v` may fill the next cell `cells[p.len()]` after the labels `p` of the earlier cells:
/// content `mu[v]` is not used up, rows weakly increase to the right, columns strictly
/// increase downwards, and the reading word stays a lattice word.
pub open spec fn fits_next(cells: Seq<(int, int)>, content: Seq<usize>, p: Seq<usize>, v: int) -> bool {
    let r = cells[p.len() as int].0;
    let c = cells[p.len() as int].1;
    &&& 0 <= v < content.len()
    &&& occurrences(p, v) < content[v]
    &&& forall|j: int| 0 <= j < p.len() && #[trigger] cells[j] == (r, c + 1) ==> v <= p[j]
    &&& forall|j: int| 0 <= j < p.len() && #[trigger] cells[j] == (r - 1, c) ==> p[j] < v
    &&& lattice_word(p.push(v as usize), content.len() as int)
}

/// The number of ways to complete the labelling `p` of the first cells whose next label is
/// below `n`.
pub open spec fn tally(cells: Seq<(int, int)>, content: Seq<usize>, p: Seq<usize>, n: int) -> int
    decreases cells.len() - p.len(), n,
{
    if n <= 0 || p.len() >= cells.len() {
        0
    } else {
        tally(cells, content, p, n - 1) + if fits_next(cells, content, p, n - 1) {
            completions(cells, content, p.push((n - 1) as usize))
        } else {
            0
        }
    }
}

/// The number of ways to label the cells after the labelling `p` of the first cells, one
/// label at a time by `fits_next`.
pub open spec fn completions(cells: Seq<(int, int)>, content: Seq<usize>, p: Seq<usize>) -> int
    decreases cells.len() - p.len(), content.len() + 1,
{
    if p.len() >= cells.len() {
        1
    } else {
        tally(cells, content, p, content.len() as int)
    }
}

/// The rows of a board as sequences.
pub open spec fn board_view(b: Seq<Vec<Option<usize>>>) -> Seq<Seq<Option<usize>>> {
    b.map_values(|v: Vec<Option<usize>>| v@)
}

/// What the board allows for `value` at `(row, col)`: at most the filled cell to its right
/// in the skew row, more than the filled cell above it in the skew row above.
pub open spec fn board_allows(
    lam: Seq<u16>,
    nu: Seq<u16>,
    board: Seq<Seq<Option<usize>>>,
    row: int,
    col: int,
    value: int,
) -> bool {
    &&& (lam[row] <= col + 1 < nu[row] && board[row][col + 1] is Some) ==> value <= board[row][col + 1]->0
    &&& (row > 0 && lam[row - 1] <= col < nu[row - 1] && board[row - 1][col] is Some) ==> board[row
        - 1][col]->0 < value
}

/// The search state for the labelling `p` of the first `p.len()` cells of `nu / lam`:
/// the board holds `p` on those cells and nothing on the later ones, `counts` holds how often
/// each label was used, and `remaining` what is left of the content.
#[verifier::opaque]
pub open spec fn fill_ok(
    lam: Seq<u16>,
    nu: Seq<u16>,
    board: Seq<Seq<Option<usize>>>,
    remaining: Seq<usize>,
    counts: Seq<usize>,
    cells: Seq<(int, int)>,
    content: Seq<usize>,
    p: Seq<usize>,
) -> bool {
    &&& lam.len() == nu.len()
    &&& board.len() == lam.len()
    &&& cells == reading_cells(lam, nu)
    &&& forall|r: int| 0 <= r < lam.len() ==> nu[r] <= #[trigger] board[r].len()
    &&& remaining.len() == content.len()
    &&& counts.len() == content.len()
    &&& forall|v: int| 0 <= v < content.len() ==> #[trigger] counts[v] == occurrences(p, v)
    &&& forall|v: int| 0 <= v < content.len() ==> counts[v] + remaining[v] == #[trigger] content[v]
    &&& p.len() <= cells.len()
    &&& forall|j: int| 0 <= j < p.len() ==> board[#[trigger] cells[j].0][cells[j].1] == Some(p[j])
    &&& forall|j: int| p.len() <= j < cells.len() ==> board[#[trigger] cells[j].0][cells[j].1] is None
}

/// What the search loop reads off a search state.
proof fn lemma_fill_facts(
    lam: Seq<u16>,
    nu: Seq<u16>,
    board: Seq<Seq<Option<usize>>>,
    remaining: Seq<usize>,
    counts: Seq<usize>,
    cells: Seq<(int, int)>,
    content: Seq<usize>,
    p: Seq<usize>,
)
    requires
        fill_ok(lam, nu, board, remaining, counts, cells, content, p),
    ensures
        lam.len() == nu.len(),
        board.len() == lam.len(),
        cells == reading_cells(lam, nu),
        forall|r: int| 0 <= r < lam.len() ==> nu[r] <= #[trigger] board[r].len(),
        remaining.len() == content.len(),
        counts.len() == content.len(),
        forall|v: int| 0 <= v < content.len() ==> #[trigger] counts[v] == occurrences(p, v),
        forall|v: int| 0 <= v < content.len() ==> counts[v] + remaining[v] == #[trigger] content[v],
        p.len() <= cells.len(),
        p.len() < cells.len() ==> board[cells[p.len() as int].0][cells[p.len() as int].1] is None,
{
    reveal(fill_ok);
}

/// `board_allows` at the next cell is exactly the row and column conditions of `fits_next`.
proof fn lemma_allows(
    lam: Seq<u16>,
    nu: Seq<u16>,
    board: Seq<Seq<Option<usize>>>,
    remaining: Seq<usize>,
    counts: Seq<usize>,
    cells: Seq<(int, int)>,
    content: Seq<usize>,
    p: Seq<usize>,
    value: int,
)
    requires
        fill_ok(lam, nu, board, remaining, counts, cells, content, p),
        p.len() < cells.len(),
    ensures
        board_allows(lam, nu, board, cells[p.len() as int].0, cells[p.len() as int].1, value) <==> (
        forall|j: int| 0 <= j < p.len() && #[trigger] cells[j] == (cells[p.len() as int].0, cells[p.len() as int].1 + 1) ==> value <= p[j])
            && (forall|j: int| 0 <= j < p.len() && #[trigger] cells[j] == (cells[p.len() as int].0 - 1, cells[p.len() as int].1) ==> p[j] < value),
{
    reveal(fill_ok);
    let i = p.len() as int;
    let k = lam.len() as int;
    let row = cells[i].0;
    let col = cells[i].1;
    lemma_cell_at(lam, nu, k, i);
    if lam[row] <= col + 1 < nu[row] {
        let j0 = cell_index(lam, nu, row, col + 1);
        lemma_index_of(lam, nu, k, row, col + 1);
        assert(j0 == i - 1);
        assert(cells[j0].0 == row && cells[j0].1 == col + 1);
        assert(board[row][col + 1] == Some(p[j0]));
        assert forall|j: int| 0 <= j < p.len() && #[trigger] cells[j] == (row, col + 1) implies j == j0 by {
            lemma_cell_at(lam, nu, k, j);
        }
    } else {
        assert forall|j: int| 0 <= j < p.len() implies #[trigger] cells[j] != (row, col + 1) by {
            lemma_cell_at(lam, nu, k, j);
        }
    }
    if row > 0 && lam[row - 1] <= col < nu[row - 1] {
        let j1 = cell_index(lam, nu, row - 1, col);
        lemma_index_of(lam, nu, k, row - 1, col);
        assert(j1 < i);
        assert(cells[j1].0 == row - 1 && cells[j1].1 == col);
        assert(board[row - 1][col] == Some(p[j1]));
        assert forall|j: int| 0 <= j < p.len() && #[trigger] cells[j] == (row - 1, col) implies j == j1 by {
            lemma_cell_at(lam, nu, k, j);
        }
    } else {
        assert forall|j: int| 0 <= j < p.len() implies #[trigger] cells[j] != (row - 1, col) by {
            lemma_cell_at(lam, nu, k, j);
        }
    }
}

proof fn lemma_occurrences_push(p: Seq<usize>, v: usize, u: int)
    ensures
        occurrences(p.push(v), u) == occurrences(p, u) + if u == v { 1int } else { 0int },
{
    assert(p.push(v).drop_last() =~= p);
}

/// Placing `v` in the next cell moves the search state on to the labelling `p.push(v)`.
proof fn lemma_place(
    lam: Seq<u16>,
    nu: Seq<u16>,
    board: Seq<Seq<Option<usize>>>,
    remaining: Seq<usize>,
    counts: Seq<usize>,
    cells: Seq<(int, int)>,
    content: Seq<usize>,
    p: Seq<usize>,
    v: usize,
)
    requires
        fill_ok(lam, nu, board, remaining, counts, cells, content, p),
        p.len() < cells.len(),
        v < content.len(),
        remaining[v as int] > 0,
    ensures
        fill_ok(
            lam,
            nu,
            board.update(
                cells[p.len() as int].0,
                board[cells[p.len() as int].0].update(cells[p.len() as int].1, Some(v)),
            ),
            remaining.update(v as int, (remaining[v as int] - 1) as usize),
            counts.update(v as int, (counts[v as int] + 1) as usize),
            cells,
            content,
            p.push(v),
        ),
{
    reveal(fill_ok);
    let i = p.len() as int;
    let k = lam.len() as int;
    let row = cells[i].0;
    let col = cells[i].1;
    let b2 = board.update(row, board[row].update(col, Some(v)));
    let q = p.push(v);
    lemma_cell_at(lam, nu, k, i);
    assert forall|u: int| 0 <= u < content.len() implies #[trigger] counts.update(v as int, (counts[v as int] + 1) as usize)[u]
        == occurrences(q, u) by {
        lemma_occurrences_push(p, v, u);
        assert(counts[u] + remaining[u] == content[u]);
        assert(counts[u] == occurrences(p, u));
    }
    assert forall|j: int| 0 <= j < q.len() implies b2[#[trigger] cells[j].0][cells[j].1] == Some(q[j]) by {
        if j < i {
            lemma_cell_at(lam, nu, k, j);
            assert(cells[j] != cells[i]);
        }
    }
    assert forall|j: int| q.len() <= j < cells.len() implies b2[#[trigger] cells[j].0][cells[j].1] is None by {
        lemma_cell_at(lam, nu, k, j);
        assert(cells[j] != cells[i]);
    }
    assert forall|r: int| 0 <= r < lam.len() implies nu[r] <= #[trigger] b2[r].len() by {
        assert(nu[r] <= board[r].len());
    }
}

/// The board and counters of the search for LR tableaux of shape `nu / lambda`.
struct TableauState<'a> {
    lambda: &'a [u16],
    nu: &'a [u16],
    board: Vec<Vec<Option<usize>>>,
    remaining: Vec<usize>,
    prefix_counts: Vec<usize>,
}

impl TableauState<'_> {
    /// The search state is the one for the labelling `p` of the first cells.
    spec fn holds(self, cells: Seq<(int, int)>, content: Seq<usize>, p: Seq<usize>) -> bool {
        fill_ok(
            self.lambda@,
            self.nu@,
            board_view(self.board@),
            self.remaining@,
            self.prefix_counts@,
            cells,
            content,
            p,
        )
    }

    /// `self` and `other` are the same search state.
    spec fn same_as(self, other: Self) -> bool {
        &&& self.lambda@ == other.lambda@
        &&& self.nu@ == other.nu@
        &&& board_view(self.board@) == board_view(other.board@)
        &&& self.remaining@ == other.remaining@
        &&& self.prefix_counts@ == other.prefix_counts@
    }
}

/// Whether `value` at `(row, col)` is at most the filled cell to its right and more than the
/// filled cell above it, within the skew shape.
fn is_semistandard_at(state: &TableauState<'_>, row: usize, col: usize, value: usize) -> (r: bool)
    requires
        row < state.nu@.len(),
        state.lambda@.len() == state.nu@.len(),
        state.board@.len() == state.nu@.len(),
        col < state.nu@[row as int],
        forall|i: int| 0 <= i < state.nu@.len() ==> state.nu@[i] <= #[trigger] state.board@[i]@.len(),
    ensures
        r == board_allows(state.lambda@, state.nu@, board_view(state.board@), row as int, col as int, value as int),
{
    let ghost b = board_view(state.board@);
    if col + 1 < state.nu[row] as usize && col + 1 >= state.lambda[row] as usize {
        if let Some(right) = state.board[row][col + 1] {
            if value > right {
                return false;
            }
        }
    }
    if row > 0 && col < state.nu[row - 1] as usize && col >= state.lambda[row - 1] as usize {
        assert(state.nu@[row - 1] <= state.board@[row - 1]@.len());
        if let Some(above) = state.board[row - 1][col] {
            if above >= value {
                return false;
            }
        }
    }
    true
}

/// The counters of a labelling form a lattice exactly when the labelling is a lattice word.
proof fn lemma_lattice_counts(counts: Seq<usize>, q: Seq<usize>, m: int)
    requires
        counts.len() == m,
        forall|u: int| 0 <= u < m ==> #[trigger] counts[u] == occurrences(q, u),
    ensures
        lattice(counts) == lattice_word(q, m),
{
    if lattice(counts) {
        assert forall|u: int| 0 <= u < m - 1 implies #[trigger] occurrences(q, u) >= occurrences(q, u + 1) by {
            assert(counts[u] >= counts[u + 1]);
        }
    }
    if lattice_word(q, m) {
        assert forall|u: int| 0 <= u < counts.len() - 1 implies #[trigger] counts[u] >= counts[u + 1] by {
            assert(occurrences(q, u) >= occurrences(q, u + 1));
        }
    }
}

/// The number of LR fillings of the cells after `index`, given the labelling `p` of the
/// cells before it; the search state is handed back as it came.
#[verifier::rlimit(60)]
#[verifier::spinoff_prover]
fn count_fillings(
    cells: &[(usize, usize)],
    index: usize,
    state: &mut TableauState<'_>,
    Ghost(content): Ghost<Seq<usize>>,
    Ghost(p): Ghost<Seq<usize>>,
) -> (r: Integer)
    requires
        old(state).holds(cells_view(cells@), content, p),
        index == p.len(),
    ensures
        r@ == completions(cells_view(cells@), content, p),
        final(state).same_as(*old(state)),
    decreases cells@.len() - index,
{
    let ghost cv = cells_view(cells@);
    let n = cells.len();
    if index == n {
        return Integer::one();
    }
    let ghost st0 = *state;
    let ghost lam = state.lambda@;
    let ghost nu = state.nu@;
    proof {
        lemma_fill_facts(lam, nu, board_view(state.board@), state.remaining@, state.prefix_counts@, cv, content, p);
    }
    let (row, col) = cells[index];
    proof {
        lemma_cell_at(lam, nu, lam.len() as int, index as int);
        assert(cv[index as int] == (row as int, col as int));
    }
    let mut total = Integer::zero();
    let m = state.remaining.len();
    let mut value: usize = 0;
    while value < m
        invariant
            state.same_as(st0),
            st0.holds(cv, content, p),
            lam == st0.lambda@,
            nu == st0.nu@,
            index == p.len() < cv.len(),
            cv == cells_view(cells@),
            n == cells@.len(),
            m == content.len(),
            value <= m,
            cv[index as int] == (row as int, col as int),
            0 <= row < lam.len(),
            lam[row as int] <= col < nu[row as int],
            total@ == tally(cv, content, p, value as int),
        decreases m - value,
    {
        let ghost b0 = board_view(state.board@);
        let ghost rem0 = state.remaining@;
        let ghost cnt0 = state.prefix_counts@;
        proof {
            assert(fill_ok(lam, nu, b0, rem0, cnt0, cv, content, p));
            lemma_fill_facts(lam, nu, b0, rem0, cnt0, cv, content, p);
            assert(cnt0[value as int] + rem0[value as int] == content[value as int]);
            assert(cnt0[value as int] == occurrences(p, value as int));
            assert(b0[row as int].len() == state.board@[row as int]@.len());
            assert forall|i: int| 0 <= i < nu.len() implies nu[i] <= #[trigger] state.board@[i]@.len() by {
                assert(nu[i] <= b0[i].len());
            }
            lemma_allows(lam, nu, b0, rem0, cnt0, cv, content, p, value as int);
        }
        if state.remaining[value] == 0 || !is_semistandard_at(state, row, col, value) {
            proof {
                assert(!fits_next(cv, content, p, value as int));
            }
            value = value + 1;
            continue;
        }
        state.remaining[value] = state.remaining[value] - 1;
        state.prefix_counts[value] = state.prefix_counts[value] + 1;
        let ghost rem1 = state.remaining@;
        let ghost cnt1 = state.prefix_counts@;
        let ghost q = p.push(value);
        proof {
            assert(rem1 == rem0.update(value as int, (rem0[value as int] - 1) as usize));
            assert(cnt1 == cnt0.update(value as int, (cnt0[value as int] + 1) as usize));
            assert forall|u: int| 0 <= u < m implies #[trigger] cnt1[u] == occurrences(q, u) by {
                lemma_occurrences_push(p, value, u);
                assert(cnt0[u] == occurrences(p, u));
            }
            lemma_lattice_counts(cnt1, q, m as int);
        }
        if is_lattice_prefix(state.prefix_counts.as_slice()) {
            proof {
                assert(fits_next(cv, content, p, value as int));
                lemma_place(lam, nu, b0, rem0, cnt0, cv, content, p, value);
            }
            state.board[row][col] = Some(value);
            let ghost b1 = board_view(state.board@);
            proof {
                lemma_fill_facts(lam, nu, b0, rem0, cnt0, cv, content, p);
                assert(b1 =~= b0.update(row as int, b0[row as int].update(col as int, Some(value))));
                assert(state.holds(cv, content, q));
            }
            let sub = count_fillings(cells, index + 1, state, Ghost(content), Ghost(q));
            total = big_add(&total, &sub);
            proof {
                assert(board_view(state.board@) == b1);
                assert(board_view(state.board@)[row as int] == state.board@[row as int]@);
            }
            state.board[row][col] = None;
            proof {
                assert(b0[cv[index as int].0][cv[index as int].1] is None);
                assert(board_view(state.board@) =~= b0) by {
                    assert(board_view(state.board@) =~= b1.update(row as int, b1[row as int].update(col as int, None)));
                    assert(b1[row as int].update(col as int, None) =~= b0[row as int]);
                }
            }
        } else {
            proof {
                assert(!fits_next(cv, content, p, value as int));
            }
        }
        state.prefix_counts[value] = state.prefix_counts[value] - 1;
        state.remaining[value] = state.remaining[value] + 1;
        proof {
            assert(state.remaining@ =~= rem0);
            assert(state.prefix_counts@ =~= cnt0);
        }
        value = value + 1;
    }
    total
}

/// `c[0] + c[1] + ... `: the number of labels a content asks for.
pub open spec fn content_sum(c: Seq<usize>) -> int
    decreases c.len(),
{
    if c.len() == 0 {
        0
    } else {
        content_sum(c.drop_last()) + c.last()
    }
}

proof fn lemma_content_sum_prefix(c: Seq<usize>, i: int)
    requires
        0 <= i <= c.len(),
    ensures
        0 <= content_sum(c.subrange(0, i)) <= content_sum(c),
    decreases c.len() - i,
{
    if i < c.len() {
        lemma_content_sum_prefix(c, i + 1);
        assert(c.subrange(0, i + 1).drop_last() =~= c.subrange(0, i));
    } else {
        assert(c.subrange(0, i) =~= c);
    }
    lemma_content_sum_nonneg(c.subrange(0, i));
}

proof fn lemma_content_sum_nonneg(c: Seq<usize>)
    ensures
        content_sum(c) >= 0,
    decreases c.len(),
{
    if c.len() > 0 {
        lemma_content_sum_nonneg(c.drop_last());
    }
}

/// The number of Littlewood-Richardson tableaux of shape `nu / lam` with content `content`:
/// zero unless the shape has as many cells as the content asks for.
pub open spec fn lr_count(lam: Seq<u16>, nu: Seq<u16>, content: Seq<usize>) -> int {
    if reading_cells(lam, nu).len() != content_sum(content) {
        0
    } else {
        completions(reading_cells(lam, nu), content, Seq::empty())
    }
}

/// The number of semistandard tableaux of shape `nu / lambda` and content `content` whose
/// reading word is a lattice word.
fn count_tableaux(g: &Grassmannian, lambda: &Partition, nu: &Partition, content: &[usize]) -> (r: Integer)
    requires
        lambda@.len() == g.k_spec(),
        valid_for(nu@, *g),
        content_sum(content@) <= usize::MAX,
    ensures
        r@ == lr_count(lambda@, nu@, content@),
{
    let k = g.k();
    let w = g.width();
    let ghost lam = lambda@;
    let ghost nuv = nu@;
    let cells = reading_word_cells(lambda, nu);
    let ghost cv = cells_view(cells@);
    let mut i: usize = 0;
    while i < cells.len()
        invariant
            i <= cells@.len(),
            cv == cells_view(cells@),
            cv == reading_cells(lam, nuv),
            lam.len() == k,
            nuv.len() == k,
            w == g.w_spec(),
            valid_for(nuv, *g),
        decreases cells.len() - i,
    {
        if cells[i].1 >= w {
            proof {
                lemma_cell_at(lam, nuv, k as int, i as int);
                assert(cv[i as int].1 < nuv[cv[i as int].0]);
            }
            return Integer::zero();
        }
        i = i + 1;
    }
    let mut total: usize = 0;
    let mut t: usize = 0;
    while t < content.len()
        invariant
            t <= content@.len(),
            total == content_sum(content@.subrange(0, t as int)),
            content_sum(content@) <= usize::MAX,
        decreases content.len() - t,
    {
        proof {
            lemma_content_sum_prefix(content@, t + 1);
            assert(content@.subrange(0, t + 1).drop_last() =~= content@.subrange(0, t as int));
        }
        total = total + content[t];
        t = t + 1;
    }
    proof {
        assert(content@.subrange(0, t as int) =~= content@);
    }
    if cells.len() != total {
        return Integer::zero();
    }
    let mut board: Vec<Vec<Option<usize>>> = Vec::new();
    let mut row: usize = 0;
    while row < k
        invariant
            row <= k,
            board@.len() == row,
            forall|r: int| 0 <= r < row ==> (#[trigger] board@[r])@.len() == w,
            forall|r: int, c: int| 0 <= r < row && 0 <= c < w ==> #[trigger] board@[r]@[c] is None,
        decreases k - row,
    {
        let mut line: Vec<Option<usize>> = Vec::new();
        let mut c: usize = 0;
        while c < w
            invariant
                c <= w,
                line@.len() == c,
                forall|j: int| 0 <= j < c ==> #[trigger] line@[j] is None,
            decreases w - c,
        {
            line.push(None);
            c = c + 1;
        }
        board.push(line);
        row = row + 1;
    }
    let mut prefix_counts: Vec<usize> = Vec::new();
    let mut v: usize = 0;
    while v < content.len()
        invariant
            v <= content@.len(),
            prefix_counts@.len() == v,
            forall|j: int| 0 <= j < v ==> #[trigger] prefix_counts@[j] == 0,
        decreases content.len() - v,
    {
        prefix_counts.push(0);
        v = v + 1;
    }
    let mut state = TableauState {
        lambda: lambda.parts(),
        nu: nu.parts(),
        board,
        remaining: vstd::slice::slice_to_vec(content),
        prefix_counts,
    };
    proof {
        let bv = board_view(state.board@);
        reveal(fill_ok);
        assert forall|r: int| 0 <= r < lam.len() implies nuv[r] <= #[trigger] bv[r].len() by {
            assert(bv[r] == state.board@[r]@);
        }
        assert forall|j: int| 0 <= j < cv.len() implies bv[#[trigger] cv[j].0][cv[j].1] is None by {
            lemma_cell_at(lam, nuv, k as int, j);
            assert(bv[cv[j].0] == state.board@[cv[j].0]@);
        }
        assert(state.holds(cv, content@, Seq::empty()));
    }
    count_fillings(cells.as_slice(), 0, &mut state, Ghost(content@), Ghost(Seq::empty()))
}

proof fn lemma_part_sum_seg(x: Seq<u16>, b: int)
    requires
        0 <= b <= x.len(),
    ensures
        part_sum(x.subrange(0, b)) == seg_sum(x, 0, b),
    decreases b,
{
    if b > 0 {
        lemma_part_sum_seg(x, b - 1);
        assert(x.subrange(0, b).drop_last() =~= x.subrange(0, b - 1));
    }
}

/// `|x| == seg_sum(x, 0, x.len())`.
proof fn lemma_part_sum_is_seg(x: Seq<u16>)
    ensures
        part_sum(x) == seg_sum(x, 0, x.len() as int),
{
    lemma_part_sum_seg(x, x.len() as int);
    assert(x.subrange(0, x.len() as int) =~= x);
}

/// The partitions `nu` valid for `g` that contain `lambda` and have `target_size` boxes,
/// each once, in decreasing lexicographic order.
fn partitions_containing(g: &Grassmannian, lambda: &Partition, target_size: usize) -> (r: Vec<Partition>)
    requires
        g.k_spec() * g.w_spec() <= usize::MAX,
        valid_for(lambda@, *g),
    ensures
        parts_of(r@).no_duplicates(),
        forall|x: Seq<u16>|
            #[trigger] parts_of(r@).contains(x) <==> (valid_for(x, *g) && contains_parts(x, lambda@) && part_sum(x)
                == target_size),
        descending(parts_of(r@), 0),
{
    let w = g.width();
    let k = g.k();
    let mut builder = PartitionBuilder {
        g,
        lambda: lambda.parts(),
        target_size,
        current: Vec::new(),
        out: Vec::new(),
    };
    proof {
        assert(parts_of(builder.out@) =~= Seq::<Seq<u16>>::empty());
    }
    builder.generate(0, w as u16, 0);
    proof {
        assert(parts_of(builder.out@).subrange(0, builder.out@.len() as int) =~= parts_of(builder.out@));
        lemma_descending_distinct(parts_of(builder.out@));
    }
    let ghost kk = k as nat;
    let ghost lam = lambda@;
    let ghost cur = Seq::<u16>::empty();
    proof {
        assert forall|x: Seq<u16>|
            #[trigger] parts_of(builder.out@).contains(x) <==> (valid_for(x, *g) && contains_parts(x, lam) && part_sum(x)
                == target_size) by {
            lemma_part_sum_is_seg(x);
            if parts_of(builder.out@).contains(x) {
                let j = choose|j: int| 0 <= j < parts_of(builder.out@).len() && parts_of(builder.out@)[j] == x;
                assert(extends(kk, lam, target_size as int, cur, 0, w as int, parts_of(builder.out@)[j]));
                assert forall|i: int| 0 <= i < x.len() implies x[i] <= w by {
                    if i > 0 {
                        lemma_chain_below(x, 0, i);
                    }
                }
                assert(weakly_decreasing(x));
                assert(fits_width(x, w as nat));
            }
            if valid_for(x, *g) && contains_parts(x, lam) && part_sum(x) == target_size {
                assert(extends(kk, lam, target_size as int, cur, 0, w as int, x));
            }
        }
    }
    builder.out
}

/// `nu` is a shape in the product of `sigma_lam` and `sigma_mu`: a partition of the `k x w`
/// rectangle that contains `lam` and has `|lam| + |mu|` boxes.
pub open spec fn product_shape(k: nat, w: nat, lam: Seq<u16>, mu: Seq<u16>, nu: Seq<u16>) -> bool {
    &&& valid_parts(nu, k, w)
    &&& contains_parts(nu, lam)
    &&& part_sum(nu) == part_sum(lam) + part_sum(mu)
}

/// The parts of `mu` as the content of a tableau: `mu[v]` labels `v`.
pub open spec fn mu_content(mu: Seq<u16>) -> Seq<usize> {
    mu.map_values(|x: u16| x as usize)
}

/// The Littlewood-Richardson coefficient `c^nu_{lam,mu}` in the `k x w` rectangle: the
/// number of LR tableaux of shape `nu / lam` and content `mu` for a product shape `nu`,
/// zero for any other `nu`.
pub open spec fn lr_coefficient(k: nat, w: nat, lam: Seq<u16>, mu: Seq<u16>, nu: Seq<u16>) -> int {
    if product_shape(k, w, lam, mu, nu) {
        lr_count(lam, nu, mu_content(mu))
    } else {
        0
    }
}

proof fn lemma_content_of_parts(mu: Seq<u16>)
    ensures
        content_sum(mu_content(mu)) == part_sum(mu),
    decreases mu.len(),
{
    if mu.len() > 0 {
        lemma_content_of_parts(mu.drop_last());
        assert(mu_content(mu).drop_last() =~= mu_content(mu.drop_last()));
    }
}

/// A partition of the `k x w` rectangle has at most `k * w` boxes.
proof fn lemma_part_sum_bound(x: Seq<u16>, k: nat, w: nat)
    requires
        valid_parts(x, k, w),
    ensures
        part_sum(x) <= k * w,
{
    lemma_part_sum_is_seg(x);
    lemma_seg_bound(x, 0, k as int, w as int);
}

proof fn lemma_lc_push(ts: Seq<(Seq<u16>, int)>, t: (Seq<u16>, int), x: Seq<u16>)
    ensures
        lc_coeff(ts.push(t), x) == lc_coeff(ts, x) + if t.0 == x { t.1 } else { 0 },
{
    assert(ts.push(t).drop_last() =~= ts);
}

/// Every term of `ts` is nonzero and sits on a product shape.
spec fn nonzero_shapes(ts: Seq<(Seq<u16>, int)>, k: nat, w: nat, lam: Seq<u16>, muv: Seq<u16>) -> bool {
    forall|j: int| 0 <= j < ts.len() ==> #[trigger] ts[j].1 != 0 && product_shape(k, w, lam, muv, ts[j].0)
}

/// Appending a nonzero term on a product shape keeps every term nonzero and on a product shape.
proof fn lemma_push_shape(
    before: Seq<(Seq<u16>, int)>,
    after: Seq<(Seq<u16>, int)>,
    nv: Seq<u16>,
    c: int,
    k: nat,
    w: nat,
    lam: Seq<u16>,
    muv: Seq<u16>,
)
    requires
        after == before.push((nv, c)),
        c != 0,
        product_shape(k, w, lam, muv, nv),
        nonzero_shapes(before, k, w, lam, muv),
    ensures
        nonzero_shapes(after, k, w, lam, muv),
{
    assert forall|j: int| 0 <= j < after.len() implies #[trigger] after[j].1 != 0 && product_shape(k, w, lam, muv, after[j].0) by {
        if j < before.len() {
            assert(after[j] == before[j]);
        }
    }
}

/// The nonzero Littlewood-Richardson coefficients `c^nu_{lambda,mu}` in the rectangle of `g`,
/// each with its partition `nu`, every `nu` once, in decreasing lexicographic order of `nu`.
pub fn multiply_partitions(g: &Grassmannian, lambda: &Partition, mu: &Partition) -> (r: Vec<(Partition, Integer)>)
    requires
        g.k_spec() * g.w_spec() <= usize::MAX,
        valid_for(lambda@, *g),
        valid_for(mu@, *g),
        part_sum(lambda@) + part_sum(mu@) <= usize::MAX,
    ensures
        forall|i: int|
            0 <= i < r@.len() ==> #[trigger] terms_view(r@)[i].1 != 0 && product_shape(
                g.k_spec(),
                g.w_spec(),
                lambda@,
                mu@,
                terms_view(r@)[i].0,
            ),
        forall|x: Seq<u16>|
            #[trigger] lc_coeff(terms_view(r@), x) == lr_coefficient(g.k_spec(), g.w_spec(), lambda@, mu@, x),
        forall|a: int, b: int|
            0 <= a < b < r@.len() ==> lex_lt(#[trigger] terms_view(r@)[b].0, #[trigger] terms_view(r@)[a].0),
{
    let ghost k = g.k_spec();
    let ghost w = g.w_spec();
    let ghost lam = lambda@;
    let ghost muv = mu@;
    let target_size = lambda.size() + mu.size();
    if target_size > g.dimension() {
        let r: Vec<(Partition, Integer)> = Vec::new();
        proof {
            assert forall|x: Seq<u16>| #[trigger] lc_coeff(terms_view(r@), x) == lr_coefficient(k, w, lam, muv, x) by {
                if valid_parts(x, k, w) {
                    lemma_part_sum_bound(x, k, w);
                }
            }
        }
        return r;
    }
    let parts = mu.parts();
    let mut content: Vec<usize> = Vec::new();
    let mut t: usize = 0;
    while t < parts.len()
        invariant
            t <= parts@.len(),
            parts@ == muv,
            content@ == mu_content(muv).subrange(0, t as int),
        decreases parts.len() - t,
    {
        content.push(parts[t] as usize);
        proof {
            assert(content@ =~= mu_content(muv).subrange(0, t + 1));
        }
        t = t + 1;
    }
    proof {
        assert(content@ =~= mu_content(muv));
        lemma_content_of_parts(muv);
    }
    let candidates = partitions_containing(g, lambda, target_size);
    let ghost cands = parts_of(candidates@);
    let mut out: Vec<(Partition, Integer)> = Vec::new();
    let mut i: usize = 0;
    while i < candidates.len()
        invariant
            i <= candidates@.len(),
            cands == parts_of(candidates@),
            cands.no_duplicates(),
            forall|x: Seq<u16>|
                #[trigger] cands.contains(x) <==> (valid_for(x, *g) && contains_parts(x, lam) && part_sum(x)
                    == target_size),
            target_size == part_sum(lam) + part_sum(muv),
            content@ == mu_content(muv),
            content_sum(content@) <= usize::MAX,
            lam == lambda@,
            muv == mu@,
            valid_for(lam, *g),
            k == g.k_spec(),
            w == g.w_spec(),
            nonzero_shapes(terms_view(out@), k, w, lam, muv),
            forall|x: Seq<u16>|
                #[trigger] lc_coeff(terms_view(out@), x) == if cands.subrange(0, i as int).contains(x) {
                    lr_coefficient(k, w, lam, muv, x)
                } else {
                    0
                },
            descending(cands, 0),
            forall|a: int|
                0 <= a < out@.len() ==> exists|j: int| 0 <= j < i && cands[j] == #[trigger] terms_view(out@)[a].0,
            forall|a: int, b: int|
                0 <= a < b < out@.len() ==> lex_lt(#[trigger] terms_view(out@)[b].0, #[trigger] terms_view(out@)[a].0),
        decreases candidates.len() - i,
    {
        let nu = &candidates[i];
        let ghost nv = nu@;
        proof {
            assert(cands[i as int] == nv);
            assert(cands.contains(nv));
        }
        let coefficient = count_tableaux(g, lambda, nu, content.as_slice());
        let ghost before = terms_view(out@);
        let ghost c = coefficient@;
        proof {
            assert(product_shape(k, w, lam, muv, nv));
            assert(lr_coefficient(k, w, lam, muv, nv) == c);
        }
        if !big_is_zero(&coefficient) {
            out.push((nu.clone(), coefficient));
            proof {
                assert(terms_view(out@) =~= before.push((nv, c)));
                lemma_push_shape(before, terms_view(out@), nv, c, k, w, lam, muv);
                assert forall|a: int, b: int| 0 <= a < b < out@.len() implies lex_lt(
                    #[trigger] terms_view(out@)[b].0,
                    #[trigger] terms_view(out@)[a].0,
                ) by {
                    if b == out@.len() - 1 {
                        assert(terms_view(out@)[a] == before[a]);
                        let j = choose|j: int| 0 <= j < i && cands[j] == before[a].0;
                        assert(lex_lt(cands[i as int], cands[j]));
                    } else {
                        assert(terms_view(out@)[a] == before[a]);
                        assert(terms_view(out@)[b] == before[b]);
                    }
                }
                assert forall|a: int| 0 <= a < out@.len() implies exists|j: int|
                    0 <= j < i + 1 && cands[j] == #[trigger] terms_view(out@)[a].0 by {
                    if a == out@.len() - 1 {
                        assert(cands[i as int] == terms_view(out@)[a].0);
                    } else {
                        assert(terms_view(out@)[a] == before[a]);
                        let j = choose|j: int| 0 <= j < i && cands[j] == before[a].0;
                        assert(cands[j] == terms_view(out@)[a].0);
                    }
                }
            }
        }
        proof {
            assert forall|x: Seq<u16>| #[trigger] lc_coeff(terms_view(out@), x) == if cands.subrange(0, i + 1).contains(x) {
                lr_coefficient(k, w, lam, muv, x)
            } else {
                0
            } by {
                let s0 = cands.subrange(0, i as int);
                let s1 = cands.subrange(0, i + 1);
                lemma_lc_push(before, (nv, c), x);
                if x == nv {
                    assert(s1[i as int] == x);
                    if s0.contains(x) {
                        let j = choose|j: int| 0 <= j < s0.len() && s0[j] == x;
                        assert(cands[j] == cands[i as int]);
                    }
                } else {
                    if s1.contains(x) {
                        let j = choose|j: int| 0 <= j < s1.len() && s1[j] == x;
                        assert(s0[j] == x);
                    }
                    if s0.contains(x) {
                        let j = choose|j: int| 0 <= j < s0.len() && s0[j] == x;
                        assert(s1[j] == x);
                    }
                }
            }
        }
        i = i + 1;
    }
    proof {
        assert(cands.subrange(0, i as int) =~= cands);
        assert forall|x: Seq<u16>| #[trigger] lc_coeff(terms_view(out@), x) == lr_coefficient(k, w, lam, muv, x) by {
            if product_shape(k, w, lam, muv, x) {
                assert(cands.contains(x));
            }
        }
    }
    out
}

/// Multiplication of the coefficient function `f` by `sigma_mu` through the
/// Littlewood-Richardson rule: the coefficient of `sigma_nu` is the sum over the partitions
/// `lam` of the `k x w` rectangle of `f(lam) * c^nu_{lam,mu}`.
pub open spec fn lr_fn(f: spec_fn(Seq<u16>) -> int, k: nat, w: nat, mu: Seq<u16>) -> spec_fn(Seq<u16>) -> int {
    |nu: Seq<u16>|
        box_sum(rect_lo(k), rect_hi(k, w), u16_of(), |lam: Seq<u16>| f(lam) * lr_coefficient(k, w, lam, mu, nu))
}

/// `lam |-> c^nu_{lam,mu}`.
pub open spec fn lr_weight(k: nat, w: nat, mu: Seq<u16>, nu: Seq<u16>) -> spec_fn(Seq<u16>) -> int {
    |lam: Seq<u16>| lr_coefficient(k, w, lam, mu, nu)
}

/// Multiply `expr` by `sigma_mu` with the Littlewood-Richardson rule, term by term: the error
/// of `mu`, else that of the first partition of `expr` not valid for its Grassmannian, when
/// there is one.
pub fn multiply_expr_by_class(expr: &SchubertExpr, mu: &Partition) -> (res: Result<SchubertExpr, SchubertError>)
    requires
        2 * (expr.grass().k_spec() * expr.grass().w_spec()) <= usize::MAX,
    ensures
        res is Ok <==> !class_fails(expr@, expr.grass(), mu@),
        res matches Err(e) ==> class_error(expr@, expr.grass(), mu@, e),
        res matches Ok(out) ==> out.grass() == expr.grass() && out.coeff_fn() == lr_fn(
            expr.coeff_fn(),
            expr.grass().k_spec(),
            expr.grass().w_spec(),
            mu@,
        ) && keys_valid(out@, expr.grass()),
{
    mu.validate_for(expr.grassmannian())?;
    expr.ensure_keys_valid()?;
    Ok(multiply_valid_expr_by_class(expr, mu))
}

/// The Littlewood-Richardson product of an expression and a class, all partitions valid.
fn multiply_valid_expr_by_class(expr: &SchubertExpr, mu: &Partition) -> (out: SchubertExpr)
    requires
        2 * (expr.grass().k_spec() * expr.grass().w_spec()) <= usize::MAX,
        keys_valid(expr@, expr.grass()),
        valid_for(mu@, expr.grass()),
    ensures
        out.grass() == expr.grass() && out.coeff_fn() == lr_fn(
            expr.coeff_fn(),
            expr.grass().k_spec(),
            expr.grass().w_spec(),
            mu@,
        ) && keys_valid(out@, expr.grass()),
{
    let g = expr.grassmannian();
    let width = g.width();
    let ghost k = g.k_spec();
    let ghost w = width as nat;
    let ghost muv = mu@;
    let ghost lo = rect_lo(k);
    let ghost hi = rect_hi(k, w);
    let mut out = SchubertExpr::zero(g);
    let terms = expr.terms();
    let ghost ts = expr@;
    proof {
        lemma_part_sum_bound(muv, k, w);
    }
    if !expr.is_zero() {
        let mut i: usize = 0;
        while i < terms.len()
            invariant
                i <= terms@.len(),
                terms_view(terms@) == ts,
                ts == expr@,
                *g == expr.grass(),
                k == g.k_spec(),
                w == g.w_spec(),
                2 * (k * w) <= usize::MAX,
                keys_valid(ts, *g),
                valid_for(muv, *g),
                muv == mu@,
                part_sum(muv) <= k * w,
                lo == rect_lo(k),
                hi == rect_hi(k, w),
                out.grass() == *g,
                canonical(out@),
                forall|nu: Seq<u16>| !valid_for(nu, *g) ==> #[trigger] out.coeff(nu) == 0,
                forall|nu: Seq<u16>|
                    #[trigger] out.coeff(nu) == box_weighted(ts.subrange(0, i as int), lo, hi, lr_weight(k, w, muv, nu)),
            decreases terms.len() - i,
        {
            let lambda = &terms[i].0;
            let coeff = &terms[i].1;
            let ghost lam = lambda@;
            let ghost c = coeff@;
            proof {
                assert(ts[i as int] == (lam, c));
                assert(valid_for(ts[i as int].0, *g));
                lemma_part_sum_bound(lam, k, w);
            }
            let products = multiply_partitions(g, lambda, mu);
            let ghost pv = terms_view(products@);
            let ghost base = out;
            let mut j: usize = 0;
            while j < products.len()
                invariant
                    j <= products@.len(),
                    pv == terms_view(products@),
                    forall|a: int|
                        0 <= a < products@.len() ==> #[trigger] pv[a].1 != 0 && product_shape(k, w, lam, muv, pv[a].0),
                    coeff@ == c,
                    k == g.k_spec(),
                    w == g.w_spec(),
                    out.grass() == *g,
                    base.grass() == *g,
                    canonical(out@),
                    forall|nu: Seq<u16>| !valid_for(nu, *g) ==> #[trigger] base.coeff(nu) == 0,
                    forall|nu: Seq<u16>| !valid_for(nu, *g) ==> #[trigger] out.coeff(nu) == 0,
                    forall|nu: Seq<u16>|
                        #[trigger] out.coeff(nu) == base.coeff(nu) + c * lc_coeff(pv.subrange(0, j as int), nu),
                decreases products.len() - j,
            {
                let nu = &products[j].0;
                let lr = &products[j].1;
                let ghost before = out;
                let ghost t = pv[j as int];
                proof {
                    assert(t == (nu@, lr@));
                }
                out.add_term(nu.clone(), big_mul(coeff, lr));
                proof {
                    assert forall|x: Seq<u16>| #[trigger] out.coeff(x) == base.coeff(x) + c * lc_coeff(
                        pv.subrange(0, j + 1),
                        x,
                    ) by {
                        assert(pv.subrange(0, j + 1) =~= pv.subrange(0, j as int).push(t));
                        lemma_lc_push(pv.subrange(0, j as int), t, x);
                        let a = lc_coeff(pv.subrange(0, j as int), x);
                        let b = if t.0 == x { t.1 } else { 0 };
                        assert(c * (a + b) == c * a + c * b) by (nonlinear_arith);
                        assert(before.coeff(x) == base.coeff(x) + c * a);
                    }
                    assert(pv[j as int].1 != 0);
                    assert forall|x: Seq<u16>| !valid_for(x, *g) implies #[trigger] out.coeff(x) == 0 by {
                        assert(before.coeff(x) == 0);
                        assert(product_shape(k, w, lam, muv, t.0));
                    }
                }
                j = j + 1;
            }
            proof {
                assert(pv.subrange(0, j as int) =~= pv);
                assert(ts.subrange(0, i + 1).drop_last() =~= ts.subrange(0, i as int));
                assert(ts.subrange(0, i + 1).last() == ts[i as int]);
                assert(in_box(lo, hi, int_of_u16(), lam));
                assert forall|nu: Seq<u16>| #[trigger] out.coeff(nu) == box_weighted(
                    ts.subrange(0, i + 1),
                    lo,
                    hi,
                    lr_weight(k, w, muv, nu),
                ) by {
                    assert(lc_coeff(pv, nu) == lr_coefficient(k, w, lam, muv, nu));
                    assert(lr_weight(k, w, muv, nu)(lam) == lr_coefficient(k, w, lam, muv, nu));
                }
            }
            i = i + 1;
        }
        proof {
            assert(ts.subrange(0, i as int) =~= ts);
        }
    } else {
        proof {
            assert(ts.subrange(0, 0) =~= ts);
        }
    }
    proof {
        lemma_u16_embeds(lo, hi);
        let f = expr.coeff_fn();
        assert forall|nu: Seq<u16>| #[trigger] out.coeff_fn()(nu) == lr_fn(f, k, w, muv)(nu) by {
            lemma_box_sum_terms(ts, lo, hi, lr_weight(k, w, muv, nu));
            assert((|lam: Seq<u16>| f(lam) * lr_coefficient(k, w, lam, muv, nu)) =~= (|x: Seq<u16>| lc_coeff(ts, x)
                * lr_weight(k, w, muv, nu)(x)));
            assert(out.coeff_fn()(nu) == out.coeff(nu));
        }
        assert(out.coeff_fn() =~= lr_fn(f, k, w, muv));
        assert forall|nu: Seq<u16>| lc_coeff(out@, nu) != 0 implies valid_for(nu, *g) by {
            assert(out.coeff(nu) == lc_coeff(out@, nu));
        }
        lemma_keys_valid_from_support(out@, *g);
    }
    out
}

/// Counts of completions are never negative.
pub(crate) proof fn lemma_completions_nonneg(cells: Seq<(int, int)>, content: Seq<usize>, p: Seq<usize>)
    ensures
        completions(cells, content, p) >= 0,
    decreases cells.len() - p.len(), content.len() + 1,
{
    if p.len() < cells.len() {
        lemma_tally_nonneg(cells, content, p, content.len() as int);
    }
}

/// Partial counts of completions are never negative.
pub(crate) proof fn lemma_tally_nonneg(cells: Seq<(int, int)>, content: Seq<usize>, p: Seq<usize>, n: int)
    ensures
        tally(cells, content, p, n) >= 0,
    decreases cells.len() - p.len(), n,
{
    if n > 0 && p.len() < cells.len() {
        lemma_tally_nonneg(cells, content, p, n - 1);
        if fits_next(cells, content, p, n - 1) {
            lemma_completions_nonneg(cells, content, p.push((n - 1) as usize));
        }
    }
}

/// Two part sequences, one at least the other entrywise, with equal sums over `a..b`, agree there.
proof fn lemma_seg_eq(x: Seq<u16>, y: Seq<u16>, a: int, b: int)
    requires
        a <= b,
        forall|i: int| a <= i < b ==> #[trigger] x[i] >= y[i],
        seg_sum(x, a, b) == seg_sum(y, a, b),
    ensures
        forall|i: int| a <= i < b ==> #[trigger] x[i] == y[i],
    decreases b - a,
{
    if b > a {
        lemma_seg_ge(x, y, a, b - 1);
        lemma_seg_eq(x, y, a, b - 1);
    }
}

proof fn lemma_no_cells(lam: Seq<u16>, r: int)
    requires
        0 <= r,
    ensures
        cells_upto(lam, lam, r).len() == 0,
    decreases r,
{
    if r > 0 {
        lemma_no_cells(lam, r - 1);
    }
}

/// The empty partition has no boxes.
pub(crate) proof fn lemma_zero_parts_sum(k: nat)
    ensures
        part_sum(crate::partition::zero_parts(k)) == 0,
{
    let z = crate::partition::zero_parts(k);
    lemma_part_sum_is_seg(z);
    lemma_seg_bound(z, 0, k as int, 0);
    lemma_seg_nonneg(z, 0, k as int);
}

/// `c^nu_{lam,()}` is one for `nu == lam` in the rectangle and zero otherwise.
pub(crate) proof fn lemma_lr_unit_coefficient(k: nat, w: nat, lam: Seq<u16>, nu: Seq<u16>)
    requires
        lam.len() == k,
    ensures
        lr_coefficient(k, w, lam, crate::partition::zero_parts(k), nu) == if nu == lam && valid_parts(lam, k, w) {
            1int
        } else {
            0int
        },
{
    let z = crate::partition::zero_parts(k);
    lemma_zero_parts_sum(k);
    if product_shape(k, w, lam, z, nu) {
        lemma_part_sum_is_seg(nu);
        lemma_part_sum_is_seg(lam);
        lemma_seg_eq(nu, lam, 0, k as int);
        assert(nu =~= lam);
        lemma_no_cells(lam, lam.len() as int);
        lemma_content_of_parts(z);
    } else if nu == lam && valid_parts(lam, k, w) {
        assert(product_shape(k, w, lam, z, nu));
    }
}

/// With valid keys, weighting each term by `c^nu_{lam,()}` picks out the coefficient of `nu`.
pub(crate) proof fn lemma_unit_weighted(ts: Seq<(Seq<u16>, int)>, k: nat, w: nat, nu: Seq<u16>)
    requires
        forall|i: int| 0 <= i < ts.len() ==> valid_parts(#[trigger] ts[i].0, k, w),
    ensures
        box_weighted(ts, rect_lo(k), rect_hi(k, w), lr_weight(k, w, crate::partition::zero_parts(k), nu))
            == lc_coeff(ts, nu),
    decreases ts.len(),
{
    if ts.len() > 0 {
        let t = ts.last();
        assert(valid_parts(ts[ts.len() - 1].0, k, w));
        assert forall|i: int| 0 <= i < ts.drop_last().len() implies valid_parts(#[trigger] ts.drop_last()[i].0, k, w) by {
            assert(ts.drop_last()[i] == ts[i]);
        }
        lemma_unit_weighted(ts.drop_last(), k, w, nu);
        lemma_lr_unit_coefficient(k, w, t.0, nu);
        assert(in_box(rect_lo(k), rect_hi(k, w), int_of_u16(), t.0));
    }
}

/// The cell `(row, c)` has a cell of `nu / lam` right above it.
pub open spec fn has_above(lam: Seq<u16>, nu: Seq<u16>, cell: (int, int)) -> bool {
    cell.0 > 0 && lam[cell.0 - 1] <= cell.1 < nu[cell.0 - 1]
}

/// `i` labels `0`.
pub open spec fn zero_labels(i: nat) -> Seq<usize> {
    Seq::new(i, |j: int| 0usize)
}

proof fn lemma_zero_label_counts(i: nat, u: int)
    ensures
        occurrences(zero_labels(i), u) == if u == 0 { i as int } else { 0 },
    decreases i,
{
    if i > 0 {
        assert(zero_labels(i).drop_last() =~= zero_labels((i - 1) as nat));
        lemma_zero_label_counts((i - 1) as nat, u);
    }
}

/// `nu / lam` has `|nu| - |lam|` cells when `nu` contains `lam`.
proof fn lemma_cells_count(lam: Seq<u16>, nu: Seq<u16>, t: int)
    requires
        0 <= t <= nu.len(),
        forall|i: int| 0 <= i < t ==> #[trigger] nu[i] >= lam[i],
    ensures
        cells_upto(lam, nu, t).len() == seg_sum(nu, 0, t) - seg_sum(lam, 0, t),
    decreases t,
{
    if t > 0 {
        lemma_cells_count(lam, nu, t - 1);
        lemma_cells_upto_len(lam, nu, t - 1);
    }
}

/// `sum over i >= from of (nu[i] - lam[i])` in terms of the two part sums.
proof fn lemma_diff_sum_seg(nu: Seq<u16>, lam: Seq<u16>, from: int)
    requires
        0 <= from <= nu.len(),
    ensures
        crate::pieri::diff_sum(nu, lam, from) == seg_sum(nu, from, nu.len() as int) - seg_sum(lam, from, nu.len() as int),
    decreases nu.len() - from,
{
    if from < nu.len() {
        lemma_diff_sum_seg(nu, lam, from + 1);
        lemma_seg_split(nu, from, from + 1, nu.len() as int);
        lemma_seg_split(lam, from, from + 1, nu.len() as int);
        assert(seg_sum(nu, from, from + 1) == nu[from]) by {
            assert(seg_sum(nu, from, from) == 0);
        }
        assert(seg_sum(lam, from, from + 1) == lam[from]) by {
            assert(seg_sum(lam, from, from) == 0);
        }
    }
}

/// With content `(r, 0, ..., 0)` only label `0` fits the next cell after `i` zeroes, and it
/// fits exactly when no cell of the shape lies right above that cell.
proof fn lemma_zero_fits(lam: Seq<u16>, nu: Seq<u16>, content: Seq<usize>, i: nat)
    requires
        lam.len() == nu.len(),
        content.len() >= 1,
        content[0] == reading_cells(lam, nu).len(),
        forall|v: int| 1 <= v < content.len() ==> #[trigger] content[v] == 0,
        i < reading_cells(lam, nu).len(),
    ensures
        forall|v: int| 1 <= v < content.len() ==> !fits_next(reading_cells(lam, nu), content, zero_labels(i), v),
        fits_next(reading_cells(lam, nu), content, zero_labels(i), 0) == !has_above(
            lam,
            nu,
            reading_cells(lam, nu)[i as int],
        ),
{
    let cells = reading_cells(lam, nu);
    let k = lam.len() as int;
    let m = content.len() as int;
    let p = zero_labels(i);
    let row = cells[i as int].0;
    let col = cells[i as int].1;
    lemma_cell_at(lam, nu, k, i as int);
    assert forall|v: int| 1 <= v < m implies !fits_next(cells, content, p, v) by {
        lemma_zero_label_counts(i, v);
    }
    lemma_zero_label_counts(i, 0);
    assert(p.push(0usize) =~= zero_labels(i + 1));
    assert forall|u: int| 0 <= u < m - 1 implies #[trigger] occurrences(zero_labels(i + 1), u) >= occurrences(
        zero_labels(i + 1),
        u + 1,
    ) by {
        lemma_zero_label_counts(i + 1, u);
        lemma_zero_label_counts(i + 1, u + 1);
    }
    assert(lattice_word(p.push(0usize), m));
    if has_above(lam, nu, cells[i as int]) {
        let j1 = cell_index(lam, nu, row - 1, col);
        lemma_index_of(lam, nu, k, row - 1, col);
        assert(j1 < i);
        assert(cells[j1] == (row - 1, col));
        assert(!(p[j1] < 0));
    } else {
        assert forall|j: int| 0 <= j < p.len() && #[trigger] cells[j] == (row - 1, col) implies p[j] < 0 by {
            lemma_cell_at(lam, nu, k, j);
        }
        assert(fits_next(cells, content, p, 0));
    }
}

/// With content `(r, 0, ..., 0)`, the labelling by zeroes extends in exactly one way when no
/// later cell has a cell of the shape right above it, and in none otherwise.
proof fn lemma_one_row_completions(lam: Seq<u16>, nu: Seq<u16>, content: Seq<usize>, i: nat)
    requires
        lam.len() == nu.len(),
        content.len() >= 1,
        content[0] == reading_cells(lam, nu).len(),
        forall|v: int| 1 <= v < content.len() ==> #[trigger] content[v] == 0,
        i <= reading_cells(lam, nu).len(),
    ensures
        completions(reading_cells(lam, nu), content, zero_labels(i)) == if (forall|j: int|
            i <= j < reading_cells(lam, nu).len() ==> !has_above(lam, nu, #[trigger] reading_cells(lam, nu)[j])) {
            1int
        } else {
            0int
        },
    decreases reading_cells(lam, nu).len() - i,
{
    let cells = reading_cells(lam, nu);
    let m = content.len() as int;
    let p = zero_labels(i);
    if i < cells.len() {
        lemma_one_row_completions(lam, nu, content, i + 1);
        lemma_zero_fits(lam, nu, content, i);
        lemma_tally_tail(cells, content, p, m);
        assert(p.push(0usize) =~= zero_labels(i + 1));
        assert(tally(cells, content, p, 0) == 0);
        assert(((1int - 1) as usize) == 0usize);
        assert(tally(cells, content, p, 1) == tally(cells, content, p, 0) + if fits_next(cells, content, p, 0) {
            completions(cells, content, p.push(0usize))
        } else {
            0
        });
        assert(tally(cells, content, p, 1) == if fits_next(cells, content, p, 0) {
            completions(cells, content, zero_labels(i + 1))
        } else {
            0
        });
        if (forall|j: int| i + 1 <= j < cells.len() ==> !has_above(lam, nu, #[trigger] cells[j])) && !has_above(
            lam,
            nu,
            cells[i as int],
        ) {
            assert forall|j: int| i <= j < cells.len() implies !has_above(lam, nu, #[trigger] cells[j]) by {}
        }
    }
}

/// Past the first label, nothing fits with content `(r, 0, ..., 0)`.
proof fn lemma_tally_tail(cells: Seq<(int, int)>, content: Seq<usize>, p: Seq<usize>, n: int)
    requires
        1 <= n <= content.len(),
        p.len() < cells.len(),
        forall|v: int| 1 <= v < content.len() ==> !fits_next(cells, content, p, v),
    ensures
        tally(cells, content, p, n) == tally(cells, content, p, 1),
    decreases n,
{
    if n > 1 {
        lemma_tally_tail(cells, content, p, n - 1);
    }
}

/// A one-row partition `(r, 0, ..., 0)` has `r` boxes.
pub(crate) proof fn lemma_one_row_sum(mu: Seq<u16>, k: nat)
    requires
        k >= 1,
        mu.len() == k,
        forall|i: int| 1 <= i < k ==> #[trigger] mu[i] == 0,
    ensures
        part_sum(mu) == mu[0],
{
    lemma_part_sum_is_seg(mu);
    lemma_seg_split(mu, 0, 1, k as int);
    lemma_seg_bound(mu, 1, k as int, 0);
    lemma_seg_nonneg(mu, 1, k as int);
    assert(seg_sum(mu, 0, 1) == mu[0]) by {
        assert(seg_sum(mu, 0, 0) == 0);
    }
}

/// For `nu` containing `lam`, the part sums differ by `diff_sum`.
pub(crate) proof fn lemma_diff_is_part_sums(k: nat, lam: Seq<u16>, nu: Seq<u16>)
    requires
        lam.len() == k,
        nu.len() == k,
    ensures
        crate::pieri::diff_sum(nu, lam, 0) == part_sum(nu) - part_sum(lam),
{
    lemma_part_sum_is_seg(lam);
    lemma_part_sum_is_seg(nu);
    lemma_diff_sum_seg(nu, lam, 0);
}

/// No cell of `nu / lam` has a cell of the shape right above it exactly when
/// `nu[i] <= lam[i-1]` for every row `i > 0`.
proof fn lemma_no_above(k: nat, lam: Seq<u16>, nu: Seq<u16>)
    requires
        lam.len() == k,
        nu.len() == k,
        weakly_decreasing(lam),
        weakly_decreasing(nu),
    ensures
        (forall|j: int|
            0 <= j < reading_cells(lam, nu).len() ==> !has_above(lam, nu, #[trigger] reading_cells(lam, nu)[j]))
            <==> (forall|i: int| 0 < i < k ==> #[trigger] nu[i] <= lam[i - 1]),
{
    let cells = reading_cells(lam, nu);
    if forall|i: int| 0 < i < k ==> #[trigger] nu[i] <= lam[i - 1] {
        assert forall|j: int| 0 <= j < cells.len() implies !has_above(lam, nu, #[trigger] cells[j]) by {
            lemma_cell_at(lam, nu, k as int, j);
            let row = cells[j].0;
            if row > 0 {
                assert(nu[row] <= lam[row - 1]);
            }
        }
    } else {
        let i = choose|i: int| 0 < i < k && !(#[trigger] nu[i] <= lam[i - 1]);
        let c = lam[i - 1] as int;
        assert(lam[i - 1] >= lam[i]);
        assert(nu[i - 1] >= nu[i]);
        lemma_index_of(lam, nu, k as int, i, c);
        let j = cell_index(lam, nu, i, c);
        assert(cells[j] == (i, c));
        assert(has_above(lam, nu, cells[j]));
    }
}

/// `c^nu_{lam,(r)}` is one when `nu / lam` is a horizontal strip of `r` boxes in the rectangle
/// and zero otherwise: the Littlewood-Richardson rule agrees with Pieri's rule.
#[verifier::spinoff_prover]
#[verifier::rlimit(50)]
pub(crate) proof fn lemma_lr_one_row_coefficient(k: nat, w: nat, lam: Seq<u16>, mu: Seq<u16>, nu: Seq<u16>)
    requires
        k >= 1,
        valid_parts(lam, k, w),
        mu.len() == k,
        forall|i: int| 1 <= i < k ==> #[trigger] mu[i] == 0,
    ensures
        lr_coefficient(k, w, lam, mu, nu) == if crate::pieri::is_strip(k, w, lam, nu, mu[0] as int) {
            1int
        } else {
            0int
        },
{
    let r = mu[0] as int;
    lemma_one_row_sum(mu, k);
    if nu.len() == k {
        lemma_diff_is_part_sums(k, lam, nu);
    }
    if crate::pieri::is_strip(k, w, lam, nu, r) {
        assert forall|i: int| 0 < i < nu.len() implies nu[i - 1] >= #[trigger] nu[i] by {
            assert(nu[i] <= lam[i - 1]);
            assert(lam[i - 1] <= nu[i - 1]);
        }
        assert(product_shape(k, w, lam, mu, nu));
    }
    if product_shape(k, w, lam, mu, nu) {
        let cells = reading_cells(lam, nu);
        let content = mu_content(mu);
        let no_above = forall|j: int| 0 <= j < cells.len() ==> !has_above(lam, nu, #[trigger] cells[j]);
        let under = forall|i: int| 0 < i < k ==> #[trigger] nu[i] <= lam[i - 1];
        assert(cells.len() == content_sum(content)) by {
            lemma_part_sum_is_seg(lam);
            lemma_part_sum_is_seg(nu);
            lemma_cells_count(lam, nu, k as int);
            lemma_content_of_parts(mu);
        }
        assert(lr_coefficient(k, w, lam, mu, nu) == completions(cells, content, zero_labels(0))) by {
            assert(zero_labels(0) =~= Seq::<usize>::empty());
        }
        assert(content_sum(content) == r) by {
            lemma_content_of_parts(mu);
        }
        assert(content[0] == r);
        assert(completions(cells, content, zero_labels(0)) == if no_above { 1int } else { 0int }) by {
            lemma_one_row_completions(lam, nu, content, 0);
        }
        assert(no_above == under) by {
            lemma_no_above(k, lam, nu);
        }
        assert(crate::pieri::is_strip(k, w, lam, nu, r) == under);
    }
}

/// The labelling of the first `i` cells by their rows.
pub open spec fn row_labels(cells: Seq<(int, int)>, i: int) -> Seq<usize> {
    Seq::new(i as nat, |j: int| cells[j].0 as usize)
}

/// `x` cut down to `0..=m`.
pub open spec fn clamp(x: int, m: int) -> int {
    if x <= 0 {
        0
    } else if x >= m {
        m
    } else {
        x
    }
}

/// In the straight shape `nu`, labelling the first `i` cells by their rows uses label `u`
/// once for each cell of row `u` among them.
proof fn lemma_row_label_counts(nu: Seq<u16>, i: int, u: int)
    requires
        nu.len() <= usize::MAX,
        0 <= i <= reading_cells(crate::partition::zero_parts(nu.len()), nu).len(),
        0 <= u < nu.len(),
    ensures
        occurrences(row_labels(reading_cells(crate::partition::zero_parts(nu.len()), nu), i), u) == clamp(
            i - cells_upto(crate::partition::zero_parts(nu.len()), nu, u).len(),
            nu[u] as int,
        ),
    decreases i,
{
    let z = crate::partition::zero_parts(nu.len());
    let cells = reading_cells(z, nu);
    let k = nu.len() as int;
    lemma_cells_upto_len(z, nu, u);
    lemma_cells_upto_mono(z, nu, 0, u);
    if i == 0 {
        assert(row_labels(cells, 0) =~= Seq::<usize>::empty());
    } else {
        let r = cells[i - 1].0;
        let c = cells[i - 1].1;
        lemma_row_label_counts(nu, i - 1, u);
        assert(row_labels(cells, i) =~= row_labels(cells, i - 1).push(r as usize));
        lemma_cell_at(z, nu, k, i - 1);
        lemma_occurrences_push(row_labels(cells, i - 1), r as usize, u);
        lemma_cells_upto_len(z, nu, r);
        if u < r {
            lemma_cells_upto_mono(z, nu, u + 1, r);
        } else if u > r {
            lemma_cells_upto_mono(z, nu, r + 1, u);
        }
    }
}

/// In the straight shape `nu` with content `mu`, after labelling the first `i` cells by their
/// rows, only the row `r` of the next cell can label it, and it can when row `r` has not used
/// up `mu[r]`.
proof fn lemma_unit_fits(nu: Seq<u16>, mu: Seq<u16>, i: int)
    requires
        nu.len() <= usize::MAX,
        mu.len() == nu.len(),
        weakly_decreasing(nu),
        0 <= i < reading_cells(crate::partition::zero_parts(nu.len()), nu).len(),
    ensures
        ({
            let cells = reading_cells(crate::partition::zero_parts(nu.len()), nu);
            let r = cells[i].0;
            let c = cells[i].1;
            &&& forall|v: int|
                #[trigger] fits_next(cells, mu_content(mu), row_labels(cells, i), v) ==> v == r
            &&& fits_next(cells, mu_content(mu), row_labels(cells, i), r) == (nu[r] - 1 - c < mu[r])
        }),
{
    let z = crate::partition::zero_parts(nu.len());
    let cells = reading_cells(z, nu);
    let k = nu.len() as int;
    let content = mu_content(mu);
    let p = row_labels(cells, i);
    let r = cells[i].0;
    let c = cells[i].1;
    lemma_cell_at(z, nu, k, i);
    let start = cells_upto(z, nu, r).len() as int;
    assert(i == start + nu[r] - 1 - c);
    // the counts of the labels so far
    assert forall|u: int| 0 <= u < k implies #[trigger] occurrences(p, u) == if u < r {
        nu[u] as int
    } else if u == r {
        nu[r] - 1 - c
    } else {
        0
    } by {
        lemma_row_label_counts(nu, i, u);
        lemma_cells_upto_len(z, nu, u);
        if u < r {
            lemma_cells_upto_mono(z, nu, u + 1, r);
        } else if u > r {
            lemma_cells_upto_len(z, nu, r);
            lemma_cells_upto_mono(z, nu, r + 1, u);
        }
    }
    // a cell right of the next one lies just before it
    if c + 1 < nu[r] {
        lemma_index_of(z, nu, k, r, c + 1);
        assert(cells[i - 1] == (r, c + 1));
        assert(p[i - 1] == r);
    }
    // the cell above the next one has label r - 1
    if r > 0 {
        assert(nu[r - 1] >= nu[r]);
        lemma_index_of(z, nu, k, r - 1, c);
        let j = cell_index(z, nu, r - 1, c);
        lemma_cells_upto_len(z, nu, r - 1);
        assert(j < i);
        assert(cells[j] == (r - 1, c));
        assert(p[j] == r - 1);
    }
    assert forall|v: int| #[trigger] fits_next(cells, content, p, v) implies v == r by {
        if r > 0 {
            let j = cell_index(z, nu, r - 1, c);
            assert(cells[j] == (r - 1, c));
        }
        if v > r {
            lemma_occurrences_push(p, v as usize, v);
            lemma_occurrences_push(p, v as usize, v - 1);
            assert(occurrences(p.push(v as usize), v - 1) >= occurrences(p.push(v as usize), v));
            if v - 1 == r {
                assert(c + 1 < nu[r]);
                assert(cells[i - 1] == (r, c + 1));
            }
        }
    }
    // the row label fits exactly when the content allows it
    assert forall|u: int| 0 <= u < k implies #[trigger] occurrences(p.push(r as usize), u) == occurrences(p, u) + if u
        == r {
        1int
    } else {
        0int
    } by {
        lemma_occurrences_push(p, r as usize, u);
    }
    assert forall|u: int| 0 <= u < k - 1 implies #[trigger] occurrences(p.push(r as usize), u) >= occurrences(
        p.push(r as usize),
        u + 1,
    ) by {
        assert(occurrences(p.push(r as usize), u + 1) == occurrences(p, u + 1) + if u + 1 == r { 1int } else { 0int });
        if u < r {
            assert(nu[u] >= nu[u + 1]);
        }
    }
    assert(lattice_word(p.push(r as usize), content.len() as int));
    assert forall|j: int| 0 <= j < p.len() && #[trigger] cells[j] == (r, c + 1) implies r <= p[j] by {}
    assert forall|j: int| 0 <= j < p.len() && #[trigger] cells[j] == (r - 1, c) implies p[j] < r by {
        lemma_cell_at(z, nu, k, j);
    }
}

/// When only label `r` can fill the next cell, the partial counts over labels below `n` are
/// the completions after `r` once `n` passes `r`.
proof fn lemma_tally_single(cells: Seq<(int, int)>, content: Seq<usize>, p: Seq<usize>, r: int, n: int)
    requires
        p.len() < cells.len(),
        0 <= r,
        forall|v: int| #[trigger] fits_next(cells, content, p, v) ==> v == r,
    ensures
        tally(cells, content, p, n) == if n > r && fits_next(cells, content, p, r) {
            completions(cells, content, p.push(r as usize))
        } else {
            0
        },
    decreases n,
{
    if n > 0 {
        lemma_tally_single(cells, content, p, r, n - 1);
        if n - 1 != r {
            assert(!fits_next(cells, content, p, n - 1));
        }
    }
}

/// The content `mu` leaves room in row `cell.0` for the cell `cell` of the straight shape `nu`:
/// fewer than `mu[row]` cells lie to its right.
pub open spec fn row_fits(nu: Seq<u16>, mu: Seq<u16>, cell: (int, int)) -> bool {
    nu[cell.0] - 1 - cell.1 < mu[cell.0]
}

/// In the straight shape `nu` with content `mu`, labelling the first `i` cells by their rows
/// extends in exactly one way when every later cell has room in its row, and in none otherwise.
proof fn lemma_unit_completions(nu: Seq<u16>, mu: Seq<u16>, i: int)
    requires
        nu.len() <= usize::MAX,
        mu.len() == nu.len(),
        weakly_decreasing(nu),
        0 <= i <= reading_cells(crate::partition::zero_parts(nu.len()), nu).len(),
    ensures
        completions(
            reading_cells(crate::partition::zero_parts(nu.len()), nu),
            mu_content(mu),
            row_labels(reading_cells(crate::partition::zero_parts(nu.len()), nu), i),
        ) == if (forall|j: int|
            i <= j < reading_cells(crate::partition::zero_parts(nu.len()), nu).len() ==> row_fits(
                nu,
                mu,
                #[trigger] reading_cells(crate::partition::zero_parts(nu.len()), nu)[j],
            )) {
            1int
        } else {
            0int
        },
    decreases reading_cells(crate::partition::zero_parts(nu.len()), nu).len() - i,
{
    let z = crate::partition::zero_parts(nu.len());
    let cells = reading_cells(z, nu);
    let k = nu.len() as int;
    let content = mu_content(mu);
    let p = row_labels(cells, i);
    if i < cells.len() {
        let r = cells[i].0;
        lemma_cell_at(z, nu, k, i);
        lemma_unit_completions(nu, mu, i + 1);
        lemma_unit_fits(nu, mu, i);
        lemma_tally_single(cells, content, p, r, k);
        assert(p.push(r as usize) =~= row_labels(cells, i + 1));
        assert(completions(cells, content, p) == tally(cells, content, p, k));
        if (forall|j: int| i + 1 <= j < cells.len() ==> row_fits(nu, mu, #[trigger] cells[j])) && row_fits(
            nu,
            mu,
            cells[i],
        ) {
            assert forall|j: int| i <= j < cells.len() implies row_fits(nu, mu, #[trigger] cells[j]) by {}
        }
    } else {
        assert(p.len() == cells.len());
    }
}

/// `c^nu_{(),mu}` is one for `nu == mu` and zero otherwise.
#[verifier::spinoff_prover]
pub(crate) proof fn lemma_lr_left_unit_coefficient(k: nat, w: nat, mu: Seq<u16>, nu: Seq<u16>)
    requires
        k <= usize::MAX,
        valid_parts(mu, k, w),
    ensures
        lr_coefficient(k, w, crate::partition::zero_parts(k), mu, nu) == if nu == mu { 1int } else { 0int },
{
    let z = crate::partition::zero_parts(k);
    lemma_zero_parts_sum(k);
    if product_shape(k, w, z, mu, nu) {
        let cells = reading_cells(z, nu);
        let content = mu_content(mu);
        assert(cells.len() == content_sum(content)) by {
            lemma_part_sum_is_seg(z);
            lemma_part_sum_is_seg(nu);
            lemma_cells_count(z, nu, k as int);
            lemma_content_of_parts(mu);
        }
        assert(row_labels(cells, 0) =~= Seq::<usize>::empty());
        lemma_unit_completions(nu, mu, 0);
        let fits_all = forall|j: int| 0 <= j < cells.len() ==> row_fits(nu, mu, #[trigger] cells[j]);
        if nu == mu {
            assert forall|j: int| 0 <= j < cells.len() implies row_fits(nu, mu, #[trigger] cells[j]) by {
                lemma_cell_at(z, nu, k as int, j);
            }
        }
        if fits_all {
            assert forall|r: int| 0 <= r < k implies #[trigger] mu[r] >= nu[r] by {
                if nu[r] > 0 {
                    lemma_index_of(z, nu, k as int, r, 0);
                    assert(row_fits(nu, mu, cells[cell_index(z, nu, r, 0)]));
                }
            }
            lemma_part_sum_is_seg(nu);
            lemma_part_sum_is_seg(mu);
            lemma_seg_eq(mu, nu, 0, k as int);
            assert(nu =~= mu);
        }
    } else if nu == mu {
        assert(product_shape(k, w, z, mu, nu));
    }
}

} // verus!
