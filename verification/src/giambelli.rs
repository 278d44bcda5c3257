use vstd::prelude::*;

use crate::errors::SchubertError;
use crate::expr::{
    first_invalid_error, keys_valid, lemma_keys_valid_from_support, lemma_support_of_keys_valid, scaled_fn,
    special_fn, zero_fn, SchubertExpr,
};
use crate::integer::Integer;
use crate::partition::{all_zero, valid_for, Partition};
use crate::sums::{box_sum, embeds, in_box, lemma_box_sum_ext, lemma_box_sum_list, list_sum};
use crate::terms::lc_coeff;

verus! {

/// The sequences of a list of vectors.
pub open spec fn vecs_view(v: Seq<Vec<usize>>) -> Seq<Seq<usize>> {
    v.map_values(|x: Vec<usize>| x@)
}

/// `y` occurs in `values` at position `start` or later.
pub open spec fn in_tail(values: Seq<usize>, start: int, y: usize) -> bool {
    exists|m: int| start <= m < values.len() && values[m] == y
}

/// `x` keeps the first `start` entries of `values` and rearranges the rest.
pub open spec fn rearranges(values: Seq<usize>, start: int, x: Seq<usize>) -> bool {
    &&& x.len() == values.len()
    &&& forall|i: int| 0 <= i < start ==> #[trigger] x[i] == values[i]
    &&& forall|i: int, j: int| start <= i < j < x.len() ==> #[trigger] x[i] != #[trigger] x[j]
    &&& forall|i: int| start <= i < x.len() ==> in_tail(values, start, #[trigger] x[i])
}

/// `x` agrees with `values` on its first `start` entries.
pub open spec fn same_prefix(values: Seq<usize>, start: int, x: Seq<usize>) -> bool {
    &&& x.len() == values.len()
    &&& forall|i: int| 0 <= i < start ==> #[trigger] x[i] == values[i]
}

/// `p` is a permutation of `0, ..., n-1`, as integers.
pub open spec fn is_perm(p: Seq<int>, n: nat) -> bool {
    &&& p.len() == n
    &&& forall|i: int| 0 <= i < n ==> 0 <= #[trigger] p[i] < n
    &&& forall|i: int, j: int| 0 <= i < j < n ==> #[trigger] p[i] != #[trigger] p[j]
}

/// A vector of indices as a sequence of integers.
pub open spec fn ints(p: Seq<usize>) -> Seq<int> {
    p.map_values(|x: usize| x as int)
}

/// `v` with the entries at `a` and `b` exchanged.
pub open spec fn swapped(v: Seq<usize>, a: int, b: int) -> Seq<usize> {
    v.update(a, v[b]).update(b, v[a])
}

/// The rearrangements of `v` from position `start` on, in the order of the search that
/// exchanges position `start` with each position `start, start + 1, ...` in turn and then
/// rearranges the rest.
pub open spec fn swap_perms(v: Seq<usize>, start: int) -> Seq<Seq<usize>>
    decreases v.len() - start, v.len() + 1,
{
    if start >= v.len() || start < 0 {
        seq![v]
    } else {
        swap_list(v, start, v.len() as int)
    }
}

/// The part of `swap_perms(v, start)` that exchanges position `start` with a position below `hi`.
pub open spec fn swap_list(v: Seq<usize>, start: int, hi: int) -> Seq<Seq<usize>>
    decreases v.len() - start, hi - start,
{
    if hi <= start || hi > v.len() || start < 0 {
        Seq::empty()
    } else {
        swap_list(v, start, hi - 1) + swap_perms(swapped(v, start, hi - 1), start + 1)
    }
}

fn swap_entries(values: &mut Vec<usize>, a: usize, b: usize)
    requires
        a < old(values)@.len(),
        b < old(values)@.len(),
    ensures
        final(values)@ == old(values)@.update(a as int, old(values)@[b as int]).update(b as int, old(values)@[a as int]),
{
    let x = values[a];
    let y = values[b];
    values.set(a, y);
    values.set(b, x);
}

fn backtrack(start: usize, values: &mut Vec<usize>, out: &mut Vec<Vec<usize>>)
    requires
        start <= old(values)@.len(),
        old(values)@.no_duplicates(),
        vecs_view(old(out)@).no_duplicates(),
        forall|j: int|
            0 <= j < old(out)@.len() ==> !same_prefix(old(values)@, start as int, #[trigger] vecs_view(old(out)@)[j]),
    ensures
        final(values)@ == old(values)@,
        old(out)@.len() <= final(out)@.len(),
        vecs_view(final(out)@).subrange(0, old(out)@.len() as int) == vecs_view(old(out)@),
        forall|j: int|
            old(out)@.len() <= j < final(out)@.len() ==> rearranges(
                old(values)@,
                start as int,
                #[trigger] vecs_view(final(out)@)[j],
            ),
        forall|x: Seq<usize>| rearranges(old(values)@, start as int, x) ==> #[trigger] vecs_view(final(out)@).contains(x),
        vecs_view(final(out)@).no_duplicates(),
        vecs_view(final(out)@) == vecs_view(old(out)@) + swap_perms(old(values)@, start as int),
    decreases old(values)@.len() - start as int,
{
    let ghost v0 = values@;
    let ghost out0 = vecs_view(out@);
    let ghost len0 = out@.len();
    let n = values.len();
    if start == n {
        let x = values.clone();
        out.push(x);
        proof {
            assert(vecs_view(out@) =~= out0.push(v0));
            assert forall|y: Seq<usize>| rearranges(v0, start as int, y) implies #[trigger] vecs_view(out@).contains(y) by {
                assert(y =~= v0);
                assert(vecs_view(out@)[len0 as int] == y);
            }
            assert forall|a: int, b: int|
                0 <= a < vecs_view(out@).len() && 0 <= b < vecs_view(out@).len() && a != b implies vecs_view(
                out@,
            )[a] != vecs_view(out@)[b] by {
                if a == len0 {
                    if out0[b] == v0 {
                        assert(same_prefix(v0, start as int, out0[b]));
                    }
                } else if b == len0 {
                    if out0[a] == v0 {
                        assert(same_prefix(v0, start as int, out0[a]));
                    }
                }
            }
            assert(vecs_view(out@).subrange(0, len0 as int) =~= out0);
            assert forall|i: int, j: int| start <= i < j < v0.len() implies #[trigger] v0[i] != #[trigger] v0[j] by {}
            assert(vecs_view(out@) =~= out0 + swap_perms(v0, start as int));
        }
        return;
    }
    let mut index = start;
    while index < n
        invariant
            start < n,
            n == v0.len(),
            start <= index <= n,
            values@ == v0,
            old(values)@ == v0,
            v0.no_duplicates(),
            len0 <= out@.len(),
            vecs_view(out@).subrange(0, len0 as int) == out0,
            forall|j: int| 0 <= j < len0 ==> !same_prefix(v0, start as int, #[trigger] vecs_view(out@)[j]),
            forall|j: int|
                len0 <= j < out@.len() ==> rearranges(v0, start as int, #[trigger] vecs_view(out@)[j]) && exists|
                    m: int,
                | start <= m < index && v0[m] == vecs_view(out@)[j][start as int],
            forall|x: Seq<usize>|
                rearranges(v0, start as int, x) && (exists|m: int| start <= m < index && v0[m] == x[start as int])
                    ==> #[trigger] vecs_view(out@).contains(x),
            vecs_view(out@).no_duplicates(),
            vecs_view(out@) == out0 + swap_list(v0, start as int, index as int),
        decreases n - index,
    {
        let ghost out1 = vecs_view(out@);
        let ghost len1 = out@.len();
        swap_entries(values, start, index);
        let ghost v1 = values@;
        proof {
            assert(v1.no_duplicates()) by {
                assert forall|a: int, b: int| 0 <= a < v1.len() && 0 <= b < v1.len() && a != b implies v1[a] != v1[b] by {
                    let a0 = if a == start { index as int } else if a == index { start as int } else { a };
                    let b0 = if b == start { index as int } else if b == index { start as int } else { b };
                    assert(v1[a] == v0[a0] && v1[b] == v0[b0]);
                }
            }
            assert forall|j: int| 0 <= j < out@.len() implies !same_prefix(
                v1,
                start + 1,
                #[trigger] vecs_view(out@)[j],
            ) by {
                let x = vecs_view(out@)[j];
                if same_prefix(v1, start + 1, x) {
                    if j < len0 {
                        assert(x == out0[j]);
                        assert forall|i: int| 0 <= i < start implies #[trigger] x[i] == v0[i] by {
                            assert(x[i] == v1[i]);
                        }
                        assert(same_prefix(v0, start as int, x));
                    } else {
                        let m = choose|m: int| start <= m < index && v0[m] == x[start as int];
                        assert(x[start as int] == v1[start as int]);
                        assert(v1[start as int] == v0[index as int]);
                    }
                }
            }
        }
        assert(values@.len() == n);
        backtrack(start + 1, values, out);
        let ghost out2 = vecs_view(out@);
        swap_entries(values, start, index);
        proof {
            assert(values@ =~= v0);
            assert(v1 == swapped(v0, start as int, index as int));
            assert(out2 =~= out0 + swap_list(v0, start as int, index + 1));
            assert(out2.subrange(0, len0 as int) =~= out0) by {
                assert forall|j: int| 0 <= j < len0 implies out2[j] == out0[j] by {
                    assert(out2.subrange(0, len1 as int)[j] == out1[j]);
                    assert(out1.subrange(0, len0 as int)[j] == out0[j]);
                }
            }
            assert forall|j: int| 0 <= j < len0 implies !same_prefix(v0, start as int, #[trigger] out2[j]) by {
                assert(out2[j] == out0[j]);
                assert(out1[j] == out0[j]);
            }
            // membership of a value of the tail of v1 in the tail of v0
            assert forall|y: usize| in_tail(v1, start + 1, y) implies in_tail(v0, start as int, y) && y != v0[index as int] by {
                let m = choose|m: int| start + 1 <= m < v1.len() && v1[m] == y;
                let m0 = if m == index { start as int } else { m };
                assert(v1[m] == v0[m0]);
                assert(v1[start as int] == v0[index as int]);
            }
            assert forall|j: int| len0 <= j < out2.len() implies rearranges(v0, start as int, #[trigger] out2[j])
                && exists|m: int| start <= m < index + 1 && v0[m] == out2[j][start as int] by {
                if j < len1 {
                    assert(out2.subrange(0, len1 as int)[j] == out1[j]);
                    assert(out2[j] == out1[j]);
                    let m = choose|m: int| start <= m < index && v0[m] == out1[j][start as int];
                    assert(start <= m < index + 1 && v0[m] == out2[j][start as int]);
                } else {
                    let x = out2[j];
                    assert(rearranges(v1, start + 1, x));
                    assert(x[start as int] == v1[start as int]);
                    assert(v1[start as int] == v0[index as int]);
                    assert forall|i: int| 0 <= i < start implies #[trigger] x[i] == v0[i] by {
                        assert(x[i] == v1[i]);
                    }
                    assert forall|i: int| start <= i < x.len() implies in_tail(v0, start as int, #[trigger] x[i]) by {
                        if i > start {
                            assert(in_tail(v1, start + 1, x[i]));
                        } else {
                            assert(v0[index as int] == x[i]);
                        }
                    }
                    assert forall|a: int, b: int| start <= a < b < x.len() implies #[trigger] x[a] != #[trigger] x[b] by {
                        if a == start {
                            assert(in_tail(v1, start + 1, x[b]));
                        }
                    }
                }
            }
            assert forall|x: Seq<usize>|
                rearranges(v0, start as int, x) && (exists|m: int| start <= m < index + 1 && v0[m] == x[start as int])
                    implies #[trigger] out2.contains(x) by {
                if exists|m: int| start <= m < index && v0[m] == x[start as int] {
                    assert(out1.contains(x));
                    let j = choose|j: int| 0 <= j < out1.len() && out1[j] == x;
                    assert(out2.subrange(0, len1 as int)[j] == out1[j]);
                    assert(out2[j] == x);
                } else {
                    let m = choose|m: int| start <= m < index + 1 && v0[m] == x[start as int];
                    assert(m == index);
                    assert(v1[start as int] == x[start as int]);
                    assert forall|i: int| start + 1 <= i < x.len() implies in_tail(v1, start + 1, #[trigger] x[i]) by {
                        assert(in_tail(v0, start as int, x[i]));
                        let mm = choose|mm: int| start <= mm < v0.len() && v0[mm] == x[i];
                        assert(x[i] != x[start as int]);
                        assert(mm != index);
                        if mm == start {
                            assert(v1[index as int] == v0[start as int]);
                            assert(start + 1 <= index);
                        } else {
                            assert(v1[mm] == v0[mm]);
                        }
                    }
                    assert forall|i: int| 0 <= i < start + 1 implies #[trigger] x[i] == v1[i] by {
                        if i < start {
                            assert(x[i] == v0[i]);
                            assert(v1[i] == v0[i]);
                        }
                    }
                    assert(rearranges(v1, start + 1, x));
                }
            }
        }
        index = index + 1;
    }
    proof {
        assert forall|x: Seq<usize>| rearranges(v0, start as int, x) implies #[trigger] vecs_view(out@).contains(x) by {
            assert(in_tail(v0, start as int, x[start as int]));
        }
        assert(swap_perms(v0, start as int) == swap_list(v0, start as int, n as int));
    }
}

/// All permutations of `0, ..., n-1`, each once, in the order of the search that places each
/// remaining value in turn at the next position (for `n == 3`: `012, 021, 102, 120, 210, 201`).
pub fn permutations(n: usize) -> (r: Vec<Vec<usize>>)
    ensures
        vecs_view(r@) == swap_perms(Seq::new(n as nat, |i: int| i as usize), 0),
        vecs_view(r@).no_duplicates(),
        forall|j: int| 0 <= j < r@.len() ==> is_perm(ints(#[trigger] vecs_view(r@)[j]), n as nat),
        forall|x: Seq<usize>| is_perm(ints(x), n as nat) ==> #[trigger] vecs_view(r@).contains(x),
{
    let mut values: Vec<usize> = Vec::new();
    while values.len() < n
        invariant
            values@.len() <= n,
            forall|i: int| 0 <= i < values@.len() ==> #[trigger] values@[i] == i,
        decreases n - values.len(),
    {
        values.push(values.len());
    }
    let ghost v0 = values@;
    let mut out: Vec<Vec<usize>> = Vec::new();
    proof {
        assert(vecs_view(out@) =~= Seq::<Seq<usize>>::empty());
    }
    backtrack(0, &mut values, &mut out);
    proof {
        assert(v0 =~= Seq::new(n as nat, |i: int| i as usize));
        assert(vecs_view(out@) =~= swap_perms(v0, 0));
        assert forall|j: int| 0 <= j < out@.len() implies is_perm(ints(#[trigger] vecs_view(out@)[j]), n as nat) by {
            let x = vecs_view(out@)[j];
            assert(rearranges(v0, 0, x));
            assert forall|i: int| 0 <= i < n implies 0 <= #[trigger] ints(x)[i] < n by {
                assert(in_tail(v0, 0, x[i]));
            }
            assert forall|a: int, b: int| 0 <= a < b < n implies #[trigger] ints(x)[a] != #[trigger] ints(x)[b] by {
                assert(x[a] != x[b]);
            }
        }
        assert forall|x: Seq<usize>| is_perm(ints(x), n as nat) implies #[trigger] vecs_view(out@).contains(x) by {
            assert forall|i: int| 0 <= i < x.len() implies in_tail(v0, 0, #[trigger] x[i]) by {
                assert(ints(x)[i] == x[i] as int);
                assert(v0[x[i] as int] == x[i]);
            }
            assert forall|a: int, b: int| 0 <= a < b < x.len() implies #[trigger] x[a] != #[trigger] x[b] by {
                assert(ints(x)[a] != ints(x)[b]);
            }
            assert(rearranges(v0, 0, x));
        }
    }
    out
}

/// The number of `j` with `i < j < upto` and `p[i] > p[j]`.
pub open spec fn row_inversions(p: Seq<int>, i: int, upto: int) -> nat
    decreases upto - i,
{
    if upto <= i + 1 {
        0
    } else {
        row_inversions(p, i, upto - 1) + if p[i] > p[upto - 1] {
            1nat
        } else {
            0nat
        }
    }
}

/// The number of inversions `(i, j)`, `i < j`, `p[i] > p[j]`, with `i < upto`.
pub open spec fn inversions_before(p: Seq<int>, upto: int) -> nat
    decreases upto,
{
    if upto <= 0 {
        0
    } else {
        inversions_before(p, upto - 1) + row_inversions(p, upto - 1, p.len() as int)
    }
}

/// The sign `(-1)^(number of inversions)` of a sequence.
pub open spec fn perm_sign(p: Seq<int>) -> int {
    if inversions_before(p, p.len() as int) % 2 == 0 {
        1
    } else {
        -1
    }
}

/// The special-class indices `mu[i] + p[i] - i` of the Giambelli determinant term of `p`.
pub open spec fn giambelli_indices(mu: Seq<u16>, p: Seq<int>) -> Seq<int> {
    Seq::new(p.len(), |i: int| mu[i] as int + p[i] - i)
}

/// All indices lie in `0..=w`.
pub open spec fn indices_in_range(rs: Seq<int>, w: nat) -> bool {
    forall|i: int| 0 <= i < rs.len() ==> 0 <= #[trigger] rs[i] <= w
}

/// `f` multiplied in turn by `sigma_rs[0]`, `sigma_rs[1]`, ....
pub open spec fn chain_fn(f: spec_fn(Seq<u16>) -> int, k: nat, w: nat, rs: Seq<int>) -> spec_fn(Seq<u16>) -> int
    decreases rs.len(),
{
    if rs.len() == 0 {
        f
    } else {
        special_fn(chain_fn(f, k, w, rs.drop_last()), k, w, rs.last())
    }
}

/// The term of the Giambelli determinant `det(sigma_(mu[i] + j - i))` for the permutation `p`,
/// applied to `f`: terms with an index outside `0..=w` vanish.
pub open spec fn giambelli_term(
    f: spec_fn(Seq<u16>) -> int,
    k: nat,
    w: nat,
    mu: Seq<u16>,
    p: Seq<int>,
) -> spec_fn(Seq<u16>) -> int {
    if is_perm(p, k) && indices_in_range(giambelli_indices(mu, p), w) {
        scaled_fn(chain_fn(f, k, w, giambelli_indices(mu, p)), perm_sign(p))
    } else {
        zero_fn()
    }
}

/// Multiplication of `f` by `sigma_mu` through Giambelli's formula
/// `sigma_mu = det(sigma_(mu[i] + j - i))`: the sum of the determinant's terms over all
/// permutations of `0, ..., k-1`.
pub open spec fn giambelli_fn(f: spec_fn(Seq<u16>) -> int, k: nat, w: nat, mu: Seq<u16>) -> spec_fn(Seq<u16>) -> int {
    |nu: Seq<u16>|
        box_sum(
            Seq::new(k, |i: int| 0int),
            Seq::new(k, |i: int| k - 1),
            |v: int| v,
            |p: Seq<int>| giambelli_term(f, k, w, mu, p)(nu),
        )
}

/// A permutation with `p[i] >= i` everywhere is the identity.
pub proof fn lemma_perm_above_diagonal(p: Seq<int>, k: nat, m: int)
    requires
        is_perm(p, k),
        forall|i: int| 0 <= i < k ==> #[trigger] p[i] >= i,
        0 <= m <= k,
    ensures
        forall|i: int| m <= i < k ==> #[trigger] p[i] == i,
    decreases k - m,
{
    if m < k {
        lemma_perm_above_diagonal(p, k, m + 1);
        if p[m] != m {
            let j = p[m];
            assert(m < j < k);
            assert(p[j] == j);
            assert(p[m] != p[j]);
        }
    }
}

/// With `mu == 0`, every surviving Giambelli term has all indices zero.
pub proof fn lemma_zero_mu_indices(mu: Seq<u16>, p: Seq<int>, k: nat, w: nat)
    requires
        mu.len() == k,
        all_zero(mu),
        is_perm(p, k),
        indices_in_range(giambelli_indices(mu, p), w),
    ensures
        forall|i: int| 0 <= i < k ==> #[trigger] giambelli_indices(mu, p)[i] == 0,
{
    assert forall|i: int| 0 <= i < k implies #[trigger] p[i] >= i by {
        assert(0 <= giambelli_indices(mu, p)[i]);
        assert(mu[i] == 0);
    }
    lemma_perm_above_diagonal(p, k, 0);
    assert forall|i: int| 0 <= i < k implies #[trigger] giambelli_indices(mu, p)[i] == 0 by {
        assert(p[i] == i);
        assert(mu[i] == 0);
    }
}

/// The sign of a permutation: `1` for an even number of inversions, `-1` for an odd one.
pub fn permutation_sign(permutation: &[usize]) -> (r: i8)
    ensures
        r == perm_sign(ints(permutation@)),
{
    let ghost p = ints(permutation@);
    let n = permutation.len();
    let mut odd = false;
    let mut i: usize = 0;
    while i < n
        invariant
            n == permutation@.len(),
            p == ints(permutation@),
            i <= n,
            odd == (inversions_before(p, i as int) % 2 == 1),
        decreases n - i,
    {
        let mut j: usize = i + 1;
        while j < n
            invariant
                n == permutation@.len(),
                p == ints(permutation@),
                i < n,
                i + 1 <= j <= n,
                odd == ((inversions_before(p, i as int) + row_inversions(p, i as int, j as int)) % 2 == 1),
            decreases n - j,
        {
            if permutation[i] > permutation[j] {
                odd = !odd;
            }
            j = j + 1;
        }
        i = i + 1;
    }
    if odd {
        -1
    } else {
        1
    }
}

/// `lambda` (a sequence of integers in `0..k`) read as a sequence of indices.
pub open spec fn as_indices(x: Seq<int>) -> Seq<usize> {
    x.map_values(|v: int| v as usize)
}

/// Multiply `expr` by `sigma_mu` with Giambelli's formula, each special factor by Pieri's rule.
pub(crate) fn multiply_expr_by_class(expr: &SchubertExpr, mu: &Partition) -> (res: Result<SchubertExpr, SchubertError>)
    requires
        valid_for(mu@, expr.grass()),
    ensures
        res is Err <==> !keys_valid(expr@, expr.grass()) && !all_zero(mu@),
        res matches Err(e) ==> first_invalid_error(expr@, expr.grass(), e),
        res matches Ok(out) ==> {
            &&& out.grass() == expr.grass()
            &&& out.coeff_fn() == giambelli_fn(
                expr.coeff_fn(),
                expr.grass().k_spec(),
                expr.grass().w_spec(),
                mu@,
            )
            &&& keys_valid(expr@, expr.grass()) ==> keys_valid(out@, expr.grass())
        },
{
    let g = expr.grassmannian();
    let k = g.k();
    let w = g.width();
    let ghost kk = k as nat;
    let ghost ww = w as nat;
    let ghost f = expr.coeff_fn();
    let ghost muv = mu@;
    let mut out = SchubertExpr::zero(g);
    let perms = permutations(k);
    let ghost lv = vecs_view(perms@).map_values(|x: Seq<usize>| ints(x));
    let mut idx: usize = 0;
    while idx < perms.len()
        invariant
            idx <= perms@.len(),
            k == g.k_spec(),
            w == g.w_spec(),
            kk == k,
            ww == w,
            *g == expr.grass(),
            g.valid(),
            f == expr.coeff_fn(),
            muv == mu@,
            valid_for(muv, *g),
            lv == vecs_view(perms@).map_values(|x: Seq<usize>| ints(x)),
            forall|j: int| 0 <= j < perms@.len() ==> is_perm(ints(#[trigger] vecs_view(perms@)[j]), k as nat),
            out.grass() == *g,
            forall|nu: Seq<u16>|
                #[trigger] out.coeff(nu) == list_sum(
                    lv.subrange(0, idx as int),
                    |p: Seq<int>| giambelli_term(f, kk, ww, muv, p)(nu),
                ),
            keys_valid(expr@, *g) ==> keys_valid(out@, *g),
            !keys_valid(expr@, *g) ==> forall|q: int|
                0 <= q < idx && is_perm(#[trigger] lv[q], kk) && indices_in_range(giambelli_indices(muv, lv[q]), ww)
                    ==> forall|i: int| 0 <= i < kk ==> #[trigger] giambelli_indices(muv, lv[q])[i] == 0,
        decreases perms.len() - idx,
    {
        let perm = &perms[idx];
        let ghost pv = lv[idx as int];
        proof {
            assert(pv == ints(perm@));
            assert(is_perm(pv, kk));
        }
        let mut specials: Vec<isize> = Vec::new();
        let mut is_zero_term = false;
        let mut i: usize = 0;
        while i < k
            invariant_except_break
                !is_zero_term,
            invariant
                i <= k,
                k == kk,
                w == ww,
                ww <= u16::MAX,
                muv == mu@,
                muv.len() == kk,
                pv == ints(perm@),
                perm@.len() == kk,
                specials@.len() == i,
                forall|t: int| 0 <= t < i ==> #[trigger] specials@[t] as int == giambelli_indices(muv, pv)[t],
                forall|t: int| 0 <= t < i ==> 0 <= #[trigger] giambelli_indices(muv, pv)[t] <= ww,
            ensures
                is_zero_term ==> !indices_in_range(giambelli_indices(muv, pv), ww),
                !is_zero_term ==> i == k && specials@.len() == kk && indices_in_range(giambelli_indices(muv, pv), ww)
                    && forall|t: int| 0 <= t < kk ==> #[trigger] specials@[t] as int == giambelli_indices(muv, pv)[t],
            decreases k - i,
        {
            let index: i128 = mu.parts()[i] as i128 + perm[i] as i128 - i as i128;
            proof {
                assert(index == giambelli_indices(muv, pv)[i as int]);
            }
            if index < 0 || index > w as i128 {
                is_zero_term = true;
                break;
            }
            specials.push(index as isize);
            i = i + 1;
        }
        if is_zero_term {
            proof {
                assert forall|nu: Seq<u16>| #[trigger] out.coeff(nu) == list_sum(
                    lv.subrange(0, idx + 1),
                    |p: Seq<int>| giambelli_term(f, kk, ww, muv, p)(nu),
                ) by {
                    assert(lv.subrange(0, idx + 1).drop_last() =~= lv.subrange(0, idx as int));
                    assert(lv.subrange(0, idx + 1).last() == pv);
                    assert(giambelli_term(f, kk, ww, muv, pv) == zero_fn());
                }
            }
            idx = idx + 1;
            continue;
        }
        let ghost sv = specials@.map_values(|x: isize| x as int);
        proof {
            assert(sv =~= giambelli_indices(muv, pv));
        }
        let mut term = expr.duplicate();
        let mut s: usize = 0;
        while s < specials.len()
            invariant
                s <= specials@.len(),
                sv == specials@.map_values(|x: isize| x as int),
                term.grass() == *g,
                *g == expr.grass(),
                kk == g.k_spec(),
                ww == g.w_spec(),
                f == expr.coeff_fn(),
                term.coeff_fn() == chain_fn(f, kk, ww, sv.subrange(0, s as int)),
                (forall|t: int| 0 <= t < s ==> #[trigger] sv[t] == 0) ==> term@ == expr@,
                !keys_valid(expr@, *g) ==> (forall|t: int| 0 <= t < s ==> #[trigger] sv[t] == 0),
                keys_valid(expr@, *g) ==> keys_valid(term@, *g),
                indices_in_range(sv, ww),
                muv == mu@,
                valid_for(muv, *g),
                sv == giambelli_indices(muv, pv),
                is_perm(pv, kk),
            decreases specials.len() - s,
        {
            let ghost prev = term;
            term = match term.multiply_by_special(specials[s]) {
                Ok(t) => t,
                Err(e) => {
                    proof {
                        assert(sv[s as int] == specials@[s as int] as int);
                        assert(!keys_valid(prev@, *g));
                        assert(!keys_valid(expr@, *g));
                        assert(prev@ == expr@);
                        assert(sv[s as int] != 0);
                        if all_zero(muv) {
                            lemma_zero_mu_indices(muv, pv, kk, ww);
                            assert(giambelli_indices(muv, pv)[s as int] == 0);
                        }
                    }
                    return Err(e);
                },
            };
            proof {
                assert(sv[s as int] == specials@[s as int] as int);
                assert(sv.subrange(0, s + 1).drop_last() =~= sv.subrange(0, s as int));
                assert(sv.subrange(0, s + 1).last() == sv[s as int]);
                assert(0 <= sv[s as int] <= ww);
                if forall|t: int| 0 <= t < s + 1 ==> #[trigger] sv[t] == 0 {
                    assert(sv[s as int] == 0);
                    assert forall|t: int| 0 <= t < s implies #[trigger] sv[t] == 0 by {}
                }
                if !keys_valid(expr@, *g) {
                    assert(prev@ == expr@);
                    assert(sv[s as int] == 0);
                    assert forall|t: int| 0 <= t < s + 1 implies #[trigger] sv[t] == 0 by {}
                }
            }
            s = s + 1;
        }
        proof {
            assert(sv.subrange(0, s as int) =~= sv);
        }
        let sign = permutation_sign(perm.as_slice());
        let scalar = if sign < 0 {
            Integer::minus_one()
        } else {
            Integer::one()
        };
        proof {
            assert(scalar@ == perm_sign(pv));
        }
        let signed = term.scalar_mul(&scalar);
        let ghost before = out;
        out = match out.checked_add(&signed) {
            Ok(x) => x,
            Err(e) => {
                return Err(e);
            },
        };
        proof {
            assert(giambelli_term(f, kk, ww, muv, pv) == scaled_fn(chain_fn(f, kk, ww, sv), perm_sign(pv)));
            assert forall|nu: Seq<u16>| #[trigger] out.coeff(nu) == list_sum(
                lv.subrange(0, idx + 1),
                |p: Seq<int>| giambelli_term(f, kk, ww, muv, p)(nu),
            ) by {
                assert(lv.subrange(0, idx + 1).drop_last() =~= lv.subrange(0, idx as int));
                assert(lv.subrange(0, idx + 1).last() == pv);
                assert(signed.coeff(nu) == scalar@ * term.coeff(nu));
                assert(term.coeff(nu) == term.coeff_fn()(nu));
                assert(before.coeff(nu) == list_sum(
                    lv.subrange(0, idx as int),
                    |p: Seq<int>| giambelli_term(f, kk, ww, muv, p)(nu),
                ));
            }
            if !keys_valid(expr@, *g) {
                assert forall|q: int|
                    0 <= q < idx + 1 && is_perm(#[trigger] lv[q], kk) && indices_in_range(giambelli_indices(muv, lv[q]), ww)
                        implies forall|i: int| 0 <= i < kk ==> #[trigger] giambelli_indices(muv, lv[q])[i] == 0 by {
                    if q == idx {
                        assert(lv[q] == pv);
                        assert forall|i: int| 0 <= i < kk implies #[trigger] giambelli_indices(muv, lv[q])[i] == 0 by {
                            assert(sv[i] == 0);
                        }
                    }
                }
            }
        }
        idx = idx + 1;
    }
    proof {
        assert(lv.subrange(0, idx as int) =~= lv);
        lemma_perm_list(perms@, lv, kk);
        assert forall|nu: Seq<u16>| #[trigger] out.coeff_fn()(nu) == giambelli_fn(f, kk, ww, muv)(nu) by {
            lemma_giambelli_list_sum(lv, f, kk, ww, muv, nu);
            assert(out.coeff_fn()(nu) == out.coeff(nu));
        }
        assert(out.coeff_fn() =~= giambelli_fn(f, kk, ww, muv));
        if !keys_valid(expr@, *g) && !all_zero(muv) {
            let id = Seq::new(kk, |i: int| i);
            assert(is_perm(id, kk));
            assert(lv.contains(id));
            let q = choose|q: int| 0 <= q < lv.len() && lv[q] == id;
            assert(indices_in_range(giambelli_indices(muv, id), ww)) by {
                assert forall|i: int| 0 <= i < kk implies 0 <= #[trigger] giambelli_indices(muv, id)[i] <= ww by {
                    assert(giambelli_indices(muv, id)[i] == muv[i]);
                }
            }
            let i = choose|i: int| 0 <= i < muv.len() && muv[i] != 0;
            assert(giambelli_indices(muv, lv[q])[i] == muv[i]);
        }
    }
    Ok(out)
}

/// The list of all permutations as integer sequences: duplicate-free, made of permutations,
/// holding every permutation.
proof fn lemma_perm_list(perms: Seq<Vec<usize>>, lv: Seq<Seq<int>>, k: nat)
    requires
        lv == vecs_view(perms).map_values(|x: Seq<usize>| ints(x)),
        vecs_view(perms).no_duplicates(),
        forall|j: int| 0 <= j < perms.len() ==> is_perm(ints(#[trigger] vecs_view(perms)[j]), k),
        forall|x: Seq<usize>| is_perm(ints(x), k) ==> #[trigger] vecs_view(perms).contains(x),
        k <= usize::MAX,
    ensures
        lv.no_duplicates(),
        forall|j: int| 0 <= j < lv.len() ==> is_perm(#[trigger] lv[j], k),
        forall|x: Seq<int>| is_perm(x, k) ==> #[trigger] lv.contains(x),
{
    let vv = vecs_view(perms);
    assert forall|a: int, b: int| 0 <= a < lv.len() && 0 <= b < lv.len() && a != b implies lv[a] != lv[b] by {
        if lv[a] == lv[b] {
            assert(vv[a] =~= vv[b]) by {
                assert forall|i: int| 0 <= i < vv[a].len() implies vv[a][i] == vv[b][i] by {
                    assert(ints(vv[a])[i] == ints(vv[b])[i]);
                }
            }
        }
    }
    assert forall|j: int| 0 <= j < lv.len() implies is_perm(#[trigger] lv[j], k) by {
        assert(lv[j] == ints(vv[j]));
    }
    assert forall|x: Seq<int>| is_perm(x, k) implies #[trigger] lv.contains(x) by {
        let xu = as_indices(x);
        assert forall|i: int| 0 <= i < x.len() implies #[trigger] ints(xu)[i] == x[i] by {
            assert(0 <= x[i] < k);
        }
        assert(ints(xu) =~= x);
        assert(vv.contains(xu));
        let j = choose|j: int| 0 <= j < vv.len() && vv[j] == xu;
        assert(lv[j] == ints(vv[j]));
    }
}

/// Summing the Giambelli terms over a complete duplicate-free list of permutations
/// gives `giambelli_fn`.
proof fn lemma_giambelli_list_sum(
    lv: Seq<Seq<int>>,
    f: spec_fn(Seq<u16>) -> int,
    k: nat,
    w: nat,
    mu: Seq<u16>,
    nu: Seq<u16>,
)
    requires
        lv.no_duplicates(),
        forall|j: int| 0 <= j < lv.len() ==> is_perm(#[trigger] lv[j], k),
        forall|x: Seq<int>| is_perm(x, k) ==> #[trigger] lv.contains(x),
    ensures
        list_sum(lv, |p: Seq<int>| giambelli_term(f, k, w, mu, p)(nu)) == giambelli_fn(f, k, w, mu)(nu),
{
    let lo = Seq::new(k, |i: int| 0int);
    let hi = Seq::new(k, |i: int| k - 1);
    let id = |v: int| v;
    let h = |p: Seq<int>| giambelli_term(f, k, w, mu, p)(nu);
    assert(embeds(lo, hi, id, id));
    assert forall|j: int| 0 <= j < lv.len() implies in_box(lo, hi, id, #[trigger] lv[j]) by {
        assert(is_perm(lv[j], k));
    }
    lemma_box_sum_list(lo, hi, id, id, lv, h);
    assert forall|x: Seq<int>| #[trigger] h(x) == (if lv.contains(x) { h(x) } else { 0 }) by {
        if !lv.contains(x) {
            assert(!is_perm(x, k));
        }
    }
    lemma_box_sum_ext(lo, hi, id, |x: Seq<int>| if lv.contains(x) { h(x) } else { 0 }, h);
}

/// The number of `j` with `from <= j < upto` and `v > s[j]`.
spec fn below_count(v: int, s: Seq<int>, from: int, upto: int) -> nat
    decreases upto - from,
{
    if upto <= from {
        0
    } else {
        below_count(v, s, from, upto - 1) + if v > s[upto - 1] {
            1nat
        } else {
            0nat
        }
    }
}

proof fn lemma_row_is_below(p: Seq<int>, i: int, upto: int)
    ensures
        row_inversions(p, i, upto) == below_count(p[i], p, i + 1, upto),
    decreases upto - i,
{
    if upto > i + 1 {
        lemma_row_is_below(p, i, upto - 1);
    }
}

/// Counts agree on a range where the two sequences agree.
proof fn lemma_below_same(v: int, s: Seq<int>, t: Seq<int>, from: int, upto: int)
    requires
        forall|j: int| from <= j < upto ==> s[j] == t[j],
    ensures
        below_count(v, s, from, upto) == below_count(v, t, from, upto),
    decreases upto - from,
{
    if upto > from {
        lemma_below_same(v, s, t, from, upto - 1);
    }
}

/// Splitting a count at `m`.
proof fn lemma_below_split(v: int, s: Seq<int>, from: int, m: int, upto: int)
    requires
        from <= m <= upto,
    ensures
        below_count(v, s, from, upto) == below_count(v, s, from, m) + below_count(v, s, m, upto),
    decreases upto - m,
{
    if upto > m {
        lemma_below_split(v, s, from, m, upto - 1);
    }
}

/// Exchanging the entries at `a` and `a + 1` does not change a count that covers both or
/// neither of them.
proof fn lemma_below_swap(v: int, p: Seq<int>, a: int, from: int, upto: int)
    requires
        0 <= a,
        a + 1 < p.len(),
        0 <= from <= a,
        a + 2 <= upto <= p.len(),
    ensures
        below_count(v, p.update(a, p[a + 1]).update(a + 1, p[a]), from, upto) == below_count(v, p, from, upto),
{
    let q = p.update(a, p[a + 1]).update(a + 1, p[a]);
    assert forall|j: int| 0 <= j < p.len() && j != a && j != a + 1 implies q[j] == p[j] by {}
    lemma_below_split(v, p, from, a, upto);
    lemma_below_split(v, q, from, a, upto);
    lemma_below_split(v, p, a, a + 2, upto);
    lemma_below_split(v, q, a, a + 2, upto);
    lemma_below_same(v, p, q, from, a);
    lemma_below_same(v, p, q, a + 2, upto);
    assert(below_count(v, p, a, a + 1) == below_count(v, p, a, a) + if v > p[a] { 1nat } else { 0nat });
    assert(below_count(v, q, a, a + 1) == below_count(v, q, a, a) + if v > q[a] { 1nat } else { 0nat });
}

proof fn lemma_inversions_rows(p: Seq<int>, q: Seq<int>, a: int, upto: int)
    requires
        0 <= a,
        a + 1 < p.len(),
        q == p.update(a, p[a + 1]).update(a + 1, p[a]),
        upto <= a,
    ensures
        inversions_before(q, upto) == inversions_before(p, upto),
    decreases upto,
{
    if upto > 0 {
        lemma_inversions_rows(p, q, a, upto - 1);
        let i = upto - 1;
        lemma_row_is_below(p, i, p.len() as int);
        lemma_row_is_below(q, i, q.len() as int);
        assert(q[i] == p[i]);
        lemma_below_swap(p[i], p, a, i + 1, p.len() as int);
    }
}

proof fn lemma_inversions_tail(p: Seq<int>, q: Seq<int>, a: int, upto: int)
    requires
        0 <= a,
        a + 1 < p.len(),
        q == p.update(a, p[a + 1]).update(a + 1, p[a]),
        a + 2 <= upto <= p.len(),
    ensures
        inversions_before(q, upto) - inversions_before(q, a + 2) == inversions_before(p, upto) - inversions_before(
            p,
            a + 2,
        ),
    decreases upto,
{
    if upto > a + 2 {
        lemma_inversions_tail(p, q, a, upto - 1);
        let i = upto - 1;
        lemma_row_is_below(p, i, p.len() as int);
        lemma_row_is_below(q, i, q.len() as int);
        assert forall|j: int| i + 1 <= j < p.len() implies p[j] == q[j] by {}
        assert(q[i] == p[i]);
        lemma_below_same(p[i], p, q, i + 1, p.len() as int);
    }
}

/// Exchanging two neighbouring distinct entries changes the number of inversions by one.
proof fn lemma_inversions_swap(p: Seq<int>, a: int)
    requires
        0 <= a,
        a + 1 < p.len(),
        p[a] != p[a + 1],
    ensures
        ({
            let q = p.update(a, p[a + 1]).update(a + 1, p[a]);
            inversions_before(q, p.len() as int) == inversions_before(p, p.len() as int) + 1
                || inversions_before(q, p.len() as int) + 1 == inversions_before(p, p.len() as int)
        }),
{
    let q = p.update(a, p[a + 1]).update(a + 1, p[a]);
    let n = p.len() as int;
    assert forall|j: int| 0 <= j < p.len() && j != a && j != a + 1 implies q[j] == p[j] by {}
    lemma_inversions_rows(p, q, a, a);
    lemma_inversions_tail(p, q, a, n);
    lemma_row_is_below(p, a, n);
    lemma_row_is_below(q, a, n);
    lemma_row_is_below(p, a + 1, n);
    lemma_row_is_below(q, a + 1, n);
    lemma_below_split(p[a], p, a + 1, a + 2, n);
    lemma_below_split(q[a], q, a + 1, a + 2, n);
    lemma_below_same(p[a + 1], p, q, a + 2, n);
    lemma_below_same(p[a], p, q, a + 2, n);
    assert(below_count(p[a], p, a + 1, a + 2) == below_count(p[a], p, a + 1, a + 1) + if p[a] > p[a + 1] {
        1nat
    } else {
        0nat
    });
    assert(below_count(q[a], q, a + 1, a + 2) == below_count(q[a], q, a + 1, a + 1) + if q[a] > q[a + 1] {
        1nat
    } else {
        0nat
    });
    assert(inversions_before(p, a + 1) == inversions_before(p, a) + row_inversions(p, a, n));
    assert(inversions_before(p, a + 2) == inversions_before(p, a + 1) + row_inversions(p, a + 1, n));
    assert(inversions_before(q, a + 1) == inversions_before(q, a) + row_inversions(q, a, n));
    assert(inversions_before(q, a + 2) == inversions_before(q, a + 1) + row_inversions(q, a + 1, n));
}

/// The sign of a permutation flips whenever two neighbouring entries are exchanged, and the
/// identity has sign one: the sign is `(-1)` to the number of transpositions of neighbours
/// that make the permutation.
pub proof fn law_sign_flips_on_neighbour_swap(p: Seq<int>, a: int)
    requires
        0 <= a,
        a + 1 < p.len(),
        p[a] != p[a + 1],
    ensures
        perm_sign(p.update(a, p[a + 1]).update(a + 1, p[a])) == -perm_sign(p),
        perm_sign(Seq::new(p.len(), |i: int| i)) == 1,
{
    lemma_inversions_swap(p, a);
    crate::laws::lemma_identity_sign(p.len());
}

} // verus!
