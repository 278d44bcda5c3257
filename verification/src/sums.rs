use vstd::prelude::*;

verus! {

/// `f(lo) + f(lo + 1) + ... + f(hi)` (zero when `hi < lo`).
pub open spec fn range_sum(lo: int, hi: int, f: spec_fn(int) -> int) -> int
    decreases hi + 1 - lo,
{
    if hi < lo {
        0
    } else {
        range_sum(lo, hi - 1, f) + f(hi)
    }
}

/// The sum of `f(x)` over all sequences `x` with `x.len() == lo.len()` and
/// `x[i] == emb(v_i)` for integers `lo[i] <= v_i <= hi[i]`.
pub open spec fn box_sum<T>(lo: Seq<int>, hi: Seq<int>, emb: spec_fn(int) -> T, f: spec_fn(Seq<T>) -> int) -> int
    decreases lo.len(), 1int, 0int,
{
    if lo.len() == 0 {
        f(Seq::empty())
    } else {
        box_sum_upto(lo, hi, emb, f, hi[0])
    }
}

/// The part of `box_sum(lo, hi, emb, f)` whose first coordinate is at most `v`.
pub open spec fn box_sum_upto<T>(
    lo: Seq<int>,
    hi: Seq<int>,
    emb: spec_fn(int) -> T,
    f: spec_fn(Seq<T>) -> int,
    v: int,
) -> int
    decreases lo.len(), 0int, v + 1 - lo[0],
{
    if lo.len() == 0 || v < lo[0] {
        0
    } else {
        box_sum_upto(lo, hi, emb, f, v - 1) + box_sum(
            lo.drop_first(),
            hi.drop_first(),
            emb,
            |rest: Seq<T>| f(seq![emb(v)] + rest),
        )
    }
}

/// `x` is one of the points that `box_sum(lo, hi, emb, f)` ranges over, read back by `unemb`.
pub open spec fn in_box<T>(lo: Seq<int>, hi: Seq<int>, unemb: spec_fn(T) -> int, x: Seq<T>) -> bool {
    &&& x.len() == lo.len()
    &&& forall|i: int| 0 <= i < x.len() ==> lo[i] <= #[trigger] unemb(x[i]) <= hi[i]
}

/// `emb` and `unemb` are inverse on the coordinate ranges of the box.
pub open spec fn embeds<T>(lo: Seq<int>, hi: Seq<int>, emb: spec_fn(int) -> T, unemb: spec_fn(T) -> int) -> bool {
    &&& lo.len() == hi.len()
    &&& forall|t: T| #[trigger] emb(unemb(t)) == t
    &&& forall|i: int, v: int|
        #![trigger lo[i], unemb(emb(v))]
        0 <= i < lo.len() && lo[i] <= v <= hi[i] ==> unemb(emb(v)) == v
}

pub proof fn lemma_range_sum_ext(lo: int, hi: int, f: spec_fn(int) -> int, g: spec_fn(int) -> int)
    requires
        forall|v: int| lo <= v <= hi ==> #[trigger] f(v) == g(v),
    ensures
        range_sum(lo, hi, f) == range_sum(lo, hi, g),
    decreases hi + 1 - lo,
{
    if hi >= lo {
        lemma_range_sum_ext(lo, hi - 1, f, g);
    }
}

proof fn lemma_box_sum_upto_zero<T>(
    lo: Seq<int>,
    hi: Seq<int>,
    emb: spec_fn(int) -> T,
    f: spec_fn(Seq<T>) -> int,
    v: int,
)
    requires
        lo.len() > 0,
        forall|x: Seq<T>| #[trigger] f(x) == 0,
    ensures
        box_sum_upto(lo, hi, emb, f, v) == 0,
    decreases lo.len(), 0int, v + 1 - lo[0],
{
    if v >= lo[0] {
        lemma_box_sum_upto_zero(lo, hi, emb, f, v - 1);
        let g = |rest: Seq<T>| f(seq![emb(v)] + rest);
        lemma_box_sum_zero(lo.drop_first(), hi.drop_first(), emb, g);
    }
}

/// A box sum of zeroes is zero.
pub proof fn lemma_box_sum_zero<T>(lo: Seq<int>, hi: Seq<int>, emb: spec_fn(int) -> T, f: spec_fn(Seq<T>) -> int)
    requires
        forall|x: Seq<T>| #[trigger] f(x) == 0,
    ensures
        box_sum(lo, hi, emb, f) == 0,
    decreases lo.len(), 1int, 0int,
{
    if lo.len() > 0 {
        lemma_box_sum_upto_zero(lo, hi, emb, f, hi[0]);
    }
}

proof fn lemma_box_sum_upto_add<T>(
    lo: Seq<int>,
    hi: Seq<int>,
    emb: spec_fn(int) -> T,
    f: spec_fn(Seq<T>) -> int,
    g: spec_fn(Seq<T>) -> int,
    h: spec_fn(Seq<T>) -> int,
    v: int,
)
    requires
        lo.len() > 0,
        forall|x: Seq<T>| #[trigger] f(x) == g(x) + h(x),
    ensures
        box_sum_upto(lo, hi, emb, f, v) == box_sum_upto(lo, hi, emb, g, v) + box_sum_upto(lo, hi, emb, h, v),
    decreases lo.len(), 0int, v + 1 - lo[0],
{
    if v >= lo[0] {
        lemma_box_sum_upto_add(lo, hi, emb, f, g, h, v - 1);
        let f1 = |rest: Seq<T>| f(seq![emb(v)] + rest);
        let g1 = |rest: Seq<T>| g(seq![emb(v)] + rest);
        let h1 = |rest: Seq<T>| h(seq![emb(v)] + rest);
        lemma_box_sum_add(lo.drop_first(), hi.drop_first(), emb, f1, g1, h1);
    }
}

/// Box sums add up pointwise.
pub proof fn lemma_box_sum_add<T>(
    lo: Seq<int>,
    hi: Seq<int>,
    emb: spec_fn(int) -> T,
    f: spec_fn(Seq<T>) -> int,
    g: spec_fn(Seq<T>) -> int,
    h: spec_fn(Seq<T>) -> int,
)
    requires
        forall|x: Seq<T>| #[trigger] f(x) == g(x) + h(x),
    ensures
        box_sum(lo, hi, emb, f) == box_sum(lo, hi, emb, g) + box_sum(lo, hi, emb, h),
    decreases lo.len(), 1int, 0int,
{
    if lo.len() > 0 {
        lemma_box_sum_upto_add(lo, hi, emb, f, g, h, hi[0]);
    }
}

/// Box sums of pointwise equal functions are equal.
pub proof fn lemma_box_sum_ext<T>(
    lo: Seq<int>,
    hi: Seq<int>,
    emb: spec_fn(int) -> T,
    f: spec_fn(Seq<T>) -> int,
    g: spec_fn(Seq<T>) -> int,
)
    requires
        forall|x: Seq<T>| #[trigger] f(x) == g(x),
    ensures
        box_sum(lo, hi, emb, f) == box_sum(lo, hi, emb, g),
{
    assert(f =~= g);
}

proof fn lemma_box_sum_upto_point<T>(
    lo: Seq<int>,
    hi: Seq<int>,
    emb: spec_fn(int) -> T,
    unemb: spec_fn(T) -> int,
    f: spec_fn(Seq<T>) -> int,
    q: Seq<T>,
    y: int,
    v: int,
)
    requires
        lo.len() > 0,
        v <= hi[0],
        embeds(lo, hi, emb, unemb),
        forall|x: Seq<T>| #[trigger] f(x) == if x == q { y } else { 0 },
    ensures
        box_sum_upto(lo, hi, emb, f, v) == if q.len() > 0 && lo[0] <= unemb(q[0]) <= v && in_box(
            lo.drop_first(),
            hi.drop_first(),
            unemb,
            q.drop_first(),
        ) {
            y
        } else {
            0
        },
    decreases lo.len(), 0int, v + 1 - lo[0],
{
    if v >= lo[0] {
        lemma_box_sum_upto_point(lo, hi, emb, unemb, f, q, y, v - 1);
        let g = |rest: Seq<T>| f(seq![emb(v)] + rest);
        assert(lo[0] <= v <= hi[0]);
        assert(unemb(emb(v)) == v);
        if q.len() > 0 && emb(v) == q[0] {
            assert forall|rest: Seq<T>| #[trigger] g(rest) == if rest == q.drop_first() { y } else { 0 } by {
                if rest == q.drop_first() {
                    assert(seq![emb(v)] + rest =~= q);
                } else {
                    if seq![emb(v)] + rest == q {
                        assert(rest =~= (seq![emb(v)] + rest).drop_first());
                    }
                }
            }
            assert(embeds(lo.drop_first(), hi.drop_first(), emb, unemb)) by {
                assert forall|i: int, w: int|
                    #![trigger lo.drop_first()[i], unemb(emb(w))]
                    0 <= i < lo.drop_first().len() && lo.drop_first()[i] <= w <= hi.drop_first()[i] implies unemb(
                    emb(w),
                ) == w by {
                    assert(lo.drop_first()[i] == lo[i + 1]);
                    assert(hi.drop_first()[i] == hi[i + 1]);
                }
            }
            lemma_box_sum_point(lo.drop_first(), hi.drop_first(), emb, unemb, g, q.drop_first(), y);
            assert(unemb(q[0]) == v);
        } else {
            assert forall|rest: Seq<T>| #[trigger] g(rest) == 0 by {
                if seq![emb(v)] + rest == q {
                    assert((seq![emb(v)] + rest)[0] == emb(v));
                }
            }
            lemma_box_sum_zero(lo.drop_first(), hi.drop_first(), emb, g);
            if q.len() > 0 {
                assert(emb(unemb(q[0])) == q[0]);
                assert(unemb(q[0]) != v);
            }
        }
    }
}

/// A box sum of a function that is zero off one point `q` is its value at `q`,
/// when `q` is a point of the box, and zero otherwise.
pub proof fn lemma_box_sum_point<T>(
    lo: Seq<int>,
    hi: Seq<int>,
    emb: spec_fn(int) -> T,
    unemb: spec_fn(T) -> int,
    f: spec_fn(Seq<T>) -> int,
    q: Seq<T>,
    y: int,
)
    requires
        embeds(lo, hi, emb, unemb),
        forall|x: Seq<T>| #[trigger] f(x) == if x == q { y } else { 0 },
    ensures
        box_sum(lo, hi, emb, f) == if in_box(lo, hi, unemb, q) { y } else { 0 },
    decreases lo.len(), 1int, 0int,
{
    if lo.len() == 0 {
        if q.len() == 0 {
            assert(q =~= Seq::<T>::empty());
        }
    } else {
        lemma_box_sum_upto_point(lo, hi, emb, unemb, f, q, y, hi[0]);
        if q.len() > 0 {
            if in_box(lo, hi, unemb, q) {
                assert forall|i: int| 0 <= i < q.drop_first().len() implies lo.drop_first()[i] <= #[trigger] unemb(
                    q.drop_first()[i],
                ) <= hi.drop_first()[i] by {
                    assert(q.drop_first()[i] == q[i + 1]);
                    assert(lo[i + 1] <= unemb(q[i + 1]) <= hi[i + 1]);
                }
            }
            if lo[0] <= unemb(q[0]) <= hi[0] && in_box(lo.drop_first(), hi.drop_first(), unemb, q.drop_first()) {
                assert forall|i: int| 0 <= i < q.len() implies lo[i] <= #[trigger] unemb(q[i]) <= hi[i] by {
                    if i > 0 {
                        assert(q[i] == q.drop_first()[i - 1]);
                        assert(unemb(q.drop_first()[i - 1]) == unemb(q[i]));
                    }
                }
            }
        }
    }
}

/// `h(L[0]) + h(L[1]) + ... + h(L[L.len() - 1])`.
pub open spec fn list_sum<T>(l: Seq<Seq<T>>, h: spec_fn(Seq<T>) -> int) -> int
    decreases l.len(),
{
    if l.len() == 0 {
        0
    } else {
        list_sum(l.drop_last(), h) + h(l.last())
    }
}

/// Summing over a duplicate-free list of points of the box is summing over the box
/// the function that vanishes off the list.
pub proof fn lemma_box_sum_list<T>(
    lo: Seq<int>,
    hi: Seq<int>,
    emb: spec_fn(int) -> T,
    unemb: spec_fn(T) -> int,
    l: Seq<Seq<T>>,
    h: spec_fn(Seq<T>) -> int,
)
    requires
        embeds(lo, hi, emb, unemb),
        l.no_duplicates(),
        forall|i: int| 0 <= i < l.len() ==> in_box(lo, hi, unemb, #[trigger] l[i]),
    ensures
        box_sum(lo, hi, emb, |x: Seq<T>| if l.contains(x) { h(x) } else { 0 }) == list_sum(l, h),
    decreases l.len(),
{
    let f = |x: Seq<T>| if l.contains(x) { h(x) } else { 0 };
    if l.len() == 0 {
        lemma_box_sum_zero(lo, hi, emb, f);
    } else {
        let l1 = l.drop_last();
        let q = l.last();
        let g = |x: Seq<T>| if l1.contains(x) { h(x) } else { 0 };
        let p = |x: Seq<T>| if x == q { h(q) } else { 0 };
        assert forall|x: Seq<T>| #[trigger] f(x) == g(x) + p(x) by {
            if l1.contains(x) {
                let i = choose|i: int| 0 <= i < l1.len() && l1[i] == x;
                assert(l[i] == x);
                if x == q {
                    assert(l[l.len() - 1] == q);
                }
            }
            if x == q {
                assert(l[l.len() - 1] == q);
            }
            if l.contains(x) && x != q {
                let i = choose|i: int| 0 <= i < l.len() && l[i] == x;
                assert(l1[i] == x);
            }
        }
        lemma_box_sum_add(lo, hi, emb, f, g, p);
        assert forall|i: int| 0 <= i < l1.len() implies in_box(lo, hi, unemb, #[trigger] l1[i]) by {
            assert(l1[i] == l[i]);
        }
        assert(l1.no_duplicates()) by {
            assert forall|i: int, j: int| 0 <= i < l1.len() && 0 <= j < l1.len() && i != j implies l1[i] != l1[j] by {
                assert(l1[i] == l[i] && l1[j] == l[j]);
            }
        }
        lemma_box_sum_list(lo, hi, emb, unemb, l1, h);
        assert(in_box(lo, hi, unemb, l[l.len() - 1]));
        lemma_box_sum_point(lo, hi, emb, unemb, p, q, h(q));
    }
}

/// The sum over the rest of the box with the first coordinate fixed at `v`.
pub open spec fn first_slice<T>(lo: Seq<int>, hi: Seq<int>, emb: spec_fn(int) -> T, f: spec_fn(Seq<T>) -> int) -> spec_fn(
    int,
) -> int {
    |v: int| box_sum(lo.drop_first(), hi.drop_first(), emb, |rest: Seq<T>| f(seq![emb(v)] + rest))
}

proof fn lemma_box_sum_upto_range<T>(lo: Seq<int>, hi: Seq<int>, emb: spec_fn(int) -> T, f: spec_fn(Seq<T>) -> int, v: int)
    requires
        lo.len() > 0,
    ensures
        box_sum_upto(lo, hi, emb, f, v) == range_sum(lo[0], v, first_slice(lo, hi, emb, f)),
    decreases v + 1 - lo[0],
{
    if v >= lo[0] {
        lemma_box_sum_upto_range(lo, hi, emb, f, v - 1);
    }
}

/// A box sum is the range sum over the first coordinate of the sums over the rest.
pub proof fn lemma_box_sum_range<T>(lo: Seq<int>, hi: Seq<int>, emb: spec_fn(int) -> T, f: spec_fn(Seq<T>) -> int)
    requires
        lo.len() > 0,
    ensures
        box_sum(lo, hi, emb, f) == range_sum(lo[0], hi[0], first_slice(lo, hi, emb, f)),
{
    lemma_box_sum_upto_range(lo, hi, emb, f, hi[0]);
}

/// Peeling the lowest term off a range sum.
pub proof fn lemma_range_sum_first(lo: int, hi: int, f: spec_fn(int) -> int)
    requires
        lo <= hi,
    ensures
        range_sum(lo, hi, f) == f(lo) + range_sum(lo + 1, hi, f),
    decreases hi - lo,
{
    if hi > lo {
        lemma_range_sum_first(lo, hi - 1, f);
    } else {
        assert(range_sum(lo, lo - 1, f) == 0);
        assert(range_sum(lo + 1, hi, f) == 0);
    }
}

/// Shifting the range of a range sum.
pub proof fn lemma_range_sum_shift(lo: int, hi: int, d: int, f: spec_fn(int) -> int)
    ensures
        range_sum(lo + d, hi + d, f) == range_sum(lo, hi, |v: int| f(v + d)),
    decreases hi + 1 - lo,
{
    if hi >= lo {
        lemma_range_sum_shift(lo, hi - 1, d, f);
    }
}

/// Summing a range backwards.
pub proof fn lemma_range_sum_reverse(lo: int, hi: int, f: spec_fn(int) -> int)
    ensures
        range_sum(lo, hi, f) == range_sum(lo, hi, |v: int| f(lo + hi - v)),
    decreases hi + 1 - lo,
{
    if hi >= lo {
        let g = |v: int| f(lo + hi - v);
        lemma_range_sum_first(lo, hi, g);
        lemma_range_sum_shift(lo, hi - 1, 1, g);
        lemma_range_sum_reverse(lo, hi - 1, f);
        assert((|u: int| g(u + 1)) =~= (|u: int| f(lo + (hi - 1) - u)));
    }
}

/// A range sum of a function cut down to `a..=b` is the sum over the common range.
pub proof fn lemma_range_sum_restrict(lo: int, hi: int, a: int, b: int, f: spec_fn(int) -> int)
    ensures
        range_sum(lo, hi, |v: int| if a <= v <= b { f(v) } else { 0 }) == range_sum(
            if lo >= a { lo } else { a },
            if hi <= b { hi } else { b },
            f,
        ),
    decreases hi + 1 - lo,
{
    if hi >= lo {
        lemma_range_sum_restrict(lo, hi - 1, a, b, f);
    }
}

/// Range sums scale.
pub proof fn lemma_range_sum_scale(lo: int, hi: int, c: int, f: spec_fn(int) -> int)
    ensures
        range_sum(lo, hi, |v: int| c * f(v)) == c * range_sum(lo, hi, f),
    decreases hi + 1 - lo,
{
    if hi >= lo {
        lemma_range_sum_scale(lo, hi - 1, c, f);
        let r = range_sum(lo, hi - 1, f);
        assert(c * r + c * f(hi) == c * (r + f(hi))) by (nonlinear_arith);
    }
}

/// Box sums scale.
pub proof fn lemma_box_sum_scale<T>(lo: Seq<int>, hi: Seq<int>, emb: spec_fn(int) -> T, c: int, f: spec_fn(Seq<T>) -> int)
    ensures
        box_sum(lo, hi, emb, |x: Seq<T>| c * f(x)) == c * box_sum(lo, hi, emb, f),
    decreases lo.len(),
{
    let g = |x: Seq<T>| c * f(x);
    if lo.len() > 0 {
        lemma_box_sum_range(lo, hi, emb, g);
        lemma_box_sum_range(lo, hi, emb, f);
        let sf = first_slice(lo, hi, emb, f);
        assert forall|v: int| lo[0] <= v <= hi[0] implies #[trigger] first_slice(lo, hi, emb, g)(v) == c * sf(v) by {
            let fv = |rest: Seq<T>| f(seq![emb(v)] + rest);
            lemma_box_sum_scale(lo.drop_first(), hi.drop_first(), emb, c, fv);
            assert((|rest: Seq<T>| g(seq![emb(v)] + rest)) =~= (|rest: Seq<T>| c * fv(rest)));
        }
        lemma_range_sum_ext(lo[0], hi[0], first_slice(lo, hi, emb, g), |v: int| c * sf(v));
        lemma_range_sum_scale(lo[0], hi[0], c, sf);
    }
}

/// The larger of two corners, coordinate by coordinate.
pub open spec fn seq_max(a: Seq<int>, b: Seq<int>) -> Seq<int> {
    Seq::new(a.len(), |i: int| if a[i] >= b[i] { a[i] } else { b[i] })
}

/// The smaller of two corners, coordinate by coordinate.
pub open spec fn seq_min(a: Seq<int>, b: Seq<int>) -> Seq<int> {
    Seq::new(a.len(), |i: int| if a[i] <= b[i] { a[i] } else { b[i] })
}

/// Membership in a box splits into the first coordinate and the rest.
pub proof fn lemma_in_box_first<T>(lo: Seq<int>, hi: Seq<int>, unemb: spec_fn(T) -> int, t: T, rest: Seq<T>)
    requires
        lo.len() > 0,
        hi.len() == lo.len(),
    ensures
        in_box(lo, hi, unemb, seq![t] + rest) == (lo[0] <= unemb(t) <= hi[0] && in_box(
            lo.drop_first(),
            hi.drop_first(),
            unemb,
            rest,
        )),
{
    let x = seq![t] + rest;
    assert(x[0] == t);
    if in_box(lo, hi, unemb, x) {
        assert forall|i: int| 0 <= i < rest.len() implies lo.drop_first()[i] <= #[trigger] unemb(rest[i])
            <= hi.drop_first()[i] by {
            assert(x[i + 1] == rest[i]);
            assert(lo[i + 1] <= unemb(x[i + 1]) <= hi[i + 1]);
        }
    }
    if lo[0] <= unemb(t) <= hi[0] && in_box(lo.drop_first(), hi.drop_first(), unemb, rest) {
        assert forall|i: int| 0 <= i < x.len() implies lo[i] <= #[trigger] unemb(x[i]) <= hi[i] by {
            if i > 0 {
                assert(x[i] == rest[i - 1]);
                assert(lo.drop_first()[i - 1] <= unemb(rest[i - 1]) <= hi.drop_first()[i - 1]);
            }
        }
    }
}

/// A box sum of a function cut down to a second box is the sum over the common box.
pub proof fn lemma_box_sum_restrict<T>(
    lo: Seq<int>,
    hi: Seq<int>,
    lo2: Seq<int>,
    hi2: Seq<int>,
    emb: spec_fn(int) -> T,
    unemb: spec_fn(T) -> int,
    g: spec_fn(Seq<T>) -> int,
)
    requires
        embeds(lo, hi, emb, unemb),
        hi.len() == lo.len(),
        lo2.len() == lo.len(),
        hi2.len() == lo.len(),
    ensures
        box_sum(lo, hi, emb, |x: Seq<T>| if in_box(lo2, hi2, unemb, x) { g(x) } else { 0 }) == box_sum(
            seq_max(lo, lo2),
            seq_min(hi, hi2),
            emb,
            g,
        ),
    decreases lo.len(),
{
    let f = |x: Seq<T>| if in_box(lo2, hi2, unemb, x) { g(x) } else { 0 };
    if lo.len() == 0 {
        assert(seq_max(lo, lo2) =~= lo);
        assert(in_box(lo2, hi2, unemb, Seq::<T>::empty()));
    } else {
        let nlo = seq_max(lo, lo2);
        let nhi = seq_min(hi, hi2);
        let a = lo2[0];
        let b = hi2[0];
        let tlo = lo.drop_first();
        let thi = hi.drop_first();
        let slice_new = first_slice(nlo, nhi, emb, g);
        assert(embeds(tlo, thi, emb, unemb)) by {
            assert forall|i: int, v: int|
                #![trigger tlo[i], unemb(emb(v))]
                0 <= i < tlo.len() && tlo[i] <= v <= thi[i] implies unemb(emb(v)) == v by {
                assert(lo[i + 1] == tlo[i]);
            }
        }
        assert(nlo.drop_first() =~= seq_max(tlo, lo2.drop_first()));
        assert(nhi.drop_first() =~= seq_min(thi, hi2.drop_first()));
        assert forall|v: int| lo[0] <= v <= hi[0] implies #[trigger] first_slice(lo, hi, emb, f)(v) == (if a <= v
            <= b {
            slice_new(v)
        } else {
            0
        }) by {
            assert(unemb(emb(v)) == v);
            let gv = |rest: Seq<T>| g(seq![emb(v)] + rest);
            let fv = |rest: Seq<T>| f(seq![emb(v)] + rest);
            let cut = |rest: Seq<T>| if in_box(lo2.drop_first(), hi2.drop_first(), unemb, rest) { gv(rest) } else { 0 };
            assert forall|rest: Seq<T>| #[trigger] fv(rest) == if a <= v <= b { cut(rest) } else { 0 } by {
                lemma_in_box_first(lo2, hi2, unemb, emb(v), rest);
            }
            if a <= v <= b {
                assert(fv =~= cut);
                lemma_box_sum_restrict(tlo, thi, lo2.drop_first(), hi2.drop_first(), emb, unemb, gv);
            } else {
                lemma_box_sum_zero(tlo, thi, emb, fv);
            }
        }
        lemma_box_sum_range(lo, hi, emb, f);
        lemma_range_sum_ext(lo[0], hi[0], first_slice(lo, hi, emb, f), |v: int| if a <= v <= b { slice_new(v) } else { 0 });
        lemma_range_sum_restrict(lo[0], hi[0], a, b, slice_new);
        lemma_box_sum_range(nlo, nhi, emb, g);
    }
}

/// Box sums of functions that agree on the box are equal.
pub proof fn lemma_box_sum_ext_in_box<T>(
    lo: Seq<int>,
    hi: Seq<int>,
    emb: spec_fn(int) -> T,
    unemb: spec_fn(T) -> int,
    f: spec_fn(Seq<T>) -> int,
    g: spec_fn(Seq<T>) -> int,
)
    requires
        embeds(lo, hi, emb, unemb),
        forall|x: Seq<T>| in_box(lo, hi, unemb, x) ==> #[trigger] f(x) == g(x),
    ensures
        box_sum(lo, hi, emb, f) == box_sum(lo, hi, emb, g),
{
    lemma_box_sum_restrict(lo, hi, lo, hi, emb, unemb, f);
    lemma_box_sum_restrict(lo, hi, lo, hi, emb, unemb, g);
    assert(seq_max(lo, lo) =~= lo);
    assert(seq_min(hi, hi) =~= hi);
    assert((|x: Seq<T>| if in_box(lo, hi, unemb, x) { f(x) } else { 0 }) =~= (|x: Seq<T>| if in_box(lo, hi, unemb, x) {
        g(x)
    } else {
        0
    }));
}

/// A range sum of box sums is the box sum of the range sums.
pub proof fn lemma_range_box_swap<T>(
    a: int,
    b: int,
    lo: Seq<int>,
    hi: Seq<int>,
    emb: spec_fn(int) -> T,
    s: spec_fn(int, Seq<T>) -> int,
)
    ensures
        range_sum(a, b, |v: int| box_sum(lo, hi, emb, |y: Seq<T>| s(v, y))) == box_sum(
            lo,
            hi,
            emb,
            |y: Seq<T>| range_sum(a, b, |v: int| s(v, y)),
        ),
    decreases b + 1 - a,
{
    let rhs = |y: Seq<T>| range_sum(a, b, |v: int| s(v, y));
    if b < a {
        assert forall|y: Seq<T>| #[trigger] rhs(y) == 0 by {}
        lemma_box_sum_zero(lo, hi, emb, rhs);
    } else {
        lemma_range_box_swap(a, b - 1, lo, hi, emb, s);
        let prev = |y: Seq<T>| range_sum(a, b - 1, |v: int| s(v, y));
        let last = |y: Seq<T>| s(b, y);
        assert forall|y: Seq<T>| #[trigger] rhs(y) == prev(y) + last(y) by {}
        lemma_box_sum_add(lo, hi, emb, rhs, prev, last);
        assert((|v: int| box_sum(lo, hi, emb, |y: Seq<T>| s(v, y)))(b) == box_sum(lo, hi, emb, last)) by {
            assert((|y: Seq<T>| s(b, y)) =~= last);
        }
    }
}

/// Fubini for box sums: the order of summation over two boxes does not matter.
pub proof fn lemma_box_sum_swap<T, U>(
    lo1: Seq<int>,
    hi1: Seq<int>,
    e1: spec_fn(int) -> T,
    lo2: Seq<int>,
    hi2: Seq<int>,
    e2: spec_fn(int) -> U,
    f: spec_fn(Seq<T>, Seq<U>) -> int,
)
    ensures
        box_sum(lo1, hi1, e1, |x: Seq<T>| box_sum(lo2, hi2, e2, |y: Seq<U>| f(x, y))) == box_sum(
            lo2,
            hi2,
            e2,
            |y: Seq<U>| box_sum(lo1, hi1, e1, |x: Seq<T>| f(x, y)),
        ),
    decreases lo1.len(),
{
    let outer = |x: Seq<T>| box_sum(lo2, hi2, e2, |y: Seq<U>| f(x, y));
    let inner = |y: Seq<U>| box_sum(lo1, hi1, e1, |x: Seq<T>| f(x, y));
    if lo1.len() == 0 {
        assert forall|y: Seq<U>| #[trigger] inner(y) == f(Seq::empty(), y) by {}
        lemma_box_sum_ext(lo2, hi2, e2, inner, |y: Seq<U>| f(Seq::empty(), y));
    } else {
        let s = |v: int, y: Seq<U>|
            box_sum(lo1.drop_first(), hi1.drop_first(), e1, |rest: Seq<T>| f(seq![e1(v)] + rest, y));
        lemma_box_sum_range(lo1, hi1, e1, outer);
        assert forall|v: int| #[trigger] first_slice(lo1, hi1, e1, outer)(v) == box_sum(
            lo2,
            hi2,
            e2,
            |y: Seq<U>| s(v, y),
        ) by {
            let fv = |rest: Seq<T>, y: Seq<U>| f(seq![e1(v)] + rest, y);
            lemma_box_sum_swap(lo1.drop_first(), hi1.drop_first(), e1, lo2, hi2, e2, fv);
            assert((|rest: Seq<T>| outer(seq![e1(v)] + rest)) =~= (|rest: Seq<T>| box_sum(
                lo2,
                hi2,
                e2,
                |y: Seq<U>| fv(rest, y),
            ))) by {
                assert forall|rest: Seq<T>| #[trigger] outer(seq![e1(v)] + rest) == box_sum(
                    lo2,
                    hi2,
                    e2,
                    |y: Seq<U>| fv(rest, y),
                ) by {
                    assert((|y: Seq<U>| f(seq![e1(v)] + rest, y)) =~= (|y: Seq<U>| fv(rest, y)));
                }
            }
            let g = |y: Seq<U>| box_sum(lo1.drop_first(), hi1.drop_first(), e1, |rest: Seq<T>| fv(rest, y));
            assert(g =~= (|y: Seq<U>| s(v, y))) by {
                assert forall|y: Seq<U>| #[trigger] g(y) == s(v, y) by {
                    assert((|rest: Seq<T>| fv(rest, y)) =~= (|rest: Seq<T>| f(seq![e1(v)] + rest, y)));
                }
            }
        }
        assert(first_slice(lo1, hi1, e1, outer) =~= (|v: int| box_sum(lo2, hi2, e2, |y: Seq<U>| s(v, y))));
        lemma_range_box_swap(lo1[0], hi1[0], lo2, hi2, e2, s);
        assert forall|y: Seq<U>| #[trigger] inner(y) == range_sum(lo1[0], hi1[0], |v: int| s(v, y)) by {
            let fy = |x: Seq<T>| f(x, y);
            lemma_box_sum_range(lo1, hi1, e1, fy);
            assert(first_slice(lo1, hi1, e1, fy) =~= (|v: int| s(v, y))) by {
                assert forall|v: int| #[trigger] first_slice(lo1, hi1, e1, fy)(v) == s(v, y) by {
                    assert((|rest: Seq<T>| fy(seq![e1(v)] + rest)) =~= (|rest: Seq<T>| f(seq![e1(v)] + rest, y)));
                }
            }
        }
        lemma_box_sum_ext(lo2, hi2, e2, inner, |y: Seq<U>| range_sum(lo1[0], hi1[0], |v: int| s(v, y)));
    }
}

/// A box sum of nonnegative values is nonnegative.
pub proof fn lemma_box_sum_nonneg<T>(lo: Seq<int>, hi: Seq<int>, emb: spec_fn(int) -> T, f: spec_fn(Seq<T>) -> int)
    requires
        forall|x: Seq<T>| #[trigger] f(x) >= 0,
    ensures
        box_sum(lo, hi, emb, f) >= 0,
    decreases lo.len(),
{
    if lo.len() > 0 {
        lemma_box_sum_range(lo, hi, emb, f);
        let sl = first_slice(lo, hi, emb, f);
        assert forall|v: int| lo[0] <= v <= hi[0] implies #[trigger] sl(v) >= 0 by {
            lemma_box_sum_nonneg(lo.drop_first(), hi.drop_first(), emb, |rest: Seq<T>| f(seq![emb(v)] + rest));
        }
        lemma_range_sum_nonneg(lo[0], hi[0], sl);
    }
}

proof fn lemma_range_sum_nonneg(lo: int, hi: int, f: spec_fn(int) -> int)
    requires
        forall|v: int| lo <= v <= hi ==> #[trigger] f(v) >= 0,
    ensures
        range_sum(lo, hi, f) >= 0,
    decreases hi + 1 - lo,
{
    if hi >= lo {
        lemma_range_sum_nonneg(lo, hi - 1, f);
    }
}

} // verus!
