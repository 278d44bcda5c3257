use vstd::prelude::*;

use crate::integer::{big_add, big_is_zero, Integer};
use crate::partition::{lemma_lex_irreflexive, lemma_lex_total, lemma_lex_transitive, lex_compare, lex_lt, LexOrder, Partition};
use crate::sums::{box_sum, embeds, in_box, lemma_box_sum_add, lemma_box_sum_point, lemma_box_sum_zero};

verus! {

/// The mathematical value of a list of terms: pairs of part sequences and coefficients.
pub open spec fn terms_view(v: Seq<(Partition, Integer)>) -> Seq<(Seq<u16>, int)> {
    v.map_values(|t: (Partition, Integer)| (t.0@, t.1@))
}

/// The coefficient of `key` in the linear combination `ts`: the sum of the coefficients
/// of the terms whose part sequence is `key`.
pub open spec fn lc_coeff(ts: Seq<(Seq<u16>, int)>, key: Seq<u16>) -> int
    decreases ts.len(),
{
    if ts.len() == 0 {
        0
    } else {
        lc_coeff(ts.drop_last(), key) + if ts.last().0 == key {
            ts.last().1
        } else {
            0
        }
    }
}

/// The canonical form of a linear combination: strictly increasing part sequences in
/// lexicographic order, each with a nonzero coefficient.
pub open spec fn canonical(ts: Seq<(Seq<u16>, int)>) -> bool {
    &&& forall|i: int, j: int| 0 <= i < j < ts.len() ==> lex_lt(#[trigger] ts[i].0, #[trigger] ts[j].0)
    &&& forall|i: int| 0 <= i < ts.len() ==> #[trigger] ts[i].1 != 0
}

/// `v as u16`, the coordinates of boxes of part sequences.
pub open spec fn u16_of() -> spec_fn(int) -> u16 {
    |v: int| v as u16
}

/// `t as int`, reading back a coordinate of a box of part sequences.
pub open spec fn int_of_u16() -> spec_fn(u16) -> int {
    |t: u16| t as int
}

/// `sum over the terms (key, c) of ts with key in the box of c * w(key)`.
pub open spec fn box_weighted(ts: Seq<(Seq<u16>, int)>, lo: Seq<int>, hi: Seq<int>, w: spec_fn(Seq<u16>) -> int) -> int
    decreases ts.len(),
{
    if ts.len() == 0 {
        0
    } else {
        box_weighted(ts.drop_last(), lo, hi, w) + if in_box(lo, hi, int_of_u16(), ts.last().0) {
            ts.last().1 * w(ts.last().0)
        } else {
            0
        }
    }
}

pub proof fn lemma_u16_embeds(lo: Seq<int>, hi: Seq<int>)
    requires
        lo.len() == hi.len(),
        forall|i: int| 0 <= i < lo.len() ==> 0 <= #[trigger] lo[i] && hi[i] <= u16::MAX,
    ensures
        embeds(lo, hi, u16_of(), int_of_u16()),
{
    assert forall|t: u16| #[trigger] u16_of()(int_of_u16()(t)) == t by {}
    assert forall|i: int, v: int|
        #![trigger lo[i], int_of_u16()(u16_of()(v))]
        0 <= i < lo.len() && lo[i] <= v <= hi[i] implies int_of_u16()(u16_of()(v)) == v by {}
}

/// `lc_coeff` of a concatenation is the sum of the two.
pub proof fn lemma_lc_append(a: Seq<(Seq<u16>, int)>, b: Seq<(Seq<u16>, int)>, key: Seq<u16>)
    ensures
        lc_coeff(a + b, key) == lc_coeff(a, key) + lc_coeff(b, key),
    decreases b.len(),
{
    if b.len() == 0 {
        assert(a + b =~= a);
    } else {
        lemma_lc_append(a, b.drop_last(), key);
        assert((a + b).drop_last() =~= a + b.drop_last());
    }
}

pub proof fn lemma_lc_single(t: (Seq<u16>, int), key: Seq<u16>)
    ensures
        lc_coeff(seq![t], key) == if t.0 == key { t.1 } else { 0 },
{
    assert(seq![t].drop_last() =~= Seq::<(Seq<u16>, int)>::empty());
    assert(lc_coeff(seq![t].drop_last(), key) == 0);
    assert(seq![t].last() == t);
}

proof fn lemma_lc_split(ts: Seq<(Seq<u16>, int)>, i: int, key: Seq<u16>)
    requires
        0 <= i < ts.len(),
    ensures
        lc_coeff(ts, key) == lc_coeff(ts.subrange(0, i), key) + (if ts[i].0 == key { ts[i].1 } else { 0 })
            + lc_coeff(ts.subrange(i + 1, ts.len() as int), key),
{
    assert(ts =~= ts.subrange(0, i) + seq![ts[i]] + ts.subrange(i + 1, ts.len() as int));
    lemma_lc_append(ts.subrange(0, i) + seq![ts[i]], ts.subrange(i + 1, ts.len() as int), key);
    lemma_lc_append(ts.subrange(0, i), seq![ts[i]], key);
    lemma_lc_single(ts[i], key);
}

/// In a canonical combination, the coefficient of a key that occurs is the stored one.
pub proof fn lemma_lc_at(ts: Seq<(Seq<u16>, int)>, i: int)
    requires
        canonical(ts),
        0 <= i < ts.len(),
    ensures
        lc_coeff(ts, ts[i].0) == ts[i].1,
{
    lemma_lc_split(ts, i, ts[i].0);
    assert forall|j: int| 0 <= j < ts.subrange(0, i).len() implies #[trigger] ts.subrange(0, i)[j].0 != ts[i].0 by {
        assert(ts.subrange(0, i)[j] == ts[j]);
        assert(lex_lt(ts[j].0, ts[i].0));
        lemma_lex_irreflexive(ts[i].0);
    }
    lemma_lc_absent(ts.subrange(0, i), ts[i].0);
    assert forall|j: int| 0 <= j < ts.subrange(i + 1, ts.len() as int).len() implies #[trigger] ts.subrange(
        i + 1,
        ts.len() as int,
    )[j].0 != ts[i].0 by {
        assert(ts.subrange(i + 1, ts.len() as int)[j] == ts[i + 1 + j]);
        assert(lex_lt(ts[i].0, ts[i + 1 + j].0));
        lemma_lex_irreflexive(ts[i].0);
    }
    lemma_lc_absent(ts.subrange(i + 1, ts.len() as int), ts[i].0);
}

/// A key that occurs in no term has coefficient zero.
pub proof fn lemma_lc_absent(ts: Seq<(Seq<u16>, int)>, key: Seq<u16>)
    requires
        forall|j: int| 0 <= j < ts.len() ==> #[trigger] ts[j].0 != key,
    ensures
        lc_coeff(ts, key) == 0,
    decreases ts.len(),
{
    if ts.len() > 0 {
        assert(ts.last().0 != key);
        lemma_lc_absent(ts.drop_last(), key);
    }
}

/// A canonical combination with zero coefficient everywhere is empty.
pub proof fn lemma_canonical_zero(ts: Seq<(Seq<u16>, int)>)
    requires
        canonical(ts),
        forall|key: Seq<u16>| lc_coeff(ts, key) == 0,
    ensures
        ts.len() == 0,
{
    if ts.len() > 0 {
        lemma_lc_at(ts, 0);
        assert(lc_coeff(ts, ts[0].0) == 0);
    }
}

/// Two canonical combinations with the same coefficients are the same sequence.
pub proof fn lemma_canonical_unique(a: Seq<(Seq<u16>, int)>, b: Seq<(Seq<u16>, int)>)
    requires
        canonical(a),
        canonical(b),
        forall|key: Seq<u16>| lc_coeff(a, key) == lc_coeff(b, key),
    ensures
        a == b,
    decreases a.len() + b.len(),
{
    if a.len() == 0 {
        lemma_canonical_zero(b);
        assert(a =~= b);
    } else if b.len() == 0 {
        lemma_canonical_zero(a);
    } else {
        let x = a[0].0;
        let y = b[0].0;
        lemma_lc_at(a, 0);
        lemma_lc_at(b, 0);
        lemma_lex_total(x, y);
        if lex_lt(x, y) {
            assert forall|j: int| 0 <= j < b.len() implies #[trigger] b[j].0 != x by {
                if j > 0 {
                    lemma_lex_transitive(x, y, b[j].0);
                }
                lemma_lex_irreflexive(x);
            }
            lemma_lc_absent(b, x);
            assert(false);
        } else if lex_lt(y, x) {
            assert forall|j: int| 0 <= j < a.len() implies #[trigger] a[j].0 != y by {
                if j > 0 {
                    lemma_lex_transitive(y, x, a[j].0);
                }
                lemma_lex_irreflexive(y);
            }
            lemma_lc_absent(a, y);
            assert(false);
        }
        let a1 = a.drop_first();
        let b1 = b.drop_first();
        assert forall|key: Seq<u16>| lc_coeff(a1, key) == lc_coeff(b1, key) by {
            assert(a =~= seq![a[0]] + a1);
            assert(b =~= seq![b[0]] + b1);
            lemma_lc_append(seq![a[0]], a1, key);
            lemma_lc_append(seq![b[0]], b1, key);
            lemma_lc_single(a[0], key);
            lemma_lc_single(b[0], key);
            assert(lc_coeff(a, key) == lc_coeff(b, key));
        }
        assert(canonical(a1)) by {
            assert forall|i: int, j: int| 0 <= i < j < a1.len() implies lex_lt(#[trigger] a1[i].0, #[trigger] a1[j].0) by {
                assert(a1[i] == a[i + 1] && a1[j] == a[j + 1]);
            }
            assert forall|i: int| 0 <= i < a1.len() implies #[trigger] a1[i].1 != 0 by {
                assert(a1[i] == a[i + 1]);
            }
        }
        assert(canonical(b1)) by {
            assert forall|i: int, j: int| 0 <= i < j < b1.len() implies lex_lt(#[trigger] b1[i].0, #[trigger] b1[j].0) by {
                assert(b1[i] == b[i + 1] && b1[j] == b[j + 1]);
            }
            assert forall|i: int| 0 <= i < b1.len() implies #[trigger] b1[i].1 != 0 by {
                assert(b1[i] == b[i + 1]);
            }
        }
        lemma_canonical_unique(a1, b1);
        assert(a =~= seq![a[0]] + a1);
        assert(b =~= seq![b[0]] + b1);
    }
}

/// A box sum weighted by a linear combination is the weighted sum over its terms in the box.
pub proof fn lemma_box_sum_terms(
    ts: Seq<(Seq<u16>, int)>,
    lo: Seq<int>,
    hi: Seq<int>,
    w: spec_fn(Seq<u16>) -> int,
)
    requires
        embeds(lo, hi, u16_of(), int_of_u16()),
    ensures
        box_sum(lo, hi, u16_of(), |x: Seq<u16>| lc_coeff(ts, x) * w(x)) == box_weighted(ts, lo, hi, w),
    decreases ts.len(),
{
    let f = |x: Seq<u16>| lc_coeff(ts, x) * w(x);
    if ts.len() == 0 {
        lemma_box_sum_zero(lo, hi, u16_of(), f);
    } else {
        let ts1 = ts.drop_last();
        let t = ts.last();
        let g = |x: Seq<u16>| lc_coeff(ts1, x) * w(x);
        let h = |x: Seq<u16>| if x == t.0 { t.1 * w(t.0) } else { 0 };
        assert forall|x: Seq<u16>| #[trigger] f(x) == g(x) + h(x) by {
            let a = lc_coeff(ts1, x);
            let b = if t.0 == x { t.1 } else { 0 };
            assert(lc_coeff(ts, x) == a + b);
            assert((a + b) * w(x) == a * w(x) + b * w(x)) by (nonlinear_arith);
        }
        lemma_box_sum_add(lo, hi, u16_of(), f, g, h);
        lemma_box_sum_terms(ts1, lo, hi, w);
        lemma_box_sum_point(lo, hi, u16_of(), int_of_u16(), h, t.0, t.1 * w(t.0));
    }
}

/// A copy of a list of terms.
pub fn clone_terms(v: &Vec<(Partition, Integer)>) -> (r: Vec<(Partition, Integer)>)
    ensures
        terms_view(r@) == terms_view(v@),
{
    let mut r: Vec<(Partition, Integer)> = Vec::new();
    let mut i: usize = 0;
    while i < v.len()
        invariant
            i <= v@.len(),
            terms_view(r@) == terms_view(v@).subrange(0, i as int),
        decreases v.len() - i,
    {
        let t = (v[i].0.clone(), v[i].1.clone());
        let ghost before = r@;
        r.push(t);
        proof {
            assert(r@ == before.push(t));
            assert(terms_view(r@) =~= terms_view(before).push((t.0@, t.1@)));
            assert(terms_view(r@) =~= terms_view(v@).subrange(0, i + 1));
        }
        i = i + 1;
    }
    proof {
        assert(terms_view(v@).subrange(0, i as int) =~= terms_view(v@));
    }
    r
}

/// The coefficient of `key` in a canonical list of terms, zero when it does not occur.
pub fn find_coefficient(v: &Vec<(Partition, Integer)>, key: &Partition) -> (r: Integer)
    requires
        canonical(terms_view(v@)),
    ensures
        r@ == lc_coeff(terms_view(v@), key@),
{
    let ghost ts = terms_view(v@);
    let mut i: usize = 0;
    while i < v.len()
        invariant
            i <= v@.len(),
            ts == terms_view(v@),
            canonical(ts),
            forall|j: int| 0 <= j < i ==> #[trigger] ts[j].0 != key@,
        decreases v.len() - i,
    {
        match lex_compare(v[i].0.parts(), key.parts()) {
            LexOrder::Same => {
                proof {
                    lemma_lc_at(ts, i as int);
                }
                return v[i].1.clone();
            },
            _ => {},
        }
        i = i + 1;
    }
    proof {
        lemma_lc_absent(ts, key@);
    }
    Integer::zero()
}

/// Add `c * sigma_p` to a canonical list of terms, keeping it canonical.
pub fn add_term(v: &mut Vec<(Partition, Integer)>, p: Partition, c: Integer)
    requires
        canonical(terms_view(old(v)@)),
    ensures
        canonical(terms_view(final(v)@)),
        forall|key: Seq<u16>|
            #[trigger] lc_coeff(terms_view(final(v)@), key) == lc_coeff(terms_view(old(v)@), key) + if key
                == p@ {
                c@
            } else {
                0
            },
{
    let ghost ts = terms_view(v@);
    if big_is_zero(&c) {
        return;
    }
    let mut i: usize = 0;
    while i < v.len()
        invariant
            i <= v@.len(),
            ts == terms_view(v@),
            ts == terms_view(old(v)@),
            canonical(ts),
            c@ != 0,
            forall|j: int| 0 <= j < i ==> lex_lt(#[trigger] ts[j].0, p@),
        ensures
            i <= v@.len(),
            ts == terms_view(v@),
            forall|j: int| 0 <= j < i ==> lex_lt(#[trigger] ts[j].0, p@),
            i < v@.len() ==> lex_lt(p@, ts[i as int].0),
        decreases v.len() - i,
    {
        match lex_compare(v[i].0.parts(), p.parts()) {
            LexOrder::Before => {
                i = i + 1;
            },
            LexOrder::Same => {
                proof {
                    assert(ts[i as int].0 == p@);
                    assert(ts[i as int].1 == v@[i as int].1@);
                }
                let sum = big_add(&v[i].1, &c);
                if big_is_zero(&sum) {
                    v.remove(i);
                    proof {
                        let ts2 = terms_view(v@);
                        assert(ts2 =~= ts.subrange(0, i as int) + ts.subrange(i + 1, ts.len() as int));
                        assert forall|key: Seq<u16>|
                            #[trigger] lc_coeff(ts2, key) == lc_coeff(ts, key) + if key == p@ {
                                c@
                            } else {
                                0
                            } by {
                            lemma_lc_split(ts, i as int, key);
                            lemma_lc_append(ts.subrange(0, i as int), ts.subrange(i + 1, ts.len() as int), key);
                        }
                        assert forall|a: int, b: int| 0 <= a < b < ts2.len() implies lex_lt(
                            #[trigger] ts2[a].0,
                            #[trigger] ts2[b].0,
                        ) by {
                            let a0 = if a < i { a } else { a + 1 };
                            let b0 = if b < i { b } else { b + 1 };
                            assert(ts2[a] == ts[a0] && ts2[b] == ts[b0]);
                        }
                        assert forall|a: int| 0 <= a < ts2.len() implies #[trigger] ts2[a].1 != 0 by {
                            let a0 = if a < i { a } else { a + 1 };
                            assert(ts2[a] == ts[a0]);
                        }
                    }
                } else {
                    let key = v[i].0.clone();
                    v.set(i, (key, sum));
                    proof {
                        let ts2 = terms_view(v@);
                        assert(ts2 =~= ts.update(i as int, (ts[i as int].0, ts[i as int].1 + c@)));
                        assert forall|k2: Seq<u16>|
                            #[trigger] lc_coeff(ts2, k2) == lc_coeff(ts, k2) + if k2 == p@ {
                                c@
                            } else {
                                0
                            } by {
                            lemma_lc_split(ts, i as int, k2);
                            lemma_lc_split(ts2, i as int, k2);
                            assert(ts2.subrange(0, i as int) =~= ts.subrange(0, i as int));
                            assert(ts2.subrange(i + 1, ts2.len() as int) =~= ts.subrange(i + 1, ts.len() as int));
                        }
                        assert forall|a: int, b: int| 0 <= a < b < ts2.len() implies lex_lt(
                            #[trigger] ts2[a].0,
                            #[trigger] ts2[b].0,
                        ) by {
                            assert(ts2[a].0 == ts[a].0 && ts2[b].0 == ts[b].0);
                        }
                        assert forall|a: int| 0 <= a < ts2.len() implies #[trigger] ts2[a].1 != 0 by {
                            if a != i {
                                assert(ts2[a] == ts[a]);
                            }
                        }
                    }
                }
                return;
            },
            LexOrder::After => {
                break;
            },
        }
    }
    let ghost pv = p@;
    let ghost cv = c@;
    v.insert(i, (p, c));
    proof {
        let ts2 = terms_view(v@);
        assert(ts2 =~= ts.insert(i as int, (pv, cv)));
        assert forall|k2: Seq<u16>|
            #[trigger] lc_coeff(ts2, k2) == lc_coeff(ts, k2) + if k2 == pv {
                cv
            } else {
                0
            } by {
            lemma_lc_split(ts2, i as int, k2);
            assert(ts2.subrange(0, i as int) =~= ts.subrange(0, i as int));
            assert(ts2.subrange(i + 1, ts2.len() as int) =~= ts.subrange(i as int, ts.len() as int));
            assert(ts =~= ts.subrange(0, i as int) + ts.subrange(i as int, ts.len() as int));
            lemma_lc_append(ts.subrange(0, i as int), ts.subrange(i as int, ts.len() as int), k2);
        }
        assert forall|j: int| i <= j < ts.len() implies lex_lt(pv, #[trigger] ts[j].0) by {
            if j > i {
                lemma_lex_transitive(pv, ts[i as int].0, ts[j].0);
            }
        }
        assert forall|a: int, b: int| 0 <= a < b < ts2.len() implies lex_lt(
            #[trigger] ts2[a].0,
            #[trigger] ts2[b].0,
        ) by {
            if a < i && b < i {
                assert(ts2[a] == ts[a] && ts2[b] == ts[b]);
            } else if a < i && b == i {
                assert(ts2[a] == ts[a]);
            } else if a < i {
                assert(ts2[a] == ts[a] && ts2[b] == ts[b - 1]);
                lemma_lex_transitive(ts[a].0, pv, ts[b - 1].0);
            } else if a == i {
                assert(ts2[b] == ts[b - 1]);
            } else {
                assert(ts2[a] == ts[a - 1] && ts2[b] == ts[b - 1]);
            }
        }
        assert forall|a: int| 0 <= a < ts2.len() implies #[trigger] ts2[a].1 != 0 by {
            if a < i {
                assert(ts2[a] == ts[a]);
            } else if a > i {
                assert(ts2[a] == ts[a - 1]);
            }
        }
    }
}

} // verus!
