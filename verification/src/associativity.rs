//! Multiplications on the right commute with one another, and with the multiplications by
//! special classes: the operators `f -> f * h` all commute.  With commutativity this makes the
//! product associative.
use vstd::prelude::*;

use crate::bilinear::{lemma_special_expand, lemma_valid_in_rect};
use crate::expr::{class_fn, product_fn, rect_hi, rect_lo, special_fn};
use crate::giambelli::{chain_fn, giambelli_fn, giambelli_indices, giambelli_term, indices_in_range, is_perm, perm_sign};
use crate::partition::{fits_width, valid_parts};
use crate::pieri::{diff_sum, is_strip, strip_hi, strip_lo};
use crate::sums::{box_sum, lemma_box_sum_ext, lemma_box_sum_scale, lemma_box_sum_swap, lemma_box_sum_zero};
use crate::terms::u16_of;

verus! {

/// `f` vanishes off the partitions of the `k x w` rectangle.
pub open spec fn on_partitions(f: spec_fn(Seq<u16>) -> int, k: nat, w: nat) -> bool {
    forall|x: Seq<u16>| #[trigger] f(x) != 0 ==> valid_parts(x, k, w)
}

/// Multiplying by a special class keeps a function on the partitions of the rectangle.
proof fn lemma_special_on_partitions(f: spec_fn(Seq<u16>) -> int, k: nat, w: nat, r: int)
    requires
        w <= u16::MAX,
        on_partitions(f, k, w),
    ensures
        on_partitions(special_fn(f, k, w, r), k, w),
{
    if r != 0 && !(r < 0 || r > w) {
        assert forall|nu: Seq<u16>| #[trigger] special_fn(f, k, w, r)(nu) != 0 implies valid_parts(nu, k, w) by {
            if !valid_parts(nu, k, w) {
                lemma_valid_in_rect(f, k, w);
                lemma_special_expand(f, k, w, r, nu);
                let t = |lam: Seq<u16>| f(lam) * special_fn(class_fn(lam), k, w, r)(nu);
                assert forall|lam: Seq<u16>| #[trigger] t(lam) == 0 by {
                    if f(lam) != 0 {
                        crate::laws::law_pieri_on_class(k, w, lam, r, nu);
                        if is_strip(k, w, lam, nu, r) {
                            assert forall|i: int| 0 < i < nu.len() implies nu[i - 1] >= #[trigger] nu[i] by {
                                assert(nu[i] <= lam[i - 1]);
                                assert(lam[i - 1] <= nu[i - 1]);
                            }
                            assert(fits_width(nu, w));
                        }
                    }
                }
                lemma_box_sum_zero(rect_lo(k), rect_hi(k, w), u16_of(), t);
            }
        }
    }
}

proof fn lemma_chain_on_partitions(f: spec_fn(Seq<u16>) -> int, k: nat, w: nat, rs: Seq<int>)
    requires
        w <= u16::MAX,
        on_partitions(f, k, w),
    ensures
        on_partitions(chain_fn(f, k, w, rs), k, w),
    decreases rs.len(),
{
    if rs.len() > 0 {
        lemma_chain_on_partitions(f, k, w, rs.drop_last());
        lemma_special_on_partitions(chain_fn(f, k, w, rs.drop_last()), k, w, rs.last());
    }
}

proof fn lemma_giambelli_on_partitions(f: spec_fn(Seq<u16>) -> int, k: nat, w: nat, mu: Seq<u16>)
    requires
        w <= u16::MAX,
        on_partitions(f, k, w),
    ensures
        on_partitions(giambelli_fn(f, k, w, mu), k, w),
{
    assert forall|nu: Seq<u16>| #[trigger] giambelli_fn(f, k, w, mu)(nu) != 0 implies valid_parts(nu, k, w) by {
        if !valid_parts(nu, k, w) {
            let t = |p: Seq<int>| giambelli_term(f, k, w, mu, p)(nu);
            assert forall|p: Seq<int>| #[trigger] t(p) == 0 by {
                lemma_chain_on_partitions(f, k, w, giambelli_indices(mu, p));
            }
            lemma_box_sum_zero(Seq::new(k, |i: int| 0int), Seq::new(k, |i: int| k - 1), |v: int| v, t);
        }
    }
}

/// A product whose left factor lives on the partitions of the rectangle lives there too.
pub proof fn lemma_product_on_partitions(f: spec_fn(Seq<u16>) -> int, h: spec_fn(Seq<u16>) -> int, k: nat, w: nat)
    requires
        w <= u16::MAX,
        on_partitions(f, k, w),
    ensures
        on_partitions(product_fn(f, h, k, w), k, w),
{
    assert forall|nu: Seq<u16>| #[trigger] product_fn(f, h, k, w)(nu) != 0 implies valid_parts(nu, k, w) by {
        if !valid_parts(nu, k, w) {
            let t = |mu: Seq<u16>| h(mu) * giambelli_fn(f, k, w, mu)(nu);
            assert forall|mu: Seq<u16>| #[trigger] t(mu) == 0 by {
                lemma_giambelli_on_partitions(f, k, w, mu);
            }
            lemma_box_sum_zero(rect_lo(k), rect_hi(k, w), u16_of(), t);
        }
    }
}

/// A box with one point.
proof fn lemma_box_sum_single<T>(emb: spec_fn(int) -> T, f: spec_fn(Seq<T>) -> int)
    ensures
        box_sum(seq![0int], seq![0int], emb, f) == f(seq![emb(0)]),
{
    let lo = seq![0int];
    let hi = seq![0int];
    assert(lo.drop_first() =~= Seq::<int>::empty());
    assert(hi.drop_first() =~= Seq::<int>::empty());
    assert(seq![emb(0)] + Seq::<T>::empty() =~= seq![emb(0)]);
    assert(crate::sums::box_sum_upto(lo, hi, emb, f, -1) == 0);
    let g = |rest: Seq<T>| f(seq![emb(0)] + rest);
    assert(box_sum(lo.drop_first(), hi.drop_first(), emb, g) == g(Seq::<T>::empty()));
    assert(crate::sums::box_sum_upto(lo, hi, emb, f, 0) == crate::sums::box_sum_upto(lo, hi, emb, f, -1) + box_sum(
        lo.drop_first(),
        hi.drop_first(),
        emb,
        g,
    ));
    assert(box_sum(lo, hi, emb, f) == crate::sums::box_sum_upto(lo, hi, emb, f, 0));
}

/// Multiplying by `sigma_r` commutes with weighted box sums of functions.
proof fn lemma_special_box<T>(
    lo: Seq<int>,
    hi: Seq<int>,
    emb: spec_fn(int) -> T,
    c: spec_fn(Seq<T>) -> int,
    phi: spec_fn(Seq<T>, Seq<u16>) -> int,
    k: nat,
    w: nat,
    r: int,
    nu: Seq<u16>,
)
    ensures
        special_fn(|x: Seq<u16>| box_sum(lo, hi, emb, |p: Seq<T>| c(p) * phi(p, x)), k, w, r)(nu) == box_sum(
            lo,
            hi,
            emb,
            |p: Seq<T>| c(p) * special_fn(|x: Seq<u16>| phi(p, x), k, w, r)(nu),
        ),
{
    let big = |x: Seq<u16>| box_sum(lo, hi, emb, |p: Seq<T>| c(p) * phi(p, x));
    let rhs = |p: Seq<T>| c(p) * special_fn(|x: Seq<u16>| phi(p, x), k, w, r)(nu);
    if r == 0 {
        assert(rhs =~= (|p: Seq<T>| c(p) * phi(p, nu)));
    } else if r < 0 || r > w || !(nu.len() == k && fits_width(nu, w)) {
        assert forall|p: Seq<T>| #[trigger] rhs(p) == 0 by {}
        lemma_box_sum_zero(lo, hi, emb, rhs);
    } else {
        let slo = strip_lo(nu);
        let shi = strip_hi(nu);
        let a = |kap: Seq<u16>| if diff_sum(nu, kap, 0) == r { big(kap) } else { 0 };
        let fk = |kap: Seq<u16>, p: Seq<T>| if diff_sum(nu, kap, 0) == r { c(p) * phi(p, kap) } else { 0 };
        let rows = |kap: Seq<u16>| box_sum(lo, hi, emb, |p: Seq<T>| fk(kap, p));
        assert forall|kap: Seq<u16>| #[trigger] a(kap) == rows(kap) by {
            if diff_sum(nu, kap, 0) == r {
                assert((|p: Seq<T>| fk(kap, p)) =~= (|p: Seq<T>| c(p) * phi(p, kap)));
            } else {
                lemma_box_sum_zero(lo, hi, emb, |p: Seq<T>| fk(kap, p));
            }
        }
        lemma_box_sum_ext(slo, shi, u16_of(), a, rows);
        lemma_box_sum_swap(slo, shi, u16_of(), lo, hi, emb, fk);
        let cols = |p: Seq<T>| box_sum(slo, shi, u16_of(), |kap: Seq<u16>| fk(kap, p));
        assert forall|p: Seq<T>| #[trigger] cols(p) == rhs(p) by {
            let b = |kap: Seq<u16>| if diff_sum(nu, kap, 0) == r { phi(p, kap) } else { 0 };
            lemma_box_sum_scale(slo, shi, u16_of(), c(p), b);
            assert((|kap: Seq<u16>| fk(kap, p)) =~= (|kap: Seq<u16>| c(p) * b(kap)));
            assert(special_fn(|x: Seq<u16>| phi(p, x), k, w, r)(nu) == box_sum(slo, shi, u16_of(), b)) by {
                assert(b =~= (|lam: Seq<u16>| if diff_sum(nu, lam, 0) == r { (|x: Seq<u16>| phi(p, x))(lam) } else { 0 }));
            }
        }
        lemma_box_sum_ext(lo, hi, emb, cols, rhs);
    }
}

/// Multiplying in turn by special classes commutes with weighted box sums of functions.
proof fn lemma_chain_box<T>(
    lo: Seq<int>,
    hi: Seq<int>,
    emb: spec_fn(int) -> T,
    c: spec_fn(Seq<T>) -> int,
    phi: spec_fn(Seq<T>, Seq<u16>) -> int,
    k: nat,
    w: nat,
    rs: Seq<int>,
    nu: Seq<u16>,
)
    ensures
        chain_fn(|x: Seq<u16>| box_sum(lo, hi, emb, |p: Seq<T>| c(p) * phi(p, x)), k, w, rs)(nu) == box_sum(
            lo,
            hi,
            emb,
            |p: Seq<T>| c(p) * chain_fn(|x: Seq<u16>| phi(p, x), k, w, rs)(nu),
        ),
    decreases rs.len(),
{
    let big = |x: Seq<u16>| box_sum(lo, hi, emb, |p: Seq<T>| c(p) * phi(p, x));
    let rhs = |p: Seq<T>| c(p) * chain_fn(|x: Seq<u16>| phi(p, x), k, w, rs)(nu);
    if rs.len() == 0 {
        assert(rhs =~= (|p: Seq<T>| c(p) * phi(p, nu)));
    } else {
        let rs1 = rs.drop_last();
        let r = rs.last();
        let phi1 = |p: Seq<T>, x: Seq<u16>| chain_fn(|y: Seq<u16>| phi(p, y), k, w, rs1)(x);
        let mid = |x: Seq<u16>| box_sum(lo, hi, emb, |p: Seq<T>| c(p) * phi1(p, x));
        assert forall|x: Seq<u16>| #[trigger] chain_fn(big, k, w, rs1)(x) == mid(x) by {
            lemma_chain_box(lo, hi, emb, c, phi, k, w, rs1, x);
            assert((|p: Seq<T>| c(p) * chain_fn(|y: Seq<u16>| phi(p, y), k, w, rs1)(x)) =~= (|p: Seq<T>| c(p) * phi1(
                p,
                x,
            )));
        }
        assert(chain_fn(big, k, w, rs1) =~= mid);
        lemma_special_box(lo, hi, emb, c, phi1, k, w, r, nu);
        assert forall|p: Seq<T>| #[trigger] rhs(p) == c(p) * special_fn(|x: Seq<u16>| phi1(p, x), k, w, r)(nu) by {
            assert((|x: Seq<u16>| phi1(p, x)) =~= chain_fn(|y: Seq<u16>| phi(p, y), k, w, rs1));
        }
        assert(rhs =~= (|p: Seq<T>| c(p) * special_fn(|x: Seq<u16>| phi1(p, x), k, w, r)(nu)));
    }
}

/// Multiplying by `sigma_mu` through Giambelli's formula commutes with weighted box sums.
proof fn lemma_giambelli_box<T>(
    lo: Seq<int>,
    hi: Seq<int>,
    emb: spec_fn(int) -> T,
    c: spec_fn(Seq<T>) -> int,
    phi: spec_fn(Seq<T>, Seq<u16>) -> int,
    k: nat,
    w: nat,
    mu: Seq<u16>,
    nu: Seq<u16>,
)
    ensures
        giambelli_fn(|x: Seq<u16>| box_sum(lo, hi, emb, |p: Seq<T>| c(p) * phi(p, x)), k, w, mu)(nu) == box_sum(
            lo,
            hi,
            emb,
            |p: Seq<T>| c(p) * giambelli_fn(|x: Seq<u16>| phi(p, x), k, w, mu)(nu),
        ),
{
    let big = |x: Seq<u16>| box_sum(lo, hi, emb, |p: Seq<T>| c(p) * phi(p, x));
    let plo = Seq::new(k, |i: int| 0int);
    let phi_ = Seq::new(k, |i: int| k - 1);
    let id = |v: int| v;
    let fk = |q: Seq<int>, p: Seq<T>| c(p) * giambelli_term(|x: Seq<u16>| phi(p, x), k, w, mu, q)(nu);
    let terms = |q: Seq<int>| giambelli_term(big, k, w, mu, q)(nu);
    let rows = |q: Seq<int>| box_sum(lo, hi, emb, |p: Seq<T>| fk(q, p));
    assert forall|q: Seq<int>| #[trigger] terms(q) == rows(q) by {
        let rs = giambelli_indices(mu, q);
        if is_perm(q, k) && indices_in_range(rs, w) {
            let s = perm_sign(q);
            lemma_chain_box(lo, hi, emb, c, phi, k, w, rs, nu);
            let a = |p: Seq<T>| c(p) * chain_fn(|x: Seq<u16>| phi(p, x), k, w, rs)(nu);
            lemma_box_sum_scale(lo, hi, emb, s, a);
            assert forall|p: Seq<T>| #[trigger] fk(q, p) == s * a(p) by {
                let x = c(p);
                let y = chain_fn(|z: Seq<u16>| phi(p, z), k, w, rs)(nu);
                assert(x * (s * y) == s * (x * y)) by (nonlinear_arith);
            }
            assert((|p: Seq<T>| fk(q, p)) =~= (|p: Seq<T>| s * a(p)));
        } else {
            assert forall|p: Seq<T>| #[trigger] fk(q, p) == 0 by {}
            lemma_box_sum_zero(lo, hi, emb, |p: Seq<T>| fk(q, p));
        }
    }
    lemma_box_sum_ext(plo, phi_, id, terms, rows);
    lemma_box_sum_swap(plo, phi_, id, lo, hi, emb, fk);
    let cols = |p: Seq<T>| box_sum(plo, phi_, id, |q: Seq<int>| fk(q, p));
    let rhs = |p: Seq<T>| c(p) * giambelli_fn(|x: Seq<u16>| phi(p, x), k, w, mu)(nu);
    assert forall|p: Seq<T>| #[trigger] cols(p) == rhs(p) by {
        let b = |q: Seq<int>| giambelli_term(|x: Seq<u16>| phi(p, x), k, w, mu, q)(nu);
        lemma_box_sum_scale(plo, phi_, id, c(p), b);
        assert((|q: Seq<int>| fk(q, p)) =~= (|q: Seq<int>| c(p) * b(q)));
    }
    lemma_box_sum_ext(lo, hi, emb, cols, rhs);
}

/// Multiplying on the right by `h` commutes with weighted box sums.
proof fn lemma_product_box<T>(
    lo: Seq<int>,
    hi: Seq<int>,
    emb: spec_fn(int) -> T,
    c: spec_fn(Seq<T>) -> int,
    phi: spec_fn(Seq<T>, Seq<u16>) -> int,
    h: spec_fn(Seq<u16>) -> int,
    k: nat,
    w: nat,
    nu: Seq<u16>,
)
    ensures
        product_fn(|x: Seq<u16>| box_sum(lo, hi, emb, |p: Seq<T>| c(p) * phi(p, x)), h, k, w)(nu) == box_sum(
            lo,
            hi,
            emb,
            |p: Seq<T>| c(p) * product_fn(|x: Seq<u16>| phi(p, x), h, k, w)(nu),
        ),
{
    let big = |x: Seq<u16>| box_sum(lo, hi, emb, |p: Seq<T>| c(p) * phi(p, x));
    let rlo = rect_lo(k);
    let rhi = rect_hi(k, w);
    let fk = |mu: Seq<u16>, p: Seq<T>| h(mu) * (c(p) * giambelli_fn(|x: Seq<u16>| phi(p, x), k, w, mu)(nu));
    let terms = |mu: Seq<u16>| h(mu) * giambelli_fn(big, k, w, mu)(nu);
    let rows = |mu: Seq<u16>| box_sum(lo, hi, emb, |p: Seq<T>| fk(mu, p));
    assert forall|mu: Seq<u16>| #[trigger] terms(mu) == rows(mu) by {
        lemma_giambelli_box(lo, hi, emb, c, phi, k, w, mu, nu);
        let a = |p: Seq<T>| c(p) * giambelli_fn(|x: Seq<u16>| phi(p, x), k, w, mu)(nu);
        lemma_box_sum_scale(lo, hi, emb, h(mu), a);
        assert((|p: Seq<T>| fk(mu, p)) =~= (|p: Seq<T>| h(mu) * a(p)));
    }
    lemma_box_sum_ext(rlo, rhi, u16_of(), terms, rows);
    lemma_box_sum_swap(rlo, rhi, u16_of(), lo, hi, emb, fk);
    let cols = |p: Seq<T>| box_sum(rlo, rhi, u16_of(), |mu: Seq<u16>| fk(mu, p));
    let rhs = |p: Seq<T>| c(p) * product_fn(|x: Seq<u16>| phi(p, x), h, k, w)(nu);
    assert forall|p: Seq<T>| #[trigger] cols(p) == rhs(p) by {
        let b = |mu: Seq<u16>| h(mu) * giambelli_fn(|x: Seq<u16>| phi(p, x), k, w, mu)(nu);
        lemma_box_sum_scale(rlo, rhi, u16_of(), c(p), b);
        assert forall|mu: Seq<u16>| #[trigger] fk(mu, p) == c(p) * b(mu) by {
            let x = h(mu);
            let y = c(p);
            let z = giambelli_fn(|q: Seq<u16>| phi(p, q), k, w, mu)(nu);
            assert(x * (y * z) == y * (x * z)) by (nonlinear_arith);
        }
        assert((|mu: Seq<u16>| fk(mu, p)) =~= (|mu: Seq<u16>| c(p) * b(mu)));
    }
    lemma_box_sum_ext(lo, hi, emb, cols, rhs);
}

proof fn lemma_special_scale(g: spec_fn(Seq<u16>) -> int, s: int, k: nat, w: nat, r: int, nu: Seq<u16>)
    ensures
        special_fn(|x: Seq<u16>| s * g(x), k, w, r)(nu) == s * special_fn(g, k, w, r)(nu),
{
    let id = |v: int| v;
    let c = |p: Seq<int>| s;
    let phi = |p: Seq<int>, x: Seq<u16>| g(x);
    lemma_special_box(seq![0int], seq![0int], id, c, phi, k, w, r, nu);
    let big = |x: Seq<u16>| box_sum(seq![0int], seq![0int], id, |p: Seq<int>| c(p) * phi(p, x));
    assert forall|x: Seq<u16>| #[trigger] big(x) == s * g(x) by {
        lemma_box_sum_single(id, |p: Seq<int>| c(p) * phi(p, x));
    }
    assert(big =~= (|x: Seq<u16>| s * g(x)));
    lemma_box_sum_single(id, |p: Seq<int>| c(p) * special_fn(|x: Seq<u16>| phi(p, x), k, w, r)(nu));
    assert((|x: Seq<u16>| phi(seq![0int], x)) =~= g);
}

proof fn lemma_product_scale(g: spec_fn(Seq<u16>) -> int, s: int, h: spec_fn(Seq<u16>) -> int, k: nat, w: nat, nu: Seq<u16>)
    ensures
        product_fn(|x: Seq<u16>| s * g(x), h, k, w)(nu) == s * product_fn(g, h, k, w)(nu),
{
    let id = |v: int| v;
    let c = |p: Seq<int>| s;
    let phi = |p: Seq<int>, x: Seq<u16>| g(x);
    lemma_product_box(seq![0int], seq![0int], id, c, phi, h, k, w, nu);
    let big = |x: Seq<u16>| box_sum(seq![0int], seq![0int], id, |p: Seq<int>| c(p) * phi(p, x));
    assert forall|x: Seq<u16>| #[trigger] big(x) == s * g(x) by {
        lemma_box_sum_single(id, |p: Seq<int>| c(p) * phi(p, x));
    }
    assert(big =~= (|x: Seq<u16>| s * g(x)));
    lemma_box_sum_single(id, |p: Seq<int>| c(p) * product_fn(|x: Seq<u16>| phi(p, x), h, k, w)(nu));
    assert((|x: Seq<u16>| phi(seq![0int], x)) =~= g);
}

proof fn lemma_chain_pair(g: spec_fn(Seq<u16>) -> int, k: nat, w: nat, a: int, b: int)
    ensures
        chain_fn(g, k, w, seq![a, b]) == special_fn(special_fn(g, k, w, a), k, w, b),
{
    assert(seq![a, b].drop_last() =~= seq![a]);
    assert(seq![a].drop_last() =~= Seq::<int>::empty());
    assert(chain_fn(g, k, w, Seq::<int>::empty()) == g);
    assert(chain_fn(g, k, w, seq![a]) == special_fn(g, k, w, a));
}

/// Multiplications by two special classes commute on functions on the partitions.
proof fn lemma_special_pair_commute(f: spec_fn(Seq<u16>) -> int, k: nat, w: nat, a: int, b: int)
    requires
        k >= 1,
        w <= u16::MAX,
        on_partitions(f, k, w),
    ensures
        special_fn(special_fn(f, k, w, a), k, w, b) == special_fn(special_fn(f, k, w, b), k, w, a),
{
    lemma_valid_in_rect(f, k, w);
    let ab = seq![a, b];
    let ba = seq![b, a];
    lemma_chain_pair(f, k, w, a, b);
    lemma_chain_pair(f, k, w, b, a);
    assert forall|nu: Seq<u16>| #[trigger] chain_fn(f, k, w, ab)(nu) == chain_fn(f, k, w, ba)(nu) by {
        crate::bilinear::lemma_chain_expand(f, k, w, ab, nu);
        crate::bilinear::lemma_chain_expand(f, k, w, ba, nu);
        let l = |lam: Seq<u16>| f(lam) * chain_fn(class_fn(lam), k, w, ab)(nu);
        let m = |lam: Seq<u16>| f(lam) * chain_fn(class_fn(lam), k, w, ba)(nu);
        assert forall|lam: Seq<u16>| #[trigger] l(lam) == m(lam) by {
            if f(lam) != 0 {
                let ts = seq![(lam, 1int)];
                assert forall|x: Seq<u16>| #[trigger] crate::terms::lc_coeff(ts, x) == class_fn(lam)(x) by {
                    crate::terms::lemma_lc_single((lam, 1int), x);
                }
                assert((|x: Seq<u16>| crate::terms::lc_coeff(ts, x)) =~= class_fn(lam));
                assert(valid_parts(ts[0].0, k, w));
                crate::laws::law_special_commute(ts, k, w, a, b);
                lemma_chain_pair(class_fn(lam), k, w, a, b);
                lemma_chain_pair(class_fn(lam), k, w, b, a);
                assert(chain_fn(class_fn(lam), k, w, ab) == chain_fn(class_fn(lam), k, w, ba));
            }
        }
        lemma_box_sum_ext(rect_lo(k), rect_hi(k, w), u16_of(), l, m);
    }
    assert(chain_fn(f, k, w, ab) =~= chain_fn(f, k, w, ba));
}

proof fn lemma_chain_special(f: spec_fn(Seq<u16>) -> int, k: nat, w: nat, r: int, rs: Seq<int>)
    requires
        k >= 1,
        w <= u16::MAX,
        on_partitions(f, k, w),
    ensures
        chain_fn(special_fn(f, k, w, r), k, w, rs) == special_fn(chain_fn(f, k, w, rs), k, w, r),
    decreases rs.len(),
{
    if rs.len() > 0 {
        let rs1 = rs.drop_last();
        lemma_chain_special(f, k, w, r, rs1);
        lemma_chain_on_partitions(f, k, w, rs1);
        lemma_special_pair_commute(chain_fn(f, k, w, rs1), k, w, r, rs.last());
    }
}

/// The terms of Giambelli's determinant for `f`, as a function of the permutation and the key.
spec fn term_of(f: spec_fn(Seq<u16>) -> int, k: nat, w: nat, mu: Seq<u16>) -> spec_fn(Seq<int>, Seq<u16>) -> int {
    |q: Seq<int>, x: Seq<u16>| giambelli_term(f, k, w, mu, q)(x)
}

proof fn lemma_giambelli_as_box(f: spec_fn(Seq<u16>) -> int, k: nat, w: nat, mu: Seq<u16>)
    ensures
        giambelli_fn(f, k, w, mu) == (|x: Seq<u16>|
            box_sum(
                Seq::new(k, |i: int| 0int),
                Seq::new(k, |i: int| k - 1),
                |v: int| v,
                |q: Seq<int>| (|p: Seq<int>| 1int)(q) * term_of(f, k, w, mu)(q, x),
            )),
{
    let plo = Seq::new(k, |i: int| 0int);
    let phi = Seq::new(k, |i: int| k - 1);
    let id = |v: int| v;
    let big = |x: Seq<u16>| box_sum(plo, phi, id, |q: Seq<int>| (|p: Seq<int>| 1int)(q) * term_of(f, k, w, mu)(q, x));
    assert forall|x: Seq<u16>| #[trigger] giambelli_fn(f, k, w, mu)(x) == big(x) by {
        assert((|q: Seq<int>| giambelli_term(f, k, w, mu, q)(x)) =~= (|q: Seq<int>| (|p: Seq<int>| 1int)(q) * term_of(
            f,
            k,
            w,
            mu,
        )(q, x)));
    }
    assert(giambelli_fn(f, k, w, mu) =~= big);
}

proof fn lemma_giambelli_special(f: spec_fn(Seq<u16>) -> int, k: nat, w: nat, r: int, mu: Seq<u16>, nu: Seq<u16>)
    requires
        k >= 1,
        w <= u16::MAX,
        on_partitions(f, k, w),
    ensures
        giambelli_fn(special_fn(f, k, w, r), k, w, mu)(nu) == special_fn(giambelli_fn(f, k, w, mu), k, w, r)(nu),
{
    let plo = Seq::new(k, |i: int| 0int);
    let phi = Seq::new(k, |i: int| k - 1);
    let id = |v: int| v;
    let one = |p: Seq<int>| 1int;
    let t = term_of(f, k, w, mu);
    lemma_giambelli_as_box(f, k, w, mu);
    lemma_special_box(plo, phi, id, one, t, k, w, r, nu);
    let lhs = |q: Seq<int>| giambelli_term(special_fn(f, k, w, r), k, w, mu, q)(nu);
    let rhs = |q: Seq<int>| one(q) * special_fn(|x: Seq<u16>| t(q, x), k, w, r)(nu);
    assert forall|q: Seq<int>| #[trigger] lhs(q) == rhs(q) by {
        let rs = giambelli_indices(mu, q);
        let s = perm_sign(q);
        let ch = chain_fn(f, k, w, rs);
        if is_perm(q, k) && indices_in_range(rs, w) {
            lemma_chain_special(f, k, w, r, rs);
            assert((|x: Seq<u16>| t(q, x)) =~= (|x: Seq<u16>| s * ch(x)));
            lemma_special_scale(ch, s, k, w, r, nu);
        } else {
            assert((|x: Seq<u16>| t(q, x)) =~= (|x: Seq<u16>| 0 * ch(x)));
            lemma_special_scale(ch, 0, k, w, r, nu);
        }
    }
    lemma_box_sum_ext(plo, phi, id, lhs, rhs);
}

proof fn lemma_product_special(
    f: spec_fn(Seq<u16>) -> int,
    h: spec_fn(Seq<u16>) -> int,
    k: nat,
    w: nat,
    r: int,
    nu: Seq<u16>,
)
    requires
        k >= 1,
        w <= u16::MAX,
        on_partitions(f, k, w),
    ensures
        product_fn(special_fn(f, k, w, r), h, k, w)(nu) == special_fn(product_fn(f, h, k, w), k, w, r)(nu),
{
    let gm = |mu: Seq<u16>, x: Seq<u16>| giambelli_fn(f, k, w, mu)(x);
    assert(product_fn(f, h, k, w) =~= (|x: Seq<u16>| box_sum(rect_lo(k), rect_hi(k, w), u16_of(), |mu: Seq<u16>| h(mu) * gm(mu, x)))) by {
        assert forall|x: Seq<u16>| #[trigger] product_fn(f, h, k, w)(x) == box_sum(
            rect_lo(k),
            rect_hi(k, w),
            u16_of(),
            |mu: Seq<u16>| h(mu) * gm(mu, x),
        ) by {
            assert((|mu: Seq<u16>| h(mu) * giambelli_fn(f, k, w, mu)(x)) =~= (|mu: Seq<u16>| h(mu) * gm(mu, x)));
        }
    }
    lemma_special_box(rect_lo(k), rect_hi(k, w), u16_of(), h, gm, k, w, r, nu);
    let lhs = |mu: Seq<u16>| h(mu) * giambelli_fn(special_fn(f, k, w, r), k, w, mu)(nu);
    let rhs = |mu: Seq<u16>| h(mu) * special_fn(|x: Seq<u16>| gm(mu, x), k, w, r)(nu);
    assert forall|mu: Seq<u16>| #[trigger] lhs(mu) == rhs(mu) by {
        lemma_giambelli_special(f, k, w, r, mu, nu);
        assert((|x: Seq<u16>| gm(mu, x)) =~= giambelli_fn(f, k, w, mu));
    }
    lemma_box_sum_ext(rect_lo(k), rect_hi(k, w), u16_of(), lhs, rhs);
}

proof fn lemma_chain_product(f: spec_fn(Seq<u16>) -> int, h: spec_fn(Seq<u16>) -> int, k: nat, w: nat, rs: Seq<int>)
    requires
        k >= 1,
        w <= u16::MAX,
        on_partitions(f, k, w),
    ensures
        chain_fn(product_fn(f, h, k, w), k, w, rs) == product_fn(chain_fn(f, k, w, rs), h, k, w),
    decreases rs.len(),
{
    if rs.len() > 0 {
        let rs1 = rs.drop_last();
        let r = rs.last();
        lemma_chain_product(f, h, k, w, rs1);
        lemma_chain_on_partitions(f, k, w, rs1);
        let c1 = chain_fn(f, k, w, rs1);
        assert forall|nu: Seq<u16>| #[trigger] special_fn(product_fn(c1, h, k, w), k, w, r)(nu) == product_fn(
            special_fn(c1, k, w, r),
            h,
            k,
            w,
        )(nu) by {
            lemma_product_special(c1, h, k, w, r, nu);
        }
        assert(special_fn(product_fn(c1, h, k, w), k, w, r) =~= product_fn(special_fn(c1, k, w, r), h, k, w));
    }
}

proof fn lemma_giambelli_product(
    f: spec_fn(Seq<u16>) -> int,
    h: spec_fn(Seq<u16>) -> int,
    k: nat,
    w: nat,
    mu: Seq<u16>,
    nu: Seq<u16>,
)
    requires
        k >= 1,
        w <= u16::MAX,
        on_partitions(f, k, w),
    ensures
        giambelli_fn(product_fn(f, h, k, w), k, w, mu)(nu) == product_fn(giambelli_fn(f, k, w, mu), h, k, w)(nu),
{
    let plo = Seq::new(k, |i: int| 0int);
    let phi = Seq::new(k, |i: int| k - 1);
    let id = |v: int| v;
    let one = |p: Seq<int>| 1int;
    let t = term_of(f, k, w, mu);
    lemma_giambelli_as_box(f, k, w, mu);
    lemma_product_box(plo, phi, id, one, t, h, k, w, nu);
    let lhs = |q: Seq<int>| giambelli_term(product_fn(f, h, k, w), k, w, mu, q)(nu);
    let rhs = |q: Seq<int>| one(q) * product_fn(|x: Seq<u16>| t(q, x), h, k, w)(nu);
    assert forall|q: Seq<int>| #[trigger] lhs(q) == rhs(q) by {
        let rs = giambelli_indices(mu, q);
        let s = perm_sign(q);
        let ch = chain_fn(f, k, w, rs);
        if is_perm(q, k) && indices_in_range(rs, w) {
            lemma_chain_product(f, h, k, w, rs);
            assert((|x: Seq<u16>| t(q, x)) =~= (|x: Seq<u16>| s * ch(x)));
            lemma_product_scale(ch, s, h, k, w, nu);
        } else {
            assert((|x: Seq<u16>| t(q, x)) =~= (|x: Seq<u16>| 0 * ch(x)));
            lemma_product_scale(ch, 0, h, k, w, nu);
        }
    }
    lemma_box_sum_ext(plo, phi, id, lhs, rhs);
}

/// Multiplications on the right commute: `(f * y) * z == (f * z) * y`.
pub proof fn lemma_right_products_commute(
    f: spec_fn(Seq<u16>) -> int,
    y: spec_fn(Seq<u16>) -> int,
    z: spec_fn(Seq<u16>) -> int,
    k: nat,
    w: nat,
)
    requires
        k >= 1,
        w <= u16::MAX,
        on_partitions(f, k, w),
    ensures
        product_fn(product_fn(f, y, k, w), z, k, w) == product_fn(product_fn(f, z, k, w), y, k, w),
{
    assert forall|nu: Seq<u16>| #[trigger] product_fn(product_fn(f, y, k, w), z, k, w)(nu) == product_fn(
        product_fn(f, z, k, w),
        y,
        k,
        w,
    )(nu) by {
        let gm = |mu: Seq<u16>, x: Seq<u16>| giambelli_fn(f, k, w, mu)(x);
        assert(product_fn(f, z, k, w) =~= (|x: Seq<u16>| box_sum(rect_lo(k), rect_hi(k, w), u16_of(), |mu: Seq<u16>| z(mu) * gm(mu, x)))) by {
            assert forall|x: Seq<u16>| #[trigger] product_fn(f, z, k, w)(x) == box_sum(
                rect_lo(k),
                rect_hi(k, w),
                u16_of(),
                |mu: Seq<u16>| z(mu) * gm(mu, x),
            ) by {
                assert((|mu: Seq<u16>| z(mu) * giambelli_fn(f, k, w, mu)(x)) =~= (|mu: Seq<u16>| z(mu) * gm(mu, x)));
            }
        }
        lemma_product_box(rect_lo(k), rect_hi(k, w), u16_of(), z, gm, y, k, w, nu);
        let lhs = |mu: Seq<u16>| z(mu) * giambelli_fn(product_fn(f, y, k, w), k, w, mu)(nu);
        let rhs = |mu: Seq<u16>| z(mu) * product_fn(|x: Seq<u16>| gm(mu, x), y, k, w)(nu);
        assert forall|mu: Seq<u16>| #[trigger] lhs(mu) == rhs(mu) by {
            lemma_giambelli_product(f, y, k, w, mu, nu);
            assert((|x: Seq<u16>| gm(mu, x)) =~= giambelli_fn(f, k, w, mu));
        }
        lemma_box_sum_ext(rect_lo(k), rect_hi(k, w), u16_of(), lhs, rhs);
    }
    assert(product_fn(product_fn(f, y, k, w), z, k, w) =~= product_fn(product_fn(f, z, k, w), y, k, w));
}

} // verus!
