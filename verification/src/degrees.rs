//! The grading of the cohomology ring: a class `sigma_lam` has degree `|lam|`, and every
//! operation adds degrees.
use vstd::prelude::*;
use vstd::set_lib::{lemma_int_range, lemma_subset_equality, set_int_range};
use vstd::seq_lib::lemma_fold_left_permutation;

use crate::expr::{binary_power, class_fn, pow_fn, product_fn, rect_hi, rect_lo, special_fn};
use crate::giambelli::{chain_fn, giambelli_fn, giambelli_indices, giambelli_term, is_perm, perm_sign};
use crate::partition::{fits_width, part_sum, zero_parts};
use crate::pieri::{diff_sum, strip_hi, strip_lo};
use crate::sums::{box_sum, in_box, lemma_box_sum_ext_in_box, lemma_box_sum_zero};
use crate::terms::{int_of_u16, lemma_u16_embeds, u16_of};

verus! {

/// `f` is homogeneous of degree `d`: it vanishes off the part sequences with `d` boxes.
pub open spec fn homogeneous(f: spec_fn(Seq<u16>) -> int, d: int) -> bool {
    forall|x: Seq<u16>| #[trigger] f(x) != 0 ==> part_sum(x) == d
}

/// `s[0] + s[1] + ...`.
pub open spec fn int_sum(s: Seq<int>) -> int {
    s.fold_left(0int, |a: int, x: int| a + x)
}

proof fn lemma_int_sum_push(s: Seq<int>)
    requires
        s.len() > 0,
    ensures
        int_sum(s) == int_sum(s.drop_last()) + s.last(),
{
}

/// Sums of `Seq::new` terms are linear.
proof fn lemma_new_sum(n: nat, a: spec_fn(int) -> int, b: spec_fn(int) -> int, c: spec_fn(int) -> int)
    ensures
        int_sum(Seq::new(n, |i: int| a(i) + b(i) - c(i))) == int_sum(Seq::new(n, a)) + int_sum(Seq::new(n, b))
            - int_sum(Seq::new(n, c)),
    decreases n,
{
    if n > 0 {
        let m = (n - 1) as nat;
        lemma_new_sum(m, a, b, c);
        assert(Seq::new(n, |i: int| a(i) + b(i) - c(i)).drop_last() =~= Seq::new(m, |i: int| a(i) + b(i) - c(i)));
        assert(Seq::new(n, a).drop_last() =~= Seq::new(m, a));
        assert(Seq::new(n, b).drop_last() =~= Seq::new(m, b));
        assert(Seq::new(n, c).drop_last() =~= Seq::new(m, c));
        lemma_int_sum_push(Seq::new(n, |i: int| a(i) + b(i) - c(i)));
        lemma_int_sum_push(Seq::new(n, a));
        lemma_int_sum_push(Seq::new(n, b));
        lemma_int_sum_push(Seq::new(n, c));
    }
}

proof fn lemma_part_sum_new(s: Seq<u16>)
    ensures
        part_sum(s) == int_sum(Seq::new(s.len(), |i: int| s[i] as int)),
    decreases s.len(),
{
    if s.len() > 0 {
        lemma_part_sum_new(s.drop_last());
        let t = Seq::new(s.len(), |i: int| s[i] as int);
        assert(t.drop_last() =~= Seq::new(s.drop_last().len(), |i: int| s.drop_last()[i] as int));
        lemma_int_sum_push(t);
    }
}

/// The entries of a permutation of `0..n` add up to `0 + 1 + ... + (n - 1)`.
proof fn lemma_perm_sum(p: Seq<int>, n: nat)
    requires
        is_perm(p, n),
    ensures
        int_sum(p) == int_sum(Seq::new(n, |i: int| i)),
{
    broadcast use vstd::seq_lib::group_to_multiset_ensures;

    let id = Seq::new(n, |i: int| i);
    let r = set_int_range(0, n as int);
    assert(p.no_duplicates());
    assert(id.no_duplicates());
    p.unique_seq_to_set();
    id.unique_seq_to_set();
    lemma_int_range(0, n as int);
    assert(p.to_set().subset_of(r));
    assert(id.to_set().subset_of(r));
    lemma_subset_equality(p.to_set(), r);
    lemma_subset_equality(id.to_set(), r);
    p.lemma_multiset_has_no_duplicates();
    id.lemma_multiset_has_no_duplicates();
    assert forall|x: int| #[trigger] p.to_multiset().count(x) == id.to_multiset().count(x) by {
        if p.contains(x) {
            assert(p.to_set().contains(x));
            assert(id.to_set().contains(x));
            assert(id.contains(x));
        } else if id.contains(x) {
            assert(id.to_set().contains(x));
            assert(p.to_set().contains(x));
        }
    }
    assert(p.to_multiset() =~= id.to_multiset());
    lemma_fold_left_permutation(p, id, |a: int, x: int| a + x, 0int);
}

/// The indices of a Giambelli term add up to `|mu|`.
proof fn lemma_indices_sum(mu: Seq<u16>, p: Seq<int>, k: nat)
    requires
        mu.len() == k,
        is_perm(p, k),
    ensures
        int_sum(giambelli_indices(mu, p)) == part_sum(mu),
{
    let a = |i: int| mu[i] as int;
    let b = |i: int| p[i];
    let c = |i: int| i;
    lemma_new_sum(k, a, b, c);
    assert(giambelli_indices(mu, p) =~= Seq::new(k, |i: int| a(i) + b(i) - c(i)));
    assert(Seq::new(k, b) =~= p);
    lemma_perm_sum(p, k);
    assert(Seq::new(k, c) =~= Seq::new(k, |i: int| i));
    lemma_part_sum_new(mu);
    assert(Seq::new(k, a) =~= Seq::new(mu.len(), |i: int| mu[i] as int));
}

/// Multiplying by `sigma_r` adds `r` to the degree.
proof fn lemma_special_degree(f: spec_fn(Seq<u16>) -> int, k: nat, w: nat, r: int, d: int)
    requires
        homogeneous(f, d),
    ensures
        homogeneous(special_fn(f, k, w, r), d + r),
{
    if r != 0 && !(r < 0 || r > w) {
        assert forall|nu: Seq<u16>| #[trigger] special_fn(f, k, w, r)(nu) != 0 implies part_sum(nu) == d + r by {
            assert(nu.len() == k && fits_width(nu, w));
            let lo = strip_lo(nu);
            let hi = strip_hi(nu);
            assert forall|t: int| 0 <= t < lo.len() implies 0 <= #[trigger] lo[t] && hi[t] <= u16::MAX by {}
            lemma_u16_embeds(lo, hi);
            let t = |lam: Seq<u16>| if diff_sum(nu, lam, 0) == r { f(lam) } else { 0 };
            if forall|lam: Seq<u16>| in_box(lo, hi, int_of_u16(), lam) ==> #[trigger] t(lam) == 0 {
                lemma_box_sum_ext_in_box(lo, hi, u16_of(), int_of_u16(), t, |lam: Seq<u16>| 0int);
                lemma_box_sum_zero(lo, hi, u16_of(), |lam: Seq<u16>| 0int);
                assert(false);
            }
            let lam = choose|lam: Seq<u16>| in_box(lo, hi, int_of_u16(), lam) && #[trigger] t(lam) != 0;
            assert(lam.len() == k);
            crate::littlewood_richardson::lemma_diff_is_part_sums(k, lam, nu);
        }
    }
}

proof fn lemma_chain_degree(f: spec_fn(Seq<u16>) -> int, k: nat, w: nat, rs: Seq<int>, d: int)
    requires
        homogeneous(f, d),
    ensures
        homogeneous(chain_fn(f, k, w, rs), d + int_sum(rs)),
    decreases rs.len(),
{
    if rs.len() > 0 {
        lemma_chain_degree(f, k, w, rs.drop_last(), d);
        lemma_special_degree(chain_fn(f, k, w, rs.drop_last()), k, w, rs.last(), d + int_sum(rs.drop_last()));
        lemma_int_sum_push(rs);
    }
}

/// Multiplying by `sigma_mu` adds `|mu|` to the degree.
proof fn lemma_giambelli_degree(f: spec_fn(Seq<u16>) -> int, k: nat, w: nat, mu: Seq<u16>, d: int)
    requires
        homogeneous(f, d),
        mu.len() == k,
    ensures
        homogeneous(giambelli_fn(f, k, w, mu), d + part_sum(mu)),
{
    assert forall|nu: Seq<u16>| #[trigger] giambelli_fn(f, k, w, mu)(nu) != 0 implies part_sum(nu) == d + part_sum(
        mu,
    ) by {
        let t = |p: Seq<int>| giambelli_term(f, k, w, mu, p)(nu);
        if forall|p: Seq<int>| #[trigger] t(p) == 0 {
            lemma_box_sum_zero(Seq::new(k, |i: int| 0int), Seq::new(k, |i: int| k - 1), |v: int| v, t);
            assert(false);
        }
        let p = choose|p: Seq<int>| #[trigger] t(p) != 0;
        let rs = giambelli_indices(mu, p);
        assert(is_perm(p, k));
        assert(chain_fn(f, k, w, rs)(nu) != 0) by {
            if chain_fn(f, k, w, rs)(nu) == 0 {
                assert(perm_sign(p) * chain_fn(f, k, w, rs)(nu) == 0);
            }
        }
        lemma_chain_degree(f, k, w, rs, d);
        lemma_indices_sum(mu, p, k);
    }
}

/// The degree of a product is the sum of the degrees.
pub proof fn lemma_product_degree(
    f: spec_fn(Seq<u16>) -> int,
    h: spec_fn(Seq<u16>) -> int,
    k: nat,
    w: nat,
    a: int,
    b: int,
)
    requires
        w <= u16::MAX,
        homogeneous(f, a),
        homogeneous(h, b),
    ensures
        homogeneous(product_fn(f, h, k, w), a + b),
{
    let lo = rect_lo(k);
    let hi = rect_hi(k, w);
    assert forall|t: int| 0 <= t < lo.len() implies 0 <= #[trigger] lo[t] && hi[t] <= u16::MAX by {}
    lemma_u16_embeds(lo, hi);
    assert forall|nu: Seq<u16>| #[trigger] product_fn(f, h, k, w)(nu) != 0 implies part_sum(nu) == a + b by {
        let t = |mu: Seq<u16>| h(mu) * giambelli_fn(f, k, w, mu)(nu);
        if forall|mu: Seq<u16>| in_box(lo, hi, int_of_u16(), mu) ==> #[trigger] t(mu) == 0 {
            lemma_box_sum_ext_in_box(lo, hi, u16_of(), int_of_u16(), t, |mu: Seq<u16>| 0int);
            lemma_box_sum_zero(lo, hi, u16_of(), |mu: Seq<u16>| 0int);
            assert(false);
        }
        let mu = choose|mu: Seq<u16>| in_box(lo, hi, int_of_u16(), mu) && #[trigger] t(mu) != 0;
        assert(h(mu) != 0 && giambelli_fn(f, k, w, mu)(nu) != 0) by {
            let x = h(mu);
            let y = giambelli_fn(f, k, w, mu)(nu);
            if x == 0 || y == 0 {
                assert(x * y == 0) by (nonlinear_arith)
                    requires
                        x == 0 || y == 0,
                ;
            }
        }
        lemma_giambelli_degree(f, k, w, mu, a);
    }
}

proof fn lemma_binary_power_degree(
    acc: spec_fn(Seq<u16>) -> int,
    base: spec_fn(Seq<u16>) -> int,
    e: nat,
    k: nat,
    w: nat,
    a: int,
    b: int,
)
    requires
        w <= u16::MAX,
        homogeneous(acc, a),
        homogeneous(base, b),
    ensures
        homogeneous(binary_power(acc, base, e, k, w), a + e * b),
    decreases e,
{
    if e > 0 {
        let odd = e % 2 == 1;
        let acc2 = if odd { product_fn(acc, base, k, w) } else { acc };
        let a2 = if odd { a + b } else { a };
        lemma_product_degree(acc, base, k, w, a, b);
        assert(homogeneous(acc2, a2));
        if e / 2 > 0 {
            lemma_product_degree(base, base, k, w, b, b);
            lemma_binary_power_degree(acc2, product_fn(base, base, k, w), e / 2, k, w, a2, b + b);
            assert(a2 + (e / 2) * (b + b) == a + e * b) by (nonlinear_arith)
                requires
                    a2 == if e % 2 == 1 { a + b } else { a },
                    e == 2 * (e / 2) + e % 2,
                    0 <= e % 2 < 2,
            ;
        } else {
            assert(e == 1);
            assert(e * b == b) by (nonlinear_arith)
                requires
                    e == 1,
            ;
        }
    } else {
        assert(e * b == 0) by (nonlinear_arith)
            requires
                e == 0,
        ;
    }
}

/// The degree of `f^e` is `e` times the degree of `f`.
pub proof fn lemma_pow_degree(f: spec_fn(Seq<u16>) -> int, e: nat, k: nat, w: nat, d: int)
    requires
        w <= u16::MAX,
        homogeneous(f, d),
    ensures
        homogeneous(pow_fn(f, e, k, w), e * d),
{
    crate::littlewood_richardson::lemma_zero_parts_sum(k);
    assert(homogeneous(class_fn(zero_parts(k)), 0));
    lemma_binary_power_degree(class_fn(zero_parts(k)), f, e, k, w, 0, d);
}

} // verus!
