//! Powers in the Grassmannians with one or two rows: binary powering computes the repeated
//! product, and exponents add.
use vstd::prelude::*;

use crate::associativity::{lemma_product_on_partitions, on_partitions};
use crate::expr::{binary_power, class_fn, pow_fn, product_fn};
use crate::laws::law_product_right_unit;
use crate::small::{lemma_associative_small, lemma_commutative_small, lemma_left_unit_small};
use crate::partition::{valid_parts, zero_parts};

verus! {

/// `f^e` as the repeated product `(..((1 * f) * f) ..) * f`.
pub open spec fn repeated_power(f: spec_fn(Seq<u16>) -> int, e: nat, k: nat, w: nat) -> spec_fn(Seq<u16>) -> int
    decreases e,
{
    if e == 0 {
        class_fn(zero_parts(k))
    } else {
        product_fn(repeated_power(f, (e - 1) as nat, k, w), f, k, w)
    }
}

proof fn lemma_unit_on_partitions(k: nat, w: nat)
    ensures
        on_partitions(class_fn(zero_parts(k)), k, w),
{
    assert(valid_parts(zero_parts(k), k, w));
}

proof fn lemma_power_on_partitions(f: spec_fn(Seq<u16>) -> int, e: nat, k: nat, w: nat)
    requires
        1 <= k <= 2,
        w <= u16::MAX,
    ensures
        on_partitions(repeated_power(f, e, k, w), k, w),
    decreases e,
{
    if e == 0 {
        lemma_unit_on_partitions(k, w);
    } else {
        lemma_power_on_partitions(f, (e - 1) as nat, k, w);
        lemma_product_on_partitions(repeated_power(f, (e - 1) as nat, k, w), f, k, w);
    }
}

/// `f^(a + b) == f^a * f^b` for repeated products with one or two rows.
proof fn lemma_power_add(f: spec_fn(Seq<u16>) -> int, a: nat, b: nat, k: nat, w: nat)
    requires
        1 <= k <= 2,
        w <= u16::MAX,
        on_partitions(f, k, w),
    ensures
        repeated_power(f, a + b, k, w) == product_fn(repeated_power(f, a, k, w), repeated_power(f, b, k, w), k, w),
    decreases b,
{
    if b == 0 {
        law_product_right_unit(repeated_power(f, a, k, w), k, w);
    } else {
        let b1 = (b - 1) as nat;
        lemma_power_add(f, a, b1, k, w);
        assert((a + b1) as nat == (a + b - 1) as nat);
        lemma_power_on_partitions(f, a, k, w);
        lemma_power_on_partitions(f, b1, k, w);
        lemma_associative_small(k, w, repeated_power(f, a, k, w), repeated_power(f, b1, k, w), f);
    }
}

/// `(f * f)^m == f^(2m)`.
proof fn lemma_power_square(f: spec_fn(Seq<u16>) -> int, m: nat, k: nat, w: nat)
    requires
        1 <= k <= 2,
        w <= u16::MAX,
        on_partitions(f, k, w),
    ensures
        repeated_power(product_fn(f, f, k, w), m, k, w) == repeated_power(f, 2 * m, k, w),
    decreases m,
{
    if m > 0 {
        let m1 = (m - 1) as nat;
        lemma_power_square(f, m1, k, w);
        let p = repeated_power(f, 2 * m1, k, w);
        lemma_power_on_partitions(f, 2 * m1, k, w);
        lemma_associative_small(k, w, p, f, f);
        let e1 = (2 * m - 1) as nat;
        assert(e1 == 2 * m1 + 1);
        assert((e1 - 1) as nat == 2 * m1);
        assert(repeated_power(f, e1, k, w) == product_fn(p, f, k, w));
        assert(repeated_power(f, 2 * m, k, w) == product_fn(repeated_power(f, e1, k, w), f, k, w));
        assert(repeated_power(product_fn(f, f, k, w), m, k, w) == product_fn(
            repeated_power(product_fn(f, f, k, w), m1, k, w),
            product_fn(f, f, k, w),
            k,
            w,
        ));
    }
}

/// Binary powering from `acc` computes `acc * base^e`.
proof fn lemma_binary_power(acc: spec_fn(Seq<u16>) -> int, base: spec_fn(Seq<u16>) -> int, e: nat, k: nat, w: nat)
    requires
        1 <= k <= 2,
        w <= u16::MAX,
        on_partitions(acc, k, w),
        on_partitions(base, k, w),
    ensures
        binary_power(acc, base, e, k, w) == product_fn(acc, repeated_power(base, e, k, w), k, w),
    decreases e,
{
    if e == 0 {
        law_product_right_unit(acc, k, w);
    } else {
        let m = e / 2;
        let odd = e % 2 == 1;
        let acc2 = if odd { product_fn(acc, base, k, w) } else { acc };
        lemma_product_on_partitions(acc, base, k, w);
        assert(on_partitions(acc2, k, w));
        let pm = repeated_power(base, 2 * m, k, w);
        lemma_power_on_partitions(base, 2 * m, k, w);
        if m > 0 {
            let sq = product_fn(base, base, k, w);
            lemma_product_on_partitions(base, base, k, w);
            lemma_binary_power(acc2, sq, m, k, w);
            lemma_power_square(base, m, k, w);
        } else {
            law_product_right_unit(acc2, k, w);
            assert(pm == class_fn(zero_parts(k)));
        }
        if odd {
            lemma_associative_small(k, w, acc, base, pm);
            lemma_commutative_small(k, w, base, pm);
            assert(e == 2 * m + 1);
            assert(((2 * m + 1) as nat - 1) as nat == 2 * m);
            assert(repeated_power(base, e, k, w) == product_fn(pm, base, k, w));
        } else {
            assert(e == 2 * m);
        }
    }
}

/// With one or two rows, binary powering computes the repeated product: `f^e == f * f * ... * f`.
pub proof fn lemma_pow_repeated(f: spec_fn(Seq<u16>) -> int, e: nat, k: nat, w: nat)
    requires
        1 <= k <= 2,
        w <= u16::MAX,
        on_partitions(f, k, w),
    ensures
        pow_fn(f, e, k, w) == repeated_power(f, e, k, w),
{
    lemma_unit_on_partitions(k, w);
    lemma_binary_power(class_fn(zero_parts(k)), f, e, k, w);
    lemma_power_on_partitions(f, e, k, w);
    lemma_left_unit_small(k, w, repeated_power(f, e, k, w));
}

/// With one or two rows, powers add: `f^(a + b) == f^a * f^b`.
pub proof fn lemma_pow_add(f: spec_fn(Seq<u16>) -> int, a: nat, b: nat, k: nat, w: nat)
    requires
        1 <= k <= 2,
        w <= u16::MAX,
        on_partitions(f, k, w),
    ensures
        pow_fn(f, a + b, k, w) == product_fn(pow_fn(f, a, k, w), pow_fn(f, b, k, w), k, w),
{
    lemma_pow_repeated(f, a + b, k, w);
    lemma_pow_repeated(f, a, k, w);
    lemma_pow_repeated(f, b, k, w);
    lemma_power_add(f, a, b, k, w);
}

} // verus!
