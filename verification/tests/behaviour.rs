use schubert_core::{Grassmannian, Integer, Partition, SchubertError, SchubertExpr};

fn gr(k: usize, n: usize) -> Grassmannian {
    Grassmannian::new(k, n).unwrap()
}

fn part(g: &Grassmannian, parts: &[u16]) -> Partition {
    Partition::new(parts.to_vec(), g).unwrap()
}

#[test]
fn grassmannian_errors_name_the_inputs() {
    assert_eq!(Grassmannian::new(0, 4), Err(SchubertError::InvalidGrassmannian { k: 0, n: 4 }));
    assert_eq!(Grassmannian::new(5, 4), Err(SchubertError::InvalidGrassmannian { k: 5, n: 4 }));
    assert_eq!(Grassmannian::new(1, 70000), Err(SchubertError::WidthTooLarge { width: 69999 }));
    assert!(Grassmannian::new(1, 65536).is_ok());
    let g = gr(3, 3);
    assert_eq!(g.width(), 0);
    assert_eq!(g.dimension(), 0);
    assert_eq!(g.top_partition().unwrap().parts(), &[0, 0, 0]);
}

#[test]
fn partition_errors_name_the_first_offence() {
    let g = gr(3, 6);
    assert_eq!(
        Partition::new(vec![1, 1, 1, 1], &g),
        Err(SchubertError::PartitionTooLong { len: 4, k: 3, n: 6 })
    );
    assert_eq!(
        Partition::new(vec![3, 1, 2], &g),
        Err(SchubertError::PartitionNotWeaklyDecreasing { index: 1, left: 1, right: 2 })
    );
    assert_eq!(
        Partition::new(vec![5, 4], &g),
        Err(SchubertError::PartitionPartTooLarge { part: 5, width: 3, k: 3, n: 6 })
    );
    let p = part(&g, &[3, 3, 3]);
    assert!(p.is_top(&g));
    assert!(!p.is_empty());
    assert!(part(&g, &[]).is_empty());
    assert_eq!(p.size(), 9);
}

#[test]
fn partition_text_drops_trailing_zeroes() {
    let g = gr(3, 20);
    assert_eq!(part(&g, &[12, 3]).to_string(), "(12,3)");
    assert_eq!(part(&g, &[]).to_string(), "()");
    assert_eq!(part(&gr(3, 7), &[3, 1]).to_string(), "(3,1)");
    let wide = gr(2, 65535);
    assert_eq!(part(&wide, &[65533, 10907]).to_string(), "(65533,10907)");
    assert_eq!(part(&wide, &[100, 9]).to_string(), "(100,9)");
}

#[test]
fn expression_text_matches_the_schubert_basis() {
    let g = gr(2, 4);
    let h = g.class(vec![1]).unwrap();
    assert_eq!(h.pow(2).unwrap().to_string(), "sigma_(1,1) + sigma_(2)");
    assert_eq!(SchubertExpr::zero(&g).to_string(), "0");
    let three = SchubertExpr::one(&g).scalar_mul(&Integer::from_i64(3));
    let e = three.checked_sub(&h).unwrap();
    assert_eq!(e.to_string(), "3 - sigma_(1)");
    let f = g.class(vec![2]).unwrap().scalar_mul(&Integer::from_i64(-2));
    assert_eq!(f.to_string(), "-2*sigma_(2)");
    assert_eq!(h.checked_add(&f).unwrap().to_string(), "sigma_(1) - 2*sigma_(2)");
}

#[test]
fn incompatible_grassmannians_are_refused() {
    let a = gr(2, 4).class(vec![1]).unwrap();
    let b = gr(1, 4).class(vec![1]).unwrap();
    let expected = SchubertError::IncompatibleGrassmannian { left_k: 2, left_n: 4, right_k: 1, right_n: 4 };
    assert_eq!(a.checked_add(&b), Err(expected));
    assert_eq!(a.checked_sub(&b), Err(expected));
    assert_eq!(a.product(&b), Err(expected));
    assert_eq!(a.integral(&gr(1, 4)), Err(expected));
}

#[test]
fn foreign_partitions_are_revalidated() {
    let g = gr(2, 4);
    let other = gr(3, 6);
    let foreign = part(&other, &[1]);
    let a = g.class(vec![1]).unwrap();
    let wrong = SchubertError::PartitionWrongLength { len: 3, k: 2, n: 4 };
    assert_eq!(a.mul_class(&foreign), Err(wrong));
    let bad = SchubertExpr::from_class(&g, foreign);
    assert_eq!(bad.multiply_by_special(1), Err(wrong));
    assert_eq!(bad.multiply_by_special(0).unwrap(), bad);
    assert!(bad.multiply_by_special(3).unwrap().is_zero());
    assert_eq!(bad.pow(2), Err(wrong));
    assert_eq!(bad.pow(0).unwrap(), SchubertExpr::one(&g));
    assert_eq!(a.product(&bad), Err(wrong));
    assert_eq!(bad.mul_class(&part(&g, &[])), Err(wrong));
    assert_eq!(bad.product(&SchubertExpr::one(&g)), Err(wrong));
    assert_eq!(bad.mul(&SchubertExpr::one(&g)), Err(wrong));
    assert_eq!(bad.pow(1), Err(wrong));
}

#[test]
fn grassmannians_are_ordered_by_k_then_n() {
    assert!(gr(2, 4) < gr(2, 5));
    assert!(gr(2, 5) < gr(3, 4));
    assert_eq!(gr(2, 4).cmp(&gr(2, 4)), std::cmp::Ordering::Equal);
}

#[test]
fn addition_laws_on_examples() {
    let g = gr(2, 5);
    let a = g.class(vec![2, 1]).unwrap().checked_add(&g.class(vec![1]).unwrap()).unwrap();
    let b = g.class(vec![3]).unwrap().scalar_mul(&Integer::from_i64(-4));
    assert_eq!(a.checked_add(&b).unwrap(), b.checked_add(&a).unwrap());
    assert_eq!(a.checked_add(&b).unwrap().checked_sub(&b).unwrap(), a);
    assert!(a.checked_sub(&a).unwrap().is_zero());
    assert_eq!(a.checked_add(&SchubertExpr::zero(&g)).unwrap(), a);
    assert_eq!(a.scalar_mul(&Integer::one()), a);
    assert!(a.scalar_mul(&Integer::zero()).is_zero());
    let doubled = a.checked_add(&a).unwrap();
    assert_eq!(doubled, a.scalar_mul(&Integer::from_i64(2)));
    assert_eq!(doubled.coefficient(&part(&g, &[1])), Integer::from_i64(2));
    assert_eq!(a.term_count(), 2);
}

#[test]
fn product_laws_on_examples() {
    let g = gr(2, 5);
    let x = g.class(vec![2, 1]).unwrap().checked_add(&g.class(vec![1]).unwrap()).unwrap();
    let one = SchubertExpr::one(&g);
    assert!(one.is_one());
    assert!(!x.is_one());
    assert_eq!(x.product(&one).unwrap(), x);
    for r in 0..=3u16 {
        let row = g.class(vec![r]).unwrap();
        assert_eq!(x.product(&row).unwrap(), x.multiply_by_special(r as isize).unwrap());
    }
    let zero = SchubertExpr::zero(&g);
    assert!(x.product(&zero).unwrap().is_zero());
    assert!(zero.product(&x).unwrap().is_zero());
    let y = g.class(vec![1, 1]).unwrap();
    let z = g.class(vec![2]).unwrap().scalar_mul(&Integer::from_i64(3));
    let left = x.product(&y.checked_add(&z).unwrap()).unwrap();
    let right = x.product(&y).unwrap().checked_add(&x.product(&z).unwrap()).unwrap();
    assert_eq!(left, right);
    let left2 = x.checked_add(&y).unwrap().product(&z).unwrap();
    let right2 = x.product(&z).unwrap().checked_add(&y.product(&z).unwrap()).unwrap();
    assert_eq!(left2, right2);
}

#[test]
fn pieri_rule_on_a_class() {
    let g = gr(3, 6);
    let lam = g.class(vec![2, 1]).unwrap();
    let out = lam.multiply_by_special(2).unwrap();
    // horizontal 2-strips over (2,1) inside the 3 x 3 box
    let expected = [[3, 2, 0], [3, 1, 1], [2, 2, 1]];
    assert_eq!(out.term_count(), expected.len());
    for parts in expected.iter() {
        assert_eq!(out.coefficient(&part(&g, parts)), Integer::one());
    }
    assert_eq!(out.coefficient(&part(&g, &[2, 2, 0])), Integer::zero());
}

#[test]
fn integral_reads_the_point_class() {
    let g = gr(2, 4);
    assert_eq!(g.class(vec![2, 2]).unwrap().integral(&g).unwrap(), Integer::one());
    assert_eq!(g.class(vec![2, 1]).unwrap().integral(&g).unwrap(), Integer::zero());
    assert_eq!(SchubertExpr::one(&g).pow(3).unwrap(), SchubertExpr::one(&g));
}

#[test]
fn integer_arithmetic_goes_beyond_machine_words() {
    let g = gr(1, 3);
    let big = Integer::from_i64(i64::MAX);
    let x = SchubertExpr::one(&g).scalar_mul(&big).scalar_mul(&big);
    let c = x.coefficient(&part(&g, &[]));
    let expected = (i64::MAX as i128) * (i64::MAX as i128);
    assert_eq!(c.to_string(), expected.to_string());
    assert_eq!(c, Integer::from_signed_bytes_le(expected.to_le_bytes().to_vec()));
    let minus = Integer::from_i64(-123);
    assert!(minus.is_negative());
    assert!(!Integer::from_i64(0).is_negative());
    assert!(Integer::from_i64(0).is_zero());
    assert!(!minus.is_zero());
    assert_eq!(minus.to_string(), "-123");
    assert_eq!(Integer::minus_one(), Integer::from_i64(-1));
    assert_eq!(Integer::from_signed_bytes_le(minus.to_signed_bytes_le()), minus);
    assert_ne!(minus, Integer::from_i64(123));
}

#[test]
fn documented_examples_hold() {
    let g = gr(3, 7);
    let lambda = Partition::new(vec![3, 1], &g).unwrap();
    assert_eq!(lambda.parts(), &[3, 1, 0]);
    assert_eq!(lambda.size(), 4);
    assert_eq!(lambda.to_string(), "(3,1)");
    let g = gr(2, 4);
    let h = g.class(vec![1]).unwrap();
    assert_eq!(h.pow(2).unwrap().to_string(), "sigma_(1,1) + sigma_(2)");
    assert_eq!(h.pow(4).unwrap().integral(&g).unwrap(), Integer::from_i64(2));
}

#[test]
fn projective_space_products_add_codimensions() {
    let g = gr(1, 5);
    let point = part(&g, &[4]);
    for a in 0..=4u16 {
        let sa = g.class(vec![a]).unwrap();
        for b in 0..=4u16 {
            let sb = g.class(vec![b]).unwrap();
            let ab = sa.product(&sb).unwrap();
            assert_eq!(ab, sb.product(&sa).unwrap());
            if a + b <= 4 {
                assert_eq!(ab, g.class(vec![a + b]).unwrap());
            } else {
                assert!(ab.is_zero());
            }
            let expected = if a + b == 4 { Integer::one() } else { Integer::zero() };
            assert_eq!(ab.coefficient(&point), expected);
            for c in 0..=4u16 {
                let sc = g.class(vec![c]).unwrap();
                assert_eq!(ab.product(&sc).unwrap(), sa.product(&sb.product(&sc).unwrap()).unwrap());
            }
        }
    }
}

#[test]
fn special_multiplications_commute() {
    let g = gr(3, 7);
    let e = g
        .class(vec![2, 1])
        .unwrap()
        .checked_sub(&g.class(vec![3, 3, 1]).unwrap().scalar_mul(&Integer::from_i64(5)))
        .unwrap();
    for a in -1..=5isize {
        for b in -1..=5isize {
            let ab = e.multiply_by_special(a).unwrap().multiply_by_special(b).unwrap();
            let ba = e.multiply_by_special(b).unwrap().multiply_by_special(a).unwrap();
            assert_eq!(ab, ba);
        }
    }
    for a in 0..=4u16 {
        for b in 0..=4u16 {
            let sa = g.class(if a == 0 { vec![] } else { vec![a] }).unwrap();
            let sb = g.class(if b == 0 { vec![] } else { vec![b] }).unwrap();
            assert_eq!(sa.product(&sb).unwrap(), sb.product(&sa).unwrap());
        }
    }
}

fn planes_basis(g: &Grassmannian) -> Vec<SchubertExpr> {
    let w = g.width() as u16;
    let mut out = Vec::new();
    for a in 0..=w {
        for b in 0..=a {
            out.push(SchubertExpr::from_class(g, part(g, &[a, b])));
        }
    }
    out
}

#[test]
fn plane_products_commute_on_mixed_expressions() {
    let g = gr(2, 5);
    let f = g
        .class(vec![2, 1])
        .unwrap()
        .checked_add(&g.class(vec![1]).unwrap().scalar_mul(&Integer::from_i64(-3)))
        .unwrap();
    let h = g
        .class(vec![3])
        .unwrap()
        .checked_add(&g.class(vec![1, 1]).unwrap().scalar_mul(&Integer::from_i64(2)))
        .unwrap()
        .checked_add(&SchubertExpr::one(&g))
        .unwrap();
    assert_eq!(f.mul(&h).unwrap(), h.mul(&f).unwrap());
    assert_eq!(SchubertExpr::one(&g).mul(&f).unwrap(), f);
    assert_eq!(h.pow(1).unwrap(), h);
}

#[test]
fn plane_products_are_nonnegative_and_dual_in_gr_2_5() {
    let g = gr(2, 5);
    let basis = planes_basis(&g);
    assert_eq!(basis.len(), 10);
    for a in &basis {
        for b in &basis {
            let ab = a.mul(b).unwrap();
            assert_eq!(ab, b.mul(a).unwrap());
            assert!(ab.terms().iter().all(|(_, c)| !c.is_negative()));
            let la = a.terms()[0].0.parts().to_vec();
            let lb = b.terms()[0].0.parts().to_vec();
            let dual = la[0] + lb[1] == 3 && la[1] + lb[0] == 3;
            let expected = if dual { Integer::from_i64(1) } else { Integer::from_i64(0) };
            assert_eq!(ab.integral(&g).unwrap(), expected);
        }
    }
}

#[test]
fn plane_products_associate_on_mixed_expressions() {
    let g = gr(2, 5);
    let f = g
        .class(vec![1])
        .unwrap()
        .checked_add(&g.class(vec![2]).unwrap().scalar_mul(&Integer::from_i64(-1)))
        .unwrap();
    let h = g
        .class(vec![1, 1])
        .unwrap()
        .scalar_mul(&Integer::from_i64(2))
        .checked_add(&g.class(vec![3, 1]).unwrap())
        .unwrap();
    let k = g.class(vec![2, 2]).unwrap().checked_add(&g.class(vec![1]).unwrap()).unwrap();
    let left = f.mul(&h).unwrap().mul(&k).unwrap();
    let right = f.mul(&h.mul(&k).unwrap()).unwrap();
    assert_eq!(left, right);
    assert_eq!(f.mul(&h).unwrap().mul(&k).unwrap(), f.mul(&k).unwrap().mul(&h).unwrap());
}

#[test]
fn right_products_commute_in_gr_3_6() {
    let g = gr(3, 6);
    let f = g.class(vec![2, 1]).unwrap();
    let y = g.class(vec![1, 1]).unwrap().checked_add(&g.class(vec![2]).unwrap()).unwrap();
    let z = g.class(vec![2, 2, 1]).unwrap();
    assert_eq!(f.mul(&y).unwrap().mul(&z).unwrap(), f.mul(&z).unwrap().mul(&y).unwrap());
}

#[test]
fn plane_powers_add_exponents() {
    let g = gr(2, 5);
    let f = g
        .class(vec![1])
        .unwrap()
        .checked_add(&g.class(vec![1, 1]).unwrap().scalar_mul(&Integer::from_i64(2)))
        .unwrap();
    assert_eq!(f.pow(0).unwrap(), SchubertExpr::one(&g));
    for a in 0..4u32 {
        for b in 0..4u32 {
            let lhs = f.pow(a + b).unwrap();
            let rhs = f.pow(a).unwrap().product(&f.pow(b).unwrap()).unwrap();
            assert_eq!(lhs, rhs);
        }
    }
    assert_eq!(f.pow(3).unwrap(), f.mul(&f).unwrap().mul(&f).unwrap());
}

#[test]
fn integer_signs_read_from_bytes() {
    assert!(Integer::from_signed_bytes_le(vec![]).is_zero());
    assert!(Integer::from_signed_bytes_le(vec![0, 0, 0]).is_zero());
    assert!(!Integer::from_signed_bytes_le(vec![0, 1]).is_zero());
    assert!(Integer::from_signed_bytes_le(vec![0, 0x80]).is_negative());
    assert!(!Integer::from_signed_bytes_le(vec![0xff, 0x7f]).is_negative());
    assert_eq!(Integer::from_signed_bytes_le(vec![1, 0, 0]), Integer::one());
    assert_eq!(Integer::from_signed_bytes_le(vec![0xff]), Integer::minus_one());
    let big = Integer::from_signed_bytes_le(vec![0, 0, 0, 0, 0, 0, 0, 0, 1]);
    assert_eq!(big.to_string(), "18446744073709551616");
    assert!(!big.is_negative() && !big.is_zero());
}

#[test]
fn projective_expressions_form_a_commutative_ring() {
    let g = gr(1, 6);
    let f = g
        .class(vec![1])
        .unwrap()
        .checked_add(&g.class(vec![2]).unwrap().scalar_mul(&Integer::from_i64(-3)))
        .unwrap();
    let h = SchubertExpr::one(&g).checked_add(&g.class(vec![3]).unwrap()).unwrap();
    let k = g.class(vec![2]).unwrap().scalar_mul(&Integer::from_i64(4));
    assert_eq!(f.mul(&h).unwrap(), h.mul(&f).unwrap());
    assert_eq!(f.mul(&h).unwrap().mul(&k).unwrap(), f.mul(&h.mul(&k).unwrap()).unwrap());
    assert_eq!(SchubertExpr::one(&g).mul(&f).unwrap(), f);
    for a in 0..3u32 {
        for b in 0..3u32 {
            assert_eq!(f.pow(a + b).unwrap(), f.pow(a).unwrap().product(&f.pow(b).unwrap()).unwrap());
        }
    }
}
