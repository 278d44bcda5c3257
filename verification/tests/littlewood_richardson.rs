use schubert_core::littlewood_richardson::{multiply_expr_by_class, multiply_partitions};
use schubert_core::{Grassmannian, Integer, Partition, SchubertError, SchubertExpr};

fn gr(k: usize, n: usize) -> Grassmannian {
    Grassmannian::new(k, n).unwrap()
}

fn part(g: &Grassmannian, parts: &[u16]) -> Partition {
    Partition::new(parts.to_vec(), g).unwrap()
}

fn coefficient_of(terms: &[(Partition, Integer)], p: &Partition) -> Integer {
    for (q, c) in terms {
        if q == p {
            return c.clone();
        }
    }
    Integer::zero()
}

#[test]
fn lr_coefficients_of_sigma21_squared_in_gr_3_7() {
    let g = gr(3, 7);
    let lam = part(&g, &[2, 1]);
    let terms = multiply_partitions(&g, &lam, &lam);
    assert_eq!(terms.len(), 5);
    let expected: [(&[u16], i64); 5] = [(&[4, 2], 1), (&[4, 1, 1], 1), (&[3, 3], 1), (&[3, 2, 1], 2), (&[2, 2, 2], 1)];
    for (parts, c) in expected {
        assert_eq!(coefficient_of(&terms, &part(&g, parts)), Integer::from_i64(c));
    }
    for (i, (parts, _)) in expected.iter().enumerate() {
        assert_eq!(terms[i].0, part(&g, parts));
    }
    for i in 0..terms.len() {
        for j in (i + 1)..terms.len() {
            assert!(terms[i].0 != terms[j].0);
        }
    }
    let small = gr(3, 6);
    let lam = part(&small, &[2, 1]);
    let terms = multiply_partitions(&small, &lam, &lam);
    assert_eq!(terms.len(), 3);
    assert_eq!(coefficient_of(&terms, &part(&small, &[3, 3])), Integer::one());
    assert_eq!(coefficient_of(&terms, &part(&small, &[3, 2, 1])), Integer::from_i64(2));
    assert_eq!(coefficient_of(&terms, &part(&small, &[2, 2, 2])), Integer::one());
}

#[test]
fn lr_coefficients_vanish_outside_the_rectangle() {
    let g = gr(2, 4);
    let two = part(&g, &[2]);
    let one_one = part(&g, &[1, 1]);
    assert!(multiply_partitions(&g, &two, &one_one).is_empty());
    let top = multiply_partitions(&g, &two, &two);
    assert_eq!(top.len(), 1);
    assert_eq!(top[0].0.parts(), &[2, 2]);
    assert_eq!(top[0].1, Integer::one());
    let full = multiply_partitions(&g, &part(&g, &[2, 2]), &part(&g, &[1]));
    assert!(full.is_empty());
}

#[test]
fn lr_product_matches_giambelli_product() {
    let g = gr(3, 6);
    let a = g.class(vec![2, 1]).unwrap().checked_add(&g.class(vec![1]).unwrap().scalar_mul(&Integer::from_i64(-3))).unwrap();
    for mu in [vec![], vec![1], vec![2, 1], vec![1, 1, 1], vec![3, 2], vec![2, 2, 1]] {
        let m = part(&g, &mu);
        let lr = multiply_expr_by_class(&a, &m).unwrap();
        let giambelli = a.mul_class(&m).unwrap();
        assert_eq!(lr, giambelli);
    }
}

#[test]
fn lr_square_of_hyperplane_class_in_gr_2_4() {
    let g = gr(2, 4);
    let h = g.class(vec![1]).unwrap();
    let sq = multiply_expr_by_class(&h, &part(&g, &[1])).unwrap();
    assert_eq!(sq.term_count(), 2);
    assert_eq!(sq.coefficient(&part(&g, &[2])), Integer::one());
    assert_eq!(sq.coefficient(&part(&g, &[1, 1])), Integer::one());
}

#[test]
fn lr_product_by_unit_and_of_zero() {
    let g = gr(2, 5);
    let e = g.class(vec![2, 1]).unwrap().scalar_mul(&Integer::from_i64(7));
    assert_eq!(multiply_expr_by_class(&e, &part(&g, &[])).unwrap(), e);
    let zero = SchubertExpr::zero(&g);
    assert!(multiply_expr_by_class(&zero, &part(&g, &[2])).unwrap().is_zero());
}

#[test]
fn lr_product_by_one_row_class_is_pieri() {
    let g = gr(3, 7);
    let e = g
        .class(vec![3, 1])
        .unwrap()
        .checked_add(&g.class(vec![2, 2, 1]).unwrap().scalar_mul(&Integer::from_i64(-2)))
        .unwrap();
    for r in 0..=4u16 {
        let row = if r == 0 { vec![] } else { vec![r] };
        let lr = multiply_expr_by_class(&e, &part(&g, &row)).unwrap();
        assert_eq!(lr, e.multiply_by_special(r as isize).unwrap());
    }
}

#[test]
fn lr_coefficients_are_positive() {
    let g = gr(3, 8);
    let shapes: [&[u16]; 5] = [&[], &[1], &[2, 1], &[3, 2, 1], &[2, 2]];
    for a in shapes {
        for b in shapes {
            for (_, c) in multiply_partitions(&g, &part(&g, a), &part(&g, b)) {
                assert!(!c.is_zero());
                assert!(!c.is_negative());
            }
        }
    }
}

#[test]
fn lr_unit_class_on_the_left() {
    let g = gr(3, 7);
    let one = SchubertExpr::one(&g);
    for mu in [vec![], vec![1], vec![4, 2], vec![3, 3, 1], vec![4, 4, 4]] {
        let m = part(&g, &mu);
        assert_eq!(multiply_expr_by_class(&one, &m).unwrap(), g.class(mu.clone()).unwrap());
    }
}

#[test]
fn lr_product_revalidates_partitions() {
    let g = Grassmannian::new(2, 4).unwrap();
    let h = Grassmannian::new(3, 6).unwrap();
    let bad_mu = Partition::new(vec![1], &h).unwrap();
    let e = g.class(vec![1]).unwrap();
    assert_eq!(
        multiply_expr_by_class(&e, &bad_mu),
        Err(SchubertError::PartitionWrongLength { len: 3, k: 2, n: 4 })
    );
    let foreign = SchubertExpr::from_class(&g, Partition::new(vec![1], &h).unwrap());
    let one = Partition::new(vec![], &g).unwrap();
    assert_eq!(
        multiply_expr_by_class(&foreign, &one),
        Err(SchubertError::PartitionWrongLength { len: 3, k: 2, n: 4 })
    );
}
