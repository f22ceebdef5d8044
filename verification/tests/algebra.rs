use selection_vector::{SelectionError, SelectionVector};

/// A dense-backed selection over `n` rows whose selected indices are `ix`.
fn dense(ix: &[usize], n: usize) -> SelectionVector {
    let mut bools = vec![false; n];
    for &i in ix {
        bools[i] = true;
    }
    SelectionVector::from_bools(&bools)
}

/// A sparse-backed selection over `n` rows whose selected indices are `ix`.
fn sparse(ix: &[usize], n: usize) -> SelectionVector {
    SelectionVector::from_indices(ix.to_vec(), n)
}

#[test]
fn representation_equivalence_iteration() {
    let ix: &[usize] = &[0, 2, 3, 7, 63, 64, 65, 200];
    let a = dense(ix, 256);
    let b = sparse(ix, 256);
    assert_eq!(a.iter(), ix.to_vec());
    assert_eq!(b.iter(), ix.to_vec());
    assert_eq!(a.selected_count(), b.selected_count());
    assert_eq!(a.all_selected(), b.all_selected());
    assert_eq!(a.all_not_selected(), b.all_not_selected());
}

#[test]
fn scenario_universe_eight() {
    let a_ix: &[usize] = &[1, 3, 5, 7];
    let b_ix: &[usize] = &[0, 1, 2, 3];
    let builders: [fn(&[usize], usize) -> SelectionVector; 2] = [dense, sparse];
    for build_a in builders {
        for build_b in builders {
            let a = build_a(a_ix, 8);
            let b = build_b(b_ix, 8);
            let i = a.intersect(&b).unwrap();
            assert_eq!(i.iter(), vec![1, 3]);
            assert_eq!(i.selected_count(), 2);
            let u = a.union(&b).unwrap();
            assert_eq!(u.iter(), vec![0, 1, 2, 3, 5, 7]);
            assert_eq!(u.selected_count(), 6);
        }
    }
}

#[test]
fn intersect_identity_and_absorption() {
    let x = dense(&[2, 3, 9], 12);
    let full = SelectionVector::select_all(12);
    let empty = SelectionVector::select_none(12);
    let with_full = full.intersect(&x).unwrap();
    assert_eq!(with_full.iter(), vec![2, 3, 9]);
    let with_empty = empty.intersect(&x).unwrap();
    assert_eq!(with_empty.iter(), Vec::<usize>::new());
    assert!(with_empty.all_not_selected());
}

#[test]
fn union_identity_and_absorption() {
    let x = sparse(&[2, 3, 9], 12);
    let full = SelectionVector::select_all(12);
    let empty = SelectionVector::select_none(12);
    let with_empty = empty.union(&x).unwrap();
    assert_eq!(with_empty.iter(), vec![2, 3, 9]);
    let with_full = full.union(&x).unwrap();
    assert!(with_full.all_selected());
    assert_eq!(with_full.selected_count(), 12);
}

#[test]
fn intersect_commutative_associative() {
    let a = dense(&[1, 3, 5, 7, 9], 16);
    let b = sparse(&[0, 1, 2, 3, 9, 15], 16);
    let c = dense(&[1, 9, 15], 16);
    let ab = a.intersect(&b).unwrap();
    let ba = b.intersect(&a).unwrap();
    assert_eq!(ab.iter(), ba.iter());
    let ab_c = ab.intersect(&c).unwrap();
    let bc = b.intersect(&c).unwrap();
    let a_bc = a.intersect(&bc).unwrap();
    assert_eq!(ab_c.iter(), a_bc.iter());
}

#[test]
fn union_intersect_count_duality() {
    let pairs: [(SelectionVector, SelectionVector); 3] = [
        (dense(&[1, 3, 5, 7], 8), dense(&[0, 1, 2, 3], 8)),
        (sparse(&[0, 63, 64], 130), dense(&[0, 1, 64, 129], 130)),
        (sparse(&[], 5), sparse(&[0, 1, 2, 3, 4], 5)),
    ];
    for (a, b) in pairs {
        let u = a.union(&b).unwrap().selected_count();
        let i = a.intersect(&b).unwrap().selected_count();
        assert_eq!(u + i, a.selected_count() + b.selected_count());
    }
}

#[test]
fn dimension_mismatch_every_pairing() {
    let builders: [fn(&[usize], usize) -> SelectionVector; 2] = [dense, sparse];
    for build_a in builders {
        for build_b in builders {
            let a = build_a(&[1, 2], 8);
            let b = build_b(&[1, 2], 9);
            assert!(matches!(
                a.intersect(&b),
                Err(SelectionError::DimensionMismatch)
            ));
            assert!(matches!(a.union(&b), Err(SelectionError::DimensionMismatch)));
        }
    }
}

#[test]
fn mixed_pair_dispatch() {
    let d = dense(&[0, 5, 6, 7, 40, 66], 70);
    let s = sparse(&[5, 7, 39, 40, 69], 70);
    let i1 = d.intersect(&s).unwrap();
    let i2 = s.intersect(&d).unwrap();
    assert_eq!(i1.iter(), vec![5, 7, 40]);
    assert_eq!(i2.iter(), vec![5, 7, 40]);
    let u1 = d.union(&s).unwrap();
    let u2 = s.union(&d).unwrap();
    assert_eq!(u1.iter(), vec![0, 5, 6, 7, 39, 40, 66, 69]);
    assert_eq!(u2.iter(), vec![0, 5, 6, 7, 39, 40, 66, 69]);
}
