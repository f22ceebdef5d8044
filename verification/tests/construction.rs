use selection_vector::SelectionVector;

#[test]
fn select_all_and_none() {
    let all = SelectionVector::select_all(5);
    assert_eq!(all.selected_count(), 5);
    assert_eq!(all.universe_size(), 5);
    assert!(all.all_selected());
    assert!(!all.all_not_selected());
    assert_eq!(all.iter(), vec![0, 1, 2, 3, 4]);

    let none = SelectionVector::select_none(5);
    assert_eq!(none.selected_count(), 0);
    assert_eq!(none.universe_size(), 5);
    assert!(!none.all_selected());
    assert!(none.all_not_selected());
    assert_eq!(none.iter(), Vec::<usize>::new());
}

#[test]
fn empty_universe_flags_coincide() {
    let all = SelectionVector::select_all(0);
    assert!(all.all_selected());
    assert!(all.all_not_selected());
    assert_eq!(all.iter(), Vec::<usize>::new());

    let none = SelectionVector::select_none(0);
    assert!(none.all_selected());
    assert!(none.all_not_selected());
    assert_eq!(none.selected_count(), 0);
}

#[test]
fn from_bools_tracks_mask() {
    let bools = vec![false, true, true, false, false, true];
    let s = SelectionVector::from_bools(&bools);
    assert_eq!(s.universe_size(), 6);
    assert_eq!(s.selected_count(), 3);
    assert_eq!(s.iter(), vec![1, 2, 5]);
    assert!(!s.all_selected());
    assert!(!s.all_not_selected());
}

#[test]
fn from_bools_extremes_set_flags() {
    let full = SelectionVector::from_bools(&vec![true; 9]);
    assert!(full.all_selected());
    assert!(!full.all_not_selected());

    let empty = SelectionVector::from_bools(&vec![false; 9]);
    assert!(!empty.all_selected());
    assert!(empty.all_not_selected());
}

#[test]
fn round_trip_dense_sparse_dense() {
    let bools = vec![true, false, false, true, true, false, false, false, true];
    let d = SelectionVector::from_bools(&bools);
    let s = SelectionVector::from_indices(d.iter(), d.universe_size());
    let d2 = {
        let mut mask = vec![false; s.universe_size()];
        for i in s.iter() {
            mask[i] = true;
        }
        SelectionVector::from_bools(&mask)
    };
    assert_eq!(d.iter(), d2.iter());
    assert_eq!(d.selected_count(), d2.selected_count());
}

#[test]
fn round_trip_sparse_dense_sparse() {
    let ix = vec![2usize, 30, 31, 32, 90];
    let s = SelectionVector::from_indices(ix.clone(), 100);
    let mut mask = vec![false; 100];
    for i in s.iter() {
        mask[i] = true;
    }
    let d = SelectionVector::from_bools(&mask);
    assert_eq!(d.iter(), ix);
    assert_eq!(d.selected_count(), 5);
}

#[test]
fn dense_index_list_converts_to_bitmap() {
    // Nine of twelve rows: above the one-half density bound, so the index
    // list is stored as a bitmap; behaviour must not change.
    let ix = vec![0usize, 1, 2, 3, 4, 5, 6, 7, 8];
    let s = SelectionVector::from_indices(ix.clone(), 12);
    assert_eq!(s.iter(), ix);
    assert_eq!(s.selected_count(), 9);
}

#[test]
fn sparse_intersection_result_converts_to_list() {
    // A dense-by-dense intersection whose result holds one of 200 rows:
    // below the one-tenth density bound, so the result is stored as an index
    // list; behaviour must not change.
    let mut left = vec![true; 200];
    let mut right = vec![false; 200];
    left[0] = false;
    right[0] = true;
    right[77] = true;
    let a = SelectionVector::from_bools(&left);
    let b = SelectionVector::from_bools(&right);
    let i = a.intersect(&b).unwrap();
    assert_eq!(i.iter(), vec![77]);
    assert_eq!(i.selected_count(), 1);
}

#[test]
fn duplicate_is_independent_and_equal() {
    let s = SelectionVector::from_indices(vec![1, 4, 6], 10);
    let d = s.duplicate();
    assert_eq!(d.iter(), s.iter());
    assert_eq!(d.selected_count(), 3);
    assert_eq!(d.universe_size(), 10);
}

#[test]
fn iteration_is_restartable_and_pure() {
    let s = SelectionVector::from_bools(&vec![false, true, false, true]);
    let first = s.iter();
    let second = s.iter();
    assert_eq!(first, second);
    assert_eq!(s.selected_count(), 2);
    assert!(!s.all_selected());
    assert!(!s.all_not_selected());
}
