use duet::utils::{match_sorted, MatchSorted_};

#[test]
fn test_match_sorted() {
    let x: Vec<u64> = vec![1, 2, 3, 6, 9];
    let y: Vec<u64> = vec![2, 5, 6, 7];

    for (x, y) in match_sorted(&x, &y) {
        println!("{:?} {:?}", x, y);
    }
}

#[test]
fn match_sorted_pairs_values() {
    let x: Vec<u64> = vec![1, 2, 3, 6, 9];
    let y: Vec<u64> = vec![2, 5, 6, 7];
    let pairs = match_sorted(&x, &y);
    assert_eq!(
        pairs,
        vec![
            (Some(1), None),
            (Some(2), Some(2)),
            (Some(3), None),
            (None, Some(5)),
            (Some(6), Some(6)),
            (None, Some(7)),
            (Some(9), None),
        ]
    );
}

#[test]
fn match_sorted_holder() {
    let holder = MatchSorted_::new(vec![1, 4], vec![4]);
    assert_eq!(holder.pairs(), vec![(Some(1), None), (Some(4), Some(4))]);
}

#[test]
fn match_sorted_empty_sides() {
    assert_eq!(match_sorted(&vec![], &vec![]), vec![]);
    assert_eq!(match_sorted(&vec![3], &vec![]), vec![(Some(3), None)]);
    assert_eq!(match_sorted(&vec![], &vec![3]), vec![(None, Some(3))]);
}
