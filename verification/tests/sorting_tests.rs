use quizmark::sorting::{sort_indices_by_key, sort_u32};

#[test]
fn sorts_ascending() {
    assert_eq!(sort_u32(&vec![3, 1, 2, 1]), vec![1, 1, 2, 3]);
    assert_eq!(sort_u32(&vec![]), Vec::<u32>::new());
}

#[test]
fn indices_sorted_by_key_stably() {
    assert_eq!(sort_indices_by_key(&vec![5, -1, 5, 0]), vec![1, 3, 0, 2]);
    assert_eq!(sort_indices_by_key(&vec![2, 2, 2]), vec![0, 1, 2]);
}
