use microgpt::attention::{head_rows, head_slice};

#[test]
fn head_slice_takes_a_block() {
    let q = vec![10, 11, 12, 13, 14, 15, 16, 17];
    assert_eq!(head_slice(&q, 0, 4), vec![10, 11, 12, 13]);
    assert_eq!(head_slice(&q, 4, 4), vec![14, 15, 16, 17]);
    assert_eq!(head_slice(&q, 8, 0), Vec::<usize>::new());
    assert_eq!(head_slice(&q, 20, 0), Vec::<usize>::new());
}

#[test]
fn head_rows_takes_the_block_of_each_row() {
    let cache = vec![vec![0, 1, 2, 3], vec![4, 5, 6, 7], vec![8, 9, 10, 11]];
    assert_eq!(head_rows(&cache, 2, 2), vec![vec![2, 3], vec![6, 7], vec![10, 11]]);
    let empty: Vec<Vec<usize>> = vec![];
    assert!(head_rows(&empty, 3, 5).is_empty());
}
