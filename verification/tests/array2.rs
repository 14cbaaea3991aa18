use rpeg::array2::{Array2, Array2Iter, TypeOfIteration};

fn collect<'a, T>(mut it: Array2Iter<'a, T>) -> Vec<&'a T> {
    let mut out = Vec::new();
    while let Some(x) = it.next() {
        out.push(x);
    }
    out
}

#[test]
fn test_default_construction() {
    let a2 = Array2::<String>::new();
    assert_eq!(a2.height, 0);
    assert_eq!(a2.width, 0);
}

#[test]
fn test_udef_construction() {
    let a2 = Array2::<i32>::new_h_w(vec![1, 2, 3], 3);
    assert_eq!(a2.width, 3);
    assert_eq!(a2.height, 3);
}

#[test]
fn test_array_bounds() {
    let a2 = Array2::<i32>::new_h_w(vec![1, 2, 3, 4, 5, 6], 3);
    assert_eq!(a2.at(0, 1), Some(&2));
    assert_eq!(a2.at(1, 0), Some(&4));
    assert_eq!(a2.at(2, 0), None);
}

#[test]
fn test_array_iteration() {
    let a2 = Array2::<i32>::new_h_w(vec![1, 2, 3, 4, 5, 6, 7, 8, 9], 3);
    let mut sum = 0;
    let mut it = a2.make_iter(TypeOfIteration::RowMajor);
    while let Some(x) = it.next() {
        sum = sum + x;
    }
    let mut sum2 = 1;
    let mut it2 = a2.make_iter(TypeOfIteration::ColumnMajor);
    while let Some(x) = it2.next() {
        sum2 = sum2 + x;
    }
    assert_eq!(sum, 45);
    assert_eq!(sum2, 46);
}

#[test]
fn default_is_empty() {
    let a2: Array2<u8> = Default::default();
    assert_eq!(a2.width, 0);
    assert_eq!(a2.height, 0);
    assert!(a2.v.is_empty());
}

#[test]
fn row_major_visits_storage_in_order() {
    let a2 = Array2::new_h_w(vec![1, 2, 3, 4, 5, 6, 7, 8, 9], 3);
    let seen: Vec<i32> = collect(a2.make_iter(TypeOfIteration::RowMajor)).into_iter().copied().collect();
    assert_eq!(seen, vec![1, 2, 3, 4, 5, 6, 7, 8, 9]);
}

#[test]
fn column_major_is_the_transpose() {
    let a2 = Array2::new_h_w(vec![1, 2, 3, 4, 5, 6, 7, 8, 9], 3);
    let seen: Vec<i32> = collect(a2.make_iter(TypeOfIteration::ColumnMajor)).into_iter().copied().collect();
    assert_eq!(seen, vec![1, 4, 7, 2, 5, 8, 3, 6, 9]);
}

#[test]
fn column_major_reads_whole_rows_only() {
    // Eight elements in rows of three: two complete rows, the last two
    // elements belong to no complete row.
    let a2 = Array2::new_h_w(vec![1, 2, 3, 4, 5, 6, 7, 8], 3);
    let seen: Vec<i32> = collect(a2.make_iter(TypeOfIteration::ColumnMajor)).into_iter().copied().collect();
    assert_eq!(seen, vec![1, 4, 2, 5, 3, 6]);
}

#[test]
fn finished_iteration_stays_finished() {
    let a2 = Array2::new_h_w(vec![1, 2, 3, 4], 2);
    let mut it = a2.make_iter(TypeOfIteration::ColumnMajor);
    for _ in 0..4 {
        assert!(it.next().is_some());
    }
    assert_eq!(it.next(), None);
    assert_eq!(it.next(), None);
    let mut it = a2.make_iter(TypeOfIteration::RowMajor);
    for _ in 0..4 {
        assert!(it.next().is_some());
    }
    assert_eq!(it.next(), None);
    assert_eq!(it.next(), None);
}

#[test]
fn iterator_new_starts_at_the_beginning() {
    let data = [10, 20, 30, 40];
    let it = Array2Iter::new(&data, 2, TypeOfIteration::ColumnMajor);
    assert_eq!(it.col, 0);
    assert_eq!(it.row, 0);
    assert_eq!(it.dim, 2);
    let seen: Vec<i32> = collect(it).into_iter().copied().collect();
    assert_eq!(seen, vec![10, 30, 20, 40]);
}

#[test]
fn at_uses_height_as_the_row_length() {
    let a2 = Array2 { v: vec!['a', 'b', 'c', 'd', 'e', 'f'], width: 3, height: 2 };
    assert_eq!(a2.at(0, 0), Some(&'a'));
    assert_eq!(a2.at(1, 1), Some(&'d'));
    assert_eq!(a2.at(2, 1), Some(&'f'));
    assert_eq!(a2.at(3, 0), None);
    assert_eq!(a2.at(0, 6), None);
}

#[test]
fn from_row_major_checks_the_size() {
    let a = Array2::from_row_major(3, 2, vec![1, 2, 3, 4, 5, 6]).unwrap();
    assert_eq!((a.width, a.height), (3, 2));
    assert_eq!(a.v, vec![1, 2, 3, 4, 5, 6]);
    assert!(Array2::from_row_major(3, 2, vec![1, 2, 3, 4, 5]).is_none());
    assert!(Array2::from_row_major(usize::MAX, 2, vec![1]).is_none());
    assert!(Array2::<u8>::from_row_major(0, 5, vec![]).is_some());
}
