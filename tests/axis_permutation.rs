use array_sort::{Array, Axis, Permutation, PermuteArray, SortArray};

fn grid(shape: Vec<usize>, data: Vec<i64>) -> Array<i64> {
    Array::from_shape_vec(shape, data).unwrap()
}

#[test]
fn sort_row_ascending() {
    let a = grid(vec![1, 4], vec![30, 10, 20, 40]);
    let row = a.as_vec().clone();
    let perm = a.sort_axis_by(Axis(1), |i: usize, j: usize| row[i] < row[j]);
    assert_eq!(perm.indices(), &vec![1, 2, 0, 3]);
    assert!(perm.correct());
    let sorted = a.permute_axis(Axis(1), &perm);
    assert_eq!(sorted.shape(), &vec![1, 4]);
    assert_eq!(sorted.as_vec(), &vec![10, 20, 30, 40]);
}

#[test]
fn sort_columns_by_first_row() {
    // Columns move as a whole, keyed by the value in row 0.
    let a = grid(vec![2, 3], vec![3, 1, 2, 30, 10, 20]);
    let key = a.as_vec().clone();
    let perm = a.sort_axis_by(Axis(1), |i: usize, j: usize| key[i] < key[j]);
    assert_eq!(perm.indices(), &vec![1, 2, 0]);
    let sorted = a.permute_axis(Axis(1), &perm);
    assert_eq!(sorted.as_vec(), &vec![1, 2, 3, 10, 20, 30]);
}

#[test]
fn sort_keeps_ties_in_index_order() {
    let a = grid(vec![5], vec![2, 1, 2, 1, 0]);
    let v = a.as_vec().clone();
    let perm = a.sort_axis_by(Axis(0), |i: usize, j: usize| v[i] < v[j]);
    assert_eq!(perm.indices(), &vec![4, 1, 3, 0, 2]);
}

#[test]
fn sort_descending_order() {
    let a = grid(vec![4], vec![30, 10, 20, 40]);
    let v = a.as_vec().clone();
    let perm = a.sort_axis_by(Axis(0), |i: usize, j: usize| v[i] > v[j]);
    let sorted = a.permute_axis(Axis(0), &perm);
    assert_eq!(sorted.as_vec(), &vec![40, 30, 20, 10]);
}

#[test]
fn sort_adjacent_entries_in_order() {
    let data = vec![5, -3, 9, 9, 0, -3, 7, 1];
    let a = grid(vec![8], data.clone());
    let perm = a.sort_axis_by(Axis(0), |i: usize, j: usize| data[i] < data[j]);
    let p = perm.indices();
    assert!(perm.correct());
    for i in 0..p.len() - 1 {
        assert!(!(data[p[i + 1]] < data[p[i]]));
    }
}

#[test]
fn sort_empty_axis() {
    let a = grid(vec![3, 0], vec![]);
    let perm = a.sort_axis_by(Axis(1), |i: usize, j: usize| i < j);
    assert_eq!(perm.len(), 0);
    let b = a.permute_axis(Axis(1), &perm);
    assert_eq!(b.shape(), &vec![3, 0]);
    assert_eq!(b.len(), 0);
}

#[test]
fn identity_is_correct_and_changes_nothing() {
    let a = grid(vec![3, 4], (0..12).collect());
    let p0 = a.identity(Axis(0));
    let p1 = a.identity(Axis(1));
    assert_eq!(p0.indices(), &vec![0, 1, 2]);
    assert_eq!(p1.indices(), &vec![0, 1, 2, 3]);
    assert!(p0.correct());
    assert!(p1.correct());
    let b = a.permute_axis(Axis(1), &p1);
    assert_eq!(b.as_vec(), &(0..12).collect::<Vec<i64>>());
    let c = b.permute_axis(Axis(0), &p0);
    assert_eq!(c.as_vec(), &(0..12).collect::<Vec<i64>>());
}

#[test]
fn permute_rows() {
    let a = grid(vec![3, 2], vec![1, 2, 3, 4, 5, 6]);
    let b = a.permute_axis(Axis(0), &Permutation::new(vec![2, 0, 1]));
    assert_eq!(b.shape(), &vec![3, 2]);
    assert_eq!(b.as_vec(), &vec![5, 6, 1, 2, 3, 4]);
}

#[test]
fn permute_middle_axis_of_three() {
    // Shape (2, 3, 2): element (o, a, r) holds 100 * o + 10 * a + r.
    let mut data = vec![];
    for o in 0..2 {
        for a in 0..3 {
            for r in 0..2 {
                data.push(100 * o + 10 * a + r);
            }
        }
    }
    let a = grid(vec![2, 3, 2], data);
    let b = a.permute_axis(Axis(1), &Permutation::new(vec![1, 2, 0]));
    assert_eq!(
        b.as_vec(),
        &vec![10, 11, 20, 21, 0, 1, 110, 111, 120, 121, 100, 101]
    );
}

#[test]
fn permute_then_permute_is_composition() {
    let data: Vec<i64> = (0..12).collect();
    let p = vec![2, 0, 3, 1];
    let q = vec![1, 3, 0, 2];
    let twice = grid(vec![3, 4], data.clone())
        .permute_axis(Axis(1), &Permutation::new(p.clone()))
        .permute_axis(Axis(1), &Permutation::new(q.clone()));
    let pq: Vec<usize> = q.iter().map(|&i| p[i]).collect();
    assert_eq!(pq, vec![0, 1, 2, 3]);
    let once = grid(vec![3, 4], data).permute_axis(Axis(1), &Permutation::new(pq));
    assert_eq!(twice.as_vec(), once.as_vec());
}

#[test]
fn permute_then_compose_other_order() {
    let data: Vec<i64> = (0..6).collect();
    let p = vec![1, 2, 0];
    let q = vec![1, 2, 0];
    let twice = grid(vec![3, 2], data.clone())
        .permute_axis(Axis(0), &Permutation::new(p.clone()))
        .permute_axis(Axis(0), &Permutation::new(q.clone()));
    let pq: Vec<usize> = q.iter().map(|&i| p[i]).collect();
    assert_eq!(pq, vec![2, 0, 1]);
    let once = grid(vec![3, 2], data).permute_axis(Axis(0), &Permutation::new(pq));
    assert_eq!(twice.as_vec(), once.as_vec());
    assert_eq!(once.as_vec(), &vec![4, 5, 0, 1, 2, 3]);
}

#[test]
fn inverse_restores_array() {
    let data: Vec<i64> = vec![7, 3, 9, 1, 4, 8];
    let p = vec![4, 0, 5, 2, 1, 3];
    let mut inv = vec![0; p.len()];
    for (i, &k) in p.iter().enumerate() {
        inv[k] = i;
    }
    let back = grid(vec![6], data.clone())
        .permute_axis(Axis(0), &Permutation::new(p))
        .permute_axis(Axis(0), &Permutation::new(inv));
    assert_eq!(back.as_vec(), &data);
}

#[derive(Debug, PartialEq, Eq, PartialOrd, Ord)]
struct Token(u32);

#[test]
fn permute_moves_values_without_clone() {
    let tokens: Vec<Token> = (0..6).map(Token).collect();
    let a = Array::from_shape_vec(vec![2, 3], tokens).unwrap();
    let b = a.permute_axis(Axis(1), &Permutation::new(vec![2, 1, 0]));
    let got: Vec<u32> = b.as_vec().iter().map(|t| t.0).collect();
    assert_eq!(got, vec![2, 1, 0, 5, 4, 3]);
    let (shape, mut items) = b.into_raw_parts();
    assert_eq!(shape, vec![2, 3]);
    items.sort();
    assert_eq!(items, (0..6).map(Token).collect::<Vec<Token>>());
}

#[test]
fn permute_keeps_multiset() {
    let data: Vec<i64> = vec![5, 5, 1, 2, 2, 2, 9, 0];
    let b = grid(vec![2, 4], data.clone()).permute_axis(Axis(1), &Permutation::new(vec![3, 1, 0, 2]));
    assert_eq!(b.len(), 8);
    let mut got = b.as_vec().clone();
    let mut want = data;
    got.sort();
    want.sort();
    assert_eq!(got, want);
}

#[test]
fn correct_rejects_duplicate() {
    assert!(!Permutation::new(vec![0, 0, 1]).correct());
}

#[test]
fn correct_rejects_out_of_range() {
    assert!(!Permutation::new(vec![0, 3, 1]).correct());
}

#[test]
fn correct_accepts_bijections() {
    assert!(Permutation::new(vec![2, 0, 1]).correct());
    assert!(Permutation::new(vec![]).correct());
    assert!(Permutation::new(vec![0]).correct());
}

#[test]
fn rank_and_axis_lengths() {
    let a = grid(vec![3, 4], (0..12).collect());
    assert_eq!(a.ndim(), 2);
    assert_eq!(a.len_of(Axis(0)), 3);
    assert_eq!(a.len_of(Axis(1)), 4);
}

#[test]
fn from_shape_vec_checks_size() {
    assert!(Array::from_shape_vec(vec![3, 4], vec![0i64; 11]).is_none());
    assert!(Array::from_shape_vec(vec![3, 4], vec![0i64; 13]).is_none());
    assert!(Array::from_shape_vec(vec![3, 4], vec![0i64; 12]).is_some());
    assert!(Array::from_shape_vec(vec![], vec![1i64]).is_some());
    assert!(Array::from_shape_vec(vec![], Vec::<i64>::new()).is_none());
    assert!(Array::from_shape_vec(vec![0, usize::MAX, usize::MAX], Vec::<i64>::new()).is_some());
    assert!(Array::from_shape_vec(vec![usize::MAX, usize::MAX], Vec::<i64>::new()).is_none());
    assert!(Array::from_shape_vec(vec![usize::MAX, 2], vec![1i64]).is_none());
}

#[test]
fn sort_long_axis() {
    let n: usize = 65536;
    let data: Vec<i64> = (0..n as i64).map(|x| (x * 7919) % 65536).collect();
    let a = grid(vec![1, n], data.clone());
    let perm = a.sort_axis_by(Axis(1), |i: usize, j: usize| data[i] < data[j]);
    assert!(perm.correct());
    let sorted = a.permute_axis(Axis(1), &perm);
    let mut want = data;
    want.sort();
    assert_eq!(sorted.as_vec(), &want);
}

#[test]
fn sort_with_predicate_undefined_off_axis() {
    let v = vec![4, 1, 3];
    let a = grid(vec![3], v.clone());
    let n = v.len();
    let perm = a.sort_axis_by(Axis(0), |i: usize, j: usize| {
        if i < n && j < n {
            v[i] < v[j]
        } else {
            true
        }
    });
    assert_eq!(perm.indices(), &vec![1, 2, 0]);
}

#[test]
fn sort_single_index_is_identity() {
    let a = grid(vec![2, 1], vec![8, 9]);
    let perm = a.sort_axis_by(Axis(1), |_i: usize, _j: usize| true);
    assert_eq!(perm.indices(), &vec![0]);
}
