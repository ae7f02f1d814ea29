use erasure_engine::error::Error;
use erasure_engine::galois::Gf256;
use erasure_engine::matrix::{build_matrix, invert_submatrix, Matrix};

fn product_is_identity(a: &Matrix, rows: &Vec<usize>, b: &Matrix) -> bool {
    let f = Gf256::new();
    let n = rows.len();
    for i in 0..n {
        for j in 0..n {
            let mut left = 0u8;
            let mut right = 0u8;
            for k in 0..n {
                left = f.add(left, f.mul(b.get(i, k), a.get(rows[k], j)));
                right = f.add(right, f.mul(a.get(rows[i], k), b.get(k, j)));
            }
            let want = if i == j { 1 } else { 0 };
            if left != want || right != want {
                return false;
            }
        }
    }
    true
}

fn subsets(total: usize, size: usize) -> Vec<Vec<usize>> {
    let mut out = Vec::new();
    let mut cur: Vec<usize> = (0..size).collect();
    if size > total {
        return out;
    }
    loop {
        out.push(cur.clone());
        let mut i = size;
        while i > 0 && cur[i - 1] == total - size + (i - 1) {
            i -= 1;
        }
        if i == 0 {
            return out;
        }
        cur[i - 1] += 1;
        for k in i..size {
            cur[k] = cur[k - 1] + 1;
        }
    }
}

#[test]
fn build_matrix_rejects_zero_counts() {
    assert!(matches!(build_matrix(0, 1), Err(Error::InvalidShardCount)));
    assert!(matches!(build_matrix(1, 0), Err(Error::InvalidShardCount)));
    assert!(matches!(build_matrix(0, 0), Err(Error::InvalidShardCount)));
}

#[test]
fn build_matrix_rejects_more_than_256_shards() {
    assert!(matches!(build_matrix(200, 57), Err(Error::InvalidShardCount)));
    assert!(matches!(build_matrix(257, 1), Err(Error::InvalidShardCount)));
    assert!(matches!(build_matrix(1, usize::MAX), Err(Error::InvalidShardCount)));
    assert!(matches!(build_matrix(usize::MAX, usize::MAX), Err(Error::InvalidShardCount)));
    assert!(build_matrix(200, 56).is_ok());
}

#[test]
fn build_matrix_shape_and_identity_top() {
    let m = build_matrix(5, 2).unwrap();
    assert_eq!(m.row_count(), 7);
    assert_eq!(m.col_count(), 5);
    for r in 0..5 {
        for c in 0..5 {
            assert_eq!(m.get(r, c), if r == c { 1 } else { 0 });
        }
        assert_eq!(m.row(r).len(), 5);
    }
}

#[test]
fn build_matrix_known_parity_rows() {
    // One data shard: every row of the matrix is the single entry one.
    let m = build_matrix(1, 3).unwrap();
    for r in 0..4 {
        assert_eq!(m.get(r, 0), 1);
    }
    let m = build_matrix(2, 2).unwrap();
    assert_eq!(m.row(2), &vec![3u8, 2u8]);
    assert_eq!(m.row(3), &vec![2u8, 3u8]);
}

#[test]
fn build_matrix_is_deterministic() {
    let a = build_matrix(10, 4).unwrap();
    let b = build_matrix(10, 4).unwrap();
    for r in 0..14 {
        assert_eq!(a.row(r), b.row(r));
    }
}

#[test]
fn every_choice_of_rows_is_invertible() {
    for (d, p) in [(1usize, 1usize), (2, 2), (3, 2), (4, 4), (5, 3), (6, 2)] {
        let m = build_matrix(d, p).unwrap();
        for rows in subsets(d + p, d) {
            let inv = invert_submatrix(&m, &rows).unwrap();
            assert_eq!(inv.row_count(), d);
            assert_eq!(inv.col_count(), d);
            assert!(product_is_identity(&m, &rows, &inv));
        }
    }
}

#[test]
fn rows_in_any_order_are_invertible() {
    let m = build_matrix(4, 3).unwrap();
    let rows = vec![6usize, 0, 5, 2];
    let inv = invert_submatrix(&m, &rows).unwrap();
    assert!(product_is_identity(&m, &rows, &inv));
}

#[test]
fn largest_code_is_invertible_on_its_last_rows() {
    let m = build_matrix(128, 128).unwrap();
    let rows: Vec<usize> = (128..256).collect();
    let inv = invert_submatrix(&m, &rows).unwrap();
    assert!(product_is_identity(&m, &rows, &inv));
}

#[test]
fn repeated_row_is_not_invertible() {
    let m = build_matrix(3, 2).unwrap();
    assert!(matches!(invert_submatrix(&m, &vec![0, 0, 1]), Err(Error::MatrixNotInvertible)));
    assert!(matches!(invert_submatrix(&m, &vec![4, 1, 4]), Err(Error::MatrixNotInvertible)));
}

#[test]
fn too_few_rows_are_not_invertible() {
    let m = build_matrix(3, 2).unwrap();
    assert!(matches!(invert_submatrix(&m, &vec![0, 1]), Err(Error::MatrixNotInvertible)));
    assert!(matches!(invert_submatrix(&m, &vec![]), Err(Error::MatrixNotInvertible)));
    assert!(matches!(invert_submatrix(&m, &vec![0, 1, 2, 3]), Err(Error::MatrixNotInvertible)));
}

#[test]
fn row_outside_the_matrix_is_not_invertible() {
    let m = build_matrix(3, 2).unwrap();
    assert!(matches!(invert_submatrix(&m, &vec![0, 1, 5]), Err(Error::MatrixNotInvertible)));
}

#[test]
fn inverse_of_identity_rows_is_identity() {
    let m = build_matrix(3, 2).unwrap();
    let inv = invert_submatrix(&m, &vec![0, 1, 2]).unwrap();
    for r in 0..3 {
        for c in 0..3 {
            assert_eq!(inv.get(r, c), if r == c { 1 } else { 0 });
        }
    }
}

#[test]
fn from_rows_accepts_equal_rows_only() {
    let m = Matrix::from_rows(vec![vec![1, 2], vec![3, 4]]).unwrap();
    assert_eq!(m.row_count(), 2);
    assert_eq!(m.col_count(), 2);
    assert_eq!(m.get(1, 0), 3);
    assert!(Matrix::from_rows(vec![vec![1, 2], vec![3]]).is_none());
    let empty = Matrix::from_rows(Vec::new()).unwrap();
    assert_eq!(empty.row_count(), 0);
    assert_eq!(empty.col_count(), 0);
}

#[test]
fn singular_matrix_is_not_invertible() {
    // The second row is twice the first.
    let m = Matrix::from_rows(vec![vec![1, 2], vec![2, 4]]).unwrap();
    assert!(matches!(invert_submatrix(&m, &vec![0, 1]), Err(Error::MatrixNotInvertible)));
    let z = Matrix::from_rows(vec![vec![0, 0], vec![0, 0]]).unwrap();
    assert!(matches!(invert_submatrix(&z, &vec![0, 1]), Err(Error::MatrixNotInvertible)));
}

#[test]
fn inversion_needs_a_row_exchange() {
    let m = Matrix::from_rows(vec![vec![0, 1], vec![1, 0]]).unwrap();
    let rows = vec![0usize, 1];
    let inv = invert_submatrix(&m, &rows).unwrap();
    assert_eq!(inv.row(0), &vec![0u8, 1u8]);
    assert_eq!(inv.row(1), &vec![1u8, 0u8]);
    assert!(product_is_identity(&m, &rows, &inv));
}
