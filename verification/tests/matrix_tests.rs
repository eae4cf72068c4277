use neuralnetwork::error::Error;
use neuralnetwork::matrix::Matrix;

fn add_op(a: u32, b: u32) -> u32 {
    (f32::from_bits(a) + f32::from_bits(b)).to_bits()
}

fn sub_op(a: u32, b: u32) -> u32 {
    (f32::from_bits(a) - f32::from_bits(b)).to_bits()
}

fn mul_op(a: u32, b: u32) -> u32 {
    (f32::from_bits(a) * f32::from_bits(b)).to_bits()
}

fn from_f32(rows: &[&[f32]]) -> Matrix {
    let data: Vec<Vec<u32>> = rows
        .iter()
        .map(|r| r.iter().map(|x| x.to_bits()).collect())
        .collect();
    Matrix::from_rows(data).unwrap()
}

fn to_f32(m: &Matrix) -> Vec<Vec<f32>> {
    m.data
        .iter()
        .map(|r| r.iter().map(|x| f32::from_bits(*x)).collect())
        .collect()
}

#[test]
fn zeros_shape_and_entries() {
    let m = Matrix::zeros(2, 3);
    assert_eq!(m.rows, 2);
    assert_eq!(m.cols, 3);
    assert_eq!(m.data, vec![vec![0u32, 0, 0], vec![0u32, 0, 0]]);
    assert_eq!(f32::from_bits(m.data[0][0]), 0.0f32);
}

#[test]
fn transpose_mirrors_entries() {
    let a = from_f32(&[&[1.0, 2.0, 3.0], &[4.0, 5.0, 6.0]]);
    let t = a.transpose();
    assert_eq!(t.rows, 3);
    assert_eq!(t.cols, 2);
    assert_eq!(
        to_f32(&t),
        vec![vec![1.0, 4.0], vec![2.0, 5.0], vec![3.0, 6.0]]
    );
}

#[test]
fn transpose_twice_is_identity() {
    let a = from_f32(&[&[1.5, -2.25], &[0.0, 42.0], &[-0.5, 8.0]]);
    let tt = a.transpose().transpose();
    assert_eq!(tt.rows, a.rows);
    assert_eq!(tt.cols, a.cols);
    assert_eq!(tt.data, a.data);
}

#[test]
fn add_computes_entrywise_sums() {
    let a = from_f32(&[&[1.0, 2.0], &[3.0, 4.0]]);
    let b = from_f32(&[&[0.5, -1.0], &[2.0, 0.25]]);
    let s = a.add(&b, add_op).unwrap();
    assert_eq!(to_f32(&s), vec![vec![1.5, 1.0], vec![5.0, 4.25]]);
}

#[test]
fn subtract_computes_entrywise_differences() {
    let a = from_f32(&[&[1.0, 2.0], &[3.0, 4.0]]);
    let b = from_f32(&[&[0.5, -1.0], &[2.0, 0.25]]);
    let d = a.subtract(&b, sub_op).unwrap();
    assert_eq!(to_f32(&d), vec![vec![0.5, 3.0], vec![1.0, 3.75]]);
}

#[test]
fn dot_computes_entrywise_products() {
    let a = from_f32(&[&[1.0, 2.0], &[3.0, 4.0]]);
    let b = from_f32(&[&[0.5, -1.0], &[2.0, 0.25]]);
    let p = a.dot(&b, mul_op).unwrap();
    assert_eq!(to_f32(&p), vec![vec![0.5, -2.0], vec![6.0, 1.0]]);
}

#[test]
fn add_rejects_mismatched_shapes() {
    let a = Matrix::zeros(2, 3);
    let b = Matrix::zeros(3, 2);
    let r = a.add(&b, add_op);
    assert_eq!(
        r.err(),
        Some(Error::ShapeMismatch {
            left_rows: 2,
            left_cols: 3,
            right_rows: 3,
            right_cols: 2,
        })
    );
}

#[test]
fn subtract_rejects_mismatched_shapes() {
    let a = Matrix::zeros(1, 4);
    let b = Matrix::zeros(1, 3);
    let r = a.subtract(&b, sub_op);
    assert_eq!(
        r.err(),
        Some(Error::ShapeMismatch {
            left_rows: 1,
            left_cols: 4,
            right_rows: 1,
            right_cols: 3,
        })
    );
}

#[test]
fn dot_rejects_mismatched_shapes() {
    let a = Matrix::zeros(2, 2);
    let b = Matrix::zeros(2, 3);
    let r = a.dot(&b, mul_op);
    assert_eq!(
        r.err(),
        Some(Error::ShapeMismatch {
            left_rows: 2,
            left_cols: 2,
            right_rows: 2,
            right_cols: 3,
        })
    );
}

#[test]
fn map_applies_function_to_every_entry() {
    let a = from_f32(&[&[1.0, -2.0], &[3.5, 0.0]]);
    let m = a.map(|x: u32| (f32::from_bits(x) * 2.0).to_bits());
    assert_eq!(m.rows, 2);
    assert_eq!(m.cols, 2);
    assert_eq!(to_f32(&m), vec![vec![2.0, -4.0], vec![7.0, 0.0]]);
}

#[test]
fn scalar_multiply_scales_every_entry() {
    let a = from_f32(&[&[1.0, -2.0], &[0.5, 4.0]]);
    let m = a.scalar_multiply(3.0f32.to_bits(), mul_op);
    assert_eq!(to_f32(&m), vec![vec![3.0, -6.0], vec![1.5, 12.0]]);
}

#[test]
fn multiply_computes_inner_products() {
    let a = from_f32(&[&[1.0, 2.0, 3.0], &[4.0, 5.0, 6.0]]);
    let b = from_f32(&[&[7.0, 8.0], &[9.0, 10.0], &[11.0, 12.0]]);
    let p = a.multiply(&b, mul_op, add_op).unwrap();
    assert_eq!(p.rows, 2);
    assert_eq!(p.cols, 2);
    // row 0 of a with column 0 of b: 1*7 + 2*9 + 3*11 = 58, and so on.
    assert_eq!(to_f32(&p), vec![vec![58.0, 64.0], vec![139.0, 154.0]]);
}

#[test]
fn multiply_rejects_mismatched_inner_dimension() {
    let a = Matrix::zeros(2, 3);
    let b = Matrix::zeros(2, 3);
    let r = a.multiply(&b, mul_op, add_op);
    assert_eq!(
        r.err(),
        Some(Error::ShapeMismatch {
            left_rows: 2,
            left_cols: 3,
            right_rows: 2,
            right_cols: 3,
        })
    );
}

#[test]
fn multiply_with_empty_inner_dimension_gives_zero_words() {
    let a = Matrix::zeros(2, 0);
    let b = Matrix::zeros(0, 3);
    let p = a.multiply(&b, mul_op, add_op).unwrap();
    assert_eq!(p.rows, 2);
    assert_eq!(p.cols, 3);
    assert_eq!(to_f32(&p), vec![vec![0.0, 0.0, 0.0], vec![0.0, 0.0, 0.0]]);
}

#[test]
fn from_flat_builds_single_row() {
    let m = Matrix::from_flat(vec![1.0f32.to_bits(), 2.0f32.to_bits(), 3.0f32.to_bits()]);
    assert_eq!(m.rows, 1);
    assert_eq!(m.cols, 3);
    assert_eq!(to_f32(&m), vec![vec![1.0, 2.0, 3.0]]);
}

#[test]
fn from_rows_rejects_ragged_rows() {
    let r = Matrix::from_rows(vec![vec![1u32, 2], vec![3u32]]);
    assert_eq!(
        r.err(),
        Some(Error::ShapeMismatch {
            left_rows: 2,
            left_cols: 2,
            right_rows: 2,
            right_cols: 1,
        })
    );
}

#[test]
fn row_and_col_extract_lines() {
    let a = from_f32(&[&[1.0, 2.0], &[3.0, 4.0], &[5.0, 6.0]]);
    assert_eq!(a.row(1), vec![3.0f32.to_bits(), 4.0f32.to_bits()]);
    assert_eq!(
        a.col(0),
        vec![1.0f32.to_bits(), 3.0f32.to_bits(), 5.0f32.to_bits()]
    );
}

#[test]
fn random_feeds_every_entry_through_init() {
    let m = Matrix::random(3, 4, |_w: u32| 0.25f32.to_bits());
    assert_eq!(m.rows, 3);
    assert_eq!(m.cols, 4);
    for row in &m.data {
        for &v in row {
            assert_eq!(f32::from_bits(v), 0.25);
        }
    }
}

#[test]
fn random_init_sees_varying_words() {
    // Map each drawn word into [-1.0, 1.0) as an initializer would.
    let to_unit = |w: u32| {
        let unit = (w as f64) / (u32::MAX as f64 + 1.0);
        ((unit * 2.0 - 1.0) as f32).to_bits()
    };
    let m = Matrix::random(8, 8, to_unit);
    let mut all_in_range = true;
    for row in &m.data {
        for &v in row {
            let x = f32::from_bits(v);
            all_in_range = all_in_range && (-1.0..1.0).contains(&x);
        }
    }
    assert!(all_in_range);
}
