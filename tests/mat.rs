use neuron::mat::{mat_dot, Mat};

fn mat(rows: &[&[f64]]) -> Mat<f64> {
    let mut m: Mat<f64> = Mat::empty(rows[0].len());
    for r in rows {
        m.add_row(r);
    }
    m
}

fn same(a: &Mat<f64>, b: &Mat<f64>) -> bool {
    a.rows() == b.rows() && a.cols() == b.cols() && a.as_slice() == b.as_slice()
}

fn mul_add(acc: f64, x: f64, y: f64) -> f64 {
    acc + x * y
}

#[test]
fn test_split() {
    let m = mat(&[&[4.0, 3.0, 5.0], &[1.0, 2.0, 5.0], &[3.0, 4.0, 6.0]]);

    let (left, right) = m.split_v(2);

    let m_l = mat(&[&[4.0, 3.0], &[1.0, 2.0], &[3.0, 4.0]]);
    let m_r = mat(&[&[5.0], &[5.0], &[6.0]]);

    assert!(same(&left, &m_l));
    assert!(same(&right, &m_r));
}

#[test]
fn test_macro() {
    let m = mat(&[&[4.0, 3.0, 5.0], &[1.0, 2.0, 5.0], &[3.0, 4.0, 6.0]]);
    assert_eq!(m.rows(), 3);
    assert_eq!(m.cols(), 3);
}

#[test]
fn test_transpose() {
    let mut m = mat(&[&[6.0, 4.0, 24.0], &[1.0, -9.0, 8.0]]);
    let out = mat(&[&[6.0, 1.0], &[4.0, -9.0], &[24.0, 8.0]]);
    m.transpose();
    assert!(same(&m, &out));

    let mut m2 = mat(&[&[6.0], &[1.0], &[4.0], &[24.0]]);
    m2.transpose();
    assert!(same(&m2, &mat(&[&[6.0, 1.0, 4.0, 24.0]])));
}

#[test]
fn test_dot() {
    let m1 = mat(&[&[5.0, 4.0], &[4.0, 6.0], &[7.0, 3.0]]);
    let m2 = mat(&[&[1.0, 2.0, 3.0], &[4.0, 5.0, 1.0]]);
    let expected = mat(&[&[21.0, 30.0, 19.0], &[28.0, 38.0, 18.0], &[19.0, 29.0, 24.0]]);
    let mut out: Mat<f64> = Mat::zeros(3, 3, 0.0);
    mat_dot(&mut out, &m1, &m2, mul_add);
    assert!(same(&out, &expected));
}

#[test]
fn dot_method_gives_the_product() {
    let m1 = mat(&[&[5.0, 4.0], &[4.0, 6.0], &[7.0, 3.0]]);
    let m2 = mat(&[&[1.0, 2.0, 3.0], &[4.0, 5.0, 1.0]]);
    let p = m1.dot(&m2, 0.0, mul_add);
    assert_eq!(p.rows(), 3);
    assert_eq!(p.cols(), 3);
    assert_eq!(p.as_slice(), &[21.0, 30.0, 19.0, 28.0, 38.0, 18.0, 19.0, 29.0, 24.0]);
}

#[test]
fn mat_dot_adds_onto_what_is_there() {
    let a = mat(&[&[1.0, 2.0]]);
    let b = mat(&[&[3.0], &[4.0]]);
    let mut out = mat(&[&[10.0]]);
    mat_dot(&mut out, &a, &b, mul_add);
    assert_eq!(out.as_slice(), &[21.0]);
}

#[test]
fn dot_is_associative_within_tolerance() {
    let a = mat(&[&[0.3, -1.2, 2.5], &[4.0, 0.7, -0.1]]);
    let b = mat(&[&[1.5, -0.25], &[0.8, 3.3], &[-2.2, 0.05]]);
    let c = mat(&[&[0.9, -4.1, 1.0, 2.0], &[0.6, 0.45, -3.0, 7.5]]);
    let left = a.dot(&b, 0.0, mul_add).dot(&c, 0.0, mul_add);
    let right = a.dot(&b.dot(&c, 0.0, mul_add), 0.0, mul_add);
    assert_eq!(left.rows(), 2);
    assert_eq!(left.cols(), 4);
    assert_eq!(right.rows(), 2);
    assert_eq!(right.cols(), 4);
    for (x, y) in left.as_slice().iter().zip(right.as_slice()) {
        assert!((x - y).abs() < 1e-9);
    }
}

#[test]
fn transpose_twice_gives_back_the_matrix() {
    let m = mat(&[&[1.0, 2.0, 3.0], &[4.0, 5.0, 6.0]]);
    let mut t = m.clone();
    t.transpose();
    assert_eq!(t.rows(), 3);
    assert_eq!(t.cols(), 2);
    assert_eq!(t.get(2, 1), 6.0);
    t.transpose();
    assert!(same(&t, &m));
}

#[test]
fn transpose_of_a_matrix_without_rows() {
    let mut m: Mat<f64> = Mat::empty(3);
    m.transpose();
    assert_eq!(m.rows(), 3);
    assert_eq!(m.cols(), 0);
    assert_eq!(m.len(), 0);
}

#[test]
fn split_then_join_gives_back_the_matrix() {
    let m = mat(&[&[1.0, 2.0, 3.0, 4.0], &[5.0, 6.0, 7.0, 8.0]]);
    let (l, r) = m.clone().split_v(1);
    assert_eq!(l.cols(), 1);
    assert_eq!(r.cols(), 3);
    let mut joined: Mat<f64> = Mat::empty(4);
    for i in 0..m.rows() {
        let mut row = l.get_row(i).to_vec();
        row.extend_from_slice(r.get_row(i));
        joined.add_row(&row);
    }
    assert!(same(&joined, &m));
}

#[test]
fn constructors_fill_and_shape() {
    let z: Mat<f64> = Mat::zeros(2, 3, 0.0);
    assert_eq!(z.len(), 6);
    assert!(z.as_slice().iter().all(|v| *v == 0.0));
    let zr: Mat<f64> = Mat::zeros_row(4, 1.5);
    assert_eq!(zr.rows(), 1);
    assert_eq!(zr.as_slice(), &[1.5, 1.5, 1.5, 1.5]);
    let cz = Mat::clone_zero(&z, 0.0);
    assert_eq!(cz.rows(), 2);
    assert_eq!(cz.cols(), 3);
    let n = Mat::new(&[1.0, 2.0, 3.0, 4.0, 5.0, 6.0], 3, 2);
    assert_eq!(n.get(2, 0), 5.0);
    assert_eq!(n.get_row(1), &[3.0, 4.0]);
    let r = Mat::row_from_slice(&[7.0, 8.0]);
    assert_eq!(r.rows(), 1);
    assert_eq!(r.cols(), 2);
    let g: Mat<f64> = Mat::generate(3, 2, || (rand::random::<f64>() - 0.5) * 2.0);
    assert_eq!(g.len(), 6);
    assert!(g.as_slice().iter().all(|v| *v >= -1.0 && *v <= 1.0));
}

#[test]
fn set_and_copy_from() {
    let mut a: Mat<f64> = Mat::zeros(2, 2, 0.0);
    a.set(1, 0, 9.0);
    assert_eq!(a.as_slice(), &[0.0, 0.0, 9.0, 0.0]);
    let mut b: Mat<f64> = Mat::zeros(2, 2, 1.0);
    b.copy_from(&a);
    assert!(same(&a, &b));
}

#[test]
fn elementwise_operations() {
    let a = mat(&[&[1.0, 2.0], &[3.0, 4.0]]);
    let b = mat(&[&[10.0, 20.0], &[30.0, 40.0]]);
    let s = a.zip_with(&b, |x, y| x + y);
    assert_eq!(s.as_slice(), &[11.0, 22.0, 33.0, 44.0]);
    let d = b.zip_with(&a, |x, y| x - y);
    assert_eq!(d.as_slice(), &[9.0, 18.0, 27.0, 36.0]);
    let h = a.zip_with(&b, |x, y| x * y);
    assert_eq!(h.as_slice(), &[10.0, 40.0, 90.0, 160.0]);
    let m = a.map(|x| x * 2.0);
    assert_eq!(m.as_slice(), &[2.0, 4.0, 6.0, 8.0]);
    let e = a.zip_each_row(&[100.0, 200.0], |x, y| x + y);
    assert_eq!(e.as_slice(), &[101.0, 202.0, 103.0, 204.0]);
}
