use matrix::{Complex, Matrix, Rat, Vector};

fn ri(n: i64) -> Rat {
    Rat::from_int(n)
}

fn rv(xs: &[i64]) -> Vector<Rat> {
    Vector::from_vec(xs.iter().map(|&x| Rat::from_int(x)).collect())
}

fn rm(rows: &[&[i64]]) -> Matrix<Rat> {
    Matrix::from_rows(rows.iter().map(|r| r.iter().map(|&x| Rat::from_int(x)).collect()).collect())
}

fn cx(a: i64, b: i64) -> Complex {
    Complex::new(Rat::from_int(a), Rat::from_int(b))
}

#[test]
fn test_linear_map_mul_vec() {
    let u = rm(&[&[1, 0], &[0, 1]]);
    let v = rv(&[4, 2]);
    let a = u.mul_vec(&v);
    assert_eq!(a.data, vec![ri(4), ri(2)]);

    let u = rm(&[&[2, 0], &[0, 2]]);
    let v = rv(&[4, 2]);
    let a = u.mul_vec(&v);
    assert_eq!(a.data, vec![ri(8), ri(4)]);

    let u = rm(&[&[2, -2], &[-2, 2]]);
    let v = rv(&[4, 2]);
    let a = u.mul_vec(&v);
    assert_eq!(a.data, vec![ri(4), ri(-4)]);
}

#[test]
fn test_linear_map_mul_mat() {
    let u = rm(&[&[1, 0], &[0, 1]]);
    let v = rm(&[&[1, 0], &[0, 1]]);
    let a = u.mul_mat(&v);
    assert_eq!(a.data, vec![vec![ri(1), ri(0)], vec![ri(0), ri(1)]]);

    let u = rm(&[&[1, 0], &[0, 1]]);
    let v = rm(&[&[2, 1], &[4, 2]]);
    let a = u.mul_mat(&v);
    assert_eq!(a.data, vec![vec![ri(2), ri(1)], vec![ri(4), ri(2)]]);

    let u = rm(&[&[3, -5], &[6, 8]]);
    let v = rm(&[&[2, 1], &[4, 2]]);
    let a = u.mul_mat(&v);
    assert_eq!(a.data, vec![vec![ri(-14), ri(-7)], vec![ri(44), ri(22)]]);
}

#[test]
fn test_linear_map_mul_vec_complex() {
    let u = Matrix::from_rows(vec![vec![cx(1, 0), cx(0, 1)], vec![cx(0, 0), cx(1, 0)]]);
    let v = Vector::from_vec(vec![cx(4, 0), cx(2, 0)]);
    let a = u.mul_vec(&v);
    assert_eq!(a.data, vec![cx(4, 2), cx(2, 0)]);

    let u = Matrix::from_rows(vec![vec![cx(2, 0), cx(0, 0)], vec![cx(0, 0), cx(2, 0)]]);
    let v = Vector::from_vec(vec![cx(4, 0), cx(2, 0)]);
    let a = u.mul_vec(&v);
    assert_eq!(a.data, vec![cx(8, 0), cx(4, 0)]);

    let u = Matrix::from_rows(vec![vec![cx(2, 0), cx(-2, 0)], vec![cx(-2, 0), cx(2, 0)]]);
    let v = Vector::from_vec(vec![cx(4, 0), cx(2, 0)]);
    let a = u.mul_vec(&v);
    assert_eq!(a.data, vec![cx(4, 0), cx(-4, 0)]);
}

#[test]
fn test_linear_map_mul_mat_complex() {
    let u = Matrix::from_rows(vec![vec![cx(1, 0), cx(0, 1)], vec![cx(0, 0), cx(1, 0)]]);
    let v = Matrix::from_rows(vec![vec![cx(1, 0), cx(0, 1)], vec![cx(0, 0), cx(1, 0)]]);
    let a = u.mul_mat(&v);
    assert_eq!(a.data, vec![vec![cx(1, 0), cx(0, 2)], vec![cx(0, 0), cx(1, 0)]]);

    let u = Matrix::from_rows(vec![vec![cx(1, 0), cx(0, 1)], vec![cx(0, 0), cx(1, 0)]]);
    let v = Matrix::from_rows(vec![vec![cx(2, 0), cx(1, 0)], vec![cx(4, 0), cx(2, 0)]]);
    let a = u.mul_mat(&v);
    assert_eq!(a.data, vec![vec![cx(2, 4), cx(1, 2)], vec![cx(4, 0), cx(2, 0)]]);

    let u = Matrix::from_rows(vec![vec![cx(3, 0), cx(-5, 0)], vec![cx(6, 0), cx(8, 0)]]);
    let v = Matrix::from_rows(vec![vec![cx(2, 0), cx(1, 0)], vec![cx(4, 0), cx(2, 0)]]);
    let a = u.mul_mat(&v);
    assert_eq!(a.data, vec![vec![cx(-14, 0), cx(-7, 0)], vec![cx(44, 0), cx(22, 0)]]);

    let u = Matrix::from_rows(vec![vec![cx(1, 0), cx(0, 1)], vec![cx(0, 0), cx(1, 0)]]);
    let v = Matrix::from_rows(vec![vec![cx(1, 0), cx(0, 1)], vec![cx(0, 0), cx(1, 0)]]);
    let a = u.mul_mat(&v);
    assert_eq!(a.data, vec![vec![cx(1, 0), cx(0, 2)], vec![cx(0, 0), cx(1, 0)]]);
}
