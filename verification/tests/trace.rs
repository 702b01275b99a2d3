use matrix::{Complex, Matrix, Rat};

fn ri(n: i64) -> Rat {
    Rat::from_int(n)
}

fn rm(rows: &[&[i64]]) -> Matrix<Rat> {
    Matrix::from_rows(rows.iter().map(|r| r.iter().map(|&x| Rat::from_int(x)).collect()).collect())
}

fn cx(a: i64, b: i64) -> Complex {
    Complex::new(Rat::from_int(a), Rat::from_int(b))
}

#[test]
fn test_trace() {
    let u = rm(&[&[1, 0], &[0, 1]]);
    let a = u.trace();
    assert_eq!(a.unwrap(), ri(2));

    let u = rm(&[&[2, -5, 0], &[4, 3, 7], &[-2, 3, 4]]);
    let a = u.trace();
    assert_eq!(a.unwrap(), ri(9));

    let u = rm(&[&[-2, -8, 4], &[1, -23, 4], &[0, 6, 4]]);
    let a = u.trace();
    assert_eq!(a.unwrap(), ri(-21));
}

#[test]
fn test_trace_complex() {
    let u = Matrix::from_rows(vec![vec![cx(1, 0), cx(0, 1)], vec![cx(0, 0), cx(1, 0)]]);
    let a = u.trace();
    assert_eq!(a.unwrap(), cx(2, 0));

    let u = Matrix::from_rows(vec![vec![cx(2, -5), cx(0, 0)], vec![cx(4, 3), cx(7, 0)]]);
    let a = u.trace();
    assert_eq!(a.unwrap(), cx(9, -5));

    let u = Matrix::from_rows(vec![
        vec![cx(-2, 0), cx(-8, 0), cx(4, 0)],
        vec![cx(1, 0), cx(-23, 0), cx(4, 0)],
        vec![cx(0, 0), cx(6, 0), cx(4, 0)],
    ]);
    let a = u.trace();
    assert_eq!(a.unwrap(), cx(-21, 0));
}

#[test]
fn test_trace_empty_matrix_is_none() {
    let u: Matrix<Rat> = Matrix::from_rows(vec![]);
    assert!(u.trace().is_none());
}
