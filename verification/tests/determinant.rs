use matrix::{Complex, Matrix, Rat};

fn ri(n: i64) -> Rat {
    Rat::from_int(n)
}

fn rq(n: i64, d: i64) -> Rat {
    Rat::new(n, d)
}

fn rm(rows: &[&[i64]]) -> Matrix<Rat> {
    Matrix::from_rows(rows.iter().map(|r| r.iter().map(|&x| Rat::from_int(x)).collect()).collect())
}

fn cx(a: i64, b: i64) -> Complex {
    Complex::new(Rat::from_int(a), Rat::from_int(b))
}

#[test]
fn test_determinant() {
    let u = rm(&[&[1, -1], &[-1, 1]]);
    let a = u.determinant();
    assert_eq!(a, ri(0));

    let u = rm(&[&[2, 0, 0], &[0, 2, 0], &[0, 0, 2]]);
    let a = u.determinant();
    assert_eq!(a, ri(8));

    let u = rm(&[&[8, 5, -2], &[4, 7, 20], &[7, 6, 1]]);
    let a = u.determinant();
    assert_eq!(a, ri(-174));

    let u = Matrix::from_rows(vec![
        vec![ri(8), ri(5), ri(-2), ri(4)],
        vec![ri(4), rq(5, 2), ri(20), ri(4)],
        vec![ri(8), ri(5), ri(1), ri(4)],
        vec![ri(28), ri(-4), ri(17), ri(1)],
    ]);
    let a = u.determinant();
    assert_eq!(a, ri(1032));
}

#[test]
fn test_determinant_complex() {
    let u = Matrix::from_rows(vec![vec![cx(1, -1), cx(2, 3)], vec![cx(4, 5), cx(6, 7)]]);
    let a = u.determinant();
    assert_eq!(a, cx(20, -21));

    let u = Matrix::from_rows(vec![vec![cx(1, 0), cx(2, 0)], vec![cx(3, 0), cx(4, 0)]]);
    let a = u.determinant();
    assert_eq!(a, cx(-2, 0));

    let u = Matrix::from_rows(vec![vec![cx(1, 1), cx(2, 2)], vec![cx(3, 3), cx(4, 4)]]);
    let a = u.determinant();
    assert_eq!(a, cx(0, -4));

    let u = Matrix::from_rows(vec![vec![cx(1, 2), cx(3, 4)], vec![cx(5, 6), cx(7, 8)]]);
    let a = u.determinant();
    assert_eq!(a, cx(0, -16));
}
