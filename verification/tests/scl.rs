use matrix::{Complex, Matrix, Rat, Scalar, Vector};

fn ri(n: i64) -> Rat {
    Rat::from_int(n)
}

fn rv(xs: &[i64]) -> Vector<Rat> {
    Vector::from_vec(xs.iter().map(|&x| Rat::from_int(x)).collect())
}

fn rm(rows: &[&[i64]]) -> Matrix<Rat> {
    Matrix::from_rows(rows.iter().map(|r| r.iter().map(|&x| Rat::from_int(x)).collect()).collect())
}

fn cx(a: i64, b: i64) -> Complex {
    Complex::new(Rat::from_int(a), Rat::from_int(b))
}

#[test]
fn test_vector_scl() {
    let mut u = rv(&[2, 3]);
    let v = ri(2);
    u.scl(v);
    assert_eq!(u.data, vec![ri(4), ri(6)]);
}

#[test]
fn test_matrix_scl() {
    let mut u = rm(&[&[1, 2], &[3, 4]]);
    let v = ri(2);
    u.scl(v);
    assert_eq!(u.data, vec![vec![ri(2), ri(4)], vec![ri(6), ri(8)]]);
}

#[test]
fn test_vector_scl_2() {
    for i in 0..20 {
        let size = i;
        let mut v = vec![];
        for k in 0..size {
            v.push(ri(k));
        }
        let mut a = Vector::from_vec(v);
        let b = a.clone();
        a.scl(ri(2));
        for k in 0..size as usize {
            assert_eq!(a.data[k].div(ri(2)), b.data[k], "a[i] and b[i] must equal");
        }
    }
}

#[test]
fn test_scl_complex_vector() {
    let mut u = Vector::from_vec(vec![cx(1, 2), cx(-1, -3)]);
    let v = cx(2, 3);
    u.scl(v);
    assert_eq!(u.data, vec![cx(-4, 7), cx(7, -9)]);

    u = Vector::from_vec(vec![cx(1, 0), cx(2, 0)]);
    let v = cx(2, 3);
    u.scl(v);
    assert_eq!(u.data, vec![cx(2, 3), cx(4, 6)]);

    u = Vector::from_vec(vec![cx(1, 0), cx(2, 0), cx(3, 0)]);
    let v = cx(2, 3);
    u.scl(v);
    assert_eq!(u.data, vec![cx(2, 3), cx(4, 6), cx(6, 9)]);
}

#[test]
fn test_scl_complex_matrix() {
    let mut u = Matrix::from_rows(vec![vec![cx(1, 2), cx(-1, -3)], vec![cx(2, 0), cx(3, 0)]]);
    let v = cx(2, 3);
    u.scl(v);
    assert_eq!(
        u.data,
        vec![vec![cx(-4, 7), cx(7, -9)], vec![cx(4, 6), cx(6, 9)]]
    );

    u = Matrix::from_rows(vec![vec![cx(1, 0), cx(2, 0)], vec![cx(3, 0), cx(4, 0)]]);
    let v = cx(2, 3);
    u.scl(v);
    assert_eq!(
        u.data,
        vec![vec![cx(2, 3), cx(4, 6)], vec![cx(6, 9), cx(8, 12)]]
    );

    u = Matrix::from_rows(vec![
        vec![cx(1, 0), cx(2, 0), cx(3, 0)],
        vec![cx(4, 0), cx(5, 0), cx(6, 0)],
    ]);
    let v = cx(9, 4);
    u.scl(v);
    assert_eq!(
        u.data,
        vec![
            vec![cx(9, 4), cx(18, 8), cx(27, 12)],
            vec![cx(36, 16), cx(45, 20), cx(54, 24)]
        ]
    );
}

#[test]
fn test_scl_complex() {
    for i in 0..20 {
        let size = i;
        let mut v = vec![];
        for k in 0..size {
            v.push(cx(k, k + 1));
        }
        let mut a = Vector::from_vec(v);
        let b = a.clone();
        a.scl(cx(2, 3));
        for k in 0..size as usize {
            assert_eq!(
                b.data[k],
                a.data[k].div(cx(2, 3)),
                "a[i] and b[i] must equal for i = {}",
                k
            );
        }
    }
}
