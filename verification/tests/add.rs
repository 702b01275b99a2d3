use matrix::{Complex, Matrix, Rat, Vector};

fn ri(n: i64) -> Rat {
    Rat::from_int(n)
}

fn rv(xs: &[i64]) -> Vector<Rat> {
    Vector::from_vec(xs.iter().map(|&x| Rat::from_int(x)).collect())
}

fn rm(rows: &[&[i64]]) -> Matrix<Rat> {
    Matrix::from_rows(rows.iter().map(|r| r.iter().map(|&x| Rat::from_int(x)).collect()).collect())
}

fn cx(a: i64, b: i64) -> Complex {
    Complex::new(Rat::from_int(a), Rat::from_int(b))
}

#[test]
fn test_vector_add() {
    let mut u = rv(&[2, 3]);
    let v = rv(&[5, 7]);
    u.add(&v);
    assert_eq!(u.data, vec![ri(7), ri(10)]);
}

#[test]
fn test_matrix_add() {
    let mut u = rm(&[&[1, 2], &[3, 4]]);
    let v = rm(&[&[7, 4], &[-2, 2]]);
    u.add(&v);
    assert_eq!(u.data, vec![vec![ri(8), ri(6)], vec![ri(1), ri(6)]]);
}

#[test]
fn test_vector_add_2() {
    for i in 0..20 {
        let size = i;
        let mut v = vec![];
        for k in 0..size {
            v.push(ri(k));
        }
        let mut a = Vector::from_vec(v);
        let b = a.clone();
        a.add(&b);

        for k in 0..size as usize {
            assert_eq!(a.data[k].div(ri(2)), b.data[k], "a[i] and b[i] must equal");
        }
    }
}

#[test]
fn test_add_complex_vector() {
    let mut u = Vector::from_vec(vec![cx(1, 2), cx(-1, -3)]);
    let v = Vector::from_vec(vec![cx(1, 3), cx(2, 3)]);
    u.add(&v);
    assert_eq!(u.data, vec![cx(2, 5), cx(1, 0)]);
}

#[test]
fn test_add_complex_matrix() {
    let mut u = Matrix::from_rows(vec![vec![cx(1, 0), cx(2, 0)], vec![cx(3, 0), cx(5, 0)]]);
    let v = Matrix::from_rows(vec![vec![cx(7, 0), cx(3, 0)], vec![cx(-2, 0), cx(2, 0)]]);
    u.add(&v);
    assert_eq!(
        u.data,
        vec![vec![cx(8, 0), cx(5, 0)], vec![cx(1, 0), cx(7, 0)]]
    );
}

#[test]
fn test_add_complex() {
    for i in 0..20 {
        let size = i;
        let mut v = vec![];
        for k in 0..size {
            v.push(ri(k));
        }
        let mut a: Vector<Rat> = Vector::from_vec(v);
        let b = a.clone();
        a.add(&b);

        for k in 0..size as usize {
            assert_eq!(a.data[k].div(ri(2)), b.data[k], "a[i] and b[i] must equal");
        }
    }
}
