use matrix::{lerp, Complex, Matrix, Rat, Vector};

fn ri(n: i64) -> Rat {
    Rat::from_int(n)
}

fn rq(n: i64, d: i64) -> Rat {
    Rat::new(n, d)
}

fn rv(xs: &[i64]) -> Vector<Rat> {
    Vector::from_vec(xs.iter().map(|&x| Rat::from_int(x)).collect())
}

fn rm(rows: &[&[i64]]) -> Matrix<Rat> {
    Matrix::from_rows(rows.iter().map(|r| r.iter().map(|&x| Rat::from_int(x)).collect()).collect())
}

fn cx(a: i64, b: i64) -> Complex {
    Complex::new(Rat::from_int(a), Rat::from_int(b))
}

fn cq(an: i64, ad: i64, bn: i64, bd: i64) -> Complex {
    Complex::new(Rat::new(an, ad), Rat::new(bn, bd))
}

fn f(x: Rat) -> f64 {
    x.num as f64 / x.den as f64
}

fn approx(a: f64, b: f64) -> bool {
    (a - b).abs() < 1e-6
}

#[test]
fn test_lerp() {
    assert_eq!(lerp(ri(0), ri(1), ri(0)), ri(0));
    assert_eq!(lerp(ri(0), ri(1), ri(1)), ri(1));
    assert_eq!(lerp(ri(0), ri(1), rq(1, 2)), rq(1, 2));
    assert!(approx(f(lerp(ri(21), ri(42), rq(3, 10))), 27.3_f64));
}

#[test]
fn test_lerp_vector() {
    let a = lerp(rv(&[2, 1]), rv(&[4, 2]), rq(3, 10));
    assert_eq!(a.data, vec![rq(13, 5), rq(13, 10)]);
    let b = lerp(rv(&[2, 1]), rv(&[4, 2]), rq(1, 2));
    assert_eq!(b.data, vec![ri(3), rq(3, 2)]);
    let c = lerp(rv(&[2, 1]), rv(&[4, 2]), rq(7, 10));
    assert_eq!(c.data, vec![rq(17, 5), rq(17, 10)]);
}

#[test]
fn test_lerp_matrix() {
    let b = lerp(
        rm(&[&[2, 1], &[3, 4]]),
        rm(&[&[20, 10], &[30, 40]]),
        rq(1, 2),
    );
    assert_eq!(
        b.data,
        vec![vec![ri(11), rq(11, 2)], vec![rq(33, 2), ri(22)]]
    );
    let c = lerp(
        rm(&[&[2, 1], &[3, 4]]),
        rm(&[&[20, 10], &[30, 40]]),
        rq(3, 10),
    );
    assert_eq!(
        c.data,
        vec![vec![rq(37, 5), rq(37, 10)], vec![rq(111, 10), rq(74, 5)]]
    );
    let d = lerp(rm(&[&[2, 1], &[3, 4]]), rm(&[&[20, 10], &[30, 40]]), ri(0));
    assert_eq!(d.data, vec![vec![ri(2), ri(1)], vec![ri(3), ri(4)]]);
    let e = lerp(rm(&[&[2, 1], &[3, 4]]), rm(&[&[20, 10], &[30, 40]]), ri(1));
    assert_eq!(e.data, vec![vec![ri(20), ri(10)], vec![ri(30), ri(40)]]);
}

#[test]
fn test_lerp_complex_numbers() {
    let a = lerp(cx(2, 1), cx(4, 2), rq(3, 10));
    assert_eq!(a, cq(13, 5, 13, 10));
}

#[test]
fn test_lerp_complex_vector() {
    let a = lerp(
        Vector::from_vec(vec![cx(2, 1), cx(3, 4)]),
        Vector::from_vec(vec![cx(4, 2), cx(5, 6)]),
        rq(3, 10),
    );
    assert_eq!(a.data, vec![cq(13, 5, 13, 10), cq(18, 5, 23, 5)]);

    let b = lerp(
        Vector::from_vec(vec![cx(2, 1), cx(3, 4)]),
        Vector::from_vec(vec![cx(4, 2), cx(5, 6)]),
        rq(1, 2),
    );
    assert_eq!(b.data, vec![cq(3, 1, 3, 2), cq(4, 1, 5, 1)]);
}

#[test]
fn test_lerp_complex_matrix() {
    let a = lerp(
        Matrix::from_rows(vec![vec![cx(2, 1), cx(3, 4)], vec![cx(5, 6), cx(7, 8)]]),
        Matrix::from_rows(vec![vec![cx(4, 2), cx(5, 6)], vec![cx(8, 9), cx(10, 11)]]),
        rq(3, 10),
    );
    assert_eq!(
        a.data,
        vec![
            vec![cq(13, 5, 13, 10), cq(18, 5, 23, 5)],
            vec![cq(59, 10, 69, 10), cq(79, 10, 89, 10)]
        ]
    );

    let b = lerp(
        Matrix::from_rows(vec![vec![cx(2, 1), cx(3, 4)], vec![cx(5, 6), cx(7, 8)]]),
        Matrix::from_rows(vec![vec![cx(4, 2), cx(5, 6)], vec![cx(8, 9), cx(10, 11)]]),
        rq(1, 2),
    );
    assert_eq!(
        b.data,
        vec![
            vec![cq(3, 1, 3, 2), cq(4, 1, 5, 1)],
            vec![cq(13, 2, 15, 2), cq(17, 2, 19, 2)]
        ]
    );
}
