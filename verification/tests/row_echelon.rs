use matrix::{Complex, Matrix, Rat};

fn ri(n: i64) -> Rat {
    Rat::from_int(n)
}

fn rq(n: i64, d: i64) -> Rat {
    Rat::new(n, d)
}

fn rm(rows: &[&[i64]]) -> Matrix<Rat> {
    Matrix::from_rows(rows.iter().map(|r| r.iter().map(|&x| Rat::from_int(x)).collect()).collect())
}

fn cx(a: i64, b: i64) -> Complex {
    Complex::new(Rat::from_int(a), Rat::from_int(b))
}

fn f(x: Rat) -> f64 {
    x.num as f64 / x.den as f64
}

fn approx(a: f64, b: f64) -> bool {
    (a - b).abs() < 1e-6
}

#[test]
fn test_row_echelon() {
    let u = rm(&[&[1, 0, 0], &[0, 1, 0], &[0, 0, 1]]);
    let a = u.row_echelon();
    assert_eq!(
        a.data,
        vec![
            vec![ri(1), ri(0), ri(0)],
            vec![ri(0), ri(1), ri(0)],
            vec![ri(0), ri(0), ri(1)]
        ]
    );

    let u = rm(&[&[1, 2], &[3, 4]]);
    let a = u.row_echelon();
    assert_eq!(a.data, vec![vec![ri(1), ri(0)], vec![ri(0), ri(1)]]);

    let u = rm(&[&[1, 2], &[2, 4]]);
    let a = u.row_echelon();
    assert_eq!(a.data, vec![vec![ri(1), ri(2)], vec![ri(0), ri(0)]]);

    let u = Matrix::from_rows(vec![
        vec![ri(8), ri(5), ri(-2), ri(4), ri(28)],
        vec![ri(4), rq(5, 2), ri(20), ri(4), ri(-4)],
        vec![ri(8), ri(5), ri(1), ri(4), ri(17)],
    ]);
    let a = u.row_echelon();
    let expect = [
        1.0_f64,
        0.625_f64,
        0.0_f64,
        0.0_f64,
        -12.1666667_f64,
        0.0_f64,
        0.0_f64,
        1.0_f64,
        0.0_f64,
        -3.6666667_f64,
        0.0_f64,
        0.0_f64,
        0.0_f64,
        1.0_f64,
        29.5_f64,
    ];
    let mut k = 0;
    for row in &a.data {
        for x in row {
            assert!(approx(f(*x), expect[k]));
            k += 1;
        }
    }
}

#[test]
fn test_row_echelon_complex() {
    let u = Matrix::from_rows(vec![vec![cx(1, -1), cx(2, 3)], vec![cx(4, 5), cx(6, 7)]]);
    let a = u.row_echelon();
    assert_eq!(
        a.data,
        vec![vec![cx(1, 0), cx(0, 0)], vec![cx(0, 0), cx(1, 0)]]
    );

    let u = Matrix::from_rows(vec![vec![cx(1, 2), cx(3, -12)], vec![cx(2, 4), cx(6, -24)]]);
    let a = u.row_echelon();
    assert_eq!(a.data[0][0], cx(1, 0));
    assert!(approx(f(a.data[0][1].re), -4.2));
    assert!(approx(f(a.data[0][1].im), -3.6));
    assert_eq!(a.data[1], vec![cx(0, 0), cx(0, 0)]);

    let u = Matrix::from_rows(vec![
        vec![cx(1, 2), cx(3, -12), cx(5, 6)],
        vec![cx(2, 4), cx(6, -24), cx(8, 9)],
        vec![cx(3, 6), cx(9, -36), cx(11, 12)],
    ]);
    let a = u.row_echelon();
    assert_eq!(a.data[0][0], cx(1, 0));
    assert!(approx(f(a.data[0][1].re), -4.2));
    assert!(approx(f(a.data[0][1].im), -3.6));
    assert_eq!(a.data[0][2], cx(0, 0));
    assert_eq!(a.data[1], vec![cx(0, 0), cx(0, 0), cx(1, 0)]);
    assert_eq!(a.data[2], vec![cx(0, 0), cx(0, 0), cx(0, 0)]);
}
