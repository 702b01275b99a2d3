use matrix::{Complex, Rat, Vector};

fn ri(n: i64) -> Rat {
    Rat::from_int(n)
}

fn rv(xs: &[i64]) -> Vector<Rat> {
    Vector::from_vec(xs.iter().map(|&x| Rat::from_int(x)).collect())
}

fn cx(a: i64, b: i64) -> Complex {
    Complex::new(Rat::from_int(a), Rat::from_int(b))
}

fn f(x: Rat) -> f64 {
    x.num as f64 / x.den as f64
}

fn approx(a: f64, b: f64) -> bool {
    (a - b).abs() < 1e-6
}

#[test]
fn test_norm() {
    let u = rv(&[0, 0, 0]);
    assert_eq!(u.norm_1(), ri(0));
    assert_eq!(u.norm(), ri(0));
    assert_eq!(u.norm_inf(), ri(0));

    let u = rv(&[1, 2, 3]);
    assert_eq!(u.norm_1(), ri(6));
    assert!(approx(f(u.norm()), 3.74165738_f64));
    assert_eq!(u.norm_inf(), ri(3));

    let u = rv(&[-1, -2]);
    assert_eq!(u.norm_1(), ri(3));
    assert!(approx(f(u.norm()), 2.236067977_f64));
    assert_eq!(u.norm_inf(), ri(2));

    let u = rv(&[1, 2, 3, 4]);
    assert_eq!(u.norm_1(), ri(10));
    assert!(approx(f(u.norm()), 5.477225575_f64));
    assert_eq!(u.norm_inf(), ri(4));

    let u = rv(&[1, 2, 3, 4, 5]);
    assert_eq!(u.norm_1(), ri(15));
    assert!(approx(f(u.norm()), 7.416198487_f64));
    assert_eq!(u.norm_inf(), ri(5));

    let u = rv(&[1, 2, 3, 4, 5, 6]);
    assert_eq!(u.norm_1(), ri(21));
    assert!(approx(f(u.norm()), 9.539392014_f64));
    assert_eq!(u.norm_inf(), ri(6));
}

#[test]
fn test_norm_complex_numbers() {
    let u = Vector::from_vec(vec![cx(1, 2), cx(3, 4)]);
    assert!(approx(f(u.norm_1()), 7.236068));
    assert!(approx(f(u.norm()), 5.477225575));
    assert_eq!(u.norm_inf(), ri(5));
}
