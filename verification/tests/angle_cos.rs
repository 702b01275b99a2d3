use matrix::{angle_cos, Complex, Rat, Vector};

fn ri(n: i64) -> Rat {
    Rat::from_int(n)
}

fn rv(xs: &[i64]) -> Vector<Rat> {
    Vector::from_vec(xs.iter().map(|&x| Rat::from_int(x)).collect())
}

fn cx(a: i64, b: i64) -> Complex {
    Complex::new(Rat::from_int(a), Rat::from_int(b))
}

fn f(x: Rat) -> f64 {
    x.num as f64 / x.den as f64
}

fn approx(a: f64, b: f64) -> bool {
    (a - b).abs() < 1e-6
}

#[test]
fn test_angle_cos() {
    let u = rv(&[1, 0]);
    let v = rv(&[1, 0]);
    assert_eq!(angle_cos(&u, &v), ri(1));

    let u = rv(&[1, 0]);
    let v = rv(&[0, 1]);
    assert_eq!(angle_cos(&u, &v), ri(0)); // 0.0

    let u = rv(&[-1, 1]);
    let v = rv(&[1, -1]);
    assert!(approx(f(angle_cos(&u, &v)), -1.0_f64)); // -1.0

    let u = rv(&[2, 1]);
    let v = rv(&[4, 2]);
    assert!(approx(f(angle_cos(&u, &v)), 1.0_f64)); // 1.0

    let u = rv(&[1, 2, 3]);
    let v = rv(&[4, 5, 6]);
    assert!(approx(f(angle_cos(&u, &v)), 0.974631846_f64));
}

#[test]
fn test_angle_cos_complex_vectors() {
    let u = Vector::from_vec(vec![cx(1, 0), cx(0, 1)]);
    let v = Vector::from_vec(vec![cx(1, 0), cx(0, 1)]);
    assert!(approx(f(angle_cos(&u, &v)), 1.0_f64));
}
