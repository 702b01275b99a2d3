use matrix::{cross_product, Complex, Rat, Vector};

fn ri(n: i64) -> Rat {
    Rat::from_int(n)
}

fn rv(xs: &[i64]) -> Vector<Rat> {
    Vector::from_vec(xs.iter().map(|&x| Rat::from_int(x)).collect())
}

fn cx(a: i64, b: i64) -> Complex {
    Complex::new(Rat::from_int(a), Rat::from_int(b))
}

#[test]
fn test_cross_product() {
    let u = rv(&[0, 0, 1]);
    let v = rv(&[1, 0, 0]);
    let a = cross_product(&u, &v);
    assert_eq!(a.data, vec![ri(0), ri(1), ri(0)]);

    let u = rv(&[1, 2, 3]);
    let v = rv(&[4, 5, 6]);
    let b = cross_product(&u, &v);
    assert_eq!(b.data, vec![ri(-3), ri(6), ri(-3)]);

    let u = rv(&[4, 2, -3]);
    let v = rv(&[-2, -5, 16]);
    let c = cross_product(&u, &v);
    assert_eq!(c.data, vec![ri(17), ri(-58), ri(-16)]);
}

#[test]
fn test_cross_product_complex() {
    let u = Vector::from_vec(vec![cx(1, 2), cx(3, 4), cx(5, 6)]);
    let v = Vector::from_vec(vec![cx(7, 8), cx(9, 10), cx(11, 12)]);
    let a = cross_product(&u, &v);
    assert_eq!(a.data, vec![cx(0, -24), cx(0, 48), cx(0, -24)]);
}
