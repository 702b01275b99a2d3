use matrix::{linear_combination, Complex, Rat, Vector};

fn ri(n: i64) -> Rat {
    Rat::from_int(n)
}

fn rq(n: i64, d: i64) -> Rat {
    Rat::new(n, d)
}

fn rv(xs: &[i64]) -> Vector<Rat> {
    Vector::from_vec(xs.iter().map(|&x| Rat::from_int(x)).collect())
}

fn cx(a: i64, b: i64) -> Complex {
    Complex::new(Rat::from_int(a), Rat::from_int(b))
}

fn cq(an: i64, ad: i64, bn: i64, bd: i64) -> Complex {
    Complex::new(Rat::new(an, ad), Rat::new(bn, bd))
}

#[test]
fn test_linear_combination() {
    let e1 = rv(&[1, 0, 0]);
    let e2 = rv(&[0, 1, 0]);
    let e3 = rv(&[0, 0, 1]);
    let v1 = rv(&[1, 2, 3]);
    let v2 = rv(&[0, 10, -100]);

    let a = linear_combination(
        &vec![e1.clone(), e2.clone(), e3.clone()],
        &vec![ri(10), ri(-2), rq(1, 2)],
    );
    assert_eq!(a.data, vec![ri(10), ri(-2), rq(1, 2)]);

    let b = linear_combination(&vec![v1.clone(), v2.clone()], &vec![ri(10), ri(-2)]);
    assert_eq!(b.data, vec![ri(10), ri(0), ri(230)]);

    let c = linear_combination(&vec![e1, v1, v2], &vec![ri(10), ri(-2), rq(1, 2)]);
    assert_eq!(c.data, vec![ri(8), ri(1), ri(-56)]);
}

#[test]
fn test_linear_combination_empty() {
    let v: Vec<Vector<Rat>> = vec![];
    let coefs: Vec<Rat> = vec![];
    let a = linear_combination(&v, &coefs);
    assert!(
        a.is_empty(),
        "linear combination of empty vectors should be empty"
    );
}

#[test]
fn test_linear_combination_vector_complex_numbers() {
    let e1 = Vector::from_vec(vec![cx(1, 0), cx(0, 0)]);
    let e2 = Vector::from_vec(vec![cx(0, 1), cx(0, 0)]);
    let e3 = Vector::from_vec(vec![cx(0, 0), cx(1, 0)]);
    let v1 = Vector::from_vec(vec![cx(1, 2), cx(3, 4)]);
    let v2 = Vector::from_vec(vec![cx(0, 10), cx(-100, 0)]);
    let a = linear_combination(
        &vec![e1, e2, e3],
        &vec![cx(10, 0), cx(-2, 0), cq(1, 2, 0, 1)],
    );
    assert_eq!(
        a.data,
        vec![cx(10, -2), cq(1, 2, 0, 1)],
        "linear combination of complex vectors failed"
    );
    let b = linear_combination(&vec![v1, v2], &vec![cx(10, 0), cx(-2, 0)]);
    assert_eq!(
        b.data,
        vec![cx(10, 0), cx(230, 40)],
        "linear combination of complex vectors failed"
    );
}
