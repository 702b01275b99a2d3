use matrix::{cross_product, lerp, Complex, Dot, Matrix, Rat, Sqrt, Vector};

fn ri(n: i64) -> Rat {
    Rat::from_int(n)
}

fn rq(n: i64, d: i64) -> Rat {
    Rat::new(n, d)
}

fn rv(xs: &[i64]) -> Vector<Rat> {
    Vector::from_vec(xs.iter().map(|&x| Rat::from_int(x)).collect())
}

fn rm(rows: &[&[i64]]) -> Matrix<Rat> {
    Matrix::from_rows(rows.iter().map(|r| r.iter().map(|&x| Rat::from_int(x)).collect()).collect())
}

fn cx(a: i64, b: i64) -> Complex {
    Complex::new(Rat::from_int(a), Rat::from_int(b))
}

#[test]
fn test_add_then_sub_restores() {
    let mut u = Vector::from_vec(vec![rq(7, 3), ri(-4), rq(22, 7)]);
    let orig = u.clone();
    let v = Vector::from_vec(vec![rq(1, 6), ri(9), rq(-3, 14)]);
    u.add(&v);
    u.sub(&v);
    assert_eq!(u.data, orig.data);
}

#[test]
fn test_inverse_times_matrix_is_identity() {
    let a = rm(&[&[8, 5, -2], &[4, 7, 20], &[7, 6, 1]]);
    let b = a.inverse().unwrap();
    let p = b.mul_mat(&a);
    let id = rm(&[&[1, 0, 0], &[0, 1, 0], &[0, 0, 1]]);
    assert_eq!(p.data, id.data);

    let a = Matrix::from_rows(vec![vec![cx(1, -1), cx(2, 3)], vec![cx(4, 5), cx(6, 7)]]);
    let b = a.inverse().unwrap();
    let p = b.mul_mat(&a);
    assert_eq!(p.data, vec![vec![cx(1, 0), cx(0, 0)], vec![cx(0, 0), cx(1, 0)]]);
}

#[test]
fn test_determinant_row_swap_negates() {
    let a = rm(&[&[8, 5, -2], &[4, 7, 20], &[7, 6, 1]]);
    let swapped = rm(&[&[4, 7, 20], &[8, 5, -2], &[7, 6, 1]]);
    assert_eq!(a.determinant(), ri(-174));
    assert_eq!(swapped.determinant(), ri(174));

    let a = rm(&[&[3, 7], &[-2, 5]]);
    let swapped = rm(&[&[-2, 5], &[3, 7]]);
    assert_eq!(a.determinant(), swapped.determinant().neg());

    let a = Matrix::from_rows(vec![vec![cx(1, -1), cx(2, 3)], vec![cx(4, 5), cx(6, 7)]]);
    let swapped = Matrix::from_rows(vec![vec![cx(4, 5), cx(6, 7)], vec![cx(1, -1), cx(2, 3)]]);
    assert_eq!(a.determinant(), cx(20, -21));
    assert_eq!(swapped.determinant(), cx(-20, 21));
}

#[test]
fn test_row_echelon_idempotent() {
    let cases = vec![
        rm(&[&[8, 5, -2, 4, 28], &[4, 2, 20, 4, -4], &[8, 5, 1, 4, 17]]),
        rm(&[&[1, 2], &[2, 4]]),
        rm(&[&[0, 0], &[0, 0]]),
        rm(&[&[1, 2, 0, 0], &[2, 4, 0, 0], &[-1, 2, 1, 1]]),
    ];
    for m in cases {
        let once = m.row_echelon();
        let twice = once.row_echelon();
        assert_eq!(once.data, twice.data);
    }
}

#[test]
fn test_lerp_endpoints_exact() {
    let u = rq(21, 13);
    let v = rq(-9, 2);
    assert_eq!(lerp(u, v, ri(0)), u);
    assert_eq!(lerp(u, v, ri(1)), v);

    let uv = Vector::from_vec(vec![rq(1, 3), rq(2, 7)]);
    let vv = Vector::from_vec(vec![rq(5, 11), rq(-8, 3)]);
    assert_eq!(lerp(uv.clone(), vv.clone(), ri(0)).data, uv.data);
    assert_eq!(lerp(uv.clone(), vv.clone(), ri(1)).data, vv.data);

    let um = rm(&[&[2, 1], &[3, 4]]);
    let vm = rm(&[&[20, 10], &[30, 40]]);
    assert_eq!(lerp(um.clone(), vm.clone(), ri(0)).data, um.data);
    assert_eq!(lerp(um.clone(), vm.clone(), ri(1)).data, vm.data);

    let uc = cx(2, 1);
    let vc = cx(4, 2);
    assert_eq!(lerp(uc, vc, ri(0)), uc);
    assert_eq!(lerp(uc, vc, ri(1)), vc);
}

#[test]
fn test_cross_product_orthogonal() {
    let u = rv(&[4, 2, -3]);
    let v = rv(&[-2, -5, 16]);
    let c = cross_product(&u, &v);
    assert_eq!(c.dot(&u), ri(0));
    assert_eq!(c.dot(&v), ri(0));

    let u = rv(&[1, 2, 3]);
    let v = rv(&[4, 5, 6]);
    let c = cross_product(&u, &v);
    assert_eq!(c.dot(&u), ri(0));
    assert_eq!(c.dot(&v), ri(0));
}

#[test]
fn test_row_space_and_col_space() {
    let u = rm(&[&[1, 2, 0, 0], &[2, 4, 0, 0], &[-1, 2, 1, 1]]);
    let rs = u.row_space();
    assert_eq!(rs.rows, 2);
    assert_eq!(rs.cols, 4);
    // The pivot rows of the reduced row echelon form.
    assert_eq!(
        rs.data,
        vec![
            vec![ri(1), ri(0), rq(-1, 2), rq(-1, 2)],
            vec![ri(0), ri(1), rq(1, 4), rq(1, 4)]
        ]
    );
    let cs = u.col_space();
    // Pivot columns 0 and 1 of the original, laid out as rows.
    assert_eq!(cs.rows, 2);
    assert_eq!(cs.cols, 3);
    assert_eq!(cs.data[0], vec![ri(1), ri(2), ri(-1)]);
    assert_eq!(cs.data[1], vec![ri(2), ri(4), ri(2)]);

    assert!(!u.is_independent());
    let v = rm(&[&[1, 0], &[0, 1]]);
    assert!(v.is_independent());
}

#[test]
fn test_vector_basics() {
    let z: Vector<Rat> = Vector::zero(3);
    assert_eq!(z.size(), 3);
    assert!(!z.is_empty());
    assert_eq!(z.data, vec![ri(0), ri(0), ri(0)]);
    assert_eq!(z.first(), Some(&ri(0)));

    let e: Vector<Rat> = Vector::zero(0);
    assert!(e.is_empty());
    assert_eq!(e.first(), None);

    let m = rm(&[&[1, 2], &[3, 4]]);
    assert_eq!(m.shape(), (2, 2));
    assert!(m.is_square());
    let n = rm(&[&[1, 2, 3]]);
    assert!(!n.is_square());
}

#[test]
fn test_sqrt_exact_on_perfect_squares() {
    assert_eq!(ri(9).sqrt(), ri(3));
    assert_eq!(ri(144).sqrt(), ri(12));
    assert_eq!(rq(9, 4).sqrt(), rq(3, 2));
    assert_eq!(ri(0).sqrt(), ri(0));
    // The root of a negative value is zero by convention.
    assert_eq!(ri(-4).sqrt(), ri(0));
}

#[test]
fn test_complex_sqrt_principal_branch() {
    // sqrt(3 + 4i) == 2 + i.
    let z = cx(3, 4);
    assert_eq!(z.sqrt(), cx(2, 1));
    // sqrt(-2i) has a negative imaginary part (sign follows im).
    let w = cx(0, -2);
    assert_eq!(w.sqrt(), cx(1, -1));
}

#[test]
fn test_mul_vec_rectangular() {
    // A 2-by-3 matrix maps a size-3 vector to a size-2 vector.
    let m = rm(&[&[1, 2, 3], &[4, 5, 6]]);
    let v = rv(&[1, 1, 1]);
    let a = m.mul_vec(&v);
    assert_eq!(a.data, vec![ri(6), ri(15)]);
}

#[test]
fn test_mul_mat_rectangular() {
    // (2 x 3) times (3 x 2) gives (2 x 2).
    let m = rm(&[&[1, 2, 3], &[4, 5, 6]]);
    let n = rm(&[&[7, 8], &[9, 10], &[11, 12]]);
    let p = m.mul_mat(&n);
    assert_eq!(p.rows, 2);
    assert_eq!(p.cols, 2);
    assert_eq!(p.data, vec![vec![ri(58), ri(64)], vec![ri(139), ri(154)]]);
}

#[test]
fn test_rank_of_zero_matrix() {
    let u = rm(&[&[0, 0], &[0, 0]]);
    assert_eq!(u.rank(), 0);
    assert!(u.row_space().data.is_empty());
}
