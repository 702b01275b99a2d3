use matrix::{Complex, Matrix, Rat};

fn ri(n: i64) -> Rat {
    Rat::from_int(n)
}

fn rm(rows: &[&[i64]]) -> Matrix<Rat> {
    Matrix::from_rows(rows.iter().map(|r| r.iter().map(|&x| Rat::from_int(x)).collect()).collect())
}

fn cx(a: i64, b: i64) -> Complex {
    Complex::new(Rat::from_int(a), Rat::from_int(b))
}

fn flat(m: &Matrix<Rat>) -> Vec<Rat> {
    m.data.iter().flatten().cloned().collect()
}

#[test]
fn test_transpose() {
    let mat = rm(&[&[1, 2], &[3, 4]]);
    let a = mat.transpose();
    assert_eq!(flat(&a), vec![ri(1), ri(3), ri(2), ri(4)]);

    let mat = rm(&[&[1, 2, 3], &[4, 5, 6]]);
    let a = mat.transpose();
    assert_eq!(flat(&a), vec![ri(1), ri(4), ri(2), ri(5), ri(3), ri(6)]);

    let mat = rm(&[&[1, 2], &[3, 4], &[5, 6]]);
    let a = mat.transpose();
    assert_eq!(flat(&a), vec![ri(1), ri(3), ri(5), ri(2), ri(4), ri(6)]);

    let mat = rm(&[&[1], &[2], &[3]]);
    let a = mat.transpose();
    assert_eq!(flat(&a), vec![ri(1), ri(2), ri(3)]);

    let mat = rm(&[&[1, 2, 3], &[4, 5, 6], &[7, 8, 9]]);
    let a = mat.transpose();
    assert_eq!(
        flat(&a),
        vec![ri(1), ri(4), ri(7), ri(2), ri(5), ri(8), ri(3), ri(6), ri(9)]
    );

    let mat = rm(&[&[1], &[2], &[3], &[4]]);
    let a = mat.transpose();
    assert_eq!(flat(&a), vec![ri(1), ri(2), ri(3), ri(4)]);

    let mat = rm(&[&[1, 2], &[3, 4], &[5, 6], &[7, 8]]);
    let a = mat.transpose();
    assert_eq!(
        flat(&a),
        vec![ri(1), ri(3), ri(5), ri(7), ri(2), ri(4), ri(6), ri(8)]
    );

    let mat = rm(&[&[1, 2], &[3, 4], &[5, 6], &[7, 8], &[9, 10]]);
    let a = mat.transpose();
    assert_eq!(
        flat(&a),
        vec![ri(1), ri(3), ri(5), ri(7), ri(9), ri(2), ri(4), ri(6), ri(8), ri(10)]
    );
}

#[test]
fn test_transpose_complex() {
    let mat = Matrix::from_rows(vec![vec![cx(1, 2), cx(3, 4)], vec![cx(5, 6), cx(7, 8)]]);
    let a = mat.transpose();
    assert_eq!(
        a.data,
        vec![vec![cx(1, -2), cx(5, -6)], vec![cx(3, -4), cx(7, -8)]]
    );

    let mat = Matrix::from_rows(vec![
        vec![cx(1, 2), cx(3, 4), cx(5, 6)],
        vec![cx(7, 8), cx(9, 10), cx(11, 12)],
    ]);
    let a = mat.transpose();
    assert_eq!(
        a.data,
        vec![
            vec![cx(1, -2), cx(7, -8)],
            vec![cx(3, -4), cx(9, -10)],
            vec![cx(5, -6), cx(11, -12)]
        ]
    );

    let mat = Matrix::from_rows(vec![vec![cx(1, 2)], vec![cx(3, 4)], vec![cx(5, 6)]]);
    let a = mat.transpose();
    assert_eq!(a.data, vec![vec![cx(1, -2), cx(3, -4), cx(5, -6)]]);
}
