use ray_tracer_challenge::{submatrix, transpose, Matrix};

#[test]
fn constructing_and_inspecting_4x4_matrix() {
    let m = Matrix::new4x4(
        [1.0, 2.0, 3.0, 4.0],
        [5.5, 6.5, 7.5, 8.5],
        [9.0, 10.0, 11.0, 12.0],
        [13.5, 14.5, 15.5, 16.5],
    );
    assert_eq!(m.at(0, 0), 1.0);
    assert_eq!(m.at(0, 3), 4.0);
    assert_eq!(m.at(1, 0), 5.5);
    assert_eq!(m.at(1, 2), 7.5);
    assert_eq!(m.at(2, 2), 11.0);
    assert_eq!(m.at(3, 0), 13.5);
    assert_eq!(m.at(3, 2), 15.5);
}

#[test]
fn matrix_2x2_ought_to_be_representable() {
    let m = Matrix::new2x2([-3.0, 5.0], [1.0, -2.0]);
    assert_eq!(m.at(0, 0), -3.0);
    assert_eq!(m.at(0, 1), 5.0);
    assert_eq!(m.at(1, 0), 1.0);
    assert_eq!(m.at(1, 1), -2.0);
}

#[test]
fn matrix_3x3_ought_to_be_representable() {
    let m = Matrix::new3x3([-3.0, 5.0, 0.0], [1.0, -2.0, -7.0], [0.0, 1.0, 1.0]);
    assert_eq!(m.at(0, 0), -3.0);
    assert_eq!(m.at(1, 1), -2.0);
    assert_eq!(m.at(2, 2), 1.0);
}

#[test]
fn transposing_a_matrix() {
    let a = Matrix::new4x4(
        [0.0, 9.0, 3.0, 0.0],
        [9.0, 8.0, 0.0, 8.0],
        [1.0, 8.0, 5.0, 3.0],
        [0.0, 0.0, 5.0, 8.0],
    );
    assert_eq!(
        transpose(a),
        Matrix::new4x4(
            [0.0, 9.0, 1.0, 0.0],
            [9.0, 8.0, 8.0, 0.0],
            [3.0, 0.0, 5.0, 5.0],
            [0.0, 8.0, 3.0, 8.0],
        )
    );
}

#[test]
fn transposing_the_identity_matrix() {
    let identity = Matrix::identity4x4(0.0f32, 1.0f32);
    assert_eq!(transpose(identity.clone()), identity);
}

#[test]
fn submatrix_of_3x3_matrix_is_2x2_matrix() {
    let a = Matrix::new3x3([1.0, 5.0, 0.0], [-3.0, 2.0, 7.0], [0.0, 6.0, -3.0]);
    assert_eq!(submatrix(a, 0, 2), Matrix::new2x2([-3.0, 2.0], [0.0, 6.0]));
}

#[test]
fn submatrix_of_4x4_matrix_is_3x3_matrix() {
    let a = Matrix::new4x4(
        [-6.0, 1.0, 1.0, 6.0],
        [-8.0, 5.0, 8.0, 6.0],
        [-1.0, 0.0, 8.0, 2.0],
        [-7.0, 1.0, -1.0, 1.0],
    );
    assert_eq!(
        submatrix(a, 2, 1),
        Matrix::new3x3([-6.0, 1.0, 6.0], [-8.0, 8.0, 6.0], [-7.0, -1.0, 1.0])
    );
}

#[test]
fn identity_has_one_on_the_diagonal() {
    let m = Matrix::identity4x4(0u8, 1u8);
    for i in 0..4 {
        for j in 0..4 {
            assert_eq!(m.at(i, j), if i == j { 1 } else { 0 });
        }
    }
    assert_eq!(m.size(), 4);
}

#[test]
fn transpose_of_a_3x3_swaps_entries() {
    let a = Matrix::new3x3([1, 2, 3], [4, 5, 6], [7, 8, 9]);
    let t = transpose(a);
    assert_eq!(t, Matrix::new3x3([1, 4, 7], [2, 5, 8], [3, 6, 9]));
    assert_eq!(t.size(), 3);
}

#[test]
fn submatrix_removing_last_row_and_first_column() {
    let a = Matrix::new4x4([1, 2, 3, 4], [5, 6, 7, 8], [9, 10, 11, 12], [13, 14, 15, 16]);
    assert_eq!(submatrix(a, 3, 0), Matrix::new3x3([2, 3, 4], [6, 7, 8], [10, 11, 12]));
}
