use gauss_jordan::error::MatrixError;
use gauss_jordan::matrix::Matrix;

const EPS: f64 = 1e-6;

fn solution_of(m: &Matrix) -> Vec<f64> {
    m.solve()
        .expect("expected a solvable system")
        .into_iter()
        .map(f64::from_bits)
        .collect()
}

fn entry(m: &Matrix, r: usize, c: usize) -> f64 {
    f64::from_bits(m.at(r, c))
}

/// Substituting the solution into every original row reproduces the
/// right-hand side within a small epsilon.
fn check_solution(m: &Matrix, sol: &[f64]) {
    let rows = m.rows();
    let cols = m.cols();
    assert_eq!(cols, rows + 1);
    assert_eq!(sol.len(), rows);
    for r in 0..rows {
        let mut lhs = 0.0f64;
        for c in 0..rows {
            lhs += entry(m, r, c) * sol[c];
        }
        let rhs = entry(m, r, cols - 1);
        assert!(
            (lhs - rhs).abs() < EPS,
            "row {}: {} vs {}",
            r,
            lhs,
            rhs
        );
    }
}

#[test]
fn zero_matrix_construction() {
    let m = Matrix::new(2, 3);
    assert_eq!(m.rows(), 2);
    assert_eq!(m.cols(), 3);
    for r in 0..2 {
        for c in 0..3 {
            assert_eq!(entry(&m, r, c), 0.0);
        }
    }
}

#[test]
fn grid_parsing_reads_exact_values() {
    let m = Matrix::from_string("2 -4 6.4; -3 8 22").expect("grid should parse");
    assert_eq!(m.rows(), 2);
    assert_eq!(m.cols(), 3);
    assert_eq!(m.at(0, 0), 2.0f64.to_bits());
    assert_eq!(m.at(0, 1), (-4.0f64).to_bits());
    assert_eq!(m.at(0, 2), 6.4f64.to_bits());
    assert_eq!(m.at(1, 0), (-3.0f64).to_bits());
    assert_eq!(m.at(1, 1), 8.0f64.to_bits());
    assert_eq!(m.at(1, 2), 22.0f64.to_bits());
}

#[test]
fn grid_solution_three_unknowns() {
    let m = Matrix::from_string("1 1 0 3; 1 0 1 2; 0 1 1 1").expect("grid should parse");
    let sol = solution_of(&m);
    assert!((sol[0] - 2.0).abs() < EPS);
    assert!((sol[1] - 1.0).abs() < EPS);
    assert!((sol[2] - 0.0).abs() < EPS);
    check_solution(&m, &sol);
}

#[test]
fn equations_with_explicit_coefficients() {
    let m = Matrix::from_equations("2x-4y=6.4/-3x+8y=22").expect("equations should parse");
    assert_eq!(m.rows(), 2);
    assert_eq!(m.cols(), 3);
    let sol = solution_of(&m);
    check_solution(&m, &sol);
}

#[test]
fn equations_with_unit_coefficient() {
    let m = Matrix::from_equations("1x-1y=3.5/-3x+8y=22").expect("equations should parse");
    let sol = solution_of(&m);
    check_solution(&m, &sol);
}

#[test]
fn equations_with_implicit_unit_coefficients() {
    // A bare `x`, `+y` or `-y` must still contribute 1.0 or -1.0.
    let m = Matrix::from_equations("x+y=3/x-y=1").expect("equations should parse");
    assert_eq!(m.rows(), 2);
    assert_eq!(m.cols(), 3);
    assert_eq!(m.at(0, 0), 1.0f64.to_bits());
    assert_eq!(m.at(0, 1), 1.0f64.to_bits());
    assert_eq!(m.at(1, 1), (-1.0f64).to_bits());
    let sol = solution_of(&m);
    assert!((sol[0] - 2.0).abs() < EPS);
    assert!((sol[1] - 1.0).abs() < EPS);
    check_solution(&m, &sol);
}

#[test]
fn singular_system_is_detected() {
    let m = Matrix::from_string("1 0 5; 0 0 3").expect("grid should parse");
    assert_eq!(m.solve(), Err(MatrixError::Singular));
    assert!(m.reduce().is_err());
}

#[test]
fn zero_pivot_with_swap_candidate_is_solved() {
    // Row exchange recovers from a zero leading pivot.
    let m = Matrix::from_string("0 1 1; 1 0 2").expect("grid should parse");
    let sol = solution_of(&m);
    assert!((sol[0] - 2.0).abs() < EPS);
    assert!((sol[1] - 1.0).abs() < EPS);
    check_solution(&m, &sol);
}

#[test]
fn malformed_grid_is_rejected() {
    assert_eq!(
        Matrix::from_string("1 2; 3").unwrap_err(),
        MatrixError::MalformedGrid
    );
}

#[test]
fn empty_grid_is_rejected() {
    assert_eq!(
        Matrix::from_string("").unwrap_err(),
        MatrixError::MalformedGrid
    );
}

#[test]
fn non_numeric_grid_token_is_rejected() {
    assert_eq!(
        Matrix::from_string("1 a; 2 3").unwrap_err(),
        MatrixError::Parse
    );
}

#[test]
fn non_numeric_equation_token_is_rejected() {
    assert_eq!(
        Matrix::from_equations("2x-4y=6..4/-3x+8y=22").unwrap_err(),
        MatrixError::Parse
    );
}

#[test]
fn mismatched_equation_widths_are_rejected() {
    assert_eq!(
        Matrix::from_equations("2x-4y=6.4/-3x=22").unwrap_err(),
        MatrixError::MalformedEquation
    );
}

#[test]
fn reduction_produces_identity_block() {
    let m = Matrix::from_string("1 1 0 3; 1 0 1 2; 0 1 1 1").expect("grid should parse");
    let red = m.reduce().expect("non-singular system");
    for r in 0..red.rows() {
        for c in 0..red.rows() {
            let expected = if r == c { 1.0 } else { 0.0 };
            assert!(
                (entry(&red, r, c) - expected).abs() < EPS,
                "({}, {}) = {}",
                r,
                c,
                entry(&red, r, c)
            );
        }
    }
}

#[test]
fn reduction_is_idempotent() {
    let m = Matrix::from_string("1 1 0 3; 1 0 1 2; 0 1 1 1").expect("grid should parse");
    let once = m.reduce().expect("non-singular system");
    let twice = once.reduce().expect("a reduced matrix stays non-singular");
    for r in 0..once.rows() {
        for c in 0..once.cols() {
            assert_eq!(once.at(r, c), twice.at(r, c), "({}, {})", r, c);
        }
    }
}

#[test]
fn single_equation_system() {
    let m = Matrix::from_string("5 10").expect("grid should parse");
    let sol = solution_of(&m);
    assert!((sol[0] - 2.0).abs() < EPS);
}

#[test]
fn render_lists_rows_and_values() {
    let m = Matrix::from_string("1.5 2; 3 4").expect("grid should parse");
    let text = m.render();
    let lines: Vec<&str> = text.lines().collect();
    assert_eq!(lines.len(), 2);
    let row0: Vec<f64> = lines[0]
        .split_whitespace()
        .map(|t| t.parse::<f64>().expect("rendered value should parse"))
        .collect();
    assert_eq!(row0.len(), 2);
    assert!((row0[0] - 1.5).abs() < EPS);
    assert!((row0[1] - 2.0).abs() < EPS);
    let row1: Vec<f64> = lines[1]
        .split_whitespace()
        .map(|t| t.parse::<f64>().expect("rendered value should parse"))
        .collect();
    assert!((row1[0] - 3.0).abs() < EPS);
    assert!((row1[1] - 4.0).abs() < EPS);
}

#[test]
fn scientific_notation_and_signs_parse() {
    let m = Matrix::from_string("1e1 +2.5 -3; 0.5 2 1").expect("grid should parse");
    assert_eq!(m.at(0, 0), 10.0f64.to_bits());
    assert_eq!(m.at(0, 1), 2.5f64.to_bits());
    assert_eq!(m.at(0, 2), (-3.0f64).to_bits());
}
