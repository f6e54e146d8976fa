use fdnverb::matrix::{hadamard_feedback_matrix, hadamard_matrix, mul_matrix};

fn gram(q: &Vec<Vec<i64>>) -> Vec<Vec<i64>> {
    let n = q.len();
    let mut g = vec![vec![0i64; n]; n];
    for i in 0..n {
        for l in 0..n {
            g[i][l] = (0..n).map(|r| q[r][i] * q[r][l]).sum();
        }
    }
    g
}

#[test]
fn test() {
    let h = hadamard_matrix(4);
    println!("h = {:?}", h);
    assert_eq!(
        h,
        vec![
            vec![1, 1, 1, 1],
            vec![-1, 1, -1, 1],
            vec![-1, -1, 1, 1],
            vec![1, -1, -1, 1],
        ]
    );
    let p = vec![
        vec![1, 0, 0, -1],
        vec![0, 0, 0, 0],
        vec![0, 0, 0, 0],
        vec![0, 0, 0, 0],
    ];
    let ph = mul_matrix(&p, &h);
    println!("{:?}", ph);
    assert_eq!(ph[0], vec![0, 2, 2, 0]);
    assert_eq!(ph[1], vec![0, 0, 0, 0]);
}

#[test]
fn hadamard_of_order_two_is_the_kernel() {
    assert_eq!(hadamard_matrix(2), vec![vec![1, 1], vec![-1, 1]]);
    assert_eq!(hadamard_matrix(1), vec![vec![1]]);
    assert_eq!(hadamard_matrix(0), Vec::<Vec<i64>>::new());
}

#[test]
fn hadamard_rows_are_orthogonal() {
    let h = hadamard_matrix(8);
    for i in 0..8 {
        for l in 0..8 {
            let dot: i64 = (0..8).map(|t| h[i][t] * h[l][t]).sum();
            assert_eq!(dot, if i == l { 8 } else { 0 });
        }
    }
}

#[test]
fn mul_matrix_two_by_two() {
    let a = vec![vec![1, 2], vec![3, 4]];
    let b = vec![vec![5, 6], vec![7, 8]];
    assert_eq!(mul_matrix(&a, &b), vec![vec![19, 22], vec![43, 50]]);
}

#[test]
fn mul_matrix_rectangular() {
    let a = vec![vec![1, -2, 3]];
    let b = vec![vec![1, 0], vec![0, 1], vec![2, -1]];
    assert_eq!(mul_matrix(&a, &b), vec![vec![7, -5]]);
}

#[test]
fn feedback_matrix_of_order_four() {
    let q = hadamard_feedback_matrix(4);
    assert_eq!(
        q,
        vec![
            vec![0, 2, 2, 0],
            vec![-2, 0, 0, -2],
            vec![2, 0, 0, -2],
            vec![0, 2, -2, 0],
        ]
    );
}

#[test]
fn feedback_matrix_gram_is_scaled_identity() {
    for n in [4usize, 8, 16, 32, 64] {
        let g = gram(&hadamard_feedback_matrix(n));
        for i in 0..n {
            for l in 0..n {
                assert_eq!(g[i][l], if i == l { 2 * n as i64 } else { 0 });
            }
        }
    }
}

#[test]
fn scaled_feedback_matrix_is_orthogonal_within_tolerance() {
    for n in [16usize, 32] {
        let scale = 1.0 / ((2 * n) as f64).sqrt();
        let q: Vec<Vec<f64>> = hadamard_feedback_matrix(n)
            .iter()
            .map(|row| row.iter().map(|&x| x as f64 * scale).collect())
            .collect();
        for i in 0..n {
            for l in 0..n {
                let dot: f64 = (0..n).map(|r| q[r][i] * q[r][l]).sum();
                let want = if i == l { 1.0 } else { 0.0 };
                assert!((dot - want).abs() < 1e-9);
            }
        }
    }
}
