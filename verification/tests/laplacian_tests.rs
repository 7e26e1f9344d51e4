use lau_spectral_zeta::laplacian::{Laplacian, LaplacianKind};
use nalgebra::DMatrix;

fn as_dmatrix(lap: &Laplacian) -> DMatrix<f64> {
    let n = lap.dim;
    let mut data = Vec::with_capacity(n * n);
    for row in &lap.matrix {
        for &v in row {
            data.push(v as f64);
        }
    }
    DMatrix::from_row_slice(n, n, &data)
}

#[test]
fn test_discrete_1d_dim3() {
    let lap = Laplacian::build(LaplacianKind::Path(3));
    assert_eq!(lap.dim, 3);
    let m = &lap.matrix;
    assert_eq!(m[0][0], 1);
    assert_eq!(m[1][1], 2);
    assert_eq!(m[0][1], -1);
}

#[test]
fn test_cycle_dim4() {
    let lap = Laplacian::build(LaplacianKind::Cycle(4));
    let m = &lap.matrix;
    assert_eq!(m[0][3], -1);
    assert_eq!(m[0][1], -1);
    assert_eq!(m[0][0], 2);
}

#[test]
fn test_complete_dim4() {
    let lap = Laplacian::build(LaplacianKind::Complete(4));
    let m = &lap.matrix;
    assert_eq!(m[0][0], 3);
    assert_eq!(m[0][1], -1);
}

#[test]
fn test_star_dim5() {
    let lap = Laplacian::build(LaplacianKind::Star(5));
    let m = &lap.matrix;
    assert_eq!(m[0][0], 4);
    assert_eq!(m[1][0], -1);
}

#[test]
fn test_grid() {
    let lap = Laplacian::build(LaplacianKind::Grid { rows: 2, cols: 3 });
    assert_eq!(lap.dim, 6);
}

#[test]
fn test_laplacian_is_positive_semidefinite() {
    for kind in [
        LaplacianKind::Path(5),
        LaplacianKind::Cycle(5),
        LaplacianKind::Complete(5),
        LaplacianKind::Star(5),
    ] {
        let lap = Laplacian::build(kind);
        let m = as_dmatrix(&lap);
        let eig = m.symmetric_eigen();
        for &e in eig.eigenvalues.iter() {
            assert!(e >= -1e-10, "Negative eigenvalue {} for {:?}", e, lap.kind);
        }
    }
}

#[test]
fn path_matrix_exact() {
    let lap = Laplacian::build(LaplacianKind::Path(4));
    assert_eq!(
        lap.matrix,
        vec![vec![1, -1, 0, 0], vec![-1, 2, -1, 0], vec![0, -1, 2, -1], vec![0, 0, -1, 1]]
    );
    let d = Laplacian::build(LaplacianKind::Discrete1D(4));
    assert_eq!(d.matrix, lap.matrix);
    assert_eq!(d.kind, LaplacianKind::Discrete1D(4));
}

#[test]
fn single_node_topologies_are_zero() {
    for kind in [
        LaplacianKind::Path(1),
        LaplacianKind::Complete(1),
        LaplacianKind::Star(1),
        LaplacianKind::Grid { rows: 1, cols: 1 },
    ] {
        let lap = Laplacian::build(kind);
        assert_eq!(lap.matrix, vec![vec![0]]);
        assert_eq!(lap.dim, 1);
    }
}

#[test]
fn empty_topologies() {
    for kind in [
        LaplacianKind::Path(0),
        LaplacianKind::Cycle(0),
        LaplacianKind::Complete(0),
        LaplacianKind::Star(0),
        LaplacianKind::Grid { rows: 0, cols: 7 },
        LaplacianKind::Grid { rows: 3, cols: 0 },
    ] {
        let lap = Laplacian::build(kind);
        assert_eq!(lap.dim, 0);
        assert!(lap.matrix.is_empty());
    }
}

#[test]
fn small_cycles_wrap_onto_themselves() {
    assert_eq!(Laplacian::build(LaplacianKind::Cycle(1)).matrix, vec![vec![-1]]);
    assert_eq!(Laplacian::build(LaplacianKind::Cycle(2)).matrix, vec![vec![2, -1], vec![-1, 2]]);
}

#[test]
fn adjacency_kinds_give_identity_placeholder() {
    for kind in [LaplacianKind::Graph, LaplacianKind::Normalized, LaplacianKind::RandomWalk] {
        let lap = Laplacian::build(kind);
        assert_eq!(lap.matrix, vec![vec![1]]);
        assert_eq!(lap.dim, 1);
        assert_eq!(lap.kind, kind);
    }
}

#[test]
fn grid_matrix_exact() {
    // 2 x 3 lattice, nodes numbered row by row:
    // 0 1 2
    // 3 4 5
    let lap = Laplacian::build(LaplacianKind::Grid { rows: 2, cols: 3 });
    assert_eq!(
        lap.matrix,
        vec![
            vec![2, -1, 0, -1, 0, 0],
            vec![-1, 3, -1, 0, -1, 0],
            vec![0, -1, 2, 0, 0, -1],
            vec![-1, 0, 0, 2, -1, 0],
            vec![0, -1, 0, -1, 3, -1],
            vec![0, 0, -1, 0, -1, 2],
        ]
    );
}

#[test]
fn star_and_complete_exact() {
    assert_eq!(
        Laplacian::build(LaplacianKind::Star(4)).matrix,
        vec![vec![3, -1, -1, -1], vec![-1, 1, 0, 0], vec![-1, 0, 1, 0], vec![-1, 0, 0, 1]]
    );
    assert_eq!(
        Laplacian::build(LaplacianKind::Complete(3)).matrix,
        vec![vec![2, -1, -1], vec![-1, 2, -1], vec![-1, -1, 2]]
    );
}

fn all_graph_kinds() -> Vec<LaplacianKind> {
    let mut kinds = Vec::new();
    for n in 0..7 {
        kinds.push(LaplacianKind::Path(n));
        kinds.push(LaplacianKind::Discrete1D(n));
        kinds.push(LaplacianKind::Complete(n));
        kinds.push(LaplacianKind::Star(n));
        if n >= 3 {
            kinds.push(LaplacianKind::Cycle(n));
        }
    }
    for rows in 0..4 {
        for cols in 0..4 {
            kinds.push(LaplacianKind::Grid { rows, cols });
        }
    }
    kinds
}

#[test]
fn law_symmetric() {
    let mut kinds = all_graph_kinds();
    kinds.push(LaplacianKind::Cycle(1));
    kinds.push(LaplacianKind::Cycle(2));
    kinds.push(LaplacianKind::Graph);
    for kind in kinds {
        let lap = Laplacian::build(kind);
        for i in 0..lap.dim {
            for j in 0..lap.dim {
                assert_eq!(lap.matrix[i][j], lap.matrix[j][i], "{:?}", kind);
            }
        }
    }
}

#[test]
fn law_rows_sum_to_zero() {
    for kind in all_graph_kinds() {
        let lap = Laplacian::build(kind);
        for row in &lap.matrix {
            assert_eq!(row.iter().sum::<i64>(), 0, "{:?}", kind);
        }
    }
}

#[test]
fn law_quadratic_form_nonnegative() {
    let mut kinds = all_graph_kinds();
    kinds.push(LaplacianKind::Cycle(2));
    kinds.push(LaplacianKind::Normalized);
    let vectors: Vec<Vec<i64>> = vec![
        vec![1, -2, 3, 0, 5, -1, 2, 7, -3, 4, 0, 1, 9, -9, 2, 2],
        vec![3, 3, 3, 3, 3, 3, 3, 3, 3, 3, 3, 3, 3, 3, 3, 3],
        vec![1, -1, 1, -1, 1, -1, 1, -1, 1, -1, 1, -1, 1, -1, 1, -1],
    ];
    for kind in kinds {
        let lap = Laplacian::build(kind);
        for x in &vectors {
            let mut q: i64 = 0;
            for i in 0..lap.dim {
                for j in 0..lap.dim {
                    q += x[i] * lap.matrix[i][j] * x[j];
                }
            }
            assert!(q >= 0, "{:?}", kind);
        }
    }
}

#[test]
fn one_node_cycle_is_not_semidefinite() {
    let lap = Laplacian::build(LaplacianKind::Cycle(1));
    let x = 2i64;
    assert!(x * lap.matrix[0][0] * x < 0);
}

#[test]
fn law_complete_laplacian_is_n_identity_minus_ones() {
    let lap = Laplacian::build(LaplacianKind::Complete(4));
    let x: Vec<i64> = vec![5, -2, 7, 1];
    let total: i64 = x.iter().sum();
    for i in 0..4 {
        let lx: i64 = (0..4).map(|j| lap.matrix[i][j] * x[j]).sum();
        assert_eq!(lx, 4 * x[i] - total);
    }
    // eigenvalues of K_4: 0 once, 4 three times
    let eig = as_dmatrix(&lap).symmetric_eigen();
    let mut values: Vec<f64> = eig.eigenvalues.iter().copied().collect();
    values.sort_by(|a, b| a.partial_cmp(b).unwrap());
    assert!(values[0].abs() < 1e-10);
    for v in &values[1..] {
        assert!((v - 4.0).abs() < 1e-10);
    }
}
