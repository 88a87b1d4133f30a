use hodge_belief::laplacian::{complete_laplacian, cycle_laplacian, path_laplacian};
use hodge_belief::matrix::Matrix;

fn row_sums(m: &Matrix<i64>) -> Vec<i64> {
    (0..m.rows).map(|i| (0..m.cols).map(|j| m.get(i, j)).sum()).collect()
}

fn is_symmetric(m: &Matrix<i64>) -> bool {
    (0..m.rows).all(|i| (0..m.cols).all(|j| m.get(i, j) == m.get(j, i)))
}

#[test]
fn test_path_laplacian_row_sums() {
    let lap = path_laplacian(5);
    for i in 0..5 {
        let row_sum: f64 = (0..5).map(|j| lap.get(i, j) as f64).sum();
        assert!(row_sum.abs() < 1e-10, "Row {i} sum = {row_sum}, expected 0");
    }
}

#[test]
fn test_cycle_laplacian_row_sums() {
    let lap = cycle_laplacian(4);
    for i in 0..4 {
        let row_sum: f64 = (0..4).map(|j| lap.get(i, j) as f64).sum();
        assert!(row_sum.abs() < 1e-10);
    }
}

#[test]
fn test_complete_laplacian_row_sums() {
    let lap = complete_laplacian(5);
    for i in 0..5 {
        let row_sum: f64 = (0..5).map(|j| lap.get(i, j) as f64).sum();
        assert!(row_sum.abs() < 1e-10);
    }
}

#[test]
fn path_laplacian_entries() {
    let lap = path_laplacian(4);
    assert_eq!(
        lap.data,
        vec![1, -1, 0, 0, -1, 2, -1, 0, 0, -1, 2, -1, 0, 0, -1, 1]
    );
    assert_eq!(path_laplacian(1).data, vec![0]);
    assert!(path_laplacian(0).data.is_empty());
}

#[test]
fn cycle_laplacian_entries() {
    let lap = cycle_laplacian(4);
    assert_eq!(
        lap.data,
        vec![2, -1, 0, -1, -1, 2, -1, 0, 0, -1, 2, -1, -1, 0, -1, 2]
    );
    assert_eq!(cycle_laplacian(3).data, vec![2, -1, -1, -1, 2, -1, -1, -1, 2]);
}

#[test]
fn small_cycles_are_laplacians() {
    // one vertex: its only edge is a loop; two vertices: the edge counts twice
    assert_eq!(cycle_laplacian(1).data, vec![0]);
    assert_eq!(cycle_laplacian(2).data, vec![2, -2, -2, 2]);
    assert_eq!(row_sums(&cycle_laplacian(2)), vec![0, 0]);
    assert_eq!(row_sums(&cycle_laplacian(1)), vec![0]);
    assert!(cycle_laplacian(0).data.is_empty());
}

#[test]
fn complete_laplacian_entries() {
    let lap = complete_laplacian(3);
    assert_eq!(lap.data, vec![2, -1, -1, -1, 2, -1, -1, -1, 2]);
    assert_eq!(complete_laplacian(1).data, vec![0]);
}

#[test]
fn laplacians_are_symmetric_with_zero_row_sums() {
    for n in 0..9 {
        let p = path_laplacian(n);
        let k = complete_laplacian(n);
        assert!(is_symmetric(&p) && is_symmetric(&k));
        assert!(row_sums(&p).iter().all(|&s| s == 0));
        assert!(row_sums(&k).iter().all(|&s| s == 0));
        let c = cycle_laplacian(n);
        assert!(is_symmetric(&c));
        assert!(row_sums(&c).iter().all(|&s| s == 0));
    }
}

#[test]
fn constant_vectors_are_harmonic() {
    let x = [3i64; 6];
    for lap in [path_laplacian(6), cycle_laplacian(6), complete_laplacian(6)] {
        for i in 0..6 {
            let v: i64 = (0..6).map(|j| lap.get(i, j) * x[j]).sum();
            assert_eq!(v, 0);
        }
    }
}

#[test]
fn quadratic_form_is_sum_over_edges() {
    let x = [3i64, -1, 4, 2, -7];
    let quad = |m: &Matrix<i64>| -> i64 {
        (0..5)
            .map(|i| x[i] * (0..5).map(|j| m.get(i, j) * x[j]).sum::<i64>())
            .sum()
    };
    let path_edges: i64 = (0..4).map(|e| (x[e + 1] - x[e]).pow(2)).sum();
    assert_eq!(quad(&path_laplacian(5)), path_edges);
    let cycle_edges: i64 = (0..5).map(|e| (x[e] - x[(e + 1) % 5]).pow(2)).sum();
    assert_eq!(quad(&cycle_laplacian(5)), cycle_edges);
    let s: i64 = x.iter().sum();
    let q: i64 = x.iter().map(|v| v * v).sum();
    assert_eq!(quad(&complete_laplacian(5)), 5 * q - s * s);
    assert!(quad(&complete_laplacian(5)) >= 0);
}

#[test]
fn only_constants_are_harmonic_on_connected_graphs() {
    let apply = |m: &Matrix<i64>, x: &[i64]| -> Vec<i64> {
        (0..m.rows)
            .map(|i| (0..m.cols).map(|j| m.get(i, j) * x[j]).sum())
            .collect()
    };
    let unit = [1i64, 0, 0, 0, 0];
    assert!(apply(&path_laplacian(5), &unit).iter().any(|&v| v != 0));
    assert!(apply(&cycle_laplacian(5), &unit).iter().any(|&v| v != 0));
    assert!(apply(&complete_laplacian(5), &unit).iter().any(|&v| v != 0));
    let ramp = [0i64, 1, 2, 3, 4];
    assert_eq!(apply(&path_laplacian(5), &ramp), vec![-1, 0, 0, 0, 1]);
    assert_eq!(apply(&cycle_laplacian(5), &ramp), vec![-5, 0, 0, 0, 5]);
}

#[test]
fn doubled_edge_cycle_kernel_and_quadratic_form() {
    let lap = cycle_laplacian(2);
    let apply = |x: [i64; 2]| -> Vec<i64> {
        (0..2).map(|i| (0..2).map(|j| lap.get(i, j) * x[j]).sum()).collect()
    };
    assert_eq!(apply([4, 4]), vec![0, 0]);
    assert_eq!(apply([1, 0]), vec![2, -2]);
    let x = [3i64, -2];
    let quad: i64 = (0..2).map(|i| x[i] * apply(x)[i]).sum();
    assert_eq!(quad, 2 * (x[0] - x[1]).pow(2));
}
