//! Laws of the Laplacians that `Laplacian::build` produces: symmetry, zero
//! row sums (the constant vector is a zero mode) and positive
//! semidefiniteness.

use vstd::prelude::*;
use crate::laplacian::{
    complete_neighbors, cycle_neighbors, grid_neighbors, kind_dim, kind_neighbors, laplacian_entry,
    lemma_complete_neighbors, lemma_grid_coordinates, lemma_star_neighbors, needs_adjacency,
    neighbor_entry, path_neighbors, push_if, simple_neighbors, Laplacian, LaplacianKind,
};
use crate::sums::{
    lemma_quadratic_form_nonneg, lemma_sum_add, lemma_sum_contains, lemma_sum_ext, lemma_sum_scale,
    lemma_sum_single, quadratic_form, row_sum, sum_to,
};

verus! {

broadcast use vstd::seq_lib::group_seq_properties;

/// A cycle of one or two nodes, whose ring wraps onto itself.
pub open spec fn is_small_cycle(kind: LaplacianKind) -> bool {
    match kind {
        LaplacianKind::Cycle(n) => n <= 2,
        _ => false,
    }
}

/// Appending a node that is not yet listed keeps the list free of duplicates.
proof fn lemma_push_no_duplicates(s: Seq<int>, v: int)
    requires
        s.no_duplicates(),
        !s.contains(v),
    ensures
        s.push(v).no_duplicates(),
{
    let t = s.push(v);
    assert forall|a: int, b: int| 0 <= a < t.len() && 0 <= b < t.len() && a != b implies t[a] != t[b] by {
        if a < s.len() && b < s.len() {
            assert(t[a] == s[a] && t[b] == s[b]);
        } else if a < s.len() {
            assert(t[a] == s[a]);
        } else {
            assert(t[b] == s[b]);
        }
    }
}

/// The row sum of a node that is not its own neighbour: its degree minus
/// the number of neighbours it has in range; zero for a simple neighbour list.
proof fn lemma_neighbor_row_sum(nbrs: Seq<int>, i: int, n: int)
    requires
        0 <= i < n,
        !nbrs.contains(i),
    ensures
        sum_to(n, |j: int| neighbor_entry(nbrs, i, j)) >= 0,
        simple_neighbors(nbrs, i, n) ==> sum_to(n, |j: int| neighbor_entry(nbrs, i, j)) == 0,
{
    let row = |j: int| neighbor_entry(nbrs, i, j);
    let minus_count = |j: int| if nbrs.contains(j) { -1int } else { 0 };
    let count = |j: int| if nbrs.contains(j) { 1int } else { 0 };
    let diag = |j: int| if j == i { nbrs.len() as int } else { 0 };
    lemma_sum_add(n, minus_count, diag, row);
    lemma_sum_single(n, i, nbrs.len() as int, diag);
    lemma_sum_scale(n, -1, count, minus_count);
    lemma_sum_contains(n, nbrs, count);
}

/// Membership in the cycle's neighbour list, with the wrap-around spelt out.
proof fn lemma_cycle_neighbors(n: int, i: int, j: int)
    requires
        0 <= i < n,
    ensures
        cycle_neighbors(n, i).contains(j) <==> (j == (if i + 1 < n { i + 1 } else { 0 }) || j == (if i >= 1 { i - 1 } else { n - 1 })),
        cycle_neighbors(n, i)[0] == (if i + 1 < n { i + 1 } else { 0 }),
        cycle_neighbors(n, i)[1] == (if i >= 1 { i - 1 } else { n - 1 }),
{
    let s = cycle_neighbors(n, i);
    if i + 1 < n {
        vstd::arithmetic::div_mod::lemma_fundamental_div_mod_converse(i + 1, n, 0, i + 1);
    } else {
        vstd::arithmetic::div_mod::lemma_fundamental_div_mod_converse(i + 1, n, 1, 0);
    }
    if i >= 1 {
        vstd::arithmetic::div_mod::lemma_fundamental_div_mod_converse(i + n - 1, n, 1, i - 1);
    } else {
        vstd::arithmetic::div_mod::lemma_fundamental_div_mod_converse(i + n - 1, n, 0, n - 1);
    }
    assert(s.contains(s[0]) && s.contains(s[1]));
}

/// Membership in the path's neighbour list.
proof fn lemma_path_neighbors(n: int, i: int, j: int)
    ensures
        path_neighbors(n, i).contains(j) <==> ((i > 0 && j == i - 1) || (i + 1 < n && j == i + 1)),
{
}

/// The index, row and column of a lattice node.
proof fn lemma_grid_index(cols: int, i: int)
    requires
        0 <= i,
        0 < cols,
    ensures
        i == (i / cols) * cols + i % cols,
        0 <= i % cols < cols,
        0 <= i / cols,
{
    vstd::arithmetic::div_mod::lemma_fundamental_div_mod(i, cols);
    vstd::arithmetic::mul::lemma_mul_is_commutative(cols, i / cols);
    vstd::arithmetic::div_mod::lemma_div_pos_is_pos(i, cols);
}

/// Membership in the lattice's neighbour list.
proof fn lemma_grid_neighbors(rows: int, cols: int, i: int, j: int)
    ensures
        grid_neighbors(rows, cols, i).contains(j) <==> (
            (i / cols > 0 && j == i - cols)
            || (i / cols + 1 < rows && j == i + cols)
            || (i % cols > 0 && j == i - 1)
            || (i % cols + 1 < cols && j == i + 1)),
{
}

/// The neighbour relation of every topology is symmetric, its neighbour
/// lists are simple except on the one- and two-node cycles, and no node is
/// its own neighbour except on the one-node cycle.
proof fn lemma_kind_neighbors(kind: LaplacianKind, i: int, j: int)
    requires
        !needs_adjacency(kind),
        0 <= i < kind_dim(kind),
        0 <= j < kind_dim(kind),
    ensures
        kind_neighbors(kind, i).contains(j) ==> kind_neighbors(kind, j).contains(i),
        kind != LaplacianKind::Cycle(1) ==> !kind_neighbors(kind, i).contains(i),
        !is_small_cycle(kind) ==> simple_neighbors(kind_neighbors(kind, i), i, kind_dim(kind)),
{
    let s = kind_neighbors(kind, i);
    match kind {
        LaplacianKind::Discrete1D(n) => {
            lemma_path_neighbors(n as int, i, j);
            lemma_path_neighbors(n as int, j, i);
            lemma_path_neighbors(n as int, i, i);
            lemma_path_simple(n as int, i);
        },
        LaplacianKind::Path(n) => {
            lemma_path_neighbors(n as int, i, j);
            lemma_path_neighbors(n as int, j, i);
            lemma_path_neighbors(n as int, i, i);
            lemma_path_simple(n as int, i);
        },
        LaplacianKind::Cycle(n) => {
            lemma_cycle_neighbors(n as int, i, j);
            lemma_cycle_neighbors(n as int, j, i);
            lemma_cycle_neighbors(n as int, i, i);
            if n > 2 {
                assert(s[0] != s[1]);
                assert forall|a: int| 0 <= a < s.len() implies 0 <= #[trigger] s[a] < n by {
                    assert(a == 0 || a == 1);
                }
            }
        },
        LaplacianKind::Complete(n) => {
            lemma_complete_neighbors(n as int, i, j);
            lemma_complete_neighbors(n as int, j, i);
            lemma_complete_neighbors(n as int, i, i);
        },
        LaplacianKind::Star(n) => {
            lemma_star_neighbors(n as int, i, j);
            lemma_star_neighbors(n as int, j, i);
            lemma_star_neighbors(n as int, i, i);
        },
        LaplacianKind::Grid { rows, cols } => {
            lemma_grid_symmetric(rows as int, cols as int, i, j);
            lemma_grid_simple(rows as int, cols as int, i);
        },
        _ => {},
    }
}

/// The path's neighbour lists are simple.
proof fn lemma_path_simple(n: int, i: int)
    requires
        0 <= i < n,
    ensures
        simple_neighbors(path_neighbors(n, i), i, n),
{
    let s0 = Seq::<int>::empty();
    let s1 = push_if(s0, i > 0, i - 1);
    lemma_path_neighbors(n, i, i);
    if i + 1 < n {
        if i > 0 {
            lemma_push_no_duplicates(s0, i - 1);
        }
        lemma_push_no_duplicates(s1, i + 1);
    } else if i > 0 {
        lemma_push_no_duplicates(s0, i - 1);
    }
}

/// The lattice's neighbour relation is symmetric.
proof fn lemma_grid_symmetric(rows: int, cols: int, i: int, j: int)
    requires
        0 <= rows,
        0 <= cols,
        0 <= i < rows * cols,
        0 <= j < rows * cols,
    ensures
        grid_neighbors(rows, cols, i).contains(j) ==> grid_neighbors(rows, cols, j).contains(i),
{
    if grid_neighbors(rows, cols, i).contains(j) {
        assert(cols > 0) by (nonlinear_arith)
            requires
                0 <= i < rows * cols,
                rows >= 0,
                cols >= 0,
        ;
        lemma_grid_index(cols, i);
        lemma_grid_index(cols, j);
        lemma_grid_neighbors(rows, cols, i, j);
        lemma_grid_neighbors(rows, cols, j, i);
        let r = i / cols;
        let c = i % cols;
        assert(r < rows) by (nonlinear_arith)
            requires
                i == r * cols + c,
                0 <= c,
                i < rows * cols,
                cols > 0,
        ;
        if r > 0 && j == i - cols {
            lemma_grid_coordinates(cols, r - 1, c);
            assert(j == (r - 1) * cols + c) by (nonlinear_arith)
                requires
                    i == r * cols + c,
                    j == i - cols,
            ;
        } else if r + 1 < rows && j == i + cols {
            lemma_grid_coordinates(cols, r + 1, c);
            assert(j == (r + 1) * cols + c) by (nonlinear_arith)
                requires
                    i == r * cols + c,
                    j == i + cols,
            ;
        } else if c > 0 && j == i - 1 {
            lemma_grid_coordinates(cols, r, c - 1);
        } else {
            lemma_grid_coordinates(cols, r, c + 1);
        }
    }
}

/// The lattice's neighbour lists are simple.
proof fn lemma_grid_simple(rows: int, cols: int, i: int)
    requires
        0 <= rows,
        0 <= cols,
        0 <= i < rows * cols,
    ensures
        simple_neighbors(grid_neighbors(rows, cols, i), i, rows * cols),
{
    assert(cols > 0 && rows > 0) by (nonlinear_arith)
        requires
            0 <= i < rows * cols,
            0 <= rows,
            0 <= cols,
    ;
    lemma_grid_index(cols, i);
    let r = i / cols;
    let c = i % cols;
    assert(r < rows) by (nonlinear_arith)
        requires
            i == r * cols + c,
            0 <= c,
            i < rows * cols,
            cols > 0,
    ;
    if r + 1 < rows {
        assert(i + cols < rows * cols) by (nonlinear_arith)
            requires
                i == r * cols + c,
                c < cols,
                r + 2 <= rows,
                cols > 0,
        ;
    }
    if c + 1 < cols {
        assert(i + 1 < rows * cols) by (nonlinear_arith)
            requires
                i == r * cols + c,
                r + 1 <= rows,
                c + 1 < cols,
                cols > 0,
        ;
    }
    if r > 0 {
        assert(i - cols >= 0) by (nonlinear_arith)
            requires
                i == r * cols + c,
                c >= 0,
                r >= 1,
                cols > 0,
        ;
    }
    let s0 = Seq::<int>::empty();
    let s1 = push_if(s0, r > 0, i - cols);
    let s2 = push_if(s1, r + 1 < rows, i + cols);
    let s3 = push_if(s2, c > 0, i - 1);
    let s4 = push_if(s3, c + 1 < cols, i + 1);
    if r > 0 {
        lemma_push_no_duplicates(s0, i - cols);
    }
    if r + 1 < rows {
        lemma_push_no_duplicates(s1, i + cols);
    }
    if c > 0 {
        lemma_push_no_duplicates(s2, i - 1);
    }
    if c + 1 < cols {
        lemma_push_no_duplicates(s3, i + 1);
    }
    assert(s4 == grid_neighbors(rows, cols, i));
}

/// Every Laplacian that `build` produces is symmetric: `L[i][j] == L[j][i]`.
pub proof fn lemma_laplacian_symmetric(lap: &Laplacian, i: int, j: int)
    requires
        lap.wf(),
        0 <= i < lap.dim,
        0 <= j < lap.dim,
    ensures
        lap.entry(i, j) == lap.entry(j, i),
{
    assert(lap.entry(i, j) == laplacian_entry(lap.kind, i, j));
    assert(lap.entry(j, i) == laplacian_entry(lap.kind, j, i));
    if !needs_adjacency(lap.kind) {
        lemma_kind_neighbors(lap.kind, i, j);
        lemma_kind_neighbors(lap.kind, j, i);
    }
}

/// The row sum of a Laplacian that `build` produces is non-negative except
/// on the one-node cycle, and zero on every graph topology other than the
/// one- and two-node cycles.
proof fn lemma_laplacian_row_sum(lap: &Laplacian, i: int)
    requires
        lap.wf(),
        lap.kind != LaplacianKind::Cycle(1),
        0 <= i < lap.dim,
    ensures
        row_sum(lap.dim as int, |a: int, b: int| lap.entry(a, b), i) >= 0,
        !needs_adjacency(lap.kind) && !is_small_cycle(lap.kind)
            ==> row_sum(lap.dim as int, |a: int, b: int| lap.entry(a, b), i) == 0,
{
    let n = lap.dim as int;
    let row = |j: int| lap.entry(i, j);
    let m = |a: int, b: int| lap.entry(a, b);
    lemma_sum_ext(n, |j: int| m(i, j), row);
    assert(row_sum(n, m, i) == sum_to(n, row));
    if needs_adjacency(lap.kind) {
        assert(n == 1);
        assert(sum_to(n, row) == sum_to(0, row) + row(0));
        assert(row(0) == 1);
    } else {
        let nbrs = kind_neighbors(lap.kind, i);
        lemma_kind_neighbors(lap.kind, i, i);
        lemma_neighbor_row_sum(nbrs, i, n);
        lemma_sum_ext(n, |j: int| neighbor_entry(nbrs, i, j), row);
    }
}

/// Every row of a graph Laplacian sums to zero, so the constant vector is a
/// zero mode: this holds for the path, cycle (from three nodes on), complete,
/// star and lattice topologies.
pub proof fn lemma_laplacian_rows_sum_to_zero(lap: &Laplacian, i: int)
    requires
        lap.wf(),
        !needs_adjacency(lap.kind),
        !is_small_cycle(lap.kind),
        0 <= i < lap.dim,
    ensures
        row_sum(lap.dim as int, |a: int, b: int| lap.entry(a, b), i) == 0,
{
    lemma_laplacian_row_sum(lap, i);
}

/// Every Laplacian that `build` produces, except that of the one-node cycle
/// (whose ring wraps onto itself and gives the matrix `[-1]`), is positive
/// semidefinite: `x^T L x >= 0` for every integer vector `x`, hence for
/// every real vector.
pub proof fn lemma_laplacian_positive_semidefinite(lap: &Laplacian, x: Seq<int>)
    requires
        lap.wf(),
        lap.kind != LaplacianKind::Cycle(1),
        x.len() == lap.dim,
    ensures
        quadratic_form(lap.dim as int, |a: int, b: int| lap.entry(a, b), x) >= 0,
{
    let n = lap.dim as int;
    let m = |a: int, b: int| lap.entry(a, b);
    assert forall|i: int, j: int| 0 <= i < n && 0 <= j < n implies #[trigger] m(i, j) == m(j, i) by {
        lemma_laplacian_symmetric(lap, i, j);
    }
    assert forall|i: int, j: int| 0 <= i < n && 0 <= j < n && i != j implies #[trigger] m(i, j) <= 0 by {
        assert(lap.entry(i, j) == laplacian_entry(lap.kind, i, j));
    }
    assert forall|i: int| 0 <= i < n implies #[trigger] row_sum(n, m, i) >= 0 by {
        lemma_laplacian_row_sum(lap, i);
    }
    lemma_quadratic_form_nonneg(n, m, x);
}

/// The complete graph's Laplacian is `n I - J`: it maps `x` to
/// `n x_i - sum_j x_j`. So the constant vector spans its kernel and every
/// vector summing to zero is an eigenvector for `n` (for `K_4`: eigenvalues
/// 0, 4, 4, 4).
pub proof fn lemma_complete_laplacian_action(lap: &Laplacian, x: Seq<int>, i: int)
    requires
        lap.wf(),
        lap.kind == LaplacianKind::Complete(lap.dim),
        x.len() == lap.dim,
        0 <= i < lap.dim,
    ensures
        sum_to(lap.dim as int, |j: int| lap.entry(i, j) * x[j]) == lap.dim * x[i] - sum_to(
            lap.dim as int,
            |j: int| x[j],
        ),
{
    let n = lap.dim as int;
    let row = |j: int| lap.entry(i, j) * x[j];
    let all = |j: int| x[j];
    let minus_all = |j: int| -x[j];
    let diag = |j: int| if j == i { n * x[i] } else { 0 };
    assert forall|j: int| 0 <= j < n implies #[trigger] row(j) == minus_all(j) + diag(j) by {
        assert(lap.entry(i, j) == laplacian_entry(lap.kind, i, j));
        lemma_complete_neighbors(n, i, j);
        let e = lap.entry(i, j);
        if j == i {
            assert(kind_neighbors(lap.kind, i) == complete_neighbors(n, i));
            assert(e == n - 1);
            assert(e * x[j] == -x[j] + n * x[i]) by (nonlinear_arith)
                requires
                    e == n - 1,
                    j == i,
            ;
        } else {
            assert(e == -1);
            assert(e * x[j] == -x[j]) by (nonlinear_arith)
                requires
                    e == -1,
            ;
        }
    }
    lemma_sum_add(n, minus_all, diag, row);
    lemma_sum_single(n, i, n * x[i], diag);
    lemma_sum_scale(n, -1, all, minus_all);
}

/// Path (and 1D discrete) Laplacian: nodes `i != j` are joined exactly when
/// `|i - j| == 1`, and the diagonal counts the neighbours `i - 1` and
/// `i + 1` that exist.
pub proof fn lemma_path_laplacian(lap: &Laplacian, n: usize, i: int, j: int)
    requires
        lap.wf(),
        lap.kind == LaplacianKind::Path(n) || lap.kind == LaplacianKind::Discrete1D(n),
        0 <= i < n,
        0 <= j < n,
    ensures
        lap.dim == n,
        i != j ==> lap.entry(i, j) == (if i - j == 1 || j - i == 1 { -1int } else { 0 }),
        lap.entry(i, i) == (if i > 0 { 1int } else { 0 }) + (if i + 1 < lap.dim { 1int } else { 0 }),
{
    let n = lap.dim as int;
    assert(lap.entry(i, j) == laplacian_entry(lap.kind, i, j));
    assert(lap.entry(i, i) == laplacian_entry(lap.kind, i, i));
    lemma_path_neighbors(n, i, j);
    lemma_path_neighbors(n, i, i);
}

/// Cycle Laplacian: nodes `i != j` are joined exactly when one is the
/// other's successor on the ring `0 - 1 - ... - (n-1) - 0`, and every
/// diagonal entry is 2, except on the one-node ring, which wraps onto itself
/// and gives `[-1]`.
pub proof fn lemma_cycle_laplacian(lap: &Laplacian, n: usize, i: int, j: int)
    requires
        lap.wf(),
        lap.kind == LaplacianKind::Cycle(n),
        0 <= i < n,
        0 <= j < n,
    ensures
        lap.dim == n,
        i != j ==> lap.entry(i, j) == (if j == (i + 1) % (lap.dim as int) || i == (j + 1) % (lap.dim as int) {
            -1int
        } else {
            0
        }),
        lap.entry(i, i) == (if n == 1 { -1int } else { 2 }),
{
    let n = lap.dim as int;
    assert(lap.entry(i, j) == laplacian_entry(lap.kind, i, j));
    assert(lap.entry(i, i) == laplacian_entry(lap.kind, i, i));
    lemma_cycle_neighbors(n, i, j);
    lemma_cycle_neighbors(n, j, i);
    lemma_cycle_neighbors(n, i, i);
}

/// Complete-graph Laplacian: `n - 1` on the diagonal, `-1` everywhere else.
pub proof fn lemma_complete_laplacian(lap: &Laplacian, n: usize, i: int, j: int)
    requires
        lap.wf(),
        lap.kind == LaplacianKind::Complete(n),
        0 <= i < n,
        0 <= j < n,
    ensures
        lap.dim == n,
        i != j ==> lap.entry(i, j) == -1,
        lap.entry(i, i) == lap.dim - 1,
{
    let n = lap.dim as int;
    assert(lap.entry(i, j) == laplacian_entry(lap.kind, i, j));
    assert(lap.entry(i, i) == laplacian_entry(lap.kind, i, i));
    lemma_complete_neighbors(n, i, j);
    lemma_complete_neighbors(n, i, i);
}

/// Star Laplacian with hub 0: the hub has degree `n - 1`, every leaf degree
/// 1, and nodes `i != j` are joined exactly when one of them is the hub.
pub proof fn lemma_star_laplacian(lap: &Laplacian, n: usize, i: int, j: int)
    requires
        lap.wf(),
        lap.kind == LaplacianKind::Star(n),
        0 <= i < n,
        0 <= j < n,
    ensures
        lap.dim == n,
        i != j ==> lap.entry(i, j) == (if i == 0 || j == 0 { -1int } else { 0 }),
        lap.entry(i, i) == (if i == 0 { lap.dim - 1 } else { 1 }),
{
    let n = lap.dim as int;
    assert(lap.entry(i, j) == laplacian_entry(lap.kind, i, j));
    assert(lap.entry(i, i) == laplacian_entry(lap.kind, i, i));
    lemma_star_neighbors(n, i, j);
    lemma_star_neighbors(n, i, i);
}

/// Lattice adjacency in row/column coordinates: `j` is the node above,
/// below, left or right of `i` exactly when the coordinates differ by one
/// in one direction and agree in the other.
proof fn lemma_grid_adjacency(rows: int, cols: int, i: int, j: int)
    requires
        0 <= rows,
        0 <= cols,
        0 <= i < rows * cols,
        0 <= j < rows * cols,
    ensures
        grid_neighbors(rows, cols, i).contains(j) <==> (
            (i / cols == j / cols && (i % cols - j % cols == 1 || j % cols - i % cols == 1))
            || (i % cols == j % cols && (i / cols - j / cols == 1 || j / cols - i / cols == 1))),
{
    assert(cols > 0) by (nonlinear_arith)
        requires
            0 <= i < rows * cols,
            rows >= 0,
            cols >= 0,
    ;
    lemma_grid_index(cols, i);
    lemma_grid_index(cols, j);
    lemma_grid_neighbors(rows, cols, i, j);
    let ri = i / cols;
    let ci = i % cols;
    let rj = j / cols;
    let cj = j % cols;
    assert(rj < rows) by (nonlinear_arith)
        requires
            j == rj * cols + cj,
            0 <= cj,
            j < rows * cols,
            cols > 0,
    ;
    // up
    if ri > 0 && j == i - cols {
        assert(j == (ri - 1) * cols + ci) by (nonlinear_arith)
            requires
                i == ri * cols + ci,
                j == i - cols,
        ;
        lemma_grid_coordinates(cols, ri - 1, ci);
    }
    if ci == cj && ri - rj == 1 {
        assert(j == i - cols) by (nonlinear_arith)
            requires
                i == ri * cols + ci,
                j == rj * cols + cj,
                ci == cj,
                ri - rj == 1,
        ;
    }
    // down
    if ri + 1 < rows && j == i + cols {
        assert(j == (ri + 1) * cols + ci) by (nonlinear_arith)
            requires
                i == ri * cols + ci,
                j == i + cols,
        ;
        lemma_grid_coordinates(cols, ri + 1, ci);
    }
    if ci == cj && rj - ri == 1 {
        assert(j == i + cols) by (nonlinear_arith)
            requires
                i == ri * cols + ci,
                j == rj * cols + cj,
                ci == cj,
                rj - ri == 1,
        ;
    }
    // left
    if ci > 0 && j == i - 1 {
        lemma_grid_coordinates(cols, ri, ci - 1);
    }
    // right
    if ci + 1 < cols && j == i + 1 {
        lemma_grid_coordinates(cols, ri, ci + 1);
    }
}

/// Lattice Laplacian, nodes numbered row by row (`i = r * cols + c`): nodes
/// `i != j` are joined exactly when they are one step apart horizontally or
/// vertically, and the diagonal counts the lattice neighbours that exist.
pub proof fn lemma_grid_laplacian(lap: &Laplacian, rows: usize, cols: usize, i: int, j: int)
    requires
        lap.wf(),
        lap.kind == (LaplacianKind::Grid { rows, cols }),
        0 <= i < rows * cols,
        0 <= j < rows * cols,
    ensures
        lap.dim == rows * cols,
        i != j ==> lap.entry(i, j) == (if (i / (cols as int) == j / (cols as int) && (i % (cols as int) - j
            % (cols as int) == 1 || j % (cols as int) - i % (cols as int) == 1)) || (i % (cols as int) == j
            % (cols as int) && (i / (cols as int) - j / (cols as int) == 1 || j / (cols as int) - i / (
        cols as int) == 1)) {
            -1int
        } else {
            0
        }),
        lap.entry(i, i) == (if i / (cols as int) > 0 { 1int } else { 0 }) + (if i / (cols as int) + 1
            < rows { 1int } else { 0 }) + (if i % (cols as int) > 0 { 1int } else { 0 }) + (if i % (
        cols as int) + 1 < cols { 1int } else { 0 }),
{
    assert(lap.entry(i, j) == laplacian_entry(lap.kind, i, j));
    assert(lap.entry(i, i) == laplacian_entry(lap.kind, i, i));
    lemma_grid_adjacency(rows as int, cols as int, i, j);
    lemma_grid_simple(rows as int, cols as int, i);
}

/// The kinds that need an outside adjacency matrix build the 1 x 1 identity.
pub proof fn lemma_adjacency_placeholder(lap: &Laplacian)
    requires
        lap.wf(),
        lap.kind == LaplacianKind::Graph || lap.kind == LaplacianKind::Normalized || lap.kind
            == LaplacianKind::RandomWalk,
    ensures
        lap.dim == 1,
        lap.entry(0, 0) == 1,
{
    assert(lap.entry(0, 0) == laplacian_entry(lap.kind, 0, 0));
}

} // verus!
