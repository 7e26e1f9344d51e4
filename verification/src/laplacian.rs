//! Laplacian construction for common agent topologies.
//!
//! Every topology is described by its neighbour lists: the Laplacian entry
//! at `(i, j)` is `-1` when `j` is a neighbour of `i`, the number of
//! neighbours of `i` on the diagonal, and `0` elsewhere (L = D - A).

use vstd::prelude::*;

verus! {

broadcast use vstd::seq_lib::group_seq_properties;

/// Types of agent Laplacians that can be constructed.
#[derive(Clone, Copy, Debug, PartialEq, Eq, Structural)]
pub enum LaplacianKind {
    /// Graph Laplacian from an adjacency matrix.
    Graph,
    /// Normalized graph Laplacian: L_norm = I - D^{-1/2} A D^{-1/2}.
    Normalized,
    /// Random walk Laplacian: L_rw = I - D^{-1} A.
    RandomWalk,
    /// 1D discrete Laplacian (second difference operator) of given size.
    Discrete1D(usize),
    /// Cycle graph Laplacian of given size.
    Cycle(usize),
    /// Complete graph Laplacian of given size.
    Complete(usize),
    /// Star graph Laplacian of given size.
    Star(usize),
    /// Path graph Laplacian of given size.
    Path(usize),
    /// Grid (2D lattice) Laplacian with given rows and columns.
    Grid { rows: usize, cols: usize },
}

/// `s` with `v` appended when `cond` holds.
pub open spec fn push_if(s: Seq<int>, cond: bool, v: int) -> Seq<int> {
    if cond {
        s.push(v)
    } else {
        s
    }
}

/// Neighbours of node `i` on the path `0 - 1 - ... - (n-1)`.
pub open spec fn path_neighbors(n: int, i: int) -> Seq<int> {
    push_if(push_if(Seq::empty(), i > 0, i - 1), i + 1 < n, i + 1)
}

/// Neighbours of node `i` on the ring `0 - 1 - ... - (n-1) - 0`: its
/// successor and its predecessor (which coincide when `n <= 2`).
pub open spec fn cycle_neighbors(n: int, i: int) -> Seq<int> {
    seq![(i + 1) % n, (i + n - 1) % n]
}

/// Neighbours of node `i` in the complete graph on `n` nodes: every other node.
pub open spec fn complete_neighbors(n: int, i: int) -> Seq<int> {
    Seq::new((n - 1) as nat, |k: int| if k < i { k } else { k + 1 })
}

/// Neighbours of node `i` in the star on `n` nodes with hub `0`.
pub open spec fn star_neighbors(n: int, i: int) -> Seq<int> {
    if i == 0 {
        Seq::new((n - 1) as nat, |k: int| k + 1)
    } else {
        seq![0]
    }
}

/// Neighbours of node `i = r * cols + c` in the `rows` x `cols` lattice with
/// 4-connectivity: up, down, left, right, where they exist.
pub open spec fn grid_neighbors(rows: int, cols: int, i: int) -> Seq<int> {
    let r = i / cols;
    let c = i % cols;
    push_if(
        push_if(push_if(push_if(Seq::empty(), r > 0, i - cols), r + 1 < rows, i + cols), c > 0, i - 1),
        c + 1 < cols,
        i + 1,
    )
}

/// The kinds that need an outside adjacency matrix; `build` gives them the
/// 1 x 1 identity as a placeholder.
pub open spec fn needs_adjacency(kind: LaplacianKind) -> bool {
    match kind {
        LaplacianKind::Graph | LaplacianKind::Normalized | LaplacianKind::RandomWalk => true,
        _ => false,
    }
}

/// Number of nodes of a topology.
pub open spec fn kind_dim(kind: LaplacianKind) -> int {
    match kind {
        LaplacianKind::Discrete1D(n) => n as int,
        LaplacianKind::Cycle(n) => n as int,
        LaplacianKind::Complete(n) => n as int,
        LaplacianKind::Star(n) => n as int,
        LaplacianKind::Path(n) => n as int,
        LaplacianKind::Grid { rows, cols } => rows * cols,
        _ => 1,
    }
}

/// Neighbour list of node `i` in a topology.
pub open spec fn kind_neighbors(kind: LaplacianKind, i: int) -> Seq<int> {
    match kind {
        LaplacianKind::Discrete1D(n) => path_neighbors(n as int, i),
        LaplacianKind::Path(n) => path_neighbors(n as int, i),
        LaplacianKind::Cycle(n) => cycle_neighbors(n as int, i),
        LaplacianKind::Complete(n) => complete_neighbors(n as int, i),
        LaplacianKind::Star(n) => star_neighbors(n as int, i),
        LaplacianKind::Grid { rows, cols } => grid_neighbors(rows as int, cols as int, i),
        _ => Seq::empty(),
    }
}

/// The Laplacian entry at `(i, j)` for a topology.
pub open spec fn laplacian_entry(kind: LaplacianKind, i: int, j: int) -> int {
    if needs_adjacency(kind) {
        1
    } else {
        neighbor_entry(kind_neighbors(kind, i), i, j)
    }
}

/// The Laplacian entry at `(i, j)` of the node `i` whose neighbour list is
/// `nbrs`: `-1` for a neighbour, the degree on the diagonal, `0` elsewhere.
pub open spec fn neighbor_entry(nbrs: Seq<int>, i: int, j: int) -> int {
    if nbrs.contains(j) {
        -1
    } else if i == j {
        nbrs.len() as int
    } else {
        0
    }
}

/// `m` is an `n` x `n` matrix whose entry at `(i, j)` is `entry(i, j)`.
pub open spec fn matrix_is(m: Seq<Vec<i64>>, n: int, entry: spec_fn(int, int) -> int) -> bool {
    &&& m.len() == n
    &&& forall|i: int| 0 <= i < n ==> (#[trigger] m[i])@.len() == n
    &&& forall|i: int, j: int| 0 <= i < n && 0 <= j < n ==> m[i]@[j] as int == entry(i, j)
}

/// Row `i` of an `n` x `n` matrix whose entry at `(i, j)` is `entry(i, j)`.
pub open spec fn row_is(row: Seq<i64>, n: int, i: int, entry: spec_fn(int, int) -> int) -> bool {
    &&& row.len() == n
    &&& forall|j: int| 0 <= j < n ==> row[j] as int == entry(i, j)
}

/// A side `n` whose square `n * n` fits the address space is at most
/// `u32::MAX`, and `2 * n - 1` fits as well.
proof fn lemma_square_bound(n: int)
    requires
        0 <= n,
        n * n <= usize::MAX,
    ensures
        n <= u32::MAX,
        2 * n <= usize::MAX + 1,
{
    assert(n <= u32::MAX) by (nonlinear_arith)
        requires
            0 <= n,
            n * n <= usize::MAX,
            usize::MAX <= u64::MAX,
    ;
    assert(2 * n <= n * n + 1) by (nonlinear_arith)
        requires
            0 <= n,
    ;
}

/// Path Laplacian (free ends) of `n` nodes.
fn discrete_1d(n: usize) -> (lap: Vec<Vec<i64>>)
    requires
        n * n <= usize::MAX,
    ensures
        matrix_is(lap@, n as int, |i: int, j: int| neighbor_entry(path_neighbors(n as int, i), i, j)),
{
    let ghost entry = |i: int, j: int| neighbor_entry(path_neighbors(n as int, i), i, j);
    proof {
        lemma_square_bound(n as int);
    }
    let mut lap: Vec<Vec<i64>> = Vec::new();
    let mut i: usize = 0;
    while i < n
        invariant
            i <= n <= u32::MAX,
            2 * n <= usize::MAX + 1,
            lap@.len() == i,
            entry == (|i: int, j: int| neighbor_entry(path_neighbors(n as int, i), i, j)),
            forall|k: int| 0 <= k < i ==> row_is((#[trigger] lap@[k])@, n as int, k, entry),
        decreases n - i,
    {
        let has_prev = i > 0;
        let has_next = i + 1 < n;
        let degree: i64 = if has_prev && has_next { 2 } else if has_prev || has_next { 1 } else { 0 };
        let ghost nbrs = path_neighbors(n as int, i as int);
        assert(nbrs.len() == degree);
        let mut row: Vec<i64> = Vec::new();
        let mut j: usize = 0;
        while j < n
            invariant
                j <= n <= u32::MAX,
                2 * n <= usize::MAX + 1,
                i < n,
                nbrs == path_neighbors(n as int, i as int),
                nbrs.len() == degree,
                has_prev == (i > 0),
                has_next == (i + 1 < n),
                row@.len() == j,
                forall|k: int|
                    0 <= k < j ==> row@[k] as int == neighbor_entry(nbrs, i as int, k),
            decreases n - j,
        {
            let v: i64 = if (has_prev && j + 1 == i) || (has_next && j == i + 1) {
                -1
            } else if j == i {
                degree
            } else {
                0
            };
            assert(nbrs.contains(j as int) <==> ((has_prev && j + 1 == i) || (has_next && j == i + 1)));
            row.push(v);
            j = j + 1;
        }
        lap.push(row);
        i = i + 1;
    }
    lap
}

/// Cycle Laplacian of `n` nodes.
fn cycle(n: usize) -> (lap: Vec<Vec<i64>>)
    requires
        n * n <= usize::MAX,
    ensures
        matrix_is(lap@, n as int, |i: int, j: int| neighbor_entry(cycle_neighbors(n as int, i), i, j)),
{
    let ghost entry = |i: int, j: int| neighbor_entry(cycle_neighbors(n as int, i), i, j);
    proof {
        lemma_square_bound(n as int);
    }
    let mut lap: Vec<Vec<i64>> = Vec::new();
    let mut i: usize = 0;
    while i < n
        invariant
            i <= n <= u32::MAX,
            2 * n <= usize::MAX + 1,
            lap@.len() == i,
            entry == (|i: int, j: int| neighbor_entry(cycle_neighbors(n as int, i), i, j)),
            forall|k: int| 0 <= k < i ==> row_is((#[trigger] lap@[k])@, n as int, k, entry),
        decreases n - i,
    {
        let next = (i + 1) % n;
        let prev = (i + n - 1) % n;
        let ghost nbrs = cycle_neighbors(n as int, i as int);
        assert(nbrs[0] == next && nbrs[1] == prev);
        let mut row: Vec<i64> = Vec::new();
        let mut j: usize = 0;
        while j < n
            invariant
                j <= n <= u32::MAX,
                2 * n <= usize::MAX + 1,
                i < n,
                nbrs == cycle_neighbors(n as int, i as int),
                nbrs.len() == 2,
                nbrs[0] == next,
                nbrs[1] == prev,
                row@.len() == j,
                forall|k: int|
                    0 <= k < j ==> row@[k] as int == neighbor_entry(nbrs, i as int, k),
            decreases n - j,
        {
            let v: i64 = if j == next || j == prev {
                -1
            } else if j == i {
                2
            } else {
                0
            };
            assert(nbrs.contains(j as int) <==> (j == next || j == prev)) by {
                if j == prev {
                    assert(nbrs[1] == j);
                }
                if j == next {
                    assert(nbrs[0] == j);
                }
            }
            row.push(v);
            j = j + 1;
        }
        lap.push(row);
        i = i + 1;
    }
    lap
}

/// The neighbour list of `i` names distinct nodes of `[0, n)` other than `i`.
pub open spec fn simple_neighbors(nbrs: Seq<int>, i: int, n: int) -> bool {
    &&& nbrs.no_duplicates()
    &&& forall|a: int| 0 <= a < nbrs.len() ==> 0 <= #[trigger] nbrs[a] < n
    &&& !nbrs.contains(i)
}

/// Membership in the neighbour list of the complete graph, which is simple.
pub(crate) proof fn lemma_complete_neighbors(n: int, i: int, j: int)
    requires
        0 <= i < n,
    ensures
        complete_neighbors(n, i).len() == n - 1,
        complete_neighbors(n, i).contains(j) <==> (0 <= j < n && j != i),
        simple_neighbors(complete_neighbors(n, i), i, n),
{
    let s = complete_neighbors(n, i);
    if 0 <= j < n && j != i {
        let k = if j < i { j } else { j - 1 };
        assert(s[k] == j);
    }
    assert forall|a: int| 0 <= a < s.len() implies 0 <= #[trigger] s[a] < n && s[a] != i by {}
}

/// Complete-graph Laplacian of `n` nodes.
fn complete(n: usize) -> (lap: Vec<Vec<i64>>)
    requires
        n * n <= usize::MAX,
    ensures
        matrix_is(lap@, n as int, |i: int, j: int| neighbor_entry(complete_neighbors(n as int, i), i, j)),
{
    let ghost entry = |i: int, j: int| neighbor_entry(complete_neighbors(n as int, i), i, j);
    proof {
        lemma_square_bound(n as int);
    }
    let mut lap: Vec<Vec<i64>> = Vec::new();
    let mut i: usize = 0;
    while i < n
        invariant
            i <= n <= u32::MAX,
            2 * n <= usize::MAX + 1,
            lap@.len() == i,
            entry == (|i: int, j: int| neighbor_entry(complete_neighbors(n as int, i), i, j)),
            forall|k: int| 0 <= k < i ==> row_is((#[trigger] lap@[k])@, n as int, k, entry),
        decreases n - i,
    {
        let degree: i64 = (n - 1) as i64;
        let mut row: Vec<i64> = Vec::new();
        let mut j: usize = 0;
        while j < n
            invariant
                j <= n <= u32::MAX,
                2 * n <= usize::MAX + 1,
                i < n,
                degree == n - 1,
                row@.len() == j,
                forall|k: int|
                    0 <= k < j ==> row@[k] as int == neighbor_entry(
                        complete_neighbors(n as int, i as int),
                        i as int,
                        k,
                    ),
            decreases n - j,
        {
            let v: i64 = if j == i {
                degree
            } else {
                -1
            };
            proof {
                lemma_complete_neighbors(n as int, i as int, j as int);
            }
            row.push(v);
            j = j + 1;
        }
        lap.push(row);
        i = i + 1;
    }
    lap
}

/// Membership in the neighbour lists of the star graph, which are simple.
pub(crate) proof fn lemma_star_neighbors(n: int, i: int, j: int)
    requires
        0 <= i < n,
    ensures
        star_neighbors(n, i).len() == (if i == 0 { n - 1 } else { 1 }),
        star_neighbors(n, i).contains(j) <==> (if i == 0 { 1 <= j < n } else { j == 0 }),
        simple_neighbors(star_neighbors(n, i), i, n),
{
    let s = star_neighbors(n, i);
    if i == 0 && 1 <= j < n {
        assert(s[j - 1] == j);
    }
    if i != 0 && j == 0 {
        assert(s[0] == j);
    }
    assert forall|a: int| 0 <= a < s.len() implies 0 <= #[trigger] s[a] < n && s[a] != i by {}
}

/// Star Laplacian of `n` nodes with hub `0`.
fn star(n: usize) -> (lap: Vec<Vec<i64>>)
    requires
        n * n <= usize::MAX,
    ensures
        matrix_is(lap@, n as int, |i: int, j: int| neighbor_entry(star_neighbors(n as int, i), i, j)),
{
    let ghost entry = |i: int, j: int| neighbor_entry(star_neighbors(n as int, i), i, j);
    proof {
        lemma_square_bound(n as int);
    }
    let mut lap: Vec<Vec<i64>> = Vec::new();
    let mut i: usize = 0;
    while i < n
        invariant
            i <= n <= u32::MAX,
            2 * n <= usize::MAX + 1,
            lap@.len() == i,
            entry == (|i: int, j: int| neighbor_entry(star_neighbors(n as int, i), i, j)),
            forall|k: int| 0 <= k < i ==> row_is((#[trigger] lap@[k])@, n as int, k, entry),
        decreases n - i,
    {
        let hub_degree: i64 = (n - 1) as i64;
        let mut row: Vec<i64> = Vec::new();
        let mut j: usize = 0;
        while j < n
            invariant
                j <= n <= u32::MAX,
                2 * n <= usize::MAX + 1,
                i < n,
                hub_degree == n - 1,
                row@.len() == j,
                forall|k: int|
                    0 <= k < j ==> row@[k] as int == neighbor_entry(
                        star_neighbors(n as int, i as int),
                        i as int,
                        k,
                    ),
            decreases n - j,
        {
            let v: i64 = if i == 0 {
                if j == 0 {
                    hub_degree
                } else {
                    -1
                }
            } else if j == 0 {
                -1
            } else if j == i {
                1
            } else {
                0
            };
            proof {
                lemma_star_neighbors(n as int, i as int, j as int);
            }
            row.push(v);
            j = j + 1;
        }
        lap.push(row);
        i = i + 1;
    }
    lap
}

/// Row `r`, column `c` of the lattice node with index `r * cols + c`.
pub(crate) proof fn lemma_grid_coordinates(cols: int, r: int, c: int)
    requires
        0 <= r,
        0 <= c < cols,
    ensures
        (r * cols + c) / cols == r,
        (r * cols + c) % cols == c,
{
    vstd::arithmetic::div_mod::lemma_fundamental_div_mod_converse(r * cols + c, cols, r, c);
}

/// Lattice Laplacian of `rows` x `cols` nodes, 4-connectivity, nodes
/// numbered row by row.
fn grid(rows: usize, cols: usize) -> (lap: Vec<Vec<i64>>)
    requires
        (rows * cols) * (rows * cols) <= usize::MAX,
    ensures
        matrix_is(
            lap@,
            rows * cols,
            |i: int, j: int| neighbor_entry(grid_neighbors(rows as int, cols as int, i), i, j),
        ),
{
    let ghost entry = |i: int, j: int| neighbor_entry(grid_neighbors(rows as int, cols as int, i), i, j);
    let ghost total = rows * cols;
    proof {
        lemma_square_bound(total);
        assert(rows * cols <= usize::MAX) by (nonlinear_arith)
            requires
                rows * cols <= u32::MAX,
        ;
        assert(rows >= 1 ==> cols <= rows * cols) by (nonlinear_arith);
    }
    let n: usize = rows * cols;
    let mut lap: Vec<Vec<i64>> = Vec::new();
    let mut r: usize = 0;
    while r < rows
        invariant
            n == rows * cols,
            n <= u32::MAX,
            2 * n <= usize::MAX + 1,
            rows >= 1 ==> cols <= n,
            r <= rows,
            lap@.len() == r * cols,
            entry == (|i: int, j: int| neighbor_entry(grid_neighbors(rows as int, cols as int, i), i, j)),
            forall|k: int| 0 <= k < lap@.len() ==> row_is((#[trigger] lap@[k])@, n as int, k, entry),
        decreases rows - r,
    {
        let mut c: usize = 0;
        while c < cols
            invariant
                n == rows * cols,
                n <= u32::MAX,
                2 * n <= usize::MAX + 1,
                rows >= 1 ==> cols <= n,
                r < rows,
                c <= cols,
                lap@.len() == r * cols + c,
                entry == (|i: int, j: int| neighbor_entry(grid_neighbors(rows as int, cols as int, i), i, j)),
                forall|k: int| 0 <= k < lap@.len() ==> row_is((#[trigger] lap@[k])@, n as int, k, entry),
            decreases cols - c,
        {
            proof {
                assert(r * cols + c < rows * cols) by (nonlinear_arith)
                    requires
                        r < rows,
                        c < cols,
                ;
                lemma_grid_coordinates(cols as int, r as int, c as int);
            }
            let idx: usize = lap.len();
            let up = r > 0;
            let down = r + 1 < rows;
            let left = c > 0;
            let right = c + 1 < cols;
            let mut degree: i64 = 0;
            if up {
                degree = degree + 1;
            }
            if down {
                degree = degree + 1;
            }
            if left {
                degree = degree + 1;
            }
            if right {
                degree = degree + 1;
            }
            let ghost nbrs = grid_neighbors(rows as int, cols as int, idx as int);
            assert(nbrs.len() == degree);
            let mut row: Vec<i64> = Vec::new();
            let mut j: usize = 0;
            while j < n
                invariant
                    n == rows * cols,
                    2 * n <= usize::MAX + 1,
                    rows >= 1 ==> cols <= n,
                    r < rows,
                    idx < n,
                    j <= n,
                    nbrs == grid_neighbors(rows as int, cols as int, idx as int),
                    nbrs.len() == degree,
                    (idx as int) / (cols as int) == r,
                    (idx as int) % (cols as int) == c,
                    up == (r > 0),
                    down == (r + 1 < rows),
                    left == (c > 0),
                    right == (c + 1 < cols),
                    row@.len() == j,
                    forall|k: int|
                        0 <= k < j ==> row@[k] as int == neighbor_entry(nbrs, idx as int, k),
                decreases n - j,
            {
                let adjacent = (up && j + cols == idx) || (down && j == idx + cols) || (left && j + 1
                    == idx) || (right && j == idx + 1);
                let v: i64 = if adjacent {
                    -1
                } else if j == idx {
                    degree
                } else {
                    0
                };
                assert(nbrs.contains(j as int) <==> adjacent);
                row.push(v);
                j = j + 1;
            }
            lap.push(row);
            proof {
                assert(r * cols + c + 1 == r * cols + (c + 1));
            }
            c = c + 1;
        }
        proof {
            assert(r * cols + cols == (r + 1) * cols) by (nonlinear_arith);
        }
        r = r + 1;
    }
    lap
}

/// A Laplacian with metadata.
#[derive(Debug)]
pub struct Laplacian {
    /// The Laplacian matrix, row by row.
    pub matrix: Vec<Vec<i64>>,
    /// What kind of Laplacian this is.
    pub kind: LaplacianKind,
    /// Dimension (number of nodes/states).
    pub dim: usize,
}

impl Laplacian {
    /// The matrix is the `dim` x `dim` Laplacian of `kind`.
    pub open spec fn wf(&self) -> bool {
        &&& self.dim == kind_dim(self.kind)
        &&& matrix_is(self.matrix@, self.dim as int, |i: int, j: int| laplacian_entry(self.kind, i, j))
    }

    /// The entry at row `i`, column `j`.
    pub open spec fn entry(&self, i: int, j: int) -> int {
        self.matrix@[i]@[j] as int
    }

    /// Build a Laplacian of the given kind.
    ///
    /// Path and Discrete1D give the path with free ends; the kinds that need
    /// an outside adjacency matrix (Graph, Normalized, RandomWalk) give the
    /// 1 x 1 identity as a placeholder.
    pub fn build(kind: LaplacianKind) -> (lap: Self)
        requires
            kind_dim(kind) * kind_dim(kind) <= usize::MAX,
        ensures
            lap.kind == kind,
            lap.wf(),
    {
        let matrix = match kind {
            LaplacianKind::Discrete1D(n) => discrete_1d(n),
            LaplacianKind::Cycle(n) => cycle(n),
            LaplacianKind::Complete(n) => complete(n),
            LaplacianKind::Star(n) => star(n),
            LaplacianKind::Path(n) => discrete_1d(n),
            LaplacianKind::Grid { rows, cols } => grid(rows, cols),
            LaplacianKind::Graph | LaplacianKind::Normalized | LaplacianKind::RandomWalk => {
                let mut row: Vec<i64> = Vec::new();
                row.push(1);
                let mut m: Vec<Vec<i64>> = Vec::new();
                m.push(row);
                m
            },
        };
        let dim = matrix.len();
        Laplacian { matrix, kind, dim }
    }
}

} // verus!
