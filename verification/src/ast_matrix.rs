//! Abstract syntax trees as undirected adjacency matrices.

use vstd::prelude::*;
use vstd::string::StringExecFns;
use crate::text::{decimal, decimal_string};
use crate::sexp::{parse_sexp, read_sexp, node_model, tokens, lemma_parse_well_nested};

verus! {

/// A single node of an abstract syntax tree.
#[derive(Debug, Clone)]
pub struct CodeNode {
    /// The node type (e.g. "fn", "if", "return").
    pub node_type: String,
    /// An optional label (e.g. a name).
    pub label: Option<String>,
    /// Depth in the tree (0 = root).
    pub depth: usize,
}

/// The character content of an optional label.
pub open spec fn label_view(l: Option<String>) -> Option<Seq<char>> {
    match l {
        Some(s) => Some(s@),
        None => None,
    }
}

impl CodeNode {
    /// Creates a node.
    pub fn new(node_type: &str, label: Option<String>, depth: usize) -> (r: Self)
        ensures
            r.node_type@ == node_type@,
            r.label == label,
            r.depth == depth,
    {
        CodeNode { node_type: node_type.to_owned(), label, depth }
    }
}

/// Errors of graph operations.
#[derive(Debug, Clone)]
pub enum GraphError {
    /// A node index at or past the number of nodes.
    IndexOutOfBounds { index: usize, node_count: usize },
    /// A graph with no nodes where one is needed.
    EmptyGraph,
    /// An edge that cannot be formed.
    InvalidEdge { message: String },
}

impl GraphError {
    /// The text that describes the error.
    pub open spec fn text(self) -> Seq<char> {
        match self {
            GraphError::IndexOutOfBounds { index, node_count } =>
                "node index "@ + decimal(index as nat) + " out of bounds (node_count="@
                    + decimal(node_count as nat) + ")"@,
            GraphError::EmptyGraph => "empty graph has no nodes"@,
            GraphError::InvalidEdge { message } => "invalid edge: "@ + message@,
        }
    }

    /// Renders the error as text.
    pub fn to_string(&self) -> (r: String)
        ensures
            r@ == self.text(),
    {
        match self {
            GraphError::IndexOutOfBounds { index, node_count } => {
                let mut s = String::from_str("node index ");
                s.append(decimal_string(*index).as_str());
                s.append(" out of bounds (node_count=");
                s.append(decimal_string(*node_count).as_str());
                s.append(")");
                s
            },
            GraphError::EmptyGraph => String::from_str("empty graph has no nodes"),
            GraphError::InvalidEdge { message } => {
                let mut s = String::from_str("invalid edge: ");
                s.append(message.as_str());
                s
            },
        }
    }
}


/// The entry of the `n`-column row-major matrix `m` at row `r`, column `c`.
pub open spec fn cell<T>(m: Seq<T>, n: int, r: int, c: int) -> T {
    m[r * n + c]
}

/// A row-major index of an `n`-by-`n` matrix lies inside it.
pub proof fn lemma_cell_in_range(n: int, r: int, c: int)
    by (nonlinear_arith)
    requires
        0 <= r < n,
        0 <= c < n,
    ensures
        0 <= r * n + c < n * n,
{
}

/// Distinct cells of an `n`-by-`n` matrix have distinct row-major indices.
pub proof fn lemma_cell_distinct(n: int, r1: int, c1: int, r2: int, c2: int)
    requires
        0 <= r1 < n,
        0 <= c1 < n,
        0 <= r2 < n,
        0 <= c2 < n,
        r1 * n + c1 == r2 * n + c2,
    ensures
        r1 == r2,
        c1 == c2,
{
    if r1 < r2 {
        assert(r1 * n + c1 < r2 * n + c2) by (nonlinear_arith)
            requires
                r1 < r2,
                0 <= c1 < n,
                0 <= c2,
        ;
    } else if r2 < r1 {
        assert(r2 * n + c2 < r1 * n + c1) by (nonlinear_arith)
            requires
                r2 < r1,
                0 <= c2 < n,
                0 <= c1,
        ;
    }
}

/// A row-major `n`-by-`n` matrix whose every cell is zero.
pub open spec fn zero_matrix(n: nat) -> Seq<u8> {
    Seq::new(n * n, |k: int| 0u8)
}

/// `len` zeros.
fn zeros(len: usize) -> (v: Vec<u8>)
    ensures
        v@ == Seq::new(len as nat, |k: int| 0u8),
{
    let mut v: Vec<u8> = Vec::new();
    while v.len() < len
        invariant
            v.len() <= len,
            v@ == Seq::new(v.len() as nat, |k: int| 0u8),
        decreases len - v.len(),
    {
        v.push(0u8);
    }
    v
}

/// A code graph: the nodes of a tree and the undirected adjacency matrix
/// of its parent-child edges, in row-major order. A cell holds 1 where two
/// nodes are joined and 0 elsewhere.
#[derive(Debug, Clone)]
pub struct CodeGraph {
    /// Number of nodes.
    pub node_count: usize,
    /// Row-major adjacency matrix of `node_count * node_count` cells.
    pub adjacency: Vec<u8>,
    /// The node of each row.
    pub nodes: Vec<CodeNode>,
}

impl CodeGraph {
    /// The matrix has one cell per pair of nodes.
    pub open spec fn well_formed(self) -> bool {
        self.adjacency@.len() == self.node_count * self.node_count
    }

    /// The matrix has at least one cell per pair of nodes.
    pub open spec fn has_all_cells(self) -> bool {
        self.adjacency@.len() >= self.node_count * self.node_count
    }

    /// The adjacency cell at row `r`, column `c`.
    pub open spec fn at(self, r: int, c: int) -> u8 {
        cell(self.adjacency@, self.node_count as int, r, c)
    }

    /// The matrix equals its transpose.
    pub open spec fn is_symmetric(self) -> bool {
        forall|r: int, c: int|
            0 <= r < self.node_count && 0 <= c < self.node_count ==> #[trigger] self.at(r, c)
                == self.at(c, r)
    }

    /// The sum of the first `k` cells of row `i`.
    pub open spec fn row_sum(self, i: int, k: int) -> int
        decreases k,
    {
        if k <= 0 {
            0
        } else {
            self.row_sum(i, k - 1) + self.at(i, k - 1)
        }
    }

    /// The degree of node `i`: the sum of its row.
    pub open spec fn degree_of(self, i: int) -> int {
        self.row_sum(i, self.node_count as int)
    }

    /// The Laplacian `D - A` at row `i`, column `j`.
    pub open spec fn laplacian_at(self, i: int, j: int) -> int {
        (if i == j { self.degree_of(i) } else { 0 }) - self.at(i, j)
    }

    /// An empty graph.
    pub fn new() -> (g: Self)
        ensures
            g.node_count == 0,
            g.adjacency@ == Seq::<u8>::empty(),
            g.nodes@ == Seq::<CodeNode>::empty(),
            g.well_formed(),
            g.is_symmetric(),
    {
        CodeGraph { node_count: 0, adjacency: Vec::new(), nodes: Vec::new() }
    }

    /// A graph of `n` placeholder nodes and no edges.
    pub fn with_capacity(n: usize) -> (g: Self)
        requires
            n * n <= usize::MAX,
        ensures
            g.node_count == n,
            g.adjacency@ == zero_matrix(n as nat),
            g.nodes.len() == n,
            forall|i: int|
                0 <= i < n ==> {
                    &&& (#[trigger] g.nodes@[i]).node_type@ == "placeholder"@
                    &&& g.nodes@[i].label is None
                    &&& g.nodes@[i].depth == 0
                },
            g.well_formed(),
            g.is_symmetric(),
    {
        let adjacency = zeros(n * n);
        let mut nodes: Vec<CodeNode> = Vec::new();
        while nodes.len() < n
            invariant
                nodes.len() <= n,
                forall|i: int|
                    0 <= i < nodes.len() ==> {
                        &&& (#[trigger] nodes@[i]).node_type@ == "placeholder"@
                        &&& nodes@[i].label is None
                        &&& nodes@[i].depth == 0
                    },
            decreases n - nodes.len(),
        {
            nodes.push(CodeNode::new("placeholder", None, 0));
        }
        let g = CodeGraph { node_count: n, adjacency, nodes };
        assert forall|r: int, c: int| 0 <= r < n && 0 <= c < n implies #[trigger] g.at(r, c) == g.at(
            c,
            r,
        ) by {
            lemma_cell_in_range(n as int, r, c);
            lemma_cell_in_range(n as int, c, r);
        }
        g
    }

    /// Appends a node with no edges and returns its index. The matrix grows
    /// by one zero row and one zero column; every old cell keeps its value.
    pub fn add_node(&mut self, node: CodeNode) -> (idx: usize)
        requires
            old(self).has_all_cells(),
            (old(self).node_count + 1) * (old(self).node_count + 1) <= usize::MAX,
        ensures
            idx == old(self).node_count,
            final(self).node_count == old(self).node_count + 1,
            final(self).nodes@ == old(self).nodes@.push(node),
            final(self).well_formed(),
            forall|r: int, c: int|
                0 <= r < final(self).node_count && 0 <= c < final(self).node_count
                    ==> #[trigger] final(self).at(r, c) == if r < idx && c < idx {
                    old(self).at(r, c)
                } else {
                    0u8
                },
            old(self).is_symmetric() ==> final(self).is_symmetric(),
    {
        let idx = self.node_count;
        let old_n = self.node_count;
        proof {
            let k = old_n as int;
            assert(k * k <= (k + 1) * (k + 1) && k + 1 <= (k + 1) * (k + 1)) by (nonlinear_arith)
                requires
                    k >= 0,
            ;
        }
        let m = old_n + 1;
        self.node_count = m;
        self.nodes.push(node);
        let mut new_mat = zeros(m * m);
        let ghost old_adj = self.adjacency@;
        assert forall|r2: int, c2: int| 0 <= r2 < m && 0 <= c2 < m implies #[trigger] cell(
            new_mat@,
            m as int,
            r2,
            c2,
        ) == 0u8 by {
            lemma_cell_in_range(m as int, r2, c2);
        }
        let mut r: usize = 0;
        while r < old_n
            invariant
                old_n + 1 == m,
                m * m <= usize::MAX,
                old_n * old_n <= usize::MAX,
                r <= old_n,
                old_adj == self.adjacency@,
                old_adj.len() >= old_n * old_n,
                new_mat@.len() == m * m,
                forall|r2: int, c2: int|
                    0 <= r2 < m && 0 <= c2 < m ==> #[trigger] cell(new_mat@, m as int, r2, c2)
                        == if r2 < r && c2 < old_n {
                        cell(old_adj, old_n as int, r2, c2)
                    } else {
                        0u8
                    },
            decreases old_n - r,
        {
            let mut c: usize = 0;
            while c < old_n
                invariant
                    old_n + 1 == m,
                    m * m <= usize::MAX,
                    old_n * old_n <= usize::MAX,
                    r < old_n,
                    c <= old_n,
                    old_adj == self.adjacency@,
                    old_adj.len() >= old_n * old_n,
                    new_mat@.len() == m * m,
                    forall|r2: int, c2: int|
                        0 <= r2 < m && 0 <= c2 < m ==> #[trigger] cell(new_mat@, m as int, r2, c2)
                            == if (r2 < r && c2 < old_n) || (r2 == r && c2 < c) {
                            cell(old_adj, old_n as int, r2, c2)
                        } else {
                            0u8
                        },
                decreases old_n - c,
            {
                proof {
                    lemma_cell_in_range(m as int, r as int, c as int);
                    lemma_cell_in_range(old_n as int, r as int, c as int);
                }
                let v = self.adjacency[r * old_n + c];
                let ghost before = new_mat@;
                new_mat.set(r * m + c, v);
                proof {
                    assert forall|r2: int, c2: int|
                        0 <= r2 < m && 0 <= c2 < m implies #[trigger] cell(new_mat@, m as int, r2, c2)
                            == if (r2 < r && c2 < old_n) || (r2 == r && c2 < c + 1) {
                            cell(old_adj, old_n as int, r2, c2)
                        } else {
                            0u8
                        } by {
                        lemma_cell_in_range(m as int, r2, c2);
                        if r2 * m + c2 == r * m + c {
                            lemma_cell_distinct(m as int, r2, c2, r as int, c as int);
                        } else {
                            assert(cell(new_mat@, m as int, r2, c2) == cell(before, m as int, r2, c2));
                        }
                    }
                }
                c = c + 1;
            }
            r = r + 1;
        }
        self.adjacency = new_mat;
        proof {
            if old(self).is_symmetric() {
                assert forall|r2: int, c2: int|
                    0 <= r2 < m && 0 <= c2 < m implies #[trigger] self.at(r2, c2) == self.at(
                        c2,
                        r2,
                    ) by {
                    assert(self.at(r2, c2) == cell(new_mat@, m as int, r2, c2));
                    assert(self.at(c2, r2) == cell(new_mat@, m as int, c2, r2));
                    if r2 < old_n && c2 < old_n {
                        assert(old(self).at(r2, c2) == old(self).at(c2, r2));
                    }
                }
            }
        }
        idx
    }
}


impl CodeGraph {
    /// Joins `a` and `b` by an undirected edge: both cells `(a, b)` and
    /// `(b, a)` become 1. An index at or past `node_count` is refused, with
    /// the larger of the two indices, and the graph is left unchanged.
    pub fn add_edge(&mut self, a: usize, b: usize) -> (res: Result<(), GraphError>)
        requires
            old(self).has_all_cells(),
        ensures
            final(self).node_count == old(self).node_count,
            final(self).nodes@ == old(self).nodes@,
            final(self).adjacency@.len() == old(self).adjacency@.len(),
            a >= old(self).node_count || b >= old(self).node_count ==> {
                &&& res == Err::<(), GraphError>(
                    GraphError::IndexOutOfBounds {
                        index: if a >= b { a } else { b },
                        node_count: old(self).node_count,
                    },
                )
                &&& final(self).adjacency@ == old(self).adjacency@
            },
            a < old(self).node_count && b < old(self).node_count ==> {
                &&& res is Ok
                &&& final(self).adjacency@ == old(self).adjacency@.update(
                    a * old(self).node_count + b,
                    1u8,
                ).update(b * old(self).node_count + a, 1u8)
                &&& final(self).at(a as int, b as int) == 1
                &&& final(self).at(b as int, a as int) == 1
                &&& forall|r: int, c: int|
                    0 <= r < old(self).node_count && 0 <= c < old(self).node_count && !(r == a
                        && c == b) && !(r == b && c == a) ==> #[trigger] final(self).at(r, c)
                        == old(self).at(r, c)
            },
            old(self).is_symmetric() ==> final(self).is_symmetric(),
    {
        let n = self.node_count;
        let _cells = self.adjacency.len();
        if a >= n || b >= n {
            let index = if a >= b { a } else { b };
            return Err(GraphError::IndexOutOfBounds { index, node_count: n });
        }
        proof {
            lemma_cell_in_range(n as int, a as int, b as int);
            lemma_cell_in_range(n as int, b as int, a as int);
        }
        let ghost before = self.adjacency@;
        self.adjacency.set(a * n + b, 1u8);
        self.adjacency.set(b * n + a, 1u8);
        proof {
            assert forall|r: int, c: int|
                0 <= r < n && 0 <= c < n && !(r == a && c == b) && !(r == b && c == a)
                    implies #[trigger] self.at(r, c) == cell(before, n as int, r, c) by {
                lemma_cell_in_range(n as int, r, c);
                if r * n + c == a * n + b {
                    lemma_cell_distinct(n as int, r, c, a as int, b as int);
                }
                if r * n + c == b * n + a {
                    lemma_cell_distinct(n as int, r, c, b as int, a as int);
                }
            }
            if old(self).is_symmetric() {
                assert forall|r: int, c: int|
                    0 <= r < n && 0 <= c < n implies #[trigger] self.at(r, c) == self.at(c, r) by {
                    if !((r == a && c == b) || (r == b && c == a)) {
                        assert(self.at(c, r) == cell(before, n as int, c, r));
                        assert(old(self).at(r, c) == old(self).at(c, r));
                    }
                }
            }
        }
        Ok(())
    }

    /// The cell at (`row`, `col`), or `None` when either index is at or
    /// past `node_count`.
    pub fn get(&self, row: usize, col: usize) -> (r: Option<u8>)
        requires
            self.has_all_cells(),
        ensures
            row >= self.node_count || col >= self.node_count ==> r is None,
            row < self.node_count && col < self.node_count ==> r == Some(
                self.at(row as int, col as int),
            ),
    {
        let _cells = self.adjacency.len();
        if row >= self.node_count || col >= self.node_count {
            None
        } else {
            proof {
                lemma_cell_in_range(self.node_count as int, row as int, col as int);
            }
            Some(self.adjacency[row * self.node_count + col])
        }
    }

    /// The degree of node `i`: the sum of row `i`. With no nodes the sum is
    /// empty, whatever `i` is.
    pub fn degree(&self, i: usize) -> (d: u64)
        requires
            self.has_all_cells(),
            i < self.node_count || self.node_count == 0,
        ensures
            d == self.degree_of(i as int),
    {
        let n = self.node_count;
        let _cells = self.adjacency.len();
        let mut sum: u64 = 0;
        let mut j: usize = 0;
        proof {
            lemma_side_small(n as int);
        }
        while j < n
            invariant
                self.has_all_cells(),
                n == self.node_count,
                j < n ==> i < n,
                j <= n,
                n * n <= usize::MAX,
                n <= 0x1_0000_0000,
                sum == self.row_sum(i as int, j as int),
                sum <= 255 * j,
            decreases n - j,
        {
            proof {
                lemma_cell_in_range(n as int, i as int, j as int);
            }
            sum = sum + self.adjacency[i * n + j] as u64;
            j = j + 1;
        }
        sum
    }

    /// The degree of every node, in node order.
    pub fn degree_matrix(&self) -> (d: Vec<u64>)
        requires
            self.has_all_cells(),
        ensures
            d.len() == self.node_count,
            forall|i: int| 0 <= i < self.node_count ==> #[trigger] d@[i] == self.degree_of(i),
    {
        let mut d: Vec<u64> = Vec::new();
        let mut i: usize = 0;
        while i < self.node_count
            invariant
                self.has_all_cells(),
                i <= self.node_count,
                d.len() == i,
                forall|k: int| 0 <= k < i ==> #[trigger] d@[k] == self.degree_of(k),
            decreases self.node_count - i,
        {
            d.push(self.degree(i));
            i = i + 1;
        }
        d
    }

    /// The Laplacian matrix `L = D - A`, row-major, where `D` is the
    /// diagonal matrix of degrees.
    pub fn laplacian(&self) -> (lap: Vec<i64>)
        requires
            self.has_all_cells(),
        ensures
            lap@.len() == self.node_count * self.node_count,
            forall|i: int, j: int|
                0 <= i < self.node_count && 0 <= j < self.node_count ==> #[trigger] cell(
                    lap@,
                    self.node_count as int,
                    i,
                    j,
                ) == self.laplacian_at(i, j),
    {
        let n = self.node_count;
        let _cells = self.adjacency.len();
        proof {
            lemma_side_small(n as int);
        }
        let degrees = self.degree_matrix();
        let mut lap: Vec<i64> = Vec::new();
        let mut i: usize = 0;
        while i < n
            invariant
                self.has_all_cells(),
                n == self.node_count,
                n * n <= usize::MAX,
                n <= 0x1_0000_0000,
                i <= n,
                degrees.len() == n,
                forall|k: int| 0 <= k < n ==> #[trigger] degrees@[k] == self.degree_of(k),
                lap@.len() == i * n,
                forall|r: int, c: int|
                    0 <= r < i && 0 <= c < n ==> #[trigger] cell(lap@, n as int, r, c)
                        == self.laplacian_at(r, c),
            decreases n - i,
        {
            let mut j: usize = 0;
            proof {
                lemma_degree_bound(*self, i as int, n as int);
            }
            while j < n
                invariant
                    self.has_all_cells(),
                    n == self.node_count,
                    n * n <= usize::MAX,
                    n <= 0x1_0000_0000,
                    i < n,
                    j <= n,
                    degrees.len() == n,
                    forall|k: int| 0 <= k < n ==> #[trigger] degrees@[k] == self.degree_of(k),
                    0 <= self.degree_of(i as int) <= 255 * n,
                    lap@.len() == i * n + j,
                    forall|r: int, c: int|
                        (0 <= r < i && 0 <= c < n) || (r == i && 0 <= c < j) ==> #[trigger] cell(
                            lap@,
                            n as int,
                            r,
                            c,
                        ) == self.laplacian_at(r, c),
                decreases n - j,
            {
                proof {
                    lemma_cell_in_range(n as int, i as int, j as int);
                }
                let a = self.adjacency[i * n + j] as i64;
                let v: i64 = if i == j {
                    degrees[i] as i64 - a
                } else {
                    0 - a
                };
                let ghost before = lap@;
                lap.push(v);
                proof {
                    assert((i as int) * (n as int) + (j as int) == before.len());
                    assert forall|r: int, c: int|
                        (0 <= r < i && 0 <= c < n) || (r == i && 0 <= c < j + 1) implies #[trigger] cell(
                            lap@,
                            n as int,
                            r,
                            c,
                        ) == self.laplacian_at(r, c) by {
                        if r == i && c == j {
                        } else {
                            lemma_cell_in_range(n as int, r, c);
                            if r < i {
                                assert(r * n + c < i * n) by (nonlinear_arith)
                                    requires
                                        0 <= r < i,
                                        0 <= c < n,
                                ;
                            }
                            assert(cell(lap@, n as int, r, c) == cell(before, n as int, r, c));
                        }
                    }
                }
                j = j + 1;
            }
            proof {
                assert((i as int + 1) * (n as int) == (i as int) * (n as int) + n) by (nonlinear_arith);
            }
            i = i + 1;
        }
        lap
    }
}

/// A side whose square fits in `usize` is at most 2^32.
pub proof fn lemma_side_small(n: int)
    requires
        0 <= n,
        n * n <= usize::MAX,
    ensures
        n <= 0x1_0000_0000,
{
    if n > 0x1_0000_0000 {
        assert(n * n > 0x1_0000_0000 * 0x1_0000_0000) by (nonlinear_arith)
            requires
                n > 0x1_0000_0000,
        ;
    }
}

/// A row sum of `k` byte cells is at most `255 * k`.
pub proof fn lemma_degree_bound(g: CodeGraph, i: int, k: int)
    requires
        k >= 0,
    ensures
        0 <= g.row_sum(i, k) <= 255 * k,
    decreases k,
{
    if k > 0 {
        lemma_degree_bound(g, i, k - 1);
    }
}

/// Every row of the Laplacian sums to zero: the diagonal holds the row sum
/// of the adjacency matrix, and each cell subtracts its adjacency entry.
pub proof fn lemma_laplacian_rows_sum_to_zero(g: CodeGraph, i: int)
    requires
        0 <= i < g.node_count,
    ensures
        laplacian_row_sum(g, i, g.node_count as int) == 0,
{
    lemma_laplacian_prefix(g, i, g.node_count as int);
}

/// The sum of the first `k` Laplacian cells of row `i`.
pub open spec fn laplacian_row_sum(g: CodeGraph, i: int, k: int) -> int
    decreases k,
{
    if k <= 0 {
        0
    } else {
        laplacian_row_sum(g, i, k - 1) + g.laplacian_at(i, k - 1)
    }
}

proof fn lemma_laplacian_prefix(g: CodeGraph, i: int, k: int)
    requires
        0 <= k,
        0 <= i,
    ensures
        laplacian_row_sum(g, i, k) == (if i < k { g.degree_of(i) } else { 0 }) - g.row_sum(i, k),
    decreases k,
{
    if k > 0 {
        lemma_laplacian_prefix(g, i, k - 1);
    }
}

impl Default for CodeGraph {
    fn default() -> (g: Self)
        ensures
            g.node_count == 0,
            g.adjacency@ == Seq::<u8>::empty(),
            g.nodes@ == Seq::<CodeNode>::empty(),
    {
        Self::new()
    }
}


/// Node `r` is the parent of node `c`, or `c` the parent of `r`, in the
/// parent list `parents` (`parents[i]` is the parent of node `i`).
pub open spec fn tree_edge(parents: Seq<Option<usize>>, r: int, c: int) -> bool {
    ||| (0 <= r < parents.len() && parents[r] == Some(c as usize) && 0 <= c)
    ||| (0 <= c < parents.len() && parents[c] == Some(r as usize) && 0 <= r)
}

/// The first parent index at or past `n` among the first `k` entries of
/// `parents`, if there is one.
pub open spec fn first_bad_parent(parents: Seq<Option<usize>>, n: nat, k: int) -> Option<usize>
    decreases k,
{
    if k <= 0 {
        None
    } else {
        match first_bad_parent(parents, n, k - 1) {
            Some(p) => Some(p),
            None => match parents[k - 1] {
                Some(p) => if p >= n {
                    Some(p)
                } else {
                    None
                },
                None => None,
            },
        }
    }
}

/// Once a bad parent is found, scanning further entries keeps it.
proof fn lemma_first_bad_parent_stable(parents: Seq<Option<usize>>, n: nat, k: int, k2: int)
    requires
        0 < k <= k2,
        first_bad_parent(parents, n, k) is Some,
    ensures
        first_bad_parent(parents, n, k2) == first_bad_parent(parents, n, k),
    decreases k2 - k,
{
    if k2 > k {
        lemma_first_bad_parent_stable(parents, n, k, k2 - 1);
    }
}

/// The scan finds a bad parent exactly when some entry among the first `k`
/// names a parent at or past `n`; what it finds is the first such parent,
/// and it is at or past `n`.
pub proof fn lemma_first_bad_parent_exact(parents: Seq<Option<usize>>, n: nat, k: int)
    requires
        0 <= k <= parents.len(),
    ensures
        first_bad_parent(parents, n, k) is None <==> forall|i: int|
            0 <= i < k ==> (#[trigger] parents[i] matches Some(p) ==> p < n),
        first_bad_parent(parents, n, k) matches Some(p) ==> p >= n && exists|i: int|
            0 <= i < k && #[trigger] parents[i] == Some(p) && forall|j: int|
                0 <= j < i ==> (#[trigger] parents[j] matches Some(q) ==> q < n),
    decreases k,
{
    if k > 0 {
        lemma_first_bad_parent_exact(parents, n, k - 1);
        if first_bad_parent(parents, n, k - 1) is None {
            if let Some(p) = parents[k - 1] {
                if p >= n {
                    assert(parents[k - 1] == Some(p));
                }
            }
        } else {
            let p = first_bad_parent(parents, n, k - 1)->0;
            let i = choose|i: int|
                0 <= i < k - 1 && #[trigger] parents[i] == Some(p) && forall|j: int|
                    0 <= j < i ==> (#[trigger] parents[j] matches Some(q) ==> q < n);
            assert(parents[i] == Some(p));
        }
    }
}

/// With every parent index below `n`, no bad parent is found.
pub proof fn lemma_no_bad_parent(parents: Seq<Option<usize>>, n: nat, k: int)
    requires
        k <= parents.len(),
        forall|i: int| 0 <= i < k ==> (#[trigger] parents[i] matches Some(p) ==> p < n),
    ensures
        first_bad_parent(parents, n, k) is None,
    decreases k,
{
    if k > 0 {
        lemma_no_bad_parent(parents, n, k - 1);
    }
}

/// The text of the error for node and parent lists of different lengths.
pub open spec fn length_mismatch_text(nodes_len: nat, parents_len: nat) -> Seq<char> {
    "nodes len ("@ + decimal(nodes_len) + ") != parents len ("@ + decimal(parents_len) + ")"@
}

impl CodeGraph {
    /// The graph of a tree given as a node list and a parent list, where
    /// `parents[i]` is `None` for a root and `Some(p)` when node `p` is the
    /// parent of node `i`. Each parent-child pair becomes an undirected
    /// edge; no other pair is joined.
    ///
    /// Refused: an empty node list; lists of different lengths; a parent
    /// index at or past the number of nodes (the first such, in child
    /// order).
    pub fn from_tree(nodes: Vec<CodeNode>, parents: &[Option<usize>]) -> (res: Result<
        Self,
        GraphError,
    >)
        requires
            nodes@.len() * nodes@.len() <= usize::MAX,
        ensures
            nodes@.len() == 0 ==> res == Err::<CodeGraph, GraphError>(GraphError::EmptyGraph),
            nodes@.len() > 0 && nodes@.len() != parents@.len() ==> (res matches Err(
                GraphError::InvalidEdge { message },
            ) && message@ == length_mismatch_text(nodes@.len(), parents@.len())),
            nodes@.len() > 0 && nodes@.len() == parents@.len() ==> match first_bad_parent(
                parents@,
                nodes@.len(),
                parents@.len() as int,
            ) {
                Some(p) => res == Err::<CodeGraph, GraphError>(
                    GraphError::IndexOutOfBounds { index: p, node_count: nodes@.len() as usize },
                ),
                None => res matches Ok(g) && {
                    &&& g.node_count == nodes@.len()
                    &&& g.nodes@ == nodes@
                    &&& g.well_formed()
                    &&& g.is_symmetric()
                    &&& forall|r: int, c: int|
                        0 <= r < g.node_count && 0 <= c < g.node_count ==> #[trigger] g.at(r, c)
                            == if tree_edge(parents@, r, c) {
                            1u8
                        } else {
                            0u8
                        }
                },
            },
            res is Ok <==> (nodes@.len() > 0 && nodes@.len() == parents@.len() && forall|i: int|
                0 <= i < parents@.len() ==> (#[trigger] parents@[i] matches Some(p) ==> p
                    < nodes@.len())),
            res matches Err(GraphError::IndexOutOfBounds { index, node_count }) ==> {
                &&& node_count == nodes@.len()
                &&& index >= node_count
                &&& exists|i: int| 0 <= i < parents@.len() && #[trigger] parents@[i] == Some(index)
            },
    {
        proof {
            if nodes@.len() == parents@.len() {
                lemma_first_bad_parent_exact(parents@, nodes@.len(), parents@.len() as int);
            }
        }
        if nodes.len() == 0 {
            return Err(GraphError::EmptyGraph);
        }
        if nodes.len() != parents.len() {
            let mut message = String::from_str("nodes len (");
            message.append(decimal_string(nodes.len()).as_str());
            message.append(") != parents len (");
            message.append(decimal_string(parents.len()).as_str());
            message.append(")");
            return Err(GraphError::InvalidEdge { message });
        }
        let n = nodes.len();
        let ghost node_seq = nodes@;
        let adjacency = zeros(n * n);
        let mut graph = CodeGraph { node_count: n, adjacency, nodes };
        assert forall|r: int, c: int| 0 <= r < n && 0 <= c < n implies #[trigger] graph.at(r, c)
            == 0u8 by {
            lemma_cell_in_range(n as int, r, c);
        }
        let mut child: usize = 0;
        while child < n
            invariant
                n == parents@.len(),
                n == node_seq.len(),
                node_seq == nodes@,
                n > 0,
                n * n <= usize::MAX,
                child <= n,
                graph.node_count == n,
                graph.nodes@ == node_seq,
                graph.well_formed(),
                first_bad_parent(parents@, n as nat, child as int) is None,
                forall|r: int, c: int|
                    0 <= r < n && 0 <= c < n ==> #[trigger] graph.at(r, c) == if tree_edge(
                        parents@.take(child as int),
                        r,
                        c,
                    ) {
                        1u8
                    } else {
                        0u8
                    },
            decreases n - child,
        {
            match parents[child] {
                Some(parent) => {
                    if parent >= n {
                        proof {
                            lemma_first_bad_parent_stable(parents@, n as nat, child + 1, n as int);
                        }
                        return Err(GraphError::IndexOutOfBounds { index: parent, node_count: n });
                    }
                    let ghost before = graph;
                    match graph.add_edge(child, parent) {
                        Ok(()) => {},
                        Err(e) => {
                            return Err(e);
                        },
                    }
                    proof {
                        assert forall|r: int, c: int| 0 <= r < n && 0 <= c < n implies #[trigger] graph.at(r, c)
                            == if tree_edge(parents@.take(child + 1), r, c) {
                            1u8
                        } else {
                            0u8
                        } by {
                            assert(parents@.take(child + 1)[child as int] == parents@[child as int]);
                            if !((r == child && c == parent) || (r == parent && c == child)) {
                                assert(graph.at(r, c) == before.at(r, c));
                                if r < child {
                                    assert(parents@.take(child + 1)[r] == parents@.take(child as int)[r]);
                                }
                                if c < child {
                                    assert(parents@.take(child + 1)[c] == parents@.take(child as int)[c]);
                                }
                            }
                        }
                    }
                },
                None => {
                    proof {
                        assert forall|r: int, c: int| 0 <= r < n && 0 <= c < n implies #[trigger] graph.at(r, c)
                            == if tree_edge(parents@.take(child + 1), r, c) {
                            1u8
                        } else {
                            0u8
                        } by {
                            assert(parents@.take(child + 1)[child as int] == parents@[child as int]);
                            if r < child {
                                assert(parents@.take(child + 1)[r] == parents@.take(child as int)[r]);
                            }
                            if c < child {
                                assert(parents@.take(child + 1)[c] == parents@.take(child as int)[c]);
                            }
                        }
                    }
                },
            }
            child = child + 1;
        }
        proof {
            assert(parents@.take(n as int) =~= parents@);
            assert forall|r: int, c: int| 0 <= r < n && 0 <= c < n implies #[trigger] graph.at(r, c)
                == graph.at(c, r) by {
                assert(graph.at(c, r) == if tree_edge(parents@, c, r) { 1u8 } else { 0u8 });
            }
        }
        Ok(graph)
    }
}

/// `g` is the graph of the text `s`: the nodes read from `s`, each joined
/// to its parent and to nothing else.
pub open spec fn is_sexp_graph(g: CodeGraph, s: Seq<char>) -> bool {
    &&& g.node_count == parse_sexp(s).nodes.len()
    &&& g.nodes@.map_values(|n: CodeNode| node_model(n)) == parse_sexp(s).nodes
    &&& g.well_formed()
    &&& g.is_symmetric()
    &&& forall|r: int, c: int|
        0 <= r < g.node_count && 0 <= c < g.node_count ==> #[trigger] g.at(r, c) == if tree_edge(
            parse_sexp(s).parents,
            r,
            c,
        ) {
            1u8
        } else {
            0u8
        }
}

impl CodeGraph {
    /// The graph of a simplified S-expression such as
    /// `(fn foo (if (return 1) (return 2)))`: the nodes read from the text
    /// (see `parse_sexp`), each joined to its parent. Text with no node is
    /// refused.
    pub fn from_sexp(sexp: &str) -> (res: Result<Self, GraphError>)
        requires
            parse_sexp(sexp@).nodes.len() * parse_sexp(sexp@).nodes.len() <= usize::MAX,
        ensures
            parse_sexp(sexp@).nodes.len() == 0 ==> res == Err::<CodeGraph, GraphError>(
                GraphError::EmptyGraph,
            ),
            parse_sexp(sexp@).nodes.len() > 0 ==> (res matches Ok(g) && is_sexp_graph(g, sexp@)),
    {
        let (nodes, parents) = read_sexp(sexp);
        let count = nodes.len();
        proof {
            assert(nodes@.map_values(|n: CodeNode| node_model(n)).len() == nodes@.len());
            lemma_parse_well_nested(tokens(sexp@));
        }
        if count == 0 {
            return Err(GraphError::EmptyGraph);
        }
        proof {
            lemma_no_bad_parent(parents@, nodes@.len(), parents@.len() as int);
        }
        Self::from_tree(nodes, parents.as_slice())
    }
}

} // verus!
