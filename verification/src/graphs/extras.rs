//! Fixed example graphs: a ten-vertex sphere-like test graph and cycle
//! graphs, both built through the adjacency-matrix constructor.

use vstd::prelude::*;

verus! {

use crate::graphs::{
    AdjMatrix, CSRGraph, UGraph, mat_count, matrix_ok, matrix_reflexive, matrix_square,
    matrix_symmetric, row_count,
};

/// The edge relation of the ten-vertex sphere-like graph: an eight-cycle on
/// vertices `1..=8`, a hub `0` adjacent to the even vertices, a hub `9`
/// adjacent to the odd vertices, and a self-loop everywhere.
pub open spec fn gs_edge(i: int, j: int) -> bool {
    ||| (i == j && 0 <= i < 10)
    ||| (i == 0 && 0 <= j < 10 && j % 2 == 0)
    ||| (j == 0 && 0 <= i < 10 && i % 2 == 0)
    ||| (i == 9 && 0 <= j < 10 && j % 2 == 1)
    ||| (j == 9 && 0 <= i < 10 && i % 2 == 1)
    ||| (1 <= i <= 8 && 1 <= j <= 8 && (j == i + 1 || i == j + 1 || (i == 1 && j == 8) || (i == 8
        && j == 1)))
}

fn gs_edge_at(i: usize, j: usize) -> (r: bool)
    requires
        i < 10,
        j < 10,
    ensures
        r == gs_edge(i as int, j as int),
{
    i == j || (i == 0 && j % 2 == 0) || (j == 0 && i % 2 == 0) || (i == 9 && j % 2 == 1) || (j == 9
        && i % 2 == 1) || (1 <= i && i <= 8 && 1 <= j && j <= 8 && (j == i + 1 || i == j + 1 || (i
        == 1 && j == 8) || (i == 8 && j == 1)))
}

proof fn lemma_row_count_le_len(r: Seq<bool>, k: int)
    requires
        0 <= k,
    ensures
        row_count(r, k) <= k,
    decreases k,
{
    if k > 0 {
        lemma_row_count_le_len(r, k - 1);
    }
}

proof fn lemma_mat_count_le(m: Seq<Vec<bool>>, i: int)
    requires
        0 <= i <= m.len(),
        matrix_square(m),
    ensures
        mat_count(m, i) <= i * m.len(),
    decreases i,
{
    if i > 0 {
        lemma_mat_count_le(m, i - 1);
        lemma_row_count_le_len(m[i - 1]@, m[i - 1]@.len() as int);
        assert((i - 1) * m.len() + m.len() == i * m.len()) by (nonlinear_arith);
    }
}

/// The ten-vertex sphere-like test graph.
pub fn greene_sphere() -> (g: CSRGraph)
    ensures
        g.wf(),
        g.gn() == 10,
        forall|i: int, j: int| #[trigger] g.edge(i, j) == gs_edge(i, j),
{
    let mut mat: AdjMatrix = Vec::new();
    let mut i: usize = 0;
    while i < 10
        invariant
            i <= 10,
            mat@.len() == i,
            forall|i2: int| 0 <= i2 < i ==> (#[trigger] mat@[i2])@.len() == 10,
            forall|i2: int, j2: int|
                0 <= i2 < i && 0 <= j2 < 10 ==> (#[trigger] mat@[i2]@[j2]) == gs_edge(i2, j2),
        decreases 10 - i,
    {
        let mut row: Vec<bool> = Vec::new();
        let mut j: usize = 0;
        while j < 10
            invariant
                i < 10,
                j <= 10,
                row@.len() == j,
                forall|j2: int| 0 <= j2 < j ==> (#[trigger] row@[j2]) == gs_edge(i as int, j2),
            decreases 10 - j,
        {
            row.push(gs_edge_at(i, j));
            j += 1;
        }
        mat.push(row);
        i += 1;
    }
    proof {
        assert(matrix_square(mat@));
        assert(matrix_reflexive(mat@));
        assert forall|a: int, b: int|
            0 <= a < mat@.len() && 0 <= b < mat@.len() implies (#[trigger] mat@[a]@[b])
            == mat@[b]@[a] by {
            assert(mat@[a]@[b] == gs_edge(a, b));
            assert(mat@[b]@[a] == gs_edge(b, a));
        }
        assert(matrix_symmetric(mat@));
        lemma_mat_count_le(mat@, 10);
    }
    let ghost mspec = mat@;
    match CSRGraph::try_from(mat) {
        Ok(g) => {
            proof {
                assert forall|i: int, j: int| #[trigger] g.edge(i, j) == gs_edge(i, j) by {
                    if 0 <= i < 10 && 0 <= j < 10 {
                        assert(g.edge(i, j) == mspec[i]@[j]);
                    } else {
                        g.wf_facts();
                        if g.edge(i, j) {
                            assert(0 <= i < g.gn());
                        }
                    }
                }
            }
            g
        },
        Err(_) => {
            proof {
                assert(false);
            }
            let mut offsets: Vec<u32> = Vec::new();
            offsets.push(0);
            CSRGraph::new(offsets, Vec::new())
        },
    }
}

/// The edge relation of the cycle graph on `n` vertices: each vertex is
/// adjacent to itself and to its two ring neighbors.
pub open spec fn cn_edge(n: int, i: int, j: int) -> bool {
    0 <= i < n && 0 <= j < n && (i == j || j == (i + 1) % n || i == (j + 1) % n)
}

fn cn_edge_at(n: u32, i: u32, j: u32) -> (r: bool)
    requires
        i < n,
        j < n,
    ensures
        r == cn_edge(n as int, i as int, j as int),
{
    let ip = if i == n - 1 {
        0
    } else {
        i + 1
    };
    let jp = if j == n - 1 {
        0
    } else {
        j + 1
    };
    proof {
        if i == n - 1 {
            vstd::arithmetic::div_mod::lemma_mod_self_0(n as int);
        } else {
            vstd::arithmetic::div_mod::lemma_small_mod((i + 1) as nat, n as nat);
        }
        if j == n - 1 {
            vstd::arithmetic::div_mod::lemma_mod_self_0(n as int);
        } else {
            vstd::arithmetic::div_mod::lemma_small_mod((j + 1) as nat, n as nat);
        }
        assert(ip == (i + 1) % (n as int));
        assert(jp == (j + 1) % (n as int));
    }
    i == j || j == ip || i == jp
}

proof fn lemma_row_count_le3(r: Seq<bool>, k: int, a: int, b: int, c: int)
    requires
        0 <= k,
        forall|j: int| 0 <= j < k && r[j] ==> j == a || j == b || j == c,
    ensures
        row_count(r, k) <= (if 0 <= a < k {
            1int
        } else {
            0int
        }) + (if 0 <= b < k {
            1int
        } else {
            0int
        }) + (if 0 <= c < k {
            1int
        } else {
            0int
        }),
    decreases k,
{
    if k > 0 {
        lemma_row_count_le3(r, k - 1, a, b, c);
    }
}

proof fn lemma_cn_count(m: Seq<Vec<bool>>, n: int, i: int)
    requires
        0 <= i <= m.len(),
        m.len() == n,
        matrix_square(m),
        forall|i2: int, j2: int|
            0 <= i2 < n && 0 <= j2 < n ==> (#[trigger] m[i2]@[j2]) == cn_edge(n, i2, j2),
    ensures
        mat_count(m, i) <= 3 * i,
    decreases i,
{
    if i > 0 {
        lemma_cn_count(m, n, i - 1);
        let v = i - 1;
        assert forall|j: int| 0 <= j < n && m[v]@[j] implies j == v || j == (v + 1) % n || j == (v
            + n - 1) % n by {
            assert(m[v]@[j] == cn_edge(n, v, j));
            if v == (j + 1) % n {
                assert(j == (v + n - 1) % n) by (nonlinear_arith)
                    requires
                        0 <= j < n,
                        0 <= v < n,
                        v == (j + 1) % n,
                ;
            }
        }
        lemma_row_count_le3(m[v]@, n, v, (v + 1) % n, (v + n - 1) % n);
    }
}

/// The cycle graph on `n` vertices. The vertex bound keeps the total entry
/// count of the neighbor array within the store's `u32` offsets.
#[allow(non_snake_case)]
pub fn C_N_graph(n: u32) -> (g: CSRGraph)
    requires
        3 * (n as nat) <= u32::MAX as nat,
    ensures
        g.wf(),
        g.gn() == n as nat,
        forall|i: int, j: int| #[trigger] g.edge(i, j) == cn_edge(n as int, i, j),
{
    let mut mat: AdjMatrix = Vec::new();
    let mut i: u32 = 0;
    while i < n
        invariant
            i <= n,
            mat@.len() == i as nat,
            forall|i2: int| 0 <= i2 < i ==> (#[trigger] mat@[i2])@.len() == n as nat,
            forall|i2: int, j2: int|
                0 <= i2 < i && 0 <= j2 < n ==> (#[trigger] mat@[i2]@[j2]) == cn_edge(
                    n as int,
                    i2,
                    j2,
                ),
        decreases n - i,
    {
        let mut row: Vec<bool> = Vec::new();
        let mut j: u32 = 0;
        while j < n
            invariant
                i < n,
                j <= n,
                row@.len() == j as nat,
                forall|j2: int|
                    0 <= j2 < j ==> (#[trigger] row@[j2]) == cn_edge(n as int, i as int, j2),
            decreases n - j,
        {
            row.push(cn_edge_at(n, i, j));
            j += 1;
        }
        mat.push(row);
        i += 1;
    }
    proof {
        assert(matrix_square(mat@));
        assert forall|i2: int| 0 <= i2 < mat@.len() implies #[trigger] mat@[i2]@[i2] by {
            assert(mat@[i2]@[i2] == cn_edge(n as int, i2, i2));
        }
        assert(matrix_reflexive(mat@));
        assert forall|a: int, b: int|
            0 <= a < mat@.len() && 0 <= b < mat@.len() implies (#[trigger] mat@[a]@[b])
            == mat@[b]@[a] by {
            assert(mat@[a]@[b] == cn_edge(n as int, a, b));
            assert(mat@[b]@[a] == cn_edge(n as int, b, a));
        }
        assert(matrix_symmetric(mat@));
        lemma_cn_count(mat@, n as int, n as int);
    }
    let ghost mspec = mat@;
    match CSRGraph::try_from(mat) {
        Ok(g) => {
            proof {
                assert forall|i: int, j: int| #[trigger] g.edge(i, j) == cn_edge(
                    n as int,
                    i,
                    j,
                ) by {
                    if 0 <= i < n && 0 <= j < n {
                        assert(g.edge(i, j) == mspec[i]@[j]);
                    } else {
                        g.wf_facts();
                        if g.edge(i, j) {
                            assert(0 <= i < g.gn());
                        }
                    }
                }
            }
            g
        },
        Err(_) => {
            proof {
                assert(false);
            }
            let mut offsets: Vec<u32> = Vec::new();
            offsets.push(0);
            CSRGraph::new(offsets, Vec::new())
        },
    }
}

} // verus!
