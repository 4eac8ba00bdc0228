//! Hypercube graphs: `2^dim` vertices read as length-`dim` bit vectors,
//! edges between vertices at Hamming distance one, and a self-loop at every
//! vertex.

use vstd::prelude::*;

verus! {

use crate::graphs::{AdjMatrix, UGraph, graph_eqv};

/// `x` and `y` differ in exactly one bit.
pub open spec fn one_bit_apart(x: u32, y: u32) -> bool {
    let d = x ^ y;
    d != 0 && (d & (((d as int) - 1) as u32)) == 0
}

/// `x` and `y` differ in exactly one bit (machine-word form).
pub open spec fn one_bit_apart_usize(x: usize, y: usize) -> bool {
    let d = x ^ y;
    d != 0 && (d & (((d as int) - 1) as usize)) == 0
}

pub proof fn lemma_one_bit_sym(x: u32, y: u32)
    by (bit_vector)
    ensures
        one_bit_apart(x, y) == one_bit_apart(y, x),
{
}

proof fn lemma_one_bit_cast(x: u32, y: u32)
    by (bit_vector)
    ensures
        one_bit_apart_usize(x as usize, y as usize) == one_bit_apart(x, y),
{
}

/// Cubes of equal dimension are the same graph value.
pub proof fn lemma_cube_graph_eq(a: CubeGraph, b: CubeGraph)
    requires
        a.spec_dim() == b.spec_dim(),
    ensures
        a == b,
{
}

/// The hypercube graph of dimension `dim`.
#[derive(Debug, Clone, Copy, PartialEq, Eq)]
pub struct CubeGraph {
    dim: u32,
}

impl CubeGraph {
    /// The dimension.
    pub closed spec fn spec_dim(&self) -> u32 {
        self.dim
    }

    /// The cube of the given dimension. The dimension is bounded so that the
    /// vertex count `2^dim` fits in a `u32`.
    pub fn new(dim: u32) -> (r: Self)
        requires
            dim < 32,
        ensures
            r.wf(),
            r.spec_dim() == dim,
    {
        Self { dim }
    }

    /// The dimension.
    pub fn dim(&self) -> (r: u32)
        ensures
            r == self.spec_dim(),
    {
        self.dim
    }

    /// The adjacency matrix of the cube.
    pub fn to_matrix(&self) -> (r: AdjMatrix)
        requires
            self.wf(),
        ensures
            r@.len() == self.gn(),
            forall|i: int| 0 <= i < r@.len() ==> (#[trigger] r@[i])@.len() == self.gn(),
            forall|i: int, j: int|
                0 <= i < r@.len() && 0 <= j < r@.len() ==> (#[trigger] r@[i]@[j]) == self.edge(
                    i,
                    j,
                ),
    {
        graph_to_matrix(self)
    }
}

/// The adjacency matrix of any well-formed graph.
pub fn graph_to_matrix<G: UGraph>(g: &G) -> (r: AdjMatrix)
    requires
        g.wf(),
    ensures
        r@.len() == g.gn(),
        forall|i: int| 0 <= i < r@.len() ==> (#[trigger] r@[i])@.len() == g.gn(),
        forall|i: int, j: int|
            0 <= i < r@.len() && 0 <= j < r@.len() ==> (#[trigger] r@[i]@[j]) == g.edge(i, j),
{
    let n = g.n();
    let mut r: AdjMatrix = Vec::new();
    let mut i: u32 = 0;
    while i < n
        invariant
            g.wf(),
            n as nat == g.gn(),
            i <= n,
            r@.len() == i as nat,
            forall|i2: int| 0 <= i2 < i ==> (#[trigger] r@[i2])@.len() == g.gn(),
            forall|i2: int, j2: int|
                0 <= i2 < i && 0 <= j2 < n ==> (#[trigger] r@[i2]@[j2]) == g.edge(i2, j2),
        decreases n - i,
    {
        let mut row: Vec<bool> = Vec::new();
        let mut j: u32 = 0;
        while j < n
            invariant
                g.wf(),
                n as nat == g.gn(),
                i < n,
                j <= n,
                row@.len() == j as nat,
                forall|j2: int| 0 <= j2 < j ==> (#[trigger] row@[j2]) == g.edge(i as int, j2),
            decreases n - j,
        {
            row.push(g.is_edge(i, j));
            j += 1;
        }
        r.push(row);
        i += 1;
    }
    r
}

impl UGraph for CubeGraph {
    open spec fn wf(&self) -> bool {
        self.spec_dim() < 32
    }

    open spec fn gn(&self) -> nat {
        (1u32 << self.spec_dim()) as nat
    }

    open spec fn edge(&self, a: int, b: int) -> bool {
        0 <= a < self.gn() && 0 <= b < self.gn() && (a == b || one_bit_apart(a as u32, b as u32))
    }

    open spec fn gdeg(&self, v: int) -> nat {
        self.spec_dim() as nat
    }

    proof fn wf_facts(&self) {
        assert forall|a: int, b: int| #[trigger] self.edge(a, b) implies self.edge(b, a) && 0 <= a
            < self.gn() && 0 <= b < self.gn() by {
            if a != b {
                lemma_one_bit_sym(a as u32, b as u32);
            }
        }
    }

    fn duplicate(&self) -> (r: Self) {
        *self
    }

    fn n(&self) -> (r: u32) {
        1u32 << self.dim
    }

    fn degree(&self, v: u32) -> (r: u32) {
        // The cube reports its dimension: the number of distinct neighbors
        // beyond the self-loop.
        self.dim
    }

    fn is_edge(&self, a: u32, b: u32) -> (r: bool) {
        proof {
            lemma_one_bit_cast(a, b);
        }
        a == b || cube_share_edge(a as usize, b as usize)
    }

    fn neighbors(&self, v: u32) -> (r: Vec<u32>) {
        let n = 1u32 << self.dim;
        let mut r: Vec<u32> = Vec::new();
        let mut j: u32 = 0;
        while j < n
            invariant
                self.wf(),
                (v as nat) < self.gn(),
                n as nat == self.gn(),
                j <= n,
                forall|k: int| 0 <= k < r@.len() ==> (#[trigger] r@[k]) < j,
                forall|k1: int, k2: int| 0 <= k1 < k2 < r@.len() ==> r@[k1] < r@[k2],
                forall|k: int| 0 <= k < r@.len() ==> self.edge(r@[k] as int, v as int),
                forall|j2: int| 0 <= j2 < j && self.edge(j2, v as int) ==> r@.contains(j2 as u32),
            decreases n - j,
        {
            if self.is_edge(j, v) {
                let ghost old_r = r@;
                r.push(j);
                proof {
                    assert forall|j2: int|
                        0 <= j2 < j + 1 && self.edge(j2, v as int) implies r@.contains(
                        j2 as u32,
                    ) by {
                        if j2 < j {
                            assert(old_r.contains(j2 as u32));
                            let kw = choose|kw: int|
                                0 <= kw < old_r.len() && old_r[kw] == j2 as u32;
                            assert(r@[kw] == j2 as u32);
                        } else {
                            assert(r@[r@.len() - 1] == j2 as u32);
                        }
                    }
                }
            }
            j += 1;
        }
        r
    }
}

/// Whether two hypercube vertex ids share an edge: equal ids (the self-loop)
/// or ids at Hamming distance one, that is, whose exclusive or is a power of
/// two.
pub fn cube_share_edge(a: usize, b: usize) -> (r: bool)
    ensures
        r == (a == b || one_bit_apart_usize(a, b)),
{
    if a == b {
        return true;
    }
    let x = a ^ b;
    assert(x != 0) by (bit_vector)
        requires
            x == a ^ b,
            a != b,
    ;
    x & (x - 1) == 0
}

} // verus!
