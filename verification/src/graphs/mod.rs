//! The graph store: an interface for finite reflexive undirected graphs and
//! its compact sorted-adjacency (CSR) implementation.

pub mod cube;
pub mod extras;
pub mod graph_map;

use vstd::prelude::*;

verus! {

use vstd::string::StringExecFns;

/// A boolean adjacency matrix; entry `[i][j]` says whether `i` and `j` share
/// an edge.
pub type AdjMatrix = Vec<Vec<bool>>;

/// A finite undirected graph on vertices `0..gn()` whose edge relation is
/// reflexive (every vertex has a self-loop) and symmetric.
pub trait UGraph: Sized {
    /// The graph is well formed.
    spec fn wf(&self) -> bool;

    /// Number of vertices.
    spec fn gn(&self) -> nat;

    /// The edge relation; false outside `0..gn()`.
    spec fn edge(&self, a: int, b: int) -> bool;

    /// The degree reported for a vertex (implementation specific).
    spec fn gdeg(&self, v: int) -> nat;

    /// A well-formed graph is reflexive and symmetric, its edges stay in
    /// range, and its vertex count fits in a `u32`.
    proof fn wf_facts(&self)
        requires
            self.wf(),
        ensures
            self.gn() <= u32::MAX as nat,
            forall|v: int| 0 <= v < self.gn() ==> self.edge(v, v),
            forall|a: int, b: int| #[trigger] self.edge(a, b)
                ==> self.edge(b, a) && 0 <= a < self.gn() && 0 <= b < self.gn(),
        ;

    /// A copy that describes the same graph.
    fn duplicate(&self) -> (r: Self)
        ensures
            r.wf() == self.wf(),
            r.gn() == self.gn(),
            forall|x: int, y: int|
                #![trigger r.edge(x, y)]
                #![trigger self.edge(x, y)]
                r.edge(x, y) == self.edge(x, y),
        ;

    /// Number of vertices.
    fn n(&self) -> (r: u32)
        requires
            self.wf(),
        ensures
            r as nat == self.gn(),
        ;

    /// Degree of vertex `v`.
    fn degree(&self, v: u32) -> (r: u32)
        requires
            self.wf(),
            (v as nat) < self.gn(),
        ensures
            r as nat == self.gdeg(v as int),
        ;

    /// Whether `a` and `b` share an edge.
    fn is_edge(&self, a: u32, b: u32) -> (r: bool)
        requires
            self.wf(),
            (a as nat) < self.gn(),
            (b as nat) < self.gn(),
        ensures
            r == self.edge(a as int, b as int),
        ;

    /// The neighbors of `v` (self-loop included), strictly ascending.
    fn neighbors(&self, v: u32) -> (r: Vec<u32>)
        requires
            self.wf(),
            (v as nat) < self.gn(),
        ensures
            forall|k1: int, k2: int| 0 <= k1 < k2 < r@.len() ==> r@[k1] < r@[k2],
            forall|k: int| 0 <= k < r@.len() ==> self.edge(r@[k] as int, v as int),
            forall|j: int|
                0 <= j < self.gn() && self.edge(j, v as int) ==> r@.contains(j as u32),
        ;
}

/// Two graphs describe the same edge relation on the same vertex set.
pub open spec fn graph_eqv<G: UGraph>(a: &G, b: &G) -> bool {
    &&& a.wf() == b.wf()
    &&& a.gn() == b.gn()
    &&& forall|x: int, y: int|
        #![trigger a.edge(x, y)]
        #![trigger b.edge(x, y)]
        a.edge(x, y) == b.edge(x, y)
}

/// Symmetry and reflexivity hold for every well-formed graph.
pub proof fn lemma_graph_symmetric_reflexive<G: UGraph>(g: &G)
    requires
        g.wf(),
    ensures
        forall|v: int| 0 <= v < g.gn() ==> g.edge(v, v),
        forall|a: int, b: int| #[trigger] g.edge(a, b) ==> g.edge(b, a),
{
    g.wf_facts();
}

/// Well-formedness of a pair of CSR arrays: `offs` marks, for each vertex,
/// the extent of its slice of the flat neighbor array `nl`. Every slice is
/// strictly ascending, stays in range, contains the vertex itself, and the
/// membership relation is symmetric.
pub open spec fn csr_arrays_wf(offs: Seq<u32>, nl: Seq<u32>) -> bool {
    let n = offs.len() - 1;
    &&& 1 <= offs.len()
    &&& offs.len() <= u32::MAX as nat + 1
    &&& offs[0] == 0
    &&& forall|v: int| 0 <= v < n ==> (#[trigger] offs[v]) <= offs[v + 1]
    &&& offs[n as int] as nat == nl.len()
    &&& forall|v: int, k: int|
        0 <= v < n && offs[v] <= k < offs[v + 1] ==> ((#[trigger] seg_at(offs, nl, v, k)) as nat) < n
    &&& forall|v: int, k: int|
        0 <= v < n && offs[v] <= k < offs[v + 1] - 1
            ==> (#[trigger] seg_at(offs, nl, v, k)) < nl[k + 1]
    &&& forall|v: int| 0 <= v < n ==> seg_has(offs, nl, v, v)
    &&& forall|a: int, b: int|
        0 <= a < n && 0 <= b < n && #[trigger] seg_has(offs, nl, a, b) ==> seg_has(offs, nl, b, a)
}

/// Entry `k` of the flat neighbor array, read as part of vertex `v`'s slice.
pub open spec fn seg_at(offs: Seq<u32>, nl: Seq<u32>, v: int, k: int) -> u32 {
    nl[k]
}

/// Vertex `j` occurs in vertex `v`'s slice of the flat neighbor array.
pub open spec fn seg_has(offs: Seq<u32>, nl: Seq<u32>, v: int, j: int) -> bool {
    exists|k: int| offs[v] <= k < offs[v + 1] && (#[trigger] nl[k]) == j
}

/// An immutable undirected graph in compact sparse-row form: per-vertex
/// offsets into a flat, per-vertex-sorted neighbor array.
#[derive(Debug, Clone)]
pub struct CSRGraph {
    offsets: Vec<u32>,
    neighbor_list: Vec<u32>,
}

impl CSRGraph {
    /// The offsets array.
    pub closed spec fn offs(&self) -> Seq<u32> {
        self.offsets@
    }

    /// The flat neighbor array.
    pub closed spec fn nlist(&self) -> Seq<u32> {
        self.neighbor_list@
    }

    /// Vertex `j` occurs in vertex `v`'s neighbor slice.
    pub open spec fn has_nbr(&self, v: int, j: int) -> bool {
        seg_has(self.offs(), self.nlist(), v, j)
    }

    /// Offsets are monotone across any span, not just between neighbors.
    pub proof fn lemma_offs_mono(&self, a: int, b: int)
        requires
            self.wf(),
            0 <= a <= b <= self.gn(),
        ensures
            self.offs()[a] <= self.offs()[b],
        decreases b - a,
    {
        if a < b {
            self.lemma_offs_mono(a, b - 1);
        }
    }

    /// Entries of one vertex's slice are strictly ascending across any span.
    pub proof fn lemma_nbrs_sorted(&self, v: int, k1: int, k2: int)
        requires
            self.wf(),
            0 <= v < self.gn(),
            self.offs()[v] <= k1 < k2 < self.offs()[v + 1],
        ensures
            self.nlist()[k1] < self.nlist()[k2],
        decreases k2 - k1,
    {
        assert(seg_at(self.offs(), self.nlist(), v, k1) == self.nlist()[k1]);
        if k1 + 1 < k2 {
            self.lemma_nbrs_sorted(v, k1 + 1, k2);
        }
    }

    /// Wrap a pair of raw CSR arrays. The caller is responsible for handing
    /// in arrays that already describe a reflexive symmetric graph.
    pub fn new(offsets: Vec<u32>, neighbors: Vec<u32>) -> (r: Self)
        requires
            csr_arrays_wf(offsets@, neighbors@),
        ensures
            r.wf(),
            r.offs() == offsets@,
            r.nlist() == neighbors@,
    {
        Self { offsets, neighbor_list: neighbors }
    }
}

impl UGraph for CSRGraph {
    open spec fn wf(&self) -> bool {
        csr_arrays_wf(self.offs(), self.nlist())
    }

    open spec fn gn(&self) -> nat {
        (self.offs().len() - 1) as nat
    }

    open spec fn edge(&self, a: int, b: int) -> bool {
        0 <= a < self.gn() && 0 <= b < self.gn() && self.has_nbr(a, b)
    }

    open spec fn gdeg(&self, v: int) -> nat {
        (self.offs()[v + 1] - self.offs()[v]) as nat
    }

    proof fn wf_facts(&self) {
        assert forall|v: int| 0 <= v < self.gn() implies self.edge(v, v) by {
            assert(seg_has(self.offs(), self.nlist(), v, v));
        }
        assert forall|a: int, b: int| #[trigger] self.edge(a, b) implies self.edge(b, a) && 0 <= a
            < self.gn() && 0 <= b < self.gn() by {
            assert(seg_has(self.offs(), self.nlist(), a, b));
        }
    }

    fn duplicate(&self) -> (r: Self) {
        let r = Self {
            offsets: copy_vec_u32(&self.offsets),
            neighbor_list: copy_vec_u32(&self.neighbor_list),
        };
        proof {
            assert(r.offs() == self.offs());
            assert(r.nlist() == self.nlist());
            assert forall|x: int, y: int| #[trigger] self.edge(x, y) == r.edge(x, y) by {
                assert(self.has_nbr(x, y) == r.has_nbr(x, y));
            }
        }
        r
    }

    fn n(&self) -> (r: u32) {
        (self.offsets.len() - 1) as u32
    }

    fn degree(&self, v: u32) -> (r: u32) {
        let vi = v as usize;
        self.offsets[vi + 1] - self.offsets[vi]
    }

    fn is_edge(&self, a: u32, b: u32) -> (r: bool) {
        let start = self.offsets[a as usize];
        let end = self.offsets[a as usize + 1];
        proof {
            self.lemma_offs_mono(a as int + 1, self.gn() as int);
        }
        let mut k = start as usize;
        while k < end as usize
            invariant
                self.wf(),
                (a as nat) < self.gn(),
                (b as nat) < self.gn(),
                start == self.offs()[a as int],
                end == self.offs()[a as int + 1],
                start as usize <= k <= end as usize,
                end as nat <= self.nlist().len(),
                forall|k2: int| start <= k2 < k ==> self.nlist()[k2] != b,
            decreases end as int - k as int,
        {
            if self.neighbor_list[k] == b {
                assert(self.has_nbr(a as int, b as int));
                return true;
            }
            k += 1;
        }
        proof {
            if self.has_nbr(a as int, b as int) {
                let kw = choose|kw: int|
                    self.offs()[a as int] <= kw < self.offs()[a as int + 1]
                        && (#[trigger] self.nlist()[kw]) == b;
                assert(false);
            }
        }
        false
    }

    fn neighbors(&self, v: u32) -> (r: Vec<u32>) {
        let start = self.offsets[v as usize];
        let end = self.offsets[v as usize + 1];
        proof {
            self.lemma_offs_mono(v as int + 1, self.gn() as int);
        }
        let mut r: Vec<u32> = Vec::new();
        let mut k = start as usize;
        while k < end as usize
            invariant
                self.wf(),
                (v as nat) < self.gn(),
                start == self.offs()[v as int],
                end == self.offs()[v as int + 1],
                start as usize <= k <= end as usize,
                end as nat <= self.nlist().len(),
                r@ == self.nlist().subrange(start as int, k as int),
            decreases end as int - k as int,
        {
            r.push(self.neighbor_list[k]);
            assert(r@ == self.nlist().subrange(start as int, k as int + 1));
            k += 1;
        }
        proof {
            assert forall|k1: int, k2: int| 0 <= k1 < k2 < r@.len() implies r@[k1] < r@[k2] by {
                self.lemma_nbrs_sorted(v as int, start as int + k1, start as int + k2);
            }
            assert forall|k: int| 0 <= k < r@.len() implies self.edge(
                r@[k] as int,
                v as int,
            ) by {
                let j = r@[k];
                assert(self.nlist()[start as int + k] == j);
                assert(seg_at(self.offs(), self.nlist(), v as int, start as int + k) == j);
                assert(self.has_nbr(v as int, j as int));
                assert(self.has_nbr(j as int, v as int));
            }
            assert forall|j: int|
                0 <= j < self.gn() && self.edge(j, v as int) implies r@.contains(j as u32) by {
                assert(self.has_nbr(j, v as int));
                assert(self.has_nbr(v as int, j));
                let kw = choose|kw: int|
                    self.offs()[v as int] <= kw < self.offs()[v as int + 1]
                        && (#[trigger] self.nlist()[kw]) == j;
                assert(r@[kw - start as int] == j as u32);
            }
        }
        r
    }
}

/// Every row of the matrix has as many entries as there are rows.
pub open spec fn matrix_square(m: Seq<Vec<bool>>) -> bool {
    forall|i: int| 0 <= i < m.len() ==> (#[trigger] m[i])@.len() == m.len()
}

/// Every diagonal entry is set: each vertex carries its self-loop.
pub open spec fn matrix_reflexive(m: Seq<Vec<bool>>) -> bool {
    forall|i: int| 0 <= i < m.len() ==> #[trigger] m[i]@[i]
}

/// The matrix equals its transpose.
pub open spec fn matrix_symmetric(m: Seq<Vec<bool>>) -> bool {
    forall|i: int, j: int|
        0 <= i < m.len() && 0 <= j < m.len() ==> (#[trigger] m[i]@[j]) == m[j]@[i]
}

/// A valid adjacency matrix: square, reflexive and symmetric.
pub open spec fn matrix_ok(m: Seq<Vec<bool>>) -> bool {
    matrix_square(m) && matrix_reflexive(m) && matrix_symmetric(m)
}

/// Number of set entries among the first `k` of a row.
pub open spec fn row_count(r: Seq<bool>, k: int) -> nat
    decreases k,
{
    if k <= 0 {
        0
    } else {
        row_count(r, k - 1) + (if r[k - 1] {
            1nat
        } else {
            0nat
        })
    }
}

/// Number of set entries in the first `i` full rows.
pub open spec fn mat_count(m: Seq<Vec<bool>>, i: int) -> nat
    decreases i,
{
    if i <= 0 {
        0
    } else {
        mat_count(m, i - 1) + row_count(m[i - 1]@, m[i - 1]@.len() as int)
    }
}

proof fn lemma_row_count_mono(r: Seq<bool>, j1: int, j2: int)
    requires
        0 <= j1 <= j2,
    ensures
        row_count(r, j1) <= row_count(r, j2),
    decreases j2,
{
    if j1 < j2 {
        lemma_row_count_mono(r, j1, j2 - 1);
    }
}

proof fn lemma_row_count_pos(r: Seq<bool>, k: int, idx: int)
    requires
        0 <= idx < k,
        r[idx],
    ensures
        row_count(r, k) >= 1,
    decreases k,
{
    if idx < k - 1 {
        lemma_row_count_pos(r, k - 1, idx);
    }
}

proof fn lemma_mat_count_mono(m: Seq<Vec<bool>>, i1: int, i2: int)
    requires
        0 <= i1 <= i2,
    ensures
        mat_count(m, i1) <= mat_count(m, i2),
    decreases i2,
{
    if i1 < i2 {
        lemma_mat_count_mono(m, i1, i2 - 1);
    }
}

proof fn lemma_mat_count_ge_diag(m: Seq<Vec<bool>>, i: int)
    requires
        0 <= i <= m.len(),
        matrix_square(m),
        matrix_reflexive(m),
    ensures
        mat_count(m, i) >= i,
    decreases i,
{
    if i > 0 {
        lemma_mat_count_ge_diag(m, i - 1);
        lemma_row_count_pos(m[i - 1]@, m[i - 1]@.len() as int, i - 1);
    }
}

impl CSRGraph {
    /// Build the graph store from a boolean adjacency matrix.
    ///
    /// The matrix is rejected when it is not square, when a diagonal entry
    /// is missing (every vertex must carry its self-loop), when it is not
    /// symmetric, or when the accumulated offsets would not fit in a `u32`;
    /// otherwise the resulting graph has exactly the matrix's edge relation.
    #[verifier::rlimit(80)]
    pub fn try_from(mat: AdjMatrix) -> (r: Result<CSRGraph, String>)
        ensures
            match r {
                Ok(g) => {
                    &&& matrix_ok(mat@)
                    &&& mat_count(mat@, mat@.len() as int) <= u32::MAX as nat
                    &&& g.wf()
                    &&& g.gn() == mat@.len()
                    &&& forall|i: int, j: int|
                        0 <= i < mat@.len() && 0 <= j < mat@.len() ==> #[trigger] g.edge(i, j)
                            == mat@[i]@[j]
                },
                Err(e) => {
                    &&& !(matrix_ok(mat@) && mat_count(mat@, mat@.len() as int)
                        <= u32::MAX as nat)
                    &&& !matrix_square(mat@) ==> e@ == "adjacency matrix must be square"@
                    &&& matrix_square(mat@) && !matrix_reflexive(mat@) ==> e@
                        == "must have identity relation on each vertex"@
                    &&& matrix_square(mat@) && matrix_reflexive(mat@) && !matrix_symmetric(mat@)
                        ==> e@ == "matrix must be symmetric"@
                    &&& matrix_ok(mat@) ==> e@ == "offset overflow (too many edges for u32)"@
                },
            },
    {
        let n = mat.len();
        if n == 0 {
            let mut offsets: Vec<u32> = Vec::new();
            offsets.push(0);
            let g = CSRGraph { offsets, neighbor_list: Vec::new() };
            return Ok(g);
        }
        let mut i: usize = 0;
        while i < n
            invariant
                n == mat@.len(),
                i <= n,
                forall|i2: int| 0 <= i2 < i ==> (#[trigger] mat@[i2])@.len() == n,
            decreases n - i,
        {
            if mat[i].len() != n {
                return Err(String::from_str("adjacency matrix must be square"));
            }
            i += 1;
        }
        let mut i: usize = 0;
        while i < n
            invariant
                n == mat@.len(),
                i <= n,
                matrix_square(mat@),
                forall|i2: int| 0 <= i2 < i ==> #[trigger] mat@[i2]@[i2],
            decreases n - i,
        {
            if !mat[i][i] {
                return Err(String::from_str("must have identity relation on each vertex"));
            }
            i += 1;
        }
        let mut i: usize = 0;
        while i < n
            invariant
                n == mat@.len(),
                i <= n,
                matrix_square(mat@),
                matrix_reflexive(mat@),
                forall|i2: int, j2: int|
                    0 <= i2 < i && i2 < j2 < n ==> (#[trigger] mat@[i2]@[j2]) == mat@[j2]@[i2],
            decreases n - i,
        {
            let mut j: usize = i + 1;
            while j < n
                invariant
                    n == mat@.len(),
                    i < n,
                    i < j <= n,
                    matrix_square(mat@),
                    matrix_reflexive(mat@),
                    forall|i2: int, j2: int|
                        0 <= i2 < i && i2 < j2 < n ==> (#[trigger] mat@[i2]@[j2]) == mat@[j2]@[i2],
                    forall|j2: int|
                        i < j2 < j ==> (#[trigger] mat@[i as int]@[j2]) == mat@[j2]@[i as int],
                decreases n - j,
            {
                if mat[i][j] != mat[j][i] {
                    assert(!matrix_symmetric(mat@));
                    return Err(String::from_str("matrix must be symmetric"));
                }
                j += 1;
            }
            i += 1;
        }
        proof {
            assert forall|a: int, b: int|
                0 <= a < mat@.len() && 0 <= b < mat@.len() implies (#[trigger] mat@[a]@[b])
                == mat@[b]@[a] by {
                if a < b {
                } else if b < a {
                    assert(mat@[b]@[a] == mat@[a]@[b]);
                }
            }
        }
        if n > u32::MAX as usize {
            proof {
                lemma_mat_count_ge_diag(mat@, n as int);
            }
            return Err(String::from_str("offset overflow (too many edges for u32)"));
        }
        let mut offsets: Vec<u32> = Vec::new();
        offsets.push(0);
        let mut nl: Vec<u32> = Vec::new();
        let mut i: usize = 0;
        while i < n
            invariant
                n == mat@.len(),
                n <= u32::MAX as usize,
                i <= n,
                matrix_ok(mat@),
                offsets@.len() == i + 1,
                offsets@[0] == 0,
                offsets@[i as int] as nat == nl@.len(),
                nl@.len() == mat_count(mat@, i as int),
                nl@.len() <= u32::MAX as nat,
                forall|v: int| 0 <= v < i ==> (#[trigger] offsets@[v]) <= offsets@[v + 1],
                forall|v: int, k: int|
                    0 <= v < i && offsets@[v] <= k < offsets@[v + 1] ==> ((#[trigger] seg_at(
                        offsets@,
                        nl@,
                        v,
                        k,
                    )) as nat) < n,
                forall|v: int, k: int|
                    0 <= v < i && offsets@[v] <= k < offsets@[v + 1] - 1 ==> (#[trigger] seg_at(
                        offsets@,
                        nl@,
                        v,
                        k,
                    )) < nl@[k + 1],
                forall|v: int, jj: int|
                    0 <= v < i && 0 <= jj < n ==> (#[trigger] seg_has(offsets@, nl@, v, jj))
                        == mat@[v]@[jj],
            decreases n - i,
        {
            let start = nl.len();
            proof {
                lemma_offsets_prefix_mono(offsets@, i as int);
            }
            let ghost nl_frozen = nl@;
            let mut j: usize = 0;
            while j < n
                invariant
                    n == mat@.len(),
                    n <= u32::MAX as usize,
                    i < n,
                    j <= n,
                    matrix_ok(mat@),
                    offsets@.len() == i + 1,
                    offsets@[0] == 0,
                    offsets@[i as int] as nat == start as nat,
                    forall|v: int| 0 <= v < i ==> (#[trigger] offsets@[v]) <= offsets@[v + 1],
                    forall|v: int| 0 <= v <= i ==> (#[trigger] offsets@[v]) as nat <= start as nat,
                    start <= nl@.len(),
                    start as nat == mat_count(mat@, i as int),
                    nl@.len() == mat_count(mat@, i as int) + row_count(mat@[i as int]@, j as int),
                    nl@.len() <= u32::MAX as nat,
                    nl_frozen.len() == start as nat,
                    nl@.subrange(0, start as int) == nl_frozen,
                    forall|k: int| start <= k < nl@.len() ==> ((#[trigger] nl@[k]) as nat) < j,
                    forall|k: int| start <= k < nl@.len() - 1 ==> (#[trigger] nl@[k]) < nl@[k + 1],
                    forall|k: int|
                        start <= k < nl@.len() ==> mat@[i as int]@[(#[trigger] nl@[k]) as int],
                    forall|jj: int|
                        0 <= jj < j && mat@[i as int]@[jj] ==> exists|k: int|
                            start <= k < nl@.len() && (#[trigger] nl@[k]) == jj as u32,
                decreases n - j,
            {
                if mat[i][j] {
                    if nl.len() >= u32::MAX as usize {
                        proof {
                            assert(row_count(mat@[i as int]@, j as int + 1) == row_count(
                                mat@[i as int]@,
                                j as int,
                            ) + 1);
                            lemma_row_count_mono(mat@[i as int]@, j as int + 1, n as int);
                            assert(mat_count(mat@, i as int + 1) == mat_count(mat@, i as int)
                                + row_count(mat@[i as int]@, n as int));
                            lemma_mat_count_mono(mat@, i as int + 1, n as int);
                        }
                        return Err(String::from_str("offset overflow (too many edges for u32)"));
                    }
                    let ghost old_nl = nl@;
                    nl.push(j as u32);
                    proof {
                        assert(nl@.subrange(0, start as int) =~= old_nl.subrange(0, start as int));
                        assert(row_count(mat@[i as int]@, j as int + 1) == row_count(
                            mat@[i as int]@,
                            j as int,
                        ) + 1);
                        assert forall|jj: int|
                            0 <= jj < j + 1 && mat@[i as int]@[jj] implies exists|k: int|
                            start <= k < nl@.len() && (#[trigger] nl@[k]) == jj as u32 by {
                            if jj < j {
                                let kw = choose|kw: int|
                                    start <= kw < old_nl.len() && (#[trigger] old_nl[kw])
                                        == jj as u32;
                                assert(nl@[kw] == jj as u32);
                            } else {
                                assert(nl@[nl@.len() - 1] == jj as u32);
                            }
                        }
                    }
                } else {
                    proof {
                        assert(row_count(mat@[i as int]@, j as int + 1) == row_count(
                            mat@[i as int]@,
                            j as int,
                        ));
                    }
                }
                j += 1;
            }
            proof {
                assert forall|k: int| 0 <= k < start implies nl@[k] == nl_frozen[k] by {
                    assert(nl@.subrange(0, start as int)[k] == nl@[k]);
                }
                assert forall|v: int, k: int|
                    0 <= v < i && offsets@[v] <= k < offsets@[v + 1] implies ((#[trigger] seg_at(
                    offsets@,
                    nl@,
                    v,
                    k,
                )) as nat) < n by {
                    assert(offsets@[v + 1] as nat <= start as nat);
                    assert(seg_at(offsets@, nl_frozen, v, k) == nl_frozen[k]);
                    assert(nl@[k] == nl_frozen[k]);
                }
                assert forall|v: int, k: int|
                    0 <= v < i && offsets@[v] <= k < offsets@[v + 1] - 1 implies (#[trigger] seg_at(
                    offsets@,
                    nl@,
                    v,
                    k,
                )) < nl@[k + 1] by {
                    assert(offsets@[v + 1] as nat <= start as nat);
                    assert(seg_at(offsets@, nl_frozen, v, k) == nl_frozen[k]);
                    assert(nl@[k] == nl_frozen[k]);
                    assert(nl@[k + 1] == nl_frozen[k + 1]);
                }
                assert forall|v: int, jj: int|
                    0 <= v < i && 0 <= jj < n implies (#[trigger] seg_has(offsets@, nl@, v, jj))
                    == mat@[v]@[jj] by {
                    assert(offsets@[v + 1] as nat <= start as nat);
                    assert(seg_has(offsets@, nl_frozen, v, jj) == mat@[v]@[jj]);
                    if seg_has(offsets@, nl_frozen, v, jj) {
                        let kw = choose|kw: int|
                            offsets@[v] <= kw < offsets@[v + 1] && (#[trigger] nl_frozen[kw])
                                == jj as u32;
                        assert(nl@[kw] == jj as u32);
                        assert(seg_has(offsets@, nl@, v, jj));
                    }
                    if seg_has(offsets@, nl@, v, jj) {
                        let kw = choose|kw: int|
                            offsets@[v] <= kw < offsets@[v + 1] && (#[trigger] nl@[kw])
                                == jj as u32;
                        assert(nl_frozen[kw] == jj as u32);
                        assert(seg_has(offsets@, nl_frozen, v, jj));
                    }
                }
            }
            let end = nl.len() as u32;
            let ghost pre_push = offsets@;
            offsets.push(end);
            proof {
                assert(offsets@ == pre_push.push(end));
                assert(mat@[i as int]@.len() == n);
                assert(mat_count(mat@, i as int + 1) == mat_count(mat@, i as int) + row_count(
                    mat@[i as int]@,
                    mat@[i as int]@.len() as int,
                ));
                let v_new = i as int;
                assert forall|v: int, jj: int|
                    0 <= v < i + 1 && 0 <= jj < n implies (#[trigger] seg_has(offsets@, nl@, v, jj))
                    == mat@[v]@[jj] by {
                    assert(offsets@[v] == pre_push[v]);
                    assert(offsets@[v + 1] == if v + 1 <= i as int {
                        pre_push[v + 1]
                    } else {
                        end
                    });
                    if v < v_new {
                        assert(seg_has(pre_push, nl@, v, jj) == mat@[v]@[jj]);
                        if seg_has(pre_push, nl@, v, jj) {
                            let kw = choose|kw: int|
                                pre_push[v] <= kw < pre_push[v + 1] && (#[trigger] nl@[kw])
                                    == jj as u32;
                            assert(seg_has(offsets@, nl@, v, jj));
                        }
                        if seg_has(offsets@, nl@, v, jj) {
                            let kw = choose|kw: int|
                                offsets@[v] <= kw < offsets@[v + 1] && (#[trigger] nl@[kw])
                                    == jj as u32;
                            assert(seg_has(pre_push, nl@, v, jj));
                        }
                    } else {
                        if mat@[v]@[jj] {
                            let kw = choose|kw: int|
                                start <= kw < nl@.len() && (#[trigger] nl@[kw]) == jj as u32;
                            assert(seg_has(offsets@, nl@, v, jj));
                        }
                        if seg_has(offsets@, nl@, v, jj) {
                            let kw = choose|kw: int|
                                offsets@[v] <= kw < offsets@[v + 1] && (#[trigger] nl@[kw])
                                    == jj as u32;
                            assert(mat@[v]@[nl@[kw] as int]);
                        }
                    }
                }
                assert forall|v: int, k: int|
                    0 <= v < i + 1 && offsets@[v] <= k < offsets@[v + 1] implies ((#[trigger] seg_at(
                    offsets@,
                    nl@,
                    v,
                    k,
                )) as nat) < n by {
                    assert(offsets@[v] == pre_push[v]);
                    if v < v_new {
                        assert(offsets@[v + 1] == pre_push[v + 1]);
                        assert(seg_at(pre_push, nl@, v, k) == nl@[k]);
                    } else {
                        assert(mat@[v]@[nl@[k] as int]);
                        assert((nl@[k] as nat) < n);
                    }
                }
                assert forall|v: int, k: int|
                    0 <= v < i + 1 && offsets@[v] <= k < offsets@[v + 1] - 1 implies (
                #[trigger] seg_at(offsets@, nl@, v, k)) < nl@[k + 1] by {
                    assert(offsets@[v] == pre_push[v]);
                    if v < v_new {
                        assert(offsets@[v + 1] == pre_push[v + 1]);
                        assert(seg_at(pre_push, nl@, v, k) == nl@[k]);
                    }
                }
            }
            i += 1;
        }
        let g = CSRGraph { offsets, neighbor_list: nl };
        proof {
            let offs = g.offs();
            let nls = g.nlist();
            assert(offs[g.gn() as int] as nat == nls.len());
            assert forall|v: int| 0 <= v < g.gn() implies seg_has(offs, nls, v, v) by {
                assert(mat@[v]@[v]);
                assert(seg_has(offs, nls, v, v) == mat@[v]@[v]);
            }
            assert forall|a: int, b: int|
                0 <= a < g.gn() && 0 <= b < g.gn() && #[trigger] seg_has(offs, nls, a, b) implies
                seg_has(offs, nls, b, a) by {
                assert(seg_has(offs, nls, a, b) == mat@[a]@[b]);
                assert(mat@[b]@[a] == mat@[a]@[b]);
                assert(seg_has(offs, nls, b, a) == mat@[b]@[a]);
            }
            assert(g.wf());
            assert forall|ii: int, jj: int|
                0 <= ii < mat@.len() && 0 <= jj < mat@.len() implies (#[trigger] g.edge(ii, jj))
                == mat@[ii]@[jj] by {
                assert(seg_has(offs, nls, ii, jj) == mat@[ii]@[jj]);
            }
        }
        Ok(g)
    }

    /// The adjacency matrix of this graph; the exact inverse of
    /// [`CSRGraph::try_from`] on every valid matrix.
    pub fn to_matrix(&self) -> (r: AdjMatrix)
        requires
            self.wf(),
        ensures
            r@.len() == self.gn(),
            forall|i: int| 0 <= i < r@.len() ==> (#[trigger] r@[i])@.len() == self.gn(),
            forall|i: int, j: int|
                0 <= i < r@.len() && 0 <= j < r@.len() ==> (#[trigger] r@[i]@[j]) == self.edge(
                    i,
                    j,
                ),
    {
        crate::graphs::cube::graph_to_matrix(self)
    }
}

proof fn lemma_offsets_prefix_mono(offs: Seq<u32>, hi: int)
    requires
        0 <= hi < offs.len(),
        forall|v: int| 0 <= v < hi ==> (#[trigger] offs[v]) <= offs[v + 1],
    ensures
        forall|v: int| 0 <= v <= hi ==> (#[trigger] offs[v]) <= offs[hi],
    decreases hi,
{
    if hi > 0 {
        lemma_offsets_prefix_mono(offs, hi - 1);
        assert forall|v: int| 0 <= v <= hi implies (#[trigger] offs[v]) <= offs[hi] by {
            if v < hi {
                assert(offs[v] <= offs[hi - 1]);
                assert(offs[hi - 1] <= offs[hi]);
            }
        }
    }
}

/// Converting a valid matrix to a graph and the graph back to a matrix
/// reproduces the original matrix exactly.
pub proof fn lemma_matrix_round_trip(m: Seq<Vec<bool>>, g: CSRGraph, m2: Seq<Vec<bool>>)
    requires
        matrix_square(m),
        g.gn() == m.len(),
        forall|i: int, j: int|
            0 <= i < m.len() && 0 <= j < m.len() ==> #[trigger] g.edge(i, j) == m[i]@[j],
        m2.len() == g.gn(),
        forall|i: int| 0 <= i < m2.len() ==> (#[trigger] m2[i])@.len() == g.gn(),
        forall|i: int, j: int|
            0 <= i < m2.len() && 0 <= j < m2.len() ==> (#[trigger] m2[i]@[j]) == g.edge(i, j),
    ensures
        m2.len() == m.len(),
        forall|i: int| 0 <= i < m.len() ==> (#[trigger] m2[i])@ == m[i]@,
{
    assert forall|i: int| 0 <= i < m.len() implies (#[trigger] m2[i])@ == m[i]@ by {
        assert forall|j: int| 0 <= j < m.len() implies m2[i]@[j] == m[i]@[j] by {
            assert(g.edge(i, j) == m[i]@[j]);
            assert(m2[i]@[j] == g.edge(i, j));
        }
        assert(m2[i]@ =~= m[i]@);
    }
}

/// An element-for-element copy of a vector of vertex ids.
fn copy_vec_u32(v: &Vec<u32>) -> (r: Vec<u32>)
    ensures
        r@ == v@,
{
    let mut r: Vec<u32> = Vec::new();
    let mut i: usize = 0;
    while i < v.len()
        invariant
            i <= v@.len(),
            r@ == v@.subrange(0, i as int),
        decreases v@.len() - i as int,
    {
        r.push(v[i]);
        assert(r@ == v@.subrange(0, i as int + 1));
        i += 1;
    }
    assert(r@ == v@.subrange(0, v@.len() as int));
    assert(v@.subrange(0, v@.len() as int) == v@);
    r
}

} // verus!
