//! Graph homomorphisms: incrementally validated vertex maps between two
//! well-formed graphs, in expanded (one value per vertex) form.

pub mod cube_maps;
pub mod permutation_generator;
pub mod stack_map;

use vstd::prelude::*;

verus! {

use vstd::string::StringExecFns;
use crate::graphs::UGraph;

/// `f` is a homomorphism from `dom` to `cod`: one in-range image per domain
/// vertex, and every domain edge lands on a codomain edge.
pub open spec fn map_ok<U: UGraph, V: UGraph>(dom: &U, cod: &V, f: Seq<u32>) -> bool {
    &&& f.len() == dom.gn()
    &&& forall|i: int| 0 <= i < f.len() ==> ((#[trigger] f[i]) as nat) < cod.gn()
    &&& forall|a: int, b: int| #[trigger] dom.edge(a, b) ==> cod.edge(f[a] as int, f[b] as int)
}

/// Vertex `i` passes the incremental check: its image is in range and every
/// edge to an earlier vertex is preserved.
pub open spec fn vertex_ok<U: UGraph, V: UGraph>(dom: &U, cod: &V, f: Seq<u32>, i: int) -> bool {
    &&& ((f[i]) as nat) < cod.gn()
    &&& forall|j: int|
        0 <= j < i && #[trigger] dom.edge(j, i) ==> cod.edge(f[j] as int, f[i] as int)
}

/// A failed candidate map.
#[derive(Debug)]
pub enum GraphMapError {
    /// A domain edge `(i, j)` was mapped to the non-edge `(m_i, m_j)`; the
    /// fields are `(i, j, m_i, m_j)`.
    BadEdge(u32, u32, u32, u32),
    /// The candidate has the wrong length or an out-of-range image.
    InvalidMap(String),
    /// The randomized search ran out of candidates before finding a valid map.
    Exhausted,
    /// The packed encoding cannot hold the required digit count.
    EncodingOverflow,
}

/// The incremental per-vertex checks, taken together, accept exactly the
/// homomorphisms: they cover all edges because the domain relation is
/// symmetric, and self-loops because the codomain relation is reflexive.
pub proof fn lemma_vertex_ok_all_is_hom<U: UGraph, V: UGraph>(dom: &U, cod: &V, f: Seq<u32>)
    requires
        dom.wf(),
        cod.wf(),
        f.len() == dom.gn(),
        forall|i: int| 0 <= i < f.len() ==> vertex_ok(dom, cod, f, i),
    ensures
        map_ok(dom, cod, f),
{
    dom.wf_facts();
    cod.wf_facts();
    assert forall|i: int| 0 <= i < f.len() implies ((#[trigger] f[i]) as nat) < cod.gn() by {
        assert(vertex_ok(dom, cod, f, i));
    }
    assert forall|a: int, b: int| #[trigger] dom.edge(a, b) implies cod.edge(
        f[a] as int,
        f[b] as int,
    ) by {
        assert(dom.edge(b, a));
        if a < b {
            assert(vertex_ok(dom, cod, f, b));
        } else if b < a {
            assert(vertex_ok(dom, cod, f, a));
            assert(cod.edge(f[b] as int, f[a] as int));
        } else {
            assert(vertex_ok(dom, cod, f, a));
            assert((f[a] as nat) < cod.gn());
            assert(cod.edge(f[a] as int, f[a] as int));
        }
    }
}

/// The outcome of validating one candidate assignment, vertex by vertex in
/// increasing index order; each failing variant reports the first violation
/// the scan meets.
pub enum MapCheck {
    /// The candidate is a homomorphism.
    Valid,
    /// The candidate's length is not the domain's vertex count.
    WrongLen,
    /// Vertex `i` is the first violation and its image is out of range.
    OutOfRange { i: u32 },
    /// Vertex `i` is the first violation: the domain edge to the earlier
    /// vertex `j` (the smallest such) maps to the codomain non-edge
    /// `(mi, mj)`.
    BadPair { i: u32, j: u32, mi: u32, mj: u32 },
}

/// Validate a candidate assignment vertex-by-vertex in increasing index
/// order: for each already-assigned neighbor `j < i`, the image pair must be
/// a codomain edge; an out-of-range image fails immediately.
pub fn check_map<U: UGraph, V: UGraph>(domain: &U, codomain: &V, f: &[u32]) -> (r: MapCheck)
    requires
        domain.wf(),
        codomain.wf(),
    ensures
        match r {
            MapCheck::Valid => {
                &&& f@.len() == domain.gn()
                &&& forall|k: int| 0 <= k < f@.len() ==> vertex_ok(domain, codomain, f@, k)
                &&& map_ok(domain, codomain, f@)
            },
            MapCheck::WrongLen => f@.len() != domain.gn(),
            MapCheck::OutOfRange { i } => {
                &&& f@.len() == domain.gn()
                &&& (i as nat) < f@.len()
                &&& forall|k: int| 0 <= k < i ==> vertex_ok(domain, codomain, f@, k)
                &&& (f@[i as int] as nat) >= codomain.gn()
            },
            MapCheck::BadPair { i, j, mi, mj } => {
                &&& f@.len() == domain.gn()
                &&& j < i
                &&& (i as nat) < f@.len()
                &&& forall|k: int| 0 <= k < i ==> vertex_ok(domain, codomain, f@, k)
                &&& (f@[i as int] as nat) < codomain.gn()
                &&& domain.edge(j as int, i as int)
                &&& !codomain.edge(f@[j as int] as int, f@[i as int] as int)
                &&& forall|j2: int|
                    0 <= j2 < j && #[trigger] domain.edge(j2, i as int) ==> codomain.edge(
                        f@[j2] as int,
                        f@[i as int] as int,
                    )
                &&& mi == f@[i as int]
                &&& mj == f@[j as int]
            },
        },
{
    let n = domain.n();
    if f.len() != n as usize {
        return MapCheck::WrongLen;
    }
    let m = codomain.n();
    let mut i: u32 = 0;
    while i < n
        invariant
            domain.wf(),
            codomain.wf(),
            n as nat == domain.gn(),
            m as nat == codomain.gn(),
            f@.len() == n as nat,
            i <= n,
            forall|k: int| 0 <= k < i ==> vertex_ok(domain, codomain, f@, k),
        decreases n - i,
    {
        let mi = f[i as usize];
        if mi >= m {
            return MapCheck::OutOfRange { i };
        }
        let mut j: u32 = 0;
        while j < i
            invariant
                domain.wf(),
                codomain.wf(),
                n as nat == domain.gn(),
                m as nat == codomain.gn(),
                f@.len() == n as nat,
                i < n,
                j <= i,
                mi == f@[i as int],
                mi < m,
                forall|k: int| 0 <= k < i ==> vertex_ok(domain, codomain, f@, k),
                forall|j2: int|
                    0 <= j2 < j && #[trigger] domain.edge(j2, i as int) ==> codomain.edge(
                        f@[j2] as int,
                        f@[i as int] as int,
                    ),
            decreases i - j,
        {
            if domain.is_edge(j, i) {
                let mj = f[j as usize];
                proof {
                    assert(vertex_ok(domain, codomain, f@, j as int));
                }
                if !codomain.is_edge(mj, mi) {
                    return MapCheck::BadPair { i, j, mi, mj };
                }
            }
            j += 1;
        }
        assert(vertex_ok(domain, codomain, f@, i as int));
        i += 1;
    }
    proof {
        lemma_vertex_ok_all_is_hom(domain, codomain, f@);
    }
    MapCheck::Valid
}

/// A homomorphism together with owned handles to its two graphs.
pub trait GraphMap<U: UGraph, V: UGraph>: Sized {
    /// The domain graph.
    spec fn spec_domain(&self) -> U;

    /// The codomain graph.
    spec fn spec_codomain(&self) -> V;

    /// The assignment, one codomain vertex per domain vertex.
    spec fn map_seq(&self) -> Seq<u32>;

    /// Both graphs are well formed and the assignment is a homomorphism.
    spec fn wf(&self) -> bool;

    /// What well-formedness guarantees.
    proof fn wf_facts(&self)
        requires
            self.wf(),
        ensures
            self.spec_domain().wf(),
            self.spec_codomain().wf(),
            map_ok(&self.spec_domain(), &self.spec_codomain(), self.map_seq()),
        ;

    /// The domain graph.
    fn domain(&self) -> (r: &U)
        ensures
            *r == self.spec_domain(),
        ;

    /// The codomain graph.
    fn codomain(&self) -> (r: &V)
        ensures
            *r == self.spec_codomain(),
        ;

    /// The image of vertex `u`.
    fn map(&self, u: u32) -> (r: u32)
        requires
            self.wf(),
            (u as nat) < self.spec_domain().gn(),
        ensures
            r == self.map_seq()[u as int],
        ;
}

/// A homomorphism in expanded form: one codomain vertex id per domain
/// vertex.
#[derive(Debug)]
pub struct VertGraphMap<U: UGraph, V: UGraph> {
    domain: U,
    codomain: V,
    vert_maps: Vec<u32>,
}

impl<U: UGraph, V: UGraph> VertGraphMap<U, V> {
    /// The assignment.
    pub closed spec fn verts(&self) -> Seq<u32> {
        self.vert_maps@
    }

    /// The domain graph.
    pub closed spec fn dom_s(&self) -> U {
        self.domain
    }

    /// The codomain graph.
    pub closed spec fn cod_s(&self) -> V {
        self.codomain
    }

    /// Wrap an assignment that the caller has already shown to be a
    /// homomorphism.
    pub fn new_unchecked(domain: U, codomain: V, vert_maps: Vec<u32>) -> (r: Self)
        requires
            domain.wf(),
            codomain.wf(),
            map_ok(&domain, &codomain, vert_maps@),
        ensures
            r.wf(),
            r.spec_domain() == domain,
            r.spec_codomain() == codomain,
            r.verts() == vert_maps@,
    {
        Self { domain, codomain, vert_maps }
    }

    /// The assignment as a vector.
    pub fn verts_vec(&self) -> (r: &Vec<u32>)
        ensures
            r@ == self.verts(),
    {
        &self.vert_maps
    }

    /// Take the map apart into its graphs and its assignment.
    pub fn into_parts(self) -> (r: (U, V, Vec<u32>))
        ensures
            r.0 == self.spec_domain(),
            r.1 == self.spec_codomain(),
            r.2@ == self.verts(),
    {
        (self.domain, self.codomain, self.vert_maps)
    }

    /// Validate a candidate assignment and wrap it on success.
    ///
    /// Validation walks the vertices in increasing index order; the first
    /// violation decides the error. A wrong length or an out-of-range image
    /// yields `InvalidMap`; a domain edge `(i, j)`, `j < i`, whose images do
    /// not share a codomain edge yields `BadEdge(i, j, m_i, m_j)` with the
    /// smallest such `j` for the first failing `i`.
    pub fn try_new(domain: U, codomain: V, vert_maps: &[u32]) -> (r: Result<
        Self,
        GraphMapError,
    >)
        requires
            domain.wf(),
            codomain.wf(),
        ensures
            r is Ok <==> (vert_maps@.len() == domain.gn() && forall|k: int|
                0 <= k < vert_maps@.len() ==> vertex_ok(&domain, &codomain, vert_maps@, k)),
            match r {
                Ok(m) => {
                    &&& m.wf()
                    &&& m.spec_domain() == domain
                    &&& m.spec_codomain() == codomain
                    &&& m.verts() == vert_maps@
                    &&& map_ok(&domain, &codomain, vert_maps@)
                },
                Err(e) => match e {
                    GraphMapError::InvalidMap(msg) => {
                        ||| (vert_maps@.len() != domain.gn() && msg@
                            == "invalid map: length does not match domain vertex count"@)
                        ||| (vert_maps@.len() == domain.gn() && msg@
                            == "invalid map: codomain node out of range"@ && exists|i: int|
                            0 <= i < vert_maps@.len() && (forall|k: int|
                                0 <= k < i ==> vertex_ok(&domain, &codomain, vert_maps@, k)) && ((
                            #[trigger] vert_maps@[i]) as nat) >= codomain.gn())
                    },
                    GraphMapError::BadEdge(i, j, mi, mj) => {
                        &&& vert_maps@.len() == domain.gn()
                        &&& j < i
                        &&& (i as nat) < vert_maps@.len()
                        &&& forall|k: int|
                            0 <= k < i ==> vertex_ok(&domain, &codomain, vert_maps@, k)
                        &&& (vert_maps@[i as int] as nat) < codomain.gn()
                        &&& domain.edge(j as int, i as int)
                        &&& !codomain.edge(
                            vert_maps@[j as int] as int,
                            vert_maps@[i as int] as int,
                        )
                        &&& forall|j2: int|
                            0 <= j2 < j && #[trigger] domain.edge(j2, i as int) ==> codomain.edge(
                                vert_maps@[j2] as int,
                                vert_maps@[i as int] as int,
                            )
                        &&& mi == vert_maps@[i as int]
                        &&& mj == vert_maps@[j as int]
                    },
                    _ => false,
                },
            },
    {
        match check_map(&domain, &codomain, vert_maps) {
            MapCheck::Valid => {
                let vm = slice_to_vec(vert_maps);
                Ok(Self { domain, codomain, vert_maps: vm })
            },
            MapCheck::WrongLen => {
                Err(
                    GraphMapError::InvalidMap(
                        String::from_str("invalid map: length does not match domain vertex count"),
                    ),
                )
            },
            MapCheck::OutOfRange { i } => {
                proof {
                    let iw = i as int;
                    assert(0 <= iw < vert_maps@.len() && (forall|k: int|
                        0 <= k < iw ==> vertex_ok(&domain, &codomain, vert_maps@, k)) && ((
                    vert_maps@[iw]) as nat) >= codomain.gn());
                    assert(!vertex_ok(&domain, &codomain, vert_maps@, iw));
                }
                Err(
                    GraphMapError::InvalidMap(
                        String::from_str("invalid map: codomain node out of range"),
                    ),
                )
            },
            MapCheck::BadPair { i, j, mi, mj } => {
                proof {
                    assert(!vertex_ok(&domain, &codomain, vert_maps@, i as int)) by {
                        if vertex_ok(&domain, &codomain, vert_maps@, i as int) {
                            assert(domain.edge(j as int, i as int));
                            assert(codomain.edge(
                                vert_maps@[j as int] as int,
                                vert_maps@[i as int] as int,
                            ));
                        }
                    }
                }
                Err(GraphMapError::BadEdge(i, j, mi, mj))
            },
        }
    }
}

impl<U: UGraph, V: UGraph> GraphMap<U, V> for VertGraphMap<U, V> {
    open spec fn spec_domain(&self) -> U {
        self.dom_s()
    }

    open spec fn spec_codomain(&self) -> V {
        self.cod_s()
    }

    open spec fn map_seq(&self) -> Seq<u32> {
        self.verts()
    }

    open spec fn wf(&self) -> bool {
        &&& self.dom_s().wf()
        &&& self.cod_s().wf()
        &&& map_ok(&self.dom_s(), &self.cod_s(), self.verts())
    }

    proof fn wf_facts(&self) {
    }

    fn domain(&self) -> (r: &U) {
        &self.domain
    }

    fn codomain(&self) -> (r: &V) {
        &self.codomain
    }

    fn map(&self, u: u32) -> (r: u32) {
        self.vert_maps[u as usize]
    }
}

/// A map over equivalent graphs is still a homomorphism.
pub proof fn lemma_map_ok_eqv2<U: UGraph, V: UGraph>(
    dom1: &U,
    dom2: &U,
    cod1: &V,
    cod2: &V,
    f: Seq<u32>,
)
    requires
        map_ok(dom1, cod1, f),
        crate::graphs::graph_eqv(dom1, dom2),
        crate::graphs::graph_eqv(cod1, cod2),
    ensures
        map_ok(dom2, cod2, f),
{
    assert forall|a: int, b: int| #[trigger] dom2.edge(a, b) implies cod2.edge(
        f[a] as int,
        f[b] as int,
    ) by {
        assert(dom1.edge(a, b));
        assert(cod1.edge(f[a] as int, f[b] as int));
    }
}

/// The candidate passes every incremental per-vertex check.
pub open spec fn candidate_ok<U: UGraph, V: UGraph>(dom: &U, cod: &V, ds: Seq<u32>) -> bool {
    forall|k: int| 0 <= k < ds.len() ==> vertex_ok(dom, cod, ds, k)
}

/// The digit sequences of the values `lo..hi`, keeping exactly those whose
/// assignment validates.
pub open spec fn naive_survivors<U: UGraph, V: UGraph>(
    dom: &U,
    cod: &V,
    lo: int,
    hi: int,
) -> Seq<Seq<u32>>
    decreases hi - lo,
{
    if lo < 0 || lo >= hi {
        Seq::empty()
    } else {
        let ds = crate::graph_maps::permutation_generator::digits_of(
            lo as nat,
            cod.gn(),
            dom.gn(),
        );
        (if candidate_ok(dom, cod, ds) {
            seq![ds]
        } else {
            Seq::empty()
        }) + naive_survivors(dom, cod, lo + 1, hi)
    }
}

proof fn lemma_naive_snoc<U: UGraph, V: UGraph>(dom: &U, cod: &V, lo: int, hi: int)
    requires
        0 <= lo <= hi,
    ensures
        naive_survivors(dom, cod, lo, hi + 1) == naive_survivors(dom, cod, lo, hi)
            + naive_survivors(dom, cod, hi, hi + 1),
    decreases hi - lo,
{
    if lo < hi {
        lemma_naive_snoc(dom, cod, lo + 1, hi);
        let ds = crate::graph_maps::permutation_generator::digits_of(
            lo as nat,
            cod.gn(),
            dom.gn(),
        );
        let head: Seq<Seq<u32>> = if candidate_ok(dom, cod, ds) {
            seq![ds]
        } else {
            Seq::empty()
        };
        assert(naive_survivors(dom, cod, lo, hi + 1) == head + naive_survivors(
            dom,
            cod,
            lo + 1,
            hi + 1,
        ));
        assert(head + (naive_survivors(dom, cod, lo + 1, hi) + naive_survivors(
            dom,
            cod,
            hi,
            hi + 1,
        )) =~= (head + naive_survivors(dom, cod, lo + 1, hi)) + naive_survivors(
            dom,
            cod,
            hi,
            hi + 1,
        ));
    } else {
        assert(naive_survivors(dom, cod, lo, hi) == Seq::<Seq<u32>>::empty());
        assert(naive_survivors(dom, cod, lo, hi + 1) =~= naive_survivors(dom, cod, lo, hi)
            + naive_survivors(dom, cod, hi, hi + 1));
    }
}

/// The assignments of a list of maps.
pub open spec fn vgm_views<U: UGraph, V: UGraph>(s: Seq<VertGraphMap<U, V>>) -> Seq<Seq<u32>> {
    Seq::new(s.len(), |t: int| s[t].verts())
}

/// Drive the digit generator over its full range, validate every candidate
/// assignment, and collect the survivors; also reports the total number of
/// candidates examined.
pub fn generate_maps_naive<U: UGraph, V: UGraph>(domain: &U, codomain: &V) -> (r: (
    Vec<VertGraphMap<U, V>>,
    u64,
))
    requires
        domain.wf(),
        codomain.wf(),
        vstd::arithmetic::power::pow(codomain.gn() as int, domain.gn())
            <= u64::MAX as int,
    ensures
        r.1 as nat == crate::graph_maps::permutation_generator::pw(codomain.gn(), domain.gn()),
        vgm_views(r.0@) == naive_survivors(domain, codomain, 0, r.1 as int),
        forall|t: int| 0 <= t < r.0@.len() ==> (#[trigger] r.0@[t]).wf(),
        forall|t: int|
            0 <= t < r.0@.len() ==> crate::graphs::graph_eqv(
                &(#[trigger] r.0@[t]).spec_domain(),
                domain,
            ) && crate::graphs::graph_eqv(&r.0@[t].spec_codomain(), codomain),
{
    proof {
        domain.wf_facts();
        codomain.wf_facts();
    }
    let dn = domain.n();
    let cn = codomain.n();
    proof {
        assert(vstd::arithmetic::power::pow(cn as int, dn as nat) == vstd::arithmetic::power::pow(
            codomain.gn() as int,
            domain.gn(),
        ));
    }
    let mut generator = crate::graph_maps::permutation_generator::PermutationGenerator::new(
        dn,
        cn,
        0,
    );
    let mut survivors: Vec<VertGraphMap<U, V>> = Vec::new();
    let mut total: u64 = 0;
    loop
        invariant_except_break
            domain.wf(),
            codomain.wf(),
            dn as nat == domain.gn(),
            cn as nat == codomain.gn(),
            generator.wf(),
            generator.spec_codomain() == cn,
            generator.spec_domain() == dn,
            generator.spec_num() as nat == crate::graph_maps::permutation_generator::pw(
                codomain.gn(),
                domain.gn(),
            ),
            generator.spec_num() > 0 ==> generator.spec_seed() == 0,
            total as nat == generator.emitted(),
            total <= generator.spec_num(),
            vgm_views(survivors@) == naive_survivors(domain, codomain, 0, total as int),
            forall|t: int| 0 <= t < survivors@.len() ==> (#[trigger] survivors@[t]).wf(),
            forall|t: int|
                0 <= t < survivors@.len() ==> crate::graphs::graph_eqv(
                    &(#[trigger] survivors@[t]).spec_domain(),
                    domain,
                ) && crate::graphs::graph_eqv(&survivors@[t].spec_codomain(), codomain),
        ensures
            domain.wf(),
            codomain.wf(),
            total as nat == crate::graph_maps::permutation_generator::pw(
                codomain.gn(),
                domain.gn(),
            ),
            vgm_views(survivors@) == naive_survivors(domain, codomain, 0, total as int),
            forall|t: int| 0 <= t < survivors@.len() ==> (#[trigger] survivors@[t]).wf(),
            forall|t: int|
                0 <= t < survivors@.len() ==> crate::graphs::graph_eqv(
                    &(#[trigger] survivors@[t]).spec_domain(),
                    domain,
                ) && crate::graphs::graph_eqv(&survivors@[t].spec_codomain(), codomain),
        decreases generator.spec_num() as int - generator.emitted() as int,
    {
        let ghost e = generator.emitted();
        let it_opt = generator.next();
        match it_opt {
            Option::None => {
                proof {
                    assert(e >= generator.spec_num());
                    assert(total as nat == generator.spec_num() as nat);
                }
                break ;
            },
            Option::Some(mut it) => {
                proof {
                    vstd::arithmetic::div_mod::lemma_small_mod(
                        e,
                        generator.spec_num() as nat,
                    );
                    assert(it.spec_original() as nat == e);
                }
                let digits = expand_digits(&mut it, dn);
                proof {
                    assert(digits@ == crate::graph_maps::permutation_generator::digits_of(
                        e,
                        codomain.gn(),
                        domain.gn(),
                    ));
                }
                let ghost ds = digits@;
                let ghost pre = survivors@;
                match check_map(domain, codomain, digits.as_slice()) {
                    MapCheck::Valid => {
                        let dd = domain.duplicate();
                        let cd = codomain.duplicate();
                        proof {
                            lemma_map_ok_eqv2(domain, &dd, codomain, &cd, ds);
                        }
                        survivors.push(VertGraphMap::new_unchecked(dd, cd, digits));
                        proof {
                            assert(candidate_ok(domain, codomain, ds));
                            assert(vgm_views(survivors@) =~= vgm_views(pre).push(ds));
                        }
                    },
                    MapCheck::WrongLen => {
                        proof {
                            assert(false);
                        }
                    },
                    MapCheck::OutOfRange { i } => {
                        proof {
                            assert(!vertex_ok(domain, codomain, ds, i as int));
                            assert(!candidate_ok(domain, codomain, ds));
                        }
                    },
                    MapCheck::BadPair { i, j, mi, mj } => {
                        proof {
                            assert(!vertex_ok(domain, codomain, ds, i as int)) by {
                                if vertex_ok(domain, codomain, ds, i as int) {
                                    assert(domain.edge(j as int, i as int));
                                    assert(codomain.edge(
                                        ds[j as int] as int,
                                        ds[i as int] as int,
                                    ));
                                }
                            }
                            assert(!candidate_ok(domain, codomain, ds));
                        }
                    },
                }
                total = total + 1;
                proof {
                    lemma_naive_snoc(domain, codomain, 0, e as int);
                    assert(naive_survivors(domain, codomain, e as int, e as int + 1) == (if
                    candidate_ok(domain, codomain, ds) {
                        seq![ds]
                    } else {
                        Seq::<Seq<u32>>::empty()
                    }) + naive_survivors(domain, codomain, e as int + 1, e as int + 1));
                    if candidate_ok(domain, codomain, ds) {
                        assert(vgm_views(survivors@) =~= naive_survivors(
                            domain,
                            codomain,
                            0,
                            e as int,
                        ) + seq![ds]);
                        assert(naive_survivors(domain, codomain, 0, e as int + 1) =~= naive_survivors(
                            domain,
                            codomain,
                            0,
                            e as int,
                        ) + seq![ds]);
                    } else {
                        assert(naive_survivors(domain, codomain, 0, e as int + 1)
                            =~= naive_survivors(domain, codomain, 0, e as int));
                    }
                }
            },
        }
    }
    (survivors, total)
}

/// Collect the digits of one candidate into a vector.
pub fn expand_digits(
    it: &mut crate::graph_maps::permutation_generator::PermutationIterator,
    dn: u32,
) -> (r: Vec<u32>)
    requires
        old(it).wf(),
        old(it).spec_index() == 0,
        old(it).spec_domain() == dn,
    ensures
        r@ == crate::graph_maps::permutation_generator::digits_of(
            old(it).spec_original() as nat,
            old(it).spec_codomain() as nat,
            dn as nat,
        ),
{
    let ghost base = it.spec_codomain() as nat;
    let ghost orig = it.spec_original() as nat;
    let mut digits: Vec<u32> = Vec::new();
    let mut k: u32 = 0;
    while k < dn
        invariant
            it.wf(),
            it.spec_index() == k,
            it.spec_original() as nat == orig,
            it.spec_codomain() as nat == base,
            it.spec_domain() == dn,
            k <= dn,
            digits@.len() == k as nat,
            forall|t: int|
                0 <= t < k ==> (#[trigger] digits@[t]) as nat
                    == crate::graph_maps::permutation_generator::digit_of(orig, base, t as nat),
        decreases dn - k,
    {
        match it.next() {
            Option::Some(dd) => {
                digits.push(dd);
                proof {
                    assert(it.spec_codomain() >= 1);
                    vstd::arithmetic::div_mod::lemma_mod_bound(
                        (orig / crate::graph_maps::permutation_generator::pw(
                            base,
                            k as nat,
                        )) as int,
                        base as int,
                    );
                }
            },
            Option::None => {
                proof {
                    assert(false);
                }
            },
        }
        k += 1;
    }
    proof {
        assert(digits@ =~= crate::graph_maps::permutation_generator::digits_of(
            orig,
            base,
            dn as nat,
        ));
    }
    digits
}

/// An element-for-element copy of a slice of vertex ids.
pub fn slice_to_vec(s: &[u32]) -> (r: Vec<u32>)
    ensures
        r@ == s@,
{
    let mut r: Vec<u32> = Vec::new();
    let mut i: usize = 0;
    while i < s.len()
        invariant
            i <= s@.len(),
            r@ == s@.subrange(0, i as int),
        decreases s@.len() - i as int,
    {
        r.push(s[i]);
        assert(r@ == s@.subrange(0, i as int + 1));
        i += 1;
    }
    assert(r@ == s@.subrange(0, s@.len() as int));
    assert(s@.subrange(0, s@.len() as int) == s@);
    r
}

} // verus!
