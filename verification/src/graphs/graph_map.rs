//! A borrowed-graph homomorphism: the same incremental validation as
//! [`crate::graph_maps::VertGraphMap`], but holding references to its graphs
//! and reporting a bad edge by its two domain vertices alone.

use vstd::prelude::*;

verus! {

use vstd::string::StringExecFns;
use crate::graphs::UGraph;
use crate::graph_maps::{MapCheck, check_map, map_ok, vertex_ok};

/// A homomorphism from `domain` to `codomain`, borrowing both graphs.
#[derive(Debug)]
pub struct GraphMap<'a, U: UGraph, V: UGraph> {
    domain: &'a U,
    codomain: &'a V,
    vert_maps: Vec<u32>,
}

/// A failed candidate map: a domain edge `(i, j)` mapped to a non-edge, or
/// a candidate of the wrong shape.
#[derive(Debug)]
pub enum GraphMapError {
    /// The domain edge `(i, j)` was mapped to a codomain non-edge.
    BadEdge(u32, u32),
    /// The candidate has the wrong length or an out-of-range image.
    InvalidMap(String),
}

impl<'a, U: UGraph, V: UGraph> GraphMap<'a, U, V> {
    /// The assignment.
    pub closed spec fn verts(&self) -> Seq<u32> {
        self.vert_maps@
    }

    /// The domain graph.
    pub closed spec fn dom_s(&self) -> U {
        *self.domain
    }

    /// The codomain graph.
    pub closed spec fn cod_s(&self) -> V {
        *self.codomain
    }

    /// Both graphs are well formed and the assignment is a homomorphism.
    pub open spec fn wf(&self) -> bool {
        &&& self.dom_s().wf()
        &&& self.cod_s().wf()
        &&& map_ok(&self.dom_s(), &self.cod_s(), self.verts())
    }

    /// Validate a candidate assignment and wrap it on success.
    ///
    /// Validation walks the vertices in increasing index order; the first
    /// violation decides the error. A wrong length or an out-of-range image
    /// yields `InvalidMap`; a domain edge `(i, j)`, `j < i`, whose images do
    /// not share a codomain edge yields `BadEdge(i, j)` with the smallest
    /// such `j` for the first failing `i`.
    pub fn try_new(domain: &'a U, codomain: &'a V, vert_maps: Vec<u32>) -> (r: Result<
        Self,
        GraphMapError,
    >)
        requires
            domain.wf(),
            codomain.wf(),
        ensures
            r is Ok <==> (vert_maps@.len() == domain.gn() && forall|k: int|
                0 <= k < vert_maps@.len() ==> vertex_ok(domain, codomain, vert_maps@, k)),
            match r {
                Ok(m) => {
                    &&& m.wf()
                    &&& m.dom_s() == *domain
                    &&& m.cod_s() == *codomain
                    &&& m.verts() == vert_maps@
                    &&& map_ok(domain, codomain, vert_maps@)
                },
                Err(e) => match e {
                    GraphMapError::InvalidMap(msg) => {
                        ||| (vert_maps@.len() != domain.gn() && msg@
                            == "invalid map: length does not match domain vertex count"@)
                        ||| (vert_maps@.len() == domain.gn() && msg@
                            == "invalid map: codomain node out of range"@ && exists|i: int|
                            0 <= i < vert_maps@.len() && (forall|k: int|
                                0 <= k < i ==> vertex_ok(domain, codomain, vert_maps@, k)) && ((
                            #[trigger] vert_maps@[i]) as nat) >= codomain.gn())
                    },
                    GraphMapError::BadEdge(i, j) => {
                        &&& vert_maps@.len() == domain.gn()
                        &&& j < i
                        &&& (i as nat) < vert_maps@.len()
                        &&& forall|k: int| 0 <= k < i ==> vertex_ok(domain, codomain, vert_maps@, k)
                        &&& (vert_maps@[i as int] as nat) < codomain.gn()
                        &&& domain.edge(j as int, i as int)
                        &&& !codomain.edge(
                            vert_maps@[j as int] as int,
                            vert_maps@[i as int] as int,
                        )
                        &&& forall|j2: int|
                            0 <= j2 < j && #[trigger] domain.edge(j2, i as int) ==> codomain.edge(
                                vert_maps@[j2] as int,
                                vert_maps@[i as int] as int,
                            )
                    },
                },
            },
    {
        match check_map(domain, codomain, vert_maps.as_slice()) {
            MapCheck::Valid => Ok(Self { domain, codomain, vert_maps }),
            MapCheck::WrongLen => {
                Err(
                    GraphMapError::InvalidMap(
                        String::from_str("invalid map: length does not match domain vertex count"),
                    ),
                )
            },
            MapCheck::OutOfRange { i } => {
                proof {
                    let iw = i as int;
                    assert(0 <= iw < vert_maps@.len() && (forall|k: int|
                        0 <= k < iw ==> vertex_ok(domain, codomain, vert_maps@, k)) && ((
                    vert_maps@[iw]) as nat) >= codomain.gn());
                    assert(!vertex_ok(domain, codomain, vert_maps@, iw));
                }
                Err(
                    GraphMapError::InvalidMap(
                        String::from_str("invalid map: codomain node out of range"),
                    ),
                )
            },
            MapCheck::BadPair { i, j, mi, mj } => {
                proof {
                    assert(!vertex_ok(domain, codomain, vert_maps@, i as int)) by {
                        if vertex_ok(domain, codomain, vert_maps@, i as int) {
                            assert(domain.edge(j as int, i as int));
                            assert(codomain.edge(
                                vert_maps@[j as int] as int,
                                vert_maps@[i as int] as int,
                            ));
                        }
                    }
                }
                Err(GraphMapError::BadEdge(i, j))
            },
        }
    }
}

} // verus!
