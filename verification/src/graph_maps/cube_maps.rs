//! Cube maps: hypercube homomorphisms with per-coordinate degeneracy, face
//! extraction, and the pairwise combination engine that assembles
//! dimension-n maps from dimension-(n-1) maps.

use vstd::prelude::*;

verus! {

use crate::graphs::UGraph;
use crate::graphs::cube::{CubeGraph, one_bit_apart};
use crate::graph_maps::{GraphMap, VertGraphMap, map_ok, slice_to_vec};

/// Insert `value` as a new bit at position `pos` of `x`, shifting the bits
/// at and above `pos` up by one.
pub open spec fn spec_put_bit(x: u32, pos: u32, value: u32) -> u32 {
    let lower_mask = (((1u32 << pos) as int) - 1) as u32;
    let lower = x & lower_mask;
    let upper_shifted = (x & !lower_mask) << 1u32;
    lower | (value << pos) | upper_shifted
}

/// Insert `value` as a new bit at position `pos` of `x`, shifting the bits
/// at and above `pos` up by one.
pub fn put_bit(x: u32, pos: u32, value: u32) -> (r: u32)
    requires
        pos < 32,
        value == 0 || value == 1,
    ensures
        r == spec_put_bit(x, pos, value),
{
    proof {
        assert((1u32 << pos) >= 1) by (bit_vector)
            requires
                pos < 32u32,
        ;
    }
    let lower_mask = (1u32 << pos) - 1;
    let lower = x & lower_mask;

    let upper = x & !lower_mask;
    let upper_shifted = upper << 1u32;

    lower | (value << pos) | upper_shifted
}

/// What insertion does, bit by bit: bits below `pos` stay put, bit `pos`
/// becomes `value`, and every higher bit of the result is the next-lower
/// bit of the input.
pub proof fn lemma_put_bit_bits(x: u32, pos: u32, value: u32, k: u32)
    by (bit_vector)
    requires
        pos < 32,
        value <= 1,
        k < 32,
    ensures
        k < pos ==> ((spec_put_bit(x, pos, value) >> k) & 1) == ((x >> k) & 1),
        k == pos ==> ((spec_put_bit(x, pos, value) >> k) & 1) == value,
        k > pos ==> ((spec_put_bit(x, pos, value) >> k) & 1) == ((x >> ((k - 1) as u32)) & 1),
{
}

/// Inserting a bit keeps values inside the next-larger cube, is injective,
/// and preserves Hamming-distance-one adjacency.
proof fn lemma_put_bit_shape(x: u32, y: u32, i: u32, s: u32, m: u32, m1: u32)
    by (bit_vector)
    requires
        m < 31,
        m1 == m + 1,
        i <= m,
        s <= 1,
        x < (1u32 << m),
        y < (1u32 << m),
    ensures
        spec_put_bit(x, i, s) < (1u32 << m1),
        spec_put_bit(y, i, s) < (1u32 << m1),
        x != y ==> spec_put_bit(x, i, s) != spec_put_bit(y, i, s),
        one_bit_apart(x, y) ==> one_bit_apart(spec_put_bit(x, i, s), spec_put_bit(y, i, s)),
{
}

/// Inserting below the top bit of an upper-half vertex is inserting into
/// its lower-half twin, plus the doubled top bit.
proof fn lemma_put_bit_upper(v: u32, i: u32, s: u32, dm: u32, dmm1: u32)
    by (bit_vector)
    requires
        1 <= dm < 31,
        dmm1 == dm - 1,
        i < dm,
        s <= 1,
        v < (1u32 << dm),
        v >= (1u32 << dmm1),
    ensures
        spec_put_bit(v, i, s) == spec_put_bit((v - (1u32 << dmm1)) as u32, i, s) + (1u32 << dm),
{
}

/// Inserting at the top either leaves the value alone or adds the new top
/// bit.
proof fn lemma_put_bit_top(v: u32, dm: u32)
    by (bit_vector)
    requires
        dm < 31,
        v < (1u32 << dm),
    ensures
        spec_put_bit(v, dm, 0) == v,
        spec_put_bit(v, dm, 1) == v + (1u32 << dm),
{
}

/// How Hamming-distance-one edges of the doubled cube relate to its two
/// halves: an edge across the halves joins a vertex to its twin, an edge
/// inside the upper half mirrors one in the lower half, and every vertex is
/// adjacent to its twin.
proof fn lemma_cube_edge_split(u: u32, v: u32, dm: u32, dm1: u32)
    by (bit_vector)
    requires
        dm < 31,
        dm1 == dm + 1,
        u < (1u32 << dm1),
        v < (1u32 << dm1),
    ensures
        (u < (1u32 << dm) && v >= (1u32 << dm) && one_bit_apart(u, v)) ==> v == u + (1u32 << dm),
        (u >= (1u32 << dm) && v >= (1u32 << dm) && one_bit_apart(u, v)) ==> one_bit_apart(
            (u - (1u32 << dm)) as u32,
            (v - (1u32 << dm)) as u32,
        ),
        u < (1u32 << dm) ==> one_bit_apart(u, (u + (1u32 << dm)) as u32),
        (u < (1u32 << dm) && v < (1u32 << dm) && one_bit_apart(u, v)) ==> one_bit_apart(
            (u + (1u32 << dm)) as u32,
            (v + (1u32 << dm)) as u32,
        ),
{
}

/// The face of a cube assignment at coordinate `i` with the fixed bit `s`:
/// entry `v` is the image of the cube vertex made by inserting `s` at
/// position `i` of `v`.
pub open spec fn face_seq(f: Seq<u32>, dim: u32, i: u32, s: bool) -> Seq<u32>
    recommends
        1 <= dim < 32,
        i < dim,
{
    Seq::new(
        (1u32 << ((dim - 1) as u32)) as nat,
        |v: int| f[spec_put_bit(v as u32, i, if s {
            1
        } else {
            0
        }) as int],
    )
}

/// Element-for-element equality of two vertex vectors.
pub fn vec_u32_eq(a: &Vec<u32>, b: &Vec<u32>) -> (r: bool)
    ensures
        r == (a@ == b@),
{
    if a.len() != b.len() {
        return false;
    }
    let mut k: usize = 0;
    while k < a.len()
        invariant
            a@.len() == b@.len(),
            k <= a@.len(),
            forall|t: int| 0 <= t < k ==> a@[t] == b@[t],
        decreases a@.len() - k,
    {
        if a[k] != b[k] {
            return false;
        }
        k += 1;
    }
    proof {
        assert(a@ =~= b@);
    }
    true
}

/// The concatenation of two vertex vectors.
fn append_verts(a: &Vec<u32>, b: &Vec<u32>) -> (r: Vec<u32>)
    ensures
        r@ == a@ + b@,
{
    let mut r = slice_to_vec(a.as_slice());
    let mut k: usize = 0;
    while k < b.len()
        invariant
            r@ == a@ + b@.subrange(0, k as int),
            k <= b@.len(),
        decreases b@.len() - k,
    {
        r.push(b[k]);
        assert(r@ =~= a@ + b@.subrange(0, k as int + 1));
        k += 1;
    }
    assert(a@ + b@.subrange(0, b@.len() as int) =~= a@ + b@);
    r
}

/// Extract the face of a cube homomorphism at coordinate `i` with sign
/// `sign`: the face is itself a homomorphism from the cube one dimension
/// down, to the same codomain.
pub fn d<V: UGraph, M: GraphMap<CubeGraph, V>>(map: &M, i: u32, sign: bool) -> (r: VertGraphMap<
    CubeGraph,
    V,
>)
    requires
        map.wf(),
        map.spec_domain().spec_dim() >= 1,
        i < map.spec_domain().spec_dim(),
    ensures
        r.wf(),
        r.spec_domain().spec_dim() == map.spec_domain().spec_dim() - 1,
        crate::graphs::graph_eqv(&r.spec_codomain(), &map.spec_codomain()),
        r.verts() == face_seq(map.map_seq(), map.spec_domain().spec_dim(), i, sign),
{
    proof {
        map.wf_facts();
    }
    let dim = map.domain().dim();
    let new_dim = dim - 1;
    let num_verts = 1u32 << new_dim;
    let sval: u32 = if sign {
        1
    } else {
        0
    };
    let ghost f = map.map_seq();
    let mut verts: Vec<u32> = Vec::new();
    let mut v: u32 = 0;
    while v < num_verts
        invariant
            map.wf(),
            map.spec_domain().wf(),
            f == map.map_seq(),
            f.len() == map.spec_domain().gn(),
            dim == map.spec_domain().spec_dim(),
            1 <= dim < 32,
            new_dim == dim - 1,
            i < dim,
            sval == (if sign {
                1u32
            } else {
                0u32
            }),
            num_verts == (1u32 << new_dim),
            v <= num_verts,
            verts@.len() == v as nat,
            forall|k: int|
                0 <= k < v ==> (#[trigger] verts@[k]) == f[spec_put_bit(k as u32, i, sval) as int],
        decreases num_verts - v,
    {
        proof {
            lemma_put_bit_shape(v, v, i, sval, new_dim, dim);
            assert(map.spec_domain().gn() == (1u32 << dim) as nat);
        }
        let idx = put_bit(v, i, sval);
        verts.push(map.map(idx));
        v += 1;
    }
    let fdom = CubeGraph::new(new_dim);
    let fcod = map.codomain().duplicate();
    proof {
        let gdim = map.spec_domain();
        let cod = map.spec_codomain();
        assert(verts@ =~= face_seq(f, dim, i, sign));
        assert(map_ok(&fdom, &fcod, verts@)) by {
            assert(verts@.len() == fdom.gn());
            assert forall|k: int| 0 <= k < verts@.len() implies ((#[trigger] verts@[k]) as nat)
                < fcod.gn() by {
                lemma_put_bit_shape(k as u32, k as u32, i, sval, new_dim, dim);
                let idx = spec_put_bit(k as u32, i, sval);
                assert(((f[idx as int]) as nat) < cod.gn());
            }
            assert forall|a: int, b: int| #[trigger] fdom.edge(a, b) implies fcod.edge(
                verts@[a] as int,
                verts@[b] as int,
            ) by {
                assert(0 <= a < fdom.gn() && 0 <= b < fdom.gn());
                assert((a as u32) < (1u32 << new_dim) && (b as u32) < (1u32 << new_dim));
                lemma_put_bit_shape(a as u32, b as u32, i, sval, new_dim, dim);
                let pa = spec_put_bit(a as u32, i, sval);
                let pb = spec_put_bit(b as u32, i, sval);
                assert(pa < (1u32 << dim) && pb < (1u32 << dim));
                if a == b {
                    assert(pa == pb);
                } else {
                    assert(one_bit_apart(a as u32, b as u32));
                    assert(one_bit_apart(pa, pb));
                }
                assert(gdim.gn() == (1u32 << dim) as nat);
                assert(gdim.edge(pa as int, pb as int));
                assert(cod.edge(f[pa as int] as int, f[pb as int] as int));
            }
        }
    }
    VertGraphMap::new_unchecked(fdom, fcod, verts)
}

/// The conjunction of two degeneracy vectors, coordinate by coordinate.
pub open spec fn zip_and(a: Seq<bool>, b: Seq<bool>) -> Seq<bool>
    recommends
        a.len() == b.len(),
{
    Seq::new(a.len(), |i: int| a[i] && b[i])
}

/// A map `h` over graphs equivalent to the originals is still a
/// homomorphism.
proof fn lemma_map_ok_eqv<U: UGraph, V: UGraph>(dom: &U, cod1: &V, cod2: &V, f: Seq<u32>)
    requires
        map_ok(dom, cod1, f),
        crate::graphs::graph_eqv(cod1, cod2),
    ensures
        map_ok(dom, cod2, f),
{
    assert forall|a: int, b: int| #[trigger] dom.edge(a, b) implies cod2.edge(
        f[a] as int,
        f[b] as int,
    ) by {
        assert(cod1.edge(f[a] as int, f[b] as int));
    }
}

/// Splitting a face of a doubled cube: for a coordinate of the original
/// cubes, the face of the concatenated assignment is the concatenation of
/// the two faces.
proof fn lemma_face_split(f: Seq<u32>, g: Seq<u32>, dm: u32, i: u32, s: bool)
    requires
        dm < 31,
        1 <= dm,
        i < dm,
        f.len() == (1u32 << dm) as nat,
        g.len() == (1u32 << dm) as nat,
    ensures
        face_seq(f + g, (dm + 1) as u32, i, s) == face_seq(f, dm, i, s) + face_seq(g, dm, i, s),
{
    let h = f + g;
    let dm1 = (dm + 1) as u32;
    let half = (1u32 << ((dm - 1) as u32));
    let sv: u32 = if s {
        1
    } else {
        0
    };
    assert((1u32 << dm) == (1u32 << ((dm - 1) as u32)) + (1u32 << ((dm - 1) as u32)))
        by (bit_vector)
        requires
            1 <= dm < 31u32,
    ;
    let lhs = face_seq(h, dm1, i, s);
    let rhs = face_seq(f, dm, i, s) + face_seq(g, dm, i, s);
    assert(lhs.len() == (1u32 << dm) as nat);
    assert(rhs.len() == (1u32 << dm) as nat);
    assert forall|v: int| 0 <= v < lhs.len() implies lhs[v] == rhs[v] by {
        if (v as u32) < half {
            lemma_put_bit_shape(v as u32, v as u32, i, sv, (dm - 1) as u32, dm);
            assert(spec_put_bit(v as u32, i, sv) < (1u32 << dm));
        } else {
            lemma_put_bit_upper(v as u32, i, sv, dm, (dm - 1) as u32);
            lemma_put_bit_shape(
                (v - half) as u32,
                (v - half) as u32,
                i,
                sv,
                (dm - 1) as u32,
                dm,
            );
            assert(h[spec_put_bit(v as u32, i, sv) as int] == g[spec_put_bit(
                (v - half) as u32,
                i,
                sv,
            ) as int]);
        }
    }
    assert(lhs =~= rhs);
}

/// The faces at the newly introduced coordinate of a doubled cube are the
/// two original assignments.
proof fn lemma_face_top(f: Seq<u32>, g: Seq<u32>, dm: u32)
    requires
        dm < 31,
        f.len() == (1u32 << dm) as nat,
        g.len() == (1u32 << dm) as nat,
    ensures
        face_seq(f + g, (dm + 1) as u32, dm, false) == f,
        face_seq(f + g, (dm + 1) as u32, dm, true) == g,
{
    let h = f + g;
    let dm1 = (dm + 1) as u32;
    assert forall|v: int| 0 <= v < f.len() implies face_seq(h, dm1, dm, false)[v] == f[v]
        && face_seq(h, dm1, dm, true)[v] == g[v] by {
        lemma_put_bit_top(v as u32, dm);
    }
    assert(face_seq(h, dm1, dm, false) =~= f);
    assert(face_seq(h, dm1, dm, true) =~= g);
}

/// Splitting a cube map into its two faces at the top coordinate and
/// concatenating them again reproduces the original assignment: combining
/// the 0-face and the 1-face of the last coordinate is the inverse of face
/// extraction there.
pub proof fn lemma_top_faces_recombine(h: Seq<u32>, dm: u32)
    requires
        dm < 31,
        h.len() == (1u32 << ((dm + 1) as u32)) as nat,
    ensures
        face_seq(h, (dm + 1) as u32, dm, false) + face_seq(h, (dm + 1) as u32, dm, true) == h,
{
    assert((1u32 << ((dm + 1) as u32)) == (1u32 << dm) + (1u32 << dm)) by (bit_vector)
        requires
            dm < 31u32,
    ;
    let half = (1u32 << dm) as int;
    let f = h.subrange(0, half);
    let g = h.subrange(half, h.len() as int);
    assert(h =~= f + g);
    lemma_face_top(f, g, dm);
    assert(face_seq(h, (dm + 1) as u32, dm, false) + face_seq(h, (dm + 1) as u32, dm, true)
        =~= h);
}

/// The converse of the combination rule: a valid homomorphism of the
/// doubled cube splits at its top coordinate into two valid homomorphisms
/// of the original cube whose twin images all share codomain edges.
pub proof fn lemma_cube_map_splits<V: UGraph>(
    smalldom: CubeGraph,
    bigdom: CubeGraph,
    cod: &V,
    h: Seq<u32>,
    dm: u32,
)
    requires
        smalldom.spec_dim() == dm,
        bigdom.spec_dim() == dm + 1,
        dm < 31,
        cod.wf(),
        map_ok(&bigdom, cod, h),
    ensures
        ({
            let f = face_seq(h, (dm + 1) as u32, dm, false);
            let g = face_seq(h, (dm + 1) as u32, dm, true);
            &&& f + g == h
            &&& map_ok(&smalldom, cod, f)
            &&& map_ok(&smalldom, cod, g)
            &&& forall|k: int|
                0 <= k < f.len() ==> cod.edge((#[trigger] f[k]) as int, g[k] as int)
        }),
{
    let dm1 = (dm + 1) as u32;
    let n = 1u32 << dm;
    assert((1u32 << dm1) == (1u32 << dm) + (1u32 << dm)) by (bit_vector)
        requires
            dm < 31u32,
            dm1 == dm + 1,
    ;
    cod.wf_facts();
    lemma_top_faces_recombine(h, dm);
    let f = face_seq(h, dm1, dm, false);
    let g = face_seq(h, dm1, dm, true);
    assert forall|v: int| 0 <= v < n implies f[v] == h[v] && g[v] == h[v + n] by {
        lemma_put_bit_top(v as u32, dm);
    }
    assert(map_ok(&smalldom, cod, f)) by {
        assert forall|k: int| 0 <= k < f.len() implies ((#[trigger] f[k]) as nat) < cod.gn() by {
            assert(f[k] == h[k]);
        }
        assert forall|a: int, b: int| #[trigger] smalldom.edge(a, b) implies cod.edge(
            f[a] as int,
            f[b] as int,
        ) by {
            assert(bigdom.edge(a, b));
            assert(f[a] == h[a] && f[b] == h[b]);
        }
    }
    assert(map_ok(&smalldom, cod, g)) by {
        assert forall|k: int| 0 <= k < g.len() implies ((#[trigger] g[k]) as nat) < cod.gn() by {
            assert(g[k] == h[k + n]);
        }
        assert forall|a: int, b: int| #[trigger] smalldom.edge(a, b) implies cod.edge(
            g[a] as int,
            g[b] as int,
        ) by {
            if a == b {
                assert(g[a] == h[a + n]);
                assert(((h[a + n]) as nat) < cod.gn());
                assert(cod.edge(h[a + n] as int, h[a + n] as int));
            } else {
                lemma_cube_edge_split(a as u32, b as u32, dm, dm1);
                assert(one_bit_apart((a + n) as u32, (b + n) as u32));
                assert(bigdom.edge(a + n, b + n));
                assert(g[a] == h[a + n] && g[b] == h[b + n]);
            }
        }
    }
    assert forall|k: int| 0 <= k < f.len() implies cod.edge(
        (#[trigger] f[k]) as int,
        g[k] as int,
    ) by {
        lemma_cube_edge_split(k as u32, k as u32, dm, dm1);
        assert(one_bit_apart(k as u32, (k + n) as u32));
        assert(bigdom.edge(k, k + n));
        assert(f[k] == h[k] && g[k] == h[k + n]);
    }
}

/// Two concatenations of equal-length halves are equal exactly when the
/// halves agree.
proof fn lemma_concat_eq(a: Seq<u32>, b: Seq<u32>, c: Seq<u32>, d2: Seq<u32>)
    requires
        a.len() == c.len(),
        b.len() == d2.len(),
    ensures
        (a + b == c + d2) <==> (a == c && b == d2),
{
    if a + b == c + d2 {
        assert forall|k: int| 0 <= k < a.len() implies a[k] == c[k] by {
            assert((a + b)[k] == (c + d2)[k]);
        }
        assert forall|k: int| 0 <= k < b.len() implies b[k] == d2[k] by {
            assert((a + b)[a.len() + k] == (c + d2)[c.len() + k]);
        }
        assert(a =~= c);
        assert(b =~= d2);
    }
}

/// Two cube homomorphisms combine into one homomorphism of the cube one
/// dimension up exactly when every twin pair of their images shares a
/// codomain edge.
proof fn lemma_combined_hom<V: UGraph>(
    smalldom: CubeGraph,
    bigdom: CubeGraph,
    cod: &V,
    f: Seq<u32>,
    g: Seq<u32>,
    dm: u32,
)
    requires
        smalldom.spec_dim() == dm,
        bigdom.spec_dim() == dm + 1,
        dm < 31,
        cod.wf(),
        map_ok(&smalldom, cod, f),
        map_ok(&smalldom, cod, g),
        forall|k: int| 0 <= k < f.len() ==> cod.edge((#[trigger] f[k]) as int, g[k] as int),
    ensures
        map_ok(&bigdom, cod, f + g),
{
    let h = f + g;
    let n = 1u32 << dm;
    let dm1 = (dm + 1) as u32;
    cod.wf_facts();
    assert((1u32 << dm1) == (1u32 << dm) + (1u32 << dm)) by (bit_vector)
        requires
            dm < 31u32,
            dm1 == dm + 1,
    ;
    assert(h.len() == bigdom.gn());
    assert forall|k: int| 0 <= k < h.len() implies ((#[trigger] h[k]) as nat) < cod.gn() by {
        if k < f.len() {
            assert(h[k] == f[k]);
        } else {
            assert(h[k] == g[k - f.len()]);
        }
    }
    assert forall|a: int, b: int| #[trigger] bigdom.edge(a, b) implies cod.edge(
        h[a] as int,
        h[b] as int,
    ) by {
        lemma_cube_edge_split(a as u32, b as u32, dm, dm1);
        if a == b {
            assert(cod.edge(h[a] as int, h[a] as int));
        } else if a < n && b < n {
            assert(smalldom.edge(a, b));
            assert(h[a] == f[a] && h[b] == f[b]);
        } else if a >= n && b >= n {
            assert(one_bit_apart((a - n) as u32, (b - n) as u32));
            assert(smalldom.edge(a - n, b - n));
            assert(h[a] == g[a - n] && h[b] == g[b - n]);
            assert(cod.edge(g[a - n] as int, g[b - n] as int));
        } else if a < n {
            assert(b == a + n);
            assert(h[a] == f[a] && h[b] == g[a]);
            assert(cod.edge(f[a] as int, g[a] as int));
        } else {
            assert(one_bit_apart(b as u32, a as u32)) by {
                crate::graphs::cube::lemma_one_bit_sym(a as u32, b as u32);
            }
            lemma_cube_edge_split(b as u32, a as u32, dm, dm1);
            assert(a == b + n);
            assert(h[b] == f[b] && h[a] == g[b]);
            assert(cod.edge(f[b] as int, g[b] as int));
            assert(cod.edge(g[b] as int, f[b] as int));
        }
    }
}

/// Every pair of a homomorphism's own images shares a codomain edge, so a
/// map always combines with itself.
pub proof fn lemma_self_compatible<V: UGraph>(m: &CubeMap<V>)
    requires
        m.wf(),
    ensures
        pair_compatible(m, m),
{
    m.spec_map().wf_facts();
    let ghost c = m.cod();
    c.wf_facts();
    assert forall|k: int| 0 <= k < m.verts().len() implies m.cod().edge(
        (#[trigger] m.verts()[k]) as int,
        m.verts()[k] as int,
    ) by {
        assert((m.verts()[k] as nat) < c.gn());
    }
}

/// Two cube maps into one codomain combine exactly when every twin pair of
/// their images shares a codomain edge.
pub open spec fn pair_compatible<V: UGraph>(a: &CubeMap<V>, b: &CubeMap<V>) -> bool {
    forall|k: int|
        0 <= k < a.verts().len() ==> a.cod().edge((#[trigger] a.verts()[k]) as int, b.verts()[k] as int)
}

/// A hypercube homomorphism together with its per-coordinate degeneracy
/// vector: bit `i` is set exactly when the two coordinate-`i` faces carry
/// identical assignments.
#[derive(Debug)]
pub struct CubeMap<V: UGraph> {
    map: VertGraphMap<CubeGraph, V>,
    degenerate_indices: Vec<bool>,
}

impl<V: UGraph> CubeMap<V> {
    /// The underlying homomorphism.
    pub closed spec fn spec_map(&self) -> VertGraphMap<CubeGraph, V> {
        self.map
    }

    /// The degeneracy vector.
    pub closed spec fn deg(&self) -> Seq<bool> {
        self.degenerate_indices@
    }

    /// The assignment.
    pub open spec fn verts(&self) -> Seq<u32> {
        self.spec_map().verts()
    }

    /// The cube dimension.
    pub open spec fn cdim(&self) -> u32 {
        self.spec_map().spec_domain().spec_dim()
    }

    /// The codomain graph.
    pub open spec fn cod(&self) -> V {
        self.spec_map().spec_codomain()
    }

    /// The map is a well-formed homomorphism and every degeneracy bit says
    /// exactly whether the two faces of its coordinate are identical.
    pub open spec fn wf(&self) -> bool {
        &&& self.spec_map().wf()
        &&& self.deg().len() == self.cdim() as nat
        &&& forall|i: int|
            0 <= i < self.cdim() ==> ((#[trigger] self.deg()[i]) <==> face_seq(
                self.verts(),
                self.cdim(),
                i as u32,
                false,
            ) == face_seq(self.verts(), self.cdim(), i as u32, true))
    }

    /// The cube dimension.
    pub fn dim(&self) -> (r: u32)
        ensures
            r == self.cdim(),
    {
        self.map.domain().dim()
    }

    /// The assignment as a vector.
    pub fn verts_vec(&self) -> (r: &Vec<u32>)
        ensures
            r@ == self.verts(),
    {
        self.map.verts_vec()
    }

    /// The degeneracy vector: entry `i` says whether coordinate `i` is
    /// degenerate.
    pub fn degeneracies(&self) -> (r: &Vec<bool>)
        ensures
            r@ == self.deg(),
    {
        &self.degenerate_indices
    }

    /// Give up the degeneracy bookkeeping and return the bare
    /// homomorphism.
    pub fn into_map(self) -> (r: VertGraphMap<CubeGraph, V>)
        ensures
            r == self.spec_map(),
    {
        self.map
    }

    /// Wrap a cube homomorphism, computing the degeneracy of each
    /// coordinate by comparing its two faces.
    pub fn from_map(map: VertGraphMap<CubeGraph, V>) -> (r: CubeMap<V>)
        requires
            map.wf(),
        ensures
            r.wf(),
            r.spec_map() == map,
    {
        proof {
            map.wf_facts();
        }
        let dim = map.domain().dim();
        let mut deg: Vec<bool> = Vec::new();
        let mut i: u32 = 0;
        while i < dim
            invariant
                map.wf(),
                dim == map.spec_domain().spec_dim(),
                dim < 32,
                i <= dim,
                deg@.len() == i as nat,
                forall|t: int|
                    0 <= t < i ==> ((#[trigger] deg@[t]) <==> face_seq(
                        map.verts(),
                        dim,
                        t as u32,
                        false,
                    ) == face_seq(map.verts(), dim, t as u32, true)),
            decreases dim - i,
        {
            let f0 = d(&map, i, false);
            let f1 = d(&map, i, true);
            deg.push(vec_u32_eq(f0.verts_vec(), f1.verts_vec()));
            i += 1;
        }
        CubeMap { map, degenerate_indices: deg }
    }

    /// Combine this map (taken as the 0-face of a new top coordinate) with
    /// another map of the same dimension into the same codomain, producing
    /// the combined map and its mirror image.
    ///
    /// The combination succeeds exactly when every twin pair of images
    /// shares a codomain edge; internal face edges are already known valid.
    /// The first failing twin pair `k` is reported as
    /// `BadEdge(k, k + n, m_k, m'_k)` over the combined vertex ids. The
    /// result's degeneracy is the coordinatewise conjunction of the inputs'
    /// vectors, plus one new bit that records whether the two inputs were
    /// the same assignment; `is_same` must say exactly that.
    pub fn try_combine(&self, other: &CubeMap<V>, is_same: bool) -> (r: Result<
        (CubeMap<V>, CubeMap<V>),
        crate::graph_maps::GraphMapError,
    >)
        requires
            self.wf(),
            other.wf(),
            self.cdim() == other.cdim(),
            self.cdim() < 31,
            crate::graphs::graph_eqv(&self.cod(), &other.cod()),
            is_same == (self.verts() == other.verts()),
        ensures
            r is Ok <==> pair_compatible(self, other),
            match r {
                Ok(pair) => {
                    &&& pair.0.wf()
                    &&& pair.1.wf()
                    &&& pair.0.cdim() == self.cdim() + 1
                    &&& pair.1.cdim() == self.cdim() + 1
                    &&& pair.0.verts() == self.verts() + other.verts()
                    &&& pair.1.verts() == other.verts() + self.verts()
                    &&& pair.0.deg() == zip_and(self.deg(), other.deg()).push(is_same)
                    &&& pair.1.deg() == zip_and(other.deg(), self.deg()).push(is_same)
                    &&& crate::graphs::graph_eqv(&pair.0.cod(), &self.cod())
                    &&& crate::graphs::graph_eqv(&pair.1.cod(), &self.cod())
                },
                Err(e) => match e {
                    crate::graph_maps::GraphMapError::BadEdge(i, j, mi, mj) => {
                        &&& (i as nat) < self.verts().len()
                        &&& j as nat == i as nat + self.verts().len()
                        &&& mi == self.verts()[i as int]
                        &&& mj == other.verts()[i as int]
                        &&& !self.cod().edge(mi as int, mj as int)
                        &&& forall|k: int|
                            0 <= k < i ==> self.cod().edge(
                                (#[trigger] self.verts()[k]) as int,
                                other.verts()[k] as int,
                            )
                    },
                    _ => false,
                },
            },
    {
        proof {
            self.spec_map().wf_facts();
            other.spec_map().wf_facts();
        }
        let dim = self.map.domain().dim();
        let n = self.map.domain().n();
        let sv = self.map.verts_vec();
        let ov = other.map.verts_vec();
        proof {
            assert(n as nat == sv@.len());
            assert(sv@.len() == ov@.len());
            assert(n as nat + n as nat <= u32::MAX as nat) by (bit_vector)
                requires
                    n == 1u32 << dim,
                    dim < 31u32,
            ;
        }
        let cod_ref = self.map.codomain();
        let mut k: u32 = 0;
        while k < n
            invariant
                self.wf(),
                other.wf(),
                self.cdim() == other.cdim(),
                dim == self.cdim(),
                dim < 31,
                crate::graphs::graph_eqv(&self.cod(), &other.cod()),
                n as nat == self.verts().len(),
                n as nat + n as nat <= u32::MAX as nat,
                sv@ == self.verts(),
                ov@ == other.verts(),
                *cod_ref == self.cod(),
                self.cod().wf(),
                k <= n,
                forall|k2: int|
                    0 <= k2 < k ==> self.cod().edge(
                        (#[trigger] self.verts()[k2]) as int,
                        other.verts()[k2] as int,
                    ),
            decreases n - k,
        {
            let x = sv[k as usize];
            let y = ov[k as usize];
            proof {
                assert((x as nat) < self.cod().gn());
                assert((y as nat) < other.cod().gn());
                assert((y as nat) < self.cod().gn());
            }
            if !cod_ref.is_edge(x, y) {
                return Err(crate::graph_maps::GraphMapError::BadEdge(k, k + n, x, y));
            }
            k += 1;
        }
        proof {
            assert(pair_compatible(self, other));
        }
        let cv1 = append_verts(sv, ov);
        let cv2 = append_verts(ov, sv);
        let dom1 = CubeGraph::new(dim + 1);
        let dom2 = CubeGraph::new(dim + 1);
        let cod1 = cod_ref.duplicate();
        let cod2 = cod_ref.duplicate();
        proof {
            let f = self.verts();
            let g = other.verts();
            let smalldom = self.spec_map().spec_domain();
            let cod = self.cod();
            assert(map_ok(&smalldom, &cod, f));
            assert(map_ok(&smalldom, &cod, g)) by {
                crate::graphs::cube::lemma_cube_graph_eq(
                    other.spec_map().spec_domain(),
                    smalldom,
                );
                lemma_map_ok_eqv(&smalldom, &other.cod(), &cod, g);
            }
            lemma_combined_hom(smalldom, dom1, &cod, f, g, dim);
            assert forall|k2: int| 0 <= k2 < g.len() implies cod.edge(
                (#[trigger] g[k2]) as int,
                f[k2] as int,
            ) by {
                cod.wf_facts();
                assert(cod.edge(f[k2] as int, g[k2] as int));
            }
            lemma_combined_hom(smalldom, dom2, &cod, g, f, dim);
            assert(crate::graphs::graph_eqv(&cod, &cod1));
            assert(crate::graphs::graph_eqv(&cod, &cod2));
            lemma_map_ok_eqv(&dom1, &cod, &cod1, f + g);
            lemma_map_ok_eqv(&dom2, &cod, &cod2, g + f);
        }
        let m1 = VertGraphMap::new_unchecked(dom1, cod1, cv1);
        let m2 = VertGraphMap::new_unchecked(dom2, cod2, cv2);
        let sd = self.degeneracies();
        let od = other.degeneracies();
        let mut dg1: Vec<bool> = Vec::new();
        let mut dg2: Vec<bool> = Vec::new();
        let mut i: u32 = 0;
        while i < dim
            invariant
                dim as nat == sd@.len(),
                dim as nat == od@.len(),
                i <= dim,
                dg1@.len() == i as nat,
                dg2@.len() == i as nat,
                forall|t: int| 0 <= t < i ==> (#[trigger] dg1@[t]) == (sd@[t] && od@[t]),
                forall|t: int| 0 <= t < i ==> (#[trigger] dg2@[t]) == (od@[t] && sd@[t]),
            decreases dim - i,
        {
            let sb = sd[i as usize];
            let ob = od[i as usize];
            dg1.push(sb && ob);
            dg2.push(ob && sb);
            i += 1;
        }
        dg1.push(is_same);
        dg2.push(is_same);
        let c1 = CubeMap { map: m1, degenerate_indices: dg1 };
        let c2 = CubeMap { map: m2, degenerate_indices: dg2 };
        proof {
            let f = self.verts();
            let g = other.verts();
            let dim1 = (dim + 1) as u32;
            assert(c1.deg() =~= zip_and(self.deg(), other.deg()).push(is_same));
            assert(c2.deg() =~= zip_and(other.deg(), self.deg()).push(is_same));
            assert(c1.verts() == f + g);
            assert(c2.verts() == g + f);
            assert(c1.cdim() == dim1);
            assert((1u32 << dim1) == (1u32 << dim) + (1u32 << dim)) by (bit_vector)
                requires
                    dim < 31u32,
                    dim1 == dim + 1,
            ;
            lemma_face_top(f, g, dim);
            lemma_face_top(g, f, dim);
            assert forall|t: int| 0 <= t < dim1 implies ((#[trigger] c1.deg()[t]) <==> face_seq(
                c1.verts(),
                dim1,
                t as u32,
                false,
            ) == face_seq(c1.verts(), dim1, t as u32, true)) by {
                if t < dim {
                    lemma_face_split(f, g, dim, t as u32, false);
                    lemma_face_split(f, g, dim, t as u32, true);
                    lemma_concat_eq(
                        face_seq(f, dim, t as u32, false),
                        face_seq(g, dim, t as u32, false),
                        face_seq(f, dim, t as u32, true),
                        face_seq(g, dim, t as u32, true),
                    );
                    assert(self.deg()[t] <==> face_seq(f, dim, t as u32, false) == face_seq(
                        f,
                        dim,
                        t as u32,
                        true,
                    ));
                    assert(other.deg()[t] <==> face_seq(g, dim, t as u32, false) == face_seq(
                        g,
                        dim,
                        t as u32,
                        true,
                    ));
                    assert(c1.deg()[t] == (self.deg()[t] && other.deg()[t]));
                } else {
                    assert(t == dim);
                    assert(c1.deg()[t] == is_same);
                }
            }
            assert forall|t: int| 0 <= t < dim1 implies ((#[trigger] c2.deg()[t]) <==> face_seq(
                c2.verts(),
                dim1,
                t as u32,
                false,
            ) == face_seq(c2.verts(), dim1, t as u32, true)) by {
                if t < dim {
                    lemma_face_split(g, f, dim, t as u32, false);
                    lemma_face_split(g, f, dim, t as u32, true);
                    lemma_concat_eq(
                        face_seq(g, dim, t as u32, false),
                        face_seq(f, dim, t as u32, false),
                        face_seq(g, dim, t as u32, true),
                        face_seq(f, dim, t as u32, true),
                    );
                    assert(self.deg()[t] <==> face_seq(f, dim, t as u32, false) == face_seq(
                        f,
                        dim,
                        t as u32,
                        true,
                    ));
                    assert(other.deg()[t] <==> face_seq(g, dim, t as u32, false) == face_seq(
                        g,
                        dim,
                        t as u32,
                        true,
                    ));
                    assert(c2.deg()[t] == (other.deg()[t] && self.deg()[t]));
                } else {
                    assert(t == dim);
                    assert(c2.deg()[t] == is_same);
                }
            }
            assert(c1.wf());
            assert(c2.wf());
        }
        Ok((c1, c2))
    }
}

/// The candidate value met at step `e` of a scan that starts at `seed`
/// (taken modulo the cycle length) and steps by one, wrapping around.
pub open spec fn cycle_val(seed: u64, num: u64, e: int) -> nat
    recommends
        num >= 1,
{
    ((((seed as int) % (num as int)) + e) % (num as int)) as nat
}

/// From the seed, scan forward for the first candidate assignment that
/// validates; fails with an exhaustion signal after the full cycle of
/// `target_n ^ source_n` candidates has been tried.
pub fn get_valid_graph_map<U: UGraph, V: UGraph>(source: &U, target: &V, seed: u64) -> (r: Result<
    VertGraphMap<U, V>,
    crate::graph_maps::GraphMapError,
>)
    requires
        source.wf(),
        target.wf(),
        target.gn() >= 1,
        vstd::arithmetic::power::pow(target.gn() as int, source.gn()) <= u64::MAX as int,
    ensures
        ({
            let num = crate::graph_maps::permutation_generator::pw(target.gn(), source.gn());
            let base = target.gn();
            let len = source.gn();
            &&& (r is Ok <==> exists|e: int|
                0 <= e < num && crate::graph_maps::candidate_ok(
                    source,
                    target,
                    #[trigger] crate::graph_maps::permutation_generator::digits_of(
                        cycle_val(seed, num as u64, e),
                        base,
                        len,
                    ),
                ))
            &&& match r {
                Ok(m) => {
                    &&& m.wf()
                    &&& crate::graphs::graph_eqv(&m.spec_domain(), source)
                    &&& crate::graphs::graph_eqv(&m.spec_codomain(), target)
                    &&& exists|e: int|
                        0 <= e < num && m.verts()
                            == crate::graph_maps::permutation_generator::digits_of(
                            cycle_val(seed, num as u64, e),
                            base,
                            len,
                        ) && crate::graph_maps::candidate_ok(
                            source,
                            target,
                            #[trigger] crate::graph_maps::permutation_generator::digits_of(
                                cycle_val(seed, num as u64, e),
                                base,
                                len,
                            ),
                        ) && (forall|e2: int|
                            0 <= e2 < e ==> !crate::graph_maps::candidate_ok(
                                source,
                                target,
                                #[trigger] crate::graph_maps::permutation_generator::digits_of(
                                    cycle_val(seed, num as u64, e2),
                                    base,
                                    len,
                                ),
                            ))
                },
                Err(err) => err is Exhausted,
            }
        }),
{
    proof {
        source.wf_facts();
        target.wf_facts();
        vstd::arithmetic::power::lemma_pow_positive(target.gn() as int, source.gn());
    }
    let dn = source.n();
    let cn = target.n();
    proof {
        assert(vstd::arithmetic::power::pow(cn as int, dn as nat)
            == vstd::arithmetic::power::pow(target.gn() as int, source.gn()));
    }
    let mut generator = crate::graph_maps::permutation_generator::PermutationGenerator::new(
        dn,
        cn,
        seed,
    );
    let ghost num = generator.spec_num();
    loop
        invariant_except_break
            source.wf(),
            target.wf(),
            dn as nat == source.gn(),
            cn as nat == target.gn(),
            target.gn() >= 1,
            generator.wf(),
            generator.spec_codomain() == cn,
            generator.spec_domain() == dn,
            generator.spec_num() == num,
            num as nat == crate::graph_maps::permutation_generator::pw(
                target.gn(),
                source.gn(),
            ),
            num >= 1,
            generator.spec_seed() as int == (seed as int) % (num as int),
            forall|e2: int|
                0 <= e2 < generator.emitted() ==> !crate::graph_maps::candidate_ok(
                    source,
                    target,
                    #[trigger] crate::graph_maps::permutation_generator::digits_of(
                        cycle_val(seed, num, e2),
                        target.gn(),
                        source.gn(),
                    ),
                ),
        ensures
            forall|e2: int|
                0 <= e2 < num ==> !crate::graph_maps::candidate_ok(
                    source,
                    target,
                    #[trigger] crate::graph_maps::permutation_generator::digits_of(
                        cycle_val(seed, num, e2),
                        target.gn(),
                        source.gn(),
                    ),
                ),
        decreases num as int - generator.emitted() as int,
    {
        let ghost e = generator.emitted();
        let it_opt = generator.next();
        match it_opt {
            Option::None => {
                proof {
                    assert(e >= num);
                }
                break ;
            },
            Option::Some(mut it) => {
                proof {
                    assert(it.spec_original() as nat == cycle_val(seed, num, e as int));
                }
                let digits = crate::graph_maps::expand_digits(&mut it, dn);
                let ghost ds = digits@;
                match crate::graph_maps::check_map(source, target, digits.as_slice()) {
                    crate::graph_maps::MapCheck::Valid => {
                        let dd = source.duplicate();
                        let cd = target.duplicate();
                        proof {
                            crate::graph_maps::lemma_map_ok_eqv2(source, &dd, target, &cd, ds);
                            let numn = crate::graph_maps::permutation_generator::pw(
                                target.gn(),
                                source.gn(),
                            );
                            assert(numn as u64 == num);
                            assert(crate::graph_maps::candidate_ok(source, target, ds));
                            assert(ds
                                == crate::graph_maps::permutation_generator::digits_of(
                                cycle_val(seed, num, e as int),
                                target.gn(),
                                source.gn(),
                            ));
                            assert(0 <= e < numn);
                            assert(crate::graph_maps::candidate_ok(
                                source,
                                target,
                                crate::graph_maps::permutation_generator::digits_of(
                                    cycle_val(seed, numn as u64, e as int),
                                    target.gn(),
                                    source.gn(),
                                ),
                            ));
                        }
                        return Ok(crate::graph_maps::VertGraphMap::new_unchecked(dd, cd, digits));
                    },
                    crate::graph_maps::MapCheck::WrongLen => {
                        proof {
                            assert(false);
                        }
                    },
                    crate::graph_maps::MapCheck::OutOfRange { i } => {
                        proof {
                            assert(!crate::graph_maps::vertex_ok(source, target, ds, i as int));
                        }
                    },
                    crate::graph_maps::MapCheck::BadPair { i, j, mi, mj } => {
                        proof {
                            assert(!crate::graph_maps::vertex_ok(source, target, ds, i as int))
                                by {
                                if crate::graph_maps::vertex_ok(source, target, ds, i as int) {
                                    assert(source.edge(j as int, i as int));
                                    assert(target.edge(ds[j as int] as int, ds[i as int] as int));
                                }
                            }
                        }
                    },
                }
                proof {
                    assert(!crate::graph_maps::candidate_ok(source, target, ds));
                    assert forall|e2: int|
                        0 <= e2 < e + 1 implies !crate::graph_maps::candidate_ok(
                        source,
                        target,
                        #[trigger] crate::graph_maps::permutation_generator::digits_of(
                            cycle_val(seed, num, e2),
                            target.gn(),
                            source.gn(),
                        ),
                    ) by {
                        if e2 == e {
                            assert(crate::graph_maps::permutation_generator::digits_of(
                                cycle_val(seed, num, e2),
                                target.gn(),
                                source.gn(),
                            ) == ds);
                        }
                    }
                }
            },
        }
    }
    Err(crate::graph_maps::GraphMapError::Exhausted)
}

/// The assignment of the combination of `a` and `b`.
pub open spec fn comb_verts<V: UGraph>(a: CubeMap<V>, b: CubeMap<V>) -> Seq<u32> {
    a.verts() + b.verts()
}

/// The degeneracy vector of the combination of `a` and `b`.
pub open spec fn comb_deg<V: UGraph>(a: CubeMap<V>, b: CubeMap<V>) -> Seq<bool> {
    zip_and(a.deg(), b.deg()).push(a.verts() == b.verts())
}

/// The assignment and degeneracy vector of one cube map.
pub open spec fn cm_view<V: UGraph>(m: CubeMap<V>) -> (Seq<u32>, Seq<bool>) {
    (m.verts(), m.deg())
}

/// What one ordered pair `(i, j)`, `i < j`, contributes to the combined
/// output: both orderings when the pair combines, nothing otherwise.
pub open spec fn row_out<V: UGraph>(ms: Seq<CubeMap<V>>, i: int, j: int) -> Seq<
    (Seq<u32>, Seq<bool>),
>
    decreases ms.len() - j,
{
    if j < 0 || j >= ms.len() || i < 0 || i >= ms.len() {
        Seq::empty()
    } else {
        (if pair_compatible(&ms[i], &ms[j]) {
            seq![
                (comb_verts(ms[i], ms[j]), comb_deg(ms[i], ms[j])),
                (comb_verts(ms[j], ms[i]), comb_deg(ms[j], ms[i])),
            ]
        } else {
            Seq::empty()
        }) + row_out(ms, i, j + 1)
    }
}

/// The whole combined output from map `i` on: the self-combination of each
/// map once, then both orderings of every compatible later pair.
pub open spec fn all_out<V: UGraph>(ms: Seq<CubeMap<V>>, i: int) -> Seq<(Seq<u32>, Seq<bool>)>
    decreases ms.len() - i,
{
    if i < 0 || i >= ms.len() {
        Seq::empty()
    } else {
        seq![(comb_verts(ms[i], ms[i]), comb_deg(ms[i], ms[i]))] + row_out(ms, i, i + 1) + all_out(
            ms,
            i + 1,
        )
    }
}

/// The views of a sequence of cube maps.
pub open spec fn out_view<V: UGraph>(s: Seq<CubeMap<V>>) -> Seq<(Seq<u32>, Seq<bool>)> {
    Seq::new(s.len(), |t: int| cm_view(s[t]))
}

/// Build all valid (n+1)-cube homomorphisms from a list of n-cube
/// homomorphisms into one codomain: every unordered pair is tried, each
/// self-pair (which always combines) contributes its combination once, and
/// each compatible distinct pair contributes both orderings.
pub fn combined_cube_maps<V: UGraph>(maps: &Vec<CubeMap<V>>) -> (r: Vec<CubeMap<V>>)
    requires
        forall|k: int| 0 <= k < maps@.len() ==> (#[trigger] maps@[k]).wf(),
        forall|k: int| 0 <= k < maps@.len() ==> (#[trigger] maps@[k]).cdim() < 31,
        forall|k1: int, k2: int|
            0 <= k1 < maps@.len() && 0 <= k2 < maps@.len() ==> (#[trigger] maps@[k1].cdim())
                == (#[trigger] maps@[k2].cdim()),
        forall|k1: int, k2: int|
            0 <= k1 < maps@.len() && 0 <= k2 < maps@.len() ==> crate::graphs::graph_eqv(
                &(#[trigger] maps@[k1]).cod(),
                &(#[trigger] maps@[k2]).cod(),
            ),
    ensures
        out_view(r@) == all_out(maps@, 0),
        forall|t: int| 0 <= t < r@.len() ==> (#[trigger] r@[t]).wf(),
        forall|t: int|
            0 <= t < r@.len() && maps@.len() > 0 ==> (#[trigger] r@[t]).cdim() == maps@[0].cdim()
                + 1 && crate::graphs::graph_eqv(&r@[t].cod(), &maps@[0].cod()),
{
    let len = maps.len();
    let mut combined_maps: Vec<CubeMap<V>> = Vec::new();
    let mut i: usize = 0;
    while i < len
        invariant
            len == maps@.len(),
            i <= len,
            forall|k: int| 0 <= k < maps@.len() ==> (#[trigger] maps@[k]).wf(),
            forall|k: int| 0 <= k < maps@.len() ==> (#[trigger] maps@[k]).cdim() < 31,
            forall|k1: int, k2: int|
                0 <= k1 < maps@.len() && 0 <= k2 < maps@.len() ==> (#[trigger] maps@[k1].cdim())
                    == (#[trigger] maps@[k2].cdim()),
            forall|k1: int, k2: int|
                0 <= k1 < maps@.len() && 0 <= k2 < maps@.len() ==> crate::graphs::graph_eqv(
                    &(#[trigger] maps@[k1]).cod(),
                    &(#[trigger] maps@[k2]).cod(),
                ),
            out_view(combined_maps@) + all_out(maps@, i as int) == all_out(maps@, 0),
            forall|t: int| 0 <= t < combined_maps@.len() ==> (#[trigger] combined_maps@[t]).wf(),
            forall|t: int|
                0 <= t < combined_maps@.len() && maps@.len() > 0 ==> (
                #[trigger] combined_maps@[t]).cdim() == maps@[0].cdim() + 1
                    && crate::graphs::graph_eqv(&combined_maps@[t].cod(), &maps@[0].cod()),
        decreases len - i,
    {
        proof {
            lemma_self_compatible(&maps@[i as int]);
        }
        let ghost pre = combined_maps@;
        match maps[i].try_combine(&maps[i], true) {
            Ok(pair) => {
                let (c1, _c2) = pair;
                combined_maps.push(c1);
                proof {
                    assert(out_view(combined_maps@) =~= out_view(pre).push(
                        (
                            comb_verts(maps@[i as int], maps@[i as int]),
                            comb_deg(maps@[i as int], maps@[i as int]),
                        ),
                    ));
                }
            },
            Err(_) => {
                proof {
                    assert(false);
                }
            },
        }
        proof {
            assert(all_out(maps@, i as int) == seq![
                (
                    comb_verts(maps@[i as int], maps@[i as int]),
                    comb_deg(maps@[i as int], maps@[i as int]),
                ),
            ] + row_out(maps@, i as int, i as int + 1) + all_out(maps@, i as int + 1));
            assert(out_view(combined_maps@) + row_out(maps@, i as int, i as int + 1) + all_out(
                maps@,
                i as int + 1,
            ) =~= out_view(pre) + all_out(maps@, i as int));
        }
        let mut j: usize = i + 1;
        while j < len
            invariant
                len == maps@.len(),
                i < len,
                i < j <= len,
                forall|k: int| 0 <= k < maps@.len() ==> (#[trigger] maps@[k]).wf(),
                forall|k: int| 0 <= k < maps@.len() ==> (#[trigger] maps@[k]).cdim() < 31,
                forall|k1: int, k2: int|
                    0 <= k1 < maps@.len() && 0 <= k2 < maps@.len() ==> (
                    #[trigger] maps@[k1].cdim()) == (#[trigger] maps@[k2].cdim()),
                forall|k1: int, k2: int|
                    0 <= k1 < maps@.len() && 0 <= k2 < maps@.len() ==> crate::graphs::graph_eqv(
                        &(#[trigger] maps@[k1]).cod(),
                        &(#[trigger] maps@[k2]).cod(),
                    ),
                out_view(combined_maps@) + row_out(maps@, i as int, j as int) + all_out(
                    maps@,
                    i as int + 1,
                ) == all_out(maps@, 0),
                forall|t: int|
                    0 <= t < combined_maps@.len() ==> (#[trigger] combined_maps@[t]).wf(),
                forall|t: int|
                    0 <= t < combined_maps@.len() && maps@.len() > 0 ==> (
                    #[trigger] combined_maps@[t]).cdim() == maps@[0].cdim() + 1
                        && crate::graphs::graph_eqv(&combined_maps@[t].cod(), &maps@[0].cod()),
            decreases len - j,
        {
            let same = vec_u32_eq(maps[i].verts_vec(), maps[j].verts_vec());
            let ghost pre2 = combined_maps@;
            match maps[i].try_combine(&maps[j], same) {
                Ok(pair) => {
                    let (c1, c2) = pair;
                    combined_maps.push(c1);
                    combined_maps.push(c2);
                    proof {
                        assert(pair_compatible(&maps@[i as int], &maps@[j as int]));
                        assert(out_view(combined_maps@) =~= out_view(pre2) + seq![
                            (
                                comb_verts(maps@[i as int], maps@[j as int]),
                                comb_deg(maps@[i as int], maps@[j as int]),
                            ),
                            (
                                comb_verts(maps@[j as int], maps@[i as int]),
                                comb_deg(maps@[j as int], maps@[i as int]),
                            ),
                        ]);
                        assert(out_view(pre2) + row_out(maps@, i as int, j as int) + all_out(
                            maps@,
                            i as int + 1,
                        ) =~= (out_view(pre2) + seq![
                            (
                                comb_verts(maps@[i as int], maps@[j as int]),
                                comb_deg(maps@[i as int], maps@[j as int]),
                            ),
                            (
                                comb_verts(maps@[j as int], maps@[i as int]),
                                comb_deg(maps@[j as int], maps@[i as int]),
                            ),
                        ]) + row_out(maps@, i as int, j as int + 1) + all_out(maps@, i as int + 1));
                    }
                },
                Err(_) => {
                    proof {
                        assert(!pair_compatible(&maps@[i as int], &maps@[j as int]));
                        assert(row_out(maps@, i as int, j as int) == row_out(
                            maps@,
                            i as int,
                            j as int + 1,
                        ));
                    }
                },
            }
            j += 1;
        }
        proof {
            assert(row_out(maps@, i as int, len as int) == Seq::<(Seq<u32>, Seq<bool>)>::empty());
            assert(out_view(combined_maps@) + all_out(maps@, i as int + 1) =~= out_view(
                combined_maps@,
            ) + row_out(maps@, i as int, len as int) + all_out(maps@, i as int + 1));
        }
        i += 1;
    }
    proof {
        assert(all_out(maps@, len as int) == Seq::<(Seq<u32>, Seq<bool>)>::empty());
        assert(out_view(combined_maps@) =~= out_view(combined_maps@) + all_out(
            maps@,
            len as int,
        ));
    }
    combined_maps
}

} // verus!
