use vstd::prelude::*;
use crate::edgeset::EdgeSet;

verus! {

/// Why a triangle mesh is not consistent.
#[derive(Debug, PartialEq, Eq, Clone, Copy)]
pub enum SanityError {
    /// The number of triangle vertex indices is not a multiple of 3.
    IndicesNotTriangles,
    /// The first triangle vertex index (in triangle order, then vertex order) that refers to
    /// no vertex.
    VertexOutOfRange {
        triangle_index: usize,
        nb_triangles: usize,
        local_vertex_index: usize,
        vertex_index: u32,
        nb_vertices: u32,
    },
    /// Some edge refers to no vertex.
    EdgeOutOfRange,
}

/// The number of vertices as a `u32`, wrapping around (the count is taken modulo 2^32).
pub open spec fn nb_vertices_u32(len: nat) -> u32 {
    (len % 0x1_0000_0000) as u32
}

/// The distinct values of `s`, in the order of their first occurrence.
pub open spec fn distinct_in_order(s: Seq<u32>) -> Seq<u32>
    decreases s.len(),
{
    if s.len() == 0 {
        Seq::empty()
    } else {
        let r = distinct_in_order(s.drop_last());
        if r.contains(s.last()) {
            r
        } else {
            r.push(s.last())
        }
    }
}

/// The vertex indices of `edges`, two per edge, in order.
pub open spec fn edge_vertices(edges: Seq<(u32, u32)>) -> Seq<u32> {
    Seq::new(2 * edges.len(), |k: int| if k % 2 == 0 { edges[k / 2].0 } else { edges[k / 2].1 })
}

proof fn lemma_distinct_in_order_push(s: Seq<u32>, x: u32)
    ensures
        distinct_in_order(s.push(x)) == if distinct_in_order(s).contains(x) {
            distinct_in_order(s)
        } else {
            distinct_in_order(s).push(x)
        },
{
    assert(s.push(x).drop_last() =~= s);
}

proof fn lemma_distinct_in_order_props(s: Seq<u32>)
    ensures
        distinct_in_order(s).no_duplicates(),
        forall|v: u32| distinct_in_order(s).contains(v) <==> s.contains(v),
    decreases s.len(),
{
    if s.len() > 0 {
        let t = s.drop_last();
        lemma_distinct_in_order_props(t);
        assert(s =~= t.push(s.last()));
        lemma_distinct_in_order_push(t, s.last());
        let r = distinct_in_order(t);
        assert forall|v: u32| distinct_in_order(s).contains(v) <==> s.contains(v) by {
            if s.contains(v) && v != s.last() {
                let i = choose|i: int| 0 <= i < s.len() && s[i] == v;
                assert(t[i] == v);
            }
            if t.contains(v) {
                let i = choose|i: int| 0 <= i < t.len() && t[i] == v;
                assert(s[i] == v);
            }
            if !r.contains(s.last()) && distinct_in_order(s).contains(v) && v != s.last() {
                let i = choose|i: int| 0 <= i < r.len() + 1 && r.push(s.last())[i] == v;
                assert(r[i] == v);
            }
            if !r.contains(s.last()) && r.contains(v) {
                let i = choose|i: int| 0 <= i < r.len() && r[i] == v;
                assert(r.push(s.last())[i] == v);
            }
            if v == s.last() {
                assert(s[s.len() - 1] == v);
                if !r.contains(v) {
                    assert(r.push(v)[r.len() as int] == v);
                }
            }
        }
    }
}

proof fn lemma_distinct_in_order_prefix(s: Seq<u32>, t: Seq<u32>)
    ensures
        distinct_in_order(s).len() <= distinct_in_order(s + t).len(),
        distinct_in_order(s) =~= distinct_in_order(s + t).subrange(0, distinct_in_order(s).len() as int),
    decreases t.len(),
{
    if t.len() == 0 {
        assert(s + t =~= s);
    } else {
        let t0 = t.drop_last();
        lemma_distinct_in_order_prefix(s, t0);
        assert(s + t =~= (s + t0).push(t.last()));
        lemma_distinct_in_order_push(s + t0, t.last());
    }
}

/// The vertices that `remove_isolated_vertices` keeps, in their new order: those of the
/// triangles in order of first use, then those that only edges use.
pub open spec fn kept_vertices(indices: Seq<u32>, edges: Seq<(u32, u32)>) -> Seq<u32> {
    distinct_in_order(indices + edge_vertices(edges))
}

/// The new index that `remove_isolated_vertices` gives to vertex `v`: its place among the
/// kept vertices.
pub open spec fn kept_index(indices: Seq<u32>, edges: Seq<(u32, u32)>, v: u32) -> u32 {
    kept_vertices(indices, edges).index_of(v) as u32
}

/// `k` is the position of the last occurrence of `v` in `s`.
pub open spec fn is_last_occurrence(s: Seq<u32>, v: u32, k: int) -> bool {
    &&& 0 <= k < s.len()
    &&& s[k] == v
    &&& forall|j: int| k < j < s.len() ==> s[j] != v
}

/// The position of the last occurrence of `v` in `s`.
pub open spec fn last_occurrence(s: Seq<u32>, v: u32) -> int {
    choose|k: int| is_last_occurrence(s, v, k)
}

proof fn lemma_last_occurrence(s: Seq<u32>, v: u32, k: int)
    requires
        is_last_occurrence(s, v, k),
    ensures
        last_occurrence(s, v) == k,
{
    let k2 = last_occurrence(s, v);
    assert(is_last_occurrence(s, v, k2));
    if k2 < k {
        assert(s[k] != v);
    } else if k < k2 {
        assert(s[k2] != v);
    }
}

/// `k` as a `u32`, wrapping around.
pub open spec fn wrap_u32(k: int) -> u32 {
    (k % 0x1_0000_0000) as u32
}

/// The first vertex index of triangle `t` once every triangle has its own 3 vertices.
pub open spec fn triangle_start_u32(t: int) -> u32 {
    wrap_u32(3 * t)
}

/// A triangle mesh with an extra set of edges. Positions and texture coordinates are of any
/// types `Position` and `Uv`.
pub struct TriangleMesh<Position, Uv> {
    /// vertex positions
    pub positions: Vec<Position>,
    /// texture coordinates of the vertices
    pub uv: Vec<Uv>,
    /// triangles, 3 consecutive 0-based vertex indices each
    pub indices: Vec<u32>,
    /// edges, each given by 2 vertex indices
    pub edges: EdgeSet,
}

impl<Position, Uv> TriangleMesh<Position, Uv> {
    pub fn new() -> (mesh: Self)
        ensures
            mesh.positions@.len() == 0,
            mesh.uv@.len() == 0,
            mesh.indices@.len() == 0,
            mesh.edges@.len() == 0,
    {
        TriangleMesh {
            positions: Vec::new(),
            uv: Vec::new(),
            indices: Vec::new(),
            edges: EdgeSet::new(),
        }
    }
}

/// The edges of `edges`, with each vertex index `v` replaced by the value that `table` holds
/// at `v`.
fn remap_edges(edges: &EdgeSet, table: &Vec<Option<u32>>) -> (result: EdgeSet)
    requires
        forall|i: int|
            0 <= i < edges@.len() ==> (#[trigger] edges@[i]).0 < table@.len() && edges@[i].1
                < table@.len() && table@[edges@[i].0 as int] is Some && table@[edges@[i].1 as int] is Some,
    ensures
        result@.no_duplicates(),
        result@.to_set() == edges@.to_set().map(
            |e: (u32, u32)| (table@[e.0 as int].unwrap(), table@[e.1 as int].unwrap()),
        ),
{
    let ghost f = |e: (u32, u32)| (table@[e.0 as int].unwrap(), table@[e.1 as int].unwrap());
    let mut result = EdgeSet::new();
    let nb_edges = edges.len();
    for i in 0..nb_edges
        invariant
            nb_edges == edges@.len(),
            forall|i: int|
                0 <= i < edges@.len() ==> (#[trigger] edges@[i]).0 < table@.len() && edges@[i].1
                    < table@.len() && table@[edges@[i].0 as int] is Some && table@[edges@[i].1 as int]
                    is Some,
            result@.no_duplicates(),
            f == (|e: (u32, u32)| (table@[e.0 as int].unwrap(), table@[e.1 as int].unwrap())),
            result@.to_set() == edges@.subrange(0, i as int).to_set().map(f),
    {
        let e = edges.get(i);
        let a = table[e.0 as usize].unwrap();
        let b = table[e.1 as usize].unwrap();
        let ghost before = result@.to_set();
        result.insert((a, b));
        proof {
            let prev = edges@.subrange(0, i as int);
            let next = edges@.subrange(0, i + 1);
            assert(next =~= prev.push(e));
            assert((a, b) == f(e));
            assert forall|x: (u32, u32)| next.to_set().map(f).contains(x) <==> before.insert(f(e)).contains(x) by {
                if next.to_set().map(f).contains(x) {
                    let y = choose|y: (u32, u32)| next.to_set().contains(y) && f(y) == x;
                    let k = choose|k: int| 0 <= k < next.len() && next[k] == y;
                    if k < prev.len() {
                        assert(prev[k] == y);
                        assert(prev.to_set().contains(y));
                    }
                }
                if before.contains(x) {
                    let y = choose|y: (u32, u32)| prev.to_set().contains(y) && f(y) == x;
                    let k = choose|k: int| 0 <= k < prev.len() && prev[k] == y;
                    assert(next[k] == y);
                    assert(next.to_set().contains(y));
                }
                if x == f(e) {
                    assert(next[i as int] == e);
                    assert(next.to_set().contains(e));
                }
            }
            assert(next.to_set().map(f) =~= before.insert(f(e)));
        }
    }
    assert(edges@.subrange(0, nb_edges as int) =~= edges@);
    result
}

impl<Position: Copy, Uv> TriangleMesh<Position, Uv> {
    /// Checks that the indices form whole triangles and that every triangle vertex index and
    /// every edge vertex index refers to a vertex. The number of vertices is taken as a `u32`.
    pub fn sanity_check(&self) -> (result: Result<(), SanityError>)
        ensures
            ({
                let idx = self.indices@;
                let nb = nb_vertices_u32(self.positions@.len());
                match result {
                    Ok(()) => {
                        &&& idx.len() % 3 == 0
                        &&& forall|k: int| 0 <= k < idx.len() ==> #[trigger] idx[k] < nb
                        &&& forall|i: int|
                            0 <= i < self.edges@.len() ==> (#[trigger] self.edges@[i]).0 < nb
                                && self.edges@[i].1 < nb
                    },
                    Err(SanityError::IndicesNotTriangles) => idx.len() % 3 != 0,
                    Err(
                        SanityError::VertexOutOfRange {
                            triangle_index,
                            nb_triangles,
                            local_vertex_index,
                            vertex_index,
                            nb_vertices,
                        },
                    ) => {
                        let k = 3 * triangle_index + local_vertex_index;
                        &&& idx.len() % 3 == 0
                        &&& nb_triangles == idx.len() / 3
                        &&& nb_vertices == nb
                        &&& local_vertex_index < 3
                        &&& k < idx.len()
                        &&& vertex_index == idx[k]
                        &&& vertex_index >= nb
                        &&& forall|j: int| 0 <= j < k ==> #[trigger] idx[j] < nb
                    },
                    Err(SanityError::EdgeOutOfRange) => {
                        &&& idx.len() % 3 == 0
                        &&& forall|k: int| 0 <= k < idx.len() ==> #[trigger] idx[k] < nb
                        &&& exists|i: int|
                            0 <= i < self.edges@.len() && ((#[trigger] self.edges@[i]).0 >= nb
                                || self.edges@[i].1 >= nb)
                    },
                }
            }),
    {
        if self.indices.len() % 3 != 0 {
            return Err(SanityError::IndicesNotTriangles);
        }
        let nb_indices = self.indices.len();
        let nb_triangles = nb_indices / 3;
        assert(3 * nb_triangles == nb_indices) by (nonlinear_arith)
            requires
                nb_triangles == nb_indices / 3,
                nb_indices % 3 == 0,
        ;
        let nb_vertices = ((self.positions.len() as u64) % 0x1_0000_0000u64) as u32;
        for triangle_index in 0..nb_triangles
            invariant
                nb_triangles == self.indices@.len() / 3,
                3 * nb_triangles == nb_indices,
                nb_indices == self.indices@.len(),
                self.indices@.len() % 3 == 0,
                nb_vertices == nb_vertices_u32(self.positions@.len()),
                forall|j: int| 0 <= j < 3 * triangle_index ==> #[trigger] self.indices@[j] < nb_vertices,
        {
            for local_vertex_index in 0..3usize
                invariant
                    triangle_index < nb_triangles,
                    nb_triangles == self.indices@.len() / 3,
                    3 * nb_triangles == nb_indices,
                nb_indices == self.indices@.len(),
                    self.indices@.len() % 3 == 0,
                    nb_vertices == nb_vertices_u32(self.positions@.len()),
                    forall|j: int|
                        0 <= j < 3 * triangle_index + local_vertex_index ==> #[trigger] self.indices@[j]
                            < nb_vertices,
            {
                assert(triangle_index * 3 + local_vertex_index < self.indices@.len());
                let vertex_index = self.indices[triangle_index * 3 + local_vertex_index];
                if vertex_index >= nb_vertices {
                    return Err(
                        SanityError::VertexOutOfRange {
                            triangle_index,
                            nb_triangles,
                            local_vertex_index,
                            vertex_index,
                            nb_vertices,
                        },
                    );
                }
            }
        }
        let nb_edges = self.edges.len();
        for i in 0..nb_edges
            invariant
                nb_edges == self.edges@.len(),
                self.indices@.len() % 3 == 0,
                nb_vertices == nb_vertices_u32(self.positions@.len()),
                forall|k: int| 0 <= k < self.indices@.len() ==> #[trigger] self.indices@[k] < nb_vertices,
                forall|e: int|
                    0 <= e < i ==> (#[trigger] self.edges@[e]).0 < nb_vertices && self.edges@[e].1
                        < nb_vertices,
        {
            let edge = self.edges.get(i);
            if edge.0 >= nb_vertices || edge.1 >= nb_vertices {
                assert(self.edges@[i as int].0 >= nb_vertices || self.edges@[i as int].1 >= nb_vertices);
                return Err(SanityError::EdgeOutOfRange);
            }
        }
        Ok(())
    }

    /// The vertex positions, and the edges as a flat list of vertex indices, 2 per edge.
    pub fn create_wireframe_mesh(&self) -> (result: (Vec<Position>, Vec<u32>))
        ensures
            result.0@ == self.positions@,
            result.1@.len() == 2 * self.edges@.len(),
            forall|i: int|
                0 <= i < self.edges@.len() ==> result.1@[2 * i] == (#[trigger] self.edges@[i]).0
                    && result.1@[2 * i + 1] == self.edges@[i].1,
    {
        let mut positions: Vec<Position> = Vec::new();
        for i in 0..self.positions.len()
            invariant
                positions@ == self.positions@.subrange(0, i as int),
        {
            positions.push(self.positions[i]);
            assert(positions@ =~= self.positions@.subrange(0, i + 1));
        }
        assert(positions@ =~= self.positions@);
        let nb_edges = self.edges.len();
        let mut indices: Vec<u32> = Vec::new();
        for i in 0..nb_edges
            invariant
                nb_edges == self.edges@.len(),
                indices@.len() == 2 * i,
                forall|e: int|
                    0 <= e < i ==> indices@[2 * e] == (#[trigger] self.edges@[e]).0 && indices@[2 * e
                        + 1] == self.edges@[e].1,
        {
            let edge = self.edges.get(i);
            let ghost before = indices@;
            indices.push(edge.0);
            indices.push(edge.1);
            assert forall|e: int|
                0 <= e < i + 1 implies indices@[2 * e] == (#[trigger] self.edges@[e]).0 && indices@[2
                * e + 1] == self.edges@[e].1 by {
                if e < i {
                    assert(indices@[2 * e] == before[2 * e]);
                    assert(indices@[2 * e + 1] == before[2 * e + 1]);
                }
            }
        }
        (positions, indices)
    }
}

/// The renumbering state of `remove_isolated_vertices`: `order` lists the vertices met so far,
/// `table` maps each of them to its new index, `new_positions` holds their positions.
spec fn renumbering_inv<Position>(
    order: Seq<u32>,
    table: Seq<Option<u32>>,
    new_positions: Seq<Position>,
    positions: Seq<Position>,
) -> bool {
    &&& table.len() == positions.len()
    &&& forall|v: u32| (v as int) < table.len() ==> (#[trigger] table[v as int] is None <==> !order.contains(v))
    &&& forall|i: int|
        0 <= i < order.len() ==> (#[trigger] order[i] as int) < table.len() && table[order[i] as int]
            == Some(i as u32)
    &&& new_positions =~= order.map_values(|v: u32| positions[v as int])
}

/// Gives vertex `v` a new index if it has none yet: the number of vertices met before it.
fn renumber_vertex<Position: Copy>(
    v: u32,
    old_to_new: &mut Vec<Option<u32>>,
    new_vertices: &mut Vec<Position>,
    positions: &Vec<Position>,
    Ghost(order): Ghost<Seq<u32>>,
)
    requires
        renumbering_inv(order, old(old_to_new)@, old(new_vertices)@, positions@),
        (v as int) < positions@.len(),
        order.contains(v) || order.len() + 1 <= u32::MAX,
    ensures
        renumbering_inv(
            if order.contains(v) {
                order
            } else {
                order.push(v)
            },
            final(old_to_new)@,
            final(new_vertices)@,
            positions@,
        ),
{
    if old_to_new[v as usize].is_none() {
        // this vertex is used, it must be kept
        let index_of_new_vertex = new_vertices.len() as u32;
        new_vertices.push(positions[v as usize]);
        old_to_new[v as usize] = Some(index_of_new_vertex);
        proof {
            let new_order = order.push(v);
            assert(new_order.contains(v)) by {
                assert(new_order[order.len() as int] == v);
            }
            assert forall|w: u32| (w as int) < old_to_new@.len() implies (
            #[trigger] old_to_new@[w as int] is None <==> !new_order.contains(w)) by {
                if w != v && new_order.contains(w) {
                    let i = choose|i: int| 0 <= i < new_order.len() && new_order[i] == w;
                    assert(order[i] == w);
                }
                if order.contains(w) {
                    let i = choose|i: int| 0 <= i < order.len() && order[i] == w;
                    assert(new_order[i] == w);
                }
            }
        }
    }
}

/// Gives the kept vertices their new indices (see `kept_index`): the result maps each kept
/// vertex to its new index, and holds the positions of the kept vertices in their new order.
fn renumber_kept_vertices<Position: Copy>(
    indices: &Vec<u32>,
    edges: &EdgeSet,
    positions: &Vec<Position>,
) -> (result: (Vec<Option<u32>>, Vec<Position>))
    requires
        forall|k: int| 0 <= k < indices@.len() ==> #[trigger] indices@[k] < positions@.len(),
        forall|i: int|
            0 <= i < edges@.len() ==> (indices@.contains((#[trigger] edges@[i]).0) || edges@[i].0
                < positions@.len()) && (indices@.contains(edges@[i].1) || edges@[i].1
                < positions@.len()),
        kept_vertices(indices@, edges@).len() <= u32::MAX,
    ensures
        result.1@ == kept_vertices(indices@, edges@).map_values(|v: u32| positions@[v as int]),
        forall|v: u32| #[trigger]
            kept_vertices(indices@, edges@).contains(v) ==> (v as int) < result.0@.len()
                && result.0@[v as int] == Some(kept_index(indices@, edges@, v)),
{
        let ghost old_indices = indices@;
        let ghost old_positions = positions@;
        let ghost old_edges = edges@;
        let ghost ev = edge_vertices(old_edges);
        let ghost kept = kept_vertices(old_indices, old_edges);
        let ghost tri = distinct_in_order(old_indices);
        proof {
            lemma_distinct_in_order_prefix(old_indices, ev);
            lemma_distinct_in_order_props(old_indices + ev);
        }
        let nb_positions = positions.len();
        let mut old_to_new: Vec<Option<u32>> = Vec::new();
        for v in 0..nb_positions
            invariant
                old_to_new@.len() == v,
                forall|w: int| 0 <= w < v ==> #[trigger] old_to_new@[w] is None,
        {
            old_to_new.push(None);
        }
        let mut new_vertices: Vec<Position> = Vec::new();
        assert(old_indices.subrange(0, 0) =~= Seq::<u32>::empty());
        let nb_indices = indices.len();
        for k in 0..nb_indices
            invariant
                nb_indices == old_indices.len(),
                indices@ == old_indices,
                positions@ == old_positions,
                nb_positions == old_positions.len(),
                forall|j: int| 0 <= j < nb_indices ==> #[trigger] old_indices[j] < nb_positions,
                tri == distinct_in_order(old_indices),
                tri.len() <= u32::MAX,
                renumbering_inv(
                    distinct_in_order(old_indices.subrange(0, k as int)),
                    old_to_new@,
                    new_vertices@,
                    old_positions,
                ),
        {
            let ghost order = distinct_in_order(old_indices.subrange(0, k as int));
            proof {
                assert(old_indices.subrange(0, k + 1) =~= old_indices.subrange(0, k as int).push(
                    old_indices[k as int],
                ));
                lemma_distinct_in_order_push(old_indices.subrange(0, k as int), old_indices[k as int]);
                lemma_distinct_in_order_prefix(
                    old_indices.subrange(0, k + 1),
                    old_indices.subrange(k + 1, nb_indices as int),
                );
                assert(old_indices.subrange(0, k + 1) + old_indices.subrange(k + 1, nb_indices as int)
                    =~= old_indices);
            }
            let v = indices[k];
            renumber_vertex(v, &mut old_to_new, &mut new_vertices, positions, Ghost(order));
        }
        // also go through the edges, in case some vertices are only used by edges
        assert(old_indices.subrange(0, nb_indices as int) =~= old_indices + ev.subrange(0, 0));
        let nb_edges = edges.len();
        for i in 0..nb_edges
            invariant
                nb_edges == old_edges.len(),
                ev == edge_vertices(old_edges),
                indices@ == old_indices,
                positions@ == old_positions,
                edges@ == old_edges,
                nb_positions == old_positions.len(),
                forall|j: int| 0 <= j < old_indices.len() ==> #[trigger] old_indices[j] < nb_positions,
                forall|i: int|
                    0 <= i < old_edges.len() ==> (old_indices.contains((#[trigger] old_edges[i]).0)
                        || old_edges[i].0 < old_positions.len()) && (old_indices.contains(
                        old_edges[i].1,
                    ) || old_edges[i].1 < old_positions.len()),
                tri == distinct_in_order(old_indices),
                kept == distinct_in_order(old_indices + ev),
                kept.len() <= u32::MAX,
                renumbering_inv(
                    distinct_in_order(old_indices + ev.subrange(0, 2 * i)),
                    old_to_new@,
                    new_vertices@,
                    old_positions,
                ),
        {
            let e = edges.get(i);
            let ghost seen0 = old_indices + ev.subrange(0, 2 * i);
            let ghost seen1 = old_indices + ev.subrange(0, 2 * i + 1);
            let ghost seen2 = old_indices + ev.subrange(0, 2 * i + 2);
            proof {
                assert(ev[2 * i] == e.0);
                assert(ev[2 * i + 1] == e.1);
                assert(seen1 =~= seen0.push(e.0));
                assert(seen2 =~= seen1.push(e.1));
                lemma_distinct_in_order_push(seen0, e.0);
                lemma_distinct_in_order_push(seen1, e.1);
                lemma_distinct_in_order_prefix(old_indices, ev.subrange(0, 2 * i));
                lemma_distinct_in_order_prefix(seen1, ev.subrange(2 * i + 1, ev.len() as int));
                assert(seen1 + ev.subrange(2 * i + 1, ev.len() as int) =~= old_indices + ev);
                lemma_distinct_in_order_prefix(seen2, ev.subrange(2 * i + 2, ev.len() as int));
                assert(seen2 + ev.subrange(2 * i + 2, ev.len() as int) =~= old_indices + ev);
                if old_indices.contains(e.0) {
                    let j = choose|j: int| 0 <= j < old_indices.len() && old_indices[j] == e.0;
                    assert(old_indices[j] < nb_positions);
                }
                if old_indices.contains(e.1) {
                    let j = choose|j: int| 0 <= j < old_indices.len() && old_indices[j] == e.1;
                    assert(old_indices[j] < nb_positions);
                }
            }
            renumber_vertex(
                e.0,
                &mut old_to_new,
                &mut new_vertices,
                &positions,
                Ghost(distinct_in_order(seen0)),
            );
            renumber_vertex(
                e.1,
                &mut old_to_new,
                &mut new_vertices,
                &positions,
                Ghost(distinct_in_order(seen1)),
            );
        }
        assert(ev.subrange(0, 2 * nb_edges as int) =~= ev);
        assert(renumbering_inv(kept, old_to_new@, new_vertices@, old_positions));
        // every kept vertex is mapped to its new index
        assert forall|v: u32| #[trigger] kept.contains(v) implies (v as int) < old_to_new@.len()
            && old_to_new@[v as int] == Some(kept_index(old_indices, old_edges, v)) by {
            let i = kept.index_of(v);
            assert(kept[i] == v);
            assert(kept.no_duplicates());
        }
        (old_to_new, new_vertices)
}

impl<Position: Copy, Uv: Copy> TriangleMesh<Position, Uv> {
    /// Keeps only the vertices that triangles or edges use, renumbered in order of first use
    /// (triangle vertices first, then edge vertices), and gives every kept vertex the texture
    /// coordinates `uv_fill`. Each kept vertex is referred to by its place among the kept
    /// vertices.
    pub fn remove_isolated_vertices(&mut self, uv_fill: Uv)
        requires
            old(self).positions@.len() > 0,
            old(self).indices@.len() > 0,
            old(self).indices@.len() % 3 == 0,
            forall|k: int|
                0 <= k < old(self).indices@.len() ==> #[trigger] old(self).indices@[k] < old(
                    self,
                ).positions@.len(),
            forall|i: int|
                0 <= i < old(self).edges@.len() ==> (old(self).indices@.contains(
                    (#[trigger] old(self).edges@[i]).0,
                ) || old(self).edges@[i].0 < old(self).positions@.len()) && (old(
                    self,
                ).indices@.contains(old(self).edges@[i].1) || old(self).edges@[i].1 < old(
                    self,
                ).positions@.len()),
            kept_vertices(old(self).indices@, old(self).edges@).len() <= u32::MAX,
        ensures
            final(self).positions@ == kept_vertices(old(self).indices@, old(self).edges@).map_values(
                |v: u32| old(self).positions@[v as int],
            ),
            final(self).uv@ == Seq::new(
                kept_vertices(old(self).indices@, old(self).edges@).len(),
                |i: int| uv_fill,
            ),
            final(self).indices@ == old(self).indices@.map_values(
                |v: u32| kept_index(old(self).indices@, old(self).edges@, v),
            ),
            final(self).edges@.no_duplicates(),
            final(self).edges@.to_set() == old(self).edges@.to_set().map(
                |e: (u32, u32)|
                    (
                        kept_index(old(self).indices@, old(self).edges@, e.0),
                        kept_index(old(self).indices@, old(self).edges@, e.1),
                    ),
            ),
    {
        let ghost old_indices = self.indices@;
        let ghost old_positions = self.positions@;
        let ghost old_edges = self.edges@;
        let ghost ev = edge_vertices(old_edges);
        let ghost kept = kept_vertices(old_indices, old_edges);
        let (old_to_new, new_vertices) = renumber_kept_vertices(
            &self.indices,
            &self.edges,
            &self.positions,
        );
        let ghost new_positions = kept.map_values(|v: u32| old_positions[v as int]);
        let nb_indices = self.indices.len();
        // update vertex definitions = positions
        self.positions = new_vertices;
        let mut uv: Vec<Uv> = Vec::new();
        for i in 0..self.positions.len()
            invariant
                uv@ =~= Seq::new(i as nat, |i: int| uv_fill),
                self.positions@ == new_positions,
                self.indices@ == old_indices,
                self.edges@ == old_edges,
        {
            uv.push(uv_fill);
        }
        self.uv = uv;
        // update triangle definitions = vertex indices
        for k in 0..nb_indices
            invariant
                nb_indices == old_indices.len(),
                self.indices@.len() == nb_indices,
                forall|j: int| k <= j < nb_indices ==> #[trigger] self.indices@[j] == old_indices[j],
                forall|j: int|
                    0 <= j < k ==> #[trigger] self.indices@[j] == kept_index(
                        old_indices,
                        old_edges,
                        old_indices[j],
                    ),
                forall|v: u32| #[trigger]
                    kept.contains(v) ==> (v as int) < old_to_new@.len() && old_to_new@[v as int]
                        == Some(kept_index(old_indices, old_edges, v)),
                kept == distinct_in_order(old_indices + ev),
                self.positions@ == new_positions,
                self.uv@ == Seq::new(kept.len(), |i: int| uv_fill),
                self.edges@ == old_edges,
        {
            let vertex_index = self.indices[k];
            proof {
                lemma_distinct_in_order_props(old_indices + ev);
                assert((old_indices + ev)[k as int] == vertex_index);
                assert((old_indices + ev).contains(vertex_index));
                assert(kept.contains(vertex_index));
            }
            self.indices[k] = old_to_new[vertex_index as usize].unwrap();
        }
        assert(self.indices@ =~= old_indices.map_values(|v: u32| kept_index(old_indices, old_edges, v)));
        // update edge definitions = vertex indices
        proof {
            lemma_distinct_in_order_props(old_indices + ev);
            assert forall|i: int| 0 <= i < old_edges.len() implies (#[trigger] old_edges[i]).0
                < old_to_new@.len() && old_edges[i].1 < old_to_new@.len() && old_to_new@[old_edges[i].0 as int] is Some
                && old_to_new@[old_edges[i].1 as int] is Some by {
                assert((old_indices + ev)[old_indices.len() + 2 * i] == old_edges[i].0);
                assert((old_indices + ev)[old_indices.len() + 2 * i + 1] == old_edges[i].1);
                assert((old_indices + ev).contains(old_edges[i].0));
                assert((old_indices + ev).contains(old_edges[i].1));
                assert(kept.contains(old_edges[i].0));
                assert(kept.contains(old_edges[i].1));
            }
        }
        self.edges = remap_edges(&self.edges, &old_to_new);
        proof {
            let f1 = |e: (u32, u32)| (old_to_new@[e.0 as int].unwrap(), old_to_new@[e.1 as int].unwrap());
            let f2 = |e: (u32, u32)|
                (kept_index(old_indices, old_edges, e.0), kept_index(old_indices, old_edges, e.1));
            assert forall|x: (u32, u32)| old_edges.to_set().map(f1).contains(x) <==> old_edges.to_set().map(f2).contains(x) by {
                if old_edges.to_set().map(f1).contains(x) {
                    let y = choose|y: (u32, u32)| old_edges.to_set().contains(y) && f1(y) == x;
                    let i = choose|i: int| 0 <= i < old_edges.len() && old_edges[i] == y;
                    assert((old_indices + ev)[old_indices.len() + 2 * i] == old_edges[i].0);
                    assert((old_indices + ev)[old_indices.len() + 2 * i + 1] == old_edges[i].1);
                    assert((old_indices + ev).contains(old_edges[i].0));
                    assert((old_indices + ev).contains(old_edges[i].1));
                    assert(kept.contains(old_edges[i].0));
                    assert(kept.contains(old_edges[i].1));
                    assert(f2(y) == x);
                }
                if old_edges.to_set().map(f2).contains(x) {
                    let y = choose|y: (u32, u32)| old_edges.to_set().contains(y) && f2(y) == x;
                    let i = choose|i: int| 0 <= i < old_edges.len() && old_edges[i] == y;
                    assert((old_indices + ev)[old_indices.len() + 2 * i] == old_edges[i].0);
                    assert((old_indices + ev)[old_indices.len() + 2 * i + 1] == old_edges[i].1);
                    assert((old_indices + ev).contains(old_edges[i].0));
                    assert((old_indices + ev).contains(old_edges[i].1));
                    assert(kept.contains(old_edges[i].0));
                    assert(kept.contains(old_edges[i].1));
                    assert(f1(y) == x);
                }
            }
            assert(old_edges.to_set().map(f1) =~= old_edges.to_set().map(f2));
        }
    }
}
impl<Position: Copy, Uv: Copy> TriangleMesh<Position, Uv> {
    /// Gives each triangle its own 3 vertices, so that each triangle can have its own texture
    /// coordinates: the 3 vertices of triangle `t` all get `per_triangle_uv[t]`. An edge then
    /// refers to the copy made for the last triangle corner at each of its vertices.
    pub fn duplicate_vertices(&mut self, per_triangle_uv: &Vec<Uv>)
        requires
            old(self).indices@.len() % 3 == 0,
            forall|k: int|
                0 <= k < old(self).indices@.len() ==> #[trigger] old(self).indices@[k] < old(
                    self,
                ).positions@.len(),
            per_triangle_uv@.len() >= old(self).indices@.len() / 3,
            forall|t: int|
                0 <= t < old(self).indices@.len() / 3 ==> #[trigger] triangle_start_u32(t) + 2
                    <= u32::MAX,
            forall|i: int|
                0 <= i < old(self).edges@.len() ==> old(self).indices@.contains(
                    (#[trigger] old(self).edges@[i]).0,
                ) && old(self).indices@.contains(old(self).edges@[i].1),
        ensures
            final(self).positions@ == Seq::new(
                old(self).indices@.len(),
                |k: int| old(self).positions@[old(self).indices@[k] as int],
            ),
            final(self).uv@ == Seq::new(
                old(self).indices@.len(),
                |k: int| per_triangle_uv@[k / 3],
            ),
            final(self).indices@ == Seq::new(old(self).indices@.len(), |k: int| wrap_u32(k)),
            final(self).edges@.no_duplicates(),
            final(self).edges@.to_set() == old(self).edges@.to_set().map(
                |e: (u32, u32)|
                    (
                        wrap_u32(last_occurrence(old(self).indices@, e.0)),
                        wrap_u32(last_occurrence(old(self).indices@, e.1)),
                    ),
            ),
    {
        let ghost old_indices = self.indices@;
        let ghost old_positions = self.positions@;
        let nb_indices = self.indices.len();
        let nb_triangles = nb_indices / 3;
        assert(3 * nb_triangles == nb_indices) by (nonlinear_arith)
            requires
                nb_triangles == nb_indices / 3,
                nb_indices % 3 == 0,
        ;
        let mut new_vertices: Vec<Position> = Vec::new();
        self.uv.clear();
        let nb_positions = self.positions.len();
        let mut old_to_new: Vec<Option<u32>> = Vec::new();
        for v in 0..nb_positions
            invariant
                old_to_new@.len() == v,
                forall|w: int| 0 <= w < v ==> #[trigger] old_to_new@[w] is None,
        {
            old_to_new.push(None);
        }
        let ghost mut last: Seq<int> = Seq::new(nb_positions as nat, |v: int| -1);
        for t in 0..nb_triangles
            invariant
                nb_indices == old_indices.len(),
                3 * nb_triangles == nb_indices,
                self.positions@ == old_positions,
                nb_positions == old_positions.len(),
                forall|k: int| 0 <= k < nb_indices ==> #[trigger] old_indices[k] < nb_positions,
                per_triangle_uv@.len() >= nb_triangles,
                self.edges@ == old(self).edges@,
                forall|t: int| 0 <= t < nb_triangles ==> #[trigger] triangle_start_u32(t) + 2 <= u32::MAX,
                self.indices@.len() == nb_indices,
                forall|k: int| 3 * t <= k < nb_indices ==> #[trigger] self.indices@[k] == old_indices[k],
                forall|k: int| 0 <= k < 3 * t ==> #[trigger] self.indices@[k] == wrap_u32(k),
                new_vertices@ =~= Seq::new((3 * t) as nat, |k: int| old_positions[old_indices[k] as int]),
                self.uv@ =~= Seq::new((3 * t) as nat, |k: int| per_triangle_uv@[k / 3]),
                old_to_new@.len() == nb_positions,
                last.len() == nb_positions,
                forall|v: int|
                    0 <= v < nb_positions ==> #[trigger] old_to_new@[v] == if last[v] < 0 {
                        None
                    } else {
                        Some(wrap_u32(last[v]))
                    },
                forall|v: int|
                    0 <= v < nb_positions && #[trigger] last[v] < 0 ==> forall|j: int|
                        0 <= j < 3 * t ==> old_indices[j] != v,
                forall|v: int|
                    0 <= v < nb_positions && #[trigger] last[v] >= 0 ==> {
                        &&& last[v] < 3 * t
                        &&& old_indices[last[v]] == v
                        &&& forall|j: int| last[v] < j < 3 * t ==> old_indices[j] != v
                    },
        {
            let first = ((new_vertices.len() as u64) % 0x1_0000_0000u64) as u32;
            assert(first == triangle_start_u32(t as int));
            for l in 0..3usize
                invariant
                    t < nb_triangles,
                    first == triangle_start_u32(t as int),
                    first + 2 <= u32::MAX,
                    nb_indices == old_indices.len(),
                    3 * nb_triangles == nb_indices,
                    self.positions@ == old_positions,
                    nb_positions == old_positions.len(),
                    forall|k: int| 0 <= k < nb_indices ==> #[trigger] old_indices[k] < nb_positions,
                    per_triangle_uv@.len() >= nb_triangles,
                    self.edges@ == old(self).edges@,
                    self.indices@.len() == nb_indices,
                    forall|k: int| 3 * t + l <= k < nb_indices ==> #[trigger] self.indices@[k] == old_indices[k],
                    forall|k: int| 0 <= k < 3 * t + l ==> #[trigger] self.indices@[k] == wrap_u32(k),
                    new_vertices@ =~= Seq::new((3 * t + l) as nat, |k: int| old_positions[old_indices[k] as int]),
                    self.uv@ =~= Seq::new((3 * t + l) as nat, |k: int| per_triangle_uv@[k / 3]),
                    old_to_new@.len() == nb_positions,
                    last.len() == nb_positions,
                    forall|v: int|
                        0 <= v < nb_positions ==> #[trigger] old_to_new@[v] == if last[v] < 0 {
                            None
                        } else {
                            Some(wrap_u32(last[v]))
                        },
                    forall|v: int|
                        0 <= v < nb_positions && #[trigger] last[v] < 0 ==> forall|j: int|
                            0 <= j < 3 * t + l ==> old_indices[j] != v,
                    forall|v: int|
                        0 <= v < nb_positions && #[trigger] last[v] >= 0 ==> {
                            &&& last[v] < 3 * t + l
                            &&& old_indices[last[v]] == v
                            &&& forall|j: int| last[v] < j < 3 * t + l ==> old_indices[j] != v
                        },
            {
                let k = t * 3 + l;
                let v = self.indices[k];
                new_vertices.push(self.positions[v as usize]);
                self.uv.push(per_triangle_uv[t]);
                let new_index = first + l as u32;
                assert(new_index == wrap_u32(k as int)) by (nonlinear_arith)
                    requires
                        first == wrap_u32(3 * t),
                        first + 2 <= u32::MAX,
                        l < 3,
                        new_index == first + l,
                        k == 3 * t + l,
                        t >= 0,
                ;
                old_to_new[v as usize] = Some(new_index);
                self.indices[k] = new_index;
                proof {
                    last = last.update(v as int, k as int);
                    assert(k as int / 3 == t);
                }
            }
        }
        self.positions = new_vertices;
        let ghost edges = self.edges@;
        proof {
            assert forall|v: u32| #[trigger] old_indices.contains(v) implies (v as int) < nb_positions
                && old_to_new@[v as int] == Some(wrap_u32(last_occurrence(old_indices, v))) by {
                let j = choose|j: int| 0 <= j < old_indices.len() && old_indices[j] == v;
                assert(old_indices[j] < nb_positions);
                assert(last[v as int] >= 0);
                lemma_last_occurrence(old_indices, v, last[v as int]);
            }
            assert forall|i: int| 0 <= i < edges.len() implies (#[trigger] edges[i]).0 < old_to_new@.len()
                && edges[i].1 < old_to_new@.len() && old_to_new@[edges[i].0 as int] is Some
                && old_to_new@[edges[i].1 as int] is Some by {
                assert(old_indices.contains(edges[i].0));
                assert(old_indices.contains(edges[i].1));
            }
        }
        self.edges = remap_edges(&self.edges, &old_to_new);
        proof {
            let f1 = |e: (u32, u32)| (old_to_new@[e.0 as int].unwrap(), old_to_new@[e.1 as int].unwrap());
            let f2 = |e: (u32, u32)|
                (
                    wrap_u32(last_occurrence(old_indices, e.0)),
                    wrap_u32(last_occurrence(old_indices, e.1)),
                );
            assert forall|x: (u32, u32)| edges.to_set().map(f1).contains(x) <==> edges.to_set().map(f2).contains(x) by {
                if edges.to_set().map(f1).contains(x) {
                    let y = choose|y: (u32, u32)| edges.to_set().contains(y) && f1(y) == x;
                    let i = choose|i: int| 0 <= i < edges.len() && edges[i] == y;
                    assert(old_indices.contains(edges[i].0));
                    assert(old_indices.contains(edges[i].1));
                    assert(f2(y) == x);
                }
                if edges.to_set().map(f2).contains(x) {
                    let y = choose|y: (u32, u32)| edges.to_set().contains(y) && f2(y) == x;
                    let i = choose|i: int| 0 <= i < edges.len() && edges[i] == y;
                    assert(old_indices.contains(edges[i].0));
                    assert(old_indices.contains(edges[i].1));
                    assert(f1(y) == x);
                }
            }
            assert(edges.to_set().map(f1) =~= edges.to_set().map(f2));
        }
    }
}

} // verus!

verus! {

proof fn lemma_distinct_in_order_absorbs(s: Seq<u32>, t: Seq<u32>)
    requires
        forall|j: int| 0 <= j < t.len() ==> s.contains(#[trigger] t[j]),
    ensures
        distinct_in_order(s + t) == distinct_in_order(s),
    decreases t.len(),
{
    if t.len() == 0 {
        assert(s + t =~= s);
    } else {
        let t0 = t.drop_last();
        assert forall|j: int| 0 <= j < t0.len() implies s.contains(#[trigger] t0[j]) by {
            assert(t0[j] == t[j]);
        }
        lemma_distinct_in_order_absorbs(s, t0);
        assert(s + t =~= (s + t0).push(t.last()));
        lemma_distinct_in_order_push(s + t0, t.last());
        lemma_distinct_in_order_props(s);
        assert(s.contains(t[t.len() - 1]));
    }
}

/// `remove_isolated_vertices` keeps the corners of every triangle: the new index of the vertex
/// at any triangle corner refers to a kept vertex, and that vertex is the one it was before (so the
/// new positions give the triangle its former shape).
pub proof fn lemma_kept_triangle_corners(indices: Seq<u32>, edges: Seq<(u32, u32)>, k: int)
    requires
        0 <= k < indices.len(),
        kept_vertices(indices, edges).len() <= u32::MAX,
    ensures
        (kept_index(indices, edges, indices[k]) as int) < kept_vertices(indices, edges).len(),
        kept_vertices(indices, edges)[kept_index(indices, edges, indices[k]) as int] == indices[k],
{
    let ev = edge_vertices(edges);
    let kept = kept_vertices(indices, edges);
    let tri = distinct_in_order(indices);
    let v = indices[k];
    lemma_distinct_in_order_prefix(indices, ev);
    lemma_distinct_in_order_props(indices);
    lemma_distinct_in_order_props(indices + ev);
    assert(indices.contains(v));
    assert(tri.contains(v));
    let j = choose|j: int| 0 <= j < tri.len() && tri[j] == v;
    assert(kept[j] == v);
    let i = kept.index_of(v);
    assert(kept.contains(v));
    assert(kept[i] == v);
    assert(i == j);
}

/// `remove_isolated_vertices` keeps the ends of every edge: the new index of each edge end
/// refers to a kept vertex, and that vertex is the one it was before.
pub proof fn lemma_kept_edge_ends(indices: Seq<u32>, edges: Seq<(u32, u32)>, e: int)
    requires
        0 <= e < edges.len(),
        kept_vertices(indices, edges).len() <= u32::MAX,
    ensures
        (kept_index(indices, edges, edges[e].0) as int) < kept_vertices(indices, edges).len(),
        kept_vertices(indices, edges)[kept_index(indices, edges, edges[e].0) as int] == edges[e].0,
        (kept_index(indices, edges, edges[e].1) as int) < kept_vertices(indices, edges).len(),
        kept_vertices(indices, edges)[kept_index(indices, edges, edges[e].1) as int] == edges[e].1,
{
    let ev = edge_vertices(edges);
    let kept = kept_vertices(indices, edges);
    lemma_distinct_in_order_props(indices + ev);
    assert((2 * e) / 2 == e && (2 * e) % 2 == 0 && (2 * e + 1) / 2 == e && (2 * e + 1) % 2 == 1)
        by (nonlinear_arith);
    assert(ev[2 * e] == edges[e].0);
    assert(ev[2 * e + 1] == edges[e].1);
    assert((indices + ev)[indices.len() + 2 * e] == edges[e].0);
    assert((indices + ev)[indices.len() + 2 * e + 1] == edges[e].1);
    assert((indices + ev).contains(edges[e].0));
    assert((indices + ev).contains(edges[e].1));
    assert(kept.contains(edges[e].0));
    assert(kept.contains(edges[e].1));
}

/// `remove_isolated_vertices` leaves no vertex unused: every kept vertex, once renumbered, is
/// at a triangle corner or at an edge end.
pub proof fn lemma_every_kept_vertex_used(indices: Seq<u32>, edges: Seq<(u32, u32)>, i: int)
    requires
        kept_vertices(indices, edges).len() <= u32::MAX,
        0 <= i < kept_vertices(indices, edges).len(),
    ensures
        (exists|k: int| 0 <= k < indices.len() && kept_index(indices, edges, #[trigger] indices[k]) == i)
            || (exists|e: int|
            0 <= e < edges.len() && (kept_index(indices, edges, (#[trigger] edges[e]).0) == i
                || kept_index(indices, edges, edges[e].1) == i)),
{
    let ev = edge_vertices(edges);
    let kept = kept_vertices(indices, edges);
    lemma_distinct_in_order_props(indices + ev);
    assert(kept.contains(kept[i]));
    assert((indices + ev).contains(kept[i]));
    let j = choose|j: int| 0 <= j < (indices + ev).len() && (indices + ev)[j] == kept[i];
    if j < indices.len() {
        lemma_kept_triangle_corners(indices, edges, j);
        assert(indices[j] == kept[i]);
        assert(kept_index(indices, edges, indices[j]) == i);
    } else {
        let e = (j - indices.len()) / 2;
        lemma_kept_edge_ends(indices, edges, e);
        if (j - indices.len()) % 2 == 0 {
            assert(edges[e].0 == kept[i]);
            assert(kept_index(indices, edges, edges[e].0) == i);
        } else {
            assert(edges[e].1 == kept[i]);
            assert(kept_index(indices, edges, edges[e].1) == i);
        }
    }
}

/// When every edge end is a triangle vertex (as in a mesh from `triangulate_surface`),
/// `remove_isolated_vertices` leaves no isolated vertex: every kept vertex is at some triangle
/// corner.
pub proof fn lemma_no_isolated_vertex_left(indices: Seq<u32>, edges: Seq<(u32, u32)>, i: int)
    requires
        forall|e: int|
            0 <= e < edges.len() ==> indices.contains((#[trigger] edges[e]).0) && indices.contains(
                edges[e].1,
            ),
        kept_vertices(indices, edges).len() <= u32::MAX,
        0 <= i < kept_vertices(indices, edges).len(),
    ensures
        exists|k: int|
            0 <= k < indices.len() && kept_index(indices, edges, #[trigger] indices[k]) == i,
{
    let ev = edge_vertices(edges);
    assert forall|j: int| 0 <= j < ev.len() implies indices.contains(#[trigger] ev[j]) by {
        let e = j / 2;
        assert(indices.contains(edges[e].0));
    }
    lemma_distinct_in_order_absorbs(indices, ev);
    let kept = kept_vertices(indices, edges);
    lemma_distinct_in_order_props(indices);
    assert(kept.contains(kept[i]));
    assert(indices.contains(kept[i]));
    let k = choose|k: int| 0 <= k < indices.len() && indices[k] == kept[i];
    lemma_kept_triangle_corners(indices, edges, k);
    lemma_distinct_in_order_props(indices + ev);
    assert(kept.no_duplicates());
    assert(kept_index(indices, edges, indices[k]) == i);
}

/// Renumbering a sequence by the places of its values in a list that starts with them, in
/// order of first occurrence, gives values met in the order 0, 1, 2, ...
proof fn lemma_distinct_in_order_of_ranks(s: Seq<u32>, order: Seq<u32>)
    requires
        order.no_duplicates(),
        order.len() <= u32::MAX,
        distinct_in_order(s).len() <= order.len(),
        distinct_in_order(s) =~= order.subrange(0, distinct_in_order(s).len() as int),
    ensures
        distinct_in_order(s.map_values(|v: u32| order.index_of(v) as u32)) =~= Seq::new(
            distinct_in_order(s).len(),
            |j: int| j as u32,
        ),
    decreases s.len(),
{
    let f = |v: u32| order.index_of(v) as u32;
    if s.len() == 0 {
        assert(s.map_values(f) =~= Seq::<u32>::empty());
    } else {
        let t = s.drop_last();
        let x = s.last();
        assert(s =~= t.push(x));
        lemma_distinct_in_order_push(t, x);
        lemma_distinct_in_order_prefix(t, seq![x]);
        assert(t + seq![x] =~= s);
        lemma_distinct_in_order_of_ranks(t, order);
        assert(s.map_values(f) =~= t.map_values(f).push(f(x)));
        lemma_distinct_in_order_push(t.map_values(f), f(x));
        let d = distinct_in_order(t);
        let m = distinct_in_order(t.map_values(f));
        lemma_distinct_in_order_props(t);
        if d.contains(x) {
            let j = choose|j: int| 0 <= j < d.len() && d[j] == x;
            assert(order[j] == x);
            assert(order.index_of(x) == j);
            assert(m[j] == j as u32);
            assert(m.contains(f(x)));
        } else {
            assert(distinct_in_order(s) =~= d.push(x));
            assert(distinct_in_order(s)[d.len() as int] == x);
            assert(order.subrange(0, distinct_in_order(s).len() as int)[d.len() as int] == order[d.len() as int]);
            assert(order[d.len() as int] == x);
            assert(order.contains(x));
            assert(order.index_of(x) == d.len());
            assert(!m.contains(f(x)));
        }
    }
}

/// `remove_isolated_vertices` is idempotent when every edge end is a triangle vertex (as in a
/// mesh from `triangulate_surface`): once vertices are renumbered, a second call keeps all of
/// them, in the same order, so it leaves positions, indices and edges as they are.
pub proof fn lemma_remove_isolated_vertices_idempotent<Position>(
    indices: Seq<u32>,
    edges: Seq<(u32, u32)>,
    new_edges: Seq<(u32, u32)>,
    new_positions: Seq<Position>,
)
    requires
        forall|e: int|
            0 <= e < edges.len() ==> indices.contains((#[trigger] edges[e]).0) && indices.contains(
                edges[e].1,
            ),
        kept_vertices(indices, edges).len() <= u32::MAX,
        new_edges.to_set() == edges.to_set().map(
            |e: (u32, u32)| (kept_index(indices, edges, e.0), kept_index(indices, edges, e.1)),
        ),
        new_positions.len() == kept_vertices(indices, edges).len(),
    ensures
        ({
            let new_indices = indices.map_values(|v: u32| kept_index(indices, edges, v));
            &&& kept_vertices(new_indices, new_edges) =~= Seq::new(
                kept_vertices(indices, edges).len(),
                |j: int| j as u32,
            )
            &&& kept_vertices(new_indices, new_edges).map_values(|v: u32| new_positions[v as int])
                =~= new_positions
            &&& new_indices.map_values(|v: u32| kept_index(new_indices, new_edges, v)) =~= new_indices
            &&& new_edges.to_set().map(
                |e: (u32, u32)| (kept_index(new_indices, new_edges, e.0), kept_index(new_indices, new_edges, e.1)),
            ) =~= new_edges.to_set()
            &&& forall|k: int|
                0 <= k < new_indices.len() ==> (#[trigger] new_indices[k] as int) < new_positions.len()
            &&& forall|i: int|
                0 <= i < new_edges.len() ==> ((#[trigger] new_edges[i]).0 as int) < new_positions.len()
                    && (new_edges[i].1 as int) < new_positions.len()
        }),
{
    let ev = edge_vertices(edges);
    let kept = kept_vertices(indices, edges);
    let n = kept.len();
    let f = |v: u32| kept_index(indices, edges, v);
    let new_indices = indices.map_values(f);
    assert forall|j: int| 0 <= j < ev.len() implies indices.contains(#[trigger] ev[j]) by {
        let e = j / 2;
        assert(indices.contains(edges[e].0));
    }
    lemma_distinct_in_order_absorbs(indices, ev);
    lemma_distinct_in_order_props(indices + ev);
    lemma_distinct_in_order_props(indices);
    // the triangle vertices come in the order 0, 1, 2, ...
    assert(f =~= (|v: u32| kept.index_of(v) as u32));
    lemma_distinct_in_order_of_ranks(indices, kept);
    let ids = Seq::new(n, |j: int| j as u32);
    assert(distinct_in_order(new_indices) =~= ids);
    lemma_distinct_in_order_props(new_indices);
    // every end of a new edge is already in the new indices
    let nev = edge_vertices(new_edges);
    assert forall|j: int| 0 <= j < nev.len() implies new_indices.contains(#[trigger] nev[j]) by {
        let e = j / 2;
        let ne = new_edges[e];
        assert(new_edges.to_set().contains(ne));
        let g = |e: (u32, u32)| (kept_index(indices, edges, e.0), kept_index(indices, edges, e.1));
        let oe = choose|oe: (u32, u32)| edges.to_set().contains(oe) && g(oe) == ne;
        let i = choose|i: int| 0 <= i < edges.len() && edges[i] == oe;
        assert(indices.contains(edges[i].0));
        assert(indices.contains(edges[i].1));
        let k0 = choose|k: int| 0 <= k < indices.len() && indices[k] == oe.0;
        let k1 = choose|k: int| 0 <= k < indices.len() && indices[k] == oe.1;
        assert(new_indices[k0] == ne.0);
        assert(new_indices[k1] == ne.1);
        if j % 2 == 0 {
            assert(nev[j] == ne.0);
        } else {
            assert(nev[j] == ne.1);
        }
    }
    lemma_distinct_in_order_absorbs(new_indices, nev);
    let kept2 = kept_vertices(new_indices, new_edges);
    assert(kept2 =~= ids);
    // on the renumbered mesh, every vertex keeps its index
    assert forall|v: u32| (v as int) < n implies kept_index(new_indices, new_edges, v) == v by {
        assert(kept2[v as int] == v);
        assert(kept2.contains(v));
        let i = kept2.index_of(v);
        assert(kept2[i] == v);
    }
    assert forall|k: int| 0 <= k < new_indices.len() implies (new_indices[k] as int) < n by {
        lemma_kept_triangle_corners(indices, edges, k);
    }
    assert forall|ne: (u32, u32)| new_edges.to_set().contains(ne) implies (ne.0 as int) < n && (
    ne.1 as int) < n by {
        let g = |e: (u32, u32)| (kept_index(indices, edges, e.0), kept_index(indices, edges, e.1));
        let oe = choose|oe: (u32, u32)| edges.to_set().contains(oe) && g(oe) == ne;
        let i = choose|i: int| 0 <= i < edges.len() && edges[i] == oe;
        lemma_kept_edge_ends(indices, edges, i);
    }
    assert forall|i: int| 0 <= i < new_edges.len() implies ((#[trigger] new_edges[i]).0 as int) < n
        && (new_edges[i].1 as int) < n by {
        assert(new_edges.to_set().contains(new_edges[i]));
    }
}

proof fn lemma_last_occurrence_exists(s: Seq<u32>, v: u32)
    requires
        s.contains(v),
    ensures
        is_last_occurrence(s, v, last_occurrence(s, v)),
    decreases s.len(),
{
    if s.last() == v {
        assert(is_last_occurrence(s, v, s.len() - 1));
    } else {
        let t = s.drop_last();
        let j = choose|j: int| 0 <= j < s.len() && s[j] == v;
        assert(t[j] == v);
        lemma_last_occurrence_exists(t, v);
        let kt = last_occurrence(t, v);
        assert forall|i: int| kt < i < s.len() implies s[i] != v by {
            if i < t.len() {
                assert(t[i] == s[i]);
            }
        }
        assert(is_last_occurrence(s, v, kt));
        lemma_last_occurrence(s, v, kt);
    }
}

/// After `duplicate_vertices` (on fewer than 2^32 corners), every edge end refers to a copy of
/// the former vertex: the copy made for the last triangle corner at that vertex.
pub proof fn lemma_duplicated_edge_ends<Position>(
    indices: Seq<u32>,
    positions: Seq<Position>,
    v: u32,
)
    requires
        indices.len() <= 0x1_0000_0000,
        indices.contains(v),
    ensures
        ({
            let new_positions = Seq::new(indices.len(), |k: int| positions[indices[k] as int]);
            let w = wrap_u32(last_occurrence(indices, v)) as int;
            &&& 0 <= w < new_positions.len()
            &&& new_positions[w] == positions[v as int]
        }),
{
    lemma_last_occurrence_exists(indices, v);
}

/// After `duplicate_vertices` (on fewer than 2^32 corners), each triangle corner has a vertex
/// of its own, at the former position, that carries the texture coordinates of its triangle.
pub proof fn lemma_duplicated_corners<Position, Uv>(
    indices: Seq<u32>,
    positions: Seq<Position>,
    per_triangle_uv: Seq<Uv>,
    k: int,
)
    requires
        indices.len() <= 0x1_0000_0000,
        0 <= k < indices.len(),
    ensures
        ({
            let new_indices = Seq::new(indices.len(), |j: int| wrap_u32(j));
            let new_positions = Seq::new(indices.len(), |j: int| positions[indices[j] as int]);
            let new_uv = Seq::new(indices.len(), |j: int| per_triangle_uv[j / 3]);
            &&& new_indices[k] == k
            &&& new_positions[new_indices[k] as int] == positions[indices[k] as int]
            &&& new_uv[new_indices[k] as int] == per_triangle_uv[k / 3]
        }),
{
}

} // verus!
