use vstd::prelude::*;
use vstd::multiset::Multiset;
use std::collections::HashMap;
use crate::edgeset::EdgeSet;
use crate::trianglemesh::TriangleMesh;

verus! {

/// A hexahedral cell, given by the (0-based) indices of its 8 corner vertices,
/// in the MEDIT ordering.
#[derive(Debug, PartialEq, Eq, Clone, Copy)]
pub struct Hexahedron {
    pub vertices: [usize; 8],
}

impl Hexahedron {
    pub fn new(vertices: [usize; 8]) -> (hex: Hexahedron)
        ensures
            hex.vertices == vertices,
    {
        Hexahedron { vertices: vertices }
    }

    /// For each corner: the corner itself, then its 3 ordered neighbouring corners.
    pub const CORNER_SPLITING: [[usize; 4]; 8] = [
        [0, 3, 4, 1],
        [1, 5, 2, 0],
        [2, 1, 6, 3],
        [3, 7, 0, 2],
        [4, 0, 7, 5],
        [5, 6, 1, 4],
        [6, 2, 5, 7],
        [7, 4, 3, 6],
    ];

    /// The vertices of corner `corner` of the cell and of its 3 neighbouring corners, in the
    /// order of `CORNER_SPLITING`.
    pub fn corner_vertices(&self, corner: usize) -> (v: [usize; 4])
        requires
            corner < 8,
        ensures
            forall|i: int|
                0 <= i < 4 ==> v[i] == self.vertices[Hexahedron::CORNER_SPLITING[corner as int][i] as int],
    {
        let v = [
            self.vertices[Hexahedron::CORNER_SPLITING[corner][0]],
            self.vertices[Hexahedron::CORNER_SPLITING[corner][1]],
            self.vertices[Hexahedron::CORNER_SPLITING[corner][2]],
            self.vertices[Hexahedron::CORNER_SPLITING[corner][3]],
        ];
        assert(v@ =~= seq![
            self.vertices[Hexahedron::CORNER_SPLITING[corner as int][0] as int],
            self.vertices[Hexahedron::CORNER_SPLITING[corner as int][1] as int],
            self.vertices[Hexahedron::CORNER_SPLITING[corner as int][2] as int],
            self.vertices[Hexahedron::CORNER_SPLITING[corner as int][3] as int],
        ]);
        v
    }

    /// For each facet: the facet index, then its 4 corners in clockwise order
    /// when the facet is seen from outside the cell.
    pub const FACET_SPLITTING: [[usize; 5]; 6] = [
        [0, 0, 1, 2, 3],
        [1, 3, 2, 6, 7],
        [2, 7, 6, 5, 4],
        [3, 4, 5, 1, 0],
        [4, 4, 0, 3, 7],
        [5, 1, 5, 6, 2],
    ];
}

/// The `k`-th corner (0 to 3) of local facet `f` (0 to 5), as a local vertex index of the cell.
pub open spec fn facet_corner(f: int, k: int) -> int {
    Hexahedron::FACET_SPLITTING[f][k + 1] as int
}

/// The `k`-th vertex (0 to 3) of local facet `f` of `cell`, in the order of `FACET_SPLITTING`.
pub open spec fn facet_vertex(cell: Hexahedron, f: int, k: int) -> usize {
    cell.vertices[facet_corner(f, k)]
}

/// The multiset of the 4 vertices of local facet `f` of `cell`: two facets are the same
/// geometric quad exactly when their vertex multisets are equal.
pub open spec fn facet_vertex_multiset(cell: Hexahedron, f: int) -> Multiset<usize> {
    Multiset::empty().insert(facet_vertex(cell, f, 0)).insert(facet_vertex(cell, f, 1)).insert(
        facet_vertex(cell, f, 2),
    ).insert(facet_vertex(cell, f, 3))
}

pub open spec fn sorted4(k: Seq<usize>) -> bool {
    k.len() == 4 && k[0] <= k[1] && k[1] <= k[2] && k[2] <= k[3]
}

pub open spec fn multiset4(k: Seq<usize>) -> Multiset<usize> {
    Multiset::empty().insert(k[0]).insert(k[1]).insert(k[2]).insert(k[3])
}

/// Two sorted quadruples with the same multiset of values are equal.
proof fn lemma_sorted4_unique(a: Seq<usize>, b: Seq<usize>)
    requires
        sorted4(a),
        sorted4(b),
        multiset4(a) == multiset4(b),
    ensures
        a == b,
{
    broadcast use vstd::multiset::group_multiset_axioms;

    let m = multiset4(a);
    assert(m.count(a[0]) > 0);
    assert(m.count(b[0]) > 0);
    assert(m.count(a[1]) > 0);
    assert(m.count(b[1]) > 0);
    assert(m.count(a[2]) > 0);
    assert(m.count(b[2]) > 0);
    assert(m.count(a[3]) > 0);
    assert(m.count(b[3]) > 0);
    assert(a =~= b);
}

/// Sorts four values in increasing order.
fn sort4(a: usize, b: usize, c: usize, d: usize) -> (r: [usize; 4])
    ensures
        sorted4(r@),
        multiset4(r@) == multiset4(seq![a, b, c, d]),
{
    broadcast use vstd::multiset::group_multiset_axioms;

    let ghost orig = multiset4(seq![a, b, c, d]);
    let (a, b) = if a <= b { (a, b) } else { (b, a) };
    let (c, d) = if c <= d { (c, d) } else { (d, c) };
    let (a, c) = if a <= c { (a, c) } else { (c, a) };
    let (b, d) = if b <= d { (b, d) } else { (d, b) };
    let (b, c) = if b <= c { (b, c) } else { (c, b) };
    let r = [a, b, c, d];
    assert(multiset4(r@) =~= orig);
    r
}

/// The vertex indices of local facet `f` of `cell`, sorted increasingly: the identity of the
/// quad regardless of orientation.
fn facet_key(cell: &Hexahedron, f: usize) -> (k: [usize; 4])
    requires
        f < 6,
    ensures
        sorted4(k@),
        multiset4(k@) == facet_vertex_multiset(*cell, f as int),
{
    let v0 = cell.vertices[Hexahedron::FACET_SPLITTING[f][1]];
    let v1 = cell.vertices[Hexahedron::FACET_SPLITTING[f][2]];
    let v2 = cell.vertices[Hexahedron::FACET_SPLITTING[f][3]];
    let v3 = cell.vertices[Hexahedron::FACET_SPLITTING[f][4]];
    sort4(v0, v1, v2, v3)
}

fn keys_equal(a: &[usize; 4], b: &[usize; 4]) -> (r: bool)
    ensures
        r == (a@ == b@),
{
    let r = a[0] == b[0] && a[1] == b[1] && a[2] == b[2] && a[3] == b[3];
    proof {
        if r {
            assert(a@ =~= b@);
        }
    }
    r
}

/// `(d, g)` comes strictly before `(c, f)` in the order in which facets are visited:
/// cell by cell, and within a cell by local facet index.
pub open spec fn facet_before(d: int, g: int, c: int, f: int) -> bool {
    d < c || (d == c && g < f)
}

pub open spec fn lex_lt(a: (usize, usize), b: (usize, usize)) -> bool {
    facet_before(a.0 as int, a.1 as int, b.0 as int, b.1 as int)
}

/// Facet `g` of cell `d` is another facet than facet `f` of cell `c`, on the same 4 vertices.
pub open spec fn twin_facets(cells: Seq<Hexahedron>, c: int, f: int, d: int, g: int) -> bool {
    &&& 0 <= c < cells.len()
    &&& 0 <= f < 6
    &&& 0 <= d < cells.len()
    &&& 0 <= g < 6
    &&& (c != d || f != g)
    &&& facet_vertex_multiset(cells[c], f) == facet_vertex_multiset(cells[d], g)
}

/// Facet `f` of cell `c` shares its quad with at most one other facet.
pub open spec fn at_most_one_twin(cells: Seq<Hexahedron>, c: int, f: int) -> bool {
    forall|d1: int, g1: int, d2: int, g2: int|
        #![trigger twin_facets(cells, c, f, d1, g1), twin_facets(cells, c, f, d2, g2)]
        twin_facets(cells, c, f, d1, g1) && twin_facets(cells, c, f, d2, g2) ==> d1 == d2 && g1
            == g2
}

/// No quad is shared by more than two facets of the mesh.
pub open spec fn facets_shared_at_most_twice(cells: Seq<Hexahedron>) -> bool {
    forall|c: int, f: int| #[trigger] at_most_one_twin(cells, c, f)
}

pub open spec fn has_twin(cells: Seq<Hexahedron>, c: int, f: int) -> bool {
    exists|d: int, g: int| twin_facets(cells, c, f, d, g)
}

pub open spec fn twin_of(cells: Seq<Hexahedron>, c: int, f: int) -> (int, int) {
    choose|d: int, g: int| twin_facets(cells, c, f, d, g)
}

/// What the adjacency of facet `f` of cell `c` holds: `None` when no other facet lies on the
/// same quad (a surface facet); otherwise the other facet, except that when the other facet is
/// an earlier facet of the same (degenerate) cell, the facet is paired with itself.
pub open spec fn facet_neighbor(cells: Seq<Hexahedron>, c: int, f: int) -> Option<(usize, usize)> {
    if has_twin(cells, c, f) {
        let (d, g) = twin_of(cells, c, f);
        if d == c && g < f {
            Some((c as usize, f as usize))
        } else {
            Some((d as usize, g as usize))
        }
    } else {
        None
    }
}

/// `adjacency` holds, for each cell and each of its 6 facets, the facet on the other side.
pub open spec fn is_cell_adjacency(
    cells: Seq<Hexahedron>,
    adjacency: Seq<[Option<(usize, usize)>; 6]>,
) -> bool {
    &&& adjacency.len() == cells.len()
    &&& forall|c: int, f: int|
        0 <= c < cells.len() && 0 <= f < 6 ==> #[trigger] adjacency[c][f] == facet_neighbor(
            cells,
            c,
            f,
        )
}

spec fn key_of(k: Seq<usize>, cell: Hexahedron, f: int) -> bool {
    sorted4(k) && multiset4(k) == facet_vertex_multiset(cell, f)
}

spec fn keys_valid(cells: Seq<Hexahedron>, keys: Seq<[[usize; 4]; 6]>) -> bool {
    &&& keys.len() == cells.len()
    &&& forall|c: int, f: int|
        0 <= c < keys.len() && 0 <= f < 6 ==> key_of(#[trigger] keys[c][f]@, cells[c], f)
}

/// The buckets group the facets visited before `(c0, f0)` by their smallest vertex.
spec fn buckets_inv(
    keys: Seq<[[usize; 4]; 6]>,
    bucket_of: Map<usize, usize>,
    buckets: Seq<Vec<(usize, usize)>>,
    bucket_min: Seq<usize>,
    c0: int,
    f0: int,
) -> bool {
    &&& buckets.len() == bucket_min.len()
    &&& forall|m: usize| #[trigger]
        bucket_of.contains_key(m) ==> bucket_of[m] < buckets.len() && bucket_min[bucket_of[m] as int]
            == m
    &&& forall|b: int|
        0 <= b < buckets.len() ==> bucket_of.contains_key(#[trigger] bucket_min[b])
            && bucket_of[bucket_min[b]] == b
    &&& forall|b: int, i: int|
        0 <= b < buckets.len() && 0 <= i < buckets[b]@.len() ==> {
            let e = #[trigger] buckets[b]@[i];
            &&& e.0 < keys.len()
            &&& e.1 < 6
            &&& facet_before(e.0 as int, e.1 as int, c0, f0)
            &&& keys[e.0 as int][e.1 as int][0] == bucket_min[b]
        }
    &&& forall|b: int, i: int, j: int|
        0 <= b < buckets.len() && 0 <= i < j < buckets[b]@.len() ==> lex_lt(
            #[trigger] buckets[b]@[i],
            #[trigger] buckets[b]@[j],
        )
    &&& forall|d: int, g: int|
        0 <= d < keys.len() && 0 <= g < 6 && #[trigger] facet_before(d, g, c0, f0) ==> {
            let m = keys[d][g][0];
            &&& bucket_of.contains_key(m)
            &&& buckets[bucket_of[m] as int]@.contains((d as usize, g as usize))
        }
}

fn facet_keys(cells: &Vec<Hexahedron>) -> (keys: Vec<[[usize; 4]; 6]>)
    ensures
        keys_valid(cells@, keys@),
{
    let mut keys: Vec<[[usize; 4]; 6]> = Vec::new();
    for c in 0..cells.len()
        invariant
            keys.len() == c,
            forall|i: int, f: int|
                0 <= i < c && 0 <= f < 6 ==> key_of(#[trigger] keys@[i][f]@, cells@[i], f),
    {
        let cell = &cells[c];
        let k = [
            facet_key(cell, 0),
            facet_key(cell, 1),
            facet_key(cell, 2),
            facet_key(cell, 3),
            facet_key(cell, 4),
            facet_key(cell, 5),
        ];
        keys.push(k);
        assert(forall|f: int| 0 <= f < 6 ==> key_of(#[trigger] keys@[c as int][f]@, cells@[c as int], f));
    }
    keys
}

proof fn lemma_buckets_next_cell(
    keys: Seq<[[usize; 4]; 6]>,
    bucket_of: Map<usize, usize>,
    buckets: Seq<Vec<(usize, usize)>>,
    bucket_min: Seq<usize>,
    c: int,
)
    requires
        buckets_inv(keys, bucket_of, buckets, bucket_min, c, 6),
    ensures
        buckets_inv(keys, bucket_of, buckets, bucket_min, c + 1, 0),
{
    assert forall|b: int, i: int| 0 <= b < buckets.len() && 0 <= i < buckets[b]@.len() implies {
        let e = #[trigger] buckets[b]@[i];
        &&& e.0 < keys.len()
        &&& e.1 < 6
        &&& facet_before(e.0 as int, e.1 as int, c + 1, 0)
        &&& keys[e.0 as int][e.1 as int][0] == bucket_min[b]
    } by {
        let e = buckets[b]@[i];
        assert(facet_before(e.0 as int, e.1 as int, c, 6));
    }
    assert forall|d: int, g: int|
        0 <= d < keys.len() && 0 <= g < 6 && #[trigger] facet_before(d, g, c + 1, 0) implies {
        let m = keys[d][g][0];
        &&& bucket_of.contains_key(m)
        &&& buckets[bucket_of[m] as int]@.contains((d as usize, g as usize))
    } by {
        assert(facet_before(d, g, c, 6));
    }
}

proof fn lemma_buckets_add_to_existing(
    keys: Seq<[[usize; 4]; 6]>,
    bucket_of: Map<usize, usize>,
    buckets: Seq<Vec<(usize, usize)>>,
    new_buckets: Seq<Vec<(usize, usize)>>,
    bucket_min: Seq<usize>,
    c: int,
    f: int,
)
    requires
        buckets_inv(keys, bucket_of, buckets, bucket_min, c, f),
        0 <= c < keys.len(),
        0 <= f < 6,
        keys.len() <= usize::MAX,
        bucket_of.contains_key(keys[c][f][0]),
        new_buckets.len() == buckets.len(),
        forall|b: int|
            0 <= b < buckets.len() && b != bucket_of[keys[c][f][0]] ==> #[trigger] new_buckets[b]@
                == buckets[b]@,
        new_buckets[bucket_of[keys[c][f][0]] as int]@ == buckets[bucket_of[keys[c][f][0]] as int]@.push(
            (c as usize, f as usize),
        ),
    ensures
        buckets_inv(keys, bucket_of, new_buckets, bucket_min, c, f + 1),
{
    broadcast use vstd::seq_lib::group_seq_properties;

    let m = keys[c][f][0];
    let b0 = bucket_of[m] as int;
    assert(bucket_of.contains_key(m));
    assert forall|b: int, i: int| 0 <= b < new_buckets.len() && 0 <= i < new_buckets[b]@.len() implies {
        let e = #[trigger] new_buckets[b]@[i];
        &&& e.0 < keys.len()
        &&& e.1 < 6
        &&& facet_before(e.0 as int, e.1 as int, c, f + 1)
        &&& keys[e.0 as int][e.1 as int][0] == bucket_min[b]
    } by {
        if b != b0 || i < buckets[b]@.len() {
            let e = buckets[b]@[i];
            assert(facet_before(e.0 as int, e.1 as int, c, f));
        } else {
            assert(new_buckets[b]@[i] == (c as usize, f as usize));
            assert(bucket_min[b0] == m);
        }
    }
    assert forall|b: int, i: int, j: int|
        0 <= b < new_buckets.len() && 0 <= i < j < new_buckets[b]@.len() implies lex_lt(
        #[trigger] new_buckets[b]@[i],
        #[trigger] new_buckets[b]@[j],
    ) by {
        if b != b0 || j < buckets[b]@.len() {
            assert(lex_lt(buckets[b]@[i], buckets[b]@[j]));
        } else {
            let e = buckets[b]@[i];
            assert(facet_before(e.0 as int, e.1 as int, c, f));
        }
    }
    assert forall|d: int, g: int|
        0 <= d < keys.len() && 0 <= g < 6 && #[trigger] facet_before(d, g, c, f + 1) implies {
        let mm = keys[d][g][0];
        &&& bucket_of.contains_key(mm)
        &&& new_buckets[bucket_of[mm] as int]@.contains((d as usize, g as usize))
    } by {
        let mm = keys[d][g][0];
        if d == c && g == f {
            assert(new_buckets[b0]@[buckets[b0]@.len() as int] == (c as usize, f as usize));
        } else {
            assert(facet_before(d, g, c, f));
            let bb = bucket_of[mm] as int;
            assert(buckets[bb]@.contains((d as usize, g as usize)));
            if bb == b0 {
                let k = choose|k: int| 0 <= k < buckets[bb]@.len() && buckets[bb]@[k] == (d as usize, g as usize);
                assert(new_buckets[bb]@[k] == (d as usize, g as usize));
            }
        }
    }
}

proof fn lemma_buckets_add_new(
    keys: Seq<[[usize; 4]; 6]>,
    bucket_of: Map<usize, usize>,
    buckets: Seq<Vec<(usize, usize)>>,
    new_buckets: Seq<Vec<(usize, usize)>>,
    bucket_min: Seq<usize>,
    c: int,
    f: int,
)
    requires
        buckets_inv(keys, bucket_of, buckets, bucket_min, c, f),
        0 <= c < keys.len(),
        0 <= f < 6,
        keys.len() <= usize::MAX,
        !bucket_of.contains_key(keys[c][f][0]),
        new_buckets.len() == buckets.len() + 1,
        forall|b: int| 0 <= b < buckets.len() ==> #[trigger] new_buckets[b]@ == buckets[b]@,
        new_buckets[buckets.len() as int]@ == seq![(c as usize, f as usize)],
        buckets.len() <= usize::MAX,
    ensures
        buckets_inv(
            keys,
            bucket_of.insert(keys[c][f][0], buckets.len() as usize),
            new_buckets,
            bucket_min.push(keys[c][f][0]),
            c,
            f + 1,
        ),
{
    broadcast use vstd::seq_lib::group_seq_properties;

    let m = keys[c][f][0];
    let nb = buckets.len() as int;
    let new_map = bucket_of.insert(m, nb as usize);
    let new_min = bucket_min.push(m);
    assert forall|mm: usize| #[trigger] new_map.contains_key(mm) implies new_map[mm] < new_buckets.len()
        && new_min[new_map[mm] as int] == mm by {
        if mm != m {
            assert(bucket_of.contains_key(mm));
        }
    }
    assert forall|b: int| 0 <= b < new_buckets.len() implies new_map.contains_key(#[trigger] new_min[b])
        && new_map[new_min[b]] == b by {
        if b < nb {
            assert(bucket_of.contains_key(bucket_min[b]));
        }
    }
    assert forall|b: int, i: int| 0 <= b < new_buckets.len() && 0 <= i < new_buckets[b]@.len() implies {
        let e = #[trigger] new_buckets[b]@[i];
        &&& e.0 < keys.len()
        &&& e.1 < 6
        &&& facet_before(e.0 as int, e.1 as int, c, f + 1)
        &&& keys[e.0 as int][e.1 as int][0] == new_min[b]
    } by {
        if b < nb {
            let e = buckets[b]@[i];
            assert(facet_before(e.0 as int, e.1 as int, c, f));
        } else {
            assert(new_buckets[b]@[i] == (c as usize, f as usize));
        }
    }
    assert forall|b: int, i: int, j: int|
        0 <= b < new_buckets.len() && 0 <= i < j < new_buckets[b]@.len() implies lex_lt(
        #[trigger] new_buckets[b]@[i],
        #[trigger] new_buckets[b]@[j],
    ) by {
        assert(b < nb);
        assert(lex_lt(buckets[b]@[i], buckets[b]@[j]));
    }
    assert forall|d: int, g: int|
        0 <= d < keys.len() && 0 <= g < 6 && #[trigger] facet_before(d, g, c, f + 1) implies {
        let mm = keys[d][g][0];
        &&& new_map.contains_key(mm)
        &&& new_buckets[new_map[mm] as int]@.contains((d as usize, g as usize))
    } by {
        let mm = keys[d][g][0];
        if d == c && g == f {
            assert(new_buckets[nb]@[0] == (c as usize, f as usize));
        } else {
            assert(facet_before(d, g, c, f));
            assert(bucket_of.contains_key(mm));
            assert(mm != m);
        }
    }
}

fn build_buckets(keys: &Vec<[[usize; 4]; 6]>) -> (res: (
    HashMap<usize, usize>,
    Vec<Vec<(usize, usize)>>,
    Ghost<Seq<usize>>,
))
    ensures
        buckets_inv(keys@, res.0@, res.1@, res.2@, keys.len() as int, 0),
{
    broadcast use vstd::std_specs::hash::group_hash_axioms;
    broadcast use vstd::seq_lib::group_seq_properties;

    let mut bucket_of: HashMap<usize, usize> = HashMap::new();
    let mut buckets: Vec<Vec<(usize, usize)>> = Vec::new();
    let ghost mut bucket_min: Seq<usize> = Seq::empty();
    for c in 0..keys.len()
        invariant
            buckets_inv(keys@, bucket_of@, buckets@, bucket_min, c as int, 0),
    {
        for f in 0..6usize
            invariant
                0 <= c < keys.len(),
                buckets_inv(keys@, bucket_of@, buckets@, bucket_min, c as int, f as int),
        {
            let m = keys[c][f][0];
            let ghost old_buckets = buckets@;
            let ghost old_map = bucket_of@;
            match bucket_of.get(&m) {
                Some(b) => {
                    let b = *b;
                    buckets[b].push((c, f));
                    proof {
                        lemma_buckets_add_to_existing(
                            keys@,
                            bucket_of@,
                            old_buckets,
                            buckets@,
                            bucket_min,
                            c as int,
                            f as int,
                        );
                    }
                },
                None => {
                    let b = buckets.len();
                    bucket_of.insert(m, b);
                    let mut v: Vec<(usize, usize)> = Vec::new();
                    v.push((c, f));
                    buckets.push(v);
                    proof {
                        lemma_buckets_add_new(
                            keys@,
                            old_map,
                            old_buckets,
                            buckets@,
                            bucket_min,
                            c as int,
                            f as int,
                        );
                        bucket_min = bucket_min.push(m);
                    }
                },
            }
        }
        proof {
            lemma_buckets_next_cell(keys@, bucket_of@, buckets@, bucket_min, c as int);
        }
    }
    (bucket_of, buckets, Ghost(bucket_min))
}

proof fn lemma_same_quad_iff_same_key(
    cells: Seq<Hexahedron>,
    keys: Seq<[[usize; 4]; 6]>,
    c: int,
    f: int,
    d: int,
    g: int,
)
    requires
        keys_valid(cells, keys),
        0 <= c < cells.len(),
        0 <= d < cells.len(),
        0 <= f < 6,
        0 <= g < 6,
    ensures
        (facet_vertex_multiset(cells[c], f) == facet_vertex_multiset(cells[d], g)) <==> (
        keys[c][f]@ == keys[d][g]@),
{
    assert(key_of(keys[c][f]@, cells[c], f));
    assert(key_of(keys[d][g]@, cells[d], g));
    if facet_vertex_multiset(cells[c], f) == facet_vertex_multiset(cells[d], g) {
        lemma_sorted4_unique(keys[c][f]@, keys[d][g]@);
    }
}

/// Looks up the facet on the other side of facet `f` of cell `c`; `None` when the quad of this
/// facet is found on more than two facets.
fn lookup_neighbor(
    cells: &Vec<Hexahedron>,
    keys: &Vec<[[usize; 4]; 6]>,
    bucket_of: &HashMap<usize, usize>,
    buckets: &Vec<Vec<(usize, usize)>>,
    Ghost(bucket_min): Ghost<Seq<usize>>,
    c: usize,
    f: usize,
) -> (r: Option<Option<(usize, usize)>>)
    requires
        keys_valid(cells@, keys@),
        buckets_inv(keys@, bucket_of@, buckets@, bucket_min, keys.len() as int, 0),
        c < cells.len(),
        f < 6,
    ensures
        r matches Some(n) ==> n == facet_neighbor(cells@, c as int, f as int) && at_most_one_twin(
            cells@,
            c as int,
            f as int,
        ),
        r is None ==> !facets_shared_at_most_twice(cells@),
{
    broadcast use vstd::std_specs::hash::group_hash_axioms;
    broadcast use vstd::seq_lib::group_seq_properties;

    let ghost cs = cells@;
    let key = &keys[c][f];
    let m = key[0];
    assert(facet_before(c as int, f as int, keys.len() as int, 0));
    let b = match bucket_of.get(&m) {
        Some(b) => *b,
        None => {
            return None;
        },
    };
    let bucket = &buckets[b];
    let mut occ: Vec<(usize, usize)> = Vec::new();
    for i in 0..bucket.len()
        invariant
            b < buckets.len(),
            bucket == &buckets@[b as int],
            keys_valid(cs, keys@),
            buckets_inv(keys@, bucket_of@, buckets@, bucket_min, keys.len() as int, 0),
            *key == keys@[c as int][f as int],
            forall|k: int|
                0 <= k < occ@.len() ==> {
                    let e = #[trigger] occ@[k];
                    &&& e.0 < cs.len()
                    &&& e.1 < 6
                    &&& keys@[e.0 as int][e.1 as int]@ == key@
                },
            forall|k1: int, k2: int|
                0 <= k1 < k2 < occ@.len() ==> lex_lt(#[trigger] occ@[k1], #[trigger] occ@[k2]),
            forall|k: int, j: int|
                0 <= k < occ@.len() && i <= j < bucket@.len() ==> lex_lt(
                    #[trigger] occ@[k],
                    #[trigger] bucket@[j],
                ),
            forall|j: int|
                0 <= j < i ==> (keys@[bucket@[j].0 as int][bucket@[j].1 as int]@ == key@
                    ==> occ@.contains(#[trigger] bucket@[j])),
    {
        let (d, g) = bucket[i];
        assert(d < keys.len() && g < 6);
        let ghost old_occ = occ@;
        if keys_equal(&keys[d][g], key) {
            occ.push((d, g));
            assert(occ@[occ@.len() - 1] == bucket@[i as int]);
        }
        assert forall|j: int|
            0 <= j < i + 1 && keys@[bucket@[j].0 as int][bucket@[j].1 as int]@ == key@ implies occ@.contains(
            #[trigger] bucket@[j],
        ) by {
            if j < i {
                assert(old_occ.contains(bucket@[j]));
                let k = choose|k: int| 0 <= k < old_occ.len() && old_occ[k] == bucket@[j];
                assert(occ@[k] == bucket@[j]);
            }
        }
    }
    // Every facet on the same quad is in `occ`, and each element of `occ` is on that quad.
    assert forall|d: int, g: int|
        0 <= d < cs.len() && 0 <= g < 6 && facet_vertex_multiset(cs[c as int], f as int)
            == facet_vertex_multiset(cs[d], g) implies occ@.contains((d as usize, g as usize)) by {
        lemma_same_quad_iff_same_key(cs, keys@, c as int, f as int, d, g);
        assert(facet_before(d, g, keys.len() as int, 0));
        let mm = keys@[d][g][0];
        assert(mm == m);
        assert(bucket@.contains((d as usize, g as usize)));
        let j = choose|j: int| 0 <= j < bucket@.len() && bucket@[j] == (d as usize, g as usize);
        assert(bucket@[j] == (d as usize, g as usize));
    }
    assert forall|k: int| 0 <= k < occ@.len() implies facet_vertex_multiset(
        cs[c as int],
        f as int,
    ) == facet_vertex_multiset(cs[occ@[k].0 as int], occ@[k].1 as int) by {
        lemma_same_quad_iff_same_key(cs, keys@, c as int, f as int, occ@[k].0 as int, occ@[k].1 as int);
    }
    assert(occ@.contains((c, f)));
    if occ.len() > 2 {
        proof {
            let e0 = occ@[0];
            let e1 = occ@[1];
            let e2 = occ@[2];
            assert(lex_lt(e0, e1) && lex_lt(e1, e2) && lex_lt(e0, e2));
            if e0 == (c, f) {
                assert(twin_facets(cs, c as int, f as int, e1.0 as int, e1.1 as int));
                assert(twin_facets(cs, c as int, f as int, e2.0 as int, e2.1 as int));
            } else if e1 == (c, f) {
                assert(twin_facets(cs, c as int, f as int, e0.0 as int, e0.1 as int));
                assert(twin_facets(cs, c as int, f as int, e2.0 as int, e2.1 as int));
            } else {
                assert(twin_facets(cs, c as int, f as int, e0.0 as int, e0.1 as int));
                assert(twin_facets(cs, c as int, f as int, e1.0 as int, e1.1 as int));
            }
            assert(!at_most_one_twin(cs, c as int, f as int));
        }
        return None;
    }
    if occ.len() == 2 {
        let e0 = occ[0];
        let e1 = occ[1];
        let other = if e0.0 == c && e0.1 == f { e1 } else { e0 };
        assert(twin_facets(cs, c as int, f as int, other.0 as int, other.1 as int));
        assert forall|d: int, g: int| twin_facets(cs, c as int, f as int, d, g) implies d == other.0
            && g == other.1 by {
            assert(occ@.contains((d as usize, g as usize)));
        }
        let r = if e0.0 == c { e1 } else { e0 };
        Some(Some(r))
    } else {
        assert forall|d: int, g: int| !twin_facets(cs, c as int, f as int, d, g) by {
            if twin_facets(cs, c as int, f as int, d, g) {
                assert(occ@.contains((d as usize, g as usize)));
            }
        }
        Some(None)
    }
}

/// Pairs up the facets of `cells` that lie on the same quad. Returns `None` exactly when some
/// quad is found on more than two facets; otherwise, for each cell and each local facet, the
/// facet on the other side (see `facet_neighbor`).
pub fn cell_adjacency(cells: &Vec<Hexahedron>) -> (result: Option<Vec<[Option<(usize, usize)>; 6]>>)
    ensures
        result is Some <==> facets_shared_at_most_twice(cells@),
        result matches Some(adjacency) ==> is_cell_adjacency(cells@, adjacency@),
{
    let keys = facet_keys(cells);
    let (bucket_of, buckets, Ghost(bucket_min)) = build_buckets(&keys);
    let mut adjacency: Vec<[Option<(usize, usize)>; 6]> = Vec::new();
    for c in 0..cells.len()
        invariant
            keys_valid(cells@, keys@),
            buckets_inv(keys@, bucket_of@, buckets@, bucket_min, keys.len() as int, 0),
            adjacency.len() == c,
            forall|i: int, f: int|
                0 <= i < c && 0 <= f < 6 ==> #[trigger] adjacency@[i][f] == facet_neighbor(
                    cells@,
                    i,
                    f,
                ),
            forall|i: int, f: int| 0 <= i < c && 0 <= f < 6 ==> #[trigger] at_most_one_twin(cells@, i, f),
    {
        let mut row: [Option<(usize, usize)>; 6] = [None, None, None, None, None, None];
        let mut f: usize = 0;
        while f < 6
            invariant
                c < cells.len(),
                keys_valid(cells@, keys@),
                buckets_inv(keys@, bucket_of@, buckets@, bucket_min, keys.len() as int, 0),
                f <= 6,
                forall|g: int| 0 <= g < f ==> #[trigger] row[g] == facet_neighbor(cells@, c as int, g),
                forall|i: int, g: int|
                    (0 <= i < c && 0 <= g < 6) || (i == c && 0 <= g < f) ==> #[trigger] at_most_one_twin(
                        cells@,
                        i,
                        g,
                    ),
            decreases 6 - f,
        {
            match lookup_neighbor(cells, &keys, &bucket_of, &buckets, Ghost(bucket_min), c, f) {
                Some(n) => {
                    row[f] = n;
                },
                None => {
                    return None;
                },
            }
            f = f + 1;
        }
        adjacency.push(row);
    }
    assert forall|c: int, f: int| #[trigger] at_most_one_twin(cells@, c, f) by {
        if !(0 <= c < cells.len() && 0 <= f < 6) {
            assert forall|d1: int, g1: int, d2: int, g2: int|
                twin_facets(cells@, c, f, d1, g1) && twin_facets(cells@, c, f, d2, g2) implies d1
                == d2 && g1 == g2 by {}
        }
    }
    Some(adjacency)
}

/// The two triangles `[v0, v2, v1]` and `[v0, v3, v2]` that split local facet `f` of `cell`.
pub open spec fn quad_triangles(cell: Hexahedron, f: int) -> Seq<u32> {
    let v0 = facet_vertex(cell, f, 0) as u32;
    let v1 = facet_vertex(cell, f, 1) as u32;
    let v2 = facet_vertex(cell, f, 2) as u32;
    let v3 = facet_vertex(cell, f, 3) as u32;
    seq![v0, v2, v1, v0, v3, v2]
}

/// The edge between `a` and `b`, smallest index first.
pub open spec fn sorted_edge(a: u32, b: u32) -> (u32, u32) {
    if a <= b {
        (a, b)
    } else {
        (b, a)
    }
}

/// The `k`-th side (0 to 3) of local facet `f` of `cell`.
pub open spec fn quad_edge(cell: Hexahedron, f: int, k: int) -> (u32, u32) {
    sorted_edge(facet_vertex(cell, f, k) as u32, facet_vertex(cell, f, (k + 1) % 4) as u32)
}

/// The triangle vertex indices of the surface facets visited before facet `f` of cell `c`.
pub open spec fn surface_indices_upto(
    cells: Seq<Hexahedron>,
    adjacency: Seq<[Option<(usize, usize)>; 6]>,
    c: nat,
    f: nat,
) -> Seq<u32>
    decreases c, f,
{
    if f == 0 {
        if c == 0 {
            Seq::empty()
        } else {
            surface_indices_upto(cells, adjacency, (c - 1) as nat, 6)
        }
    } else {
        surface_indices_upto(cells, adjacency, c, (f - 1) as nat) + if adjacency[c as int][f
            - 1] is None {
            quad_triangles(cells[c as int], f - 1)
        } else {
            Seq::empty()
        }
    }
}

/// The per-triangle quality values (two per surface facet, those of its cell) of the surface
/// facets visited before facet `f` of cell `c`.
pub open spec fn surface_qualities_upto<Quality>(
    adjacency: Seq<[Option<(usize, usize)>; 6]>,
    qualities: Seq<Quality>,
    c: nat,
    f: nat,
) -> Seq<Quality>
    decreases c, f,
{
    if f == 0 {
        if c == 0 {
            Seq::empty()
        } else {
            surface_qualities_upto(adjacency, qualities, (c - 1) as nat, 6)
        }
    } else {
        surface_qualities_upto(adjacency, qualities, c, (f - 1) as nat) + if adjacency[c as int][f
            - 1] is None {
            seq![qualities[c as int], qualities[c as int]]
        } else {
            Seq::empty()
        }
    }
}

/// The sides of the surface facets visited before facet `f` of cell `c`.
pub open spec fn surface_edges_upto(
    cells: Seq<Hexahedron>,
    adjacency: Seq<[Option<(usize, usize)>; 6]>,
    c: int,
    f: int,
) -> Set<(u32, u32)> {
    Set::new(
        |e: (u32, u32)|
            exists|d: int, g: int, k: int|
                #![trigger facet_before(d, g, c, f), quad_edge(cells[d], g, k)]
                0 <= d < cells.len() && 0 <= g < 6 && facet_before(d, g, c, f)
                    && adjacency[d][g] is None && 0 <= k < 4 && e == quad_edge(cells[d], g, k),
    )
}

/// The triangles of the surface of the mesh: two per facet without a neighbour.
pub open spec fn surface_indices(
    cells: Seq<Hexahedron>,
    adjacency: Seq<[Option<(usize, usize)>; 6]>,
) -> Seq<u32> {
    surface_indices_upto(cells, adjacency, cells.len(), 0)
}

/// The quality value of each surface triangle: that of its cell.
pub open spec fn surface_qualities<Quality>(
    cells: Seq<Hexahedron>,
    adjacency: Seq<[Option<(usize, usize)>; 6]>,
    qualities: Seq<Quality>,
) -> Seq<Quality> {
    surface_qualities_upto(adjacency, qualities, cells.len(), 0)
}

/// The edges of the surface of the mesh: the sides of the facets without a neighbour.
pub open spec fn surface_edges(
    cells: Seq<Hexahedron>,
    adjacency: Seq<[Option<(usize, usize)>; 6]>,
) -> Set<(u32, u32)> {
    surface_edges_upto(cells, adjacency, cells.len() as int, 0)
}

/// The adjacency computed from scratch: what `cell_adjacency` returns.
pub open spec fn computed_adjacency(cells: Seq<Hexahedron>) -> Seq<[Option<(usize, usize)>; 6]> {
    Seq::new(
        cells.len(),
        |c: int|
            [
                facet_neighbor(cells, c, 0),
                facet_neighbor(cells, c, 1),
                facet_neighbor(cells, c, 2),
                facet_neighbor(cells, c, 3),
                facet_neighbor(cells, c, 4),
                facet_neighbor(cells, c, 5),
            ],
    )
}

/// The adjacency that `triangulate_surface` works with: the given one, or when it is empty,
/// the one computed from the cells.
pub open spec fn effective_adjacency(
    cells: Seq<Hexahedron>,
    adjacency: Seq<[Option<(usize, usize)>; 6]>,
) -> Seq<[Option<(usize, usize)>; 6]> {
    if adjacency.len() == 0 {
        computed_adjacency(cells)
    } else {
        adjacency
    }
}

proof fn lemma_is_cell_adjacency_unique(
    cells: Seq<Hexahedron>,
    adjacency: Seq<[Option<(usize, usize)>; 6]>,
)
    requires
        is_cell_adjacency(cells, adjacency),
    ensures
        adjacency == computed_adjacency(cells),
{
    let other = computed_adjacency(cells);
    assert forall|c: int| 0 <= c < cells.len() implies adjacency[c] == other[c] by {
        assert forall|f: int| 0 <= f < 6 implies adjacency[c]@[f] == other[c]@[f] by {
            assert(adjacency[c][f] == facet_neighbor(cells, c, f));
        }
        assert(adjacency[c]@ =~= other[c]@);
    }
    assert(adjacency =~= other);
}

proof fn lemma_surface_edges_next_cell(
    cells: Seq<Hexahedron>,
    adjacency: Seq<[Option<(usize, usize)>; 6]>,
    c: int,
)
    ensures
        surface_edges_upto(cells, adjacency, c, 6) == surface_edges_upto(cells, adjacency, c + 1, 0),
{
    let a = surface_edges_upto(cells, adjacency, c, 6);
    let b = surface_edges_upto(cells, adjacency, c + 1, 0);
    assert forall|e: (u32, u32)| a.contains(e) <==> b.contains(e) by {
        if a.contains(e) {
            let (d, g, k) = choose|d: int, g: int, k: int|
                #![trigger facet_before(d, g, c, 6), quad_edge(cells[d], g, k)]
                0 <= d < cells.len() && 0 <= g < 6 && facet_before(d, g, c, 6)
                    && adjacency[d][g] is None && 0 <= k < 4 && e == quad_edge(cells[d], g, k);
            assert(facet_before(d, g, c + 1, 0));
        }
        if b.contains(e) {
            let (d, g, k) = choose|d: int, g: int, k: int|
                #![trigger facet_before(d, g, c + 1, 0), quad_edge(cells[d], g, k)]
                0 <= d < cells.len() && 0 <= g < 6 && facet_before(d, g, c + 1, 0)
                    && adjacency[d][g] is None && 0 <= k < 4 && e == quad_edge(cells[d], g, k);
            assert(facet_before(d, g, c, 6));
        }
    }
    assert(a =~= b);
}

proof fn lemma_surface_edges_next_facet(
    cells: Seq<Hexahedron>,
    adjacency: Seq<[Option<(usize, usize)>; 6]>,
    c: int,
    f: int,
)
    requires
        0 <= c < cells.len(),
        0 <= f < 6,
    ensures
        surface_edges_upto(cells, adjacency, c, f + 1) == if adjacency[c][f] is None {
            surface_edges_upto(cells, adjacency, c, f).insert(quad_edge(cells[c], f, 0)).insert(
                quad_edge(cells[c], f, 1),
            ).insert(quad_edge(cells[c], f, 2)).insert(quad_edge(cells[c], f, 3))
        } else {
            surface_edges_upto(cells, adjacency, c, f)
        },
{
    let a = surface_edges_upto(cells, adjacency, c, f);
    let b = surface_edges_upto(cells, adjacency, c, f + 1);
    let r = if adjacency[c][f] is None {
        a.insert(quad_edge(cells[c], f, 0)).insert(quad_edge(cells[c], f, 1)).insert(
            quad_edge(cells[c], f, 2),
        ).insert(quad_edge(cells[c], f, 3))
    } else {
        a
    };
    assert forall|e: (u32, u32)| b.contains(e) <==> r.contains(e) by {
        if b.contains(e) {
            let (d, g, k) = choose|d: int, g: int, k: int|
                #![trigger facet_before(d, g, c, f + 1), quad_edge(cells[d], g, k)]
                0 <= d < cells.len() && 0 <= g < 6 && facet_before(d, g, c, f + 1)
                    && adjacency[d][g] is None && 0 <= k < 4 && e == quad_edge(cells[d], g, k);
            if d == c && g == f {
                assert(k == 0 || k == 1 || k == 2 || k == 3);
            } else {
                assert(facet_before(d, g, c, f));
            }
        }
        if a.contains(e) {
            let (d, g, k) = choose|d: int, g: int, k: int|
                #![trigger facet_before(d, g, c, f), quad_edge(cells[d], g, k)]
                0 <= d < cells.len() && 0 <= g < 6 && facet_before(d, g, c, f)
                    && adjacency[d][g] is None && 0 <= k < 4 && e == quad_edge(cells[d], g, k);
            assert(facet_before(d, g, c, f + 1));
        }
        if adjacency[c][f] is None {
            assert(facet_before(c, f, c, f + 1));
            if e == quad_edge(cells[c], f, 0) {
                assert(b.contains(e));
            }
            if e == quad_edge(cells[c], f, 1) {
                assert(b.contains(e));
            }
            if e == quad_edge(cells[c], f, 2) {
                assert(b.contains(e));
            }
            if e == quad_edge(cells[c], f, 3) {
                assert(b.contains(e));
            }
        }
    }
    assert(b =~= r);
}

/// A hexahedral mesh: points (of any type `Point`), cells given by point indices, an optional
/// per-cell quality value, and the facet adjacency between cells.
pub struct HexMesh<Point, Quality> {
    pub points: Vec<Point>,
    pub cells: Vec<Hexahedron>,
    pub scaled_jacobians: Option<Vec<Quality>>,
    /// For each cell, for each of its facets, either a cell index and a local facet index,
    /// or `None`.
    pub cell_adjacency: Vec<[Option<(usize, usize)>; 6]>,
}

impl<Point, Quality> HexMesh<Point, Quality> {
    pub fn new() -> (mesh: Self)
        ensures
            mesh.points@.len() == 0,
            mesh.cells@.len() == 0,
            mesh.scaled_jacobians is None,
            mesh.cell_adjacency@.len() == 0,
    {
        HexMesh {
            points: Vec::new(),
            cells: Vec::new(),
            scaled_jacobians: None,
            cell_adjacency: Vec::new(),
        }
    }

    /// Computes, for each facet of each cell, the facet on the other side of it.
    pub fn compute_cell_adjacency(&mut self)
        requires
            facets_shared_at_most_twice(old(self).cells@),
        ensures
            is_cell_adjacency(final(self).cells@, final(self).cell_adjacency@),
            final(self).points@ == old(self).points@,
            final(self).cells@ == old(self).cells@,
            final(self).scaled_jacobians == old(self).scaled_jacobians,
    {
        match cell_adjacency(&self.cells) {
            Some(adjacency) => {
                self.cell_adjacency = adjacency;
            },
            None => {},
        }
    }
}

/// Appends the two triangles of local facet `f` of `cell` (v0 v1 v2 v3 split along v0 v2),
/// its quality value twice, and its 4 sides.
fn push_surface_quad<Position, Uv, Quality: Copy>(
    trianglemesh: &mut TriangleMesh<Position, Uv>,
    per_triangle: &mut Vec<Quality>,
    cell: &Hexahedron,
    f: usize,
    q: Quality,
)
    requires
        f < 6,
        forall|k: int| 0 <= k < 4 ==> #[trigger] facet_vertex(*cell, f as int, k) <= u32::MAX,
    ensures
        final(trianglemesh).indices@ == old(trianglemesh).indices@ + quad_triangles(*cell, f as int),
        final(per_triangle)@ == old(per_triangle)@ + seq![q, q],
        final(trianglemesh).edges@.to_set() == old(trianglemesh).edges@.to_set().insert(
            quad_edge(*cell, f as int, 0),
        ).insert(quad_edge(*cell, f as int, 1)).insert(quad_edge(*cell, f as int, 2)).insert(
            quad_edge(*cell, f as int, 3),
        ),
        final(trianglemesh).edges@.no_duplicates(),
        final(trianglemesh).positions@ == old(trianglemesh).positions@,
        final(trianglemesh).uv@ == old(trianglemesh).uv@,
{
    assert(facet_vertex(*cell, f as int, 0) <= u32::MAX);
    assert(facet_vertex(*cell, f as int, 1) <= u32::MAX);
    assert(facet_vertex(*cell, f as int, 2) <= u32::MAX);
    assert(facet_vertex(*cell, f as int, 3) <= u32::MAX);
    let v0 = cell.vertices[Hexahedron::FACET_SPLITTING[f][1]] as u32;
    let v1 = cell.vertices[Hexahedron::FACET_SPLITTING[f][2]] as u32;
    let v2 = cell.vertices[Hexahedron::FACET_SPLITTING[f][3]] as u32;
    let v3 = cell.vertices[Hexahedron::FACET_SPLITTING[f][4]] as u32;
    trianglemesh.indices.push(v0);
    trianglemesh.indices.push(v2);
    trianglemesh.indices.push(v1);
    trianglemesh.indices.push(v0);
    trianglemesh.indices.push(v3);
    trianglemesh.indices.push(v2);
    assert(trianglemesh.indices@ =~= old(trianglemesh).indices@ + quad_triangles(*cell, f as int));
    per_triangle.push(q);
    per_triangle.push(q);
    assert(per_triangle@ =~= old(per_triangle)@ + seq![q, q]);
    // sides of the quad, each with its smallest vertex index first
    let e0 = if v0 <= v1 { (v0, v1) } else { (v1, v0) };
    let e1 = if v1 <= v2 { (v1, v2) } else { (v2, v1) };
    let e2 = if v2 <= v3 { (v2, v3) } else { (v3, v2) };
    let e3 = if v3 <= v0 { (v3, v0) } else { (v0, v3) };
    assert(e0 == quad_edge(*cell, f as int, 0));
    assert(e1 == quad_edge(*cell, f as int, 1));
    assert(e2 == quad_edge(*cell, f as int, 2));
    assert(e3 == quad_edge(*cell, f as int, 3));
    trianglemesh.edges.insert(e0);
    trianglemesh.edges.insert(e1);
    trianglemesh.edges.insert(e2);
    trianglemesh.edges.insert(e3);
}

impl<Point: Copy, Quality: Copy> HexMesh<Point, Quality> {
    /// Extracts the surface of the mesh, as a triangle mesh sharing the points of the hex mesh,
    /// with its quad edges, and the quality value of each triangle (that of its cell). The cell
    /// adjacency is computed first when it is empty; the quality values must be there.
    pub fn triangulate_surface<Uv>(&mut self) -> (result: (TriangleMesh<Point, Uv>, Vec<Quality>))
        requires
            old(self).points@.len() > 0,
            old(self).scaled_jacobians is Some,
            old(self).cell_adjacency@.len() == 0 ==> facets_shared_at_most_twice(old(self).cells@),
            old(self).cell_adjacency@.len() != 0 ==> old(self).cell_adjacency@.len()
                >= old(self).cells@.len(),
            forall|c: int, f: int|
                0 <= c < old(self).cells@.len() && 0 <= f < 6 && (#[trigger] effective_adjacency(
                    old(self).cells@,
                    old(self).cell_adjacency@,
                )[c][f]) is None ==> c < old(self).scaled_jacobians.unwrap()@.len() && forall|k: int|
                    0 <= k < 4 ==> #[trigger] facet_vertex(old(self).cells@[c], f, k) <= u32::MAX,
        ensures
            final(self).cell_adjacency@ == effective_adjacency(
                old(self).cells@,
                old(self).cell_adjacency@,
            ),
            final(self).points@ == old(self).points@,
            final(self).cells@ == old(self).cells@,
            final(self).scaled_jacobians == old(self).scaled_jacobians,
            result.0.positions@ == old(self).points@,
            result.0.uv@.len() == 0,
            result.0.indices@ == surface_indices(old(self).cells@, final(self).cell_adjacency@),
            result.0.edges@.to_set() == surface_edges(old(self).cells@, final(self).cell_adjacency@),
            result.0.edges@.no_duplicates(),
            result.1@ == surface_qualities(
                old(self).cells@,
                final(self).cell_adjacency@,
                old(self).scaled_jacobians.unwrap()@,
            ),
    {
        broadcast use vstd::seq_lib::group_seq_properties;

        if self.cell_adjacency.len() == 0 {
            self.compute_cell_adjacency();
            proof {
                lemma_is_cell_adjacency_unique(self.cells@, self.cell_adjacency@);
            }
        }
        let ghost cells = self.cells@;
        let ghost adj = self.cell_adjacency@;
        assert(adj == effective_adjacency(old(self).cells@, old(self).cell_adjacency@));
        assert forall|c: int, f: int|
            0 <= c < cells.len() && 0 <= f < 6 && (#[trigger] adj[c][f]) is None implies c
                < self.scaled_jacobians.unwrap()@.len() && forall|k: int|
                0 <= k < 4 ==> #[trigger] facet_vertex(cells[c], f, k) <= u32::MAX by {
            assert(effective_adjacency(old(self).cells@, old(self).cell_adjacency@)[c][f] is None);
        }
        let qualities = self.scaled_jacobians.as_ref().unwrap();
        let mut trianglemesh: TriangleMesh<Point, Uv> = TriangleMesh::new();
        let mut per_triangle: Vec<Quality> = Vec::new();
        for i in 0..self.points.len()
            invariant
                trianglemesh.positions@ == self.points@.subrange(0, i as int),
                trianglemesh.indices@.len() == 0,
                trianglemesh.uv@.len() == 0,
                trianglemesh.edges@.len() == 0,
                per_triangle@.len() == 0,
        {
            trianglemesh.positions.push(self.points[i]);
            assert(trianglemesh.positions@ =~= self.points@.subrange(0, i + 1));
        }
        assert(trianglemesh.positions@ =~= self.points@);
        assert(trianglemesh.indices@ =~= surface_indices_upto(cells, adj, 0, 0));
        assert(per_triangle@ =~= surface_qualities_upto(adj, qualities@, 0, 0));
        assert(trianglemesh.edges@.to_set() =~= surface_edges_upto(cells, adj, 0, 0));
        for c in 0..self.cells.len()
            invariant
                cells == self.cells@,
                adj == self.cell_adjacency@,
                adj.len() >= cells.len(),
                self.scaled_jacobians == Some(*qualities),
                forall|c: int, f: int|
                    0 <= c < cells.len() && 0 <= f < 6 && (#[trigger] adj[c][f]) is None ==> c
                        < qualities@.len() && forall|k: int|
                        0 <= k < 4 ==> #[trigger] facet_vertex(cells[c], f, k) <= u32::MAX,
                trianglemesh.indices@ == surface_indices_upto(cells, adj, c as nat, 0),
                per_triangle@ == surface_qualities_upto(adj, qualities@, c as nat, 0),
                trianglemesh.edges@.to_set() == surface_edges_upto(cells, adj, c as int, 0),
                trianglemesh.edges@.no_duplicates(),
                trianglemesh.uv@.len() == 0,
                trianglemesh.positions@ == self.points@,
        {
            let current_hex = &self.cells[c];
            for f in 0..6usize
                invariant
                    c < cells.len(),
                    cells == self.cells@,
                    *current_hex == cells[c as int],
                    adj == self.cell_adjacency@,
                    adj.len() >= cells.len(),
                    self.scaled_jacobians == Some(*qualities),
                    forall|c: int, f: int|
                        0 <= c < cells.len() && 0 <= f < 6 && (#[trigger] adj[c][f]) is None ==> c
                            < qualities@.len() && forall|k: int|
                            0 <= k < 4 ==> #[trigger] facet_vertex(cells[c], f, k) <= u32::MAX,
                    trianglemesh.indices@ == surface_indices_upto(cells, adj, c as nat, f as nat),
                    per_triangle@ == surface_qualities_upto(adj, qualities@, c as nat, f as nat),
                    trianglemesh.edges@.to_set() == surface_edges_upto(cells, adj, c as int, f as int),
                    trianglemesh.edges@.no_duplicates(),
                    trianglemesh.uv@.len() == 0,
                    trianglemesh.positions@ == self.points@,
            {
                proof {
                    lemma_surface_edges_next_facet(cells, adj, c as int, f as int);
                }
                if self.cell_adjacency[c][f].is_none() {
                    let ghost before = trianglemesh.indices@;
                    let ghost before_q = per_triangle@;
                    assert(forall|k: int| 0 <= k < 4 ==> #[trigger] facet_vertex(cells[c as int], f as int, k) <= u32::MAX);
                    push_surface_quad(&mut trianglemesh, &mut per_triangle, current_hex, f, qualities[c]);
                    assert(trianglemesh.indices@ =~= surface_indices_upto(cells, adj, c as nat, (f + 1) as nat));
                    assert(per_triangle@ =~= surface_qualities_upto(adj, qualities@, c as nat, (f + 1) as nat));
                } else {
                    assert(trianglemesh.indices@ =~= surface_indices_upto(cells, adj, c as nat, (f + 1) as nat));
                    assert(per_triangle@ =~= surface_qualities_upto(adj, qualities@, c as nat, (f + 1) as nat));
                }
            }
            proof {
                lemma_surface_edges_next_cell(cells, adj, c as int);
            }
        }
        (trianglemesh, per_triangle)
    }
}

} // verus!

verus! {

/// Adjacency is symmetric: when no quad lies on more than two facets, and facet `f` of cell `c`
/// has facet `g` of another cell `d` as its neighbour, then facet `g` of cell `d` has facet `f`
/// of cell `c` as its neighbour.
pub proof fn lemma_adjacency_symmetric(
    cells: Seq<Hexahedron>,
    adjacency: Seq<[Option<(usize, usize)>; 6]>,
    c: int,
    f: int,
)
    requires
        is_cell_adjacency(cells, adjacency),
        facets_shared_at_most_twice(cells),
        cells.len() <= usize::MAX,
        0 <= c < cells.len(),
        0 <= f < 6,
        adjacency[c][f] is Some,
        adjacency[c][f].unwrap().0 != c,
    ensures
        ({
            let (d, g) = adjacency[c][f].unwrap();
            &&& (d as int) < cells.len()
            &&& (g as int) < 6
            &&& adjacency[d as int][g as int] == Some((c as usize, f as usize))
        }),
{
    assert(adjacency[c][f] == facet_neighbor(cells, c, f));
    let (d, g) = twin_of(cells, c, f);
    assert(twin_facets(cells, c, f, d, g));
    assert(twin_facets(cells, d, g, c, f));
    assert(has_twin(cells, d, g));
    let (c2, f2) = twin_of(cells, d, g);
    assert(twin_facets(cells, d, g, c2, f2));
    assert(at_most_one_twin(cells, d, g));
    assert(c2 == c && f2 == f);
    assert(adjacency[d][g] == facet_neighbor(cells, d, g));
}

/// A facet and its neighbour lie on the same 4 vertices.
pub proof fn lemma_adjacent_facets_share_vertices(
    cells: Seq<Hexahedron>,
    adjacency: Seq<[Option<(usize, usize)>; 6]>,
    c: int,
    f: int,
)
    requires
        is_cell_adjacency(cells, adjacency),
        cells.len() <= usize::MAX,
        0 <= c < cells.len(),
        0 <= f < 6,
        adjacency[c][f] is Some,
    ensures
        ({
            let (d, g) = adjacency[c][f].unwrap();
            &&& (d as int) < cells.len()
            &&& (g as int) < 6
            &&& facet_vertex_multiset(cells[d as int], g as int) == facet_vertex_multiset(
                cells[c],
                f,
            )
        }),
{
    assert(adjacency[c][f] == facet_neighbor(cells, c, f));
    let (d, g) = twin_of(cells, c, f);
    assert(twin_facets(cells, c, f, d, g));
    if !(d == c && g < f) {
        assert(adjacency[c][f] == Some((d as usize, g as usize)));
    }
}

/// A facet has no neighbour exactly when no other facet lies on the same 4 vertices.
pub proof fn lemma_surface_facets_unshared(
    cells: Seq<Hexahedron>,
    adjacency: Seq<[Option<(usize, usize)>; 6]>,
    c: int,
    f: int,
)
    requires
        is_cell_adjacency(cells, adjacency),
        0 <= c < cells.len(),
        0 <= f < 6,
    ensures
        adjacency[c][f] is None <==> forall|d: int, g: int|
            0 <= d < cells.len() && 0 <= g < 6 && (d != c || g != f) ==> facet_vertex_multiset(
                cells[d],
                g,
            ) != facet_vertex_multiset(cells[c], f),
{
    assert(adjacency[c][f] == facet_neighbor(cells, c, f));
    if adjacency[c][f] is None {
        assert forall|d: int, g: int|
            0 <= d < cells.len() && 0 <= g < 6 && (d != c || g != f) implies facet_vertex_multiset(
            cells[d],
            g,
        ) != facet_vertex_multiset(cells[c], f) by {
            if facet_vertex_multiset(cells[d], g) == facet_vertex_multiset(cells[c], f) {
                assert(twin_facets(cells, c, f, d, g));
            }
        }
    } else {
        let (d, g) = twin_of(cells, c, f);
        assert(twin_facets(cells, c, f, d, g));
    }
}

/// The surface has 3 vertex indices per quality value: each surface quad gives 2 triangles,
/// each with the quality value of its cell.
pub proof fn lemma_surface_triangle_count<Quality>(
    cells: Seq<Hexahedron>,
    adjacency: Seq<[Option<(usize, usize)>; 6]>,
    qualities: Seq<Quality>,
)
    ensures
        surface_indices(cells, adjacency).len() == 3 * surface_qualities(
            cells,
            adjacency,
            qualities,
        ).len(),
{
    lemma_surface_triangle_count_upto(cells, adjacency, qualities, cells.len(), 0);
}

proof fn lemma_surface_triangle_count_upto<Quality>(
    cells: Seq<Hexahedron>,
    adjacency: Seq<[Option<(usize, usize)>; 6]>,
    qualities: Seq<Quality>,
    c: nat,
    f: nat,
)
    ensures
        surface_indices_upto(cells, adjacency, c, f).len() == 3 * surface_qualities_upto(
            adjacency,
            qualities,
            c,
            f,
        ).len(),
    decreases c, f,
{
    if f == 0 {
        if c > 0 {
            lemma_surface_triangle_count_upto(cells, adjacency, qualities, (c - 1) as nat, 6);
        }
    } else {
        lemma_surface_triangle_count_upto(cells, adjacency, qualities, c, (f - 1) as nat);
    }
}

/// When every cell vertex refers to a point, every surface triangle vertex refers to a point
/// (with `lemma_surface_edges_in_range`: the triangle mesh from `triangulate_surface` passes
/// `sanity_check`).
pub proof fn lemma_surface_indices_in_range(
    cells: Seq<Hexahedron>,
    adjacency: Seq<[Option<(usize, usize)>; 6]>,
    nb_points: nat,
)
    requires
        nb_points <= u32::MAX + 1,
        forall|c: int, k: int|
            0 <= c < cells.len() && 0 <= k < 8 ==> (#[trigger] cells[c].vertices[k] as int)
                < nb_points,
    ensures
        forall|k: int|
            0 <= k < surface_indices(cells, adjacency).len() ==> (#[trigger] surface_indices(
                cells,
                adjacency,
            )[k] as int) < nb_points,
{
    lemma_surface_indices_in_range_upto(cells, adjacency, nb_points, cells.len(), 0);
}

proof fn lemma_surface_indices_in_range_upto(
    cells: Seq<Hexahedron>,
    adjacency: Seq<[Option<(usize, usize)>; 6]>,
    nb_points: nat,
    c: nat,
    f: nat,
)
    requires
        nb_points <= u32::MAX + 1,
        c <= cells.len(),
        f <= 6,
        f > 0 ==> c < cells.len(),
        forall|c: int, k: int|
            0 <= c < cells.len() && 0 <= k < 8 ==> (#[trigger] cells[c].vertices[k] as int)
                < nb_points,
    ensures
        forall|k: int|
            0 <= k < surface_indices_upto(cells, adjacency, c, f).len() ==> (
            #[trigger] surface_indices_upto(cells, adjacency, c, f)[k] as int) < nb_points,
    decreases c, f,
{
    if f == 0 {
        if c > 0 {
            lemma_surface_indices_in_range_upto(cells, adjacency, nb_points, (c - 1) as nat, 6);
            assert(surface_indices_upto(cells, adjacency, c, f) == surface_indices_upto(
                cells,
                adjacency,
                (c - 1) as nat,
                6,
            ));
        } else {
            assert(surface_indices_upto(cells, adjacency, c, f).len() == 0);
        }
    } else {
        lemma_surface_indices_in_range_upto(cells, adjacency, nb_points, c, (f - 1) as nat);
        let prev = surface_indices_upto(cells, adjacency, c, (f - 1) as nat);
        let cur = surface_indices_upto(cells, adjacency, c, f);
        if adjacency[c as int][f - 1] is None {
            let cell = cells[c as int];
            let g = f - 1;
            assert forall|k: int| 0 <= k < 4 implies (facet_vertex(cell, g, k) as int) < nb_points by {
                let corner = facet_corner(g, k);
                assert(0 <= corner < 8);
                assert(cells[c as int].vertices[corner] < nb_points);
            }
            let q = quad_triangles(cell, g);
            assert(cur =~= prev + q);
            assert forall|k: int| 0 <= k < cur.len() implies (#[trigger] cur[k] as int) < nb_points by {
                if k >= prev.len() {
                    assert(cur[k] == q[k - prev.len()]);
                } else {
                    assert(cur[k] == prev[k]);
                }
            }
        } else {
            assert(cur =~= prev);
        }
    }
}

/// When every cell vertex refers to a point, both ends of every surface edge refer to a point.
pub proof fn lemma_surface_edges_in_range(
    cells: Seq<Hexahedron>,
    adjacency: Seq<[Option<(usize, usize)>; 6]>,
    nb_points: nat,
    e: (u32, u32),
)
    requires
        nb_points <= u32::MAX + 1,
        forall|c: int, k: int|
            0 <= c < cells.len() && 0 <= k < 8 ==> (#[trigger] cells[c].vertices[k] as int)
                < nb_points,
        surface_edges(cells, adjacency).contains(e),
    ensures
        (e.0 as int) < nb_points,
        (e.1 as int) < nb_points,
{
    let (d, g, k) = choose|d: int, g: int, k: int|
        #![trigger facet_before(d, g, cells.len() as int, 0), quad_edge(cells[d], g, k)]
        0 <= d < cells.len() && 0 <= g < 6 && facet_before(d, g, cells.len() as int, 0)
            && adjacency[d][g] is None && 0 <= k < 4 && e == quad_edge(cells[d], g, k);
    let c0 = facet_corner(g, k);
    let c1 = facet_corner(g, (k + 1) % 4);
    assert(0 <= c0 < 8 && 0 <= c1 < 8);
    assert((cells[d].vertices[c0] as int) < nb_points);
    assert((cells[d].vertices[c1] as int) < nb_points);
}

proof fn lemma_surface_indices_upto_contains(
    cells: Seq<Hexahedron>,
    adjacency: Seq<[Option<(usize, usize)>; 6]>,
    c: nat,
    f: nat,
    d: int,
    g: int,
    k: int,
)
    requires
        c <= cells.len(),
        f <= 6,
        f > 0 ==> c < cells.len(),
        0 <= d < cells.len(),
        0 <= g < 6,
        facet_before(d, g, c as int, f as int),
        adjacency[d][g] is None,
        0 <= k < 6,
    ensures
        surface_indices_upto(cells, adjacency, c, f).contains(quad_triangles(cells[d], g)[k]),
    decreases c, f,
{
    let x = quad_triangles(cells[d], g)[k];
    if f == 0 {
        lemma_surface_indices_upto_contains(cells, adjacency, (c - 1) as nat, 6, d, g, k);
    } else {
        let prev = surface_indices_upto(cells, adjacency, c, (f - 1) as nat);
        let cur = surface_indices_upto(cells, adjacency, c, f);
        if d == c && g == f - 1 {
            let q = quad_triangles(cells[d], g);
            assert(cur =~= prev + q);
            assert(cur[prev.len() + k] == x);
        } else {
            lemma_surface_indices_upto_contains(cells, adjacency, c, (f - 1) as nat, d, g, k);
            let i = choose|i: int| 0 <= i < prev.len() && prev[i] == x;
            assert(cur[i] == x);
        }
    }
}

/// Both ends of every surface edge are surface triangle vertices (so the triangle mesh from
/// `triangulate_surface` meets the condition of `lemma_no_isolated_vertex_left` and
/// `lemma_remove_isolated_vertices_idempotent`).
pub proof fn lemma_surface_edge_ends_in_triangles(
    cells: Seq<Hexahedron>,
    adjacency: Seq<[Option<(usize, usize)>; 6]>,
    e: (u32, u32),
)
    requires
        surface_edges(cells, adjacency).contains(e),
    ensures
        surface_indices(cells, adjacency).contains(e.0),
        surface_indices(cells, adjacency).contains(e.1),
{
    let n = cells.len() as int;
    let (d, g, k) = choose|d: int, g: int, k: int|
        #![trigger facet_before(d, g, n, 0), quad_edge(cells[d], g, k)]
        0 <= d < cells.len() && 0 <= g < 6 && facet_before(d, g, n, 0) && adjacency[d][g] is None
            && 0 <= k < 4 && e == quad_edge(cells[d], g, k);
    // the quad's triangles hold each of its 4 vertices
    let q = quad_triangles(cells[d], g);
    lemma_surface_indices_upto_contains(cells, adjacency, cells.len(), 0, d, g, 0);
    lemma_surface_indices_upto_contains(cells, adjacency, cells.len(), 0, d, g, 1);
    lemma_surface_indices_upto_contains(cells, adjacency, cells.len(), 0, d, g, 2);
    lemma_surface_indices_upto_contains(cells, adjacency, cells.len(), 0, d, g, 4);
    assert(q[0] == facet_vertex(cells[d], g, 0) as u32);
    assert(q[2] == facet_vertex(cells[d], g, 1) as u32);
    assert(q[1] == facet_vertex(cells[d], g, 2) as u32);
    assert(q[4] == facet_vertex(cells[d], g, 3) as u32);
}

/// The surface facets (cell, local facet) visited before facet `f` of cell `c`, in order.
pub open spec fn surface_facets_upto(
    adjacency: Seq<[Option<(usize, usize)>; 6]>,
    c: nat,
    f: nat,
) -> Seq<(int, int)>
    decreases c, f,
{
    if f == 0 {
        if c == 0 {
            Seq::empty()
        } else {
            surface_facets_upto(adjacency, (c - 1) as nat, 6)
        }
    } else {
        surface_facets_upto(adjacency, c, (f - 1) as nat) + if adjacency[c as int][f - 1] is None {
            seq![(c as int, f - 1)]
        } else {
            Seq::empty()
        }
    }
}

/// The facets without a neighbour, cell by cell and within a cell by local facet index.
pub open spec fn surface_facets(
    cells: Seq<Hexahedron>,
    adjacency: Seq<[Option<(usize, usize)>; 6]>,
) -> Seq<(int, int)> {
    surface_facets_upto(adjacency, cells.len(), 0)
}

/// Triangle `a` is triangle `b`, possibly starting at another of its corners (so with the same
/// orientation).
pub open spec fn same_triangle(a: Seq<u32>, b: Seq<u32>) -> bool {
    &&& a.len() == 3
    &&& b.len() == 3
    &&& (a == b || a == seq![b[1], b[2], b[0]] || a == seq![b[2], b[0], b[1]])
}

proof fn lemma_surface_blocks_upto(
    cells: Seq<Hexahedron>,
    adjacency: Seq<[Option<(usize, usize)>; 6]>,
    c: nat,
    f: nat,
)
    requires
        c <= cells.len(),
        f <= 6,
        f > 0 ==> c < cells.len(),
    ensures
        surface_indices_upto(cells, adjacency, c, f).len() == 6 * surface_facets_upto(
            adjacency,
            c,
            f,
        ).len(),
        forall|j: int|
            0 <= j < surface_facets_upto(adjacency, c, f).len() ==> {
                let (d, g) = #[trigger] surface_facets_upto(adjacency, c, f)[j];
                &&& 0 <= d < cells.len()
                &&& 0 <= g < 6
                &&& facet_before(d, g, c as int, f as int)
                &&& adjacency[d][g] is None
                &&& surface_indices_upto(cells, adjacency, c, f).subrange(6 * j, 6 * j + 6)
                    == quad_triangles(cells[d], g)
            },
    decreases c, f,
{
    if f == 0 {
        if c > 0 {
            lemma_surface_blocks_upto(cells, adjacency, (c - 1) as nat, 6);
        }
    } else {
        lemma_surface_blocks_upto(cells, adjacency, c, (f - 1) as nat);
        let prev = surface_indices_upto(cells, adjacency, c, (f - 1) as nat);
        let cur = surface_indices_upto(cells, adjacency, c, f);
        let pf = surface_facets_upto(adjacency, c, (f - 1) as nat);
        let cf = surface_facets_upto(adjacency, c, f);
        if adjacency[c as int][f - 1] is None {
            let q = quad_triangles(cells[c as int], f - 1);
            assert(cur =~= prev + q);
            assert(cf =~= pf.push((c as int, f - 1)));
            assert forall|j: int| 0 <= j < cf.len() implies {
                let (d, g) = #[trigger] cf[j];
                &&& 0 <= d < cells.len()
                &&& 0 <= g < 6
                &&& facet_before(d, g, c as int, f as int)
                &&& adjacency[d][g] is None
                &&& cur.subrange(6 * j, 6 * j + 6) == quad_triangles(cells[d], g)
            } by {
                if j < pf.len() {
                    assert(cf[j] == pf[j]);
                    assert(cur.subrange(6 * j, 6 * j + 6) =~= prev.subrange(6 * j, 6 * j + 6));
                } else {
                    assert(cur.subrange(6 * j, 6 * j + 6) =~= q);
                }
            }
        } else {
            assert(cur =~= prev);
            assert(cf =~= pf);
        }
    }
}

/// The two triangles of each surface facet keep the facet's orientation (its corners are listed
/// clockwise as seen from outside the cell, so the triangles face out): the surface has two
/// triangles per facet without a neighbour, in visiting order, and for such a facet with corners
/// `w0 w1 w2 w3` they are `(w0, w2, w1)` and `(w0, w3, w2)`, each up to the corner it starts at.
pub proof fn lemma_surface_triangles_keep_facet_orientation(
    cells: Seq<Hexahedron>,
    adjacency: Seq<[Option<(usize, usize)>; 6]>,
)
    ensures
        surface_indices(cells, adjacency).len() == 6 * surface_facets(cells, adjacency).len(),
        forall|j: int|
            0 <= j < surface_facets(cells, adjacency).len() ==> {
                let (c, f) = #[trigger] surface_facets(cells, adjacency)[j];
                let w0 = facet_vertex(cells[c], f, 0) as u32;
                let w1 = facet_vertex(cells[c], f, 1) as u32;
                let w2 = facet_vertex(cells[c], f, 2) as u32;
                let w3 = facet_vertex(cells[c], f, 3) as u32;
                let s = surface_indices(cells, adjacency);
                &&& 0 <= c < cells.len()
                &&& 0 <= f < 6
                &&& adjacency[c][f] is None
                &&& same_triangle(s.subrange(6 * j, 6 * j + 3), seq![w0, w2, w1])
                &&& same_triangle(s.subrange(6 * j + 3, 6 * j + 6), seq![w0, w3, w2])
            },
{
    lemma_surface_blocks_upto(cells, adjacency, cells.len(), 0);
    let s = surface_indices(cells, adjacency);
    let sf = surface_facets(cells, adjacency);
    assert forall|j: int| 0 <= j < sf.len() implies {
        let (c, f) = #[trigger] sf[j];
        let w0 = facet_vertex(cells[c], f, 0) as u32;
        let w1 = facet_vertex(cells[c], f, 1) as u32;
        let w2 = facet_vertex(cells[c], f, 2) as u32;
        let w3 = facet_vertex(cells[c], f, 3) as u32;
        &&& 0 <= c < cells.len()
        &&& 0 <= f < 6
        &&& adjacency[c][f] is None
        &&& same_triangle(s.subrange(6 * j, 6 * j + 3), seq![w0, w2, w1])
        &&& same_triangle(s.subrange(6 * j + 3, 6 * j + 6), seq![w0, w3, w2])
    } by {
        let (c, f) = sf[j];
        let b = s.subrange(6 * j, 6 * j + 6);
        assert(b == quad_triangles(cells[c], f));
        assert(s.subrange(6 * j, 6 * j + 3) =~= b.subrange(0, 3));
        assert(s.subrange(6 * j + 3, 6 * j + 6) =~= b.subrange(3, 6));
        let w0 = facet_vertex(cells[c], f, 0) as u32;
        let w1 = facet_vertex(cells[c], f, 1) as u32;
        let w2 = facet_vertex(cells[c], f, 2) as u32;
        let w3 = facet_vertex(cells[c], f, 3) as u32;
        assert(b.subrange(0, 3) =~= seq![w0, w2, w1]);
        assert(b.subrange(3, 6) =~= seq![w0, w3, w2]);
    }
}

/// Side `k` (0 to 3) of facet `f` of `cell` joins its corners `k` and `k + 1` (the last one
/// back to corner 0).
pub open spec fn joins_side(e: (u32, u32), cell: Hexahedron, f: int, k: int) -> bool {
    let a = facet_vertex(cell, f, k) as u32;
    let b = facet_vertex(cell, f, if k == 3 { 0 } else { k + 1 }) as u32;
    (e == (a, b) || e == (b, a)) && e.0 <= e.1
}

/// The surface edges are exactly the sides of the facets without a neighbour, each stored
/// with its smallest vertex index first.
pub proof fn lemma_surface_edges_are_facet_sides(
    cells: Seq<Hexahedron>,
    adjacency: Seq<[Option<(usize, usize)>; 6]>,
    e: (u32, u32),
)
    ensures
        surface_edges(cells, adjacency).contains(e) <==> exists|c: int, f: int, k: int|
            0 <= c < cells.len() && 0 <= f < 6 && adjacency[c][f] is None && 0 <= k < 4
                && #[trigger] joins_side(e, cells[c], f, k),
{
    let n = cells.len() as int;
    if surface_edges(cells, adjacency).contains(e) {
        let (d, g, k) = choose|d: int, g: int, k: int|
            #![trigger facet_before(d, g, n, 0), quad_edge(cells[d], g, k)]
            0 <= d < cells.len() && 0 <= g < 6 && facet_before(d, g, n, 0)
                && adjacency[d][g] is None && 0 <= k < 4 && e == quad_edge(cells[d], g, k);
        assert((k + 1) % 4 == if k == 3 { 0 } else { k + 1 });
        assert(joins_side(e, cells[d], g, k));
    }
    if exists|c: int, f: int, k: int|
        0 <= c < cells.len() && 0 <= f < 6 && adjacency[c][f] is None && 0 <= k < 4
            && #[trigger] joins_side(e, cells[c], f, k) {
        let (c, f, k) = choose|c: int, f: int, k: int|
            0 <= c < cells.len() && 0 <= f < 6 && adjacency[c][f] is None && 0 <= k < 4
                && #[trigger] joins_side(e, cells[c], f, k);
        assert((k + 1) % 4 == if k == 3 { 0 } else { k + 1 });
        assert(e == quad_edge(cells[c], f, k));
        assert(facet_before(c, f, n, 0));
        assert(surface_edges(cells, adjacency).contains(e));
    }
}

/// Calling `triangulate_surface` again gives the same surface: the adjacency that the first
/// call stores is the one the second call works with, and the second call can be made (its
/// adjacency is as long as the cells).
pub proof fn lemma_triangulate_surface_repeatable<Quality>(
    cells: Seq<Hexahedron>,
    adjacency: Seq<[Option<(usize, usize)>; 6]>,
    qualities: Seq<Quality>,
)
    requires
        adjacency.len() != 0 ==> adjacency.len() >= cells.len(),
    ensures
        ({
            let first = effective_adjacency(cells, adjacency);
            let second = effective_adjacency(cells, first);
            &&& second == first
            &&& first.len() != 0 ==> first.len() >= cells.len()
            &&& surface_indices(cells, second) == surface_indices(cells, first)
            &&& surface_edges(cells, second) == surface_edges(cells, first)
            &&& surface_qualities(cells, second, qualities) == surface_qualities(cells, first, qualities)
        }),
{
}

/// Each surface edge is stored with its smallest vertex index first.
pub proof fn lemma_surface_edges_sorted(
    cells: Seq<Hexahedron>,
    adjacency: Seq<[Option<(usize, usize)>; 6]>,
    e: (u32, u32),
)
    requires
        surface_edges(cells, adjacency).contains(e),
    ensures
        e.0 <= e.1,
{
}

} // verus!
