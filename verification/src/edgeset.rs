use std::collections::HashSet;
use vstd::prelude::*;

verus! {

/// A number that identifies an edge: its two vertex indices side by side in 64 bits.
pub open spec fn edge_code(e: (u32, u32)) -> int {
    e.0 as int * 0x1_0000_0000 + e.1 as int
}

/// A set of edges, each given by two vertex indices. The edges are kept in the order in which
/// they were first inserted, each once.
pub struct EdgeSet {
    edges: Vec<(u32, u32)>,
    codes: HashSet<u64>,
}

impl View for EdgeSet {
    type V = Seq<(u32, u32)>;

    closed spec fn view(&self) -> Seq<(u32, u32)> {
        self.edges@
    }
}

proof fn lemma_edge_code_injective(a: (u32, u32), b: (u32, u32))
    ensures
        edge_code(a) == edge_code(b) ==> a == b,
        a == b ==> edge_code(a) == edge_code(b),
{
    if edge_code(a) == edge_code(b) {
        assert(a.0 == b.0) by (nonlinear_arith)
            requires
                a.0 as int * 0x1_0000_0000 + a.1 as int == b.0 as int * 0x1_0000_0000
                    + b.1 as int,
                0 <= a.1 < 0x1_0000_0000,
                0 <= b.1 < 0x1_0000_0000,
        ;
    }
}

impl EdgeSet {
    #[verifier::type_invariant]
    spec fn well_formed(self) -> bool {
        &&& self.edges@.no_duplicates()
        &&& forall|k: u64|
            #[trigger] self.codes@.contains(k) <==> exists|i: int|
                0 <= i < self.edges@.len() && edge_code(#[trigger] self.edges@[i]) == k
    }

    pub fn new() -> (s: EdgeSet)
        ensures
            s@ == Seq::<(u32, u32)>::empty(),
            s@.no_duplicates(),
    {
        broadcast use vstd::std_specs::hash::group_hash_axioms;

        EdgeSet { edges: Vec::new(), codes: HashSet::new() }
    }

    fn code(e: (u32, u32)) -> (k: u64)
        ensures
            k == edge_code(e),
    {
        (e.0 as u64) * 0x1_0000_0000u64 + (e.1 as u64)
    }

    /// The number of edges (which are all distinct).
    pub fn len(&self) -> (n: usize)
        ensures
            n == self@.len(),
            self@.no_duplicates(),
    {
        proof {
            use_type_invariant(self);
        }
        self.edges.len()
    }

    pub fn get(&self, i: usize) -> (e: (u32, u32))
        requires
            i < self@.len(),
        ensures
            e == self@[i as int],
    {
        self.edges[i]
    }

    pub fn contains(&self, e: (u32, u32)) -> (r: bool)
        ensures
            r == self@.contains(e),
    {
        broadcast use vstd::std_specs::hash::group_hash_axioms;

        proof {
            use_type_invariant(self);
        }
        let k = Self::code(e);
        let r = self.codes.contains(&k);
        proof {
            if r {
                let i = choose|i: int|
                    0 <= i < self.edges@.len() && edge_code(#[trigger] self.edges@[i]) == k;
                lemma_edge_code_injective(self.edges@[i], e);
            } else {
                if self@.contains(e) {
                    let i = choose|i: int| 0 <= i < self.edges@.len() && self.edges@[i] == e;
                    assert(edge_code(self.edges@[i]) == k);
                }
            }
        }
        r
    }

    /// Adds `e` at the end, unless it is already present.
    pub fn insert(&mut self, e: (u32, u32))
        ensures
            final(self)@ == if old(self)@.contains(e) {
                old(self)@
            } else {
                old(self)@.push(e)
            },
            final(self)@.no_duplicates(),
            final(self)@.to_set() == old(self)@.to_set().insert(e),
    {
        broadcast use vstd::std_specs::hash::group_hash_axioms;
        broadcast use vstd::seq_lib::group_seq_properties;

        proof {
            use_type_invariant(&*self);
        }
        if self.contains(e) {
            assert(self@.to_set() =~= self@.to_set().insert(e));
            return ;
        }
        let mut tmp = EdgeSet::new();
        std::mem::swap(&mut tmp, self);
        proof {
            use_type_invariant(&tmp);
        }
        let EdgeSet { mut edges, mut codes } = tmp;
        let k = Self::code(e);
        let ghost old_edges = edges@;
        edges.push(e);
        codes.insert(k);
        proof {
            assert forall|k2: u64| #[trigger] codes@.contains(k2) <==> exists|i: int|
                0 <= i < edges@.len() && edge_code(#[trigger] edges@[i]) == k2 by {
                if codes@.contains(k2) && k2 != k {
                    let i = choose|i: int|
                        0 <= i < old_edges.len() && edge_code(#[trigger] old_edges[i]) == k2;
                    assert(edges@[i] == old_edges[i]);
                }
                if k2 == k {
                    assert(edges@[old_edges.len() as int] == e);
                }
                if exists|i: int| 0 <= i < edges@.len() && edge_code(#[trigger] edges@[i]) == k2 {
                    let i = choose|i: int|
                        0 <= i < edges@.len() && edge_code(#[trigger] edges@[i]) == k2;
                    if i < old_edges.len() {
                        assert(old_edges[i] == edges@[i]);
                    }
                }
            }
            assert forall|i: int, j: int|
                0 <= i < edges@.len() && 0 <= j < edges@.len() && i != j implies edges@[i]
                != edges@[j] by {
                if i < old_edges.len() && j < old_edges.len() {
                } else if i < old_edges.len() {
                    assert(old_edges.contains(old_edges[i]));
                } else if j < old_edges.len() {
                    assert(old_edges.contains(old_edges[j]));
                }
            }
        }
        *self = EdgeSet { edges, codes };
        assert(self@.to_set() =~= old(self)@.to_set().insert(e));
    }
}

} // verus!
