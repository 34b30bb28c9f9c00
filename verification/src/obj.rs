use vstd::prelude::*;
use crate::edgeset::EdgeSet;

verus! {

/// The decimal digits of `n`, most significant first, without leading zeros.
pub open spec fn decimal(n: nat) -> Seq<u8>
    decreases n,
{
    if n < 10 {
        seq![(48 + n) as u8]
    } else {
        decimal(n / 10).push((48 + n % 10) as u8)
    }
}

/// The number that a sequence of decimal digit bytes stands for, most significant first.
pub open spec fn digits_value(s: Seq<u8>) -> int
    decreases s.len(),
{
    if s.len() == 0 {
        0
    } else {
        digits_value(s.drop_last()) * 10 + (s.last() - 48)
    }
}

/// The digits written for `n` are its base-10 representation: at least one digit, only the
/// bytes `0` to `9`, no leading zero unless `n` is 0, and read back as a number they give `n`.
pub proof fn lemma_decimal_reads_back(n: nat)
    ensures
        decimal(n).len() >= 1,
        forall|i: int| 0 <= i < decimal(n).len() ==> 48 <= #[trigger] decimal(n)[i] <= 57,
        decimal(n)[0] == 48 ==> n == 0,
        digits_value(decimal(n)) == n,
    decreases n,
{
    if n >= 10 {
        let m = n / 10;
        lemma_decimal_reads_back(m);
        let d = decimal(n);
        assert(d == decimal(m).push((48 + n % 10) as u8));
        assert(d.drop_last() =~= decimal(m));
        assert(n == m * 10 + n % 10);
        assert forall|i: int| 0 <= i < d.len() implies 48 <= #[trigger] d[i] <= 57 by {
            if i < d.len() - 1 {
                assert(d[i] == decimal(m)[i]);
            }
        }
        assert(d[0] == decimal(m)[0]);
        assert(d.last() == (48 + n % 10) as u8);
        assert(d.last() - 48 == n % 10);
        assert(digits_value(d) == digits_value(decimal(m)) * 10 + (d.last() - 48));
        assert(digits_value(d) == m * 10 + n % 10);
    } else {
        let d = decimal(n);
        assert(d == seq![(48 + n) as u8]);
        assert(d.drop_last() =~= Seq::<u8>::empty());
        assert(d.last() - 48 == n);
        assert(digits_value(d) == digits_value(d.drop_last()) * 10 + (d.last() - 48));
        assert(digits_value(Seq::<u8>::empty()) == 0);
    }
}

/// The bytes of `usemtl Material_0` and a line feed.
pub const USEMTL_LINE: [u8; 18] = [117, 115, 101, 109, 116, 108, 32, 77, 97, 116, 101, 114, 105, 97, 108, 95, 48, 10];

/// The Wavefront line `f a b c` of a triangle.
pub open spec fn face_line(a: nat, b: nat, c: nat) -> Seq<u8> {
    seq![102u8, 32u8] + decimal(a) + seq![32u8] + decimal(b) + seq![32u8] + decimal(c) + seq![10u8]
}

/// The Wavefront line `l a b` of an edge.
pub open spec fn edge_line(a: nat, b: nat) -> Seq<u8> {
    seq![108u8, 32u8] + decimal(a) + seq![32u8] + decimal(b) + seq![10u8]
}

/// The face lines of the first `t` triangles, each vertex index plus `offset`.
pub open spec fn face_lines(indices: Seq<u32>, offset: nat, t: nat) -> Seq<u8>
    decreases t,
{
    if t == 0 {
        Seq::empty()
    } else {
        let k = 3 * (t - 1);
        face_lines(indices, offset, (t - 1) as nat) + face_line(
            (indices[k] + offset) as nat,
            (indices[k + 1] + offset) as nat,
            (indices[k + 2] + offset) as nat,
        )
    }
}

/// The edge lines of the first `n` edges, each vertex index plus `offset`.
pub open spec fn edge_lines(edges: Seq<(u32, u32)>, offset: nat, n: nat) -> Seq<u8>
    decreases n,
{
    if n == 0 {
        Seq::empty()
    } else {
        edge_lines(edges, offset, (n - 1) as nat) + edge_line(
            (edges[n - 1].0 + offset) as nat,
            (edges[n - 1].1 + offset) as nat,
        )
    }
}

/// The part of a Wavefront `.obj` text that follows the vertex lines: the material line, a
/// face line per triangle, then a line per edge, with `offset` added to each vertex index.
pub open spec fn obj_elements(indices: Seq<u32>, edges: Seq<(u32, u32)>, offset: nat) -> Seq<u8> {
    USEMTL_LINE@ + face_lines(indices, offset, indices.len() / 3) + edge_lines(
        edges,
        offset,
        edges.len(),
    )
}

/// Appends the decimal digits of `n`.
fn push_decimal(out: &mut Vec<u8>, n: u32)
    ensures
        final(out)@ == old(out)@ + decimal(n as nat),
    decreases n,
{
    if n >= 10 {
        push_decimal(out, n / 10);
    }
    out.push(48u8 + (n % 10) as u8);
    proof {
        if n >= 10 {
            assert(out@ =~= old(out)@ + decimal(n as nat));
        } else {
            assert(out@ =~= old(out)@ + decimal(n as nat));
        }
    }
}

/// The text that follows the vertex lines in a Wavefront `.obj` file (see `obj_elements`).
pub fn write_obj_elements(indices: &Vec<u32>, edges: &EdgeSet, offset: u32) -> (text: Vec<u8>)
    requires
        indices@.len() % 3 == 0,
        forall|k: int| 0 <= k < indices@.len() ==> #[trigger] indices@[k] + offset <= u32::MAX,
        forall|i: int|
            0 <= i < edges@.len() ==> (#[trigger] edges@[i]).0 + offset <= u32::MAX && edges@[i].1
                + offset <= u32::MAX,
    ensures
        text@ == obj_elements(indices@, edges@, offset as nat),
{
    let mut text: Vec<u8> = Vec::new();
    for i in 0..18usize
        invariant
            text@ == USEMTL_LINE@.subrange(0, i as int),
    {
        text.push(USEMTL_LINE[i]);
        assert(text@ =~= USEMTL_LINE@.subrange(0, i + 1));
    }
    assert(text@ =~= USEMTL_LINE@);
    let nb_indices = indices.len();
    let nb_triangles = nb_indices / 3;
    assert(3 * nb_triangles == nb_indices) by (nonlinear_arith)
        requires
            nb_triangles == nb_indices / 3,
            nb_indices % 3 == 0,
    ;
    for t in 0..nb_triangles
        invariant
            nb_triangles == indices@.len() / 3,
            3 * nb_triangles == nb_indices,
            nb_indices == indices@.len(),
            indices@.len() % 3 == 0,
            forall|k: int| 0 <= k < indices@.len() ==> #[trigger] indices@[k] + offset <= u32::MAX,
            text@ == USEMTL_LINE@ + face_lines(indices@, offset as nat, t as nat),
    {
        assert(3 * t + 2 < nb_indices);
        let v0 = indices[3 * t] + offset;
        let v1 = indices[3 * t + 1] + offset;
        let v2 = indices[3 * t + 2] + offset;
        let ghost before = text@;
        text.push(102u8);
        text.push(32u8);
        push_decimal(&mut text, v0);
        text.push(32u8);
        push_decimal(&mut text, v1);
        text.push(32u8);
        push_decimal(&mut text, v2);
        text.push(10u8);
        assert(text@ =~= before + face_line(v0 as nat, v1 as nat, v2 as nat));
    }
    let nb_edges = edges.len();
    for i in 0..nb_edges
        invariant
            nb_edges == edges@.len(),
            indices@.len() % 3 == 0,
            forall|i: int|
                0 <= i < edges@.len() ==> (#[trigger] edges@[i]).0 + offset <= u32::MAX
                    && edges@[i].1 + offset <= u32::MAX,
            text@ == USEMTL_LINE@ + face_lines(indices@, offset as nat, indices@.len() / 3)
                + edge_lines(edges@, offset as nat, i as nat),
    {
        let e = edges.get(i);
        let a = e.0 + offset;
        let b = e.1 + offset;
        let ghost before = text@;
        text.push(108u8);
        text.push(32u8);
        push_decimal(&mut text, a);
        text.push(32u8);
        push_decimal(&mut text, b);
        text.push(10u8);
        assert(text@ =~= before + edge_line(a as nat, b as nat));
    }
    text
}

} // verus!
