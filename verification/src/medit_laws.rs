use vstd::prelude::*;
use crate::obj::digits_value;
use crate::medit::{
    find_byte, lemma_find_byte, pieces_from, parse_digits, parse_usize, hex_values, line_tokens,
    pulled_tokens, parse_hex_line, range_text, MeditError, MeditHeader, MeditSection, line_ranges,
    block_end, after_block, check_header, read_count, hex_lines, hexahedra_part, medit_document,
    lemma_pieces_before_last, lemma_last_token_not_read, lemma_line_ranges_valid, line_ranges_from, is_digit, IntErrorKind,
};

verus! {

/// The successful value of a result, if any: what stays the same when only error positions
/// change.
pub open spec fn ok_value<T>(r: Result<T, MeditError>) -> Option<T> {
    match r {
        Ok(v) => Some(v),
        Err(_) => None,
    }
}

/// A byte range moved `a` bytes to the left.
pub open spec fn shift(x: (int, int), a: int) -> (int, int) {
    (x.0 - a, x.1 - a)
}

proof fn lemma_find_byte_shift(t: Seq<u8>, a: int, b: int, from: int, end: int, x: u8)
    requires
        0 <= a <= from,
        end <= b <= t.len(),
    ensures
        find_byte(t.subrange(a, b), from - a, end - a, x) == find_byte(t, from, end, x) - a,
    decreases end - from,
{
    if from < end {
        assert(t.subrange(a, b)[from - a] == t[from]);
        lemma_find_byte_shift(t, a, b, from + 1, end, x);
    }
}

/// Every piece of `text[start..end]` lies within it.
proof fn lemma_pieces_bounds(text: Seq<u8>, start: int, end: int)
    requires
        start <= end,
    ensures
        pieces_from(text, start, end).len() >= 1,
        forall|k: int|
            0 <= k < pieces_from(text, start, end).len() ==> start <= (#[trigger] pieces_from(
                text,
                start,
                end,
            )[k]).0 <= pieces_from(text, start, end)[k].1 <= end,
    decreases end - start,
{
    lemma_find_byte(text, start, end, 32u8);
    let sp = find_byte(text, start, end, 32u8);
    if sp < end && sp >= start {
        lemma_pieces_bounds(text, sp + 1, end);
        let rest = pieces_from(text, sp + 1, end);
        let all = pieces_from(text, start, end);
        assert(all == seq![(start, sp)] + rest);
        assert forall|k: int| 0 <= k < all.len() implies start <= (#[trigger] all[k]).0 <= all[k].1
            <= end by {
            if k > 0 {
                assert(all[k] == rest[k - 1]);
            }
        }
    }
}

proof fn lemma_pieces_shift(t: Seq<u8>, a: int, b: int, s: int, e: int)
    requires
        0 <= a <= s <= e <= b <= t.len(),
    ensures
        pieces_from(t.subrange(a, b), s - a, e - a) == pieces_from(t, s, e).map_values(
            |x: (int, int)| shift(x, a),
        ),
    decreases e - s,
{
    let c = t.subrange(a, b);
    lemma_find_byte_shift(t, a, b, s, e, 32u8);
    lemma_find_byte(t, s, e, 32u8);
    let sp = find_byte(t, s, e, 32u8);
    if sp >= e || sp < s {
        assert(pieces_from(c, s - a, e - a) =~= pieces_from(t, s, e).map_values(
            |x: (int, int)| shift(x, a),
        ));
    } else {
        lemma_pieces_shift(t, a, b, sp + 1, e);
        assert(pieces_from(c, s - a, e - a) =~= pieces_from(t, s, e).map_values(
            |x: (int, int)| shift(x, a),
        ));
    }
}

proof fn lemma_parse_digits_shift(t: Seq<u8>, a: int, b: int, i: int, end: int, acc: int)
    requires
        0 <= a <= i,
        end <= b <= t.len(),
    ensures
        parse_digits(t.subrange(a, b), i - a, end - a, acc) == parse_digits(t, i, end, acc),
    decreases end - i,
{
    if i < end {
        assert(t.subrange(a, b)[i - a] == t[i]);
        lemma_parse_digits_shift(t, a, b, i + 1, end, acc * 10 + (t[i] - 48));
    }
}

proof fn lemma_parse_usize_shift(t: Seq<u8>, a: int, b: int, start: int, end: int)
    requires
        0 <= a <= start,
        end <= b <= t.len(),
    ensures
        parse_usize(t.subrange(a, b), start - a, end - a) == parse_usize(t, start, end),
{
    if start < end {
        assert(t.subrange(a, b)[start - a] == t[start]);
        lemma_parse_digits_shift(t, a, b, start + 1, end, 0);
        lemma_parse_digits_shift(t, a, b, start, end, 0);
    }
}

proof fn lemma_hex_values_shift(
    t: Seq<u8>,
    a: int,
    b: int,
    tokens: Seq<(int, int)>,
    n: int,
    line_number: int,
)
    requires
        0 <= a,
        b <= t.len(),
        n <= tokens.len(),
        forall|k: int| 0 <= k < n ==> a <= (#[trigger] tokens[k]).0 && tokens[k].1 <= b,
    ensures
        ok_value(
            hex_values(
                t.subrange(a, b),
                tokens.map_values(|x: (int, int)| shift(x, a)),
                n,
                line_number,
            ),
        ) == ok_value(hex_values(t, tokens, n, line_number)),
    decreases n,
{
    if n > 0 {
        lemma_hex_values_shift(t, a, b, tokens, n - 1, line_number);
        let x = tokens[n - 1];
        assert(a <= x.0 && x.1 <= b);
        lemma_parse_usize_shift(t, a, b, x.0, x.1);
        assert(tokens.map_values(|x: (int, int)| shift(x, a))[n - 1] == shift(x, a));
    }
}

/// The tokens of line `r`, read on the line's own bytes, are those read on the whole text,
/// moved to the start of the line; reading a hexahedron gives the same vertices.
proof fn lemma_line_shift(t: Seq<u8>, r: (int, int), line_number: int)
    requires
        0 <= r.0 <= r.1 <= t.len(),
    ensures
        line_tokens(range_text(t, r), (0, r.1 - r.0)) == line_tokens(t, r).map_values(
            |x: (int, int)| shift(x, r.0),
        ),
        forall|k: int|
            0 <= k < line_tokens(t, r).len() ==> r.0 <= (#[trigger] line_tokens(t, r)[k]).0
                <= line_tokens(t, r)[k].1 <= r.1,
        ok_value(parse_hex_line(range_text(t, r), (0, r.1 - r.0), line_number)) == ok_value(
            parse_hex_line(t, r, line_number),
        ),
{
    let c = range_text(t, r);
    let f = |x: (int, int)| shift(x, r.0);
    lemma_pieces_shift(t, r.0, r.1, r.0, r.1);
    lemma_pieces_bounds(t, r.0, r.1);
    let all = pieces_from(t, r.0, r.1);
    assert(line_tokens(c, (0, r.1 - r.0)) =~= line_tokens(t, r).map_values(f));
    let tokens = line_tokens(t, r);
    assert forall|k: int| 0 <= k < tokens.len() implies r.0 <= (#[trigger] tokens[k]).0
        <= tokens[k].1 <= r.1 by {
        assert(tokens[k] == all[k]);
    }
    let pulled = pulled_tokens(tokens, 8);
    let spulled = pulled_tokens(tokens.map_values(f), 8);
    assert(spulled =~= pulled.map_values(f));
    assert forall|k: int| 0 <= k < pulled.len() implies r.0 <= (#[trigger] pulled[k]).0
        && pulled[k].1 <= r.1 by {
        assert(pulled[k] == tokens[k]);
    }
    lemma_hex_values_shift(t, r.0, r.1, pulled, pulled.len() as int, line_number);
}

/// The texts of some tokens.
pub open spec fn token_texts(text: Seq<u8>, tokens: Seq<(int, int)>) -> Seq<Seq<u8>> {
    tokens.map_values(|x: (int, int)| range_text(text, x))
}

/// The texts of the coordinate tokens of line `r` are those read on the line's own bytes.
proof fn lemma_vertex_tokens_shift(t: Seq<u8>, r: (int, int))
    requires
        0 <= r.0 <= r.1 <= t.len(),
    ensures
        token_texts(range_text(t, r), pulled_tokens(line_tokens(range_text(t, r), (0, r.1 - r.0)), 3))
            == token_texts(t, pulled_tokens(line_tokens(t, r), 3)),
{
    let c = range_text(t, r);
    let f = |x: (int, int)| shift(x, r.0);
    lemma_line_shift(t, r, 0);
    let tokens = line_tokens(t, r);
    let pulled = pulled_tokens(tokens, 3);
    let spulled = pulled_tokens(tokens.map_values(f), 3);
    assert(spulled =~= pulled.map_values(f));
    assert forall|k: int| 0 <= k < pulled.len() implies #[trigger] range_text(c, spulled[k])
        == range_text(t, pulled[k]) by {
        assert(pulled[k] == tokens[k]);
        assert(r.0 <= tokens[k].0 <= tokens[k].1 <= r.1);
        assert(range_text(c, spulled[k]) =~= range_text(t, pulled[k]));
    }
    assert(token_texts(c, spulled) =~= token_texts(t, pulled));
}

/// `p` is where the last token starts in both lines `c1` and `c2`: they agree before it, it
/// follows a space, and neither line holds a space after it.
pub open spec fn last_token_start(c1: Seq<u8>, c2: Seq<u8>, p: int) -> bool {
    &&& 0 <= p <= c1.len()
    &&& p <= c2.len()
    &&& c1.subrange(0, p) == c2.subrange(0, p)
    &&& p > 0 ==> c1[p - 1] == 32u8
    &&& forall|j: int| p <= j < c1.len() ==> c1[j] != 32u8
    &&& forall|j: int| p <= j < c2.len() ==> c2[j] != 32u8
}

/// Two non-empty lines that differ at most in their last token.
pub open spec fn last_token_variants(c1: Seq<u8>, c2: Seq<u8>) -> bool {
    &&& c1.len() > 0
    &&& c2.len() > 0
    &&& exists|p: int| last_token_start(c1, c2, p)
}

/// Line `i` (0-based) of `text` is where a vertex or a hexahedron is expected.
pub open spec fn element_line(text: Seq<u8>, i: int) -> bool {
    let lines = line_ranges(text);
    let vend = block_end(lines, 5);
    let hend = block_end(lines, vend + 3);
    (5 <= i < vend) || (vend + 3 <= i < hend)
}

/// `t2` has the lines of `t1`, but for the last token of some vertex and hexahedron lines.
pub open spec fn differ_in_last_tokens(t1: Seq<u8>, t2: Seq<u8>) -> bool {
    let l1 = line_ranges(t1);
    let l2 = line_ranges(t2);
    &&& l1.len() == l2.len()
    &&& forall|i: int|
        0 <= i < l1.len() ==> range_text(t1, #[trigger] l1[i]) == range_text(t2, l2[i]) || (
        element_line(t1, i) && last_token_variants(range_text(t1, l1[i]), range_text(t2, l2[i])))
}

/// Two lines that are the same or differ only in their last token read the same hexahedron
/// (when either reads one) and the same coordinate token texts.
proof fn lemma_line_same_reading(
    t1: Seq<u8>,
    r1: (int, int),
    t2: Seq<u8>,
    r2: (int, int),
    line_number: int,
)
    requires
        0 <= r1.0 <= r1.1 <= t1.len(),
        0 <= r2.0 <= r2.1 <= t2.len(),
        range_text(t1, r1) == range_text(t2, r2) || last_token_variants(
            range_text(t1, r1),
            range_text(t2, r2),
        ),
    ensures
        ok_value(parse_hex_line(t1, r1, line_number)) == ok_value(
            parse_hex_line(t2, r2, line_number),
        ),
        token_texts(t1, pulled_tokens(line_tokens(t1, r1), 3)) == token_texts(
            t2,
            pulled_tokens(line_tokens(t2, r2), 3),
        ),
{
    let c1 = range_text(t1, r1);
    let c2 = range_text(t2, r2);
    let z1 = (0, r1.1 - r1.0);
    let z2 = (0, r2.1 - r2.0);
    lemma_line_shift(t1, r1, line_number);
    lemma_line_shift(t2, r2, line_number);
    lemma_vertex_tokens_shift(t1, r1);
    lemma_vertex_tokens_shift(t2, r2);
    assert(c1.len() == r1.1 - r1.0);
    assert(c2.len() == r2.1 - r2.0);
    if c1 == c2 {
        assert(z1 == z2);
    } else {
        let p = choose|p: int| last_token_start(c1, c2, p);
        assert forall|j: int| 0 <= j < p implies c1[j] == c2[j] by {
            assert(c1.subrange(0, p)[j] == c2.subrange(0, p)[j]);
        }
        lemma_last_token_not_read(c1, c2, z1, z2, p, line_number);
        lemma_pieces_before_last(c1, c2, 0, c1.len() as int, c2.len() as int, p);
        let tokens = line_tokens(c1, z1);
        let pulled = pulled_tokens(tokens, 3);
        assert forall|k: int| 0 <= k < pulled.len() implies #[trigger] range_text(c1, pulled[k])
            == range_text(c2, pulled[k]) by {
            assert(pulled[k] == tokens[k]);
            let x = tokens[k];
            assert(0 <= x.0 <= x.1 < p);
            assert(range_text(c1, x) =~= c1.subrange(0, p).subrange(x.0, x.1));
            assert(range_text(c2, x) =~= c2.subrange(0, p).subrange(x.0, x.1));
        }
        assert(token_texts(c1, pulled) =~= token_texts(c2, pulled));
        assert(parse_hex_line(c1, z1, line_number) == parse_hex_line(c2, z2, line_number));
    }
}

proof fn lemma_block_end_same(l1: Seq<(int, int)>, l2: Seq<(int, int)>, pos: int)
    requires
        l1.len() == l2.len(),
        forall|i: int| 0 <= i < l1.len() ==> ((#[trigger] l1[i]).0 == l1[i].1 <==> l2[i].0 == l2[i].1),
    ensures
        block_end(l1, pos) == block_end(l2, pos),
        pos <= l1.len() ==> pos <= block_end(l1, pos) <= l1.len(),
        pos > l1.len() ==> block_end(l1, pos) == l1.len(),
    decreases l1.len() - pos,
{
    if 0 <= pos < l1.len() {
        lemma_block_end_same(l1, l2, pos + 1);
    }
}

proof fn lemma_hex_lines_same(t1: Seq<u8>, l1: Seq<(int, int)>, t2: Seq<u8>, l2: Seq<(int, int)>, start: int, end: int)
    requires
        forall|i: int|
            start <= i < end ==> ok_value(parse_hex_line(t1, #[trigger] l1[i], i + 1)) == ok_value(
                parse_hex_line(t2, l2[i], i + 1),
            ),
    ensures
        ok_value(hex_lines(t1, l1, start, end)) == ok_value(hex_lines(t2, l2, start, end)),
    decreases end - start,
{
    if start < end {
        lemma_hex_lines_same(t1, l1, t2, l2, start, end - 1);
        assert(ok_value(parse_hex_line(t1, l1[end - 1], end)) == ok_value(
            parse_hex_line(t2, l2[end - 1], end),
        ));
    }
}

/// What holds line by line of two texts that differ in last tokens.
proof fn lemma_line_facts(t1: Seq<u8>, t2: Seq<u8>)
    requires
        differ_in_last_tokens(t1, t2),
    ensures
        forall|i: int|
            0 <= i < line_ranges(t1).len() ==> ((#[trigger] line_ranges(t1)[i]).0
                == line_ranges(t1)[i].1 <==> line_ranges(t2)[i].0 == line_ranges(t2)[i].1)
                && ok_value(parse_hex_line(t1, line_ranges(t1)[i], i + 1)) == ok_value(
                parse_hex_line(t2, line_ranges(t2)[i], i + 1),
            ),
        forall|i: int|
            0 <= i < line_ranges(t1).len() && !element_line(t1, i) ==> range_text(
                t1,
                #[trigger] line_ranges(t1)[i],
            ) == range_text(t2, line_ranges(t2)[i]) && parse_usize(
                t1,
                line_ranges(t1)[i].0,
                line_ranges(t1)[i].1,
            ) == parse_usize(t2, line_ranges(t2)[i].0, line_ranges(t2)[i].1),
        forall|i: int|
            0 <= i < line_ranges(t1).len() ==> token_texts(
                t1,
                pulled_tokens(line_tokens(t1, #[trigger] line_ranges(t1)[i]), 3),
            ) == token_texts(t2, pulled_tokens(line_tokens(t2, line_ranges(t2)[i]), 3)),
{
    let l1 = line_ranges(t1);
    let l2 = line_ranges(t2);
    let n = l1.len();
    lemma_line_ranges_valid(t1, 0);
    lemma_line_ranges_valid(t2, 0);
    // each line reads the same, and is empty in both texts or in neither
    assert forall|i: int| 0 <= i < n implies ((#[trigger] l1[i]).0 == l1[i].1 <==> l2[i].0
        == l2[i].1) && ok_value(parse_hex_line(t1, l1[i], i + 1)) == ok_value(
        parse_hex_line(t2, l2[i], i + 1),
    ) && token_texts(t1, pulled_tokens(line_tokens(t1, l1[i]), 3)) == token_texts(
        t2,
        pulled_tokens(line_tokens(t2, l2[i]), 3),
    ) by {
        assert(range_text(t1, l1[i]).len() == l1[i].1 - l1[i].0);
        assert(range_text(t2, l2[i]).len() == l2[i].1 - l2[i].0);
        lemma_line_same_reading(t1, l1[i], t2, l2[i], i + 1);
    }
    // lines that are not element lines are the same, and so are their headers and counts
    assert forall|i: int| 0 <= i < n && !element_line(t1, i) implies range_text(
        t1,
        #[trigger] l1[i],
    ) == range_text(t2, l2[i]) && parse_usize(t1, l1[i].0, l1[i].1) == parse_usize(
        t2,
        l2[i].0,
        l2[i].1,
    ) by {
        lemma_parse_usize_shift(t1, l1[i].0, l1[i].1, l1[i].0, l1[i].1);
        lemma_parse_usize_shift(t2, l2[i].0, l2[i].1, l2[i].0, l2[i].1);
        assert(range_text(t1, l1[i]).len() == l1[i].1 - l1[i].0);
        assert(range_text(t2, l2[i]).len() == l2[i].1 - l2[i].0);
        assert(l1[i].1 - l1[i].0 == l2[i].1 - l2[i].0);
    }
}

/// Reading a MEDIT text never looks at the last token of a vertex or hexahedron line: two texts
/// with the same lines, but for the last token of some of those lines, give the same hexahedra
/// (when either gives them) and the same vertex lines, with the same coordinate token texts.
#[verifier::rlimit(60)]
pub proof fn lemma_last_tokens_not_read_in_text(t1: Seq<u8>, t2: Seq<u8>)
    requires
        differ_in_last_tokens(t1, t2),
    ensures
        ok_value(medit_document(t2).1) == ok_value(medit_document(t1).1),
        medit_document(t2).0.len() == medit_document(t1).0.len(),
        forall|i: int|
            0 <= i < medit_document(t1).0.len() ==> (#[trigger] medit_document(t1).0[i]).0
                == medit_document(t2).0[i].0 && token_texts(t1, medit_document(t1).0[i].1)
                == token_texts(t2, medit_document(t2).0[i].1),
{
    let l1 = line_ranges(t1);
    let l2 = line_ranges(t2);
    let n = l1.len();
    lemma_line_ranges_valid(t1, 0);
    lemma_line_ranges_valid(t2, 0);
    lemma_line_facts(t1, t2);
    let vend = block_end(l1, 5);
    lemma_block_end_same(l1, l2, 5);
    lemma_block_end_same(l1, l2, vend + 3);
    let hend = block_end(l1, vend + 3);
    assert(vend == block_end(l2, 5));
    assert(hend == block_end(l2, vend + 3));
    // the header lines
    assert(!element_line(t1, 0) && !element_line(t1, 1) && !element_line(t1, 2) && !element_line(t1, 3) && !element_line(t1, 4));
    if 0 < n {
        assert(range_text(t1, l1[0]) == range_text(t2, l2[0]));
    }
    if 1 < n {
        assert(range_text(t1, l1[1]) == range_text(t2, l2[1]));
    }
    if 2 < n {
        assert(range_text(t1, l1[2]) == range_text(t2, l2[2]));
    }
    if 3 < n {
        assert(range_text(t1, l1[3]) == range_text(t2, l2[3]));
    }
    if 4 < n {
        assert(range_text(t1, l1[4]) == range_text(t2, l2[4]));
    }
    assert(read_count(t1, l1, 4, MeditSection::Vertices) == read_count(t2, l2, 4, MeditSection::Vertices));
    // the hexahedra part
    let p = after_block(l1, vend);
    if vend < n {
        assert(!element_line(t1, p) && !element_line(t1, p + 1));
        if p < n {
            assert(range_text(t1, l1[p]) == range_text(t2, l2[p]));
        }
        if p + 1 < n {
            assert(range_text(t1, l1[p + 1]) == range_text(t2, l2[p + 1]));
        }
        assert(read_count(t1, l1, p + 1, MeditSection::Hexahedra) == read_count(t2, l2, p + 1, MeditSection::Hexahedra));
        lemma_hex_lines_same(t1, l1, t2, l2, p + 2, hend);
        let q = after_block(l1, hend);
        assert(!element_line(t1, q));
        if q < n {
            assert(range_text(t1, l1[q]) == range_text(t2, l2[q]));
        }
        assert(check_header(t1, l1, q, MeditHeader::End) is None <==> check_header(t2, l2, q, MeditHeader::End) is None);
        assert(check_header(t1, l1, p, MeditHeader::Hexahedra) is None <==> check_header(t2, l2, p, MeditHeader::Hexahedra) is None);
    }
    let nbv = read_count(t1, l1, 4, MeditSection::Vertices);
    if let Ok(nb) = nbv {
        assert(ok_value(hexahedra_part(t1, l1, nb, vend)) == ok_value(hexahedra_part(t2, l2, nb, vend)));
    }
}

proof fn lemma_find_newline_push(t: Seq<u8>, s: int)
    requires
        0 <= s <= t.len(),
    ensures
        find_byte(t.push(10u8), s, (t.len() + 1) as int, 10u8) == find_byte(t, s, t.len() as int, 10u8),
    decreases t.len() - s,
{
    if s < t.len() {
        assert(t.push(10u8)[s] == t[s]);
        lemma_find_newline_push(t, s + 1);
    } else {
        assert(t.push(10u8)[s] == 10u8);
    }
}

proof fn lemma_lines_from_push(t: Seq<u8>, start: int)
    requires
        0 <= start < t.len(),
        t.last() != 10u8,
        t.last() != 13u8,
    ensures
        line_ranges_from(t.push(10u8), start) == line_ranges_from(t, start),
        line_ranges_from(t, start).len() >= 1,
        line_ranges_from(t, start).last().1 == t.len(),
    decreases t.len() - start,
{
    let u = t.push(10u8);
    let n = t.len() as int;
    lemma_find_newline_push(t, start);
    lemma_find_byte(t, start, n, 10u8);
    let nl = find_byte(t, start, n, 10u8);
    if nl >= n {
        assert(u[n] == 10u8);
        assert(u[n - 1] == t[n - 1]);
        assert(line_ranges_from(u, n + 1) =~= Seq::<(int, int)>::empty());
        assert(line_ranges_from(u, start) =~= line_ranges_from(t, start));
    } else {
        assert(nl != n - 1);
        assert(u[nl] == t[nl]);
        if nl > start {
            assert(u[nl - 1] == t[nl - 1]);
        }
        lemma_lines_from_push(t, nl + 1);
        let rest = line_ranges_from(t, nl + 1);
        let all = line_ranges_from(t, start);
        assert(all.last() == rest.last());
    }
}

/// The lines cover the whole text: a text that does not end with a line feed has a last line
/// that runs to its end, so what follows the last line feed is a line.
pub proof fn lemma_last_line_reaches_end(t: Seq<u8>)
    requires
        t.len() > 0,
        t.last() != 10u8,
    ensures
        line_ranges(t).len() >= 1,
        line_ranges(t).last().1 == t.len(),
{
    if t.last() == 13u8 {
        lemma_last_line_reaches_end_cr(t, 0);
    } else {
        lemma_lines_from_push(t, 0);
    }
}

proof fn lemma_last_line_reaches_end_cr(t: Seq<u8>, start: int)
    requires
        0 <= start < t.len(),
        t.last() != 10u8,
    ensures
        line_ranges_from(t, start).len() >= 1,
        line_ranges_from(t, start).last().1 == t.len(),
    decreases t.len() - start,
{
    let n = t.len() as int;
    lemma_find_byte(t, start, n, 10u8);
    let nl = find_byte(t, start, n, 10u8);
    if nl < n {
        assert(nl != n - 1);
        lemma_last_line_reaches_end_cr(t, nl + 1);
    }
}

/// The final line feed is optional: a non-empty text that ends with neither a line feed nor a
/// carriage return has the same lines with a line feed added, and reads as the same MEDIT
/// document (same hexahedra when either gives them, same vertex lines and coordinate texts).
pub proof fn lemma_final_newline_optional(t: Seq<u8>)
    requires
        t.len() > 0,
        t.last() != 10u8,
        t.last() != 13u8,
    ensures
        line_ranges(t.push(10u8)) == line_ranges(t),
        ok_value(medit_document(t.push(10u8)).1) == ok_value(medit_document(t).1),
        medit_document(t.push(10u8)).0.len() == medit_document(t).0.len(),
        forall|i: int|
            0 <= i < medit_document(t).0.len() ==> (#[trigger] medit_document(t).0[i]).0
                == medit_document(t.push(10u8)).0[i].0 && token_texts(t, medit_document(t).0[i].1)
                == token_texts(t.push(10u8), medit_document(t.push(10u8)).0[i].1),
{
    let u = t.push(10u8);
    lemma_lines_from_push(t, 0);
    lemma_line_ranges_valid(t, 0);
    let l = line_ranges(t);
    assert forall|i: int| 0 <= i < l.len() implies range_text(t, #[trigger] l[i]) == range_text(
        u,
        line_ranges(u)[i],
    ) by {
        assert(range_text(t, l[i]) =~= range_text(u, l[i]));
    }
    assert(differ_in_last_tokens(t, u));
    lemma_last_tokens_not_read_in_text(t, u);
}

/// Line `r` is followed by a line break that ends at `next`: a line feed, or a carriage return
/// and a line feed; a line cut at a lone line feed does not end with a carriage return.
pub open spec fn line_break_between(t: Seq<u8>, r: (int, int), next: int) -> bool {
    ||| (next == r.1 + 1 && t[r.1] == 10u8 && (r.1 == r.0 || t[r.1 - 1] != 13u8))
    ||| (next == r.1 + 2 && t[r.1] == 13u8 && t[r.1 + 1] == 10u8)
}

/// The lines of `t` from `start` cover it: they start at `start`, hold no line feed, are
/// separated by exactly one line break each, and the last runs to the end of the text or to
/// a final line break.
pub open spec fn lines_cover(t: Seq<u8>, l: Seq<(int, int)>, start: int) -> bool {
    &&& l.len() >= 1
    &&& l[0].0 == start
    &&& forall|i: int|
        0 <= i < l.len() ==> start <= (#[trigger] l[i]).0 <= l[i].1 <= t.len() && forall|j: int|
            l[i].0 <= j < l[i].1 ==> t[j] != 10u8
    &&& forall|i: int| 0 <= i < l.len() - 1 ==> line_break_between(t, #[trigger] l[i], l[i + 1].0)
    &&& (l.last().1 == t.len() || line_break_between(t, l.last(), t.len() as int))
}

proof fn lemma_lines_from_cover(t: Seq<u8>, start: int)
    requires
        0 <= start < t.len(),
    ensures
        lines_cover(t, line_ranges_from(t, start), start),
    decreases t.len() - start,
{
    let n = t.len() as int;
    lemma_find_byte(t, start, n, 10u8);
    let nl = find_byte(t, start, n, 10u8);
    let l = line_ranges_from(t, start);
    if nl < n {
        let end = if nl > start && t[nl - 1] == 13u8 {
            nl - 1
        } else {
            nl
        };
        let first = (start, end);
        let rest = line_ranges_from(t, nl + 1);
        assert(l == seq![first] + rest);
        assert(line_break_between(t, first, nl + 1));
        if nl + 1 < n {
            lemma_lines_from_cover(t, nl + 1);
            assert forall|i: int| 0 <= i < l.len() implies start <= (#[trigger] l[i]).0 <= l[i].1
                <= t.len() && forall|j: int| l[i].0 <= j < l[i].1 ==> t[j] != 10u8 by {
                if i > 0 {
                    assert(l[i] == rest[i - 1]);
                }
            }
            assert forall|i: int| 0 <= i < l.len() - 1 implies line_break_between(
                t,
                #[trigger] l[i],
                l[i + 1].0,
            ) by {
                if i > 0 {
                    assert(l[i] == rest[i - 1]);
                    assert(l[i + 1] == rest[i]);
                }
            }
            assert(l.last() == rest.last());
        } else {
            assert(rest =~= Seq::<(int, int)>::empty());
            assert(l =~= seq![first]);
        }
    }
}

/// The lines cover the whole text: joined with the line breaks between them (a line feed, or a
/// carriage return and a line feed), they give back the text, the last one running to its end
/// or to a final line break.
pub proof fn lemma_lines_cover_text(t: Seq<u8>)
    ensures
        t.len() == 0 ==> line_ranges(t).len() == 0,
        t.len() > 0 ==> lines_cover(t, line_ranges(t), 0),
{
    if t.len() > 0 {
        lemma_lines_from_cover(t, 0);
    }
}

/// Every byte of `s` is a decimal digit.
pub open spec fn all_digits(s: Seq<u8>) -> bool {
    forall|i: int| 0 <= i < s.len() ==> is_digit(#[trigger] s[i])
}

proof fn lemma_digits_value_push(p: Seq<u8>, x: u8)
    ensures
        digits_value(p.push(x)) == digits_value(p) * 10 + (x - 48),
{
    assert(p.push(x).drop_last() =~= p);
}

/// Appending digits never makes the value smaller.
proof fn lemma_digits_value_grows(q: Seq<u8>, r: Seq<u8>)
    requires
        all_digits(q),
        all_digits(r),
    ensures
        digits_value(q) >= 0,
        digits_value(q + r) >= digits_value(q),
    decreases q.len() + r.len(),
{
    if q.len() > 0 {
        assert(all_digits(q.drop_last())) by {
            assert forall|i: int| 0 <= i < q.drop_last().len() implies is_digit(#[trigger] q.drop_last()[i]) by {
                assert(q.drop_last()[i] == q[i]);
            }
        }
        lemma_digits_value_grows(q.drop_last(), Seq::empty());
        assert(is_digit(q[q.len() - 1]));
    }
    if r.len() > 0 {
        let r0 = r.drop_last();
        assert(all_digits(r0)) by {
            assert forall|i: int| 0 <= i < r0.len() implies is_digit(#[trigger] r0[i]) by {
                assert(r0[i] == r[i]);
            }
        }
        lemma_digits_value_grows(q, r0);
        assert((q + r).drop_last() =~= q + r0);
        assert((q + r).last() == r.last());
        assert(is_digit(r[r.len() - 1]));
        assert(digits_value(q + r0) >= 0);
    } else {
        assert(q + r =~= q);
    }
}

proof fn lemma_parse_digits_value(t: Seq<u8>, i: int, end: int, p: Seq<u8>)
    requires
        0 <= i <= end <= t.len(),
        all_digits(p),
        digits_value(p) <= usize::MAX,
    ensures
        parse_digits(t, i, end, digits_value(p)) is Ok ==> all_digits(t.subrange(i, end))
            && parse_digits(t, i, end, digits_value(p)) == Ok::<usize, IntErrorKind>(
            digits_value(p + t.subrange(i, end)) as usize,
        ),
        all_digits(t.subrange(i, end)) && digits_value(p + t.subrange(i, end)) <= usize::MAX
            ==> parse_digits(t, i, end, digits_value(p)) == Ok::<usize, IntErrorKind>(
            digits_value(p + t.subrange(i, end)) as usize,
        ),
    decreases end - i,
{
    let sub = t.subrange(i, end);
    lemma_digits_value_grows(p, Seq::empty());
    if i >= end {
        assert(p + sub =~= p);
    } else {
        let x = t[i];
        let q = p.push(x);
        let rest = t.subrange(i + 1, end);
        assert(sub[0] == x);
        assert(p + sub =~= q + rest);
        if is_digit(x) {
            lemma_digits_value_push(p, x);
            assert(all_digits(q)) by {
                assert forall|k: int| 0 <= k < q.len() implies is_digit(#[trigger] q[k]) by {
                    if k < p.len() {
                        assert(q[k] == p[k]);
                    }
                }
            }
            if digits_value(q) > usize::MAX {
                if all_digits(sub) {
                    assert(all_digits(rest)) by {
                        assert forall|k: int| 0 <= k < rest.len() implies is_digit(#[trigger] rest[k]) by {
                            assert(rest[k] == sub[k + 1]);
                        }
                    }
                    lemma_digits_value_grows(q, rest);
                }
            } else {
                lemma_parse_digits_value(t, i + 1, end, q);
                if all_digits(sub) {
                    assert(all_digits(rest)) by {
                        assert forall|k: int| 0 <= k < rest.len() implies is_digit(#[trigger] rest[k]) by {
                            assert(rest[k] == sub[k + 1]);
                        }
                    }
                }
                if all_digits(rest) {
                    assert(all_digits(sub)) by {
                        assert forall|k: int| 0 <= k < sub.len() implies is_digit(#[trigger] sub[k]) by {
                            if k > 0 {
                                assert(sub[k] == rest[k - 1]);
                            }
                        }
                    }
                }
            }
        } else {
            assert(!all_digits(sub)) by {
                assert(!is_digit(sub[0]));
            }
        }
    }
}

/// Reading a count or a vertex index is reading a decimal number: the text (after an optional
/// `+`) is one or more decimal digits whenever it is read as a value, that value is the
/// number the digits stand for, and any such digits whose number fits in a `usize` are read.
pub proof fn lemma_parse_usize_reads_decimal(t: Seq<u8>, s: int, e: int)
    requires
        0 <= s <= e <= t.len(),
    ensures
        ({
            let d = if s < e && t[s] == 43u8 {
                s + 1
            } else {
                s
            };
            let digits = t.subrange(d, e);
            &&& parse_usize(t, s, e) is Ok ==> digits.len() >= 1 && all_digits(digits)
                && parse_usize(t, s, e) == Ok::<usize, IntErrorKind>(digits_value(digits) as usize)
            &&& digits.len() >= 1 && all_digits(digits) && digits_value(digits) <= usize::MAX
                ==> parse_usize(t, s, e) == Ok::<usize, IntErrorKind>(digits_value(digits) as usize)
        }),
{
    let empty = Seq::<u8>::empty();
    assert(digits_value(empty) == 0);
    if s < e {
        let d = if t[s] == 43u8 {
            s + 1
        } else {
            s
        };
        lemma_parse_digits_value(t, d, e, empty);
        assert(empty + t.subrange(d, e) =~= t.subrange(d, e));
        if e == s + 1 && t[s] == 45u8 {
            assert(!is_digit(t.subrange(d, e)[0]));
        }
    }
}

proof fn lemma_hex_values_read(text: Seq<u8>, tokens: Seq<(int, int)>, n: int, line_number: int)
    requires
        0 <= n <= tokens.len(),
    ensures
        hex_values(text, tokens, n, line_number) is Ok ==> {
            let values = hex_values(text, tokens, n, line_number)->Ok_0;
            &&& values.len() == n
            &&& forall|k: int|
                0 <= k < n ==> parse_usize(text, (#[trigger] tokens[k]).0, tokens[k].1) == Ok::<
                    usize,
                    IntErrorKind,
                >((values[k] + 1) as usize) && values[k] + 1 <= usize::MAX
        },
        (forall|k: int|
            0 <= k < n ==> parse_usize(text, (#[trigger] tokens[k]).0, tokens[k].1) is Ok
                && parse_usize(text, tokens[k].0, tokens[k].1)->Ok_0 != 0) ==> hex_values(
            text,
            tokens,
            n,
            line_number,
        ) is Ok,
    decreases n,
{
    if n > 0 {
        lemma_hex_values_read(text, tokens, n - 1, line_number);
    }
}

/// A hexahedron line reads as 8 vertex indices exactly when, before its last token, it holds
/// 8 tokens that read as positive numbers; the vertex indices are those numbers minus one
/// (the file counts vertices from 1).
pub proof fn lemma_hex_line_reads_indices(text: Seq<u8>, r: (int, int), line_number: int)
    ensures
        parse_hex_line(text, r, line_number) is Ok ==> {
            let tokens = line_tokens(text, r);
            let values = parse_hex_line(text, r, line_number)->Ok_0;
            &&& tokens.len() == 8
            &&& values.len() == 8
            &&& forall|k: int|
                0 <= k < 8 ==> parse_usize(text, (#[trigger] tokens[k]).0, tokens[k].1) == Ok::<
                    usize,
                    IntErrorKind,
                >((values[k] + 1) as usize) && values[k] + 1 <= usize::MAX
        },
        ({
            let tokens = line_tokens(text, r);
            tokens.len() == 8 && (forall|k: int|
                0 <= k < 8 ==> parse_usize(text, (#[trigger] tokens[k]).0, tokens[k].1) is Ok
                    && parse_usize(text, tokens[k].0, tokens[k].1)->Ok_0 != 0)
        }) ==> parse_hex_line(text, r, line_number) is Ok,
{
    let tokens = line_tokens(text, r);
    let pulled = pulled_tokens(tokens, 8);
    lemma_hex_values_read(text, pulled, pulled.len() as int, line_number);
    if tokens.len() == 8 {
        assert(pulled == tokens);
    }
}

/// The pieces of `text[s..e]` cover it: they hold no space, the first starts at `s`, the last
/// ends at `e`, and two pieces in a row are separated by exactly one space.
pub open spec fn pieces_cover(text: Seq<u8>, ps: Seq<(int, int)>, s: int, e: int) -> bool {
    &&& ps.len() >= 1
    &&& ps[0].0 == s
    &&& ps.last().1 == e
    &&& forall|i: int|
        0 <= i < ps.len() ==> s <= (#[trigger] ps[i]).0 <= ps[i].1 <= e && forall|j: int|
            ps[i].0 <= j < ps[i].1 ==> text[j] != 32u8
    &&& forall|i: int|
        0 <= i < ps.len() - 1 ==> text[(#[trigger] ps[i]).1] == 32u8 && ps[i + 1].0 == ps[i].1 + 1
}

/// A line is cut into tokens at every single space: joined with one space between them, the
/// pieces give back the line, and none holds a space.
pub proof fn lemma_pieces_cover(text: Seq<u8>, s: int, e: int)
    requires
        s <= e,
    ensures
        pieces_cover(text, pieces_from(text, s, e), s, e),
    decreases e - s,
{
    lemma_find_byte(text, s, e, 32u8);
    let sp = find_byte(text, s, e, 32u8);
    let all = pieces_from(text, s, e);
    if sp < e && sp >= s {
        lemma_pieces_cover(text, sp + 1, e);
        let rest = pieces_from(text, sp + 1, e);
        assert(all == seq![(s, sp)] + rest);
        assert(all.last() == rest.last());
        assert forall|i: int| 0 <= i < all.len() implies s <= (#[trigger] all[i]).0 <= all[i].1 <= e
            && forall|j: int| all[i].0 <= j < all[i].1 ==> text[j] != 32u8 by {
            if i > 0 {
                assert(all[i] == rest[i - 1]);
            }
        }
        assert forall|i: int| 0 <= i < all.len() - 1 implies text[(#[trigger] all[i]).1] == 32u8
            && all[i + 1].0 == all[i].1 + 1 by {
            if i > 0 {
                assert(all[i] == rest[i - 1]);
                assert(all[i + 1] == rest[i]);
            }
        }
    }
}

} // verus!
