use vstd::prelude::*;
use crate::hexmesh::Hexahedron;

verus! {

/// The first position in `from..end` where `text` holds byte `b`, or `end` when there is none.
pub open spec fn find_byte(text: Seq<u8>, from: int, end: int, b: u8) -> int
    decreases end - from,
{
    if from >= end {
        end
    } else if text[from] == b {
        from
    } else {
        find_byte(text, from + 1, end, b)
    }
}

pub proof fn lemma_find_byte(text: Seq<u8>, from: int, end: int, b: u8)
    requires
        from <= end,
    ensures
        from <= find_byte(text, from, end, b) <= end,
        find_byte(text, from, end, b) < end ==> text[find_byte(text, from, end, b)] == b,
        forall|i: int| from <= i < find_byte(text, from, end, b) ==> text[i] != b,
    decreases end - from,
{
    if from < end && text[from] != b {
        lemma_find_byte(text, from + 1, end, b);
    }
}

/// The lines of `text`, as byte ranges: the text is cut after each `\n`; a line does not hold
/// its `\n`, nor the `\r` just before it; a last empty piece after a final `\n` is no line.
pub open spec fn line_ranges_from(text: Seq<u8>, start: int) -> Seq<(int, int)>
    decreases text.len() - start,
{
    if start < 0 || start >= text.len() {
        Seq::empty()
    } else {
        let nl = find_byte(text, start, text.len() as int, 10u8);
        if nl >= text.len() {
            seq![(start, text.len() as int)]
        } else {
            proof {
                lemma_find_byte(text, start, text.len() as int, 10u8);
            }
            let end = if nl > start && text[nl - 1] == 13u8 {
                nl - 1
            } else {
                nl
            };
            seq![(start, end)] + line_ranges_from(text, nl + 1)
        }
    }
}

pub open spec fn line_ranges(text: Seq<u8>) -> Seq<(int, int)> {
    line_ranges_from(text, 0)
}

pub open spec fn range_view(r: (usize, usize)) -> (int, int) {
    (r.0 as int, r.1 as int)
}

/// Cuts `text` into lines (see `line_ranges`).
pub fn split_lines(text: &[u8]) -> (lines: Vec<(usize, usize)>)
    ensures
        lines@.map_values(|r: (usize, usize)| range_view(r)) == line_ranges(text@),
{
    let mut lines: Vec<(usize, usize)> = Vec::new();
    let mut start: usize = 0;
    let len = text.len();
    while start < len
        invariant
            len == text@.len(),
            start <= len,
            lines@.map_values(|r: (usize, usize)| range_view(r)) + line_ranges_from(text@, start as int)
                == line_ranges(text@),
        decreases len - start,
    {
        let ghost before = lines@.map_values(|r: (usize, usize)| range_view(r));
        let mut nl = start;
        while nl < len && text[nl] != 10u8
            invariant
                len == text@.len(),
                start <= nl <= len,
                find_byte(text@, start as int, len as int, 10u8) == find_byte(text@, nl as int, len as int, 10u8),
            decreases len - nl,
        {
            nl = nl + 1;
        }
        if nl >= len {
            lines.push((start, len));
            proof {
                assert(lines@.map_values(|r: (usize, usize)| range_view(r)) =~= before.push((start as int, len as int)));
                assert(before + line_ranges_from(text@, start as int) =~= lines@.map_values(|r: (usize, usize)| range_view(r)) + line_ranges_from(text@, len as int));
            }
            start = len;
        } else {
            let end = if nl > start && text[nl - 1] == 13u8 { nl - 1 } else { nl };
            lines.push((start, end));
            proof {
                assert(lines@.map_values(|r: (usize, usize)| range_view(r)) =~= before.push((start as int, end as int)));
                assert(before + line_ranges_from(text@, start as int) =~= lines@.map_values(|r: (usize, usize)| range_view(r)) + line_ranges_from(text@, nl + 1));
            }
            start = nl + 1;
        }
    }
    assert(line_ranges_from(text@, start as int) =~= Seq::<(int, int)>::empty());
    assert(lines@.map_values(|r: (usize, usize)| range_view(r)) =~= lines@.map_values(|r: (usize, usize)| range_view(r)) + Seq::<(int, int)>::empty());
    lines
}

/// The pieces of `text[start..end]` between single spaces, as byte ranges (as many as there are
/// spaces, plus one).
pub open spec fn pieces_from(text: Seq<u8>, start: int, end: int) -> Seq<(int, int)>
    decreases end - start,
{
    let sp = find_byte(text, start, end, 32u8);
    if sp >= end || sp < start {
        seq![(start, end)]
    } else {
        seq![(start, sp)] + pieces_from(text, sp + 1, end)
    }
}

/// Cuts `text[start..end]` at each space (see `pieces_from`).
fn split_spaces(text: &[u8], start: usize, end: usize) -> (pieces: Vec<(usize, usize)>)
    requires
        start <= end <= text@.len(),
    ensures
        pieces@.map_values(|r: (usize, usize)| range_view(r)) == pieces_from(
            text@,
            start as int,
            end as int,
        ),
        pieces@.len() >= 1,
        forall|i: int|
            0 <= i < pieces@.len() ==> start <= (#[trigger] pieces@[i]).0 <= pieces@[i].1 <= end,
{
    let mut pieces: Vec<(usize, usize)> = Vec::new();
    let mut from = start;
    loop
        invariant
            start <= from <= end <= text@.len(),
            pieces@.map_values(|r: (usize, usize)| range_view(r)) + pieces_from(
                text@,
                from as int,
                end as int,
            ) == pieces_from(text@, start as int, end as int),
            forall|i: int|
                0 <= i < pieces@.len() ==> start <= (#[trigger] pieces@[i]).0 <= pieces@[i].1
                    <= end,
        decreases end - from,
    {
        let ghost before = pieces@.map_values(|r: (usize, usize)| range_view(r));
        let mut sp = from;
        while sp < end && text[sp] != 32u8
            invariant
                from <= sp <= end <= text@.len(),
                find_byte(text@, from as int, end as int, 32u8) == find_byte(
                    text@,
                    sp as int,
                    end as int,
                    32u8,
                ),
            decreases end - sp,
        {
            sp = sp + 1;
        }
        if sp >= end {
            pieces.push((from, end));
            proof {
                assert(pieces@.map_values(|r: (usize, usize)| range_view(r)) =~= before.push(
                    (from as int, end as int),
                ));
                assert(pieces@.map_values(|r: (usize, usize)| range_view(r)) =~= before
                    + pieces_from(text@, from as int, end as int));
            }
            return pieces;
        }
        pieces.push((from, sp));
        proof {
            assert(pieces@.map_values(|r: (usize, usize)| range_view(r)) =~= before.push(
                (from as int, sp as int),
            ));
            assert(before + pieces_from(text@, from as int, end as int) =~= pieces@.map_values(
                |r: (usize, usize)| range_view(r),
            ) + pieces_from(text@, sp + 1, end as int));
        }
        from = sp + 1;
    }
}

/// Why a text is not a `usize` in decimal.
#[derive(Debug, PartialEq, Eq, Clone, Copy)]
pub enum IntErrorKind {
    /// The text is empty.
    Empty,
    /// A character is not a digit (a sign alone, or a `-`, is one).
    InvalidDigit,
    /// The number is more than `usize::MAX`.
    PosOverflow,
}

pub open spec fn is_digit(b: u8) -> bool {
    48u8 <= b <= 57u8
}

/// The decimal digits `text[i..end]`, read after the value `acc` of the digits before them.
pub open spec fn parse_digits(text: Seq<u8>, i: int, end: int, acc: int) -> Result<
    usize,
    IntErrorKind,
>
    decreases end - i,
{
    if i >= end {
        Ok(acc as usize)
    } else if !is_digit(text[i]) {
        Err(IntErrorKind::InvalidDigit)
    } else if acc * 10 + (text[i] - 48) > usize::MAX {
        Err(IntErrorKind::PosOverflow)
    } else {
        parse_digits(text, i + 1, end, acc * 10 + (text[i] - 48))
    }
}

/// `text[start..end]` read as a `usize` in decimal, with an optional leading `+`: the first
/// character that is no digit, or the first digit with which the value would pass
/// `usize::MAX`, decides the error.
pub open spec fn parse_usize(text: Seq<u8>, start: int, end: int) -> Result<usize, IntErrorKind> {
    if end <= start {
        Err(IntErrorKind::Empty)
    } else if end == start + 1 && (text[start] == 43u8 || text[start] == 45u8) {
        Err(IntErrorKind::InvalidDigit)
    } else if text[start] == 43u8 {
        parse_digits(text, start + 1, end, 0)
    } else {
        parse_digits(text, start, end, 0)
    }
}

/// Reads `text[start..end]` as a `usize` (see `parse_usize`).
pub fn read_usize(text: &[u8], start: usize, end: usize) -> (r: Result<usize, IntErrorKind>)
    requires
        start <= end <= text@.len(),
    ensures
        r == parse_usize(text@, start as int, end as int),
{
    if end <= start {
        return Err(IntErrorKind::Empty);
    }
    if end == start + 1 && (text[start] == 43u8 || text[start] == 45u8) {
        return Err(IntErrorKind::InvalidDigit);
    }
    let mut i = if text[start] == 43u8 { start + 1 } else { start };
    let mut acc: usize = 0;
    while i < end
        invariant
            start <= i <= end <= text@.len(),
            parse_usize(text@, start as int, end as int) == parse_digits(
                text@,
                i as int,
                end as int,
                acc as int,
            ),
        decreases end - i,
    {
        let b = text[i];
        if !(48u8 <= b && b <= 57u8) {
            return Err(IntErrorKind::InvalidDigit);
        }
        let d = (b - 48u8) as usize;
        if acc > (usize::MAX - d) / 10 {
            assert(acc * 10 + d > usize::MAX) by (nonlinear_arith)
                requires
                    acc > (usize::MAX - d) / 10,
                    0 <= d <= 9,
            ;
            return Err(IntErrorKind::PosOverflow);
        }
        assert(acc * 10 + d <= usize::MAX) by (nonlinear_arith)
            requires
                acc <= (usize::MAX - d) / 10,
                0 <= d <= 9,
        ;
        acc = acc * 10 + d;
        i = i + 1;
    }
    Ok(acc)
}

/// The header lines that a MEDIT hexahedral mesh file holds.
#[derive(Debug, PartialEq, Eq, Clone, Copy)]
pub enum MeditHeader {
    MeshVersionFormatted,
    Dimension,
    Blank,
    Vertices,
    Hexahedra,
    End,
}

/// The sections of a MEDIT hexahedral mesh file.
#[derive(Debug, PartialEq, Eq, Clone, Copy)]
pub enum MeditSection {
    Vertices,
    Hexahedra,
}

/// Why a text is not a MEDIT hexahedral mesh. Line numbers start at 1; text is given as byte
/// ranges of the input.
#[derive(Debug, PartialEq, Eq, Clone, Copy)]
pub enum MeditError {
    /// A header line is not the expected one.
    UnexpectedLine { line_number: usize, expected: MeditHeader, found: (usize, usize) },
    /// The text ends where a header line is expected.
    UnexpectedEndOfFile,
    /// The text ends where the number of elements of a section is expected.
    MissingCount { section: MeditSection },
    /// The number of elements of a section is not a `usize`.
    CountNotInteger { section: MeditSection, kind: IntErrorKind },
    /// A section does not hold the number of elements it declares.
    WrongCount { section: MeditSection, declared: usize, actual: usize },
    /// A vertex index of a hexahedron is not a `usize`.
    InvalidIndex { line_number: usize, token: (usize, usize), kind: IntErrorKind },
    /// A vertex index of a hexahedron is 0 (indices start at 1).
    ZeroIndex { line_number: usize, token: (usize, usize) },
    /// A hexahedron line does not hold 8 vertex indices.
    WrongIndexCount { line_number: usize },
    /// A line follows the `End` line.
    TrailingLine { line_number: usize },
}

/// The bytes of `MeshVersionFormatted 2`.
pub const MESH_VERSION_FORMATTED_LINE: [u8; 22] = [77, 101, 115, 104, 86, 101, 114, 115, 105, 111, 110, 70, 111, 114, 109, 97, 116, 116, 101, 100, 32, 50];

/// The bytes of `Dimension 3`.
pub const DIMENSION_LINE: [u8; 11] = [68, 105, 109, 101, 110, 115, 105, 111, 110, 32, 51];

/// The bytes of `Vertices`.
pub const VERTICES_LINE: [u8; 8] = [86, 101, 114, 116, 105, 99, 101, 115];

/// The bytes of `Hexahedra`.
pub const HEXAHEDRA_LINE: [u8; 9] = [72, 101, 120, 97, 104, 101, 100, 114, 97];

/// The bytes of `End`.
pub const END_LINE: [u8; 3] = [69, 110, 100];

/// The text of a header line.
pub open spec fn header_bytes(h: MeditHeader) -> Seq<u8> {
    match h {
        MeditHeader::MeshVersionFormatted => MESH_VERSION_FORMATTED_LINE@,
        MeditHeader::Dimension => DIMENSION_LINE@,
        MeditHeader::Blank => Seq::empty(),
        MeditHeader::Vertices => VERTICES_LINE@,
        MeditHeader::Hexahedra => HEXAHEDRA_LINE@,
        MeditHeader::End => END_LINE@,
    }
}

pub open spec fn range_text(text: Seq<u8>, r: (int, int)) -> Seq<u8> {
    text.subrange(r.0, r.1)
}

/// The error, if any, when line `pos` (0-based) must be header `h`.
pub open spec fn check_header(text: Seq<u8>, lines: Seq<(int, int)>, pos: int, h: MeditHeader) -> Option<
    MeditError,
> {
    if pos >= lines.len() {
        Some(MeditError::UnexpectedEndOfFile)
    } else if range_text(text, lines[pos]) != header_bytes(h) {
        Some(
            MeditError::UnexpectedLine {
                line_number: (pos + 1) as usize,
                expected: h,
                found: (lines[pos].0 as usize, lines[pos].1 as usize),
            },
        )
    } else {
        None
    }
}

/// The number of elements of `section`, read on line `pos`.
pub open spec fn read_count(
    text: Seq<u8>,
    lines: Seq<(int, int)>,
    pos: int,
    section: MeditSection,
) -> Result<usize, MeditError> {
    if pos >= lines.len() {
        Err(MeditError::MissingCount { section })
    } else {
        match parse_usize(text, lines[pos].0, lines[pos].1) {
            Ok(n) => Ok(n),
            Err(kind) => Err(MeditError::CountNotInteger { section, kind }),
        }
    }
}

/// The first empty line at or after line `pos`, or the number of lines when there is none.
pub open spec fn block_end(lines: Seq<(int, int)>, pos: int) -> int
    decreases lines.len() - pos,
{
    if pos >= lines.len() || pos < 0 {
        lines.len() as int
    } else if lines[pos].0 == lines[pos].1 {
        pos
    } else {
        block_end(lines, pos + 1)
    }
}

/// The line after a block that ends at `end`: the empty line that ends it is consumed.
pub open spec fn after_block(lines: Seq<(int, int)>, end: int) -> int {
    if end < lines.len() {
        end + 1
    } else {
        end
    }
}

/// The space-separated tokens of a line, without the last one (which ends each element line).
pub open spec fn line_tokens(text: Seq<u8>, r: (int, int)) -> Seq<(int, int)> {
    pieces_from(text, r.0, r.1).drop_last()
}

/// The tokens that are read when exactly `n` are expected: all of them, up to `n + 1`.
pub open spec fn pulled_tokens(tokens: Seq<(int, int)>, n: int) -> Seq<(int, int)> {
    if tokens.len() <= n + 1 {
        tokens
    } else {
        tokens.take(n + 1)
    }
}

/// The first `n` tokens read as 1-based vertex indices, turned 0-based.
pub open spec fn hex_values(text: Seq<u8>, tokens: Seq<(int, int)>, n: int, line_number: int) -> Result<
    Seq<usize>,
    MeditError,
>
    decreases n,
{
    if n <= 0 {
        Ok(Seq::empty())
    } else {
        match hex_values(text, tokens, n - 1, line_number) {
            Err(e) => Err(e),
            Ok(values) => {
                let t = tokens[n - 1];
                match parse_usize(text, t.0, t.1) {
                    Err(kind) => Err(
                        MeditError::InvalidIndex {
                            line_number: line_number as usize,
                            token: (t.0 as usize, t.1 as usize),
                            kind,
                        },
                    ),
                    Ok(v) => if v == 0 {
                        Err(
                            MeditError::ZeroIndex {
                                line_number: line_number as usize,
                                token: (t.0 as usize, t.1 as usize),
                            },
                        )
                    } else {
                        Ok(values.push((v - 1) as usize))
                    },
                }
            },
        }
    }
}

/// The 8 (0-based) vertex indices that a hexahedron line holds.
pub open spec fn parse_hex_line(text: Seq<u8>, r: (int, int), line_number: int) -> Result<
    Seq<usize>,
    MeditError,
> {
    let tokens = line_tokens(text, r);
    let pulled = pulled_tokens(tokens, 8);
    match hex_values(text, pulled, pulled.len() as int, line_number) {
        Err(e) => Err(e),
        Ok(values) => if tokens.len() == 8 {
            Ok(values)
        } else {
            Err(MeditError::WrongIndexCount { line_number: line_number as usize })
        },
    }
}

proof fn lemma_parse_digits_same_bytes(t1: Seq<u8>, t2: Seq<u8>, i: int, end: int, acc: int)
    requires
        forall|j: int| i <= j < end ==> t1[j] == t2[j],
    ensures
        parse_digits(t1, i, end, acc) == parse_digits(t2, i, end, acc),
    decreases end - i,
{
    if i < end {
        assert(t1[i] == t2[i]);
        lemma_parse_digits_same_bytes(t1, t2, i + 1, end, acc * 10 + (t1[i] - 48));
    }
}

proof fn lemma_parse_usize_same_bytes(t1: Seq<u8>, t2: Seq<u8>, start: int, end: int)
    requires
        forall|j: int| start <= j < end ==> t1[j] == t2[j],
    ensures
        parse_usize(t1, start, end) == parse_usize(t2, start, end),
{
    if start < end {
        assert(t1[start] == t2[start]);
        lemma_parse_digits_same_bytes(t1, t2, start + 1, end, 0);
        lemma_parse_digits_same_bytes(t1, t2, start, end, 0);
    }
}

proof fn lemma_hex_values_same_bytes(
    t1: Seq<u8>,
    t2: Seq<u8>,
    tokens: Seq<(int, int)>,
    n: int,
    line_number: int,
)
    requires
        n <= tokens.len(),
        forall|k: int, j: int|
            #![trigger tokens[k], t1[j]]
            0 <= k < n && tokens[k].0 <= j < tokens[k].1 ==> t1[j] == t2[j],
    ensures
        hex_values(t1, tokens, n, line_number) == hex_values(t2, tokens, n, line_number),
    decreases n,
{
    if n > 0 {
        lemma_hex_values_same_bytes(t1, t2, tokens, n - 1, line_number);
        let t = tokens[n - 1];
        assert forall|j: int| t.0 <= j < t.1 implies t1[j] == t2[j] by {
            assert(tokens[n - 1].0 <= j < tokens[n - 1].1);
        }
        lemma_parse_usize_same_bytes(t1, t2, t.0, t.1);
    }
}

/// The pieces before the last one, when the last one starts at `p` (after a space) and the
/// texts agree before `p`: they are the same in both texts, and lie before `p`.
pub(crate) proof fn lemma_pieces_before_last(t1: Seq<u8>, t2: Seq<u8>, start: int, e1: int, e2: int, p: int)
    requires
        start <= p <= e1,
        p <= e2,
        forall|j: int| start <= j < p ==> t1[j] == t2[j],
        p > start ==> t1[p - 1] == 32u8,
        forall|j: int| p <= j < e1 ==> t1[j] != 32u8,
        forall|j: int| p <= j < e2 ==> t2[j] != 32u8,
    ensures
        pieces_from(t1, start, e1).drop_last() == pieces_from(t2, start, e2).drop_last(),
        forall|k: int|
            0 <= k < pieces_from(t1, start, e1).len() - 1 ==> start <= (#[trigger] pieces_from(
                t1,
                start,
                e1,
            )[k]).0 <= pieces_from(t1, start, e1)[k].1 < p,
    decreases p - start,
{
    lemma_find_byte(t1, start, e1, 32u8);
    lemma_find_byte(t2, start, e2, 32u8);
    let sp1 = find_byte(t1, start, e1, 32u8);
    let sp2 = find_byte(t2, start, e2, 32u8);
    if start == p {
        if sp1 < e1 {
            assert(t1[sp1] != 32u8);
        }
        if sp2 < e2 {
            assert(t2[sp2] != 32u8);
        }
        assert(pieces_from(t1, start, e1) == seq![(start, e1)]);
        assert(pieces_from(t2, start, e2) == seq![(start, e2)]);
        assert(pieces_from(t1, start, e1).drop_last() =~= pieces_from(t2, start, e2).drop_last());
    } else {
        assert(t2[p - 1] == 32u8);
        assert(sp1 <= p - 1);
        assert(sp2 <= p - 1);
        if sp1 < sp2 {
            assert(t2[sp1] == t1[sp1]);
        }
        if sp2 < sp1 {
            assert(t1[sp2] == t2[sp2]);
        }
        assert(sp1 == sp2);
        lemma_pieces_before_last(t1, t2, sp1 + 1, e1, e2, p);
        let rest1 = pieces_from(t1, sp1 + 1, e1);
        let rest2 = pieces_from(t2, sp1 + 1, e2);
        let all1 = pieces_from(t1, start, e1);
        assert(all1 == seq![(start, sp1)] + rest1);
        assert(pieces_from(t2, start, e2) == seq![(start, sp1)] + rest2);
        assert(rest1.len() >= 1);
        assert(rest2.len() >= 1);
        assert(all1.drop_last() =~= seq![(start, sp1)] + rest1.drop_last());
        assert(pieces_from(t2, start, e2).drop_last() =~= seq![(start, sp1)] + rest2.drop_last());
        assert forall|k: int| 0 <= k < all1.len() - 1 implies start <= (#[trigger] all1[k]).0
            <= all1[k].1 < p by {
            if k > 0 {
                assert(all1[k] == rest1[k - 1]);
            }
        }
    }
}

/// Reading a MEDIT element line never looks at its last token: when two lines start at the
/// same place, agree up to the start `p` of their last token (which follows a space), and each
/// ends with a token without spaces, they give the same tokens, the same hexahedron (or the
/// same error), and the same vertex coordinate tokens.
pub proof fn lemma_last_token_not_read(
    text1: Seq<u8>,
    text2: Seq<u8>,
    r1: (int, int),
    r2: (int, int),
    p: int,
    line_number: int,
)
    requires
        r1.0 == r2.0,
        r1.0 <= p <= r1.1,
        p <= r2.1,
        forall|j: int| r1.0 <= j < p ==> text1[j] == text2[j],
        p > r1.0 ==> text1[p - 1] == 32u8,
        forall|j: int| p <= j < r1.1 ==> text1[j] != 32u8,
        forall|j: int| p <= j < r2.1 ==> text2[j] != 32u8,
    ensures
        line_tokens(text1, r1) == line_tokens(text2, r2),
        parse_hex_line(text1, r1, line_number) == parse_hex_line(text2, r2, line_number),
        pulled_tokens(line_tokens(text1, r1), 3) == pulled_tokens(line_tokens(text2, r2), 3),
{
    lemma_pieces_before_last(text1, text2, r1.0, r1.1, r2.1, p);
    let tokens = line_tokens(text1, r1);
    let pulled = pulled_tokens(tokens, 8);
    assert forall|k: int, j: int|
        #![trigger pulled[k], text1[j]]
        0 <= k < pulled.len() && pulled[k].0 <= j < pulled[k].1 implies text1[j] == text2[j] by {
        assert(pulled[k] == tokens[k]);
        assert(tokens[k] == pieces_from(text1, r1.0, r1.1)[k]);
    }
    lemma_hex_values_same_bytes(text1, text2, pulled, pulled.len() as int, line_number);
}

proof fn lemma_hex_values_error_stays(
    text: Seq<u8>,
    tokens: Seq<(int, int)>,
    n: int,
    m: int,
    line_number: int,
)
    requires
        0 <= n <= m,
        hex_values(text, tokens, n, line_number) is Err,
    ensures
        hex_values(text, tokens, m, line_number) == hex_values(text, tokens, n, line_number),
    decreases m - n,
{
    if n < m {
        lemma_hex_values_error_stays(text, tokens, n, m - 1, line_number);
    }
}

/// Reads the hexahedron line `text[start..end]` (see `parse_hex_line`).
fn read_hexahedron(text: &[u8], start: usize, end: usize, line_number: usize) -> (r: Result<
    Hexahedron,
    MeditError,
>)
    requires
        start <= end <= text@.len(),
    ensures
        match r {
            Ok(h) => parse_hex_line(text@, (start as int, end as int), line_number as int) == Ok::<
                Seq<usize>,
                MeditError,
            >(h.vertices@),
            Err(e) => parse_hex_line(text@, (start as int, end as int), line_number as int) == Err::<
                Seq<usize>,
                MeditError,
            >(e),
        },
{
    let pieces = split_spaces(text, start, end);
    let ghost tokens = line_tokens(text@, (start as int, end as int));
    let nb_tokens = pieces.len() - 1;
    let nb_pulled = if nb_tokens <= 9 {
        nb_tokens
    } else {
        9
    };
    let ghost pulled = pulled_tokens(tokens, 8);
    assert(pulled.len() == nb_pulled);
    assert forall|i: int| 0 <= i < nb_pulled implies #[trigger] pulled[i] == range_view(pieces@[i]) by {
        assert(pieces@.map_values(|r: (usize, usize)| range_view(r))[i] == range_view(pieces@[i]));
    }
    let mut values: Vec<usize> = Vec::new();
    for i in 0..nb_pulled
        invariant
            nb_pulled <= pieces@.len(),
            nb_pulled == pulled.len(),
            forall|i: int| 0 <= i < nb_pulled ==> #[trigger] pulled[i] == range_view(pieces@[i]),
            forall|i: int|
                0 <= i < pieces@.len() ==> start <= (#[trigger] pieces@[i]).0 <= pieces@[i].1 <= end,
            end <= text@.len(),
            pulled == pulled_tokens(line_tokens(text@, (start as int, end as int)), 8),
            values@.len() == i,
            hex_values(text@, pulled, i as int, line_number as int) == Ok::<Seq<usize>, MeditError>(
                values@,
            ),
    {
        let (ts, te) = pieces[i];
        match read_usize(text, ts, te) {
            Err(kind) => {
                proof {
                    assert(pulled[i as int] == (ts as int, te as int));
                    assert(hex_values(text@, pulled, i + 1, line_number as int) == Err::<Seq<usize>, MeditError>(
                        MeditError::InvalidIndex { line_number, token: (ts, te), kind },
                    ));
                    lemma_hex_values_error_stays(text@, pulled, i + 1, nb_pulled as int, line_number as int);
                }
                return Err(MeditError::InvalidIndex { line_number, token: (ts, te), kind });
            },
            Ok(v) => {
                if v == 0 {
                    proof {
                        assert(pulled[i as int] == (ts as int, te as int));
                        assert(hex_values(text@, pulled, i + 1, line_number as int) == Err::<Seq<usize>, MeditError>(
                            MeditError::ZeroIndex { line_number, token: (ts, te) },
                        ));
                        lemma_hex_values_error_stays(text@, pulled, i + 1, nb_pulled as int, line_number as int);
                    }
                    return Err(MeditError::ZeroIndex { line_number, token: (ts, te) });
                }
                values.push(v - 1);
            },
        }
    }
    if nb_tokens != 8 {
        return Err(MeditError::WrongIndexCount { line_number });
    }
    let vertices = [
        values[0],
        values[1],
        values[2],
        values[3],
        values[4],
        values[5],
        values[6],
        values[7],
    ];
    assert(vertices@ =~= values@);
    Ok(Hexahedron::new(vertices))
}

pub(crate) proof fn lemma_line_ranges_valid(text: Seq<u8>, start: int)
    requires
        0 <= start,
    ensures
        start <= text.len() ==> line_ranges_from(text, start).len() <= text.len() - start,
        forall|i: int|
            0 <= i < line_ranges_from(text, start).len() ==> start <= (#[trigger] line_ranges_from(
                text,
                start,
            )[i]).0 <= line_ranges_from(text, start)[i].1 <= text.len(),
    decreases text.len() - start,
{
    if start < text.len() {
        let nl = find_byte(text, start, text.len() as int, 10u8);
        lemma_find_byte(text, start, text.len() as int, 10u8);
        if nl < text.len() {
            lemma_line_ranges_valid(text, nl + 1);
            let all = line_ranges_from(text, start);
            let rest = line_ranges_from(text, nl + 1);
            let end = if nl > start && text[nl - 1] == 13u8 {
                nl - 1
            } else {
                nl
            };
            assert(all == seq![(start, end)] + rest);
            assert(all.len() == rest.len() + 1);
            assert forall|i: int| 0 <= i < all.len() implies start <= (#[trigger] all[i]).0 <= all[i].1
                <= text.len() by {
                if i > 0 {
                    assert(all[i] == rest[i - 1]);
                }
            }
        }
    }
}

/// The hexahedra of lines `start..end` (0-based), read in order up to the first error.
pub open spec fn hex_lines(text: Seq<u8>, lines: Seq<(int, int)>, start: int, end: int) -> Result<
    Seq<Seq<usize>>,
    MeditError,
>
    decreases end - start,
{
    if end <= start {
        Ok(Seq::empty())
    } else {
        match hex_lines(text, lines, start, end - 1) {
            Err(e) => Err(e),
            Ok(cells) => match parse_hex_line(text, lines[end - 1], end) {
                Err(e) => Err(e),
                Ok(h) => Ok(cells.push(h)),
            },
        }
    }
}

/// A vertex line: its line number, and its coordinate tokens as far as they are read when
/// exactly 3 are expected.
pub open spec fn vertex_line(text: Seq<u8>, lines: Seq<(int, int)>, i: int) -> (int, Seq<(int, int)>) {
    (i + 1, pulled_tokens(line_tokens(text, lines[i]), 3))
}

/// What follows the vertex lines, which end at line `vend` (0-based): the count check, the
/// hexahedra section, and the end of the file.
pub open spec fn hexahedra_part(
    text: Seq<u8>,
    lines: Seq<(int, int)>,
    nb_vertices: usize,
    vend: int,
) -> Result<Seq<Seq<usize>>, MeditError> {
    if vend - 5 != nb_vertices {
        Err(
            MeditError::WrongCount {
                section: MeditSection::Vertices,
                declared: nb_vertices,
                actual: (vend - 5) as usize,
            },
        )
    } else {
        let p = after_block(lines, vend);
        match check_header(text, lines, p, MeditHeader::Hexahedra) {
            Some(e) => Err(e),
            None => match read_count(text, lines, p + 1, MeditSection::Hexahedra) {
                Err(e) => Err(e),
                Ok(nb_hexahedra) => {
                    let hend = block_end(lines, p + 2);
                    match hex_lines(text, lines, p + 2, hend) {
                        Err(e) => Err(e),
                        Ok(cells) => if cells.len() != nb_hexahedra {
                            Err(
                                MeditError::WrongCount {
                                    section: MeditSection::Hexahedra,
                                    declared: nb_hexahedra,
                                    actual: cells.len() as usize,
                                },
                            )
                        } else {
                            let q = after_block(lines, hend);
                            match check_header(text, lines, q, MeditHeader::End) {
                                Some(e) => Err(e),
                                None => if q + 1 < lines.len() {
                                    Err(MeditError::TrailingLine { line_number: (q + 2) as usize })
                                } else {
                                    Ok(cells)
                                },
                            }
                        },
                    }
                },
            },
        }
    }
}

/// What a MEDIT hexahedral mesh text holds: its vertex lines (line number and coordinate
/// tokens), then either its hexahedra (0-based vertex indices) or the first error met:
///
/// ```text
/// MeshVersionFormatted 2
/// Dimension 3
///
/// Vertices
/// <nb>
/// <x> <y> <z> 1
/// ...
///
/// Hexahedra
/// <nb>
/// <v0> <v1> <v2> <v3> <v4> <v5> <v6> <v7> 1
/// ...
///
/// End
/// ```
///
/// Vertex indices are 1-based in the file. The coordinates are not read here; every vertex line
/// is listed, and an error is only reported for what follows them.
pub open spec fn medit_document(text: Seq<u8>) -> (Seq<(int, Seq<(int, int)>)>, Result<
    Seq<Seq<usize>>,
    MeditError,
>) {
    let lines = line_ranges(text);
    let no_vertices = Seq::<(int, Seq<(int, int)>)>::empty();
    match check_header(text, lines, 0, MeditHeader::MeshVersionFormatted) {
        Some(e) => (no_vertices, Err(e)),
        None => match check_header(text, lines, 1, MeditHeader::Dimension) {
            Some(e) => (no_vertices, Err(e)),
            None => match check_header(text, lines, 2, MeditHeader::Blank) {
                Some(e) => (no_vertices, Err(e)),
                None => match check_header(text, lines, 3, MeditHeader::Vertices) {
                    Some(e) => (no_vertices, Err(e)),
                    None => match read_count(text, lines, 4, MeditSection::Vertices) {
                        Err(e) => (no_vertices, Err(e)),
                        Ok(nb_vertices) => {
                            let vend = block_end(lines, 5);
                            (
                                Seq::new((vend - 5) as nat, |i: int| vertex_line(text, lines, 5 + i)),
                                hexahedra_part(text, lines, nb_vertices, vend),
                            )
                        },
                    },
                },
            },
        },
    }
}

pub open spec fn ranges_view(ranges: Seq<(usize, usize)>) -> Seq<(int, int)> {
    ranges.map_values(|r: (usize, usize)| range_view(r))
}

/// The lines of `text` as found by `split_lines`, each within the text.
spec fn lines_of(text: Seq<u8>, lines: Seq<(usize, usize)>) -> bool {
    &&& ranges_view(lines) == line_ranges(text)
    &&& lines.len() <= text.len()
    &&& forall|i: int| 0 <= i < lines.len() ==> (#[trigger] lines[i]).0 <= lines[i].1 <= text.len()
}

fn read_lines(text: &[u8]) -> (lines: Vec<(usize, usize)>)
    ensures
        lines_of(text@, lines@),
{
    let lines = split_lines(text);
    proof {
        lemma_line_ranges_valid(text@, 0);
        assert(lines@.len() == ranges_view(lines@).len());
        assert forall|i: int| 0 <= i < lines@.len() implies (#[trigger] lines@[i]).0 <= lines@[i].1
            <= text@.len() by {
            assert(ranges_view(lines@)[i] == range_view(lines@[i]));
        }
    }
    lines
}

fn range_equals(text: &[u8], start: usize, end: usize, expected: &[u8]) -> (r: bool)
    requires
        start <= end <= text@.len(),
    ensures
        r == (text@.subrange(start as int, end as int) == expected@),
{
    if end - start != expected.len() {
        return false;
    }
    let mut i: usize = 0;
    while i < expected.len()
        invariant
            start <= end <= text@.len(),
            end - start == expected@.len(),
            i <= expected@.len(),
            forall|j: int| 0 <= j < i ==> text@[start + j] == expected@[j],
        decreases expected@.len() - i,
    {
        if text[start + i] != expected[i] {
            assert(text@.subrange(start as int, end as int)[i as int] != expected@[i as int]);
            return false;
        }
        i = i + 1;
    }
    assert(text@.subrange(start as int, end as int) =~= expected@);
    true
}

fn header_matches(text: &[u8], start: usize, end: usize, h: MeditHeader) -> (r: bool)
    requires
        start <= end <= text@.len(),
    ensures
        r == (text@.subrange(start as int, end as int) == header_bytes(h)),
{
    match h {
        MeditHeader::MeshVersionFormatted => range_equals(
            text,
            start,
            end,
            MESH_VERSION_FORMATTED_LINE.as_slice(),
        ),
        MeditHeader::Dimension => range_equals(text, start, end, DIMENSION_LINE.as_slice()),
        MeditHeader::Blank => {
            assert(end > start ==> text@.subrange(start as int, end as int).len() != 0);
            assert(end == start ==> text@.subrange(start as int, end as int) =~= Seq::<u8>::empty());
            end == start
        },
        MeditHeader::Vertices => range_equals(text, start, end, VERTICES_LINE.as_slice()),
        MeditHeader::Hexahedra => range_equals(text, start, end, HEXAHEDRA_LINE.as_slice()),
        MeditHeader::End => range_equals(text, start, end, END_LINE.as_slice()),
    }
}

fn check_header_line(text: &[u8], lines: &Vec<(usize, usize)>, pos: usize, h: MeditHeader) -> (r:
    Option<MeditError>)
    requires
        lines_of(text@, lines@),
    ensures
        r == check_header(text@, line_ranges(text@), pos as int, h),
{
    if pos >= lines.len() {
        return Some(MeditError::UnexpectedEndOfFile);
    }
    let (start, end) = lines[pos];
    assert(line_ranges(text@)[pos as int] == range_view(lines@[pos as int]));
    if !header_matches(text, start, end, h) {
        return Some(MeditError::UnexpectedLine { line_number: pos + 1, expected: h, found: (start, end) });
    }
    None
}

fn read_count_line(text: &[u8], lines: &Vec<(usize, usize)>, pos: usize, section: MeditSection) -> (r:
    Result<usize, MeditError>)
    requires
        lines_of(text@, lines@),
    ensures
        r == read_count(text@, line_ranges(text@), pos as int, section),
{
    if pos >= lines.len() {
        return Err(MeditError::MissingCount { section });
    }
    let (start, end) = lines[pos];
    assert(line_ranges(text@)[pos as int] == range_view(lines@[pos as int]));
    match read_usize(text, start, end) {
        Ok(n) => Ok(n),
        Err(kind) => Err(MeditError::CountNotInteger { section, kind }),
    }
}

fn find_block_end(lines: &Vec<(usize, usize)>, pos: usize) -> (r: usize)
    ensures
        r == block_end(ranges_view(lines@), pos as int),
        pos <= lines@.len() ==> pos <= r <= lines@.len(),
        r <= lines@.len() || r == pos,
{
    if pos >= lines.len() {
        return lines.len();
    }
    let mut i = pos;
    while i < lines.len() && lines[i].0 != lines[i].1
        invariant
            pos <= i <= lines@.len(),
            block_end(ranges_view(lines@), pos as int) == block_end(ranges_view(lines@), i as int),
        decreases lines@.len() - i,
    {
        assert(ranges_view(lines@)[i as int] == range_view(lines@[i as int]));
        i = i + 1;
    }
    if i < lines.len() {
        assert(ranges_view(lines@)[i as int] == range_view(lines@[i as int]));
    }
    i
}

/// A vertex line of a MEDIT file: its line number and the byte ranges of its coordinate
/// tokens, as far as they are read when exactly 3 are expected (at most 4).
pub struct VertexLine {
    pub line_number: usize,
    pub tokens: Vec<(usize, usize)>,
}

pub open spec fn vertex_line_view(l: VertexLine) -> (int, Seq<(int, int)>) {
    (l.line_number as int, ranges_view(l.tokens@))
}

/// The contents of a MEDIT hexahedral mesh text (see `medit_document`).
pub struct MeditContent {
    pub vertex_lines: Vec<VertexLine>,
    pub cells: Result<Vec<Hexahedron>, MeditError>,
}

/// The pulled coordinate tokens of line `i`.
fn read_vertex_line(text: &[u8], lines: &Vec<(usize, usize)>, i: usize) -> (l: VertexLine)
    requires
        lines_of(text@, lines@),
        i < lines@.len(),
    ensures
        vertex_line_view(l) == vertex_line(text@, line_ranges(text@), i as int),
{
    let (start, end) = lines[i];
    assert(line_ranges(text@)[i as int] == range_view(lines@[i as int]));
    let pieces = split_spaces(text, start, end);
    let nb_tokens = pieces.len() - 1;
    let nb_pulled = if nb_tokens <= 4 {
        nb_tokens
    } else {
        4
    };
    let mut tokens: Vec<(usize, usize)> = Vec::new();
    for k in 0..nb_pulled
        invariant
            nb_pulled <= nb_tokens,
            nb_tokens + 1 == pieces@.len(),
            tokens@ == pieces@.subrange(0, k as int),
    {
        tokens.push(pieces[k]);
        assert(tokens@ =~= pieces@.subrange(0, k + 1));
    }
    let ghost spec_tokens = line_tokens(text@, (start as int, end as int));
    assert(ranges_view(tokens@) =~= pulled_tokens(spec_tokens, 3)) by {
        assert forall|k: int| 0 <= k < nb_pulled implies ranges_view(tokens@)[k] == pulled_tokens(
            spec_tokens,
            3,
        )[k] by {
            assert(pieces@.map_values(|r: (usize, usize)| range_view(r))[k] == range_view(pieces@[k]));
        }
    }
    let text_len = text.len();
    assert(i < text_len);
    VertexLine { line_number: i + 1, tokens }
}

/// Reads the hexahedron lines `start..end` (see `hex_lines`).
fn read_hex_lines(text: &[u8], lines: &Vec<(usize, usize)>, start: usize, end: usize) -> (r: Result<
    Vec<Hexahedron>,
    MeditError,
>)
    requires
        lines_of(text@, lines@),
        start <= end <= lines@.len(),
    ensures
        match r {
            Ok(cells) => hex_lines(text@, line_ranges(text@), start as int, end as int) == Ok::<
                Seq<Seq<usize>>,
                MeditError,
            >(cells@.map_values(|h: Hexahedron| h.vertices@)),
            Err(e) => hex_lines(text@, line_ranges(text@), start as int, end as int) == Err::<
                Seq<Seq<usize>>,
                MeditError,
            >(e),
        },
{
    let mut cells: Vec<Hexahedron> = Vec::new();
    assert(cells@.map_values(|h: Hexahedron| h.vertices@) =~= Seq::<Seq<usize>>::empty());
    for i in start..end
        invariant
            lines_of(text@, lines@),
            end <= lines@.len(),
            hex_lines(text@, line_ranges(text@), start as int, i as int) == Ok::<
                Seq<Seq<usize>>,
                MeditError,
            >(cells@.map_values(|h: Hexahedron| h.vertices@)),
    {
        let (ls, le) = lines[i];
        assert(line_ranges(text@)[i as int] == range_view(lines@[i as int]));
        let ghost before = cells@.map_values(|h: Hexahedron| h.vertices@);
        match read_hexahedron(text, ls, le, i + 1) {
            Ok(h) => {
                cells.push(h);
                assert(cells@.map_values(|h: Hexahedron| h.vertices@) =~= before.push(h.vertices@));
            },
            Err(e) => {
                proof {
                    lemma_hex_lines_error_stays(text@, line_ranges(text@), start as int, i + 1, end as int);
                }
                return Err(e);
            },
        }
    }
    Ok(cells)
}

proof fn lemma_hex_lines_error_stays(
    text: Seq<u8>,
    lines: Seq<(int, int)>,
    start: int,
    n: int,
    m: int,
)
    requires
        start <= n <= m,
        hex_lines(text, lines, start, n) is Err,
    ensures
        hex_lines(text, lines, start, m) == hex_lines(text, lines, start, n),
    decreases m - n,
{
    if n < m {
        lemma_hex_lines_error_stays(text, lines, start, n, m - 1);
    }
}

/// Reads what follows the vertex lines (see `hexahedra_part`).
fn read_hexahedra_part(text: &[u8], lines: &Vec<(usize, usize)>, nb_vertices: usize, vend: usize) -> (r:
    Result<Vec<Hexahedron>, MeditError>)
    requires
        lines_of(text@, lines@),
        5 <= vend <= lines@.len(),
    ensures
        match r {
            Ok(cells) => hexahedra_part(text@, line_ranges(text@), nb_vertices, vend as int) == Ok::<
                Seq<Seq<usize>>,
                MeditError,
            >(cells@.map_values(|h: Hexahedron| h.vertices@)),
            Err(e) => hexahedra_part(text@, line_ranges(text@), nb_vertices, vend as int) == Err::<
                Seq<Seq<usize>>,
                MeditError,
            >(e),
        },
{
    let ghost lv = line_ranges(text@);
    assert(lv == ranges_view(lines@));
    if vend - 5 != nb_vertices {
        return Err(
            MeditError::WrongCount {
                section: MeditSection::Vertices,
                declared: nb_vertices,
                actual: vend - 5,
            },
        );
    }
    // the empty line that ends the vertices is consumed
    let p = if vend < lines.len() {
        vend + 1
    } else {
        vend
    };
    if let Some(e) = check_header_line(text, lines, p, MeditHeader::Hexahedra) {
        return Err(e);
    }
    let nb_hexahedra = match read_count_line(text, lines, p + 1, MeditSection::Hexahedra) {
        Ok(n) => n,
        Err(e) => {
            return Err(e);
        },
    };
    let hend = find_block_end(lines, p + 2);
    let cells = match read_hex_lines(text, lines, p + 2, hend) {
        Ok(cells) => cells,
        Err(e) => {
            return Err(e);
        },
    };
    if cells.len() != nb_hexahedra {
        return Err(
            MeditError::WrongCount {
                section: MeditSection::Hexahedra,
                declared: nb_hexahedra,
                actual: cells.len(),
            },
        );
    }
    let q = if hend < lines.len() {
        hend + 1
    } else {
        hend
    };
    if let Some(e) = check_header_line(text, lines, q, MeditHeader::End) {
        return Err(e);
    }
    if q + 1 < lines.len() {
        return Err(MeditError::TrailingLine { line_number: q + 2 });
    }
    Ok(cells)
}

/// Reads a MEDIT hexahedral mesh text (see `medit_document`). The vertex coordinates are left
/// as text: `vertex_lines` gives, for each vertex line, the byte ranges of its coordinate
/// tokens.
pub fn parse_medit(text: &[u8]) -> (r: MeditContent)
    ensures
        r.vertex_lines@.map_values(|l: VertexLine| vertex_line_view(l)) == medit_document(text@).0,
        match r.cells {
            Ok(cells) => medit_document(text@).1 == Ok::<Seq<Seq<usize>>, MeditError>(
                cells@.map_values(|h: Hexahedron| h.vertices@),
            ),
            Err(e) => medit_document(text@).1 == Err::<Seq<Seq<usize>>, MeditError>(e),
        },
{
    let lines = read_lines(text);
    let ghost lv = line_ranges(text@);
    let no_vertices: Vec<VertexLine> = Vec::new();
    assert(no_vertices@.map_values(|l: VertexLine| vertex_line_view(l)) =~= Seq::<
        (int, Seq<(int, int)>),
    >::empty());
    if let Some(e) = check_header_line(text, &lines, 0, MeditHeader::MeshVersionFormatted) {
        return MeditContent { vertex_lines: no_vertices, cells: Err(e) };
    }
    if let Some(e) = check_header_line(text, &lines, 1, MeditHeader::Dimension) {
        return MeditContent { vertex_lines: no_vertices, cells: Err(e) };
    }
    if let Some(e) = check_header_line(text, &lines, 2, MeditHeader::Blank) {
        return MeditContent { vertex_lines: no_vertices, cells: Err(e) };
    }
    if let Some(e) = check_header_line(text, &lines, 3, MeditHeader::Vertices) {
        return MeditContent { vertex_lines: no_vertices, cells: Err(e) };
    }
    let nb_vertices = match read_count_line(text, &lines, 4, MeditSection::Vertices) {
        Ok(n) => n,
        Err(e) => {
            return MeditContent { vertex_lines: no_vertices, cells: Err(e) };
        },
    };
    let vend = find_block_end(&lines, 5);
    let mut vertex_lines: Vec<VertexLine> = Vec::new();
    for i in 5..vend
        invariant
            lines_of(text@, lines@),
            5 <= vend <= lines@.len(),
            vertex_lines@.map_values(|l: VertexLine| vertex_line_view(l)) =~= Seq::new(
                (i - 5) as nat,
                |k: int| vertex_line(text@, line_ranges(text@), 5 + k),
            ),
    {
        let l = read_vertex_line(text, &lines, i);
        let ghost before = vertex_lines@.map_values(|l: VertexLine| vertex_line_view(l));
        let ghost lview = vertex_line_view(l);
        vertex_lines.push(l);
        assert(vertex_lines@.map_values(|l: VertexLine| vertex_line_view(l)) =~= before.push(lview));
    }
    let cells = read_hexahedra_part(text, &lines, nb_vertices, vend);
    MeditContent { vertex_lines, cells }
}

} // verus!
