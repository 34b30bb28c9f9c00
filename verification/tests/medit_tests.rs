use hexmesh::hexmesh::{HexMesh, Hexahedron};
use hexmesh::medit::{parse_medit, IntErrorKind, MeditError, MeditHeader, MeditSection};

const THREE_HEXA: &str = "MeshVersionFormatted 2
Dimension 3

Vertices
16
0 0 0 1
1 0 0 1
2 0 0 1
3 0 0 1
0 1 0 1
1 1 0 1
2 1 0 1
3 1 0 1
0 0 1.5 1
1 0 0.5 1
2 0 1 1
3 0 1 1
0 1 0.1 1
1 1 1 1
2 1 1 1
3 1 1 1

Hexahedra
3
1 9 10 2 5 13 14 6 1
2 10 11 3 6 14 15 7 1
3 11 12 4 7 15 16 8 1

End
";

fn mesh_from_medit(text: &str) -> HexMesh<[f32; 3], f32> {
    let content = parse_medit(text.as_bytes());
    let mut points: Vec<[f32; 3]> = Vec::new();
    for line in &content.vertex_lines {
        let mut p = [0.0f32; 3];
        for (k, &(s, e)) in line.tokens.iter().enumerate() {
            p[k] = text[s..e].parse::<f32>().unwrap();
        }
        assert_eq!(line.tokens.len(), 3);
        points.push(p);
    }
    let mut mesh: HexMesh<[f32; 3], f32> = HexMesh::new();
    mesh.points = points;
    mesh.cells = content.cells.unwrap();
    mesh
}

#[test]
fn read_from_medit_format() {
    let mesh = mesh_from_medit(THREE_HEXA);

    assert_eq!(mesh.points.len(), 16);
    assert_eq!(mesh.cells.len(), 3);

    assert_eq!(mesh.points[0], [0.0, 0.0, 0.0]);
    assert_eq!(mesh.points[1], [1.0, 0.0, 0.0]);
    assert_eq!(mesh.points[2], [2.0, 0.0, 0.0]);
    assert_eq!(mesh.points[3], [3.0, 0.0, 0.0]);

    assert_eq!(mesh.points[4], [0.0, 1.0, 0.0]);
    assert_eq!(mesh.points[5], [1.0, 1.0, 0.0]);
    assert_eq!(mesh.points[6], [2.0, 1.0, 0.0]);
    assert_eq!(mesh.points[7], [3.0, 1.0, 0.0]);

    assert_eq!(mesh.points[8], [0.0, 0.0, 1.5]);
    assert_eq!(mesh.points[9], [1.0, 0.0, 0.5]);
    assert_eq!(mesh.points[10], [2.0, 0.0, 1.0]);
    assert_eq!(mesh.points[11], [3.0, 0.0, 1.0]);

    assert_eq!(mesh.points[12], [0.0, 1.0, 0.1]);
    assert_eq!(mesh.points[13], [1.0, 1.0, 1.0]);
    assert_eq!(mesh.points[14], [2.0, 1.0, 1.0]);
    assert_eq!(mesh.points[15], [3.0, 1.0, 1.0]);

    assert_eq!(mesh.cells[0], Hexahedron::new([0, 8, 9, 1, 4, 12, 13, 5]));
    assert_eq!(mesh.cells[1], Hexahedron::new([1, 9, 10, 2, 5, 13, 14, 6]));
    assert_eq!(mesh.cells[2], Hexahedron::new([2, 10, 11, 3, 6, 14, 15, 7]));
}

#[test]
fn medit_crlf_line_ends() {
    let text = THREE_HEXA.replace('\n', "\r\n");
    let mesh = mesh_from_medit(&text);
    assert_eq!(mesh.points.len(), 16);
    assert_eq!(mesh.cells[2], Hexahedron::new([2, 10, 11, 3, 6, 14, 15, 7]));
}

#[test]
fn medit_vertex_tokens_are_byte_ranges() {
    let content = parse_medit(THREE_HEXA.as_bytes());
    assert_eq!(content.vertex_lines.len(), 16);
    let first = &content.vertex_lines[0];
    assert_eq!(first.line_number, 6);
    let tokens: Vec<&str> = first.tokens.iter().map(|&(s, e)| &THREE_HEXA[s..e]).collect();
    assert_eq!(tokens, vec!["0", "0", "0"]);
    let ninth = &content.vertex_lines[8];
    assert_eq!(ninth.line_number, 14);
    assert_eq!(&THREE_HEXA[ninth.tokens[2].0..ninth.tokens[2].1], "1.5");
}

#[test]
fn medit_wrong_header() {
    let text = "MeshVersionFormatted 1\nDimension 3\n";
    let content = parse_medit(text.as_bytes());
    assert_eq!(content.vertex_lines.len(), 0);
    assert_eq!(
        content.cells.unwrap_err(),
        MeditError::UnexpectedLine {
            line_number: 1,
            expected: MeditHeader::MeshVersionFormatted,
            found: (0, 22)
        }
    );
}

#[test]
fn medit_empty_text() {
    let content = parse_medit(b"");
    assert_eq!(content.cells.unwrap_err(), MeditError::UnexpectedEndOfFile);
}

#[test]
fn medit_missing_vertex_count() {
    let content = parse_medit(b"MeshVersionFormatted 2\nDimension 3\n\nVertices\n");
    assert_eq!(
        content.cells.unwrap_err(),
        MeditError::MissingCount { section: MeditSection::Vertices }
    );
}

#[test]
fn medit_count_not_integer() {
    let content = parse_medit(b"MeshVersionFormatted 2\nDimension 3\n\nVertices\n1x\n");
    assert_eq!(
        content.cells.unwrap_err(),
        MeditError::CountNotInteger {
            section: MeditSection::Vertices,
            kind: IntErrorKind::InvalidDigit
        }
    );
    let content = parse_medit(b"MeshVersionFormatted 2\nDimension 3\n\nVertices\n\n");
    assert_eq!(
        content.cells.unwrap_err(),
        MeditError::CountNotInteger { section: MeditSection::Vertices, kind: IntErrorKind::Empty }
    );
    let content =
        parse_medit(b"MeshVersionFormatted 2\nDimension 3\n\nVertices\n99999999999999999999999\n");
    assert_eq!(
        content.cells.unwrap_err(),
        MeditError::CountNotInteger {
            section: MeditSection::Vertices,
            kind: IntErrorKind::PosOverflow
        }
    );
}

#[test]
fn medit_count_with_plus_sign() {
    let text = THREE_HEXA.replace("Vertices\n16", "Vertices\n+16");
    let mesh = mesh_from_medit(&text);
    assert_eq!(mesh.points.len(), 16);
}

#[test]
fn medit_wrong_vertex_count() {
    let text = THREE_HEXA.replace("Vertices\n16", "Vertices\n15");
    let content = parse_medit(text.as_bytes());
    assert_eq!(content.vertex_lines.len(), 16);
    assert_eq!(
        content.cells.unwrap_err(),
        MeditError::WrongCount { section: MeditSection::Vertices, declared: 15, actual: 16 }
    );
}

#[test]
fn medit_wrong_hexahedron_count() {
    let text = THREE_HEXA.replace("Hexahedra\n3", "Hexahedra\n4");
    let content = parse_medit(text.as_bytes());
    assert_eq!(
        content.cells.unwrap_err(),
        MeditError::WrongCount { section: MeditSection::Hexahedra, declared: 4, actual: 3 }
    );
}

#[test]
fn medit_invalid_index() {
    let text = THREE_HEXA.replace("2 10 11 3 6 14 15 7 1", "2 10 x 3 6 14 15 7 1");
    let content = parse_medit(text.as_bytes());
    match content.cells.unwrap_err() {
        MeditError::InvalidIndex { line_number, token, kind } => {
            assert_eq!(line_number, 26);
            assert_eq!(&text[token.0..token.1], "x");
            assert_eq!(kind, IntErrorKind::InvalidDigit);
        }
        e => panic!("unexpected error {:?}", e),
    }
}

#[test]
fn medit_zero_index() {
    let text = THREE_HEXA.replace("1 9 10 2 5 13 14 6 1", "1 9 10 2 5 13 14 0 1");
    let content = parse_medit(text.as_bytes());
    match content.cells.unwrap_err() {
        MeditError::ZeroIndex { line_number, token } => {
            assert_eq!(line_number, 25);
            assert_eq!(&text[token.0..token.1], "0");
        }
        e => panic!("unexpected error {:?}", e),
    }
}

#[test]
fn medit_wrong_index_count() {
    let text = THREE_HEXA.replace("1 9 10 2 5 13 14 6 1", "1 9 10 2 5 13 14 1");
    let content = parse_medit(text.as_bytes());
    assert_eq!(content.cells.unwrap_err(), MeditError::WrongIndexCount { line_number: 25 });
    // a ninth index that does not read as an integer is reported before the count
    let text = THREE_HEXA.replace("1 9 10 2 5 13 14 6 1", "1 9 10 2 5 13 14 6 y 1");
    let content = parse_medit(text.as_bytes());
    match content.cells.unwrap_err() {
        MeditError::InvalidIndex { line_number, .. } => assert_eq!(line_number, 25),
        e => panic!("unexpected error {:?}", e),
    }
}

#[test]
fn medit_missing_end() {
    let text = THREE_HEXA.replace("End\n", "");
    let content = parse_medit(text.as_bytes());
    assert_eq!(content.cells.unwrap_err(), MeditError::UnexpectedEndOfFile);
}

#[test]
fn medit_trailing_line() {
    let text = format!("{}\n", THREE_HEXA);
    let content = parse_medit(text.as_bytes());
    assert_eq!(content.cells.unwrap_err(), MeditError::TrailingLine { line_number: 30 });
}

#[test]
fn medit_vertex_arity_left_to_caller() {
    let text = THREE_HEXA.replace("1 0 0.5 1", "1 0 1");
    let content = parse_medit(text.as_bytes());
    assert_eq!(content.vertex_lines[9].tokens.len(), 2);
    let text = THREE_HEXA.replace("1 0 0.5 1", "1 0 0.5 7 8 1");
    let content = parse_medit(text.as_bytes());
    assert_eq!(content.vertex_lines[9].tokens.len(), 4);
}

#[test]
fn medit_last_token_of_a_line_is_not_read() {
    // the same file with other last tokens on element lines (and one of another length)
    let other = THREE_HEXA
        .replace("0 0 0 1\n", "0 0 0 7\n")
        .replace("1 9 10 2 5 13 14 6 1\n", "1 9 10 2 5 13 14 6 xyz\n");
    let a = mesh_from_medit(THREE_HEXA);
    let b = mesh_from_medit(&other);
    assert_eq!(a.points, b.points);
    assert_eq!(a.cells, b.cells);
}
