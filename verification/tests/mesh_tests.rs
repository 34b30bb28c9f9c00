use hexmesh::edgeset::EdgeSet;
use hexmesh::hexmesh::{cell_adjacency, HexMesh, Hexahedron};
use hexmesh::obj::write_obj_elements;
use hexmesh::trianglemesh::{SanityError, TriangleMesh};
use hexmesh::wireframe::WireframeMesh;

fn three_hexa() -> HexMesh<[f32; 3], f32> {
    let mut mesh: HexMesh<[f32; 3], f32> = HexMesh::new();
    mesh.points = vec![
        [0.0, 0.0, 0.0],
        [1.0, 0.0, 0.0],
        [2.0, 0.0, 0.0],
        [3.0, 0.0, 0.0],
        [0.0, 1.0, 0.0],
        [1.0, 1.0, 0.0],
        [2.0, 1.0, 0.0],
        [3.0, 1.0, 0.0],
        [0.0, 0.0, 1.5],
        [1.0, 0.0, 0.5],
        [2.0, 0.0, 1.0],
        [3.0, 0.0, 1.0],
        [0.0, 1.0, 0.1],
        [1.0, 1.0, 1.0],
        [2.0, 1.0, 1.0],
        [3.0, 1.0, 1.0],
    ];
    mesh.cells = vec![
        Hexahedron::new([0, 8, 9, 1, 4, 12, 13, 5]),
        Hexahedron::new([1, 9, 10, 2, 5, 13, 14, 6]),
        Hexahedron::new([2, 10, 11, 3, 6, 14, 15, 7]),
    ];
    mesh
}

#[test]
fn hexahedron_new_keeps_vertices() {
    let h = Hexahedron::new([7, 6, 5, 4, 3, 2, 1, 0]);
    assert_eq!(h.vertices, [7, 6, 5, 4, 3, 2, 1, 0]);
}

#[test]
fn facet_splitting_lists_each_facet_index() {
    for f in 0..6 {
        assert_eq!(Hexahedron::FACET_SPLITTING[f][0], f);
    }
    for c in 0..8 {
        assert_eq!(Hexahedron::CORNER_SPLITING[c][0], c);
    }
}

#[test]
fn adjacency_of_three_cells() {
    let mut mesh = three_hexa();
    mesh.compute_cell_adjacency();
    assert_eq!(mesh.cell_adjacency.len(), 3);
    assert_eq!(mesh.cell_adjacency[0], [None, Some((1, 3)), None, None, None, None]);
    assert_eq!(mesh.cell_adjacency[1], [None, Some((2, 3)), None, Some((0, 1)), None, None]);
    assert_eq!(mesh.cell_adjacency[2], [None, None, None, Some((1, 1)), None, None]);
}

#[test]
fn adjacency_is_symmetric_on_three_cells() {
    let cells = three_hexa().cells;
    let adjacency = cell_adjacency(&cells).unwrap();
    for c in 0..cells.len() {
        for f in 0..6 {
            if let Some((d, g)) = adjacency[c][f] {
                assert_eq!(adjacency[d][g], Some((c, f)));
            }
        }
    }
}

#[test]
fn adjacency_refused_when_a_quad_has_three_facets() {
    let h = Hexahedron::new([0, 1, 2, 3, 4, 5, 6, 7]);
    assert!(cell_adjacency(&vec![h, h, h]).is_none());
    assert!(cell_adjacency(&vec![h, h]).is_some());
}

#[test]
fn adjacency_of_two_identical_cells() {
    let h = Hexahedron::new([0, 1, 2, 3, 4, 5, 6, 7]);
    let adjacency = cell_adjacency(&vec![h, h]).unwrap();
    for f in 0..6 {
        assert_eq!(adjacency[0][f], Some((1, f)));
        assert_eq!(adjacency[1][f], Some((0, f)));
    }
}

#[test]
fn adjacency_of_degenerate_cell_pairs_the_later_facet_with_itself() {
    // facets 0 and 2 of this cell lie on the same 4 vertices
    let h = Hexahedron::new([0, 1, 2, 3, 0, 1, 2, 3]);
    let adjacency = cell_adjacency(&vec![h]).unwrap();
    assert_eq!(adjacency[0][0], Some((0, 2)));
    assert_eq!(adjacency[0][2], Some((0, 2)));
}

#[test]
fn triangulate_three_cells() {
    let mut mesh = three_hexa();
    mesh.scaled_jacobians = Some(vec![0.25f32, 0.5, 1.0]);
    let (trianglemesh, per_triangle): (TriangleMesh<[f32; 3], [f32; 2]>, Vec<f32>) =
        mesh.triangulate_surface();
    // 18 facets, 4 of them shared between two cells: 14 surface quads
    assert_eq!(per_triangle.len(), 28);
    assert_eq!(trianglemesh.indices.len(), 3 * per_triangle.len());
    assert_eq!(trianglemesh.positions, mesh.points);
    assert!(trianglemesh.uv.is_empty());
    // first surface facet: facet 0 of cell 0, corners 0 1 2 3 = vertices 0 8 9 1
    assert_eq!(&trianglemesh.indices[0..6], &[0, 9, 8, 0, 1, 9]);
    assert_eq!(&per_triangle[0..2], &[0.25, 0.25]);
    assert_eq!(per_triangle[27], 1.0);
    // the 28 edges of the 4 x 2 x 2 grid are all on the surface
    assert_eq!(trianglemesh.edges.len(), 28);
    for i in 0..trianglemesh.edges.len() {
        let (a, b) = trianglemesh.edges.get(i);
        assert!(a < b);
    }
    assert_eq!(trianglemesh.sanity_check(), Ok(()));
    assert_eq!(mesh.cell_adjacency.len(), 3);
}

#[test]
fn triangulate_keeps_a_given_adjacency() {
    let mut mesh = three_hexa();
    mesh.scaled_jacobians = Some(vec![0.0f32, 0.0, 0.0]);
    mesh.cell_adjacency = vec![[None, None, None, None, None, None]; 3];
    let (trianglemesh, per_triangle): (TriangleMesh<[f32; 3], [f32; 2]>, Vec<f32>) =
        mesh.triangulate_surface();
    assert_eq!(per_triangle.len(), 36);
    assert_eq!(trianglemesh.indices.len(), 108);
}

fn two_triangles() -> TriangleMesh<[f32; 3], [f32; 2]> {
    let mut t: TriangleMesh<[f32; 3], [f32; 2]> = TriangleMesh::new();
    t.positions = vec![
        [0.0, 0.0, 0.0],
        [9.0, 9.0, 9.0],
        [1.0, 0.0, 0.0],
        [0.0, 1.0, 0.0],
        [1.0, 1.0, 0.0],
    ];
    t.indices = vec![4, 2, 3, 3, 2, 0];
    t.edges.insert((0, 2));
    t.edges.insert((2, 4));
    t
}

#[test]
fn remove_isolated_vertices_renumbers_in_order_of_use() {
    let mut t = two_triangles();
    t.remove_isolated_vertices([1.0, 1.0]);
    // vertex 1 is used by nothing: it goes; 4 2 3 0 become 0 1 2 3
    assert_eq!(t.positions, vec![[1.0, 1.0, 0.0], [1.0, 0.0, 0.0], [0.0, 1.0, 0.0], [0.0, 0.0, 0.0]]);
    assert_eq!(t.indices, vec![0, 1, 2, 2, 1, 3]);
    assert_eq!(t.uv, vec![[1.0, 1.0]; 4]);
    assert_eq!(t.edges.len(), 2);
    assert!(t.edges.contains((3, 1)));
    assert!(t.edges.contains((1, 0)));
    assert_eq!(t.sanity_check(), Ok(()));
}

#[test]
fn remove_isolated_vertices_keeps_edge_only_vertices() {
    let mut t = two_triangles();
    t.edges.insert((1, 0));
    t.remove_isolated_vertices([0.5, 0.5]);
    // vertex 1 is only used by an edge: it is kept, after the triangle vertices
    assert_eq!(t.positions.len(), 5);
    assert_eq!(t.positions[4], [9.0, 9.0, 9.0]);
    assert_eq!(t.indices, vec![0, 1, 2, 2, 1, 3]);
    // and it is referred to by its place among the kept vertices
    assert!(t.edges.contains((4, 3)));
    assert_eq!(t.sanity_check(), Ok(()));
}

#[test]
fn remove_isolated_vertices_edge_only_vertex_stays_in_range() {
    let mut t: TriangleMesh<[f32; 3], [f32; 2]> = TriangleMesh::new();
    t.positions = vec![[0.0, 0.0, 0.0], [1.0, 0.0, 0.0], [0.0, 1.0, 0.0], [5.0, 5.0, 5.0]];
    t.indices = vec![0, 1, 2];
    t.edges.insert((3, 0));
    t.remove_isolated_vertices([1.0, 1.0]);
    assert_eq!(t.positions.len(), 4);
    assert_eq!(t.positions[3], [5.0, 5.0, 5.0]);
    assert_eq!(t.edges.len(), 1);
    assert!(t.edges.contains((3, 0)));
    assert_eq!(t.sanity_check(), Ok(()));
}

#[test]
fn duplicate_vertices_gives_each_corner_its_own_vertex() {
    let mut t = two_triangles();
    t.duplicate_vertices(&vec![[0.75, 0.0], [0.5, 0.0]]);
    assert_eq!(t.indices, vec![0, 1, 2, 3, 4, 5]);
    assert_eq!(
        t.positions,
        vec![
            [1.0, 1.0, 0.0],
            [1.0, 0.0, 0.0],
            [0.0, 1.0, 0.0],
            [0.0, 1.0, 0.0],
            [1.0, 0.0, 0.0],
            [0.0, 0.0, 0.0]
        ]
    );
    assert_eq!(t.uv, vec![[0.75, 0.0], [0.75, 0.0], [0.75, 0.0], [0.5, 0.0], [0.5, 0.0], [0.5, 0.0]]);
    // an edge end goes to the copy made for the last corner at that vertex
    assert_eq!(t.edges.len(), 2);
    assert!(t.edges.contains((5, 4)));
    assert!(t.edges.contains((4, 0)));
}

#[test]
fn sanity_check_errors() {
    let mut t = two_triangles();
    t.indices.push(0);
    assert_eq!(t.sanity_check(), Err(SanityError::IndicesNotTriangles));

    let mut t = two_triangles();
    t.indices[4] = 5;
    assert_eq!(
        t.sanity_check(),
        Err(SanityError::VertexOutOfRange {
            triangle_index: 1,
            nb_triangles: 2,
            local_vertex_index: 1,
            vertex_index: 5,
            nb_vertices: 5
        })
    );

    let mut t = two_triangles();
    t.edges.insert((0, 7));
    assert_eq!(t.sanity_check(), Err(SanityError::EdgeOutOfRange));
}

#[test]
fn wireframe_from_edges() {
    let t = two_triangles();
    let (positions, indices) = t.create_wireframe_mesh();
    assert_eq!(positions, t.positions);
    assert_eq!(indices, vec![0, 2, 2, 4]);
    let mut w: WireframeMesh<[f32; 3]> = WireframeMesh::new();
    assert!(w.vertices.is_empty() && w.edges.is_empty());
    w.vertices = positions;
    w.edges = indices;
    assert_eq!(w.edges.len() % 2, 0);
}

#[test]
fn edge_set_keeps_each_edge_once_in_insertion_order() {
    let mut s = EdgeSet::new();
    s.insert((3, 4));
    s.insert((1, 2));
    s.insert((3, 4));
    s.insert((4, 3));
    assert_eq!(s.len(), 3);
    assert_eq!(s.get(0), (3, 4));
    assert_eq!(s.get(1), (1, 2));
    assert_eq!(s.get(2), (4, 3));
    assert!(s.contains((1, 2)));
    assert!(!s.contains((2, 1)));
    s.insert((u32::MAX, 0));
    assert!(s.contains((u32::MAX, 0)));
    assert!(!s.contains((0, u32::MAX)));
}

#[test]
fn obj_text_one_based() {
    let t = two_triangles();
    let text = write_obj_elements(&t.indices, &t.edges, 1);
    assert_eq!(
        String::from_utf8(text).unwrap(),
        "usemtl Material_0\nf 5 3 4\nf 4 3 1\nl 1 3\nl 3 5\n"
    );
}

#[test]
fn obj_text_raw_indices() {
    let mut t = two_triangles();
    t.indices[0] = 1234567890;
    let text = write_obj_elements(&t.indices, &t.edges, 0);
    assert_eq!(
        String::from_utf8(text).unwrap(),
        "usemtl Material_0\nf 1234567890 2 3\nf 3 2 0\nl 0 2\nl 2 4\n"
    );
}

#[test]
fn corner_vertices_follow_corner_spliting() {
    let h = Hexahedron::new([10, 11, 12, 13, 14, 15, 16, 17]);
    assert_eq!(h.corner_vertices(0), [10, 13, 14, 11]);
    assert_eq!(h.corner_vertices(6), [16, 12, 15, 17]);
}

fn edge_list(edges: &EdgeSet) -> Vec<(u32, u32)> {
    let mut list: Vec<(u32, u32)> = (0..edges.len()).map(|i| edges.get(i)).collect();
    list.sort();
    list
}

#[test]
fn triangulate_twice_gives_the_same_surface() {
    let mut mesh = three_hexa();
    mesh.scaled_jacobians = Some(vec![0.25f32, 0.5, 1.0]);
    let (first, q1): (TriangleMesh<[f32; 3], [f32; 2]>, Vec<f32>) = mesh.triangulate_surface();
    let (second, q2): (TriangleMesh<[f32; 3], [f32; 2]>, Vec<f32>) = mesh.triangulate_surface();
    assert_eq!(first.positions, second.positions);
    assert_eq!(first.indices, second.indices);
    assert_eq!(edge_list(&first.edges), edge_list(&second.edges));
    assert_eq!(q1, q2);
}

#[test]
fn remove_isolated_vertices_twice_changes_nothing_more() {
    let mut mesh = three_hexa();
    mesh.points.push([7.0, 7.0, 7.0]);
    mesh.scaled_jacobians = Some(vec![0.25f32, 0.5, 1.0]);
    let (mut t, _q): (TriangleMesh<[f32; 3], [f32; 2]>, Vec<f32>) = mesh.triangulate_surface();
    t.remove_isolated_vertices([1.0, 1.0]);
    // the extra point is used by nothing
    assert_eq!(t.positions.len(), 16);
    let positions = t.positions.clone();
    let indices = t.indices.clone();
    let edges = edge_list(&t.edges);
    t.remove_isolated_vertices([1.0, 1.0]);
    assert_eq!(t.positions, positions);
    assert_eq!(t.indices, indices);
    assert_eq!(edge_list(&t.edges), edges);
    assert_eq!(t.sanity_check(), Ok(()));
}
