use obj2brs::polyhedron::{Mesh, VertexDescriptor};

#[test]
fn descriptor_reports_its_length() {
    let d = VertexDescriptor::new(5);
    assert_eq!(d.length(), 5);
}

fn quad_mesh() -> Mesh<i32> {
    // vertex records of width 3, four vertices, one quad face
    let d = VertexDescriptor::new(3);
    let mut m: Mesh<i32> = Mesh::new(&d);
    m.push_vertex(&vec![0, 0, 0]);
    m.push_vertex(&vec![1, 0, 0]);
    m.push_vertex(&vec![1, 1, 0]);
    m.push_vertex(&vec![0, 1, 0]);
    m.push_face(&vec![0, 3, 6, 9]);
    m
}

#[test]
fn vertex_reads_one_record() {
    let m = quad_mesh();
    assert_eq!(m.vertex(0), vec![0, 0, 0]);
    assert_eq!(m.vertex(3), vec![1, 0, 0]);
    assert_eq!(m.vertex(9), vec![0, 1, 0]);
}

#[test]
fn vertex_mut_overwrites_one_record() {
    let mut m = quad_mesh();
    m.vertex_mut(3, &vec![7, 8, 9]);
    assert_eq!(m.vertex(3), vec![7, 8, 9]);
    assert_eq!(m.vertex(0), vec![0, 0, 0]);
    assert_eq!(m.vertex(6), vec![1, 1, 0]);
}

#[test]
fn vertices_lists_all_records() {
    let m = quad_mesh();
    let vs = m.vertices();
    assert_eq!(vs.len(), 4);
    assert_eq!(vs[0], vec![0, 0, 0]);
    assert_eq!(vs[2], vec![1, 1, 0]);
}

#[test]
fn vertices_mut_overwrites_all_records() {
    let mut m = quad_mesh();
    let rows = vec![
        vec![9, 9, 9],
        vec![8, 8, 8],
        vec![7, 7, 7],
        vec![6, 6, 6],
    ];
    m.vertices_mut(&rows);
    assert_eq!(m.vertices(), rows);
}

#[test]
fn face_indices_follow_the_arity_table() {
    let mut m = quad_mesh();
    m.push_face(&vec![0, 3, 6]);
    let fs = m.face_indices();
    assert_eq!(fs.len(), 2);
    assert_eq!(fs[0], vec![0, 3, 6, 9]);
    assert_eq!(fs[1], vec![0, 3, 6]);
}

#[test]
fn faces_carry_their_vertex_records() {
    let m = quad_mesh();
    let faces = m.faces();
    assert_eq!(faces.len(), 1);
    let verts = faces[0].vertices();
    assert_eq!(verts.len(), 4);
    assert_eq!(verts[0], vec![0, 0, 0]);
    assert_eq!(faces[0].vertex(2), &vec![1, 1, 0]);
}

#[test]
fn quads_triangulate_as_a_fan() {
    let m = quad_mesh();
    let tris = m.triangles();
    assert_eq!(tris.len(), 2);
    assert_eq!(tris[0].a, vec![0, 0, 0]);
    assert_eq!(tris[0].b, vec![1, 0, 0]);
    assert_eq!(tris[0].c, vec![1, 1, 0]);
    assert_eq!(tris[1].a, vec![0, 0, 0]);
    assert_eq!(tris[1].b, vec![1, 1, 0]);
    assert_eq!(tris[1].c, vec![0, 1, 0]);
}

#[test]
fn degenerate_faces_yield_no_triangles() {
    let d = VertexDescriptor::new(3);
    let mut m: Mesh<i32> = Mesh::new(&d);
    m.push_vertex(&vec![0, 0, 0]);
    m.push_vertex(&vec![1, 0, 0]);
    m.push_face(&vec![0, 3]);
    assert_eq!(m.triangles().len(), 0);
}

#[test]
fn flat_triangle_runs_cut_into_threes() {
    let d = VertexDescriptor::new(2);
    let mut m: Mesh<i32> = Mesh::new(&d);
    for v in 0..5 {
        m.push_vertex(&vec![v, v]);
    }
    m.push_triangle(0, 2, 4);
    m.push_triangle(4, 6, 8);
    let fs = m.face_indices();
    assert_eq!(fs.len(), 2);
    assert_eq!(fs[0], vec![0, 2, 4]);
    assert_eq!(fs[1], vec![4, 6, 8]);
    let tris = m.triangles();
    assert_eq!(tris.len(), 2);
    assert_eq!(tris[1].a, vec![2, 2]);
    assert_eq!(tris[1].b, vec![3, 3]);
    assert_eq!(tris[1].c, vec![4, 4]);
}
