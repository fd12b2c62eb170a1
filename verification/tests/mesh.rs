use raytracer::mesh::{
    read_line, starts_with_tag, to_lower, Face, Mesh, MeshError, Record, Shading, VertexText,
};

fn vertex(x: &str, y: &str, z: &str) -> VertexText {
    VertexText { x: x.as_bytes().to_vec(), y: y.as_bytes().to_vec(), z: z.as_bytes().to_vec() }
}

fn number(text: &[u8]) -> f32 {
    std::str::from_utf8(text).unwrap().parse().unwrap()
}

const TETRAHEDRON: &str = "# a tetrahedron\n\
v 0.0 0.0 0.0\n\
v 1.0 0.0 0.0\n\
v 0.0 1.0 0.0\n\
\n\
v 0.0 0.0 1.0\n\
f 1 3 2\n\
f 1 2 4\n\
unknown line\n\
f 2 3 4\n\
f 3 1 4\n";

#[test]
fn shading_names_in_any_case() {
    assert_eq!(Shading::from_name(b"flat"), Some(Shading::Flat));
    assert_eq!(Shading::from_name(b"FLAT"), Some(Shading::Flat));
    assert_eq!(Shading::from_name(b"Flat"), Some(Shading::Flat));
    assert_eq!(Shading::from_name(b"smooth"), Some(Shading::Smooth));
    assert_eq!(Shading::from_name(b"SmOoTh"), Some(Shading::Smooth));
    assert_eq!(Shading::from_name(b"flat "), None);
    assert_eq!(Shading::from_name(b"smoot"), None);
    assert_eq!(Shading::from_name(b"phong"), None);
    assert_eq!(Shading::from_name(b""), None);
    assert_eq!(Shading::from_name(b"fl`t"), None);
}

#[test]
fn lower_case_of_letters_only() {
    assert_eq!(to_lower(b'A'), b'a');
    assert_eq!(to_lower(b'Z'), b'z');
    assert_eq!(to_lower(b'a'), b'a');
    assert_eq!(to_lower(b'@'), b'@');
    assert_eq!(to_lower(b'['), b'[');
    assert_eq!(to_lower(b'7'), b'7');
}

#[test]
fn tags_need_a_blank() {
    assert!(starts_with_tag(b"v 1 2 3", b'v'));
    assert!(!starts_with_tag(b"v\t1 2 3", b'v'));
    assert!(!starts_with_tag(b"vn 1 2 3", b'v'));
    assert!(!starts_with_tag(b" v 1 2 3", b'v'));
    assert!(!starts_with_tag(b"v", b'v'));
    assert!(starts_with_tag(b"f ", b'f'));
}

#[test]
fn reads_a_mesh() {
    let mesh = Mesh::read(TETRAHEDRON.as_bytes(), Shading::Flat).unwrap();
    assert_eq!(mesh.shading, Shading::Flat);
    assert_eq!(
        mesh.vertices,
        vec![
            vertex("0.0", "0.0", "0.0"),
            vertex("1.0", "0.0", "0.0"),
            vertex("0.0", "1.0", "0.0"),
            vertex("0.0", "0.0", "1.0"),
        ]
    );
    assert_eq!(
        mesh.faces,
        vec![
            Face { ai: 0, bi: 2, ci: 1 },
            Face { ai: 0, bi: 1, ci: 3 },
            Face { ai: 1, bi: 2, ci: 3 },
            Face { ai: 2, bi: 0, ci: 3 },
        ]
    );
    assert_eq!(number(&mesh.vertices[1].x), 1.0);
}

#[test]
fn faces_may_come_before_their_vertices() {
    let mesh = Mesh::read(b"f 1 2 3\nv 0 0 0\nv 1 0 0\nv 0 1 0", Shading::Smooth).unwrap();
    assert_eq!(mesh.faces, vec![Face { ai: 0, bi: 1, ci: 2 }]);
    assert_eq!(mesh.vertices.len(), 3);
    assert_eq!(mesh.shading, Shading::Smooth);
}

#[test]
fn empty_file_is_an_empty_mesh() {
    let mesh = Mesh::read(b"", Shading::Flat).unwrap();
    assert!(mesh.vertices.is_empty());
    assert!(mesh.faces.is_empty());
}

#[test]
fn extra_coordinates_are_passed_over() {
    let mesh = Mesh::read(b"v 1 2 3 4 5\n", Shading::Flat).unwrap();
    assert_eq!(mesh.vertices, vec![vertex("1", "2", "3")]);
}

#[test]
fn short_vertex_is_refused() {
    assert_eq!(
        Mesh::read(b"v 0 0 0\nv 1 2\nf 1 1 1\n", Shading::Flat),
        Err(MeshError::BadVertex { line: 2 })
    );
    assert_eq!(Mesh::read(b"v \n", Shading::Flat), Err(MeshError::BadVertex { line: 1 }));
}

#[test]
fn vertex_with_a_coordinate_that_is_no_number_is_refused() {
    for bad in ["v 1 abc 3", "v x 2 3", "v 1 2 3,0", "v nan 0 0", "v 1 2 inf", "v 1e 2 3"] {
        let text = format!("v 0 0 0\n{}\n", bad);
        assert_eq!(
            Mesh::read(text.as_bytes(), Shading::Flat),
            Err(MeshError::BadVertex { line: 2 }),
            "{:?}",
            bad
        );
    }
    let mesh = Mesh::read(b"v -1.5e0 +2. .25 junk\n", Shading::Flat).unwrap();
    assert_eq!(mesh.vertices, vec![vertex("-1.5e0", "+2.", ".25")]);
    assert_eq!(number(&mesh.vertices[0].x), -1.5);
    assert_eq!(number(&mesh.vertices[0].y), 2.0);
    assert_eq!(number(&mesh.vertices[0].z), 0.25);
}

#[test]
fn face_that_is_no_triangle_is_refused() {
    let head = "v 0 0 0\nv 1 0 0\nv 0 1 0\nv 1 1 0\n";
    for bad in ["f 1 2", "f 1 2 3 4", "f 1 2 x", "f 1 -2 3", "f 1.0 2 3", "f"] {
        let text = format!("{}{}\n", head, bad);
        let want = if bad == "f" { Ok(()) } else { Err(MeshError::BadFace { line: 5 }) };
        assert_eq!(Mesh::read(text.as_bytes(), Shading::Flat).map(|_| ()), want, "{:?}", bad);
    }
}

#[test]
fn face_outside_the_vertex_list_is_refused() {
    let head = "v 0 0 0\nv 1 0 0\nv 0 1 0\n";
    for bad in ["f 0 1 2", "f 1 2 4", "f 4 1 2", "f 1 99999999999999999999999999 2"] {
        let text = format!("{}{}\n", head, bad);
        assert_eq!(
            Mesh::read(text.as_bytes(), Shading::Flat),
            Err(MeshError::IndexOutOfRange { line: 4 }),
            "{:?}",
            bad
        );
    }
}

#[test]
fn the_first_bad_line_is_reported() {
    assert_eq!(
        Mesh::read(b"v 0 0 0\nf 1 1 3\nv 1\nf 1 2\n", Shading::Flat),
        Err(MeshError::IndexOutOfRange { line: 2 })
    );
    assert_eq!(
        Mesh::read(b"v 0 0 0\nf 1 1 2\nv 1\nf 1 2\n", Shading::Flat),
        Err(MeshError::BadVertex { line: 3 })
    );
    assert_eq!(
        Mesh::read(b"f 1 2\nv 1\n", Shading::Flat),
        Err(MeshError::BadFace { line: 1 })
    );
}

#[test]
fn lines_one_by_one() {
    assert_eq!(read_line(b"v 1 2 3", 0), Record::Vertex(vertex("1", "2", "3")));
    assert_eq!(read_line(b"v 1 2", 0), Record::BadVertex);
    assert_eq!(read_line(b"v 1 2 z", 0), Record::BadVertex);
    assert_eq!(read_line(b"f 1 2 3", 3), Record::Face(Face { ai: 0, bi: 1, ci: 2 }));
    assert_eq!(read_line(b"f +1 02 3", 3), Record::Face(Face { ai: 0, bi: 1, ci: 2 }));
    assert_eq!(read_line(b"f 1 2 3", 2), Record::IndexOutOfRange);
    assert_eq!(read_line(b"f 1 2", 3), Record::BadFace);
    assert_eq!(read_line(b"# comment", 3), Record::Other);
    assert_eq!(read_line(b"", 3), Record::Other);
    assert_eq!(read_line(b"vt 1 2", 3), Record::Other);
}

#[test]
fn incidence_lists_the_faces_at_each_vertex() {
    let mesh = Mesh::read(TETRAHEDRON.as_bytes(), Shading::Smooth).unwrap();
    assert_eq!(
        mesh.incidence(),
        vec![vec![0, 1, 3], vec![0, 1, 2], vec![0, 2, 3], vec![1, 2, 3]]
    );
}

#[test]
fn incidence_counts_a_corner_each_time() {
    let mesh = Mesh::read(b"v 0 0 0\nv 1 0 0\nv 2 0 0\nf 1 1 2\nf 2 2 2\n", Shading::Flat).unwrap();
    assert_eq!(mesh.incidence(), vec![vec![0, 0], vec![0, 1, 1, 1], vec![]]);
}

fn barycentric(a: [f32; 3], b: [f32; 3], c: [f32; 3], o: [f32; 3], d: [f32; 3]) -> [f32; 4] {
    let sub = |p: [f32; 3], q: [f32; 3]| [p[0] - q[0], p[1] - q[1], p[2] - q[2]];
    let cross = |p: [f32; 3], q: [f32; 3]| {
        [p[1] * q[2] - p[2] * q[1], p[2] * q[0] - p[0] * q[2], p[0] * q[1] - p[1] * q[0]]
    };
    let dot = |p: [f32; 3], q: [f32; 3]| p[0] * q[0] + p[1] * q[1] + p[2] * q[2];
    let (ab, ac, ar) = (sub(a, b), sub(a, c), sub(a, o));
    let det_a = dot(cross(ab, ac), d);
    let beta = dot(cross(ar, ac), d) / det_a;
    let gamma = dot(cross(ab, ar), d) / det_a;
    let t = dot(cross(ab, ac), ar) / det_a;
    [beta, gamma, beta + gamma, t]
}

fn hit(v: [f32; 4]) -> bool {
    Face::intersect(v[0].to_bits(), v[1].to_bits(), v[2].to_bits(), v[3].to_bits())
}

#[test]
fn triangle_is_hit_in_the_middle_and_missed_at_the_corners_of_the_image() {
    let (a, b, c) = ([-1.0, -1.0, 0.0], [1.0, -1.0, 0.0], [0.0, 1.0, 0.0]);
    let eye = [0.0, 0.0, 3.0];
    let middle = barycentric(a, b, c, eye, [0.0, 0.0, -1.0]);
    assert!(hit(middle));
    assert_eq!(middle[3], 3.0);
    let norm = |d: [f32; 3]| {
        let m = (d[0] * d[0] + d[1] * d[1] + d[2] * d[2]).sqrt();
        [d[0] / m, d[1] / m, d[2] / m]
    };
    for corner in [[-1.0, 1.0, -1.0], [1.0, 1.0, -1.0], [-1.0, -1.0, -1.0], [1.0, -1.0, -1.0]] {
        assert!(!hit(barycentric(a, b, c, eye, norm(corner))));
    }
    assert!(!hit(barycentric(a, b, c, eye, [0.0, 0.0, 1.0])));
}

#[test]
fn face_rule_at_its_borders() {
    assert!(hit([0.0, 0.0, 0.0, 0.0]));
    assert!(hit([-0.0, -0.0, 0.0, -0.0]));
    assert!(hit([0.5, 0.5, 1.0, 2.0]));
    assert!(hit([1.0, 0.0, 1.0, 2.0]));
    assert!(!hit([0.5, 0.5, 1.0000001, 2.0]));
    assert!(!hit([-1.0e-9, 0.5, 0.5, 2.0]));
    assert!(!hit([0.5, -1.0e-9, 0.5, 2.0]));
    assert!(!hit([0.2, 0.2, 0.4, -1.0e-9]));
    assert!(!hit([f32::NAN, 0.2, 0.4, 1.0]));
    assert!(!hit([0.2, 0.2, f32::NAN, 1.0]));
    assert!(!hit([0.2, 0.2, 0.4, f32::NAN]));
}

#[test]
fn stray_face_is_the_first_outside_the_vertex_list() {
    let mut mesh = Mesh::read(TETRAHEDRON.as_bytes(), Shading::Flat).unwrap();
    assert_eq!(mesh.stray_face(), None);
    mesh.faces.push(Face { ai: 0, bi: 4, ci: 1 });
    mesh.faces.push(Face { ai: 9, bi: 9, ci: 9 });
    assert_eq!(mesh.stray_face(), Some(4));
    mesh.faces[1].ci = 4;
    assert_eq!(mesh.stray_face(), Some(1));
    mesh.vertices.clear();
    assert_eq!(mesh.stray_face(), Some(0));
    mesh.faces.clear();
    assert_eq!(mesh.stray_face(), None);
}
