//! Triangle meshes: shading modes, faces and the text format they are read
//! from.
//!
//! A mesh file is read line by line. A line that begins with `v` and a blank
//! declares a vertex by three coordinates; a line that begins with `f` and a
//! blank declares a triangle by the numbers of three vertices, counted from
//! one in the order of declaration. Every other line is passed over.
//! Coordinates are checked to be decimal numbers and kept as they are
//! written: turning them into numbers is left to the caller.
use crate::scalar::is_less_or_equal;
use crate::scalar::less_or_equal;
use crate::scalar::ONE;
use crate::scalar::ZERO;
use crate::text::check_decimal;
use crate::text::check_numeral;
use crate::text::copy_range;
use crate::text::is_decimal;
use crate::text::is_numeral;
use crate::text::lines;
use crate::text::numeral_value;
use crate::text::parse_numeral;
use crate::text::split_lines;
use crate::text::split_words;
use crate::text::views;
use crate::text::words;
use vstd::prelude::*;

verus! {

/// How the surface normal at a hit on a triangle is chosen.
#[derive(Clone, Copy, Debug, PartialEq, Eq, Structural)]
pub enum Shading {
    /// The normal is blended from the normals at the three corners.
    Smooth,
    /// The normal of the triangle's plane is used everywhere on it.
    Flat,
}

/// The lower-case form of an ASCII letter; any other byte as it is.
pub open spec fn lowered(b: u8) -> u8 {
    if 0x41 <= b && b <= 0x5a {
        (b + 0x20) as u8
    } else {
        b
    }
}

/// Whether `name` is the lower-case word `word` in any mix of cases.
pub open spec fn spells(name: Seq<u8>, word: Seq<u8>) -> bool {
    name.len() == word.len() && forall|i: int|
        0 <= i < name.len() ==> lowered(#[trigger] name[i]) == word[i]
}

/// The word `flat`.
pub open spec fn word_flat() -> Seq<u8> {
    seq![0x66u8, 0x6c, 0x61, 0x74]
}

/// The word `smooth`.
pub open spec fn word_smooth() -> Seq<u8> {
    seq![0x73u8, 0x6d, 0x6f, 0x6f, 0x74, 0x68]
}

/// The lower-case form of an ASCII letter; any other byte as it is.
pub fn to_lower(b: u8) -> (r: u8)
    ensures
        r == lowered(b),
{
    if 0x41 <= b && b <= 0x5a {
        b + 0x20
    } else {
        b
    }
}

impl Shading {
    /// The shading mode that a name stands for: `flat` or `smooth`, in any
    /// mix of upper and lower case.
    pub fn from_name(name: &[u8]) -> (r: Option<Shading>)
        ensures
            r == if spells(name@, word_flat()) {
                Some(Shading::Flat)
            } else if spells(name@, word_smooth()) {
                Some(Shading::Smooth)
            } else {
                None
            },
    {
        if name.len() == 4 {
            if to_lower(name[0]) == 0x66 && to_lower(name[1]) == 0x6c && to_lower(name[2]) == 0x61
                && to_lower(name[3]) == 0x74 {
                Some(Shading::Flat)
            } else {
                None
            }
        } else if name.len() == 6 {
            if to_lower(name[0]) == 0x73 && to_lower(name[1]) == 0x6d && to_lower(name[2]) == 0x6f
                && to_lower(name[3]) == 0x6f && to_lower(name[4]) == 0x74 && to_lower(name[5])
                == 0x68 {
                Some(Shading::Smooth)
            } else {
                None
            }
        } else {
            None
        }
    }
}

/// A triangle, by the positions of its corners in the vertex list (counted
/// from zero).
#[derive(Clone, Copy, Debug, PartialEq, Eq, Structural)]
pub struct Face {
    pub ai: usize,
    pub bi: usize,
    pub ci: usize,
}

/// The three coordinates of a vertex as the file writes them.
#[derive(Clone, Debug, PartialEq, Eq)]
pub struct VertexText {
    pub x: Vec<u8>,
    pub y: Vec<u8>,
    pub z: Vec<u8>,
}

/// A mesh as read from a file: vertices, and triangles over them.
#[derive(Clone, Debug, PartialEq, Eq)]
pub struct Mesh {
    pub faces: Vec<Face>,
    pub vertices: Vec<VertexText>,
    pub shading: Shading,
}

/// Why a mesh file was refused, with the number of the offending line
/// (counted from one).
#[derive(Clone, Copy, Debug, PartialEq, Eq, Structural)]
pub enum MeshError {
    /// A vertex line with fewer than three coordinates, or with one among
    /// the first three that is no decimal number.
    BadVertex { line: usize },
    /// A face line that is not exactly three unsigned numerals.
    BadFace { line: usize },
    /// A face that names vertex zero or a vertex that the file does not
    /// declare.
    IndexOutOfRange { line: usize },
}

/// What one line of a mesh file says.
pub enum LineMeaning {
    /// Neither a vertex nor a face: passed over.
    Other,
    /// A vertex with these coordinates.
    Vertex(Seq<u8>, Seq<u8>, Seq<u8>),
    /// A triangle over the vertices at these positions, counted from zero.
    Face(nat, nat, nat),
    /// A vertex line with fewer than three coordinates, or with one among
    /// the first three that is no decimal number.
    BadVertex,
    /// A face line that is not exactly three unsigned numerals.
    BadFace,
    /// A face line with a vertex number outside `1 ..= vertices`.
    IndexOutOfRange,
}

/// Whether the line begins with the byte `tag` and a blank.
pub open spec fn has_tag(line: Seq<u8>, tag: u8) -> bool {
    line.len() >= 2 && line[0] == tag && line[1] == 0x20
}

/// Whether the line declares a vertex.
pub open spec fn is_vertex_line(line: Seq<u8>) -> bool {
    has_tag(line, 0x76)
}

/// Whether the line declares a face.
pub open spec fn is_face_line(line: Seq<u8>) -> bool {
    has_tag(line, 0x66)
}

/// The meaning of one line in a file that declares `vertices` vertices.
pub open spec fn meaning(line: Seq<u8>, vertices: nat) -> LineMeaning {
    let w = words(line);
    if is_vertex_line(line) {
        if w.len() >= 4 && is_decimal(w[1]) && is_decimal(w[2]) && is_decimal(w[3]) {
            LineMeaning::Vertex(w[1], w[2], w[3])
        } else {
            LineMeaning::BadVertex
        }
    } else if is_face_line(line) {
        if w.len() == 4 && is_numeral(w[1]) && is_numeral(w[2]) && is_numeral(w[3]) {
            let a = numeral_value(w[1]);
            let b = numeral_value(w[2]);
            let c = numeral_value(w[3]);
            if 1 <= a <= vertices && 1 <= b <= vertices && 1 <= c <= vertices {
                LineMeaning::Face((a - 1) as nat, (b - 1) as nat, (c - 1) as nat)
            } else {
                LineMeaning::IndexOutOfRange
            }
        } else {
            LineMeaning::BadFace
        }
    } else {
        LineMeaning::Other
    }
}

/// Whether a line is ill-formed.
pub open spec fn is_bad(m: LineMeaning) -> bool {
    m is BadVertex || m is BadFace || m is IndexOutOfRange
}

/// The number of vertex lines among `ls`.
pub open spec fn vertex_count(ls: Seq<Seq<u8>>) -> nat
    decreases ls.len(),
{
    if ls.len() == 0 {
        0
    } else {
        vertex_count(ls.drop_last()) + if is_vertex_line(ls.last()) {
            1nat
        } else {
            0nat
        }
    }
}

/// The vertices that the lines `ls` declare, in order.
pub open spec fn vertices_of(ls: Seq<Seq<u8>>) -> Seq<(Seq<u8>, Seq<u8>, Seq<u8>)>
    decreases ls.len(),
{
    if ls.len() == 0 {
        Seq::empty()
    } else {
        match meaning(ls.last(), 0) {
            LineMeaning::Vertex(x, y, z) => vertices_of(ls.drop_last()).push((x, y, z)),
            _ => vertices_of(ls.drop_last()),
        }
    }
}

/// The faces that the lines `ls` declare, in order, in a file of `vertices`
/// vertices.
pub open spec fn faces_of(ls: Seq<Seq<u8>>, vertices: nat) -> Seq<(nat, nat, nat)>
    decreases ls.len(),
{
    if ls.len() == 0 {
        Seq::empty()
    } else {
        match meaning(ls.last(), vertices) {
            LineMeaning::Face(a, b, c) => faces_of(ls.drop_last(), vertices).push((a, b, c)),
            _ => faces_of(ls.drop_last(), vertices),
        }
    }
}

/// The position of the first ill-formed line at or after `from`, or the
/// number of lines if there is none.
pub open spec fn first_bad(ls: Seq<Seq<u8>>, vertices: nat, from: int) -> int
    decreases ls.len() - from,
{
    if from < 0 || from >= ls.len() {
        ls.len() as int
    } else if is_bad(meaning(ls[from], vertices)) {
        from
    } else {
        first_bad(ls, vertices, from + 1)
    }
}

/// The error that an ill-formed line at position `at` (counted from zero)
/// gives rise to.
pub open spec fn error_of(m: LineMeaning, at: int) -> MeshError {
    match m {
        LineMeaning::BadVertex => MeshError::BadVertex { line: (at + 1) as usize },
        LineMeaning::BadFace => MeshError::BadFace { line: (at + 1) as usize },
        _ => MeshError::IndexOutOfRange { line: (at + 1) as usize },
    }
}

/// The coordinates of each vertex of a list.
pub open spec fn vertex_views(vs: Seq<VertexText>) -> Seq<(Seq<u8>, Seq<u8>, Seq<u8>)> {
    Seq::new(vs.len(), |i: int| (vs[i].x@, vs[i].y@, vs[i].z@))
}

/// The corner positions of each face of a list.
pub open spec fn face_views(fs: Seq<Face>) -> Seq<(nat, nat, nat)> {
    Seq::new(fs.len(), |i: int| (fs[i].ai as nat, fs[i].bi as nat, fs[i].ci as nat))
}

/// What one line of a mesh file was read as.
#[derive(Clone, Debug, PartialEq, Eq)]
pub enum Record {
    Other,
    Vertex(VertexText),
    Face(Face),
    BadVertex,
    BadFace,
    IndexOutOfRange,
}

impl Record {
    /// The meaning that this record stands for.
    pub open spec fn view(self) -> LineMeaning {
        match self {
            Record::Other => LineMeaning::Other,
            Record::Vertex(v) => LineMeaning::Vertex(v.x@, v.y@, v.z@),
            Record::Face(f) => LineMeaning::Face(f.ai as nat, f.bi as nat, f.ci as nat),
            Record::BadVertex => LineMeaning::BadVertex,
            Record::BadFace => LineMeaning::BadFace,
            Record::IndexOutOfRange => LineMeaning::IndexOutOfRange,
        }
    }
}

/// Whether the line begins with the byte `tag` and a blank.
pub fn starts_with_tag(line: &[u8], tag: u8) -> (r: bool)
    ensures
        r == has_tag(line@, tag),
{
    line.len() >= 2 && line[0] == tag && line[1] == 0x20
}

/// Reads a vertex number of a face: `Some` of the vertex's position, counted
/// from zero, if the word is a numeral within `1 ..= vertices`.
fn read_corner(word: &[u8], vertices: usize) -> (r: Option<usize>)
    requires
        is_numeral(word@),
    ensures
        r == if 1 <= numeral_value(word@) <= vertices {
            Some((numeral_value(word@) - 1) as usize)
        } else {
            None
        },
{
    match parse_numeral(word) {
        Some(v) => if 1 <= v && v <= vertices {
            Some(v - 1)
        } else {
            None
        },
        None => None,
    }
}

/// Reads one line of a mesh file that declares `vertices` vertices.
pub fn read_line(line: &[u8], vertices: usize) -> (r: Record)
    ensures
        r.view() == meaning(line@, vertices as nat),
{
    if starts_with_tag(line, 0x76) {
        let w = split_words(line);
        assert(views(w@).len() == w@.len());
        if w.len() < 4 {
            return Record::BadVertex;
        }
        assert(views(w@)[1] == w@[1]@ && views(w@)[2] == w@[2]@ && views(w@)[3] == w@[3]@);
        if check_decimal(w[1].as_slice()) && check_decimal(w[2].as_slice()) && check_decimal(
            w[3].as_slice(),
        ) {
            let x = copy_range(w[1].as_slice(), 0, w[1].len());
            let y = copy_range(w[2].as_slice(), 0, w[2].len());
            let z = copy_range(w[3].as_slice(), 0, w[3].len());
            assert(x@ == w@[1]@ && y@ == w@[2]@ && z@ == w@[3]@);
            Record::Vertex(VertexText { x, y, z })
        } else {
            Record::BadVertex
        }
    } else if starts_with_tag(line, 0x66) {
        let w = split_words(line);
        assert(views(w@).len() == w@.len());
        if w.len() != 4 {
            return Record::BadFace;
        }
        assert(views(w@)[1] == w@[1]@ && views(w@)[2] == w@[2]@ && views(w@)[3] == w@[3]@);
        if !check_numeral(w[1].as_slice()) || !check_numeral(w[2].as_slice()) || !check_numeral(
            w[3].as_slice(),
        ) {
            return Record::BadFace;
        }
        let a = read_corner(w[1].as_slice(), vertices);
        let b = read_corner(w[2].as_slice(), vertices);
        let c = read_corner(w[3].as_slice(), vertices);
        match (a, b, c) {
            (Some(ai), Some(bi), Some(ci)) => Record::Face(Face { ai, bi, ci }),
            _ => Record::IndexOutOfRange,
        }
    } else {
        Record::Other
    }
}

impl Mesh {
    /// Whether every face names vertices of this mesh.
    pub open spec fn well_formed(self) -> bool {
        forall|i: int|
            0 <= i < self.faces@.len() ==> {
                let f = #[trigger] self.faces@[i];
                f.ai < self.vertices@.len() && f.bi < self.vertices@.len() && f.ci
                    < self.vertices@.len()
            }
    }

    /// Whether the face names vertices of this mesh only.
    pub open spec fn holds(self, f: Face) -> bool {
        f.ai < self.vertices@.len() && f.bi < self.vertices@.len() && f.ci < self.vertices@.len()
    }

    /// The first face that names a vertex which the mesh does not have, by
    /// its position in the face list, or `None` if every face names vertices
    /// of the mesh.
    pub fn stray_face(&self) -> (r: Option<usize>)
        ensures
            r is None <==> self.well_formed(),
            r matches Some(k) ==> {
                &&& k < self.faces@.len()
                &&& !self.holds(self.faces@[k as int])
                &&& forall|j: int| 0 <= j < k ==> self.holds(#[trigger] self.faces@[j])
            },
    {
        let n = self.vertices.len();
        let mut k: usize = 0;
        while k < self.faces.len()
            invariant
                k <= self.faces@.len(),
                n == self.vertices@.len(),
                forall|j: int| 0 <= j < k ==> self.holds(#[trigger] self.faces@[j]),
            decreases self.faces@.len() - k,
        {
            let f = self.faces[k];
            if f.ai >= n || f.bi >= n || f.ci >= n {
                return Some(k);
            }
            k = k + 1;
        }
        None
    }

    /// Reads a mesh from the text of a mesh file.
    ///
    /// The file is accepted if none of its lines is ill-formed; the mesh then
    /// holds the declared vertices and faces in their order. Otherwise the
    /// error is that of the first ill-formed line.
    pub fn read(input: &[u8], shading: Shading) -> (r: Result<Mesh, MeshError>)
        ensures
            ({
                let ls = lines(input@);
                let n = vertex_count(ls);
                let bad = first_bad(ls, n, 0);
                match r {
                    Ok(m) => {
                        &&& bad == ls.len()
                        &&& m.shading == shading
                        &&& vertex_views(m.vertices@) == vertices_of(ls)
                        &&& face_views(m.faces@) == faces_of(ls, n)
                        &&& m.vertices@.len() == n
                        &&& m.well_formed()
                    },
                    Err(e) => {
                        &&& 0 <= bad < ls.len()
                        &&& e == error_of(meaning(ls[bad], n), bad)
                    },
                }
            }),
    {
        let ls = split_lines(input);
        let ghost lsv = lines(input@);
        assert(lsv.len() == ls@.len());
        let mut n: usize = 0;
        let mut i: usize = 0;
        while i < ls.len()
            invariant
                i <= ls@.len(),
                views(ls@) == lsv,
                n == vertex_count(lsv.take(i as int)),
                n <= i,
            decreases ls@.len() - i,
        {
            proof {
                assert(lsv.take(i + 1).drop_last() == lsv.take(i as int));
                assert(lsv.take(i + 1).last() == ls@[i as int]@);
            }
            if starts_with_tag(ls[i].as_slice(), 0x76) {
                n = n + 1;
            }
            i = i + 1;
        }
        assert(lsv.take(i as int) == lsv);
        let mut vertices: Vec<VertexText> = Vec::new();
        let mut faces: Vec<Face> = Vec::new();
        let mut k: usize = 0;
        while k < ls.len()
            invariant
                k <= ls@.len(),
                views(ls@) == lsv,
                lsv == lines(input@),
                n == vertex_count(lsv),
                first_bad(lsv, n as nat, 0) == first_bad(lsv, n as nat, k as int),
                vertex_views(vertices@) == vertices_of(lsv.take(k as int)),
                face_views(faces@) == faces_of(lsv.take(k as int), n as nat),
                vertices@.len() == vertex_count(lsv.take(k as int)),
                forall|j: int|
                    0 <= j < faces@.len() ==> {
                        let f = #[trigger] faces@[j];
                        f.ai < n && f.bi < n && f.ci < n
                    },
            decreases ls@.len() - k,
        {
            proof {
                assert(lsv.take(k + 1).drop_last() == lsv.take(k as int));
                assert(lsv.take(k + 1).last() == ls@[k as int]@);
                assert(lsv[k as int] == ls@[k as int]@);
                lemma_vertex_ignores_count(lsv[k as int], n as nat);
            }
            let ghost old_vertices = vertex_views(vertices@);
            let ghost old_faces = face_views(faces@);
            match read_line(ls[k].as_slice(), n) {
                Record::Other => {},
                Record::Vertex(v) => {
                    vertices.push(v);
                    assert(vertex_views(vertices@) == old_vertices.push((v.x@, v.y@, v.z@)));
                },
                Record::Face(f) => {
                    faces.push(f);
                    assert(face_views(faces@) == old_faces.push(
                        (f.ai as nat, f.bi as nat, f.ci as nat),
                    ));
                },
                Record::BadVertex => {
                    return Err(MeshError::BadVertex { line: k + 1 });
                },
                Record::BadFace => {
                    return Err(MeshError::BadFace { line: k + 1 });
                },
                Record::IndexOutOfRange => {
                    return Err(MeshError::IndexOutOfRange { line: k + 1 });
                },
            }
            k = k + 1;
        }
        assert(lsv.take(k as int) == lsv);
        Ok(Mesh { faces, vertices, shading })
    }
}

/// Whether a line declares a vertex, and which, does not depend on how many
/// vertices the file declares.
pub proof fn lemma_vertex_ignores_count(line: Seq<u8>, vertices: nat)
    ensures
        meaning(line, vertices) is Vertex <==> meaning(line, 0) is Vertex,
        meaning(line, vertices) is Vertex ==> meaning(line, vertices) == meaning(line, 0),
        meaning(line, vertices) is Vertex || meaning(line, vertices) is BadVertex
            <==> is_vertex_line(line),
{
}

/// How many corners of the face lie at vertex `v`.
pub open spec fn corners_at(f: Face, v: int) -> nat {
    (if f.ai == v {
        1nat
    } else {
        0nat
    }) + (if f.bi == v {
        1nat
    } else {
        0nat
    }) + (if f.ci == v {
        1nat
    } else {
        0nat
    })
}

/// The faces that touch vertex `v`, by their positions in the face list and
/// in its order. A face is listed once for each of its corners at `v`.
pub open spec fn faces_at(faces: Seq<Face>, v: int) -> Seq<usize>
    decreases faces.len(),
{
    if faces.len() == 0 {
        Seq::empty()
    } else {
        let k = (faces.len() - 1) as usize;
        faces_at(faces.drop_last(), v) + Seq::new(corners_at(faces.last(), v), |i: int| k)
    }
}

impl Mesh {
    /// For every vertex, the faces that touch it: the faces whose normals
    /// add up to the normal at that vertex, in the order in which they are
    /// added.
    pub fn incidence(&self) -> (out: Vec<Vec<usize>>)
        requires
            self.well_formed(),
        ensures
            out@.len() == self.vertices@.len(),
            forall|v: int|
                0 <= v < out@.len() ==> (#[trigger] out@[v])@ == faces_at(self.faces@, v),
    {
        let n = self.vertices.len();
        let mut out: Vec<Vec<usize>> = Vec::new();
        let mut v: usize = 0;
        while v < n
            invariant
                v <= n,
                out@.len() == v,
                forall|u: int| 0 <= u < v ==> (#[trigger] out@[u])@ == Seq::<usize>::empty(),
            decreases n - v,
        {
            out.push(Vec::new());
            v = v + 1;
        }
        let mut k: usize = 0;
        while k < self.faces.len()
            invariant
                k <= self.faces@.len(),
                n == self.vertices@.len(),
                self.well_formed(),
                out@.len() == n,
                forall|u: int|
                    0 <= u < n ==> (#[trigger] out@[u])@ == faces_at(
                        self.faces@.take(k as int),
                        u,
                    ),
            decreases self.faces@.len() - k,
        {
            let f = self.faces[k];
            let ghost before = out@;
            proof {
                assert(self.faces@.take(k + 1).drop_last() == self.faces@.take(k as int));
                assert(self.faces@.take(k + 1).last() == f);
            }
            out[f.ai].push(k);
            out[f.bi].push(k);
            out[f.ci].push(k);
            proof {
                assert forall|u: int| 0 <= u < n implies (#[trigger] out@[u])@ == faces_at(
                    self.faces@.take(k + 1),
                    u,
                ) by {
                    assert(out@[u]@ =~= before[u]@ + Seq::new(corners_at(f, u), |i: int| k));
                }
            }
            k = k + 1;
        }
        assert(self.faces@.take(k as int) == self.faces@);
        out
    }
}

/// Whether a ray hits a triangle, from the solution of the ray and plane
/// equations: `beta` and `gamma` place the point in the triangle, `sum` is
/// their sum and `t` the ray parameter. The ray hits if `beta` and `gamma`
/// are at least zero, their sum is at most one, and `t` is at least zero.
pub open spec fn hits_face(beta: u32, gamma: u32, sum: u32, t: u32) -> bool {
    less_or_equal(ZERO, beta) && less_or_equal(ZERO, gamma) && less_or_equal(sum, ONE)
        && less_or_equal(ZERO, t)
}

impl Face {
    /// Decides whether a ray hits the face. The four numbers are given by
    /// their bit patterns.
    pub fn intersect(beta: u32, gamma: u32, sum: u32, t: u32) -> (hit: bool)
        ensures
            hit == hits_face(beta, gamma, sum, t),
    {
        is_less_or_equal(ZERO, beta) && is_less_or_equal(ZERO, gamma) && is_less_or_equal(
            sum,
            ONE,
        ) && is_less_or_equal(ZERO, t)
    }
}

} // verus!
