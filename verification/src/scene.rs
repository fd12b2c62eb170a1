//! The scene tree and the passes that prepare it for rendering.
//!
//! The tree holds no geometry of its own. Meshes, primitives, transforms,
//! materials and bounding boxes are kept by the caller and named here by
//! their positions in the caller's tables, so that every pass over the tree
//! is a matter of structure alone:
//!
//! * `load_meshes` replaces each reference to a mesh file by the mesh that
//!   the caller's loader returned for it;
//! * `fold_transforms` removes the transform nodes and lists, for every piece
//!   of geometry, the transforms on the way down to it;
//! * `prepare` does both, one after the other;
//! * `construct_bvh` puts every primitive into its bounding box and every
//!   mesh into a hierarchy of bounding boxes;
//! * `intersect` lists the geometry that a ray has to be tested against.
use crate::bvh::is_dissection;
use crate::bvh::leaf_faces;
use crate::bvh::leaf_faces_all;
use crate::bvh::lemma_dissection_keeps_faces;
use crate::bvh::Split;
use crate::mesh::Shading;
use crate::render::fits_in_memory;
use crate::render::height_of;
use crate::render::pixel_at;
use crate::render::raster_pixels;
use crate::render::render;
use crate::render::width_of;
use crate::render::Raster;
use vstd::prelude::*;
use vstd::seq_lib::lemma_multiset_commutative;

verus! {

/// Some faces of one mesh.
#[derive(Clone, Debug, PartialEq, Eq)]
pub struct MeshPart {
    /// The mesh, by its position in the caller's table.
    pub mesh: usize,
    /// The faces, by their positions in the mesh's face list.
    pub faces: Vec<usize>,
}

/// A scene: a tree of groups and wrappers over geometry.
#[derive(Debug, PartialEq, Eq)]
pub enum ObjectTree {
    /// Several objects side by side.
    Group(Vec<ObjectTree>),
    /// Faces of a mesh.
    Mesh(MeshPart),
    /// A mesh that is still to be read from a file.
    LoadMesh { file: String, shading: Shading },
    /// An analytic shape.
    Primitive(usize),
    /// The child, moved by a transform.
    Transform { child: Box<ObjectTree>, transform: usize },
    /// The child, with this material for everything below that no nearer
    /// material node covers.
    Material { child: Box<ObjectTree>, material: usize },
    /// The child, to be looked at only by rays that hit the box.
    BoundingBox { child: Box<ObjectTree>, bbox: usize },
}

/// The mathematical tree that an `ObjectTree` stands for.
pub enum Node {
    Group(Seq<Node>),
    Mesh { mesh: usize, faces: Seq<usize> },
    LoadMesh { file: Seq<char>, shading: Shading },
    Primitive(usize),
    Transform { child: Box<Node>, transform: usize },
    Material { child: Box<Node>, material: usize },
    BoundingBox { child: Box<Node>, bbox: usize },
}

/// The trees that a list of `ObjectTree`s stands for.
pub open spec fn nodes_of(items: Seq<ObjectTree>) -> Seq<Node> {
    Seq::new(items.len(), |i: int| items[i]@)
}

impl ObjectTree {
    /// The tree that this value stands for.
    pub open spec fn view(&self) -> Node
        decreases self,
    {
        match self {
            ObjectTree::Group(items) => Node::Group(
                Seq::new(
                    items@.len(),
                    |i: int|
                        if 0 <= i < items@.len() {
                            items@[i].view()
                        } else {
                            Node::Primitive(0)
                        },
                ),
            ),
            ObjectTree::Mesh(part) => Node::Mesh { mesh: part.mesh, faces: part.faces@ },
            ObjectTree::LoadMesh { file, shading } => Node::LoadMesh {
                file: file@,
                shading: *shading,
            },
            ObjectTree::Primitive(p) => Node::Primitive(*p),
            ObjectTree::Transform { child, transform } => Node::Transform {
                child: Box::new(child.view()),
                transform: *transform,
            },
            ObjectTree::Material { child, material } => Node::Material {
                child: Box::new(child.view()),
                material: *material,
            },
            ObjectTree::BoundingBox { child, bbox } => Node::BoundingBox {
                child: Box::new(child.view()),
                bbox: *bbox,
            },
        }
    }

    /// A group stands for the group of what its items stand for.
    pub proof fn lemma_group_view(items: Vec<ObjectTree>)
        ensures
            ObjectTree::Group(items)@ == Node::Group(nodes_of(items@)),
    {
        assert(ObjectTree::Group(items)@->Group_0 =~= nodes_of(items@));
    }

    /// A deep copy.
    pub fn duplicate(&self) -> (t: ObjectTree)
        ensures
            t@ == self@,
        decreases self,
    {
        match self {
            ObjectTree::Group(items) => {
                let mut copies: Vec<ObjectTree> = Vec::new();
                let mut i: usize = 0;
                while i < items.len()
                    invariant
                        i <= items@.len(),
                        *self == ObjectTree::Group(*items),
                        copies@.len() == i,
                        forall|k: int| 0 <= k < i ==> (#[trigger] copies@[k])@ == items@[k]@,
                    decreases items@.len() - i,
                {
                    assert(self->Group_0 == *items);
                    assert(decreases_to!(self => self->Group_0));
                    assert(decreases_to!(self->Group_0 => self->Group_0[i as int]));
                    let c = items[i].duplicate();
                    copies.push(c);
                    i = i + 1;
                }
                proof {
                    Self::lemma_group_view(copies);
                    Self::lemma_group_view(*items);
                    assert(nodes_of(copies@) =~= nodes_of(items@));
                }
                ObjectTree::Group(copies)
            },
            ObjectTree::Mesh(part) => ObjectTree::Mesh(
                MeshPart { mesh: part.mesh, faces: copy_handles(&part.faces) },
            ),
            ObjectTree::LoadMesh { file, shading } => ObjectTree::LoadMesh {
                file: file.clone(),
                shading: *shading,
            },
            ObjectTree::Primitive(p) => ObjectTree::Primitive(*p),
            ObjectTree::Transform { child, transform } => ObjectTree::Transform {
                child: Box::new(child.duplicate()),
                transform: *transform,
            },
            ObjectTree::Material { child, material } => ObjectTree::Material {
                child: Box::new(child.duplicate()),
                material: *material,
            },
            ObjectTree::BoundingBox { child, bbox } => ObjectTree::BoundingBox {
                child: Box::new(child.duplicate()),
                bbox: *bbox,
            },
        }
    }
}

/// A copy of a list of positions.
pub fn copy_handles(v: &Vec<usize>) -> (out: Vec<usize>)
    ensures
        out@ == v@,
{
    let mut out: Vec<usize> = Vec::new();
    let mut i: usize = 0;
    while i < v.len()
        invariant
            i <= v@.len(),
            out@ == v@.take(i as int),
        decreases v@.len() - i,
    {
        out.push(v[i]);
        i = i + 1;
    }
    assert(v@.take(i as int) == v@);
    out
}

/// Whether `out` is `input` with every mesh file replaced by a mesh that
/// `load` returned for that file and shading, and nothing else changed.
pub open spec fn is_loaded<E, L: Fn(&String, Shading) -> Result<MeshPart, E>>(
    out: Node,
    input: Node,
    load: L,
) -> bool
    decreases input,
{
    match input {
        Node::Group(items) => out is Group && out->Group_0.len() == items.len() && forall|i: int|
            0 <= i < items.len() ==> is_loaded(out->Group_0[i], #[trigger] items[i], load),
        Node::LoadMesh { file, shading } => exists|name: String, part: MeshPart|
            name@ == file && #[trigger] call_ensures(load, (&name, shading), Ok(part)) && out
                == (Node::Mesh { mesh: part.mesh, faces: part.faces@ }),
        Node::Transform { child, transform } => out is Transform && out->Transform_transform
            == transform && is_loaded(*out->Transform_child, *child, load),
        Node::Material { child, material } => out is Material && out->Material_material
            == material && is_loaded(*out->Material_child, *child, load),
        Node::BoundingBox { child, bbox } => out is BoundingBox && out->BoundingBox_bbox == bbox
            && is_loaded(*out->BoundingBox_child, *child, load),
        _ => out == input,
    }
}

/// The mesh files that a tree refers to, from left to right, each with the
/// shading it is to have.
pub open spec fn files_of(node: Node) -> Seq<(Seq<char>, Shading)>
    decreases node,
{
    match node {
        Node::Group(items) => files_of_all(items),
        Node::LoadMesh { file, shading } => seq![(file, shading)],
        Node::Transform { child, .. } => files_of(*child),
        Node::Material { child, .. } => files_of(*child),
        Node::BoundingBox { child, .. } => files_of(*child),
        _ => Seq::empty(),
    }
}

/// The mesh files that the trees of a list refer to, one tree after the
/// other.
pub open spec fn files_of_all(items: Seq<Node>) -> Seq<(Seq<char>, Shading)>
    decreases items,
{
    if items.len() == 0 {
        Seq::empty()
    } else {
        files_of_all(items.drop_last()) + files_of(items.last())
    }
}

/// Whether `load` returned a mesh for the file.
pub open spec fn accepts<E, L: Fn(&String, Shading) -> Result<MeshPart, E>>(
    load: L,
    file: (Seq<char>, Shading),
) -> bool {
    exists|name: String, part: MeshPart|
        name@ == file.0 && #[trigger] call_ensures(load, (&name, file.1), Ok(part))
}

/// Whether `load` refused the file with the error `e`.
pub open spec fn refuses<E, L: Fn(&String, Shading) -> Result<MeshPart, E>>(
    load: L,
    file: (Seq<char>, Shading),
    e: E,
) -> bool {
    exists|name: String| name@ == file.0 && #[trigger] call_ensures(load, (&name, file.1), Err(e))
}

/// Whether `load` returned a mesh for each of the files.
pub open spec fn accepts_all<E, L: Fn(&String, Shading) -> Result<MeshPart, E>>(
    load: L,
    files: Seq<(Seq<char>, Shading)>,
) -> bool {
    forall|j: int| 0 <= j < files.len() ==> accepts(load, #[trigger] files[j])
}

/// Whether the file at position `k` is the first that `load` refused, and
/// `e` the error it was refused with.
pub open spec fn refused_at<E, L: Fn(&String, Shading) -> Result<MeshPart, E>>(
    files: Seq<(Seq<char>, Shading)>,
    load: L,
    e: E,
    k: int,
) -> bool {
    &&& 0 <= k < files.len()
    &&& refuses(load, files[k], e)
    &&& accepts_all(load, files.take(k))
}

/// Whether `load` returned a mesh for the files of the tree from the left
/// up to one that it refused with the error `e`.
pub open spec fn load_failed<E, L: Fn(&String, Shading) -> Result<MeshPart, E>>(
    input: Node,
    load: L,
    e: E,
) -> bool {
    exists|k: int| refused_at(files_of(input), load, e, k)
}

/// The files of two lists of trees, one after the other, are the files of
/// the first and then those of the second.
pub proof fn lemma_files_of_all_concat(a: Seq<Node>, b: Seq<Node>)
    ensures
        files_of_all(a + b) == files_of_all(a) + files_of_all(b),
    decreases b.len(),
{
    if b.len() == 0 {
        assert(a + b == a);
        assert(files_of_all(a) + Seq::<(Seq<char>, Shading)>::empty() == files_of_all(a));
    } else {
        lemma_files_of_all_concat(a, b.drop_last());
        assert((a + b).drop_last() == a + b.drop_last());
        assert((a + b).last() == b.last());
        assert(files_of_all(a) + files_of_all(b.drop_last()) + files_of(b.last())
            == files_of_all(a) + (files_of_all(b.drop_last()) + files_of(b.last())));
    }
}

/// In a loaded tree, `load` returned a mesh for every file of the input.
pub proof fn lemma_loaded_accepts_all<E, L: Fn(&String, Shading) -> Result<MeshPart, E>>(
    out: Node,
    input: Node,
    load: L,
)
    requires
        is_loaded(out, input, load),
    ensures
        accepts_all(load, files_of(input)),
    decreases input, 0nat,
{
    match input {
        Node::Group(items) => {
            lemma_loaded_accepts_all_items(out->Group_0, items, items.len(), load);
            assert(items.take(items.len() as int) == items);
        },
        Node::LoadMesh { file, shading } => {
            let (name, part) = choose|name: String, part: MeshPart|
                name@ == file && #[trigger] call_ensures(load, (&name, shading), Ok(part)) && out
                    == (Node::Mesh { mesh: part.mesh, faces: part.faces@ });
            let only = files_of(input)[0];
            assert(only == (file, shading));
            assert(call_ensures(load, (&name, only.1), Ok(part)));
        },
        Node::Transform { child, .. } => {
            lemma_loaded_accepts_all(*out->Transform_child, *child, load);
        },
        Node::Material { child, .. } => {
            lemma_loaded_accepts_all(*out->Material_child, *child, load);
        },
        Node::BoundingBox { child, .. } => {
            lemma_loaded_accepts_all(*out->BoundingBox_child, *child, load);
        },
        _ => {},
    }
}

/// The same for the first `n` trees of two lists that correspond item by
/// item.
proof fn lemma_loaded_accepts_all_items<E, L: Fn(&String, Shading) -> Result<MeshPart, E>>(
    outs: Seq<Node>,
    inputs: Seq<Node>,
    n: nat,
    load: L,
)
    requires
        outs.len() == inputs.len(),
        n <= inputs.len(),
        forall|i: int| 0 <= i < n ==> is_loaded(outs[i], #[trigger] inputs[i], load),
    ensures
        accepts_all(load, files_of_all(inputs.take(n as int))),
    decreases inputs, n,
{
    if n == 0 {
        assert(inputs.take(0).len() == 0);
    } else {
        let m = (n - 1) as nat;
        lemma_loaded_accepts_all_items(outs, inputs, m, load);
        assert(is_loaded(outs[m as int], inputs[m as int], load));
        lemma_loaded_accepts_all(outs[m as int], inputs[m as int], load);
        assert(inputs.take(n as int).drop_last() == inputs.take(m as int));
        assert(inputs.take(n as int).last() == inputs[m as int]);
    }
}

/// Where the item at position `i` of a group fails to load and all items
/// before it are loaded, the group fails to load, with the same error.
proof fn lemma_group_load_failed<E, L: Fn(&String, Shading) -> Result<MeshPart, E>>(
    outs: Seq<Node>,
    items: Seq<Node>,
    i: int,
    load: L,
    e: E,
)
    requires
        0 <= i < items.len(),
        outs.len() == items.len(),
        forall|k: int| 0 <= k < i ==> is_loaded(outs[k], #[trigger] items[k], load),
        load_failed(items[i], load, e),
    ensures
        load_failed(Node::Group(items), load, e),
{
    let k = choose|k: int| refused_at(files_of(items[i]), load, e, k);
    let before = files_of_all(items.take(i));
    let here = files_of(items[i]);
    let after = files_of_all(items.skip(i + 1));
    let all = files_of(Node::Group(items));
    lemma_loaded_accepts_all_items(outs, items, i as nat, load);
    lemma_files_of_all_concat(items.take(i + 1), items.skip(i + 1));
    assert(items.take(i + 1) + items.skip(i + 1) == items);
    assert(items.take(i + 1).drop_last() == items.take(i));
    assert(items.take(i + 1).last() == items[i]);
    assert(all == before + here + after);
    let at = before.len() + k;
    assert(all[at] == here[k]);
    assert forall|j: int| 0 <= j < at implies accepts(load, #[trigger] all.take(at)[j]) by {
        if j < before.len() {
            assert(all.take(at)[j] == before[j]);
        } else {
            assert(all.take(at)[j] == here.take(k)[j - before.len()]);
        }
    }
    assert(refused_at(all, load, e, at));
}

impl ObjectTree {
    /// Replaces every reference to a mesh file by the mesh that `load`
    /// returns for it. The first file that `load` refuses ends the pass with
    /// the loader's error.
    pub fn load_meshes<E, L: Fn(&String, Shading) -> Result<MeshPart, E>>(&self, load: &L) -> (r:
        Result<ObjectTree, E>)
        requires
            forall|name: &String, shading: Shading| call_requires(load, (name, shading)),
        ensures
            match r {
                Ok(t) => is_loaded(t@, self@, *load),
                Err(e) => load_failed(self@, *load, e),
            },
        decreases self,
    {
        match self {
            ObjectTree::Group(items) => {
                let mut loaded: Vec<ObjectTree> = Vec::new();
                let mut i: usize = 0;
                while i < items.len()
                    invariant
                        i <= items@.len(),
                        *self == ObjectTree::Group(*items),
                        loaded@.len() == i,
                        forall|name: &String, shading: Shading|
                            call_requires(load, (name, shading)),
                        forall|k: int|
                            0 <= k < i ==> is_loaded((#[trigger] loaded@[k])@, items@[k]@, *load),
                    decreases items@.len() - i,
                {
                    assert(self->Group_0 == *items);
                    assert(decreases_to!(self => self->Group_0));
                    assert(decreases_to!(self->Group_0 => self->Group_0[i as int]));
                    match items[i].load_meshes(load) {
                        Ok(c) => {
                            loaded.push(c);
                        },
                        Err(e) => {
                            proof {
                                Self::lemma_group_view(*items);
                                let outs = Seq::new(
                                    items@.len(),
                                    |k: int|
                                        if 0 <= k < i {
                                            loaded@[k]@
                                        } else {
                                            items@[k]@
                                        },
                                );
                                assert forall|k: int| 0 <= k < i implies is_loaded(
                                    outs[k],
                                    #[trigger] nodes_of(items@)[k],
                                    *load,
                                ) by {
                                    assert(is_loaded(loaded@[k]@, items@[k]@, *load));
                                }
                                assert(nodes_of(items@)[i as int] == items@[i as int]@);
                                lemma_group_load_failed(
                                    outs,
                                    nodes_of(items@),
                                    i as int,
                                    *load,
                                    e,
                                );
                            }
                            return Err(e);
                        },
                    }
                    i = i + 1;
                }
                proof {
                    Self::lemma_group_view(loaded);
                    Self::lemma_group_view(*items);
                    assert forall|k: int| 0 <= k < items@.len() implies is_loaded(
                        nodes_of(loaded@)[k],
                        #[trigger] nodes_of(items@)[k],
                        *load,
                    ) by {
                        assert(is_loaded(loaded@[k]@, items@[k]@, *load));
                    }
                }
                Ok(ObjectTree::Group(loaded))
            },
            ObjectTree::Mesh(part) => Ok(
                ObjectTree::Mesh(MeshPart { mesh: part.mesh, faces: copy_handles(&part.faces) }),
            ),
            ObjectTree::LoadMesh { file, shading } => {
                match load(file, *shading) {
                    Ok(part) => {
                        let t = ObjectTree::Mesh(part);
                        assert(call_ensures(*load, (file, *shading), Ok(part)));
                        Ok(t)
                    },
                    Err(e) => {
                        let ghost only = files_of(self@)[0];
                        assert(only == (file@, *shading));
                        assert(call_ensures(*load, (file, only.1), Err(e)));
                        assert(refuses(*load, only, e));
                        assert(files_of(self@).take(0).len() == 0);
                        assert(refused_at(files_of(self@), *load, e, 0));
                        Err(e)
                    },
                }
            },
            ObjectTree::Primitive(p) => Ok(ObjectTree::Primitive(*p)),
            ObjectTree::Transform { child, transform } => {
                match child.load_meshes(load) {
                    Ok(c) => Ok(ObjectTree::Transform { child: Box::new(c), transform: *transform }),
                    Err(e) => {
                        assert(files_of(self@) == files_of(child@));
                        Err(e)
                    },
                }
            },
            ObjectTree::Material { child, material } => {
                match child.load_meshes(load) {
                    Ok(c) => Ok(ObjectTree::Material { child: Box::new(c), material: *material }),
                    Err(e) => {
                        assert(files_of(self@) == files_of(child@));
                        Err(e)
                    },
                }
            },
            ObjectTree::BoundingBox { child, bbox } => {
                match child.load_meshes(load) {
                    Ok(c) => Ok(ObjectTree::BoundingBox { child: Box::new(c), bbox: *bbox }),
                    Err(e) => {
                        assert(files_of(self@) == files_of(child@));
                        Err(e)
                    },
                }
            },
        }
    }
}

/// What a piece of geometry is.
#[derive(Clone, Copy, Debug, PartialEq, Eq, Structural)]
pub enum Kind {
    Mesh,
    Primitive,
}

/// One piece of geometry of a prepared scene: a mesh or primitive of the
/// caller's, and the transforms that apply to it, outermost first.
#[derive(Clone, Debug, PartialEq, Eq)]
pub struct Instance {
    pub kind: Kind,
    pub source: usize,
    pub transforms: Vec<usize>,
}

/// A scene without transform nodes. Each mesh and primitive of `objects` is
/// named by its position in `instances`.
#[derive(Debug, PartialEq, Eq)]
pub struct Prepared {
    pub objects: ObjectTree,
    pub instances: Vec<Instance>,
}

/// The sources and transform chains of a list of instances.
pub open spec fn placement_views(v: Seq<Instance>) -> Seq<(Kind, usize, Seq<usize>)> {
    Seq::new(v.len(), |i: int| (v[i].kind, v[i].source, v[i].transforms@))
}

/// The number of meshes and primitives in a tree.
pub open spec fn leaf_count(node: Node) -> nat
    decreases node,
{
    match node {
        Node::Group(items) => leaf_count_all(items),
        Node::Mesh { .. } => 1,
        Node::Primitive(_) => 1,
        Node::LoadMesh { .. } => 0,
        Node::Transform { child, .. } => leaf_count(*child),
        Node::Material { child, .. } => leaf_count(*child),
        Node::BoundingBox { child, .. } => leaf_count(*child),
    }
}

/// The number of meshes and primitives in a list of trees.
pub open spec fn leaf_count_all(items: Seq<Node>) -> nat
    decreases items,
{
    if items.len() == 0 {
        0
    } else {
        leaf_count_all(items.drop_last()) + leaf_count(items.last())
    }
}

/// The meshes and primitives of a tree from left to right, each with the
/// transforms above it, outermost first, after those of `chain`.
pub open spec fn placements(node: Node, chain: Seq<usize>) -> Seq<(Kind, usize, Seq<usize>)>
    decreases node,
{
    match node {
        Node::Group(items) => placements_all(items, chain),
        Node::Mesh { mesh, .. } => seq![(Kind::Mesh, mesh, chain)],
        Node::Primitive(p) => seq![(Kind::Primitive, p, chain)],
        Node::LoadMesh { .. } => Seq::empty(),
        Node::Transform { child, transform } => placements(*child, chain.push(transform)),
        Node::Material { child, .. } => placements(*child, chain),
        Node::BoundingBox { child, .. } => placements(*child, chain),
    }
}

/// The placements of a list of trees, one tree after the other.
pub open spec fn placements_all(items: Seq<Node>, chain: Seq<usize>) -> Seq<
    (Kind, usize, Seq<usize>),
>
    decreases items,
{
    if items.len() == 0 {
        Seq::empty()
    } else {
        placements_all(items.drop_last(), chain) + placements(items.last(), chain)
    }
}

/// The tree without its transform nodes, its meshes and primitives numbered
/// from left to right, starting at `first`. A mesh file that was not loaded
/// stays as it is and gets no number.
pub open spec fn folded(node: Node, first: nat) -> Node
    decreases node,
{
    match node {
        Node::Group(items) => Node::Group(
            Seq::new(
                items.len(),
                |k: int|
                    if 0 <= k < items.len() {
                        folded(items[k], first + leaf_count_all(items.take(k)))
                    } else {
                        Node::Primitive(0)
                    },
            ),
        ),
        Node::Mesh { mesh, faces } => Node::Mesh { mesh: first as usize, faces },
        Node::Primitive(_) => Node::Primitive(first as usize),
        Node::LoadMesh { file, shading } => Node::LoadMesh { file, shading },
        Node::Transform { child, .. } => folded(*child, first),
        Node::Material { child, material } => Node::Material {
            child: Box::new(folded(*child, first)),
            material,
        },
        Node::BoundingBox { child, bbox } => Node::BoundingBox {
            child: Box::new(folded(*child, first)),
            bbox,
        },
    }
}

/// A tree has as many placements as it has meshes and primitives.
pub proof fn lemma_placements_len(node: Node, chain: Seq<usize>)
    ensures
        placements(node, chain).len() == leaf_count(node),
    decreases node,
{
    match node {
        Node::Group(items) => {
            lemma_placements_all_len(items, chain);
        },
        Node::Transform { child, transform } => {
            lemma_placements_len(*child, chain.push(transform));
        },
        Node::Material { child, .. } => {
            lemma_placements_len(*child, chain);
        },
        Node::BoundingBox { child, .. } => {
            lemma_placements_len(*child, chain);
        },
        _ => {},
    }
}

/// A list of trees has as many placements as it has meshes and primitives.
pub proof fn lemma_placements_all_len(items: Seq<Node>, chain: Seq<usize>)
    ensures
        placements_all(items, chain).len() == leaf_count_all(items),
    decreases items,
{
    if items.len() > 0 {
        lemma_placements_all_len(items.drop_last(), chain);
        lemma_placements_len(items.last(), chain);
    }
}

impl ObjectTree {
    /// Folds the transforms of this tree into `out`: appends the placements
    /// of the tree below the transforms `chain`, and returns the tree without
    /// its transform nodes.
    fn fold_into(&self, chain: &Vec<usize>, out: &mut Vec<Instance>) -> (t: ObjectTree)
        ensures
            placement_views(final(out)@) == placement_views(old(out)@) + placements(
                self@,
                chain@,
            ),
            t@ == folded(self@, old(out)@.len()),
        decreases self,
    {
        let ghost before = placement_views(out@);
        let ghost first = out@.len();
        match self {
            ObjectTree::Group(items) => {
                let mut kept: Vec<ObjectTree> = Vec::new();
                let mut i: usize = 0;
                let ghost nodes = nodes_of(items@);
                while i < items.len()
                    invariant
                        i <= items@.len(),
                        *self == ObjectTree::Group(*items),
                        nodes == nodes_of(items@),
                        kept@.len() == i,
                        placement_views(out@) == before + placements_all(
                            nodes.take(i as int),
                            chain@,
                        ),
                        before.len() == first,
                        forall|k: int|
                            0 <= k < i ==> (#[trigger] kept@[k])@ == folded(
                                nodes[k],
                                first + leaf_count_all(nodes.take(k)),
                            ),
                    decreases items@.len() - i,
                {
                    assert(self->Group_0 == *items);
                    assert(decreases_to!(self => self->Group_0));
                    assert(decreases_to!(self->Group_0 => self->Group_0[i as int]));
                    proof {
                        lemma_placements_all_len(nodes.take(i as int), chain@);
                        assert(nodes.take(i + 1).drop_last() == nodes.take(i as int));
                        assert(nodes.take(i + 1).last() == items@[i as int]@);
                    }
                    let c = items[i].fold_into(chain, out);
                    kept.push(c);
                    i = i + 1;
                }
                proof {
                    assert(nodes.take(i as int) == nodes);
                    Self::lemma_group_view(kept);
                    Self::lemma_group_view(*items);
                    assert(nodes_of(kept@) =~= folded(self@, first)->Group_0);
                }
                ObjectTree::Group(kept)
            },
            ObjectTree::Mesh(part) => {
                let handle = out.len();
                out.push(
                    Instance { kind: Kind::Mesh, source: part.mesh, transforms: copy_handles(chain) },
                );
                assert(placement_views(out@) =~= before + seq![(Kind::Mesh, part.mesh, chain@)]);
                ObjectTree::Mesh(MeshPart { mesh: handle, faces: copy_handles(&part.faces) })
            },
            ObjectTree::LoadMesh { file, shading } => {
                assert(placement_views(out@) =~= before + Seq::empty());
                ObjectTree::LoadMesh { file: file.clone(), shading: *shading }
            },
            ObjectTree::Primitive(p) => {
                let handle = out.len();
                out.push(
                    Instance { kind: Kind::Primitive, source: *p, transforms: copy_handles(chain) },
                );
                assert(placement_views(out@) =~= before + seq![(Kind::Primitive, *p, chain@)]);
                ObjectTree::Primitive(handle)
            },
            ObjectTree::Transform { child, transform } => {
                let mut longer = copy_handles(chain);
                longer.push(*transform);
                child.fold_into(&longer, out)
            },
            ObjectTree::Material { child, material } => {
                let c = child.fold_into(chain, out);
                ObjectTree::Material { child: Box::new(c), material: *material }
            },
            ObjectTree::BoundingBox { child, bbox } => {
                let c = child.fold_into(chain, out);
                ObjectTree::BoundingBox { child: Box::new(c), bbox: *bbox }
            },
        }
    }

    /// Removes the transform nodes. Every mesh and primitive of the result is
    /// an instance of its own, numbered from left to right; the instance
    /// names the mesh or primitive it was made from and lists the transforms
    /// that stood above it, outermost first.
    pub fn fold_transforms(&self) -> (p: Prepared)
        ensures
            p.objects@ == folded(self@, 0),
            placement_views(p.instances@) == placements(self@, Seq::empty()),
    {
        let mut instances: Vec<Instance> = Vec::new();
        let chain: Vec<usize> = Vec::new();
        let objects = self.fold_into(&chain, &mut instances);
        assert(placement_views(Seq::<Instance>::empty()) + placements(self@, chain@)
            =~= placements(self@, Seq::empty()));
        Prepared { objects, instances }
    }

    /// Prepares a scene for rendering: loads the mesh files, then folds the
    /// transforms. The first file that `load` refuses ends the preparation
    /// with the loader's error.
    pub fn prepare<E, L: Fn(&String, Shading) -> Result<MeshPart, E>>(&self, load: &L) -> (r:
        Result<Prepared, E>)
        requires
            forall|name: &String, shading: Shading| call_requires(load, (name, shading)),
        ensures
            match r {
                Ok(p) => exists|loaded: Node|
                    {
                        &&& #[trigger] is_loaded(loaded, self@, *load)
                        &&& p.objects@ == folded(loaded, 0)
                        &&& placement_views(p.instances@) == placements(loaded, Seq::empty())
                    },
                Err(e) => load_failed(self@, *load, e),
            },
    {
        match self.load_meshes(load) {
            Ok(loaded) => {
                let p = loaded.fold_transforms();
                assert(is_loaded(loaded@, self@, *load));
                Ok(p)
            },
            Err(e) => Err(e),
        }
    }
}

/// Whether `out` is `input` with bounding volumes put in: every primitive in
/// the box that `bound` named for it, every mesh replaced by its hierarchy
/// under `split`. What already stands in a bounding box is left alone, and a
/// mesh file that was never loaded is dropped.
pub open spec fn is_bvh<S: Fn(usize, &Vec<usize>) -> Split, P: Fn(usize) -> usize>(
    out: Node,
    input: Node,
    limit: nat,
    split: S,
    bound: P,
) -> bool
    decreases input,
{
    match input {
        Node::Group(items) => out is Group && out->Group_0.len() == items.len() && forall|i: int|
            0 <= i < items.len() ==> is_bvh(
                out->Group_0[i],
                #[trigger] items[i],
                limit,
                split,
                bound,
            ),
        Node::Mesh { mesh, faces } => is_dissection(out, mesh, faces, limit, split),
        Node::LoadMesh { .. } => out == Node::Group(Seq::empty()),
        Node::Primitive(p) => out is BoundingBox && *out->BoundingBox_child == input
            && call_ensures(bound, (p,), out->BoundingBox_bbox),
        Node::Transform { child, transform } => out is Transform && out->Transform_transform
            == transform && is_bvh(*out->Transform_child, *child, limit, split, bound),
        Node::Material { child, material } => out is Material && out->Material_material
            == material && is_bvh(*out->Material_child, *child, limit, split, bound),
        Node::BoundingBox { .. } => out == input,
    }
}

impl ObjectTree {
    /// Puts the bounding volumes in. A primitive is wrapped in the box that
    /// `bound` names for it. A mesh is replaced by its hierarchy: sets of
    /// more than `bbox_limit` faces are divided as `split` says. A subtree
    /// that already stands in a bounding box is copied as it is.
    pub fn construct_bvh<S: Fn(usize, &Vec<usize>) -> Split, P: Fn(usize) -> usize>(
        &self,
        bbox_limit: u32,
        split: &S,
        bound: &P,
    ) -> (t: ObjectTree)
        requires
            forall|mesh: usize, set: &Vec<usize>| call_requires(split, (mesh, set)),
            forall|p: usize| call_requires(bound, (p,)),
        ensures
            is_bvh(t@, self@, bbox_limit as nat, *split, *bound),
        decreases self,
    {
        match self {
            ObjectTree::Group(items) => {
                let mut built: Vec<ObjectTree> = Vec::new();
                let mut i: usize = 0;
                while i < items.len()
                    invariant
                        i <= items@.len(),
                        *self == ObjectTree::Group(*items),
                        built@.len() == i,
                        forall|mesh: usize, set: &Vec<usize>| call_requires(split, (mesh, set)),
                        forall|p: usize| call_requires(bound, (p,)),
                        forall|k: int|
                            0 <= k < i ==> is_bvh(
                                (#[trigger] built@[k])@,
                                items@[k]@,
                                bbox_limit as nat,
                                *split,
                                *bound,
                            ),
                    decreases items@.len() - i,
                {
                    assert(self->Group_0 == *items);
                    assert(decreases_to!(self => self->Group_0));
                    assert(decreases_to!(self->Group_0 => self->Group_0[i as int]));
                    let c = items[i].construct_bvh(bbox_limit, split, bound);
                    built.push(c);
                    i = i + 1;
                }
                proof {
                    Self::lemma_group_view(built);
                    Self::lemma_group_view(*items);
                    assert forall|k: int| 0 <= k < items@.len() implies is_bvh(
                        nodes_of(built@)[k],
                        #[trigger] nodes_of(items@)[k],
                        bbox_limit as nat,
                        *split,
                        *bound,
                    ) by {
                        assert(is_bvh(
                            built@[k]@,
                            items@[k]@,
                            bbox_limit as nat,
                            *split,
                            *bound,
                        ));
                    }
                }
                ObjectTree::Group(built)
            },
            ObjectTree::Mesh(part) => {
                let whole = MeshPart { mesh: part.mesh, faces: copy_handles(&part.faces) };
                whole.dissect(bbox_limit as usize, split)
            },
            ObjectTree::LoadMesh { .. } => {
                let none: Vec<ObjectTree> = Vec::new();
                proof {
                    Self::lemma_group_view(none);
                    assert(nodes_of(none@) =~= Seq::<Node>::empty());
                }
                ObjectTree::Group(none)
            },
            ObjectTree::Primitive(p) => {
                let bbox = bound(*p);
                let leaf = ObjectTree::Primitive(*p);
                let t = ObjectTree::BoundingBox { child: Box::new(leaf), bbox };
                assert(*t@->BoundingBox_child == leaf@);
                t
            },
            ObjectTree::Transform { child, transform } => {
                let c = child.construct_bvh(bbox_limit, split, bound);
                ObjectTree::Transform { child: Box::new(c), transform: *transform }
            },
            ObjectTree::Material { child, material } => {
                let c = child.construct_bvh(bbox_limit, split, bound);
                ObjectTree::Material { child: Box::new(c), material: *material }
            },
            ObjectTree::BoundingBox { .. } => self.duplicate(),
        }
    }
}

/// A piece of geometry that a ray has to be tested against.
#[derive(Debug, PartialEq, Eq)]
pub struct Candidate<'a> {
    /// The mesh or primitive: a leaf of the scene tree.
    pub geometry: &'a ObjectTree,
    /// The material that covers it.
    pub material: usize,
    /// The transforms that stand above it and apply to the ray, outermost
    /// first.
    pub transforms: Vec<usize>,
}

/// What a `Candidate` stands for.
pub struct Visit {
    pub geometry: Node,
    pub material: usize,
    pub transforms: Seq<usize>,
}

impl<'a> Candidate<'a> {
    /// What this candidate stands for.
    pub open spec fn view(&self) -> Visit {
        Visit {
            geometry: self.geometry@,
            material: self.material,
            transforms: self.transforms@,
        }
    }
}

/// What a list of candidates stands for.
pub open spec fn visits_of(v: Seq<Candidate>) -> Seq<Visit> {
    Seq::new(v.len(), |i: int| v[i]@)
}

/// The lists of `parts`, one after the other.
pub open spec fn concat_all<T>(parts: Seq<Seq<T>>) -> Seq<T>
    decreases parts.len(),
{
    if parts.len() == 0 {
        Seq::empty()
    } else {
        concat_all(parts.drop_last()) + parts.last()
    }
}

/// Whether `out` lists the geometry of `node` that a ray has to be tested
/// against, from left to right, given what `hits_box` answered for the
/// bounding boxes on the way.
///
/// `material` covers what no material node below covers; a material node
/// covers its subtree. `chain` holds the transforms above `node`; a
/// transform node adds its own. Below a bounding box for which `hits_box`
/// answered `false` nothing is listed.
pub open spec fn is_visit_list<B: Fn(usize, &Vec<usize>) -> bool>(
    out: Seq<Visit>,
    node: Node,
    material: usize,
    chain: Seq<usize>,
    hits_box: B,
) -> bool
    decreases node,
{
    match node {
        Node::Group(items) => exists|parts: Seq<Seq<Visit>>|
            #![trigger concat_all(parts)]
            {
                &&& parts.len() == items.len()
                &&& forall|i: int|
                    0 <= i < items.len() ==> is_visit_list(
                        #[trigger] parts[i],
                        items[i],
                        material,
                        chain,
                        hits_box,
                    )
                &&& out == concat_all(parts)
            },
        Node::Mesh { .. } => out == seq![Visit { geometry: node, material, transforms: chain }],
        Node::Primitive(_) => out == seq![Visit { geometry: node, material, transforms: chain }],
        Node::LoadMesh { .. } => out == Seq::<Visit>::empty(),
        Node::Transform { child, transform } => is_visit_list(
            out,
            *child,
            material,
            chain.push(transform),
            hits_box,
        ),
        Node::Material { child, material: inner } => is_visit_list(
            out,
            *child,
            inner,
            chain,
            hits_box,
        ),
        Node::BoundingBox { child, bbox } => exists|above: Vec<usize>, hit: bool|
            {
                &&& above@ == chain
                &&& #[trigger] call_ensures(hits_box, (bbox, &above), hit)
                &&& if hit {
                    is_visit_list(out, *child, material, chain, hits_box)
                } else {
                    out == Seq::<Visit>::empty()
                }
            },
    }
}

/// The visit lists of the items of a group, one after the other, are a visit
/// list of the group.
pub proof fn lemma_group_visits<B: Fn(usize, &Vec<usize>) -> bool>(
    items: Seq<Node>,
    parts: Seq<Seq<Visit>>,
    material: usize,
    chain: Seq<usize>,
    hits_box: B,
)
    requires
        parts.len() == items.len(),
        forall|i: int|
            0 <= i < items.len() ==> is_visit_list(
                #[trigger] parts[i],
                items[i],
                material,
                chain,
                hits_box,
            ),
    ensures
        is_visit_list(concat_all(parts), Node::Group(items), material, chain, hits_box),
{
    let g = Node::Group(items);
    let all = concat_all(parts);
    assert(exists|ps: Seq<Seq<Visit>>|
        #![trigger concat_all(ps)]
        {
            &&& ps.len() == g->Group_0.len()
            &&& forall|i: int|
                0 <= i < g->Group_0.len() ==> is_visit_list(
                    #[trigger] ps[i],
                    g->Group_0[i],
                    material,
                    chain,
                    hits_box,
                )
            &&& all == concat_all(ps)
        }) by {
        assert(all == concat_all(parts));
    }
}

/// What is listed below a bounding box: the list of its child if the box was
/// hit, and nothing if it was missed.
pub proof fn lemma_boxed_visits<B: Fn(usize, &Vec<usize>) -> bool>(
    child: Node,
    bbox: usize,
    above: Vec<usize>,
    hit: bool,
    out: Seq<Visit>,
    material: usize,
    hits_box: B,
)
    requires
        call_ensures(hits_box, (bbox, &above), hit),
        hit ==> is_visit_list(out, child, material, above@, hits_box),
        !hit ==> out == Seq::<Visit>::empty(),
    ensures
        is_visit_list(
            out,
            Node::BoundingBox { child: Box::new(child), bbox },
            material,
            above@,
            hits_box,
        ),
{
    let n = Node::BoundingBox { child: Box::new(child), bbox };
    assert(exists|v: Vec<usize>, h: bool|
        {
            &&& v@ == above@
            &&& #[trigger] call_ensures(hits_box, (n->BoundingBox_bbox, &v), h)
            &&& if h {
                is_visit_list(out, *n->BoundingBox_child, material, above@, hits_box)
            } else {
                out == Seq::<Visit>::empty()
            }
        }) by {
        assert(call_ensures(hits_box, (n->BoundingBox_bbox, &above), hit));
    }
}

impl ObjectTree {
    /// Appends to `out` the geometry of this tree that a ray has to be
    /// tested against.
    fn visit<'a, B: Fn(usize, &Vec<usize>) -> bool>(
        &'a self,
        material: usize,
        transforms: &Vec<usize>,
        hits_box: &B,
        out: &mut Vec<Candidate<'a>>,
    ) -> (added: Ghost<Seq<Visit>>)
        requires
            forall|bbox: usize, above: &Vec<usize>| call_requires(hits_box, (bbox, above)),
        ensures
            visits_of(final(out)@) == visits_of(old(out)@) + added@,
            is_visit_list(added@, self@, material, transforms@, *hits_box),
        decreases self,
    {
        let ghost before = visits_of(out@);
        match self {
            ObjectTree::Group(items) => {
                let ghost mut parts: Seq<Seq<Visit>> = Seq::empty();
                let mut i: usize = 0;
                while i < items.len()
                    invariant
                        i <= items@.len(),
                        *self == ObjectTree::Group(*items),
                        parts.len() == i,
                        forall|bbox: usize, above: &Vec<usize>|
                            call_requires(hits_box, (bbox, above)),
                        visits_of(out@) == before + concat_all(parts),
                        forall|k: int|
                            0 <= k < i ==> is_visit_list(
                                #[trigger] parts[k],
                                items@[k]@,
                                material,
                                transforms@,
                                *hits_box,
                            ),
                    decreases items@.len() - i,
                {
                    assert(self->Group_0 == *items);
                    assert(decreases_to!(self => self->Group_0));
                    assert(decreases_to!(self->Group_0 => self->Group_0[i as int]));
                    let part = items[i].visit(material, transforms, hits_box, out);
                    proof {
                        let longer = parts.push(part@);
                        assert(longer.drop_last() == parts);
                        assert(before + concat_all(parts) + part@ == before + (concat_all(parts)
                            + part@));
                        parts = longer;
                    }
                    i = i + 1;
                }
                proof {
                    Self::lemma_group_view(*items);
                    assert forall|k: int| 0 <= k < items@.len() implies is_visit_list(
                        #[trigger] parts[k],
                        nodes_of(items@)[k],
                        material,
                        transforms@,
                        *hits_box,
                    ) by {
                        assert(nodes_of(items@)[k] == items@[k]@);
                    }
                    lemma_group_visits(
                        nodes_of(items@),
                        parts,
                        material,
                        transforms@,
                        *hits_box,
                    );
                    assert(self@ == Node::Group(nodes_of(items@)));
                }
                Ghost(concat_all(parts))
            },
            ObjectTree::Mesh(_) => {
                out.push(
                    Candidate { geometry: self, material, transforms: copy_handles(transforms) },
                );
                let ghost one = seq![
                    Visit { geometry: self@, material, transforms: transforms@ },
                ];
                assert(visits_of(out@) =~= before + one);
                Ghost(one)
            },
            ObjectTree::Primitive(_) => {
                out.push(
                    Candidate { geometry: self, material, transforms: copy_handles(transforms) },
                );
                let ghost one = seq![
                    Visit { geometry: self@, material, transforms: transforms@ },
                ];
                assert(visits_of(out@) =~= before + one);
                Ghost(one)
            },
            ObjectTree::LoadMesh { .. } => {
                assert(visits_of(out@) =~= before + Seq::<Visit>::empty());
                Ghost(Seq::empty())
            },
            ObjectTree::Transform { child, transform } => {
                let mut longer = copy_handles(transforms);
                longer.push(*transform);
                child.visit(material, &longer, hits_box, out)
            },
            ObjectTree::Material { child, material: inner } => {
                child.visit(*inner, transforms, hits_box, out)
            },
            ObjectTree::BoundingBox { child, bbox } => {
                let hit = hits_box(*bbox, transforms);
                assert(call_ensures(*hits_box, (*bbox, transforms), hit));
                let added = if hit {
                    child.visit(material, transforms, hits_box, out)
                } else {
                    assert(visits_of(out@) =~= before + Seq::<Visit>::empty());
                    Ghost(Seq::empty())
                };
                proof {
                    lemma_boxed_visits(
                        child@,
                        *bbox,
                        *transforms,
                        hit,
                        added@,
                        material,
                        *hits_box,
                    );
                }
                added
            },
        }
    }

    /// Lists the geometry of this tree that a ray has to be tested against,
    /// from left to right, each piece with the material that covers it and
    /// the transforms above it. `material` covers what no material node
    /// covers. A subtree in a bounding box is listed only if `hits_box` says
    /// that the ray, moved by the transforms above the box, hits the box.
    pub fn intersect<'a, B: Fn(usize, &Vec<usize>) -> bool>(
        &'a self,
        material: usize,
        hits_box: &B,
    ) -> (out: Vec<Candidate<'a>>)
        requires
            forall|bbox: usize, above: &Vec<usize>| call_requires(hits_box, (bbox, above)),
        ensures
            is_visit_list(visits_of(out@), self@, material, Seq::empty(), *hits_box),
    {
        let mut out: Vec<Candidate<'a>> = Vec::new();
        let none: Vec<usize> = Vec::new();
        let added = self.visit(material, &none, hits_box, &mut out);
        assert(visits_of(out@) =~= added@);
        out
    }
}

impl Default for ObjectTree {
    /// The empty scene: a group of nothing.
    fn default() -> (t: ObjectTree)
        ensures
            t@ == Node::Group(Seq::empty()),
    {
        let none: Vec<ObjectTree> = Vec::new();
        proof {
            ObjectTree::lemma_group_view(none);
            assert(nodes_of(none@) =~= Seq::<Node>::empty());
        }
        ObjectTree::Group(none)
    }
}

/// What is to be rendered, and how: the size of the image, the number of
/// workers, the number of sample rays per pixel and axis, the largest set of
/// faces that is not divided, the objects and the material of objects that
/// no material node covers.
#[derive(Debug, PartialEq, Eq)]
pub struct Scene {
    pub image: String,
    pub width: u32,
    pub height: u32,
    pub threads: u32,
    pub subsamples: u32,
    pub bbox_limit: u32,
    pub objects: ObjectTree,
    pub default_material: usize,
}

/// Why a scene cannot be rendered.
#[derive(Clone, Copy, Debug, PartialEq, Eq, Structural)]
pub enum SceneError {
    /// The image has no columns.
    NoWidth,
    /// The image has no rows.
    NoHeight,
    /// There are no workers.
    NoThreads,
    /// There are no sample rays.
    NoSubsamples,
    /// The limit on undivided sets of faces is zero.
    NoBboxLimit,
    /// The image does not fit into memory.
    ImageTooLarge,
}

impl Scene {
    /// The first thing that is wrong with the scene, if anything is: the
    /// settings are looked at in the order width, height, threads,
    /// subsamples, bounding box limit, and then the size of the image.
    pub open spec fn fault(&self) -> Option<SceneError> {
        if self.width == 0 {
            Some(SceneError::NoWidth)
        } else if self.height == 0 {
            Some(SceneError::NoHeight)
        } else if self.threads == 0 {
            Some(SceneError::NoThreads)
        } else if self.subsamples == 0 {
            Some(SceneError::NoSubsamples)
        } else if self.bbox_limit == 0 {
            Some(SceneError::NoBboxLimit)
        } else if !fits_in_memory(self.width as nat, self.height as nat) {
            Some(SceneError::ImageTooLarge)
        } else {
            None
        }
    }

    /// Checks the settings of the scene.
    pub fn check(&self) -> (r: Result<(), SceneError>)
        ensures
            r == match self.fault() {
                Some(e) => Err::<(), SceneError>(e),
                None => Ok(()),
            },
    {
        if self.width == 0 {
            Err(SceneError::NoWidth)
        } else if self.height == 0 {
            Err(SceneError::NoHeight)
        } else if self.threads == 0 {
            Err(SceneError::NoThreads)
        } else if self.subsamples == 0 {
            Err(SceneError::NoSubsamples)
        } else if self.bbox_limit == 0 {
            Err(SceneError::NoBboxLimit)
        } else {
            let w: u128 = self.width as u128;
            let h: u128 = self.height as u128;
            assert(w * h <= 0xffff_ffff * 0xffff_ffff) by (nonlinear_arith)
                requires
                    0 <= w <= 0xffff_ffff,
                    0 <= h <= 0xffff_ffff,
            ;
            let pixels: u128 = w * h;
            let samples: u128 = 3 * pixels;
            assert(samples == 3 * self.width * self.height) by (nonlinear_arith)
                requires
                    samples == 3 * pixels,
                    pixels == w * h,
                    w == self.width,
                    h == self.height,
            ;
            if samples > isize::MAX as u128 {
                Err(SceneError::ImageTooLarge)
            } else {
                Ok(())
            }
        }
    }

    /// Whether two scenes agree in everything but their objects.
    pub open spec fn same_settings(&self, other: &Scene) -> bool {
        &&& self.image@ == other.image@
        &&& self.width == other.width
        &&& self.height == other.height
        &&& self.threads == other.threads
        &&& self.subsamples == other.subsamples
        &&& self.bbox_limit == other.bbox_limit
        &&& self.default_material == other.default_material
    }

    /// This scene with other objects.
    fn with_objects(&self, objects: ObjectTree) -> (s: Scene)
        ensures
            s.same_settings(self),
            s.objects == objects,
    {
        Scene {
            image: self.image.clone(),
            width: self.width,
            height: self.height,
            threads: self.threads,
            subsamples: self.subsamples,
            bbox_limit: self.bbox_limit,
            objects,
            default_material: self.default_material,
        }
    }

    /// Prepares the objects of the scene: loads the mesh files and folds the
    /// transforms. The result is the scene with the prepared objects, and
    /// the instances that these objects name.
    pub fn prepare<E, L: Fn(&String, Shading) -> Result<MeshPart, E>>(&self, load: &L) -> (r:
        Result<(Scene, Vec<Instance>), E>)
        requires
            forall|name: &String, shading: Shading| call_requires(load, (name, shading)),
        ensures
            match r {
                Ok((s, instances)) => {
                    &&& s.same_settings(self)
                    &&& exists|loaded: Node|
                        {
                            &&& #[trigger] is_loaded(loaded, self.objects@, *load)
                            &&& s.objects@ == folded(loaded, 0)
                            &&& placement_views(instances@) == placements(loaded, Seq::empty())
                        }
                },
                Err(e) => load_failed(self.objects@, *load, e),
            },
    {
        match self.objects.prepare(load) {
            Ok(p) => {
                let Prepared { objects, instances } = p;
                Ok((self.with_objects(objects), instances))
            },
            Err(e) => Err(e),
        }
    }

    /// Puts the bounding volumes into the objects of the scene, dividing
    /// sets of more faces than the scene's limit.
    pub fn construct_bvh<S: Fn(usize, &Vec<usize>) -> Split, P: Fn(usize) -> usize>(
        &self,
        split: &S,
        bound: &P,
    ) -> (s: Scene)
        requires
            forall|mesh: usize, set: &Vec<usize>| call_requires(split, (mesh, set)),
            forall|p: usize| call_requires(bound, (p,)),
        ensures
            s.same_settings(self),
            is_bvh(s.objects@, self.objects@, self.bbox_limit as nat, *split, *bound),
    {
        let objects = self.objects.construct_bvh(self.bbox_limit, split, bound);
        self.with_objects(objects)
    }

    /// Lists the geometry of the scene that a ray has to be tested against.
    /// What no material node covers has the default material of the scene.
    pub fn intersect<'a, B: Fn(usize, &Vec<usize>) -> bool>(&'a self, hits_box: &B) -> (out: Vec<
        Candidate<'a>,
    >)
        requires
            forall|bbox: usize, above: &Vec<usize>| call_requires(hits_box, (bbox, above)),
        ensures
            is_visit_list(
                visits_of(out@),
                self.objects@,
                self.default_material,
                Seq::empty(),
                *hits_box,
            ),
    {
        self.objects.intersect(self.default_material, hits_box)
    }

    /// Renders the scene: every pixel of the image is what `shade` returned
    /// for its position. A scene with a fault is not rendered.
    pub fn render<F: Fn(u32, u32) -> (u8, u8, u8)>(&self, shade: &F) -> (r: Result<
        Raster,
        SceneError,
    >)
        requires
            forall|x: u32, y: u32|
                x < self.width && y < self.height ==> call_requires(shade, (x, y)),
        ensures
            match r {
                Err(e) => self.fault() == Some(e),
                Ok(img) => {
                    &&& self.fault() is None
                    &&& width_of(img) == self.width
                    &&& height_of(img) == self.height
                    &&& raster_pixels(img).len() == self.width * self.height
                    &&& forall|x: u32, y: u32|
                        x < self.width && y < self.height ==> call_ensures(
                            shade,
                            (x, y),
                            #[trigger] pixel_at(img, x as int, y as int),
                        )
                },
            },
    {
        match self.check() {
            Err(e) => Err(e),
            Ok(()) => Ok(render(self.width, self.height, self.threads, shade)),
        }
    }
}

/// The geometry of a tree from left to right, with materials and transforms
/// as `is_visit_list` hands them down, and no regard to bounding boxes.
pub open spec fn all_visits(node: Node, material: usize, chain: Seq<usize>) -> Seq<Visit>
    decreases node,
{
    match node {
        Node::Group(items) => concat_all(all_visits_each(items, material, chain)),
        Node::Mesh { .. } => seq![Visit { geometry: node, material, transforms: chain }],
        Node::Primitive(_) => seq![Visit { geometry: node, material, transforms: chain }],
        Node::LoadMesh { .. } => Seq::empty(),
        Node::Transform { child, transform } => all_visits(
            *child,
            material,
            chain.push(transform),
        ),
        Node::Material { child, material: inner } => all_visits(*child, inner, chain),
        Node::BoundingBox { child, .. } => all_visits(*child, material, chain),
    }
}

/// The geometry of each tree of a list.
pub open spec fn all_visits_each(items: Seq<Node>, material: usize, chain: Seq<usize>) -> Seq<
    Seq<Visit>,
>
    decreases items,
{
    Seq::new(
        items.len(),
        |i: int|
            if 0 <= i < items.len() {
                all_visits(items[i], material, chain)
            } else {
                Seq::empty()
            },
    )
}

/// Bounding boxes only ever take geometry away: where no box is reported as
/// missed, the list of a tree is all of its geometry.
pub proof fn lemma_no_box_missed<B: Fn(usize, &Vec<usize>) -> bool>(
    out: Seq<Visit>,
    node: Node,
    material: usize,
    chain: Seq<usize>,
    hits_box: B,
)
    requires
        is_visit_list(out, node, material, chain, hits_box),
        forall|bbox: usize, above: Vec<usize>| !call_ensures(hits_box, (bbox, &above), false),
    ensures
        out == all_visits(node, material, chain),
    decreases node,
{
    match node {
        Node::Group(items) => {
            let parts = choose|parts: Seq<Seq<Visit>>|
                #![trigger concat_all(parts)]
                {
                    &&& parts.len() == items.len()
                    &&& forall|i: int|
                        0 <= i < items.len() ==> is_visit_list(
                            #[trigger] parts[i],
                            items[i],
                            material,
                            chain,
                            hits_box,
                        )
                    &&& out == concat_all(parts)
                };
            let whole = all_visits_each(items, material, chain);
            assert forall|i: int| 0 <= i < items.len() implies parts[i] == whole[i] by {
                assert(is_visit_list(parts[i], items[i], material, chain, hits_box));
                lemma_no_box_missed(parts[i], items[i], material, chain, hits_box);
            }
            assert(parts =~= whole);
        },
        Node::Transform { child, transform } => {
            lemma_no_box_missed(out, *child, material, chain.push(transform), hits_box);
        },
        Node::Material { child, material: inner } => {
            lemma_no_box_missed(out, *child, inner, chain, hits_box);
        },
        Node::BoundingBox { child, bbox } => {
            let (above, hit) = choose|above: Vec<usize>, hit: bool|
                {
                    &&& above@ == chain
                    &&& #[trigger] call_ensures(hits_box, (bbox, &above), hit)
                    &&& if hit {
                        is_visit_list(out, *child, material, chain, hits_box)
                    } else {
                        out == Seq::<Visit>::empty()
                    }
                };
            assert(hit);
            lemma_no_box_missed(out, *child, material, chain, hits_box);
        },
        _ => {},
    }
}

/// Putting the bounding volumes in neither loses a face nor adds one: the
/// mesh leaves of the result hold every face as often as those of the input
/// do, whatever the limit is.
pub proof fn lemma_bvh_keeps_faces<S: Fn(usize, &Vec<usize>) -> Split, P: Fn(usize) -> usize>(
    out: Node,
    input: Node,
    limit: nat,
    split: S,
    bound: P,
)
    requires
        is_bvh(out, input, limit, split, bound),
    ensures
        leaf_faces(out).to_multiset() == leaf_faces(input).to_multiset(),
    decreases input, 0nat,
{
    match input {
        Node::Group(items) => {
            lemma_bvh_keeps_faces_all(out->Group_0, items, items.len(), limit, split, bound);
            assert(out->Group_0.take(items.len() as int) == out->Group_0);
            assert(items.take(items.len() as int) == items);
        },
        Node::Mesh { mesh, faces } => {
            lemma_dissection_keeps_faces(out, mesh, faces, limit, split);
        },
        Node::Transform { child, .. } => {
            lemma_bvh_keeps_faces(*out->Transform_child, *child, limit, split, bound);
        },
        Node::Material { child, .. } => {
            lemma_bvh_keeps_faces(*out->Material_child, *child, limit, split, bound);
        },
        Node::Primitive(_) => {
            assert(leaf_faces(out) == leaf_faces(*out->BoundingBox_child));
        },
        Node::LoadMesh { .. } => {
            assert(leaf_faces_all(Seq::<Node>::empty()) == Seq::<(usize, usize)>::empty());
        },
        Node::BoundingBox { .. } => {},
    }
}

/// The same for the first `n` trees of two lists that correspond item by
/// item.
proof fn lemma_bvh_keeps_faces_all<S: Fn(usize, &Vec<usize>) -> Split, P: Fn(usize) -> usize>(
    outs: Seq<Node>,
    inputs: Seq<Node>,
    n: nat,
    limit: nat,
    split: S,
    bound: P,
)
    requires
        outs.len() == inputs.len(),
        n <= inputs.len(),
        forall|i: int|
            0 <= i < inputs.len() ==> is_bvh(outs[i], #[trigger] inputs[i], limit, split, bound),
    ensures
        leaf_faces_all(outs.take(n as int)).to_multiset() == leaf_faces_all(
            inputs.take(n as int),
        ).to_multiset(),
    decreases inputs, n,
{
    if n == 0 {
        assert(outs.take(0).len() == 0);
        assert(inputs.take(0).len() == 0);
    } else {
        let m = (n - 1) as nat;
        lemma_bvh_keeps_faces_all(outs, inputs, m, limit, split, bound);
        assert(is_bvh(outs[m as int], inputs[m as int], limit, split, bound));
        lemma_bvh_keeps_faces(outs[m as int], inputs[m as int], limit, split, bound);
        assert(outs.take(n as int).drop_last() == outs.take(m as int));
        assert(inputs.take(n as int).drop_last() == inputs.take(m as int));
        assert(outs.take(n as int).last() == outs[m as int]);
        assert(inputs.take(n as int).last() == inputs[m as int]);
        lemma_multiset_commutative(leaf_faces_all(outs.take(m as int)), leaf_faces(outs[m as int]));
        lemma_multiset_commutative(
            leaf_faces_all(inputs.take(m as int)),
            leaf_faces(inputs[m as int]),
        );
    }
}

/// The faces that a list of visits names, in its order.
pub open spec fn visit_faces(visits: Seq<Visit>) -> Seq<(usize, usize)>
    decreases visits.len(),
{
    if visits.len() == 0 {
        Seq::empty()
    } else {
        visit_faces(visits.drop_last()) + leaf_faces(visits.last().geometry)
    }
}

/// The faces of two lists of visits, one after the other, are the faces of
/// the first and then those of the second.
pub proof fn lemma_visit_faces_concat(a: Seq<Visit>, b: Seq<Visit>)
    ensures
        visit_faces(a + b) == visit_faces(a) + visit_faces(b),
    decreases b.len(),
{
    if b.len() == 0 {
        assert(a + b == a);
        assert(visit_faces(a) + Seq::<(usize, usize)>::empty() == visit_faces(a));
    } else {
        lemma_visit_faces_concat(a, b.drop_last());
        assert((a + b).drop_last() == a + b.drop_last());
        assert((a + b).last() == b.last());
        assert(visit_faces(a) + visit_faces(b.drop_last()) + leaf_faces(b.last().geometry)
            == visit_faces(a) + (visit_faces(b.drop_last()) + leaf_faces(b.last().geometry)));
    }
}

/// All the geometry of a tree names the faces at its mesh leaves, in order.
pub proof fn lemma_all_visits_faces(node: Node, material: usize, chain: Seq<usize>)
    ensures
        visit_faces(all_visits(node, material, chain)) == leaf_faces(node),
    decreases node, 0nat,
{
    let none = Seq::<(usize, usize)>::empty();
    match node {
        Node::Group(items) => {
            lemma_all_visits_faces_all(items, items.len(), material, chain);
            assert(all_visits_each(items, material, chain).take(items.len() as int)
                == all_visits_each(items, material, chain));
            assert(items.take(items.len() as int) == items);
        },
        Node::Transform { child, transform } => {
            lemma_all_visits_faces(*child, material, chain.push(transform));
        },
        Node::Material { child, material: inner } => {
            lemma_all_visits_faces(*child, inner, chain);
        },
        Node::BoundingBox { child, .. } => {
            lemma_all_visits_faces(*child, material, chain);
        },
        Node::LoadMesh { .. } => {},
        _ => {
            let one = all_visits(node, material, chain);
            assert(one.drop_last().len() == 0);
            assert(one.last().geometry == node);
            assert(visit_faces(one.drop_last()) == none);
            assert(visit_faces(one) == none + leaf_faces(node));
            assert(none + leaf_faces(node) == leaf_faces(node));
        },
    }
}

/// The same for the first `n` trees of a list.
proof fn lemma_all_visits_faces_all(items: Seq<Node>, n: nat, material: usize, chain: Seq<usize>)
    requires
        n <= items.len(),
    ensures
        visit_faces(concat_all(all_visits_each(items, material, chain).take(n as int)))
            == leaf_faces_all(items.take(n as int)),
    decreases items, n,
{
    let each = all_visits_each(items, material, chain);
    if n == 0 {
        assert(each.take(0).len() == 0);
        assert(items.take(0).len() == 0);
    } else {
        let m = (n - 1) as nat;
        lemma_all_visits_faces_all(items, m, material, chain);
        lemma_all_visits_faces(items[m as int], material, chain);
        assert(each.take(n as int).drop_last() == each.take(m as int));
        assert(each.take(n as int).last() == all_visits(items[m as int], material, chain));
        assert(items.take(n as int).drop_last() == items.take(m as int));
        assert(items.take(n as int).last() == items[m as int]);
        lemma_visit_faces_concat(
            concat_all(each.take(m as int)),
            all_visits(items[m as int], material, chain),
        );
    }
}

/// A ray that misses no bounding box is tested against the same faces
/// before and after the bounding volumes are put in, whatever the limit on
/// undivided sets of faces is.
pub proof fn lemma_bvh_lists_same_faces<
    S: Fn(usize, &Vec<usize>) -> Split,
    P: Fn(usize) -> usize,
    B: Fn(usize, &Vec<usize>) -> bool,
>(
    before: Seq<Visit>,
    after: Seq<Visit>,
    input: Node,
    out: Node,
    material: usize,
    chain: Seq<usize>,
    limit: nat,
    split: S,
    bound: P,
    hits_box: B,
)
    requires
        is_bvh(out, input, limit, split, bound),
        is_visit_list(before, input, material, chain, hits_box),
        is_visit_list(after, out, material, chain, hits_box),
        forall|bbox: usize, above: Vec<usize>| !call_ensures(hits_box, (bbox, &above), false),
    ensures
        visit_faces(after).to_multiset() == visit_faces(before).to_multiset(),
{
    lemma_no_box_missed(before, input, material, chain, hits_box);
    lemma_no_box_missed(after, out, material, chain, hits_box);
    lemma_all_visits_faces(input, material, chain);
    lemma_all_visits_faces(out, material, chain);
    lemma_bvh_keeps_faces(out, input, limit, split, bound);
}

/// Whether a tree holds a transform node.
pub open spec fn has_transform(node: Node) -> bool
    decreases node,
{
    match node {
        Node::Group(items) => exists|i: int|
            0 <= i < items.len() && has_transform(#[trigger] items[i]),
        Node::Transform { .. } => true,
        Node::Material { child, .. } => has_transform(*child),
        Node::BoundingBox { child, .. } => has_transform(*child),
        _ => false,
    }
}

/// Folding leaves no transform node behind.
pub proof fn lemma_folded_has_no_transform(node: Node, first: nat)
    ensures
        !has_transform(folded(node, first)),
    decreases node,
{
    match node {
        Node::Group(items) => {
            let kept = folded(node, first)->Group_0;
            assert forall|i: int| 0 <= i < kept.len() implies !has_transform(
                #[trigger] kept[i],
            ) by {
                lemma_folded_has_no_transform(items[i], first + leaf_count_all(items.take(i)));
            }
        },
        Node::Transform { child, .. } => {
            lemma_folded_has_no_transform(*child, first);
        },
        Node::Material { child, .. } => {
            lemma_folded_has_no_transform(*child, first);
        },
        Node::BoundingBox { child, .. } => {
            lemma_folded_has_no_transform(*child, first);
        },
        _ => {},
    }
}

/// Whether `after` is what folding makes of the visit `before`: the same
/// geometry under the number `handle`, with the same material; and whether
/// `placed` is the instance of that number: it names the geometry that
/// `before` names and lists the transforms that `before` lists.
pub open spec fn is_folded_visit(
    before: Visit,
    after: Visit,
    placed: (Kind, usize, Seq<usize>),
    handle: int,
    chain: Seq<usize>,
) -> bool {
    &&& after.material == before.material
    &&& after.transforms == chain
    &&& placed.2 == before.transforms
    &&& match before.geometry {
        Node::Mesh { mesh, faces } => placed.0 == Kind::Mesh && placed.1 == mesh && after.geometry
            == (Node::Mesh { mesh: handle as usize, faces }),
        Node::Primitive(p) => placed.0 == Kind::Primitive && placed.1 == p && after.geometry
            == Node::Primitive(handle as usize),
        _ => false,
    }
}

/// Whether the visits `after` are what folding makes of the visits
/// `before`, one by one, numbered from `first`, and `placed` their
/// instances.
pub open spec fn are_folded_visits(
    before: Seq<Visit>,
    after: Seq<Visit>,
    placed: Seq<(Kind, usize, Seq<usize>)>,
    first: int,
    chain: Seq<usize>,
) -> bool {
    &&& after.len() == before.len()
    &&& placed.len() == before.len()
    &&& forall|i: int|
        0 <= i < before.len() ==> is_folded_visit(
            #[trigger] before[i],
            after[i],
            placed[i],
            first + i,
            chain,
        )
}

/// Folded visits of two lists, the second numbered on from the first, are
/// folded visits of the two lists joined.
proof fn lemma_folded_visits_concat(
    a1: Seq<Visit>,
    b1: Seq<Visit>,
    p1: Seq<(Kind, usize, Seq<usize>)>,
    a2: Seq<Visit>,
    b2: Seq<Visit>,
    p2: Seq<(Kind, usize, Seq<usize>)>,
    first: int,
    chain: Seq<usize>,
)
    requires
        are_folded_visits(a1, b1, p1, first, chain),
        are_folded_visits(a2, b2, p2, first + a1.len(), chain),
    ensures
        are_folded_visits(a1 + a2, b1 + b2, p1 + p2, first, chain),
{
    assert forall|i: int| 0 <= i < (a1 + a2).len() implies is_folded_visit(
        #[trigger] (a1 + a2)[i],
        (b1 + b2)[i],
        (p1 + p2)[i],
        first + i,
        chain,
    ) by {
        if i < a1.len() {
            assert(is_folded_visit(a1[i], b1[i], p1[i], first + i, chain));
        } else {
            let j = i - a1.len();
            assert(is_folded_visit(a2[j], b2[j], p2[j], first + a1.len() + j, chain));
        }
    }
}

/// Folding keeps the scene: a ray that misses no box is tested against the
/// same geometry in the same order before and after, each piece with the
/// same material. After folding no transform applies to the ray any more;
/// the transforms that applied before are those of the piece's instance.
pub proof fn lemma_fold_keeps_visits(
    node: Node,
    material: usize,
    above: Seq<usize>,
    chain: Seq<usize>,
    first: nat,
)
    ensures
        are_folded_visits(
            all_visits(node, material, above),
            all_visits(folded(node, first), material, chain),
            placements(node, above),
            first as int,
            chain,
        ),
    decreases node, 0nat,
{
    match node {
        Node::Group(items) => {
            lemma_fold_keeps_visits_all(items, items.len(), material, above, chain, first);
            let kept = folded(node, first)->Group_0;
            assert(all_visits_each(items, material, above).take(items.len() as int)
                == all_visits_each(items, material, above));
            assert(all_visits_each(kept, material, chain).take(items.len() as int)
                == all_visits_each(kept, material, chain));
            assert(items.take(items.len() as int) == items);
        },
        Node::Transform { child, transform } => {
            lemma_fold_keeps_visits(*child, material, above.push(transform), chain, first);
        },
        Node::Material { child, material: inner } => {
            lemma_fold_keeps_visits(*child, inner, above, chain, first);
        },
        Node::BoundingBox { child, .. } => {
            lemma_fold_keeps_visits(*child, material, above, chain, first);
        },
        _ => {},
    }
}

/// The same for the first `n` items of a group.
proof fn lemma_fold_keeps_visits_all(
    items: Seq<Node>,
    n: nat,
    material: usize,
    above: Seq<usize>,
    chain: Seq<usize>,
    first: nat,
)
    requires
        n <= items.len(),
    ensures
        are_folded_visits(
            concat_all(all_visits_each(items, material, above).take(n as int)),
            concat_all(
                all_visits_each(folded(Node::Group(items), first)->Group_0, material, chain).take(
                    n as int,
                ),
            ),
            placements_all(items.take(n as int), above),
            first as int,
            chain,
        ),
    decreases items, n,
{
    let before = all_visits_each(items, material, above);
    let kept = folded(Node::Group(items), first)->Group_0;
    let after = all_visits_each(kept, material, chain);
    if n == 0 {
        assert(before.take(0).len() == 0);
        assert(after.take(0).len() == 0);
        assert(items.take(0).len() == 0);
    } else {
        let m = (n - 1) as nat;
        lemma_fold_keeps_visits_all(items, m, material, above, chain, first);
        let offset = leaf_count_all(items.take(m as int));
        lemma_fold_keeps_visits(items[m as int], material, above, chain, first + offset);
        lemma_placements_all_len(items.take(m as int), above);
        assert(kept[m as int] == folded(items[m as int], first + offset));
        assert(before.take(n as int).drop_last() == before.take(m as int));
        assert(before.take(n as int).last() == all_visits(items[m as int], material, above));
        assert(after.take(n as int).drop_last() == after.take(m as int));
        assert(after.take(n as int).last() == all_visits(kept[m as int], material, chain));
        assert(items.take(n as int).drop_last() == items.take(m as int));
        assert(items.take(n as int).last() == items[m as int]);
        lemma_folded_visits_concat(
            concat_all(before.take(m as int)),
            concat_all(after.take(m as int)),
            placements_all(items.take(m as int), above),
            all_visits(items[m as int], material, above),
            all_visits(kept[m as int], material, chain),
            placements(items[m as int], above),
            first as int,
            chain,
        );
    }
}

} // verus!
