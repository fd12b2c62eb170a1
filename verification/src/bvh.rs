//! The hierarchy of bounding volumes over the faces of a mesh.
//!
//! A set of faces that is larger than the limit is divided in two, each half
//! is divided again, and so on until a set is small enough or cannot be
//! divided. Every set, divided or not, is wrapped in the box that bounds it.
//! The caller measures: for a set of faces it says which box bounds them and
//! which of them lie in the lower half of that box. What is done with these
//! answers is decided here.
use crate::scalar::at_most;
use crate::scalar::is_nan;
use crate::scalar::scaled_value;
use crate::scene::copy_handles;
use crate::scene::MeshPart;
use crate::scene::Node;
use crate::scene::ObjectTree;
use vstd::prelude::*;
use vstd::seq_lib::lemma_multiset_commutative;
use vstd::multiset::lemma_multiset_empty_len;
use vstd::seq_lib::to_multiset_build;
use vstd::seq_lib::to_multiset_len;

verus! {

/// A coordinate axis.
#[derive(Clone, Copy, Debug, PartialEq, Eq, Structural)]
pub enum Axis {
    X,
    Y,
    Z,
}

/// The axis along which a box is divided: the one of its greatest extent,
/// and of several of that extent the first in the order x, y, z.
pub open spec fn longest(extent_x: u32, extent_y: u32, extent_z: u32) -> Axis {
    let x = scaled_value(extent_x);
    let y = scaled_value(extent_y);
    let z = scaled_value(extent_z);
    if x >= y && x >= z {
        Axis::X
    } else if y >= z {
        Axis::Y
    } else {
        Axis::Z
    }
}

/// Chooses the axis along which a box is divided from its three extents,
/// which are given by their bit patterns and must encode numbers.
pub fn longest_axis(extent_x: u32, extent_y: u32, extent_z: u32) -> (axis: Axis)
    requires
        !is_nan(extent_x),
        !is_nan(extent_y),
        !is_nan(extent_z),
    ensures
        axis == longest(extent_x, extent_y, extent_z),
{
    if at_most(extent_y, extent_x) && at_most(extent_z, extent_x) {
        Axis::X
    } else if at_most(extent_z, extent_y) {
        Axis::Y
    } else {
        Axis::Z
    }
}

/// Says for each face, by the coordinate of its centroid along the dividing
/// axis, whether it goes to the lower half: it does if the centroid lies
/// below the dividing plane or on it. Coordinates and plane are given by
/// their bit patterns and must encode numbers.
pub fn lower_half(centroids: &Vec<u32>, plane: u32) -> (lower: Vec<bool>)
    requires
        !is_nan(plane),
        forall|i: int| 0 <= i < centroids@.len() ==> !is_nan(#[trigger] centroids@[i]),
    ensures
        lower@.len() == centroids@.len(),
        forall|i: int|
            0 <= i < centroids@.len() ==> (#[trigger] lower@[i]) == (scaled_value(centroids@[i])
                <= scaled_value(plane)),
{
    let mut lower: Vec<bool> = Vec::new();
    let mut i: usize = 0;
    while i < centroids.len()
        invariant
            i <= centroids@.len(),
            lower@.len() == i,
            !is_nan(plane),
            forall|k: int| 0 <= k < centroids@.len() ==> !is_nan(#[trigger] centroids@[k]),
            forall|k: int|
                0 <= k < i ==> (#[trigger] lower@[k]) == (scaled_value(centroids@[k])
                    <= scaled_value(plane)),
        decreases centroids@.len() - i,
    {
        lower.push(at_most(centroids[i], plane));
        i = i + 1;
    }
    lower
}

/// What the caller measured of a set of faces.
#[derive(Clone, Debug, PartialEq, Eq)]
pub struct Split {
    /// The box that bounds the faces, by its position in the caller's table.
    pub bbox: usize,
    /// For each face of the set, in order, whether it lies in the lower half
    /// of the box.
    pub lower: Vec<bool>,
}

/// Whether the face at position `i` of a set goes to the lower half. A face
/// for which the caller gave no answer goes there too.
pub open spec fn in_lower(lower: Seq<bool>, i: int) -> bool {
    !(0 <= i < lower.len() && !lower[i])
}

/// The faces that go to the lower half, in their order.
pub open spec fn lower_part(faces: Seq<usize>, lower: Seq<bool>) -> Seq<usize>
    decreases faces.len(),
{
    if faces.len() == 0 {
        Seq::empty()
    } else if in_lower(lower, faces.len() - 1) {
        lower_part(faces.drop_last(), lower).push(faces.last())
    } else {
        lower_part(faces.drop_last(), lower)
    }
}

/// The faces that go to the upper half, in their order.
pub open spec fn upper_part(faces: Seq<usize>, lower: Seq<bool>) -> Seq<usize>
    decreases faces.len(),
{
    if faces.len() == 0 {
        Seq::empty()
    } else if in_lower(lower, faces.len() - 1) {
        upper_part(faces.drop_last(), lower)
    } else {
        upper_part(faces.drop_last(), lower).push(faces.last())
    }
}

/// Whether a set of faces is divided: it is larger than the limit, and
/// neither half would be empty.
pub open spec fn divides(faces: Seq<usize>, limit: nat, lower: Seq<bool>) -> bool {
    faces.len() > limit && lower_part(faces, lower).len() > 0 && upper_part(faces, lower).len()
        > 0
}

/// The two halves together hold as many faces as the set.
pub proof fn lemma_halves(faces: Seq<usize>, lower: Seq<bool>)
    ensures
        lower_part(faces, lower).len() + upper_part(faces, lower).len() == faces.len(),
    decreases faces.len(),
{
    if faces.len() > 0 {
        lemma_halves(faces.drop_last(), lower);
    }
}

/// The faces `faces` of mesh `mesh`, each named by mesh and face.
pub open spec fn of_mesh(mesh: usize, faces: Seq<usize>) -> Seq<(usize, usize)> {
    Seq::new(faces.len(), |i: int| (mesh, faces[i]))
}

/// The two halves of a set of faces of a mesh hold every face of the set
/// once, named by mesh and face.
pub proof fn lemma_halves_of_mesh(mesh: usize, faces: Seq<usize>, lower: Seq<bool>)
    ensures
        of_mesh(mesh, lower_part(faces, lower)).to_multiset().add(
            of_mesh(mesh, upper_part(faces, lower)).to_multiset(),
        ) == of_mesh(mesh, faces).to_multiset(),
    decreases faces.len(),
{
    if faces.len() == 0 {
        let none = Seq::<(usize, usize)>::empty();
        to_multiset_len(none);
        lemma_multiset_empty_len(none.to_multiset());
        assert(of_mesh(mesh, faces) =~= none);
        assert(of_mesh(mesh, lower_part(faces, lower)) =~= none);
        assert(of_mesh(mesh, upper_part(faces, lower)) =~= none);
        assert(none.to_multiset().add(none.to_multiset()) =~= none.to_multiset());
    } else {
        let init = faces.drop_last();
        let last = (mesh, faces.last());
        lemma_halves_of_mesh(mesh, init, lower);
        let lo = lower_part(init, lower);
        let hi = upper_part(init, lower);
        to_multiset_build(of_mesh(mesh, init), last);
        to_multiset_build(of_mesh(mesh, lo), last);
        to_multiset_build(of_mesh(mesh, hi), last);
        assert(of_mesh(mesh, init).push(last) =~= of_mesh(mesh, faces));
        assert(of_mesh(mesh, lo).push(last) =~= of_mesh(mesh, lo.push(faces.last())));
        assert(of_mesh(mesh, hi).push(last) =~= of_mesh(mesh, hi.push(faces.last())));
        assert(of_mesh(mesh, lower_part(faces, lower)).to_multiset().add(
            of_mesh(mesh, upper_part(faces, lower)).to_multiset(),
        ) =~= of_mesh(mesh, faces).to_multiset());
    }
}

/// Divides a set of faces into its lower and its upper half.
pub fn halves(faces: &Vec<usize>, lower: &Vec<bool>) -> (r: (Vec<usize>, Vec<usize>))
    ensures
        r.0@ == lower_part(faces@, lower@),
        r.1@ == upper_part(faces@, lower@),
{
    let mut lo: Vec<usize> = Vec::new();
    let mut hi: Vec<usize> = Vec::new();
    let mut i: usize = 0;
    while i < faces.len()
        invariant
            i <= faces@.len(),
            lo@ == lower_part(faces@.take(i as int), lower@),
            hi@ == upper_part(faces@.take(i as int), lower@),
        decreases faces@.len() - i,
    {
        proof {
            assert(faces@.take(i + 1).drop_last() == faces@.take(i as int));
            assert(faces@.take(i + 1).last() == faces@[i as int]);
        }
        if i < lower.len() && !lower[i] {
            hi.push(faces[i]);
        } else {
            lo.push(faces[i]);
        }
        i = i + 1;
    }
    assert(faces@.take(i as int) == faces@);
    (lo, hi)
}

/// Whether `node` is the hierarchy over the faces `faces` of mesh `mesh`
/// that the answers of `split` lead to: a bounding box with the box that
/// `split` named for these faces, around either the faces themselves or, if
/// the set is divided, the hierarchies over its lower and its upper half.
pub open spec fn is_dissection<S: Fn(usize, &Vec<usize>) -> Split>(
    node: Node,
    mesh: usize,
    faces: Seq<usize>,
    limit: nat,
    split: S,
) -> bool
    decreases node,
{
    &&& node is BoundingBox
    &&& exists|set: Vec<usize>, s: Split|
        {
            &&& set@ == faces
            &&& #[trigger] call_ensures(split, (mesh, &set), s)
            &&& node->BoundingBox_bbox == s.bbox
            &&& if divides(faces, limit, s.lower@) {
                let child = *node->BoundingBox_child;
                &&& child is Group
                &&& child->Group_0.len() == 2
                &&& is_dissection(
                    child->Group_0[0],
                    mesh,
                    lower_part(faces, s.lower@),
                    limit,
                    split,
                )
                &&& is_dissection(
                    child->Group_0[1],
                    mesh,
                    upper_part(faces, s.lower@),
                    limit,
                    split,
                )
            } else {
                *node->BoundingBox_child == (Node::Mesh { mesh, faces })
            }
        }
}

impl MeshPart {
    /// Builds the hierarchy of bounding volumes over these faces. A set of
    /// more than `limit` faces is divided as `split` says, unless one half
    /// would be empty.
    pub fn dissect<S: Fn(usize, &Vec<usize>) -> Split>(self, limit: usize, split: &S) -> (t:
        ObjectTree)
        requires
            forall|mesh: usize, set: &Vec<usize>| call_requires(split, (mesh, set)),
        ensures
            is_dissection(t@, self.mesh, self.faces@, limit as nat, *split),
        decreases self.faces@.len(),
    {
        let mesh = self.mesh;
        let faces = self.faces;
        let s = split(mesh, &faces);
        let bbox = s.bbox;
        if faces.len() > limit {
            let (lo, hi) = halves(&faces, &s.lower);
            if lo.len() > 0 && hi.len() > 0 {
                proof {
                    lemma_halves(faces@, s.lower@);
                }
                let below = MeshPart { mesh, faces: lo }.dissect(limit, split);
                let above = MeshPart { mesh, faces: hi }.dissect(limit, split);
                let mut pair: Vec<ObjectTree> = Vec::new();
                pair.push(below);
                pair.push(above);
                proof {
                    ObjectTree::lemma_group_view(pair);
                }
                let group = ObjectTree::Group(pair);
                let t = ObjectTree::BoundingBox { child: Box::new(group), bbox };
                proof {
                    assert(*t@->BoundingBox_child == group@);
                    assert(group@->Group_0[0] == below@);
                    assert(group@->Group_0[1] == above@);
                    assert(call_ensures(*split, (mesh, &faces), s));
                }
                return t;
            }
        }
        let leaf = ObjectTree::Mesh(MeshPart { mesh, faces: copy_handles(&faces) });
        let t = ObjectTree::BoundingBox { child: Box::new(leaf), bbox };
        proof {
            assert(call_ensures(*split, (mesh, &faces), s));
            assert(!divides(faces@, limit as nat, s.lower@));
            assert(leaf@ == (Node::Mesh { mesh, faces: faces@ }));
            assert(*t@->BoundingBox_child == leaf@);
        }
        t
    }
}

/// The faces at the mesh leaves of a tree, from left to right, each named by
/// mesh and face.
pub open spec fn leaf_faces(node: Node) -> Seq<(usize, usize)>
    decreases node,
{
    match node {
        Node::Group(items) => leaf_faces_all(items),
        Node::Mesh { mesh, faces } => of_mesh(mesh, faces),
        Node::Transform { child, .. } => leaf_faces(*child),
        Node::Material { child, .. } => leaf_faces(*child),
        Node::BoundingBox { child, .. } => leaf_faces(*child),
        _ => Seq::empty(),
    }
}

/// The faces at the mesh leaves of a list of trees, one tree after the other.
pub open spec fn leaf_faces_all(items: Seq<Node>) -> Seq<(usize, usize)>
    decreases items,
{
    if items.len() == 0 {
        Seq::empty()
    } else {
        leaf_faces_all(items.drop_last()) + leaf_faces(items.last())
    }
}

/// The faces below a group of two are those of the first and then those of
/// the second.
proof fn lemma_leaf_faces_pair(items: Seq<Node>)
    requires
        items.len() == 2,
    ensures
        leaf_faces_all(items) == leaf_faces(items[0]) + leaf_faces(items[1]),
{
    let one = items.drop_last();
    assert(one.last() == items[0]);
    assert(one.drop_last().len() == 0);
    let none = Seq::<(usize, usize)>::empty();
    assert(leaf_faces_all(one.drop_last()) == none);
    assert(leaf_faces_all(one) == none + leaf_faces(items[0]));
    assert(none + leaf_faces(items[0]) == leaf_faces(items[0]));
}

/// A hierarchy holds, at its leaves, every face of the set it was built over
/// exactly as often as the set holds it: no face is lost and none is added,
/// whatever the limit is.
pub proof fn lemma_dissection_keeps_faces<S: Fn(usize, &Vec<usize>) -> Split>(
    node: Node,
    mesh: usize,
    faces: Seq<usize>,
    limit: nat,
    split: S,
)
    requires
        is_dissection(node, mesh, faces, limit, split),
    ensures
        leaf_faces(node).to_multiset() == of_mesh(mesh, faces).to_multiset(),
    decreases node,
{
    let (set, s) = choose|set: Vec<usize>, s: Split|
        {
            &&& set@ == faces
            &&& #[trigger] call_ensures(split, (mesh, &set), s)
            &&& node->BoundingBox_bbox == s.bbox
            &&& if divides(faces, limit, s.lower@) {
                let child = *node->BoundingBox_child;
                &&& child is Group
                &&& child->Group_0.len() == 2
                &&& is_dissection(
                    child->Group_0[0],
                    mesh,
                    lower_part(faces, s.lower@),
                    limit,
                    split,
                )
                &&& is_dissection(
                    child->Group_0[1],
                    mesh,
                    upper_part(faces, s.lower@),
                    limit,
                    split,
                )
            } else {
                *node->BoundingBox_child == (Node::Mesh { mesh, faces })
            }
        };
    if divides(faces, limit, s.lower@) {
        let child = *node->BoundingBox_child;
        let items = child->Group_0;
        let lo = lower_part(faces, s.lower@);
        let hi = upper_part(faces, s.lower@);
        lemma_dissection_keeps_faces(items[0], mesh, lo, limit, split);
        lemma_dissection_keeps_faces(items[1], mesh, hi, limit, split);
        lemma_halves_of_mesh(mesh, faces, s.lower@);
        lemma_leaf_faces_pair(items);
        assert(leaf_faces(node) == leaf_faces(child));
        assert(leaf_faces(child) == leaf_faces_all(items));
        lemma_multiset_commutative(leaf_faces(items[0]), leaf_faces(items[1]));
        assert(leaf_faces(node).to_multiset() =~= of_mesh(mesh, faces).to_multiset());
    } else {
        assert(leaf_faces(node) == leaf_faces(*node->BoundingBox_child));
    }
}

} // verus!
