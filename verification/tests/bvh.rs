use raytracer::bvh::{halves, longest_axis, lower_half, Axis, Split};
use raytracer::scene::{MeshPart, ObjectTree};

fn bits(values: &[f32]) -> Vec<u32> {
    values.iter().map(|v| v.to_bits()).collect()
}

/// Faces lie on a line, face `f` at coordinate `f`; the box of a set is named
/// by ten times its first face plus its length.
fn split_on_a_line(_mesh: usize, faces: &Vec<usize>) -> Split {
    let lo = *faces.iter().min().unwrap() as f32;
    let hi = *faces.iter().max().unwrap() as f32;
    let plane = (lo + hi) / 2.0;
    let centroids: Vec<u32> = faces.iter().map(|f| (*f as f32).to_bits()).collect();
    Split { bbox: faces[0] * 10 + faces.len(), lower: lower_half(&centroids, plane.to_bits()) }
}

fn leaf(mesh: usize, faces: &[usize], bbox: usize) -> ObjectTree {
    ObjectTree::BoundingBox {
        child: Box::new(ObjectTree::Mesh(MeshPart { mesh, faces: faces.to_vec() })),
        bbox,
    }
}

fn inner(below: ObjectTree, above: ObjectTree, bbox: usize) -> ObjectTree {
    ObjectTree::BoundingBox { child: Box::new(ObjectTree::Group(vec![below, above])), bbox }
}

fn leaves(tree: &ObjectTree, out: &mut Vec<Vec<usize>>) {
    match tree {
        ObjectTree::Group(items) => items.iter().for_each(|t| leaves(t, out)),
        ObjectTree::Mesh(part) => out.push(part.faces.clone()),
        ObjectTree::BoundingBox { child, .. } => leaves(child, out),
        _ => {}
    }
}

#[test]
fn longest_axis_prefers_x_then_y_then_z() {
    let axis = |x: f32, y: f32, z: f32| longest_axis(x.to_bits(), y.to_bits(), z.to_bits());
    assert_eq!(axis(3.0, 2.0, 1.0), Axis::X);
    assert_eq!(axis(1.0, 3.0, 2.0), Axis::Y);
    assert_eq!(axis(1.0, 2.0, 3.0), Axis::Z);
    assert_eq!(axis(2.0, 2.0, 2.0), Axis::X);
    assert_eq!(axis(2.0, 2.0, 1.0), Axis::X);
    assert_eq!(axis(2.0, 1.0, 2.0), Axis::X);
    assert_eq!(axis(1.0, 2.0, 2.0), Axis::Y);
    assert_eq!(axis(0.0, 0.0, 0.0), Axis::X);
    assert_eq!(axis(0.0, -0.0, 0.0), Axis::X);
}

#[test]
fn centroid_on_the_plane_goes_to_the_lower_half() {
    let lower = lower_half(&bits(&[0.0, 1.0, 2.0, 0.5, 1.0000001, -3.0]), 1.0f32.to_bits());
    assert_eq!(lower, vec![true, true, false, true, false, true]);
    assert_eq!(lower_half(&bits(&[-0.0, 0.0]), 0.0f32.to_bits()), vec![true, true]);
    assert_eq!(lower_half(&bits(&[]), 0.0f32.to_bits()), Vec::<bool>::new());
}

#[test]
fn halves_keep_the_order() {
    let (lo, hi) = halves(&vec![10, 11, 12, 13, 14], &vec![true, false, true, false, false]);
    assert_eq!(lo, vec![10, 12]);
    assert_eq!(hi, vec![11, 13, 14]);
}

#[test]
fn faces_without_an_answer_go_to_the_lower_half() {
    let (lo, hi) = halves(&vec![1, 2, 3, 4], &vec![false, true]);
    assert_eq!(lo, vec![2, 3, 4]);
    assert_eq!(hi, vec![1]);
    let (lo, hi) = halves(&vec![1, 2], &vec![false, false, false, true]);
    assert_eq!(lo, Vec::<usize>::new());
    assert_eq!(hi, vec![1, 2]);
}

#[test]
fn small_mesh_is_one_box() {
    let part = MeshPart { mesh: 7, faces: vec![0, 1, 2] };
    assert_eq!(part.dissect(3, &split_on_a_line), leaf(7, &[0, 1, 2], 3));
    let single = MeshPart { mesh: 7, faces: vec![5] };
    assert_eq!(single.dissect(1, &split_on_a_line), leaf(7, &[5], 51));
}

#[test]
fn large_mesh_is_divided_until_the_limit() {
    let part = MeshPart { mesh: 2, faces: vec![0, 1, 2, 3, 4] };
    let tree = part.dissect(2, &split_on_a_line);
    let want = inner(
        inner(leaf(2, &[0, 1], 2), leaf(2, &[2], 21), 3),
        leaf(2, &[3, 4], 32),
        5,
    );
    assert_eq!(tree, want);
}

#[test]
fn limit_one_gives_a_leaf_for_every_face() {
    let part = MeshPart { mesh: 0, faces: (0..9).collect() };
    let tree = part.dissect(1, &split_on_a_line);
    let mut found = Vec::new();
    leaves(&tree, &mut found);
    assert_eq!(found, (0..9).map(|f| vec![f]).collect::<Vec<_>>());
}

#[test]
fn mesh_that_cannot_be_divided_stays_whole() {
    let all_low = |_m: usize, faces: &Vec<usize>| Split { bbox: 4, lower: vec![true; faces.len()] };
    let part = MeshPart { mesh: 1, faces: vec![3, 4, 5, 6] };
    assert_eq!(part.dissect(1, &all_low), leaf(1, &[3, 4, 5, 6], 4));
    let all_high =
        |_m: usize, faces: &Vec<usize>| Split { bbox: 4, lower: vec![false; faces.len()] };
    let part = MeshPart { mesh: 1, faces: vec![3, 4, 5, 6] };
    assert_eq!(part.dissect(1, &all_high), leaf(1, &[3, 4, 5, 6], 4));
}

#[test]
fn every_face_ends_up_in_one_leaf_whatever_the_limit() {
    let faces: Vec<usize> = vec![8, 3, 5, 0, 9, 1, 7, 2, 6, 4, 11, 10];
    for limit in [1, 2, 3, 5, 12, 100] {
        let tree = MeshPart { mesh: 0, faces: faces.clone() }.dissect(limit, &split_on_a_line);
        let mut found = Vec::new();
        leaves(&tree, &mut found);
        let mut all: Vec<usize> = found.iter().flatten().cloned().collect();
        all.sort();
        assert_eq!(all, (0..12).collect::<Vec<_>>(), "limit {}", limit);
        assert!(found.iter().all(|l| l.len() <= limit), "limit {}", limit);
    }
}
