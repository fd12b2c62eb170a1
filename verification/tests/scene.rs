use raytracer::bvh::Split;
use raytracer::mesh::Shading;
use raytracer::scene::{
    copy_handles, Candidate, Instance, Kind, MeshPart, ObjectTree, Prepared, Scene, SceneError,
};

fn mesh(mesh: usize, faces: &[usize]) -> ObjectTree {
    ObjectTree::Mesh(MeshPart { mesh, faces: faces.to_vec() })
}

fn file(name: &str, shading: Shading) -> ObjectTree {
    ObjectTree::LoadMesh { file: name.to_string(), shading }
}

fn moved(transform: usize, child: ObjectTree) -> ObjectTree {
    ObjectTree::Transform { child: Box::new(child), transform }
}

fn painted(material: usize, child: ObjectTree) -> ObjectTree {
    ObjectTree::Material { child: Box::new(child), material }
}

fn boxed(bbox: usize, child: ObjectTree) -> ObjectTree {
    ObjectTree::BoundingBox { child: Box::new(child), bbox }
}

fn instance(kind: Kind, source: usize, transforms: &[usize]) -> Instance {
    Instance { kind, source, transforms: transforms.to_vec() }
}

fn sample() -> ObjectTree {
    ObjectTree::Group(vec![
        ObjectTree::Primitive(4),
        moved(
            1,
            ObjectTree::Group(vec![
                painted(7, mesh(3, &[0, 1, 2])),
                moved(2, ObjectTree::Primitive(4)),
                file("bunny.smf", Shading::Smooth),
            ]),
        ),
        boxed(9, moved(5, mesh(3, &[0, 1, 2]))),
    ])
}

fn loader(name: &String, shading: Shading) -> Result<MeshPart, String> {
    match (name.as_str(), shading) {
        ("bunny.smf", Shading::Smooth) => Ok(MeshPart { mesh: 40, faces: vec![0, 1] }),
        ("cube.smf", _) => Ok(MeshPart { mesh: 41, faces: vec![0, 1, 2, 3] }),
        _ => Err(format!("cannot read {}", name)),
    }
}

fn split_in_the_middle(mesh: usize, faces: &Vec<usize>) -> Split {
    let half = faces.len() / 2;
    Split { bbox: 100 * mesh + faces.len(), lower: (0..faces.len()).map(|i| i < half).collect() }
}

fn bound(primitive: usize) -> usize {
    1000 + primitive
}

fn listed<'a>(c: &Candidate<'a>) -> (&'a ObjectTree, usize, Vec<usize>) {
    (c.geometry, c.material, c.transforms.clone())
}

#[test]
fn default_scene_is_an_empty_group() {
    assert_eq!(ObjectTree::default(), ObjectTree::Group(vec![]));
}

#[test]
fn duplicate_is_equal() {
    let tree = sample();
    assert_eq!(tree.duplicate(), tree);
    assert_eq!(copy_handles(&vec![3, 1, 2]), vec![3, 1, 2]);
}

#[test]
fn load_meshes_replaces_files_only() {
    let loaded = sample().load_meshes(&loader).unwrap();
    let want = ObjectTree::Group(vec![
        ObjectTree::Primitive(4),
        moved(
            1,
            ObjectTree::Group(vec![
                painted(7, mesh(3, &[0, 1, 2])),
                moved(2, ObjectTree::Primitive(4)),
                mesh(40, &[0, 1]),
            ]),
        ),
        boxed(9, moved(5, mesh(3, &[0, 1, 2]))),
    ]);
    assert_eq!(loaded, want);
}

#[test]
fn load_meshes_passes_on_the_first_refusal() {
    let tree = ObjectTree::Group(vec![
        file("cube.smf", Shading::Flat),
        painted(1, file("missing.smf", Shading::Flat)),
        file("gone.smf", Shading::Flat),
    ]);
    assert_eq!(tree.load_meshes(&loader), Err("cannot read missing.smf".to_string()));
    let tree = file("bunny.smf", Shading::Flat);
    assert_eq!(tree.load_meshes(&loader), Err("cannot read bunny.smf".to_string()));
}

#[test]
fn tree_without_files_always_loads() {
    let never = |_: &String, _: Shading| -> Result<MeshPart, ()> { Err(()) };
    let tree = ObjectTree::Group(vec![mesh(1, &[0]), ObjectTree::Primitive(2)]);
    assert_eq!(tree.load_meshes(&never), Ok(tree.duplicate()));
}

#[test]
fn fold_transforms_numbers_the_geometry_and_lists_the_transforms() {
    let Prepared { objects, instances } = sample().load_meshes(&loader).unwrap().fold_transforms();
    let want = ObjectTree::Group(vec![
        ObjectTree::Primitive(0),
        ObjectTree::Group(vec![painted(7, mesh(1, &[0, 1, 2])), ObjectTree::Primitive(2), mesh(3, &[0, 1])]),
        boxed(9, mesh(4, &[0, 1, 2])),
    ]);
    assert_eq!(objects, want);
    assert_eq!(
        instances,
        vec![
            instance(Kind::Primitive, 4, &[]),
            instance(Kind::Mesh, 3, &[1]),
            instance(Kind::Primitive, 4, &[1, 2]),
            instance(Kind::Mesh, 40, &[1]),
            instance(Kind::Mesh, 3, &[5]),
        ]
    );
}

#[test]
fn fold_transforms_leaves_unloaded_files_alone() {
    let tree = moved(1, ObjectTree::Group(vec![file("a.smf", Shading::Flat), ObjectTree::Primitive(8)]));
    let p = tree.fold_transforms();
    assert_eq!(
        p.objects,
        ObjectTree::Group(vec![file("a.smf", Shading::Flat), ObjectTree::Primitive(0)])
    );
    assert_eq!(p.instances, vec![instance(Kind::Primitive, 8, &[1])]);
}

#[test]
fn nested_transforms_are_listed_outermost_first() {
    let tree = moved(3, moved(1, moved(2, ObjectTree::Primitive(0))));
    let p = tree.fold_transforms();
    assert_eq!(p.objects, ObjectTree::Primitive(0));
    assert_eq!(p.instances, vec![instance(Kind::Primitive, 0, &[3, 1, 2])]);
}

#[test]
fn prepare_loads_and_folds() {
    let p = sample().prepare(&loader).unwrap();
    let q = sample().load_meshes(&loader).unwrap().fold_transforms();
    assert_eq!(p, q);
    let bad = moved(1, file("missing.smf", Shading::Flat));
    assert_eq!(bad.prepare(&loader), Err("cannot read missing.smf".to_string()));
}

#[test]
fn construct_bvh_wraps_primitives_and_dissects_meshes() {
    let tree = ObjectTree::Group(vec![
        ObjectTree::Primitive(3),
        painted(2, mesh(1, &[0, 1, 2, 3])),
        moved(6, ObjectTree::Primitive(5)),
    ]);
    let built = tree.construct_bvh(2, &split_in_the_middle, &bound);
    let want = ObjectTree::Group(vec![
        boxed(1003, ObjectTree::Primitive(3)),
        painted(
            2,
            boxed(104, ObjectTree::Group(vec![boxed(102, mesh(1, &[0, 1])), boxed(102, mesh(1, &[2, 3]))])),
        ),
        moved(6, boxed(1005, ObjectTree::Primitive(5))),
    ]);
    assert_eq!(built, want);
}

#[test]
fn construct_bvh_leaves_boxes_alone_and_drops_files() {
    let tree = ObjectTree::Group(vec![
        boxed(1, ObjectTree::Group(vec![ObjectTree::Primitive(3), mesh(0, &[0, 1, 2])])),
        file("late.smf", Shading::Flat),
    ]);
    let built = tree.construct_bvh(1, &split_in_the_middle, &bound);
    let want = ObjectTree::Group(vec![
        boxed(1, ObjectTree::Group(vec![ObjectTree::Primitive(3), mesh(0, &[0, 1, 2])])),
        ObjectTree::Group(vec![]),
    ]);
    assert_eq!(built, want);
}

#[test]
fn small_mesh_gets_one_box() {
    let built = mesh(2, &[0, 1, 2]).construct_bvh(3, &split_in_the_middle, &bound);
    assert_eq!(built, boxed(203, mesh(2, &[0, 1, 2])));
    let built = mesh(2, &[7]).construct_bvh(1, &split_in_the_middle, &bound);
    assert_eq!(built, boxed(201, mesh(2, &[7])));
}

#[test]
fn intersect_hands_materials_down_the_tree() {
    let a = mesh(0, &[0]);
    let tree = ObjectTree::Group(vec![
        ObjectTree::Primitive(1),
        painted(
            5,
            ObjectTree::Group(vec![
                mesh(0, &[0]),
                painted(6, ObjectTree::Primitive(2)),
                ObjectTree::Primitive(3),
            ]),
        ),
        mesh(0, &[0]),
    ]);
    let always = |_: usize, _: &Vec<usize>| true;
    let found = tree.intersect(9, &always);
    let got: Vec<_> = found.iter().map(listed).collect();
    assert_eq!(
        got,
        vec![
            (&ObjectTree::Primitive(1), 9, vec![]),
            (&a, 5, vec![]),
            (&ObjectTree::Primitive(2), 6, vec![]),
            (&ObjectTree::Primitive(3), 5, vec![]),
            (&a, 9, vec![]),
        ]
    );
}

#[test]
fn intersect_skips_what_lies_in_a_missed_box() {
    let tree = ObjectTree::Group(vec![
        boxed(1, ObjectTree::Primitive(1)),
        boxed(2, ObjectTree::Group(vec![ObjectTree::Primitive(2), boxed(3, ObjectTree::Primitive(3))])),
        boxed(4, boxed(1, ObjectTree::Primitive(4))),
        ObjectTree::Primitive(5),
    ]);
    let odd = |bbox: usize, _: &Vec<usize>| bbox % 2 == 1;
    let got: Vec<_> = tree.intersect(0, &odd).iter().map(|c| c.geometry.duplicate()).collect();
    assert_eq!(got, vec![ObjectTree::Primitive(1), ObjectTree::Primitive(5)]);
    let even = |bbox: usize, _: &Vec<usize>| bbox % 2 == 0;
    let got: Vec<_> = tree.intersect(0, &even).iter().map(|c| c.geometry.duplicate()).collect();
    assert_eq!(got, vec![ObjectTree::Primitive(2), ObjectTree::Primitive(5)]);
}

#[test]
fn intersect_applies_transforms_to_boxes_and_geometry_below() {
    let tree =
        moved(1, ObjectTree::Group(vec![boxed(7, moved(2, ObjectTree::Primitive(0))), file("x", Shading::Flat)]));
    let under_one = |bbox: usize, above: &Vec<usize>| bbox == 7 && above == &vec![1];
    let found = tree.intersect(3, &under_one);
    let got: Vec<_> = found.iter().map(listed).collect();
    assert_eq!(got, vec![(&ObjectTree::Primitive(0), 3, vec![1, 2])]);
    let never = |_: usize, _: &Vec<usize>| false;
    assert!(tree.intersect(3, &never).is_empty());
}

#[test]
fn empty_scene_lists_nothing() {
    let always = |_: usize, _: &Vec<usize>| true;
    assert!(ObjectTree::default().intersect(0, &always).is_empty());
}

#[test]
fn hierarchy_lists_the_same_faces_as_the_whole_mesh() {
    let faces: Vec<usize> = (0..11).collect();
    let tree = painted(1, mesh(0, &faces));
    let always = |_: usize, _: &Vec<usize>| true;
    let gather = |limit: u32| {
        let built = tree.construct_bvh(limit, &split_in_the_middle, &bound);
        let mut all = Vec::new();
        for c in built.intersect(0, &always) {
            assert_eq!(c.material, 1);
            match c.geometry {
                ObjectTree::Mesh(part) => all.extend(part.faces.iter().cloned()),
                other => panic!("unexpected {:?}", other),
            }
        }
        all.sort();
        all
    };
    assert_eq!(gather(11), faces);
    assert_eq!(gather(1), faces);
    assert_eq!(gather(4), faces);
}

fn scene(width: u32, height: u32, threads: u32, subsamples: u32, bbox_limit: u32) -> Scene {
    Scene {
        image: "out.png".to_string(),
        width,
        height,
        threads,
        subsamples,
        bbox_limit,
        objects: ObjectTree::default(),
        default_material: 0,
    }
}

#[test]
fn settings_must_be_positive() {
    assert_eq!(scene(2, 2, 1, 1, 1).check(), Ok(()));
    assert_eq!(scene(0, 2, 1, 1, 1).check(), Err(SceneError::NoWidth));
    assert_eq!(scene(2, 0, 1, 1, 1).check(), Err(SceneError::NoHeight));
    assert_eq!(scene(2, 2, 0, 1, 1).check(), Err(SceneError::NoThreads));
    assert_eq!(scene(2, 2, 1, 0, 1).check(), Err(SceneError::NoSubsamples));
    assert_eq!(scene(2, 2, 1, 1, 0).check(), Err(SceneError::NoBboxLimit));
    assert_eq!(scene(0, 0, 0, 0, 0).check(), Err(SceneError::NoWidth));
    assert_eq!(scene(1, 0, 0, 0, 0).check(), Err(SceneError::NoHeight));
    assert_eq!(scene(u32::MAX, u32::MAX, 1, 1, 1).check(), Err(SceneError::ImageTooLarge));
    assert_eq!(scene(u32::MAX, 1, 1, 1, 1).check(), Ok(()));
}

#[test]
fn scene_renders_what_the_shader_returns() {
    let shade = |x: u32, y: u32| (x as u8, y as u8, 200u8);
    let img = scene(3, 4, 3, 1, 1).render(&shade).unwrap();
    assert_eq!(img.dimensions(), (3, 4));
    for y in 0..4 {
        for x in 0..3 {
            assert_eq!(img.get_pixel(x, y), Some((x as u8, y as u8, 200)));
        }
    }
}

#[test]
fn faulty_scene_is_not_rendered() {
    let shade = |_: u32, _: u32| (0u8, 0u8, 0u8);
    assert_eq!(scene(3, 4, 0, 1, 1).render(&shade).err(), Some(SceneError::NoThreads));
    assert_eq!(scene(0, 4, 1, 1, 1).render(&shade).err(), Some(SceneError::NoWidth));
}

#[test]
fn scene_is_prepared_with_its_settings_kept() {
    let mut raw = scene(8, 6, 2, 3, 2);
    raw.objects = sample();
    raw.default_material = 5;
    let (folded, instances) = raw.prepare(&loader).unwrap();
    let want = sample().prepare(&loader).unwrap();
    assert_eq!(folded.objects, want.objects);
    assert_eq!(instances, want.instances);
    assert_eq!(
        (folded.image.as_str(), folded.width, folded.height, folded.threads),
        ("out.png", 8, 6, 2)
    );
    assert_eq!((folded.subsamples, folded.bbox_limit, folded.default_material), (3, 2, 5));

    let built = folded.construct_bvh(&split_in_the_middle, &bound);
    assert_eq!(built.objects, want.objects.construct_bvh(2, &split_in_the_middle, &bound));
    assert_eq!((built.width, built.height, built.bbox_limit, built.default_material), (8, 6, 2, 5));

    let always = |_: usize, _: &Vec<usize>| true;
    let materials: Vec<usize> = built.intersect(&always).iter().map(|c| c.material).collect();
    assert_eq!(materials, vec![5, 7, 7, 5, 5, 5]);
}

#[test]
fn scene_with_a_missing_mesh_is_not_prepared() {
    let mut raw = scene(8, 6, 2, 3, 2);
    raw.objects = file("missing.smf", Shading::Flat);
    assert_eq!(raw.prepare(&loader).err(), Some("cannot read missing.smf".to_string()));
}
