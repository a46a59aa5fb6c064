use adventure::soul_scene::format::{put_component, EditorCamera, LocalId, SceneFile, SceneNode, SceneRecord};
use adventure::soul_scene::load::{load_scene, missing_sources, SceneLoadError, SceneSource};
use adventure::soul_scene::path::same_path;
use adventure::soul_scene::save::{
    build_scene_file, despawn_scene_content, serialize_entity_components, skip_type_path, with_camera, LiveComponent,
    SceneSaveError,
};
use adventure::sort::least_first;

const ORDER: &str = "adventure::sdf_render::edits::SdfOrder";
const PRIMITIVE: &str = "adventure::sdf_render::edits::SdfPrimitive";

fn components(order: u32) -> Vec<(String, String)> {
    vec![
        (PRIMITIVE.to_string(), "Sphere(radius:0.5)".to_string()),
        (ORDER.to_string(), format!("({order})")),
    ]
}

fn sphere(id: u64, order: u32) -> SceneNode {
    SceneNode {
        local: LocalId(id),
        components: components(order),
        parent: None,
        instance_child: None,
        instance: None,
        scene_entity: true,
        editor_entity: false,
        non_serializable: false,
        skip_serialization: false,
        editor_hidden: false,
    }
}

fn source(path: &str, file: SceneFile) -> SceneSource {
    SceneSource { path: path.to_string(), file: Ok(file), broken: vec![] }
}

fn instance_file(source: &str, overrides: Vec<(u64, Vec<(String, String)>)>) -> SceneFile {
    SceneFile {
        next_id: 1,
        records: vec![SceneRecord::Instance { id: LocalId(0), parent: None, source: source.to_string(), overrides }],
        editor_camera: None,
    }
}

fn text(f: &SceneFile) -> String {
    format!("{f:?}")
}

#[test]
fn plain_entity_round_trip_is_stable() {
    let world = vec![sphere(0, 0)];
    let first = build_scene_file(&world, 0);
    let saved = text(&first);
    let (world2, roots, next_id) = load_scene(&vec![source("plain", first)], &"plain".to_string()).expect("load");
    assert_eq!(roots, vec![0]);
    let second = build_scene_file(&world2, next_id);
    assert_eq!(saved, text(&second), "save, load, save must be stable");
    assert!(world2[0].components.iter().any(|(p, v)| p == PRIMITIVE && v.starts_with("Sphere")));
}

#[test]
fn nested_instance_applies_override_and_resaves_only_diff() {
    let src = build_scene_file(&vec![sphere(0, 0)], 0);
    let overrides = vec![(0u64, vec![(ORDER.to_string(), "(7)".to_string())])];
    let parent = instance_file("src", overrides);
    let files = vec![source("src", src), source("parent", parent)];
    let (world, _, next_id) = load_scene(&files, &"parent".to_string()).expect("load nested");
    let orders: Vec<&String> =
        world.iter().flat_map(|n| n.components.iter().filter(|(p, _)| p == ORDER).map(|(_, v)| v)).collect();
    assert_eq!(orders, vec!["(7)"], "the override must be applied");

    let resaved = build_scene_file(&world, next_id);
    assert_eq!(resaved.records.len(), 1, "instance subtree must be pruned");
    assert!(matches!(resaved.records[0], SceneRecord::Instance { .. }), "re-saved record must remain an Instance");
    match &files[1].file {
        Ok(f) => assert_eq!(text(f), text(&resaved)),
        Err(_) => panic!("the file was read"),
    }
}

#[test]
fn deep_nesting_composes() {
    let files = vec![
        source("c", build_scene_file(&vec![sphere(0, 0)], 0)),
        source("b", instance_file("c", vec![])),
        source("a", instance_file("b", vec![])),
    ];
    let (world, roots, _) = load_scene(&files, &"a".to_string()).expect("load A, B, C");
    let spheres = world.iter().filter(|n| n.components.iter().any(|(p, _)| p == PRIMITIVE)).count();
    assert_eq!(spheres, 1, "deep nesting must materialize the leaf sphere");
    assert_eq!((world.len(), roots), (3, vec![0]));
    assert_eq!(world[1].instance_child, Some(0));
    assert_eq!(world[2].instance_child, Some(1));
}

#[test]
fn parent_child_hierarchy_round_trips() {
    let parent = sphere(0, 0);
    let mut child = sphere(1, 1);
    child.parent = Some(1);
    let file = build_scene_file(&vec![child, parent], 0);
    assert_eq!(file.records[1].parent(), Some(0));
    let (world2, _, _) = load_scene(&vec![source("h", file)], &"h".to_string()).expect("load");
    let parent2 = world2.iter().position(|n| n.local.0 == 0).expect("parent reloaded");
    let child2 = world2.iter().position(|n| n.local.0 == 1).expect("child reloaded");
    assert_ne!(child2, parent2);
    assert_eq!(world2[child2].parent, Some(parent2), "child must re-link to its parent node");
    assert_eq!(world2[parent2].parent, None);
    let children: Vec<usize> = (0..world2.len()).filter(|&k| world2[k].parent == Some(parent2)).collect();
    assert_eq!(children, vec![child2], "the parent has the child alone");
}

#[test]
fn cyclic_instance_errors() {
    let files = vec![source("a", instance_file("b", vec![])), source("b", instance_file("a", vec![]))];
    let result = load_scene(&files, &"a".to_string());
    match result {
        Err(SceneLoadError::Cycle(p)) => {
            assert_eq!(p, "a");
            assert_eq!(SceneLoadError::Cycle(p).message(), "cyclic scene instance: a");
        }
        _ => panic!("cyclic instances must error"),
    }
}

#[test]
fn a_scene_that_instances_itself_is_a_cycle() {
    let files = vec![source("s", instance_file("s", vec![]))];
    assert!(matches!(load_scene(&files, &"s".to_string()), Err(SceneLoadError::Cycle(_))));
}

#[test]
fn errors_of_nested_files_come_out() {
    let failed = |path: &str, e: SceneLoadError| SceneSource { path: path.to_string(), file: Err(e), broken: vec![] };
    let bad = failed("bad", SceneLoadError::Parse("3:1: oops".to_string()));
    let gone = failed("gone", SceneLoadError::Io("not found".to_string()));
    let files = vec![source("a", instance_file("bad", vec![])), source("b", instance_file("gone", vec![])), bad, gone];
    assert_eq!(load_scene(&files, &"a".to_string()).unwrap_err().message(), "scene parse error: 3:1: oops");
    assert_eq!(load_scene(&files, &"b".to_string()).unwrap_err().message(), "scene io error: not found");
}

#[test]
fn missing_sources_are_what_is_still_to_be_read() {
    let mut files = vec![source("a", instance_file("b", vec![]))];
    assert_eq!(missing_sources(&files), vec!["b".to_string()]);
    files.push(source("b", build_scene_file(&vec![], 0)));
    assert!(missing_sources(&files).is_empty());
}

#[test]
fn an_override_for_an_absent_id_is_dropped() {
    let files = vec![
        source("src", build_scene_file(&vec![sphere(4, 2)], 0)),
        source("p", instance_file("src", vec![(9, components(8)), (4, vec![(ORDER.to_string(), "(3)".to_string())])])),
    ];
    let (world, _, _) = load_scene(&files, &"p".to_string()).unwrap();
    assert_eq!(world[1].components[1], (ORDER.to_string(), "(3)".to_string()));
    assert_eq!(world[1].components.len(), 2);
}

#[test]
fn a_broken_override_leaves_what_the_source_has() {
    let given = |path: &str, value: &str| (path.to_string(), value.to_string());
    let overrides = vec![given(ORDER, "oops"), given(PRIMITIVE, "Box"), given("no::Type", "1")];
    let mut parent = source("p", instance_file("src", vec![(4, overrides)]));
    parent.broken = vec![given(ORDER, "oops"), given("no::Type", "1")];
    let mut src = source("src", build_scene_file(&vec![sphere(4, 2)], 0));
    let files = vec![parent, source("src", build_scene_file(&vec![sphere(4, 2)], 0))];
    let (world, _, next_id) = load_scene(&files, &"p".to_string()).unwrap();
    assert_eq!(world[1].components, vec![given(PRIMITIVE, "Box"), given(ORDER, "(2)")]);
    match &build_scene_file(&world, next_id).records[0] {
        SceneRecord::Instance { overrides, .. } => assert_eq!(overrides[0].1.len(), 3, "the overrides are kept as they are"),
        SceneRecord::Entity { .. } => panic!("an instance was saved"),
    }
    src.broken = vec![given(ORDER, "(2)")];
    let (world, _, _) = load_scene(&vec![src], &"src".to_string()).unwrap();
    assert_eq!(world[0].components.len(), 1, "a broken component of an entity is skipped");
}

#[test]
fn a_cycle_is_found_however_it_is_spelled() {
    let files = vec![source("dir/a", instance_file("dir//b", vec![])), source("dir//b", instance_file("dir/./a", vec![]))];
    match load_scene(&files, &"dir/a".to_string()) {
        Err(SceneLoadError::Cycle(p)) => assert_eq!(p, "dir/./a"),
        _ => panic!("cyclic instances must error"),
    }
    let same = |a: &str, b: &str| same_path(&a.to_string(), &b.to_string());
    assert!(same("a/b", "a//b") && same("a/b", "a/./b") && same("a/b", "a/b/") && same("a/b", "a/b/."));
    assert!(same("/a", "//a") && same("/a", "/./a") && same("./a", ".//./a") && same("", ""));
    assert!(!same("a/b", "./a/b") && !same("a/b", "/a/b") && !same("a/b", "a/c") && !same("a", "a/..") && !same("", "."));
    for a in ["", ".", "/", "a", "./a", "/a", "a/", "a//b", "a/./b", "a/b/.", "..", "a/../b", "//", "/."] {
        for b in ["", ".", "/", "a", "./a", "/a", "a/", "a//b", "a/./b", "a/b/.", "..", "a/../b", "//", "/."] {
            assert_eq!(same(a, b), std::path::Path::new(a) == std::path::Path::new(b), "{a} and {b}");
        }
    }
}

#[test]
fn a_parent_that_is_not_written_is_not_named() {
    let mut barred = sphere(7, 0);
    barred.editor_hidden = true;
    let mut child = sphere(3, 0);
    child.parent = Some(0);
    let mut made = sphere(9, 0);
    made.instance_child = Some(0);
    let mut under = sphere(4, 0);
    under.parent = Some(2);
    let mut nested = sphere(5, 0);
    nested.parent = Some(1);
    let file = build_scene_file(&vec![barred, child, made, under, nested], 0);
    let parents: Vec<(u64, Option<u64>)> = file.records.iter().map(|r| (r.id().0, r.parent())).collect();
    assert_eq!(parents, vec![(3, None), (4, None), (5, Some(3))]);
}

#[test]
fn marked_nodes_are_not_written() {
    let mut world: Vec<SceneNode> = (0..6).map(|i| sphere(10 - i, 0)).collect();
    world[0].editor_entity = true;
    world[1].non_serializable = true;
    world[2].skip_serialization = true;
    world[3].editor_hidden = true;
    world[4].scene_entity = false;
    let file = build_scene_file(&world, 0);
    assert_eq!(file.records.len(), 1);
    assert_eq!(file.records[0].id(), LocalId(5));
    assert_eq!(file.next_id, 6);
    assert_eq!(despawn_scene_content(&world), vec![1, 2, 3, 5]);
}

#[test]
fn records_are_written_by_id() {
    let file = build_scene_file(&vec![sphere(7, 0), sphere(2, 0), sphere(7, 1), sphere(0, 0)], 0);
    let ids: Vec<u64> = file.records.iter().map(|r| r.id().0).collect();
    assert_eq!(ids, vec![0, 2, 7, 7]);
    assert_eq!(file.next_id, 8);
    match &file.records[3] {
        SceneRecord::Entity { components, .. } => assert_eq!(components[1].1, "(1)", "equal ids keep their order"),
        SceneRecord::Instance { .. } => panic!("no instance was saved"),
    }
    assert_eq!(build_scene_file(&vec![], 0).next_id, 1);
    assert_eq!(least_first(&[5, 1, 5, 0]), vec![3, 1, 0, 2]);
}

#[test]
fn a_resave_never_reuses_ids() {
    let first = build_scene_file(&vec![sphere(1, 0), sphere(2, 0), sphere(3, 0)], 0);
    assert_eq!(first.next_id, 4);
    let (mut world, _, next_id) = load_scene(&vec![source("s", first)], &"s".to_string()).expect("load");
    assert_eq!(next_id, 4);
    world.pop();
    let second = build_scene_file(&world, next_id);
    assert_eq!((second.records.len(), second.next_id), (2, 4), "the id of the entity that went is not free again");
    world.push(sphere(9, 0));
    assert_eq!(build_scene_file(&world, next_id).next_id, 10);
}

#[test]
fn skipped_components_are_not_written() {
    let live = |path: &str, tagged: bool, value: Option<&str>| LiveComponent {
        type_path: path.to_string(),
        tagged,
        value: value.map(|v| v.to_string()),
    };
    let out = serialize_entity_components(&vec![
        live("bevy_ecs::hierarchy::ChildOf", false, Some("1")),
        live("mine::Tagged", true, Some("2")),
        live("mine::Absent", false, None),
        live("mine::Kept", false, Some("3")),
        live("bevy_light::cascade::Cascades", false, Some("4")),
        live("mine::Kept", false, Some("5")),
    ]);
    assert_eq!(out, vec![("mine::Kept".to_string(), "5".to_string())]);
    assert!(skip_type_path("bevy_camera::visibility::ViewVisibility"));
    assert!(!skip_type_path("bevy_transform::components::transform::Transform"));
}

#[test]
fn putting_a_component_twice_replaces_it() {
    let mut list = components(1);
    put_component(&mut list, &PRIMITIVE.to_string(), &"Box".to_string());
    put_component(&mut list, &"new".to_string(), &"x".to_string());
    assert_eq!(list.len(), 3);
    assert_eq!(list[0].1, "Box");
    assert_eq!(list[2], ("new".to_string(), "x".to_string()));
}

#[test]
fn a_saved_camera_rides_along() {
    let cam = EditorCamera { target: [1, 2, 3], distance: 4, yaw: 5, pitch: 6 };
    let file = with_camera(build_scene_file(&vec![sphere(3, 0)], 0), Some(cam));
    assert_eq!(file.editor_camera, Some(cam));
    assert_eq!((file.next_id, file.records.len()), (4, 1));
    assert_eq!(SceneSaveError::Serialize("x".to_string()).message(), "scene serialize error: x");
    assert_eq!(SceneSaveError::Io("y".to_string()).message(), "scene io error: y");
}
