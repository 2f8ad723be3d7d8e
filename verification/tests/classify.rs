use usd_scene::classify::{is_in_prototypes_subtree, is_point_instancer};
use usd_scene::scene::Scene;

#[test]
fn path_ending_in_prototypes_is_pruned() {
    assert!(is_in_prototypes_subtree("/World/Prototypes"));
    assert!(is_in_prototypes_subtree("/Prototypes"));
}

#[test]
fn path_below_prototypes_is_pruned() {
    assert!(is_in_prototypes_subtree("/World/Prototypes/X"));
    assert!(is_in_prototypes_subtree("/World/Prototypes/X/Y"));
    assert!(is_in_prototypes_subtree("/Prototypes/X"));
    assert!(is_in_prototypes_subtree("/World/Prototypes/"));
}

#[test]
fn other_paths_are_not_pruned() {
    assert!(!is_in_prototypes_subtree("/World/Geo/Y"));
    assert!(!is_in_prototypes_subtree("/"));
    assert!(!is_in_prototypes_subtree(""));
    assert!(!is_in_prototypes_subtree("/World"));
}

#[test]
fn segment_must_be_prototypes_exactly() {
    assert!(!is_in_prototypes_subtree("/MyPrototypes"));
    assert!(!is_in_prototypes_subtree("/World/XPrototypes"));
    assert!(!is_in_prototypes_subtree("/World/PrototypesX"));
    assert!(!is_in_prototypes_subtree("/World/PrototypesX/Y"));
    assert!(!is_in_prototypes_subtree("/World/prototypes"));
    assert!(!is_in_prototypes_subtree("/World/Prototype"));
}

#[test]
fn segment_must_follow_a_slash() {
    assert!(!is_in_prototypes_subtree("Prototypes"));
    assert!(!is_in_prototypes_subtree("Prototypes/X"));
    assert!(is_in_prototypes_subtree("World/Prototypes"));
}

#[test]
fn pruning_sees_characters_outside_ascii() {
    assert!(is_in_prototypes_subtree("/Wörld/Prototypes/é"));
    assert!(!is_in_prototypes_subtree("/Wörld/Prötotypes"));
}

#[test]
fn point_instancer_is_matched_exactly() {
    let mut scene = Scene::new();
    let a = scene.add_prim(0, "/A", "PointInstancer").unwrap();
    let b = scene.add_prim(0, "/B", "pointinstancer").unwrap();
    let c = scene.add_prim(0, "/C", "PointInstancerX").unwrap();
    let d = scene.add_prim(0, "/D", "Mesh").unwrap();
    let e = scene.add_prim(0, "/E", "").unwrap();
    assert!(is_point_instancer(&scene, a));
    assert!(!is_point_instancer(&scene, b));
    assert!(!is_point_instancer(&scene, c));
    assert!(!is_point_instancer(&scene, d));
    assert!(!is_point_instancer(&scene, e));
    assert!(!is_point_instancer(&scene, 0));
}
