use usd_scene::scene::{AttrValue, Scene};
use usd_scene::transform::{accumulate_transforms, get_local_transform, AttrError, Transform};

fn tokens(names: &[&str]) -> AttrValue {
    AttrValue::Tokens(names.iter().map(|s| s.to_string()).collect())
}

fn product(factors: &[usize]) -> Transform {
    Transform { factors: factors.to_vec() }
}

#[test]
fn identity_has_no_factors() {
    assert_eq!(Transform::identity(), product(&[]));
    assert_eq!(Transform::single(5), product(&[5]));
}

#[test]
fn times_joins_factors_in_order() {
    let mut t = Transform::identity();
    t.times_matrix(3);
    t.times(&product(&[1, 2]));
    t.times(&Transform::identity());
    t.times_matrix(3);
    assert_eq!(t, product(&[3, 1, 2, 3]));
}

#[test]
fn empty_order_gives_identity() {
    let mut scene = Scene::new();
    let a = scene.add_prim(0, "/A", "Xform").unwrap();
    scene.set_attribute(a, "xformOpOrder", tokens(&[])).unwrap();
    assert_eq!(get_local_transform(&scene, a), Ok(Some(Transform::identity())));
}

#[test]
fn no_attributes_gives_no_transform() {
    let mut scene = Scene::new();
    let a = scene.add_prim(0, "/A", "Xform").unwrap();
    scene.set_attribute(a, "visibility", AttrValue::Other).unwrap();
    assert_eq!(get_local_transform(&scene, a), Ok(None));
    assert_eq!(get_local_transform(&scene, 0), Ok(None));
}

#[test]
fn single_attribute_is_the_fallback() {
    let mut scene = Scene::new();
    let a = scene.add_prim(0, "/A", "Xform").unwrap();
    scene.set_attribute(a, "xformOp:transform", AttrValue::Matrix(7)).unwrap();
    assert_eq!(get_local_transform(&scene, a), Ok(Some(product(&[7]))));
}

#[test]
fn order_wins_over_single_attribute() {
    let mut scene = Scene::new();
    let a = scene.add_prim(0, "/A", "Xform").unwrap();
    scene.set_attribute(a, "xformOp:transform", AttrValue::Matrix(7)).unwrap();
    scene.set_attribute(a, "xformOp:translate", AttrValue::Matrix(8)).unwrap();
    scene.set_attribute(a, "xformOpOrder", tokens(&["xformOp:translate"])).unwrap();
    assert_eq!(get_local_transform(&scene, a), Ok(Some(product(&[8]))));

    let b = scene.add_prim(0, "/B", "Xform").unwrap();
    scene.set_attribute(b, "xformOp:transform", AttrValue::Matrix(7)).unwrap();
    scene.set_attribute(b, "xformOpOrder", tokens(&[])).unwrap();
    assert_eq!(get_local_transform(&scene, b), Ok(Some(Transform::identity())));
}

#[test]
fn order_is_followed_left_to_right() {
    let mut scene = Scene::new();
    let a = scene.add_prim(0, "/A", "Xform").unwrap();
    scene.set_attribute(a, "xformOp:scale", AttrValue::Matrix(30)).unwrap();
    scene.set_attribute(a, "xformOp:translate", AttrValue::Matrix(10)).unwrap();
    scene.set_attribute(a, "xformOp:rotate", AttrValue::Matrix(20)).unwrap();
    let order = tokens(&["xformOp:translate", "xformOp:rotate", "xformOp:scale", "xformOp:rotate"]);
    scene.set_attribute(a, "xformOpOrder", order).unwrap();
    assert_eq!(get_local_transform(&scene, a), Ok(Some(product(&[10, 20, 30, 20]))));
}

#[test]
fn listed_name_without_attribute_is_passed_over() {
    let mut scene = Scene::new();
    let a = scene.add_prim(0, "/A", "Xform").unwrap();
    scene.set_attribute(a, "xformOp:translate", AttrValue::Matrix(10)).unwrap();
    let order = tokens(&["xformOp:missing", "xformOp:translate", "xformOp:gone"]);
    scene.set_attribute(a, "xformOpOrder", order).unwrap();
    assert_eq!(get_local_transform(&scene, a), Ok(Some(product(&[10]))));

    let b = scene.add_prim(0, "/B", "Xform").unwrap();
    scene.set_attribute(b, "xformOpOrder", tokens(&["xformOp:missing"])).unwrap();
    assert_eq!(get_local_transform(&scene, b), Ok(Some(Transform::identity())));
}

#[test]
fn order_of_another_type_is_a_mismatch() {
    let mut scene = Scene::new();
    let a = scene.add_prim(0, "/A", "Xform").unwrap();
    scene.set_attribute(a, "xformOpOrder", AttrValue::Matrix(1)).unwrap();
    scene.set_attribute(a, "xformOp:transform", AttrValue::Matrix(2)).unwrap();
    assert_eq!(get_local_transform(&scene, a), Err(AttrError::TypeMismatch));
    let b = scene.add_prim(0, "/B", "Xform").unwrap();
    scene.set_attribute(b, "xformOpOrder", AttrValue::Other).unwrap();
    assert_eq!(get_local_transform(&scene, b), Err(AttrError::TypeMismatch));
}

#[test]
fn listed_attribute_of_another_type_is_a_mismatch() {
    let mut scene = Scene::new();
    let a = scene.add_prim(0, "/A", "Xform").unwrap();
    scene.set_attribute(a, "xformOp:translate", AttrValue::Matrix(10)).unwrap();
    scene.set_attribute(a, "xformOp:bad", tokens(&["x"])).unwrap();
    scene.set_attribute(a, "xformOpOrder", tokens(&["xformOp:translate", "xformOp:bad"])).unwrap();
    assert_eq!(get_local_transform(&scene, a), Err(AttrError::TypeMismatch));
    scene.set_attribute(a, "xformOpOrder", tokens(&["xformOp:bad", "xformOp:translate"])).unwrap();
    assert_eq!(get_local_transform(&scene, a), Err(AttrError::TypeMismatch));
    scene.set_attribute(a, "xformOpOrder", tokens(&["xformOp:translate"])).unwrap();
    assert_eq!(get_local_transform(&scene, a), Ok(Some(product(&[10]))));
}

#[test]
fn single_attribute_of_another_type_is_a_mismatch() {
    let mut scene = Scene::new();
    let a = scene.add_prim(0, "/A", "Xform").unwrap();
    scene.set_attribute(a, "xformOp:transform", AttrValue::Other).unwrap();
    assert_eq!(get_local_transform(&scene, a), Err(AttrError::TypeMismatch));
}

#[test]
fn chain_of_three_accumulates_leaf_first() {
    // root has R = 1, A has Ta = 2, B has Tb = 3
    let mut scene = Scene::new();
    let a = scene.add_prim(0, "/A", "Xform").unwrap();
    let b = scene.add_prim(a, "/A/B", "PointInstancer").unwrap();
    scene.set_attribute(0, "xformOp:transform", AttrValue::Matrix(1)).unwrap();
    scene.set_attribute(a, "xformOp:transform", AttrValue::Matrix(2)).unwrap();
    scene.set_attribute(b, "xformOp:transform", AttrValue::Matrix(3)).unwrap();
    assert_eq!(accumulate_transforms(&scene, b), Ok(product(&[3, 2, 1])));
    assert_eq!(accumulate_transforms(&scene, a), Ok(product(&[2, 1])));
    assert_eq!(accumulate_transforms(&scene, 0), Ok(product(&[1])));
}

#[test]
fn chain_without_transforms_accumulates_to_identity() {
    let mut scene = Scene::new();
    let a = scene.add_prim(0, "/A", "Xform").unwrap();
    let b = scene.add_prim(a, "/A/B", "Mesh").unwrap();
    assert_eq!(accumulate_transforms(&scene, b), Ok(Transform::identity()));
}

#[test]
fn prim_without_transform_adds_no_factor() {
    let mut scene = Scene::new();
    let a = scene.add_prim(0, "/A", "Xform").unwrap();
    let b = scene.add_prim(a, "/A/B", "Xform").unwrap();
    let c = scene.add_prim(b, "/A/B/C", "Mesh").unwrap();
    scene.set_attribute(a, "xformOp:a1", AttrValue::Matrix(11)).unwrap();
    scene.set_attribute(a, "xformOp:a2", AttrValue::Matrix(12)).unwrap();
    scene.set_attribute(a, "xformOpOrder", tokens(&["xformOp:a1", "xformOp:a2"])).unwrap();
    scene.set_attribute(b, "xformOpOrder", tokens(&[])).unwrap();
    scene.set_attribute(c, "xformOp:c1", AttrValue::Matrix(31)).unwrap();
    scene.set_attribute(c, "xformOp:c2", AttrValue::Matrix(32)).unwrap();
    scene.set_attribute(c, "xformOpOrder", tokens(&["xformOp:c2", "xformOp:c1"])).unwrap();
    assert_eq!(accumulate_transforms(&scene, c), Ok(product(&[32, 31, 11, 12])));
}

#[test]
fn accumulation_follows_the_parent_not_other_edges() {
    let mut scene = Scene::new();
    let a = scene.add_prim(0, "/A", "Xform").unwrap();
    let b = scene.add_prim(0, "/B", "Xform").unwrap();
    let c = scene.add_prim(a, "/A/C", "Mesh").unwrap();
    scene.add_edge(b, c).unwrap();
    scene.set_attribute(a, "xformOp:transform", AttrValue::Matrix(1)).unwrap();
    scene.set_attribute(b, "xformOp:transform", AttrValue::Matrix(2)).unwrap();
    scene.set_attribute(c, "xformOp:transform", AttrValue::Matrix(3)).unwrap();
    assert_eq!(accumulate_transforms(&scene, c), Ok(product(&[3, 1])));
}

#[test]
fn mismatch_above_stops_the_accumulation() {
    let mut scene = Scene::new();
    let a = scene.add_prim(0, "/A", "Xform").unwrap();
    let b = scene.add_prim(a, "/A/B", "Mesh").unwrap();
    scene.set_attribute(b, "xformOp:transform", AttrValue::Matrix(3)).unwrap();
    scene.set_attribute(a, "xformOp:transform", tokens(&[])).unwrap();
    assert_eq!(accumulate_transforms(&scene, b), Err(AttrError::TypeMismatch));
    scene.set_attribute(a, "xformOp:transform", AttrValue::Matrix(2)).unwrap();
    scene.set_attribute(0, "xformOpOrder", AttrValue::Other).unwrap();
    assert_eq!(accumulate_transforms(&scene, b), Err(AttrError::TypeMismatch));
    assert_eq!(accumulate_transforms(&scene, 0), Err(AttrError::TypeMismatch));
}
