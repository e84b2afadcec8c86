use gltf_mesh::document::Accessor;
use gltf_mesh::document::Extensions;
use gltf_mesh::document::Get;
use gltf_mesh::document::Index;
use gltf_mesh::document::Material;
use gltf_mesh::document::NoExtras;
use gltf_mesh::document::Root;
use gltf_mesh::mesh::Mesh;
use gltf_mesh::mesh::Mode;
use gltf_mesh::mesh::Primitive;

fn root(accessors: usize, materials: usize) -> Root {
    let mut r = Root { accessors: Vec::new(), materials: Vec::new() };
    for _ in 0..accessors {
        r.accessors.push(Accessor);
    }
    for _ in 0..materials {
        r.materials.push(Material);
    }
    r
}

fn attr(name: &str, position: u32) -> (String, Index<Accessor>) {
    (name.to_string(), Index::new(position))
}

fn primitive(
    attributes: Vec<(String, Index<Accessor>)>,
    indices: Option<u32>,
    material: u32,
    targets: Vec<Vec<(String, Index<Accessor>)>>,
) -> Primitive<NoExtras> {
    Primitive {
        attributes,
        extensions: Extensions,
        extras: (),
        indices: indices.map(Index::new),
        material: Index::new(material),
        mode: Mode::Triangles,
        targets,
    }
}

fn mesh(primitives: Vec<Primitive<NoExtras>>) -> Mesh<NoExtras> {
    Mesh { extensions: Extensions, extras: (), name: None, primitives, weights: vec![] }
}

#[test]
fn empty_mesh_passes_any_document() {
    assert!(mesh(vec![]).range_check(&root(0, 0)).is_ok());
    assert!(mesh(vec![]).range_check(&root(3, 2)).is_ok());
}

#[test]
fn in_bounds_references_pass() {
    let p = primitive(
        vec![attr("POSITION", 0), attr("NORMAL", 2)],
        Some(1),
        1,
        vec![vec![attr("POSITION", 2)]],
    );
    assert!(mesh(vec![p]).range_check(&root(3, 2)).is_ok());
}

#[test]
fn material_one_past_end_fails() {
    let p = primitive(vec![attr("POSITION", 0)], None, 2, vec![]);
    assert!(mesh(vec![p]).range_check(&root(3, 2)).is_err());
}

#[test]
fn attribute_one_past_end_fails() {
    let p = primitive(vec![attr("POSITION", 3)], None, 0, vec![]);
    assert!(mesh(vec![p]).range_check(&root(3, 2)).is_err());
}

#[test]
fn indices_one_past_end_fails() {
    let p = primitive(vec![attr("POSITION", 0)], Some(3), 0, vec![]);
    assert!(mesh(vec![p]).range_check(&root(3, 2)).is_err());
}

#[test]
fn target_one_past_end_fails() {
    let p = primitive(vec![attr("POSITION", 0)], None, 0, vec![vec![attr("POSITION", 3)]]);
    assert!(mesh(vec![p]).range_check(&root(3, 2)).is_err());
}

#[test]
fn combined_violations_fail() {
    let p = primitive(vec![attr("POSITION", 3)], Some(3), 2, vec![vec![attr("POSITION", 3)]]);
    assert!(mesh(vec![p]).range_check(&root(3, 2)).is_err());
}

#[test]
fn later_primitive_violation_fails() {
    let good = primitive(vec![attr("POSITION", 0)], None, 0, vec![]);
    let bad = primitive(vec![], None, 2, vec![]);
    assert!(mesh(vec![good, bad]).range_check(&root(3, 2)).is_err());
}

#[test]
fn resolution_is_a_bounds_checked_lookup() {
    let r = root(2, 1);
    let in_accessors: Index<Accessor> = Index::new(1);
    let past_accessors: Index<Accessor> = Index::new(2);
    let in_materials: Index<Material> = Index::new(0);
    let past_materials: Index<Material> = Index::new(1);
    assert!(r.try_get(&in_accessors).is_ok());
    assert!(r.try_get(&past_accessors).is_err());
    assert!(r.try_get(&in_materials).is_ok());
    assert!(r.try_get(&past_materials).is_err());
}

#[test]
fn end_to_end_example() {
    let document = root(2, 1);
    let p = primitive(vec![attr("POSITION", 0)], Some(1), 0, vec![]);
    assert!(mesh(vec![p]).range_check(&document).is_ok());
    let p_bad_material = primitive(vec![attr("POSITION", 0)], Some(1), 1, vec![]);
    assert!(mesh(vec![p_bad_material]).range_check(&document).is_err());
}
