use gltf_mesh::codec::Value;
use gltf_mesh::codec::decode_mesh;
use gltf_mesh::codec::decode_primitive;
use gltf_mesh::codec::encode_mesh;
use gltf_mesh::codec::encode_primitive;
use gltf_mesh::document::Accessor;
use gltf_mesh::document::Extensions;
use gltf_mesh::document::Index;
use gltf_mesh::document::NoExtras;
use gltf_mesh::mesh::Mesh;
use gltf_mesh::mesh::Mode;
use gltf_mesh::mesh::Primitive;

fn attr(name: &str, position: u32) -> (String, Index<Accessor>) {
    (name.to_string(), Index::new(position))
}

fn primitive_eq(a: &Primitive<NoExtras>, b: &Primitive<NoExtras>) -> bool {
    a.attributes.len() == b.attributes.len()
        && a.attributes
            .iter()
            .zip(b.attributes.iter())
            .all(|(x, y)| x.0 == y.0 && x.1.value() == y.1.value())
        && a.indices.as_ref().map(|ix| ix.value()) == b.indices.as_ref().map(|ix| ix.value())
        && a.material.value() == b.material.value()
        && a.mode == b.mode
        && a.targets.len() == b.targets.len()
        && a.targets.iter().zip(b.targets.iter()).all(|(s, t)| {
            s.len() == t.len()
                && s.iter()
                    .zip(t.iter())
                    .all(|(x, y)| x.0 == y.0 && x.1.value() == y.1.value())
        })
}

fn mesh_eq(a: &Mesh<NoExtras>, b: &Mesh<NoExtras>) -> bool {
    a.name == b.name
        && a.weights == b.weights
        && a.primitives.len() == b.primitives.len()
        && a.primitives
            .iter()
            .zip(b.primitives.iter())
            .all(|(x, y)| primitive_eq(x, y))
}

#[test]
fn round_trip_all_present() {
    let full = Primitive::<NoExtras> {
        attributes: vec![attr("POSITION", 0), attr("NORMAL", 1)],
        extensions: Extensions,
        extras: (),
        indices: Some(Index::new(2)),
        material: Index::new(0),
        mode: Mode::Points,
        targets: vec![vec![attr("POSITION", 3)], vec![]],
    };
    let minimal = Primitive::<NoExtras> {
        attributes: vec![],
        extensions: Extensions,
        extras: (),
        indices: None,
        material: Index::new(0),
        mode: Mode::Triangles,
        targets: vec![],
    };
    let mesh = Mesh::<NoExtras> {
        extensions: Extensions,
        extras: (),
        name: Some("mesh0".to_string()),
        primitives: vec![full, minimal],
        weights: vec![1.0f32.to_bits(), 0.5f32.to_bits()],
    };
    let decoded = decode_mesh(&encode_mesh(&mesh)).expect("round trip should decode");
    assert!(mesh_eq(&mesh, &decoded));
}

#[test]
fn round_trip_all_default() {
    let mesh = Mesh::<NoExtras> {
        extensions: Extensions,
        extras: (),
        name: None,
        primitives: vec![],
        weights: vec![],
    };
    let decoded = decode_mesh(&encode_mesh(&mesh)).expect("round trip should decode");
    assert!(mesh_eq(&mesh, &decoded));
}

#[test]
fn round_trip_primitive() {
    let p = Primitive::<NoExtras> {
        attributes: vec![attr("POSITION", 4)],
        extensions: Extensions,
        extras: (),
        indices: Some(Index::new(7)),
        material: Index::new(3),
        mode: Mode::LineLoop,
        targets: vec![vec![attr("NORMAL", 9)]],
    };
    let decoded = decode_primitive(&encode_primitive(&p)).expect("round trip should decode");
    assert!(primitive_eq(&p, &decoded));
}

#[test]
fn primitive_defaults_when_fields_omitted() {
    let encoded = Value::Obj(vec![("material".to_string(), Value::U32(0))]);
    let p = decode_primitive(&encoded).expect("material alone should decode");
    assert_eq!(p.mode, Mode::Triangles);
    assert!(p.attributes.is_empty());
    assert!(p.indices.is_none());
    assert!(p.targets.is_empty());
    assert_eq!(p.material.value(), 0);
}

#[test]
fn mesh_defaults_when_fields_omitted() {
    let encoded = Value::Obj(vec![("primitives".to_string(), Value::Arr(vec![]))]);
    let m = decode_mesh(&encoded).expect("primitives alone should decode");
    assert!(m.name.is_none());
    assert!(m.weights.is_empty());
    assert!(m.primitives.is_empty());
}

#[test]
fn mesh_unknown_field_rejected() {
    let encoded = Value::Obj(vec![
        ("primitives".to_string(), Value::Arr(vec![])),
        ("color".to_string(), Value::Null),
    ]);
    assert!(decode_mesh(&encoded).is_err());
}

#[test]
fn primitive_unknown_field_rejected() {
    let encoded = Value::Obj(vec![
        ("material".to_string(), Value::U32(0)),
        ("materials".to_string(), Value::U32(0)),
    ]);
    assert!(decode_primitive(&encoded).is_err());
}

#[test]
fn duplicate_field_rejected() {
    let encoded = Value::Obj(vec![
        ("material".to_string(), Value::U32(0)),
        ("material".to_string(), Value::U32(0)),
    ]);
    assert!(decode_primitive(&encoded).is_err());
}

#[test]
fn missing_material_rejected() {
    let encoded = Value::Obj(vec![]);
    assert!(decode_primitive(&encoded).is_err());
}

#[test]
fn missing_primitives_rejected() {
    let encoded = Value::Obj(vec![("name".to_string(), Value::Str("m".to_string()))]);
    assert!(decode_mesh(&encoded).is_err());
}

#[test]
fn wrongly_shaped_fields_rejected() {
    let name_not_text = Value::Obj(vec![
        ("name".to_string(), Value::U32(3)),
        ("primitives".to_string(), Value::Arr(vec![])),
    ]);
    assert!(decode_mesh(&name_not_text).is_err());
    let weights_not_list = Value::Obj(vec![
        ("primitives".to_string(), Value::Arr(vec![])),
        ("weights".to_string(), Value::U32(1)),
    ]);
    assert!(decode_mesh(&weights_not_list).is_err());
    let material_not_integer = Value::Obj(vec![(
        "material".to_string(),
        Value::Str("0".to_string()),
    )]);
    assert!(decode_primitive(&material_not_integer).is_err());
    let not_an_object = Value::U32(0);
    assert!(decode_mesh(&not_an_object).is_err());
    assert!(decode_primitive(&not_an_object).is_err());
}

#[test]
fn null_decodes_to_absent() {
    let mesh_encoded = Value::Obj(vec![
        ("name".to_string(), Value::Null),
        ("primitives".to_string(), Value::Arr(vec![])),
    ]);
    let m = decode_mesh(&mesh_encoded).expect("explicit null name should decode");
    assert!(m.name.is_none());
    let prim_encoded = Value::Obj(vec![
        ("indices".to_string(), Value::Null),
        ("material".to_string(), Value::U32(0)),
    ]);
    let p = decode_primitive(&prim_encoded).expect("explicit null indices should decode");
    assert!(p.indices.is_none());
}

#[test]
fn mode_domain_decodes_zero_through_six() {
    let expected = [
        Mode::Points,
        Mode::Lines,
        Mode::LineLoop,
        Mode::LineStrip,
        Mode::Triangles,
        Mode::TriangleStrip,
        Mode::TriangleFan,
    ];
    for (n, mode) in expected.iter().enumerate() {
        assert_eq!(Mode::from_value(n as u32), Some(*mode));
        assert_eq!(mode.to_value(), n as u32);
    }
    assert_eq!(Mode::from_value(7), None);
}

#[test]
fn mode_seven_is_a_decode_error() {
    let encoded = Value::Obj(vec![
        ("material".to_string(), Value::U32(0)),
        ("mode".to_string(), Value::U32(7)),
    ]);
    assert!(decode_primitive(&encoded).is_err());
}

#[test]
fn mode_defaults_to_triangles() {
    assert_eq!(Mode::default(), Mode::Triangles);
}

#[test]
fn decoded_attribute_positions_are_kept() {
    let encoded = Value::Obj(vec![
        (
            "attributes".to_string(),
            Value::Obj(vec![("POSITION".to_string(), Value::U32(5))]),
        ),
        ("material".to_string(), Value::U32(2)),
        ("mode".to_string(), Value::U32(0)),
    ]);
    let p = decode_primitive(&encoded).expect("should decode");
    assert_eq!(p.attributes.len(), 1);
    assert_eq!(p.attributes[0].0, "POSITION");
    assert_eq!(p.attributes[0].1.value(), 5);
    assert_eq!(p.material.value(), 2);
    assert_eq!(p.mode, Mode::Points);
}
