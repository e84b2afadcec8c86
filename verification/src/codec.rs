//! Structured encoding of mesh entities and the strict codec over it:
//! decoding rejects unknown and duplicated fields and substitutes the
//! specified defaults for absent optional fields; encoding is its inverse.

use vstd::prelude::*;

use crate::document::Accessor;
use crate::document::Extensions;
use crate::document::Index;
use crate::document::Material;
use crate::document::NoExtras;
use crate::mesh::AttributeMapModel;
use crate::mesh::Mesh;
use crate::mesh::Primitive;
use crate::mesh::attribute_map_model;
use crate::mesh::primitives_model;
use crate::mesh::targets_model;
use crate::mesh::MeshModel;
use crate::mesh::Mode;
use crate::mesh::PrimitiveModel;
use crate::mesh::mode_of_value;
use crate::mesh::mode_value;

verus! {

/// An encoded field could not be mapped to its typed representation: a
/// wrongly shaped value, a topology integer outside the enumerated set, a
/// missing mandatory field, or a field name outside the schema.
#[derive(Clone, Copy, Debug, PartialEq, Eq, Structural)]
pub struct DecodeError;

/// One value of the document's structured encoding: the fragment of the
/// format's value grammar that mesh entities occupy. Objects keep their
/// fields as an ordered list of name/value pairs.
pub enum Value {
    /// An absent or explicitly empty value.
    Null,
    /// A non-negative integer.
    U32(u32),
    /// A text value.
    Str(String),
    /// An ordered list of values.
    Arr(Vec<Value>),
    /// A structured value: named fields in storage order.
    Obj(Vec<(String, Value)>),
}

/// Mathematical shape of an encoded value.
pub ghost enum ValueModel {
    Null,
    U32(u32),
    Str(Seq<char>),
    Arr(Seq<ValueModel>),
    Obj(Seq<(Seq<char>, ValueModel)>),
}

/// The model of a stored encoding value.
pub open spec fn value_model(v: Value) -> ValueModel
    decreases v,
{
    match v {
        Value::Null => ValueModel::Null,
        Value::U32(n) => ValueModel::U32(n),
        Value::Str(s) => ValueModel::Str(s@),
        Value::Arr(items) => ValueModel::Arr(item_models(items@)),
        Value::Obj(entries) => ValueModel::Obj(entry_models(entries@)),
    }
}

/// The models of a stored list of values, in order.
pub open spec fn item_models(items: Seq<Value>) -> Seq<ValueModel>
    decreases items,
{
    if items.len() == 0 {
        Seq::empty()
    } else {
        item_models(items.drop_last()).push(value_model(items.last()))
    }
}

/// The models of a stored list of object fields, in order.
pub open spec fn entry_models(entries: Seq<(String, Value)>) -> Seq<(Seq<char>, ValueModel)>
    decreases entries,
{
    if entries.len() == 0 {
        Seq::empty()
    } else {
        entry_models(entries.drop_last()).push(
            (entries.last().0@, value_model(entries.last().1)),
        )
    }
}

impl View for Value {
    type V = ValueModel;

    open spec fn view(&self) -> ValueModel {
        value_model(*self)
    }
}

/// A list of integers, decoded elementwise; any other element shape fails.
pub open spec fn decode_u32_items(items: Seq<ValueModel>) -> Option<Seq<u32>>
    decreases items.len(),
{
    if items.len() == 0 {
        Some(Seq::empty())
    } else {
        match (decode_u32_items(items.drop_last()), items.last()) {
            (Some(ws), ValueModel::U32(n)) => Some(ws.push(n)),
            _ => None,
        }
    }
}

/// The fields of an encoded attribute mapping, decoded in order. Every
/// field name is a semantic attribute name, so no name is rejected here;
/// every value must be an integer accessor position.
pub open spec fn decode_attr_entries(entries: Seq<(Seq<char>, ValueModel)>) -> Option<
    AttributeMapModel,
>
    decreases entries.len(),
{
    if entries.len() == 0 {
        Some(Seq::empty())
    } else {
        match (decode_attr_entries(entries.drop_last()), entries.last().1) {
            (Some(m), ValueModel::U32(n)) => Some(m.push((entries.last().0, n))),
            _ => None,
        }
    }
}

/// An encoded attribute mapping: a structured value whose fields all hold
/// integer accessor positions.
pub open spec fn decode_attr_map_model(v: ValueModel) -> Option<AttributeMapModel> {
    match v {
        ValueModel::Obj(entries) => decode_attr_entries(entries),
        _ => None,
    }
}

/// A list of morph targets, decoded elementwise as attribute mappings.
pub open spec fn decode_target_items(items: Seq<ValueModel>) -> Option<Seq<AttributeMapModel>>
    decreases items.len(),
{
    if items.len() == 0 {
        Some(Seq::empty())
    } else {
        match (decode_target_items(items.drop_last()), decode_attr_map_model(items.last())) {
            (Some(ts), Some(t)) => Some(ts.push(t)),
            _ => None,
        }
    }
}

/// Running state of a strict primitive decode: which schema fields have
/// been seen, and the decoded payload of each field seen so far.
pub ghost struct PrimitiveAcc {
    pub attributes: Option<AttributeMapModel>,
    pub extensions_seen: bool,
    pub extras_seen: bool,
    pub indices: Option<Option<u32>>,
    pub material: Option<u32>,
    pub mode: Option<Mode>,
    pub targets: Option<Seq<AttributeMapModel>>,
}

/// The state before any primitive field has been decoded.
pub open spec fn primitive_acc_init() -> PrimitiveAcc {
    PrimitiveAcc {
        attributes: None,
        extensions_seen: false,
        extras_seen: false,
        indices: None,
        material: None,
        mode: None,
        targets: None,
    }
}

/// One step of a strict primitive decode: takes the next encoded field and
/// either absorbs it or fails. A field name outside the primitive schema
/// fails, as does a field seen twice or a wrongly shaped payload. The
/// `extensions` and `extras` payloads are format-defined and pass through
/// unexamined.
pub open spec fn primitive_field_step(
    acc: PrimitiveAcc,
    key: Seq<char>,
    val: ValueModel,
) -> Option<PrimitiveAcc> {
    if key == "attributes"@ {
        if acc.attributes is Some {
            None
        } else {
            match decode_attr_map_model(val) {
                Some(m) => Some(PrimitiveAcc { attributes: Some(m), ..acc }),
                None => None,
            }
        }
    } else if key == "extensions"@ {
        if acc.extensions_seen {
            None
        } else {
            Some(PrimitiveAcc { extensions_seen: true, ..acc })
        }
    } else if key == "extras"@ {
        if acc.extras_seen {
            None
        } else {
            Some(PrimitiveAcc { extras_seen: true, ..acc })
        }
    } else if key == "indices"@ {
        if acc.indices is Some {
            None
        } else {
            match val {
                ValueModel::Null => Some(PrimitiveAcc { indices: Some(None), ..acc }),
                ValueModel::U32(n) => Some(PrimitiveAcc { indices: Some(Some(n)), ..acc }),
                _ => None,
            }
        }
    } else if key == "material"@ {
        if acc.material is Some {
            None
        } else {
            match val {
                ValueModel::U32(n) => Some(PrimitiveAcc { material: Some(n), ..acc }),
                _ => None,
            }
        }
    } else if key == "mode"@ {
        if acc.mode is Some {
            None
        } else {
            match val {
                ValueModel::U32(n) => match mode_of_value(n) {
                    Some(m) => Some(PrimitiveAcc { mode: Some(m), ..acc }),
                    None => None,
                },
                _ => None,
            }
        }
    } else if key == "targets"@ {
        if acc.targets is Some {
            None
        } else {
            match val {
                ValueModel::Arr(items) => match decode_target_items(items) {
                    Some(ts) => Some(PrimitiveAcc { targets: Some(ts), ..acc }),
                    None => None,
                },
                _ => None,
            }
        }
    } else {
        None
    }
}

/// A strict primitive decode folded over the encoded fields in order.
pub open spec fn primitive_fields_fold(entries: Seq<(Seq<char>, ValueModel)>) -> Option<
    PrimitiveAcc,
>
    decreases entries.len(),
{
    if entries.len() == 0 {
        Some(primitive_acc_init())
    } else {
        match primitive_fields_fold(entries.drop_last()) {
            Some(acc) => primitive_field_step(acc, entries.last().0, entries.last().1),
            None => None,
        }
    }
}

/// What an encoded primitive decodes to, if anything: a structured value
/// whose fields all decode, with `material` mandatory, absent `mode`
/// substituted by Triangles, and absent `attributes`, `indices` and
/// `targets` substituted by their empty defaults.
pub open spec fn decode_primitive_model(v: ValueModel) -> Option<PrimitiveModel> {
    match v {
        ValueModel::Obj(entries) => match primitive_fields_fold(entries) {
            Some(acc) => match acc.material {
                Some(material) => Some(
                    PrimitiveModel {
                        attributes: match acc.attributes {
                            Some(m) => m,
                            None => Seq::empty(),
                        },
                        indices: match acc.indices {
                            Some(ix) => ix,
                            None => None,
                        },
                        material,
                        mode: match acc.mode {
                            Some(m) => m,
                            None => Mode::Triangles,
                        },
                        targets: match acc.targets {
                            Some(ts) => ts,
                            None => Seq::empty(),
                        },
                    },
                ),
                None => None,
            },
            None => None,
        },
        _ => None,
    }
}

/// A list of primitives, decoded elementwise.
pub open spec fn decode_primitive_items(items: Seq<ValueModel>) -> Option<Seq<PrimitiveModel>>
    decreases items.len(),
{
    if items.len() == 0 {
        Some(Seq::empty())
    } else {
        match (decode_primitive_items(items.drop_last()), decode_primitive_model(items.last())) {
            (Some(ps), Some(p)) => Some(ps.push(p)),
            _ => None,
        }
    }
}

/// Running state of a strict mesh decode.
pub ghost struct MeshAcc {
    pub extensions_seen: bool,
    pub extras_seen: bool,
    pub name: Option<Option<Seq<char>>>,
    pub primitives: Option<Seq<PrimitiveModel>>,
    pub weights: Option<Seq<u32>>,
}

/// The state before any mesh field has been decoded.
pub open spec fn mesh_acc_init() -> MeshAcc {
    MeshAcc {
        extensions_seen: false,
        extras_seen: false,
        name: None,
        primitives: None,
        weights: None,
    }
}

/// One step of a strict mesh decode; a field name outside the mesh schema
/// fails, as does a field seen twice or a wrongly shaped payload.
pub open spec fn mesh_field_step(acc: MeshAcc, key: Seq<char>, val: ValueModel) -> Option<
    MeshAcc,
> {
    if key == "extensions"@ {
        if acc.extensions_seen {
            None
        } else {
            Some(MeshAcc { extensions_seen: true, ..acc })
        }
    } else if key == "extras"@ {
        if acc.extras_seen {
            None
        } else {
            Some(MeshAcc { extras_seen: true, ..acc })
        }
    } else if key == "name"@ {
        if acc.name is Some {
            None
        } else {
            match val {
                ValueModel::Null => Some(MeshAcc { name: Some(None), ..acc }),
                ValueModel::Str(s) => Some(MeshAcc { name: Some(Some(s)), ..acc }),
                _ => None,
            }
        }
    } else if key == "primitives"@ {
        if acc.primitives is Some {
            None
        } else {
            match val {
                ValueModel::Arr(items) => match decode_primitive_items(items) {
                    Some(ps) => Some(MeshAcc { primitives: Some(ps), ..acc }),
                    None => None,
                },
                _ => None,
            }
        }
    } else if key == "weights"@ {
        if acc.weights is Some {
            None
        } else {
            match val {
                ValueModel::Arr(items) => match decode_u32_items(items) {
                    Some(ws) => Some(MeshAcc { weights: Some(ws), ..acc }),
                    None => None,
                },
                _ => None,
            }
        }
    } else {
        None
    }
}

/// A strict mesh decode folded over the encoded fields in order.
pub open spec fn mesh_fields_fold(entries: Seq<(Seq<char>, ValueModel)>) -> Option<MeshAcc>
    decreases entries.len(),
{
    if entries.len() == 0 {
        Some(mesh_acc_init())
    } else {
        match mesh_fields_fold(entries.drop_last()) {
            Some(acc) => mesh_field_step(acc, entries.last().0, entries.last().1),
            None => None,
        }
    }
}

/// What an encoded mesh decodes to, if anything: a structured value whose
/// fields all decode, with `primitives` mandatory and absent `name` and
/// `weights` substituted by their defaults.
pub open spec fn decode_mesh_model(v: ValueModel) -> Option<MeshModel> {
    match v {
        ValueModel::Obj(entries) => match mesh_fields_fold(entries) {
            Some(acc) => match acc.primitives {
                Some(primitives) => Some(
                    MeshModel {
                        name: match acc.name {
                            Some(n) => n,
                            None => None,
                        },
                        primitives,
                        weights: match acc.weights {
                            Some(ws) => ws,
                            None => Seq::empty(),
                        },
                    },
                ),
                None => None,
            },
            None => None,
        },
        _ => None,
    }
}

/// The models of a stored list of values are the values' models, in order.
pub proof fn lemma_item_models(items: Seq<Value>)
    ensures
        item_models(items).len() == items.len(),
        forall|i: int|
            0 <= i < items.len() ==> item_models(items)[i] == value_model(#[trigger] items[i]),
    decreases items.len(),
{
    if items.len() > 0 {
        lemma_item_models(items.drop_last());
        assert forall|i: int|
            0 <= i < items.len() implies item_models(items)[i] == value_model(
            #[trigger] items[i],
        ) by {
            if i < items.len() - 1 {
                assert(items.drop_last()[i] == items[i]);
            } else {
                assert(items.last() == items[i]);
            }
        }
    }
}

/// The models of stored object fields are the fields' models, in order.
pub proof fn lemma_entry_models(entries: Seq<(String, Value)>)
    ensures
        entry_models(entries).len() == entries.len(),
        forall|i: int|
            0 <= i < entries.len() ==> entry_models(entries)[i] == ((#[trigger] entries[i]).0@,
            value_model(entries[i].1)),
    decreases entries.len(),
{
    if entries.len() > 0 {
        lemma_entry_models(entries.drop_last());
        assert forall|i: int|
            0 <= i < entries.len() implies entry_models(entries)[i] == ((#[trigger] entries[i]).0@,
        value_model(entries[i].1)) by {
            if i < entries.len() - 1 {
                assert(entries.drop_last()[i] == entries[i]);
            } else {
                assert(entries.last() == entries[i]);
            }
        }
    }
}

/// Appending a value extends its list's models by the value's model.
pub proof fn lemma_item_models_push(items: Seq<Value>, v: Value)
    ensures
        item_models(items.push(v)) == item_models(items).push(value_model(v)),
{
    assert(items.push(v).drop_last() =~= items);
    assert(items.push(v).last() == v);
}

/// Appending a field extends its object's models by the field's model.
pub proof fn lemma_entry_models_push(entries: Seq<(String, Value)>, e: (String, Value))
    ensures
        entry_models(entries.push(e)) == entry_models(entries).push((e.0@, value_model(e.1))),
{
    assert(entries.push(e).drop_last() =~= entries);
    assert(entries.push(e).last() == e);
}

/// A strict elementwise decode that has already failed on a prefix fails
/// on the whole list.
pub proof fn lemma_u32_items_prefix_none(items: Seq<ValueModel>, i: int)
    requires
        0 <= i <= items.len(),
        decode_u32_items(items.take(i)) is None,
    ensures
        decode_u32_items(items) is None,
    decreases items.len() - i,
{
    if i == items.len() {
        assert(items.take(i) =~= items);
    } else {
        assert(items.take(i + 1).drop_last() =~= items.take(i));
        lemma_u32_items_prefix_none(items, i + 1);
    }
}

/// An attribute-map decode that has already failed on a prefix of the
/// fields fails on the whole mapping.
pub proof fn lemma_attr_entries_prefix_none(entries: Seq<(Seq<char>, ValueModel)>, i: int)
    requires
        0 <= i <= entries.len(),
        decode_attr_entries(entries.take(i)) is None,
    ensures
        decode_attr_entries(entries) is None,
    decreases entries.len() - i,
{
    if i == entries.len() {
        assert(entries.take(i) =~= entries);
    } else {
        assert(entries.take(i + 1).drop_last() =~= entries.take(i));
        lemma_attr_entries_prefix_none(entries, i + 1);
    }
}

/// A morph-target list decode that has already failed on a prefix fails on
/// the whole list.
pub proof fn lemma_target_items_prefix_none(items: Seq<ValueModel>, i: int)
    requires
        0 <= i <= items.len(),
        decode_target_items(items.take(i)) is None,
    ensures
        decode_target_items(items) is None,
    decreases items.len() - i,
{
    if i == items.len() {
        assert(items.take(i) =~= items);
    } else {
        assert(items.take(i + 1).drop_last() =~= items.take(i));
        lemma_target_items_prefix_none(items, i + 1);
    }
}

/// A primitive-list decode that has already failed on a prefix fails on
/// the whole list.
pub proof fn lemma_primitive_items_prefix_none(items: Seq<ValueModel>, i: int)
    requires
        0 <= i <= items.len(),
        decode_primitive_items(items.take(i)) is None,
    ensures
        decode_primitive_items(items) is None,
    decreases items.len() - i,
{
    if i == items.len() {
        assert(items.take(i) =~= items);
    } else {
        assert(items.take(i + 1).drop_last() =~= items.take(i));
        lemma_primitive_items_prefix_none(items, i + 1);
    }
}

/// A strict primitive decode that has already failed on a prefix of the
/// fields fails on the whole entity.
pub proof fn lemma_primitive_fields_prefix_none(entries: Seq<(Seq<char>, ValueModel)>, i: int)
    requires
        0 <= i <= entries.len(),
        primitive_fields_fold(entries.take(i)) is None,
    ensures
        primitive_fields_fold(entries) is None,
    decreases entries.len() - i,
{
    if i == entries.len() {
        assert(entries.take(i) =~= entries);
    } else {
        assert(entries.take(i + 1).drop_last() =~= entries.take(i));
        lemma_primitive_fields_prefix_none(entries, i + 1);
    }
}

/// A strict mesh decode that has already failed on a prefix of the fields
/// fails on the whole entity.
pub proof fn lemma_mesh_fields_prefix_none(entries: Seq<(Seq<char>, ValueModel)>, i: int)
    requires
        0 <= i <= entries.len(),
        mesh_fields_fold(entries.take(i)) is None,
    ensures
        mesh_fields_fold(entries) is None,
    decreases entries.len() - i,
{
    if i == entries.len() {
        assert(entries.take(i) =~= entries);
    } else {
        assert(entries.take(i + 1).drop_last() =~= entries.take(i));
        lemma_mesh_fields_prefix_none(entries, i + 1);
    }
}

/// Decodes an encoded list of integers, as the `weights` payload uses.
fn decode_u32_list(items: &Vec<Value>) -> (r: Result<Vec<u32>, DecodeError>)
    ensures
        match r {
            Ok(ws) => decode_u32_items(item_models(items@)) == Some(ws@),
            Err(_) => decode_u32_items(item_models(items@)) is None,
        },
{
    proof {
        lemma_item_models(items@);
    }
    let ghost models = item_models(items@);
    let mut out: Vec<u32> = Vec::new();
    let mut i: usize = 0;
    while i < items.len()
        invariant
            i <= items.len(),
            models == item_models(items@),
            models.len() == items@.len(),
            forall|k: int| 0 <= k < items@.len() ==> models[k] == value_model(#[trigger] items@[k]),
            decode_u32_items(models.take(i as int)) == Some(out@),
        decreases items.len() - i,
    {
        proof {
            assert(models.take(i + 1).drop_last() =~= models.take(i as int));
            assert(models.take(i + 1).last() == models[i as int]);
        }
        match &items[i] {
            Value::U32(n) => {
                out.push(*n);
            },
            _ => {
                proof {
                    lemma_u32_items_prefix_none(models, i + 1);
                }
                return Err(DecodeError);
            },
        }
        i += 1;
    }
    proof {
        assert(models.take(items@.len() as int) =~= models);
    }
    Ok(out)
}

/// Decodes an encoded attribute mapping: a structured value whose fields
/// pair semantic names with integer accessor positions.
#[verifier::loop_isolation(false)]
fn decode_attr_map(v: &Value) -> (r: Result<Vec<(String, Index<Accessor>)>, DecodeError>)
    ensures
        match r {
            Ok(m) => decode_attr_map_model(v@) == Some(attribute_map_model(m@)),
            Err(_) => decode_attr_map_model(v@) is None,
        },
{
    let entries = match v {
        Value::Obj(entries) => entries,
        _ => {
            return Err(DecodeError);
        },
    };
    proof {
        lemma_entry_models(entries@);
    }
    let ghost models = entry_models(entries@);
    let mut out: Vec<(String, Index<Accessor>)> = Vec::new();
    let mut i: usize = 0;
    while i < entries.len()
        invariant
            i <= entries.len(),
            models == entry_models(entries@),
            models.len() == entries@.len(),
            forall|k: int|
                0 <= k < entries@.len() ==> models[k] == ((#[trigger] entries@[k]).0@,
                value_model(entries@[k].1)),
            decode_attr_entries(models.take(i as int)) == Some(attribute_map_model(out@)),
        decreases entries.len() - i,
    {
        proof {
            assert(models.take(i + 1).drop_last() =~= models.take(i as int));
            assert(models.take(i + 1).last() == models[i as int]);
        }
        match &entries[i].1 {
            Value::U32(n) => {
                let name = entries[i].0.clone();
                let ghost old_out = out@;
                out.push((name, Index::new(*n)));
                proof {
                    assert(attribute_map_model(out@) =~= attribute_map_model(old_out).push(
                        (entries@[i as int].0@, *n),
                    ));
                }
            },
            _ => {
                proof {
                    assert(models[i as int].1 == value_model(entries@[i as int].1));
                    assert(!(value_model(entries@[i as int].1) is U32));
                    assert(decode_attr_entries(models.take(i + 1)) is None);
                    lemma_attr_entries_prefix_none(models, i + 1);
                }
                return Err(DecodeError);
            },
        }
        i += 1;
    }
    proof {
        assert(models.take(entries@.len() as int) =~= models);
    }
    Ok(out)
}

/// Decodes an encoded morph-target list: each element is an attribute
/// mapping.
#[verifier::loop_isolation(false)]
fn decode_target_list(items: &Vec<Value>) -> (r: Result<
    Vec<Vec<(String, Index<Accessor>)>>,
    DecodeError,
>)
    ensures
        match r {
            Ok(ts) => decode_target_items(item_models(items@)) == Some(targets_model(ts@)),
            Err(_) => decode_target_items(item_models(items@)) is None,
        },
{
    proof {
        lemma_item_models(items@);
    }
    let ghost models = item_models(items@);
    let mut out: Vec<Vec<(String, Index<Accessor>)>> = Vec::new();
    let mut i: usize = 0;
    while i < items.len()
        invariant
            i <= items.len(),
            decode_target_items(models.take(i as int)) == Some(targets_model(out@)),
        decreases items.len() - i,
    {
        proof {
            assert(models.take(i + 1).drop_last() =~= models.take(i as int));
            assert(models.take(i + 1).last() == models[i as int]);
        }
        match decode_attr_map(&items[i]) {
            Ok(t) => {
                let ghost old_out = out@;
                let ghost t_model = attribute_map_model(t@);
                out.push(t);
                proof {
                    assert(targets_model(out@) =~= targets_model(old_out).push(t_model));
                }
            },
            Err(e) => {
                proof {
                    lemma_target_items_prefix_none(models, i + 1);
                }
                return Err(e);
            },
        }
        i += 1;
    }
    proof {
        assert(models.take(items@.len() as int) =~= models);
    }
    Ok(out)
}

/// The model a partially decoded `attributes` field stands for.
pub open spec fn attr_acc_model(o: Option<Vec<(String, Index<Accessor>)>>) -> Option<
    AttributeMapModel,
> {
    match o {
        Some(m) => Some(attribute_map_model(m@)),
        None => None,
    }
}

/// The model a partially decoded `indices` field stands for.
pub open spec fn indices_acc_model(o: Option<Option<Index<Accessor>>>) -> Option<Option<u32>> {
    match o {
        Some(Some(ix)) => Some(Some(ix@)),
        Some(None) => Some(None),
        None => None,
    }
}

/// The model a partially decoded `material` field stands for.
pub open spec fn material_acc_model(o: Option<Index<Material>>) -> Option<u32> {
    match o {
        Some(m) => Some(m@),
        None => None,
    }
}

/// The model a partially decoded `targets` field stands for.
pub open spec fn targets_acc_model(o: Option<Vec<Vec<(String, Index<Accessor>)>>>) -> Option<
    Seq<AttributeMapModel>,
> {
    match o {
        Some(ts) => Some(targets_model(ts@)),
        None => None,
    }
}

/// Decodes an encoded primitive strictly: every field must belong to the
/// primitive schema and appear at most once; `material` is mandatory;
/// absent optional fields take their specified defaults.
#[verifier::loop_isolation(false)]
pub fn decode_primitive(v: &Value) -> (r: Result<Primitive<NoExtras>, DecodeError>)
    ensures
        match r {
            Ok(p) => decode_primitive_model(v@) == Some(p@),
            Err(_) => decode_primitive_model(v@) is None,
        },
{
    let entries = match v {
        Value::Obj(entries) => entries,
        _ => {
            return Err(DecodeError);
        },
    };
    proof {
        lemma_entry_models(entries@);
    }
    let ghost models = entry_models(entries@);
    let k_attributes: String = "attributes".to_owned();
    let k_extensions: String = "extensions".to_owned();
    let k_extras: String = "extras".to_owned();
    let k_indices: String = "indices".to_owned();
    let k_material: String = "material".to_owned();
    let k_mode: String = "mode".to_owned();
    let k_targets: String = "targets".to_owned();
    let mut attributes: Option<Vec<(String, Index<Accessor>)>> = None;
    let mut extensions_seen: bool = false;
    let mut extras_seen: bool = false;
    let mut indices: Option<Option<Index<Accessor>>> = None;
    let mut material: Option<Index<Material>> = None;
    let mut mode: Option<Mode> = None;
    let mut targets: Option<Vec<Vec<(String, Index<Accessor>)>>> = None;
    let mut i: usize = 0;
    while i < entries.len()
        invariant
            i <= entries.len(),
            primitive_fields_fold(models.take(i as int)) == Some(
                PrimitiveAcc {
                    attributes: attr_acc_model(attributes),
                    extensions_seen: extensions_seen,
                    extras_seen: extras_seen,
                    indices: indices_acc_model(indices),
                    material: material_acc_model(material),
                    mode: mode,
                    targets: targets_acc_model(targets),
                },
            ),
        decreases entries.len() - i,
    {
        proof {
            assert(models.take(i + 1).drop_last() =~= models.take(i as int));
            assert(models.take(i + 1).last() == models[i as int]);
        }
        let key = &entries[i].0;
        if key.eq(&k_attributes) {
            if attributes.is_some() {
                proof {
                    lemma_primitive_fields_prefix_none(models, i + 1);
                }
                return Err(DecodeError);
            }
            match decode_attr_map(&entries[i].1) {
                Ok(m) => {
                    attributes = Some(m);
                },
                Err(e) => {
                    proof {
                        lemma_primitive_fields_prefix_none(models, i + 1);
                    }
                    return Err(e);
                },
            }
        } else if key.eq(&k_extensions) {
            if extensions_seen {
                proof {
                    lemma_primitive_fields_prefix_none(models, i + 1);
                }
                return Err(DecodeError);
            }
            extensions_seen = true;
        } else if key.eq(&k_extras) {
            if extras_seen {
                proof {
                    lemma_primitive_fields_prefix_none(models, i + 1);
                }
                return Err(DecodeError);
            }
            extras_seen = true;
        } else if key.eq(&k_indices) {
            if indices.is_some() {
                proof {
                    lemma_primitive_fields_prefix_none(models, i + 1);
                }
                return Err(DecodeError);
            }
            match &entries[i].1 {
                Value::Null => {
                    indices = Some(None);
                },
                Value::U32(n) => {
                    indices = Some(Some(Index::new(*n)));
                },
                _ => {
                    proof {
                        assert(models[i as int].1 == value_model(entries@[i as int].1));
                        lemma_primitive_fields_prefix_none(models, i + 1);
                    }
                    return Err(DecodeError);
                },
            }
        } else if key.eq(&k_material) {
            if material.is_some() {
                proof {
                    lemma_primitive_fields_prefix_none(models, i + 1);
                }
                return Err(DecodeError);
            }
            match &entries[i].1 {
                Value::U32(n) => {
                    material = Some(Index::new(*n));
                },
                _ => {
                    proof {
                        assert(models[i as int].1 == value_model(entries@[i as int].1));
                        lemma_primitive_fields_prefix_none(models, i + 1);
                    }
                    return Err(DecodeError);
                },
            }
        } else if key.eq(&k_mode) {
            if mode.is_some() {
                proof {
                    lemma_primitive_fields_prefix_none(models, i + 1);
                }
                return Err(DecodeError);
            }
            match &entries[i].1 {
                Value::U32(n) => match Mode::from_value(*n) {
                    Some(m) => {
                        mode = Some(m);
                    },
                    None => {
                        proof {
                            lemma_primitive_fields_prefix_none(models, i + 1);
                        }
                        return Err(DecodeError);
                    },
                },
                _ => {
                    proof {
                        assert(models[i as int].1 == value_model(entries@[i as int].1));
                        lemma_primitive_fields_prefix_none(models, i + 1);
                    }
                    return Err(DecodeError);
                },
            }
        } else if key.eq(&k_targets) {
            if targets.is_some() {
                proof {
                    lemma_primitive_fields_prefix_none(models, i + 1);
                }
                return Err(DecodeError);
            }
            match &entries[i].1 {
                Value::Arr(items) => match decode_target_list(items) {
                    Ok(ts) => {
                        targets = Some(ts);
                    },
                    Err(e) => {
                        proof {
                            lemma_primitive_fields_prefix_none(models, i + 1);
                        }
                        return Err(e);
                    },
                },
                _ => {
                    proof {
                        assert(models[i as int].1 == value_model(entries@[i as int].1));
                        lemma_primitive_fields_prefix_none(models, i + 1);
                    }
                    return Err(DecodeError);
                },
            }
        } else {
            proof {
                lemma_primitive_fields_prefix_none(models, i + 1);
            }
            return Err(DecodeError);
        }
        i += 1;
    }
    proof {
        assert(models.take(entries@.len() as int) =~= models);
    }
    let material = match material {
        Some(m) => m,
        None => {
            return Err(DecodeError);
        },
    };
    let attributes = match attributes {
        Some(m) => m,
        None => Vec::new(),
    };
    let indices = match indices {
        Some(ix) => ix,
        None => None,
    };
    let mode = match mode {
        Some(m) => m,
        None => Mode::Triangles,
    };
    let targets = match targets {
        Some(ts) => ts,
        None => Vec::new(),
    };
    let p = Primitive::<NoExtras> {
        attributes,
        extensions: Extensions,
        extras: (),
        indices,
        material,
        mode,
        targets,
    };
    proof {
        assert(attribute_map_model(Seq::<(String, Index<Accessor>)>::empty())
            =~= Seq::<(Seq<char>, u32)>::empty());
        assert(targets_model(Seq::<Vec<(String, Index<Accessor>)>>::empty())
            =~= Seq::<AttributeMapModel>::empty());
    }
    Ok(p)
}

/// Decodes an encoded primitive list elementwise.
#[verifier::loop_isolation(false)]
fn decode_primitive_list(items: &Vec<Value>) -> (r: Result<Vec<Primitive<NoExtras>>, DecodeError>)
    ensures
        match r {
            Ok(ps) => decode_primitive_items(item_models(items@)) == Some(primitives_model(ps@)),
            Err(_) => decode_primitive_items(item_models(items@)) is None,
        },
{
    proof {
        lemma_item_models(items@);
    }
    let ghost models = item_models(items@);
    let mut out: Vec<Primitive<NoExtras>> = Vec::new();
    let mut i: usize = 0;
    while i < items.len()
        invariant
            i <= items.len(),
            decode_primitive_items(models.take(i as int)) == Some(primitives_model(out@)),
        decreases items.len() - i,
    {
        proof {
            assert(models.take(i + 1).drop_last() =~= models.take(i as int));
            assert(models.take(i + 1).last() == models[i as int]);
        }
        match decode_primitive(&items[i]) {
            Ok(p) => {
                let ghost old_out = out@;
                let ghost p_model = p@;
                out.push(p);
                proof {
                    assert(primitives_model(out@) =~= primitives_model(old_out).push(p_model));
                }
            },
            Err(e) => {
                proof {
                    lemma_primitive_items_prefix_none(models, i + 1);
                }
                return Err(e);
            },
        }
        i += 1;
    }
    proof {
        assert(models.take(items@.len() as int) =~= models);
    }
    Ok(out)
}

/// The model a partially decoded `name` field stands for.
pub open spec fn name_acc_model(o: Option<Option<String>>) -> Option<Option<Seq<char>>> {
    match o {
        Some(Some(s)) => Some(Some(s@)),
        Some(None) => Some(None),
        None => None,
    }
}

/// The model a partially decoded `primitives` field stands for.
pub open spec fn primitives_acc_model(o: Option<Vec<Primitive<NoExtras>>>) -> Option<
    Seq<PrimitiveModel>,
> {
    match o {
        Some(ps) => Some(primitives_model(ps@)),
        None => None,
    }
}

/// The model a partially decoded `weights` field stands for.
pub open spec fn weights_acc_model(o: Option<Vec<u32>>) -> Option<Seq<u32>> {
    match o {
        Some(ws) => Some(ws@),
        None => None,
    }
}

/// Decodes an encoded mesh strictly: every field must belong to the mesh
/// schema and appear at most once; `primitives` is mandatory; absent
/// optional fields take their specified defaults.
#[verifier::loop_isolation(false)]
pub fn decode_mesh(v: &Value) -> (r: Result<Mesh<NoExtras>, DecodeError>)
    ensures
        match r {
            Ok(m) => decode_mesh_model(v@) == Some(m@),
            Err(_) => decode_mesh_model(v@) is None,
        },
{
    let entries = match v {
        Value::Obj(entries) => entries,
        _ => {
            return Err(DecodeError);
        },
    };
    proof {
        lemma_entry_models(entries@);
    }
    let ghost models = entry_models(entries@);
    let k_extensions: String = "extensions".to_owned();
    let k_extras: String = "extras".to_owned();
    let k_name: String = "name".to_owned();
    let k_primitives: String = "primitives".to_owned();
    let k_weights: String = "weights".to_owned();
    let mut extensions_seen: bool = false;
    let mut extras_seen: bool = false;
    let mut name: Option<Option<String>> = None;
    let mut primitives: Option<Vec<Primitive<NoExtras>>> = None;
    let mut weights: Option<Vec<u32>> = None;
    let mut i: usize = 0;
    while i < entries.len()
        invariant
            i <= entries.len(),
            mesh_fields_fold(models.take(i as int)) == Some(
                MeshAcc {
                    extensions_seen: extensions_seen,
                    extras_seen: extras_seen,
                    name: name_acc_model(name),
                    primitives: primitives_acc_model(primitives),
                    weights: weights_acc_model(weights),
                },
            ),
        decreases entries.len() - i,
    {
        proof {
            assert(models.take(i + 1).drop_last() =~= models.take(i as int));
            assert(models.take(i + 1).last() == models[i as int]);
        }
        let key = &entries[i].0;
        if key.eq(&k_extensions) {
            if extensions_seen {
                proof {
                    lemma_mesh_fields_prefix_none(models, i + 1);
                }
                return Err(DecodeError);
            }
            extensions_seen = true;
        } else if key.eq(&k_extras) {
            if extras_seen {
                proof {
                    lemma_mesh_fields_prefix_none(models, i + 1);
                }
                return Err(DecodeError);
            }
            extras_seen = true;
        } else if key.eq(&k_name) {
            if name.is_some() {
                proof {
                    lemma_mesh_fields_prefix_none(models, i + 1);
                }
                return Err(DecodeError);
            }
            match &entries[i].1 {
                Value::Null => {
                    name = Some(None);
                },
                Value::Str(s) => {
                    name = Some(Some(s.clone()));
                },
                _ => {
                    proof {
                        assert(models[i as int].1 == value_model(entries@[i as int].1));
                        lemma_mesh_fields_prefix_none(models, i + 1);
                    }
                    return Err(DecodeError);
                },
            }
        } else if key.eq(&k_primitives) {
            if primitives.is_some() {
                proof {
                    lemma_mesh_fields_prefix_none(models, i + 1);
                }
                return Err(DecodeError);
            }
            match &entries[i].1 {
                Value::Arr(items) => match decode_primitive_list(items) {
                    Ok(ps) => {
                        primitives = Some(ps);
                    },
                    Err(e) => {
                        proof {
                            lemma_mesh_fields_prefix_none(models, i + 1);
                        }
                        return Err(e);
                    },
                },
                _ => {
                    proof {
                        assert(models[i as int].1 == value_model(entries@[i as int].1));
                        lemma_mesh_fields_prefix_none(models, i + 1);
                    }
                    return Err(DecodeError);
                },
            }
        } else if key.eq(&k_weights) {
            if weights.is_some() {
                proof {
                    lemma_mesh_fields_prefix_none(models, i + 1);
                }
                return Err(DecodeError);
            }
            match &entries[i].1 {
                Value::Arr(items) => match decode_u32_list(items) {
                    Ok(ws) => {
                        weights = Some(ws);
                    },
                    Err(e) => {
                        proof {
                            lemma_mesh_fields_prefix_none(models, i + 1);
                        }
                        return Err(e);
                    },
                },
                _ => {
                    proof {
                        assert(models[i as int].1 == value_model(entries@[i as int].1));
                        lemma_mesh_fields_prefix_none(models, i + 1);
                    }
                    return Err(DecodeError);
                },
            }
        } else {
            proof {
                lemma_mesh_fields_prefix_none(models, i + 1);
            }
            return Err(DecodeError);
        }
        i += 1;
    }
    proof {
        assert(models.take(entries@.len() as int) =~= models);
    }
    let primitives = match primitives {
        Some(ps) => ps,
        None => {
            return Err(DecodeError);
        },
    };
    let name = match name {
        Some(n) => n,
        None => None,
    };
    let weights = match weights {
        Some(ws) => ws,
        None => Vec::new(),
    };
    let m = Mesh::<NoExtras> { extensions: Extensions, extras: (), name, primitives, weights };
    Ok(m)
}

/// The encoding of an attribute mapping: one field per attribute, in
/// storage order.
pub open spec fn encode_attr_map_model(m: AttributeMapModel) -> ValueModel {
    ValueModel::Obj(m.map_values(|p: (Seq<char>, u32)| (p.0, ValueModel::U32(p.1))))
}

/// The encoding of a primitive: every schema field written out, optional
/// references written as Null when absent.
pub open spec fn encode_primitive_model(p: PrimitiveModel) -> ValueModel {
    ValueModel::Obj(
        seq![
            ("attributes"@, encode_attr_map_model(p.attributes)),
            (
                "indices"@,
                match p.indices {
                    Some(n) => ValueModel::U32(n),
                    None => ValueModel::Null,
                },
            ),
            ("material"@, ValueModel::U32(p.material)),
            ("mode"@, ValueModel::U32(mode_value(p.mode))),
            (
                "targets"@,
                ValueModel::Arr(
                    p.targets.map_values(|t: AttributeMapModel| encode_attr_map_model(t)),
                ),
            ),
        ],
    )
}

/// The encoding of a mesh.
pub open spec fn encode_mesh_model(m: MeshModel) -> ValueModel {
    ValueModel::Obj(
        seq![
            (
                "name"@,
                match m.name {
                    Some(s) => ValueModel::Str(s),
                    None => ValueModel::Null,
                },
            ),
            (
                "primitives"@,
                ValueModel::Arr(m.primitives.map_values(|p: PrimitiveModel| encode_primitive_model(p))),
            ),
            ("weights"@, ValueModel::Arr(m.weights.map_values(|w: u32| ValueModel::U32(w)))),
        ],
    )
}

/// Encodes a list of integers, as the `weights` payload uses.
#[verifier::loop_isolation(false)]
fn encode_u32_list(ws: &Vec<u32>) -> (r: Vec<Value>)
    ensures
        item_models(r@) == ws@.map_values(|w: u32| ValueModel::U32(w)),
{
    let ghost target = ws@.map_values(|w: u32| ValueModel::U32(w));
    let mut out: Vec<Value> = Vec::new();
    let mut i: usize = 0;
    while i < ws.len()
        invariant
            i <= ws.len(),
            item_models(out@) == target.take(i as int),
        decreases ws.len() - i,
    {
        let ghost old_out = out@;
        out.push(Value::U32(ws[i]));
        proof {
            lemma_item_models_push(old_out, Value::U32(ws@[i as int]));
            assert(target.take(i + 1) =~= target.take(i as int).push(target[i as int]));
        }
        i += 1;
    }
    proof {
        assert(target.take(ws@.len() as int) =~= target);
    }
    out
}

/// Encodes an attribute mapping: one field per attribute, in storage
/// order, each holding its accessor position.
#[verifier::loop_isolation(false)]
fn encode_attr_map(m: &Vec<(String, Index<Accessor>)>) -> (r: Value)
    ensures
        r@ == encode_attr_map_model(attribute_map_model(m@)),
{
    let ghost target = attribute_map_model(m@).map_values(
        |p: (Seq<char>, u32)| (p.0, ValueModel::U32(p.1)),
    );
    let mut out: Vec<(String, Value)> = Vec::new();
    let mut i: usize = 0;
    while i < m.len()
        invariant
            i <= m.len(),
            entry_models(out@) == target.take(i as int),
        decreases m.len() - i,
    {
        let ghost old_out = out@;
        let name = m[i].0.clone();
        let position = m[i].1.value();
        out.push((name, Value::U32(position)));
        proof {
            lemma_entry_models_push(old_out, out@.last());
            assert(target.take(i + 1) =~= target.take(i as int).push(target[i as int]));
            assert(target[i as int] == (m@[i as int].0@, ValueModel::U32(m@[i as int].1@)));
            assert(entry_models(out@) == target.take(i + 1));
        }
        i += 1;
    }
    proof {
        assert(target.take(m@.len() as int) =~= target);
    }
    Value::Obj(out)
}

/// Encodes a primitive: every schema field written out, optional
/// references written as Null when absent.
#[verifier::loop_isolation(false)]
pub fn encode_primitive(p: &Primitive<NoExtras>) -> (r: Value)
    ensures
        r@ == encode_primitive_model(p@),
{
    let ghost targets_target = p@.targets.map_values(
        |t: AttributeMapModel| encode_attr_map_model(t),
    );
    let mut tvals: Vec<Value> = Vec::new();
    let mut t: usize = 0;
    while t < p.targets.len()
        invariant
            t <= p.targets.len(),
            item_models(tvals@) == targets_target.take(t as int),
        decreases p.targets.len() - t,
    {
        let ghost old_tvals = tvals@;
        let tv = encode_attr_map(&p.targets[t]);
        let ghost tv_model = tv@;
        tvals.push(tv);
        proof {
            lemma_item_models_push(old_tvals, tvals@.last());
            assert(targets_target.take(t + 1) =~= targets_target.take(t as int).push(
                targets_target[t as int],
            ));
            assert(targets_target[t as int] == encode_attr_map_model(
                attribute_map_model(p.targets@[t as int]@),
            ));
        }
        t += 1;
    }
    proof {
        assert(targets_target.take(p.targets@.len() as int) =~= targets_target);
    }
    let mut entries: Vec<(String, Value)> = Vec::new();
    let ghost e0 = entries@;
    let attrs_value = encode_attr_map(&p.attributes);
    let ghost attrs_model = attrs_value@;
    entries.push(("attributes".to_owned(), attrs_value));
    proof {
        lemma_entry_models_push(e0, entries@.last());
    }
    let ghost e1 = entries@;
    let indices_value = match &p.indices {
        Some(ix) => Value::U32(ix.value()),
        None => Value::Null,
    };
    entries.push(("indices".to_owned(), indices_value));
    proof {
        lemma_entry_models_push(e1, entries@.last());
    }
    let ghost e2 = entries@;
    entries.push(("material".to_owned(), Value::U32(p.material.value())));
    proof {
        lemma_entry_models_push(e2, entries@.last());
    }
    let ghost e3 = entries@;
    entries.push(("mode".to_owned(), Value::U32(p.mode.to_value())));
    proof {
        lemma_entry_models_push(e3, entries@.last());
    }
    let ghost e4 = entries@;
    entries.push(("targets".to_owned(), Value::Arr(tvals)));
    proof {
        lemma_entry_models_push(e4, entries@.last());
        assert(entry_models(entries@) =~= encode_primitive_model(p@)->Obj_0);
    }
    Value::Obj(entries)
}

/// Encodes a mesh: every schema field written out, an absent name written
/// as Null.
#[verifier::loop_isolation(false)]
pub fn encode_mesh(m: &Mesh<NoExtras>) -> (r: Value)
    ensures
        r@ == encode_mesh_model(m@),
{
    let ghost prims_target = m@.primitives.map_values(
        |p: PrimitiveModel| encode_primitive_model(p),
    );
    let mut pvals: Vec<Value> = Vec::new();
    let mut i: usize = 0;
    while i < m.primitives.len()
        invariant
            i <= m.primitives.len(),
            item_models(pvals@) == prims_target.take(i as int),
        decreases m.primitives.len() - i,
    {
        let ghost old_pvals = pvals@;
        let pv = encode_primitive(&m.primitives[i]);
        pvals.push(pv);
        proof {
            lemma_item_models_push(old_pvals, pvals@.last());
            assert(prims_target.take(i + 1) =~= prims_target.take(i as int).push(
                prims_target[i as int],
            ));
            assert(prims_target[i as int] == encode_primitive_model(m.primitives@[i as int]@));
        }
        i += 1;
    }
    proof {
        assert(prims_target.take(m.primitives@.len() as int) =~= prims_target);
    }
    let wvals = encode_u32_list(&m.weights);
    let mut entries: Vec<(String, Value)> = Vec::new();
    let ghost e0 = entries@;
    let name_value = match &m.name {
        Some(s) => Value::Str(s.clone()),
        None => Value::Null,
    };
    entries.push(("name".to_owned(), name_value));
    proof {
        lemma_entry_models_push(e0, entries@.last());
    }
    let ghost e1 = entries@;
    entries.push(("primitives".to_owned(), Value::Arr(pvals)));
    proof {
        lemma_entry_models_push(e1, entries@.last());
    }
    let ghost e2 = entries@;
    entries.push(("weights".to_owned(), Value::Arr(wvals)));
    proof {
        lemma_entry_models_push(e2, entries@.last());
        assert(entry_models(entries@) =~= encode_mesh_model(m@)->Obj_0);
    }
    Value::Obj(entries)
}

/// Re-decoding an encoded attribute mapping restores it exactly.
pub proof fn lemma_attr_map_round_trip(m: AttributeMapModel)
    ensures
        decode_attr_map_model(encode_attr_map_model(m)) == Some(m),
    decreases m.len(),
{
    let target = m.map_values(|p: (Seq<char>, u32)| (p.0, ValueModel::U32(p.1)));
    if m.len() == 0 {
        assert(target =~= Seq::<(Seq<char>, ValueModel)>::empty());
    } else {
        lemma_attr_map_round_trip(m.drop_last());
        let prev = m.drop_last().map_values(|p: (Seq<char>, u32)| (p.0, ValueModel::U32(p.1)));
        assert(target.drop_last() =~= prev);
        assert(target.last() == (m.last().0, ValueModel::U32(m.last().1)));
        assert(m.drop_last().push(m.last()) =~= m);
    }
}

/// Re-decoding an encoded morph-target list restores it exactly.
pub proof fn lemma_target_items_round_trip(ts: Seq<AttributeMapModel>)
    ensures
        decode_target_items(ts.map_values(|t: AttributeMapModel| encode_attr_map_model(t)))
            == Some(ts),
    decreases ts.len(),
{
    let target = ts.map_values(|t: AttributeMapModel| encode_attr_map_model(t));
    if ts.len() == 0 {
        assert(target =~= Seq::<ValueModel>::empty());
    } else {
        lemma_target_items_round_trip(ts.drop_last());
        let prev = ts.drop_last().map_values(|t: AttributeMapModel| encode_attr_map_model(t));
        assert(target.drop_last() =~= prev);
        assert(target.last() == encode_attr_map_model(ts.last()));
        lemma_attr_map_round_trip(ts.last());
        assert(ts.drop_last().push(ts.last()) =~= ts);
    }
}

/// Re-decoding an encoded list of integers restores it exactly.
pub proof fn lemma_u32_items_round_trip(ws: Seq<u32>)
    ensures
        decode_u32_items(ws.map_values(|w: u32| ValueModel::U32(w))) == Some(ws),
    decreases ws.len(),
{
    let target = ws.map_values(|w: u32| ValueModel::U32(w));
    if ws.len() == 0 {
        assert(target =~= Seq::<ValueModel>::empty());
    } else {
        lemma_u32_items_round_trip(ws.drop_last());
        let prev = ws.drop_last().map_values(|w: u32| ValueModel::U32(w));
        assert(target.drop_last() =~= prev);
        assert(target.last() == ValueModel::U32(ws.last()));
        assert(ws.drop_last().push(ws.last()) =~= ws);
    }
}

/// Round trip for one primitive: decoding the encoding of any primitive
/// value restores that value exactly, for every combination of optional
/// fields.
pub proof fn lemma_primitive_round_trip(p: PrimitiveModel)
    ensures
        decode_primitive_model(encode_primitive_model(p)) == Some(p),
{
    reveal_with_fuel(primitive_fields_fold, 8);
    reveal_strlit("attributes");
    reveal_strlit("extensions");
    reveal_strlit("extras");
    reveal_strlit("indices");
    reveal_strlit("material");
    reveal_strlit("mode");
    reveal_strlit("targets");
    assert(("attributes"@).len() == 10);
    assert(("extensions"@).len() == 10);
    assert(("extras"@).len() == 6);
    assert(("indices"@).len() == 7);
    assert(("material"@).len() == 8);
    assert(("mode"@).len() == 4);
    assert(("targets"@).len() == 7);
    assert(("targets"@)[0] == 't');
    assert(("indices"@)[0] == 'i');
    let s = encode_primitive_model(p)->Obj_0;
    let e0 = s[0];
    let e1 = s[1];
    let e2 = s[2];
    let e3 = s[3];
    let e4 = s[4];
    let s1 = seq![e0];
    let s2 = seq![e0, e1];
    let s3 = seq![e0, e1, e2];
    let s4 = seq![e0, e1, e2, e3];
    lemma_attr_map_round_trip(p.attributes);
    lemma_target_items_round_trip(p.targets);
    crate::mesh::lemma_mode_value_round_trip(p.mode, 0);
    assert(s1.drop_last() =~= Seq::<(Seq<char>, ValueModel)>::empty());
    assert(s2.drop_last() =~= s1);
    assert(s3.drop_last() =~= s2);
    assert(s4.drop_last() =~= s3);
    assert(s =~= seq![e0, e1, e2, e3, e4]);
    assert(s.drop_last() =~= s4);
    let a0 = primitive_acc_init();
    assert(primitive_fields_fold(s1) == primitive_field_step(a0, e0.0, e0.1));
    let a1 = PrimitiveAcc { attributes: Some(p.attributes), ..a0 };
    assert(primitive_field_step(a0, e0.0, e0.1) == Some(a1));
    assert(primitive_fields_fold(s2) == primitive_field_step(a1, e1.0, e1.1));
    let a2 = PrimitiveAcc { indices: Some(p.indices), ..a1 };
    assert(primitive_field_step(a1, e1.0, e1.1) == Some(a2));
    assert(primitive_fields_fold(s3) == primitive_field_step(a2, e2.0, e2.1));
    let a3 = PrimitiveAcc { material: Some(p.material), ..a2 };
    assert(primitive_field_step(a2, e2.0, e2.1) == Some(a3));
    assert(primitive_fields_fold(s4) == primitive_field_step(a3, e3.0, e3.1));
    let a4 = PrimitiveAcc { mode: Some(p.mode), ..a3 };
    assert(primitive_field_step(a3, e3.0, e3.1) == Some(a4));
    assert(primitive_fields_fold(s) == primitive_field_step(a4, e4.0, e4.1));
    let a5 = PrimitiveAcc { targets: Some(p.targets), ..a4 };
    assert(primitive_field_step(a4, e4.0, e4.1) == Some(a5));
    assert(decode_primitive_model(ValueModel::Obj(s)) == Some(p));
}

/// Round trip for a primitive list.
pub proof fn lemma_primitive_items_round_trip(ps: Seq<PrimitiveModel>)
    ensures
        decode_primitive_items(ps.map_values(|p: PrimitiveModel| encode_primitive_model(p)))
            == Some(ps),
    decreases ps.len(),
{
    let target = ps.map_values(|p: PrimitiveModel| encode_primitive_model(p));
    if ps.len() == 0 {
        assert(target =~= Seq::<ValueModel>::empty());
    } else {
        lemma_primitive_items_round_trip(ps.drop_last());
        let prev = ps.drop_last().map_values(|p: PrimitiveModel| encode_primitive_model(p));
        assert(target.drop_last() =~= prev);
        assert(target.last() == encode_primitive_model(ps.last()));
        lemma_primitive_round_trip(ps.last());
        assert(ps.drop_last().push(ps.last()) =~= ps);
    }
}

/// Round trip for a mesh: decoding the encoding of any mesh value
/// restores that value exactly, for every combination of optional fields.
pub proof fn lemma_mesh_round_trip(m: MeshModel)
    ensures
        decode_mesh_model(encode_mesh_model(m)) == Some(m),
{
    reveal_with_fuel(mesh_fields_fold, 6);
    reveal_strlit("extensions");
    reveal_strlit("extras");
    reveal_strlit("name");
    reveal_strlit("primitives");
    reveal_strlit("weights");
    assert(("extensions"@).len() == 10);
    assert(("extras"@).len() == 6);
    assert(("name"@).len() == 4);
    assert(("primitives"@).len() == 10);
    assert(("weights"@).len() == 7);
    assert(("primitives"@)[0] == 'p');
    assert(("extensions"@)[0] == 'e');
    let s = encode_mesh_model(m)->Obj_0;
    let e0 = s[0];
    let e1 = s[1];
    let e2 = s[2];
    let s1 = seq![e0];
    let s2 = seq![e0, e1];
    lemma_primitive_items_round_trip(m.primitives);
    lemma_u32_items_round_trip(m.weights);
    assert(s1.drop_last() =~= Seq::<(Seq<char>, ValueModel)>::empty());
    assert(s2.drop_last() =~= s1);
    assert(s =~= seq![e0, e1, e2]);
    assert(s.drop_last() =~= s2);
    let a0 = mesh_acc_init();
    assert(mesh_fields_fold(s1) == mesh_field_step(a0, e0.0, e0.1));
    let a1 = MeshAcc { name: Some(m.name), ..a0 };
    assert(mesh_field_step(a0, e0.0, e0.1) == Some(a1));
    assert(mesh_fields_fold(s2) == mesh_field_step(a1, e1.0, e1.1));
    let a2 = MeshAcc { primitives: Some(m.primitives), ..a1 };
    assert(mesh_field_step(a1, e1.0, e1.1) == Some(a2));
    assert(mesh_fields_fold(s) == mesh_field_step(a2, e2.0, e2.1));
    let a3 = MeshAcc { weights: Some(m.weights), ..a2 };
    assert(mesh_field_step(a2, e2.0, e2.1) == Some(a3));
    assert(decode_mesh_model(ValueModel::Obj(s)) == Some(m));
}

/// A strict mesh decode accepts no field name outside the mesh schema:
/// one unknown field anywhere fails the whole decode.
pub proof fn lemma_mesh_unknown_field_rejected(entries: Seq<(Seq<char>, ValueModel)>, i: int)
    requires
        0 <= i < entries.len(),
        entries[i].0 != "extensions"@,
        entries[i].0 != "extras"@,
        entries[i].0 != "name"@,
        entries[i].0 != "primitives"@,
        entries[i].0 != "weights"@,
    ensures
        decode_mesh_model(ValueModel::Obj(entries)) is None,
{
    if mesh_fields_fold(entries.take(i)) is None {
        lemma_mesh_fields_prefix_none(entries, i);
    } else {
        assert(entries.take(i + 1).drop_last() =~= entries.take(i));
        assert(entries.take(i + 1).last() == entries[i]);
        assert(mesh_fields_fold(entries.take(i + 1)) is None);
        lemma_mesh_fields_prefix_none(entries, i + 1);
    }
}

/// A strict primitive decode accepts no field name outside the primitive
/// schema: one unknown field anywhere fails the whole decode.
pub proof fn lemma_primitive_unknown_field_rejected(entries: Seq<(Seq<char>, ValueModel)>, i: int)
    requires
        0 <= i < entries.len(),
        entries[i].0 != "attributes"@,
        entries[i].0 != "extensions"@,
        entries[i].0 != "extras"@,
        entries[i].0 != "indices"@,
        entries[i].0 != "material"@,
        entries[i].0 != "mode"@,
        entries[i].0 != "targets"@,
    ensures
        decode_primitive_model(ValueModel::Obj(entries)) is None,
{
    if primitive_fields_fold(entries.take(i)) is None {
        lemma_primitive_fields_prefix_none(entries, i);
    } else {
        assert(entries.take(i + 1).drop_last() =~= entries.take(i));
        assert(entries.take(i + 1).last() == entries[i]);
        assert(primitive_fields_fold(entries.take(i + 1)) is None);
        lemma_primitive_fields_prefix_none(entries, i + 1);
    }
}

/// A field a strict primitive decode never saw stays unset in its running
/// state.
proof fn lemma_primitive_fold_absent(entries: Seq<(Seq<char>, ValueModel)>, acc: PrimitiveAcc)
    requires
        primitive_fields_fold(entries) == Some(acc),
    ensures
        (forall|i: int| 0 <= i < entries.len() ==> (#[trigger] entries[i]).0 != "attributes"@)
            ==> acc.attributes is None,
        (forall|i: int| 0 <= i < entries.len() ==> (#[trigger] entries[i]).0 != "indices"@)
            ==> acc.indices is None,
        (forall|i: int| 0 <= i < entries.len() ==> (#[trigger] entries[i]).0 != "mode"@)
            ==> acc.mode is None,
        (forall|i: int| 0 <= i < entries.len() ==> (#[trigger] entries[i]).0 != "targets"@)
            ==> acc.targets is None,
    decreases entries.len(),
{
    if entries.len() > 0 {
        let prefix = entries.drop_last();
        let prev = primitive_fields_fold(prefix)->Some_0;
        lemma_primitive_fold_absent(prefix, prev);
        assert(forall|i: int|
            0 <= i < prefix.len() ==> #[trigger] prefix[i] == entries[i]);
        assert(entries.last() == entries[entries.len() - 1]);
    }
}

/// Defaults for a decoded primitive: an encoding that omits `mode` decodes
/// to Triangles, and omitting `attributes`, `indices` or `targets` decodes
/// to their empty defaults.
pub proof fn lemma_primitive_defaults(entries: Seq<(Seq<char>, ValueModel)>, p: PrimitiveModel)
    requires
        decode_primitive_model(ValueModel::Obj(entries)) == Some(p),
    ensures
        (forall|i: int| 0 <= i < entries.len() ==> (#[trigger] entries[i]).0 != "mode"@)
            ==> p.mode == Mode::Triangles,
        (forall|i: int| 0 <= i < entries.len() ==> (#[trigger] entries[i]).0 != "attributes"@)
            ==> p.attributes == Seq::<(Seq<char>, u32)>::empty(),
        (forall|i: int| 0 <= i < entries.len() ==> (#[trigger] entries[i]).0 != "indices"@)
            ==> p.indices is None,
        (forall|i: int| 0 <= i < entries.len() ==> (#[trigger] entries[i]).0 != "targets"@)
            ==> p.targets == Seq::<AttributeMapModel>::empty(),
{
    let acc = primitive_fields_fold(entries)->Some_0;
    lemma_primitive_fold_absent(entries, acc);
}

/// A field a strict mesh decode never saw stays unset in its running
/// state.
proof fn lemma_mesh_fold_absent(entries: Seq<(Seq<char>, ValueModel)>, acc: MeshAcc)
    requires
        mesh_fields_fold(entries) == Some(acc),
    ensures
        (forall|i: int| 0 <= i < entries.len() ==> (#[trigger] entries[i]).0 != "name"@)
            ==> acc.name is None,
        (forall|i: int| 0 <= i < entries.len() ==> (#[trigger] entries[i]).0 != "weights"@)
            ==> acc.weights is None,
    decreases entries.len(),
{
    if entries.len() > 0 {
        let prefix = entries.drop_last();
        let prev = mesh_fields_fold(prefix)->Some_0;
        lemma_mesh_fold_absent(prefix, prev);
        assert(forall|i: int|
            0 <= i < prefix.len() ==> #[trigger] prefix[i] == entries[i]);
        assert(entries.last() == entries[entries.len() - 1]);
    }
}

/// Defaults for a decoded mesh: an encoding that omits `weights` decodes
/// to the empty list, and omitting `name` decodes to no name.
pub proof fn lemma_mesh_defaults(entries: Seq<(Seq<char>, ValueModel)>, m: MeshModel)
    requires
        decode_mesh_model(ValueModel::Obj(entries)) == Some(m),
    ensures
        (forall|i: int| 0 <= i < entries.len() ==> (#[trigger] entries[i]).0 != "name"@)
            ==> m.name is None,
        (forall|i: int| 0 <= i < entries.len() ==> (#[trigger] entries[i]).0 != "weights"@)
            ==> m.weights == Seq::<u32>::empty(),
{
    let acc = mesh_fields_fold(entries)->Some_0;
    lemma_mesh_fold_absent(entries, acc);
}

} // verus!
