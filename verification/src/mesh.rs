//! The mesh node: a named collection of primitives, each holding typed
//! references into the document's accessor and material collections, and
//! the traversal that checks every such reference resolves in bounds.

use vstd::prelude::*;

use crate::document::Accessor;
use crate::document::Extensions;
use crate::document::Extras;
use crate::document::Get;
use crate::document::Index;
use crate::document::Material;
use crate::document::ReferenceError;
use crate::document::Root;

verus! {

/// The topology a primitive's vertices describe, encoded in the document
/// format as a small non-negative integer.
#[derive(Clone, Copy, Debug, PartialEq, Eq, Structural)]
pub enum Mode {
    Points,
    Lines,
    LineLoop,
    LineStrip,
    Triangles,
    TriangleStrip,
    TriangleFan,
}

/// The integer the document format uses for a topology mode.
pub open spec fn mode_value(m: Mode) -> u32 {
    match m {
        Mode::Points => 0,
        Mode::Lines => 1,
        Mode::LineLoop => 2,
        Mode::LineStrip => 3,
        Mode::Triangles => 4,
        Mode::TriangleStrip => 5,
        Mode::TriangleFan => 6,
    }
}

/// The topology mode a format integer decodes to; integers outside the
/// enumerated set decode to nothing.
pub open spec fn mode_of_value(n: u32) -> Option<Mode> {
    if n == 0 {
        Some(Mode::Points)
    } else if n == 1 {
        Some(Mode::Lines)
    } else if n == 2 {
        Some(Mode::LineLoop)
    } else if n == 3 {
        Some(Mode::LineStrip)
    } else if n == 4 {
        Some(Mode::Triangles)
    } else if n == 5 {
        Some(Mode::TriangleStrip)
    } else if n == 6 {
        Some(Mode::TriangleFan)
    } else {
        None
    }
}

impl Mode {
    /// Decodes a format integer into a topology mode; integers outside the
    /// enumerated set are a decode failure, surfaced by the caller.
    pub fn from_value(n: u32) -> (r: Option<Mode>)
        ensures
            r == mode_of_value(n),
    {
        if n == 0 {
            Some(Mode::Points)
        } else if n == 1 {
            Some(Mode::Lines)
        } else if n == 2 {
            Some(Mode::LineLoop)
        } else if n == 3 {
            Some(Mode::LineStrip)
        } else if n == 4 {
            Some(Mode::Triangles)
        } else if n == 5 {
            Some(Mode::TriangleStrip)
        } else if n == 6 {
            Some(Mode::TriangleFan)
        } else {
            None
        }
    }

    /// The integer this mode is encoded as.
    pub fn to_value(&self) -> (r: u32)
        ensures
            r == mode_value(*self),
    {
        match self {
            Mode::Points => 0,
            Mode::Lines => 1,
            Mode::LineLoop => 2,
            Mode::LineStrip => 3,
            Mode::Triangles => 4,
            Mode::TriangleStrip => 5,
            Mode::TriangleFan => 6,
        }
    }
}

impl Default for Mode {
    /// The mode substituted when the encoding omits the field.
    fn default() -> (r: Self)
        ensures
            r == Mode::Triangles,
    {
        Mode::Triangles
    }
}

/// Every mode round-trips through its integer encoding, and every integer
/// that decodes at all re-encodes to itself: the seven modes and the
/// integers zero through six correspond one to one.
pub proof fn lemma_mode_value_round_trip(m: Mode, n: u32)
    ensures
        mode_of_value(mode_value(m)) == Some(m),
        mode_of_value(n) matches Some(decoded) ==> mode_value(decoded) == n,
{
}

/// Mathematical shape of an attribute mapping: semantic names paired with
/// raw accessor positions, in storage order.
pub type AttributeMapModel = Seq<(Seq<char>, u32)>;

/// Mathematical shape of a primitive: what it holds, with every typed
/// reference reduced to its raw position.
pub ghost struct PrimitiveModel {
    pub attributes: AttributeMapModel,
    pub indices: Option<u32>,
    pub material: u32,
    pub mode: Mode,
    pub targets: Seq<AttributeMapModel>,
}

/// Mathematical shape of a mesh.
pub ghost struct MeshModel {
    pub name: Option<Seq<char>>,
    pub primitives: Seq<PrimitiveModel>,
    pub weights: Seq<u32>,
}

/// The model of a stored attribute mapping.
pub open spec fn attribute_map_model(s: Seq<(String, Index<Accessor>)>) -> AttributeMapModel {
    s.map_values(|p: (String, Index<Accessor>)| (p.0@, p.1@))
}

/// The model of a stored primitive list.
pub open spec fn primitives_model<E: Extras>(s: Seq<Primitive<E>>) -> Seq<PrimitiveModel> {
    s.map_values(|p: Primitive<E>| p@)
}

/// The model of a stored morph-target list.
pub open spec fn targets_model(s: Seq<Vec<(String, Index<Accessor>)>>) -> Seq<AttributeMapModel> {
    s.map_values(|t: Vec<(String, Index<Accessor>)>| attribute_map_model(t@))
}

/// Geometry for one draw call: per-vertex attribute streams, an optional
/// index buffer, exactly one material, a topology mode, and morph targets.
/// Every cross-entity relationship is held as a typed position into one of
/// the document's collections, so an unchecked value can hold dangling
/// references; `Mesh::range_check` establishes that none are.
pub struct Primitive<E: Extras> {
    /// Attribute semantic names mapped to the accessors holding their data.
    /// Held as an association list; names are expected to be unique, but
    /// uniqueness is a property of the producing mapping, not enforced here.
    pub attributes: Vec<(String, Index<Accessor>)>,
    /// Optional data targeting official extensions.
    pub extensions: Extensions,
    /// Optional application-specific data.
    pub extras: E::MeshPrimitive,
    /// The accessor holding mesh indices for indexed drawing, if any.
    pub indices: Option<Index<Accessor>>,
    /// The material to apply to this primitive when rendering.
    pub material: Index<Material>,
    /// The topology to render the primitive with.
    pub mode: Mode,
    /// Morph targets, each an attribute mapping parallel to `attributes`.
    pub targets: Vec<Vec<(String, Index<Accessor>)>>,
}

impl<E: Extras> View for Primitive<E> {
    type V = PrimitiveModel;

    open spec fn view(&self) -> PrimitiveModel {
        PrimitiveModel {
            attributes: attribute_map_model(self.attributes@),
            indices: match self.indices {
                Some(ix) => Some(ix@),
                None => None,
            },
            material: self.material@,
            mode: self.mode,
            targets: targets_model(self.targets@),
        }
    }
}

/// A set of primitives to be rendered together, with optional morph-target
/// weights.
pub struct Mesh<E: Extras> {
    /// Optional data targeting official extensions.
    pub extensions: Extensions,
    /// Optional application-specific data.
    pub extras: E::Mesh,
    /// Optional user-defined name for this object; no semantic effect.
    pub name: Option<String>,
    /// The geometry of this mesh, one entry per draw call.
    pub primitives: Vec<Primitive<E>>,
    /// Morph-target weights, held as the bit patterns of the format's
    /// binary32 values; this core never interprets them numerically.
    pub weights: Vec<u32>,
}

impl<E: Extras> View for Mesh<E> {
    type V = MeshModel;

    open spec fn view(&self) -> MeshModel {
        MeshModel {
            name: match self.name {
                Some(ref s) => Some(s@),
                None => None,
            },
            primitives: primitives_model(self.primitives@),
            weights: self.weights@,
        }
    }
}

/// Every accessor position in one attribute mapping lies inside a
/// collection of `n_accessors` entries.
pub open spec fn attribute_map_in_bounds(m: AttributeMapModel, n_accessors: int) -> bool {
    forall|i: int| 0 <= i < m.len() ==> (#[trigger] m[i]).1 < n_accessors
}

/// Every typed reference one primitive holds resolves inside the given
/// collection bounds.
pub open spec fn primitive_in_bounds(p: PrimitiveModel, n_accessors: int, n_materials: int) -> bool {
    &&& attribute_map_in_bounds(p.attributes, n_accessors)
    &&& (p.indices matches Some(ix) ==> ix < n_accessors)
    &&& p.material < n_materials
    &&& forall|t: int|
        0 <= t < p.targets.len() ==> attribute_map_in_bounds(#[trigger] p.targets[t], n_accessors)
}

/// Referential integrity of a whole mesh: every reference in every
/// primitive resolves inside the given collection bounds.
pub open spec fn mesh_in_bounds(m: MeshModel, n_accessors: int, n_materials: int) -> bool {
    forall|i: int|
        0 <= i < m.primitives.len() ==> primitive_in_bounds(
            #[trigger] m.primitives[i],
            n_accessors,
            n_materials,
        )
}

/// A mesh with no primitives holds no references at all, so it is in
/// bounds against any document whatsoever.
pub proof fn lemma_empty_mesh_in_bounds(m: MeshModel, n_accessors: int, n_materials: int)
    requires
        m.primitives.len() == 0,
    ensures
        mesh_in_bounds(m, n_accessors, n_materials),
{
}

impl<E: Extras> Mesh<E> {
    /// Walks every typed reference this mesh holds and resolves it against
    /// the document, succeeding exactly when all of them land in bounds and
    /// failing on the first one that does not.
    #[verifier::loop_isolation(false)]
    pub fn range_check(&self, root: &Root) -> (r: Result<(), ReferenceError>)
        ensures
            r is Ok <==> mesh_in_bounds(
                self@,
                root.accessors@.len() as int,
                root.materials@.len() as int,
            ),
    {
        let ghost n_accessors = root.accessors@.len() as int;
        let ghost n_materials = root.materials@.len() as int;
        let mut i: usize = 0;
        while i < self.primitives.len()
            invariant
                i <= self.primitives.len(),
                forall|k: int|
                    0 <= k < i ==> primitive_in_bounds(
                        #[trigger] self@.primitives[k],
                        n_accessors,
                        n_materials,
                    ),
                n_accessors == root.accessors@.len() as int,
                n_materials == root.materials@.len() as int,
            decreases self.primitives.len() - i,
        {
            let primitive = &self.primitives[i];
            assert(self@.primitives[i as int] == primitive@);
            let mut j: usize = 0;
            while j < primitive.attributes.len()
                invariant
                    j <= primitive.attributes.len(),
                    forall|k: int|
                        0 <= k < j ==> (#[trigger] primitive@.attributes[k]).1 < n_accessors,
                    n_accessors == root.accessors@.len() as int,
                decreases primitive.attributes.len() - j,
            {
                assert(primitive@.attributes[j as int].1 == primitive.attributes@[j as int].1@);
                match root.try_get(&primitive.attributes[j].1) {
                    Ok(_) => {},
                    Err(e) => {
                        assert(primitive@.attributes.len() == primitive.attributes@.len());
                        assert(primitive@.attributes[j as int].1 >= n_accessors);
                        assert(!attribute_map_in_bounds(primitive@.attributes, n_accessors));
                        assert(!primitive_in_bounds(self@.primitives[i as int], n_accessors,
                        n_materials));
                        return Err(e);
                    },
                }
                j += 1;
            }
            if let Some(indices) = &primitive.indices {
                match root.try_get(indices) {
                    Ok(_) => {},
                    Err(e) => {
                        assert(!primitive_in_bounds(self@.primitives[i as int], n_accessors,
                        n_materials));
                        return Err(e);
                    },
                }
            }
            match root.try_get(&primitive.material) {
                Ok(_) => {},
                Err(e) => {
                    assert(!primitive_in_bounds(self@.primitives[i as int], n_accessors,
                    n_materials));
                    return Err(e);
                },
            }
            let mut t: usize = 0;
            while t < primitive.targets.len()
                invariant
                    t <= primitive.targets.len(),
                    forall|k: int|
                        0 <= k < t ==> attribute_map_in_bounds(
                            #[trigger] primitive@.targets[k],
                            n_accessors,
                        ),
                    n_accessors == root.accessors@.len() as int,
                decreases primitive.targets.len() - t,
            {
                let target = &primitive.targets[t];
                assert(primitive@.targets[t as int] == attribute_map_model(target@));
                let mut j2: usize = 0;
                while j2 < target.len()
                    invariant
                        j2 <= target.len(),
                        forall|k: int|
                            0 <= k < j2 ==> (#[trigger] attribute_map_model(target@)[k]).1
                                < n_accessors,
                        n_accessors == root.accessors@.len() as int,
                    decreases target.len() - j2,
                {
                    assert(attribute_map_model(target@)[j2 as int].1 == target@[j2 as int].1@);
                    match root.try_get(&target[j2].1) {
                        Ok(_) => {},
                        Err(e) => {
                            assert(attribute_map_model(target@).len() == target@.len());
                            assert(attribute_map_model(target@)[j2 as int].1 >= n_accessors);
                            assert(primitive@.targets.len() == primitive.targets@.len());
                            assert(!attribute_map_in_bounds(primitive@.targets[t as int],
                            n_accessors));
                            assert(!primitive_in_bounds(self@.primitives[i as int], n_accessors,
                            n_materials));
                            return Err(e);
                        },
                    }
                    j2 += 1;
                }
                assert(attribute_map_in_bounds(primitive@.targets[t as int], n_accessors));
                t += 1;
            }
            assert(primitive_in_bounds(self@.primitives[i as int], n_accessors, n_materials));
            i += 1;
        }
        Ok(())
    }
}

} // verus!
