//! The document side of the typed cross-reference model: strongly typed
//! indices, the stub entity collections they point into, and resolution.

use core::marker::PhantomData;
use vstd::prelude::*;

verus! {

/// Opaque slot for format-defined extension data attached to an entity.
/// This crate never examines it.
pub struct Extensions;

/// Capability that lets a consumer attach application-specific payloads to
/// each entity kind without changing the core schema. The core treats the
/// payloads opaquely.
pub trait Extras {
    /// Payload type carried by a `Mesh`.
    type Mesh;

    /// Payload type carried by a `Primitive`.
    type MeshPrimitive;
}

/// The no-op customization: every entity kind carries an empty payload.
pub struct NoExtras;

impl Extras for NoExtras {
    type Mesh = ();

    type MeshPrimitive = ();
}

/// A per-vertex data stream stored in the document's accessor collection.
/// Its own schema is a collaborator's concern; here only its position in
/// the collection matters.
pub struct Accessor;

/// A surface description stored in the document's material collection.
pub struct Material;

/// A typed reference failed to resolve: its position lies outside the
/// bounds of the collection it points into. Carries no positional detail.
#[derive(Clone, Copy, Debug, PartialEq, Eq, Structural)]
pub struct ReferenceError;

/// A reference into the document's collection of `T` entities: an integer
/// position, not a pointer. The phantom tag keeps references to different
/// entity kinds apart at the type level even though both are integers.
#[verifier::reject_recursive_types(T)]
#[derive(Copy, Debug)]
pub struct Index<T> {
    value: u32,
    marker: PhantomData<T>,
}

impl<T> Clone for Index<T> {
    fn clone(&self) -> (r: Self)
        ensures
            r == *self,
    {
        Index { value: self.value, marker: PhantomData }
    }
}

impl<T> View for Index<T> {
    type V = u32;

    closed spec fn view(&self) -> u32 {
        self.value
    }
}

impl<T> Index<T> {
    /// Wraps a raw integer position as a typed reference.
    pub fn new(value: u32) -> (r: Self)
        ensures
            r@ == value,
    {
        Index { value, marker: PhantomData }
    }

    /// The raw integer position this reference holds.
    pub fn value(&self) -> (r: u32)
        ensures
            r == self@,
    {
        self.value
    }
}

/// The fully constructed document, as far as this core reads it: one flat,
/// owning collection per referenced entity kind.
pub struct Root {
    pub accessors: Vec<Accessor>,
    pub materials: Vec<Material>,
}

/// Resolution of a typed reference against one of the document's
/// collections: a pure, read-only lookup by position.
pub trait Get<T>: Sized {
    /// How many entities the collection of `T` holds.
    spec fn count(&self) -> nat;

    /// The entity stored at position `i` of the collection of `T`.
    spec fn entry(&self, i: int) -> T;

    /// Resolves `index` to the entity it names, or fails when the position
    /// lies outside the collection's bounds.
    fn try_get<'a>(&'a self, index: &Index<T>) -> (r: Result<&'a T, ReferenceError>)
        ensures
            r is Ok <==> index@ < self.count(),
            r matches Ok(e) ==> *e == self.entry(index@ as int),
    ;
}

impl Get<Accessor> for Root {
    open spec fn count(&self) -> nat {
        self.accessors@.len()
    }

    open spec fn entry(&self, i: int) -> Accessor {
        self.accessors@[i]
    }

    fn try_get<'a>(&'a self, index: &Index<Accessor>) -> (r: Result<&'a Accessor, ReferenceError>) {
        let position = index.value() as usize;
        if position < self.accessors.len() {
            Ok(&self.accessors[position])
        } else {
            Err(ReferenceError)
        }
    }
}

impl Get<Material> for Root {
    open spec fn count(&self) -> nat {
        self.materials@.len()
    }

    open spec fn entry(&self, i: int) -> Material {
        self.materials@[i]
    }

    fn try_get<'a>(&'a self, index: &Index<Material>) -> (r: Result<&'a Material, ReferenceError>) {
        let position = index.value() as usize;
        if position < self.materials.len() {
            Ok(&self.materials[position])
        } else {
            Err(ReferenceError)
        }
    }
}

} // verus!
