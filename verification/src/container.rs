//! The backend-neutral binary envelope and the conversion capability that a
//! domain type implements to become persistable.

use vstd::prelude::*;

verus! {

/// Advisory classification of a container's payload. The dispatcher and the
/// backend capability are kind-agnostic: nothing in this crate branches on it.
#[derive(Clone, Copy, Debug, PartialEq, Eq, Structural)]
pub enum ContainerKind {
    Data,
    Link,
    Bundle,
}

/// The identifier of a container, chosen by the producing domain object.
pub type ContainerId = Vec<u8>;

/// Mathematical model of a [`Container`]: the same three fields, with byte
/// vectors abstracted to sequences. Contracts throughout the crate speak of
/// this model.
pub struct ContainerModel {
    pub id: Seq<u8>,
    pub kind: ContainerKind,
    pub data: Seq<u8>,
}

/// The backend-neutral binary envelope: an id, an advisory kind, and an
/// opaque payload. Pure data, no behaviour.
#[derive(Clone, Debug)]
pub struct Container {
    pub id: ContainerId,
    pub kind: ContainerKind,
    pub data: Vec<u8>,
}

impl View for Container {
    type V = ContainerModel;

    open spec fn view(&self) -> ContainerModel {
        ContainerModel { id: self.id@, kind: self.kind, data: self.data@ }
    }
}

/// A domain object could not produce a container: serialization itself failed.
#[derive(Clone, Copy, Debug, PartialEq, Eq, Structural)]
pub struct EncodeError;

/// A container could not reconstruct a domain object, or its validity could
/// not even be evaluated.
#[derive(Clone, Copy, Debug, PartialEq, Eq, Structural)]
pub struct DecodeError;

/// Compares two byte vectors for equality of their contents.
pub fn bytes_eq(a: &Vec<u8>, b: &Vec<u8>) -> (r: bool)
    ensures
        r <==> a@ == b@,
{
    if a.len() != b.len() {
        return false;
    }
    let mut i: usize = 0;
    while i < a.len()
        invariant
            a@.len() == b@.len(),
            0 <= i <= a@.len(),
            forall|j: int| 0 <= j < i ==> a@[j] == b@[j],
        decreases a@.len() - i,
    {
        if a[i] != b[i] {
            return false;
        }
        i += 1;
    }
    proof {
        assert(a@ =~= b@);
    }
    true
}

/// Copies a byte vector.
pub fn clone_bytes(v: &Vec<u8>) -> (r: Vec<u8>)
    ensures
        r@ == v@,
{
    let mut r: Vec<u8> = Vec::new();
    let mut i: usize = 0;
    while i < v.len()
        invariant
            0 <= i <= v@.len(),
            r@ =~= v@.take(i as int),
        decreases v@.len() - i,
    {
        r.push(v[i]);
        i += 1;
    }
    proof {
        assert(v@.take(v@.len() as int) =~= v@);
    }
    r
}

/// Copies a container; the copy has the same model.
pub fn clone_container(c: &Container) -> (r: Container)
    ensures
        r@ == c@,
{
    Container { id: clone_bytes(&c.id), kind: c.kind, data: clone_bytes(&c.data) }
}

/// The conversion capability: the contract a domain type implements to become
/// persistable as a [`Container`]. Encoding, decoding and validity are pinned
/// to spec-level functions over the type's model (`Self::V`), and the
/// [`Containering::round_trip`] obligation makes decoding invert encoding.
pub trait Containering: View + Sized {
    /// The stable id of a domain value, used as the container id.
    spec fn spec_id(v: Self::V) -> Seq<u8>;

    /// Whether a domain value can produce a container at all.
    spec fn encodable(v: Self::V) -> bool;

    /// The envelope an encodable domain value produces.
    spec fn spec_encode(v: Self::V) -> ContainerModel;

    /// Whether a container reconstructs a value of this type.
    spec fn decodable(c: ContainerModel) -> bool;

    /// The model of the domain value a decodable container reconstructs.
    spec fn spec_decode(c: ContainerModel) -> Self::V;

    /// Whether validity of a container can even be evaluated for this type.
    spec fn checkable(c: ContainerModel) -> bool;

    /// Whether a checkable container plausibly represents a valid instance.
    spec fn spec_valid(c: ContainerModel) -> bool;

    /// Round-trip law: decoding an encoded value yields the value back, and
    /// the encoded envelope validates and carries the value's own id.
    proof fn round_trip(v: Self::V)
        requires
            Self::encodable(v),
        ensures
            Self::spec_encode(v).id == Self::spec_id(v),
            Self::decodable(Self::spec_encode(v)),
            Self::spec_decode(Self::spec_encode(v)) == v,
            Self::checkable(Self::spec_encode(v)),
            Self::spec_valid(Self::spec_encode(v)),
    ;

    /// Human-readable documentation metadata; no runtime effect.
    fn purpose() -> (r: &'static str) {
        "None"
    }

    /// The domain object's stable id.
    fn id(&self) -> (r: ContainerId)
        ensures
            r@ == Self::spec_id(self@),
    ;

    /// Reports whether a generic container plausibly represents a valid
    /// instance of this type; fails only if validity cannot be evaluated.
    fn valid_container(&self, container: &Container) -> (r: Result<bool, DecodeError>)
        ensures
            r is Ok <==> Self::checkable(container@),
            r matches Ok(b) ==> b == Self::spec_valid(container@),
    ;

    /// Reconstructs a domain instance from a container.
    fn from_container(container: &Container) -> (r: Result<Self, DecodeError>)
        ensures
            r is Ok <==> Self::decodable(container@),
            r matches Ok(x) ==> x@ == Self::spec_decode(container@),
    ;

    /// Produces the generic envelope for this domain instance.
    fn to_container(&self) -> (r: Result<Container, EncodeError>)
        ensures
            r is Ok <==> Self::encodable(self@),
            r matches Ok(c) ==> c@ == Self::spec_encode(self@),
    ;
}

} // verus!
