//! A small domain type implementing the conversion capability: a note with
//! an id and a body. It doubles as the reference implementation of the
//! round-trip obligation and gives callers a concrete persistable type.

use vstd::prelude::*;

use crate::container::{bytes_eq, clone_bytes, Container, ContainerId, ContainerKind,
    ContainerModel, Containering, DecodeError, EncodeError};

verus! {

/// Mathematical model of a [`Note`].
pub struct NoteModel {
    pub id: Seq<u8>,
    pub body: Seq<u8>,
}

/// A note: an id chosen by its producer and an opaque body. It encodes to a
/// container of kind `Data` carrying the body. A note with an empty id
/// cannot be addressed, so it does not serialize.
#[derive(Clone, Debug)]
pub struct Note {
    pub id: ContainerId,
    pub body: Vec<u8>,
}

impl View for Note {
    type V = NoteModel;

    open spec fn view(&self) -> NoteModel {
        NoteModel { id: self.id@, body: self.body@ }
    }
}

impl Containering for Note {
    open spec fn spec_id(v: NoteModel) -> Seq<u8> {
        v.id
    }

    open spec fn encodable(v: NoteModel) -> bool {
        v.id.len() > 0
    }

    open spec fn spec_encode(v: NoteModel) -> ContainerModel {
        ContainerModel { id: v.id, kind: ContainerKind::Data, data: v.body }
    }

    open spec fn decodable(c: ContainerModel) -> bool {
        c.kind is Data && c.id.len() > 0
    }

    open spec fn spec_decode(c: ContainerModel) -> NoteModel {
        NoteModel { id: c.id, body: c.data }
    }

    open spec fn checkable(c: ContainerModel) -> bool {
        true
    }

    open spec fn spec_valid(c: ContainerModel) -> bool {
        c.kind is Data && c.id.len() > 0
    }

    proof fn round_trip(v: NoteModel) {
    }

    fn id(&self) -> (r: ContainerId) {
        clone_bytes(&self.id)
    }

    fn valid_container(&self, container: &Container) -> (r: Result<bool, DecodeError>) {
        let is_data = match container.kind {
            ContainerKind::Data => true,
            _ => false,
        };
        Ok(is_data && container.id.len() > 0)
    }

    fn from_container(container: &Container) -> (r: Result<Note, DecodeError>) {
        let is_data = match container.kind {
            ContainerKind::Data => true,
            _ => false,
        };
        if is_data && container.id.len() > 0 {
            Ok(Note { id: clone_bytes(&container.id), body: clone_bytes(&container.data) })
        } else {
            Err(DecodeError)
        }
    }

    fn to_container(&self) -> (r: Result<Container, EncodeError>) {
        if self.id.len() == 0 {
            Err(EncodeError)
        } else {
            Ok(Container {
                id: clone_bytes(&self.id),
                kind: ContainerKind::Data,
                data: clone_bytes(&self.body),
            })
        }
    }
}

/// Whether two notes hold the same id and body.
pub fn notes_eq(a: &Note, b: &Note) -> (r: bool)
    ensures
        r <==> a@ == b@,
{
    let r = bytes_eq(&a.id, &b.id) && bytes_eq(&a.body, &b.body);
    proof {
        if a@.id == b@.id && a@.body == b@.body {
            assert(a@ =~= b@);
        }
    }
    r
}

} // verus!
