use storage::container::{Container, ContainerKind, Containering};
use storage::note::{notes_eq, Note};

fn note(id: &[u8], body: &[u8]) -> Note {
    Note { id: id.to_vec(), body: body.to_vec() }
}

#[test]
fn round_trip_validates_and_equals() {
    let n = note(b"note-1", b"hello world");
    let c = n.to_container().unwrap();
    assert!(n.valid_container(&c).unwrap());
    let back = Note::from_container(&c).unwrap();
    assert!(notes_eq(&back, &n));
}

#[test]
fn encoded_container_carries_note_id() {
    let n = note(b"abc", b"payload");
    let c = n.to_container().unwrap();
    assert_eq!(c.id, n.id());
    assert_eq!(c.data, b"payload".to_vec());
    assert!(matches!(c.kind, ContainerKind::Data));
}

#[test]
fn empty_id_fails_to_encode() {
    let n = note(b"", b"body");
    assert!(n.to_container().is_err());
}

#[test]
fn wrong_kind_fails_to_decode() {
    let c = Container { id: b"x".to_vec(), kind: ContainerKind::Link, data: b"d".to_vec() };
    assert!(Note::from_container(&c).is_err());
    let probe = note(b"p", b"");
    assert_eq!(probe.valid_container(&c).unwrap(), false);
}

#[test]
fn bundle_kind_is_not_valid_for_notes() {
    let c = Container { id: b"x".to_vec(), kind: ContainerKind::Bundle, data: vec![] };
    let probe = note(b"p", b"");
    assert_eq!(probe.valid_container(&c).unwrap(), false);
}

#[test]
fn purpose_defaults_to_none() {
    assert_eq!(Note::purpose(), "None");
}
