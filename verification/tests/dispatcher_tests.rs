use storage::container::Containering;
use storage::memory::MemoryBackend;
use storage::note::Note;
use storage::storage::{reflection_order, BackendError, Storage, StorageError};

fn note(id: &[u8], body: &[u8]) -> Note {
    Note { id: id.to_vec(), body: body.to_vec() }
}

fn two_backends() -> Storage<MemoryBackend> {
    Storage {
        endpoints: vec![
            MemoryBackend::new("mem1".to_string()),
            MemoryBackend::new("mem2".to_string()),
        ],
        default_endpoint: 0,
    }
}

#[test]
fn names_in_construction_order() {
    let st = Storage {
        endpoints: vec![
            MemoryBackend::new("alpha".to_string()),
            MemoryBackend::new("beta".to_string()),
            MemoryBackend::new("gamma".to_string()),
        ],
        default_endpoint: 1,
    };
    let names = st.names();
    assert_eq!(names.len(), 3);
    assert_eq!(names, vec!["alpha".to_string(), "beta".to_string(), "gamma".to_string()]);
}

#[test]
fn default_resolution_touches_only_default() {
    let mut st = two_backends();
    let n = note(b"k1", b"v1");
    st.write_container(&n, None, false).unwrap();
    assert!(st.exists_container(&b"k1".to_vec(), Some(0)).unwrap());
    assert!(!st.exists_container(&b"k1".to_vec(), Some(1)).unwrap());
}

#[test]
fn explicit_endpoint_overrides_default() {
    let mut st = two_backends();
    let n = note(b"k1", b"v1");
    st.write_container(&n, Some(1), false).unwrap();
    assert!(!st.exists_container(&b"k1".to_vec(), Some(0)).unwrap());
    assert!(st.exists_container(&b"k1".to_vec(), Some(1)).unwrap());
}

#[test]
fn full_reflection_reaches_every_endpoint() {
    let mut st = two_backends();
    let n = note(b"k1", b"v1");
    st.write_container(&n, None, true).unwrap();
    for ep in 0..2 {
        let c = st.read_container(&b"k1".to_vec(), Some(ep)).unwrap();
        let back = Note::from_container(&c).unwrap();
        assert_eq!(back.id, n.id);
        assert_eq!(back.body, n.body);
    }
}

#[test]
fn reflection_short_circuits_at_first_failure() {
    let mut st = Storage {
        endpoints: vec![
            MemoryBackend::new("a".to_string()),
            MemoryBackend::new_failing("b".to_string(), true, false),
            MemoryBackend::new("c".to_string()),
        ],
        default_endpoint: 0,
    };
    let n = note(b"k1", b"v1");
    let err = st.write_container(&n, None, true).unwrap_err();
    assert_eq!(err, StorageError::Backend { endpoint: 1, error: BackendError::Failed });
    // the primary write stands, the endpoint after the failing one was never reached
    assert!(st.exists_container(&b"k1".to_vec(), Some(0)).unwrap());
    assert!(!st.exists_container(&b"k1".to_vec(), Some(1)).unwrap());
    assert!(!st.exists_container(&b"k1".to_vec(), Some(2)).unwrap());
}

#[test]
fn encode_failure_aborts_before_any_backend() {
    let mut st = two_backends();
    let bad = note(b"", b"cannot address");
    let err = st.write_container(&bad, None, true).unwrap_err();
    assert_eq!(err, StorageError::Encode);
    assert_eq!(st.get_container_ids(None).unwrap().len(), 0);
    assert_eq!(st.get_container_ids(Some(1)).unwrap().len(), 0);
}

#[test]
fn endpoint_resolution_fails_before_io() {
    let mut st = two_backends();
    let n = note(b"k1", b"v1");
    assert_eq!(st.write_container(&n, Some(2), false).unwrap_err(), StorageError::EndpointResolution);
    assert_eq!(
        st.read_container(&b"k1".to_vec(), Some(9)).unwrap_err(),
        StorageError::EndpointResolution
    );
    let mut empty: Storage<MemoryBackend> = Storage { endpoints: vec![], default_endpoint: 0 };
    assert_eq!(empty.write_container(&n, None, false).unwrap_err(), StorageError::EndpointResolution);
}

#[test]
fn repeated_write_overwrites() {
    let mut st = two_backends();
    st.write_container(&note(b"k", b"first"), None, false).unwrap();
    st.write_container(&note(b"k", b"second"), None, false).unwrap();
    let c = st.read_container(&b"k".to_vec(), None).unwrap();
    assert_eq!(c.data, b"second".to_vec());
    assert_eq!(st.get_container_ids(None).unwrap().len(), 1);
}

#[test]
fn delete_deletes_even_without_return_value() {
    let mut st = two_backends();
    st.write_container(&note(b"k", b"v"), None, true).unwrap();
    let got = st.delete_container(&b"k".to_vec(), None, false, true).unwrap();
    assert!(got.is_none());
    assert!(!st.exists_container(&b"k".to_vec(), Some(0)).unwrap());
    assert!(!st.exists_container(&b"k".to_vec(), Some(1)).unwrap());
}

#[test]
fn delete_without_reflect_touches_only_target() {
    let mut st = two_backends();
    st.write_container(&note(b"k", b"v"), None, true).unwrap();
    let got = st.delete_container(&b"k".to_vec(), None, true, false).unwrap();
    assert_eq!(got.unwrap().data, b"v".to_vec());
    assert!(!st.exists_container(&b"k".to_vec(), Some(0)).unwrap());
    assert!(st.exists_container(&b"k".to_vec(), Some(1)).unwrap());
}

#[test]
fn end_to_end_two_backends() {
    let mut st = two_backends();
    let obj = note(b"doc-7", b"contents");
    st.write_container(&obj, None, true).unwrap();
    for ep in 0..2 {
        let c = st.read_container(&b"doc-7".to_vec(), Some(ep)).unwrap();
        let back = Note::from_container(&c).unwrap();
        assert_eq!(back.id, obj.id);
        assert_eq!(back.body, obj.body);
    }
    let got = st.delete_container(&b"doc-7".to_vec(), None, true, true).unwrap().unwrap();
    let back = Note::from_container(&got).unwrap();
    assert_eq!(back.id, obj.id);
    assert_eq!(back.body, obj.body);
    assert!(!st.exists_container(&b"doc-7".to_vec(), Some(0)).unwrap());
    assert!(!st.exists_container(&b"doc-7".to_vec(), Some(1)).unwrap());
}

#[test]
fn reflect_failure_leaves_primary_written() {
    let mut st = Storage {
        endpoints: vec![
            MemoryBackend::new("mem1".to_string()),
            MemoryBackend::new_failing("mem2".to_string(), true, false),
        ],
        default_endpoint: 0,
    };
    let obj = note(b"doc-9", b"contents");
    let err = st.write_container(&obj, None, true).unwrap_err();
    assert_eq!(err, StorageError::Backend { endpoint: 1, error: BackendError::Failed });
    let c = st.read_container(&b"doc-9".to_vec(), None).unwrap();
    let back = Note::from_container(&c).unwrap();
    assert_eq!(back.id, obj.id);
    assert_eq!(back.body, obj.body);
    assert!(!st.exists_container(&b"doc-9".to_vec(), Some(1)).unwrap());
}

#[test]
fn reflection_order_lists_target_then_ascending_rest() {
    assert_eq!(reflection_order(3, 1, true), vec![1, 0, 2]);
    assert_eq!(reflection_order(4, 0, true), vec![0, 1, 2, 3]);
    assert_eq!(reflection_order(4, 3, true), vec![3, 0, 1, 2]);
    assert_eq!(reflection_order(3, 1, false), vec![1]);
}
