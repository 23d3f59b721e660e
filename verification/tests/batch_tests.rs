use storage::memory::MemoryBackend;
use storage::note::Note;
use storage::storage::{BackendError, Storage, StorageError};

fn note(id: &[u8], body: &[u8]) -> Note {
    Note { id: id.to_vec(), body: body.to_vec() }
}

fn two_backends() -> Storage<MemoryBackend> {
    Storage {
        endpoints: vec![
            MemoryBackend::new("mem1".to_string()),
            MemoryBackend::new("mem2".to_string()),
        ],
        default_endpoint: 0,
    }
}

#[test]
fn batch_write_reflects_to_all() {
    let mut st = two_backends();
    let batch = vec![note(b"a", b"1"), note(b"b", b"2")];
    st.write_containers(&batch, None, true).unwrap();
    for ep in 0..2 {
        assert_eq!(st.read_container(&b"a".to_vec(), Some(ep)).unwrap().data, b"1".to_vec());
        assert_eq!(st.read_container(&b"b".to_vec(), Some(ep)).unwrap().data, b"2".to_vec());
    }
}

#[test]
fn batch_write_later_entry_wins() {
    let mut st = two_backends();
    let batch = vec![note(b"a", b"old"), note(b"a", b"new")];
    st.write_containers(&batch, None, false).unwrap();
    assert_eq!(st.read_container(&b"a".to_vec(), None).unwrap().data, b"new".to_vec());
    assert_eq!(st.get_container_ids(None).unwrap().len(), 1);
}

#[test]
fn batch_encode_failure_aborts_before_any_io() {
    let mut st = two_backends();
    let batch = vec![note(b"a", b"1"), note(b"", b"bad"), note(b"c", b"3")];
    let err = st.write_containers(&batch, None, true).unwrap_err();
    assert_eq!(err, StorageError::Encode);
    assert_eq!(st.get_container_ids(None).unwrap().len(), 0);
    assert_eq!(st.get_container_ids(Some(1)).unwrap().len(), 0);
}

#[test]
fn batch_delete_returns_values_in_request_order() {
    let mut st = two_backends();
    st.write_containers(&vec![note(b"a", b"1"), note(b"b", b"2"), note(b"c", b"3")], None, true)
        .unwrap();
    let ids = vec![b"c".to_vec(), b"missing".to_vec(), b"a".to_vec()];
    let got = st.delete_containers(&ids, None, true, true).unwrap().unwrap();
    // the absent id contributes nothing; the rest come back in request order
    let bodies: Vec<Vec<u8>> = got.iter().map(|c| c.data.clone()).collect();
    assert_eq!(bodies, vec![b"3".to_vec(), b"1".to_vec()]);
    for ep in 0..2 {
        assert!(!st.exists_container(&b"a".to_vec(), Some(ep)).unwrap());
        assert!(st.exists_container(&b"b".to_vec(), Some(ep)).unwrap());
        assert!(!st.exists_container(&b"c".to_vec(), Some(ep)).unwrap());
    }
}

#[test]
fn batch_delete_without_return_hands_back_nothing_but_deletes() {
    let mut st = two_backends();
    st.write_containers(&vec![note(b"a", b"1"), note(b"b", b"2")], None, true).unwrap();
    let got = st.delete_containers(&vec![b"a".to_vec()], None, false, false).unwrap();
    assert!(got.is_none());
    assert!(!st.exists_container(&b"a".to_vec(), Some(0)).unwrap());
    // no reflection was asked for: the other endpoint keeps the id
    assert!(st.exists_container(&b"a".to_vec(), Some(1)).unwrap());
}

#[test]
fn batch_read_preserves_requested_order() {
    let mut st = two_backends();
    st.write_containers(&vec![note(b"a", b"1"), note(b"b", b"2"), note(b"c", b"3")], None, false)
        .unwrap();
    let ids = vec![b"c".to_vec(), b"a".to_vec(), b"b".to_vec()];
    let got = st.read_containers(&ids, None).unwrap();
    let bodies: Vec<Vec<u8>> = got.iter().map(|c| c.data.clone()).collect();
    assert_eq!(bodies, vec![b"3".to_vec(), b"1".to_vec(), b"2".to_vec()]);
}

#[test]
fn batch_read_fails_on_missing_id() {
    let mut st = two_backends();
    st.write_containers(&vec![note(b"a", b"1")], None, false).unwrap();
    let ids = vec![b"a".to_vec(), b"ghost".to_vec()];
    let err = st.read_containers(&ids, None).unwrap_err();
    assert_eq!(err, StorageError::Backend { endpoint: 0, error: BackendError::NotFound });
}

#[test]
fn read_missing_id_is_not_found() {
    let st = two_backends();
    let err = st.read_container(&b"nope".to_vec(), None).unwrap_err();
    assert_eq!(err, StorageError::Backend { endpoint: 0, error: BackendError::NotFound });
}

#[test]
fn read_all_and_ids_enumerate_the_store() {
    let mut st = two_backends();
    st.write_containers(&vec![note(b"a", b"1"), note(b"b", b"2")], None, false).unwrap();
    let mut ids = st.get_container_ids(None).unwrap();
    ids.sort();
    assert_eq!(ids, vec![b"a".to_vec(), b"b".to_vec()]);
    let mut all = st.read_all_containers(None).unwrap();
    all.sort_by(|x, y| x.id.cmp(&y.id));
    assert_eq!(all.len(), 2);
    assert_eq!(all[0].data, b"1".to_vec());
    assert_eq!(all[1].data, b"2".to_vec());
}

#[test]
fn failing_deletes_stop_the_fan_out() {
    let mut st = Storage {
        endpoints: vec![
            MemoryBackend::new("a".to_string()),
            MemoryBackend::new_failing("b".to_string(), false, true),
            MemoryBackend::new("c".to_string()),
        ],
        default_endpoint: 0,
    };
    st.write_container(&note(b"k", b"v"), None, true).unwrap();
    let err = st.delete_container(&b"k".to_vec(), None, false, true).unwrap_err();
    assert_eq!(err, StorageError::Backend { endpoint: 1, error: BackendError::Failed });
    // deleted from the primary, stopped at the failing endpoint
    assert!(!st.exists_container(&b"k".to_vec(), Some(0)).unwrap());
    assert!(st.exists_container(&b"k".to_vec(), Some(1)).unwrap());
    assert!(st.exists_container(&b"k".to_vec(), Some(2)).unwrap());
}
