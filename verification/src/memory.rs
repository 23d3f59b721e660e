//! An in-memory backend: the reference implementation of the backend
//! capability, backed by a plain vector of containers. It can be configured
//! at construction to refuse writes or deletes, which lets a caller exercise
//! the dispatcher's failure paths.

use vstd::prelude::*;

use crate::container::{bytes_eq, clone_bytes, clone_container, Container, ContainerId,
    ContainerModel};
use crate::storage::{container_models, deleted_values, id_views, lists_store_contents,
    lists_store_ids, store_after_deletes, store_after_writes, BackendError, ContainerCollection,
    ContainerIdCollection, OptionalContainer, OptionalContainerCollection, Storaging};

verus! {

/// The map a sequence of container models represents: an earlier entry wins
/// over a later one with the same id.
pub open spec fn seq_to_map(s: Seq<ContainerModel>) -> Map<Seq<u8>, ContainerModel>
    decreases s.len(),
{
    if s.len() == 0 {
        Map::empty()
    } else {
        seq_to_map(s.skip(1)).insert(s[0].id, s[0])
    }
}

/// `s` with every entry of id `k` dropped, order otherwise kept.
pub open spec fn drop_key(s: Seq<ContainerModel>, k: Seq<u8>) -> Seq<ContainerModel>
    decreases s.len(),
{
    if s.len() == 0 {
        s
    } else if s[0].id == k {
        drop_key(s.skip(1), k)
    } else {
        seq![s[0]] + drop_key(s.skip(1), k)
    }
}

/// The first entry of id `k` is the one the represented map holds.
pub proof fn lemma_seq_to_map_first(s: Seq<ContainerModel>, k: Seq<u8>, i: int)
    requires
        0 <= i < s.len(),
        s[i].id == k,
        forall|j: int| 0 <= j < i ==> s[j].id != k,
    ensures
        seq_to_map(s).contains_key(k),
        seq_to_map(s)[k] == s[i],
    decreases s.len(),
{
    if i == 0 {
    } else {
        assert(forall|j: int| 0 <= j < i - 1 ==> s.skip(1)[j] == s[j + 1]);
        lemma_seq_to_map_first(s.skip(1), k, i - 1);
    }
}

/// The represented map holds a key exactly when some entry carries it.
pub proof fn lemma_seq_to_map_dom(s: Seq<ContainerModel>, k: Seq<u8>)
    ensures
        seq_to_map(s).contains_key(k) <==> exists|j: int| 0 <= j < s.len() && #[trigger] s[j].id
            == k,
    decreases s.len(),
{
    if s.len() == 0 {
    } else {
        lemma_seq_to_map_dom(s.skip(1), k);
        assert(forall|j: int| 0 <= j < s.len() - 1 ==> s.skip(1)[j] == s[j + 1]);
        if exists|j: int| 0 <= j < s.len() && #[trigger] s[j].id == k {
            let j = choose|j: int| 0 <= j < s.len() && #[trigger] s[j].id == k;
            if j > 0 {
                assert(s.skip(1)[j - 1].id == k);
            }
        }
    }
}

/// Dropping every entry of id `k` removes exactly `k` from the represented
/// map.
pub proof fn lemma_drop_key_map(s: Seq<ContainerModel>, k: Seq<u8>)
    ensures
        seq_to_map(drop_key(s, k)) == seq_to_map(s).remove(k),
    decreases s.len(),
{
    if s.len() == 0 {
        assert(seq_to_map(drop_key(s, k)) =~= seq_to_map(s).remove(k));
    } else {
        lemma_drop_key_map(s.skip(1), k);
        if s[0].id == k {
            assert(seq_to_map(s).remove(k) =~= seq_to_map(s.skip(1)).remove(k));
        } else {
            let d = seq![s[0]] + drop_key(s.skip(1), k);
            assert(d[0] == s[0]);
            assert(d.skip(1) =~= drop_key(s.skip(1), k));
            assert(seq_to_map(d) == seq_to_map(drop_key(s.skip(1), k)).insert(s[0].id, s[0]));
            assert(seq_to_map(s.skip(1)).remove(k).insert(s[0].id, s[0]) =~= seq_to_map(
                s.skip(1),
            ).insert(s[0].id, s[0]).remove(k));
        }
    }
}

/// An in-memory storage engine. Containers live in a vector; an entry
/// inserted later is placed in front, so the front-most entry of an id is
/// the current one.
pub struct MemoryBackend {
    name: String,
    items: Vec<Container>,
    fail_writes: bool,
    fail_deletes: bool,
}

impl MemoryBackend {
    /// A fresh, empty backend with the given name.
    pub fn new(name: String) -> (r: MemoryBackend)
        ensures
            r.store() == Map::<Seq<u8>, ContainerModel>::empty(),
            r.spec_name() == name@,
    {
        let r = MemoryBackend { name, items: Vec::new(), fail_writes: false, fail_deletes: false };
        proof {
            assert(container_models(r.items@) =~= Seq::<ContainerModel>::empty());
            assert(r.store() =~= Map::<Seq<u8>, ContainerModel>::empty());
        }
        r
    }

    /// A fresh, empty backend that refuses writes or deletes as configured;
    /// its reads still work, so a caller can observe what reached it.
    pub fn new_failing(name: String, fail_writes: bool, fail_deletes: bool) -> (r: MemoryBackend)
        ensures
            r.store() == Map::<Seq<u8>, ContainerModel>::empty(),
            r.spec_name() == name@,
    {
        let r = MemoryBackend { name, items: Vec::new(), fail_writes, fail_deletes };
        proof {
            assert(container_models(r.items@) =~= Seq::<ContainerModel>::empty());
            assert(r.store() =~= Map::<Seq<u8>, ContainerModel>::empty());
        }
        r
    }

    /// The index of the front-most entry carrying `id`, if any.
    fn find_first(&self, id: &ContainerId) -> (r: Option<usize>)
        ensures
            r matches Some(i) ==> 0 <= i < self.items@.len() && self.items@[i as int]@.id == id@
                && forall|j: int| 0 <= j < i ==> self.items@[j]@.id != id@,
            r is None ==> forall|j: int| 0 <= j < self.items@.len() ==> self.items@[j]@.id != id@,
    {
        let mut i: usize = 0;
        while i < self.items.len()
            invariant
                0 <= i <= self.items@.len(),
                forall|j: int| 0 <= j < i ==> self.items@[j]@.id != id@,
            decreases self.items@.len() - i,
        {
            if bytes_eq(&self.items[i].id, id) {
                return Some(i);
            }
            i += 1;
        }
        None
    }
}

impl Storaging for MemoryBackend {
    closed spec fn store(&self) -> Map<Seq<u8>, ContainerModel> {
        seq_to_map(container_models(self.items@))
    }

    closed spec fn spec_name(&self) -> Seq<char> {
        self.name@
    }

    fn name(&self) -> (r: String) {
        self.name.clone()
    }

    fn write_container(&mut self, container: Container) -> (r: Result<(), BackendError>) {
        if self.fail_writes {
            return Err(BackendError::Failed);
        }
        let ghost ms = container_models(self.items@);
        let ghost cm = container@;
        self.items.insert(0, container);
        proof {
            let ms2 = container_models(self.items@);
            assert(ms2[0] == cm);
            assert(ms2.skip(1) =~= ms);
            assert(self.store() == seq_to_map(ms).insert(cm.id, cm));
        }
        Ok(())
    }

    fn write_containers(&mut self, containers: Vec<Container>) -> (r: Result<(), BackendError>) {
        if self.fail_writes {
            return Err(BackendError::Failed);
        }
        let ghost m0 = self.store();
        let ghost cs0 = container_models(containers@);
        let mut batch = containers;
        let ghost mut i: int = 0;
        while batch.len() > 0
            invariant
                0 <= i <= cs0.len(),
                container_models(batch@) =~= cs0.skip(i),
                self.store() == store_after_writes(m0, cs0.take(i)),
                self.spec_name() == old(self).spec_name(),
            decreases batch@.len(),
        {
            let ghost pre_batch = batch@;
            let c = batch.remove(0);
            let ghost ms = container_models(self.items@);
            let ghost cm = c@;
            proof {
                assert(container_models(pre_batch).len() == pre_batch.len());
                assert(pre_batch.len() > 0);
                assert(container_models(pre_batch) =~= cs0.skip(i));
                assert(cs0.skip(i).len() == cs0.len() - i);
                assert(i < cs0.len());
                assert(container_models(pre_batch)[0] == cm);
                assert(cs0.skip(i)[0] == cs0[i]);
                assert(cm == cs0[i]);
                assert(container_models(batch@) =~= container_models(pre_batch).skip(1));
            }
            self.items.insert(0, c);
            proof {
                let ms2 = container_models(self.items@);
                assert(ms2[0] == cm);
                assert(ms2.skip(1) =~= ms);
                assert(self.store() == seq_to_map(ms).insert(cm.id, cm));
                assert(container_models(batch@) =~= cs0.skip(i + 1));
                let taken = cs0.take(i + 1);
                assert(taken.drop_last() =~= cs0.take(i));
                assert(taken.last() == cs0[i]);
                assert(store_after_writes(m0, taken) == store_after_writes(m0, cs0.take(i)).insert(
                    cm.id,
                    cm,
                ));
                i = i + 1;
            }
        }
        proof {
            assert(cs0.take(i) =~= cs0);
        }
        Ok(())
    }

    fn get_container_ids(&self) -> (r: Result<ContainerIdCollection, BackendError>) {
        let ghost ms = container_models(self.items@);
        let mut out: Vec<ContainerId> = Vec::new();
        let mut i: usize = 0;
        while i < self.items.len()
            invariant
                0 <= i <= self.items@.len(),
                ms == container_models(self.items@),
                forall|l1: int, l2: int|
                    0 <= l1 < out@.len() && 0 <= l2 < out@.len() && l1 != l2 ==> out@[l1]@
                        != out@[l2]@,
                forall|l: int|
                    0 <= l < out@.len() ==> self.store().contains_key(#[trigger] out@[l]@)
                        && exists|j: int| 0 <= j < i && ms[j].id == #[trigger] out@[l]@,
                forall|j: int| #![trigger ms[j].id]
                    0 <= j < i ==> exists|l: int| 0 <= l < out@.len() && out@[l]@ == ms[j].id,
            decreases self.items@.len() - i,
        {
            let cid = clone_bytes(&self.items[i].id);
            proof {
                assert(cid@ == ms[i as int].id);
            }
            match self.find_first(&cid) {
                Some(j) => {
                    if j == i {
                        proof {
                            lemma_seq_to_map_first(ms, cid@, i as int);
                        }
                        let ghost pre_out = out@;
                        out.push(cid);
                        proof {
                            assert forall|j2: int| #![trigger ms[j2].id] 0 <= j2 < i + 1 implies
                                exists|l: int| 0 <= l < out@.len() && out@[l]@ == ms[j2].id by {
                                if j2 < i {
                                    assert(exists|l: int|
                                        0 <= l < pre_out.len() && pre_out[l]@ == ms[j2].id);
                                    let l0 = choose|l: int|
                                        0 <= l < pre_out.len() && pre_out[l]@ == ms[j2].id;
                                    assert(out@[l0]@ == ms[j2].id);
                                } else {
                                    assert(out@[out@.len() - 1]@ == ms[i as int].id);
                                }
                            }
                        }
                    } else {
                        proof {
                            assert(j < i);
                            assert(ms[j as int].id == ms[i as int].id);
                            assert(exists|l: int|
                                0 <= l < out@.len() && out@[l]@ == ms[j as int].id);
                        }
                    }
                },
                None => {
                    proof {
                        assert(self.items@[i as int]@.id == cid@);
                        assert(false);
                    }
                },
            }
            i += 1;
        }
        proof {
            assert forall|k: Seq<u8>| self.store().contains_key(k) implies exists|l: int|
                0 <= l < out@.len() && #[trigger] out@[l]@ == k by {
                lemma_seq_to_map_dom(ms, k);
                let j = choose|j: int| 0 <= j < ms.len() && #[trigger] ms[j].id == k;
                assert(exists|l: int| 0 <= l < out@.len() && out@[l]@ == ms[j].id);
            }
            assert(lists_store_ids(self.store(), out@));
        }
        Ok(out)
    }

    fn exists_container(&self, id: &ContainerId) -> (r: Result<bool, BackendError>) {
        let ghost ms = container_models(self.items@);
        match self.find_first(id) {
            Some(i) => {
                proof {
                    lemma_seq_to_map_first(ms, id@, i as int);
                }
                Ok(true)
            },
            None => {
                proof {
                    lemma_seq_to_map_dom(ms, id@);
                }
                Ok(false)
            },
        }
    }

    fn read_container(&self, id: &ContainerId) -> (r: Result<Container, BackendError>) {
        let ghost ms = container_models(self.items@);
        match self.find_first(id) {
            Some(i) => {
                proof {
                    lemma_seq_to_map_first(ms, id@, i as int);
                }
                Ok(clone_container(&self.items[i]))
            },
            None => {
                proof {
                    lemma_seq_to_map_dom(ms, id@);
                }
                Err(BackendError::NotFound)
            },
        }
    }

    fn read_containers(&self, ids: &ContainerIdCollection) -> (r: Result<
        ContainerCollection,
        BackendError,
    >) {
        let mut out: Vec<Container> = Vec::new();
        let mut i: usize = 0;
        while i < ids.len()
            invariant
                0 <= i <= ids@.len(),
                out@.len() == i,
                forall|j: int|
                    0 <= j < i ==> self.store().contains_key(#[trigger] ids@[j]@) && out@[j]@
                        == self.store()[ids@[j]@],
            decreases ids@.len() - i,
        {
            match self.read_container(&ids[i]) {
                Ok(c) => {
                    out.push(c);
                },
                Err(e) => {
                    return Err(e);
                },
            }
            i += 1;
        }
        Ok(out)
    }

    fn read_all_containers(&self) -> (r: Result<ContainerCollection, BackendError>) {
        let ghost ms = container_models(self.items@);
        let mut out: Vec<Container> = Vec::new();
        let mut i: usize = 0;
        while i < self.items.len()
            invariant
                0 <= i <= self.items@.len(),
                ms == container_models(self.items@),
                forall|l1: int, l2: int|
                    0 <= l1 < out@.len() && 0 <= l2 < out@.len() && l1 != l2 ==> out@[l1]@.id
                        != out@[l2]@.id,
                forall|l: int|
                    0 <= l < out@.len() ==> self.store().contains_key(#[trigger] out@[l]@.id)
                        && self.store()[out@[l]@.id] == out@[l]@ && exists|j: int|
                        0 <= j < i && ms[j].id == #[trigger] out@[l]@.id,
                forall|j: int| #![trigger ms[j].id]
                    0 <= j < i ==> exists|l: int| 0 <= l < out@.len() && out@[l]@.id == ms[j].id,
            decreases self.items@.len() - i,
        {
            let cid = clone_bytes(&self.items[i].id);
            proof {
                assert(cid@ == ms[i as int].id);
            }
            match self.find_first(&cid) {
                Some(j) => {
                    if j == i {
                        proof {
                            lemma_seq_to_map_first(ms, cid@, i as int);
                        }
                        let ghost pre_out = out@;
                        out.push(clone_container(&self.items[i]));
                        proof {
                            assert forall|j2: int| #![trigger ms[j2].id] 0 <= j2 < i + 1 implies
                                exists|l: int| 0 <= l < out@.len() && out@[l]@.id == ms[j2].id by {
                                if j2 < i {
                                    assert(exists|l: int|
                                        0 <= l < pre_out.len() && pre_out[l]@.id == ms[j2].id);
                                    let l0 = choose|l: int|
                                        0 <= l < pre_out.len() && pre_out[l]@.id == ms[j2].id;
                                    assert(out@[l0]@.id == ms[j2].id);
                                } else {
                                    assert(out@[out@.len() - 1]@.id == ms[i as int].id);
                                }
                            }
                        }
                    } else {
                        proof {
                            assert(j < i);
                            assert(ms[j as int].id == ms[i as int].id);
                            assert(exists|l: int|
                                0 <= l < out@.len() && out@[l]@.id == ms[j as int].id);
                        }
                    }
                },
                None => {
                    proof {
                        assert(self.items@[i as int]@.id == cid@);
                        assert(false);
                    }
                },
            }
            i += 1;
        }
        proof {
            assert forall|k: Seq<u8>| self.store().contains_key(k) implies exists|l: int|
                0 <= l < out@.len() && #[trigger] out@[l]@.id == k by {
                lemma_seq_to_map_dom(ms, k);
                let j = choose|j: int| 0 <= j < ms.len() && #[trigger] ms[j].id == k;
                assert(exists|l: int| 0 <= l < out@.len() && out@[l]@.id == ms[j].id);
            }
            assert(lists_store_contents(self.store(), out@));
        }
        Ok(out)
    }

    fn delete_container(&mut self, id: &ContainerId, return_container: bool) -> (r: Result<
        OptionalContainer,
        BackendError,
    >) {
        if self.fail_deletes {
            return Err(BackendError::Failed);
        }
        let ghost ms0 = container_models(self.items@);
        let captured: OptionalContainer = if return_container {
            match self.find_first(id) {
                Some(i) => {
                    proof {
                        lemma_seq_to_map_first(ms0, id@, i as int);
                    }
                    Some(clone_container(&self.items[i]))
                },
                None => {
                    proof {
                        lemma_seq_to_map_dom(ms0, id@);
                    }
                    None
                },
            }
        } else {
            None
        };
        let mut kept: Vec<Container> = Vec::new();
        while self.items.len() > 0
            invariant
                container_models(kept@) + drop_key(container_models(self.items@), id@) =~= drop_key(
                    ms0,
                    id@,
                ),
                self.spec_name() == old(self).spec_name(),
            decreases self.items@.len(),
        {
            let ghost pre = container_models(self.items@);
            let c = self.items.remove(0);
            proof {
                assert(container_models(self.items@) =~= pre.skip(1));
                assert(pre[0] == c@);
            }
            if !bytes_eq(&c.id, id) {
                let ghost kpre = container_models(kept@);
                kept.push(c);
                proof {
                    assert(container_models(kept@) =~= kpre + seq![pre[0]]);
                    assert((kpre + seq![pre[0]]) + drop_key(pre.skip(1), id@) =~= kpre + (seq![
                        pre[0],
                    ] + drop_key(pre.skip(1), id@)));
                }
            }
        }
        proof {
            assert(container_models(self.items@) =~= Seq::<ContainerModel>::empty());
            assert(drop_key(container_models(self.items@), id@) =~= Seq::<
                ContainerModel,
            >::empty());
            assert(container_models(kept@) + Seq::<ContainerModel>::empty() =~= container_models(
                kept@,
            ));
        }
        self.items = kept;
        proof {
            lemma_drop_key_map(ms0, id@);
            assert(self.store() == seq_to_map(ms0).remove(id@));
        }
        Ok(captured)
    }

    fn delete_containers(&mut self, ids: &ContainerIdCollection, return_containers: bool) -> (r:
        Result<OptionalContainerCollection, BackendError>) {
        if self.fail_deletes {
            return Err(BackendError::Failed);
        }
        let ghost m0 = self.store();
        let ghost ks = id_views(ids@);
        let mut acc: Vec<Container> = Vec::new();
        proof {
            assert(ks.skip(0) =~= ks);
        }
        let mut i: usize = 0;
        while i < ids.len()
            invariant
                0 <= i <= ids@.len(),
                ks == id_views(ids@),
                store_after_deletes(m0, ks) == store_after_deletes(self.store(), ks.skip(i as int)),
                return_containers ==> deleted_values(m0, ks) == container_models(acc@)
                    + deleted_values(self.store(), ks.skip(i as int)),
                !return_containers ==> acc@.len() == 0,
                self.spec_name() == old(self).spec_name(),
            decreases ids@.len() - i,
        {
            let ghost cur = self.store();
            let ghost rest = ks.skip(i as int);
            proof {
                assert(rest[0] == ks[i as int]);
                assert(rest[0] == ids@[i as int]@);
                assert(rest.skip(1) =~= ks.skip(i as int + 1));
            }
            match self.delete_container(&ids[i], return_containers) {
                Ok(opt) => {
                    proof {
                        assert(self.store() == cur.remove(ids@[i as int]@));
                        assert(store_after_deletes(cur, rest) == store_after_deletes(
                            self.store(),
                            rest.skip(1),
                        ));
                    }
                    match opt {
                        Some(c) => {
                            let ghost apre = container_models(acc@);
                            acc.push(c);
                            proof {
                                assert(container_models(acc@) =~= apre + seq![cur[ids@[i as int]@]]);
                                assert(deleted_values(cur, rest) == seq![cur[ids@[i as int]@]]
                                    + deleted_values(self.store(), rest.skip(1)));
                                assert((apre + seq![cur[ids@[i as int]@]]) + deleted_values(
                                    self.store(),
                                    rest.skip(1),
                                ) =~= apre + (seq![cur[ids@[i as int]@]] + deleted_values(
                                    self.store(),
                                    rest.skip(1),
                                )));
                            }
                        },
                        None => {
                            proof {
                                if return_containers {
                                    assert(!cur.contains_key(ids@[i as int]@));
                                    assert(deleted_values(cur, rest) == deleted_values(
                                        self.store(),
                                        rest.skip(1),
                                    ));
                                }
                            }
                        },
                    }
                },
                Err(e) => {
                    return Err(e);
                },
            }
            i += 1;
        }
        proof {
            assert(ks.skip(ids@.len() as int) =~= Seq::<Seq<u8>>::empty());
            if return_containers {
                assert(container_models(acc@) + Seq::<ContainerModel>::empty() =~= container_models(
                    acc@,
                ));
            }
        }
        if return_containers {
            Ok(Some(acc))
        } else {
            Ok(None)
        }
    }
}

} // verus!
