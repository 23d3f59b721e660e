//! The backend capability and the dispatcher: one logical storage interface
//! over an ordered list of backends, with default-only reads and an optional
//! sequential write/delete fan-out ("reflection").

use vstd::prelude::*;

use crate::container::{clone_container, Container, ContainerId, ContainerModel, Containering};

verus! {

/// One backend call's failure, as the backend capability reports it.
#[derive(Clone, Copy, Debug, PartialEq, Eq, Structural)]
pub enum BackendError {
    /// A read or delete addressed an absent id.
    NotFound,
    /// Any other backend-defined failure.
    Failed,
}

/// One terminal error per dispatcher call.
#[derive(Clone, Copy, Debug, PartialEq, Eq, Structural)]
pub enum StorageError {
    /// The resolved endpoint index is out of range (or the list is empty).
    EndpointResolution,
    /// A domain object could not produce a container.
    Encode,
    /// One backend call failed; `endpoint` names the failing endpoint.
    Backend { endpoint: usize, error: BackendError },
}

pub type ContainerCollection = Vec<Container>;

pub type ContainerIdCollection = Vec<ContainerId>;

pub type OptionalContainer = Option<Container>;

pub type OptionalContainerCollection = Option<Vec<Container>>;

/// The models of a sequence of containers.
pub open spec fn container_models(s: Seq<Container>) -> Seq<ContainerModel> {
    Seq::new(s.len(), |i: int| s[i]@)
}

/// The contents of a sequence of ids.
pub open spec fn id_views(s: Seq<ContainerId>) -> Seq<Seq<u8>> {
    Seq::new(s.len(), |i: int| s[i]@)
}

/// The store that results from upserting `cs` in order into `m`: a later
/// entry with the same id overwrites an earlier one.
pub open spec fn store_after_writes(
    m: Map<Seq<u8>, ContainerModel>,
    cs: Seq<ContainerModel>,
) -> Map<Seq<u8>, ContainerModel>
    decreases cs.len(),
{
    if cs.len() == 0 {
        m
    } else {
        store_after_writes(m, cs.drop_last()).insert(cs.last().id, cs.last())
    }
}

/// The store that results from deleting `ids` in order from `m`.
pub open spec fn store_after_deletes(
    m: Map<Seq<u8>, ContainerModel>,
    ids: Seq<Seq<u8>>,
) -> Map<Seq<u8>, ContainerModel>
    decreases ids.len(),
{
    if ids.len() == 0 {
        m
    } else {
        store_after_deletes(m.remove(ids[0]), ids.skip(1))
    }
}

/// The values a batch delete of `ids` from `m` hands back, in request order;
/// an id that is absent (or already deleted earlier in the batch) contributes
/// nothing.
pub open spec fn deleted_values(
    m: Map<Seq<u8>, ContainerModel>,
    ids: Seq<Seq<u8>>,
) -> Seq<ContainerModel>
    decreases ids.len(),
{
    if ids.len() == 0 {
        Seq::empty()
    } else {
        let rest = deleted_values(m.remove(ids[0]), ids.skip(1));
        if m.contains_key(ids[0]) {
            seq![m[ids[0]]] + rest
        } else {
            rest
        }
    }
}

/// Whether `ids` enumerates the keys of `m`: every stored id exactly once.
pub open spec fn lists_store_ids(m: Map<Seq<u8>, ContainerModel>, ids: Seq<ContainerId>) -> bool {
    &&& forall|i: int, j: int|
        0 <= i < ids.len() && 0 <= j < ids.len() && i != j ==> ids[i]@ != ids[j]@
    &&& forall|i: int| 0 <= i < ids.len() ==> m.contains_key(#[trigger] ids[i]@)
    &&& forall|k: Seq<u8>|
        m.contains_key(k) ==> exists|i: int| 0 <= i < ids.len() && #[trigger] ids[i]@ == k
}

/// Whether `cs` enumerates the contents of `m`: every stored container
/// exactly once.
pub open spec fn lists_store_contents(m: Map<Seq<u8>, ContainerModel>, cs: Seq<Container>) -> bool {
    &&& forall|i: int, j: int|
        0 <= i < cs.len() && 0 <= j < cs.len() && i != j ==> cs[i]@.id != cs[j]@.id
    &&& forall|i: int|
        0 <= i < cs.len() ==> m.contains_key(#[trigger] cs[i]@.id) && m[cs[i]@.id] == cs[i]@
    &&& forall|k: Seq<u8>|
        m.contains_key(k) ==> exists|i: int| 0 <= i < cs.len() && #[trigger] cs[i]@.id == k
}

/// Whether `cs` is the batch read of `ids` from `m`, in request order.
pub open spec fn reads_in_order(
    m: Map<Seq<u8>, ContainerModel>,
    ids: Seq<ContainerId>,
    cs: Seq<Container>,
) -> bool {
    &&& cs.len() == ids.len()
    &&& forall|i: int|
        0 <= i < ids.len() ==> m.contains_key(#[trigger] ids[i]@) && cs[i]@ == m[ids[i]@]
}

/// Whether every requested id is present in `m`.
pub open spec fn all_present(m: Map<Seq<u8>, ContainerModel>, ids: Seq<ContainerId>) -> bool {
    forall|i: int| 0 <= i < ids.len() ==> m.contains_key(#[trigger] ids[i]@)
}

/// The backend capability: the contract a physical storage engine implements
/// to be pluggable. Its durable state is modelled as a map from container id
/// to container model (`store`); every operation's contract is stated over
/// that map. Any operation may fail with a backend-defined error; what each
/// contract pins down is the success case, plus that an absent id makes a
/// read fail. A batch call settles its own per-item atomicity: `Ok` means the
/// whole batch was applied.
pub trait Storaging: Sized {
    /// The durable contents of this backend.
    spec fn store(&self) -> Map<Seq<u8>, ContainerModel>;

    /// The backend's stable name.
    spec fn spec_name(&self) -> Seq<char>;

    /// The backend's stable name.
    fn name(&self) -> (r: String)
        ensures
            r@ == self.spec_name(),
    ;

    /// Upsert: writing an id that already exists overwrites it.
    fn write_container(&mut self, container: Container) -> (r: Result<(), BackendError>)
        ensures
            final(self).spec_name() == old(self).spec_name(),
            r is Ok ==> final(self).store() == old(self).store().insert(
                container@.id,
                container@,
            ),
    ;

    /// Batch upsert, applied in order: on an id repeated within the batch the
    /// later entry wins.
    fn write_containers(&mut self, containers: Vec<Container>) -> (r: Result<(), BackendError>)
        ensures
            final(self).spec_name() == old(self).spec_name(),
            r is Ok ==> final(self).store() == store_after_writes(
                old(self).store(),
                container_models(containers@),
            ),
    ;

    /// Full key enumeration: every stored id exactly once.
    fn get_container_ids(&self) -> (r: Result<ContainerIdCollection, BackendError>)
        ensures
            r matches Ok(ids) ==> lists_store_ids(self.store(), ids@),
    ;

    /// Whether `id` is stored.
    fn exists_container(&self, id: &ContainerId) -> (r: Result<bool, BackendError>)
        ensures
            r matches Ok(b) ==> b == self.store().contains_key(id@),
    ;

    /// Reads the container stored under `id`; an absent id fails with
    /// [`BackendError::NotFound`].
    fn read_container(&self, id: &ContainerId) -> (r: Result<Container, BackendError>)
        ensures
            r matches Ok(c) ==> self.store().contains_key(id@) && c@ == self.store()[id@],
            !self.store().contains_key(id@) ==> (r matches Err(e) && e == BackendError::NotFound),
    ;

    /// Batch read, preserving the caller's requested id order in the result.
    /// An absent id fails the whole call.
    fn read_containers(&self, ids: &ContainerIdCollection) -> (r: Result<
        ContainerCollection,
        BackendError,
    >)
        ensures
            r matches Ok(cs) ==> reads_in_order(self.store(), ids@, cs@),
            !all_present(self.store(), ids@) ==> r is Err,
    ;

    /// Full scan: every stored container exactly once.
    fn read_all_containers(&self) -> (r: Result<ContainerCollection, BackendError>)
        ensures
            r matches Ok(cs) ==> lists_store_contents(self.store(), cs@),
    ;

    /// Deletes `id`; deleting an absent id succeeds and deletes nothing. The
    /// stored value is handed back only when `return_container` asks for it
    /// and the id was present.
    fn delete_container(&mut self, id: &ContainerId, return_container: bool) -> (r: Result<
        OptionalContainer,
        BackendError,
    >)
        ensures
            final(self).spec_name() == old(self).spec_name(),
            r matches Ok(opt) ==> {
                &&& final(self).store() == old(self).store().remove(id@)
                &&& return_container && old(self).store().contains_key(id@) ==> (opt matches Some(
                    c,
                ) && c@ == old(self).store()[id@])
                &&& !(return_container && old(self).store().contains_key(id@)) ==> opt is None
            },
    ;

    /// Batch delete, applied in request order. The deleted values are handed
    /// back, in request order, only when `return_containers` asks for them;
    /// an absent id contributes nothing to them.
    fn delete_containers(&mut self, ids: &ContainerIdCollection, return_containers: bool) -> (r:
        Result<OptionalContainerCollection, BackendError>)
        ensures
            final(self).spec_name() == old(self).spec_name(),
            r matches Ok(opt) ==> {
                &&& final(self).store() == store_after_deletes(old(self).store(), id_views(ids@))
                &&& return_containers ==> (opt matches Some(cs) && container_models(cs@)
                    == deleted_values(old(self).store(), id_views(ids@)))
                &&& !return_containers ==> opt is None
            },
    ;
}

/// Whether every element of a batch of domain values can be encoded.
pub open spec fn all_encodable<T: Containering>(s: Seq<T>) -> bool {
    forall|i: int| 0 <= i < s.len() ==> T::encodable(#[trigger] s[i]@)
}

/// The envelopes a batch of domain values encodes to, in batch order.
pub open spec fn encode_models<T: Containering>(s: Seq<T>) -> Seq<ContainerModel> {
    Seq::new(s.len(), |i: int| T::spec_encode(s[i]@))
}

/// The dispatcher: an ordered list of backend instances and the index of the
/// backend that is authoritative for reads and first target of writes. Both
/// are fixed at construction.
pub struct Storage<B: Storaging> {
    pub endpoints: Vec<B>,
    pub default_endpoint: usize,
}

impl<B: Storaging> Storage<B> {
    /// The contents of each endpoint, in endpoint order.
    pub open spec fn stores(&self) -> Seq<Map<Seq<u8>, ContainerModel>> {
        Seq::new(self.endpoints@.len(), |i: int| self.endpoints@[i].store())
    }

    /// The name of each endpoint, in endpoint order.
    pub open spec fn names_view(&self) -> Seq<Seq<char>> {
        Seq::new(self.endpoints@.len(), |i: int| self.endpoints@[i].spec_name())
    }

    /// The endpoint index a call resolves to: the explicit one if given, else
    /// the default.
    pub open spec fn resolved(&self, endpoint_index: Option<usize>) -> int {
        match endpoint_index {
            Some(i) => i as int,
            None => self.default_endpoint as int,
        }
    }

    /// What every dispatcher call preserves: the endpoint count, the default
    /// index, and each endpoint's name.
    pub open spec fn keeps_shape_of(&self, pre: Self) -> bool {
        &&& self.endpoints@.len() == pre.endpoints@.len()
        &&& self.default_endpoint == pre.default_endpoint
        &&& forall|j: int|
            0 <= j < pre.endpoints@.len() ==> self.names_view()[j] == pre.names_view()[j]
    }

    /// The names of the configured endpoints, in construction order.
    pub fn names(&self) -> (r: Vec<String>)
        ensures
            r@.len() == self.endpoints@.len(),
            forall|i: int| 0 <= i < r@.len() ==> r@[i]@ == self.names_view()[i],
    {
        let mut r: Vec<String> = Vec::new();
        let mut i: usize = 0;
        while i < self.endpoints.len()
            invariant
                0 <= i <= self.endpoints@.len(),
                r@.len() == i,
                forall|j: int| 0 <= j < i ==> r@[j]@ == self.names_view()[j],
            decreases self.endpoints@.len() - i,
        {
            let ep = &self.endpoints[i];
            r.push(ep.name());
            i += 1;
        }
        r
    }

    /// Writes one container to the endpoint at `i`, touching no other.
    fn write_at(&mut self, i: usize, container: &Container) -> (r: Result<(), BackendError>)
        requires
            i < old(self).endpoints@.len(),
        ensures
            final(self).endpoints@.len() == old(self).endpoints@.len(),
            final(self).default_endpoint == old(self).default_endpoint,
            forall|j: int|
                0 <= j < old(self).endpoints@.len() && j != i ==> final(self).endpoints@[j]
                    == old(self).endpoints@[j],
            final(self).endpoints@[i as int].spec_name() == old(
                self,
            ).endpoints@[i as int].spec_name(),
            r is Ok ==> final(self).endpoints@[i as int].store() == old(
                self,
            ).endpoints@[i as int].store().insert(container@.id, container@),
    {
        let c = clone_container(container);
        let ep = &mut self.endpoints[i];
        ep.write_container(c)
    }

    /// Writes a domain object: the object is encoded, the target endpoint is
    /// resolved (explicit index or default) and written, and with
    /// `reflect_on_all` the same envelope is then written to every other
    /// endpoint in ascending index order, stopping at the first failure.
    /// Nothing already written is rolled back.
    pub fn write_container<T: Containering>(
        &mut self,
        container: &T,
        endpoint_index: Option<usize>,
        reflect_on_all: bool,
    ) -> (r: Result<(), StorageError>)
        ensures
            final(self).keeps_shape_of(*old(self)),
            ({
                let t = old(self).resolved(endpoint_index);
                let n = old(self).endpoints@.len() as int;
                let c = T::spec_encode(container@);
                &&& !T::encodable(container@) ==> r == Err::<(), StorageError>(StorageError::Encode)
                    && *final(self) == *old(self)
                &&& T::encodable(container@) && !(0 <= t < n) ==> r == Err::<(), StorageError>(
                    StorageError::EndpointResolution,
                ) && *final(self) == *old(self)
                &&& T::encodable(container@) && 0 <= t < n ==> {
                    &&& r is Ok ==> {
                        &&& final(self).stores()[t] == old(self).stores()[t].insert(c.id, c)
                        &&& reflect_on_all ==> forall|j: int|
                            0 <= j < n ==> final(self).stores()[j] == old(self).stores()[j].insert(
                                c.id,
                                c,
                            )
                        &&& !reflect_on_all ==> forall|j: int|
                            0 <= j < n && j != t ==> final(self).endpoints@[j] == old(
                                self,
                            ).endpoints@[j]
                    }
                    &&& r matches Err(e) ==> (e matches StorageError::Backend {
                        endpoint,
                        error: _,
                    } && {
                        let k = endpoint as int;
                        &&& 0 <= k < n
                        &&& !reflect_on_all ==> k == t
                        &&& k == t ==> forall|j: int|
                            0 <= j < n && j != t ==> final(self).endpoints@[j] == old(
                                self,
                            ).endpoints@[j]
                        &&& k != t ==> {
                            &&& reflect_on_all
                            &&& final(self).stores()[t] == old(self).stores()[t].insert(c.id, c)
                            &&& forall|j: int|
                                0 <= j < n && j != t && j < k ==> final(self).stores()[j] == old(
                                    self,
                                ).stores()[j].insert(c.id, c)
                            &&& forall|j: int|
                                0 <= j < n && j != t && j > k ==> final(self).endpoints@[j] == old(
                                    self,
                                ).endpoints@[j]
                        }
                    })
                }
            }),
    {
        let encoded = match container.to_container() {
            Ok(c) => c,
            Err(_) => {
                return Err(StorageError::Encode);
            },
        };
        let target = match endpoint_index {
            Some(i) => i,
            None => self.default_endpoint,
        };
        if target >= self.endpoints.len() {
            return Err(StorageError::EndpointResolution);
        }
        match self.write_at(target, &encoded) {
            Ok(_) => {},
            Err(e) => {
                return Err(StorageError::Backend { endpoint: target, error: e });
            },
        }
        if !reflect_on_all {
            return Ok(());
        }
        let ghost c = encoded@;
        let mut i: usize = 0;
        while i < self.endpoints.len()
            invariant
                0 <= i <= self.endpoints@.len(),
                self.endpoints@.len() == old(self).endpoints@.len(),
                self.default_endpoint == old(self).default_endpoint,
                target < self.endpoints@.len(),
                T::encodable(container@),
                target == old(self).resolved(endpoint_index),
                reflect_on_all,
                c == T::spec_encode(container@),
                encoded@ == c,
                forall|j: int|
                    0 <= j < self.endpoints@.len() ==> self.names_view()[j] == old(
                        self,
                    ).names_view()[j],
                self.stores()[target as int] == old(self).stores()[target as int].insert(
                    c.id,
                    c,
                ),
                forall|j: int|
                    0 <= j < i && j != target ==> self.stores()[j] == old(self).stores()[j].insert(
                        c.id,
                        c,
                    ),
                forall|j: int|
                    i <= j < self.endpoints@.len() && j != target ==> self.endpoints@[j] == old(
                        self,
                    ).endpoints@[j],
            decreases self.endpoints@.len() - i,
        {
            if i != target {
                let ghost pre_step = *self;
                match self.write_at(i, &encoded) {
                    Ok(_) => {
                        proof {
                            assert forall|j: int| 0 <= j < i + 1 && j != target implies
                                self.stores()[j] == old(self).stores()[j].insert(c.id, c) by {
                                assert(self.stores()[j] == self.endpoints@[j].store());
                                if j < i {
                                    assert(self.endpoints@[j] == pre_step.endpoints@[j]);
                                    assert(pre_step.stores()[j] == pre_step.endpoints@[j].store());
                                } else {
                                    assert(pre_step.endpoints@[j] == old(self).endpoints@[j]);
                                }
                            }
                        }
                    },
                    Err(e) => {
                        proof {
                            assert forall|j: int|
                                0 <= j < self.endpoints@.len() && j != target && j < i implies
                                self.stores()[j] == old(self).stores()[j].insert(c.id, c) by {
                                assert(self.endpoints@[j] == pre_step.endpoints@[j]);
                                assert(pre_step.stores()[j] == pre_step.endpoints@[j].store());
                                assert(self.stores()[j] == self.endpoints@[j].store());
                            }
                            assert forall|j: int|
                                0 <= j < self.endpoints@.len() && j != target && j > i implies
                                self.endpoints@[j] == old(self).endpoints@[j] by {
                                assert(self.endpoints@[j] == pre_step.endpoints@[j]);
                            }
                            assert(self.stores()[target as int] == self.endpoints@[
                                target as int].store());
                        }
                        return Err(StorageError::Backend { endpoint: i, error: e });
                    },
                }
            }
            i += 1;
        }
        Ok(())
    }

    /// Writes a batch of containers to the endpoint at `i`, touching no
    /// other.
    fn write_many_at(&mut self, i: usize, containers: &ContainerCollection) -> (r: Result<
        (),
        BackendError,
    >)
        requires
            i < old(self).endpoints@.len(),
        ensures
            final(self).endpoints@.len() == old(self).endpoints@.len(),
            final(self).default_endpoint == old(self).default_endpoint,
            forall|j: int|
                0 <= j < old(self).endpoints@.len() && j != i ==> final(self).endpoints@[j]
                    == old(self).endpoints@[j],
            final(self).endpoints@[i as int].spec_name() == old(
                self,
            ).endpoints@[i as int].spec_name(),
            r is Ok ==> final(self).endpoints@[i as int].store() == store_after_writes(
                old(self).endpoints@[i as int].store(),
                container_models(containers@),
            ),
    {
        let mut batch: Vec<Container> = Vec::new();
        let mut m: usize = 0;
        while m < containers.len()
            invariant
                0 <= m <= containers@.len(),
                batch@.len() == m,
                forall|j: int| 0 <= j < m ==> batch@[j]@ == containers@[j]@,
            decreases containers@.len() - m,
        {
            batch.push(clone_container(&containers[m]));
            m += 1;
        }
        proof {
            assert(container_models(batch@) =~= container_models(containers@));
        }
        let ep = &mut self.endpoints[i];
        ep.write_containers(batch)
    }

    /// Writes a batch of domain objects: every object is encoded first,
    /// aborting on the first encode failure before any backend is touched;
    /// then the whole batch goes to the resolved endpoint in one call, and
    /// with `reflect_on_all` to every other endpoint in ascending index
    /// order, one call per endpoint, stopping at the first failure.
    pub fn write_containers<T: Containering>(
        &mut self,
        containers: &Vec<T>,
        endpoint_index: Option<usize>,
        reflect_on_all: bool,
    ) -> (r: Result<(), StorageError>)
        ensures
            final(self).keeps_shape_of(*old(self)),
            ({
                let t = old(self).resolved(endpoint_index);
                let n = old(self).endpoints@.len() as int;
                let cs = encode_models(containers@);
                &&& !all_encodable(containers@) ==> r == Err::<(), StorageError>(
                    StorageError::Encode,
                ) && *final(self) == *old(self)
                &&& all_encodable(containers@) && !(0 <= t < n) ==> r == Err::<(), StorageError>(
                    StorageError::EndpointResolution,
                ) && *final(self) == *old(self)
                &&& all_encodable(containers@) && 0 <= t < n ==> {
                    &&& r is Ok ==> {
                        &&& final(self).stores()[t] == store_after_writes(
                            old(self).stores()[t],
                            cs,
                        )
                        &&& reflect_on_all ==> forall|j: int|
                            0 <= j < n ==> final(self).stores()[j] == store_after_writes(
                                old(self).stores()[j],
                                cs,
                            )
                        &&& !reflect_on_all ==> forall|j: int|
                            0 <= j < n && j != t ==> final(self).endpoints@[j] == old(
                                self,
                            ).endpoints@[j]
                    }
                    &&& r matches Err(e) ==> (e matches StorageError::Backend {
                        endpoint,
                        error: _,
                    } && {
                        let k = endpoint as int;
                        &&& 0 <= k < n
                        &&& !reflect_on_all ==> k == t
                        &&& k == t ==> forall|j: int|
                            0 <= j < n && j != t ==> final(self).endpoints@[j] == old(
                                self,
                            ).endpoints@[j]
                        &&& k != t ==> {
                            &&& reflect_on_all
                            &&& final(self).stores()[t] == store_after_writes(
                                old(self).stores()[t],
                                cs,
                            )
                            &&& forall|j: int|
                                0 <= j < n && j != t && j < k ==> final(self).stores()[j]
                                    == store_after_writes(old(self).stores()[j], cs)
                            &&& forall|j: int|
                                0 <= j < n && j != t && j > k ==> final(self).endpoints@[j] == old(
                                    self,
                                ).endpoints@[j]
                        }
                    })
                }
            }),
    {
        let mut encoded: Vec<Container> = Vec::new();
        let mut m: usize = 0;
        while m < containers.len()
            invariant
                0 <= m <= containers@.len(),
                encoded@.len() == m,
                forall|j: int| 0 <= j < m ==> T::encodable(#[trigger] containers@[j]@),
                forall|j: int| 0 <= j < m ==> encoded@[j]@ == T::spec_encode(containers@[j]@),
            decreases containers@.len() - m,
        {
            let item = &containers[m];
            match item.to_container() {
                Ok(c) => {
                    encoded.push(c);
                },
                Err(_) => {
                    return Err(StorageError::Encode);
                },
            }
            m += 1;
        }
        proof {
            assert(container_models(encoded@) =~= encode_models(containers@));
        }
        let target = match endpoint_index {
            Some(i) => i,
            None => self.default_endpoint,
        };
        if target >= self.endpoints.len() {
            return Err(StorageError::EndpointResolution);
        }
        match self.write_many_at(target, &encoded) {
            Ok(_) => {},
            Err(e) => {
                return Err(StorageError::Backend { endpoint: target, error: e });
            },
        }
        if !reflect_on_all {
            return Ok(());
        }
        let ghost cs = encode_models(containers@);
        let mut i: usize = 0;
        while i < self.endpoints.len()
            invariant
                0 <= i <= self.endpoints@.len(),
                self.endpoints@.len() == old(self).endpoints@.len(),
                self.default_endpoint == old(self).default_endpoint,
                target < self.endpoints@.len(),
                all_encodable(containers@),
                target == old(self).resolved(endpoint_index),
                reflect_on_all,
                cs == encode_models(containers@),
                container_models(encoded@) == cs,
                forall|j: int|
                    0 <= j < self.endpoints@.len() ==> self.names_view()[j] == old(
                        self,
                    ).names_view()[j],
                self.stores()[target as int] == store_after_writes(
                    old(self).stores()[target as int],
                    cs,
                ),
                forall|j: int|
                    0 <= j < i && j != target ==> self.stores()[j] == store_after_writes(
                        old(self).stores()[j],
                        cs,
                    ),
                forall|j: int|
                    i <= j < self.endpoints@.len() && j != target ==> self.endpoints@[j] == old(
                        self,
                    ).endpoints@[j],
            decreases self.endpoints@.len() - i,
        {
            if i != target {
                let ghost pre_step = *self;
                match self.write_many_at(i, &encoded) {
                    Ok(_) => {
                        proof {
                            assert forall|j: int| 0 <= j < i + 1 && j != target implies
                                self.stores()[j] == store_after_writes(
                                    old(self).stores()[j],
                                    cs,
                                ) by {
                                assert(self.stores()[j] == self.endpoints@[j].store());
                                if j < i {
                                    assert(self.endpoints@[j] == pre_step.endpoints@[j]);
                                    assert(pre_step.stores()[j] == pre_step.endpoints@[j].store());
                                } else {
                                    assert(pre_step.endpoints@[j] == old(self).endpoints@[j]);
                                }
                            }
                        }
                    },
                    Err(e) => {
                        proof {
                            assert forall|j: int|
                                0 <= j < self.endpoints@.len() && j != target && j < i implies
                                self.stores()[j] == store_after_writes(
                                    old(self).stores()[j],
                                    cs,
                                ) by {
                                assert(self.endpoints@[j] == pre_step.endpoints@[j]);
                                assert(pre_step.stores()[j] == pre_step.endpoints@[j].store());
                                assert(self.stores()[j] == self.endpoints@[j].store());
                            }
                            assert forall|j: int|
                                0 <= j < self.endpoints@.len() && j != target && j > i implies
                                self.endpoints@[j] == old(self).endpoints@[j] by {
                                assert(self.endpoints@[j] == pre_step.endpoints@[j]);
                            }
                            assert(self.stores()[target as int] == self.endpoints@[
                                target as int].store());
                        }
                        return Err(StorageError::Backend { endpoint: i, error: e });
                    },
                }
            }
            i += 1;
        }
        Ok(())
    }

    /// Deletes a batch of ids from the endpoint at `i`, touching no other.
    fn delete_many_at(
        &mut self,
        i: usize,
        ids: &ContainerIdCollection,
        return_containers: bool,
    ) -> (r: Result<OptionalContainerCollection, BackendError>)
        requires
            i < old(self).endpoints@.len(),
        ensures
            final(self).endpoints@.len() == old(self).endpoints@.len(),
            final(self).default_endpoint == old(self).default_endpoint,
            forall|j: int|
                0 <= j < old(self).endpoints@.len() && j != i ==> final(self).endpoints@[j]
                    == old(self).endpoints@[j],
            final(self).endpoints@[i as int].spec_name() == old(
                self,
            ).endpoints@[i as int].spec_name(),
            r matches Ok(opt) ==> {
                &&& final(self).endpoints@[i as int].store() == store_after_deletes(
                    old(self).endpoints@[i as int].store(),
                    id_views(ids@),
                )
                &&& return_containers ==> (opt matches Some(cs) && container_models(cs@)
                    == deleted_values(old(self).endpoints@[i as int].store(), id_views(ids@)))
                &&& !return_containers ==> opt is None
            },
    {
        let ep = &mut self.endpoints[i];
        ep.delete_containers(ids, return_containers)
    }

    /// Deletes a batch of ids under the same fan-out rules as a single
    /// delete: the resolved endpoint first, capturing the deleted values when
    /// `return_containers` asks for them, then with `reflect_on_all` every
    /// other endpoint in ascending index order with no values requested,
    /// stopping at the first failure.
    pub fn delete_containers(
        &mut self,
        ids: &ContainerIdCollection,
        endpoint_index: Option<usize>,
        return_containers: bool,
        reflect_on_all: bool,
    ) -> (r: Result<OptionalContainerCollection, StorageError>)
        ensures
            final(self).keeps_shape_of(*old(self)),
            ({
                let t = old(self).resolved(endpoint_index);
                let n = old(self).endpoints@.len() as int;
                let ks = id_views(ids@);
                &&& !(0 <= t < n) ==> r == Err::<OptionalContainerCollection, StorageError>(
                    StorageError::EndpointResolution,
                ) && *final(self) == *old(self)
                &&& 0 <= t < n ==> {
                    &&& r matches Ok(opt) ==> {
                        &&& final(self).stores()[t] == store_after_deletes(
                            old(self).stores()[t],
                            ks,
                        )
                        &&& return_containers ==> (opt matches Some(cs) && container_models(cs@)
                            == deleted_values(old(self).stores()[t], ks))
                        &&& !return_containers ==> opt is None
                        &&& reflect_on_all ==> forall|j: int|
                            0 <= j < n ==> final(self).stores()[j] == store_after_deletes(
                                old(self).stores()[j],
                                ks,
                            )
                        &&& !reflect_on_all ==> forall|j: int|
                            0 <= j < n && j != t ==> final(self).endpoints@[j] == old(
                                self,
                            ).endpoints@[j]
                    }
                    &&& r matches Err(e) ==> (e matches StorageError::Backend {
                        endpoint,
                        error: _,
                    } && {
                        let k = endpoint as int;
                        &&& 0 <= k < n
                        &&& !reflect_on_all ==> k == t
                        &&& k == t ==> forall|j: int|
                            0 <= j < n && j != t ==> final(self).endpoints@[j] == old(
                                self,
                            ).endpoints@[j]
                        &&& k != t ==> {
                            &&& reflect_on_all
                            &&& final(self).stores()[t] == store_after_deletes(
                                old(self).stores()[t],
                                ks,
                            )
                            &&& forall|j: int|
                                0 <= j < n && j != t && j < k ==> final(self).stores()[j]
                                    == store_after_deletes(old(self).stores()[j], ks)
                            &&& forall|j: int|
                                0 <= j < n && j != t && j > k ==> final(self).endpoints@[j] == old(
                                    self,
                                ).endpoints@[j]
                        }
                    })
                }
            }),
    {
        let target = match endpoint_index {
            Some(i) => i,
            None => self.default_endpoint,
        };
        if target >= self.endpoints.len() {
            return Err(StorageError::EndpointResolution);
        }
        let captured = match self.delete_many_at(target, ids, return_containers) {
            Ok(opt) => opt,
            Err(e) => {
                return Err(StorageError::Backend { endpoint: target, error: e });
            },
        };
        if !reflect_on_all {
            return Ok(captured);
        }
        let mut i: usize = 0;
        while i < self.endpoints.len()
            invariant
                0 <= i <= self.endpoints@.len(),
                self.endpoints@.len() == old(self).endpoints@.len(),
                self.default_endpoint == old(self).default_endpoint,
                target < self.endpoints@.len(),
                target == old(self).resolved(endpoint_index),
                reflect_on_all,
                forall|j: int|
                    0 <= j < self.endpoints@.len() ==> self.names_view()[j] == old(
                        self,
                    ).names_view()[j],
                self.stores()[target as int] == store_after_deletes(
                    old(self).stores()[target as int],
                    id_views(ids@),
                ),
                return_containers ==> (captured matches Some(cs) && container_models(cs@)
                    == deleted_values(old(self).stores()[target as int], id_views(ids@))),
                !return_containers ==> captured is None,
                forall|j: int|
                    0 <= j < i && j != target ==> self.stores()[j] == store_after_deletes(
                        old(self).stores()[j],
                        id_views(ids@),
                    ),
                forall|j: int|
                    i <= j < self.endpoints@.len() && j != target ==> self.endpoints@[j] == old(
                        self,
                    ).endpoints@[j],
            decreases self.endpoints@.len() - i,
        {
            if i != target {
                let ghost pre_step = *self;
                match self.delete_many_at(i, ids, false) {
                    Ok(_) => {
                        proof {
                            assert forall|j: int| 0 <= j < i + 1 && j != target implies
                                self.stores()[j] == store_after_deletes(
                                    old(self).stores()[j],
                                    id_views(ids@),
                                ) by {
                                assert(self.stores()[j] == self.endpoints@[j].store());
                                if j < i {
                                    assert(self.endpoints@[j] == pre_step.endpoints@[j]);
                                    assert(pre_step.stores()[j] == pre_step.endpoints@[j].store());
                                } else {
                                    assert(pre_step.endpoints@[j] == old(self).endpoints@[j]);
                                }
                            }
                        }
                    },
                    Err(e) => {
                        proof {
                            assert forall|j: int|
                                0 <= j < self.endpoints@.len() && j != target && j < i implies
                                self.stores()[j] == store_after_deletes(
                                    old(self).stores()[j],
                                    id_views(ids@),
                                ) by {
                                assert(self.endpoints@[j] == pre_step.endpoints@[j]);
                                assert(pre_step.stores()[j] == pre_step.endpoints@[j].store());
                                assert(self.stores()[j] == self.endpoints@[j].store());
                            }
                            assert forall|j: int|
                                0 <= j < self.endpoints@.len() && j != target && j > i implies
                                self.endpoints@[j] == old(self).endpoints@[j] by {
                                assert(self.endpoints@[j] == pre_step.endpoints@[j]);
                            }
                            assert(self.stores()[target as int] == self.endpoints@[
                                target as int].store());
                        }
                        return Err(StorageError::Backend { endpoint: i, error: e });
                    },
                }
            }
            i += 1;
        }
        Ok(captured)
    }

    /// Deletes one id from the endpoint at `i`, touching no other.
    fn delete_at(&mut self, i: usize, id: &ContainerId, return_container: bool) -> (r: Result<
        OptionalContainer,
        BackendError,
    >)
        requires
            i < old(self).endpoints@.len(),
        ensures
            final(self).endpoints@.len() == old(self).endpoints@.len(),
            final(self).default_endpoint == old(self).default_endpoint,
            forall|j: int|
                0 <= j < old(self).endpoints@.len() && j != i ==> final(self).endpoints@[j]
                    == old(self).endpoints@[j],
            final(self).endpoints@[i as int].spec_name() == old(
                self,
            ).endpoints@[i as int].spec_name(),
            r matches Ok(opt) ==> {
                &&& final(self).endpoints@[i as int].store() == old(
                    self,
                ).endpoints@[i as int].store().remove(id@)
                &&& return_container && old(self).endpoints@[i as int].store().contains_key(id@)
                    ==> (opt matches Some(c) && c@ == old(self).endpoints@[i as int].store()[id@])
                &&& !(return_container && old(self).endpoints@[i as int].store().contains_key(id@))
                    ==> opt is None
            },
    {
        let ep = &mut self.endpoints[i];
        ep.delete_container(id, return_container)
    }

    /// Deletes an id: the target endpoint is resolved (explicit index or
    /// default) and the id deleted there, its value captured when
    /// `return_container` asks for it; with `reflect_on_all` the id is then
    /// deleted from every other endpoint in ascending index order, their
    /// returned values discarded, stopping at the first failure. Whether a
    /// value is requested never changes what is deleted.
    pub fn delete_container(
        &mut self,
        id: &ContainerId,
        endpoint_index: Option<usize>,
        return_container: bool,
        reflect_on_all: bool,
    ) -> (r: Result<OptionalContainer, StorageError>)
        ensures
            final(self).keeps_shape_of(*old(self)),
            ({
                let t = old(self).resolved(endpoint_index);
                let n = old(self).endpoints@.len() as int;
                &&& !(0 <= t < n) ==> r == Err::<OptionalContainer, StorageError>(
                    StorageError::EndpointResolution,
                ) && *final(self) == *old(self)
                &&& 0 <= t < n ==> {
                    &&& r matches Ok(opt) ==> {
                        &&& final(self).stores()[t] == old(self).stores()[t].remove(id@)
                        &&& return_container && old(self).stores()[t].contains_key(id@) ==> (
                        opt matches Some(c) && c@ == old(self).stores()[t][id@])
                        &&& !(return_container && old(self).stores()[t].contains_key(id@))
                            ==> opt is None
                        &&& reflect_on_all ==> forall|j: int|
                            0 <= j < n ==> final(self).stores()[j] == old(self).stores()[j].remove(
                                id@,
                            )
                        &&& !reflect_on_all ==> forall|j: int|
                            0 <= j < n && j != t ==> final(self).endpoints@[j] == old(
                                self,
                            ).endpoints@[j]
                    }
                    &&& r matches Err(e) ==> (e matches StorageError::Backend {
                        endpoint,
                        error: _,
                    } && {
                        let k = endpoint as int;
                        &&& 0 <= k < n
                        &&& !reflect_on_all ==> k == t
                        &&& k == t ==> forall|j: int|
                            0 <= j < n && j != t ==> final(self).endpoints@[j] == old(
                                self,
                            ).endpoints@[j]
                        &&& k != t ==> {
                            &&& reflect_on_all
                            &&& final(self).stores()[t] == old(self).stores()[t].remove(id@)
                            &&& forall|j: int|
                                0 <= j < n && j != t && j < k ==> final(self).stores()[j] == old(
                                    self,
                                ).stores()[j].remove(id@)
                            &&& forall|j: int|
                                0 <= j < n && j != t && j > k ==> final(self).endpoints@[j] == old(
                                    self,
                                ).endpoints@[j]
                        }
                    })
                }
            }),
    {
        let target = match endpoint_index {
            Some(i) => i,
            None => self.default_endpoint,
        };
        if target >= self.endpoints.len() {
            return Err(StorageError::EndpointResolution);
        }
        let captured = match self.delete_at(target, id, return_container) {
            Ok(opt) => opt,
            Err(e) => {
                return Err(StorageError::Backend { endpoint: target, error: e });
            },
        };
        if !reflect_on_all {
            return Ok(captured);
        }
        let mut i: usize = 0;
        while i < self.endpoints.len()
            invariant
                0 <= i <= self.endpoints@.len(),
                self.endpoints@.len() == old(self).endpoints@.len(),
                self.default_endpoint == old(self).default_endpoint,
                target < self.endpoints@.len(),
                target == old(self).resolved(endpoint_index),
                reflect_on_all,
                forall|j: int|
                    0 <= j < self.endpoints@.len() ==> self.names_view()[j] == old(
                        self,
                    ).names_view()[j],
                self.stores()[target as int] == old(self).stores()[target as int].remove(id@),
                return_container && old(self).stores()[target as int].contains_key(id@) ==> (
                captured matches Some(c) && c@ == old(self).stores()[target as int][id@]),
                !(return_container && old(self).stores()[target as int].contains_key(id@))
                    ==> captured is None,
                forall|j: int|
                    0 <= j < i && j != target ==> self.stores()[j] == old(self).stores()[j].remove(
                        id@,
                    ),
                forall|j: int|
                    i <= j < self.endpoints@.len() && j != target ==> self.endpoints@[j] == old(
                        self,
                    ).endpoints@[j],
            decreases self.endpoints@.len() - i,
        {
            if i != target {
                let ghost pre_step = *self;
                match self.delete_at(i, id, false) {
                    Ok(_) => {
                        proof {
                            assert forall|j: int| 0 <= j < i + 1 && j != target implies
                                self.stores()[j] == old(self).stores()[j].remove(id@) by {
                                assert(self.stores()[j] == self.endpoints@[j].store());
                                if j < i {
                                    assert(self.endpoints@[j] == pre_step.endpoints@[j]);
                                    assert(pre_step.stores()[j] == pre_step.endpoints@[j].store());
                                } else {
                                    assert(pre_step.endpoints@[j] == old(self).endpoints@[j]);
                                }
                            }
                        }
                    },
                    Err(e) => {
                        proof {
                            assert forall|j: int|
                                0 <= j < self.endpoints@.len() && j != target && j < i implies
                                self.stores()[j] == old(self).stores()[j].remove(id@) by {
                                assert(self.endpoints@[j] == pre_step.endpoints@[j]);
                                assert(pre_step.stores()[j] == pre_step.endpoints@[j].store());
                                assert(self.stores()[j] == self.endpoints@[j].store());
                            }
                            assert forall|j: int|
                                0 <= j < self.endpoints@.len() && j != target && j > i implies
                                self.endpoints@[j] == old(self).endpoints@[j] by {
                                assert(self.endpoints@[j] == pre_step.endpoints@[j]);
                            }
                            assert(self.stores()[target as int] == self.endpoints@[
                                target as int].store());
                        }
                        return Err(StorageError::Backend { endpoint: i, error: e });
                    },
                }
            }
            i += 1;
        }
        Ok(captured)
    }

    /// The ids stored at the resolved endpoint; reads are never fanned out.
    pub fn get_container_ids(&self, endpoint_index: Option<usize>) -> (r: Result<
        ContainerIdCollection,
        StorageError,
    >)
        ensures
            ({
                let t = self.resolved(endpoint_index);
                let n = self.endpoints@.len() as int;
                &&& !(0 <= t < n) ==> r == Err::<ContainerIdCollection, StorageError>(
                    StorageError::EndpointResolution,
                )
                &&& 0 <= t < n ==> {
                    &&& r matches Ok(ids) ==> lists_store_ids(self.stores()[t], ids@)
                    &&& r matches Err(e) ==> (e matches StorageError::Backend {
                        endpoint,
                        error: _,
                    } && endpoint == t)
                }
            }),
    {
        let target = match endpoint_index {
            Some(i) => i,
            None => self.default_endpoint,
        };
        if target >= self.endpoints.len() {
            return Err(StorageError::EndpointResolution);
        }
        let ep = &self.endpoints[target];
        proof {
            assert(self.stores()[target as int] == self.endpoints@[target as int].store());
        }
        match ep.get_container_ids() {
            Ok(ids) => Ok(ids),
            Err(e) => Err(StorageError::Backend { endpoint: target, error: e }),
        }
    }

    /// Whether the resolved endpoint stores `id`.
    pub fn exists_container(&self, id: &ContainerId, endpoint_index: Option<usize>) -> (r: Result<
        bool,
        StorageError,
    >)
        ensures
            ({
                let t = self.resolved(endpoint_index);
                let n = self.endpoints@.len() as int;
                &&& !(0 <= t < n) ==> r == Err::<bool, StorageError>(
                    StorageError::EndpointResolution,
                )
                &&& 0 <= t < n ==> {
                    &&& r matches Ok(b) ==> b == self.stores()[t].contains_key(id@)
                    &&& r matches Err(e) ==> (e matches StorageError::Backend {
                        endpoint,
                        error: _,
                    } && endpoint == t)
                }
            }),
    {
        let target = match endpoint_index {
            Some(i) => i,
            None => self.default_endpoint,
        };
        if target >= self.endpoints.len() {
            return Err(StorageError::EndpointResolution);
        }
        let ep = &self.endpoints[target];
        proof {
            assert(self.stores()[target as int] == self.endpoints@[target as int].store());
        }
        match ep.exists_container(id) {
            Ok(b) => Ok(b),
            Err(e) => Err(StorageError::Backend { endpoint: target, error: e }),
        }
    }

    /// Reads `id` from the resolved endpoint, which is assumed authoritative.
    pub fn read_container(&self, id: &ContainerId, endpoint_index: Option<usize>) -> (r: Result<
        Container,
        StorageError,
    >)
        ensures
            ({
                let t = self.resolved(endpoint_index);
                let n = self.endpoints@.len() as int;
                &&& !(0 <= t < n) ==> r == Err::<Container, StorageError>(
                    StorageError::EndpointResolution,
                )
                &&& 0 <= t < n ==> {
                    &&& r matches Ok(c) ==> self.stores()[t].contains_key(id@) && c@
                        == self.stores()[t][id@]
                    &&& !self.stores()[t].contains_key(id@) ==> r == Err::<Container, StorageError>(
                        StorageError::Backend {
                            endpoint: t as usize,
                            error: BackendError::NotFound,
                        },
                    )
                    &&& r matches Err(e) ==> (e matches StorageError::Backend {
                        endpoint,
                        error: _,
                    } && endpoint == t)
                }
            }),
    {
        let target = match endpoint_index {
            Some(i) => i,
            None => self.default_endpoint,
        };
        if target >= self.endpoints.len() {
            return Err(StorageError::EndpointResolution);
        }
        let ep = &self.endpoints[target];
        proof {
            assert(self.stores()[target as int] == self.endpoints@[target as int].store());
        }
        match ep.read_container(id) {
            Ok(c) => Ok(c),
            Err(e) => Err(StorageError::Backend { endpoint: target, error: e }),
        }
    }

    /// Reads a batch of ids from the resolved endpoint, preserving the
    /// requested order; an absent id fails the whole call.
    pub fn read_containers(&self, ids: &ContainerIdCollection, endpoint_index: Option<usize>) -> (r:
        Result<ContainerCollection, StorageError>)
        ensures
            ({
                let t = self.resolved(endpoint_index);
                let n = self.endpoints@.len() as int;
                &&& !(0 <= t < n) ==> r == Err::<ContainerCollection, StorageError>(
                    StorageError::EndpointResolution,
                )
                &&& 0 <= t < n ==> {
                    &&& r matches Ok(cs) ==> reads_in_order(self.stores()[t], ids@, cs@)
                    &&& !all_present(self.stores()[t], ids@) ==> r is Err
                    &&& r matches Err(e) ==> (e matches StorageError::Backend {
                        endpoint,
                        error: _,
                    } && endpoint == t)
                }
            }),
    {
        let target = match endpoint_index {
            Some(i) => i,
            None => self.default_endpoint,
        };
        if target >= self.endpoints.len() {
            return Err(StorageError::EndpointResolution);
        }
        let ep = &self.endpoints[target];
        proof {
            assert(self.stores()[target as int] == self.endpoints@[target as int].store());
        }
        match ep.read_containers(ids) {
            Ok(cs) => Ok(cs),
            Err(e) => Err(StorageError::Backend { endpoint: target, error: e }),
        }
    }

    /// Full scan of the resolved endpoint.
    pub fn read_all_containers(&self, endpoint_index: Option<usize>) -> (r: Result<
        ContainerCollection,
        StorageError,
    >)
        ensures
            ({
                let t = self.resolved(endpoint_index);
                let n = self.endpoints@.len() as int;
                &&& !(0 <= t < n) ==> r == Err::<ContainerCollection, StorageError>(
                    StorageError::EndpointResolution,
                )
                &&& 0 <= t < n ==> {
                    &&& r matches Ok(cs) ==> lists_store_contents(self.stores()[t], cs@)
                    &&& r matches Err(e) ==> (e matches StorageError::Backend {
                        endpoint,
                        error: _,
                    } && endpoint == t)
                }
            }),
    {
        let target = match endpoint_index {
            Some(i) => i,
            None => self.default_endpoint,
        };
        if target >= self.endpoints.len() {
            return Err(StorageError::EndpointResolution);
        }
        let ep = &self.endpoints[target];
        proof {
            assert(self.stores()[target as int] == self.endpoints@[target as int].store());
        }
        match ep.read_all_containers() {
            Ok(cs) => Ok(cs),
            Err(e) => Err(StorageError::Backend { endpoint: target, error: e }),
        }
    }
}

/// Full reflection on success: when a write of `c` has been applied to every
/// endpoint's store, the container is readable under its id from every
/// endpoint — each store holds exactly `c` there.
pub proof fn lemma_reflection_readable(
    pre: Seq<Map<Seq<u8>, ContainerModel>>,
    post: Seq<Map<Seq<u8>, ContainerModel>>,
    c: ContainerModel,
)
    requires
        post.len() == pre.len(),
        forall|j: int| 0 <= j < pre.len() ==> post[j] == pre[j].insert(c.id, c),
    ensures
        forall|j: int|
            0 <= j < post.len() ==> #[trigger] post[j].contains_key(c.id) && post[j][c.id] == c,
{
}

/// The order in which a write or delete visits endpoints: the resolved
/// target first, then — only when reflecting — every other endpoint in
/// ascending index order.
pub fn reflection_order(endpoint_count: usize, target: usize, reflect_on_all: bool) -> (r: Vec<
    usize,
>)
    requires
        target < endpoint_count,
    ensures
        r@.len() == if reflect_on_all {
            endpoint_count as int
        } else {
            1
        },
        r@[0] == target,
        forall|m: int|
            1 <= m < r@.len() ==> #[trigger] r@[m] == if m <= target {
                (m - 1) as usize
            } else {
                m as usize
            },
{
    let mut r: Vec<usize> = Vec::new();
    r.push(target);
    if !reflect_on_all {
        return r;
    }
    let mut j: usize = 0;
    while j < endpoint_count
        invariant
            0 <= j <= endpoint_count,
            target < endpoint_count,
            r@.len() == if j <= target {
                j + 1
            } else {
                j as int
            },
            r@[0] == target,
            forall|m: int|
                1 <= m < r@.len() ==> #[trigger] r@[m] == if m <= target {
                    (m - 1) as usize
                } else {
                    m as usize
                },
        decreases endpoint_count - j,
    {
        if j != target {
            r.push(j);
        }
        j += 1;
    }
    r
}

} // verus!
