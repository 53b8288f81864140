//! The orchestration service: the use-case layer that sequences domain
//! construction and persistence calls.
//!
//! The service holds an abstract repository — any implementation of the
//! port — and offers the three operations of the control plane: create a
//! server, list servers, attach a disk. Every contract is stated against
//! the repository's persisted map, so any conforming backend can stand
//! behind it without changing the service's behaviour.

use vstd::prelude::*;
use crate::domain::Disk;
use crate::domain::Server;
use crate::domain::ServerStatus;
use crate::domain::ServerView;
use crate::repository::ServerRepository;
use crate::repository::StorageError;
use crate::repository::StorageOp;

verus! {

/// The input to server creation.
pub struct CreateServerCommand {
    pub name: String,
    pub cpu: u32,
    pub ram: u32,
    pub storage: u32,
}

/// The input to disk attachment.
pub struct AttachDiskCommand {
    pub server_id: u128,
    pub size_gb: u32,
}

/// A failure of the attach operation: the server is unknown, which is
/// recoverable and not an internal failure, or the backing store failed.
#[derive(Debug, Clone, Copy, PartialEq, Eq)]
pub enum ServiceError {
    /// No server with the requested identifier is persisted.
    NotFound,
    /// The backing store failed; the cause is carried unchanged.
    Storage(StorageError),
}

/// The orchestration service over an abstract repository.
pub struct ServerService<R: ServerRepository> {
    repo: R,
}

impl<R: ServerRepository> ServerService<R> {
    /// The persisted state behind the service.
    pub closed spec fn model(&self) -> Map<u128, ServerView> {
        self.repo.model()
    }

    /// The repository's well-formedness, carried through every operation.
    pub closed spec fn inv(&self) -> bool {
        self.repo.inv()
    }

    /// Builds the service over the injected repository.
    pub fn new(repo: R) -> (r: ServerService<R>)
        requires
            repo.inv(),
        ensures
            r.inv(),
            r.model() == repo.model(),
    {
        ServerService { repo }
    }

    /// Creates a server from the command — status `Provisioning`, no
    /// disks, a freshly generated identifier — persists it, and returns
    /// it. If persisting fails the error is returned and nothing is
    /// created.
    pub fn create_server(&mut self, cmd: CreateServerCommand) -> (r: Result<Server, StorageError>)
        requires
            old(self).inv(),
        ensures
            final(self).inv(),
            r is Ok ==> ({
                let server = r->Ok_0;
                &&& server@.name == cmd.name@
                &&& server@.cpu_cores == cmd.cpu
                &&& server@.ram_gb == cmd.ram
                &&& server@.storage_gb == cmd.storage
                &&& server@.status == ServerStatus::Provisioning
                &&& server@.additional_disks.len() == 0
                &&& final(self).model() == old(self).model().insert(server@.id, server@)
            }),
            r is Err ==> final(self).model() == old(self).model() && r->Err_0.op
                == StorageOp::Save,
    {
        let server = Server::new(cmd.name, cmd.cpu, cmd.ram, cmd.storage);
        match self.repo.save(&server) {
            Ok(()) => Ok(server),
            Err(e) => Err(e),
        }
    }

    /// Returns every persisted server, each exactly once: pure delegation
    /// to the repository.
    pub fn list_servers(&self) -> (r: Result<Vec<Server>, StorageError>)
        requires
            self.inv(),
        ensures
            r is Ok ==> (r->Ok_0)@.len() == self.model().dom().len(),
            r is Ok ==> forall|i: int|
                0 <= i < (r->Ok_0)@.len() ==> self.model().dom().contains(
                    (#[trigger] (r->Ok_0)@[i])@.id,
                ) && self.model()[(r->Ok_0)@[i]@.id] == (r->Ok_0)@[i]@,
            r is Ok ==> forall|i: int, j: int|
                0 <= i < j < (r->Ok_0)@.len() ==> (#[trigger] (r->Ok_0)@[i])@.id != (#[trigger] (
                r->Ok_0
                )@[j])@.id,
            r is Ok ==> forall|k: u128|
                self.model().dom().contains(k) ==> exists|i: int|
                    0 <= i < (r->Ok_0)@.len() && (#[trigger] (r->Ok_0)@[i])@.id == k,
            r is Err ==> r->Err_0.op == StorageOp::ListAll,
    {
        self.repo.list_all()
    }

    /// Attaches a freshly identified disk of the commanded size: fetches
    /// the server, appends the disk, and persists the whole entity again.
    /// `NotFound` reports an unknown identifier, and then nothing is
    /// written; a storage failure also leaves the persisted state
    /// unchanged.
    pub fn attach_disk(&mut self, cmd: AttachDiskCommand) -> (r: Result<Server, ServiceError>)
        requires
            old(self).inv(),
        ensures
            final(self).inv(),
            r is Ok ==> ({
                let server = r->Ok_0;
                let before = old(self).model()[cmd.server_id];
                &&& old(self).model().dom().contains(cmd.server_id)
                &&& server@.id == cmd.server_id
                &&& server@.name == before.name
                &&& server@.cpu_cores == before.cpu_cores
                &&& server@.ram_gb == before.ram_gb
                &&& server@.storage_gb == before.storage_gb
                &&& server@.status == before.status
                &&& server@.additional_disks.len() == before.additional_disks.len() + 1
                &&& server@.additional_disks.drop_last() == before.additional_disks
                &&& server@.additional_disks.last().size_gb == cmd.size_gb
                &&& final(self).model() == old(self).model().insert(cmd.server_id, server@)
            }),
            r is Err && r->Err_0 is NotFound ==> !old(self).model().dom().contains(cmd.server_id)
                && final(self).model() == old(self).model(),
            r is Err && r->Err_0 is Storage ==> final(self).model() == old(self).model() && (
            r->Err_0->Storage_0.op == StorageOp::FindById || r->Err_0->Storage_0.op
                == StorageOp::Save),
    {
        let found = match self.repo.find_by_id(cmd.server_id) {
            Ok(x) => x,
            Err(e) => {
                return Err(ServiceError::Storage(e));
            },
        };
        let server = match attach_fetched(found, cmd.size_gb) {
            Ok(s) => s,
            Err(e) => {
                return Err(e);
            },
        };
        match self.repo.save(&server) {
            Ok(()) => Ok(server),
            Err(e) => Err(ServiceError::Storage(e)),
        }
    }
}

/// The decision that follows the fetch of an attach operation: a fetch
/// that found nothing yields exactly `NotFound` — never a storage error —
/// and a fetched server gets one freshly identified disk of the commanded
/// size appended, everything else unchanged.
pub fn attach_fetched(found: Option<Server>, size_gb: u32) -> (r: Result<Server, ServiceError>)
    ensures
        r is Ok <==> found is Some,
        r is Err ==> r->Err_0 is NotFound,
        r is Ok ==> ({
            let server = r->Ok_0;
            let before = found->0;
            &&& server@.id == before@.id
            &&& server@.name == before@.name
            &&& server@.cpu_cores == before@.cpu_cores
            &&& server@.ram_gb == before@.ram_gb
            &&& server@.storage_gb == before@.storage_gb
            &&& server@.status == before@.status
            &&& server@.additional_disks.len() == before@.additional_disks.len() + 1
            &&& server@.additional_disks.drop_last() == before@.additional_disks
            &&& server@.additional_disks.last().size_gb == size_gb
        }),
{
    match found {
        Some(server) => Ok(server.with_attached_disk(size_gb)),
        None => Err(ServiceError::NotFound),
    }
}

/// Attaching accumulates: a disk list extended once by a disk of size
/// `g1` and then once more by a disk of size `g2` holds the original
/// disks followed by those two — two disks more, not one.
pub proof fn lemma_attach_accumulates(
    v0: Seq<Disk>,
    v1: Seq<Disk>,
    v2: Seq<Disk>,
    g1: u32,
    g2: u32,
)
    requires
        v1.len() == v0.len() + 1,
        v1.drop_last() == v0,
        v1.last().size_gb == g1,
        v2.len() == v1.len() + 1,
        v2.drop_last() == v1,
        v2.last().size_gb == g2,
    ensures
        v2.len() == v0.len() + 2,
        v2.subrange(0, v0.len() as int) == v0,
        v2[v0.len() as int].size_gb == g1,
        v2[v0.len() as int + 1].size_gb == g2,
{
    assert(v2.subrange(0, v0.len() as int) =~= v0) by {
        assert(forall|i: int| 0 <= i < v1.len() ==> #[trigger] v2[i] == v1[i]);
        assert(forall|i: int| 0 <= i < v0.len() ==> #[trigger] v1[i] == v0[i]);
    }
    assert(v2[v0.len() as int] == v1[v0.len() as int]);
    assert(v1[v0.len() as int] == v1.last());
    assert(v2[v0.len() as int + 1] == v2.last());
}

/// Saving then finding: after an upsert of `sv`, the persisted map holds
/// `sv` under its identifier, so a lookup returns a value equal to the
/// one saved.
pub proof fn lemma_save_then_find(m: Map<u128, ServerView>, sv: ServerView)
    ensures
        m.insert(sv.id, sv).dom().contains(sv.id),
        m.insert(sv.id, sv)[sv.id] == sv,
{
}

} // verus!
