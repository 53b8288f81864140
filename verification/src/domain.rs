//! The domain model: servers, their attached disks, and the status
//! enumeration.
//!
//! A [`Server`] is created once, in status [`ServerStatus::Provisioning`]
//! and with no disks; later disks arrive only through the attach operation
//! of the orchestration service. Identifiers are 128-bit values drawn from
//! the process's random source at creation time.

use vstd::prelude::*;

verus! {

/// The lifecycle status of a server. It is set to `Provisioning` at
/// creation; no operation of this crate changes it afterwards.
#[derive(Debug, Clone, Copy, PartialEq, Eq, Structural)]
pub enum ServerStatus {
    Provisioning,
    Running,
    Stopped,
    Terminated,
}

/// An extra storage volume attached to a server. A disk is owned by the
/// server it is attached to and has no lifecycle of its own.
#[derive(Debug, Clone, Copy, PartialEq, Eq, Structural)]
pub struct Disk {
    /// Unique identifier, assigned when the disk is attached.
    pub id: u128,
    /// Size of the volume in gigabytes.
    pub size_gb: u32,
}

/// One provisioned compute resource.
#[derive(Debug, Clone, PartialEq)]
pub struct Server {
    /// Globally unique identifier, assigned at creation, immutable.
    pub id: u128,
    /// User-supplied label; not unique and not interpreted.
    pub name: String,
    /// Requested number of processor cores.
    pub cpu_cores: u32,
    /// Requested memory in gigabytes.
    pub ram_gb: u32,
    /// Requested primary storage in gigabytes.
    pub storage_gb: u32,
    /// Lifecycle status; `Provisioning` from creation on.
    pub status: ServerStatus,
    /// Attached volumes, in attach order; append-only.
    pub additional_disks: Vec<Disk>,
}

/// The mathematical value of a [`Server`]: the same fields with the name as
/// a sequence of characters and the disks as a sequence of [`Disk`] values.
#[verifier::ext_equal]
pub struct ServerView {
    pub id: u128,
    pub name: Seq<char>,
    pub cpu_cores: u32,
    pub ram_gb: u32,
    pub storage_gb: u32,
    pub status: ServerStatus,
    pub additional_disks: Seq<Disk>,
}

impl View for Server {
    type V = ServerView;

    open spec fn view(&self) -> ServerView {
        ServerView {
            id: self.id,
            name: self.name@,
            cpu_cores: self.cpu_cores,
            ram_gb: self.ram_gb,
            storage_gb: self.storage_gb,
            status: self.status,
            additional_disks: self.additional_disks@,
        }
    }
}

/// Relies on `uuid::Uuid::new_v4`: a fresh version-4 UUID, drawn from the
/// process's random source, returned as its 128-bit value. The value
/// depends on that source, so nothing is promised of it.
#[verifier::external_body]
pub(crate) fn fresh_id() -> u128 {
    uuid::Uuid::new_v4().as_u128()
}

impl Server {
    /// Creates a server with a freshly generated identifier, the given
    /// capacity figures, status `Provisioning`, and no disks. This is the
    /// one domain-level rule: every server starts provisioning with zero
    /// disks, regardless of caller input.
    pub fn new(name: String, cpu: u32, ram: u32, storage: u32) -> (r: Server)
        ensures
            r@.name == name@,
            r@.cpu_cores == cpu,
            r@.ram_gb == ram,
            r@.storage_gb == storage,
            r@.status == ServerStatus::Provisioning,
            r@.additional_disks =~= Seq::<Disk>::empty(),
    {
        Server {
            id: fresh_id(),
            name,
            cpu_cores: cpu,
            ram_gb: ram,
            storage_gb: storage,
            status: ServerStatus::Provisioning,
            additional_disks: Vec::new(),
        }
    }

    /// The same server with one more disk appended: freshly identified,
    /// of the given size; every other field is unchanged. This is the
    /// whole domain-level effect of the attach operation.
    pub fn with_attached_disk(self, size_gb: u32) -> (r: Server)
        ensures
            r@.id == self@.id,
            r@.name == self@.name,
            r@.cpu_cores == self@.cpu_cores,
            r@.ram_gb == self@.ram_gb,
            r@.storage_gb == self@.storage_gb,
            r@.status == self@.status,
            r@.additional_disks.len() == self@.additional_disks.len() + 1,
            r@.additional_disks.drop_last() == self@.additional_disks,
            r@.additional_disks.last().size_gb == size_gb,
    {
        let mut server = self;
        let disk = Disk { id: fresh_id(), size_gb };
        server.additional_disks.push(disk);
        proof {
            assert(server@.additional_disks.drop_last() =~= self@.additional_disks);
        }
        server
    }

    /// An owned copy with the same mathematical value.
    pub fn duplicate(&self) -> (r: Server)
        ensures
            r@ =~= self@,
    {
        let mut disks: Vec<Disk> = Vec::new();
        let mut i: usize = 0;
        while i < self.additional_disks.len()
            invariant
                i <= self.additional_disks.len(),
                disks@ =~= self.additional_disks@.subrange(0, i as int),
            decreases self.additional_disks.len() - i,
        {
            disks.push(self.additional_disks[i]);
            i = i + 1;
        }
        Server {
            id: self.id,
            name: self.name.clone(),
            cpu_cores: self.cpu_cores,
            ram_gb: self.ram_gb,
            storage_gb: self.storage_gb,
            status: self.status,
            additional_disks: disks,
        }
    }
}

} // verus!
