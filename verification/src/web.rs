//! The shapes and rules of the HTTP boundary.
//!
//! The transport adapter itself lives outside this crate; here stand the
//! request and response shapes it exchanges with the orchestration
//! service, the mapping from domain entities to responses, the shared-key
//! check that gates every call, and the sanitized responses for rejected
//! requests. None of these touch the wire: the adapter hands in plain
//! values and sends plain values back.

use vstd::prelude::*;
use vstd::string::StrSliceExecFns;
use vstd::string::StringExecFns;
use crate::domain::Server;
use crate::domain::ServerStatus;
use crate::record::status_label;
use crate::text::text_eq;
use crate::service::AttachDiskCommand;
use crate::service::CreateServerCommand;

verus! {

/// The body of a server-creation request.
pub struct CreateServerRequest {
    pub name: String,
    pub cpu: u32,
    pub ram: u32,
    pub storage: u32,
}

impl CreateServerRequest {
    /// The command this request stands for.
    pub fn into_command(self) -> (r: CreateServerCommand)
        ensures
            r.name@ == self.name@,
            r.cpu == self.cpu,
            r.ram == self.ram,
            r.storage == self.storage,
    {
        CreateServerCommand { name: self.name, cpu: self.cpu, ram: self.ram, storage: self.storage }
    }
}

/// The body of a disk-creation request.
pub struct CreateDiskRequest {
    pub size_gb: u32,
}

impl CreateDiskRequest {
    /// The command this request stands for, aimed at `server_id`.
    pub fn into_command(self, server_id: u128) -> (r: AttachDiskCommand)
        ensures
            r.server_id == server_id,
            r.size_gb == self.size_gb,
    {
        AttachDiskCommand { server_id, size_gb: self.size_gb }
    }
}

/// The body of a disk inside a server response.
pub struct DiskResponse {
    pub id: u128,
    pub size_gb: u32,
}

/// The body of a server response: what callers are shown of a server —
/// the capacity figures stay internal, the status becomes its label.
pub struct ServerResponse {
    pub id: u128,
    pub name: String,
    pub status: String,
    pub disks: Vec<DiskResponse>,
}

/// The status labels shown to callers; the same as the persisted ones.
pub fn status_text(st: ServerStatus) -> (r: String)
    ensures
        r@ == status_label(st),
{
    match st {
        ServerStatus::Provisioning => String::from_str("Provisioning"),
        ServerStatus::Running => String::from_str("Running"),
        ServerStatus::Stopped => String::from_str("Stopped"),
        ServerStatus::Terminated => String::from_str("Terminated"),
    }
}

/// Turns a domain server into its response shape: same identifier and
/// name, the status as its label, and one entry per attached disk.
pub fn map_to_response(server: Server) -> (r: ServerResponse)
    ensures
        r.id == server.id,
        r.name@ == server.name@,
        r.status@ == status_label(server@.status),
        r.disks@.len() == server@.additional_disks.len(),
        forall|i: int|
            0 <= i < r.disks@.len() ==> (#[trigger] r.disks@[i]).id
                == server@.additional_disks[i].id && r.disks@[i].size_gb
                == server@.additional_disks[i].size_gb,
{
    let mut disks: Vec<DiskResponse> = Vec::new();
    let mut i: usize = 0;
    while i < server.additional_disks.len()
        invariant
            i <= server.additional_disks@.len(),
            disks@.len() == i,
            forall|j: int|
                0 <= j < i ==> (#[trigger] disks@[j]).id == server.additional_disks@[j].id
                    && disks@[j].size_gb == server.additional_disks@[j].size_gb,
        decreases server.additional_disks.len() - i,
    {
        let d = server.additional_disks[i];
        disks.push(DiskResponse { id: d.id, size_gb: d.size_gb });
        i = i + 1;
    }
    let status = status_text(server.status);
    ServerResponse { id: server.id, name: server.name, status, disks }
}

/// A rejected call at the boundary.
#[derive(Debug, Clone, Copy, PartialEq, Eq, Structural)]
pub enum SecurityError {
    Unauthorized,
}

/// The shared secret that every call must present.
pub const API_KEY: &'static str = "iaas-secret-key-123";

/// The authentication rule: a call passes only when it presents exactly
/// the shared key; a missing or different key is `Unauthorized`.
pub fn authorize(key: Option<&String>) -> (r: Result<(), SecurityError>)
    ensures
        r is Ok <==> (key is Some && key->0@ == API_KEY@),
        r is Err ==> r->Err_0 == SecurityError::Unauthorized,
{
    match key {
        Some(k) => {
            if text_eq(k.as_str(), API_KEY) {
                Ok(())
            } else {
                Err(SecurityError::Unauthorized)
            }
        },
        None => Err(SecurityError::Unauthorized),
    }
}

/// The sanitized response for a rejected call: a status code and a fixed
/// message, chosen in this order — not-found, then a failed key check,
/// then an oversized payload — and a generic internal-failure answer for
/// everything else, so no internal error text leaks to a caller.
pub fn rejection_response(not_found: bool, unauthorized: bool, payload_too_large: bool) -> (r: (
    u16,
    String,
))
    ensures
        not_found ==> r.0 == 404 && r.1@ == "Resource not found"@,
        !not_found && unauthorized ==> r.0 == 401 && r.1@ == "Invalid or missing API Key"@,
        !not_found && !unauthorized && payload_too_large ==> r.0 == 413 && r.1@
            == "Payload too large"@,
        !not_found && !unauthorized && !payload_too_large ==> r.0 == 500 && r.1@
            == "An internal error occurred"@,
{
    if not_found {
        (404, String::from_str("Resource not found"))
    } else if unauthorized {
        (401, String::from_str("Invalid or missing API Key"))
    } else if payload_too_large {
        (413, String::from_str("Payload too large"))
    } else {
        (500, String::from_str("An internal error occurred"))
    }
}

/// The security headers applied to every response, name and value.
pub fn security_headers() -> (r: Vec<(String, String)>)
    ensures
        r@.len() == 4,
        r@[0].0@ == "X-Content-Type-Options"@ && r@[0].1@ == "nosniff"@,
        r@[1].0@ == "X-Frame-Options"@ && r@[1].1@ == "DENY"@,
        r@[2].0@ == "X-XSS-Protection"@ && r@[2].1@ == "1; mode=block"@,
        r@[3].0@ == "Content-Security-Policy"@ && r@[3].1@ == "default-src 'none'"@,
{
    let mut r: Vec<(String, String)> = Vec::new();
    r.push((String::from_str("X-Content-Type-Options"), String::from_str("nosniff")));
    r.push((String::from_str("X-Frame-Options"), String::from_str("DENY")));
    r.push((String::from_str("X-XSS-Protection"), String::from_str("1; mode=block")));
    r.push(
        (String::from_str("Content-Security-Policy"), String::from_str("default-src 'none'")),
    );
    r
}

} // verus!
