use iaas_core::domain::Disk;
use iaas_core::domain::Server;
use iaas_core::domain::ServerStatus;
use iaas_core::web::authorize;
use iaas_core::web::map_to_response;
use iaas_core::web::rejection_response;
use iaas_core::web::security_headers;
use iaas_core::web::API_KEY;
use uuid::Uuid;

#[test]
fn test_map_to_response() {
    let server = Server {
        id: Uuid::new_v4().as_u128(),
        name: "test-vm".to_string(),
        cpu_cores: 2,
        ram_gb: 4,
        storage_gb: 40,
        status: ServerStatus::Running,
        additional_disks: vec![Disk {
            id: Uuid::new_v4().as_u128(),
            size_gb: 100,
        }],
    };

    let response = map_to_response(server.clone());

    assert_eq!(response.id, server.id);
    assert_eq!(response.name, server.name);
    assert_eq!(response.status, "Running");
    assert_eq!(response.disks.len(), 1);
    assert_eq!(response.disks[0].size_gb, 100);
}

#[test]
fn test_authorize_accepts_only_the_shared_key() {
    assert!(authorize(Some(&String::from(API_KEY))).is_ok());
    assert!(authorize(Some(&String::from("wrong-key"))).is_err());
    assert!(authorize(None).is_err());
}

#[test]
fn test_rejection_responses() {
    assert_eq!(rejection_response(true, false, false).0, 404);
    assert_eq!(rejection_response(false, true, false).0, 401);
    assert_eq!(rejection_response(false, false, true).0, 413);
    let (code, message) = rejection_response(false, false, false);
    assert_eq!(code, 500);
    assert_eq!(message, "An internal error occurred");
}

#[test]
fn test_security_headers_values() {
    let headers = security_headers();
    assert_eq!(headers.len(), 4);
    assert_eq!(headers[0].0, "X-Content-Type-Options");
    assert_eq!(headers[0].1, "nosniff");
    assert_eq!(headers[1].1, "DENY");
    assert_eq!(headers[3].1, "default-src 'none'");
}
