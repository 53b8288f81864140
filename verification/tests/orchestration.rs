use iaas_core::domain::Server;
use iaas_core::domain::ServerStatus;
use iaas_core::repository::InMemoryServerRepository;
use iaas_core::repository::ServerRepository;
use iaas_core::service::AttachDiskCommand;
use iaas_core::service::CreateServerCommand;
use iaas_core::service::ServerService;
use iaas_core::service::attach_fetched;
use iaas_core::service::ServiceError;

fn create(
    service: &mut ServerService<InMemoryServerRepository>,
    name: &str,
    cpu: u32,
    ram: u32,
    storage: u32,
) -> Server {
    service
        .create_server(CreateServerCommand {
            name: String::from(name),
            cpu,
            ram,
            storage,
        })
        .unwrap()
}

#[test]
fn test_created_server_starts_provisioning_with_no_disks() {
    let mut service = ServerService::new(InMemoryServerRepository::new());
    let server = create(&mut service, "alpha", 8, 32, 500);
    assert_eq!(server.status, ServerStatus::Provisioning);
    assert!(server.additional_disks.is_empty());
    assert_eq!(server.name, "alpha");
    assert_eq!(server.cpu_cores, 8);
    assert_eq!(server.ram_gb, 32);
    assert_eq!(server.storage_gb, 500);
}

#[test]
fn test_created_ids_are_distinct() {
    let mut service = ServerService::new(InMemoryServerRepository::new());
    let mut ids: Vec<u128> = Vec::new();
    for _ in 0..32 {
        ids.push(create(&mut service, "vm", 1, 1, 10).id);
    }
    for i in 0..ids.len() {
        for j in (i + 1)..ids.len() {
            assert_ne!(ids[i], ids[j]);
        }
    }
}

#[test]
fn test_save_then_find_round_trip() {
    let mut repo = InMemoryServerRepository::new();
    let server = Server::new(String::from("beta"), 2, 8, 100);
    repo.save(&server).unwrap();
    let found = repo.find_by_id(server.id).unwrap().unwrap();
    assert_eq!(found, server);
}

#[test]
fn test_find_absent_id_is_none() {
    let repo = InMemoryServerRepository::new();
    assert!(repo.find_by_id(7).unwrap().is_none());
}

#[test]
fn test_list_returns_exactly_the_created_servers() {
    let mut service = ServerService::new(InMemoryServerRepository::new());
    let s1 = create(&mut service, "one", 1, 1, 10);
    let s2 = create(&mut service, "two", 2, 2, 20);
    let s3 = create(&mut service, "three", 3, 3, 30);
    let listed = service.list_servers().unwrap();
    assert_eq!(listed.len(), 3);
    for s in [&s1, &s2, &s3] {
        assert_eq!(
            listed.iter().filter(|x| x.id == s.id).count(),
            1,
            "each created server appears exactly once"
        );
        let entry = listed.iter().find(|x| x.id == s.id).unwrap();
        assert_eq!(entry, s);
    }
}

#[test]
fn test_attach_accumulates_two_disks() {
    let mut service = ServerService::new(InMemoryServerRepository::new());
    let server = create(&mut service, "gamma", 2, 4, 40);
    let after_one = service
        .attach_disk(AttachDiskCommand { server_id: server.id, size_gb: 100 })
        .unwrap();
    assert_eq!(after_one.additional_disks.len(), 1);
    assert_eq!(after_one.additional_disks[0].size_gb, 100);
    let after_two = service
        .attach_disk(AttachDiskCommand { server_id: server.id, size_gb: 250 })
        .unwrap();
    assert_eq!(after_two.additional_disks.len(), 2);
    assert_eq!(after_two.additional_disks[0].size_gb, 100);
    assert_eq!(after_two.additional_disks[1].size_gb, 250);
}

#[test]
fn test_attach_fetched_decides_not_found_exactly_on_absence() {
    assert_eq!(attach_fetched(None, 5).unwrap_err(), ServiceError::NotFound);
    let server = Server::new(String::from("epsilon"), 1, 1, 10);
    let attached = attach_fetched(Some(server.clone()), 5).unwrap();
    assert_eq!(attached.id, server.id);
    assert_eq!(attached.additional_disks.len(), 1);
    assert_eq!(attached.additional_disks[0].size_gb, 5);
}

#[test]
fn test_attach_unknown_id_is_not_found_and_writes_nothing() {
    let mut service = ServerService::new(InMemoryServerRepository::new());
    let _known = create(&mut service, "delta", 1, 2, 30);
    let missing: u128 = 0xdead_beef;
    let err = service
        .attach_disk(AttachDiskCommand { server_id: missing, size_gb: 10 })
        .unwrap_err();
    assert_eq!(err, ServiceError::NotFound);
    let listed = service.list_servers().unwrap();
    assert_eq!(listed.len(), 1);
    assert!(listed[0].additional_disks.is_empty());
}

#[test]
fn test_create_attach_refetch_and_list_scenario() {
    let mut service = ServerService::new(InMemoryServerRepository::new());
    let created = create(&mut service, "vm-1", 2, 4, 40);
    assert_eq!(created.status, ServerStatus::Provisioning);
    assert_eq!(created.additional_disks.len(), 0);

    let attached = service
        .attach_disk(AttachDiskCommand { server_id: created.id, size_gb: 100 })
        .unwrap();
    assert_eq!(attached.additional_disks.len(), 1);
    assert_eq!(attached.additional_disks[0].size_gb, 100);

    let listed = service.list_servers().unwrap();
    assert_eq!(
        listed.iter().filter(|s| s.id == created.id).count(),
        1,
        "the server appears in the listing exactly once"
    );
    let refetched = listed.iter().find(|s| s.id == created.id).unwrap();
    assert_eq!(refetched.additional_disks.len(), 1);
    assert_eq!(refetched.additional_disks[0].size_gb, 100);
    assert_eq!(refetched.name, "vm-1");
}
