use iaas_core::domain::Disk;
use iaas_core::domain::Server;
use iaas_core::domain::ServerStatus;
use iaas_core::record::decode_records;
use iaas_core::record::encode_server_record;
use iaas_core::record::parse_server_record;
use iaas_core::record::record_file_name;

fn sample(name: &str, status: ServerStatus, disks: Vec<Disk>) -> Server {
    Server {
        id: 0x000102030405060708090a0b0c0d0e0f,
        name: String::from(name),
        cpu_cores: 2,
        ram_gb: 4,
        storage_gb: 40,
        status,
        additional_disks: disks,
    }
}

#[test]
fn test_encode_exact_text() {
    let server = sample("vm-1", ServerStatus::Provisioning, vec![]);
    assert_eq!(
        encode_server_record(&server),
        "{\"id\":\"000102030405060708090a0b0c0d0e0f\",\"name\":\"vm-1\",\
         \"cpu_cores\":2,\"ram_gb\":4,\"storage_gb\":40,\
         \"status\":\"Provisioning\",\"additional_disks\":[]}"
    );
}

#[test]
fn test_encode_exact_text_with_disk() {
    let server = sample(
        "vm-2",
        ServerStatus::Running,
        vec![Disk { id: 0xff, size_gb: 100 }],
    );
    assert_eq!(
        encode_server_record(&server),
        "{\"id\":\"000102030405060708090a0b0c0d0e0f\",\"name\":\"vm-2\",\
         \"cpu_cores\":2,\"ram_gb\":4,\"storage_gb\":40,\
         \"status\":\"Running\",\"additional_disks\":[\
         {\"id\":\"000000000000000000000000000000ff\",\"size_gb\":100}]}"
    );
}

#[test]
fn test_round_trip_plain() {
    let server = sample("web-tier", ServerStatus::Stopped, vec![
        Disk { id: 1, size_gb: 10 },
        Disk { id: 2, size_gb: 20 },
        Disk { id: 3, size_gb: 30 },
    ]);
    let text = encode_server_record(&server);
    let back = parse_server_record(&text).unwrap();
    assert_eq!(back, server);
}

#[test]
fn test_round_trip_name_needing_escapes() {
    let server = sample(
        "with \"quotes\", a \\ backslash,\na newline and a tab\t!",
        ServerStatus::Terminated,
        vec![],
    );
    let text = encode_server_record(&server);
    let back = parse_server_record(&text).unwrap();
    assert_eq!(back, server);
}

#[test]
fn test_round_trip_empty_name_and_zero_figures() {
    let mut server = sample("", ServerStatus::Provisioning, vec![]);
    server.cpu_cores = 0;
    server.ram_gb = 0;
    server.storage_gb = 0;
    let text = encode_server_record(&server);
    let back = parse_server_record(&text).unwrap();
    assert_eq!(back, server);
}

#[test]
fn test_round_trip_extreme_values() {
    let mut server = sample("edge", ServerStatus::Running, vec![Disk {
        id: u128::MAX,
        size_gb: u32::MAX,
    }]);
    server.id = u128::MAX;
    server.cpu_cores = u32::MAX;
    let text = encode_server_record(&server);
    let back = parse_server_record(&text).unwrap();
    assert_eq!(back, server);
}

#[test]
fn test_unparseable_text_is_rejected() {
    assert!(parse_server_record("").is_none());
    assert!(parse_server_record("not a record at all").is_none());
    assert!(parse_server_record("{\"id\":\"tooshort\"}").is_none());
    let server = sample("vm-1", ServerStatus::Provisioning, vec![]);
    let text = encode_server_record(&server);
    let truncated = &text[..text.len() - 1];
    assert!(parse_server_record(truncated).is_none());
    let padded = format!("{} ", text);
    assert!(parse_server_record(&padded).is_none());
}

#[test]
fn test_non_canonical_number_is_rejected() {
    let server = sample("vm-1", ServerStatus::Provisioning, vec![]);
    let text = encode_server_record(&server).replace("\"cpu_cores\":2", "\"cpu_cores\":02");
    assert!(parse_server_record(&text).is_none());
}

#[test]
fn test_decode_records_fails_fast_on_corruption() {
    let good = encode_server_record(&sample("ok", ServerStatus::Provisioning, vec![]));
    let decoded = decode_records(&vec![good.clone()]).unwrap();
    assert_eq!(decoded.len(), 1);
    assert_eq!(decoded[0].name, "ok");
    assert!(decode_records(&vec![good, String::from("garbage")]).is_none());
}

#[test]
fn test_record_file_name_is_hex_of_id() {
    assert_eq!(
        record_file_name(0),
        "00000000000000000000000000000000.json"
    );
    assert_eq!(
        record_file_name(0x000102030405060708090a0b0c0d0e0f),
        "000102030405060708090a0b0c0d0e0f.json"
    );
}
