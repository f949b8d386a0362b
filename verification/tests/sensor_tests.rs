use data_collector::sensor::{RegisterMap, Sensor};
use data_collector::sink::{http_status_ok, InfluxDbConfig};

fn named(pairs: &[(u16, &str)]) -> Vec<(u16, String)> {
    pairs.iter().map(|(a, n)| (*a, String::from(*n))).collect()
}

#[test]
fn test_group_consecutive_registers() {
    let m = RegisterMap::new(named(&[(1, "a"), (2, "b"), (3, "c"), (7, "d"), (8, "e")]));
    assert_eq!(m.read_groups(), &vec![(1, 3), (7, 2)]);
}

#[test]
fn test_group_single_registers() {
    let m = RegisterMap::new(named(&[(10, "x")]));
    assert_eq!(m.read_groups(), &vec![(10, 1)]);
    let empty = RegisterMap::new(Vec::new());
    assert_eq!(empty.read_groups().len(), 0);
}

#[test]
fn test_get_name() {
    let m = RegisterMap::new(named(&[(1, "inlet"), (5, "outlet")]));
    assert_eq!(m.get_name(5).as_str(), "outlet");
    assert_eq!(m.get_name(1).as_str(), "inlet");
}

#[test]
fn test_sensor_pairs_words_with_addresses() {
    let m = RegisterMap::new(named(&[(1, "a"), (2, "b"), (7, "c")]));
    let s = Sensor { id: 3, group: "boiler", registers: &m, tags: Vec::new() };
    let responses = vec![vec![100u16, 200u16], vec![700u16]];
    let pairs = s.read_registers(&responses);
    assert_eq!(pairs, vec![(1, 100), (2, 200), (7, 700)]);
}

#[test]
fn test_write_uri_v1() {
    let plain = InfluxDbConfig::V1 {
        hostname: String::from("http://db.example:8086"),
        database: String::from("plant"),
        username: None,
        password: None,
    };
    assert_eq!(plain.write_uri(), "http://db.example:8086/write?db=plant");
    assert_eq!(plain.auth_header(), None);

    let auth = InfluxDbConfig::V1 {
        hostname: String::from("http://db.example:8086"),
        database: String::from("plant"),
        username: Some(String::from("writer")),
        password: Some(String::from("hunter")),
    };
    assert_eq!(
        auth.write_uri(),
        "http://db.example:8086/write?db=plant&u=writer&p=hunter"
    );
}

#[test]
fn test_write_uri_v2() {
    let v2 = InfluxDbConfig::V2 {
        hostname: String::from("http://db.example:8086"),
        organization: String::from("acme"),
        bucket: String::from("plant"),
        auth_token: String::from("t0k3n"),
    };
    assert_eq!(v2.write_uri(), "http://db.example:8086/write?org=acme&bucket=plant");
    assert_eq!(v2.auth_header(), Some(String::from("Token t0k3n")));
}

#[test]
fn test_http_status_ok() {
    assert!(http_status_ok(200));
    assert!(http_status_ok(204));
    assert!(http_status_ok(299));
    assert!(!http_status_ok(199));
    assert!(!http_status_ok(300));
    assert!(!http_status_ok(404));
    assert!(!http_status_ok(500));
}
