use data_collector::encode::{escape_str, influxdb_line, unescape_str};
use data_collector::strutil::{str_eq, u128_to_dec, u64_to_dec};

#[test]
fn test_escape_measurement() {
    assert_eq!(escape_str("cpu load,avg", false), "cpu\\ load\\,avg");
    // `=` is left alone in measurements.
    assert_eq!(escape_str("a=b", false), "a=b");
    assert_eq!(escape_str("", false), "");
}

#[test]
fn test_escape_tag() {
    assert_eq!(escape_str("k=v, w", true), "k\\=v\\,\\ w");
}

#[test]
fn test_escape_roundtrip_concrete() {
    let originals = ["", "plain", "a,b", "a b", "a=b", "\\", "\\,", "\\x", ",, ==", "trail\\"];
    for s in originals {
        let meas = escape_str(s, false);
        assert_eq!(unescape_str(&meas, false), s);
        let tag = escape_str(s, true);
        assert_eq!(unescape_str(&tag, true), s);
    }
}

#[test]
fn test_influxdb_line_format() {
    let tags = vec![
        (String::from("host"), String::from("h1")),
        (String::from("rack unit"), String::from("u=3")),
    ];
    let line = influxdb_line("temp sensor", &tags, "21.5", 1_000_000_000);
    assert_eq!(line, "temp\\ sensor,host=h1,rack\\ unit=u\\=3 value=21.5 1000000000\n");
}

#[test]
fn test_influxdb_line_no_tags() {
    let line = influxdb_line("m", &Vec::new(), "1", 0);
    assert_eq!(line, "m value=1 0\n");
}

#[test]
fn test_decimal_rendering() {
    assert_eq!(u128_to_dec(0), "0");
    assert_eq!(u128_to_dec(7), "7");
    assert_eq!(u128_to_dec(1234567890), "1234567890");
    assert_eq!(u128_to_dec(u128::MAX), u128::MAX.to_string());
    assert_eq!(u64_to_dec(u64::MAX), u64::MAX.to_string());
}

#[test]
fn test_str_eq() {
    assert!(str_eq("abc", "abc"));
    assert!(!str_eq("abc", "abd"));
    assert!(!str_eq("abc", "ab"));
    assert!(str_eq("", ""));
}
