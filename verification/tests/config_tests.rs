use data_collector::config::{
    ConfigError, DeviceConfig, DevicesConfig, ErrorKind, ModbusConfig, RegisterConfig,
    SCALING_ONE_BITS,
};

fn error_at(device_index: usize, kind: ErrorKind) -> ConfigError {
    ConfigError { device_index, kind }
}
use data_collector::datatype::DataType;
use data_collector::device::Device;
use data_collector::plan::Register;

fn tags(pairs: &[(&str, &str)]) -> Vec<(String, String)> {
    pairs.iter().map(|(k, v)| (String::from(*k), String::from(*v))).collect()
}

fn section() -> DeviceConfig {
    DeviceConfig {
        template: None,
        id: None,
        scan_interval: None,
        tags: Vec::new(),
        input_registers: Vec::new(),
    }
}

#[test]
fn test_into_devices_simple() {
    let dc = DevicesConfig {
        templates: Vec::new(),
        devices: vec![DeviceConfig {
            id: Some(1),
            scan_interval: Some(String::from("1s")),
            input_registers: vec![RegisterConfig::Simple(1), RegisterConfig::Simple(1234)],
            ..section()
        }],
    };

    let registers = vec![
        (
            1u16,
            Register {
                name: String::from("input_register_1"),
                tags: Vec::new(),
                data_type: DataType::U16,
                scaling_bits: SCALING_ONE_BITS,
            },
        ),
        (
            1234u16,
            Register {
                name: String::from("input_register_1234"),
                tags: Vec::new(),
                data_type: DataType::U16,
                scaling_bits: SCALING_ONE_BITS,
            },
        ),
    ];

    let devices = vec![Device::new(1, 1_000_000_000, Vec::new(), registers)];
    assert_eq!(dc.into_devices().unwrap(), devices);
}

#[test]
fn test_into_devices_advanced() {
    let dc = DevicesConfig {
        templates: Vec::new(),
        devices: vec![DeviceConfig {
            id: Some(1),
            scan_interval: Some(String::from("1s")),
            input_registers: vec![
                RegisterConfig::Advanced {
                    addr: 1,
                    name: String::from("foobar"),
                    data_type: Some(String::from("f32")),
                    scaling_bits: Some(8.7f64.to_bits()),
                    tags: tags(&[("foo", "bar")]),
                },
                RegisterConfig::Advanced {
                    addr: 2,
                    name: String::from("quxbaz"),
                    data_type: None,
                    scaling_bits: None,
                    tags: Vec::new(),
                },
            ],
            ..section()
        }],
    };

    let registers = vec![
        (
            1u16,
            Register {
                name: String::from("foobar"),
                tags: tags(&[("foo", "bar")]),
                data_type: DataType::F32,
                scaling_bits: 8.7f64.to_bits(),
            },
        ),
        (
            2u16,
            Register {
                name: String::from("quxbaz"),
                tags: Vec::new(),
                data_type: DataType::U16,
                scaling_bits: SCALING_ONE_BITS,
            },
        ),
    ];

    let devices = vec![Device::new(1, 1_000_000_000, Vec::new(), registers)];
    assert_eq!(dc.into_devices().unwrap(), devices);
}

#[test]
fn test_into_devices_merge_template() {
    let dc = DevicesConfig {
        templates: vec![(
            String::from("foobar"),
            DeviceConfig {
                scan_interval: Some(String::from("1s")),
                tags: tags(&[("template", "template")]),
                ..section()
            },
        )],
        devices: vec![DeviceConfig {
            template: Some(String::from("foobar")),
            id: Some(1),
            tags: tags(&[("device", "device")]),
            input_registers: vec![RegisterConfig::Advanced {
                addr: 1,
                name: String::from("quxbaz"),
                data_type: None,
                scaling_bits: None,
                tags: tags(&[("register", "register")]),
            }],
            ..section()
        }],
    };

    let registers = vec![(
        1u16,
        Register {
            name: String::from("quxbaz"),
            tags: tags(&[("register", "register")]),
            data_type: DataType::U16,
            scaling_bits: SCALING_ONE_BITS,
        },
    )];

    let device_tags = tags(&[("template", "template"), ("device", "device")]);
    let devices = vec![Device::new(1, 1_000_000_000, device_tags, registers)];
    assert_eq!(dc.into_devices().unwrap(), devices);
}

#[test]
fn test_tag_merge_device_side_wins() {
    let dc = DevicesConfig {
        templates: vec![(
            String::from("t"),
            DeviceConfig {
                scan_interval: Some(String::from("1s")),
                tags: tags(&[("site", "old"), ("hall", "a")]),
                ..section()
            },
        )],
        devices: vec![DeviceConfig {
            template: Some(String::from("t")),
            id: Some(4),
            tags: tags(&[("site", "new")]),
            ..section()
        }],
    };
    let devices = dc.into_devices().unwrap();
    assert_eq!(devices[0].tags, tags(&[("site", "new"), ("hall", "a")]));
}

#[test]
fn test_conflict_when_field_on_both_sides() {
    let dc = DevicesConfig {
        templates: vec![(
            String::from("t"),
            DeviceConfig { id: Some(7), scan_interval: Some(String::from("1s")), ..section() },
        )],
        devices: vec![DeviceConfig {
            template: Some(String::from("t")),
            id: Some(1),
            ..section()
        }],
    };
    assert_eq!(
        dc.into_devices(),
        Err(error_at(0, ErrorKind::ConfigConflict { field: String::from("id") }))
    );
}

#[test]
fn test_conflict_when_field_missing() {
    let dc = DevicesConfig {
        templates: Vec::new(),
        devices: vec![DeviceConfig { id: Some(1), ..section() }],
    };
    assert_eq!(
        dc.into_devices(),
        Err(error_at(0, ErrorKind::ConfigConflict { field: String::from("scan_interval") }))
    );
}

#[test]
fn test_bad_duration_rejected() {
    let dc = DevicesConfig {
        templates: Vec::new(),
        devices: vec![DeviceConfig {
            id: Some(1),
            scan_interval: Some(String::from("1 fortnight")),
            ..section()
        }],
    };
    assert_eq!(
        dc.into_devices(),
        Err(error_at(0, ErrorKind::ConfigBadDuration { value: String::from("1 fortnight") }))
    );
}

#[test]
fn test_zero_duration_rejected() {
    let dc = DevicesConfig {
        templates: Vec::new(),
        devices: vec![DeviceConfig {
            id: Some(1),
            scan_interval: Some(String::from("0s")),
            ..section()
        }],
    };
    assert_eq!(
        dc.into_devices(),
        Err(error_at(0, ErrorKind::ConfigBadDuration { value: String::from("0s") }))
    );
}

#[test]
fn test_bad_register_type_rejected() {
    let dc = DevicesConfig {
        templates: Vec::new(),
        devices: vec![DeviceConfig {
            id: Some(1),
            scan_interval: Some(String::from("1s")),
            input_registers: vec![RegisterConfig::Advanced {
                addr: 1,
                name: String::from("foobar"),
                data_type: Some(String::from("q128")),
                scaling_bits: None,
                tags: Vec::new(),
            }],
            ..section()
        }],
    };
    assert_eq!(
        dc.into_devices(),
        Err(error_at(
            0,
            ErrorKind::ConfigBadRegisterType {
                name: String::from("foobar"),
                value: String::from("q128"),
            },
        ))
    );
}

#[test]
fn test_overflowing_register_rejected() {
    let dc = DevicesConfig {
        templates: Vec::new(),
        devices: vec![DeviceConfig {
            id: Some(1),
            scan_interval: Some(String::from("1s")),
            input_registers: vec![RegisterConfig::Advanced {
                addr: 65534,
                name: String::from("tail"),
                data_type: Some(String::from("f64")),
                scaling_bits: None,
                tags: Vec::new(),
            }],
            ..section()
        }],
    };
    assert_eq!(
        dc.into_devices(),
        Err(error_at(0, ErrorKind::ConfigBadAddress { addr: 65534 }))
    );
}

#[test]
fn test_missing_template_means_empty_scaffold() {
    let dc = DevicesConfig {
        templates: Vec::new(),
        devices: vec![DeviceConfig {
            template: Some(String::from("nothing")),
            id: Some(3),
            scan_interval: Some(String::from("5s")),
            ..section()
        }],
    };
    let devices = dc.into_devices().unwrap();
    assert_eq!(devices[0].id, 3);
    assert_eq!(devices[0].scan_interval_ns, 5_000_000_000);
}

#[test]
fn test_duration_parsing_through_humantime() {
    // A composite duration exercises the real parser: identity would fail.
    let dc = DevicesConfig {
        templates: Vec::new(),
        devices: vec![DeviceConfig {
            id: Some(1),
            scan_interval: Some(String::from("2m30s")),
            ..section()
        }],
    };
    let devices = dc.into_devices().unwrap();
    assert_eq!(devices[0].scan_interval_ns, 150_000_000_000);

    let mc = ModbusConfig {
        hostname: String::from("modbus.example"),
        port: 502,
        timeout: String::from("500ms"),
    };
    assert_eq!(mc.timeout_nanos(), Some(500_000_000));
    let bad = ModbusConfig {
        hostname: String::from("modbus.example"),
        port: 502,
        timeout: String::from("soon"),
    };
    assert_eq!(bad.timeout_nanos(), None);
}

#[test]
fn test_register_at_end_of_address_space() {
    // A one-word register at the second-to-last address just fits.
    let ok = DevicesConfig {
        templates: Vec::new(),
        devices: vec![DeviceConfig {
            id: Some(1),
            scan_interval: Some(String::from("1s")),
            input_registers: vec![RegisterConfig::Simple(65534)],
            ..section()
        }],
    };
    assert!(ok.into_devices().is_ok());

    let over = DevicesConfig {
        templates: Vec::new(),
        devices: vec![DeviceConfig {
            id: Some(1),
            scan_interval: Some(String::from("1s")),
            input_registers: vec![RegisterConfig::Simple(65535)],
            ..section()
        }],
    };
    assert_eq!(
        over.into_devices(),
        Err(error_at(0, ErrorKind::ConfigBadAddress { addr: 65535 }))
    );
}


#[test]
fn test_error_names_failing_device() {
    // The first section is fine; the second carries the error.
    let dc = DevicesConfig {
        templates: Vec::new(),
        devices: vec![
            DeviceConfig {
                id: Some(1),
                scan_interval: Some(String::from("1s")),
                ..section()
            },
            DeviceConfig {
                id: Some(2),
                scan_interval: Some(String::from("never")),
                ..section()
            },
        ],
    };
    assert_eq!(
        dc.into_devices(),
        Err(error_at(1, ErrorKind::ConfigBadDuration { value: String::from("never") }))
    );
}

#[test]
fn test_overlong_duration_rejected() {
    // The parser is only handed strings of a bounded length; anything
    // longer is an invalid duration.  This particular string would make it
    // abort: 2^64 seconds with exactly 10^9 subsecond nanoseconds.
    let dc = DevicesConfig {
        templates: Vec::new(),
        devices: vec![DeviceConfig {
            id: Some(1),
            scan_interval: Some(String::from("18446744073709551615s1000ms")),
            ..section()
        }],
    };
    assert_eq!(
        dc.into_devices(),
        Err(error_at(
            0,
            ErrorKind::ConfigBadDuration { value: String::from("18446744073709551615s1000ms") },
        ))
    );

    let mc = ModbusConfig {
        hostname: String::from("modbus.example"),
        port: 502,
        timeout: String::from("1 hour 30 minutes 45 seconds"),
    };
    assert_eq!(mc.timeout_nanos(), None);
}
