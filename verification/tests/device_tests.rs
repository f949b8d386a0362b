use data_collector::datatype::{DataType, DecodedValue};
use data_collector::device::{quantize_timestamp, Device};
use data_collector::plan::{Register, Registers, Request};

fn reg(name: &str, data_type: DataType, scaling: f64) -> Register {
    Register {
        data_type,
        scaling_bits: scaling.to_bits(),
        name: String::from(name),
        tags: Vec::new(),
    }
}

#[test]
fn test_registers_consecutive() {
    let registers = vec![
        (1u16, reg("foobar", DataType::F32, 8.7)),
        (3u16, reg("quxbaz", DataType::U16, 1.0)),
    ];

    let requests = vec![Request::new(1, 3)];
    assert_eq!(requests, Registers::new(registers).requests);
}

#[test]
fn test_requests_from_registers_split() {
    let registers = vec![
        (1u16, reg("foobar", DataType::F32, 8.7)),
        (8u16, reg("quxbaz", DataType::U16, 1.0)),
    ];

    let requests = vec![Request::new(1, 2), Request::new(8, 1)];
    assert_eq!(requests, Registers::new(registers).requests);
}

#[test]
fn test_requests_from_registers_overlapping() {
    let registers = vec![
        (1u16, reg("foobar", DataType::F64, 8.7)),
        (3u16, reg("quxbaz", DataType::U16, 1.0)),
    ];

    let requests = vec![Request::new(1, 4)];
    assert_eq!(requests, Registers::new(registers).requests);
}

fn decoded_to_f64(v: DecodedValue) -> f64 {
    match v {
        DecodedValue::Unsigned(u) => u as f64,
        DecodedValue::Signed(i) => i as f64,
        DecodedValue::F32Bits(b) => f32::from_bits(b) as f64,
        DecodedValue::F64Bits(b) => f64::from_bits(b),
    }
}

#[test]
fn test_register_parse_data() {
    let data: [u16; 4] = [0x2468, 0xACF0, 0x0002, 0x0004];

    let dt = DataType::U16;
    assert_eq!(decoded_to_f64(dt.parse_data(&data[..])), 0x2468u16 as f64);

    let dt = DataType::U32;
    assert_eq!(decoded_to_f64(dt.parse_data(&data[..])), 0x2468ACF0u32 as f64);

    let dt = DataType::I16;
    assert_eq!(decoded_to_f64(dt.parse_data(&data[..])), 0x2468i16 as f64);

    let dt = DataType::I32;
    assert_eq!(decoded_to_f64(dt.parse_data(&data[..])), 0x2468ACF0i32 as f64);
}

#[test]
fn test_parse_data_exact_variants() {
    let data: [u16; 4] = [0x2468, 0xACF0, 0x0002, 0x0004];
    assert_eq!(DataType::U16.parse_data(&data[..]), DecodedValue::Unsigned(0x2468));
    assert_eq!(DataType::U32.parse_data(&data[..]), DecodedValue::Unsigned(0x2468ACF0));
    assert_eq!(DataType::I16.parse_data(&data[..]), DecodedValue::Signed(0x2468));
    assert_eq!(DataType::I32.parse_data(&data[..]), DecodedValue::Signed(0x2468ACF0));
    assert_eq!(DataType::F32.parse_data(&data[..]), DecodedValue::F32Bits(0x2468ACF0));
    assert_eq!(
        DataType::F64.parse_data(&data[..]),
        DecodedValue::F64Bits(0x2468ACF0_0002_0004)
    );
    // The IEEE-754 reinterpretation of the f32 pattern.
    assert_eq!(
        decoded_to_f64(DataType::F32.parse_data(&data[..])),
        f32::from_bits(0x2468ACF0) as f64
    );
}

#[test]
fn test_parse_data_sign_extension() {
    let data: [u16; 2] = [0xFFFF, 0xFFFE];
    assert_eq!(DataType::I16.parse_data(&data[..]), DecodedValue::Signed(-1));
    assert_eq!(DataType::I32.parse_data(&data[..]), DecodedValue::Signed(-2));
    assert_eq!(DataType::U16.parse_data(&data[..]), DecodedValue::Unsigned(0xFFFF));
    assert_eq!(DataType::U32.parse_data(&data[..]), DecodedValue::Unsigned(0xFFFFFFFE));
}

#[test]
fn test_data_type_from_str() {
    assert_eq!(DataType::from_str("u16"), Ok(DataType::U16));
    assert_eq!(DataType::from_str("u32"), Ok(DataType::U32));
    assert_eq!(DataType::from_str("i16"), Ok(DataType::I16));
    assert_eq!(DataType::from_str("i32"), Ok(DataType::I32));
    assert_eq!(DataType::from_str("f32"), Ok(DataType::F32));
    assert_eq!(DataType::from_str("f64"), Ok(DataType::F64));
    assert_eq!(DataType::from_str("u64"), Err(()));
    assert_eq!(DataType::from_str(""), Err(()));
}

#[test]
fn test_num_registers() {
    assert_eq!(DataType::U16.num_registers(), 1);
    assert_eq!(DataType::I16.num_registers(), 1);
    assert_eq!(DataType::U32.num_registers(), 2);
    assert_eq!(DataType::I32.num_registers(), 2);
    assert_eq!(DataType::F32.num_registers(), 2);
    assert_eq!(DataType::F64.num_registers(), 4);
    assert_eq!(Request::new(7, 2).len(), 2);
}

#[test]
fn test_quantize_timestamp() {
    assert_eq!(quantize_timestamp(1_234_567_890, 1_000_000_000), 1_000_000_000);
    assert_eq!(quantize_timestamp(999, 1000), 0);
    assert_eq!(quantize_timestamp(2000, 1000), 2000);
}

#[test]
fn test_sample_lines_share_quantized_timestamp() {
    let registers = vec![
        (1u16, reg("first", DataType::U16, 1.0)),
        (2u16, reg("second", DataType::U16, 1.0)),
    ];
    let device = Device::new(9, 1_000_000_000, Vec::new(), registers);
    // One plan interval [1, 3) with one word per register.
    assert_eq!(device.input_registers.requests, vec![Request::new(1, 2)]);
    let responses = vec![vec![41u16, 42u16]];
    let decoded = device.decode_responses(&responses);
    assert_eq!(decoded.len(), 2);
    assert_eq!(decoded[0].value, DecodedValue::Unsigned(41));
    assert_eq!(decoded[1].value, DecodedValue::Unsigned(42));
    let texts = vec![String::from("41"), String::from("42")];
    let blob = device.encode_lines(&decoded, &texts, 1_234_567_890);
    // Both lines carry the same timestamp, divisible by the interval.
    assert_eq!(
        blob,
        "first,modbus_id=9 value=41 1000000000\nsecond,modbus_id=9 value=42 1000000000\n"
    );
}

#[test]
fn test_decode_responses_slices_by_offset() {
    let registers = vec![
        (1u16, reg("wide", DataType::F64, 1.0)),
        (3u16, reg("inner", DataType::U16, 1.0)),
    ];
    let device = Device::new(1, 1_000_000_000, Vec::new(), registers);
    assert_eq!(device.input_registers.requests, vec![Request::new(1, 4)]);
    let responses = vec![vec![0x2468u16, 0xACF0, 0x0002, 0x0004]];
    let decoded = device.decode_responses(&responses);
    assert_eq!(decoded[0].value, DecodedValue::F64Bits(0x2468ACF0_0002_0004));
    // The u16 at address 3 reads the word at offset 2 of the buffer.
    assert_eq!(decoded[1].value, DecodedValue::Unsigned(0x0002));
}

#[test]
fn test_empty_register_list_is_legal() {
    let device = Device::new(1, 1_000_000_000, Vec::new(), Vec::new());
    assert!(device.input_registers.requests.is_empty());
    let decoded = device.decode_responses(&Vec::new());
    assert!(decoded.is_empty());
    let blob = device.encode_lines(&decoded, &Vec::new(), 5);
    assert_eq!(blob, "");
}

#[test]
fn test_duplicate_addresses_last_wins() {
    let registers = vec![
        (1u16, reg("old", DataType::U16, 1.0)),
        (1u16, reg("new", DataType::U16, 2.0)),
    ];
    let rs = Registers::new(registers);
    assert_eq!(rs.entries.len(), 1);
    assert_eq!(rs.entries[0].1.name, "new");
    assert_eq!(rs.requests, vec![Request::new(1, 1)]);
}

#[test]
fn test_unsorted_registers_are_ordered() {
    let registers = vec![
        (8u16, reg("late", DataType::U16, 1.0)),
        (1u16, reg("early", DataType::F32, 1.0)),
    ];
    let rs = Registers::new(registers);
    assert_eq!(rs.entries[0].0, 1);
    assert_eq!(rs.entries[1].0, 8);
    assert_eq!(rs.requests, vec![Request::new(1, 2), Request::new(8, 1)]);
}

#[test]
fn test_device_tags_appear_before_register_tags() {
    let mut r = reg("flow", DataType::U16, 1.0);
    r.tags = vec![(String::from("reg"), String::from("r1"))];
    let device = Device::new(
        2,
        1_000_000_000,
        vec![(String::from("site"), String::from("plant"))],
        vec![(4u16, r)],
    );
    let decoded = device.decode_responses(&vec![vec![5u16]]);
    let blob = device.encode_lines(&decoded, &vec![String::from("5")], 0);
    assert_eq!(blob, "flow,site=plant,reg=r1,modbus_id=2 value=5 0\n");
}
