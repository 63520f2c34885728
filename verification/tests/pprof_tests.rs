use ddprof::api;
use ddprof::pprof::{encode, Function, Line, Location, Mapping, Profile, Sample, ValueType};

#[test]
fn basic() {
    let mut strings: Vec<String> = Vec::with_capacity(8);
    strings.push("".into()); // 0
    strings.push("samples".into()); // 1
    strings.push("count".into()); // 2
    strings.push("php".into()); // 3
    strings.push("{main}".into()); // 4
    strings.push("index.php".into()); // 5
    strings.push("test".into()); // 6

    let php_mapping = Mapping {
        id: 1,
        filename: 3,
        ..Default::default()
    };

    let main_function = Function {
        id: 1,
        name: 4,
        system_name: 4,
        filename: 5,
        start_line: 0,
    };

    let test_function = Function {
        id: 2,
        name: 6,
        system_name: 6,
        filename: 5,
        start_line: 3,
    };

    let main_line = Line {
        function_id: main_function.id,
        line: 0,
    };

    let test_line = Line {
        function_id: test_function.id,
        line: 4,
    };

    let main_location = Location {
        id: 1,
        mapping_id: php_mapping.id,
        address: 0,
        line: vec![main_line],
        is_folded: false,
    };

    let test_location = Location {
        id: 2,
        mapping_id: php_mapping.id,
        address: 0,
        line: vec![test_line],
        is_folded: false,
    };

    let profiles = Profile {
        sample_type: vec![ValueType { typ: 1, unit: 2 }],
        sample: vec![
            Sample {
                location_id: vec![main_location.id],
                value: vec![1],
                label: vec![],
            },
            Sample {
                location_id: vec![test_location.id, main_location.id],
                value: vec![1],
                label: vec![],
            },
        ],
        mapping: vec![php_mapping],
        location: vec![main_location, test_location],
        function: vec![main_function, test_function],
        string_table: strings,
        ..Default::default()
    };

    let buffer = encode(&profiles);
    assert!(buffer.len() >= 72);
}

/// Reads one base-128 varint.
fn read_varint(buf: &[u8], pos: &mut usize) -> u64 {
    let mut value: u64 = 0;
    let mut shift: u32 = 0;
    loop {
        let b = buf[*pos];
        *pos += 1;
        value |= ((b & 0x7f) as u64) << shift;
        if b < 0x80 {
            return value;
        }
        shift += 7;
    }
}

/// Walks a proto3 message, returning `(field, varint-or-empty, bytes)`
/// triples for varint and length-delimited fields.
fn read_fields(buf: &[u8]) -> Vec<(u64, u64, Vec<u8>)> {
    let mut fields = Vec::new();
    let mut pos = 0;
    while pos < buf.len() {
        let key = read_varint(buf, &mut pos);
        let field = key >> 3;
        match key & 7 {
            0 => {
                let v = read_varint(buf, &mut pos);
                fields.push((field, v, Vec::new()));
            }
            2 => {
                let len = read_varint(buf, &mut pos) as usize;
                fields.push((field, 0, buf[pos..pos + len].to_vec()));
                pos += len;
            }
            other => panic!("unexpected wire type {other}"),
        }
    }
    fields
}

fn first_varint_field(msg: &[u8], field: u64) -> u64 {
    for (f, v, _) in read_fields(msg) {
        if f == field {
            return v;
        }
    }
    0
}

#[test]
fn serialized_ids_are_one_based_and_contiguous() {
    // Build a profile with two distinct functions under one mapping,
    // serialize it, and re-parse the buffer under the pprof schema: the
    // ids of mappings, locations and functions are their index plus one.
    let sample_types = vec![api::ValueType {
        typ: "samples",
        unit: "count",
    }];
    let mapping = api::Mapping {
        filename: "php",
        ..Default::default()
    };
    let mut profile = ddprof::Profile::builder().sample_types(sample_types).build();
    for name in ["{main}", "test"] {
        let id = profile
            .add(api::Sample {
                locations: vec![api::Location {
                    mapping,
                    lines: vec![api::Line {
                        function: api::Function {
                            name,
                            system_name: name,
                            filename: "index.php",
                            start_line: 0,
                        },
                        line: 0,
                    }],
                    ..Default::default()
                }],
                values: vec![1],
                labels: vec![],
            })
            .expect("add to succeed");
        assert!(id.0 > 0);
    }

    let encoded = profile.serialize();
    let fields = read_fields(&encoded.buffer);

    let mut mapping_ids = Vec::new();
    let mut location_ids = Vec::new();
    let mut function_ids = Vec::new();
    let mut string_count = 0;
    for (f, _, bytes) in &fields {
        match f {
            3 => mapping_ids.push(first_varint_field(bytes, 1)),
            4 => location_ids.push(first_varint_field(bytes, 1)),
            5 => function_ids.push(first_varint_field(bytes, 1)),
            6 => string_count += 1,
            _ => {}
        }
    }
    assert_eq!(mapping_ids, vec![1]);
    assert_eq!(location_ids, vec![1, 2]);
    assert_eq!(function_ids, vec![1, 2]);
    // "", "samples", "count", "php", "{main}", "index.php", "test"
    assert_eq!(string_count, 7);
    let samples = fields.iter().filter(|(f, _, _)| *f == 2).count();
    assert_eq!(samples, 2);
}

#[test]
fn serialized_period_survives() {
    let profile = ddprof::Profile::builder()
        .sample_types(vec![api::ValueType {
            typ: "samples",
            unit: "count",
        }])
        .period(Some(api::Period {
            typ: api::ValueType {
                typ: "wall-time",
                unit: "nanoseconds",
            },
            value: 10000,
        }))
        .build();
    let encoded = profile.serialize();
    let fields = read_fields(&encoded.buffer);
    let period = fields
        .iter()
        .find(|(f, _, _)| *f == 12)
        .expect("period field")
        .1;
    assert_eq!(period, 10000);
    let ptype = fields
        .iter()
        .find(|(f, _, _)| *f == 11)
        .expect("period type field");
    // type=3 ("wall-time"), unit=4 ("nanoseconds") in the string table
    assert_eq!(first_varint_field(&ptype.2, 1), 3);
    assert_eq!(first_varint_field(&ptype.2, 2), 4);
}

#[test]
fn encoder_emits_exact_bytes_for_a_small_message() {
    // One sample type (type=1, unit=2) and a period: field 1 is the
    // nested ValueType `08 01 10 02`, field 12 the varint period.
    let msg = Profile {
        sample_type: vec![ValueType { typ: 1, unit: 2 }],
        period: 3,
        ..Default::default()
    };
    let buffer = encode(&msg);
    assert_eq!(buffer, vec![0x0a, 0x04, 0x08, 0x01, 0x10, 0x02, 0x60, 0x03]);
}

#[test]
fn encoder_varints_negative_int64_as_ten_bytes() {
    let msg = Profile {
        period: -1,
        ..Default::default()
    };
    let buffer = encode(&msg);
    assert_eq!(
        buffer,
        vec![0x60, 0xff, 0xff, 0xff, 0xff, 0xff, 0xff, 0xff, 0xff, 0xff, 0x01]
    );
}
