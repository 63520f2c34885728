use ddprof::api;
use ddprof::pprof;
use ddprof::{PProfId, Profile};

#[test]
fn interning() {
    let sample_types = vec![api::ValueType {
        typ: "samples",
        unit: "count",
    }];
    let mut profiles = Profile::builder().sample_types(sample_types).build();

    /* There have been 3 strings: "", "samples", and "count". Since the
     * interning index starts at zero, this means the next string will be 3.
     */
    let expected_id = PProfId(3);

    let string = "a";
    let id1 = profiles.intern(string).expect("table has room");
    let id2 = profiles.intern(string).expect("table has room");

    assert_eq!(id1, id2);
    assert_eq!(id1, expected_id);
}

#[test]
fn api() {
    let sample_types = vec![
        api::ValueType {
            typ: "samples",
            unit: "count",
        },
        api::ValueType {
            typ: "wall-time",
            unit: "nanoseconds",
        },
    ];

    let mapping = api::Mapping {
        filename: "php",
        ..Default::default()
    };

    let index = api::Function {
        filename: "index.php",
        ..Default::default()
    };

    let locations = vec![
        api::Location {
            mapping,
            lines: vec![api::Line {
                function: api::Function {
                    name: "phpinfo",
                    system_name: "phpinfo",
                    filename: "index.php",
                    start_line: 0,
                },
                line: 0,
            }],
            ..Default::default()
        },
        api::Location {
            mapping,
            lines: vec![api::Line {
                function: index,
                line: 3,
            }],
            ..Default::default()
        },
    ];

    let mut profile = Profile::builder().sample_types(sample_types).build();
    let sample_id = profile
        .add(api::Sample {
            locations,
            values: vec![1, 10000],
            labels: vec![],
        })
        .expect("add to succeed");

    assert_eq!(sample_id, PProfId(1));
}

fn provide_distinct_locations() -> Profile {
    let sample_types = vec![api::ValueType {
        typ: "samples",
        unit: "count",
    }];

    let main_lines = vec![api::Line {
        function: api::Function {
            name: "{main}",
            system_name: "{main}",
            filename: "index.php",
            start_line: 0,
        },
        line: 0,
    }];

    let test_lines = vec![api::Line {
        function: api::Function {
            name: "test",
            system_name: "test",
            filename: "index.php",
            start_line: 3,
        },
        line: 0,
    }];

    let mapping = api::Mapping {
        filename: "php",
        ..Default::default()
    };

    let main_locations = vec![api::Location {
        mapping,
        lines: main_lines,
        ..Default::default()
    }];
    let test_locations = vec![api::Location {
        mapping,
        lines: test_lines,
        ..Default::default()
    }];
    let values: Vec<i64> = vec![1];
    let labels = vec![api::Label {
        key: "pid",
        num: 101,
        ..Default::default()
    }];

    let main_sample = api::Sample {
        locations: main_locations,
        values: values.clone(),
        labels: labels.clone(),
    };

    let test_sample = api::Sample {
        locations: test_locations,
        values,
        labels,
    };

    let mut profile = Profile::builder().sample_types(sample_types).build();

    let sample_id1 = profile.add(main_sample).expect("profile to not be full");
    assert_eq!(sample_id1, PProfId(1));

    let sample_id2 = profile.add(test_sample).expect("profile to not be full");
    assert_eq!(sample_id2, PProfId(2));

    profile
}

#[test]
fn impl_from_profile_for_pprof_profile() {
    let profile: pprof::Profile = provide_distinct_locations().pprof(0, 0);

    assert_eq!(profile.sample.len(), 2);
    assert_eq!(profile.mapping.len(), 1);
    assert_eq!(profile.location.len(), 2);
    assert_eq!(profile.function.len(), 2);

    for (index, mapping) in profile.mapping.iter().enumerate() {
        assert_eq!((index + 1) as u64, mapping.id);
    }

    for (index, location) in profile.location.iter().enumerate() {
        assert_eq!((index + 1) as u64, location.id);
    }

    for (index, function) in profile.function.iter().enumerate() {
        assert_eq!((index + 1) as u64, function.id);
    }

    let sample = profile.sample.get(0).expect("index 0 to exist");
    assert_eq!(sample.label.len(), 1);
    let label = sample.label.get(0).expect("index 0 to exist");
    let key = profile
        .string_table
        .get(label.key as usize)
        .expect("index to exist");
    let str = profile
        .string_table
        .get(label.str as usize)
        .expect("index to exist");
    let num_unit = profile
        .string_table
        .get(label.num_unit as usize)
        .expect("index to exist");
    assert_eq!(key, "pid");
    assert_eq!(label.num, 101);
    assert_eq!(str, "");
    assert_eq!(num_unit, "");
}

#[test]
fn reset() {
    let mut profile = provide_distinct_locations();
    /* This set of asserts is to make sure it's a non-empty profile that we
     * are working with so that we can test that reset works.
     */
    assert!(profile.functions_count() != 0);
    assert!(profile.locations_count() != 0);
    assert!(profile.mappings_count() != 0);
    assert!(profile.samples_count() != 0);
    assert!(!profile.sample_types().is_empty());
    assert!(profile.period_type().is_none());

    let prev = profile.reset().expect("reset to succeed");

    // These should all be empty now
    assert_eq!(profile.functions_count(), 0);
    assert_eq!(profile.locations_count(), 0);
    assert_eq!(profile.mappings_count(), 0);
    assert_eq!(profile.samples_count(), 0);

    assert_eq!(profile.period(), prev.period());
    assert_eq!(profile.period_type(), prev.period_type());
    assert_eq!(profile.sample_types(), prev.sample_types());

    // The string table should have at least the empty string:
    assert!(profile.strings_count() != 0);
    // The empty string should be at position 0
    assert_eq!(
        profile.get_string(PProfId(0)).expect("index 0 to be found"),
        ""
    );
}

#[test]
fn reset_period() {
    /* The previous test (reset) checked quite a few properties already, so
     * this one will focus only on the period.
     */
    let period: i64 = 10000;
    let sample_types = vec![api::ValueType {
        typ: "samples",
        unit: "count",
    }];
    let mut profile = Profile::builder()
        .sample_types(sample_types)
        .period(Some(api::Period {
            typ: api::ValueType {
                typ: "wall-time",
                unit: "nanoseconds",
            },
            value: period,
        }))
        .build();

    let prev = profile.reset().expect("reset to succeed");
    assert_eq!(profile.period(), prev.period());
    assert_eq!(profile.period(), period);

    /* The strings may not be interned to the same location, but they should
     * still match if we resolve them.
     */
    let period_type = profile.period_type().expect("period_type to exist");
    let typ = period_type.typ;
    let unit = period_type.unit;
    assert_eq!(
        profile.get_string(typ).expect("string to be found"),
        "wall-time"
    );
    assert_eq!(
        profile.get_string(unit).expect("string to be found"),
        "nanoseconds"
    );
}

#[test]
fn ctor_and_dtor() {
    let sample_types = vec![api::ValueType {
        typ: "samples",
        unit: "count",
    }];
    let profile = Profile::builder().sample_types(sample_types).build();
    drop(profile);
}

#[test]
fn aggregate_samples() {
    let sample_types = vec![api::ValueType {
        typ: "samples",
        unit: "count",
    }];
    let mut profile = Profile::builder().sample_types(sample_types).build();

    let lines = vec![api::Line {
        function: api::Function {
            name: "{main}",
            system_name: "{main}",
            filename: "index.php",
            start_line: 0,
        },
        line: 0,
    }];

    let mapping = api::Mapping {
        filename: "php",
        ..Default::default()
    };

    let locations = vec![api::Location {
        mapping,
        lines,
        ..Default::default()
    }];
    let values: Vec<i64> = vec![1];
    let labels = vec![api::Label {
        key: "pid",
        num: 101,
        ..Default::default()
    }];

    let sample = api::Sample {
        locations,
        values,
        labels,
    };

    let sample_id1 = profile.add(sample.clone()).expect("add to succeed");
    assert_eq!(sample_id1, PProfId(1));

    let sample_id2 = profile.add(sample).expect("add to succeed");
    assert_eq!(sample_id1, sample_id2);

    // The values were summed elementwise into the one stored sample.
    let message = profile.pprof(0, 0);
    assert_eq!(message.sample.len(), 1);
    assert_eq!(message.sample[0].value, vec![2]);
}

#[test]
fn distinct_locations_ffi() {
    provide_distinct_locations();
}

#[test]
fn empty_string_is_id_zero() {
    let profile = Profile::new();
    assert_eq!(profile.get_string(PProfId(0)).expect("id 0"), "");
}

#[test]
fn value_count_mismatch_returns_id_zero() {
    let sample_types = vec![api::ValueType {
        typ: "samples",
        unit: "count",
    }];
    let mut profile = Profile::builder().sample_types(sample_types).build();
    let id = profile
        .add(api::Sample {
            locations: vec![],
            values: vec![1, 2],
            labels: vec![],
        })
        .expect("mismatch is not an error");
    assert_eq!(id, PProfId(0));
    assert_eq!(profile.samples_count(), 0);
}

#[test]
fn full_error_has_fixed_rendering() {
    let e = ddprof::FullError;
    assert_eq!("Full", e.message());
}
