use battlebit_sync::battlebit::{Axis, BattlebitType, Bool, Color, DecodeError, Float, Int, Key, State, Str};
use battlebit_sync::filters::{filter_any, parse_filters, process_filters, Filter, FilterVariant};
use battlebit_sync::strutil::{contains_str, fmt_i64, parse_i64, str_le_exec};
use battlebit_sync::toml::{
    parse_toml, render_toml, sort_toml, Entry, TextScalar, TomlEntry, TomlValue,
};

fn entry(name: &str, bytes: &[u8]) -> (String, Vec<u8>) {
    (name.to_string(), bytes.to_vec())
}

fn rec(name: &str, typ: &str, value: TomlValue) -> (String, TomlEntry) {
    (name.to_string(), TomlEntry { typ: typ.to_string(), value })
}

#[test]
fn text_round_trip_each_kind() {
    let cases = vec![
        ("A", BattlebitType::Int(Int(-3))),
        ("B", BattlebitType::Float(Float(2.5f64.to_bits()))),
        ("C", BattlebitType::Bool(Bool(true))),
        ("D_axis", BattlebitType::Axis(Axis(9))),
        ("E_g", BattlebitType::Color(Color(1, 0.5f64.to_bits()))),
        ("F_key", BattlebitType::Key(Key(0x1F600))),
        ("G", BattlebitType::Str(Str("hi".to_string()))),
    ];
    for (name, v) in cases {
        let typ = v.to_reg_type_str();
        let scalar = v.to_toml_value().unwrap();
        let back = BattlebitType::from_toml_value(typ, &scalar, name).unwrap();
        match (&v, &back) {
            (BattlebitType::Int(Int(a)), BattlebitType::Int(Int(b))) => assert_eq!(a, b),
            (BattlebitType::Float(Float(a)), BattlebitType::Float(Float(b))) => assert_eq!(a, b),
            (BattlebitType::Bool(Bool(a)), BattlebitType::Bool(Bool(b))) => assert_eq!(a, b),
            (BattlebitType::Axis(Axis(a)), BattlebitType::Axis(Axis(b))) => assert_eq!(a, b),
            (BattlebitType::Color(Color(c1, a)), BattlebitType::Color(Color(c2, b))) => {
                assert_eq!(c1, c2);
                assert_eq!(a, b);
            }
            (BattlebitType::Key(Key(a)), BattlebitType::Key(Key(b))) => assert_eq!(a, b),
            (BattlebitType::Str(Str(a)), BattlebitType::Str(Str(b))) => assert_eq!(a, b),
            (a, b) => panic!("kind changed: {:?} became {:?}", a, b),
        }
    }
}

#[test]
fn color_channel_derived_from_name_suffix() {
    let bits = 1.0f64.to_bits();
    for (suffix, ch) in [("r", 0), ("g", 1), ("b", 2), ("a", 3)] {
        let name = format!("Crosshair_{}", suffix);
        let v =
            BattlebitType::from_toml_value("color", &TextScalar::FloatBits(bits), &name).unwrap();
        match v {
            BattlebitType::Color(Color(c, b)) => {
                assert_eq!(c, ch);
                assert_eq!(b, bits);
            }
            other => panic!("expected a color, got {:?}", other),
        }
    }
    // Any other trailing character is a decode error.
    let r = BattlebitType::from_toml_value("color", &TextScalar::FloatBits(bits), "Crosshair_x");
    assert!(matches!(r, Err(DecodeError::InvalidColorName)));
    let r = BattlebitType::from_toml_value("color", &TextScalar::FloatBits(bits), "");
    assert!(matches!(r, Err(DecodeError::InvalidColorName)));
}

#[test]
fn unknown_kind_and_mismatch_errors() {
    let r = BattlebitType::from_toml_value("widget", &TextScalar::Int(1), "A");
    assert!(matches!(r, Err(DecodeError::UnknownTextKind)));
    let r = BattlebitType::from_toml_value("bool", &TextScalar::Str("notabool".to_string()), "A");
    assert!(matches!(r, Err(DecodeError::TypeMismatch)));
    let r = BattlebitType::from_toml_value("int", &TextScalar::Bool(true), "A");
    assert!(matches!(r, Err(DecodeError::TypeMismatch)));
}

#[test]
fn import_is_fail_fast_but_keeps_earlier_records() {
    let mut state = State::new(vec![]);
    let records = vec![
        (
            "Alpha".to_string(),
            Entry { typ: "int".to_string(), value: TextScalar::Int(5) },
        ),
        (
            "Beta".to_string(),
            Entry { typ: "bool".to_string(), value: TextScalar::Str("notabool".to_string()) },
        ),
        (
            "Gamma".to_string(),
            Entry { typ: "int".to_string(), value: TextScalar::Int(9) },
        ),
    ];
    let r = state.from_toml(records);
    assert!(matches!(r, Err(DecodeError::TypeMismatch)));
    // The record before the failure stays staged; the failing one and the
    // one after it are not.
    assert_eq!(state.updated_registry.len(), 1);
    assert_eq!(state.updated_registry[0].0, "Alpha_int");
    assert!(matches!(state.updated_registry[0].1, BattlebitType::Int(Int(5))));
}

#[test]
fn import_stages_all_when_well_formed() {
    let mut state = State::new(vec![entry("MasterVolume_float_h7", &1.0f64.to_le_bytes())]);
    let records = vec![
        (
            "MasterVolume".to_string(),
            Entry { typ: "float".to_string(), value: TextScalar::FloatBits(0.5f64.to_bits()) },
        ),
        (
            "Jump_key".to_string(),
            Entry { typ: "key".to_string(), value: TextScalar::Str("A".to_string()) },
        ),
    ];
    state.from_toml(records).unwrap();
    assert_eq!(state.updated_registry.len(), 2);
    assert_eq!(state.updated_registry[0].0, "MasterVolume_float_h7");
    assert_eq!(state.updated_registry[1].0, "Jump_key");
}

#[test]
fn filter_union_includes_any_match() {
    let filters = parse_filters(vec!["audio".to_string(), "keybindings".to_string()]);
    // An entry matching only the audio predicate is included.
    assert!(filter_any(&filters, "MasterVolume", "float"));
    // An entry matching only the keybindings predicate is included.
    assert!(filter_any(&filters, "Jump_key", "key"));
    // An entry matching neither is excluded.
    assert!(!filter_any(&filters, "MouseInvert", "int"));
}

#[test]
fn filter_predicates_match_their_subjects() {
    let fs = parse_filters(vec![
        "hitmarkers".to_string(),
        "sensitivity".to_string(),
        "somethingelse".to_string(),
    ]);
    assert_eq!(fs.len(), 3);
    assert!(fs[0].filter("ShowHitMarker", "bool"));
    assert!(!fs[0].filter("Volume", "float"));
    assert!(fs[1].filter("MouseSensitivity", "float"));
    // An unrecognized token degrades to a literal substring filter.
    assert!(matches!(&fs[2], FilterVariant::Manual(_)));
    assert!(fs[2].filter("Xsomethingelse_0", "int"));
}

#[test]
fn common_expands_to_its_bundle() {
    let fs = parse_filters(vec!["common".to_string()]);
    assert_eq!(fs.len(), 3);
    assert!(matches!(fs[0], FilterVariant::Hitmarkers(_)));
    assert!(matches!(fs[1], FilterVariant::Keybindings(_)));
    assert!(matches!(fs[2], FilterVariant::Audio(_)));
}

#[test]
fn process_filters_flattens_commas() {
    let r = process_filters(vec!["audio,common".to_string(), "keybindings".to_string()]);
    assert_eq!(r, vec!["audio", "common", "keybindings"]);
}

#[test]
fn export_applies_filter_union() {
    let state = State::new(vec![
        entry("MasterVolume_float_h1", &1.0f64.to_le_bytes()),
        entry("Jump_key_h1", &65i32.to_le_bytes()),
        entry("MouseInvert_int_h1", &1i32.to_le_bytes()),
    ]);
    let filters = parse_filters(vec!["audio".to_string(), "keybindings".to_string()]);
    let records = state.to_filtered_toml(filters).unwrap();
    let names: Vec<&str> = records.iter().map(|r| r.0.as_str()).collect();
    assert_eq!(names, vec!["MasterVolume", "Jump_key"]);
}

#[test]
fn export_without_filters_includes_all() {
    let state = State::new(vec![
        entry("MasterVolume_float_h1", &1.0f64.to_le_bytes()),
        entry("MouseInvert_int_h1", &1i32.to_le_bytes()),
    ]);
    let records = state.to_toml().unwrap();
    assert_eq!(records.len(), 2);
    assert_eq!(records[0].1.typ, "float");
    assert_eq!(records[1].1.typ, "int");
}

#[test]
fn render_has_exact_shape() {
    let records = vec![rec("Alpha", "int", TomlValue::Int(5))];
    let text = render_toml(&records);
    assert_eq!(text, "[Alpha]\ntyp = \"int\"\nvalue = 5\n");
}

#[test]
fn render_quotes_names_that_are_not_bare() {
    let records = vec![rec("Screen Width", "int", TomlValue::Int(-7))];
    let text = render_toml(&records);
    assert_eq!(text, "[\"Screen Width\"]\ntyp = \"int\"\nvalue = -7\n");
}

#[test]
fn deterministic_export_across_orders() {
    let a = vec![
        rec("B", "int", TomlValue::Int(2)),
        rec("A", "bool", TomlValue::Bool(true)),
        rec("C", "str", TomlValue::Str("x".to_string())),
    ];
    let b = vec![
        rec("C", "str", TomlValue::Str("x".to_string())),
        rec("B", "int", TomlValue::Int(2)),
        rec("A", "bool", TomlValue::Bool(true)),
    ];
    let ta = render_toml(&sort_toml(a));
    let tb = render_toml(&sort_toml(b));
    assert_eq!(ta, tb);
    assert!(ta.starts_with("[A]"));
}

#[test]
fn parse_round_trips_rendered_documents() {
    let records = vec![
        rec("A B", "str", TomlValue::Str("line\nbreak \"q\"".to_string())),
        rec("Alpha", "int", TomlValue::Int(-12)),
        rec("Beta", "float", TomlValue::Float("0.5".to_string())),
        rec("Gamma", "bool", TomlValue::Bool(false)),
    ];
    let sorted = sort_toml(records);
    let text = render_toml(&sorted);
    let back = parse_toml(&text).unwrap();
    assert_eq!(back.len(), sorted.len());
    for (orig, got) in sorted.iter().zip(back.iter()) {
        assert_eq!(orig.0, got.0);
        assert_eq!(orig.1.typ, got.1.typ);
        match (&orig.1.value, &got.1.value) {
            (TomlValue::Int(a), TomlValue::Int(b)) => assert_eq!(a, b),
            (TomlValue::Float(a), TomlValue::Float(b)) => assert_eq!(a, b),
            (TomlValue::Bool(a), TomlValue::Bool(b)) => assert_eq!(a, b),
            (TomlValue::Str(a), TomlValue::Str(b)) => assert_eq!(a, b),
            (a, b) => panic!("value shape changed: {:?} became {:?}", a, b),
        }
    }
}

#[test]
fn parse_accepts_comments_and_blank_lines() {
    let text = "# exported settings\n\n[Alpha]\ntyp = \"int\"\nvalue = 41\n";
    let recs = parse_toml(text).unwrap();
    assert_eq!(recs.len(), 1);
    assert_eq!(recs[0].0, "Alpha");
    assert!(matches!(recs[0].1.value, TomlValue::Int(41)));
}

#[test]
fn parse_rejects_incomplete_sections() {
    assert!(parse_toml("[Alpha]\ntyp = \"int\"\n").is_err());
    assert!(parse_toml("[Alpha]\nvalue = 1\n[Beta]\ntyp = \"int\"\nvalue = 2\n").is_err());
    assert!(parse_toml("typ = \"int\"\n").is_err());
    assert!(parse_toml("[Alpha]\ntyp = \"int\"\nvalue = @@\n").is_err());
}

#[test]
fn parse_lexes_floats_as_raw_text() {
    let recs = parse_toml("[A]\ntyp = \"float\"\nvalue = -1.25e3\n").unwrap();
    match &recs[0].1.value {
        TomlValue::Float(t) => assert_eq!(t, "-1.25e3"),
        other => panic!("expected a float token, got {:?}", other),
    }
}

#[test]
fn full_pipeline_export_import() {
    // Decode a store image, export it, parse the document back, and import
    // the records: the staged values equal the originals.
    let state = State::new(vec![
        entry("MasterVolume_float_h1", &0.25f64.to_le_bytes()),
        entry("MouseInvert_int_h2", &1i32.to_le_bytes()),
    ]);
    let records = state.to_toml().unwrap();
    // Bridge model records to wire records the way the application shell
    // does: floats become decimal text.
    let wire: Vec<(String, TomlEntry)> = records
        .into_iter()
        .map(|(name, e)| {
            let value = match e.value {
                TextScalar::Int(i) => TomlValue::Int(i),
                TextScalar::FloatBits(b) => TomlValue::Float(format!("{:?}", f64::from_bits(b))),
                TextScalar::Bool(b) => TomlValue::Bool(b),
                TextScalar::Str(s) => TomlValue::Str(s),
            };
            (name, TomlEntry { typ: e.typ, value })
        })
        .collect();
    let text = render_toml(&sort_toml(wire));
    let parsed = parse_toml(&text).unwrap();
    let model: Vec<(String, Entry)> = parsed
        .into_iter()
        .map(|(name, e)| {
            let value = match e.value {
                TomlValue::Int(i) => TextScalar::Int(i),
                TomlValue::Float(t) => TextScalar::FloatBits(t.parse::<f64>().unwrap().to_bits()),
                TomlValue::Bool(b) => TextScalar::Bool(b),
                TomlValue::Str(s) => TextScalar::Str(s),
            };
            (name, Entry { typ: e.typ, value })
        })
        .collect();
    let mut state2 = State::new(vec![
        entry("MasterVolume_float_h1", &0.25f64.to_le_bytes()),
        entry("MouseInvert_int_h2", &1i32.to_le_bytes()),
    ]);
    state2.from_toml(model).unwrap();
    assert_eq!(state2.updated_registry.len(), 2);
    assert_eq!(state2.updated_registry[0].0, "MasterVolume_float_h1");
    match &state2.updated_registry[0].1 {
        BattlebitType::Float(Float(b)) => assert_eq!(*b, 0.25f64.to_bits()),
        other => panic!("expected a float, got {:?}", other),
    }
    assert_eq!(state2.updated_registry[1].0, "MouseInvert_int_h2");
}

#[test]
fn strutil_formats_and_finds() {
    assert_eq!(fmt_i64(-42), "-42");
    assert_eq!(fmt_i64(0), "0");
    assert_eq!(fmt_i64(i64::MIN), i64::MIN.to_string());
    assert_eq!(parse_i64("9223372036854775807"), Some(i64::MAX));
    assert_eq!(parse_i64("-9223372036854775808"), Some(i64::MIN));
    assert_eq!(parse_i64("9223372036854775808"), None);
    assert_eq!(parse_i64("12x"), None);
    assert!(contains_str("MasterVolume", "Volume"));
    assert!(!contains_str("Master", "Volume"));
    assert!(contains_str("abc", ""));
    assert!(str_le_exec("Alpha", "Beta"));
    assert!(!str_le_exec("b", "Beta"));
}

#[test]
fn export_fails_exactly_on_invalid_key() {
    // A key entry whose code point is no valid character makes the export
    // fail; filtering it out makes the same export succeed.
    let state = State::new(vec![
        entry("MasterVolume_float_h1", &1.0f64.to_le_bytes()),
        entry("Bad_key_h1", &(-1i32).to_le_bytes()),
    ]);
    let r = state.to_toml();
    assert!(matches!(r, Err(DecodeError::InvalidKeyEncoding)));
    let filters = parse_filters(vec!["audio".to_string()]);
    let records = state.to_filtered_toml(filters).unwrap();
    assert_eq!(records.len(), 1);
    assert_eq!(records[0].0, "MasterVolume");
}
