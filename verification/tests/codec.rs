use battlebit_sync::battlebit::{Axis, BattlebitType, Bool, Color, DecodeError, Float, Int, Key, State, Str};

fn entry(name: &str, bytes: &[u8]) -> (String, Vec<u8>) {
    (name.to_string(), bytes.to_vec())
}

#[test]
fn decode_int_entry() {
    let (name, value) = BattlebitType::from_reg("MouseInvert_int_h123", &42i32.to_le_bytes()).unwrap();
    assert_eq!(name, "MouseInvert");
    assert!(matches!(value, BattlebitType::Int(Int(42))));
}

#[test]
fn decode_float_entry_keeps_bits() {
    let bits = 0.5f64.to_bits();
    let (name, value) = BattlebitType::from_reg("MasterVolume_float_h1", &0.5f64.to_le_bytes()).unwrap();
    assert_eq!(name, "MasterVolume");
    match value {
        BattlebitType::Float(Float(b)) => assert_eq!(b, bits),
        other => panic!("expected a float, got {:?}", other),
    }
}

#[test]
fn decode_bool_entry_single_byte() {
    let (_, v1) = BattlebitType::from_reg("X_bool_h1", &[1u8]).unwrap();
    assert!(matches!(v1, BattlebitType::Bool(Bool(true))));
    let (_, v0) = BattlebitType::from_reg("X_bool_h1", &[0u8]).unwrap();
    assert!(matches!(v0, BattlebitType::Bool(Bool(false))));
}

#[test]
fn decode_axis_and_key_gain_suffixes() {
    let (name, value) = BattlebitType::from_reg("Vertical_axis_h1", &7i32.to_le_bytes()).unwrap();
    assert_eq!(name, "Vertical_axis");
    assert!(matches!(value, BattlebitType::Axis(Axis(7))));

    let (name, value) = BattlebitType::from_reg("Jump_key_h1", &32i32.to_le_bytes()).unwrap();
    assert_eq!(name, "Jump_key");
    assert!(matches!(value, BattlebitType::Key(Key(32))));
}

#[test]
fn decode_color_channels() {
    let bits = 0.25f64.to_bits();
    let bytes = 0.25f64.to_le_bytes();
    for (tag, ch) in [("r", 0), ("g", 1), ("b", 2), ("a", 3)] {
        let raw = format!("Crosshair_{}_h1", tag);
        let (name, value) = BattlebitType::from_reg(&raw, &bytes).unwrap();
        assert_eq!(name, format!("Crosshair_{}", tag));
        match value {
            BattlebitType::Color(Color(c, b)) => {
                assert_eq!(c, ch);
                assert_eq!(b, bits);
            }
            other => panic!("expected a color, got {:?}", other),
        }
    }
}

#[test]
fn decode_unknown_tag_keeps_full_name_as_str() {
    let (name, value) = BattlebitType::from_reg("Some_unknown_h1", "hi".as_bytes()).unwrap();
    assert_eq!(name, "Some_unknown_h1");
    match value {
        BattlebitType::Str(Str(s)) => assert_eq!(s, "hi"),
        other => panic!("expected a string, got {:?}", other),
    }
}

#[test]
fn decode_str_invalid_utf8_defaults_empty() {
    let (_, value) = BattlebitType::from_reg("A_unknown_h1", &[0xFF, 0xFE]).unwrap();
    match value {
        BattlebitType::Str(Str(s)) => assert_eq!(s, ""),
        other => panic!("expected a string, got {:?}", other),
    }
}

#[test]
fn screenmanager_prefix_forces_int() {
    let (name, value) =
        BattlebitType::from_reg("Screenmanager Resolution Width_w1920", &1920i32.to_le_bytes()).unwrap();
    assert_eq!(name, "");
    assert!(matches!(value, BattlebitType::Int(Int(1920))));
}

#[test]
fn fail_soft_binary_decode() {
    // A 3-byte blob tagged `int` decodes to zero rather than erroring.
    let (name, value) = BattlebitType::from_reg("X_int_h1", &[1u8, 2, 3]).unwrap();
    assert_eq!(name, "X");
    assert!(matches!(value, BattlebitType::Int(Int(0))));
    // The same policy for the other fixed-width kinds.
    let (_, value) = BattlebitType::from_reg("X_float_h1", &[1u8]).unwrap();
    assert!(matches!(value, BattlebitType::Float(Float(0))));
    let (_, value) = BattlebitType::from_reg("X_bool_h1", &1i32.to_le_bytes()).unwrap();
    assert!(matches!(value, BattlebitType::Bool(Bool(false))));
}

#[test]
fn malformed_raw_name_is_rejected() {
    let r = BattlebitType::from_reg("NoUnderscore", &[0u8; 4]);
    assert!(matches!(r, Err(DecodeError::MalformedRawName)));
}

#[test]
fn binary_round_trip_all_kinds() {
    let values = vec![
        BattlebitType::Int(Int(-7)),
        BattlebitType::Float(Float(1.5f64.to_bits())),
        BattlebitType::Bool(Bool(true)),
        BattlebitType::Axis(Axis(3)),
        BattlebitType::Color(Color(2, 0.75f64.to_bits())),
        BattlebitType::Key(Key(65)),
        BattlebitType::Str(Str("héllo".to_string())),
    ];
    let raw_names = vec![
        "N_int_h1", "N_float_h1", "N_bool_h1", "N_axis_h1", "N_b_h1", "N_key_h1", "N_str_h1",
    ];
    for (v, raw) in values.into_iter().zip(raw_names) {
        let data = v.to_reg_value();
        let (_, back) = BattlebitType::from_reg(raw, &data.bytes).unwrap();
        match (&v, &back) {
            (BattlebitType::Int(Int(a)), BattlebitType::Int(Int(b))) => assert_eq!(a, b),
            (BattlebitType::Float(Float(a)), BattlebitType::Float(Float(b))) => assert_eq!(a, b),
            (BattlebitType::Bool(Bool(a)), BattlebitType::Bool(Bool(b))) => assert_eq!(a, b),
            (BattlebitType::Axis(Axis(a)), BattlebitType::Axis(Axis(b))) => assert_eq!(a, b),
            (BattlebitType::Color(Color(c1, a)), BattlebitType::Color(Color(c2, b))) => {
                assert_eq!(c1, c2);
                assert_eq!(a, b);
            }
            (BattlebitType::Key(Key(a)), BattlebitType::Key(Key(b))) => assert_eq!(a, b),
            (BattlebitType::Str(Str(a)), BattlebitType::Str(Str(b))) => assert_eq!(a, b),
            (a, b) => panic!("kind changed: {:?} became {:?}", a, b),
        }
    }
}

#[test]
fn reg_value_layout() {
    let d = BattlebitType::Int(Int(1)).to_reg_value();
    assert_eq!(d.bytes, vec![1, 0, 0, 0]);
    assert!(d.dword);
    let d = BattlebitType::Bool(Bool(true)).to_reg_value();
    assert_eq!(d.bytes, vec![1]);
    let d = BattlebitType::Str(Str("ab".to_string())).to_reg_value();
    assert_eq!(d.bytes, b"ab".to_vec());
    assert!(!d.dword);
}

#[test]
fn state_new_decodes_and_keeps_originals() {
    let entries = vec![
        entry("MasterVolume_float_h1", &1.0f64.to_le_bytes()),
        entry("", &[1u8]),
        entry("MouseInvert_int_h2", &1i32.to_le_bytes()),
    ];
    let state = State::new(entries);
    assert_eq!(state.original_registry_keys.len(), 3);
    assert_eq!(state.original_registry_keys[1], "");
    assert_eq!(state.registry.len(), 2);
    assert_eq!(state.registry[0].0, "MasterVolume");
    assert_eq!(state.registry[1].0, "MouseInvert");
    assert!(state.updated_registry.is_empty());
}

#[test]
fn resolve_prefers_first_original_superstring() {
    let state = State::new(vec![
        entry("Other_int_h1", &1i32.to_le_bytes()),
        entry("MasterVolume_float_h7", &1.0f64.to_le_bytes()),
        entry("MasterVolume_float_h8", &1.0f64.to_le_bytes()),
    ]);
    let resolved = state.resolve_regedit_name(
        "MasterVolume".to_string(),
        &BattlebitType::Float(Float(0)),
    );
    // The candidate `MasterVolume_float` matches the first observed raw name
    // that contains it, never the fresh candidate.
    assert_eq!(resolved, "MasterVolume_float_h7");
}

#[test]
fn resolve_falls_back_to_candidate() {
    let state = State::new(vec![]);
    let resolved =
        state.resolve_regedit_name("Brand".to_string(), &BattlebitType::Int(Int(1)));
    assert_eq!(resolved, "Brand_int");
    // Suffixed kinds keep the logical name verbatim.
    let resolved =
        state.resolve_regedit_name("Jump_key".to_string(), &BattlebitType::Key(Key(1)));
    assert_eq!(resolved, "Jump_key");
}

#[test]
fn update_registry_stages_under_resolved_name() {
    let mut state = State::new(vec![entry("MasterVolume_float_h7", &1.0f64.to_le_bytes())]);
    state.update_registry("MasterVolume", BattlebitType::Float(Float(0.5f64.to_bits())));
    assert_eq!(state.updated_registry.len(), 1);
    assert_eq!(state.updated_registry[0].0, "MasterVolume_float_h7");
}

#[test]
fn key_escape_round_trip() {
    // The grinning-face code point renders as an escape and reads back.
    let k = Key(0x1F600);
    let text = k.to_key_ascii().unwrap();
    assert_eq!(text, "\\u1f600");
    let back = Key::from_key_ascii(&text).unwrap();
    assert_eq!(back.0, 0x1F600);
}

#[test]
fn key_literal_round_trip() {
    let k = Key(65);
    let text = k.to_key_ascii().unwrap();
    assert_eq!(text, "A");
    assert_eq!(Key::from_key_ascii("A").unwrap().0, 65);
}

#[test]
fn key_invalid_code_points_error() {
    assert!(matches!(Key(-1).to_key_ascii(), Err(DecodeError::InvalidKeyEncoding)));
    assert!(matches!(Key(0xD800).to_key_ascii(), Err(DecodeError::InvalidKeyEncoding)));
    assert!(matches!(Key::from_key_ascii(""), Err(DecodeError::InvalidKeyEncoding)));
    assert!(matches!(Key::from_key_ascii("\\uZZ"), Err(DecodeError::InvalidKeyEncoding)));
    assert!(matches!(Key::from_key_ascii("\\ud800"), Err(DecodeError::InvalidKeyEncoding)));
}

#[test]
fn key_uppercase_hex_accepted() {
    assert_eq!(Key::from_key_ascii("\\u1F600").unwrap().0, 0x1F600);
}
