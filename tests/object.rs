use ef19_core::color::{resolve_color, Color};
use ef19_core::errors::{Error, KeyError};
use ef19_core::format::GdFormat;
use ef19_core::kv::KvMap;
use ef19_core::number::{parse_i8, parse_u16, Decimal4};
use ef19_core::object::LevelObject;

fn kv(pairs: &[(&str, &str)]) -> KvMap {
    let mut map = KvMap::new();
    for (k, v) in pairs {
        map.insert(k.to_string(), v.to_string());
    }
    map
}

fn as_f32(d: Decimal4) -> f32 {
    d.ten_thousandths as f32 / 10000.0
}

#[test]
fn map_cycle_minimal() {
    let map = kv(&[("1", "68"), ("2", "20"), ("3", "44.3")]);

    let obj = LevelObject::from_map(map).unwrap();

    assert_eq!(obj.id, 68);
    assert_eq!(as_f32(obj.x_pos), 20.0);
    assert_eq!(as_f32(obj.y_pos), 44.3);
    assert_eq!(obj.flip_x, false);
    assert_eq!(obj.flip_y, false);
    assert_eq!(as_f32(obj.rotation), 0.);

    assert_eq!(obj.z_layer, None);
    assert_eq!(obj.z_order, None);
    assert_eq!(obj.base_hsv, None);
    assert_eq!(obj.color, None);

    let map = obj.into_inner();
    assert_eq!(map.len(), 6);
    for (k, v) in map.entries.iter() {
        match k.as_str() {
            "1" => { assert_eq!(v, "68"); },
            "2" => { assert_eq!(v, "20"); },
            "3" => { assert_eq!(v, "44.3"); },
            "4" => { assert_eq!(v, "0"); },
            "5" => { assert_eq!(v, "0"); },
            "6" => { assert_eq!(v, "0"); },
            i => { panic!("Unexpected key {}", i); },
        }
    }
}

#[test]
fn map_cycle_maximal() {
    let map = kv(&[
        ("1", "68"),
        ("2", "20.22"),
        ("3", "19"),
        ("4", "0"),
        ("5", "1"),
        ("6", "22.545"),
        ("24", "-1"),
        ("25", "-8"),
        ("41", "1"),
        // not valid hsv string it's just a placeholder
        ("43", "auawauawuawa"),
        // oldstyle colour takes precedence over newstyle
        ("19", "3"),
        ("22", "3"),
    ]);

    let obj = LevelObject::from_map(map).unwrap();

    assert_eq!(obj.id, 68);
    assert_eq!(as_f32(obj.x_pos), 20.22);
    assert_eq!(as_f32(obj.y_pos), 19.0);
    assert_eq!(obj.flip_x, false);
    assert_eq!(obj.flip_y, true);
    assert_eq!(as_f32(obj.rotation), 22.545);

    assert_eq!(obj.z_layer, Some(-1));
    assert_eq!(obj.z_order, Some(-8));
    assert_eq!(obj.base_hsv.clone().unwrap(), "auawauawuawa");
    assert_eq!(obj.color, Some(Color::Col1));

    let map = obj.into_inner();
    for (k, v) in map.entries.iter() {
        match k.as_str() {
            "1" => { assert_eq!(v, "68"); },
            "2" => { assert_eq!(v, "20.22"); },
            "3" => { assert_eq!(v, "19"); },
            "4" => { assert_eq!(v, "0"); },
            "5" => { assert_eq!(v, "1"); },
            "6" => { assert_eq!(v, "22.545"); },
            "24" => { assert_eq!(v, "-1"); },
            "25" => { assert_eq!(v, "-8"); },
            "41" => { assert_eq!(v, "1"); },
            "43" => { assert_eq!(v, "auawauawuawa"); },
            "19" => { assert_eq!(v, "3"); },
            "22" => (),
            i => { panic!("Unexpected key {}", i); },
        }
    }
}

#[test]
fn invalid_object() {
    let map = kv(&[("1", "1"), ("2", "0"), ("4", "0"), ("5", "0"), ("6", "0")]);
    // missing y_pos - invalid
    let obj = LevelObject::from_map(map);
    assert!(obj.is_err());
}

#[test]
fn newstyle_color() {
    let map = kv(&[("1", "1"), ("2", "0"), ("3", "0"), ("22", "3")]);
    let obj = LevelObject::from_map(map).unwrap();
    assert_eq!(obj.color, Some(Color::Col3));

    let map = kv(&[("1", "1"), ("2", "0"), ("3", "0"), ("22", "1003")]);
    let obj = LevelObject::from_map(map).unwrap();
    assert_eq!(obj.color, Some(Color::DLine));
}

#[test]
fn missing_y_pos_names_key() {
    let map = kv(&[("1", "1"), ("2", "0")]);
    match LevelObject::from_map(map) {
        Err(Error::Key(KeyError::Missing { key })) => assert_eq!(key, "3"),
        other => panic!("unexpected {:?}", other),
    }
}

#[test]
fn invalid_value_names_key_and_text() {
    let map = kv(&[("1", "1"), ("2", "abc"), ("3", "0")]);
    match LevelObject::from_map(map) {
        Err(Error::Key(KeyError::Invalid { key, val })) => {
            assert_eq!(key, "2");
            assert_eq!(val, "abc");
        },
        other => panic!("unexpected {:?}", other),
    }
}

#[test]
fn zero_id_is_invalid_object() {
    let map = kv(&[("1", "0"), ("2", "1"), ("3", "2"), ("19", "3")]);
    assert!(matches!(LevelObject::from_map(map), Err(Error::InvalidObject)));
    // zero id wins over a missing field
    let map = kv(&[("1", "0")]);
    assert!(matches!(LevelObject::from_map(map), Err(Error::InvalidObject)));
}

#[test]
fn id_out_of_range_is_invalid_value() {
    let map = kv(&[("1", "65536"), ("2", "1"), ("3", "2")]);
    assert!(matches!(LevelObject::from_map(map), Err(Error::Key(KeyError::Invalid { .. }))));
}

#[test]
fn color_precedence() {
    let obj = LevelObject::from_map(kv(&[("1", "5"), ("2", "0"), ("3", "0"), ("19", "3"), ("22", "3")])).unwrap();
    assert_eq!(obj.color, Some(Color::Col1));
    assert_eq!(obj.other_data.get("22").unwrap(), "3");

    let obj = LevelObject::from_map(kv(&[("1", "5"), ("2", "0"), ("3", "0"), ("22", "1003")])).unwrap();
    assert_eq!(obj.color, Some(Color::DLine));

    let obj = LevelObject::from_map(kv(&[("1", "5"), ("2", "0"), ("3", "0"), ("19", "9")])).unwrap();
    assert_eq!(obj.color, None);

    let obj = LevelObject::from_map(kv(&[("1", "5"), ("2", "0"), ("3", "0"), ("19", "0"), ("22", "1005")])).unwrap();
    assert_eq!(obj.color, Some(Color::Player1));
}

#[test]
fn base_hsv_gating() {
    let obj = LevelObject::from_map(kv(&[("1", "5"), ("2", "0"), ("3", "0"), ("43", "somehsvstring")])).unwrap();
    assert_eq!(obj.base_hsv, None);
    assert_eq!(obj.other_data.get("43").unwrap(), "somehsvstring");

    let obj = LevelObject::from_map(kv(&[("1", "5"), ("2", "0"), ("3", "0"), ("41", "1"), ("43", "somehsvstring")])).unwrap();
    assert_eq!(obj.base_hsv.as_deref(), Some("somehsvstring"));
    assert!(obj.other_data.get("43").is_none());
}

#[test]
fn defaulted_fields_swallow_bad_values() {
    let obj = LevelObject::from_map(kv(&[("1", "5"), ("2", "0"), ("3", "0"), ("4", "2"), ("6", "x"), ("24", "300")])).unwrap();
    assert_eq!(obj.flip_x, false);
    assert_eq!(obj.rotation.ten_thousandths, 0);
    assert_eq!(obj.z_layer, None);
    assert!(obj.other_data.is_empty());
}

#[test]
fn unknown_keys_survive() {
    let obj = LevelObject::from_map(kv(&[("1", "5"), ("2", "0"), ("3", "0"), ("57", "2.3"), ("21", "1")])).unwrap();
    let map = obj.into_inner();
    assert_eq!(map.get("57").unwrap(), "2.3");
    assert_eq!(map.get("21").unwrap(), "1");
}

#[test]
fn encode_writes_color_as_legacy_id() {
    let obj = LevelObject::from_map(kv(&[("1", "5"), ("2", "0"), ("3", "0"), ("22", "1007")])).unwrap();
    let map = obj.map();
    assert_eq!(map.get("19").unwrap(), "5");
}

#[test]
fn resolve_color_table() {
    assert_eq!(resolve_color(Some(1), Some(1)), Some(Color::Player1));
    assert_eq!(resolve_color(Some(8), None), Some(Color::DLine));
    assert_eq!(resolve_color(Some(0), Some(5)), Some(Color::DLine));
    assert_eq!(resolve_color(None, Some(1006)), Some(Color::Player2));
    assert_eq!(resolve_color(None, Some(1004)), None);
    assert_eq!(resolve_color(None, None), None);
    assert_eq!(Color::from_old_id(5), Some(Color::LightBG));
    assert_eq!(Color::from_new_id(4), Some(Color::Col4));
}

#[test]
fn decimal_parse_and_format() {
    assert_eq!(Decimal4::parse("44.3").unwrap().ten_thousandths, 443000);
    assert_eq!(Decimal4::parse("-0.00005").unwrap().ten_thousandths, -1);
    assert_eq!(Decimal4::parse("1.23444").unwrap().ten_thousandths, 12344);
    assert_eq!(Decimal4::parse(".5").unwrap().ten_thousandths, 5000);
    assert_eq!(Decimal4::parse("+3.").unwrap().ten_thousandths, 30000);
    assert!(Decimal4::parse(".").is_none());
    assert!(Decimal4::parse("1e5").is_none());
    assert!(Decimal4::parse("").is_none());
    assert_eq!(Decimal4 { ten_thousandths: 443000 }.to_text(), "44.3");
    assert_eq!(Decimal4 { ten_thousandths: -12345 }.to_text(), "-1.2345");
    assert_eq!(Decimal4 { ten_thousandths: 10 }.to_text(), "0.001");
    assert_eq!(Decimal4 { ten_thousandths: 0 }.to_text(), "0");
}

#[test]
fn integer_parse() {
    assert_eq!(parse_u16("65535"), Some(65535));
    assert_eq!(parse_u16("+7"), Some(7));
    assert_eq!(parse_u16("-0"), None);
    assert_eq!(parse_u16("0007"), Some(7));
    assert_eq!(parse_i8("-128"), Some(-128));
    assert_eq!(parse_i8("128"), None);
    assert_eq!(parse_i8(""), None);
}

#[test]
fn gd_format_texts() {
    assert_eq!(true.gd_format(), "1");
    assert_eq!((-8i32).gd_format(), "-8");
    assert_eq!(Color::Col2.gd_format(), "4");
    assert_eq!(Decimal4 { ten_thousandths: 225450 }.gd_format(), "22.545");
}

#[test]
fn no_object_variant_is_catalogued() {
    assert!(ef19_core::variant::ObjectVariant::from_id(1).is_none());
}
