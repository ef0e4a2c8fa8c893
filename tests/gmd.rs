use ef19_core::gmd::{gmd_from_bytes, gmd_from_tokens, gmd_to_bytes, FormatError, GmdError, GmdValue, XmlToken};

fn dict(entries: Vec<(&str, GmdValue)>) -> GmdValue {
    GmdValue::Dict(entries.into_iter().map(|(k, v)| (k.to_string(), v)).collect())
}

fn same(a: &GmdValue, b: &GmdValue) -> bool {
    match (a, b) {
        (GmdValue::Bool(x), GmdValue::Bool(y)) => x == y,
        (GmdValue::Str(x), GmdValue::Str(y)) => x == y,
        (GmdValue::Int(x), GmdValue::Int(y)) => x == y,
        (GmdValue::Real(x), GmdValue::Real(y)) => x == y,
        (GmdValue::Dict(x), GmdValue::Dict(y)) => {
            x.len() == y.len()
                && x.iter().all(|(k, v)| y.iter().any(|(k2, v2)| k == k2 && same(v, v2)))
        },
        _ => false,
    }
}

#[test]
fn read_gmd() {
    let gmd = br#"<?xml version="1.0"?><plist version="1.0" gjver="2.0"><dict><k>awawa</k><i>68</i><k>auaua</k><t /><k>avava</k><f /><k>ayaya</k><s>:]</s></dict></plist>"#;

    let read = gmd_from_bytes(&gmd[..]).unwrap();
    println!("{:?}", read);
    let expected = dict(vec![
        ("awawa", GmdValue::Int(68)),
        ("auaua", GmdValue::Bool(true)),
        ("avava", GmdValue::Bool(false)),
        ("ayaya", GmdValue::Str(":]".to_string())),
    ]);
    assert!(same(&read, &expected));

    let write = gmd_to_bytes(read).unwrap();
    println!("{}", std::str::from_utf8(&write).unwrap());
    assert!(same(&gmd_from_bytes(&write).unwrap(), &expected));
}

#[test]
fn gmd_written_form() {
    let v = dict(vec![("a", GmdValue::Int(-5)), ("b", GmdValue::Bool(true))]);
    let bytes = gmd_to_bytes(v).unwrap();
    assert_eq!(
        std::str::from_utf8(&bytes).unwrap(),
        r#"<?xml version="1.0"?><plist version="1.0" gjver="2.0"><d><k>a</k><i>-5</i><k>b</k><t /></d></plist>"#
    );
}

#[test]
fn gmd_round_trip_nested() {
    let v = dict(vec![
        ("s", GmdValue::Str("a <b> & 'c' \"d\"".to_string())),
        ("e", GmdValue::Str(String::new())),
        ("r", GmdValue::Real("1.5e-3".to_string())),
        ("n", GmdValue::Int(i32::MIN)),
        ("d", dict(vec![("x", GmdValue::Bool(false)), ("y", dict(vec![]))])),
    ]);
    let bytes = gmd_to_bytes(dict(vec![
        ("s", GmdValue::Str("a <b> & 'c' \"d\"".to_string())),
        ("e", GmdValue::Str(String::new())),
        ("r", GmdValue::Real("1.5e-3".to_string())),
        ("n", GmdValue::Int(i32::MIN)),
        ("d", dict(vec![("x", GmdValue::Bool(false)), ("y", dict(vec![]))])),
    ]))
    .unwrap();
    assert!(same(&gmd_from_bytes(&bytes).unwrap(), &v));
}

#[test]
fn gmd_bare_value_and_long_tags() {
    assert!(same(&gmd_from_bytes(b"<integer>12</integer>").unwrap(), &GmdValue::Int(12)));
    assert!(same(&gmd_from_bytes(b"<true/>").unwrap(), &GmdValue::Bool(true)));
    let v = gmd_from_bytes(b"<plist><dictionary><key>a</key><string>b</string><k>a</k><real>2.5</real></dictionary></plist>").unwrap();
    assert!(same(&v, &dict(vec![("a", GmdValue::Real("2.5".to_string()))])));
}

#[test]
fn gmd_comments_are_skipped() {
    let v = gmd_from_bytes(b"<!-- c --><d><!-- c --><k>a</k><i>1</i></d>").unwrap();
    assert!(same(&v, &dict(vec![("a", GmdValue::Int(1))])));
}

#[test]
fn gmd_invalid_int_and_real() {
    assert!(matches!(gmd_from_bytes(b"<i>x1</i>"), Err(GmdError::InvalidInt(t)) if t == "x1"));
    assert!(matches!(gmd_from_bytes(b"<i>99999999999</i>"), Err(GmdError::InvalidInt(_))));
    assert!(matches!(gmd_from_bytes(b"<r>abc</r>"), Err(GmdError::InvalidReal(t)) if t == "abc"));
}

#[test]
fn gmd_format_errors() {
    assert!(matches!(gmd_from_bytes(b"<x/>"), Err(GmdError::Format(FormatError::Start(n))) if n == "x"));
    assert!(matches!(gmd_from_bytes(b"<d><i>1</i></d>"), Err(GmdError::Format(FormatError::Start(n))) if n == "i"));
    assert!(matches!(gmd_from_bytes(b"<d><k>a</k></d>"), Err(GmdError::Format(FormatError::End(n))) if n == "d"));
    assert!(matches!(gmd_from_bytes(b"<d><![CDATA[x]]></d>"), Err(GmdError::Format(FormatError::CData))));
    assert!(matches!(gmd_from_bytes(b"<d><?pi x?></d>"), Err(GmdError::Format(FormatError::PI))));
    assert!(matches!(gmd_from_bytes(b""), Err(GmdError::Format(FormatError::Eof))));
    assert!(matches!(gmd_from_bytes(b"<d>"), Err(GmdError::Format(FormatError::Eof))));
}

#[test]
fn gmd_text_excerpt_is_cut() {
    let r = gmd_from_bytes(b"<d>abcdefghijklmnopqrstuvwxyz</d>");
    assert!(matches!(r, Err(GmdError::Format(FormatError::Text(t))) if t == "abcdefghijklmnopq..."));
}

#[test]
fn gmd_reader_error_is_kept() {
    assert!(matches!(gmd_from_bytes(b"<d></x>"), Err(GmdError::Xml(_))));
}

#[test]
fn gmd_duplicate_key_last_wins() {
    let toks = vec![
        XmlToken::Start("d".to_string()),
        XmlToken::Start("k".to_string()),
        XmlToken::Text("a".to_string()),
        XmlToken::End("k".to_string()),
        XmlToken::Empty("t".to_string()),
        XmlToken::Start("k".to_string()),
        XmlToken::Text("a".to_string()),
        XmlToken::End("k".to_string()),
        XmlToken::Empty("f".to_string()),
        XmlToken::End("d".to_string()),
        XmlToken::Eof,
    ];
    let v = gmd_from_tokens(&toks).unwrap();
    assert!(same(&v, &dict(vec![("a", GmdValue::Bool(false))])));
}

#[test]
fn gmd_text_is_escaped_and_unescaped() {
    let bytes = gmd_to_bytes(GmdValue::Str("a<b&c".to_string())).unwrap();
    let text = std::str::from_utf8(&bytes).unwrap();
    assert!(text.contains("<s>a&lt;b&amp;c</s>"));
    let v = gmd_from_bytes(b"<s>x &amp; &lt;y&gt;</s>").unwrap();
    assert!(same(&v, &GmdValue::Str("x & <y>".to_string())));
}

#[test]
fn gmd_real_special_values() {
    for t in ["inf", "-Infinity", "NaN", "+1.5E3", ".5", "2."] {
        let doc = format!("<r>{t}</r>");
        assert!(same(&gmd_from_bytes(doc.as_bytes()).unwrap(), &GmdValue::Real(t.to_string())), "{t}");
    }
    for t in ["infin", "1e", "e5", "1.2.3", ""] {
        let doc = format!("<r>{t}</r>");
        assert!(matches!(gmd_from_bytes(doc.as_bytes()), Err(GmdError::InvalidReal(_))), "{t}");
    }
}

#[test]
fn gmd_invalid_utf8_is_reader_error() {
    assert!(matches!(gmd_from_bytes(b"<s>\xff</s>"), Err(GmdError::Xml(_))));
}
