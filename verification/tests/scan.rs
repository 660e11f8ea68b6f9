use danqing_logfile::scan::{scan_field, FieldKind};

#[test]
fn finds_top_level_flat_field() {
    let v = scan_field(br#"{"level":"ERROR","duration_ms":42}"#, "level").unwrap();
    assert_eq!(v.kind, FieldKind::Str);
    assert_eq!(v.raw, b"ERROR");
    assert!(!v.has_escapes);
}

#[test]
fn nested_same_name_key_is_not_matched() {
    let line = br#"{"user":{"status":200},"ok":true}"#;
    assert_eq!(scan_field(line, "status"), None);
    let line = br#"{"status":200,"user":{"status":999}}"#;
    let v = scan_field(line, "status").unwrap();
    assert_eq!(v.kind, FieldKind::Num);
    assert_eq!(v.raw, b"200");
}

#[test]
fn fake_key_inside_string_value_is_not_matched() {
    let line = br#"{"msg":"boom ,\"level\":\"FATAL\" here","level":"INFO"}"#;
    let v = scan_field(line, "level").unwrap();
    assert_eq!(v.raw, b"INFO");
}

#[test]
fn escaped_quotes_and_unicode_in_value() {
    let line = r#"{"msg":"他说 \"你好\" A中","level":"WARN"}"#.as_bytes();
    let v = scan_field(line, "msg").unwrap();
    assert_eq!(v.kind, FieldKind::Str);
    assert!(v.has_escapes);
    let mut token = Vec::new();
    token.push(b'"');
    token.extend_from_slice(v.raw);
    token.push(b'"');
    let s: String = serde_json::from_slice(&token).unwrap();
    assert_eq!(s, "他说 \"你好\" A中");
    let v = scan_field(line, "level").unwrap();
    assert_eq!(v.raw, b"WARN");
    assert!(!v.has_escapes);
}

#[test]
fn numbers_negative_float_scientific() {
    let line = br#"{"a":-3.5,"b":1.2e4,"c":0}"#;
    assert_eq!(scan_field(line, "a").unwrap().raw, b"-3.5");
    assert_eq!(scan_field(line, "b").unwrap().raw, b"1.2e4");
    assert_eq!(scan_field(line, "c").unwrap().raw, b"0");
}

#[test]
fn bool_null_nested_kinds() {
    let line = br#"{"ok":false,"err":null,"cfg":{"a":1},"tags":["x"]}"#;
    assert_eq!(scan_field(line, "ok").unwrap().kind, FieldKind::Bool);
    assert_eq!(scan_field(line, "err").unwrap().kind, FieldKind::Null);
    assert_eq!(scan_field(line, "cfg").unwrap().kind, FieldKind::Nested);
    assert_eq!(scan_field(line, "tags").unwrap().kind, FieldKind::Nested);
}

#[test]
fn truncated_line_returns_none() {
    assert_eq!(scan_field(br#"{"level":"ERR"#, "level"), None);
    assert_eq!(scan_field(br#"{"level":"#, "level"), None);
    assert_eq!(scan_field(b"", "level"), None);
}

#[test]
fn root_array_has_no_top_level_keys() {
    assert_eq!(scan_field(br#"[{"level":"ERROR"}]"#, "level"), None);
}

#[test]
fn key_with_whitespace_around_colon() {
    let line = b"{ \"level\" : \"DEBUG\" }";
    let v = scan_field(line, "level").unwrap();
    assert_eq!(v.raw, b"DEBUG");
}

/// A deterministic pseudorandom generator.
struct Rng(u64);

impl Rng {
    fn next(&mut self) -> u64 {
        self.0 ^= self.0 << 13;
        self.0 ^= self.0 >> 7;
        self.0 ^= self.0 << 17;
        self.0
    }

    fn below(&mut self, n: u64) -> u64 {
        self.next() % n
    }
}

/// A random flat object, written by the serializer.
fn random_line(rng: &mut Rng, fields: &[&str]) -> String {
    let mut map = serde_json::Map::new();
    for _ in 0..1 + rng.below(6) {
        let f = fields[rng.below(fields.len() as u64) as usize];
        if map.contains_key(f) {
            continue;
        }
        let val = match rng.below(7) {
            0 => serde_json::Value::Null,
            1 => serde_json::Value::from(rng.below(2) == 0),
            2 => serde_json::Value::from(rng.next() as f64 / 97.0 - 500.0),
            3 => serde_json::Value::from(rng.below(600) as i64 - 300),
            4 => serde_json::Value::from(format!("值{} with space", rng.below(50))),
            5 => serde_json::Value::from(format!("esc \"q\" \\ \n {}", rng.below(50))),
            _ => {
                let mut nested = serde_json::Map::new();
                nested.insert("nested".to_string(), serde_json::Value::from(f));
                serde_json::Value::Object(nested)
            }
        };
        map.insert(f.to_string(), val);
    }
    serde_json::Value::Object(map).to_string()
}

/// What the scan finds is what parsing the line finds.
fn assert_eq_serde(line: &str, key: &str) {
    let parsed: serde_json::Value = serde_json::from_str(line).unwrap();
    let expect = parsed.as_object().and_then(|m| m.get(key));
    let got = scan_field(line.as_bytes(), key);
    match (expect, got) {
        (None, None) => {}
        (Some(v), Some(fv)) => match v {
            serde_json::Value::Number(n) => {
                assert_eq!(fv.kind, FieldKind::Num, "{line} key={key}");
                let text = std::str::from_utf8(fv.raw).unwrap();
                if n.is_i64() || n.is_u64() {
                    assert_eq!(text, n.to_string(), "{line} key={key}");
                } else {
                    let a: f64 = text.parse().unwrap();
                    let b = n.as_f64().unwrap();
                    let tol = b.abs() * 1e-15 + f64::MIN_POSITIVE;
                    assert!((a - b).abs() <= tol, "{line} key={key}: {a} vs {b}");
                }
            }
            serde_json::Value::String(s) => {
                assert_eq!(fv.kind, FieldKind::Str, "{line} key={key}");
                let mut token = Vec::new();
                token.push(b'"');
                token.extend_from_slice(fv.raw);
                token.push(b'"');
                let back: String = serde_json::from_slice(&token)
                    .unwrap_or_else(|e| panic!("{e}: {line} key={key}"));
                assert_eq!(&back, s, "{line} key={key}");
            }
            serde_json::Value::Bool(_) => assert_eq!(fv.kind, FieldKind::Bool),
            serde_json::Value::Null => assert_eq!(fv.kind, FieldKind::Null),
            serde_json::Value::Array(_) | serde_json::Value::Object(_) => {
                assert_eq!(fv.kind, FieldKind::Nested, "{line} key={key}")
            }
        },
        (expect, got) => panic!("serde={expect:?} scan={got:?} line={line} key={key}"),
    }
}

#[test]
fn differential_against_serde_random_lines() {
    let fields = ["level", "status", "duration_ms", "msg", "user"];
    let mut rng = Rng(0x9e3779b97f4a7c15);
    for _ in 0..3000 {
        let line = random_line(&mut rng, &fields);
        for f in fields {
            assert_eq_serde(&line, f);
        }
    }
}

#[test]
fn first_of_two_keys_counts() {
    let line = br#"{"a":1,"a":2}"#;
    assert_eq!(scan_field(line, "a").unwrap().raw, b"1");
}

#[test]
fn words_that_begin_like_a_literal_are_no_value() {
    assert_eq!(scan_field(br#"{"a":trie}"#, "a"), None);
    assert_eq!(scan_field(br#"{"a":fals"#, "a"), None);
    assert_eq!(scan_field(br#"{"a":nul"#, "a"), None);
    assert_eq!(scan_field(br#"{"a":x}"#, "a"), None);
    assert_eq!(scan_field(br#"{"a":true"#, "a").unwrap().raw, b"true");
    assert_eq!(scan_field(br#"{"a":null}"#, "a").unwrap().raw, b"null");
}

#[test]
fn escaped_quote_before_the_end_leaves_a_string_open() {
    assert_eq!(scan_field(br#"{"a":"x\"#, "a"), None);
    assert_eq!(scan_field(br#"{"a":"x\""#, "a"), None);
    assert_eq!(scan_field(br#"{"a":"x\\""#, "a").unwrap().raw, br"x\\");
}

#[test]
fn unclosed_string_before_the_key_hides_it() {
    assert_eq!(scan_field(br#"{"b":"open ,"a":1}"#, "a"), None);
}
