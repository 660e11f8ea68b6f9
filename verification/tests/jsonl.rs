use danqing_logfile::jsonl::{
    cell_display, compact_prefix, compare_val, contains_ascii_ci, detect, discover_schema,
    extract_field, field_needle, field_value_matches, flatten, is_expandable, navigate,
    normalize_clause_keys, parse_line, parse_query, run_filter, run_filter_from, token_matches,
    value_width, Clause, Column, FieldExtractor, Op, Schema, SubRow, WIDTH_CLAMP,
};
use danqing_logfile::logfile::{Encoding, LogFile, Source};

fn open_with(content: &[u8]) -> LogFile<'_> {
    LogFile::open(Source::mapped(content, Encoding::Utf8, content.len() as u64, None, 0)).unwrap()
}

/// The bits of the number that a text is.
fn numeric(text: &[u8]) -> Option<u64> {
    let text = std::str::from_utf8(text).ok()?;
    text.parse::<f64>().ok().map(f64::to_bits)
}

fn filter(lf: &LogFile, query: &str) -> Vec<u64> {
    run_filter(lf, &parse_query(query), &numeric)
}

fn json(text: &str) -> serde_json::Value {
    serde_json::from_str(text).unwrap()
}

#[test]
fn detect_jsonl_true() {
    let lf = open_with(b"{\"a\":1}\n{\"a\":2,\"b\":\"x\"}\n{\"a\":3}\n{\"a\":4}\n");
    assert!(detect(&lf));
}

#[test]
fn detect_plain_log_false() {
    let lf = open_with(
        b"2026-09-05 INFO hello\n2026-09-05 INFO world\n2026-09-05 WARN x\n2026-09-05 INFO y\n",
    );
    assert!(!detect(&lf));
}

#[test]
fn detect_tolerates_some_bad_lines() {
    let mut content = String::new();
    for i in 0..9 {
        content.push_str(&format!("{{\"a\":{i}}}\n"));
    }
    content.push_str("not json\n");
    let lf = open_with(content.as_bytes());
    assert!(detect(&lf));
}

#[test]
fn schema_first_seen_order_and_widths() {
    let lf = open_with(
        b"{\"level\":\"INFO\",\"msg\":\"hi\",\"duration_ms\":12}\n{\"level\":\"ERROR\",\"msg\":\"a much longer message here\",\"status\":500}\n",
    );
    let s = discover_schema(&lf).expect("columns");
    let names: Vec<&str> = s.columns.iter().map(|c| c.name.as_str()).collect();
    assert_eq!(names, vec!["level", "msg", "duration_ms", "status"]);
    let msg = &s.columns[1];
    assert_eq!(msg.width_chars, 26, "{msg:?}");
    let status = &s.columns[3];
    assert_eq!(status.width_chars, 6, "{status:?}");
}

#[test]
fn extract_string_number_bool() {
    let line = br#"{"level":"ERROR","duration_ms":123,"ok":true,"ref":null}"#;
    assert_eq!(extract_field(line, "level"), Some(&b"ERROR"[..]));
    assert_eq!(extract_field(line, "duration_ms"), Some(&b"123"[..]));
    assert_eq!(extract_field(line, "ok"), Some(&b"true"[..]));
    assert_eq!(extract_field(line, "ref"), Some(&b"null"[..]));
    assert_eq!(extract_field(line, "missing"), None);
}

#[test]
fn extract_skips_escaped_quote_in_string() {
    let line = br#"{"msg":"say \"hi\" now","x":1}"#;
    assert_eq!(extract_field(line, "msg"), Some(&br#"say \"hi\" now"#[..]));
    assert_eq!(extract_field(line, "x"), Some(&b"1"[..]));
}

#[test]
fn extract_rejects_key_without_json_prefix() {
    let line = br#"log prefix "level":"ERROR" tail"#;
    assert_eq!(extract_field(line, "level"), None);
}

#[test]
fn parse_line_resolves_adversarial_embedded_key() {
    let line = br#"{"msg":"see ,\"key\":\"WRONG\" here","key":"RIGHT"}"#;
    let v = parse_line(line).expect("json");
    assert_eq!(cell_display(v.get("key").unwrap()), "RIGHT");
    assert_eq!(
        cell_display(v.get("msg").unwrap()),
        "see ,\"key\":\"WRONG\" here"
    );
}

#[test]
fn cell_display_compacts_nested_values() {
    let v = parse_line(br#"{"user":{"id":42},"tags":[1,2],"ok":true,"ref":null}"#).unwrap();
    assert_eq!(cell_display(v.get("user").unwrap()), "{\"id\":42}");
    assert_eq!(cell_display(v.get("tags").unwrap()), "[1,2]");
    assert_eq!(cell_display(v.get("ok").unwrap()), "true");
    assert_eq!(cell_display(v.get("ref").unwrap()), "null");
}

#[test]
fn flatten_nested_object_and_array() {
    let v = json(r#"{"level":"INFO","user":{"id":42,"name":"bob"},"tags":[7,8]}"#);
    let rows = flatten(&v);
    assert_eq!(
        rows,
        vec![
            SubRow {
                depth: 1,
                label: "user".into(),
                value: "{\"id\":42,\"name\":\"bob\"}".into()
            },
            SubRow {
                depth: 2,
                label: "id".into(),
                value: "42".into()
            },
            SubRow {
                depth: 2,
                label: "name".into(),
                value: "bob".into()
            },
            SubRow {
                depth: 1,
                label: "tags".into(),
                value: "[7,8]".into()
            },
            SubRow {
                depth: 2,
                label: "[0]".into(),
                value: "7".into()
            },
            SubRow {
                depth: 2,
                label: "[1]".into(),
                value: "8".into()
            },
        ]
    );
}

#[test]
fn flatten_top_level_scalars_are_columns_not_rows() {
    let v = parse_line(br#"{"level":"ERROR","msg":"x"}"#).unwrap();
    assert!(flatten(&v).is_empty());
}

#[test]
fn is_expandable_detects_nested_fields() {
    let v = parse_line(br#"{"user":{"id":1},"tags":[1,2]}"#).unwrap();
    assert!(is_expandable(&v));
    let flat = parse_line(br#"{"level":"ERROR","msg":"x"}"#).unwrap();
    assert!(!is_expandable(&flat));
}

#[test]
fn parse_query_splits_clauses() {
    let clauses = parse_query("level=ERROR status=50* slow");
    assert_eq!(
        clauses,
        vec![
            Clause::Field {
                path: vec!["level".into()],
                op: Op::Eq,
                value: "ERROR".into()
            },
            Clause::Field {
                path: vec!["status".into()],
                op: Op::Prefix,
                value: "50".into()
            },
            Clause::Bare("slow".into()),
        ]
    );
    let clauses = parse_query("user.id=42 status>=500 duration_ms>1000");
    assert_eq!(
        clauses,
        vec![
            Clause::Field {
                path: vec!["user".into(), "id".into()],
                op: Op::Eq,
                value: "42".into()
            },
            Clause::Field {
                path: vec!["status".into()],
                op: Op::GtEq,
                value: "500".into()
            },
            Clause::Field {
                path: vec!["duration_ms".into()],
                op: Op::Gt,
                value: "1000".into()
            },
        ]
    );
}

#[test]
fn field_value_match_is_case_insensitive() {
    let lf = open_with(
        br#"{"level":"INFO","msg":"ok"}
{"level":"ERROR","msg":"boom"}
{"level":"WARNING","msg":"slow"}
"#,
    );
    assert_eq!(filter(&lf, "level=error"), vec![1]);
    assert_eq!(filter(&lf, "level=Error"), vec![1]);
    assert_eq!(filter(&lf, "level=warn*"), vec![2]);
    assert_eq!(filter(&lf, "level=WARN*"), vec![2]);
    let num = open_with(b"{\"status\":500}\n{\"status\":\"error\"}\n");
    assert_eq!(filter(&num, "status>=500"), vec![0]);
}

#[test]
fn normalize_clause_keys_maps_to_real_column_name() {
    let schema = Schema {
        columns: vec![Column {
            name: "level".into(),
            width_chars: 5,
        }],
    };
    let field = |p: &str, v: &str| Clause::Field {
        path: vec![p.to_string()],
        op: Op::Eq,
        value: v.to_string(),
    };

    let mut c = parse_query("LEVEL=ERROR");
    normalize_clause_keys(&mut c, &schema);
    assert_eq!(c, vec![field("level", "ERROR")]);

    let mut c = parse_query("nosuch=1");
    normalize_clause_keys(&mut c, &schema);
    assert_eq!(c, vec![field("nosuch", "1")]);

    let mut c = parse_query("a.b=1");
    normalize_clause_keys(&mut c, &schema);
    assert_eq!(
        c,
        vec![Clause::Field {
            path: vec!["a".into(), "b".into()],
            op: Op::Eq,
            value: "1".into(),
        }]
    );

    let mut c = parse_query("ERROR");
    normalize_clause_keys(&mut c, &schema);
    assert_eq!(c, vec![Clause::Bare("ERROR".into())]);

    let lf = open_with(b"{\"level\":\"ERROR\"}\n{\"level\":\"INFO\"}\n");
    let mut c = parse_query("LEVEL=ERROR");
    normalize_clause_keys(&mut c, &schema);
    assert_eq!(run_filter(&lf, &c, &numeric), vec![0]);
}

#[test]
fn nested_key_stays_case_sensitive_but_value_does_not() {
    let lf = open_with(b"{\"user\":{\"Level\":\"ERROR\"}}\n");
    assert_eq!(filter(&lf, "user.Level=error"), vec![0]);
    assert_eq!(filter(&lf, "user.level=error"), Vec::<u64>::new());
}

#[test]
fn token_matches_eq_and_prefix() {
    assert!(token_matches(b"500", Op::Eq, "500", &numeric));
    assert!(!token_matches(b"500", Op::Eq, "50", &numeric));
    assert!(token_matches(b"500", Op::Prefix, "50", &numeric));
    assert!(token_matches(b"502", Op::Prefix, "50", &numeric));
    assert!(!token_matches(b"200", Op::Prefix, "50", &numeric));
    assert!(token_matches(b"ERROR", Op::Eq, "ERROR", &numeric));
    assert!(!token_matches(b"ERRORS", Op::Eq, "ERROR", &numeric));
}

#[test]
fn navigate_dot_path_and_array() {
    let v = json(r#"{"user":{"id":42,"tags":[7,8]}}"#);
    let p = |s: &str| s.split('.').map(String::from).collect::<Vec<_>>();
    assert_eq!(navigate(&v, &p("user")).unwrap()["id"].as_i64(), Some(42));
    assert_eq!(navigate(&v, &p("user.id")).unwrap().as_i64(), Some(42));
    assert_eq!(navigate(&v, &p("user.tags.1")).unwrap().as_i64(), Some(8));
    assert!(navigate(&v, &p("user.nope")).is_none());
    assert!(navigate(&v, &p("nope.id")).is_none());
}

#[test]
fn compare_val_operators_and_boundaries() {
    assert!(compare_val(&json("500"), Op::GtEq, "500", &numeric));
    assert!(compare_val(&json("501"), Op::Gt, "500", &numeric));
    assert!(!compare_val(&json("500"), Op::Gt, "500", &numeric));
    assert!(compare_val(&json("-5"), Op::Lt, "0", &numeric));
    assert!(compare_val(&json("1.5"), Op::Lt, "2", &numeric));
    assert!(compare_val(&json("42"), Op::Eq, "42", &numeric));
    assert!(!compare_val(
        &serde_json::Value::String("500".into()),
        Op::Gt,
        "0",
        &numeric
    ));
}

#[test]
fn filter_dot_path_and_comparison() {
    let lf = open_with(
        br#"{"user":{"id":42},"status":500}
{"user":{"id":7},"status":200}
{"user":{"id":99},"status":503}
{"user":{"id":42},"status":501}
"#,
    );
    assert_eq!(filter(&lf, "user.id=42"), vec![0, 3]);
    assert_eq!(filter(&lf, "status>=500"), vec![0, 2, 3]);
    assert_eq!(filter(&lf, "user.id=42 status>=500"), vec![0, 3]);
    assert_eq!(filter(&lf, "user.id=4*"), vec![0, 3]);
}

#[test]
fn field_value_matches_scans_all_occurrences() {
    let line = br#"{"order":{"id":7},"user":{"id":42}}"#;
    let needle = field_needle("id");
    assert!(field_value_matches(line, &needle, Op::Eq, "42", &numeric));
    assert!(!field_value_matches(line, &needle, Op::Eq, "99", &numeric));
    let v = parse_line(line).unwrap();
    assert_eq!(
        navigate(&v, &["user".into(), "id".into()])
            .unwrap()
            .as_i64(),
        Some(42)
    );
}

#[test]
fn run_filter_from_matches_full() {
    let lf = open_with(
        br#"{"level":"INFO","msg":"a"}
{"level":"ERROR","msg":"b"}
{"level":"INFO","msg":"c"}
{"level":"ERROR","msg":"d"}
{"level":"ERROR","msg":"e"}
"#,
    );
    let clauses = parse_query("level=ERROR");
    let full = run_filter(&lf, &clauses, &numeric);
    assert_eq!(full, vec![1, 3, 4]);
    assert_eq!(run_filter_from(&lf, &clauses, 0, &numeric), full);
    assert_eq!(run_filter_from(&lf, &clauses, 3, &numeric), vec![3, 4]);
    assert_eq!(
        run_filter_from(&lf, &clauses, 99, &numeric),
        Vec::<u64>::new()
    );
}

#[test]
fn field_extractor_matches_extract_field() {
    let fx = FieldExtractor::new("level");
    let corpora: Vec<&[u8]> = vec![
        br#"{"level":"ERROR","msg":"a"}"#,
        br#"{"msg":"a","level":"INFO"}"#,
        br#"{"nested":{"level":"WARN"},"level":"DEBUG"}"#,
        br#"{"msg":"x ,"level":"ERROR" y","level":"INFO"}"#,
        br#"{"level":"error"}"#,
        br#"{"levelx":"INFO"}"#,
        br#"{"a":1}"#,
        b"",
        b"plain text",
        br#"{"level":"ERROR"}"#,
        br#"{"level":"ERROR1","level":"WARN"}"#,
        br#"{"level":123}"#,
        br#"{"level":null}"#,
        br#"  {"level" : "TRACE"}  "#,
    ];
    for &c in &corpora {
        assert_eq!(
            fx.extract(c),
            extract_field(c, "level"),
            "{:?}",
            String::from_utf8_lossy(c)
        );
    }
    let fs = FieldExtractor::new("severity");
    for &c in &corpora {
        assert_eq!(fs.extract(c), extract_field(c, "severity"));
    }
}

#[test]
fn schema_sampling_stops_at_byte_budget() {
    let big = "x".repeat(1024 * 1024);
    let mut content = Vec::new();
    for i in 0..40 {
        let extra = if i == 30 { r#","late":"y""# } else { "" };
        content.extend_from_slice(
            format!(r#"{{"ts":"T","level":"INFO"{extra},"blob":"{big}"}}"#).as_bytes(),
        );
        content.push(b'\n');
    }
    let f = open_with(&content);
    let s = discover_schema(&f).expect("schema");
    for want in ["ts", "level", "blob"] {
        assert!(s.columns.iter().any(|c| c.name == want), "{want}");
    }
    assert!(!s.columns.iter().any(|c| c.name == "late"));
}

#[test]
fn bounded_value_width_equals_unbounded_after_clamp() {
    fn unbounded(v: &serde_json::Value) -> usize {
        match v {
            serde_json::Value::String(s) => s.chars().count(),
            other => other.to_string().chars().count(),
        }
    }
    let mut deep = serde_json::Map::new();
    deep.insert("deep".to_string(), serde_json::Value::from("y".repeat(40_000)));
    let mut nested = serde_json::Map::new();
    nested.insert("nested".to_string(), serde_json::Value::Object(deep));
    let cases = vec![
        serde_json::Value::from(""),
        serde_json::Value::from("a"),
        serde_json::Value::from("exactly-thirty-two-chars-long!"),
        serde_json::Value::from("x".repeat(50_000)),
        serde_json::Value::from("日本語のテキスト"),
        json("1"),
        json("true"),
        json("null"),
        serde_json::Value::from(12345678901234567890u64),
        json("{}"),
        json("[]"),
        json(r#"{"a": 1}"#),
        json("[1, 2, 3]"),
        json(r#"{"k": "日本語"}"#),
        serde_json::Value::Object(nested),
        serde_json::Value::from((0..500).collect::<Vec<i32>>()),
    ];
    for v in cases {
        let want = unbounded(&v).clamp(4, WIDTH_CLAMP);
        let got = value_width(&v).clamp(4, WIDTH_CLAMP);
        assert_eq!(got, want, "{v}");
    }
}

#[test]
fn compact_prefix_is_exact_when_it_fits() {
    let p = |v: &serde_json::Value, cap: usize| {
        compact_prefix(v, cap).map(|b| String::from_utf8_lossy(&b).into_owned())
    };
    assert_eq!(
        p(&json(r#"{"a": 1}"#), 256).as_deref(),
        Some(r#"{"a":1}"#)
    );
    assert_eq!(p(&json("[1, 2]"), 256).as_deref(), Some("[1,2]"));
    assert_eq!(p(&json(r#""s""#), 256).as_deref(), Some(r#""s""#));
    let mut map = serde_json::Map::new();
    map.insert("k".to_string(), serde_json::Value::from("y".repeat(1000)));
    assert!(p(&serde_json::Value::Object(map), 16).is_none());
}

#[test]
fn filter_field_and_bare() {
    let lf = open_with(
        br#"{"level":"INFO","msg":"fast"}
{"level":"ERROR","msg":"slow query"}
{"level":"ERROR","msg":"fast"}
{"level":"WARN","msg":"slow disk"}
"#,
    );
    assert_eq!(filter(&lf, "level=ERROR"), vec![1, 2]);
    assert_eq!(filter(&lf, "level=ERROR slow"), vec![1]);
    assert_eq!(filter(&lf, "level=ERR*"), vec![1, 2]);
    let hits = run_filter(&lf, &[], &numeric);
    assert_eq!(hits.len(), 4);
}

#[test]
fn bare_word_is_case_insensitive() {
    let lf = open_with(
        b"2026-09-05 ERROR boom\n\
          2026-09-05 error soft\n\
          2026-09-05 Error Mixed\n\
          2026-09-05 WARN ok\n",
    );
    for q in ["error", "ERROR", "Error", "eRrOr"] {
        assert_eq!(filter(&lf, q), vec![0, 1, 2], "{q}");
    }
    assert_eq!(filter(&lf, "error boom"), vec![0]);
}

#[test]
fn bare_word_does_not_fold_across_multibyte_bytes() {
    let content = [
        0xE9, b'r', b'r', b'o', b'r', b'\n', b'E', b'R', b'R', b'O', b'R', b'\n',
    ];
    let lf = open_with(&content);
    assert_eq!(filter(&lf, "error"), vec![1]);
    let lf = open_with("中文error日志\n纯汉字一行\n".as_bytes());
    assert_eq!(filter(&lf, "中文"), vec![0]);
    assert_eq!(filter(&lf, "汉字"), vec![1]);
    assert_eq!(filter(&lf, "ERROR"), vec![0]);
}

/// The pattern of a byte string with both cases of each ASCII letter.
fn ci_oracle(needle: &[u8]) -> regex::bytes::Regex {
    let mut pat = String::from("(?-u)");
    for &b in needle {
        if b.is_ascii_alphabetic() {
            let lo = b.to_ascii_lowercase() as char;
            let up = b.to_ascii_uppercase() as char;
            pat.push_str(&format!("[{lo}{up}]"));
        } else {
            pat.push_str(&format!("\\x{b:02X}"));
        }
    }
    regex::bytes::Regex::new(&pat).unwrap()
}

/// All strings of a length over an alphabet.
fn all_strings(alphabet: &[u8], len: usize) -> Vec<Vec<u8>> {
    let mut out = vec![Vec::new()];
    for _ in 0..len {
        let mut next = Vec::with_capacity(out.len() * alphabet.len());
        for s in &out {
            for &b in alphabet {
                let mut t: Vec<u8> = s.clone();
                t.push(b);
                next.push(t);
            }
        }
        out = next;
    }
    out
}

#[test]
fn contains_ascii_ci_matches_regex_oracle_exhaustively() {
    const ALPHABET: [u8; 5] = [b'a', b'A', b'b', b'B', 0xE9];
    let mut haystacks = Vec::new();
    for n in 0..=4 {
        haystacks.extend(all_strings(&ALPHABET, n));
    }
    let mut needles = Vec::new();
    for n in 0..=2 {
        needles.extend(all_strings(&ALPHABET, n));
    }
    let mut checked = 0usize;
    for nd in &needles {
        let oracle = ci_oracle(nd);
        for h in &haystacks {
            assert_eq!(
                contains_ascii_ci(h, nd),
                oracle.is_match(h),
                "haystack={h:?} needle={nd:?}"
            );
            checked += 1;
        }
    }
    assert!(checked > 20_000, "{checked}");
}

#[test]
fn contains_ascii_ci_edge_cases() {
    assert!(contains_ascii_ci(b"anything", b""));
    assert!(contains_ascii_ci(b"", b""));
    assert!(!contains_ascii_ci(b"", b"a"));
    assert!(!contains_ascii_ci(b"ab", b"abc"));
    assert!(contains_ascii_ci(b"ERROR level", b"error"));
    assert!(contains_ascii_ci(b"error level", b"ERROR"));
    assert!(contains_ascii_ci(b"Error", b"eRRoR"));
    assert!(!contains_ascii_ci(b"ERRO level", b"ERROR"));
    assert!(contains_ascii_ci(b"xxERR", b"err"));
    assert!(contains_ascii_ci(b"ERR", b"err"));
    assert!(contains_ascii_ci(b"aab", b"ab"));
    assert!(contains_ascii_ci(b"aaaab", b"aaab"));
    assert!(!contains_ascii_ci(&[0xC9], &[0xE9]));
    assert!(contains_ascii_ci(&[0xC3, 0x89], &[0xC3, 0x89]));
    assert!(contains_ascii_ci("中文error日志".as_bytes(), b"ERROR"));
    assert!(!contains_ascii_ci("中文日志".as_bytes(), b"error"));
}
