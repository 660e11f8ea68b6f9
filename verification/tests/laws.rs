use danqing_logfile::append::append_index;
use danqing_logfile::chunk::{
    chunk_bounds, index_threads, scan_chunk, MAX_INDEX_THREADS, PARALLEL_MIN_BYTES,
};
use danqing_logfile::index::{assemble, build_index_parallel, build_line_index_with};
use danqing_logfile::jsonl::{
    are_mostly_objects, cell_display, compact_prefix, compare_numbers, compare_val, detect,
    discover_schema, extract_field, field_needle, field_value_matches, filter_range,
    finish_schema, flatten, is_expandable, join_hits, merge_fields, navigate,
    normalize_clause_keys, parse_clause, parse_line, parse_query, plan_filter, run_filter,
    run_filter_from, starts_with_ascii_ci, token_matches, value_width, Clause, Column, Op, Schema,
};
use danqing_logfile::lines::read_line;
use danqing_logfile::logfile::{
    fnv_head, Encoding, IndexError, IndexHooks, LogFile, SearchError, Source,
};
use danqing_logfile::number::{is_at_most, is_less};
use danqing_logfile::scan::{read_value, scan_field, FieldKind};
use std::sync::atomic::AtomicBool;
use std::sync::Arc;

fn source(content: &[u8]) -> Source<'_> {
    Source::mapped(content, Encoding::Utf8, content.len() as u64, None, 0)
}

fn open_with(content: &[u8]) -> LogFile<'_> {
    LogFile::open(source(content)).unwrap()
}

fn regex(pattern: &str) -> regex::bytes::Regex {
    regex::bytes::Regex::new(pattern).unwrap()
}

fn numeric(text: &[u8]) -> Option<u64> {
    let text = std::str::from_utf8(text).ok()?;
    text.parse::<f64>().ok().map(f64::to_bits)
}

fn json(text: &str) -> serde_json::Value {
    serde_json::from_str(text).unwrap()
}

#[test]
fn fnv_has_its_known_values() {
    assert_eq!(fnv_head(b""), 0xcbf29ce484222325);
    assert_eq!(fnv_head(b"a"), 0xaf63dc4c8601ec8c);
    assert_eq!(fnv_head(b"foobar"), 0x85944171f73967e8);
}

#[test]
fn chunks_cover_all_bytes() {
    assert_eq!(chunk_bounds(0, 4), vec![]);
    assert_eq!(chunk_bounds(10, 4), vec![(0, 3), (3, 6), (6, 9), (9, 10)]);
    assert_eq!(chunk_bounds(9, 4), vec![(0, 3), (3, 6), (6, 9)]);
    assert_eq!(chunk_bounds(5, 1), vec![(0, 5)]);
    assert_eq!(chunk_bounds(2, 8), vec![(0, 1), (1, 2)]);
}

#[test]
fn small_files_are_scanned_in_one_chunk() {
    assert_eq!(index_threads(PARALLEL_MIN_BYTES - 1, 16), 1);
    assert_eq!(index_threads(PARALLEL_MIN_BYTES, 16), MAX_INDEX_THREADS);
    assert_eq!(index_threads(PARALLEL_MIN_BYTES, 3), 3);
    assert_eq!(index_threads(PARALLEL_MIN_BYTES, 0), 1);
}

#[test]
fn scans_of_chunks_meet_in_one_index() {
    let data = b"one\ntwo\nthree\nfour\n";
    let hooks = IndexHooks::default();
    let bounds = chunk_bounds(data.len(), 3);
    let mut scans = Vec::new();
    for (k, &(start, end)) in bounds.iter().enumerate() {
        scans.push(scan_chunk(
            &data[start..end],
            start as u64,
            k == 0,
            data.len() as u64,
            &hooks,
        ));
    }
    assert_eq!(scans.iter().map(|s| s.count).collect::<Vec<_>>(), vec![2, 2, 0]);
    assert_eq!(scans[0].strides, vec![0]);
    assert_eq!(scans[1].strides, vec![8]);
    assert_eq!(scans.iter().map(|s| s.reported).sum::<u64>(), 19);
    let mut cut_short = scans.clone();
    let index = assemble(data, &bounds, scans).unwrap();
    assert_eq!(index.line_count, 4);
    assert_eq!(index.reported, 19);
    assert_eq!(index.line(data, 2), b"three");
    cut_short[1].complete = false;
    cut_short[1].reported = 0;
    assert_eq!(
        assemble(data, &bounds, cut_short).err(),
        Some(IndexError::Cancelled { reported: 12 })
    );
}

#[test]
fn chunks_shorter_than_the_mark_find_the_same_lines() {
    let data = b"\xEF\xBB\xBFx\ny";
    let hooks = IndexHooks::default();
    for threads in 1..10 {
        let index = build_index_parallel(data, threads, &hooks).unwrap();
        assert_eq!(index.line_count, 2);
        assert_eq!(index.line(data, 0), b"x");
        assert_eq!(index.line(data, 1), b"y");
        assert_eq!(index.reported, 6);
    }
}

#[test]
fn every_eighth_line_start_is_recorded() {
    let data: Vec<u8> = b"x\n".repeat(20);
    let index = build_line_index_with(&data, 1, &IndexHooks::default()).unwrap();
    assert_eq!(index.segments[0].strides, vec![0, 16, 32]);
    assert_eq!(index.resident_bytes(), 24);
}

#[test]
fn cancelled_scan_stops_at_its_first_checkpoint() {
    let data: Vec<u8> = b"0123456\n".repeat(2 << 20);
    let hooks = IndexHooks {
        progress: None,
        cancel: Some(Arc::new(AtomicBool::new(true))),
    };
    let scan = scan_chunk(&data, 0, true, data.len() as u64, &hooks);
    assert!(!scan.complete);
    assert!(scan.reported < data.len() as u64);
    assert_eq!(
        build_index_parallel(&data, 1, &hooks).err(),
        Some(IndexError::Cancelled {
            reported: scan.reported
        })
    );
    // The first newline at or behind the checkpoint distance, at byte 7 of each line.
    assert_eq!(scan.reported, (8 << 20) + 7);
    assert_eq!(scan.count, (1 << 20) + 2);
    let short = scan_chunk(b"a\nb", 0, true, 3, &hooks);
    assert!(!short.complete);
    assert_eq!(short.reported, 0);
}

#[test]
fn offsets_fall_into_their_lines() {
    let lf = open_with(b"\xEF\xBB\xBFab\n\ncd");
    assert_eq!(lf.line_count(), 3);
    assert_eq!(lf.line_of_offset(0), 0);
    assert_eq!(lf.line_of_offset(3), 0);
    assert_eq!(lf.line_of_offset(5), 0);
    assert_eq!(lf.line_of_offset(6), 1);
    assert_eq!(lf.line_of_offset(7), 2);
    assert_eq!(lf.line_of_offset(1000), 2);
}

#[test]
fn lines_hold_no_line_end() {
    assert_eq!(read_line(b"a\r\nb", 0), (&b"a"[..], 2));
    assert_eq!(read_line(b"a\r\nb", 3), (&b"b"[..], 4));
    assert_eq!(read_line(b"a\rb\n", 0), (&b"a\rb"[..], 3));
    assert_eq!(read_line(b"\r", 0), (&b""[..], 1));
    assert_eq!(read_line(b"", 0), (&b""[..], 0));
}

#[test]
fn byte_order_mark_alone_is_an_empty_line() {
    let lf = open_with(b"\xEF\xBB\xBF");
    assert_eq!(lf.line_count(), 1);
    assert_eq!(lf.line(0), b"");
}

#[test]
fn mark_completed_by_growth_is_seen() {
    let grown = b"\xEF\xBB\xBFhello\nb";
    let hooks = IndexHooks::default();
    for len in 0..8 {
        let lf = open_with(&grown[..len]);
        let appended = LogFile::append_from(&lf, source(grown)).unwrap();
        assert_eq!(appended.line_count(), 2);
        assert_eq!(appended.line(0), b"hello");
        assert_eq!(appended.line(1), b"b");
        let old = build_line_index_with(&grown[..len], 1, &hooks).unwrap();
        let index = append_index(&old, &grown[..len], grown, &hooks).unwrap();
        assert_eq!(index.segments.len(), 1);
        assert_eq!(index.segments[0].strides, vec![3]);
        assert_eq!(index.reported, (grown.len() - len) as u64);
    }
    let plain = LogFile::append_from(&open_with(b"\xEF"), source(b"\xEFa\n")).unwrap();
    assert_eq!(plain.line(0), b"\xEFa");
}

#[test]
fn searches_of_no_lines_fail_where_a_line_is_asked_for() {
    let empty = open_with(b"");
    assert_eq!(empty.search(&regex(""), 10).err(), Some(SearchError::NoLines));
    assert_eq!(empty.search(&regex(""), 0).unwrap().total, 1);
    assert_eq!(empty.search(&regex("x"), 10).unwrap().total, 0);
    let lf = open_with(b"abc\n");
    assert_eq!(lf.search(&regex(""), 10).unwrap().lines, vec![0]);
}

#[test]
fn search_lists_the_lines_of_matches_upwards() {
    let lf = open_with(b"b a\na b a\n\na\n");
    let hits = lf.search(&regex("a"), 10).unwrap();
    assert_eq!(hits.lines, vec![0, 1, 3]);
    assert_eq!(hits.total, 4);
    let hits = lf.search(&regex("a"), 2).unwrap();
    assert_eq!(hits.lines, vec![0, 1]);
    assert_eq!(hits.total, 4);
    let hits = lf.search_matches(&vec![0, 2, 4, 8, 11], 2);
    assert_eq!(hits.lines, vec![0, 1]);
    assert_eq!(hits.total, 5);
}

#[test]
fn numbers_are_ordered_by_their_bits() {
    let xs = [-2.5f64, -1e-300, 0.0, 5e-324, 1.0, 1.5, 1e300, f64::INFINITY];
    for a in xs {
        for b in xs {
            assert_eq!(is_less(a.to_bits(), b.to_bits()), a < b, "{a} {b}");
            assert_eq!(is_at_most(a.to_bits(), b.to_bits()), a <= b, "{a} {b}");
        }
    }
    assert!(is_at_most((-0.0f64).to_bits(), 0.0f64.to_bits()));
    assert!(!is_less((-0.0f64).to_bits(), 0.0f64.to_bits()));
    assert!(!is_at_most(f64::NAN.to_bits(), f64::NAN.to_bits()));
    assert!(!is_less(0, f64::NAN.to_bits()));
}

#[test]
fn comparisons_need_two_numbers() {
    let one = Some(1.0f64.to_bits());
    let two = Some(2.0f64.to_bits());
    assert!(compare_numbers(Op::Lt, one, two));
    assert!(compare_numbers(Op::LtEq, one, one));
    assert!(compare_numbers(Op::Gt, two, one));
    assert!(!compare_numbers(Op::Gt, one, one));
    assert!(compare_numbers(Op::GtEq, one, one));
    assert!(!compare_numbers(Op::Lt, None, two));
    assert!(!compare_numbers(Op::Lt, one, None));
    assert!(!compare_numbers(Op::Eq, one, one));
    assert!(token_matches(b"1e3", Op::Gt, "999.5", &numeric));
    assert!(!token_matches(b"abc", Op::Gt, "0", &numeric));
    assert!(!token_matches(b"5", Op::Gt, "abc", &numeric));
}

#[test]
fn prefixes_ignore_the_case_of_ascii_letters() {
    assert!(starts_with_ascii_ci(b"WARNING", b"warn"));
    assert!(starts_with_ascii_ci(b"warn", b"WARN"));
    assert!(!starts_with_ascii_ci(b"war", b"warn"));
    assert!(!starts_with_ascii_ci(b"[arn", b"{arn"));
    assert!(starts_with_ascii_ci(b"x", b""));
}

#[test]
fn fields_are_found_by_their_written_key() {
    assert_eq!(field_needle("id"), b"\"id\":");
    assert_eq!(extract_field(br#"{"a" :1}"#, "a"), None);
    assert_eq!(extract_field(br#"{ 	"a":  7 }"#, "a"), Some(&b"7"[..]));
    assert_eq!(extract_field(br#"x"a":1,"a":2"#, "a"), Some(&b"2"[..]));
    assert_eq!(extract_field(br#"{"a":"#, "a"), None);
    assert_eq!(extract_field(br#"{"a":"open"#, "a"), None);
    assert_eq!(extract_field(br#"{"a":,"#, "a"), Some(&b""[..]));
}

#[test]
fn prefix_conditions_count_what_prefix_tests_count() {
    let lines: [&[u8]; 5] = [
        br#"{"level":"WARNING"}"#,
        br#"{"level":"warn"}"#,
        br#"{"level":"INFO"}"#,
        br#"{"other":"WARN"}"#,
        br#"{"level":"Warned"}"#,
    ];
    let content = lines.join(&b'\n');
    let lf = open_with(&content);
    let counted: Vec<u64> = (0..5u64)
        .filter(|&i| {
            extract_field(lines[i as usize], "level")
                .is_some_and(|v| starts_with_ascii_ci(v, b"WARN"))
        })
        .collect();
    assert_eq!(counted, vec![0, 1, 4]);
    assert_eq!(run_filter(&lf, &parse_query("level=WARN*"), &numeric), counted);
}

#[test]
fn words_without_a_key_are_looked_for() {
    assert_eq!(parse_query("=5 .=5 a"), vec![
        Clause::Bare("=5".into()),
        Clause::Bare(".=5".into()),
        Clause::Bare("a".into()),
    ]);
    assert_eq!(parse_query(" \t\u{3000} "), vec![]);
    assert_eq!(
        parse_query("a..b<=1 c<2 d=e>=f g>h*"),
        vec![
            Clause::Field {
                path: vec!["a".into(), "b".into()],
                op: Op::LtEq,
                value: "1".into()
            },
            Clause::Field {
                path: vec!["c".into()],
                op: Op::Lt,
                value: "2".into()
            },
            Clause::Field {
                path: vec!["d=e".into()],
                op: Op::GtEq,
                value: "f".into()
            },
            Clause::Field {
                path: vec!["g".into()],
                op: Op::Gt,
                value: "h*".into()
            },
        ]
    );
}

#[test]
fn white_space_is_that_of_unicode() {
    for n in 0..0x11000u32 {
        if let Some(c) = char::from_u32(n) {
            let query = format!("a{c}b");
            let words = query.split_whitespace().count();
            assert_eq!(parse_query(&query).len(), words, "{n:x}");
        }
    }
}

#[test]
fn normalizing_twice_changes_nothing_more() {
    let column = |name: &str| Column {
        name: name.into(),
        width_chars: 4,
    };
    let schema = Schema {
        columns: vec![column("Level"), column("LEVEL")],
    };
    let mut once = parse_query("level=x LEVEL=y");
    normalize_clause_keys(&mut once, &schema);
    let expected = |value: &str| Clause::Field {
        path: vec!["Level".into()],
        op: Op::Eq,
        value: value.into(),
    };
    assert_eq!(once, vec![expected("x"), expected("y")]);
    let mut twice = once.clone();
    normalize_clause_keys(&mut twice, &schema);
    assert_eq!(twice, once);
}

#[test]
fn unfolding_gives_rows_where_it_is_offered() {
    for text in [
        "1",
        "[[1]]",
        "{}",
        r#"{"a":1}"#,
        r#"{"a":[]}"#,
        r#"{"a":{"b":[{"c":null}]},"d":"e"}"#,
    ] {
        let v = json(text);
        assert_eq!(is_expandable(&v), !flatten(&v).is_empty(), "{text}");
    }
    let rows = flatten(&json(r#"{"a":{"b":[{"c":null}]},"d":"e"}"#));
    let shown: Vec<(usize, &str, &str)> = rows
        .iter()
        .map(|r| (r.depth, r.label.as_str(), r.value.as_str()))
        .collect();
    assert_eq!(
        shown,
        vec![
            (1, "a", r#"{"b":[{"c":null}]}"#),
            (2, "b", r#"[{"c":null}]"#),
            (3, "[0]", r#"{"c":null}"#),
            (4, "c", "null"),
        ]
    );
    let many = json(&format!("{{\"a\":{:?}}}", (0..12).collect::<Vec<i32>>()));
    assert_eq!(flatten(&many)[11].label, "[10]");
}

#[test]
fn positions_are_digits() {
    let v = json("[5,6]");
    let at = |s: &str| navigate(&v, &[s.to_string()]).map(cell_display);
    assert_eq!(at("1"), Some("6".to_string()));
    assert_eq!(at("+1"), Some("6".to_string()));
    assert_eq!(at("001"), Some("6".to_string()));
    for none in ["", "+", "-1", "2", "1x", "99999999999999999999999", "１"] {
        assert_eq!(at(none), None, "{none}");
    }
    assert_eq!(navigate(&v, &[]).map(cell_display), Some("[5,6]".to_string()));
    assert!(navigate(&json("3"), &["a".to_string()]).is_none());
}

#[test]
fn texts_are_given_up_beyond_the_cap() {
    let text = format!("\"{}\"", "z".repeat(5000));
    let v = json(&text);
    assert_eq!(compact_prefix(&v, 5002).as_deref(), Some(text.as_bytes()));
    assert_eq!(compact_prefix(&v, 5001), None);
    assert_eq!(compact_prefix(&v, usize::MAX).as_deref(), Some(text.as_bytes()));
    assert_eq!(compact_prefix(&json("12"), 1), None);
    assert_eq!(compact_prefix(&json("12"), 2).as_deref(), Some(&b"12"[..]));
    assert_eq!(cell_display(&json(r#""a\nb""#)), "a\nb");
    assert_eq!(cell_display(&json("[\"a\\nb\", 1.50]")), "[\"a\\nb\",1.5]");
}

#[test]
fn compact_texts_escape_what_json_must() {
    let text = "\u{1}\u{1f}\u{8}\t\n\u{b}\u{c}\r\"\\/\u{7f}é日";
    let v = serde_json::Value::from(vec![text, ""]);
    let shown = "[\"\\u0001\\u001f\\b\\t\\n\\u000b\\f\\r\\\"\\\\/\u{7f}é日\",\"\"]";
    assert_eq!(cell_display(&v), shown);
    assert_eq!(compact_prefix(&v, 256).as_deref(), Some(shown.as_bytes()));
    assert_eq!(cell_display(&serde_json::Value::from(text)), text);
    let v = json(r#" { "k\n" : [ ] , "e" : { } , "f" : -0.0 , "t" : true } "#);
    assert_eq!(cell_display(&v), r#"{"k\n":[],"e":{},"f":-0.0,"t":true}"#);
}

#[test]
fn widths_are_exact_below_the_clamp() {
    assert_eq!(value_width(&json(r#""日本語""#)), 3);
    assert_eq!(value_width(&json(&format!("\"{}\"", "a".repeat(40)))), 33);
    assert_eq!(value_width(&json("[1,2]")), 5);
    assert_eq!(value_width(&json("null")), 4);
    assert_eq!(value_width(&json(&format!("[\"{}\"]", "a".repeat(300)))), 33);
}

#[test]
fn lines_that_are_no_json_are_none() {
    assert!(parse_line(b"{\"a\":1").is_none());
    assert!(parse_line(b"").is_none());
    assert!(parse_line(b"{\"a\":1} x").is_none());
}

#[test]
fn nine_in_ten_lines_must_be_objects() {
    assert!(are_mostly_objects(3, 3));
    assert!(!are_mostly_objects(2, 2));
    assert!(are_mostly_objects(10, 9));
    assert!(!are_mostly_objects(10, 8));
    assert!(!are_mostly_objects(9, 8));
    assert!(!detect(&open_with(b"[1]\n[2]\n[3]\n")));
    assert!(detect(&open_with(b"\n\n{}\n{}\n\n{}\n")));
    assert!(!detect(&open_with(b"")));
}

#[test]
fn only_the_first_lines_tell_json_lines() {
    let mut content = b"{}\n".repeat(64);
    content.extend_from_slice(&b"plain\n".repeat(64));
    assert!(detect(&open_with(&content)));
}

#[test]
fn columns_are_bounded_and_keep_their_places() {
    let mut columns = Vec::new();
    let fields: Vec<(String, usize)> = (0..20).map(|i| (format!("key{i}"), i)).collect();
    merge_fields(&mut columns, &fields);
    assert_eq!(columns.len(), 16);
    assert_eq!(columns[3].name, "key3");
    assert_eq!(columns[3].width_chars, 4);
    assert_eq!(columns[9].width_chars, 9);
    merge_fields(&mut columns, &vec![("key3".to_string(), 40), ("new".to_string(), 1)]);
    assert_eq!(columns.len(), 16);
    assert_eq!(columns[3].width_chars, 40);
    let schema = finish_schema(columns).unwrap();
    assert_eq!(schema.columns[3].width_chars, 32);
    assert_eq!(schema.columns[0].width_chars, 4);
    assert!(finish_schema(Vec::new()).is_none());
    assert!(discover_schema(&open_with(b"no json\n")).is_none());
}

#[test]
fn ranges_are_filtered_side_by_side() {
    let mut content = Vec::new();
    for i in 0..1000 {
        content.extend_from_slice(if i % 7 == 0 { b"hit\n" } else { b"miss\n" });
    }
    let lf = open_with(&content);
    let clauses = parse_query("HIT");
    let ranges = vec![(0, 333), (333, 334), (334, 1000)];
    let parts: Vec<Vec<u64>> = ranges
        .iter()
        .map(|&(begin, end)| filter_range(&lf, &clauses, begin, end, &numeric))
        .collect();
    let all = run_filter(&lf, &clauses, &numeric);
    assert_eq!(all.len(), 143);
    assert_eq!(join_hits(&parts), all);
    assert_eq!(
        filter_range(&lf, &clauses, 990, u64::MAX, &numeric),
        vec![994]
    );
    assert_eq!(
        filter_range(&lf, &clauses, 10, 5, &numeric),
        Vec::<u64>::new()
    );
}

#[test]
fn grown_files_are_filtered_on() {
    let old = open_with(b"hit\nmiss\nhi");
    let grown = b"hit\nmiss\nhit\nno\nhit";
    let new = LogFile::append_from(&old, source(grown)).unwrap();
    let clauses = parse_query("hit");
    let mut hits = filter_range(&old, &clauses, 0, 2, &numeric);
    assert_eq!(hits, vec![0]);
    hits.extend(run_filter_from(&new, &clauses, 2, &numeric));
    assert_eq!(hits, vec![0, 2, 4]);
    assert_eq!(run_filter(&new, &clauses, &numeric), hits);
}

#[test]
fn plans_cover_the_lines_that_remain() {
    assert_eq!(plan_filter(5, 5, 8), vec![]);
    assert_eq!(plan_filter(0, 99_999, 8), vec![(0, 99_999)]);
    assert_eq!(plan_filter(10, 200_010, 1), vec![(10, 200_010)]);
    assert_eq!(
        plan_filter(10, 100_011, 3),
        vec![(10, 33_344), (33_344, 66_678), (66_678, 100_011)]
    );
    assert_eq!(plan_filter(0, 1_000_000, 64).len(), 8);
}

#[test]
fn every_condition_must_hold() {
    let lf = open_with(
        b"{\"a\":{\"b\":1},\"c\":\"X y\"}\n{\"a\":{\"b\":2},\"c\":\"x Y\"}\nplain\n",
    );
    let run = |q: &str| run_filter(&lf, &parse_query(q), &numeric);
    assert_eq!(run("a.b>=1"), vec![0, 1]);
    assert_eq!(run("a.b>=1 x"), vec![0, 1]);
    assert_eq!(run("a.b>1"), vec![1]);
    assert_eq!(run("a.b>1 plain"), Vec::<u64>::new());
    assert_eq!(run("a.b=1"), vec![0]);
    assert_eq!(run(""), vec![0, 1, 2]);
}

#[test]
fn paths_are_followed_however_the_line_is_written() {
    let run = |line: &[u8], q: &str| run_filter(&open_with(line), &parse_query(q), &numeric);
    assert_eq!(run(br#"{"tags":[7,8]}"#, "tags.1=8"), vec![0]);
    assert_eq!(run(br#"{"tags":[7,8]}"#, "tags.+1=8"), vec![0]);
    assert_eq!(run(br#"{"a":{"b" : 1}}"#, "a.b=1"), vec![0]);
    assert_eq!(run(br#"{"a":{"\u0062":1}}"#, "a.b=1"), vec![0]);
    assert_eq!(run(br#"{"a":{"b":"x\ty"}}"#, "a.b=x*"), vec![0]);
    assert_eq!(run(br#"{"a":{"b":1e2}}"#, "a.b=100.0"), vec![0]);
    assert_eq!(run(br#"{"a":{"b":{"c":[1, 2]}}}"#, "a.b={\"c\":[1,2]}"), vec![0]);
    assert_eq!(run(br#"{"x":{"b":1},"a":{"b":2}}"#, "a.b=1"), Vec::<u64>::new());
    assert_eq!(run(b"plain a.b", "a.b=1"), Vec::<u64>::new());
}

#[test]
fn first_look_misses_nothing() {
    let cases: [(&[u8], &str, Op, &str); 6] = [
        (br#"{"tags":[7,8]}"#, "1", Op::Eq, "8"),
        (br#"{"a":{"b" : 1}}"#, "b", Op::Eq, "1"),
        (br#"{"a":{"\u0062":1}}"#, "b", Op::LtEq, "1"),
        (br#"{"a":{"b":"x\ty"}}"#, "b", Op::Prefix, "x"),
        (br#"[[{"k":{"b":true}}]]"#, "b", Op::Eq, "true"),
        (br#"{"a":{"b":{"c":[1, 2]}}}"#, "b", Op::Eq, "{\"c\":[1,2]}"),
    ];
    for (line, key, op, value) in cases {
        assert!(field_value_matches(line, &field_needle(key), op, value, &numeric), "{key}");
    }
    let look = |line: &[u8], key: &str, op: Op, value: &str| {
        field_value_matches(line, &field_needle(key), op, value, &numeric)
    };
    let line = br#"{"tags":[7,8],"b":9,"c":"x","d":true,"e":null,"f":{},"g" : "b"}"#;
    assert!(!look(line, "b", Op::Eq, "8"));
    assert!(look(line, "b", Op::Gt, "8"));
    assert!(!look(line, "b", Op::Gt, "9"));
    assert!(!look(line, "c", Op::Prefix, "y"));
    assert!(!look(line, "d", Op::Eq, "false"));
    assert!(look(line, "e", Op::Eq, "NULL"));
    assert!(look(line, "g", Op::Eq, "B"));
    assert!(!look(line, "h", Op::Eq, "B"));
    assert!(!look(b"plain", "b", Op::Eq, "8"));
    // What the bytes cannot tell passes.
    assert!(look(line, "f", Op::Eq, "8"));
    assert!(!look(line, "f", Op::Lt, "8"));
    assert!(look(line, "2", Op::Eq, "8"));
    assert!(look(br#"{"b":1.50}"#, "b", Op::Eq, "8"));
    assert!(look(br#"{"x":"\n"}"#, "b", Op::Eq, "8"));
}

#[test]
fn files_of_other_lines_have_no_columns() {
    assert!(discover_schema(&open_with(b"plain\nplain\nplain\n{\"a\":1}\n")).is_none());
    assert!(discover_schema(&open_with(b"{\"a\":1}\n\n\n")).is_some());
    let mut nine = b"{\"a\":1}\n".repeat(9);
    nine.extend_from_slice(b"plain\n");
    assert!(discover_schema(&open_with(&nine)).is_some());
    nine.extend_from_slice(b"plain\n");
    assert!(discover_schema(&open_with(&nine)).is_none());
}

#[test]
fn columns_are_those_of_files_that_are_told_json_lines() {
    let names = |content: &[u8]| {
        discover_schema(&open_with(content))
            .map(|schema| schema.columns.into_iter().map(|c| c.name).collect::<Vec<_>>())
    };
    let mut trailed = b"{\"a\":1}\n".repeat(64);
    trailed.extend_from_slice(&b"  at frame\n".repeat(8));
    trailed.extend_from_slice(b"{\"b\":2}\n");
    assert!(detect(&open_with(&trailed)));
    assert_eq!(names(&trailed), Some(vec!["a".to_string(), "b".to_string()]));
    let mut headed = b"plain\n".repeat(10);
    headed.extend_from_slice(&b"{\"a\":1}\n".repeat(500));
    assert!(!detect(&open_with(&headed)));
    assert_eq!(names(&headed), None);
    // Two lines are too few to tell.
    assert_eq!(names(b"{\"a\":1}\nplain\n"), Some(vec!["a".to_string()]));
}

#[test]
fn fields_are_those_of_an_object() {
    assert_eq!(scan_field(br#"["level":"ERROR"]"#, "level"), None);
    assert_eq!(scan_field(br#"[["level":"ERROR"]]"#, "level"), None);
    let v = scan_field(br#"[1] {"level":"ERROR"}"#, "level").unwrap();
    assert_eq!(v.raw, b"ERROR");
}

#[test]
fn values_are_read_where_they_begin() {
    let line = br#"{"a": 7}"#;
    assert_eq!(read_value(line, 5).unwrap().raw, b"7");
    assert_eq!(read_value(line, 0).unwrap().kind, FieldKind::Nested);
    assert_eq!(read_value(line, 7), None);
    assert_eq!(read_value(line, 8), None);
    assert_eq!(read_value(line, usize::MAX), None);
}

#[test]
fn parsing_undoes_printing() {
    let signs = [
        (Op::Eq, "="),
        (Op::Prefix, "="),
        (Op::Gt, ">"),
        (Op::GtEq, ">="),
        (Op::Lt, "<"),
        (Op::LtEq, "<="),
    ];
    let paths: [&[&str]; 3] = [&["a"], &["user", "id"], &["x", "0", "\u{4e2d}*"]];
    for (op, sign) in signs {
        for path in paths {
            for value in ["", "1", "a.b", "*x", "\u{6587}"] {
                let tail = if op == Op::Prefix { "*" } else { "" };
                let word = format!("{}{sign}{value}{tail}", path.join("."));
                let expected = Clause::Field {
                    path: path.iter().map(|key| key.to_string()).collect(),
                    op,
                    value: value.to_string(),
                };
                assert_eq!(parse_clause(&word), expected, "{word}");
                assert_eq!(parse_query(&word), vec![expected], "{word}");
            }
        }
    }
    // A value that ends with an asterisk is read as a prefix.
    assert_eq!(
        parse_query("a=b*"),
        vec![Clause::Field {
            path: vec!["a".into()],
            op: Op::Prefix,
            value: "b".into()
        }]
    );
    // What stands behind the sign may hold one that is looked for later.
    assert_eq!(
        parse_query("a>=b=c>d"),
        vec![Clause::Field {
            path: vec!["a".into()],
            op: Op::GtEq,
            value: "b=c>d".into()
        }]
    );
}

#[test]
fn scanning_the_text_of_an_object_gives_its_members() {
    let object = json(
        r#"{"a":{"b":1,"level":"no","c":[{"level":2}]},"b":[1,["x:"],"level"],
            "level":"WARN, \"quoted\"\n","n":-1.5e300,"t":true,"f":false,"z":null,
            "msg":"\"level\":\"no\"","\u4e2d":"\u6587","e":{}}"#,
    );
    let text = object.to_string();
    let find = |key: &str| scan_field(text.as_bytes(), key);
    for (key, value) in object.as_object().unwrap() {
        let found = find(key).unwrap();
        let kind = match value {
            serde_json::Value::Null => FieldKind::Null,
            serde_json::Value::Bool(_) => FieldKind::Bool,
            serde_json::Value::Number(_) => FieldKind::Num,
            serde_json::Value::String(_) => FieldKind::Str,
            _ => FieldKind::Nested,
        };
        assert_eq!(found.kind, kind, "{key}");
        let shown = value.to_string();
        let raw: &[u8] = match kind {
            FieldKind::Str => &shown.as_bytes()[1..shown.len() - 1],
            FieldKind::Nested => b"",
            _ => shown.as_bytes(),
        };
        assert_eq!(found.raw, raw, "{key}");
        assert_eq!(found.has_escapes, raw.contains(&b'\\'), "{key}");
    }
    assert_eq!(find("c"), None);
    assert_eq!(find("x:"), None);
    assert_eq!(scan_field(b"{}", "a"), None);
}

/// A deterministic pseudorandom generator.
struct Rng(u64);

impl Rng {
    fn below(&mut self, n: u64) -> u64 {
        self.0 ^= self.0 << 13;
        self.0 ^= self.0 >> 7;
        self.0 ^= self.0 << 17;
        self.0 % n
    }

    fn pick<'a>(&mut self, from: &[&'a str]) -> &'a str {
        from[self.below(from.len() as u64) as usize]
    }

    fn space(&mut self) -> &'static str {
        self.pick(&["", "", "", " ", "\t", "\r", "  "])
    }

    /// The text of some value, written in one of many ways.
    fn value(&mut self, depth: u64) -> String {
        let scalars = [
            "7", "42", "0", "-0", "-7", "1.5", "1.50", "1e2", "123456789012345678",
            "1234567890123456789", "99999999999999999999", "true", "false", "null", "\"x\"",
            "\"7\"", "\"\"", "\"\u{4e2d}\"", "\"a\\tb\"", "\"\\u0078\"", "\"\\\"k\\\":7\"", "\"k\"",
        ];
        match if depth == 0 { 0 } else { self.below(4) } {
            0 | 1 => self.pick(&scalars).to_string(),
            2 => {
                let n = self.below(3);
                let items: Vec<String> = (0..n).map(|_| self.value(depth - 1)).collect();
                let (a, b) = (self.space(), self.space());
                format!("[{a}{}{b}]", items.join(&format!("{b},{a}")))
            }
            _ => {
                let n = self.below(4);
                let members: Vec<String> = (0..n)
                    .map(|_| {
                        let key = self.pick(&["k", "id", "1", "a b", "\\u006b", "kk"]);
                        let (a, b) = (self.space(), self.space());
                        format!("{a}\"{key}\"{b}:{a}{}{b}", self.value(depth - 1))
                    })
                    .collect();
                format!("{{{}}}", members.join(","))
            }
        }
    }
}

#[test]
fn filter_finds_what_parsing_every_line_finds() {
    let mut rng = Rng(0x9E3779B97F4A7C15);
    let targets = [
        "7", "42", "0", "-0.0", "-7", "1.5", "100.0", "123456789012345678", "1e20", "true", "NULL",
        "x", "", "{}", "[]", "k",
    ];
    let ops = [Op::Eq, Op::Prefix, Op::Gt, Op::GtEq, Op::Lt, Op::LtEq];
    let paths: [&[&str]; 5] = [&["k", "id"], &["id", "1"], &["k", "k"], &["0", "k"], &["k", "a b", "kk"]];
    let mut hits = 0;
    for _ in 0..40000 {
        let text = format!("{{\"k\":{},\"id\":{}}}", rng.value(3), rng.value(3));
        let lf = open_with(text.as_bytes());
        let path = paths[rng.below(paths.len() as u64) as usize];
        let op = ops[rng.below(ops.len() as u64) as usize];
        let target = rng.pick(&targets);
        let path: Vec<String> = path.iter().map(|key| key.to_string()).collect();
        let expected = parse_line(lf.line(0))
            .is_some_and(|v| navigate(&v, &path).is_some_and(|x| compare_val(x, op, target, &numeric)));
        let clause = Clause::Field { path, op, value: target.to_string() };
        let found = !run_filter(&lf, &[clause], &numeric).is_empty();
        assert_eq!(found, expected, "{text} {op:?} {target}");
        hits += found as u64;
    }
    assert!(hits > 100, "{hits}");
}
