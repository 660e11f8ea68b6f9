use std::sync::atomic::{AtomicBool, AtomicU64, Ordering};
use std::sync::Arc;

use danqing_logfile::append::append_index;
use danqing_logfile::index::{build_index_parallel, build_line_index_with, LineIndex};
use danqing_logfile::logfile::{
    fingerprint, AppendOutcome, Encoding, FileStat, IndexError, IndexHooks, LogFile, Source,
    INDEX_CANCELLED,
};

/// A file of the given bytes.
fn source(content: &[u8]) -> Source<'_> {
    Source::mapped(content, Encoding::Utf8, content.len() as u64, None, 0)
}

/// The state of a file of the given bytes, last changed at `mtime`.
fn stat_of(content: &[u8], mtime: i128) -> FileStat {
    FileStat {
        len: content.len() as u64,
        mtime: Some(mtime),
        head: fingerprint(content),
    }
}

/// A file of the given bytes, last changed at `mtime`.
fn source_at(content: &[u8], mtime: i128) -> Source<'_> {
    Source::mapped(content, Encoding::Utf8, content.len() as u64, Some(mtime), 0)
}

fn regex(pattern: &str) -> regex::bytes::Regex {
    regex::bytes::Regex::new(pattern).unwrap()
}

fn open_with(content: &[u8]) -> LogFile<'_> {
    LogFile::open(source(content)).unwrap()
}

/// The lines of a file by walking it.
fn walk<'a>(lf: &LogFile<'a>, from: u64) -> Vec<(u64, &'a [u8])> {
    let mut iter = lf.lines_from(from);
    let mut out = Vec::new();
    while let Some(item) = iter.next() {
        out.push(item);
    }
    out
}

#[test]
fn indexes_lines_and_strips_crlf() {
    let lf = open_with(b"alpha\r\nbeta\r\ngamma\r\n");
    assert_eq!(lf.line_count(), 3);
    assert_eq!(lf.line(0), b"alpha");
    assert_eq!(lf.line(1), b"beta");
    assert_eq!(lf.line(2), b"gamma");
}

#[test]
fn handles_missing_trailing_newline() {
    let lf = open_with(b"one\ntwo");
    assert_eq!(lf.line_count(), 2);
    assert_eq!(lf.line(1), b"two");
}

#[test]
fn empty_file_has_zero_lines() {
    let lf = open_with(b"");
    assert_eq!(lf.line_count(), 0);
    assert_eq!(lf.line(0), b"");
}

#[test]
fn empty_placeholder_matches_empty_file_semantics() {
    let lf = LogFile::empty();
    assert_eq!(lf.line_count(), 0);
    assert_eq!(lf.line(0), b"");
    assert_eq!(lf.encoding(), Encoding::Utf8);
    assert_eq!(lf.stats().file_bytes, 0);
}

#[test]
fn skips_utf8_bom() {
    let lf = open_with(b"\xEF\xBB\xBFhello\n");
    assert_eq!(lf.line(0), b"hello");
}

#[test]
fn search_maps_offsets_to_lines_deduped() {
    let lf = open_with(b"INFO ok\nERROR a ERROR b\nINFO fine\nERROR c\n");
    let hits = lf.search(&regex("ERROR"), 100).unwrap();
    assert_eq!(hits.total, 3);
    assert_eq!(hits.lines, vec![1, 3]);
}

#[test]
fn search_cap_does_not_hide_total() {
    let lf = open_with(b"x\nx\nx\nx\n");
    let hits = lf.search(&regex("x"), 2).unwrap();
    assert_eq!(hits.lines.len(), 2);
    assert_eq!(hits.total, 4);
}

/// A deterministic pseudorandom generator.
struct Rng(u64);

impl Rng {
    fn next(&mut self) -> u64 {
        self.0 ^= self.0 << 13;
        self.0 ^= self.0 >> 7;
        self.0 ^= self.0 << 17;
        self.0
    }
}

#[test]
fn stride_index_memory_bound() {
    let mut content = Vec::new();
    for _ in 0..100_000 {
        content.extend_from_slice(b"line-of-some-text\n");
    }
    let lf = open_with(&content);
    assert_eq!(lf.line_count(), 100_000);
    assert!(
        lf.stats().index_bytes <= 110_000,
        "{}",
        lf.stats().index_bytes
    );
}

#[test]
fn stride_index_matches_dense_semantics() {
    let mut rng = Rng(0x1234_5678_9ABC_DEF0);
    let mut content = Vec::new();
    let mut expected: Vec<Vec<u8>> = Vec::new();
    for _ in 0..5000 {
        let len = (rng.next() % 200) as usize;
        let line: Vec<u8> = (0..len).map(|_| b'a' + (rng.next() % 26) as u8).collect();
        content.extend_from_slice(&line);
        content.push(b'\n');
        expected.push(line);
    }
    content.extend_from_slice(b"tail-no-newline");
    expected.push(b"tail-no-newline".to_vec());
    let lf = open_with(&content);
    assert_eq!(lf.line_count(), expected.len() as u64);
    for (i, e) in expected.iter().enumerate() {
        assert_eq!(lf.line(i as u64), &e[..], "{i}");
    }
    let walked = walk(&lf, 0);
    assert_eq!(walked.len(), expected.len());
    for (w, e) in walked.iter().zip(expected.iter()) {
        assert_eq!(w.1, &e[..]);
    }
    let ids: Vec<u64> = walked.iter().map(|w| w.0).collect();
    assert_eq!(ids[0], 0);
    assert!(ids.windows(2).all(|w| w[1] == w[0] + 1));
}

/// A file with an index that was built apart.
fn logfile_from_parts(content: &[u8], index: LineIndex) -> LogFile<'_> {
    LogFile::open_indexed(source(content), Ok(index)).unwrap()
}

/// A byte order mark, a line so long that whole chunks hold no newline, lines of many
/// lengths, and no newline at the end; with the start of each line.
fn tricky_corpus() -> (Vec<u8>, Vec<u64>) {
    let mut content = Vec::new();
    content.extend_from_slice(b"\xEF\xBB\xBF");
    let mut starts = vec![3u64];
    content.extend_from_slice(&vec![b'L'; 300_000]);
    content.push(b'\n');
    let mut rng = Rng(0xDEAD_BEEF_1234_5678);
    for _ in 0..1500 {
        starts.push(content.len() as u64);
        let len = (rng.next() % 200) as usize;
        for _ in 0..len {
            content.push(b'a' + (rng.next() % 26) as u8);
        }
        content.push(b'\n');
    }
    starts.push(content.len() as u64);
    content.extend_from_slice(b"tail-no-newline");
    (content, starts)
}

#[test]
fn parallel_segments_match_serial_semantics() {
    let (content, starts) = tricky_corpus();
    let content_len = content.len() as u64;
    let ser = build_line_index_with(&content, 8, &IndexHooks::default()).unwrap();
    let par = build_index_parallel(&content, 4, &IndexHooks::default()).unwrap();
    assert_eq!(ser.line_count, par.line_count);
    assert_eq!(ser.segments.len(), 1);
    assert!(par.segments.len() > 1, "{}", par.segments.len());
    for w in par.segments.windows(2) {
        assert!(w[0].base_line < w[1].base_line);
    }
    for s in &par.segments {
        assert!(!s.strides.is_empty());
    }
    let bases: Vec<u64> = par.segments.iter().map(|s| s.base_line).collect();
    let a = logfile_from_parts(&content, ser);
    let b = logfile_from_parts(&content, par);
    assert_eq!(a.line_count(), starts.len() as u64);
    for i in 0..a.line_count() {
        assert_eq!(a.line(i), b.line(i), "{i}");
    }
    for (i, &st) in starts.iter().enumerate() {
        assert_eq!(b.line_of_offset(st), i as u64);
        if i + 1 < starts.len() {
            let nl = starts[i + 1] - 1;
            assert_eq!(b.line_of_offset(nl), i as u64);
        }
    }
    for off in (0..content_len).step_by(4093) {
        assert_eq!(a.line_of_offset(off), b.line_of_offset(off), "{off}");
    }
    for probe in bases
        .iter()
        .flat_map(|&base| [base.saturating_sub(1), base, base + 1])
    {
        if probe >= a.line_count() {
            continue;
        }
        let wa: Vec<&[u8]> = walk(&a, probe).into_iter().map(|(_, s)| s).collect();
        let wb: Vec<&[u8]> = walk(&b, probe).into_iter().map(|(_, s)| s).collect();
        assert_eq!(wa, wb, "{probe}");
    }
}

#[test]
fn append_on_parallel_segments_matches_rebuild() {
    for resurrect in [true, false] {
        let mut old = Vec::new();
        let mut rng = Rng(0xABCD_EF01_2345_6789);
        for _ in 0..800 {
            let len = (rng.next() % 120) as usize;
            for _ in 0..len {
                old.push(b'a' + (rng.next() % 26) as u8);
            }
            old.push(b'\n');
        }
        if !resurrect {
            old.extend_from_slice(b"partial");
        }
        let old_index = build_index_parallel(&old, 4, &IndexHooks::default()).unwrap();
        assert!(old_index.segments.len() > 1);
        let mut new = old.clone();
        new.extend_from_slice(b"new-line-one\nnew-line-two\nthird-no-newline");
        let app = append_index(&old_index, &old, &new, &IndexHooks::default()).unwrap();
        let full = build_line_index_with(&new, 8, &IndexHooks::default()).unwrap();
        assert_eq!(app.line_count, full.line_count, "{resurrect}");
        let a = logfile_from_parts(&new, app);
        let f = logfile_from_parts(&new, full);
        for i in 0..f.line_count() {
            assert_eq!(a.line(i), f.line(i), "{i} {resurrect}");
        }
    }
}

#[test]
fn lines_walker_handles_empty_and_unterminated() {
    let lf = open_with(b"");
    assert_eq!(walk(&lf, 0).len(), 0);
    let lf = open_with(b"only-no-newline");
    let rows: Vec<&[u8]> = walk(&lf, 0).into_iter().map(|(_, s)| s).collect();
    assert_eq!(rows, vec![&b"only-no-newline"[..]]);
}

#[test]
fn search_maps_offsets_across_stride_segments() {
    let mut content = Vec::new();
    for i in 0..1000 {
        if i == 500 || i == 999 {
            content.extend_from_slice(b"MARK\n");
        } else {
            content.extend_from_slice(b"plain\n");
        }
    }
    let lf = open_with(&content);
    let hits = lf.search(&regex("MARK"), 100).unwrap();
    assert_eq!(hits.lines, vec![500, 999]);
    assert_eq!(hits.total, 2);
}

#[test]
fn stale_detection_on_append_and_delete() {
    let lf = LogFile::open(source_at(b"a\nb\n", 1)).unwrap();
    assert!(!lf.is_stale(Some(stat_of(b"a\nb\n", 1))));
    assert!(lf.is_stale(Some(stat_of(b"a\nb\nc\n", 2))));
    assert!(lf.is_stale(None));
}

#[test]
fn rebuild_after_create_rotation() {
    let mut lf = LogFile::open(source_at(b"old1\nold2\nold3\n", 1)).unwrap();
    assert_eq!(lf.line_count(), 3);
    assert!(lf.is_stale(None));
    let read: Result<Source, ()> = Ok(source_at(b"new1\n", 2));
    lf.rebuild(read).expect("read");
    assert_eq!(lf.line_count(), 1);
    assert_eq!(lf.line(0), b"new1");
    assert!(!lf.is_stale(Some(stat_of(b"new1\n", 2))));
}

#[test]
fn line_out_of_range_returns_empty_not_crash() {
    let lf = open_with(b"a\nb\n");
    assert_eq!(lf.line(2), b"");
    assert_eq!(lf.line(u64::MAX), b"");
}

#[test]
fn append_from_matches_full_rebuild() {
    let chunks: [&[u8]; 3] = [
        b"delta\nepsilon\n",
        b"zeta\neta\ntheta\niota\nkappa\nlambda\nmu\nnu\nxi\nomicron\npi\nrho\nsigma\ntau\n",
        b"upsilon\nphi\nchi\npsi\nomega\n",
    ];
    let mut contents = vec![b"alpha\nbeta\ngamma\n".to_vec()];
    for chunk in chunks {
        let mut next = contents.last().unwrap().clone();
        next.extend_from_slice(chunk);
        contents.push(next);
    }
    let mut cur = open_with(&contents[0]);
    for content in &contents[1..] {
        let appended = LogFile::append_from(&cur, source(content)).unwrap();
        let full = open_with(content);
        assert_eq!(appended.line_count(), full.line_count());
        for i in 0..appended.line_count() {
            assert_eq!(appended.line(i), full.line(i), "{i}");
        }
        cur = appended;
    }
}

#[test]
fn file_stat_head_distinguishes_rotation_with_larger_file() {
    let lf = LogFile::open(source_at(b"AAAA\nBBBB\n", 1)).unwrap();
    let known = lf.stat_snapshot();
    let cur = stat_of(b"XXXX\nYYYY\nZZZZ\nWWWW\n", 1);
    assert!(cur.len > known.len);
    assert_ne!(cur.head, known.head);
    assert!(lf.is_stale(Some(cur)));
}

#[test]
fn append_handles_partial_line_continuation() {
    let lf = open_with(b"hello ");
    let grown = b"hello world\nnext\n";
    let appended = LogFile::append_from(&lf, source(grown)).unwrap();
    let full = open_with(grown);
    assert_eq!(appended.line_count(), full.line_count());
    assert_eq!(appended.line(0), b"hello world");
    assert_eq!(appended.line(1), b"next");
}

/// Lines of `mib` mebibytes in all.
fn big_content(mib: usize) -> Vec<u8> {
    let chunk = b"0123456789abcdef0123456789abcdef0123456789abcdef0123456789abc\n";
    let mut content = Vec::new();
    for _ in 0..(mib << 20) / chunk.len() {
        content.extend_from_slice(chunk);
    }
    content
}

/// Handles that ask for a stop from the start.
fn cancelled_hooks() -> IndexHooks {
    IndexHooks {
        progress: None,
        cancel: Some(Arc::new(AtomicBool::new(true))),
    }
}

#[test]
fn hooks_cancelled_open_returns_error_and_early_exits() {
    let content = big_content(20);
    let progress = Arc::new(AtomicU64::new(0));
    let hooks = IndexHooks {
        progress: Some(Arc::clone(&progress)),
        cancel: Some(Arc::new(AtomicBool::new(true))),
    };
    let err = LogFile::open_with_hooks(source(&content), &hooks)
        .err()
        .expect("cancelled");
    assert!(err.message().contains("索引已取消"));
    let done = progress.load(Ordering::Relaxed);
    assert!(done < 20 << 20, "{done}");
}

#[test]
fn hooks_progress_reports_exact_total() {
    let content = big_content(20);
    let progress = Arc::new(AtomicU64::new(0));
    let hooks = IndexHooks {
        progress: Some(Arc::clone(&progress)),
        cancel: None,
    };
    let file_len = content.len() as u64;
    assert!(LogFile::open_with_hooks(source(&content), &hooks).is_ok());
    assert_eq!(progress.load(Ordering::Relaxed), file_len);
    let data: Vec<u8> = (0..100_000).flat_map(|_| b"line-here\n".to_vec()).collect();
    let par_progress = Arc::new(AtomicU64::new(0));
    let par_hooks = IndexHooks {
        progress: Some(Arc::clone(&par_progress)),
        cancel: None,
    };
    build_index_parallel(&data, 4, &par_hooks).unwrap();
    assert_eq!(par_progress.load(Ordering::Relaxed), data.len() as u64);
}

#[test]
fn hooks_cancelled_append_returns_error() {
    let content = big_content(1);
    let lf = open_with(&content);
    let mut grown = content.clone();
    grown.extend_from_slice(b"more\nlines\n");
    let err = LogFile::append_from_with_hooks(&lf, source(&grown), &cancelled_hooks())
        .err()
        .expect("cancelled");
    assert!(err.message().contains(INDEX_CANCELLED));
}

#[test]
fn stat_snapshot_matches_path_stat_when_unchanged() {
    let content = b"alpha\nbeta\ngamma\n";
    let lf = LogFile::open(source_at(content, 1)).unwrap();
    let snap = lf.stat_snapshot();
    let cur = stat_of(content, 1);
    assert_eq!(snap.len, cur.len);
    assert_eq!(snap.head, cur.head);
    assert!(!lf.is_stale(Some(cur)));
    let grown = b"alpha\nbeta\ngamma\ndelta\n";
    let appended = LogFile::append_from(&lf, source_at(grown, 2)).unwrap();
    let snap2 = appended.stat_snapshot();
    let cur2 = stat_of(grown, 2);
    assert_eq!(snap2.len, cur2.len);
    assert_eq!(snap2.head, cur2.head);
    assert!(!appended.is_stale(Some(cur2)));
}

#[test]
fn append_outcome_marks_rebuilt_and_fallback_carries_hooks() {
    let lf = open_with(b"l1\nl2\nl3\nl4\nl5\n");
    let tiny = b"tiny\n";
    match LogFile::append_from_with_hooks(&lf, source(tiny), &IndexHooks::default()).unwrap() {
        AppendOutcome::Rebuilt(f) => assert_eq!(f.line_count(), 1),
        AppendOutcome::Appended(_) => panic!("a file that shrank is indexed anew"),
    }
    let err = LogFile::append_from_with_hooks(&lf, source(tiny), &cancelled_hooks())
        .err()
        .expect("cancelled");
    assert!(err.message().contains(INDEX_CANCELLED));
}

#[test]
fn growth_is_told_from_replacement() {
    let lf = open_with(b"one\ntwo\n");
    match LogFile::append_from_with_hooks(&lf, source(b"one\ntwo\nthree"), &IndexHooks::default())
        .unwrap()
    {
        AppendOutcome::Appended(f) => {
            assert_eq!(f.line_count(), 3);
            assert_eq!(f.line(2), b"three");
        }
        AppendOutcome::Rebuilt(_) => panic!("a file that grew keeps its index"),
    }
    let other = b"a\nbc\nd\nlonger\n";
    match LogFile::append_from_with_hooks(&lf, source(other), &IndexHooks::default()).unwrap() {
        AppendOutcome::Rebuilt(f) => {
            assert_eq!(f.line_count(), 4);
            assert_eq!(f.line(1), b"bc");
        }
        AppendOutcome::Appended(_) => panic!("another file is indexed anew"),
    }
}

#[test]
fn transcoded_file_is_indexed_by_its_utf8_form() {
    let raw = [0xFF, 0xFE, b'a', 0, b'\n', 0, b'b', 0];
    let utf8 = b"\xEF\xBB\xBFa\nb";
    let s = Source::transcoded(utf8, &raw, Encoding::Utf16Le, 8, Some(5), 3, 7);
    let lf = LogFile::open(s).unwrap();
    assert_eq!(lf.stats().encoding, Encoding::Utf16Le);
    assert_eq!(lf.encoding(), Encoding::Utf8);
    assert_eq!(lf.stats().file_bytes, 8);
    assert_eq!(lf.stats().map_us, 3);
    assert_eq!(lf.stats().preprocess, 7);
    assert_eq!(lf.stat_snapshot().head, fingerprint(&raw));
    assert_eq!(lf.line_count(), 2);
    assert_eq!(lf.line(0), b"a");
    assert_eq!(lf.line(1), b"b");
    // Its index is not extended.
    match LogFile::append_from_with_hooks(&lf, source(b"\xEF\xBB\xBFa\nb\nc"), &IndexHooks::default())
        .unwrap()
    {
        AppendOutcome::Rebuilt(f) => assert_eq!(f.line_count(), 3),
        AppendOutcome::Appended(_) => panic!("a transcoded file is indexed anew"),
    }
}

#[test]
fn other_encodings_are_indexed_as_they_are() {
    let content = b"INFO \xD6\xD0\xCE\xC4\nWARN \xB4\xED\xCE\xF3\n";
    let s = Source::mapped(content, Encoding::Gbk, content.len() as u64, None, 0);
    let lf = LogFile::open(s).unwrap();
    assert_eq!(lf.stats().encoding, Encoding::Gbk);
    assert_eq!(lf.encoding(), Encoding::Gbk);
    assert_eq!(lf.line_count(), 2);
    assert_eq!(lf.line(0), b"INFO \xD6\xD0\xCE\xC4");
    assert!(Encoding::Utf16Be.is_utf16());
    assert!(!Encoding::Latin1.is_utf16());
}

#[test]
fn timings_are_noted() {
    let lf = open_with(b"a\n").with_timings(11, 22);
    assert_eq!(lf.stats().index, 11);
    assert_eq!(lf.stats().open, 22);
    assert_eq!(lf.line(0), b"a");
}

#[test]
fn failed_rebuild_keeps_the_view() {
    let mut lf = open_with(b"kept\n");
    assert_eq!(lf.rebuild(Err("gone")), Err("gone"));
    assert_eq!(lf.line(0), b"kept");
}

#[test]
fn cancelled_index_is_not_handed_out() {
    let index = build_line_index_with(b"a\nb", 1, &IndexHooks::default()).unwrap();
    assert_eq!(LogFile::open_indexed(source(b"a\nb"), Ok(index)).unwrap().line_count(), 2);
    let stopped = IndexError::Cancelled { reported: 1 };
    let out = LogFile::open_indexed(source(b"a\nb"), Err(stopped));
    assert_eq!(out.err(), Some(stopped));
    let small = LogFile::open_with_hooks(source(b"a\nb"), &cancelled_hooks());
    assert_eq!(small.err(), Some(IndexError::Cancelled { reported: 0 }));
    let empty = LogFile::open_with_hooks(source(b""), &cancelled_hooks());
    assert_eq!(empty.err(), Some(IndexError::Cancelled { reported: 0 }));
}

#[test]
fn progress_is_whole_exactly_where_the_file_was_opened() {
    let small: &[u8] = b"a\nb";
    let large: Vec<u8> = b"0123456\n".repeat(3 << 20);
    for content in [small, &large[..]] {
        for raised in [false, true] {
            let progress = Arc::new(AtomicU64::new(0));
            let hooks = IndexHooks {
                progress: Some(progress.clone()),
                cancel: Some(Arc::new(AtomicBool::new(raised))),
            };
            let out = LogFile::open_with_hooks(source(content), &hooks);
            let seen = progress.load(Ordering::Relaxed);
            assert_eq!(out.is_ok(), !raised);
            assert_eq!(seen == content.len() as u64, !raised);
            if let Err(IndexError::Cancelled { reported }) = out {
                assert_eq!(reported, seen);
                assert!(reported < content.len() as u64);
            }
        }
    }
}

#[test]
fn growth_reports_the_new_bytes_alone() {
    let lf = open_with(b"one\ntwo\n");
    for raised in [false, true] {
        let progress = Arc::new(AtomicU64::new(0));
        let hooks = IndexHooks {
            progress: Some(progress.clone()),
            cancel: Some(Arc::new(AtomicBool::new(raised))),
        };
        let out = LogFile::append_from_with_hooks(&lf, source(b"one\ntwo\nthree"), &hooks);
        assert_eq!(out.is_ok(), !raised);
        assert_eq!(progress.load(Ordering::Relaxed), if raised { 0 } else { 5 });
    }
}

#[test]
fn file_that_becomes_transcoded_is_indexed_anew() {
    let empty = open_with(b"");
    let raw = [0xFF, 0xFE, b'a', 0];
    let now = Source::transcoded(b"\xEF\xBB\xBFa", &raw, Encoding::Utf16Le, 4, None, 0, 0);
    assert!(!empty.has_grown_to(&now));
    match LogFile::append_from_with_hooks(&empty, now, &IndexHooks::default()).unwrap() {
        AppendOutcome::Rebuilt(f) => {
            assert_eq!(f.stats().encoding, Encoding::Utf16Le);
            assert_eq!(f.line(0), b"a");
        }
        AppendOutcome::Appended(_) => panic!("a transcoded file is indexed anew"),
    }
    assert!(empty.has_grown_to(&source(b"a")));
    assert!(!open_with(b"a").has_grown_to(&source(b"a")));
    assert!(!open_with(b"a").has_grown_to(&source(b"bb")));
}
