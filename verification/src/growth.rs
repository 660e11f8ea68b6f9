//! What an open file tells of its source, and when it is seen to have grown.

use vstd::prelude::*;

use crate::logfile::{
    fnv, grew, head_of, is_appended, is_opened, lemma_appended_is_opened, scanned_len, Encoding,
    LogView, Source,
};

verus! {

/// A file grew exactly where what it is now is what it was with more bytes behind, at
/// least one, and its bytes were and are indexed as they are on disk.
pub proof fn lemma_growth_is_more_bytes(old: LogView, source: Source)
    ensures
        grew(old, source) <==> !old.transcoded && !source.transcoded && exists|more: Seq<u8>|
            more.len() > 0 && source.data@ == #[trigger] (old.data + more),
{
    let n = old.data.len() as int;
    let data = source.data@;
    if grew(old, source) {
        let more = data.skip(n);
        assert(data =~= old.data + more);
    }
    if exists|more: Seq<u8>| more.len() > 0 && data == #[trigger] (old.data + more) {
        let more = choose|more: Seq<u8>| more.len() > 0 && data == #[trigger] (old.data + more);
        assert(data.take(n) =~= old.data);
        assert forall|i: int| 0 <= i < n implies data[i] == old.data[i] by {}
    }
}

/// Of a file that grew, the bytes behind the old ones are scanned, and of any other all
/// bytes.
pub proof fn lemma_scanned_bytes(old: LogView, source: Source, more: Seq<u8>)
    ensures
        !old.transcoded && !source.transcoded && more.len() > 0 && source.data@ == old.data + more
            ==> scanned_len(old, source) == more.len(),
        !grew(old, source) ==> scanned_len(old, source) == source.data@.len(),
{
    if !old.transcoded && !source.transcoded && more.len() > 0 && source.data@ == old.data + more {
        lemma_growth_is_more_bytes(old, source);
    }
}

/// A fingerprint covers the first sixty-four bytes: a shorter file as a whole, and of a
/// longer one no byte behind them.
pub proof fn lemma_fingerprint_covers_the_head(head: Seq<u8>, more: Seq<u8>)
    ensures
        head.len() <= 64 ==> head_of(head) == head,
        head.len() == 64 ==> head_of(head + more) == head,
{
    if head.len() == 64 && more.len() > 0 {
        assert((head + more).take(64) =~= head);
    } else if head.len() == 64 {
        assert(head + more =~= head);
    }
}

/// A hash takes up one byte after the other: it is combined with the byte by exclusive or,
/// and then multiplied by the prime of FNV-1a, of which the low sixty-four bits stay. It
/// begins with the offset basis of FNV-1a.
pub proof fn lemma_hash_takes_bytes_up(bytes: Seq<u8>, b: u8)
    ensures
        fnv(Seq::empty()) == 14695981039346656037,
        fnv(bytes.push(b)) as int == ((fnv(bytes) ^ (b as u64)) * 1099511628211)
            % 18446744073709551616,
{
    assert(bytes.push(b).drop_last() =~= bytes);
}

/// An open file holds the bytes that its source gives to be indexed and the state that the
/// file had on disk; it tells the encoding that was found on disk, and decodes its lines by
/// it, but for a file that was turned to UTF-8.
pub proof fn lemma_open_file_tells_its_source(log: LogView, source: Source)
    requires
        is_opened(log, source),
    ensures
        log.data == source.data@,
        log.transcoded == source.transcoded,
        log.stat == source.stat,
        log.stats.file_bytes == source.stat.len,
        log.stats.encoding == source.detected,
        log.stats.map_us == source.map_us,
        log.stats.preprocess == source.preprocess,
        log.stats.line_count == log.lines().len(),
        source.transcoded ==> log.encoding is Utf8,
        !source.transcoded ==> log.encoding == source.detected,
{
}

/// A file that was opened, grew and was opened again by extending its index is, but for
/// what was measured of its preparation, what opening it anew makes of it, where the
/// encoding that is found on disk is the same.
pub proof fn lemma_extending_is_opening(
    old: LogView,
    before: Source,
    appended: LogView,
    opened: LogView,
    source: Source,
)
    requires
        is_opened(old, before),
        before.detected == source.detected,
        grew(old, source),
        is_appended(appended, old, source),
        is_opened(opened, source),
    ensures
        appended.data == opened.data,
        appended.first == opened.first,
        appended.lines() == opened.lines(),
        appended.starts() == opened.starts(),
        appended.transcoded == opened.transcoded,
        appended.encoding == opened.encoding,
        appended.stat == opened.stat,
        appended.stats.file_bytes == opened.stats.file_bytes,
        appended.stats.map_us == opened.stats.map_us,
        appended.stats.line_count == opened.stats.line_count,
        appended.stats.encoding == opened.stats.encoding,
        appended.stats.preprocess == old.stats.preprocess,
{
    lemma_appended_is_opened(old, appended, opened, source);
}

/// The encoding of an extended file stays that of the file before, whatever is found on
/// disk then.
pub proof fn lemma_extended_file_keeps_its_encoding(
    old: LogView,
    appended: LogView,
    source: Source,
)
    requires
        is_appended(appended, old, source),
    ensures
        appended.encoding == old.encoding,
        appended.stats.encoding == old.stats.encoding,
        appended.stats.preprocess == old.stats.preprocess,
        appended.stat == source.stat,
{
}

/// The two encodings of sixteen-bit units are those that cannot be indexed as they are.
pub proof fn lemma_sixteen_bit_encodings(encoding: Encoding)
    ensures
        encoding.utf16() <==> !(encoding is Utf8 || encoding is Gbk || encoding is Latin1),
{
}

} // verus!
