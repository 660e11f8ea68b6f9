//! An indexed log file: its lines by number, in order, and by search.

use vstd::prelude::*;

use crate::append::append_index;
use crate::bytes::{has_prefix, starts_with};
pub use crate::hooks::{IndexError, IndexHooks, INDEX_CANCELLED};
use crate::index::{
    build_line_index_with, index_first, index_ok, lemma_indexes_valid, segment_views, valid_index,
    LineIndex, SegmentView,
};
use crate::lines::{
    first_line_ok, grown_first, lemma_next_start, line_at, line_starts, lines_of, read_line,
    text_start,
};
use crate::lookup::resident;
pub use crate::search::{SearchError, SearchHits};

verus! {

/// The encoding of a file.
#[derive(Debug, Clone, Copy, PartialEq, Eq, Structural)]
pub enum Encoding {
    /// UTF-8, with or without a byte order mark.
    Utf8,
    /// UTF-16, low byte first.
    Utf16Le,
    /// UTF-16, high byte first.
    Utf16Be,
    /// GBK (code page 936).
    Gbk,
    /// Latin-1, which any bytes are.
    Latin1,
}

impl Encoding {
    /// One of the two encodings whose bytes cannot be indexed as they are.
    pub open spec fn utf16(self) -> bool {
        self is Utf16Le || self is Utf16Be
    }

    /// Whether a file of this encoding is turned to UTF-8 before it is indexed.
    pub fn is_utf16(self) -> (out: bool)
        ensures
            out == self.utf16(),
    {
        match self {
            Encoding::Utf16Le => true,
            Encoding::Utf16Be => true,
            _ => false,
        }
    }
}

/// The state of a file on disk, by which it is seen to have changed.
#[derive(Debug, Clone, Copy, PartialEq, Eq, Structural)]
pub struct FileStat {
    /// The length in bytes.
    pub len: u64,
    /// The time of the last change, in nanoseconds from the epoch, where it can be
    /// had.
    pub mtime: Option<i128>,
    /// The fingerprint of the first bytes, which tells growth from replacement.
    pub head: u64,
}

/// What opening a file measured.
#[derive(Debug, Clone, Copy)]
pub struct OpenStats {
    /// The length of the file on disk.
    pub file_bytes: u64,
    /// Microseconds that mapping the file took.
    pub map_us: u64,
    /// Nanoseconds that building the line index took.
    pub index: u64,
    /// The number of lines.
    pub line_count: u64,
    /// The bytes that the line index takes.
    pub index_bytes: usize,
    /// The encoding that was found on disk.
    pub encoding: Encoding,
    /// Nanoseconds from the start of opening to the complete index.
    pub open: u64,
    /// Nanoseconds of preparation before the index: reading and transcoding UTF-16,
    /// none for other encodings.
    pub preprocess: u64,
}

/// The number of leading bytes that a fingerprint covers.
pub const HEAD_BYTES: usize = 64;

/// The FNV-1a hash of `bytes`.
pub open spec fn fnv(bytes: Seq<u8>) -> u64
    decreases bytes.len(),
{
    if bytes.len() == 0 {
        0xcbf29ce484222325
    } else {
        (fnv(bytes.drop_last()) ^ (bytes.last() as u64)).wrapping_mul(0x100000001b3)
    }
}

/// The leading bytes that a fingerprint covers.
pub open spec fn head_of(data: Seq<u8>) -> Seq<u8> {
    if data.len() <= HEAD_BYTES {
        data
    } else {
        data.take(HEAD_BYTES as int)
    }
}

/// Hashes `bytes` by FNV-1a.
pub fn fnv_head(bytes: &[u8]) -> (out: u64)
    ensures
        out == fnv(bytes@),
{
    let mut hash: u64 = 0xcbf29ce484222325;
    let mut i: usize = 0;
    assert(bytes@.take(0) =~= Seq::empty());
    while i < bytes.len()
        invariant
            i <= bytes@.len(),
            hash == fnv(bytes@.take(i as int)),
        decreases bytes@.len() - i,
    {
        proof {
            assert(bytes@.take(i + 1).drop_last() =~= bytes@.take(i as int));
        }
        hash = (hash ^ (bytes[i] as u64)).wrapping_mul(0x100000001b3);
        i = i + 1;
    }
    assert(bytes@.take(i as int) =~= bytes@);
    hash
}

/// The fingerprint of a file: the hash of its leading bytes.
pub fn fingerprint(data: &[u8]) -> (out: u64)
    ensures
        out == fnv(head_of(data@)),
{
    if data.len() <= HEAD_BYTES {
        fnv_head(data)
    } else {
        fnv_head(&data[0..HEAD_BYTES])
    }
}

/// A file that was read and is to be indexed.
#[derive(Debug, Clone, Copy)]
pub struct Source<'a> {
    /// The bytes to index: those of the file, or their UTF-8 form.
    pub data: &'a [u8],
    /// Whether `data` is the UTF-8 form of a UTF-16 file.
    pub transcoded: bool,
    /// The encoding that was found on disk.
    pub detected: Encoding,
    /// The state of the file when it was opened.
    pub stat: FileStat,
    /// Microseconds that mapping the file took.
    pub map_us: u64,
    /// Nanoseconds of preparation.
    pub preprocess: u64,
}

impl<'a> Source<'a> {
    /// A file whose own bytes are indexed. Its state describes these bytes: its
    /// fingerprint is theirs.
    pub fn mapped(
        data: &'a [u8],
        detected: Encoding,
        len: u64,
        mtime: Option<i128>,
        map_us: u64,
    ) -> (out: Self)
        ensures
            out.data@ == data@,
            !out.transcoded,
            out.detected == detected,
            out.stat == (FileStat { len, mtime, head: fnv(head_of(data@)) }),
            out.map_us == map_us,
            out.preprocess == 0,
    {
        let head: u64 = fingerprint(data);
        Source {
            data,
            transcoded: false,
            detected,
            stat: FileStat { len, mtime, head },
            map_us,
            preprocess: 0,
        }
    }

    /// A UTF-16 file of bytes `raw`, indexed by its UTF-8 form. Its state describes
    /// the bytes on disk.
    pub fn transcoded(
        utf8: &'a [u8],
        raw: &[u8],
        detected: Encoding,
        len: u64,
        mtime: Option<i128>,
        map_us: u64,
        preprocess: u64,
    ) -> (out: Self)
        ensures
            out.data@ == utf8@,
            out.transcoded,
            out.detected == detected,
            out.stat == (FileStat { len, mtime, head: fnv(head_of(raw@)) }),
            out.map_us == map_us,
            out.preprocess == preprocess,
    {
        let head: u64 = fingerprint(raw);
        Source {
            data: utf8,
            transcoded: true,
            detected,
            stat: FileStat { len, mtime, head },
            map_us,
            preprocess,
        }
    }

    /// The encoding of the bytes to index.
    pub open spec fn stored(self) -> Encoding {
        if self.transcoded {
            Encoding::Utf8
        } else {
            self.detected
        }
    }
}

/// What an open log file is.
pub struct LogView {
    /// The indexed bytes.
    pub data: Seq<u8>,
    /// Where the first line starts.
    pub first: int,
    /// Whether the bytes are the UTF-8 form of a UTF-16 file.
    pub transcoded: bool,
    /// The encoding of the bytes.
    pub encoding: Encoding,
    /// The layout of the line index.
    pub segments: Seq<SegmentView>,
    /// The state of the file when it was opened.
    pub stat: FileStat,
    /// What opening measured.
    pub stats: OpenStats,
}

impl LogView {
    /// The lines.
    pub open spec fn lines(self) -> Seq<Seq<u8>> {
        lines_of(self.data, self.first)
    }

    /// Where each line starts.
    pub open spec fn starts(self) -> Seq<int> {
        line_starts(self.data, self.first)
    }
}

/// `bytes` is the size `exact`, or the largest size where that is too large.
pub open spec fn size_of_index(bytes: usize, exact: int) -> bool {
    bytes == exact || (bytes == usize::MAX && exact > usize::MAX)
}

/// `log` is `source`, opened.
pub open spec fn is_opened(log: LogView, source: Source) -> bool {
    &&& log.data == source.data@
    &&& log.first == text_start(source.data@)
    &&& log.transcoded == source.transcoded
    &&& log.encoding == source.stored()
    &&& log.stat == source.stat
    &&& log.stats.file_bytes == source.stat.len
    &&& log.stats.map_us == source.map_us
    &&& log.stats.line_count == log.lines().len()
    &&& index_ok(log.segments, log.starts())
    &&& size_of_index(log.stats.index_bytes, resident(log.segments))
    &&& log.stats.encoding == source.detected
    &&& log.stats.preprocess == source.preprocess
}

/// `log` is `source`, opened as a file that grew from `old`.
pub open spec fn is_appended(log: LogView, old: LogView, source: Source) -> bool {
    &&& log.data == source.data@
    &&& log.first == grown_first(old.first, old.data, source.data@)
    &&& !log.transcoded
    &&& log.encoding == old.encoding
    &&& log.stat == source.stat
    &&& log.stats.file_bytes == source.stat.len
    &&& log.stats.map_us == source.map_us
    &&& log.stats.line_count == log.lines().len()
    &&& index_ok(log.segments, log.starts())
    &&& size_of_index(log.stats.index_bytes, resident(log.segments))
    &&& log.stats.encoding == old.stats.encoding
    &&& log.stats.preprocess == old.stats.preprocess
}

/// A log file that grew by bytes at its end, so that its index can be extended. Neither it
/// nor the file that it is now is transcoded.
pub open spec fn grew(old: LogView, source: Source) -> bool {
    &&& !old.transcoded
    &&& !source.transcoded
    &&& old.data.len() < source.data@.len()
    &&& has_prefix(source.data@, old.data)
}

/// The bytes that are scanned when the file that `old` was is opened again: those behind
/// it where it grew, and else all.
pub open spec fn scanned_len(old: LogView, source: Source) -> int {
    if grew(old, source) {
        source.data@.len() - old.data.len()
    } else {
        source.data@.len() as int
    }
}

/// An open log file: bytes and the index of their lines.
pub struct LogFile<'a> {
    data: &'a [u8],
    transcoded: bool,
    encoding: Encoding,
    index: LineIndex,
    stat: FileStat,
    stats: OpenStats,
}

/// How a grown file was opened.
pub enum AppendOutcome<'a> {
    /// Its index was extended over the new bytes.
    Appended(LogFile<'a>),
    /// It was indexed anew: it is transcoded, or it is not the old file with more
    /// bytes at its end.
    Rebuilt(LogFile<'a>),
}

impl<'a> View for LogFile<'a> {
    type V = LogView;

    closed spec fn view(&self) -> LogView {
        LogView {
            data: self.data@,
            first: index_first(self.index),
            transcoded: self.transcoded,
            encoding: self.encoding,
            segments: segment_views(self.index.segments@),
            stat: self.stat,
            stats: self.stats,
        }
    }
}

impl<'a> LogFile<'a> {
    #[verifier::type_invariant]
    spec fn well_formed(self) -> bool {
        valid_index(self.index, self.data@)
    }

    /// Opens and indexes a file.
    pub fn open(source: Source<'a>) -> (out: Result<Self, IndexError>)
        ensures
            out matches Ok(log) && is_opened(log@, source) && log@.segments.len() <= 1,
    {
        let hooks = IndexHooks::default();
        Self::open_with_hooks(source, &hooks)
    }

    /// Opens and indexes a file, reporting progress and stopping on request. A file that
    /// is opened has been reported whole and the cancel flag was found lowered; where it
    /// was found raised, less was reported than the file holds, and no index is handed
    /// out.
    pub fn open_with_hooks(source: Source<'a>, hooks: &IndexHooks) -> (out: Result<
        Self,
        IndexError,
    >)
        ensures
            hooks.cancel is None ==> out is Ok,
            hooks.always_reads(false) ==> out is Ok,
            hooks.always_reads(true) ==> out is Err,
            out is Ok ==> hooks.reads_cancelled(false) && hooks.reports(source.data@.len() as int),
            out matches Ok(log) ==> is_opened(log@, source) && log@.segments.len() <= 1,
            out matches Err(error) ==> hooks.stopped_by(error, source.data@.len() as int),
    {
        let built = build_line_index_with(source.data, 1, hooks);
        proof {
            if built is Ok {
                lemma_indexes_valid(built->Ok_0, source.data@, text_start(source.data@));
            }
        }
        Self::open_indexed(source, built)
    }

    /// Opens a file with the index that was built of it.
    pub fn open_indexed(
        source: Source<'a>,
        built: Result<LineIndex, IndexError>,
    ) -> (out: Result<Self, IndexError>)
        requires
            built matches Ok(index) ==> valid_index(index, source.data@) && (source.data@.len() > 0
                ==> index_first(index) == text_start(source.data@)),
        ensures
            out is Ok <==> built is Ok,
            out is Err ==> out->Err_0 == built->Err_0,
            out matches Ok(log) ==> is_opened(log@, source) && log@.segments == segment_views(
                built->Ok_0.segments@,
            ),
    {
        match built {
            Err(error) => Err(error),
            Ok(index) => {
                let stats = OpenStats {
                    file_bytes: source.stat.len,
                    map_us: source.map_us,
                    index: 0,
                    line_count: index.line_count,
                    index_bytes: index.resident_bytes(),
                    encoding: source.detected,
                    open: 0,
                    preprocess: source.preprocess,
                };
                let encoding = if source.transcoded {
                    Encoding::Utf8
                } else {
                    source.detected
                };
                Ok(
                    LogFile {
                        data: source.data,
                        transcoded: source.transcoded,
                        encoding,
                        index,
                        stat: source.stat,
                        stats,
                    },
                )
            },
        }
    }

    /// A placeholder without bytes, read like an empty file.
    pub fn empty() -> (out: LogFile<'static>)
        ensures
            out@.data == Seq::<u8>::empty(),
            out@.lines() == Seq::<Seq<u8>>::empty(),
            out@.encoding is Utf8,
            out@.segments == Seq::<SegmentView>::empty(),
            out@.transcoded,
            out@.stat == (FileStat { len: 0, mtime: None, head: 0 }),
            out@.stats == (OpenStats {
                file_bytes: 0,
                map_us: 0,
                index: 0,
                line_count: 0,
                index_bytes: 0,
                encoding: Encoding::Utf8,
                open: 0,
                preprocess: 0,
            }),
    {
        let index = LineIndex { segments: Vec::new(), line_count: 0, reported: 0 };
        let data: &'static [u8] = &[];
        let out = LogFile {
            data,
            transcoded: true,
            encoding: Encoding::Utf8,
            index,
            stat: FileStat { len: 0, mtime: None, head: 0 },
            stats: OpenStats {
                file_bytes: 0,
                map_us: 0,
                index: 0,
                line_count: 0,
                index_bytes: 0,
                encoding: Encoding::Utf8,
                open: 0,
                preprocess: 0,
            },
        };
        assert(out@.segments =~= Seq::empty());
        assert(out@.lines() =~= Seq::empty());
        out
    }

    /// Notes how long indexing and opening took, in nanoseconds.
    pub fn with_timings(self, index: u64, open: u64) -> (out: Self)
        ensures
            out@ == (LogView { stats: OpenStats { index, open, ..self@.stats }, ..self@ }),
    {
        proof {
            use_type_invariant(&self);
        }
        let stats = OpenStats { index, open, ..self.stats };
        LogFile {
            data: self.data,
            transcoded: self.transcoded,
            encoding: self.encoding,
            index: self.index,
            stat: self.stat,
            stats,
        }
    }

    /// What opening measured.
    pub fn stats(&self) -> (out: &OpenStats)
        ensures
            *out == self@.stats,
    {
        &self.stats
    }

    /// The number of lines.
    pub fn line_count(&self) -> (out: u64)
        ensures
            out == self@.lines().len(),
    {
        proof {
            use_type_invariant(self);
        }
        self.index.line_count
    }

    /// The encoding of the indexed bytes, by which lines are to be decoded.
    pub fn encoding(&self) -> (out: Encoding)
        ensures
            out == self@.encoding,
    {
        self.encoding
    }

    /// The indexed bytes.
    pub fn data(&self) -> (out: &'a [u8])
        ensures
            out@ == self@.data,
    {
        self.data
    }

    /// The bytes of line `i`, without its line end; nothing for a line that is not
    /// there.
    pub fn line(&self, i: u64) -> (out: &'a [u8])
        ensures
            out@ == if i < self@.lines().len() {
                self@.lines()[i as int]
            } else {
                Seq::empty()
            },
    {
        proof {
            use_type_invariant(self);
        }
        self.index.line(self.data, i)
    }

    /// The number of the line that holds the byte at offset `off`.
    pub fn line_of_offset(&self, off: u64) -> (out: u64)
        requires
            self@.lines().len() > 0,
        ensures
            out == line_at(self@.starts(), off as int),
            out < self@.lines().len(),
    {
        proof {
            use_type_invariant(self);
        }
        self.index.line_of_offset(self.data, off)
    }

    /// All lines in order.
    pub fn lines(&self) -> (out: LineIter<'a>)
        ensures
            out@.lines == self@.lines(),
            out@.next == 0,
    {
        self.lines_from(0)
    }

    /// The lines from number `start_line` on, in order.
    pub fn lines_from(&self, start_line: u64) -> (out: LineIter<'a>)
        ensures
            out@.lines == self@.lines(),
            out@.next == start_line,
    {
        proof {
            use_type_invariant(self);
        }
        let start: usize = if start_line >= self.index.line_count {
            self.data.len()
        } else {
            self.index.line_start(self.data, start_line)
        };
        LineIter {
            data: self.data,
            next: start_line,
            start,
            count: self.index.line_count,
            first: Ghost(index_first(self.index)),
        }
    }

    /// The state of the file when it was opened.
    pub fn stat_snapshot(&self) -> (out: FileStat)
        ensures
            out == self@.stat,
    {
        self.stat
    }

    /// Whether the file is no longer as it was opened: its state now is another, or
    /// it cannot be read.
    pub fn is_stale(&self, current: Option<FileStat>) -> (out: bool)
        ensures
            out == (current != Some(self@.stat)),
    {
        match current {
            Some(stat) => stat != self.stat,
            None => true,
        }
    }

    /// Opens the file anew in place, where it could be read; else the old view
    /// stays as it is.
    pub fn rebuild<E>(&mut self, source: Result<Source<'a>, E>) -> (out: Result<(), E>)
        ensures
            match source {
                Ok(s) => out is Ok && is_opened(final(self)@, s),
                Err(e) => out == Err::<(), E>(e) && *final(self) == *old(self),
            },
    {
        match source {
            Ok(s) => {
                if let Ok(log) = Self::open(s) {
                    *self = log;
                }
                Ok(())
            },
            Err(e) => Err(e),
        }
    }

    /// Whether the file grew by bytes at its end to what `source` is, so that its index can
    /// be extended.
    pub fn has_grown_to(&self, source: &Source<'_>) -> (out: bool)
        ensures
            out == grew(self@, *source),
    {
        !self.transcoded && !source.transcoded && self.data.len() < source.data.len()
            && starts_with(source.data, self.data)
    }

    /// Opens a file that has grown, by extending the index of `old` where that can
    /// be done.
    pub fn append_from(old: &LogFile<'_>, source: Source<'a>) -> (out: Result<Self, IndexError>)
        ensures
            out matches Ok(log) && if grew(old@, source) {
                is_appended(log@, old@, source)
            } else {
                is_opened(log@, source)
            },
    {
        let hooks = IndexHooks::default();
        match Self::append_from_with_hooks(old, source, &hooks) {
            Ok(AppendOutcome::Appended(log)) => Ok(log),
            Ok(AppendOutcome::Rebuilt(log)) => Ok(log),
            Err(error) => Err(error),
        }
    }

    /// Opens a file that has grown, reporting progress over the new bytes and
    /// stopping on request, and says whether the index of `old` was extended. As in
    /// [`LogFile::open_with_hooks`], all bytes that were to be scanned are reported
    /// exactly where the cancel flag was found lowered.
    pub fn append_from_with_hooks(
        old: &LogFile<'_>,
        source: Source<'a>,
        hooks: &IndexHooks,
    ) -> (out: Result<AppendOutcome<'a>, IndexError>)
        ensures
            hooks.cancel is None ==> out is Ok,
            hooks.always_reads(false) ==> out is Ok,
            hooks.always_reads(true) ==> out is Err,
            out is Ok ==> hooks.reads_cancelled(false) && hooks.reports(
                scanned_len(old@, source),
            ),
            out matches Err(error) ==> hooks.stopped_by(error, scanned_len(old@, source)),
            out matches Ok(outcome) ==> match outcome {
                AppendOutcome::Appended(log) => grew(old@, source) && is_appended(
                    log@,
                    old@,
                    source,
                ),
                AppendOutcome::Rebuilt(log) => !grew(old@, source) && is_opened(log@, source),
            },
    {
        proof {
            use_type_invariant(old);
        }
        if !old.has_grown_to(&source) {
            return match Self::open_with_hooks(source, hooks) {
                Ok(log) => Ok(AppendOutcome::Rebuilt(log)),
                Err(error) => Err(error),
            };
        }
        match append_index(&old.index, old.data, source.data, hooks) {
            Err(error) => Err(error),
            Ok(index) => {
                let stats = OpenStats {
                    file_bytes: source.stat.len,
                    map_us: source.map_us,
                    index: 0,
                    line_count: index.line_count,
                    index_bytes: index.resident_bytes(),
                    encoding: old.stats.encoding,
                    open: 0,
                    preprocess: old.stats.preprocess,
                };
                Ok(
                    AppendOutcome::Appended(
                        LogFile {
                            data: source.data,
                            transcoded: false,
                            encoding: old.encoding,
                            index,
                            stat: source.stat,
                            stats,
                        },
                    ),
                )
            },
        }
    }
}

/// Opening a grown file by extending its old index shows the lines that opening it
/// anew shows, and so does every further growth.
pub proof fn lemma_appended_is_opened(
    old: LogView,
    appended: LogView,
    opened: LogView,
    source: Source,
)
    requires
        old.first == text_start(old.data),
        grew(old, source),
        is_appended(appended, old, source),
        is_opened(opened, source),
    ensures
        appended.lines() == opened.lines(),
        appended.first == text_start(appended.data),
{
    let new = source.data@;
    if old.data.len() >= 3 {
        assert(old.data[0] == new[0] && old.data[1] == new[1] && old.data[2] == new[2]);
    }
}

/// What a walk over lines is: the lines, and the number of the next one.
pub struct LineIterView {
    pub lines: Seq<Seq<u8>>,
    pub next: int,
}

/// A walk over the lines of a file, in order and without looking anything up.
pub struct LineIter<'a> {
    data: &'a [u8],
    next: u64,
    start: usize,
    count: u64,
    first: Ghost<int>,
}

impl<'a> View for LineIter<'a> {
    type V = LineIterView;

    closed spec fn view(&self) -> LineIterView {
        LineIterView { lines: lines_of(self.data@, self.first@), next: self.next as int }
    }
}

impl<'a> LineIter<'a> {
    #[verifier::type_invariant]
    spec fn well_formed(self) -> bool {
        let starts = line_starts(self.data@, self.first@);
        &&& first_line_ok(self.data@, self.first@)
        &&& self.count == starts.len()
        &&& self.next < self.count ==> self.start == starts[self.next as int]
    }

    /// The next line with its number, or nothing behind the last line.
    pub fn next(&mut self) -> (out: Option<(u64, &'a [u8])>)
        ensures
            final(self)@.lines == old(self)@.lines,
            old(self)@.next < old(self)@.lines.len() ==> {
                &&& out matches Some((i, line)) && i == old(self)@.next && line@ == old(
                    self,
                )@.lines[old(self)@.next]
                &&& final(self)@.next == old(self)@.next + 1
            },
            old(self)@.next >= old(self)@.lines.len() ==> out is None && final(self)@.next == old(
                self,
            )@.next,
    {
        proof {
            use_type_invariant(&*self);
        }
        if self.next >= self.count {
            return None;
        }
        let i: u64 = self.next;
        proof {
            lemma_next_start(self.data@, self.first@, i as int);
        }
        let data = self.data;
        let (line, end) = read_line(data, self.start);
        let start: usize = if end < data.len() {
            end + 1
        } else {
            data.len()
        };
        let count: u64 = self.count;
        let first: Ghost<int> = self.first;
        *self = LineIter { data, next: i + 1, start, count, first };
        Some((i, line))
    }
}

} // verus!
