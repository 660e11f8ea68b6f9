//! Extending the index of a file that has grown.

use vstd::prelude::*;

use crate::bytes::NEWLINE;
use crate::chunk::{lemma_strided_push, scan_onto, starts_with_bom, strided, INDEX_STRIDE};
use crate::hooks::{IndexError, IndexHooks};
use crate::index::{
    index_first, index_ok, indexes, lemma_indexes_valid, segment_end, segment_ok, segment_views,
    set_first, valid_index, LineIndex, Segment, SegmentView,
};
use crate::lines::{
    appended_starts, breaks, grown_first, lemma_append_starts, lemma_breaks_rise,
    lemma_breaks_shift, lemma_file_breaks_len, line_starts, resumed, text_start,
};

verus! {

fn clone_segments(segments: &Vec<Segment>) -> (out: Vec<Segment>)
    ensures
        segment_views(out@) == segment_views(segments@),
{
    let mut copy: Vec<Segment> = Vec::new();
    let mut k: usize = 0;
    while k < segments.len()
        invariant
            k <= segments@.len(),
            segment_views(copy@) == segment_views(segments@.take(k as int)),
        decreases segments@.len() - k,
    {
        let segment = &segments[k];
        let strides: Vec<u64> = segment.strides.clone();
        proof {
            assert(strides@ =~= segment.strides@);
            assert(segments@.take(k + 1) =~= segments@.take(k as int).push(segments@[k as int]));
        }
        let ghost before = copy@;
        copy.push(Segment { base_line: segment.base_line, strides });
        proof {
            assert(segment_views(copy@) =~= segment_views(before).push(copy@.last()@));
            assert(segment_views(segments@.take(k + 1)) =~= segment_views(
                segments@.take(k as int),
            ).push(segments@[k as int]@));
        }
        k = k + 1;
    }
    assert(segments@.take(k as int) =~= segments@);
    copy
}

/// Indexes a file that has grown from `old_data` to `new_data` by looking at the
/// bytes behind `old_data` alone, which extend the last segment. Where `old_data` was too
/// short for a byte order mark, the first line starts where that of `new_data` does. A
/// file that has not grown keeps its index.
pub fn append_index(
    old: &LineIndex,
    old_data: &[u8],
    new_data: &[u8],
    hooks: &IndexHooks,
) -> (out: Result<LineIndex, IndexError>)
    requires
        valid_index(*old, old_data@),
    ensures
        hooks.cancel is None || new_data@.len() <= old_data@.len() ==> out is Ok,
        out matches Ok(index) ==> {
            &&& indexes(
                index,
                appended_starts(
                    line_starts(old_data@, index_first(*old)),
                    old_data@,
                    new_data@,
                ),
            )
            &&& index.reported == if new_data@.len() <= old_data@.len() {
                0
            } else {
                new_data@.len() - old_data@.len()
            }
            &&& hooks.reports(index.reported as int)
        },
        out is Ok && old_data@.len() < new_data@.len() ==> hooks.reads_cancelled(false),
        out matches Err(error) ==> hooks.stopped_by(error, new_data@.len() - old_data@.len()),
        out is Ok && old_data@.len() < new_data@.len() && old_data@ == new_data@.take(
            old_data@.len() as int,
        ) ==> valid_index(out->Ok_0, new_data@) && index_first(out->Ok_0) == grown_first(
            index_first(*old),
            old_data@,
            new_data@,
        ),
{
    let old_len: usize = old_data.len();
    let new_len: usize = new_data.len();
    let ghost starts = line_starts(old_data@, index_first(*old));
    let ghost views = segment_views(old.segments@);
    let mut segments: Vec<Segment> = clone_segments(&old.segments);
    if new_len <= old_len {
        proof {
            hooks.lemma_reports_nothing();
        }
        return Ok(LineIndex { segments, line_count: old.line_count, reported: 0 });
    }
    let mut base_line: u64 = 0;
    let mut strides: Vec<u64> = Vec::new();
    let ghost mut local_starts: Seq<int> = Seq::empty();
    proof {
        if views.len() > 0 {
            assert(segment_ok(views, starts, views.len() - 1));
            assert(segment_views(segments@)[segments@.len() - 1] == segments@.last()@);
        }
        if old_data@.len() > 0 {
            lemma_file_breaks_len(old_data@);
        }
    }
    match segments.pop() {
        Some(last) => {
            base_line = last.base_line;
            strides = last.strides;
            proof {
                local_starts = starts.subrange(base_line as int, starts.len() as int);
            }
        },
        None => {},
    }
    let ghost kept = segment_views(segments@);
    let mut local: u64 = old.line_count - base_line;
    proof {
        assert(starts =~= starts.take(base_line as int) + local_starts);
        assert(kept =~= if views.len() > 0 {
            views.drop_last()
        } else {
            views
        });
    }
    let ghost mut more: Seq<int> = Seq::empty();
    if old_len == 0 || old_data[old_len - 1] == NEWLINE {
        proof {
            lemma_strided_push(strides@, local_starts, old_len as u64);
            more = seq![old_len as int];
        }
        if local % INDEX_STRIDE == 0 {
            strides.push(old_len as u64);
        }
        local = local + 1;
    }
    let ghost before = local_starts + more;
    proof {
        assert(more =~= resumed(old_data@));
        assert(before =~= if more.len() > 0 {
            local_starts.push(old_len as int)
        } else {
            local_starts
        });
    }
    let scan = scan_onto(
        strides,
        local,
        &new_data[old_len..new_len],
        old_len as u64,
        new_len as u64,
        hooks,
        Ghost(before),
    );
    if !scan.complete {
        return Err(IndexError::Cancelled { reported: scan.reported });
    }
    let ghost m = old_len as int;
    let ghost n = new_len as int;
    let ghost tail = breaks(new_data@, 0, n, m, n);
    let ghost all = starts + resumed(old_data@) + tail;
    proof {
        lemma_breaks_shift(new_data@, 0, n, m, n, 0, n - m);
        assert(all =~= starts.take(base_line as int) + (before + tail));
        lemma_breaks_rise(new_data@, 0, n, m, n - 1);
        assert(all.subrange(base_line as int, all.len() as int) =~= before + tail);
    }
    let segment = Segment { base_line, strides: scan.strides };
    segments.push(segment);
    proof {
        let now = segment_views(segments@);
        assert(now =~= kept.push(segment@));
        assert(all.take(starts.len() as int) =~= starts);
        lemma_index_extend(views, starts, all, segment@);
        assert(index_ok(now, all));
    }
    let line_count: u64 = base_line + scan.count;
    if old_len < 3 {
        let first: u64 = if starts_with_bom(new_data) {
            3
        } else {
            0
        };
        set_first(&mut segments, first, Ghost(all));
    }
    assert(appended_starts(starts, old_data@, new_data@) =~= if old_len < 3 {
        all.update(0, text_start(new_data@))
    } else {
        all
    });
    let index = LineIndex { segments, line_count, reported: scan.reported };
    proof {
        if old_data@ == new_data@.take(m) {
            let first = index_first(*old);
            lemma_append_starts(old_data@, new_data@, first);
            if m >= 3 {
                assert(old_data@[0] == new_data@[0] && old_data@[1] == new_data@[1]
                    && old_data@[2] == new_data@[2]);
            }
            lemma_indexes_valid(index, new_data@, grown_first(first, old_data@, new_data@));
        }
    }
    Ok(index)
}

/// The index of the line starts `all`, of which `starts` were indexed by
/// `segments`, when the last segment is replaced by one that runs to the end.
proof fn lemma_index_extend(
    segments: Seq<SegmentView>,
    starts: Seq<int>,
    all: Seq<int>,
    last: SegmentView,
)
    requires
        index_ok(segments, starts),
        starts.len() <= all.len(),
        all.take(starts.len() as int) == starts,
        0 <= last.base < all.len(),
        segments.len() > 0 ==> last.base == segments.last().base,
        segments.len() == 0 ==> last.base == 0,
        strided(last.strides, all.subrange(last.base, all.len() as int)),
    ensures
        index_ok(
            (if segments.len() > 0 {
                segments.drop_last()
            } else {
                segments
            }).push(last),
            all,
        ),
{
    let kept = if segments.len() > 0 {
        segments.drop_last()
    } else {
        segments
    };
    let now = kept.push(last);
    assert forall|k: int| 0 <= k < now.len() implies #[trigger] segment_ok(now, all, k) by {
        if k < kept.len() {
            assert(segment_ok(segments, starts, k));
            let base = segments[k].base;
            let end = segment_end(segments, starts.len() as int, k);
            assert(segment_end(now, all.len() as int, k) == end);
            assert(all.subrange(base, end) =~= starts.subrange(base, end)) by {
                assert(starts.subrange(base, end) =~= all.take(starts.len() as int).subrange(
                    base,
                    end,
                ));
            }
        }
    }
}

} // verus!
