//! What rewriting the creation time of an MP4 leaves in the file: the box
//! structure stays as it was, and the movie creation time reads back as the
//! time written.
use vstd::prelude::*;
use crate::bytes::{
    be32_seq, be64_seq, big_endian_value, lemma_big_endian_value, lemma_big_endian_value4, spec_be_u32, spec_be_u64,
};
use crate::mp4::{
    box_within, boxes_within, is_time_container, lemma_boxes_within, payload_start, spec_boxes_from,
    spec_patch_fold, spec_patch_full_box, spec_patch_range, spec_read, time_box_kind, Chunk, FileView,
    Mp4Error, SpecBox, spec_mvhd_seconds, TimeBox, spec_find_mvhd, spec_creation_in_tops,
    spec_movie_creation_seconds, spec_write_mp4_creation_time, spec_quicktime_seconds,
    spec_movie_creation_instant, law_quicktime_seconds_round_trip, spec_parse_co64, spec_parse_stco,
    spec_parse_stsc, spec_parse_stts, spec_parse_stsz, spec_table,
};
use crate::time::{chrono_utc_valid, QUICKTIME_EPOCH_SECS};
use crate::time::Timestamp;
use vstd::wrapping::u64_specs::wrapping_add;

verus! {

/// The view holds the whole file `f` in one chunk.
pub open spec fn holds_whole_file(v: FileView, f: Seq<u8>) -> bool {
    &&& v.len == f.len()
    &&& v.chunks@.len() == 1
    &&& v.chunks@[0].offset == 0
    &&& v.chunks@[0].bytes@ == f
}

/// A read from a view of the whole file gives the file's bytes, or fails past
/// its end.
pub proof fn lemma_read_whole(v: FileView, f: Seq<u8>, o: int, n: int)
    requires
        holds_whole_file(v, f),
        0 <= o,
        0 <= n,
    ensures
        spec_read(v, o, n) == if o + n > f.len() {
            Err::<Seq<u8>, Mp4Error>(Mp4Error::ReadPastEnd { offset: o as u64, len: n as u64 })
        } else {
            Ok::<Seq<u8>, Mp4Error>(f.subrange(o, o + n))
        },
{
    let c: Chunk = v.chunks@[0];
    if o + n <= f.len() {
        assert(crate::mp4::chunk_covers(c, o, n));
        assert(crate::mp4::spec_first_cover(v.chunks@, o, n, 0) == Some(0nat));
    }
}

/// The bytes `f` after the write of `w.1` at offset `w.0`, cut off at the
/// end of `f`.
pub open spec fn apply_write(f: Seq<u8>, w: (u64, Seq<u8>)) -> Seq<u8> {
    Seq::new(f.len(), |i: int| if w.0 <= i < w.0 + w.1.len() { w.1[i - w.0] } else { f[i] })
}

/// The bytes `f` after the writes `ws`, one after another.
pub open spec fn apply_writes(f: Seq<u8>, ws: Seq<(u64, Seq<u8>)>) -> Seq<u8>
    decreases ws.len(),
{
    if ws.len() == 0 {
        f
    } else {
        apply_write(apply_writes(f, ws.drop_last()), ws.last())
    }
}

/// Whether the write `w` covers the position `p`.
pub open spec fn covers(w: (u64, Seq<u8>), p: int) -> bool {
    w.0 <= p < w.0 + w.1.len()
}

proof fn lemma_apply_untouched(f: Seq<u8>, ws: Seq<(u64, Seq<u8>)>, p: int)
    requires
        0 <= p < f.len(),
        forall|i: int| 0 <= i < ws.len() ==> !covers(#[trigger] ws[i], p),
    ensures
        apply_writes(f, ws).len() == f.len(),
        apply_writes(f, ws)[p] == f[p],
    decreases ws.len(),
{
    if ws.len() > 0 {
        assert forall|i: int| 0 <= i < ws.drop_last().len() implies !covers(#[trigger] ws.drop_last()[i], p) by {
            assert(ws.drop_last()[i] == ws[i]);
        }
        lemma_apply_untouched(f, ws.drop_last(), p);
        assert(!covers(ws[ws.len() - 1], p));
    }
}

/// Where every write that covers `p` puts `val` there, and one does, `p`
/// holds `val`.
proof fn lemma_apply_same(f: Seq<u8>, ws: Seq<(u64, Seq<u8>)>, p: int, val: u8)
    requires
        0 <= p < f.len(),
        exists|k: int| 0 <= k < ws.len() && covers(#[trigger] ws[k], p),
        forall|i: int| 0 <= i < ws.len() && covers(#[trigger] ws[i], p) ==> ws[i].1[p - ws[i].0] == val,
    ensures
        apply_writes(f, ws)[p] == val,
    decreases ws.len(),
{
    lemma_apply_len(f, ws.drop_last());
    let last = ws[ws.len() - 1];
    if !covers(last, p) {
        let k = choose|k: int| 0 <= k < ws.len() && covers(#[trigger] ws[k], p);
        assert(ws.drop_last()[k] == ws[k]);
        assert forall|i: int| 0 <= i < ws.drop_last().len() && covers(#[trigger] ws.drop_last()[i], p) implies ws.drop_last()[i].1[p - ws.drop_last()[i].0] == val by {
            assert(ws.drop_last()[i] == ws[i]);
        }
        lemma_apply_same(f, ws.drop_last(), p, val);
    }
}

proof fn lemma_apply_len(f: Seq<u8>, ws: Seq<(u64, Seq<u8>)>)
    ensures
        apply_writes(f, ws).len() == f.len(),
    decreases ws.len(),
{
    if ws.len() > 0 {
        lemma_apply_len(f, ws.drop_last());
    }
}


/// The header of the box that [`spec_boxes_from`] reads at `offset`: its
/// size field, its header length and its size.
pub open spec fn header_at(b: Seq<u8>, offset: int, end: int) -> (int, int) {
    let size32 = spec_be_u32(b, 0);
    let header: int = if size32 == 1 { 16 } else { 8 };
    let size: int = if size32 == 1 {
        spec_be_u64(b, 8)
    } else if size32 == 0 {
        end - offset
    } else {
        size32
    };
    (header, size)
}

/// Whether the walk of [`spec_boxes_from`] over `offset..end` looks at the
/// byte at `p`: the size and type fields of each header it reads, the one
/// where it stops included.
pub open spec fn walk_uses(v: FileView, offset: int, end: int, p: int) -> bool
    decreases end - offset,
{
    if offset + 8 > end {
        false
    } else {
        match spec_read(v, offset, 16) {
            Err(_) => false,
            Ok(b) => {
                let (header, size) = header_at(b, offset, end);
                ||| offset <= p < offset + header
                ||| (header <= size && offset + size <= end && walk_uses(v, offset + size, end, p))
            },
        }
    }
}

/// The walk looks at bytes from its start up to 8 bytes past its end.
proof fn lemma_walk_uses_range(v: FileView, offset: int, end: int, p: int)
    requires
        walk_uses(v, offset, end, p),
    ensures
        offset <= p < end + 8,
        p < v.len,
    decreases end - offset,
{
    if offset + 8 <= end {
        if let Ok(b) = spec_read(v, offset, 16) {
            let (header, size) = header_at(b, offset, end);
            if !(offset <= p < offset + header) {
                lemma_walk_uses_range(v, offset + size, end, p);
            }
        }
    }
}

/// Two files that agree on the bytes the walk looks at have the same boxes.
proof fn lemma_walk_frame(vf: FileView, f: Seq<u8>, vg: FileView, g: Seq<u8>, offset: int, end: int)
    requires
        holds_whole_file(vf, f),
        holds_whole_file(vg, g),
        f.len() == g.len(),
        0 <= offset,
        forall|p: int| walk_uses(vf, offset, end, p) ==> #[trigger] f[p] == g[p],
    ensures
        spec_boxes_from(vf, offset, end) == spec_boxes_from(vg, offset, end),
    decreases end - offset,
{
    if offset + 8 <= end {
        lemma_read_whole(vf, f, offset, 16);
        lemma_read_whole(vg, g, offset, 16);
        if offset + 16 <= f.len() {
            let bf = f.subrange(offset, offset + 16);
            let bg = g.subrange(offset, offset + 16);
            assert(walk_uses(vf, offset, end, offset));
            assert(bf[0] == bg[0]) by { assert(f[offset] == g[offset]); }
            assert(walk_uses(vf, offset, end, offset + 1));
            assert(walk_uses(vf, offset, end, offset + 2));
            assert(walk_uses(vf, offset, end, offset + 3));
            assert(bf[1] == bg[1] && bf[2] == bg[2] && bf[3] == bg[3]);
            assert(spec_be_u32(bf, 0) == spec_be_u32(bg, 0));
            let (header, size) = header_at(bf, offset, end);
            assert forall|q: int| 4 <= q < header implies bf[q] == bg[q] by {
                assert(walk_uses(vf, offset, end, offset + q));
                assert(f[offset + q] == g[offset + q]);
            }
            if header == 16 {
                assert(spec_be_u64(bf, 8) == spec_be_u64(bg, 8));
            }
            assert(bf.subrange(4, 8) =~= bg.subrange(4, 8));
            assert(header_at(bg, offset, end) == (header, size));
            if header <= size && offset + size <= end {
                assert forall|p: int| walk_uses(vf, offset + size, end, p) implies #[trigger] f[p] == g[p] by {
                    assert(walk_uses(vf, offset, end, p));
                }
                lemma_walk_frame(vf, f, vg, g, offset + size, end);
            }
        }
    }
}

/// The boxes of a walk lie one after another.
proof fn lemma_walk_ordered(v: FileView, offset: int, end: int)
    requires
        0 <= offset,
        end <= u64::MAX,
    ensures
        spec_boxes_from(v, offset, end) matches Ok(bs) ==> forall|i: int, j: int|
            0 <= i < j < bs.len() ==> #[trigger] bs[i].end <= #[trigger] bs[j].start,
    decreases end - offset,
{
    if offset + 8 <= end {
        if let Ok(b) = spec_read(v, offset, 16) {
            let (header, size) = header_at(b, offset, end);
            if header <= size && offset + size <= end {
                lemma_walk_ordered(v, offset + size, end);
                lemma_boxes_within(v, offset + size, end);
                if let Ok(bs) = spec_boxes_from(v, offset, end) {
                    let rest = spec_boxes_from(v, offset + size, end)->Ok_0;
                    assert forall|i: int, j: int| 0 <= i < j < bs.len() implies #[trigger] bs[i].end <= #[trigger] bs[j].start by {
                        assert(bs[j] == rest[j - 1]);
                        if i > 0 {
                            assert(bs[i] == rest[i - 1]);
                        } else {
                            assert(rest[j - 1].start >= offset + size);
                        }
                    }
                }
            }
        }
    }
}

/// The walk does not look inside the boxes it finds.
proof fn lemma_walk_skips_payloads(v: FileView, offset: int, end: int, k: int, p: int)
    requires
        0 <= offset,
        end <= u64::MAX,
        spec_boxes_from(v, offset, end) matches Ok(bs) && 0 <= k < bs.len() && bs[k].start
            + bs[k].header_size <= p < bs[k].end,
    ensures
        !walk_uses(v, offset, end, p),
    decreases end - offset,
{
    let bs = spec_boxes_from(v, offset, end)->Ok_0;
    let b = spec_read(v, offset, 16)->Ok_0;
    let (header, size) = header_at(b, offset, end);
    lemma_boxes_within(v, offset + size, end);
    if walk_uses(v, offset + size, end, p) {
        lemma_walk_uses_range(v, offset + size, end, p);
    }
    if k > 0 {
        let rest = spec_boxes_from(v, offset + size, end)->Ok_0;
        assert(bs[k] == rest[k - 1]);
        lemma_walk_skips_payloads(v, offset + size, end, k - 1, p);
    }
}

/// Whether a time box holds its two time fields: 8 bytes each in a
/// version-1 box, 4 bytes each otherwise, after version and flags.
pub open spec fn time_fields_fit(v: FileView, b: SpecBox) -> bool {
    match spec_read(v, payload_start(b) as int, 1) {
        Err(_) => true,
        Ok(bytes) => if bytes[0] == 1 {
            payload_start(b) + 20 <= b.end
        } else {
            payload_start(b) + 12 <= b.end
        },
    }
}

/// Whether every time box that rewriting the range `start..end` reaches
/// holds its two time fields.
pub open spec fn range_fits(v: FileView, start: int, end: int) -> bool
    decreases end - start, 1int, 0int,
{
    match spec_boxes_from(v, start, end) {
        Err(_) => true,
        Ok(bs) => fold_fits(v, bs, 0, start, end),
    }
}

pub open spec fn fold_fits(v: FileView, bs: Seq<SpecBox>, i: nat, start: int, end: int) -> bool
    decreases end - start, 0int, bs.len() - i,
{
    if i >= bs.len() {
        true
    } else {
        let b = bs[i as int];
        &&& box_within(b, start, end) ==> match time_box_kind(b.typ) {
            Some(_) => time_fields_fit(v, b),
            None => is_time_container(b.typ) ==> range_fits(v, payload_start(b) as int, b.end as int),
        }
        &&& fold_fits(v, bs, i + 1, start, end)
    }
}

/// Whether `w` is one of the writes that rewriting box `bs[i..]` asks for.
pub open spec fn fold_write(v: FileView, bs: Seq<SpecBox>, i: nat, start: int, end: int, seconds: u64, w: (u64, Seq<u8>)) -> bool
    decreases end - start, 0int, bs.len() - i,
{
    if i >= bs.len() {
        false
    } else {
        let b = bs[i as int];
        ||| box_within(b, start, end) && match time_box_kind(b.typ) {
            Some(kind) => spec_patch_full_box(v, b, kind, seconds).0.contains(w),
            None => is_time_container(b.typ) && range_write(v, payload_start(b) as int, b.end as int, seconds, w),
        }
        ||| fold_write(v, bs, i + 1, start, end, seconds, w)
    }
}

/// Whether `w` is one of the writes that rewriting the range `start..end`
/// asks for.
pub open spec fn range_write(v: FileView, start: int, end: int, seconds: u64, w: (u64, Seq<u8>)) -> bool
    decreases end - start, 1int, 0int,
{
    match spec_boxes_from(v, start, end) {
        Err(_) => false,
        Ok(bs) => fold_write(v, bs, 0, start, end, seconds, w),
    }
}

/// Every write of a rewrite that ends without error is one that some time
/// box asks for.
proof fn lemma_fold_writes(v: FileView, bs: Seq<SpecBox>, i: nat, seconds: u64, start: int, end: int)
    ensures
        spec_patch_fold(v, bs, i, seconds, start, end).1 is None ==> forall|k: int|
            0 <= k < spec_patch_fold(v, bs, i, seconds, start, end).0.len() ==> fold_write(
                v,
                bs,
                i,
                start,
                end,
                seconds,
                #[trigger] spec_patch_fold(v, bs, i, seconds, start, end).0[k],
            ),
    decreases end - start, 0int, bs.len() - i,
{
    if i < bs.len() {
        let b = bs[i as int];
        lemma_fold_writes(v, bs, i + 1, seconds, start, end);
        if box_within(b, start, end) {
            let (w1, e1) = match time_box_kind(b.typ) {
                Some(kind) => spec_patch_full_box(v, b, kind, seconds),
                None => if is_time_container(b.typ) {
                    spec_patch_range(v, payload_start(b) as int, b.end as int, seconds)
                } else {
                    (Seq::empty(), None)
                },
            };
            if time_box_kind(b.typ) is None && is_time_container(b.typ) {
                lemma_range_writes(v, payload_start(b) as int, b.end as int, seconds);
            }
            if e1 is None {
                let (w2, e2) = spec_patch_fold(v, bs, i + 1, seconds, start, end);
                let ws = w1 + w2;
                if e2 is None {
                    assert(w2 == spec_patch_fold(v, bs, i + 1, seconds, start, end).0);
                    assert forall|k: int| 0 <= k < ws.len() implies fold_write(v, bs, i, start, end, seconds, #[trigger] ws[k]) by {
                        if k < w1.len() {
                            assert(ws[k] == w1[k]);
                            if let Some(kind) = time_box_kind(b.typ) {
                                assert(w1 == spec_patch_full_box(v, b, kind, seconds).0);
                                assert(w1.contains(w1[k]));
                            } else {
                                assert(w1 == spec_patch_range(v, payload_start(b) as int, b.end as int, seconds).0);
                                assert(range_write(v, payload_start(b) as int, b.end as int, seconds, w1[k]));
                            }
                        } else {
                            assert(ws[k] == w2[k - w1.len()]);
                            assert(fold_write(v, bs, i + 1, start, end, seconds, w2[k - w1.len()]));
                        }
                    }
                }
            }
        }
    }
}

proof fn lemma_range_writes(v: FileView, start: int, end: int, seconds: u64)
    ensures
        spec_patch_range(v, start, end, seconds).1 is None ==> forall|k: int|
            0 <= k < spec_patch_range(v, start, end, seconds).0.len() ==> range_write(
                v,
                start,
                end,
                seconds,
                #[trigger] spec_patch_range(v, start, end, seconds).0[k],
            ),
    decreases end - start, 1int, 0int,
{
    if let Ok(bs) = spec_boxes_from(v, start, end) {
        lemma_fold_writes(v, bs, 0, seconds, start, end);
    }
}

/// Whether `w` is one of the writes that rewriting the box `b` asks for.
pub open spec fn box_write(v: FileView, b: SpecBox, seconds: u64, w: (u64, Seq<u8>)) -> bool {
    match time_box_kind(b.typ) {
        Some(kind) => spec_patch_full_box(v, b, kind, seconds).0.contains(w),
        None => is_time_container(b.typ) && range_write(v, payload_start(b) as int, b.end as int, seconds, w),
    }
}

/// A write of the boxes `bs[i..]` is a write of one of them.
proof fn lemma_fold_write_box(v: FileView, bs: Seq<SpecBox>, i: nat, start: int, end: int, seconds: u64, w: (u64, Seq<u8>))
    requires
        fold_write(v, bs, i, start, end, seconds, w),
    ensures
        exists|j: int| i <= j < bs.len() && box_within(bs[j], start, end) && box_write(v, #[trigger] bs[j], seconds, w),
    decreases bs.len() - i,
{
    let b = bs[i as int];
    if box_within(b, start, end) && box_write(v, b, seconds, w) {
        assert(box_write(v, bs[i as int], seconds, w));
    } else {
        lemma_fold_write_box(v, bs, i + 1, start, end, seconds, w);
    }
}

proof fn lemma_fold_fits_at(v: FileView, bs: Seq<SpecBox>, i: nat, start: int, end: int, j: int)
    requires
        fold_fits(v, bs, i, start, end),
        i <= j < bs.len(),
    ensures
        box_within(bs[j], start, end) ==> match time_box_kind(bs[j].typ) {
            Some(_) => time_fields_fit(v, bs[j]),
            None => is_time_container(bs[j].typ) ==> range_fits(v, payload_start(bs[j]) as int, bs[j].end as int),
        },
    decreases bs.len() - i,
{
    if j > i {
        lemma_fold_fits_at(v, bs, i + 1, start, end, j);
    }
}

proof fn lemma_time_write_bounds(v: FileView, b: SpecBox, kind: crate::mp4::TimeBox, seconds: u64, w: (u64, Seq<u8>))
    requires
        spec_patch_full_box(v, b, kind, seconds).0.contains(w),
        time_fields_fit(v, b),
        b.start + b.header_size <= b.end <= u64::MAX,
    ensures
        payload_start(b) == b.start + b.header_size,
        payload_start(b) + 4 <= w.0,
        w.0 + w.1.len() <= b.end,
{
    reveal(crate::bytes::be16_seq);
    reveal(crate::bytes::be32_seq);
    reveal(crate::bytes::be64_seq);
    let ws = spec_patch_full_box(v, b, kind, seconds).0;
    let k = choose|k: int| 0 <= k < ws.len() && ws[k] == w;
    assert(ws.len() == 2);
}

/// Every byte that a write of the range `start..end` covers lies inside one
/// of the range's boxes, past its header and the 4 bytes of version and
/// flags that follow.
proof fn lemma_range_write_inside(v: FileView, start: int, end: int, seconds: u64, w: (u64, Seq<u8>), p: int)
    requires
        0 <= start,
        end <= u64::MAX,
        range_write(v, start, end, seconds, w),
        range_fits(v, start, end),
        covers(w, p),
    ensures
        spec_boxes_from(v, start, end) matches Ok(bs) && exists|j: int|
            0 <= j < bs.len() && #[trigger] bs[j].start + bs[j].header_size + 4 <= p < bs[j].end,
    decreases end - start,
{
    let bs = spec_boxes_from(v, start, end)->Ok_0;
    lemma_boxes_within(v, start, end);
    lemma_fold_write_box(v, bs, 0, start, end, seconds, w);
    let j = choose|j: int| 0 <= j < bs.len() && box_within(bs[j], start, end) && box_write(v, #[trigger] bs[j], seconds, w);
    let b = bs[j];
    lemma_fold_fits_at(v, bs, 0, start, end, j);
    assert(payload_start(b) == b.start + b.header_size);
    match time_box_kind(b.typ) {
        Some(kind) => {
            lemma_time_write_bounds(v, b, kind, seconds, w);
        },
        None => {
            lemma_range_write_inside(v, payload_start(b) as int, b.end as int, seconds, w, p);
            let cs = spec_boxes_from(v, payload_start(b) as int, b.end as int)->Ok_0;
            lemma_boxes_within(v, payload_start(b) as int, b.end as int);
            let i = choose|i: int| 0 <= i < cs.len() && #[trigger] cs[i].start + cs[i].header_size + 4 <= p < cs[i].end;
            assert(cs[i].start >= payload_start(b));
        },
    }
    assert(bs[j].start + bs[j].header_size + 4 <= p < bs[j].end);
}

/// The writes that a box of `bs[i..]` asks for, and whether it asks for them
/// without error.
pub open spec fn box_patch(v: FileView, b: SpecBox, seconds: u64) -> (Seq<(u64, Seq<u8>)>, Option<Mp4Error>) {
    match time_box_kind(b.typ) {
        Some(kind) => spec_patch_full_box(v, b, kind, seconds),
        None => if is_time_container(b.typ) {
            spec_patch_range(v, payload_start(b) as int, b.end as int, seconds)
        } else {
            (Seq::empty(), None)
        },
    }
}

/// A rewrite of `bs[i..]` that ends without error rewrote each of the boxes
/// without error and holds all their writes.
proof fn lemma_fold_includes(v: FileView, bs: Seq<SpecBox>, i: nat, seconds: u64, start: int, end: int, j: int)
    requires
        spec_patch_fold(v, bs, i, seconds, start, end).1 is None,
        i <= j < bs.len(),
        box_within(bs[j], start, end),
    ensures
        box_patch(v, bs[j], seconds).1 is None,
        forall|x: (u64, Seq<u8>)| #[trigger] box_patch(v, bs[j], seconds).0.contains(x)
            ==> spec_patch_fold(v, bs, i, seconds, start, end).0.contains(x),
    decreases bs.len() - i,
{
    let b = bs[i as int];
    if box_within(b, start, end) {
        let (w1, e1) = box_patch(v, b, seconds);
        let (w2, e2) = spec_patch_fold(v, bs, i + 1, seconds, start, end);
        assert(spec_patch_fold(v, bs, i, seconds, start, end) == (w1 + w2, e2));
        if j == i {
            assert forall|x: (u64, Seq<u8>)| #[trigger] w1.contains(x) implies (w1 + w2).contains(x) by {
                let k = choose|k: int| 0 <= k < w1.len() && w1[k] == x;
                assert((w1 + w2)[k] == x);
            }
        } else {
            lemma_fold_includes(v, bs, i + 1, seconds, start, end, j);
            assert forall|x: (u64, Seq<u8>)| #[trigger] box_patch(v, bs[j], seconds).0.contains(x) implies (w1 + w2).contains(x) by {
                assert(w2.contains(x));
                let k = choose|k: int| 0 <= k < w2.len() && w2[k] == x;
                assert((w1 + w2)[w1.len() + k] == x);
            }
        }
    } else {
        if j > i {
            lemma_fold_includes(v, bs, i + 1, seconds, start, end, j);
        }
    }
}

/// Whether a box that rewriting reaches holds what it rewrites: a time box
/// its time fields, a container every time box in it.
pub open spec fn box_fits(v: FileView, b: SpecBox) -> bool {
    match time_box_kind(b.typ) {
        Some(_) => time_fields_fit(v, b),
        None => is_time_container(b.typ) ==> range_fits(v, payload_start(b) as int, b.end as int),
    }
}

/// Every byte that a write of box `b` covers lies inside `b`, past its
/// header and the 4 bytes of version and flags.
proof fn lemma_box_write_inside(v: FileView, b: SpecBox, seconds: u64, w: (u64, Seq<u8>), p: int)
    requires
        box_write(v, b, seconds, w),
        box_fits(v, b),
        covers(w, p),
        8 <= b.header_size <= b.size,
        b.end == b.start + b.size,
        b.end <= u64::MAX,
    ensures
        b.start + b.header_size + 4 <= p < b.end,
{
    assert(payload_start(b) == b.start + b.header_size);
    match time_box_kind(b.typ) {
        Some(kind) => {
            lemma_time_write_bounds(v, b, kind, seconds, w);
        },
        None => {
            lemma_range_write_inside(v, payload_start(b) as int, b.end as int, seconds, w, p);
            let cs = spec_boxes_from(v, payload_start(b) as int, b.end as int)->Ok_0;
            lemma_boxes_within(v, payload_start(b) as int, b.end as int);
            let i = choose|i: int| 0 <= i < cs.len() && #[trigger] cs[i].start + cs[i].header_size + 4 <= p < cs[i].end;
            assert(cs[i].start >= payload_start(b));
        },
    }
}

/// A write of the range `start..end` that covers `p` is a write of the box
/// of the range that holds `p`.
proof fn lemma_range_write_box(v: FileView, start: int, end: int, seconds: u64, w: (u64, Seq<u8>), p: int, k: int)
    requires
        0 <= start,
        end <= u64::MAX,
        range_write(v, start, end, seconds, w),
        range_fits(v, start, end),
        covers(w, p),
        spec_boxes_from(v, start, end) matches Ok(bs) && 0 <= k < bs.len() && bs[k].start <= p < bs[k].end,
    ensures
        spec_boxes_from(v, start, end) matches Ok(bs) && box_write(v, bs[k], seconds, w) && box_fits(v, bs[k]),
{
    let bs = spec_boxes_from(v, start, end)->Ok_0;
    lemma_boxes_within(v, start, end);
    lemma_walk_ordered(v, start, end);
    lemma_fold_write_box(v, bs, 0, start, end, seconds, w);
    let j = choose|j: int| 0 <= j < bs.len() && box_within(bs[j], start, end) && box_write(v, #[trigger] bs[j], seconds, w);
    lemma_fold_fits_at(v, bs, 0, start, end, j);
    lemma_box_write_inside(v, bs[j], seconds, w, p);
    if j < k {
        assert(bs[j].end <= bs[k].start);
    } else if j > k {
        assert(bs[k].end <= bs[j].start);
    }
    lemma_fold_fits_at(v, bs, 0, start, end, k);
}

pub proof fn lemma_be32_round_trip(x: int)
    requires
        0 <= x < 0x1_0000_0000,
    ensures
        crate::bytes::be32_seq(x).len() == 4,
        spec_be_u32(crate::bytes::be32_seq(x), 0) == x,
{
    reveal(crate::bytes::be16_seq);
    reveal(crate::bytes::be32_seq);
    let hi = (x % 0x1_0000_0000) / 65536;
    let lo = x % 65536;
    assert(x == hi * 65536 + lo) by (nonlinear_arith)
        requires
            0 <= x < 0x1_0000_0000,
            hi == (x % 0x1_0000_0000) / 65536,
            lo == x % 65536;
    assert(hi == ((hi % 65536) / 256) * 256 + hi % 256) by (nonlinear_arith)
        requires
            0 <= hi < 65536;
    assert(lo == ((lo % 65536) / 256) * 256 + lo % 256) by (nonlinear_arith)
        requires
            0 <= lo < 65536;
}

proof fn lemma_be64_round_trip(x: int)
    requires
        0 <= x < 0x1_0000_0000_0000_0000,
    ensures
        crate::bytes::be64_seq(x).len() == 8,
        spec_be_u64(crate::bytes::be64_seq(x), 0) == x,
{
    reveal(crate::bytes::be64_seq);
    let hi = (x % 0x1_0000_0000_0000_0000) / 0x1_0000_0000;
    let lo = x % 0x1_0000_0000;
    assert(x == hi * 0x1_0000_0000 + lo) by (nonlinear_arith)
        requires
            0 <= x < 0x1_0000_0000_0000_0000,
            hi == (x % 0x1_0000_0000_0000_0000) / 0x1_0000_0000,
            lo == x % 0x1_0000_0000;
    assert(0 <= hi < 0x1_0000_0000) by (nonlinear_arith)
        requires
            0 <= x < 0x1_0000_0000_0000_0000,
            hi == (x % 0x1_0000_0000_0000_0000) / 0x1_0000_0000;
    lemma_be32_round_trip(hi);
    lemma_be32_round_trip(lo);
    let s = crate::bytes::be64_seq(x);
    let a = crate::bytes::be32_seq(hi);
    let b = crate::bytes::be32_seq(lo);
    assert(s == a + b);
    assert(spec_be_u32(s, 0) == spec_be_u32(a, 0));
    assert(spec_be_u32(s, 4) == spec_be_u32(b, 0));
}

/// The rewrite of the whole file `f` to `seconds` ends without error, and
/// every time box it reaches holds its time fields.
pub open spec fn clean_rewrite(vf: FileView, f: Seq<u8>, seconds: u64) -> bool {
    &&& holds_whole_file(vf, f)
    &&& spec_patch_range(vf, 0, f.len() as int, seconds).1 is None
    &&& range_fits(vf, 0, f.len() as int)
}

pub open spec fn rewrite_writes(vf: FileView, f: Seq<u8>, seconds: u64) -> Seq<(u64, Seq<u8>)> {
    spec_patch_range(vf, 0, f.len() as int, seconds).0
}

/// A write that covers a byte of the top-level box `tops[i]` is one of the
/// writes of that box.
proof fn lemma_top_write(vf: FileView, f: Seq<u8>, seconds: u64, k: int, p: int, i: int)
    requires
        clean_rewrite(vf, f, seconds),
        0 <= k < rewrite_writes(vf, f, seconds).len(),
        covers(rewrite_writes(vf, f, seconds)[k], p),
        spec_boxes_from(vf, 0, f.len() as int) matches Ok(tops) && 0 <= i < tops.len() && tops[i].start <= p < tops[i].end,
    ensures
        spec_boxes_from(vf, 0, f.len() as int) matches Ok(tops) && box_write(vf, tops[i], seconds, rewrite_writes(vf, f, seconds)[k])
            && box_fits(vf, tops[i]),
{
    lemma_range_writes(vf, 0, f.len() as int, seconds);
    lemma_range_write_box(vf, 0, f.len() as int, seconds, rewrite_writes(vf, f, seconds)[k], p, i);
}

/// No write covers a byte that the walk of the top-level boxes looks at.
proof fn lemma_top_walk_untouched(vf: FileView, f: Seq<u8>, seconds: u64, p: int)
    requires
        clean_rewrite(vf, f, seconds),
        walk_uses(vf, 0, f.len() as int, p),
    ensures
        forall|k: int| 0 <= k < rewrite_writes(vf, f, seconds).len() ==> !covers(#[trigger] rewrite_writes(vf, f, seconds)[k], p),
{
    let ws = rewrite_writes(vf, f, seconds);
    lemma_range_writes(vf, 0, f.len() as int, seconds);
    assert forall|k: int| 0 <= k < ws.len() implies !covers(#[trigger] ws[k], p) by {
        if covers(ws[k], p) {
            lemma_range_write_inside(vf, 0, f.len() as int, seconds, ws[k], p);
            let bs = spec_boxes_from(vf, 0, f.len() as int)->Ok_0;
            let j = choose|j: int| 0 <= j < bs.len() && #[trigger] bs[j].start + bs[j].header_size + 4 <= p < bs[j].end;
            lemma_walk_skips_payloads(vf, 0, f.len() as int, j, p);
        }
    }
}

/// No write covers a byte that the walk of the boxes inside a top-level
/// `moov` box looks at.
proof fn lemma_moov_walk_untouched(vf: FileView, f: Seq<u8>, seconds: u64, i: int, p: int)
    requires
        clean_rewrite(vf, f, seconds),
        spec_boxes_from(vf, 0, f.len() as int) matches Ok(tops) && 0 <= i < tops.len() && is_time_container(tops[i].typ)
            && time_box_kind(tops[i].typ) is None && walk_uses(
            vf,
            payload_start(tops[i]) as int,
            tops[i].end as int,
            p,
        ),
    ensures
        forall|k: int| 0 <= k < rewrite_writes(vf, f, seconds).len() ==> !covers(#[trigger] rewrite_writes(vf, f, seconds)[k], p),
{
    let ws = rewrite_writes(vf, f, seconds);
    let tops = spec_boxes_from(vf, 0, f.len() as int)->Ok_0;
    let m = tops[i];
    lemma_range_writes(vf, 0, f.len() as int, seconds);
    lemma_boxes_within(vf, 0, f.len() as int);
    lemma_walk_ordered(vf, 0, f.len() as int);
    assert(payload_start(m) == m.start + m.header_size);
    lemma_walk_uses_range(vf, payload_start(m) as int, m.end as int, p);
    assert forall|k: int| 0 <= k < ws.len() implies !covers(#[trigger] ws[k], p) by {
        if covers(ws[k], p) {
            lemma_range_write_inside(vf, 0, f.len() as int, seconds, ws[k], p);
            let j = choose|j: int| 0 <= j < tops.len() && #[trigger] tops[j].start + tops[j].header_size + 4 <= p < tops[j].end;
            if j < i {
                assert(tops[j].end <= tops[i].start);
            } else if j > i {
                assert(tops[i].end <= tops[j].start);
            } else {
                lemma_top_write(vf, f, seconds, k, p, i);
                lemma_range_write_inside(vf, payload_start(m) as int, m.end as int, seconds, ws[k], p);
                let cs = spec_boxes_from(vf, payload_start(m) as int, m.end as int)->Ok_0;
                let j2 = choose|j2: int| 0 <= j2 < cs.len() && #[trigger] cs[j2].start + cs[j2].header_size + 4 <= p < cs[j2].end;
                lemma_walk_skips_payloads(vf, payload_start(m) as int, m.end as int, j2, p);
            }
        }
    }
}

/// The `i`-th top-level box is a `moov` box, and `j`-th box inside it an
/// `mvhd` box.
pub open spec fn mvhd_in_moov(vf: FileView, f: Seq<u8>, i: int, j: int) -> bool {
    &&& spec_boxes_from(vf, 0, f.len() as int) is Ok
    &&& 0 <= i < spec_boxes_from(vf, 0, f.len() as int)->Ok_0.len()
    &&& moov_box(vf, f, i).typ == "moov"@
    &&& spec_boxes_from(vf, payload_start(moov_box(vf, f, i)) as int, moov_box(vf, f, i).end as int) is Ok
    &&& 0 <= j < spec_boxes_from(vf, payload_start(moov_box(vf, f, i)) as int, moov_box(vf, f, i).end as int)->Ok_0.len()
    &&& mvhd_box(vf, f, i, j).typ == "mvhd"@
}

pub open spec fn moov_box(vf: FileView, f: Seq<u8>, i: int) -> SpecBox {
    spec_boxes_from(vf, 0, f.len() as int)->Ok_0[i]
}

pub open spec fn mvhd_box(vf: FileView, f: Seq<u8>, i: int, j: int) -> SpecBox {
    let m = moov_box(vf, f, i);
    spec_boxes_from(vf, payload_start(m) as int, m.end as int)->Ok_0[j]
}

/// The facts about a `moov` box and an `mvhd` box inside it that a clean
/// rewrite gives: both lie where the walks found them, the `mvhd` box holds
/// its time fields, and its writes are among the rewrite's.
proof fn lemma_mvhd_facts(vf: FileView, f: Seq<u8>, seconds: u64, i: int, j: int)
    requires
        clean_rewrite(vf, f, seconds),
        mvhd_in_moov(vf, f, i, j),
    ensures
        ({
            let m = moov_box(vf, f, i);
            let mv = mvhd_box(vf, f, i, j);
            &&& payload_start(m) == m.start + m.header_size
            &&& time_box_kind(m.typ) is None
            &&& is_time_container(m.typ)
            &&& range_fits(vf, payload_start(m) as int, m.end as int)
            &&& m.start + m.header_size <= mv.start
            &&& mv.end <= m.end <= f.len()
            &&& payload_start(mv) == mv.start + mv.header_size
            &&& 8 <= mv.header_size <= mv.size
            &&& mv.end == mv.start + mv.size
            &&& time_box_kind(mv.typ) == Some(crate::mp4::TimeBox::Mvhd)
            &&& time_fields_fit(vf, mv)
            &&& spec_patch_full_box(vf, mv, crate::mp4::TimeBox::Mvhd, seconds).1 is None
            &&& forall|x: (u64, Seq<u8>)| #[trigger] spec_patch_full_box(vf, mv, crate::mp4::TimeBox::Mvhd, seconds).0.contains(x)
                ==> rewrite_writes(vf, f, seconds).contains(x)
        }),
{
    let len = f.len() as int;
    let tops = spec_boxes_from(vf, 0, len)->Ok_0;
    let m = tops[i];
    lemma_boxes_within(vf, 0, len);
    assert(payload_start(m) == m.start + m.header_size);
    let cs = spec_boxes_from(vf, payload_start(m) as int, m.end as int)->Ok_0;
    let mv = cs[j];
    lemma_boxes_within(vf, payload_start(m) as int, m.end as int);
    assert(payload_start(mv) == mv.start + mv.header_size);
    reveal_strlit("moov");
    reveal_strlit("mvhd");
    reveal_strlit("tkhd");
    reveal_strlit("mdhd");
    reveal_strlit("trak");
    reveal_strlit("mdia");
    assert("moov"@ != "mvhd"@ && "moov"@ != "tkhd"@ && "moov"@ != "mdhd"@) by {
        assert("moov"@[1] != "mvhd"@[1]);
        assert("moov"@[0] != "tkhd"@[0]);
        assert("moov"@[1] != "mdhd"@[1]);
    }
    assert(time_box_kind(m.typ) is None);
    assert(is_time_container(m.typ));
    assert(time_box_kind(mv.typ) == Some(crate::mp4::TimeBox::Mvhd));
    lemma_fold_fits_at(vf, tops, 0, 0, len, i);
    assert(range_fits(vf, payload_start(m) as int, m.end as int));
    lemma_fold_fits_at(vf, cs, 0, payload_start(m) as int, m.end as int, j);
    lemma_fold_includes(vf, tops, 0, seconds, 0, len, i);
    assert(box_patch(vf, m, seconds) == spec_patch_range(vf, payload_start(m) as int, m.end as int, seconds));
    lemma_fold_includes(vf, cs, 0, seconds, payload_start(m) as int, m.end as int, j);
    assert(box_patch(vf, mv, seconds) == spec_patch_full_box(vf, mv, crate::mp4::TimeBox::Mvhd, seconds));
}

/// A write that covers a byte of an `mvhd` box inside a `moov` box is one of
/// the writes of that `mvhd` box.
proof fn lemma_mvhd_write(vf: FileView, f: Seq<u8>, seconds: u64, i: int, j: int, k: int, q: int)
    requires
        clean_rewrite(vf, f, seconds),
        mvhd_in_moov(vf, f, i, j),
        0 <= k < rewrite_writes(vf, f, seconds).len(),
        covers(rewrite_writes(vf, f, seconds)[k], q),
        mvhd_box(vf, f, i, j).start <= q < mvhd_box(vf, f, i, j).end,
    ensures
        spec_patch_full_box(vf, mvhd_box(vf, f, i, j), crate::mp4::TimeBox::Mvhd, seconds).0.contains(
            rewrite_writes(vf, f, seconds)[k],
        ),
{
    lemma_mvhd_facts(vf, f, seconds, i, j);
    let m = moov_box(vf, f, i);
    let w = rewrite_writes(vf, f, seconds)[k];
    lemma_top_write(vf, f, seconds, k, q, i);
    reveal_strlit("moov");
    reveal_strlit("trak");
    reveal_strlit("mdia");
    lemma_range_write_box(vf, payload_start(m) as int, m.end as int, seconds, w, q, j);
}

/// Rewriting the creation time of an MP4 and reading it back gives the time
/// written, to the second: after the writes that
/// [`spec_write_mp4_creation_time`] asks for succeed, the movie creation time
/// reads as the seconds from the QuickTime epoch to `time` wherever the file
/// had a readable one, and fails as before otherwise, for every file whose
/// time boxes (every `mvhd`, `tkhd` and `mdhd` that the rewrite reaches) are
/// long enough to hold their time fields: such a rewrite keeps what the read
/// looks at (see [`law_creation_time_reads_back_where_kept`]).
pub proof fn law_creation_time_reads_back(vf: FileView, f: Seq<u8>, vg: FileView, time: Timestamp)
    requires
        holds_whole_file(vf, f),
        spec_write_mp4_creation_time(vf, time).1 is Ok,
        range_fits(vf, 0, f.len() as int),
        holds_whole_file(vg, apply_writes(f, spec_write_mp4_creation_time(vf, time).0)),
    ensures
        spec_movie_creation_seconds(vg) == match spec_movie_creation_seconds(vf) {
            Ok(_) => Ok::<u64, Mp4Error>(spec_quicktime_seconds(time)->Ok_0),
            Err(e) => Err::<u64, Mp4Error>(e),
        },
{
    let seconds = spec_quicktime_seconds(time)->Ok_0;
    assert(clean_rewrite(vf, f, seconds));
    lemma_clean_keeps_read(vf, f, seconds);
    law_creation_time_reads_back_where_kept(vf, f, vg, time);
}

/// Whether no write of `ws` covers the byte at `p`.
pub open spec fn untouched(ws: Seq<(u64, Seq<u8>)>, p: int) -> bool {
    forall|k: int| 0 <= k < ws.len() ==> !covers(#[trigger] ws[k], p)
}

/// The index of the first `mvhd` box among `cs[j..]`, if there is one.
pub open spec fn first_mvhd(cs: Seq<SpecBox>, j: nat) -> Option<nat>
    decreases cs.len() - j,
{
    if j >= cs.len() {
        None
    } else if cs[j as int].typ != "mvhd"@ {
        first_mvhd(cs, j + 1)
    } else {
        Some(j)
    }
}

/// The creation time field that `seconds` is written as in an `mvhd` box of
/// version `version`: 8 big-endian bytes for version 1, 4 otherwise.
pub open spec fn creation_field(version: u8, seconds: u64) -> Seq<u8> {
    if version == 1 {
        be64_seq(seconds as int)
    } else {
        be32_seq(seconds as int)
    }
}

/// Whether the writes `ws` leave what reading the creation time of the
/// `mvhd` box `mv` looks at as that read needs it: no write touches its
/// version byte, and every write that reaches a byte of its creation field
/// puts there the byte of `seconds` written as that field.
pub open spec fn mvhd_read_kept(v: FileView, mv: SpecBox, ws: Seq<(u64, Seq<u8>)>, seconds: u64) -> bool {
    let base = payload_start(mv) as int;
    match spec_read(v, base, 1) {
        Err(_) => true,
        Ok(b) => {
            let enc = creation_field(b[0], seconds);
            &&& untouched(ws, base)
            &&& forall|k: int, p: int|
                #![trigger covers(ws[k], p)]
                0 <= k < ws.len() && covers(ws[k], p) && base + 4 <= p < base + 4 + enc.len() ==> ws[k].1[p
                    - ws[k].0] == enc[p - base - 4]
        },
    }
}

/// Whether the writes `ws` leave what reading the creation time from the
/// top-level boxes `tops[i..]` looks at as that read needs it: the headers
/// inside each `moov` box it walks are untouched, and so is the `mvhd` box
/// it reads (see [`mvhd_read_kept`]).
pub open spec fn tops_read_kept(v: FileView, tops: Seq<SpecBox>, i: nat, ws: Seq<(u64, Seq<u8>)>, seconds: u64) -> bool
    decreases tops.len() - i,
{
    if i >= tops.len() {
        true
    } else if tops[i as int].typ != "moov"@ {
        tops_read_kept(v, tops, i + 1, ws, seconds)
    } else {
        let m = tops[i as int];
        &&& forall|p: int| #[trigger] walk_uses(v, payload_start(m) as int, m.end as int, p) ==> untouched(ws, p)
        &&& match spec_boxes_from(v, payload_start(m) as int, m.end as int) {
            Err(_) => true,
            Ok(cs) => match first_mvhd(cs, 0) {
                Some(j) => mvhd_read_kept(v, cs[j as int], ws, seconds),
                None => tops_read_kept(v, tops, i + 1, ws, seconds),
            },
        }
    }
}

/// Whether the writes `ws` leave every byte that reading the movie creation
/// time of the file looks at as that read needs it: the top-level headers
/// untouched, and the rest as [`tops_read_kept`] says.
pub open spec fn creation_read_kept(v: FileView, ws: Seq<(u64, Seq<u8>)>, seconds: u64) -> bool {
    &&& forall|p: int| #[trigger] walk_uses(v, 0, v.len as int, p) ==> untouched(ws, p)
    &&& spec_boxes_from(v, 0, v.len as int) matches Ok(tops) ==> tops_read_kept(v, tops, 0, ws, seconds)
}

proof fn lemma_first_mvhd(v: FileView, cs: Seq<SpecBox>, j: nat)
    ensures
        spec_find_mvhd(v, cs, j) == match first_mvhd(cs, j) {
            Some(k) => Some(spec_mvhd_seconds(v, cs[k as int])),
            None => None::<Result<u64, Mp4Error>>,
        },
        first_mvhd(cs, j) matches Some(k) ==> j <= k < cs.len() && cs[k as int].typ == "mvhd"@,
    decreases cs.len() - j,
{
    if j < cs.len() && cs[j as int].typ != "mvhd"@ {
        lemma_first_mvhd(v, cs, j + 1);
    }
}

/// The writes of an `mvhd` box inside a top-level `moov` box are among the
/// writes of a rewrite that ends without error, and ask for no error.
proof fn lemma_mvhd_writes_included(vf: FileView, f: Seq<u8>, seconds: u64, i: int, j: int)
    requires
        holds_whole_file(vf, f),
        spec_patch_range(vf, 0, f.len() as int, seconds).1 is None,
        mvhd_in_moov(vf, f, i, j),
    ensures
        ({
            let mv = mvhd_box(vf, f, i, j);
            &&& payload_start(mv) == mv.start + mv.header_size
            &&& spec_patch_full_box(vf, mv, TimeBox::Mvhd, seconds).1 is None
            &&& forall|x: (u64, Seq<u8>)| #[trigger] spec_patch_full_box(vf, mv, TimeBox::Mvhd, seconds).0.contains(x)
                ==> rewrite_writes(vf, f, seconds).contains(x)
        }),
{
    let len = f.len() as int;
    let tops = spec_boxes_from(vf, 0, len)->Ok_0;
    let m = tops[i];
    lemma_boxes_within(vf, 0, len);
    assert(payload_start(m) == m.start + m.header_size);
    let cs = spec_boxes_from(vf, payload_start(m) as int, m.end as int)->Ok_0;
    let mv = cs[j];
    lemma_boxes_within(vf, payload_start(m) as int, m.end as int);
    assert(payload_start(mv) == mv.start + mv.header_size);
    reveal_strlit("moov");
    reveal_strlit("mvhd");
    reveal_strlit("tkhd");
    reveal_strlit("mdhd");
    reveal_strlit("trak");
    reveal_strlit("mdia");
    assert("moov"@ != "mvhd"@ && "moov"@ != "tkhd"@ && "moov"@ != "mdhd"@) by {
        assert("moov"@[1] != "mvhd"@[1]);
        assert("moov"@[0] != "tkhd"@[0]);
        assert("moov"@[1] != "mdhd"@[1]);
    }
    assert(time_box_kind(m.typ) is None);
    assert(is_time_container(m.typ));
    assert(time_box_kind(mv.typ) == Some(TimeBox::Mvhd));
    lemma_fold_includes(vf, tops, 0, seconds, 0, len, i);
    assert(box_patch(vf, m, seconds) == spec_patch_range(vf, payload_start(m) as int, m.end as int, seconds));
    lemma_fold_includes(vf, cs, 0, seconds, payload_start(m) as int, m.end as int, j);
    assert(box_patch(vf, mv, seconds) == spec_patch_full_box(vf, mv, TimeBox::Mvhd, seconds));
}

/// Where the writes keep what the read of an `mvhd` box looks at, the box
/// reads as `seconds` after them wherever it could be read before.
proof fn lemma_kept_mvhd_reads_back(vf: FileView, f: Seq<u8>, vg: FileView, seconds: u64, i: int, j: int)
    requires
        holds_whole_file(vf, f),
        spec_patch_range(vf, 0, f.len() as int, seconds).1 is None,
        mvhd_in_moov(vf, f, i, j),
        mvhd_read_kept(vf, mvhd_box(vf, f, i, j), rewrite_writes(vf, f, seconds), seconds),
        holds_whole_file(vg, apply_writes(f, rewrite_writes(vf, f, seconds))),
    ensures
        spec_mvhd_seconds(vg, mvhd_box(vf, f, i, j)) == match spec_mvhd_seconds(vf, mvhd_box(vf, f, i, j)) {
            Ok(_) => Ok::<u64, Mp4Error>(seconds),
            Err(e) => Err::<u64, Mp4Error>(e),
        },
{
    lemma_mvhd_writes_included(vf, f, seconds, i, j);
    let mv = mvhd_box(vf, f, i, j);
    let base = payload_start(mv) as int;
    let ws = rewrite_writes(vf, f, seconds);
    let g = apply_writes(f, ws);
    lemma_apply_len(f, ws);
    lemma_read_whole(vf, f, base, 1);
    lemma_read_whole(vf, f, base, 20);
    lemma_read_whole(vg, g, base, 20);
    lemma_read_whole(vf, f, base, 28);
    lemma_read_whole(vg, g, base, 28);
    if base + 20 <= f.len() {
        let version = f[base];
        assert(f.subrange(base, base + 1)[0] == version);
        lemma_apply_untouched(f, ws, base);
        let enc = creation_field(version, seconds);
        let pw = spec_patch_full_box(vf, mv, TimeBox::Mvhd, seconds).0;
        if version == 1 {
            lemma_be64_round_trip(seconds as int);
        } else {
            lemma_be32_round_trip(seconds as int);
        }
        assert(pw[0] == (wrapping_add(payload_start(mv), 4), enc));
        assert(wrapping_add(payload_start(mv), 4) == base + 4);
        assert(pw.contains(pw[0]));
        assert(ws.contains(pw[0]));
        let k0 = choose|k: int| 0 <= k < ws.len() && ws[k] == pw[0];
        assert forall|t: int| 0 <= t < enc.len() && base + 4 + t < f.len() implies #[trigger] g[base + 4 + t] == enc[t] by {
            let q = base + 4 + t;
            assert(covers(ws[k0], q));
            assert forall|k: int| 0 <= k < ws.len() && covers(#[trigger] ws[k], q) implies ws[k].1[q - ws[k].0] == enc[t] by {
                assert(covers(ws[k], q));
            }
            lemma_apply_same(f, ws, q, enc[t]);
        }
        if version == 1 {
            if base + 28 <= f.len() {
                let b = g.subrange(base, base + 28);
                assert(spec_be_u64(b, 4) == spec_be_u64(enc, 0)) by {
                    assert forall|t: int| 0 <= t < 8 implies b[4 + t] == enc[t] by {
                        assert(g[base + 4 + t] == enc[t]);
                    }
                }
            }
        } else {
            let b = g.subrange(base, base + 20);
            assert(spec_be_u32(b, 4) == spec_be_u32(enc, 0)) by {
                assert forall|t: int| 0 <= t < 4 implies b[4 + t] == enc[t] by {
                    assert(g[base + 4 + t] == enc[t]);
                }
            }
        }
    }
}

/// Where the writes keep what the read looks at, the read from the
/// top-level boxes `tops[i..]` finds the seconds written wherever it found a
/// creation time before, and fails as before otherwise.
proof fn lemma_kept_tops_read_back(vf: FileView, f: Seq<u8>, vg: FileView, seconds: u64, i: nat)
    requires
        holds_whole_file(vf, f),
        spec_patch_range(vf, 0, f.len() as int, seconds).1 is None,
        holds_whole_file(vg, apply_writes(f, rewrite_writes(vf, f, seconds))),
        spec_boxes_from(vf, 0, f.len() as int) is Ok,
        tops_read_kept(vf, spec_boxes_from(vf, 0, f.len() as int)->Ok_0, i, rewrite_writes(vf, f, seconds), seconds),
    ensures
        ({
            let tops = spec_boxes_from(vf, 0, f.len() as int)->Ok_0;
            spec_creation_in_tops(vg, tops, i) == match spec_creation_in_tops(vf, tops, i) {
                Ok(_) => Ok::<u64, Mp4Error>(seconds),
                Err(e) => Err::<u64, Mp4Error>(e),
            }
        }),
    decreases spec_boxes_from(vf, 0, f.len() as int)->Ok_0.len() - i,
{
    let tops = spec_boxes_from(vf, 0, f.len() as int)->Ok_0;
    let ws = rewrite_writes(vf, f, seconds);
    if i < tops.len() {
        let m = tops[i as int];
        if m.typ != "moov"@ {
            lemma_kept_tops_read_back(vf, f, vg, seconds, i + 1);
        } else {
            let g = apply_writes(f, ws);
            lemma_apply_len(f, ws);
            lemma_boxes_within(vf, 0, f.len() as int);
            assert(payload_start(m) == m.start + m.header_size);
            assert forall|p: int| walk_uses(vf, payload_start(m) as int, m.end as int, p) implies #[trigger] f[p] == g[p] by {
                lemma_walk_uses_range(vf, payload_start(m) as int, m.end as int, p);
                assert(untouched(ws, p));
                lemma_apply_untouched(f, ws, p);
            }
            lemma_walk_frame(vf, f, vg, g, payload_start(m) as int, m.end as int);
            if let Ok(cs) = spec_boxes_from(vf, payload_start(m) as int, m.end as int) {
                lemma_first_mvhd(vf, cs, 0);
                lemma_first_mvhd(vg, cs, 0);
                match first_mvhd(cs, 0) {
                    Some(j) => {
                        assert(mvhd_in_moov(vf, f, i as int, j as int));
                        lemma_kept_mvhd_reads_back(vf, f, vg, seconds, i as int, j as int);
                    },
                    None => {
                        lemma_kept_tops_read_back(vf, f, vg, seconds, i + 1);
                    },
                }
            }
        }
    }
}

/// Rewriting the creation time of an MP4 and reading it back gives the time
/// written, to the second, wherever the file had a readable creation time
/// (and fails as before otherwise), as long as the writes that
/// [`spec_write_mp4_creation_time`] asks for leave the bytes that the read
/// looks at as it needs them ([`creation_read_kept`]): box headers on its way
/// and the `mvhd` version byte untouched, and the `mvhd` creation field
/// holding the time written.
pub proof fn law_creation_time_reads_back_where_kept(vf: FileView, f: Seq<u8>, vg: FileView, time: Timestamp)
    requires
        holds_whole_file(vf, f),
        spec_write_mp4_creation_time(vf, time).1 is Ok,
        creation_read_kept(vf, spec_write_mp4_creation_time(vf, time).0, spec_quicktime_seconds(time)->Ok_0),
        holds_whole_file(vg, apply_writes(f, spec_write_mp4_creation_time(vf, time).0)),
    ensures
        spec_movie_creation_seconds(vg) == match spec_movie_creation_seconds(vf) {
            Ok(_) => Ok::<u64, Mp4Error>(spec_quicktime_seconds(time)->Ok_0),
            Err(e) => Err::<u64, Mp4Error>(e),
        },
{
    let seconds = spec_quicktime_seconds(time)->Ok_0;
    let len = f.len() as int;
    let ws = rewrite_writes(vf, f, seconds);
    let g = apply_writes(f, ws);
    lemma_apply_len(f, ws);
    assert forall|p: int| walk_uses(vf, 0, len, p) implies #[trigger] f[p] == g[p] by {
        lemma_walk_uses_range(vf, 0, len, p);
        assert(untouched(ws, p));
        lemma_apply_untouched(f, ws, p);
    }
    lemma_walk_frame(vf, f, vg, g, 0, len);
    if spec_boxes_from(vf, 0, len) is Ok {
        lemma_kept_tops_read_back(vf, f, vg, seconds, 0);
    }
}


/// In a clean rewrite the writes keep what reading an `mvhd` box inside a
/// top-level `moov` box looks at.
proof fn lemma_clean_keeps_mvhd(vf: FileView, f: Seq<u8>, seconds: u64, i: int, j: int)
    requires
        clean_rewrite(vf, f, seconds),
        mvhd_in_moov(vf, f, i, j),
    ensures
        mvhd_read_kept(vf, mvhd_box(vf, f, i, j), rewrite_writes(vf, f, seconds), seconds),
{
    lemma_mvhd_facts(vf, f, seconds, i, j);
    let mv = mvhd_box(vf, f, i, j);
    let base = payload_start(mv) as int;
    let ws = rewrite_writes(vf, f, seconds);
    let pw = spec_patch_full_box(vf, mv, TimeBox::Mvhd, seconds).0;
    if let Ok(b) = spec_read(vf, base, 1) {
        let enc = creation_field(b[0], seconds);
        if b[0] == 1 {
            lemma_be64_round_trip(seconds as int);
        } else {
            lemma_be32_round_trip(seconds as int);
        }
        assert forall|k: int| 0 <= k < ws.len() implies !covers(#[trigger] ws[k], base) by {
            if covers(ws[k], base) {
                lemma_mvhd_write(vf, f, seconds, i, j, k, base);
                lemma_time_write_bounds(vf, mv, TimeBox::Mvhd, seconds, ws[k]);
            }
        }
        assert forall|k: int, p: int|
            #![trigger covers(ws[k], p)]
            0 <= k < ws.len() && covers(ws[k], p) && base + 4 <= p < base + 4 + enc.len() implies ws[k].1[p
                - ws[k].0] == enc[p - base - 4] by {
            lemma_mvhd_write(vf, f, seconds, i, j, k, p);
            let n = choose|n: int| 0 <= n < pw.len() && pw[n] == ws[k];
            assert(n == 0);
        }
    }
}

/// In a clean rewrite the writes keep what reading the creation time from
/// the top-level boxes `tops[i..]` looks at.
proof fn lemma_clean_keeps_tops(vf: FileView, f: Seq<u8>, seconds: u64, i: nat)
    requires
        clean_rewrite(vf, f, seconds),
        spec_boxes_from(vf, 0, f.len() as int) is Ok,
    ensures
        tops_read_kept(vf, spec_boxes_from(vf, 0, f.len() as int)->Ok_0, i, rewrite_writes(vf, f, seconds), seconds),
    decreases spec_boxes_from(vf, 0, f.len() as int)->Ok_0.len() - i,
{
    let tops = spec_boxes_from(vf, 0, f.len() as int)->Ok_0;
    let ws = rewrite_writes(vf, f, seconds);
    if i < tops.len() {
        let m = tops[i as int];
        lemma_clean_keeps_tops(vf, f, seconds, i + 1);
        if m.typ == "moov"@ {
            reveal_strlit("moov");
            reveal_strlit("mvhd");
            reveal_strlit("tkhd");
            reveal_strlit("mdhd");
            assert("moov"@[1] != "mvhd"@[1] && "moov"@[0] != "tkhd"@[0] && "moov"@[1] != "mdhd"@[1]);
            assert(time_box_kind(m.typ) is None);
            assert(is_time_container(m.typ));
            assert forall|p: int| #[trigger] walk_uses(vf, payload_start(m) as int, m.end as int, p) implies untouched(ws, p) by {
                lemma_moov_walk_untouched(vf, f, seconds, i as int, p);
            }
            if let Ok(cs) = spec_boxes_from(vf, payload_start(m) as int, m.end as int) {
                lemma_first_mvhd(vf, cs, 0);
                if let Some(j) = first_mvhd(cs, 0) {
                    assert(mvhd_in_moov(vf, f, i as int, j as int));
                    lemma_clean_keeps_mvhd(vf, f, seconds, i as int, j as int);
                }
            }
        }
    }
}

/// Where every time box that the rewrite reaches holds its time fields, the
/// writes keep what reading the creation time looks at.
proof fn lemma_clean_keeps_read(vf: FileView, f: Seq<u8>, seconds: u64)
    requires
        clean_rewrite(vf, f, seconds),
    ensures
        creation_read_kept(vf, rewrite_writes(vf, f, seconds), seconds),
{
    let ws = rewrite_writes(vf, f, seconds);
    assert forall|p: int| #[trigger] walk_uses(vf, 0, vf.len as int, p) implies untouched(ws, p) by {
        lemma_top_walk_untouched(vf, f, seconds, p);
    }
    if spec_boxes_from(vf, 0, vf.len as int) is Ok {
        lemma_clean_keeps_tops(vf, f, seconds, 0);
    }
}


/// A `co64` table gives each chunk offset in full: in a file `f`, the
/// offsets of the `co64` box `b` are as many as the 4 bytes after its
/// version and flags count, and the `i`-th is the 64-bit number that the 8
/// bytes of its entry spell, most significant first.
pub proof fn law_co64_offsets_are_whole_entries(v: FileView, f: Seq<u8>, b: SpecBox)
    requires
        holds_whole_file(v, f),
    ensures
        spec_parse_co64(v, b) matches Ok(offsets) ==> {
            let base = payload_start(b) as int;
            &&& offsets.len() == big_endian_value(f.subrange(base + 4, base + 8))
            &&& forall|i: int|
                0 <= i < offsets.len() ==> #[trigger] offsets[i] as nat == big_endian_value(
                    f.subrange(base + 8 + 8 * i, base + 16 + 8 * i),
                )
        },
{
    let base = payload_start(b) as int;
    if let Ok(offsets) = spec_parse_co64(v, b) {
        lemma_read_whole(v, f, base, 8);
        let h = f.subrange(base, base + 8);
        lemma_big_endian_value(h, 0);
        assert(h.subrange(4, 8) =~= f.subrange(base + 4, base + 8));
        let count = spec_be_u32(h, 4) as nat;
        assert(wrapping_add(payload_start(b), 8) == base + 8);
        lemma_read_whole(v, f, base + 8, (count * 8) as int);
        let bytes = f.subrange(base + 8, base + 8 + count * 8);
        assert forall|i: int| 0 <= i < offsets.len() implies #[trigger] offsets[i] as nat == big_endian_value(
            f.subrange(base + 8 + 8 * i, base + 16 + 8 * i),
        ) by {
            lemma_big_endian_value(bytes, 8 * i);
            assert(bytes.subrange(8 * i, 8 * i + 8) =~= f.subrange(base + 8 + 8 * i, base + 16 + 8 * i));
        }
    }
}

/// The entry count and the entries of a table box, read from the whole file:
/// the count is the 4 bytes after version and flags, the entries follow.
proof fn lemma_table_from_file(v: FileView, f: Seq<u8>, b: SpecBox, entry_size: nat)
    requires
        holds_whole_file(v, f),
    ensures
        spec_table(v, b, entry_size) matches Ok((count, bytes)) ==> {
            let base = payload_start(b) as int;
            &&& count == big_endian_value(f.subrange(base + 4, base + 8))
            &&& base + 8 + count * entry_size <= f.len()
            &&& bytes == f.subrange(base + 8, base + 8 + count * entry_size)
        },
{
    let base = payload_start(b) as int;
    if let Ok((count, bytes)) = spec_table(v, b, entry_size) {
        lemma_read_whole(v, f, base, 8);
        let h = f.subrange(base, base + 8);
        lemma_big_endian_value4(h, 4);
        assert(h.subrange(4, 8) =~= f.subrange(base + 4, base + 8));
        assert(wrapping_add(payload_start(b), 8) == base + 8);
        lemma_read_whole(v, f, base + 8, (count * entry_size) as int);
    }
}

/// An `stco` table gives each chunk offset as the 32-bit number that the 4
/// bytes of its entry spell, most significant first, as many as its count
/// says.
pub proof fn law_stco_offsets_are_entries(v: FileView, f: Seq<u8>, b: SpecBox)
    requires
        holds_whole_file(v, f),
    ensures
        spec_parse_stco(v, b) matches Ok(offsets) ==> {
            let base = payload_start(b) as int;
            &&& offsets.len() == big_endian_value(f.subrange(base + 4, base + 8))
            &&& forall|i: int|
                0 <= i < offsets.len() ==> #[trigger] offsets[i] as nat == big_endian_value(
                    f.subrange(base + 8 + 4 * i, base + 12 + 4 * i),
                )
        },
{
    let base = payload_start(b) as int;
    lemma_table_from_file(v, f, b, 4);
    if let Ok(offsets) = spec_parse_stco(v, b) {
        let (count, bytes) = spec_table(v, b, 4)->Ok_0;
        assert forall|i: int| 0 <= i < offsets.len() implies #[trigger] offsets[i] as nat == big_endian_value(
            f.subrange(base + 8 + 4 * i, base + 12 + 4 * i),
        ) by {
            lemma_big_endian_value4(bytes, 4 * i);
            assert(bytes.subrange(4 * i, 4 * i + 4) =~= f.subrange(base + 8 + 4 * i, base + 12 + 4 * i));
        }
    }
}

/// An `stts` table gives each row as the two 32-bit numbers of its 8-byte
/// entry, most significant byte first: the sample count, then the sample
/// duration, as many rows as its count says.
pub proof fn law_stts_rows_are_entries(v: FileView, f: Seq<u8>, b: SpecBox)
    requires
        holds_whole_file(v, f),
    ensures
        spec_parse_stts(v, b) matches Ok(rows) ==> {
            let base = payload_start(b) as int;
            &&& rows.len() == big_endian_value(f.subrange(base + 4, base + 8))
            &&& forall|i: int|
                0 <= i < rows.len() ==> {
                    &&& #[trigger] rows[i].sample_count as nat == big_endian_value(
                        f.subrange(base + 8 + 8 * i, base + 12 + 8 * i),
                    )
                    &&& rows[i].sample_delta as nat == big_endian_value(f.subrange(base + 12 + 8 * i, base + 16 + 8 * i))
                }
        },
{
    let base = payload_start(b) as int;
    lemma_table_from_file(v, f, b, 8);
    if let Ok(rows) = spec_parse_stts(v, b) {
        let (count, bytes) = spec_table(v, b, 8)->Ok_0;
        assert forall|i: int| 0 <= i < rows.len() implies {
            &&& #[trigger] rows[i].sample_count as nat == big_endian_value(f.subrange(base + 8 + 8 * i, base + 12 + 8 * i))
            &&& rows[i].sample_delta as nat == big_endian_value(f.subrange(base + 12 + 8 * i, base + 16 + 8 * i))
        } by {
            lemma_big_endian_value4(bytes, 8 * i);
            lemma_big_endian_value4(bytes, 8 * i + 4);
            assert(bytes.subrange(8 * i, 8 * i + 4) =~= f.subrange(base + 8 + 8 * i, base + 12 + 8 * i));
            assert(bytes.subrange(8 * i + 4, 8 * i + 8) =~= f.subrange(base + 12 + 8 * i, base + 16 + 8 * i));
        }
    }
}

/// An `stsc` table gives each row as the three 32-bit numbers of its
/// 12-byte entry, most significant byte first: first chunk, samples per
/// chunk and sample description index, as many rows as its count says.
pub proof fn law_stsc_rows_are_entries(v: FileView, f: Seq<u8>, b: SpecBox)
    requires
        holds_whole_file(v, f),
    ensures
        spec_parse_stsc(v, b) matches Ok(rows) ==> {
            let base = payload_start(b) as int;
            &&& rows.len() == big_endian_value(f.subrange(base + 4, base + 8))
            &&& forall|i: int|
                0 <= i < rows.len() ==> {
                    &&& #[trigger] rows[i].first_chunk as nat == big_endian_value(
                        f.subrange(base + 8 + 12 * i, base + 12 + 12 * i),
                    )
                    &&& rows[i].samples_per_chunk as nat == big_endian_value(
                        f.subrange(base + 12 + 12 * i, base + 16 + 12 * i),
                    )
                    &&& rows[i].sample_description_index as nat == big_endian_value(
                        f.subrange(base + 16 + 12 * i, base + 20 + 12 * i),
                    )
                }
        },
{
    let base = payload_start(b) as int;
    lemma_table_from_file(v, f, b, 12);
    if let Ok(rows) = spec_parse_stsc(v, b) {
        let (count, bytes) = spec_table(v, b, 12)->Ok_0;
        assert forall|i: int| 0 <= i < rows.len() implies {
            &&& #[trigger] rows[i].first_chunk as nat == big_endian_value(f.subrange(base + 8 + 12 * i, base + 12 + 12 * i))
            &&& rows[i].samples_per_chunk as nat == big_endian_value(f.subrange(base + 12 + 12 * i, base + 16 + 12 * i))
            &&& rows[i].sample_description_index as nat == big_endian_value(
                f.subrange(base + 16 + 12 * i, base + 20 + 12 * i),
            )
        } by {
            lemma_big_endian_value4(bytes, 12 * i);
            lemma_big_endian_value4(bytes, 12 * i + 4);
            lemma_big_endian_value4(bytes, 12 * i + 8);
            assert(bytes.subrange(12 * i, 12 * i + 4) =~= f.subrange(base + 8 + 12 * i, base + 12 + 12 * i));
            assert(bytes.subrange(12 * i + 4, 12 * i + 8) =~= f.subrange(base + 12 + 12 * i, base + 16 + 12 * i));
            assert(bytes.subrange(12 * i + 8, 12 * i + 12) =~= f.subrange(base + 16 + 12 * i, base + 20 + 12 * i));
        }
    }
}

/// An `stsz` box gives the sample sizes: as many as the count in its
/// payload bytes 8..12 says, each the common size in bytes 4..8 where that
/// is not 0, and otherwise the 32-bit number that each 4-byte entry after
/// the count spells, most significant byte first.
pub proof fn law_stsz_sizes_are_entries(v: FileView, f: Seq<u8>, b: SpecBox)
    requires
        holds_whole_file(v, f),
    ensures
        spec_parse_stsz(v, b) matches Ok(sizes) ==> {
            let base = payload_start(b) as int;
            let common = big_endian_value(f.subrange(base + 4, base + 8));
            &&& sizes.len() == big_endian_value(f.subrange(base + 8, base + 12))
            &&& forall|i: int|
                0 <= i < sizes.len() ==> #[trigger] sizes[i] as nat == if common != 0 {
                    common
                } else {
                    big_endian_value(f.subrange(base + 12 + 4 * i, base + 16 + 4 * i))
                }
        },
{
    let base = payload_start(b) as int;
    if let Ok(sizes) = spec_parse_stsz(v, b) {
        lemma_read_whole(v, f, base, 12);
        let h = f.subrange(base, base + 12);
        lemma_big_endian_value4(h, 4);
        lemma_big_endian_value4(h, 8);
        assert(h.subrange(4, 8) =~= f.subrange(base + 4, base + 8));
        assert(h.subrange(8, 12) =~= f.subrange(base + 8, base + 12));
        let common = spec_be_u32(h, 4);
        let count = spec_be_u32(h, 8) as nat;
        if common == 0 {
            assert(wrapping_add(payload_start(b), 12) == base + 12);
            lemma_read_whole(v, f, base + 12, (count * 4) as int);
            let bytes = f.subrange(base + 12, base + 12 + count * 4);
            assert forall|i: int| 0 <= i < sizes.len() implies #[trigger] sizes[i] as nat == big_endian_value(
                f.subrange(base + 12 + 4 * i, base + 16 + 4 * i),
            ) by {
                lemma_big_endian_value4(bytes, 4 * i);
                assert(bytes.subrange(4 * i, 4 * i + 4) =~= f.subrange(base + 12 + 4 * i, base + 16 + 4 * i));
            }
        }
    }
}

proof fn lemma_range_write_value(v: FileView, start: int, end: int, seconds: u64, w: (u64, Seq<u8>))
    requires
        0 <= start,
        end <= u64::MAX,
        range_write(v, start, end, seconds, w),
    ensures
        w.1 == be32_seq(seconds as int) || w.1 == be64_seq(seconds as int),
    decreases end - start,
{
    let bs = spec_boxes_from(v, start, end)->Ok_0;
    lemma_boxes_within(v, start, end);
    lemma_fold_write_box(v, bs, 0, start, end, seconds, w);
    let j = choose|j: int| 0 <= j < bs.len() && box_within(bs[j], start, end) && box_write(v, #[trigger] bs[j], seconds, w);
    let b = bs[j];
    match time_box_kind(b.typ) {
        Some(kind) => {
            let pw = spec_patch_full_box(v, b, kind, seconds).0;
            let n = choose|n: int| 0 <= n < pw.len() && pw[n] == w;
        },
        None => {
            assert(payload_start(b) == b.start + b.header_size);
            lemma_range_write_value(v, payload_start(b) as int, b.end as int, seconds, w);
        },
    }
}

/// Rewriting the creation time sets every field it writes to the same
/// time: each write holds the seconds from the QuickTime epoch to `time`,
/// as a 32-bit or a 64-bit big-endian number.
pub proof fn law_rewrite_writes_one_time(v: FileView, time: Timestamp)
    ensures
        spec_write_mp4_creation_time(v, time).1 is Ok ==> forall|k: int|
            0 <= k < spec_write_mp4_creation_time(v, time).0.len() ==> {
                let w = #[trigger] spec_write_mp4_creation_time(v, time).0[k];
                ||| w.1 == be32_seq(spec_quicktime_seconds(time)->Ok_0 as int)
                ||| w.1 == be64_seq(spec_quicktime_seconds(time)->Ok_0 as int)
            },
{
    if spec_write_mp4_creation_time(v, time).1 is Ok {
        let seconds = spec_quicktime_seconds(time)->Ok_0;
        let ws = spec_write_mp4_creation_time(v, time).0;
        lemma_range_writes(v, 0, v.len as int, seconds);
        assert forall|k: int| 0 <= k < ws.len() implies {
            let w = #[trigger] ws[k];
            ||| w.1 == be32_seq(seconds as int)
            ||| w.1 == be64_seq(seconds as int)
        } by {
            lemma_range_write_value(v, 0, v.len as int, seconds, ws[k]);
        }
    }
}

/// Rewriting the creation time of an MP4 and reading it back as an instant
/// gives the time written, without its fraction of a second, wherever the
/// file had a readable creation time (and fails as before otherwise), where
/// the writes leave the bytes that the read looks at as it needs them
/// ([`creation_read_kept`]; every file whose time boxes hold their time
/// fields is such a file), for times that chrono can add to the QuickTime
/// epoch.
pub proof fn law_creation_instant_reads_back(vf: FileView, f: Seq<u8>, vg: FileView, time: Timestamp)
    requires
        holds_whole_file(vf, f),
        spec_write_mp4_creation_time(vf, time).1 is Ok,
        creation_read_kept(vf, spec_write_mp4_creation_time(vf, time).0, spec_quicktime_seconds(time)->Ok_0),
        holds_whole_file(vg, apply_writes(f, spec_write_mp4_creation_time(vf, time).0)),
        time.secs - QUICKTIME_EPOCH_SECS <= i64::MAX / 1000,
        chrono_utc_valid(time.secs, 0),
    ensures
        spec_movie_creation_instant(vg) == match spec_movie_creation_seconds(vf) {
            Ok(_) => Ok::<Timestamp, Mp4Error>(Timestamp { secs: time.secs, nanos: 0 }),
            Err(e) => Err::<Timestamp, Mp4Error>(e),
        },
{
    law_creation_time_reads_back_where_kept(vf, f, vg, time);
    law_quicktime_seconds_round_trip(time);
}

} // verus!
