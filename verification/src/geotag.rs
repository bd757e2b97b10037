//! Geotagging frames taken one per second: the time and place of each frame,
//! and the order of the frame files.
use vstd::prelude::*;
use crate::gpx::{interpolate_gps_point, locates, sorted_times, Interpolation};
use crate::time::{add_seconds, spec_add_seconds, Timestamp};

verus! {

/// Why a frame cannot be placed on the track.
#[derive(Debug)]
pub enum FrameError {
    /// Its time lies beyond what chrono can represent.
    TimeOverflow,
    /// Its time lies outside the track.
    OutsideTrack { time: Timestamp },
}

/// The time of frame `index` (counted from 0, one frame per second from
/// the first track point) and where the track is then. The track points'
/// instants `times` are in order.
pub fn frame_location(times: &Vec<Timestamp>, index: i64) -> (r: Result<(Timestamp, Interpolation), FrameError>)
    requires
        sorted_times(times@),
        times@.len() > 0,
    ensures
        (r matches Err(FrameError::TimeOverflow)) <==> spec_add_seconds(times@[0], index) is None,
        r matches Ok((t, p)) ==> spec_add_seconds(times@[0], index) == Some(t) && locates(times@, t, Some(p)),
        r matches Err(FrameError::OutsideTrack { time }) ==> spec_add_seconds(times@[0], index) == Some(time)
            && locates(times@, time, None),
{
    let t = match add_seconds(times[0], index) {
        Some(t) => t,
        None => return Err(FrameError::TimeOverflow),
    };
    match interpolate_gps_point(times, t) {
        Some(p) => Ok((t, p)),
        None => Err(FrameError::OutsideTrack { time: t }),
    }
}

/// Whether the bytes `a` come before `b` in lexicographic order.
pub open spec fn bytes_lt(a: Seq<u8>, b: Seq<u8>) -> bool
    decreases a.len(),
{
    if b.len() == 0 {
        false
    } else if a.len() == 0 {
        true
    } else if a[0] != b[0] {
        a[0] < b[0]
    } else {
        bytes_lt(a.drop_first(), b.drop_first())
    }
}

proof fn lemma_bytes_lt_transitive(a: Seq<u8>, b: Seq<u8>, c: Seq<u8>)
    requires
        bytes_lt(a, b),
        bytes_lt(b, c),
    ensures
        bytes_lt(a, c),
    decreases a.len(),
{
    if a.len() > 0 && a[0] == b[0] && b[0] == c[0] {
        lemma_bytes_lt_transitive(a.drop_first(), b.drop_first(), c.drop_first());
    }
}

proof fn lemma_bytes_lt_total(a: Seq<u8>, b: Seq<u8>)
    ensures
        a == b || bytes_lt(a, b) || bytes_lt(b, a),
    decreases a.len(),
{
    if a.len() > 0 && b.len() > 0 && a[0] == b[0] {
        lemma_bytes_lt_total(a.drop_first(), b.drop_first());
        if a.drop_first() == b.drop_first() {
            assert(a =~= seq![a[0]] + a.drop_first());
            assert(b =~= seq![b[0]] + b.drop_first());
        }
    } else if a.len() == 0 && b.len() == 0 {
        assert(a =~= b);
    }
}


/// Whether `a` comes before `b` in lexicographic order.
fn is_bytes_before(a: &[u8], b: &[u8]) -> (r: bool)
    ensures
        r == bytes_lt(a@, b@),
{
    let mut i: usize = 0;
    assert(a@.subrange(0, a@.len() as int) =~= a@);
    assert(b@.subrange(0, b@.len() as int) =~= b@);
    while i < a.len() && i < b.len() && a[i] == b[i]
        invariant
            i <= a.len(),
            i <= b.len(),
            bytes_lt(a@, b@) == bytes_lt(a@.subrange(i as int, a@.len() as int), b@.subrange(i as int, b@.len() as int)),
        decreases a.len() - i,
    {
        proof {
            let sa = a@.subrange(i as int, a@.len() as int);
            let sb = b@.subrange(i as int, b@.len() as int);
            assert(sa.drop_first() =~= a@.subrange(i + 1, a@.len() as int));
            assert(sb.drop_first() =~= b@.subrange(i + 1, b@.len() as int));
        }
        i = i + 1;
    }
    if i == b.len() {
        false
    } else if i == a.len() {
        true
    } else {
        a[i] < b[i]
    }
}

/// Whether file `i` comes before file `j`: by name, and in listing order
/// where the names are equal.
pub open spec fn name_before(names: Seq<Seq<u8>>, i: int, j: int) -> bool {
    bytes_lt(names[i], names[j]) || (names[i] == names[j] && i < j)
}

/// Whether `order` lists each of the `names` once, sorted by name, equal
/// names in listing order.
pub open spec fn is_name_order(names: Seq<Seq<u8>>, order: Seq<usize>) -> bool {
    &&& order.len() == names.len()
    &&& forall|a: int, b: int| 0 <= a < b < order.len() ==> #[trigger] name_before(names, order[a] as int, order[b] as int)
    &&& forall|i: int| #![trigger order.contains(i as usize)] 0 <= i < names.len() ==> order.contains(i as usize)
    &&& forall|a: int| 0 <= a < order.len() ==> order[a] < names.len()
}

pub open spec fn names_view(names: Seq<Vec<u8>>) -> Seq<Seq<u8>> {
    names.map_values(|n: Vec<u8>| n@)
}

/// The order in which frame files are geotagged: sorted by file name (as
/// bytes), a stable sort that keeps listing order among equal names.
pub fn jpeg_file_order(names: &Vec<Vec<u8>>) -> (order: Vec<usize>)
    ensures
        is_name_order(names_view(names@), order@),
{
    let ghost ns = names_view(names@);
    let mut order: Vec<usize> = Vec::new();
    let mut i: usize = 0;
    while i < names.len()
        invariant
            i <= names.len(),
            ns == names_view(names@),
            ns.len() == names.len(),
            order@.len() == i,
            forall|a: int, b: int|
                0 <= a < b < order@.len() ==> #[trigger] name_before(ns, order@[a] as int, order@[b] as int),
            forall|x: int| #![trigger order@.contains(x as usize)]
                0 <= x < ns.len() ==> (order@.contains(x as usize) <==> x < i),
            forall|a: int| 0 <= a < order@.len() ==> order@[a] < i,
        decreases names.len() - i,
    {
        let mut j: usize = 0;
        while j < order.len()
            invariant
                j <= order@.len(),
                i < names.len(),
                ns == names_view(names@),
                ns.len() == names.len(),
                forall|a: int| 0 <= a < order@.len() ==> order@[a] < i,
                forall|a: int| 0 <= a < j ==> !bytes_lt(ns[i as int], #[trigger] ns[order@[a] as int]),
            ensures
                j <= order@.len(),
                forall|a: int| 0 <= a < j ==> !bytes_lt(ns[i as int], #[trigger] ns[order@[a] as int]),
                j < order@.len() ==> bytes_lt(ns[i as int], ns[order@[j as int] as int]),
            decreases order@.len() - j,
        {
            let o = order[j];
            assert(ns[o as int] == names@[o as int]@);
            assert(ns[i as int] == names@[i as int]@);
            if is_bytes_before(names[i].as_slice(), names[o].as_slice()) {
                break;
            }
            j = j + 1;
        }
        let ghost before = order@;
        order.insert(j, i);
        assert(order@ == before.insert(j as int, i));
        assert forall|a: int, b: int| 0 <= a < b < order@.len() implies #[trigger] name_before(
            ns,
            order@[a] as int,
            order@[b] as int,
        ) by {
            if b < j {
                assert(name_before(ns, before[a] as int, before[b] as int));
            } else if b == j {
                let x = before[a] as int;
                assert(!bytes_lt(ns[i as int], ns[x]));
                lemma_bytes_lt_total(ns[i as int], ns[x]);
            } else if a == j {
                let y = before[b - 1] as int;
                if b - 1 > j {
                    let z = before[j as int] as int;
                    assert(name_before(ns, z, y));
                    assert(bytes_lt(ns[i as int], ns[z]));
                    if bytes_lt(ns[z], ns[y]) {
                        lemma_bytes_lt_transitive(ns[i as int], ns[z], ns[y]);
                    }
                }
            } else if a < j {
                assert(name_before(ns, before[a] as int, before[b - 1] as int));
            } else {
                assert(name_before(ns, before[a - 1] as int, before[b - 1] as int));
            }
        }
        assert forall|x: int| #![trigger order@.contains(x as usize)]
            0 <= x < ns.len() implies (order@.contains(x as usize) <==> x < i + 1) by {
            if x == i {
                assert(order@[j as int] == i);
            } else if order@.contains(x as usize) {
                let a = choose|a: int| 0 <= a < order@.len() && order@[a] == x as usize;
                if a < j {
                    assert(before[a] == x);
                } else {
                    assert(before[a - 1] == x);
                }
                assert(before.contains(x as usize));
            } else if x < i {
                assert(before.contains(x as usize));
                let a = choose|a: int| 0 <= a < before.len() && before[a] == x as usize;
                if a < j {
                    assert(order@[a] == x);
                } else {
                    assert(order@[a + 1] == x);
                }
            }
        }
        i = i + 1;
    }
    order
}

} // verus!
