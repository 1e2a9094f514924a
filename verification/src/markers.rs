//! Fiducial markers put back together from their corners.

use vstd::prelude::*;

use crate::features;
use crate::features::{read_le_u32, Descriptors, FeatureSet, MARKER_CORNER_BYTES};
use crate::modelselect::Folds;
use crate::sets;

verus! {

/// One detected marker with its corners in detection order.
#[derive(Debug)]
pub struct Marker<K> {
    pub id: u32,
    pub corners: [K; 4],
}

/// The corner that row `i` of the descriptors tells of, if there is such a row
/// and its corner is one of the four.
pub open spec fn corner_at(data: Seq<u8>, i: nat) -> Option<(u32, u32)> {
    if (i + 1) * MARKER_CORNER_BYTES <= data.len() {
        let (_, marker, corner) = features::corner_of(
            features::row(data, MARKER_CORNER_BYTES as nat, i),
        );
        if corner <= 3 {
            Some((marker, corner))
        } else {
            None
        }
    } else {
        None
    }
}

/// The last of the first `n` keypoints that is the given corner of a marker.
pub open spec fn last_corner(data: Seq<u8>, marker: u32, corner: u32, n: nat) -> Option<nat>
    decreases n,
{
    if n == 0 {
        None
    } else if corner_at(data, (n - 1) as nat) == Some((marker, corner)) {
        Some((n - 1) as nat)
    } else {
        last_corner(data, marker, corner, (n - 1) as nat)
    }
}

/// All four corners of the marker are among the first `n` keypoints.
pub open spec fn is_whole(data: Seq<u8>, marker: u32, n: nat) -> bool {
    &&& last_corner(data, marker, 0, n) is Some
    &&& last_corner(data, marker, 1, n) is Some
    &&& last_corner(data, marker, 2, n) is Some
    &&& last_corner(data, marker, 3, n) is Some
}

fn read_corner(data: &Vec<u8>, i: usize) -> (r: Option<(u32, u32)>)
    ensures
        r == corner_at(data@, i as nat),
{
    if i < data.len() / MARKER_CORNER_BYTES {
        let at: usize = i * MARKER_CORNER_BYTES;
        let ghost r = features::row(data@, MARKER_CORNER_BYTES as nat, i as nat);
        assert(r.subrange(4, 8) =~= data@.subrange(at + 4, at + 8));
        assert(r.subrange(8, 12) =~= data@.subrange(at + 8, at + 12));
        let marker: u32 = read_le_u32(data.as_slice(), at + 4);
        let corner: u32 = read_le_u32(data.as_slice(), at + 8);
        if corner <= 3 {
            Some((marker, corner))
        } else {
            None
        }
    } else {
        None
    }
}

proof fn lemma_last_corner(data: Seq<u8>, marker: u32, corner: u32, n: nat)
    ensures
        match last_corner(data, marker, corner, n) {
            Some(i) => i < n && corner_at(data, i) == Some((marker, corner)),
            None => true,
        },
    decreases n,
{
    if n > 0 && corner_at(data, (n - 1) as nat) != Some((marker, corner)) {
        lemma_last_corner(data, marker, corner, (n - 1) as nat);
    }
}

fn find_corner(data: &Vec<u8>, marker: u32, corner: u32, n: usize) -> (r: Option<usize>)
    ensures
        match r {
            Some(i) => i < n && last_corner(data@, marker, corner, n as nat) == Some(i as nat),
            None => last_corner(data@, marker, corner, n as nat) is None,
        },
{
    let mut found: Option<usize> = None;
    let mut i: usize = 0;
    while i < n
        invariant
            i <= n,
            match found {
                Some(k) => k < i && last_corner(data@, marker, corner, i as nat) == Some(k as nat),
                None => last_corner(data@, marker, corner, i as nat) is None,
            },
        decreases n - i,
    {
        if let Some((m, c)) = read_corner(data, i) {
            if m == marker && c == corner {
                found = Some(i);
            }
        }
        i += 1;
    }
    found
}

/// Rebuilds whole markers from the flat corner list that a detector emits,
/// ordered by id. Only quads with all four corners: a partial one would draw a
/// triangle through the origin and look like a detection bug.
pub fn group_markers<K: Copy, F: Copy>(fs: &FeatureSet<K, F>) -> (out: Vec<Marker<K>>)
    ensures
        match fs.descriptors@ {
            features::DescriptorsModel::MarkerCorner { data } => {
                let n = fs.keypoints@.len();
                &&& forall|i: int, j: int|
                    0 <= i < j < out@.len() ==> (#[trigger] out@[i]).id < (#[trigger] out@[j]).id
                &&& forall|m: u32|
                    #![trigger is_whole(data, m, n)]
                    is_whole(data, m, n) <==> exists|i: int| 0 <= i < out@.len() && out@[i].id == m
                &&& forall|i: int, c: int|
                    0 <= i < out@.len() && 0 <= c < 4 ==> #[trigger] out@[i].corners@[c]
                        == fs.keypoints@[last_corner(data, out@[i].id, c as u32, n)->0 as int]
            },
            _ => out@.len() == 0,
        },
{
    let mut out: Vec<Marker<K>> = Vec::new();
    let data = match &fs.descriptors {
        Descriptors::MarkerCorner { data } => data,
        _ => {
            return out;
        },
    };
    let n: usize = fs.keypoints.len();
    let mut seen: Vec<u32> = Vec::new();
    let mut i: usize = 0;
    while i < n
        invariant
            i <= n,
            forall|k: nat|
                k < i && (#[trigger] corner_at(data@, k)) is Some ==> seen@.contains(
                    (corner_at(data@, k)->0).0,
                ),
        decreases n - i,
    {
        let ghost before = seen@;
        if let Some((m, _)) = read_corner(data, i) {
            seen.push(m);
            assert(seen@[seen@.len() - 1] == m);
        }
        assert forall|k: nat| k < i + 1 && (#[trigger] corner_at(data@, k))
            is Some implies seen@.contains((corner_at(data@, k)->0).0) by {
            if k < i {
                let m = (corner_at(data@, k)->0).0;
                assert(before.contains(m));
                let q = choose|q: int| 0 <= q < before.len() && before[q] == m;
                assert(seen@[q] == m);
            }
        }
        i += 1;
    }
    let ids = sets::distinct_numbers(&seen);
    let mut j: usize = 0;
    while j < ids.len()
        invariant
            j <= ids.len(),
            n == fs.keypoints@.len(),
            sets::increasing(ids@),
            forall|i: int, k: int|
                0 <= i < k < out@.len() ==> (#[trigger] out@[i]).id < (#[trigger] out@[k]).id,
            forall|i: int| 0 <= i < out@.len() ==> ids@.take(j as int).contains((#[trigger] out@[i]).id)
                && is_whole(data@, out@[i].id, n as nat),
            forall|i: int|
                0 <= i < out@.len() && j < ids@.len() ==> (#[trigger] out@[i]).id < ids@[j as int],
            forall|q: int|
                #![trigger ids@[q]]
                0 <= q < j && is_whole(data@, ids@[q], n as nat) ==> exists|i: int|
                    0 <= i < out@.len() && out@[i].id == ids@[q],
            forall|i: int, c: int|
                0 <= i < out@.len() && 0 <= c < 4 ==> #[trigger] out@[i].corners@[c]
                    == fs.keypoints@[last_corner(data@, out@[i].id, c as u32, n as nat)->0 as int],
        decreases ids.len() - j,
    {
        let m: u32 = ids[j];
        let ghost before = out@;
        let a = find_corner(data, m, 0, n);
        let b = find_corner(data, m, 1, n);
        let c = find_corner(data, m, 2, n);
        let d = find_corner(data, m, 3, n);
        if let (Some(a), Some(b), Some(c), Some(d)) = (a, b, c, d) {
            let corners = [fs.keypoints[a], fs.keypoints[b], fs.keypoints[c], fs.keypoints[d]];
            out.push(Marker { id: m, corners });
            assert(out@[out@.len() - 1].id == ids@[j as int]);
            assert forall|i: int, c: int| 0 <= i < out@.len() && 0 <= c < 4 implies #[trigger] out@[i].corners@[c]
                == fs.keypoints@[last_corner(data@, out@[i].id, c as u32, n as nat)->0 as int] by {
                if i < before.len() {
                    assert(out@[i] == before[i]);
                    assert(before[i].corners@[c] == fs.keypoints@[last_corner(
                        data@,
                        before[i].id,
                        c as u32,
                        n as nat,
                    )->0 as int]);
                }
            }
        }
        assert forall|i: int| 0 <= i < out@.len() implies ids@.take(j + 1).contains(
            (#[trigger] out@[i]).id,
        ) && is_whole(data@, out@[i].id, n as nat) by {
            if i < before.len() {
                assert(out@[i] == before[i]);
                assert(ids@.take(j as int).contains(before[i].id));
                let q = choose|q: int|
                    0 <= q < ids@.take(j as int).len() && ids@.take(j as int)[q] == before[i].id;
                assert(ids@.take(j + 1)[q] == before[i].id);
            } else {
                assert(ids@.take(j + 1)[j as int] == m);
            }
        }
        assert forall|q: int| #![trigger ids@[q]] 0 <= q < j + 1 && is_whole(
            data@,
            ids@[q],
            n as nat,
        ) implies exists|i: int| 0 <= i < out@.len() && out@[i].id == ids@[q] by {
            if q < j {
                let i = choose|i: int| 0 <= i < before.len() && before[i].id == ids@[q];
                assert(out@[i] == before[i]);
            } else {
                assert(out@[out@.len() - 1].id == ids@[q]);
            }
        }
        if j + 1 < ids.len() {
            assert(ids@[j as int] < ids@[j + 1]);
        }
        j += 1;
    }
    proof {
        assert forall|m: u32| #![trigger is_whole(data@, m, n as nat)] is_whole(data@, m, n as nat) implies exists|i: int|
            0 <= i < out@.len() && out@[i].id == m by {
            lemma_last_corner(data@, m, 0, n as nat);
            let k = last_corner(data@, m, 0, n as nat)->0;
            assert(corner_at(data@, k) is Some);
            assert(seen@.contains(m));
            assert(seen@.to_set().contains(m));
            assert(ids@.to_set().contains(m));
            let q = choose|q: int| 0 <= q < ids@.len() && ids@[q] == m;
            assert(is_whole(data@, ids@[q], n as nat));
        }
    }
    out
}

// ---------------------------------------------------------------------------
// Captures of observations
// ---------------------------------------------------------------------------

/// The capture stamped on keypoint `i`, if its row reaches that far.
pub open spec fn capture_at(data: Seq<u8>, i: nat) -> Option<u32> {
    if i * MARKER_CORNER_BYTES + 4 <= data.len() {
        Some(
            features::le_u32(
                data.subrange(
                    (i * MARKER_CORNER_BYTES) as int,
                    (i * MARKER_CORNER_BYTES + 4) as int,
                ),
            ),
        )
    } else {
        None
    }
}

/// The capture of each of `n` keypoints, recovered from the fiducial
/// descriptors; nothing if one of them has none. Merging pools several
/// captures into one image, but every marker corner was stamped with its
/// capture at detection time, and that stamp is still in the descriptors.
pub fn keypoint_captures(data: &Vec<u8>, n: usize) -> (r: Option<Vec<u32>>)
    ensures
        match r {
            Some(v) => v@.len() == n && forall|i: nat|
                i < n ==> #[trigger] capture_at(data@, i) == Some(v@[i as int]),
            None => exists|i: nat| i < n && #[trigger] capture_at(data@, i) is None,
        },
{
    let mut out: Vec<u32> = Vec::new();
    let mut i: usize = 0;
    let total: usize = data.len();
    while i < n
        invariant
            i <= n,
            total == data@.len(),
            out@.len() == i,
            forall|k: nat| k < i ==> #[trigger] capture_at(data@, k) == Some(out@[k as int]),
        decreases n - i,
    {
        if total < 4 || i > (total - 4) / MARKER_CORNER_BYTES {
            assert(i * MARKER_CORNER_BYTES + 4 > total);
            assert(capture_at(data@, i as nat) is None);
            return None;
        }
        let at: usize = i * MARKER_CORNER_BYTES;
        out.push(read_le_u32(data.as_slice(), at));
        i += 1;
    }
    Some(out)
}

/// Folds that hold out whole captures: one per distinct capture, numbered in
/// ascending order. Nothing with fewer than two.
pub fn capture_folds(captures: &Vec<u32>) -> (r: Option<Folds>)
    ensures
        match r {
            Some(f) => {
                &&& f.kind@ == "capture"@
                &&& f.count >= 2
                &&& f.of_observation@.len() == captures@.len()
                &&& exists|distinct: Seq<u32>|
                    #![trigger sets::increasing(distinct)]
                    sets::increasing(distinct) && distinct.to_set() == captures@.to_set()
                        && f.count == distinct.len() && forall|k: int|
                        0 <= k < captures@.len() ==> (#[trigger] f.of_observation@[k])
                            < distinct.len() && distinct[f.of_observation@[k] as int]
                            == captures@[k]
            },
            None => forall|i: int, j: int|
                0 <= i < captures@.len() && 0 <= j < captures@.len() ==> (#[trigger] captures@[i])
                    == (#[trigger] captures@[j]),
        },
{
    let distinct = sets::distinct_numbers(captures);
    if distinct.len() < 2 {
        assert forall|i: int, j: int|
            0 <= i < captures@.len() && 0 <= j < captures@.len() implies (#[trigger] captures@[i])
            == (#[trigger] captures@[j]) by {
            assert(captures@.to_set().contains(captures@[i]));
            assert(captures@.to_set().contains(captures@[j]));
            assert(distinct@.contains(captures@[i]));
            assert(distinct@.contains(captures@[j]));
        }
        return None;
    }
    let mut of_observation: Vec<usize> = Vec::new();
    let mut k: usize = 0;
    while k < captures.len()
        invariant
            k <= captures.len(),
            distinct@.to_set() == captures@.to_set(),
            of_observation@.len() == k,
            forall|q: int|
                0 <= q < k ==> (#[trigger] of_observation@[q]) < distinct@.len()
                    && distinct@[of_observation@[q] as int] == captures@[q],
        decreases captures.len() - k,
    {
        let c: u32 = captures[k];
        assert(captures@.to_set().contains(c));
        assert(distinct@.contains(c));
        let mut i: usize = 0;
        let total: usize = distinct.len();
        while distinct[i] != c
            invariant
                i < total == distinct@.len(),
                distinct@.contains(c),
                forall|q: int| 0 <= q < i ==> distinct@[q] != c,
            decreases total - i,
        {
            proof {
                let q = choose|q: int| 0 <= q < distinct@.len() && distinct@[q] == c;
                assert(q > i);
            }
            i += 1;
        }
        of_observation.push(i);
        k += 1;
    }
    assert(sets::increasing(distinct@));
    Some(Folds { of_observation, count: distinct.len(), kind: String::from_str("capture") })
}

/// A row that tells of one of the four corners of a marker is read as that
/// corner, wherever it stands among whole rows.
pub proof fn written_corners_are_read(
    front: Seq<u8>,
    capture: u32,
    marker: u32,
    corner: u32,
    behind: Seq<u8>,
    i: nat,
)
    requires
        front.len() == i * 12,
    ensures
        ({
            let data = front + features::corner_row(capture, marker, corner) + behind;
            &&& capture_at(data, i) == Some(capture)
            &&& corner_at(data, i) == if corner <= 3 {
                Some((marker, corner))
            } else {
                None
            }
        }),
{
    let line = features::corner_row(capture, marker, corner);
    let data = front + line + behind;
    assert((i + 1) * 12 == i * 12 + 12) by (nonlinear_arith);
    features::corners_read_back(capture, marker, corner);
    features::le_u32_reads_back(capture);
    assert(features::row(data, MARKER_CORNER_BYTES as nat, i) =~= line);
    assert(data.subrange((i * MARKER_CORNER_BYTES) as int, (i * MARKER_CORNER_BYTES + 4) as int)
        =~= features::le_bytes(capture));
}

/// Of the keypoints that are the same corner of a marker the last counts.
pub proof fn the_last_of_a_corner_counts(data: Seq<u8>, marker: u32, corner: u32, n: nat)
    ensures
        match last_corner(data, marker, corner, n) {
            Some(i) => i < n && corner_at(data, i) == Some((marker, corner)) && forall|j: nat|
                i < j < n ==> #[trigger] corner_at(data, j) != Some((marker, corner)),
            None => forall|j: nat|
                j < n ==> #[trigger] corner_at(data, j) != Some((marker, corner)),
        },
    decreases n,
{
    if n > 0 {
        the_last_of_a_corner_counts(data, marker, corner, (n - 1) as nat);
    }
}

/// Whether a corner of a marker is among the first `n` keypoints.
pub open spec fn sees_corner(data: Seq<u8>, marker: u32, corner: u32, n: nat) -> bool {
    exists|i: nat| i < n && #[trigger] corner_at(data, i) == Some((marker, corner))
}

/// A marker is whole exactly where each of its four corners is seen.
pub proof fn whole_markers_have_four_corners(data: Seq<u8>, marker: u32, n: nat)
    ensures
        is_whole(data, marker, n) <==> forall|corner: u32|
            corner < 4 ==> #[trigger] sees_corner(data, marker, corner, n),
{
    the_last_of_a_corner_counts(data, marker, 0, n);
    the_last_of_a_corner_counts(data, marker, 1, n);
    the_last_of_a_corner_counts(data, marker, 2, n);
    the_last_of_a_corner_counts(data, marker, 3, n);
    if is_whole(data, marker, n) {
        assert forall|corner: u32| corner < 4 implies #[trigger] sees_corner(
            data,
            marker,
            corner,
            n,
        ) by {
            assert(corner == 0 || corner == 1 || corner == 2 || corner == 3);
            let i = last_corner(data, marker, corner, n)->0;
            assert(corner_at(data, i) == Some((marker, corner)));
        }
    }
    if forall|corner: u32| corner < 4 ==> #[trigger] sees_corner(data, marker, corner, n) {
        assert(sees_corner(data, marker, 0, n));
        assert(sees_corner(data, marker, 1, n));
        assert(sees_corner(data, marker, 2, n));
        assert(sees_corner(data, marker, 3, n));
    }
}

/// Of the last row its first four bytes are enough to tell the capture, and
/// fewer are not.
pub proof fn four_bytes_tell_the_capture(front: Seq<u8>, capture: u32, i: nat, cut: Seq<u8>)
    requires
        front.len() == i * 12,
        cut.len() < 4,
    ensures
        capture_at(front + features::le_bytes(capture), i) == Some(capture),
        capture_at(front + cut, i) is None,
{
    let data = front + features::le_bytes(capture);
    features::le_u32_reads_back(capture);
    assert(data.subrange((i * MARKER_CORNER_BYTES) as int, (i * MARKER_CORNER_BYTES + 4) as int)
        =~= features::le_bytes(capture));
}

} // verus!
