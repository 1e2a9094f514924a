//! Camera initialization: applying an estimate to the configuration, and the
//! squares that the estimate is made from.

use vstd::prelude::*;

use crate::error::SfmError;
use crate::features;
use crate::features::FeatureSet;
use crate::sets;
use crate::sets::distinct_numbers;
use crate::text;
use crate::text::{contains_text, is_blank, quoted};

verus! {

/// What goes before the camera: an otherwise empty configuration gets its
/// image directory too.
pub open spec fn images_line(existing: Seq<char>, images_dir: Seq<char>) -> Seq<char> {
    if text::all_white(existing) {
        "images_dir = "@ + text::debug_form(images_dir) + "\n\n"@
    } else {
        Seq::empty()
    }
}

/// The configuration with an estimated camera added. Cameras that it already
/// declares are never overwritten.
pub fn applied_config(
    existing: &str,
    images_dir: &str,
    camera: &str,
    config_path: &str,
    camera_path: &str,
) -> (r: Result<String, SfmError>)
    ensures
        match r {
            Ok(out) => !text::occurs(existing@, "[[cameras]]"@) && out@ == existing@ + images_line(
                existing@,
                images_dir@,
            ) + "\n"@ + camera@,
            Err(e) => e matches SfmError::Other(m) && text::occurs(existing@, "[[cameras]]"@) && m@
                == config_path@ + " already declares [[cameras]]; not overwriting. Merge \n"@
                + camera_path@ + "\nby hand instead."@,
        },
{
    if contains_text(existing, "[[cameras]]") {
        let mut m = String::from_str(config_path);
        m.append(" already declares [[cameras]]; not overwriting. Merge \n");
        m.append(camera_path);
        m.append("\nby hand instead.");
        return Err(SfmError::Other(m));
    }
    let mut out = String::from_str(existing);
    if is_blank(existing) {
        out.append("images_dir = ");
        out.append(quoted(images_dir).as_str());
        out.append("\n\n");
    }
    out.append("\n");
    out.append(camera);
    assert(out@ =~= existing@ + images_line(existing@, images_dir@) + "\n"@ + camera@);
    Ok(out)
}

// ---------------------------------------------------------------------------
// Squares
// ---------------------------------------------------------------------------

/// The four corners of one marker in one capture.
#[derive(Debug, Clone, Copy, PartialEq)]
pub struct Square<K> {
    /// Capture and marker as one number: see [`square_key`].
    pub key: u64,
    pub corners: [K; 4],
}

/// Capture and marker, ordered by capture first.
pub open spec fn square_key(capture: u32, marker: u32) -> u64 {
    (capture * 0x1_0000_0000 + marker) as u64
}

/// A key belongs to one capture and one marker.
pub proof fn square_keys_differ(a: u32, b: u32, c: u32, d: u32)
    requires
        square_key(a, b) == square_key(c, d),
    ensures
        a == c,
        b == d,
{
}

/// The corner that keypoint `i` is.
pub open spec fn corner_id(data: Seq<u8>, i: int) -> (u64, u32) {
    let (capture, marker, corner) = features::corner_of(
        features::row(data, features::MARKER_CORNER_BYTES as nat, i as nat),
    );
    (square_key(capture, marker), corner)
}

/// The corners that the first `n` keypoints are.
pub open spec fn corner_ids(data: Seq<u8>, n: nat) -> Seq<(u64, u32)> {
    Seq::new(n, |i: int| corner_id(data, i))
}

/// The last of the first `n` keypoints that is a corner of a square.
pub open spec fn last_of(ids: Seq<(u64, u32)>, key: u64, corner: u32, n: nat) -> Option<int>
    decreases n,
{
    if n == 0 {
        None
    } else if ids[n - 1] == (key, corner) {
        Some(n - 1)
    } else {
        last_of(ids, key, corner, (n - 1) as nat)
    }
}

/// All four corners were detected.
pub open spec fn is_complete(ids: Seq<(u64, u32)>, key: u64) -> bool {
    &&& last_of(ids, key, 0, ids.len()) is Some
    &&& last_of(ids, key, 1, ids.len()) is Some
    &&& last_of(ids, key, 2, ids.len()) is Some
    &&& last_of(ids, key, 3, ids.len()) is Some
}

/// The squares are the complete ones, each with its last corners.
pub open spec fn are_squares<K>(
    out: Seq<Square<K>>,
    keypoints: Seq<K>,
    ids: Seq<(u64, u32)>,
) -> bool {
    &&& forall|i: int, j: int|
        0 <= i < j < out.len() ==> (#[trigger] out[i]).key < (#[trigger] out[j]).key
    &&& forall|i: int| 0 <= i < out.len() ==> is_complete(ids, (#[trigger] out[i]).key)
    &&& forall|key: u64| #[trigger]
        is_complete(ids, key) ==> exists|i: int| 0 <= i < out.len() && (#[trigger] out[i]).key
            == key
    &&& forall|i: int, c: int|
        0 <= i < out.len() && 0 <= c < 4 ==> (#[trigger] out[i].corners@[c])
            == keypoints[last_of(ids, out[i].key, c as u32, ids.len())->0]
}

proof fn lemma_last_of(ids: Seq<(u64, u32)>, key: u64, corner: u32, n: nat)
    requires
        n <= ids.len(),
    ensures
        last_of(ids, key, corner, n) matches Some(i) ==> 0 <= i < n && ids[i] == (key, corner),
    decreases n,
{
    if n > 0 && ids[n - 1] != (key, corner) {
        lemma_last_of(ids, key, corner, (n - 1) as nat);
    }
}

spec fn listed(all: Seq<u64>, k: int, key: u64) -> bool {
    exists|j: int| 0 <= j < k && #[trigger] all[j] == key
}

fn find_last(ids: &Vec<(u64, u32)>, key: u64, corner: u32) -> (r: Option<usize>)
    ensures
        match r {
            Some(i) => i < ids@.len() && last_of(ids@, key, corner, ids@.len()) == Some(i as int),
            None => last_of(ids@, key, corner, ids@.len()) is None,
        },
{
    let mut n: usize = ids.len();
    while n > 0
        invariant
            n <= ids@.len(),
            last_of(ids@, key, corner, ids@.len()) == last_of(ids@, key, corner, n as nat),
        decreases n,
    {
        let (k, c) = ids[n - 1];
        if k == key && c == corner {
            return Some(n - 1);
        }
        n -= 1;
    }
    None
}

/// Collects an image's corners by the marker that they belong to, in the order
/// of capture and marker. Nothing where the keypoints are no marker corners.
/// Partly detected markers and corners beyond the fourth are left out.
pub fn squares<K: Copy, F: Copy>(fs: &FeatureSet<K, F>) -> (r: Option<Vec<Square<K>>>)
    requires
        fs.descriptors is MarkerCorner ==> fs.keypoints@.len() * features::MARKER_CORNER_BYTES
            <= features::data_len(fs.descriptors@),
    ensures
        match fs.descriptors@ {
            features::DescriptorsModel::MarkerCorner { data } => r matches Some(out)
                && are_squares(out@, fs.keypoints@, corner_ids(data, fs.keypoints@.len())),
            _ => if fs.keypoints@.len() == 0 {
                r matches Some(out) && out@.len() == 0
            } else {
                r is None
            },
        },
{
    let total: usize = fs.keypoints.len();
    let mut ids: Vec<(u64, u32)> = Vec::new();
    let mut keys: Vec<u64> = Vec::new();
    let ghost data = fs.descriptors@->data;
    let mut i: usize = 0;
    while i < total
        invariant
            i <= total == fs.keypoints@.len(),
            fs.descriptors is MarkerCorner ==> total * features::MARKER_CORNER_BYTES
                <= features::data_len(fs.descriptors@),
            fs.descriptors@ matches features::DescriptorsModel::MarkerCorner { data: d } ==> d
                == data,
            i > 0 ==> fs.descriptors is MarkerCorner,
            fs.descriptors is MarkerCorner ==> ids@ == corner_ids(data, i as nat),
            ids@.len() == i,
            keys@ == ids@.map_values(|p: (u64, u32)| p.0),
        decreases total - i,
    {
        assert(fs.descriptors is MarkerCorner ==> (i + 1) * features::MARKER_CORNER_BYTES
            <= features::data_len(fs.descriptors@)) by (nonlinear_arith)
            requires
                fs.descriptors is MarkerCorner ==> total * features::MARKER_CORNER_BYTES
                    <= features::data_len(fs.descriptors@),
                i + 1 <= total,
        ;
        match fs.descriptors.marker_corner(i) {
            Some((capture, marker, corner)) => {
                assert(capture * 0x1_0000_0000 + marker <= u64::MAX);
                let key: u64 = capture as u64 * 0x1_0000_0000 + marker as u64;
                assert(key == square_key(capture, marker));
                ids.push((key, corner));
                keys.push(key);
                assert((key, corner) == corner_id(data, i as int));
                assert(ids@ =~= corner_ids(data, (i + 1) as nat));
                assert(keys@ =~= ids@.map_values(|p: (u64, u32)| p.0));
            },
            None => {
                return None;
            },
        }
        i += 1;
    }
    let all = distinct_numbers(&keys);
    let mut out: Vec<Square<K>> = Vec::new();
    let mut k: usize = 0;
    while k < all.len()
        invariant
            k <= all@.len(),
            sets::increasing(all@),
            total == fs.keypoints@.len() == ids@.len(),
            forall|i: int, j: int|
                0 <= i < j < out@.len() ==> (#[trigger] out@[i]).key < (#[trigger] out@[j]).key,
            forall|i: int|
                0 <= i < out@.len() ==> is_complete(ids@, (#[trigger] out@[i]).key) && listed(
                    all@,
                    k as int,
                    out@[i].key,
                ),
            forall|j: int|
                0 <= j < k && is_complete(ids@, #[trigger] all@[j]) ==> exists|i: int|
                    0 <= i < out@.len() && (#[trigger] out@[i]).key == all@[j],
            forall|i: int, c: int|
                0 <= i < out@.len() && 0 <= c < 4 ==> (#[trigger] out@[i].corners@[c])
                    == fs.keypoints@[last_of(ids@, out@[i].key, c as u32, ids@.len())->0],
        decreases all@.len() - k,
    {
        let key: u64 = all[k];
        let ghost before = out@;
        match (
            find_last(&ids, key, 0),
            find_last(&ids, key, 1),
            find_last(&ids, key, 2),
            find_last(&ids, key, 3),
        ) {
            (Some(a), Some(b), Some(c), Some(d)) => {
                assert forall|i: int| 0 <= i < before.len() implies (#[trigger] before[i]).key
                    < key by {
                    assert(listed(all@, k as int, before[i].key));
                    let j = choose|j: int| 0 <= j < k && #[trigger] all@[j] == before[i].key;
                    assert(sets::Number::value(all@[j]) < sets::Number::value(all@[k as int]));
                }
                let corners = [
                    fs.keypoints[a],
                    fs.keypoints[b],
                    fs.keypoints[c],
                    fs.keypoints[d],
                ];
                out.push(Square { key, corners });
                assert(out@[out@.len() - 1].key == key);
                assert(all@[k as int] == key);
                assert forall|j: int|
                    0 <= j < k + 1 && is_complete(ids@, #[trigger] all@[j]) implies exists|i: int|
                    0 <= i < out@.len() && (#[trigger] out@[i]).key == all@[j] by {
                    if j < k {
                        let i = choose|i: int|
                            0 <= i < before.len() && (#[trigger] before[i]).key == all@[j];
                        assert(out@[i].key == all@[j]);
                    }
                }
                assert forall|i: int| 0 <= i < out@.len() implies listed(
                    all@,
                    k + 1,
                    (#[trigger] out@[i]).key,
                ) by {
                    if i < before.len() {
                        assert(listed(all@, k as int, before[i].key));
                    } else {
                        assert(all@[k as int] == out@[i].key);
                    }
                }
            },
            _ => {
                assert(!is_complete(ids@, key));
                assert forall|i: int| 0 <= i < out@.len() implies listed(
                    all@,
                    k + 1,
                    (#[trigger] out@[i]).key,
                ) by {
                    assert(listed(all@, k as int, before[i].key));
                }
            },
        }
        k += 1;
    }
    assert forall|key: u64| #[trigger] is_complete(ids@, key) implies exists|i: int|
        0 <= i < out@.len() && (#[trigger] out@[i]).key == key by {
        lemma_last_of(ids@, key, 0, ids@.len());
        let at = last_of(ids@, key, 0, ids@.len())->0;
        assert(keys@[at] == key);
        assert(keys@.to_set().contains(key));
        assert(all@.contains(key));
        let j = choose|j: int| 0 <= j < all@.len() && all@[j] == key;
        assert(is_complete(ids@, all@[j]));
    }
    assert(total == 0 ==> out@.len() == 0) by {
        if total == 0 && out@.len() > 0 {
            assert(is_complete(ids@, out@[0].key));
        }
    }
    Some(out)
}

/// Of the keypoints that are the same corner of a square the last counts.
pub proof fn the_last_of_a_corner_counts(ids: Seq<(u64, u32)>, key: u64, corner: u32, n: nat)
    requires
        n <= ids.len(),
    ensures
        match last_of(ids, key, corner, n) {
            Some(i) => 0 <= i < n && ids[i] == (key, corner) && forall|j: int|
                i < j < n ==> #[trigger] ids[j] != (key, corner),
            None => forall|j: int| 0 <= j < n ==> #[trigger] ids[j] != (key, corner),
        },
    decreases n,
{
    if n > 0 {
        the_last_of_a_corner_counts(ids, key, corner, (n - 1) as nat);
    }
}

/// A row that tells of a corner is read as that corner of that marker in that
/// capture, wherever it stands among whole rows.
pub proof fn written_corners_are_read(
    front: Seq<u8>,
    capture: u32,
    marker: u32,
    corner: u32,
    behind: Seq<u8>,
    i: nat,
)
    requires
        front.len() == i * 12,
    ensures
        corner_id(front + features::corner_row(capture, marker, corner) + behind, i as int) == (
            (capture * 4294967296 + marker) as u64,
            corner,
        ),
{
    let line = features::corner_row(capture, marker, corner);
    let data = front + line + behind;
    assert((i + 1) * 12 == i * 12 + 12) by (nonlinear_arith);
    features::corners_read_back(capture, marker, corner);
    assert(features::row(data, features::MARKER_CORNER_BYTES as nat, i) =~= line);
}

/// A square is there exactly where each of its four corners is, and its
/// corners are keypoints that are those corners.
pub proof fn squares_have_their_four_corners<K>(
    out: Seq<Square<K>>,
    keypoints: Seq<K>,
    ids: Seq<(u64, u32)>,
    key: u64,
    i: int,
    c: int,
)
    requires
        0 <= i < out.len(),
        0 <= c < 4,
        are_squares(out, keypoints, ids),
        keypoints.len() == ids.len(),
    ensures
        (exists|i: int| 0 <= i < out.len() && (#[trigger] out[i]).key == key) <==> ids.contains(
            (key, 0),
        ) && ids.contains((key, 1)) && ids.contains((key, 2)) && ids.contains((key, 3)),
        exists|k: int|
            0 <= k < ids.len() && #[trigger] ids[k] == (out[i].key, c as u32)
                && out[i].corners@[c] == keypoints[k],
{
    let n = ids.len();
    the_last_of_a_corner_counts(ids, key, 0, n);
    the_last_of_a_corner_counts(ids, key, 1, n);
    the_last_of_a_corner_counts(ids, key, 2, n);
    the_last_of_a_corner_counts(ids, key, 3, n);
    if exists|i: int| 0 <= i < out.len() && (#[trigger] out[i]).key == key {
        assert(is_complete(ids, key));
        assert(ids[last_of(ids, key, 0, n)->0] == (key, 0u32));
        assert(ids[last_of(ids, key, 1, n)->0] == (key, 1u32));
        assert(ids[last_of(ids, key, 2, n)->0] == (key, 2u32));
        assert(ids[last_of(ids, key, 3, n)->0] == (key, 3u32));
    }
    if ids.contains((key, 0)) && ids.contains((key, 1)) && ids.contains((key, 2)) && ids.contains(
        (key, 3),
    ) {
        assert(is_complete(ids, key));
    }
    assert(is_complete(ids, out[i].key));
    the_last_of_a_corner_counts(ids, out[i].key, c as u32, n);
    assert(c == 0 || c == 1 || c == 2 || c == 3);
    let k = last_of(ids, out[i].key, c as u32, n)->0;
    assert(ids[k] == (out[i].key, c as u32));
}

} // verus!
