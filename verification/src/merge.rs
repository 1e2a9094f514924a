//! Merging the captures of a fixed rig.
//!
//! The cameras never moved, only the scene did, so every capture's
//! observations are valid from the *same* viewpoint and belong to the same
//! pose. Merging turns N captures into N times the observations of one image
//! rather than N images that share no features - which is what makes the rig
//! reconstructable when each individual capture shows too few markers to
//! constrain anything. Corner descriptors keep their `capture_id`, so markers
//! that moved between captures stay distinct 3D points inside the merged set.

use vstd::prelude::*;

use crate::dataset;
use crate::dataset::DiscoveredImage;
use crate::error::SfmError;
use crate::features;
use crate::features::{push_all, Descriptors, DescriptorsModel, FeatureSet};
use crate::sets;
use crate::text;
use crate::text::{decimal_string, padded_string};

verus! {

/// An image with its size and its features.
pub struct Record<K, F> {
    pub image: DiscoveredImage,
    pub width: u32,
    pub height: u32,
    pub features: FeatureSet<K, F>,
}

/// What a [`Record`] holds.
pub struct RecordModel<K, F> {
    pub image: dataset::ImageModel,
    pub width: u32,
    pub height: u32,
    pub keypoints: Seq<K>,
    pub descriptors: DescriptorsModel<F>,
}

impl<K, F> View for Record<K, F> {
    type V = RecordModel<K, F>;

    open spec fn view(&self) -> RecordModel<K, F> {
        RecordModel {
            image: self.image@,
            width: self.width,
            height: self.height,
            keypoints: self.features.keypoints@,
            descriptors: self.features.descriptors@,
        }
    }
}

pub open spec fn record_models<K, F>(v: Seq<Record<K, F>>) -> Seq<RecordModel<K, F>> {
    v.map_values(|r: Record<K, F>| r@)
}

// ---------------------------------------------------------------------------
// Groups
// ---------------------------------------------------------------------------

/// What records are grouped by: camera and slot, in one number that orders as
/// the pair does. Going by the slot too, a camera holding several shots per
/// capture merges shot-for-shot rather than pooling them.
pub open spec fn group_key(camera_id: u32, image_index: u32) -> u64 {
    (camera_id as int * 4294967296 + image_index as int) as u64
}

pub open spec fn record_key<K, F>(r: RecordModel<K, F>) -> u64 {
    group_key(r.image.camera_id, r.image.image_index)
}

/// The groups, in the order of camera and slot.
pub open spec fn groups_of<K, F>(r: Seq<RecordModel<K, F>>) -> Seq<u64> {
    sets::sorted_set(r.map_values(|x: RecordModel<K, F>| record_key(x)))
}

/// The first record of a group.
pub open spec fn first_of<K, F>(r: Seq<RecordModel<K, F>>, key: u64, n: nat) -> Option<int>
    decreases n,
{
    if n == 0 {
        None
    } else {
        match first_of(r, key, (n - 1) as nat) {
            Some(i) => Some(i),
            None => if record_key(r[n - 1]) == key {
                Some(n - 1)
            } else {
                None
            },
        }
    }
}

/// The first record of a group whose size is not `(w, h)`.
pub open spec fn other_size<K, F>(
    r: Seq<RecordModel<K, F>>,
    key: u64,
    w: u32,
    h: u32,
    n: nat,
) -> Option<int>
    decreases n,
{
    if n == 0 {
        None
    } else {
        match other_size(r, key, w, h, (n - 1) as nat) {
            Some(i) => Some(i),
            None => if record_key(r[n - 1]) == key && (r[n - 1].width != w || r[n - 1].height
                != h) {
                Some(n - 1)
            } else {
                None
            },
        }
    }
}

/// Every keypoint of a group, in the order of its records.
pub open spec fn pooled_keypoints<K, F>(r: Seq<RecordModel<K, F>>, key: u64, n: nat) -> Seq<K>
    decreases n,
{
    if n == 0 {
        Seq::empty()
    } else {
        let front = pooled_keypoints(r, key, (n - 1) as nat);
        if record_key(r[n - 1]) == key {
            front + r[n - 1].keypoints
        } else {
            front
        }
    }
}

/// The marker-corner bytes of a group.
pub open spec fn pooled_markers<K, F>(r: Seq<RecordModel<K, F>>, key: u64, n: nat) -> Seq<u8>
    decreases n,
{
    if n == 0 {
        Seq::empty()
    } else {
        let front = pooled_markers(r, key, (n - 1) as nat);
        match r[n - 1].descriptors {
            DescriptorsModel::MarkerCorner { data } => if record_key(r[n - 1]) == key {
                front + data
            } else {
                front
            },
            _ => front,
        }
    }
}

/// The float values of a group, and the last dimension that came with them.
pub open spec fn pooled_floats<K, F>(r: Seq<RecordModel<K, F>>, key: u64, n: nat) -> (u32, Seq<F>)
    decreases n,
{
    if n == 0 {
        (0, Seq::empty())
    } else {
        let front = pooled_floats(r, key, (n - 1) as nat);
        match r[n - 1].descriptors {
            DescriptorsModel::Float32 { dim, data } => if record_key(r[n - 1]) == key {
                (dim, front.1 + data)
            } else {
                front
            },
            _ => front,
        }
    }
}

/// The binary descriptors of a group, and the last stride that came with them.
pub open spec fn pooled_bits<K, F>(r: Seq<RecordModel<K, F>>, key: u64, n: nat) -> (u32, Seq<u8>)
    decreases n,
{
    if n == 0 {
        (0, Seq::empty())
    } else {
        let front = pooled_bits(r, key, (n - 1) as nat);
        match r[n - 1].descriptors {
            DescriptorsModel::Binary { bytes_per_descriptor, data } => if record_key(r[n - 1])
                == key {
                (bytes_per_descriptor, front.1 + data)
            } else {
                front
            },
            _ => front,
        }
    }
}

pub open spec fn pooled_descriptors<K, F>(
    r: Seq<RecordModel<K, F>>,
    key: u64,
) -> DescriptorsModel<F> {
    let markers = pooled_markers(r, key, r.len());
    let floats = pooled_floats(r, key, r.len());
    let bits = pooled_bits(r, key, r.len());
    if markers.len() > 0 {
        DescriptorsModel::MarkerCorner { data: markers }
    } else if floats.1.len() > 0 {
        DescriptorsModel::Float32 { dim: floats.0, data: floats.1 }
    } else {
        DescriptorsModel::Binary { bytes_per_descriptor: bits.0, data: bits.1 }
    }
}

/// The name of a merged image: it stands for a camera and a slot, since it no
/// longer corresponds to any single file on disk.
pub open spec fn merged_name(camera_id: u32, image_index: u32) -> Seq<char> {
    "cam"@ + text::padded(camera_id as nat, 3) + "/slot"@ + text::padded(image_index as nat, 3)
}

/// The merged image of one group.
pub open spec fn merged_record<K, F>(r: Seq<RecordModel<K, F>>, key: u64) -> RecordModel<K, F> {
    let first = r[first_of(r, key, r.len())->0];
    RecordModel {
        image: dataset::ImageModel {
            path: first.image.path,
            capture_id: first.image.capture_id,
            camera_id: first.image.camera_id,
            image_index: first.image.image_index,
            name: merged_name(first.image.camera_id, first.image.image_index),
        },
        width: first.width,
        height: first.height,
        keypoints: pooled_keypoints(r, key, r.len()),
        descriptors: pooled_descriptors(r, key),
    }
}

/// The complaint about a group whose images differ in size.
pub open spec fn size_complaint<K, F>(r: Seq<RecordModel<K, F>>, key: u64) -> Option<Seq<char>> {
    let first = r[first_of(r, key, r.len())->0];
    match other_size(r, key, first.width, first.height, r.len()) {
        Some(m) => Some(
            "--merge-multicaps: camera "@ + text::decimal(first.image.camera_id as nat)
                + " slot "@ + text::decimal(first.image.image_index as nat)
                + " mixes image sizes ("@ + text::decimal(first.width as nat) + "x"@
                + text::decimal(first.height as nat) + " vs "@ + text::decimal(
                r[m].width as nat,
            ) + "x"@ + text::decimal(r[m].height as nat)
                + "); merged images must come from the same unmoved camera"@,
        ),
        None => None,
    }
}

/// The complaint about the first of `n` groups whose images differ in size.
pub open spec fn merge_failure<K, F>(r: Seq<RecordModel<K, F>>, n: nat) -> Option<Seq<char>>
    decreases n,
{
    if n == 0 {
        None
    } else {
        match merge_failure(r, (n - 1) as nat) {
            Some(m) => Some(m),
            None => size_complaint(r, groups_of(r)[n - 1]),
        }
    }
}

proof fn lemma_first_of<K, F>(r: Seq<RecordModel<K, F>>, key: u64, n: nat)
    ensures
        match first_of(r, key, n) {
            Some(i) => 0 <= i < n && record_key(r[i]) == key,
            None => forall|i: int| 0 <= i < n ==> record_key(#[trigger] r[i]) != key,
        },
    decreases n,
{
    if n > 0 {
        lemma_first_of(r, key, (n - 1) as nat);
    }
}

proof fn lemma_failure_stays<K, F>(r: Seq<RecordModel<K, F>>, n: nat, m: nat)
    requires
        n <= m,
        merge_failure(r, n) is Some,
    ensures
        merge_failure(r, m) == merge_failure(r, n),
    decreases m,
{
    if n < m {
        lemma_failure_stays(r, n, (m - 1) as nat);
    }
}

proof fn lemma_key_parts(a: u32, b: u32, c: u32, d: u32)
    ensures
        group_key(a, b) == group_key(c, d) <==> a == c && b == d,
{
    let (x, y) = (a as int * 4294967296 + b as int, c as int * 4294967296 + d as int);
    assert(x <= u64::MAX && y <= u64::MAX);
}

// ---------------------------------------------------------------------------
// Merging
// ---------------------------------------------------------------------------

fn key_for(camera_id: u32, image_index: u32) -> (k: u64)
    ensures
        k == group_key(camera_id, image_index),
{
    (camera_id as u64) * 4294967296 + image_index as u64
}

/// Merges one group.
fn merge_group<K: Copy, F: Copy>(records: &Vec<Record<K, F>>, key: u64) -> (out: Result<
    Record<K, F>,
    String,
>)
    requires
        first_of(record_models(records@), key, records@.len()) is Some,
    ensures
        match out {
            Ok(m) => size_complaint(record_models(records@), key) is None && m@ == merged_record(
                record_models(records@),
                key,
            ),
            Err(e) => size_complaint(record_models(records@), key) == Some(e@),
        },
{
    let ghost r = record_models(records@);
    let ghost lead = first_of(r, key, r.len())->0;
    proof {
        lemma_first_of(r, key, r.len());
    }
    let mut first: usize = 0;
    let total: usize = records.len();
    while key_for(records[first].image.camera_id, records[first].image.image_index) != key
        invariant
            r == record_models(records@),
            first < total == records@.len(),
            first <= lead < total,
            record_key(r[lead]) == key,
            first_of(r, key, r.len()) == Some(lead),
            forall|i: int| 0 <= i < first ==> record_key(#[trigger] r[i]) != key,
        decreases total - first,
    {
        assert(r[first as int] == records@[first as int]@);
        assert(first < lead);
        first += 1;
    }
    proof {
        assert(r[first as int] == records@[first as int]@);
        lemma_first_is_least(r, key, r.len(), first as int);
        assert(first == lead);
    }
    let (w, h) = (records[first].width, records[first].height);
    let mut keypoints: Vec<K> = Vec::new();
    let mut markers: Vec<u8> = Vec::new();
    let mut floats: Vec<F> = Vec::new();
    let mut dim: u32 = 0;
    let mut bits: Vec<u8> = Vec::new();
    let mut stride: u32 = 0;
    let mut odd: Option<usize> = None;
    let mut i: usize = 0;
    while i < records.len()
        invariant
            i <= records.len(),
            r == record_models(records@),
            keypoints@ == pooled_keypoints(r, key, i as nat),
            markers@ == pooled_markers(r, key, i as nat),
            (dim, floats@) == pooled_floats(r, key, i as nat),
            (stride, bits@) == pooled_bits(r, key, i as nat),
            match odd {
                Some(m) => m < i && other_size(r, key, w, h, i as nat) == Some(m as int),
                None => other_size(r, key, w, h, i as nat) is None,
            },
        decreases records.len() - i,
    {
        assert(r[i as int] == records@[i as int]@);
        let rec = &records[i];
        if key_for(rec.image.camera_id, rec.image.image_index) == key {
            if odd.is_none() && (rec.width != w || rec.height != h) {
                odd = Some(i);
            }
            push_all(&mut keypoints, &rec.features.keypoints);
            match &rec.features.descriptors {
                Descriptors::MarkerCorner { data } => {
                    push_all(&mut markers, data);
                },
                Descriptors::Float32 { dim: d, data } => {
                    dim = *d;
                    push_all(&mut floats, data);
                },
                Descriptors::Binary { bytes_per_descriptor, data } => {
                    stride = *bytes_per_descriptor;
                    push_all(&mut bits, data);
                },
            }
        }
        i += 1;
    }
    let camera_id: u32 = records[first].image.camera_id;
    let image_index: u32 = records[first].image.image_index;
    if let Some(m) = odd {
        assert(r[m as int] == records@[m as int]@);
        let mut e = String::from_str("--merge-multicaps: camera ");
        e.append(decimal_string(camera_id as u64).as_str());
        e.append(" slot ");
        e.append(decimal_string(image_index as u64).as_str());
        e.append(" mixes image sizes (");
        e.append(decimal_string(w as u64).as_str());
        e.append("x");
        e.append(decimal_string(h as u64).as_str());
        e.append(" vs ");
        e.append(decimal_string(records[m].width as u64).as_str());
        e.append("x");
        e.append(decimal_string(records[m].height as u64).as_str());
        e.append("); merged images must come from the same unmoved camera");
        return Err(e);
    }
    let descriptors = if markers.len() > 0 {
        Descriptors::MarkerCorner { data: markers }
    } else if floats.len() > 0 {
        Descriptors::Float32 { dim, data: floats }
    } else {
        Descriptors::Binary { bytes_per_descriptor: stride, data: bits }
    };
    let mut name = String::from_str("cam");
    name.append(padded_string(camera_id as u64, 3).as_str());
    name.append("/slot");
    name.append(padded_string(image_index as u64, 3).as_str());
    Ok(
        Record {
            image: DiscoveredImage {
                path: records[first].image.path.clone(),
                capture_id: records[first].image.capture_id,
                camera_id,
                image_index,
                name,
            },
            width: w,
            height: h,
            features: FeatureSet { keypoints, descriptors },
        },
    )
}

proof fn lemma_first_is_least<K, F>(r: Seq<RecordModel<K, F>>, key: u64, n: nat, k: int)
    requires
        0 <= k < n,
        record_key(r[k]) == key,
        forall|i: int| 0 <= i < k ==> record_key(#[trigger] r[i]) != key,
    ensures
        first_of(r, key, n) == Some(k),
    decreases n,
{
    if k < n - 1 {
        lemma_first_is_least(r, key, (n - 1) as nat, k);
    } else {
        lemma_first_of(r, key, (n - 1) as nat);
    }
}

/// Concatenates each camera's features across captures into one image per
/// camera and slot. With fewer than two captures there is nothing to merge.
pub fn merge_across_captures<K: Copy, F: Copy>(
    records: Vec<Record<K, F>>,
    num_captures: usize,
) -> (out: Result<Vec<Record<K, F>>, SfmError>)
    ensures
        ({
            let r = record_models(records@);
            match out {
                Ok(merged) => if num_captures < 2 {
                    merged == records
                } else {
                    merge_failure(r, groups_of(r).len()) is None && record_models(merged@)
                        == groups_of(r).map_values(|k: u64| merged_record(r, k))
                },
                Err(e) => num_captures >= 2 && (e matches SfmError::Other(m) && merge_failure(
                    r,
                    groups_of(r).len(),
                ) == Some(m@)),
            }
        }),
{
    if num_captures < 2 {
        return Ok(records);
    }
    let ghost r = record_models(records@);
    let mut keys: Vec<u64> = Vec::new();
    let mut i: usize = 0;
    let ghost all_keys = r.map_values(|x: RecordModel<K, F>| record_key(x));
    while i < records.len()
        invariant
            i <= records.len(),
            r == record_models(records@),
            all_keys == r.map_values(|x: RecordModel<K, F>| record_key(x)),
            keys@ == all_keys.take(i as int),
        decreases records.len() - i,
    {
        assert(r[i as int] == records@[i as int]@);
        keys.push(key_for(records[i].image.camera_id, records[i].image.image_index));
        i += 1;
        assert(keys@ =~= all_keys.take(i as int));
    }
    assert(all_keys.take(all_keys.len() as int) =~= all_keys);
    let groups = sets::distinct_numbers(&keys);
    let ghost model = groups@.map_values(|k: u64| merged_record(r, k));
    let mut merged: Vec<Record<K, F>> = Vec::new();
    let mut g: usize = 0;
    assert(record_models(merged@) =~= model.take(0));
    while g < groups.len()
        invariant
            g <= groups.len(),
            num_captures >= 2,
            r == record_models(records@),
            groups@ == groups_of(r),
            all_keys == r.map_values(|x: RecordModel<K, F>| record_key(x)),
            groups@.to_set() == all_keys.to_set(),
            model == groups@.map_values(|k: u64| merged_record(r, k)),
            merge_failure(r, g as nat) is None,
            record_models(merged@) == model.take(g as int),
        decreases groups.len() - g,
    {
        let key: u64 = groups[g];
        proof {
            assert(groups@.to_set().contains(key));
            assert(all_keys.contains(key));
            let k = choose|k: int| 0 <= k < all_keys.len() && all_keys[k] == key;
            assert(record_key(r[k]) == key);
            lemma_first_of(r, key, r.len());
        }
        match merge_group(&records, key) {
            Ok(m) => {
                let ghost before = merged@;
                merged.push(m);
                assert(record_models(merged@) =~= record_models(before).push(m@));
            },
            Err(e) => {
                proof {
                    lemma_failure_stays(r, g as nat + 1, groups_of(r).len());
                }
                return Err(SfmError::Other(e));
            },
        }
        g += 1;
        assert(record_models(merged@) =~= model.take(g as int));
    }
    assert(model.take(model.len() as int) =~= model);
    Ok(merged)
}

// ---------------------------------------------------------------------------
// What merging keeps
// ---------------------------------------------------------------------------

/// Keypoints of the first `n` records of a group.
pub open spec fn keypoints_in<K, F>(r: Seq<RecordModel<K, F>>, key: u64, n: nat) -> nat
    decreases n,
{
    if n == 0 {
        0
    } else {
        keypoints_in(r, key, (n - 1) as nat) + if record_key(r[n - 1]) == key {
            r[n - 1].keypoints.len()
        } else {
            0nat
        }
    }
}

/// Merging drops no observation: a group's merged image has as many keypoints
/// as its images together.
pub proof fn merging_keeps_every_keypoint<K, F>(r: Seq<RecordModel<K, F>>, key: u64, n: nat)
    requires
        n <= r.len(),
    ensures
        pooled_keypoints(r, key, n).len() == keypoints_in(r, key, n),
    decreases n,
{
    if n > 0 {
        merging_keeps_every_keypoint(r, key, (n - 1) as nat);
    }
}

/// Two records are merged exactly when they belong to one camera and slot.
pub proof fn groups_are_camera_and_slot<K, F>(a: RecordModel<K, F>, b: RecordModel<K, F>)
    ensures
        record_key(a) == record_key(b) <==> a.image.camera_id == b.image.camera_id
            && a.image.image_index == b.image.image_index,
{
    lemma_key_parts(
        a.image.camera_id,
        a.image.image_index,
        b.image.camera_id,
        b.image.image_index,
    );
}

/// Where every record of a group has whole marker-corner rows, so has the
/// merged image, one per keypoint: captures stay stamped on their corners.
pub proof fn merged_markers_stay_aligned<K, F>(r: Seq<RecordModel<K, F>>, key: u64, n: nat)
    requires
        n <= r.len(),
        forall|i: int|
            0 <= i < n && record_key(#[trigger] r[i]) == key ==> (r[i].descriptors matches DescriptorsModel::MarkerCorner {
                data,
            } && data.len() == r[i].keypoints.len() * features::MARKER_CORNER_BYTES),
    ensures
        pooled_markers(r, key, n).len() == pooled_keypoints(r, key, n).len()
            * features::MARKER_CORNER_BYTES,
    decreases n,
{
    if n > 0 {
        merged_markers_stay_aligned(r, key, (n - 1) as nat);
        if record_key(r[n - 1]) == key {
            assert(record_key(r[n - 1]) == key);
        }
    }
}

/// What is said of a merge.
pub open spec fn merge_text(num_captures: usize, merged: usize) -> Seq<char> {
    if num_captures < 2 {
        "--merge-multicaps: only one capture present, nothing to merge"@
    } else {
        "--merge-multicaps: merged "@ + text::decimal(num_captures as nat) + " captures into "@
            + text::decimal(merged as nat) + " per-camera feature set(s)"@
    }
}

/// Says what a merge came to: `merged` images of all captures.
pub fn merge_note(num_captures: usize, merged: usize) -> (r: String)
    ensures
        r@ == merge_text(num_captures, merged),
{
    if num_captures < 2 {
        return String::from_str("--merge-multicaps: only one capture present, nothing to merge");
    }
    let mut s = String::from_str("--merge-multicaps: merged ");
    s.append(decimal_string(num_captures as u64).as_str());
    s.append(" captures into ");
    s.append(decimal_string(merged as u64).as_str());
    s.append(" per-camera feature set(s)");
    s
}

/// The first record of a group is one of it, and none in front of it is.
pub proof fn the_first_of_a_group_is_first<K, F>(r: Seq<RecordModel<K, F>>, key: u64, n: nat)
    requires
        n <= r.len(),
    ensures
        match first_of(r, key, n) {
            Some(i) => 0 <= i < n && record_key(r[i]) == key && forall|j: int|
                0 <= j < i ==> record_key(#[trigger] r[j]) != key,
            None => forall|j: int| 0 <= j < n ==> record_key(#[trigger] r[j]) != key,
        },
    decreases n,
{
    if n > 0 {
        the_first_of_a_group_is_first(r, key, (n - 1) as nat);
    }
}

/// A group is refused exactly where two of its images differ in size.
pub proof fn groups_of_one_size_are_accepted<K, F>(r: Seq<RecordModel<K, F>>, key: u64)
    requires
        first_of(r, key, r.len()) is Some,
    ensures
        size_complaint(r, key) is None <==> forall|i: int, j: int|
            0 <= i < r.len() && 0 <= j < r.len() && record_key(#[trigger] r[i]) == key
                && record_key(#[trigger] r[j]) == key ==> r[i].width == r[j].width && r[i].height
                == r[j].height,
{
    the_first_of_a_group_is_first(r, key, r.len());
    let f = first_of(r, key, r.len())->0;
    lemma_other_size(r, key, r[f].width, r[f].height, r.len());
    if size_complaint(r, key) is None {
        assert forall|i: int, j: int|
            0 <= i < r.len() && 0 <= j < r.len() && record_key(#[trigger] r[i]) == key
                && record_key(#[trigger] r[j]) == key implies r[i].width == r[j].width
            && r[i].height == r[j].height by {
            assert(r[i].width == r[f].width);
        }
    } else {
        let m = other_size(r, key, r[f].width, r[f].height, r.len())->0;
        assert(record_key(r[m]) == key && record_key(r[f]) == key);
    }
}

proof fn lemma_other_size<K, F>(r: Seq<RecordModel<K, F>>, key: u64, w: u32, h: u32, n: nat)
    requires
        n <= r.len(),
    ensures
        match other_size(r, key, w, h, n) {
            Some(i) => 0 <= i < n && record_key(r[i]) == key && (r[i].width != w || r[i].height
                != h),
            None => forall|j: int|
                0 <= j < n && record_key(#[trigger] r[j]) == key ==> r[j].width == w
                    && r[j].height == h,
        },
    decreases n,
{
    if n > 0 {
        lemma_other_size(r, key, w, h, (n - 1) as nat);
    }
}

proof fn lemma_pooled_grow<K, F>(r: Seq<RecordModel<K, F>>, key: u64, m: nat, n: nat)
    requires
        m <= n <= r.len(),
    ensures
        pooled_keypoints(r, key, m).is_prefix_of(pooled_keypoints(r, key, n)),
        pooled_markers(r, key, m).is_prefix_of(pooled_markers(r, key, n)),
        pooled_floats(r, key, m).1.is_prefix_of(pooled_floats(r, key, n).1),
        pooled_bits(r, key, m).1.is_prefix_of(pooled_bits(r, key, n).1),
    decreases n,
{
    if m < n {
        lemma_pooled_grow(r, key, m, (n - 1) as nat);
    }
}

/// The features of an image stand in the merged image whole and in their own
/// order, behind those of the images of its group in front of it.
pub proof fn merged_features_keep_their_order<K, F>(r: Seq<RecordModel<K, F>>, key: u64, i: int)
    requires
        0 <= i < r.len(),
        record_key(r[i]) == key,
    ensures
        ({
            let at = pooled_keypoints(r, key, i as nat).len() as int;
            let all = pooled_keypoints(r, key, r.len());
            &&& at + r[i].keypoints.len() <= all.len()
            &&& all.subrange(at, at + r[i].keypoints.len()) == r[i].keypoints
        }),
        r[i].descriptors matches DescriptorsModel::MarkerCorner { data } ==> {
            let at = pooled_markers(r, key, i as nat).len() as int;
            let all = pooled_markers(r, key, r.len());
            &&& at + data.len() <= all.len()
            &&& all.subrange(at, at + data.len()) == data
        },
        r[i].descriptors matches DescriptorsModel::Float32 { dim, data } ==> {
            let at = pooled_floats(r, key, i as nat).1.len() as int;
            let all = pooled_floats(r, key, r.len()).1;
            &&& at + data.len() <= all.len()
            &&& all.subrange(at, at + data.len()) == data
        },
        r[i].descriptors matches DescriptorsModel::Binary { bytes_per_descriptor, data } ==> {
            let at = pooled_bits(r, key, i as nat).1.len() as int;
            let all = pooled_bits(r, key, r.len()).1;
            &&& at + data.len() <= all.len()
            &&& all.subrange(at, at + data.len()) == data
        },
{
    let n = (i + 1) as nat;
    lemma_pooled_grow(r, key, n, r.len());
    let (k, ka) = (pooled_keypoints(r, key, i as nat), pooled_keypoints(r, key, r.len()));
    let kn = pooled_keypoints(r, key, n);
    assert(kn == k + r[i].keypoints);
    assert(ka.take(kn.len() as int) =~= kn);
    assert(ka.subrange(k.len() as int, kn.len() as int) =~= r[i].keypoints) by {
        assert(kn.subrange(k.len() as int, kn.len() as int) =~= r[i].keypoints);
        assert forall|x: int| k.len() <= x < kn.len() implies ka[x] == kn[x] by {
            assert(ka.take(kn.len() as int)[x] == kn[x]);
        }
    }
    match r[i].descriptors {
        DescriptorsModel::MarkerCorner { data } => {
            lemma_part(
                pooled_markers(r, key, i as nat),
                data,
                pooled_markers(r, key, n),
                pooled_markers(r, key, r.len()),
            );
        },
        DescriptorsModel::Float32 { dim, data } => {
            lemma_part(
                pooled_floats(r, key, i as nat).1,
                data,
                pooled_floats(r, key, n).1,
                pooled_floats(r, key, r.len()).1,
            );
        },
        DescriptorsModel::Binary { bytes_per_descriptor, data } => {
            lemma_part(
                pooled_bits(r, key, i as nat).1,
                data,
                pooled_bits(r, key, n).1,
                pooled_bits(r, key, r.len()).1,
            );
        },
    }
}

proof fn lemma_part<A>(front: Seq<A>, part: Seq<A>, upto: Seq<A>, all: Seq<A>)
    requires
        upto == front + part,
        upto.is_prefix_of(all),
    ensures
        front.len() + part.len() <= all.len(),
        all.subrange(front.len() as int, (front.len() + part.len()) as int) == part,
{
    assert forall|x: int| 0 <= x < upto.len() implies all[x] == upto[x] by {
        assert(all.take(upto.len() as int)[x] == upto[x]);
    }
    assert(all.subrange(front.len() as int, (front.len() + part.len()) as int) =~= part);
}

proof fn lemma_pooled_kind<K, F>(r: Seq<RecordModel<K, F>>, key: u64, n: nat)
    requires
        n <= r.len(),
    ensures
        (forall|i: int|
            0 <= i < n && record_key(#[trigger] r[i]) == key ==> !(r[i].descriptors
                is MarkerCorner)) ==> pooled_markers(r, key, n).len() == 0,
        (forall|i: int|
            0 <= i < n && record_key(#[trigger] r[i]) == key ==> !(r[i].descriptors is Float32))
            ==> pooled_floats(r, key, n).1.len() == 0,
    decreases n,
{
    if n > 0 {
        lemma_pooled_kind(r, key, (n - 1) as nat);
    }
}

proof fn lemma_pooled_width<K, F>(r: Seq<RecordModel<K, F>>, key: u64, width: u32, n: nat)
    requires
        n <= r.len(),
    ensures
        (forall|i: int|
            0 <= i < n && record_key(#[trigger] r[i]) == key ==> (r[i].descriptors matches DescriptorsModel::Float32 {
                dim,
                ..
            } && dim == width)) && (exists|i: int|
            0 <= i < n && record_key(#[trigger] r[i]) == key) ==> pooled_floats(r, key, n).0
            == width,
        (forall|i: int|
            0 <= i < n && record_key(#[trigger] r[i]) == key ==> (r[i].descriptors matches DescriptorsModel::Binary {
                bytes_per_descriptor,
                ..
            } && bytes_per_descriptor == width)) && (exists|i: int|
            0 <= i < n && record_key(#[trigger] r[i]) == key) ==> pooled_bits(r, key, n).0
            == width,
    decreases n,
{
    if n > 0 {
        lemma_pooled_width(r, key, width, (n - 1) as nat);
        if exists|i: int| 0 <= i < n && record_key(#[trigger] r[i]) == key {
            let i = choose|i: int| 0 <= i < n && record_key(#[trigger] r[i]) == key;
            if record_key(r[n - 1]) != key {
                assert(i < n - 1);
            }
        }
    }
}

/// Merging keeps the kind of the descriptors and their width: images with
/// binary descriptors give binary descriptors, and images with float
/// descriptors of one dimension give those, unless they have none at all.
pub proof fn merging_keeps_the_kind_of_descriptors<K, F>(
    r: Seq<RecordModel<K, F>>,
    key: u64,
    width: u32,
)
    requires
        first_of(r, key, r.len()) is Some,
    ensures
        (forall|i: int|
            0 <= i < r.len() && record_key(#[trigger] r[i]) == key ==> (r[i].descriptors matches DescriptorsModel::Binary {
                bytes_per_descriptor,
                ..
            } && bytes_per_descriptor == width)) ==> (pooled_descriptors(r, key) matches DescriptorsModel::Binary {
            bytes_per_descriptor,
            data,
        } && bytes_per_descriptor == width && data == pooled_bits(r, key, r.len()).1),
        (forall|i: int|
            0 <= i < r.len() && record_key(#[trigger] r[i]) == key ==> (r[i].descriptors matches DescriptorsModel::Float32 {
                dim,
                ..
            } && dim == width)) && pooled_floats(r, key, r.len()).1.len() > 0 ==> (
        pooled_descriptors(r, key) matches DescriptorsModel::Float32 { dim, data } && dim == width
            && data == pooled_floats(r, key, r.len()).1),
        (forall|i: int|
            0 <= i < r.len() && record_key(#[trigger] r[i]) == key ==> r[i].descriptors
                is MarkerCorner) && pooled_markers(r, key, r.len()).len() > 0 ==> (
        pooled_descriptors(r, key) matches DescriptorsModel::MarkerCorner { data } && data
            == pooled_markers(r, key, r.len())),
{
    the_first_of_a_group_is_first(r, key, r.len());
    let f = first_of(r, key, r.len())->0;
    assert(record_key(r[f]) == key);
    lemma_pooled_kind(r, key, r.len());
    lemma_pooled_width(r, key, width, r.len());
}

/// A merged image is of the camera and the slot of the images that it pools,
/// and has their size.
pub proof fn merged_images_stand_for_their_group<K, F>(r: Seq<RecordModel<K, F>>, key: u64, i: int)
    requires
        0 <= i < r.len(),
        record_key(r[i]) == key,
        size_complaint(r, key) is None,
    ensures
        ({
            let m = merged_record(r, key);
            &&& m.image.camera_id == r[i].image.camera_id
            &&& m.image.image_index == r[i].image.image_index
            &&& (m.width, m.height) == (r[i].width, r[i].height)
            &&& m.keypoints == pooled_keypoints(r, key, r.len())
            &&& m.descriptors == pooled_descriptors(r, key)
        }),
{
    the_first_of_a_group_is_first(r, key, r.len());
    groups_of_one_size_are_accepted(r, key);
    let f = first_of(r, key, r.len())->0;
    groups_are_camera_and_slot(r[f], r[i]);
    assert(record_key(r[f]) == key);
}

/// Merged images of different cameras or slots have different names.
pub proof fn merged_names_differ(camera: u32, slot: u32, other_camera: u32, other_slot: u32)
    requires
        merged_name(camera, slot) == merged_name(other_camera, other_slot),
    ensures
        camera == other_camera,
        slot == other_slot,
{
    reveal_strlit("cam");
    reveal_strlit("/slot");
    let (a, b) = (text::padded(camera as nat, 3), text::padded(slot as nat, 3));
    let (c, d) = (text::padded(other_camera as nat, 3), text::padded(other_slot as nat, 3));
    let (la, lc) = (a.len() as int, c.len() as int);
    text::padded_reads_back(camera as nat, 3);
    text::padded_reads_back(slot as nat, 3);
    text::padded_reads_back(other_camera as nat, 3);
    text::padded_reads_back(other_slot as nat, 3);
    let (s, t) = (merged_name(camera, slot), merged_name(other_camera, other_slot));
    assert(s[3 + la] == '/');
    assert(t[3 + lc] == '/');
    if la < lc {
        assert(t[3 + la] == c[la]);
        assert(text::is_digit(c[la]));
    } else if lc < la {
        assert(s[3 + lc] == a[lc]);
        assert(text::is_digit(a[lc]));
    }
    assert(a =~= s.subrange(3, 3 + la));
    assert(c =~= t.subrange(3, 3 + lc));
    assert(b =~= s.skip(3 + la + 5));
    assert(d =~= t.skip(3 + lc + 5));
}

/// Merging fails at the first group, by camera and slot, whose images differ in
/// size, and only there.
pub proof fn merging_fails_at_the_first_odd_size<K, F>(r: Seq<RecordModel<K, F>>, n: nat)
    requires
        n <= groups_of(r).len(),
    ensures
        match merge_failure(r, n) {
            Some(m) => exists|k: int|
                0 <= k < n && size_complaint(r, #[trigger] groups_of(r)[k]) == Some(m) && forall|
                    j: int,
                |
                    0 <= j < k ==> size_complaint(r, #[trigger] groups_of(r)[j]) is None,
            None => forall|j: int|
                0 <= j < n ==> size_complaint(r, #[trigger] groups_of(r)[j]) is None,
        },
    decreases n,
{
    if n > 0 {
        merging_fails_at_the_first_odd_size(r, (n - 1) as nat);
        if merge_failure(r, (n - 1) as nat) is None && size_complaint(r, groups_of(r)[n - 1])
            is Some {
            assert(size_complaint(r, groups_of(r)[n - 1]) == merge_failure(r, n));
        }
    }
}

/// Every image is in a group, and every group has an image.
pub proof fn every_image_is_in_a_group<K, F>(r: Seq<RecordModel<K, F>>, key: u64)
    ensures
        groups_of(r).contains(key) <==> exists|i: int|
            0 <= i < r.len() && record_key(#[trigger] r[i]) == key,
        sets::increasing(groups_of(r)),
{
    let keys = r.map_values(|x: RecordModel<K, F>| record_key(x));
    sets::sorted_set_is_the_set(keys);
    assert(groups_of(r).contains(key) <==> groups_of(r).to_set().contains(key));
    assert(keys.contains(key) <==> keys.to_set().contains(key));
    if keys.contains(key) {
        let i = choose|i: int| 0 <= i < keys.len() && keys[i] == key;
        assert(record_key(r[i]) == key);
    }
    if exists|i: int| 0 <= i < r.len() && record_key(#[trigger] r[i]) == key {
        let i = choose|i: int| 0 <= i < r.len() && record_key(#[trigger] r[i]) == key;
        assert(keys[i] == key);
    }
}

/// Merging is told of where there are two captures or more; with fewer the one
/// thing is said that there is nothing to merge.
pub proof fn merging_is_told_of_where_it_happens(num_captures: usize, merged: usize, other: usize)
    ensures
        num_captures < 2 ==> merge_text(num_captures, merged) == merge_text(0, other),
        num_captures >= 2 ==> merge_text(num_captures, merged) != merge_text(0, other),
{
    reveal_strlit("--merge-multicaps: only one capture present, nothing to merge");
    reveal_strlit("--merge-multicaps: merged ");
    if num_captures >= 2 {
        assert(merge_text(num_captures, merged)[19] == 'm');
        assert(merge_text(0, other)[19] == 'o');
    }
}

} // verus!
