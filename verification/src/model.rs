//! In-memory sparse reconstruction: cameras, registered images with their
//! keypoints and pose, and triangulated points with tracks. Kept as the triple
//! of COLMAP's `cameras.txt`, `images.txt` and `points3D.txt`.
//!
//! Coordinates, poses and keypoints are type parameters: what is stated here
//! concerns how they are identified, linked and indexed.

use std::collections::BTreeMap;

use vstd::prelude::*;

use crate::camera::Camera;
use crate::sets;
use crate::sets::{slot, Number};

verus! {

/// One observation of a point in one image's keypoint list.
#[derive(Debug, Clone, Copy, PartialEq, Eq, Structural)]
pub struct TrackElement {
    pub image_id: u32,
    /// Index into that image's keypoints.
    pub point2d_idx: u32,
}

/// A triangulated point.
#[derive(Debug)]
pub struct Point3D<T> {
    pub id: u64,
    pub xyz: [T; 3],
    pub color: [u8; 3],
    /// Mean reprojection error in pixels across the track, as of the last
    /// bundle adjustment.
    pub error: T,
    pub track: Vec<TrackElement>,
}

/// A registered image: its pose and the keypoints detected in it, each
/// possibly linked to a triangulated point.
#[derive(Debug)]
pub struct Image<P, K> {
    pub id: u32,
    pub camera_id: u32,
    pub name: String,
    pub pose: P,
    /// Every detected keypoint, index-aligned with `point3d_ids`.
    pub keypoints: Vec<K>,
    pub point3d_ids: Vec<Option<u64>>,
}

impl<P, K> Image<P, K> {
    /// An image that nothing has been found in yet, at the identity pose.
    pub fn new_unregistered(id: u32, camera_id: u32, name: String, identity: P) -> (r: Self)
        ensures
            r.id == id,
            r.camera_id == camera_id,
            r.name == name,
            r.pose == identity,
            r.keypoints@.len() == 0,
            r.point3d_ids@.len() == 0,
    {
        Image {
            id,
            camera_id,
            name,
            pose: identity,
            keypoints: Vec::new(),
            point3d_ids: Vec::new(),
        }
    }

    /// How many keypoints are linked, of the first `n`.
    pub open spec fn linked(&self, n: nat) -> nat
        decreases n,
    {
        if n == 0 {
            0
        } else {
            self.linked((n - 1) as nat) + if self.point3d_ids@[n - 1] is Some {
                1nat
            } else {
                0nat
            }
        }
    }

    /// Keypoints linked to a triangulated point.
    pub fn num_observations(&self) -> (r: usize)
        ensures
            r == self.linked(self.point3d_ids@.len()),
    {
        let mut count: usize = 0;
        let mut i: usize = 0;
        while i < self.point3d_ids.len()
            invariant
                i <= self.point3d_ids@.len(),
                count <= i,
                count == self.linked(i as nat),
            decreases self.point3d_ids@.len() - i,
        {
            if self.point3d_ids[i].is_some() {
                count += 1;
            }
            i += 1;
        }
        count
    }
}

/// A full sparse reconstruction.
#[derive(Debug)]
pub struct Reconstruction<T, P, K> {
    pub cameras: BTreeMap<u32, Camera<T>>,
    pub images: BTreeMap<u32, Image<P, K>>,
    pub points3d: BTreeMap<u64, Point3D<T>>,
}

// ---------------------------------------------------------------------------
// Ids in order
// ---------------------------------------------------------------------------

/// The ids of a map, ascending.
pub open spec fn ids<N: Number, V>(m: Map<N, V>) -> Seq<N> {
    choose|r: Seq<N>| sets::increasing(r) && r.to_set() == m.dom()
}

/// The ids of a map are ascending, and are its keys.
pub proof fn ids_are_the_keys<N: Number, V>(m: Map<N, V>)
    requires
        m.dom().finite(),
    ensures
        sets::increasing(ids(m)),
        ids(m).to_set() == m.dom(),
        ids(m).len() == m.len(),
        ids(m).no_duplicates(),
{
    let listed = m.dom().to_seq();
    m.dom().lemma_to_seq_to_set_id();
    sets::sorted_set_is_the_set(listed);
    let r = sets::sorted_set(listed);
    assert(sets::increasing(r) && r.to_set() == m.dom());
    let all = ids(m);
    assert(all.no_duplicates()) by {
        assert forall|i: int, j: int| 0 <= i < all.len() && 0 <= j < all.len() && i
            != j implies all[i] != all[j] by {
            if i < j {
                assert(all[i].value() < all[j].value());
            } else {
                assert(all[j].value() < all[i].value());
            }
        }
    }
    all.unique_seq_to_set();
}

/// The ids of cameras or images, ascending.
pub fn ids_u32<V>(m: &BTreeMap<u32, V>) -> (out: Vec<u32>)
    ensures
        sets::increasing(out@),
        out@.to_set() == m@.dom(),
        out@ == ids(m@),
        out@.len() == m@.len(),
{
    broadcast use vstd::std_specs::btree::group_btree_axioms;

    let mut out: Vec<u32> = Vec::new();
    for k in it: m.keys()
        invariant
            out@ == it.seq().unref().take(it.index()),
    {
        out.push(*k);
        assert(out@ =~= it.seq().unref().take(it.index() + 1));
    }
    proof {
        let s = vstd::std_specs::btree::spec_keys_iter(m);
        let r = vstd::std_specs::iter::IteratorSpec::remaining(&s);
        assert(out@ =~= r.unref());
        assert(vstd::std_specs::btree::increasing_seq(r));
        assert forall|i: int, j: int| 0 <= i < j < out@.len() implies out@[i] < out@[j] by {
            assert(vstd::std_specs::cmp::OrdSpec::cmp_spec(&r[i], &r[j]) is Less);
        }
        sets::lemma_increasing_unique(out@, ids(m@));
    }
    out
}

/// The ids of points, ascending.
pub fn ids_u64<V>(m: &BTreeMap<u64, V>) -> (out: Vec<u64>)
    ensures
        sets::increasing(out@),
        out@.to_set() == m@.dom(),
        out@ == ids(m@),
        out@.len() == m@.len(),
{
    broadcast use vstd::std_specs::btree::group_btree_axioms;

    let mut out: Vec<u64> = Vec::new();
    for k in it: m.keys()
        invariant
            out@ == it.seq().unref().take(it.index()),
    {
        out.push(*k);
        assert(out@ =~= it.seq().unref().take(it.index() + 1));
    }
    proof {
        let s = vstd::std_specs::btree::spec_keys_iter(m);
        let r = vstd::std_specs::iter::IteratorSpec::remaining(&s);
        assert(out@ =~= r.unref());
        assert(vstd::std_specs::btree::increasing_seq(r));
        assert forall|i: int, j: int| 0 <= i < j < out@.len() implies out@[i] < out@[j] by {
            assert(vstd::std_specs::cmp::OrdSpec::cmp_spec(&r[i], &r[j]) is Less);
        }
        sets::lemma_increasing_unique(out@, ids(m@));
    }
    out
}

impl<T, P, K> Reconstruction<T, P, K> {
    pub fn new() -> (r: Self)
        ensures
            r.cameras@ == Map::<u32, Camera<T>>::empty(),
            r.images@ == Map::<u32, Image<P, K>>::empty(),
            r.points3d@ == Map::<u64, Point3D<T>>::empty(),
    {
        Reconstruction {
            cameras: BTreeMap::new(),
            images: BTreeMap::new(),
            points3d: BTreeMap::new(),
        }
    }

    pub fn num_registered_images(&self) -> (r: usize)
        ensures
            r == self.images@.len(),
    {
        broadcast use vstd::std_specs::btree::group_btree_axioms;

        self.images.len()
    }

    /// One more than the largest point id, or one.
    pub fn next_point3d_id(&self) -> (r: u64)
        requires
            !self.points3d@.contains_key(u64::MAX),
        ensures
            !self.points3d@.contains_key(r),
            forall|id: u64| #[trigger] self.points3d@.contains_key(id) ==> id < r,
            self.points3d@.len() == 0 ==> r == 1,
            self.points3d@.len() > 0 ==> self.points3d@.contains_key((r - 1) as u64),
    {
        let list = ids_u64(&self.points3d);
        let n: usize = list.len();
        if n == 0 {
            assert forall|id: u64| #[trigger] self.points3d@.contains_key(id) implies id < 1 by {
                assert(list@.to_set().contains(id));
            }
            1
        } else {
            let last: u64 = list[n - 1];
            assert(list@.to_set().contains(last)) by {
                assert(list@[n - 1] == last);
            }
            assert(self.points3d@.contains_key(last));
            assert forall|id: u64| #[trigger] self.points3d@.contains_key(id) implies id < last + 1 by {
                assert(list@.to_set().contains(id));
                let k = choose|k: int| 0 <= k < list@.len() && list@[k] == id;
                if k < n - 1 {
                    assert(list@[k].value() < list@[n - 1].value());
                }
            }
            last + 1
        }
    }

    /// Every image's camera is known.
    pub open spec fn cameras_known(&self) -> bool {
        forall|i: u32| #[trigger]
            self.images@.contains_key(i) ==> self.cameras@.contains_key(self.images@[i].camera_id)
    }

    /// The track element leads to a keypoint of a known image of a known
    /// camera.
    pub open spec fn is_seen(&self, t: TrackElement) -> bool {
        &&& self.images@.contains_key(t.image_id)
        &&& self.cameras@.contains_key(self.images@[t.image_id].camera_id)
        &&& t.point2d_idx < self.images@[t.image_id].keypoints@.len()
    }
}

/// The camera of each image, by ascending image id.
pub open spec fn image_cameras<T, P, K>(recon: Reconstruction<T, P, K>) -> Seq<u32> {
    ids(recon.images@).map_values(|id: u32| recon.images@[id].camera_id)
}

/// The camera of each image, by ascending image id.
pub fn cameras_of_images<T, P, K>(recon: &Reconstruction<T, P, K>) -> (out: Vec<u32>)
    ensures
        out@ == image_cameras(*recon),
        out@.len() == recon.images@.len(),
{
    broadcast use vstd::std_specs::btree::group_btree_axioms;

    let list = ids_u32(&recon.images);
    let mut out: Vec<u32> = Vec::new();
    let mut i: usize = 0;
    while i < list.len()
        invariant
            i <= list@.len(),
            list@ == ids(recon.images@),
            list@.to_set() == recon.images@.dom(),
            out@ == image_cameras(*recon).take(i as int),
        decreases list@.len() - i,
    {
        let id: u32 = list[i];
        assert(list@.to_set().contains(id)) by {
            assert(list@[i as int] == id);
        }
        match recon.images.get(&id) {
            Some(im) => {
                out.push(im.camera_id);
            },
            None => {
                assert(recon.images@.contains_key(id));
                assert(false);
            },
        }
        i += 1;
        assert(out@ =~= image_cameras(*recon).take(i as int));
    }
    assert(out@ =~= image_cameras(*recon));
    out
}

// ---------------------------------------------------------------------------
// Observations
// ---------------------------------------------------------------------------

/// A point seen in an image, both by their places in the order of their ids.
#[derive(Debug, Clone, Copy, PartialEq)]
pub struct Observation<K> {
    pub image_idx: usize,
    pub point_idx: usize,
    pub at: K,
}

/// What the first `n` elements of a track see.
pub open spec fn track_observations<T, P, K>(
    recon: Reconstruction<T, P, K>,
    point_idx: int,
    track: Seq<TrackElement>,
    n: nat,
) -> Seq<Observation<K>>
    decreases n,
{
    if n == 0 {
        Seq::empty()
    } else {
        let rest = track_observations(recon, point_idx, track, (n - 1) as nat);
        let t = track[n - 1];
        if recon.is_seen(t) {
            rest.push(
                Observation {
                    image_idx: ids(recon.images@).index_of(t.image_id) as usize,
                    point_idx: point_idx as usize,
                    at: recon.images@[t.image_id].keypoints@[t.point2d_idx as int],
                },
            )
        } else {
            rest
        }
    }
}

/// What the tracks of the first `n` points see.
pub open spec fn observations_of<T, P, K>(recon: Reconstruction<T, P, K>, n: nat) -> Seq<
    Observation<K>,
>
    decreases n,
{
    if n == 0 {
        Seq::empty()
    } else {
        let track = recon.points3d@[ids(recon.points3d@)[n - 1]].track@;
        observations_of(recon, (n - 1) as nat) + track_observations(
            recon,
            n - 1,
            track,
            track.len(),
        )
    }
}

proof fn lemma_track_observations<T, P, K>(
    a: Reconstruction<T, P, K>,
    b: Reconstruction<T, P, K>,
    point_idx: int,
    track: Seq<TrackElement>,
    n: nat,
)
    requires
        a.images@ == b.images@,
        a.cameras@ == b.cameras@,
    ensures
        track_observations(a, point_idx, track, n) == track_observations(b, point_idx, track, n),
    decreases n,
{
    if n > 0 {
        lemma_track_observations(a, b, point_idx, track, (n - 1) as nat);
    }
}

/// Two reconstructions with the same images, cameras and tracks.
pub open spec fn same_tracks<T, P, K>(
    a: Reconstruction<T, P, K>,
    b: Reconstruction<T, P, K>,
) -> bool {
    &&& a.images@ == b.images@
    &&& a.cameras@ == b.cameras@
    &&& a.points3d@.dom() == b.points3d@.dom()
    &&& forall|id: u64|
        a.points3d@.contains_key(id) ==> (#[trigger] a.points3d@[id]).track@
            == b.points3d@[id].track@
}

proof fn lemma_same_observations<T, P, K>(
    a: Reconstruction<T, P, K>,
    b: Reconstruction<T, P, K>,
    n: nat,
)
    requires
        same_tracks(a, b),
        n <= ids(a.points3d@).len(),
        ids(a.points3d@).to_set() == a.points3d@.dom(),
    ensures
        observations_of(a, n) == observations_of(b, n),
    decreases n,
{
    if n > 0 {
        lemma_same_observations(a, b, (n - 1) as nat);
        let id = ids(a.points3d@)[n - 1];
        assert(ids(a.points3d@).to_set().contains(id));
        assert(ids(a.points3d@) == ids(b.points3d@));
        let track = a.points3d@[id].track@;
        lemma_track_observations(a, b, n - 1, track, track.len());
    }
}

/// What is observed of a reconstruction rests on the tracks of its points and
/// on its images and cameras: the errors that the points carry have no part
/// in it.
pub proof fn observations_ignore_errors<T, P, K>(
    a: Reconstruction<T, P, K>,
    b: Reconstruction<T, P, K>,
)
    requires
        same_tracks(a, b),
    ensures
        observations_of(a, a.points3d@.len()) == observations_of(b, b.points3d@.len()),
{
    broadcast use vstd::std_specs::btree::group_btree_axioms;

    ids_are_the_keys(a.points3d@);
    lemma_same_observations(a, b, a.points3d@.len());
}

proof fn lemma_track_places<T, P, K>(
    recon: Reconstruction<T, P, K>,
    point_idx: int,
    track: Seq<TrackElement>,
    n: nat,
    i: int,
)
    requires
        0 <= point_idx <= usize::MAX,
        0 <= i < track_observations(recon, point_idx, track, n).len(),
    ensures
        track_observations(recon, point_idx, track, n)[i].point_idx == point_idx,
    decreases n,
{
    let rest = track_observations(recon, point_idx, track, (n - 1) as nat);
    if i < rest.len() {
        lemma_track_places(recon, point_idx, track, (n - 1) as nat, i);
    }
}

/// An observation is of one of the points.
pub proof fn lemma_observed_places<T, P, K>(recon: Reconstruction<T, P, K>, n: nat, i: int)
    requires
        n <= usize::MAX,
        0 <= i < observations_of(recon, n).len(),
    ensures
        observations_of(recon, n)[i].point_idx < n,
    decreases n,
{
    let front = observations_of(recon, (n - 1) as nat);
    if i < front.len() {
        lemma_observed_places(recon, (n - 1) as nat, i);
    } else {
        let track = recon.points3d@[ids(recon.points3d@)[n - 1]].track@;
        lemma_track_places(recon, n - 1, track, track.len(), i - front.len());
    }
}

/// All observations, by ascending point id and in the order of each track.
/// Track elements that lead nowhere are left out.
pub fn observations<T, P, K: Copy>(recon: &Reconstruction<T, P, K>) -> (out: Vec<Observation<K>>)
    ensures
        out@ == observations_of(*recon, recon.points3d@.len()),
        forall|i: int|
            0 <= i < out@.len() ==> (#[trigger] out@[i]).image_idx < recon.images@.len()
                && out@[i].point_idx < recon.points3d@.len(),
{
    broadcast use vstd::std_specs::btree::group_btree_axioms;

    let image_ids = ids_u32(&recon.images);
    let point_ids = ids_u64(&recon.points3d);
    let mut out: Vec<Observation<K>> = Vec::new();
    let mut n: usize = 0;
    while n < point_ids.len()
        invariant
            n <= point_ids@.len(),
            image_ids@ == ids(recon.images@),
            image_ids@.to_set() == recon.images@.dom(),
            image_ids@.len() == recon.images@.len(),
            sets::increasing(image_ids@),
            point_ids@ == ids(recon.points3d@),
            point_ids@.to_set() == recon.points3d@.dom(),
            point_ids@.len() == recon.points3d@.len(),
            out@ == observations_of(*recon, n as nat),
            forall|i: int|
                0 <= i < out@.len() ==> (#[trigger] out@[i]).image_idx < recon.images@.len()
                    && out@[i].point_idx < recon.points3d@.len(),
        decreases point_ids@.len() - n,
    {
        let id: u64 = point_ids[n];
        assert(point_ids@.to_set().contains(id)) by {
            assert(point_ids@[n as int] == id);
        }
        assert(recon.points3d@.contains_key(id));
        let ghost before = out@;
        match recon.points3d.get(&id) {
            Some(point) => {
                let mut k: usize = 0;
                while k < point.track.len()
                    invariant
                        k <= point.track@.len(),
                        n < point_ids@.len(),
                        image_ids@ == ids(recon.images@),
                        image_ids@.to_set() == recon.images@.dom(),
                        image_ids@.len() == recon.images@.len(),
                        sets::increasing(image_ids@),
                        point_ids@.len() == recon.points3d@.len(),
                        out@ == before + track_observations(
                            *recon,
                            n as int,
                            point.track@,
                            k as nat,
                        ),
                        forall|i: int|
                            0 <= i < out@.len() ==> (#[trigger] out@[i]).image_idx
                                < recon.images@.len() && out@[i].point_idx < recon.points3d@.len(),
                    decreases point.track@.len() - k,
                {
                    let t = point.track[k];
                    let ghost sofar = out@;
                    match (slot(&image_ids, t.image_id), recon.images.get(&t.image_id)) {
                        (Some(image_idx), Some(image)) => {
                            assert(image_ids@.to_set().contains(t.image_id));
                            let idx: usize = t.point2d_idx as usize;
                            if recon.cameras.contains_key(&image.camera_id) && idx
                                < image.keypoints.len() {
                                out.push(
                                    Observation { image_idx, point_idx: n, at: image.keypoints[idx] },
                                );
                                assert(out@ =~= before + track_observations(
                                    *recon,
                                    n as int,
                                    point.track@,
                                    (k + 1) as nat,
                                ));
                            }
                        },
                        _ => {
                            assert(!recon.images@.contains_key(t.image_id)) by {
                                if recon.images@.contains_key(t.image_id) {
                                    assert(image_ids@.to_set().contains(t.image_id));
                                }
                            }
                        },
                    }
                    k += 1;
                }
            },
            None => {
                assert(false);
            },
        }
        n += 1;
    }
    out
}

/// Where every camera is known, only a missing image or keypoint hides an
/// observation.
pub proof fn known_cameras_hide_nothing<T, P, K>(recon: Reconstruction<T, P, K>, t: TrackElement)
    requires
        recon.cameras_known(),
    ensures
        recon.is_seen(t) <==> recon.images@.contains_key(t.image_id) && t.point2d_idx
            < recon.images@[t.image_id].keypoints@.len(),
{
}

/// A pair of images whose matches have been verified geometrically.
#[derive(Debug)]
pub struct TwoViewGeometryRecord<P> {
    /// Relative pose of the second image with the first fixed at the origin;
    /// its translation has unit length.
    pub pose: P,
    /// Keypoint index in the first image and keypoint index in the second.
    pub inlier_matches: Vec<(u32, u32)>,
}

/// Being linked to a point.
pub open spec fn is_linked() -> spec_fn(Option<u64>) -> bool {
    |id: Option<u64>| id is Some
}

/// The observations of an image are its keypoints with a point.
pub proof fn linked_keypoints_are_counted<P, K>(image: Image<P, K>, n: nat)
    requires
        n <= image.point3d_ids@.len(),
    ensures
        image.linked(n) == sets::how_many(image.point3d_ids@, is_linked(), n),
    decreases n,
{
    sets::lemma_none_of_none(image.point3d_ids@, is_linked());
    if n > 0 {
        linked_keypoints_are_counted(image, (n - 1) as nat);
        sets::lemma_one_more(image.point3d_ids@, is_linked(), (n - 1) as nat);
    }
}

/// An observation tells of a track element: it is of the element's image, and
/// at the element's keypoint.
pub open spec fn tells_of<T, P, K>(
    recon: Reconstruction<T, P, K>,
    o: Observation<K>,
    t: TrackElement,
) -> bool {
    &&& o.image_idx < ids(recon.images@).len()
    &&& ids(recon.images@)[o.image_idx as int] == t.image_id
    &&& t.point2d_idx < recon.images@[t.image_id].keypoints@.len()
    &&& o.at == recon.images@[t.image_id].keypoints@[t.point2d_idx as int]
}

/// One of the first `n` elements of a track is what an observation tells of.
pub open spec fn is_told<T, P, K>(
    recon: Reconstruction<T, P, K>,
    o: Observation<K>,
    track: Seq<TrackElement>,
    n: nat,
) -> bool {
    exists|k: int| 0 <= k < n && tells_of(recon, o, #[trigger] track[k])
}

proof fn lemma_track_observed<T, P, K>(
    recon: Reconstruction<T, P, K>,
    point_idx: int,
    track: Seq<TrackElement>,
    n: nat,
)
    requires
        n <= track.len(),
        0 <= point_idx <= usize::MAX,
        recon.images@.dom().finite(),
        recon.images@.len() <= usize::MAX,
    ensures
        ({
            let out = track_observations(recon, point_idx, track, n);
            &&& forall|i: int|
                0 <= i < out.len() ==> (#[trigger] out[i]).point_idx == point_idx && is_told(
                    recon,
                    out[i],
                    track,
                    n,
                )
            &&& forall|k: int|
                0 <= k < n && recon.is_seen(#[trigger] track[k]) ==> has_told(recon, out, track[k])
        }),
    decreases n,
{
    ids_are_the_keys(recon.images@);
    if n > 0 {
        let rest = track_observations(recon, point_idx, track, (n - 1) as nat);
        let out = track_observations(recon, point_idx, track, n);
        lemma_track_observed(recon, point_idx, track, (n - 1) as nat);
        let t = track[n - 1];
        if recon.is_seen(t) {
            assert(recon.images@.dom().contains(t.image_id));
            assert(ids(recon.images@).to_set().contains(t.image_id));
            assert(ids(recon.images@).contains(t.image_id));
            assert(tells_of(recon, out[rest.len() as int], t));
        }
        assert forall|i: int| 0 <= i < out.len() implies (#[trigger] out[i]).point_idx == point_idx
            && is_told(recon, out[i], track, n) by {
            if i < rest.len() {
                assert(out[i] == rest[i]);
                assert(is_told(recon, rest[i], track, (n - 1) as nat));
                let k = choose|k: int|
                    0 <= k < n - 1 && tells_of(recon, rest[i], #[trigger] track[k]);
                assert(tells_of(recon, out[i], track[k]));
            } else {
                assert(tells_of(recon, out[i], track[n - 1]));
            }
        }
        assert forall|k: int| 0 <= k < n && recon.is_seen(#[trigger] track[k]) implies has_told(
            recon,
            out,
            track[k],
        ) by {
            if k < n - 1 {
                assert(has_told(recon, rest, track[k]));
                let i = choose|i: int|
                    0 <= i < rest.len() && tells_of(recon, #[trigger] rest[i], track[k]);
                assert(tells_of(recon, out[i], track[k]));
            }
        }
    }
}

/// One of some observations tells of a track element.
pub open spec fn has_told<T, P, K>(
    recon: Reconstruction<T, P, K>,
    obs: Seq<Observation<K>>,
    t: TrackElement,
) -> bool {
    exists|i: int| 0 <= i < obs.len() && tells_of(recon, #[trigger] obs[i], t)
}

/// One of some observations is of a point and tells of a track element.
pub open spec fn has_told_of_point<T, P, K>(
    recon: Reconstruction<T, P, K>,
    obs: Seq<Observation<K>>,
    point_idx: int,
    t: TrackElement,
) -> bool {
    exists|i: int|
        0 <= i < obs.len() && tells_of(recon, #[trigger] obs[i], t) && obs[i].point_idx
            == point_idx
}

proof fn lemma_points_observed<T, P, K>(recon: Reconstruction<T, P, K>, n: nat, p: int, k: int)
    requires
        n <= ids(recon.points3d@).len() <= usize::MAX,
        recon.images@.dom().finite(),
        recon.images@.len() <= usize::MAX,
        0 <= p < n,
        0 <= k < recon.points3d@[ids(recon.points3d@)[p]].track@.len(),
        recon.is_seen(recon.points3d@[ids(recon.points3d@)[p]].track@[k]),
    ensures
        has_told_of_point(
            recon,
            observations_of(recon, n),
            p,
            recon.points3d@[ids(recon.points3d@)[p]].track@[k],
        ),
    decreases n,
{
    let track = recon.points3d@[ids(recon.points3d@)[n - 1]].track@;
    let rest = observations_of(recon, (n - 1) as nat);
    let last = track_observations(recon, n - 1, track, track.len());
    let all = observations_of(recon, n);
    if p < n - 1 {
        lemma_points_observed(recon, (n - 1) as nat, p, k);
        let t = recon.points3d@[ids(recon.points3d@)[p]].track@[k];
        let i = choose|i: int|
            0 <= i < rest.len() && tells_of(recon, #[trigger] rest[i], t) && rest[i].point_idx
                == p;
        assert(all[i] == rest[i]);
    } else {
        lemma_track_observed(recon, n - 1, track, track.len());
        assert(has_told(recon, last, track[k]));
        let i = choose|i: int| 0 <= i < last.len() && tells_of(recon, #[trigger] last[i], track[k]);
        assert(all[rest.len() + i] == last[i]);
    }
}

/// Every track element that leads to a keypoint of a known image of a known
/// camera is observed, in that image, at that keypoint and of the point whose
/// track it is of.
pub proof fn every_track_element_is_observed<T, P, K>(
    recon: Reconstruction<T, P, K>,
    p: int,
    k: int,
)
    requires
        recon.points3d@.dom().finite(),
        recon.images@.dom().finite(),
        recon.points3d@.len() <= usize::MAX,
        recon.images@.len() <= usize::MAX,
        0 <= p < recon.points3d@.len(),
        0 <= k < recon.points3d@[ids(recon.points3d@)[p]].track@.len(),
        ({
            let t = recon.points3d@[ids(recon.points3d@)[p]].track@[k];
            &&& recon.images@.contains_key(t.image_id)
            &&& recon.cameras@.contains_key(recon.images@[t.image_id].camera_id)
            &&& t.point2d_idx < recon.images@[t.image_id].keypoints@.len()
        }),
    ensures
        has_told_of_point(
            recon,
            observations_of(recon, recon.points3d@.len()),
            p,
            recon.points3d@[ids(recon.points3d@)[p]].track@[k],
        ),
{
    ids_are_the_keys(recon.points3d@);
    lemma_points_observed(recon, recon.points3d@.len(), p, k);
}

/// Every observation is of an element of the track of its point.
pub proof fn observations_are_of_track_elements<T, P, K>(
    recon: Reconstruction<T, P, K>,
    n: nat,
    i: int,
)
    requires
        n <= ids(recon.points3d@).len() <= usize::MAX,
        recon.images@.dom().finite(),
        recon.images@.len() <= usize::MAX,
        0 <= i < observations_of(recon, n).len(),
    ensures
        ({
            let o = observations_of(recon, n)[i];
            &&& o.point_idx < n
            &&& is_told(
                recon,
                o,
                recon.points3d@[ids(recon.points3d@)[o.point_idx as int]].track@,
                recon.points3d@[ids(recon.points3d@)[o.point_idx as int]].track@.len(),
            )
        }),
    decreases n,
{
    let track = recon.points3d@[ids(recon.points3d@)[n - 1]].track@;
    let rest = observations_of(recon, (n - 1) as nat);
    let last = track_observations(recon, n - 1, track, track.len());
    let all = observations_of(recon, n);
    if i < rest.len() {
        assert(all[i] == rest[i]);
        observations_are_of_track_elements(recon, (n - 1) as nat, i);
    } else {
        lemma_track_observed(recon, n - 1, track, track.len());
        assert(all[i] == last[i - rest.len()]);
    }
}

} // verus!
