//! What a reconstruction says about its own calibration.
//!
//! A hard dataset can fail for a reason that the numbers do not show: where
//! every track has two observations, a shared focal length has no multi-view
//! redundancy to be observed from, refinement is rightly declined, and the
//! unrefined guess is reported as though it were a result. These structures
//! make the reason sayable.

use std::collections::BTreeSet;

use vstd::prelude::*;

use crate::camera::Camera;
use crate::consensus;
use crate::consensus::explained;
use crate::model;
use crate::model::{cameras_of_images, ids_u32, ids_u64, Observation, Reconstruction};
use crate::order;
use crate::order::{push_text, sort};
use crate::sets;
use crate::sets::{count_key, distinct_numbers, gather, Gathered};
use crate::text;
use crate::text::decimal_string;

verus! {

// ---------------------------------------------------------------------------
// Track lengths
// ---------------------------------------------------------------------------

/// How long the tracks are.
#[derive(Debug)]
pub struct TrackStats {
    /// Track length and number of points with that length, ascending.
    pub histogram: Vec<(usize, usize)>,
    pub min: usize,
    pub max: usize,
    /// The sum of all lengths.
    pub total_length: u128,
    /// The upper middle of the lengths.
    pub median: usize,
    pub total_points: usize,
}

/// The lengths of the tracks, by ascending point id.
pub open spec fn track_lengths<T, P, K>(recon: Reconstruction<T, P, K>) -> Seq<usize> {
    model::ids(recon.points3d@).map_values(|id: u64| recon.points3d@[id].track@.len() as usize)
}

/// The sum of the first `n` lengths.
pub open spec fn length_sum(lengths: Seq<usize>, n: nat) -> nat
    decreases n,
{
    if n == 0 {
        0
    } else {
        length_sum(lengths, (n - 1) as nat) + lengths[n - 1] as nat
    }
}

/// What is said of a list of lengths.
pub open spec fn describes(s: TrackStats, lengths: Seq<usize>) -> bool {
    let n = lengths.len();
    &&& s.total_points == n
    &&& s.total_length == length_sum(lengths, n)
    &&& s.histogram@.len() == sets::sorted_set(lengths).len()
    &&& forall|i: int|
        0 <= i < s.histogram@.len() ==> (#[trigger] s.histogram@[i]).0 == sets::sorted_set(
            lengths,
        )[i] && s.histogram@[i].1 == sets::key_count(lengths, s.histogram@[i].0, n)
    &&& if n == 0 {
        s.min == 0 && s.max == 0 && s.median == 0
    } else {
        s.min == order::sorted(lengths)[0] && s.max == order::sorted(lengths)[n - 1] && s.median
            == order::sorted(lengths)[n as int / 2]
    }
}

fn lengths_of<T, P, K>(recon: &Reconstruction<T, P, K>) -> (out: Vec<usize>)
    ensures
        out@ == track_lengths(*recon),
{
    broadcast use vstd::std_specs::btree::group_btree_axioms;

    let ids = ids_u64(&recon.points3d);
    let mut out: Vec<usize> = Vec::new();
    let mut i: usize = 0;
    while i < ids.len()
        invariant
            i <= ids@.len(),
            ids@ == model::ids(recon.points3d@),
            ids@.to_set() == recon.points3d@.dom(),
            out@ == track_lengths(*recon).take(i as int),
        decreases ids@.len() - i,
    {
        let id: u64 = ids[i];
        assert(ids@.to_set().contains(id)) by {
            assert(ids@[i as int] == id);
        }
        match recon.points3d.get(&id) {
            Some(p) => {
                out.push(p.track.len());
            },
            None => {
                assert(recon.points3d@.contains_key(id));
                assert(false);
            },
        }
        i += 1;
        assert(out@ =~= track_lengths(*recon).take(i as int));
    }
    assert(out@ =~= track_lengths(*recon));
    out
}

/// Histogram, extremes and middle of the track lengths.
pub fn track_stats<T, P, K>(recon: &Reconstruction<T, P, K>) -> (r: TrackStats)
    ensures
        describes(r, track_lengths(*recon)),
{
    let lengths = lengths_of(recon);
    let total_points: usize = lengths.len();
    let mut total_length: u128 = 0;
    let mut i: usize = 0;
    while i < total_points
        invariant
            i <= total_points == lengths@.len(),
            total_length == length_sum(lengths@, i as nat),
            total_length <= i * usize::MAX,
        decreases total_points - i,
    {
        assert(total_length + lengths@[i as int] <= (i + 1) * usize::MAX) by (nonlinear_arith)
            requires
                total_length <= i * usize::MAX,
                lengths@[i as int] <= usize::MAX,
        ;
        assert((i + 1) * usize::MAX <= u128::MAX) by (nonlinear_arith)
            requires
                i + 1 <= usize::MAX,
                usize::MAX <= 0xffff_ffff_ffff_ffff,
        ;
        total_length = total_length + lengths[i] as u128;
        i += 1;
    }
    let distinct = distinct_numbers(&lengths);
    let mut histogram: Vec<(usize, usize)> = Vec::new();
    let mut k: usize = 0;
    while k < distinct.len()
        invariant
            k <= distinct@.len(),
            histogram@.len() == k,
            forall|i: int|
                0 <= i < k ==> (#[trigger] histogram@[i]).0 == distinct@[i] && histogram@[i].1
                    == sets::key_count(lengths@, distinct@[i], lengths@.len()),
        decreases distinct@.len() - k,
    {
        histogram.push((distinct[k], count_key(&lengths, distinct[k])));
        k += 1;
    }
    proof {
        order::sorted_is_an_ordered_permutation(lengths@);
    }
    let ordered = sort(lengths);
    if total_points == 0 {
        TrackStats { histogram, min: 0, max: 0, total_length, median: 0, total_points }
    } else {
        TrackStats {
            histogram,
            min: ordered[0],
            max: ordered[total_points - 1],
            total_length,
            median: ordered[total_points / 2],
            total_points,
        }
    }
}

// ---------------------------------------------------------------------------
// Residuals
// ---------------------------------------------------------------------------

/// Which observations have a residual, and how to get at those of one image
/// or one point. Images and points are given by their places.
#[derive(Debug)]
pub struct ResidualIndex {
    /// The observations whose point is in front of the camera.
    pub kept: Vec<usize>,
    /// Places in `kept`, per image.
    pub by_image: Vec<Gathered<usize, usize>>,
    /// Places in `kept`, per point.
    pub by_point: Vec<Gathered<usize, usize>>,
    /// Observations whose point falls behind the camera: a reprojection is
    /// undefined for them.
    pub num_behind_camera: usize,
}

/// The images of the kept observations.
pub open spec fn kept_images<K>(obs: Seq<Observation<K>>, kept: Seq<usize>) -> Seq<usize> {
    kept.map_values(|i: usize| obs[i as int].image_idx)
}

/// The points of the kept observations.
pub open spec fn kept_points<K>(obs: Seq<Observation<K>>, kept: Seq<usize>) -> Seq<usize> {
    kept.map_values(|i: usize| obs[i as int].point_idx)
}

/// The index of some observations: those in front of their camera are kept,
/// and sorted out by image and by point; the others are counted.
pub open spec fn is_index<K>(
    r: ResidualIndex,
    obs: Seq<Observation<K>>,
    in_front: Seq<bool>,
) -> bool {
    &&& r.kept@ == consensus::flagged(in_front, in_front.len())
    &&& r.num_behind_camera + r.kept@.len() == obs.len()
    &&& sets::gathers(r.by_image@, kept_images(obs, r.kept@), sets::places(r.kept@.len()))
    &&& sets::gathers(r.by_point@, kept_points(obs, r.kept@), sets::places(r.kept@.len()))
}

/// Sorts out the observations that can be reprojected; `in_front` says of each
/// whether its point is before the camera.
pub fn index_residuals<K: Copy>(obs: &Vec<Observation<K>>, in_front: &Vec<bool>) -> (r:
    ResidualIndex)
    requires
        in_front@.len() == obs@.len(),
    ensures
        is_index(r, obs@, in_front@),
{
    let total: usize = in_front.len();
    let kept = explained(in_front);
    assert(total == in_front@.len());
    proof {
        consensus::flagged_are_listed(in_front@, in_front@.len());
    }
    let mut images: Vec<usize> = Vec::new();
    let mut points: Vec<usize> = Vec::new();
    let mut all: Vec<usize> = Vec::new();
    let mut i: usize = 0;
    while i < kept.len()
        invariant
            i <= kept@.len(),
            forall|k: int| 0 <= k < kept@.len() ==> (#[trigger] kept@[k]) < obs@.len(),
            images@ == kept_images(obs@, kept@).take(i as int),
            points@ == kept_points(obs@, kept@).take(i as int),
            all@ == sets::places(i as nat),
        decreases kept@.len() - i,
    {
        assert(kept@[i as int] < obs@.len());
        let o = obs[kept[i]];
        images.push(o.image_idx);
        points.push(o.point_idx);
        all.push(i);
        i += 1;
        assert(images@ =~= kept_images(obs@, kept@).take(i as int));
        assert(points@ =~= kept_points(obs@, kept@).take(i as int));
        assert(all@ =~= sets::places(i as nat));
    }
    assert(images@ =~= kept_images(obs@, kept@));
    assert(points@ =~= kept_points(obs@, kept@));
    let num_behind_camera: usize = obs.len() - kept.len();
    let by_image = gather(&images, &all);
    let by_point = gather(&points, &all);
    ResidualIndex { kept, by_image, by_point, num_behind_camera }
}

/// The residuals by image, and those by point, part what is kept: each stands
/// once in the list of its own image and once in that of its own point, the
/// lists hold nothing else, and with the observations behind a camera they
/// account for every observation.
pub proof fn residual_lists_part_the_observations<K>(
    obs: Seq<Observation<K>>,
    in_front: Seq<bool>,
    r: ResidualIndex,
)
    requires
        in_front.len() == obs.len(),
        is_index(r, obs, in_front),
        obs.len() <= usize::MAX,
    ensures
        sets::part_the_places(r.by_image@, kept_images(obs, r.kept@)),
        sets::part_the_places(r.by_point@, kept_points(obs, r.kept@)),
        sets::group_sizes(r.by_image@, r.by_image@.len()) + r.num_behind_camera == obs.len(),
        sets::group_sizes(r.by_point@, r.by_point@.len()) + r.num_behind_camera == obs.len(),
        forall|i: int|
            0 <= i < obs.len() ==> (#[trigger] in_front[i] <==> r.kept@.contains(i as usize)),
{
    consensus::flagged_are_listed(in_front, in_front.len());
    sets::groups_part_the_places(r.by_image@, kept_images(obs, r.kept@));
    sets::groups_part_the_places(r.by_point@, kept_points(obs, r.kept@));
}

/// Middle, upper tail and largest of some errors. The errors are given, and
/// come back, as numbers that are ordered as the errors are.
#[derive(Debug, Clone, Copy, PartialEq, Eq, Structural)]
pub struct Quantiles {
    pub median: u64,
    pub p95: u64,
    pub max: u64,
}

/// Where the 95th percentile of `n` sorted values stands: 95% of the way from
/// the first to the last, to the nearest place.
pub open spec fn p95_place(n: int) -> int {
    (19 * (n - 1) + 10) / 20
}

/// Nothing of no errors.
pub fn quantiles(errors: Vec<u64>) -> (r: Option<Quantiles>)
    ensures
        r is None <==> errors@.len() == 0,
        r matches Some(q) ==> {
            let n = errors@.len() as int;
            &&& q.median == order::sorted(errors@)[n / 2]
            &&& 0 <= p95_place(n) < n
            &&& q.p95 == order::sorted(errors@)[p95_place(n)]
            &&& q.max == order::sorted(errors@)[n - 1]
        },
{
    proof {
        order::sorted_is_an_ordered_permutation(errors@);
    }
    let ordered = sort(errors);
    let n: usize = ordered.len();
    if n == 0 {
        return None;
    }
    let at = ((19 * (n as u128 - 1) + 10) / 20) as usize;
    assert(at == p95_place(n as int));
    Some(Quantiles { median: ordered[n / 2], p95: ordered[at], max: ordered[n - 1] })
}

/// The order in which errors are come upon has no part in their quantiles.
pub proof fn quantiles_ignore_order(a: Seq<u64>, b: Seq<u64>)
    requires
        a.to_multiset() == b.to_multiset(),
    ensures
        order::sorted(a) == order::sorted(b),
        a.len() == b.len(),
{
    broadcast use vstd::seq_lib::group_to_multiset_ensures;

    let leq = |x: u64, y: u64| x <= y;
    order::sorted_is_an_ordered_permutation(a);
    order::sorted_is_an_ordered_permutation(b);
    assert(vstd::relations::total_ordering(leq));
    let less = order::natural::<u64>();
    assert forall|i: int, j: int| 0 <= i < j < order::sorted(a).len() implies #[trigger] leq(
        order::sorted(a)[i],
        order::sorted(a)[j],
    ) by {
        assert(!less(order::sorted(a)[j], order::sorted(a)[i]));
    }
    assert forall|i: int, j: int| 0 <= i < j < order::sorted(b).len() implies #[trigger] leq(
        order::sorted(b)[i],
        order::sorted(b)[j],
    ) by {
        assert(!less(order::sorted(b)[j], order::sorted(b)[i]));
    }
    vstd::seq_lib::lemma_sorted_unique(order::sorted(a), order::sorted(b), leq);
}

/// Taken image by image, or point by point, the errors have the quantiles that
/// they have taken all together. Either way of grouping them parts them.
pub proof fn grouped_errors_have_the_same_quantiles(
    groups: Seq<Gathered<usize, usize>>,
    keys: Seq<usize>,
    errors: Seq<u64>,
)
    requires
        sets::part_the_places(groups, keys),
        errors.len() == keys.len() <= usize::MAX,
    ensures
        order::sorted(
            sets::listed(groups, groups.len()).map_values(|k: usize| errors[k as int]),
        ) == order::sorted(errors),
{
    let at = |k: usize| errors[k as int];
    let every = sets::places(keys.len());
    sets::groups_list_every_place(groups, keys);
    order::lemma_mapped_multiset(sets::listed(groups, groups.len()), every, at);
    assert(every.map_values(at) =~= errors);
    quantiles_ignore_order(sets::listed(groups, groups.len()).map_values(at), errors);
}

// ---------------------------------------------------------------------------
// Cameras
// ---------------------------------------------------------------------------

/// How a camera's final focal length compares with its initial guess.
#[derive(Debug, Clone, Copy, PartialEq)]
pub enum FocalChange<C> {
    /// There is no initial guess.
    Unknown,
    Same,
    /// It moved, by this fraction of the guess.
    Moved(C),
}

/// Why a camera's focal length does or does not differ from its initial guess.
#[derive(Debug, Clone, Copy, PartialEq)]
pub enum FocalVerdict<C> {
    /// Intrinsics were held at a value that the configuration pinned.
    Pinned,
    /// The camera never had enough images, so refinement was never attempted.
    NotEligible { num_images: usize },
    /// Eligible, but the final focal is the initial guess: the refined fit did
    /// not beat the fixed one and was discarded.
    Rejected,
    /// The focal moved off its initial guess.
    Refined { relative_change: C },
    /// No initial guess to compare against.
    Unknown,
}

/// The verdict on a camera: a pinned one is never judged, a moved focal was
/// refined however few images there are, and an unmoved one was either never
/// tried or rejected.
pub open spec fn verdict_of<C>(
    change: FocalChange<C>,
    num_images: usize,
    pinned: bool,
    min_images: usize,
) -> FocalVerdict<C> {
    if pinned {
        FocalVerdict::Pinned
    } else {
        match change {
            FocalChange::Unknown => FocalVerdict::Unknown,
            FocalChange::Moved(c) => FocalVerdict::Refined { relative_change: c },
            FocalChange::Same => if num_images < min_images {
                FocalVerdict::NotEligible { num_images }
            } else {
                FocalVerdict::Rejected
            },
        }
    }
}

pub fn focal_verdict<C: Copy>(
    change: FocalChange<C>,
    num_images: usize,
    pinned: bool,
    min_images: usize,
) -> (r: FocalVerdict<C>)
    ensures
        r == verdict_of(change, num_images, pinned, min_images),
{
    if pinned {
        return FocalVerdict::Pinned;
    }
    match change {
        FocalChange::Unknown => FocalVerdict::Unknown,
        FocalChange::Moved(c) => FocalVerdict::Refined { relative_change: c },
        FocalChange::Same => if num_images < min_images {
            FocalVerdict::NotEligible { num_images }
        } else {
            FocalVerdict::Rejected
        },
    }
}

impl<C> FocalVerdict<C> {
    /// The summary line; `percent` is the change as it is shown.
    pub open spec fn headline_text(&self, min_images: usize, percent: Seq<char>) -> Seq<char> {
        match *self {
            FocalVerdict::Pinned => "focal pinned by sfm.toml (refine = false)"@,
            FocalVerdict::NotEligible { num_images } => "focal NOT refined - only "@
                + text::decimal(num_images as nat) + " image(s) on this camera, needs "@
                + text::decimal(min_images as nat),
            FocalVerdict::Rejected =>
                "focal NOT refined - self-calibration ran and its result was rejected"@,
            FocalVerdict::Refined { .. } => "focal refined ("@ + percent
                + "% from the initial guess)"@,
            FocalVerdict::Unknown => "focal unknown - no initial guess to compare against"@,
        }
    }

    /// One-line summary for the panel header.
    pub fn headline(&self, min_images: usize, percent: &str) -> (r: String)
        ensures
            r@ == self.headline_text(min_images, percent@),
    {
        match self {
            FocalVerdict::Pinned => String::from_str("focal pinned by sfm.toml (refine = false)"),
            FocalVerdict::NotEligible { num_images } => {
                let mut s = String::from_str("focal NOT refined - only ");
                s.append(decimal_string(*num_images as u64).as_str());
                s.append(" image(s) on this camera, needs ");
                s.append(decimal_string(min_images as u64).as_str());
                s
            },
            FocalVerdict::Rejected => String::from_str(
                "focal NOT refined - self-calibration ran and its result was rejected",
            ),
            FocalVerdict::Refined { .. } => {
                let mut s = String::from_str("focal refined (");
                s.append(percent);
                s.append("% from the initial guess)");
                s
            },
            FocalVerdict::Unknown => String::from_str(
                "focal unknown - no initial guess to compare against",
            ),
        }
    }

    /// A verdict that says the camera was not calibrated.
    pub open spec fn warns(&self) -> bool {
        *self is NotEligible || *self is Rejected
    }

    /// Whether this should be drawn as a warning rather than as a result.
    pub fn is_warning(&self) -> (r: bool)
        ensures
            r == self.warns(),
    {
        match self {
            FocalVerdict::NotEligible { .. } => true,
            FocalVerdict::Rejected => true,
            _ => false,
        }
    }
}

/// A pinned camera is never a warning, and a warning always means that a known
/// guess did not move.
pub proof fn warnings_are_about_unmoved_focals<C>(
    change: FocalChange<C>,
    num_images: usize,
    pinned: bool,
    min_images: usize,
)
    ensures
        verdict_of(change, num_images, pinned, min_images).warns() <==> !pinned && change is Same,
{
}

/// What is known of one camera.
#[derive(Debug)]
pub struct CameraDiag<C> {
    pub camera_id: u32,
    pub model_name: String,
    pub num_images: usize,
    pub num_observations: usize,
    pub verdict: FocalVerdict<C>,
    /// Longest track among the points this camera observes. At most two is the
    /// pathology that makes a shared focal unobservable.
    pub max_track_len: usize,
}

/// The supporting sentence for tracks that are too short.
pub open spec fn short_tracks(max_track_len: usize) -> Seq<char> {
    "every track on this camera has at most "@ + text::decimal(max_track_len as nat)
        + " observations, so no 3D point is seen by enough views to constrain a shared focal length"@
}

impl<C> CameraDiag<C> {
    /// The supporting sentence under the headline, when there is one.
    pub fn evidence(&self) -> (r: Option<String>)
        ensures
            match r {
                Some(s) => self.verdict.warns() && self.max_track_len <= 2 && s@ == short_tracks(
                    self.max_track_len,
                ),
                None => !(self.verdict.warns() && self.max_track_len <= 2),
            },
    {
        if !self.verdict.is_warning() {
            return None;
        }
        if self.max_track_len <= 2 {
            let mut s = String::from_str("every track on this camera has at most ");
            s.append(decimal_string(self.max_track_len as u64).as_str());
            s.append(
                " observations, so no 3D point is seen by enough views to constrain a shared focal length",
            );
            return Some(s);
        }
        None
    }
}

/// The camera of each kept observation.
pub open spec fn observing_cameras(cameras: Seq<u32>, images: Seq<usize>) -> Seq<u32> {
    images.map_values(|i: usize| cameras[i as int])
}

/// Some element of the track lies in an image of the camera.
pub open spec fn observes<T, P, K>(recon: Reconstruction<T, P, K>, camera: u32, point: u64) -> bool {
    exists|k: int|
        0 <= k < recon.points3d@[point].track@.len() && recon.images@.contains_key(
            (#[trigger] recon.points3d@[point].track@[k]).image_id,
        ) && recon.images@[recon.points3d@[point].track@[k].image_id].camera_id == camera
}

/// The longest track that the camera sees of the first `n` points.
pub open spec fn longest_track<T, P, K>(
    recon: Reconstruction<T, P, K>,
    camera: u32,
    n: nat,
) -> usize
    decreases n,
{
    if n == 0 {
        0
    } else {
        let rest = longest_track(recon, camera, (n - 1) as nat);
        let point = model::ids(recon.points3d@)[n - 1];
        let len = recon.points3d@[point].track@.len() as usize;
        if observes(recon, camera, point) && len > rest {
            len
        } else {
            rest
        }
    }
}

fn find_longest<T, P, K>(recon: &Reconstruction<T, P, K>, ids: &Vec<u64>, camera: u32) -> (r: usize)
    requires
        ids@ == model::ids(recon.points3d@),
        ids@.to_set() == recon.points3d@.dom(),
    ensures
        r == longest_track(*recon, camera, ids@.len()),
{
    broadcast use vstd::std_specs::btree::group_btree_axioms;

    let mut best: usize = 0;
    let mut n: usize = 0;
    while n < ids.len()
        invariant
            n <= ids@.len(),
            ids@ == model::ids(recon.points3d@),
            ids@.to_set() == recon.points3d@.dom(),
            best == longest_track(*recon, camera, n as nat),
        decreases ids@.len() - n,
    {
        let id: u64 = ids[n];
        assert(ids@.to_set().contains(id)) by {
            assert(ids@[n as int] == id);
        }
        match recon.points3d.get(&id) {
            Some(p) => {
                let mut seen = false;
                let mut k: usize = 0;
                while k < p.track.len()
                    invariant
                        k <= p.track@.len(),
                        recon.points3d@[id] == *p,
                        seen == exists|j: int|
                            0 <= j < k && recon.images@.contains_key(
                                (#[trigger] recon.points3d@[id].track@[j]).image_id,
                            ) && recon.images@[recon.points3d@[id].track@[j].image_id].camera_id
                                == camera,
                    decreases p.track@.len() - k,
                {
                    let t = p.track[k];
                    assert(recon.points3d@[id].track@[k as int] == t);
                    match recon.images.get(&t.image_id) {
                        Some(im) => {
                            if im.camera_id == camera {
                                seen = true;
                            }
                        },
                        None => {},
                    }
                    k += 1;
                }
                if seen && p.track.len() > best {
                    best = p.track.len();
                }
            },
            None => {
                assert(recon.points3d@.contains_key(id));
                assert(false);
            },
        }
        n += 1;
    }
    best
}

/// What is said of one camera.
pub open spec fn is_diag<T, P, K, C>(
    d: CameraDiag<C>,
    cam: Camera<T>,
    recon: Reconstruction<T, P, K>,
    kept_images: Seq<usize>,
    change: FocalChange<C>,
    pinned: Set<u32>,
    min_images: usize,
) -> bool {
    let cameras = model::image_cameras(recon);
    &&& d.camera_id == cam.camera_id
    &&& d.model_name@ == cam.model.name_text()
    &&& d.num_images == sets::key_count(cameras, cam.camera_id, cameras.len())
    &&& d.num_observations == sets::key_count(
        observing_cameras(cameras, kept_images),
        cam.camera_id,
        kept_images.len(),
    )
    &&& d.verdict == verdict_of(change, d.num_images, pinned.contains(cam.camera_id), min_images)
    &&& d.max_track_len == longest_track(
        recon,
        cam.camera_id,
        model::ids(recon.points3d@).len(),
    )
}

/// The diagnosis of every camera, by ascending id. `kept_images` holds the
/// image of each observation that has a residual, and `changes` what became of
/// each camera's focal length.
pub fn camera_diags<T: Copy, P, K, C: Copy>(
    recon: &Reconstruction<T, P, K>,
    kept_images: &Vec<usize>,
    changes: &Vec<FocalChange<C>>,
    pinned: &BTreeSet<u32>,
    min_images: usize,
) -> (out: Vec<CameraDiag<C>>)
    requires
        changes@.len() == recon.cameras@.len(),
        forall|k: int|
            0 <= k < kept_images@.len() ==> (#[trigger] kept_images@[k]) < recon.images@.len(),
    ensures
        out@.len() == recon.cameras@.len(),
        forall|i: int|
            0 <= i < out@.len() ==> is_diag(
                #[trigger] out@[i],
                recon.cameras@[model::ids(recon.cameras@)[i]],
                *recon,
                kept_images@,
                changes@[i],
                pinned@,
                min_images,
            ),
{
    broadcast use vstd::std_specs::btree::group_btree_axioms;

    let cameras = cameras_of_images(recon);
    let mut observing: Vec<u32> = Vec::new();
    let mut k: usize = 0;
    while k < kept_images.len()
        invariant
            k <= kept_images@.len(),
            cameras@.len() == recon.images@.len(),
            forall|k: int|
                0 <= k < kept_images@.len() ==> (#[trigger] kept_images@[k]) < recon.images@.len(),
            observing@ == observing_cameras(cameras@, kept_images@).take(k as int),
        decreases kept_images@.len() - k,
    {
        assert(kept_images@[k as int] < recon.images@.len());
        observing.push(cameras[kept_images[k]]);
        k += 1;
        assert(observing@ =~= observing_cameras(cameras@, kept_images@).take(k as int));
    }
    assert(observing@ =~= observing_cameras(cameras@, kept_images@));
    let point_ids = ids_u64(&recon.points3d);
    let camera_ids = ids_u32(&recon.cameras);
    let mut out: Vec<CameraDiag<C>> = Vec::new();
    let mut i: usize = 0;
    while i < camera_ids.len()
        invariant
            i <= camera_ids@.len(),
            camera_ids@ == model::ids(recon.cameras@),
            camera_ids@.to_set() == recon.cameras@.dom(),
            camera_ids@.len() == recon.cameras@.len(),
            changes@.len() == recon.cameras@.len(),
            point_ids@ == model::ids(recon.points3d@),
            point_ids@.to_set() == recon.points3d@.dom(),
            cameras@ == model::image_cameras(*recon),
            observing@ == observing_cameras(cameras@, kept_images@),
            out@.len() == i,
            forall|j: int|
                0 <= j < i ==> is_diag(
                    #[trigger] out@[j],
                    recon.cameras@[camera_ids@[j]],
                    *recon,
                    kept_images@,
                    changes@[j],
                    pinned@,
                    min_images,
                ),
        decreases camera_ids@.len() - i,
    {
        let id: u32 = camera_ids[i];
        assert(camera_ids@.to_set().contains(id)) by {
            assert(camera_ids@[i as int] == id);
        }
        match recon.cameras.get(&id) {
            Some(cam) => {
                let num_images: usize = count_key(&cameras, cam.camera_id);
                let num_observations: usize = count_key(&observing, cam.camera_id);
                let verdict = focal_verdict(
                    changes[i],
                    num_images,
                    pinned.contains(&cam.camera_id),
                    min_images,
                );
                out.push(
                    CameraDiag {
                        camera_id: cam.camera_id,
                        model_name: String::from_str(cam.model.name()),
                        num_images,
                        num_observations,
                        verdict,
                        max_track_len: find_longest(recon, &point_ids, cam.camera_id),
                    },
                );
            },
            None => {
                assert(recon.cameras@.contains_key(id));
                assert(false);
            },
        }
        i += 1;
    }
    out
}

// ---------------------------------------------------------------------------
// Cameras that were not calibrated
// ---------------------------------------------------------------------------

/// The cameras among the first `n` whose verdict is a warning.
pub open spec fn stuck<C>(cameras: Seq<CameraDiag<C>>, n: nat) -> Seq<usize>
    decreases n,
{
    if n == 0 {
        Seq::empty()
    } else {
        let rest = stuck(cameras, (n - 1) as nat);
        if cameras[n - 1].verdict.warns() {
            rest.push((n - 1) as usize)
        } else {
            rest
        }
    }
}

/// The lines about one camera.
pub open spec fn camera_lines<C>(c: CameraDiag<C>, min_images: usize) -> Seq<Seq<char>> {
    let head = seq![
        "  camera "@ + text::decimal(c.camera_id as nat) + ": "@ + c.verdict.headline_text(
            min_images,
            ""@,
        ),
    ];
    if c.max_track_len <= 2 {
        head.push("      "@ + short_tracks(c.max_track_len))
    } else {
        head
    }
}

/// The lines about the first `n` of the cameras named.
pub open spec fn lines_of<C>(
    cameras: Seq<CameraDiag<C>>,
    which: Seq<usize>,
    min_images: usize,
    n: nat,
) -> Seq<Seq<char>>
    decreases n,
{
    if n == 0 {
        Seq::empty()
    } else {
        lines_of(cameras, which, min_images, (n - 1) as nat) + camera_lines(
            cameras[which[n - 1] as int],
            min_images,
        )
    }
}

/// Some camera is stuck because it has a single image, or none.
pub open spec fn some_single_view<C>(cameras: Seq<CameraDiag<C>>) -> bool {
    exists|i: int|
        0 <= i < cameras.len() && (#[trigger] cameras[i]).verdict is NotEligible
            && cameras[i].verdict->num_images < 2
}

/// How many of the stuck cameras are named.
pub open spec fn named(stuck: nat) -> nat {
    if stuck < 4 {
        stuck
    } else {
        4
    }
}

/// What to do about a camera with one image.
pub open spec fn single_view_advice() -> Seq<Seq<char>> {
    seq![
        "  A camera with one image cannot have its focal recovered from that image:"@,
        "  moving the focal and moving the camera toward or away from the scene"@,
        "  produce almost the same picture, so nothing separates them. Either give"@,
        "  each camera several images of differently-placed targets, or supply known"@,
        "  intrinsics:  [[cameras]] params = [f, cx, cy, 0.0]  with  refine = false"@,
    ]
}

/// The warning about cameras whose intrinsics came out as they went in.
pub open spec fn warning_text<C>(cameras: Seq<CameraDiag<C>>, min_images: usize) -> Seq<Seq<char>> {
    let which = stuck(cameras, cameras.len());
    if which.len() == 0 {
        Seq::empty()
    } else {
        seq![
            ""@,
            ""@,
            "WARNING: "@ + text::decimal(which.len()) + " of "@ + text::decimal(cameras.len())
                + " camera(s) kept the focal length they started with; not calibrated."@,
        ] + lines_of(cameras, which, min_images, named(which.len())) + (if which.len() > 4 {
            seq!["  ... and "@ + text::decimal((which.len() - 4) as nat) + " more"@]
        } else {
            Seq::empty()
        }) + (if some_single_view(cameras) {
            single_view_advice()
        } else {
            Seq::empty()
        })
    }
}

fn find_stuck<C>(cameras: &Vec<CameraDiag<C>>) -> (out: Vec<usize>)
    ensures
        out@ == stuck(cameras@, cameras@.len()),
        forall|k: int|
            0 <= k < out@.len() ==> (#[trigger] out@[k]) < cameras@.len()
                && cameras@[out@[k] as int].verdict.warns(),
{
    let mut out: Vec<usize> = Vec::new();
    let mut i: usize = 0;
    while i < cameras.len()
        invariant
            i <= cameras@.len(),
            out@ == stuck(cameras@, i as nat),
            forall|k: int|
                0 <= k < out@.len() ==> (#[trigger] out@[k]) < i
                    && cameras@[out@[k] as int].verdict.warns(),
        decreases cameras@.len() - i,
    {
        if cameras[i].verdict.is_warning() {
            out.push(i);
        }
        i += 1;
    }
    out
}

fn has_single_view<C>(cameras: &Vec<CameraDiag<C>>) -> (r: bool)
    ensures
        r == some_single_view(cameras@),
{
    let mut i: usize = 0;
    while i < cameras.len()
        invariant
            i <= cameras@.len(),
            forall|j: int|
                0 <= j < i ==> !((#[trigger] cameras@[j]).verdict is NotEligible
                    && cameras@[j].verdict->num_images < 2),
        decreases cameras@.len() - i,
    {
        match &cameras[i].verdict {
            FocalVerdict::NotEligible { num_images } => {
                if *num_images < 2 {
                    assert(cameras@[i as int].verdict is NotEligible);
                    return true;
                }
            },
            _ => {},
        }
        i += 1;
    }
    false
}

/// Reports cameras whose intrinsics came out exactly as they went in; nothing
/// where there is none.
pub fn unrefined_warning<C>(cameras: &Vec<CameraDiag<C>>, min_images: usize) -> (out: Vec<String>)
    ensures
        order::texts(out@) == warning_text(cameras@, min_images),
{
    let which = find_stuck(cameras);
    let mut out: Vec<String> = Vec::new();
    if which.len() == 0 {
        assert(order::texts(out@) =~= warning_text(cameras@, min_images));
        return out;
    }
    push_text(&mut out, String::from_str(""));
    push_text(&mut out, String::from_str(""));
    let mut head = String::from_str("WARNING: ");
    head.append(decimal_string(which.len() as u64).as_str());
    head.append(" of ");
    head.append(decimal_string(cameras.len() as u64).as_str());
    head.append(" camera(s) kept the focal length they started with; not calibrated.");
    let ghost title = head@;
    push_text(&mut out, head);
    let ghost start = order::texts(out@);
    assert(start =~= seq![""@, ""@, title]);
    let shown: usize = if which.len() < 4 {
        which.len()
    } else {
        4
    };
    let mut n: usize = 0;
    assert(order::texts(out@) =~= start + lines_of(cameras@, which@, min_images, 0));
    while n < shown
        invariant
            n <= shown <= which@.len(),
            forall|k: int|
                0 <= k < which@.len() ==> (#[trigger] which@[k]) < cameras@.len()
                    && cameras@[which@[k] as int].verdict.warns(),
            order::texts(out@) == start + lines_of(cameras@, which@, min_images, n as nat),
        decreases shown - n,
    {
        assert(which@[n as int] < cameras@.len());
        let ghost before = order::texts(out@);
        let c = &cameras[which[n]];
        let mut line = String::from_str("  camera ");
        line.append(decimal_string(c.camera_id as u64).as_str());
        line.append(": ");
        line.append(c.verdict.headline(min_images, "").as_str());
        push_text(&mut out, line);
        match c.evidence() {
            Some(e) => {
                let mut more = String::from_str("      ");
                more.append(e.as_str());
                push_text(&mut out, more);
            },
            None => {},
        }
        assert(order::texts(out@) =~= before + camera_lines(*c, min_images));
        n += 1;
        assert(order::texts(out@) =~= start + lines_of(cameras@, which@, min_images, n as nat));
    }
    let ghost body = order::texts(out@);
    if which.len() > 4 {
        let mut more = String::from_str("  ... and ");
        more.append(decimal_string((which.len() - 4) as u64).as_str());
        more.append(" more");
        push_text(&mut out, more);
    }
    let ghost rest = order::texts(out@);
    let ghost tail: Seq<Seq<char>> = if which@.len() > 4 {
        seq!["  ... and "@ + text::decimal((which@.len() - 4) as nat) + " more"@]
    } else {
        Seq::empty()
    };
    assert(rest =~= body + tail);
    if has_single_view(cameras) {
        push_text(
            &mut out,
            String::from_str(
                "  A camera with one image cannot have its focal recovered from that image:",
            ),
        );
        push_text(
            &mut out,
            String::from_str(
                "  moving the focal and moving the camera toward or away from the scene",
            ),
        );
        push_text(
            &mut out,
            String::from_str(
                "  produce almost the same picture, so nothing separates them. Either give",
            ),
        );
        push_text(
            &mut out,
            String::from_str(
                "  each camera several images of differently-placed targets, or supply known",
            ),
        );
        push_text(
            &mut out,
            String::from_str(
                "  intrinsics:  [[cameras]] params = [f, cx, cy, 0.0]  with  refine = false",
            ),
        );
        assert(order::texts(out@) =~= rest + single_view_advice());
    } else {
        assert(order::texts(out@) =~= rest + Seq::<Seq<char>>::empty());
    }
    out
}

// ---------------------------------------------------------------------------
// Viewing angles on a planar target
// ---------------------------------------------------------------------------

/// How a camera views the target plane, in whole degrees. Every threshold on
/// an angle is a whole degree, so the fraction never decides.
#[derive(Debug, Clone, Copy, PartialEq, Eq, Structural)]
pub struct ViewAngle {
    pub image_id: u32,
    /// Angle between the optical axis and the plane normal: zero is
    /// fronto-parallel.
    pub tilt_deg: u32,
    /// Which way the view is tilted, below 360.
    pub azimuth_deg: u32,
}

/// A view has to be tilted by at least this much before its azimuth means
/// anything.
pub const MIN_MEANINGFUL_TILT_DEG: u32 = 15;

/// The 45-degree sector of an azimuth.
pub open spec fn sector_of(azimuth_deg: u32) -> int {
    if azimuth_deg >= 360 {
        7
    } else {
        azimuth_deg as int / 45
    }
}

/// The tilt band of a view. The innermost is the fronto-parallel one, whose
/// azimuth carries no information.
pub open spec fn band_of(tilt_deg: u32) -> int {
    if tilt_deg < 15 {
        0
    } else if tilt_deg < 30 {
        1
    } else if tilt_deg < 45 {
        2
    } else {
        3
    }
}

/// How many of the first `n` views are tilted toward a sector.
pub open spec fn sector_count(views: Seq<ViewAngle>, sector: int, n: nat) -> nat
    decreases n,
{
    if n == 0 {
        0
    } else {
        let v = views[n - 1];
        sector_count(views, sector, (n - 1) as nat) + if v.tilt_deg >= MIN_MEANINGFUL_TILT_DEG
            && sector_of(v.azimuth_deg) == sector {
            1nat
        } else {
            0nat
        }
    }
}

/// The cell of a view: its band, and its sector except in the fronto-parallel
/// band.
pub open spec fn cell_of(v: ViewAngle) -> (int, int) {
    let band = band_of(v.tilt_deg);
    (
        band,
        if band == 0 {
            0
        } else {
            sector_of(v.azimuth_deg)
        },
    )
}

/// How many of the first `n` views fall into a cell.
pub open spec fn cell_count(views: Seq<ViewAngle>, band: int, sector: int, n: nat) -> nat
    decreases n,
{
    if n == 0 {
        0
    } else {
        cell_count(views, band, sector, (n - 1) as nat) + if cell_of(views[n - 1]) == (
            band,
            sector,
        ) {
            1nat
        } else {
            0nat
        }
    }
}

fn sector(azimuth_deg: u32) -> (r: usize)
    ensures
        r == sector_of(azimuth_deg),
        r < 8,
{
    if azimuth_deg >= 360 {
        7
    } else {
        (azimuth_deg / 45) as usize
    }
}

/// Counts of meaningfully tilted views per 45-degree azimuth sector.
pub fn azimuth_sectors(views: &Vec<ViewAngle>) -> (r: [usize; 8])
    ensures
        forall|s: int| 0 <= s < 8 ==> (#[trigger] r@[s]) == sector_count(views@, s, views@.len()),
{
    let mut sectors: [usize; 8] = [0; 8];
    let mut i: usize = 0;
    while i < views.len()
        invariant
            i <= views@.len(),
            forall|s: int|
                0 <= s < 8 ==> (#[trigger] sectors@[s]) == sector_count(views@, s, i as nat)
                    && sectors@[s] <= i,
        decreases views@.len() - i,
    {
        let v = views[i];
        if v.tilt_deg >= MIN_MEANINGFUL_TILT_DEG {
            let s: usize = sector(v.azimuth_deg);
            assert(sectors@[s as int] <= i);
            sectors[s] = sectors[s] + 1;
        }
        i += 1;
    }
    sectors
}

fn count_cell(views: &Vec<ViewAngle>, band: usize, in_sector: usize) -> (r: usize)
    ensures
        r == cell_count(views@, band as int, in_sector as int, views@.len()),
{
    let mut count: usize = 0;
    let mut i: usize = 0;
    while i < views.len()
        invariant
            i <= views@.len(),
            count <= i,
            count == cell_count(views@, band as int, in_sector as int, i as nat),
        decreases views@.len() - i,
    {
        let v = views[i];
        let b: usize = if v.tilt_deg < 15 {
            0
        } else if v.tilt_deg < 30 {
            1
        } else if v.tilt_deg < 45 {
            2
        } else {
            3
        };
        let s: usize = if b == 0 {
            0
        } else {
            sector(v.azimuth_deg)
        };
        if b == band && s == in_sector {
            count += 1;
        }
        i += 1;
    }
    count
}

/// Occupancy by tilt band and azimuth sector. The fronto-parallel band is
/// collapsed into its first sector, since azimuth is undefined there.
pub fn coverage_grid(views: &Vec<ViewAngle>) -> (r: [[usize; 8]; 4])
    ensures
        forall|b: int, s: int|
            0 <= b < 4 && 0 <= s < 8 ==> (#[trigger] r@[b]@[s]) == cell_count(
                views@,
                b,
                s,
                views@.len(),
            ),
{
    let mut grid: [[usize; 8]; 4] = [[0;8];4];
    let mut b: usize = 0;
    while b < 4
        invariant
            b <= 4,
            forall|c: int, s: int|
                0 <= c < b && 0 <= s < 8 ==> (#[trigger] grid@[c]@[s]) == cell_count(
                    views@,
                    c,
                    s,
                    views@.len(),
                ),
        decreases 4 - b,
    {
        let mut row: [usize; 8] = [0;8];
        let mut s: usize = 0;
        while s < 8
            invariant
                s <= 8,
                forall|t: int|
                    0 <= t < s ==> (#[trigger] row@[t]) == cell_count(
                        views@,
                        b as int,
                        t,
                        views@.len(),
                    ),
            decreases 8 - s,
        {
            row[s] = count_cell(views, b, s);
            s += 1;
        }
        let ghost before = grid@;
        grid[b] = row;
        assert(grid@ =~= before.update(b as int, row));
        b += 1;
    }
    grid
}

/// A fronto-parallel view counts in no sector, and every other view in the
/// sector of its cell.
pub proof fn cells_refine_sectors(v: ViewAngle)
    ensures
        v.tilt_deg >= MIN_MEANINGFUL_TILT_DEG <==> cell_of(v).0 > 0,
        cell_of(v).0 > 0 ==> cell_of(v).1 == sector_of(v.azimuth_deg),
        0 <= cell_of(v).0 < 4,
        0 <= cell_of(v).1 < 8,
{
}

/// Whether the views of a planar target determine its calibration.
#[derive(Debug)]
pub enum CoverageVerdict {
    /// The cloud is not planar, so this is not the question to ask.
    NotPlanar,
    /// Enough tilt, spread over enough directions.
    Adequate,
    Narrow(String),
}

/// The angles of a capture, as they are shown.
#[derive(Debug)]
pub struct ShownAngles {
    pub range: String,
    pub min: String,
    pub max: String,
    pub spread: String,
}

/// Why views at one angle are too few.
pub open spec fn same_angle(a: ShownAngles) -> Seq<char> {
    "every view is within "@ + a.range@ + " deg of the same angle to the target plane ("@ + a.min@
        + "-"@ + a.max@
        + " deg). Zhang's method needs the board tilted substantially between shots, so the focal length is close to unidentifiable here."@
}

/// Why views about one axis are too few.
pub open spec fn same_axis(a: ShownAngles) -> Seq<char> {
    "the target is tilted by a healthy "@ + a.min@ + "-"@ + a.max@
        + " deg, but always about nearly the same axis (spread "@ + a.spread@
        + " deg, want at least 15 deg). Rotating the board about one fixed axis is a degenerate configuration for single-plane self-calibration however wide the tilt range is: tilt it about a second, roughly perpendicular axis as well."@
}

/// What the views allow: `planar` says that the cloud is flat enough to be a plane,
/// `tilted` that the tilts range over 20 degrees or more, and `turned` that the
/// tilt axes spread over 15 degrees or more.
pub fn coverage_verdict(planar: bool, tilted: bool, turned: bool, shown: &ShownAngles) -> (r:
    CoverageVerdict)
    ensures
        match r {
            CoverageVerdict::NotPlanar => !planar,
            CoverageVerdict::Adequate => planar && tilted && turned,
            CoverageVerdict::Narrow(m) => planar && !(tilted && turned) && m@ == if !tilted {
                same_angle(*shown)
            } else {
                same_axis(*shown)
            },
        },
{
    if !planar {
        return CoverageVerdict::NotPlanar;
    }
    if !tilted {
        let mut m = String::from_str("every view is within ");
        m.append(shown.range.as_str());
        m.append(" deg of the same angle to the target plane (");
        m.append(shown.min.as_str());
        m.append("-");
        m.append(shown.max.as_str());
        m.append(
            " deg). Zhang's method needs the board tilted substantially between shots, so the focal length is close to unidentifiable here.",
        );
        return CoverageVerdict::Narrow(m);
    }
    if !turned {
        let mut m = String::from_str("the target is tilted by a healthy ");
        m.append(shown.min.as_str());
        m.append("-");
        m.append(shown.max.as_str());
        m.append(" deg, but always about nearly the same axis (spread ");
        m.append(shown.spread.as_str());
        m.append(
            " deg, want at least 15 deg). Rotating the board about one fixed axis is a degenerate configuration for single-plane self-calibration however wide the tilt range is: tilt it about a second, roughly perpendicular axis as well.",
        );
        return CoverageVerdict::Narrow(m);
    }
    CoverageVerdict::Adequate
}

/// What is said of a capture's coverage; `flatness` is the cloud's, as it is
/// shown.
pub open spec fn coverage_text(v: CoverageVerdict, flatness: Seq<char>) -> Seq<char> {
    match v {
        CoverageVerdict::NotPlanar => "note: this cloud is not planar (flatness "@ + flatness
            + "), so the plane below is only a best fit and its coverage is not a calibration criterion"@,
        CoverageVerdict::Narrow(m) => m@,
        CoverageVerdict::Adequate => "coverage is adequate for single-plane self-calibration"@,
    }
}

/// Says what a capture's coverage allows.
pub fn coverage_message(v: &CoverageVerdict, flatness: &str) -> (r: String)
    ensures
        r@ == coverage_text(*v, flatness@),
{
    match v {
        CoverageVerdict::NotPlanar => {
            let mut s = String::from_str("note: this cloud is not planar (flatness ");
            s.append(flatness);
            s.append(
                "), so the plane below is only a best fit and its coverage is not a calibration criterion",
            );
            s
        },
        CoverageVerdict::Narrow(m) => String::from_str(m.as_str()),
        CoverageVerdict::Adequate => String::from_str(
            "coverage is adequate for single-plane self-calibration",
        ),
    }
}

/// The 95th percentile stands as near to 95% of the way from the first value
/// to the last as a place can.
pub proof fn the_95th_percentile_is_nearly_last(n: int)
    requires
        n > 0,
    ensures
        0 <= p95_place(n) < n,
        -10 <= 20 * p95_place(n) - 19 * (n - 1) <= 10,
{
}

/// Adding up.
pub open spec fn plus() -> spec_fn(nat, usize) -> nat {
    |sum: nat, x: usize| sum + x as nat
}

proof fn lemma_lengths_folded(lengths: Seq<usize>, n: nat)
    requires
        n <= lengths.len(),
    ensures
        length_sum(lengths, n) == lengths.take(n as int).fold_left(0nat, plus()),
    decreases n,
{
    reveal_with_fuel(Seq::fold_left, 2);
    if n > 0 {
        lemma_lengths_folded(lengths, (n - 1) as nat);
        assert(lengths.take(n as int).drop_last() =~= lengths.take(n - 1));
    }
}

/// The extremes are those of the lengths, the histogram counts how often each
/// length occurs, and the total is their sum.
pub proof fn statistics_are_those_of_the_lengths(s: TrackStats, lengths: Seq<usize>, i: int)
    requires
        describes(s, lengths),
        0 <= i < lengths.len() <= usize::MAX,
    ensures
        s.min <= lengths[i] <= s.max,
        lengths.contains(s.min) && lengths.contains(s.max) && lengths.contains(s.median),
        s.total_points == lengths.len(),
        s.total_length == lengths.fold_left(0nat, plus()),
        forall|k: int|
            0 <= k < s.histogram@.len() ==> (#[trigger] s.histogram@[k]).1 == sets::how_many(
                lengths,
                sets::is_key(s.histogram@[k].0),
                lengths.len(),
            ),
        exists|k: int| 0 <= k < s.histogram@.len() && (#[trigger] s.histogram@[k]).0 == lengths[i],
{
    let n = lengths.len();
    let all = order::sorted(lengths);
    order::sorted_is_an_ordered_permutation(lengths);
    sets::sorted_set_is_the_set(lengths);
    lemma_lengths_folded(lengths, n);
    assert(lengths.take(n as int) =~= lengths);
    lemma_member(lengths, all, lengths[i]);
    lemma_member(all, lengths, all[0]);
    lemma_member(all, lengths, all[n - 1]);
    lemma_member(all, lengths, all[n as int / 2]);
    let k = choose|k: int| 0 <= k < all.len() && all[k] == lengths[i];
    assert forall|k: int| 0 <= k < s.histogram@.len() implies (#[trigger] s.histogram@[k]).1
        == sets::how_many(lengths, sets::is_key(s.histogram@[k].0), n) by {
        sets::keys_are_counted(lengths, s.histogram@[k].0, n);
    }
    let set = sets::sorted_set(lengths);
    assert(lengths.to_set().contains(lengths[i]));
    assert(set.to_set().contains(lengths[i]));
    let j = choose|j: int| 0 <= j < set.len() && set[j] == lengths[i];
    assert(s.histogram@[j].0 == lengths[i]);
}

proof fn lemma_member(a: Seq<usize>, b: Seq<usize>, x: usize)
    requires
        a.contains(x),
        a.to_multiset() == b.to_multiset(),
    ensures
        b.contains(x),
{
    broadcast use vstd::seq_lib::group_to_multiset_ensures;

    assert(a.to_multiset().count(x) > 0);
}

/// A focal length that moved was refined, one that did not was either never
/// tried or rejected, and a pinned one is neither.
pub proof fn verdicts_say_what_became_of_the_focal_length<C>(
    c: C,
    num_images: usize,
    min_images: usize,
    change: FocalChange<C>,
)
    ensures
        verdict_of(change, num_images, true, min_images) is Pinned,
        verdict_of(FocalChange::Moved(c), num_images, false, min_images)
            == (FocalVerdict::Refined { relative_change: c }),
        verdict_of(FocalChange::Unknown::<C>, num_images, false, min_images) is Unknown,
        num_images < min_images ==> verdict_of(
            FocalChange::Same::<C>,
            num_images,
            false,
            min_images,
        ) == (FocalVerdict::NotEligible::<C> { num_images }),
        num_images >= min_images ==> verdict_of(
            FocalChange::Same::<C>,
            num_images,
            false,
            min_images,
        ) is Rejected,
{
}

proof fn lemma_longest_track<T, P, K>(recon: Reconstruction<T, P, K>, camera: u32, n: nat)
    requires
        n <= model::ids(recon.points3d@).len(),
    ensures
        ({
            let ids = model::ids(recon.points3d@);
            let longest = longest_track(recon, camera, n);
            &&& forall|i: int|
                0 <= i < n && observes(recon, camera, #[trigger] ids[i])
                    ==> recon.points3d@[ids[i]].track@.len() as usize <= longest
            &&& longest == 0 || exists|i: int|
                0 <= i < n && observes(recon, camera, #[trigger] ids[i])
                    && recon.points3d@[ids[i]].track@.len() as usize == longest
        }),
    decreases n,
{
    if n > 0 {
        lemma_longest_track(recon, camera, (n - 1) as nat);
    }
}

/// No point that a camera sees has a longer track than the longest that is
/// told of it, and a point that it sees has that one.
pub proof fn the_longest_track_is_seen<T, P, K>(
    recon: Reconstruction<T, P, K>,
    camera: u32,
    point: u64,
    at: int,
)
    requires
        recon.points3d@.contains_key(point),
        recon.points3d@.dom().finite(),
        0 <= at < recon.points3d@[point].track@.len() <= usize::MAX,
        recon.images@.contains_key(recon.points3d@[point].track@[at].image_id),
        recon.images@[recon.points3d@[point].track@[at].image_id].camera_id == camera,
    ensures
        ({
            let ids = model::ids(recon.points3d@);
            let longest = longest_track(recon, camera, ids.len());
            &&& recon.points3d@[point].track@.len() <= longest
            &&& exists|i: int|
                0 <= i < ids.len() && observes(recon, camera, #[trigger] ids[i])
                    && recon.points3d@[ids[i]].track@.len() as usize == longest
        }),
{
    let ids = model::ids(recon.points3d@);
    lemma_longest_track(recon, camera, ids.len());
    model::ids_are_the_keys(recon.points3d@);
    assert(recon.points3d@.dom().contains(point));
    assert(ids.to_set().contains(point));
    let i = choose|i: int| 0 <= i < ids.len() && ids[i] == point;
    assert(observes(recon, camera, ids[i]));
}

proof fn lemma_stuck<C>(cameras: Seq<CameraDiag<C>>, n: nat)
    requires
        n <= cameras.len() <= usize::MAX,
    ensures
        ({
            let out = stuck(cameras, n);
            &&& forall|x: usize| #[trigger] out.contains(x) <==> x < n && (cameras[(x as int)].verdict is NotEligible || cameras[(x as int)].verdict is Rejected)
            &&& forall|a: int, b: int| 0 <= a < b < out.len() ==> out[a] < out[b]
        }),
    decreases n,
{
    let out = stuck(cameras, n);
    if n == 0 {
        assert(out.len() == 0);
    } else {
        let rest = stuck(cameras, (n - 1) as nat);
        lemma_stuck(cameras, (n - 1) as nat);
        
        assert forall|x: usize| #[trigger] out.contains(x) <==> x < n && (cameras[(x as int)].verdict is NotEligible || cameras[(x as int)].verdict is Rejected) by {
            if rest.contains(x) {
                let a = choose|a: int| 0 <= a < rest.len() && rest[a] == x;
                assert(out[a] == x);
            }
            if out.contains(x) {
                let a = choose|a: int| 0 <= a < out.len() && out[a] == x;
                if a < rest.len() {
                    assert(rest[a] == x);
                    assert(rest.contains(x));
                }
            }
            if x == n - 1 && (cameras[(x as int)].verdict is NotEligible || cameras[(x as int)].verdict is Rejected) {
                assert(out[rest.len() as int] == x);
            }
        }
        assert forall|a: int, b: int| 0 <= a < b < out.len() implies out[a] < out[b] by {
            assert(rest.contains(rest[a]));
            if b < rest.len() {
                assert(out[b] == rest[b]);
            }
        }
    }
}

/// A camera is warned about exactly where its focal length was not refined though
/// it was not pinned: too few images, or a rejected result. They are named in
/// order.
pub proof fn warned_about_are_the_unrefined<C>(cameras: Seq<CameraDiag<C>>)
    requires
        cameras.len() <= usize::MAX,
    ensures
        forall|x: usize| #[trigger] stuck(cameras, cameras.len()).contains(x) <==> x < cameras.len() && (cameras[(x as int)].verdict is NotEligible || cameras[(x as int)].verdict is Rejected),
        forall|a: int, b: int|
            0 <= a < b < stuck(cameras, cameras.len()).len() ==> stuck(cameras, cameras.len())[a] < stuck(cameras, cameras.len())[b],
{
    lemma_stuck(cameras, cameras.len());
}

/// Sectors part the circle into eight equal ones, and bands the tilts at 15,
/// 30 and 45 degrees.
pub proof fn sectors_and_bands_are_even(azimuth_deg: u32, tilt_deg: u32)
    ensures
        azimuth_deg < 360 ==> 45 * sector_of(azimuth_deg) <= azimuth_deg < 45 * (sector_of(
            azimuth_deg,
        ) + 1),
        0 <= sector_of(azimuth_deg) < 8,
        15 * band_of(tilt_deg) <= tilt_deg,
        band_of(tilt_deg) < 3 ==> tilt_deg < 15 * (band_of(tilt_deg) + 1),
        0 <= band_of(tilt_deg) <= 3,
{
}

/// Views tilted by 15 degrees or more toward a 45-degree sector.
pub open spec fn leans_toward(sector: int) -> spec_fn(ViewAngle) -> bool {
    |v: ViewAngle|
        v.tilt_deg >= 15 && (45 * sector <= v.azimuth_deg < 45 * (sector + 1) || (sector == 7
            && v.azimuth_deg >= 360))
}

/// Views in a tilt band and a sector; the views that are hardly tilted are all
/// in the first sector of the first band.
pub open spec fn lies_in(band: int, sector: int) -> spec_fn(ViewAngle) -> bool {
    |v: ViewAngle|
        if v.tilt_deg < 15 {
            band == 0 && sector == 0
        } else {
            15 * band <= v.tilt_deg && band >= 1 && (band == 3 || (band < 3 && v.tilt_deg < 15 * (
            band + 1))) && leans_toward(sector)(v)
        }
}

/// Each view counts in the sector and in the cell that it lies in.
pub proof fn views_count_where_they_lie(views: Seq<ViewAngle>, band: int, sector: int, n: nat)
    requires
        n <= views.len(),
        0 <= band < 4,
        0 <= sector < 8,
    ensures
        sector_count(views, sector, n) == sets::how_many(views, leans_toward(sector), n),
        cell_count(views, band, sector, n) == sets::how_many(views, lies_in(band, sector), n),
    decreases n,
{
    sets::lemma_none_of_none(views, leans_toward(sector));
    sets::lemma_none_of_none(views, lies_in(band, sector));
    if n > 0 {
        views_count_where_they_lie(views, band, sector, (n - 1) as nat);
        sets::lemma_one_more(views, leans_toward(sector), (n - 1) as nat);
        sets::lemma_one_more(views, lies_in(band, sector), (n - 1) as nat);
    }
}

/// The lengths that the statistics are of are those of the tracks, one for
/// each point.
pub proof fn every_track_is_measured<T, P, K>(recon: Reconstruction<T, P, K>, id: u64)
    requires
        recon.points3d@.dom().finite(),
        recon.points3d@.contains_key(id),
    ensures
        track_lengths(recon).len() == recon.points3d@.len(),
        exists|i: int|
            0 <= i < track_lengths(recon).len() && model::ids(recon.points3d@)[i] == id
                && #[trigger] track_lengths(recon)[i] == recon.points3d@[id].track@.len() as usize,
{
    model::ids_are_the_keys(recon.points3d@);
    let ids = model::ids(recon.points3d@);
    assert(recon.points3d@.dom().contains(id));
    assert(ids.to_set().contains(id));
    let i = choose|i: int| 0 <= i < ids.len() && ids[i] == id;
    assert(track_lengths(recon)[i] == recon.points3d@[id].track@.len() as usize);
}

/// Being an image of a camera.
pub open spec fn is_image_of<T, P, K>(recon: Reconstruction<T, P, K>, camera: u32) -> spec_fn(
    u32,
) -> bool {
    |id: u32| recon.images@[id].camera_id == camera
}

/// Being a place of an image of a camera.
pub open spec fn is_place_of<T, P, K>(recon: Reconstruction<T, P, K>, camera: u32) -> spec_fn(
    usize,
) -> bool {
    |i: usize| recon.images@[model::ids(recon.images@)[i as int]].camera_id == camera
}

proof fn lemma_images_counted<T, P, K>(recon: Reconstruction<T, P, K>, camera: u32, n: nat)
    requires
        n <= model::ids(recon.images@).len(),
    ensures
        sets::key_count(model::image_cameras(recon), camera, n) == sets::how_many(
            model::ids(recon.images@),
            is_image_of(recon, camera),
            n,
        ),
    decreases n,
{
    sets::lemma_none_of_none(model::ids(recon.images@), is_image_of(recon, camera));
    if n > 0 {
        lemma_images_counted(recon, camera, (n - 1) as nat);
        sets::lemma_one_more(
            model::ids(recon.images@),
            is_image_of(recon, camera),
            (n - 1) as nat,
        );
    }
}

proof fn lemma_observing_counted<T, P, K>(
    recon: Reconstruction<T, P, K>,
    images: Seq<usize>,
    camera: u32,
    n: nat,
)
    requires
        n <= images.len(),
        forall|k: int|
            0 <= k < images.len() ==> (#[trigger] images[k]) < model::ids(recon.images@).len(),
    ensures
        sets::key_count(
            observing_cameras(model::image_cameras(recon), images),
            camera,
            n,
        ) == sets::how_many(images, is_place_of(recon, camera), n),
    decreases n,
{
    sets::lemma_none_of_none(images, is_place_of(recon, camera));
    if n > 0 {
        lemma_observing_counted(recon, images, camera, (n - 1) as nat);
        sets::lemma_one_more(images, is_place_of(recon, camera), (n - 1) as nat);
        assert(images[n - 1] < model::ids(recon.images@).len());
    }
}

/// A camera is told of with as many images as are its own, and with as many
/// observations as lie in those images.
pub proof fn cameras_are_told_of_with_what_is_theirs<T, P, K, C>(
    d: CameraDiag<C>,
    cam: Camera<T>,
    recon: Reconstruction<T, P, K>,
    kept_images: Seq<usize>,
    change: FocalChange<C>,
    pinned: Set<u32>,
    min_images: usize,
)
    requires
        is_diag(d, cam, recon, kept_images, change, pinned, min_images),
        forall|k: int|
            0 <= k < kept_images.len() ==> (#[trigger] kept_images[k]) < model::ids(
                recon.images@,
            ).len(),
    ensures
        d.camera_id == cam.camera_id,
        d.num_images == sets::how_many(
            model::ids(recon.images@),
            is_image_of(recon, cam.camera_id),
            model::ids(recon.images@).len(),
        ),
        d.num_observations == sets::how_many(
            kept_images,
            is_place_of(recon, cam.camera_id),
            kept_images.len(),
        ),
        pinned.contains(cam.camera_id) ==> d.verdict is Pinned,
        !pinned.contains(cam.camera_id) && change is Moved ==> d.verdict is Refined,
{
    lemma_images_counted(recon, cam.camera_id, model::ids(recon.images@).len());
    lemma_observing_counted(recon, kept_images, cam.camera_id, kept_images.len());
}

/// A camera is told of in one line, and its tracks in another exactly where
/// none has more than two observations.
pub proof fn short_tracks_are_explained<C>(c: CameraDiag<C>, min_images: usize)
    ensures
        camera_lines(c, min_images).len() == if c.max_track_len <= 2 {
            2nat
        } else {
            1nat
        },
        c.max_track_len <= 2 ==> camera_lines(c, min_images)[1] == "      "@ + short_tracks(
            c.max_track_len,
        ),
{
}

/// Nothing is said where no camera is stuck; where some are, up to four of
/// them are told of, in order.
pub proof fn stuck_cameras_are_warned_about<C>(cameras: Seq<CameraDiag<C>>, min_images: usize)
    requires
        cameras.len() <= usize::MAX,
    ensures
        warning_text(cameras, min_images).len() == 0 <==> forall|i: int|
            0 <= i < cameras.len() ==> !((#[trigger] cameras[i]).verdict is NotEligible
                || cameras[i].verdict is Rejected),
        named(stuck(cameras, cameras.len()).len()) <= 4,
        stuck(cameras, cameras.len()).len() <= 4 ==> named(stuck(cameras, cameras.len()).len())
            == stuck(cameras, cameras.len()).len(),
{
    warned_about_are_the_unrefined(cameras);
    let which = stuck(cameras, cameras.len());
    if which.len() > 0 {
        assert(which.contains(which[0]));
        assert(cameras[which[0] as int].verdict is NotEligible || cameras[which[0] as int].verdict
            is Rejected);
    }
    if exists|i: int|
        0 <= i < cameras.len() && ((#[trigger] cameras[i]).verdict is NotEligible
            || cameras[i].verdict is Rejected) {
        let i = choose|i: int|
            0 <= i < cameras.len() && ((#[trigger] cameras[i]).verdict is NotEligible
                || cameras[i].verdict is Rejected);
        assert(which.contains(i as usize));
    }
}

/// Where cameras are stuck, the warning has a line that counts the stuck ones
/// beyond the four that are told of exactly where there are such, and advice
/// exactly where a camera has a single image.
pub proof fn the_warning_counts_what_it_leaves_out<C>(
    cameras: Seq<CameraDiag<C>>,
    min_images: usize,
)
    requires
        stuck(cameras, cameras.len()).len() > 0,
    ensures
        ({
            let which = stuck(cameras, cameras.len());
            let told = lines_of(cameras, which, min_images, named(which.len()));
            warning_text(cameras, min_images).len() == 3 + told.len() + (if which.len() >= 5 {
                1nat
            } else {
                0nat
            }) + (if exists|i: int|
                0 <= i < cameras.len() && (#[trigger] cameras[i]).verdict is NotEligible
                    && cameras[i].verdict->num_images <= 1 {
                5nat
            } else {
                0nat
            })
        }),
{
    if exists|i: int|
        0 <= i < cameras.len() && (#[trigger] cameras[i]).verdict is NotEligible
            && cameras[i].verdict->num_images <= 1 {
        let i = choose|i: int|
            0 <= i < cameras.len() && (#[trigger] cameras[i]).verdict is NotEligible
                && cameras[i].verdict->num_images <= 1;
        assert(some_single_view(cameras)) by {
            assert(cameras[i].verdict is NotEligible);
        }
    }
}

/// The lines about some cameras are those about each, one camera after
/// another.
pub proof fn cameras_are_told_of_in_turn<C>(
    cameras: Seq<CameraDiag<C>>,
    which: Seq<usize>,
    min_images: usize,
    n: nat,
    k: int,
)
    requires
        0 <= k < n <= which.len(),
    ensures
        ({
            let all = lines_of(cameras, which, min_images, n);
            let at = lines_of(cameras, which, min_images, k as nat).len() as int;
            let own = camera_lines(cameras[which[k] as int], min_images);
            &&& at + own.len() <= all.len()
            &&& all.subrange(at, at + own.len()) == own
        }),
    decreases n,
{
    let all = lines_of(cameras, which, min_images, n);
    let front = lines_of(cameras, which, min_images, (n - 1) as nat);
    let at = lines_of(cameras, which, min_images, k as nat).len() as int;
    let own = camera_lines(cameras[which[k] as int], min_images);
    if k < n - 1 {
        cameras_are_told_of_in_turn(cameras, which, min_images, (n - 1) as nat, k);
        assert(all.subrange(at, at + own.len()) =~= front.subrange(at, at + own.len()));
    } else {
        assert(all.subrange(at, at + own.len()) =~= own);
    }
}

} // verus!
