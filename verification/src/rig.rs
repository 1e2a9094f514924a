//! Calibrating a rig of fixed cameras from several captures of a moved target.
//!
//! A scanner rig is not one scene: the cameras never move, the target does,
//! and each capture is a separate scene that happens to be observed by the
//! same hardware. So each capture is reconstructed on its own, where tracks are
//! long and the geometry is well conditioned, and then the thing that makes it
//! a rig is exploited: every capture is an independent estimate of the same
//! camera arrangement. Aligning them by their shared cameras gives a measured
//! spread per camera.

use vstd::prelude::*;

use crate::consensus;
use crate::consensus::{Consensus, Supported, Xorshift64};
use crate::error::SfmError;
use crate::mapinput;
use crate::mapinput::{find_image, ImageRow};
use crate::order;
use crate::order::{push_text, sort};
use crate::sets;
use crate::sets::{distinct_numbers, gather, Gathered};
use crate::text;
use crate::text::decimal_string;

verus! {

/// A similarity needs three correspondences.
pub const MIN_CAMERAS: usize = 3;

/// How many samples are drawn to align two captures.
pub const SAMPLES: usize = 256;

/// Where sampling starts.
pub const SEED: u64 = 0x2545_F491_4F6C_DD1D;

// ---------------------------------------------------------------------------
// Captures
// ---------------------------------------------------------------------------

/// One capture's view of the rig: where each camera ended up.
#[derive(Debug)]
pub struct CaptureRig<P> {
    pub capture_id: i64,
    /// The cameras, by ascending id.
    pub cameras: Vec<u32>,
    /// The placement of each camera.
    pub places: Vec<P>,
    pub num_points: usize,
    /// The mean reprojection error where it is finite and not negative, as a
    /// number that is ordered as the error is: zero for no error.
    pub error: Option<u64>,
}

/// The last of the first `n` placements of a camera.
pub open spec fn last_place<P>(images: Seq<(u32, P)>, camera: u32, n: nat) -> Option<P>
    decreases n,
{
    if n == 0 {
        None
    } else if images[n - 1].0 == camera {
        Some(images[n - 1].1)
    } else {
        last_place(images, camera, (n - 1) as nat)
    }
}

/// The cameras of placed images.
pub open spec fn placed_cameras<P>(images: Seq<(u32, P)>) -> Seq<u32> {
    images.map_values(|i: (u32, P)| i.0)
}

impl<P: Copy> CaptureRig<P> {
    /// Every camera has one placement.
    pub open spec fn wf(self) -> bool {
        &&& sets::increasing(self.cameras@)
        &&& self.places@.len() == self.cameras@.len()
    }

    /// The rig as a reconstruction has it: of the images of one camera the
    /// last counts.
    pub fn from_reconstruction(
        capture_id: i64,
        images: &Vec<(u32, P)>,
        num_points: usize,
        error: Option<u64>,
    ) -> (r: Self)
        ensures
            r.wf(),
            r.capture_id == capture_id,
            r.num_points == num_points,
            r.error == error,
            r.cameras@ == sets::sorted_set(placed_cameras(images@)),
            r.cameras@.to_set() == placed_cameras(images@).to_set(),
            forall|i: int|
                0 <= i < r.cameras@.len() ==> Some(#[trigger] r.places@[i]) == last_place(
                    images@,
                    r.cameras@[i],
                    images@.len(),
                ),
    {
        let mut ids: Vec<u32> = Vec::new();
        let mut i: usize = 0;
        while i < images.len()
            invariant
                i <= images@.len(),
                ids@ == placed_cameras(images@).take(i as int),
            decreases images@.len() - i,
        {
            ids.push(images[i].0);
            i += 1;
            assert(ids@ =~= placed_cameras(images@).take(i as int));
        }
        assert(ids@ =~= placed_cameras(images@));
        let cameras = distinct_numbers(&ids);
        let mut places: Vec<P> = Vec::new();
        let mut c: usize = 0;
        while c < cameras.len()
            invariant
                c <= cameras@.len(),
                cameras@.to_set() == placed_cameras(images@).to_set(),
                places@.len() == c,
                forall|i: int|
                    0 <= i < c ==> Some(#[trigger] places@[i]) == last_place(
                        images@,
                        cameras@[i],
                        images@.len(),
                    ),
            decreases cameras@.len() - c,
        {
            let id: u32 = cameras[c];
            assert(cameras@.to_set().contains(id)) by {
                assert(cameras@[c as int] == id);
            }
            assert(placed_cameras(images@).contains(id));
            let ghost q = choose|q: int|
                0 <= q < images@.len() && placed_cameras(images@)[q] == id;
            let mut n: usize = images.len();
            while images[n - 1].0 != id
                invariant
                    0 <= q < n <= images@.len(),
                    images@[q].0 == id,
                    last_place(images@, id, images@.len()) == last_place(images@, id, n as nat),
                decreases n,
            {
                n -= 1;
            }
            places.push(images[n - 1].1);
            c += 1;
        }
        CaptureRig { capture_id, cameras, places, num_points, error }
    }
}

// ---------------------------------------------------------------------------
// The reference capture
// ---------------------------------------------------------------------------

/// The errors that can be compared, of the first `n` captures: a capture
/// without points has none, which says nothing of its quality.
pub open spec fn usable_errors<P>(rigs: Seq<CaptureRig<P>>, n: nat) -> Seq<u64>
    decreases n,
{
    if n == 0 {
        Seq::empty()
    } else {
        let rest = usable_errors(rigs, (n - 1) as nat);
        match rigs[n - 1].error {
            Some(e) if e > 0 => rest.push(e),
            _ => rest,
        }
    }
}

/// The upper middle of the errors, where there is one.
pub fn median_error<P>(rigs: &Vec<CaptureRig<P>>) -> (r: Option<u64>)
    ensures
        ({
            let errors = usable_errors(rigs@, rigs@.len());
            r == if errors.len() == 0 {
                None
            } else {
                Some(order::sorted(errors)[errors.len() as int / 2])
            }
        }),
{
    let mut errors: Vec<u64> = Vec::new();
    let mut i: usize = 0;
    while i < rigs.len()
        invariant
            i <= rigs@.len(),
            errors@ == usable_errors(rigs@, i as nat),
        decreases rigs@.len() - i,
    {
        match rigs[i].error {
            Some(e) if e > 0 => {
                errors.push(e);
            },
            _ => {},
        }
        i += 1;
    }
    proof {
        order::sorted_is_an_ordered_permutation(errors@);
    }
    let ordered = sort(errors);
    if ordered.len() == 0 {
        None
    } else {
        Some(ordered[ordered.len() / 2])
    }
}

/// The last of the allowed that is no smaller than the others.
pub open spec fn last_largest(sizes: Seq<nat>, allowed: Seq<bool>, n: nat) -> Option<int>
    decreases n,
{
    if n == 0 {
        None
    } else {
        let rest = last_largest(sizes, allowed, (n - 1) as nat);
        if !allowed[n - 1] {
            rest
        } else {
            match rest {
                Some(w) if sizes[n - 1] < sizes[w] => Some(w),
                _ => Some(n - 1),
            }
        }
    }
}

/// The choice falls on an allowed one of the largest size, and on the last of
/// those.
pub proof fn the_choice_is_the_last_largest(sizes: Seq<nat>, allowed: Seq<bool>, n: nat)
    requires
        n <= sizes.len(),
    ensures
        match last_largest(sizes, allowed, n) {
            Some(w) => 0 <= w < n && allowed[w] && (forall|k: int|
                0 <= k < w && allowed[k] ==> #[trigger] sizes[k] <= sizes[w]) && (forall|k: int|
                w < k < n && allowed[k] ==> #[trigger] sizes[k] < sizes[w]),
            None => forall|k: int| 0 <= k < n ==> !#[trigger] allowed[k],
        },
    decreases n,
{
    if n > 0 {
        the_choice_is_the_last_largest(sizes, allowed, (n - 1) as nat);
    }
}

/// How many cameras each capture has.
pub open spec fn camera_counts<P>(rigs: Seq<CaptureRig<P>>) -> Seq<nat> {
    rigs.map_values(|r: CaptureRig<P>| r.cameras@.len())
}

/// No capture is left out.
pub open spec fn all_allowed(n: nat) -> Seq<bool> {
    Seq::new(n, |i: int| true)
}

/// The reference: by quality first, not only by count. The most cameras alone
/// could choose the worst reconstruction for the others to be aligned to.
pub open spec fn reference_of<P>(rigs: Seq<CaptureRig<P>>, acceptable: Seq<bool>) -> Option<int> {
    match last_largest(camera_counts(rigs), acceptable, rigs.len()) {
        Some(w) => Some(w),
        None => last_largest(camera_counts(rigs), all_allowed(rigs.len()), rigs.len()),
    }
}

/// Why too few cameras are in the way.
pub open spec fn too_few(cameras: nat) -> Seq<char> {
    "the best capture registered only "@ + text::decimal(cameras)
        + " camera(s); at least 3 are needed to align captures to each other"@
}

fn largest<P>(rigs: &Vec<CaptureRig<P>>, allowed: &Vec<bool>) -> (r: Option<usize>)
    requires
        allowed@.len() == rigs@.len(),
    ensures
        match r {
            Some(i) => i < rigs@.len() && last_largest(
                camera_counts(rigs@),
                allowed@,
                rigs@.len(),
            ) == Some(i as int),
            None => last_largest(camera_counts(rigs@), allowed@, rigs@.len()) is None,
        },
{
    let mut best: Option<usize> = None;
    let mut i: usize = 0;
    while i < rigs.len()
        invariant
            i <= rigs@.len(),
            allowed@.len() == rigs@.len(),
            match best {
                Some(b) => b < i && last_largest(camera_counts(rigs@), allowed@, i as nat) == Some(
                    b as int,
                ),
                None => last_largest(camera_counts(rigs@), allowed@, i as nat) is None,
            },
        decreases rigs@.len() - i,
    {
        if allowed[i] {
            best = match best {
                Some(b) => if rigs[i].cameras.len() < rigs[b].cameras.len() {
                    Some(b)
                } else {
                    Some(i)
                },
                None => Some(i),
            };
        }
        i += 1;
    }
    best
}

/// Chooses the capture that the others are aligned to. `acceptable` tells for
/// each whether its error is within twice the median.
pub fn choose_reference<P>(rigs: &Vec<CaptureRig<P>>, acceptable: &Vec<bool>) -> (r: Result<
    usize,
    SfmError,
>)
    requires
        acceptable@.len() == rigs@.len(),
    ensures
        match r {
            Ok(i) => i < rigs@.len() && reference_of(rigs@, acceptable@) == Some(i as int)
                && rigs@[i as int].cameras@.len() >= MIN_CAMERAS,
            Err(e) => e matches SfmError::Other(m) && match reference_of(rigs@, acceptable@) {
                None => rigs@.len() == 0 && m@ == "no capture produced a reconstruction"@,
                Some(w) => rigs@[w].cameras@.len() < MIN_CAMERAS && m@ == too_few(
                    rigs@[w].cameras@.len(),
                ),
            },
        },
{
    let mut best = largest(rigs, acceptable);
    if best.is_none() {
        let mut all: Vec<bool> = Vec::new();
        let total: usize = rigs.len();
        while all.len() < total
            invariant
                all@.len() <= total,
                forall|i: int| 0 <= i < all@.len() ==> #[trigger] all@[i],
            decreases total - all@.len(),
        {
            all.push(true);
        }
        assert(all@ =~= all_allowed(rigs@.len()));
        best = largest(rigs, &all);
        proof {
            the_choice_is_the_last_largest(camera_counts(rigs@), all@, rigs@.len());
            if rigs@.len() > 0 {
                assert(all@[0]);
            }
        }
    }
    match best {
        None => Err(SfmError::Other(String::from_str("no capture produced a reconstruction"))),
        Some(i) => {
            let n: usize = rigs[i].cameras.len();
            if n < MIN_CAMERAS {
                let mut m = String::from_str("the best capture registered only ");
                m.append(decimal_string(n as u64).as_str());
                m.append(" camera(s); at least 3 are needed to align captures to each other");
                Err(SfmError::Other(m))
            } else {
                Ok(i)
            }
        },
    }
}

// ---------------------------------------------------------------------------
// Alignment
// ---------------------------------------------------------------------------

/// Three cameras to estimate a similarity from.
#[derive(Debug, Clone, Copy, PartialEq, Eq, Structural)]
pub struct Sample {
    pub a: usize,
    pub b: usize,
    pub c: usize,
}

/// The sample that draw `k` makes of `n` cameras.
pub open spec fn draw(n: int, k: nat) -> Sample {
    Sample {
        a: consensus::choice(consensus::steps(SEED, 3 * k + 1), n) as usize,
        b: consensus::choice(consensus::steps(SEED, 3 * k + 2), n) as usize,
        c: consensus::choice(consensus::steps(SEED, 3 * k + 3), n) as usize,
    }
}

/// The three are different cameras.
pub open spec fn is_proper(s: Sample) -> bool {
    s.a != s.b && s.b != s.c && s.a != s.c
}

/// The proper samples among the first `k` draws.
pub open spec fn samples(n: int, k: nat) -> Seq<Sample>
    decreases k,
{
    if k == 0 {
        Seq::empty()
    } else {
        let rest = samples(n, (k - 1) as nat);
        let s = draw(n, (k - 1) as nat);
        if is_proper(s) {
            rest.push(s)
        } else {
            rest
        }
    }
}

/// The samples of `n` shared cameras; none of fewer than three.
pub fn alignment_samples(n: usize) -> (out: Vec<Sample>)
    ensures
        out@ == if n < MIN_CAMERAS {
            Seq::empty()
        } else {
            samples(n as int, SAMPLES as nat)
        },
        forall|i: int|
            0 <= i < out@.len() ==> (#[trigger] out@[i]).a < n && out@[i].b < n && out@[i].c < n
                && is_proper(out@[i]),
{
    let mut out: Vec<Sample> = Vec::new();
    if n < MIN_CAMERAS {
        return out;
    }
    let mut rng = Xorshift64 { state: SEED };
    let mut k: usize = 0;
    while k < SAMPLES
        invariant
            k <= SAMPLES,
            n >= MIN_CAMERAS,
            rng.state == consensus::steps(SEED, (3 * k) as nat),
            out@ == samples(n as int, k as nat),
            forall|i: int|
                0 <= i < out@.len() ==> (#[trigger] out@[i]).a < n && out@[i].b < n && out@[i].c < n
                    && is_proper(out@[i]),
        decreases SAMPLES - k,
    {
        let a: usize = rng.below(n);
        let b: usize = rng.below(n);
        let c: usize = rng.below(n);
        assert(rng.state == consensus::steps(SEED, (3 * k + 3) as nat)) by {
            assert(consensus::steps(SEED, (3 * k + 1) as nat) == consensus::step(
                consensus::steps(SEED, (3 * k) as nat),
            ));
            assert(consensus::steps(SEED, (3 * k + 2) as nat) == consensus::step(
                consensus::steps(SEED, (3 * k + 1) as nat),
            ));
        }
        let s = Sample { a, b, c };
        assert(s == draw(n as int, k as nat));
        if a != b && b != c && a != c {
            out.push(s);
        }
        k += 1;
        assert(3 * k == 3 * (k - 1) + 3);
    }
    out
}

/// The similarity that explains the most cameras, if it explains enough of
/// them to be fitted again.
pub fn accepted<S>(c: Consensus<S>) -> (r: Option<Supported<S>>)
    ensures
        r == match c.best {
            Some(b) if b.support@.len() >= MIN_CAMERAS => c.best,
            _ => None,
        },
{
    match c.best {
        Some(b) => if b.support.len() >= MIN_CAMERAS {
            Some(b)
        } else {
            None
        },
        None => None,
    }
}

/// The cameras among the first `n` of one capture that another has too.
pub open spec fn shared_among(cameras: Seq<u32>, others: Seq<u32>, n: nat) -> Seq<u32>
    decreases n,
{
    if n == 0 {
        Seq::empty()
    } else {
        let rest = shared_among(cameras, others, (n - 1) as nat);
        if others.contains(cameras[n - 1]) {
            rest.push(cameras[n - 1])
        } else {
            rest
        }
    }
}

fn has_camera(cameras: &Vec<u32>, id: u32) -> (r: bool)
    ensures
        r == cameras@.contains(id),
{
    let mut i: usize = 0;
    while i < cameras.len()
        invariant
            i <= cameras@.len(),
            forall|j: int| 0 <= j < i ==> cameras@[j] != id,
        decreases cameras@.len() - i,
    {
        if cameras[i] == id {
            return true;
        }
        i += 1;
    }
    false
}

/// The cameras that two captures share, in the order of the first.
pub fn shared_cameras(cameras: &Vec<u32>, others: &Vec<u32>) -> (out: Vec<u32>)
    ensures
        out@ == shared_among(cameras@, others@, cameras@.len()),
        out@.len() <= cameras@.len(),
{
    let mut out: Vec<u32> = Vec::new();
    let mut i: usize = 0;
    while i < cameras.len()
        invariant
            i <= cameras@.len(),
            out@ == shared_among(cameras@, others@, i as nat),
            out@.len() <= i,
        decreases cameras@.len() - i,
    {
        if has_camera(others, cameras[i]) {
            out.push(cameras[i]);
        }
        i += 1;
    }
    out
}

/// What becomes of a capture.
#[derive(Debug)]
pub enum Plan {
    /// It is the reference, and contributes all of its cameras.
    Reference,
    /// It cannot be aligned, for the reason given.
    Skip(String),
    /// It is aligned by these cameras.
    Align(Vec<u32>),
}

/// How many cameras must be shared.
pub open spec fn needed(min_shared: usize) -> usize {
    if min_shared < MIN_CAMERAS {
        MIN_CAMERAS
    } else {
        min_shared
    }
}

/// Why a capture that shares too little is skipped.
pub open spec fn shares_only(shared: nat, min_shared: usize) -> Seq<char> {
    "shares only "@ + text::decimal(shared) + " camera(s) with the reference; needs "@
        + text::decimal(needed(min_shared) as nat)
}

/// What becomes of one capture beside the reference.
pub open spec fn is_plan<P>(
    p: Plan,
    rig: CaptureRig<P>,
    reference: CaptureRig<P>,
    min_shared: usize,
) -> bool {
    let shared = shared_among(rig.cameras@, reference.cameras@, rig.cameras@.len());
    if rig.capture_id == reference.capture_id {
        p is Reference
    } else if shared.len() < needed(min_shared) {
        p matches Plan::Skip(m) && m@ == shares_only(shared.len(), min_shared)
    } else {
        p matches Plan::Align(ids) && ids@ == shared
    }
}

pub fn plan<P>(rig: &CaptureRig<P>, reference: &CaptureRig<P>, min_shared: usize) -> (r: Plan)
    ensures
        is_plan(r, *rig, *reference, min_shared),
{
    if rig.capture_id == reference.capture_id {
        return Plan::Reference;
    }
    let shared = shared_cameras(&rig.cameras, &reference.cameras);
    let need: usize = if min_shared < MIN_CAMERAS {
        MIN_CAMERAS
    } else {
        min_shared
    };
    if shared.len() < need {
        let mut m = String::from_str("shares only ");
        m.append(decimal_string(shared.len() as u64).as_str());
        m.append(" camera(s) with the reference; needs ");
        m.append(decimal_string(need as u64).as_str());
        Plan::Skip(m)
    } else {
        Plan::Align(shared)
    }
}

/// The camera is one of the shared that the alignment explains.
pub open spec fn is_explained(shared: Seq<u32>, inliers: Seq<usize>, id: u32) -> bool {
    exists|k: int| 0 <= k < inliers.len() && shared[(#[trigger] inliers[k]) as int] == id
}

/// The places among the first `n` of the cameras that an alignment explains.
pub open spec fn contributing(
    cameras: Seq<u32>,
    shared: Seq<u32>,
    inliers: Seq<usize>,
    n: nat,
) -> Seq<usize>
    decreases n,
{
    if n == 0 {
        Seq::empty()
    } else {
        let rest = contributing(cameras, shared, inliers, (n - 1) as nat);
        if is_explained(shared, inliers, cameras[n - 1]) {
            rest.push((n - 1) as usize)
        } else {
            rest
        }
    }
}

/// Only cameras that the alignment explains contribute: one that a capture
/// placed badly does not move the average for it.
pub fn contributors(cameras: &Vec<u32>, shared: &Vec<u32>, inliers: &Vec<usize>) -> (out: Vec<
    usize,
>)
    requires
        forall|k: int| 0 <= k < inliers@.len() ==> (#[trigger] inliers@[k]) < shared@.len(),
    ensures
        out@ == contributing(cameras@, shared@, inliers@, cameras@.len()),
        forall|k: int| 0 <= k < out@.len() ==> (#[trigger] out@[k]) < cameras@.len(),
{
    let mut out: Vec<usize> = Vec::new();
    let mut i: usize = 0;
    while i < cameras.len()
        invariant
            i <= cameras@.len(),
            out@ == contributing(cameras@, shared@, inliers@, i as nat),
            forall|k: int| 0 <= k < out@.len() ==> (#[trigger] out@[k]) < i,
            forall|k: int| 0 <= k < inliers@.len() ==> (#[trigger] inliers@[k]) < shared@.len(),
        decreases cameras@.len() - i,
    {
        let id: u32 = cameras[i];
        let mut found = false;
        let mut k: usize = 0;
        while k < inliers.len()
            invariant
                k <= inliers@.len(),
                forall|k: int| 0 <= k < inliers@.len() ==> (#[trigger] inliers@[k]) < shared@.len(),
                found == exists|j: int|
                    0 <= j < k && shared@[(#[trigger] inliers@[j]) as int] == id,
            decreases inliers@.len() - k,
        {
            if shared[inliers[k]] == id {
                found = true;
            }
            k += 1;
        }
        if found {
            out.push(i);
        }
        i += 1;
    }
    out
}

// ---------------------------------------------------------------------------
// Bringing the captures together
// ---------------------------------------------------------------------------

/// How much of the rig a capture agrees with the reference on.
#[derive(Debug, Clone, Copy, PartialEq, Eq, Structural)]
pub struct Agreement {
    pub capture_id: i64,
    pub inliers: usize,
    pub shared: usize,
}

/// A capture that could not be aligned, and why.
#[derive(Debug)]
pub struct Skipped {
    pub capture_id: i64,
    pub reason: String,
}

/// One camera's placement in one capture.
#[derive(Debug, Clone, Copy, PartialEq, Eq, Structural)]
pub struct Contribution {
    pub capture: usize,
    pub place: usize,
}

/// What to do next.
#[derive(Debug)]
pub enum Action {
    /// Every capture has been dealt with.
    Done,
    /// The capture needed no alignment: go on.
    Next,
    /// Align this capture to the reference by the shared cameras.
    Align(usize),
}

/// The captures dealt with so far.
#[derive(Debug)]
pub struct Solver {
    pub reference: usize,
    pub next: usize,
    /// The cameras that the capture being aligned shares with the reference.
    pub shared: Option<Vec<u32>>,
    pub skipped: Vec<Skipped>,
    pub agreement: Vec<Agreement>,
    pub pooled: Vec<Contribution>,
}

/// All cameras of a capture.
pub open spec fn whole<P>(rigs: Seq<CaptureRig<P>>, capture: int) -> Seq<Contribution> {
    Seq::new(
        rigs[capture].cameras@.len(),
        |i: int| Contribution { capture: capture as usize, place: i as usize },
    )
}

/// The named cameras of a capture.
pub open spec fn some_places(capture: int, places: Seq<usize>) -> Seq<Contribution> {
    places.map_values(|p: usize| Contribution { capture: capture as usize, place: p })
}

/// Why a capture whose cameras fix no similarity is skipped.
pub open spec fn degenerate() -> Seq<char> {
    "cameras are degenerate (collinear?)"@
}

/// How many of the first `n` captures have the reference's id.
pub open spec fn references<P>(rigs: Seq<CaptureRig<P>>, reference: int, n: nat) -> nat
    decreases n,
{
    if n == 0 {
        0
    } else {
        references(rigs, reference, (n - 1) as nat) + if rigs[n - 1].capture_id
            == rigs[reference].capture_id {
            1nat
        } else {
            0nat
        }
    }
}

impl Solver {
    /// Every capture before `next` is the reference, skipped or aligned, and
    /// what was pooled exists.
    pub open spec fn wf<P>(self, rigs: Seq<CaptureRig<P>>) -> bool {
        &&& self.reference < rigs.len()
        &&& self.next <= rigs.len()
        &&& self.shared is Some ==> self.next < rigs.len() && rigs[self.next as int].capture_id
            != rigs[self.reference as int].capture_id
        &&& self.skipped@.len() + self.agreement@.len() + references(
            rigs,
            self.reference as int,
            self.next as nat,
        ) == self.next
        &&& forall|k: int|
            0 <= k < self.pooled@.len() ==> (#[trigger] self.pooled@[k]).capture < rigs.len()
                && self.pooled@[k].place < rigs[self.pooled@[k].capture as int].cameras@.len()
    }

    pub fn begin<P>(rigs: &Vec<CaptureRig<P>>, reference: usize) -> (r: Self)
        requires
            reference < rigs@.len(),
        ensures
            r.wf(rigs@),
            r.reference == reference,
            r.next == 0,
            r.shared is None,
            r.skipped@.len() == 0,
            r.agreement@.len() == 0,
            r.pooled@.len() == 0,
    {
        Solver {
            reference,
            next: 0,
            shared: None,
            skipped: Vec::new(),
            agreement: Vec::new(),
            pooled: Vec::new(),
        }
    }

    /// Deals with the next capture, as far as no alignment is needed.
    pub fn step<P>(&mut self, rigs: &Vec<CaptureRig<P>>, min_shared: usize) -> (r: Action)
        requires
            old(self).wf(rigs@),
            old(self).shared is None,
        ensures
            final(self).wf(rigs@),
            final(self).reference == old(self).reference,
            final(self).agreement@ == old(self).agreement@,
            ({
                let (was, now) = (*old(self), *final(self));
                let i = was.next as int;
                if i == rigs@.len() {
                    &&& r is Done
                    &&& now == was
                } else {
                    let shared = shared_among(
                        rigs@[i].cameras@,
                        rigs@[was.reference as int].cameras@,
                        rigs@[i].cameras@.len(),
                    );
                    if rigs@[i].capture_id == rigs@[was.reference as int].capture_id {
                        &&& r is Next
                        &&& now.next == i + 1
                        &&& now.shared is None
                        &&& now.skipped@ == was.skipped@
                        &&& now.pooled@ == was.pooled@ + whole(rigs@, i)
                    } else if shared.len() < needed(min_shared) {
                        &&& r is Next
                        &&& now.next == i + 1
                        &&& now.shared is None
                        &&& now.pooled@ == was.pooled@
                        &&& now.skipped@.len() == was.skipped@.len() + 1
                        &&& now.skipped@.drop_last() == was.skipped@
                        &&& now.skipped@.last().capture_id == rigs@[i].capture_id
                        &&& now.skipped@.last().reason@ == shares_only(shared.len(), min_shared)
                    } else {
                        &&& r matches Action::Align(c) && c == i
                        &&& now.next == i
                        &&& now.shared matches Some(s) && s@ == shared
                        &&& now.skipped@ == was.skipped@
                        &&& now.pooled@ == was.pooled@
                    }
                }
            }),
    {
        if self.next == rigs.len() {
            return Action::Done;
        }
        let i: usize = self.next;
        let ghost skipped_before = self.skipped@;
        let ghost pooled_before = self.pooled@;
        match plan(&rigs[i], &rigs[self.reference], min_shared) {
            Plan::Reference => {
                let total: usize = rigs[i].cameras.len();
                let mut p: usize = 0;
                while p < total
                    invariant
                        p <= total,
                        i < rigs@.len(),
                        total == rigs@[i as int].cameras@.len(),
                        self.reference == old(self).reference,
                        self.next == old(self).next,
                        self.shared == old(self).shared,
                        self.skipped == old(self).skipped,
                        self.agreement == old(self).agreement,
                        pooled_before == old(self).pooled@,
                        old(self).wf(rigs@),
                        self.pooled@ == pooled_before + whole(rigs@, i as int).take(p as int),
                    decreases total - p,
                {
                    self.pooled.push(Contribution { capture: i, place: p });
                    p += 1;
                    assert(self.pooled@ =~= pooled_before + whole(rigs@, i as int).take(p as int));
                }
                assert(whole(rigs@, i as int).take(total as int) =~= whole(rigs@, i as int));
                self.next = i + 1;
                Action::Next
            },
            Plan::Skip(reason) => {
                self.skipped.push(Skipped { capture_id: rigs[i].capture_id, reason });
                assert(self.skipped@.drop_last() =~= skipped_before);
                self.next = i + 1;
                Action::Next
            },
            Plan::Align(shared) => {
                self.shared = Some(shared);
                Action::Align(i)
            },
        }
    }

    /// Takes what the alignment of the current capture came to: the shared
    /// cameras that it explains, or nothing where they are degenerate.
    pub fn aligned<P>(&mut self, rigs: &Vec<CaptureRig<P>>, inliers: Option<&Vec<usize>>)
        requires
            old(self).wf(rigs@),
            old(self).shared is Some,
            inliers matches Some(v) ==> forall|k: int|
                0 <= k < v@.len() ==> (#[trigger] v@[k]) < old(self).shared->0@.len(),
        ensures
            final(self).wf(rigs@),
            final(self).reference == old(self).reference,
            final(self).next == old(self).next + 1,
            final(self).shared is None,
            ({
                let (was, now) = (*old(self), *final(self));
                let id = rigs@[was.next as int].capture_id;
                match inliers {
                    Some(v) => {
                        &&& now.skipped@ == was.skipped@
                        &&& now.agreement@ == was.agreement@.push(
                            Agreement {
                                capture_id: id,
                                inliers: v@.len() as usize,
                                shared: was.shared->0@.len() as usize,
                            },
                        )
                        &&& now.pooled@ == was.pooled@ + some_places(
                            was.next as int,
                            contributing(
                                rigs@[was.next as int].cameras@,
                                was.shared->0@,
                                v@,
                                rigs@[was.next as int].cameras@.len(),
                            ),
                        )
                    },
                    None => {
                        &&& now.agreement@ == was.agreement@
                        &&& now.pooled@ == was.pooled@
                        &&& now.skipped@.len() == was.skipped@.len() + 1
                        &&& now.skipped@.drop_last() == was.skipped@
                        &&& now.skipped@.last().capture_id == id
                        &&& now.skipped@.last().reason@ == degenerate()
                    },
                }
            }),
    {
        let total: usize = rigs.len();
        let i: usize = self.next;
        assert(i < total);
        let ghost skipped_before = self.skipped@;
        let ghost pooled_before = self.pooled@;
        let shared = match self.shared.take() {
            Some(s) => s,
            None => Vec::new(),
        };
        match inliers {
            Some(v) => {
                let places = contributors(&rigs[i].cameras, &shared, v);
                let mut k: usize = 0;
                let ghost all = some_places(i as int, places@);
                while k < places.len()
                    invariant
                        k <= places@.len(),
                        i < rigs@.len(),
                        all == some_places(i as int, places@),
                        forall|k: int|
                            0 <= k < places@.len() ==> (#[trigger] places@[k])
                                < rigs@[i as int].cameras@.len(),
                        self.reference == old(self).reference,
                        self.next == old(self).next,
                        self.shared is None,
                        self.skipped == old(self).skipped,
                        self.agreement == old(self).agreement,
                        pooled_before == old(self).pooled@,
                        self.pooled@ == pooled_before + all.take(k as int),
                    decreases places@.len() - k,
                {
                    self.pooled.push(Contribution { capture: i, place: places[k] });
                    k += 1;
                    assert(self.pooled@ =~= pooled_before + all.take(k as int));
                }
                assert(all.take(all.len() as int) =~= all);
                self.agreement.push(
                    Agreement {
                        capture_id: rigs[i].capture_id,
                        inliers: v.len(),
                        shared: shared.len(),
                    },
                );
            },
            None => {
                self.skipped.push(
                    Skipped {
                        capture_id: rigs[i].capture_id,
                        reason: String::from_str("cameras are degenerate (collinear?)"),
                    },
                );
                assert(self.skipped@.drop_last() =~= skipped_before);
            },
        }
        self.next = i + 1;
    }

    /// The cameras of what was pooled.
    pub open spec fn pooled_cameras<P>(self, rigs: Seq<CaptureRig<P>>) -> Seq<u32> {
        self.pooled@.map_values(|c: Contribution| rigs[c.capture as int].cameras@[c.place as int])
    }

    /// What was pooled for each camera, by ascending id.
    pub fn cameras<P>(&self, rigs: &Vec<CaptureRig<P>>) -> (out: Vec<Gathered<u32, usize>>)
        requires
            self.wf(rigs@),
        ensures
            sets::gathers(
                out@,
                self.pooled_cameras(rigs@),
                Seq::new(self.pooled@.len(), |i: int| i as usize),
            ),
    {
        let mut ids: Vec<u32> = Vec::new();
        let mut places: Vec<usize> = Vec::new();
        let mut k: usize = 0;
        while k < self.pooled.len()
            invariant
                k <= self.pooled@.len(),
                self.wf(rigs@),
                ids@ == self.pooled_cameras(rigs@).take(k as int),
                places@ == Seq::new(k as nat, |i: int| i as usize),
            decreases self.pooled@.len() - k,
        {
            let c = self.pooled[k];
            assert(self.pooled@[k as int].capture < rigs@.len());
            ids.push(rigs[c.capture].cameras[c.place]);
            places.push(k);
            k += 1;
            assert(ids@ =~= self.pooled_cameras(rigs@).take(k as int));
            assert(places@ =~= Seq::new(k as nat, |i: int| i as usize));
        }
        assert(ids@ =~= self.pooled_cameras(rigs@));
        gather(&ids, &places)
    }
}

// ---------------------------------------------------------------------------
// What a project must hold
// ---------------------------------------------------------------------------

/// Some image pools several captures.
pub open spec fn is_merged(captures: Seq<i64>) -> bool {
    exists|i: int| 0 <= i < captures.len() && (#[trigger] captures[i]) < 0
}

/// Why a project of merged captures is no rig.
pub open spec fn merged_complaint() -> Seq<char> {
    "this project was built with --merge-multicaps, which pools every capture into one \nimage per camera and leaves nothing to compare between captures.\n\nRe-run `sfmtory feature --detector aruco` without --merge-multicaps, then \n`sfmtory match`, then this command. Merging helps intrinsics and costs the rig \ngeometry: measured on a 4-camera wall rig, merged put the centres 16.2% of their \nmean spacing off a common plane, against 1.1% per capture."@
}

/// Why the captures do not make a rig, if they do not.
pub open spec fn rig_complaint(captures: Seq<i64>, num_pairs: usize) -> Option<Seq<char>> {
    if captures.len() == 0 {
        Some("no images in the project database; run `sfmtory feature` first"@)
    } else if is_merged(captures) {
        Some(merged_complaint())
    } else if sets::sorted_set(captures).len() < 2 {
        Some(
            "a rig needs at least two captures to have anything to cross-check; this project has one"@,
        )
    } else if num_pairs == 0 {
        Some("no verified image pairs; run `sfmtory match` first"@)
    } else {
        None
    }
}

/// The images of each capture, by ascending capture.
pub fn captures_of_rig(captures: &Vec<i64>, num_pairs: usize) -> (r: Result<
    Vec<Gathered<i64, usize>>,
    SfmError,
>)
    ensures
        match r {
            Ok(out) => rig_complaint(captures@, num_pairs) is None && sets::gathers(
                out@,
                captures@,
                Seq::new(captures@.len(), |i: int| i as usize),
            ),
            Err(e) => e matches SfmError::Other(m) && rig_complaint(captures@, num_pairs) == Some(m@),
        },
{
    if captures.len() == 0 {
        return Err(
            SfmError::Other(
                String::from_str("no images in the project database; run `sfmtory feature` first"),
            ),
        );
    }
    let mut images: Vec<usize> = Vec::new();
    let mut i: usize = 0;
    while i < captures.len()
        invariant
            i <= captures@.len(),
            captures@.len() > 0,
            images@ == Seq::new(i as nat, |k: int| k as usize),
            forall|k: int| 0 <= k < i ==> (#[trigger] captures@[k]) >= 0,
        decreases captures@.len() - i,
    {
        if captures[i] < 0 {
            return Err(
                SfmError::Other(
                    String::from_str(
                        "this project was built with --merge-multicaps, which pools every capture into one \nimage per camera and leaves nothing to compare between captures.\n\nRe-run `sfmtory feature --detector aruco` without --merge-multicaps, then \n`sfmtory match`, then this command. Merging helps intrinsics and costs the rig \ngeometry: measured on a 4-camera wall rig, merged put the centres 16.2% of their \nmean spacing off a common plane, against 1.1% per capture.",
                    ),
                ),
            );
        }
        images.push(i);
        i += 1;
        assert(images@ =~= Seq::new(i as nat, |k: int| k as usize));
    }
    let out = gather(captures, &images);
    assert(out@.len() == sets::sorted_set(captures@).len()) by {
        assert(out@.map_values(|g: Gathered<i64, usize>| g.key).len() == out@.len());
    }
    if out.len() < 2 {
        return Err(
            SfmError::Other(
                String::from_str(
                    "a rig needs at least two captures to have anything to cross-check; this project has one",
                ),
            ),
        );
    }
    if num_pairs == 0 {
        return Err(
            SfmError::Other(
                String::from_str("no verified image pairs; run `sfmtory match` first"),
            ),
        );
    }
    Ok(out)
}

/// A pair of images of one capture: its place in the list of pairs and the
/// places of its images.
#[derive(Debug, Clone, Copy, PartialEq, Eq, Structural)]
pub struct PairPlace {
    pub pair: usize,
    pub i: usize,
    pub j: usize,
}

/// The pairs among the first `n` of which both images are known.
pub open spec fn known_pairs(images: Seq<ImageRow>, pairs: Seq<(u32, u32)>, n: nat) -> Seq<PairPlace>
    decreases n,
{
    if n == 0 {
        Seq::empty()
    } else {
        let rest = known_pairs(images, pairs, (n - 1) as nat);
        let p = pairs[n - 1];
        match (
            mapinput::place_of(images, p.0, images.len()),
            mapinput::place_of(images, p.1, images.len()),
        ) {
            (Some(i), Some(j)) => rest.push(
                PairPlace { pair: (n - 1) as usize, i: i as usize, j: j as usize },
            ),
            _ => rest,
        }
    }
}

/// Each capture is its own scene: only its own images, and only pairs within
/// it.
pub fn capture_pairs(images: &Vec<ImageRow>, pairs: &Vec<(u32, u32)>) -> (out: Vec<PairPlace>)
    ensures
        out@ == known_pairs(images@, pairs@, pairs@.len()),
{
    let mut out: Vec<PairPlace> = Vec::new();
    let mut n: usize = 0;
    while n < pairs.len()
        invariant
            n <= pairs@.len(),
            out@ == known_pairs(images@, pairs@, n as nat),
        decreases pairs@.len() - n,
    {
        let (a, b) = pairs[n];
        match (find_image(images, a), find_image(images, b)) {
            (Some(i), Some(j)) => {
                out.push(PairPlace { pair: n, i, j });
            },
            _ => {},
        }
        n += 1;
    }
    out
}

// ---------------------------------------------------------------------------
// How well the result is backed
// ---------------------------------------------------------------------------

/// How many captures stand behind the cameras.
#[derive(Debug, Clone, Copy, PartialEq, Eq, Structural)]
pub struct Backing {
    /// The upper middle of the numbers of captures per camera.
    pub median: usize,
    /// Cameras on which three or more captures agreed.
    pub well_backed: usize,
    /// Most cameras agreed in fewer than half the captures, so a spread is
    /// only a lower bound.
    pub partial: bool,
}

/// How many of the first `n` counts are at least three.
pub open spec fn backed(seen: Seq<usize>, n: nat) -> nat
    decreases n,
{
    if n == 0 {
        0
    } else {
        backed(seen, (n - 1) as nat) + if seen[n - 1] >= 3 {
            1nat
        } else {
            0nat
        }
    }
}

/// The upper middle of the numbers, or zero of none.
pub open spec fn middle(seen: Seq<usize>) -> usize {
    if seen.len() == 0 {
        0
    } else {
        order::sorted(seen)[seen.len() as int / 2]
    }
}

/// The spread is only over captures that agreed about a camera, so on its own
/// it is survivorship bias; this says how many captures actually back it.
pub fn backing(seen: Vec<usize>, captures: usize) -> (r: Backing)
    ensures
        r.median == middle(seen@),
        r.well_backed == backed(seen@, seen@.len()),
        r.partial == (2 * r.median < captures),
{
    let mut well_backed: usize = 0;
    let mut i: usize = 0;
    while i < seen.len()
        invariant
            i <= seen@.len(),
            well_backed <= i,
            well_backed == backed(seen@, i as nat),
        decreases seen@.len() - i,
    {
        if seen[i] >= 3 {
            well_backed += 1;
        }
        i += 1;
    }
    proof {
        order::sorted_is_an_ordered_permutation(seen@);
    }
    let ordered = sort(seen);
    let median: usize = if ordered.len() == 0 {
        0
    } else {
        ordered[ordered.len() / 2]
    };
    let partial = median < captures && median < captures - median;
    Backing { median, well_backed, partial }
}

/// What is said of the backing of `cameras` cameras by `captures` captures.
pub open spec fn backing_text(b: Backing, captures: usize, cameras: usize) -> Seq<Seq<char>> {
    seq![
        "  backed by: median "@ + text::decimal(b.median as nat) + " of "@ + text::decimal(
            captures as nat,
        ) + " captures; "@ + text::decimal(b.well_backed as nat) + "/"@ + text::decimal(
            cameras as nat,
        ) + " cameras agreed across 3 or more"@,
    ] + (if b.partial {
        seq![
            "  NOTE: most cameras agreed in fewer than half the captures, so the spread above describes the subset that agreed rather than the rig as a whole. Treat it as a lower bound on the real uncertainty."@,
        ]
    } else {
        Seq::empty()
    })
}

/// Says how many captures stand behind the cameras.
pub fn backing_note(b: &Backing, captures: usize, cameras: usize) -> (out: Vec<String>)
    ensures
        order::texts(out@) == backing_text(*b, captures, cameras),
{
    let mut out: Vec<String> = Vec::new();
    let mut head = String::from_str("  backed by: median ");
    head.append(decimal_string(b.median as u64).as_str());
    head.append(" of ");
    head.append(decimal_string(captures as u64).as_str());
    head.append(" captures; ");
    head.append(decimal_string(b.well_backed as u64).as_str());
    head.append("/");
    head.append(decimal_string(cameras as u64).as_str());
    head.append(" cameras agreed across 3 or more");
    push_text(&mut out, head);
    if b.partial {
        push_text(
            &mut out,
            String::from_str(
                "  NOTE: most cameras agreed in fewer than half the captures, so the spread above describes the subset that agreed rather than the rig as a whole. Treat it as a lower bound on the real uncertainty.",
            ),
        );
    }
    assert(order::texts(out@) =~= backing_text(*b, captures, cameras));
    out
}

/// What is said before each capture is reconstructed.
pub fn captures_note(images: usize, captures: usize) -> (r: String)
    ensures
        r@ == text::decimal(images as nat) + " images across "@ + text::decimal(captures as nat)
            + " capture(s); reconstructing each on its own"@,
{
    let mut s = decimal_string(images as u64);
    s.append(" images across ");
    s.append(decimal_string(captures as u64).as_str());
    s.append(" capture(s); reconstructing each on its own");
    s
}

proof fn lemma_contributing(cameras: Seq<u32>, shared: Seq<u32>, inliers: Seq<usize>, n: nat)
    requires
        n <= cameras.len() <= usize::MAX,
    ensures
        ({
            let out = contributing(cameras, shared, inliers, n);
            &&& forall|a: int|
                0 <= a < out.len() ==> (#[trigger] out[a]) < n && exists|k: int|
                    0 <= k < inliers.len() && cameras[out[a] as int] == shared[(
                    #[trigger] inliers[k]) as int]
            &&& forall|i: int, k: int|
                0 <= i < n && 0 <= k < inliers.len() && #[trigger] cameras[i] == shared[(
                #[trigger] inliers[k]) as int] ==> out.contains(i as usize)
            &&& forall|a: int, b: int| 0 <= a < b < out.len() ==> out[a] < out[b]
        }),
    decreases n,
{
    if n > 0 {
        lemma_contributing(cameras, shared, inliers, (n - 1) as nat);
        let rest = contributing(cameras, shared, inliers, (n - 1) as nat);
        let out = contributing(cameras, shared, inliers, n);
        assert forall|a: int| 0 <= a < out.len() implies (#[trigger] out[a]) < n && exists|k: int|
            0 <= k < inliers.len() && cameras[out[a] as int] == shared[(
            #[trigger] inliers[k]) as int] by {
            if a < rest.len() {
                assert(out[a] == rest[a]);
            }
        }
        assert forall|i: int, k: int|
            0 <= i < n && 0 <= k < inliers.len() && #[trigger] cameras[i] == shared[(
            #[trigger] inliers[k]) as int] implies out.contains(i as usize) by {
            if i < n - 1 {
                assert(rest.contains(i as usize));
                let a = choose|a: int| 0 <= a < rest.len() && rest[a] == i as usize;
                assert(out[a] == i as usize);
            } else {
                assert(out[rest.len() as int] == i as usize);
            }
        }
    }
}

/// A camera of a capture contributes exactly where it is one of the shared
/// cameras that the alignment explains: whatever the places of the shared
/// cameras are, the cameras themselves are compared. Each contributes once, in
/// the order of the capture.
pub proof fn contributors_are_the_explained_cameras(
    cameras: Seq<u32>,
    shared: Seq<u32>,
    inliers: Seq<usize>,
)
    requires
        cameras.len() <= usize::MAX,
    ensures
        ({
            let out = contributing(cameras, shared, inliers, cameras.len());
            &&& forall|i: usize| #[trigger]
                out.contains(i) <==> i < cameras.len() && exists|k: int|
                    0 <= k < inliers.len() && cameras[i as int] == shared[(
                    #[trigger] inliers[k]) as int]
            &&& forall|a: int, b: int| 0 <= a < b < out.len() ==> out[a] < out[b]
        }),
{
    lemma_contributing(cameras, shared, inliers, cameras.len());
    let out = contributing(cameras, shared, inliers, cameras.len());
    assert forall|i: usize| #[trigger] out.contains(i) implies i < cameras.len() && exists|k: int|
        0 <= k < inliers.len() && cameras[i as int] == shared[(#[trigger] inliers[k]) as int] by {
        let a = choose|a: int| 0 <= a < out.len() && out[a] == i;
        assert(out[a] < cameras.len());
    }
}

/// Of the placements of one camera the last counts.
pub proof fn the_last_placement_counts<P>(images: Seq<(u32, P)>, camera: u32, n: nat)
    requires
        n <= images.len(),
    ensures
        match last_place(images, camera, n) {
            Some(p) => exists|i: int|
                0 <= i < n && (#[trigger] images[i]) == (camera, p) && forall|j: int|
                    i < j < n ==> (#[trigger] images[j]).0 != camera,
            None => forall|i: int| 0 <= i < n ==> (#[trigger] images[i]).0 != camera,
        },
    decreases n,
{
    if n > 0 {
        if images[n - 1].0 == camera {
            assert(images[n - 1] == (camera, images[n - 1].1));
        } else {
            the_last_placement_counts(images, camera, (n - 1) as nat);
            if let Some(p) = last_place(images, camera, (n - 1) as nat) {
                let i = choose|i: int|
                    0 <= i < n - 1 && (#[trigger] images[i]) == (camera, p) && forall|j: int|
                        i < j < n - 1 ==> (#[trigger] images[j]).0 != camera;
                assert(images[i] == (camera, p));
            }
        }
    }
}

/// How many of the first `n` captures have an error that can be compared.
pub open spec fn measured<P>(rigs: Seq<CaptureRig<P>>, e: u64, n: nat) -> nat
    decreases n,
{
    if n == 0 {
        0
    } else {
        measured(rigs, e, (n - 1) as nat) + if rigs[n - 1].error == Some(e) {
            1nat
        } else {
            0nat
        }
    }
}

/// The errors that the median is taken of are those of the captures, each as
/// often as captures have it, without the zeros.
pub proof fn compared_errors_are_those_of_the_captures<P>(
    rigs: Seq<CaptureRig<P>>,
    e: u64,
    n: nat,
)
    requires
        n <= rigs.len(),
    ensures
        usable_errors(rigs, n).to_multiset().count(e) == if e > 0 {
            measured(rigs, e, n)
        } else {
            0
        },
    decreases n,
{
    broadcast use vstd::seq_lib::group_to_multiset_ensures;

    if n > 0 {
        compared_errors_are_those_of_the_captures(rigs, e, (n - 1) as nat);
    }
}

/// The reference is an acceptable capture, where there is one, and no
/// acceptable capture has more cameras; where none is acceptable it is a
/// capture than which none has more.
pub proof fn the_reference_has_the_most_cameras<P>(
    rigs: Seq<CaptureRig<P>>,
    acceptable: Seq<bool>,
    k: int,
)
    requires
        acceptable.len() == rigs.len(),
        0 <= k < rigs.len(),
    ensures
        reference_of(rigs, acceptable) matches Some(w) && 0 <= w < rigs.len() && (if acceptable[k] {
            acceptable[w] && rigs[k].cameras@.len() <= rigs[w].cameras@.len()
        } else {
            !acceptable[w] ==> rigs[k].cameras@.len() <= rigs[w].cameras@.len()
        }),
{
    let sizes = camera_counts(rigs);
    let all = all_allowed(rigs.len());
    the_choice_is_the_last_largest(sizes, acceptable, rigs.len());
    the_choice_is_the_last_largest(sizes, all, rigs.len());
    assert(all[k]);
    assert(sizes[k] == rigs[k].cameras@.len());
    let w = reference_of(rigs, acceptable)->0;
    if acceptable[k] {
        assert(acceptable[k]);
        assert(sizes[k] <= sizes[w]);
    } else if last_largest(sizes, acceptable, rigs.len()) is None {
        assert(all[w]);
        assert(sizes[k] <= sizes[w]);
    }
}

/// The samples that an alignment is tried on are of three different cameras
/// among the shared ones.
pub proof fn samples_are_of_three_cameras(n: int, k: nat, i: int)
    requires
        0 < n <= usize::MAX,
        0 <= i < samples(n, k).len(),
    ensures
        ({
            let s = samples(n, k)[i];
            &&& s.a < n && s.b < n && s.c < n
            &&& s.a != s.b && s.b != s.c && s.a != s.c
        }),
    decreases k,
{
    let rest = samples(n, (k - 1) as nat);
    if i < rest.len() {
        samples_are_of_three_cameras(n, (k - 1) as nat, i);
    }
}

proof fn lemma_shared_among(cameras: Seq<u32>, others: Seq<u32>, n: nat, id: u32)
    requires
        n <= cameras.len(),
    ensures
        shared_among(cameras, others, n).to_multiset().count(id) == if others.contains(id) {
            cameras.take(n as int).to_multiset().count(id)
        } else {
            0
        },
    decreases n,
{
    broadcast use vstd::seq_lib::group_to_multiset_ensures;

    if n == 0 {
        assert(cameras.take(0) =~= Seq::<u32>::empty());
    } else {
        lemma_shared_among(cameras, others, (n - 1) as nat, id);
        assert(cameras.take(n as int) =~= cameras.take(n - 1).push(cameras[n - 1]));
    }
}

proof fn lemma_shared_ascend(cameras: Seq<u32>, others: Seq<u32>, n: nat)
    requires
        n <= cameras.len(),
        sets::increasing(cameras),
    ensures
        sets::increasing(shared_among(cameras, others, n)),
        forall|a: int|
            0 <= a < shared_among(cameras, others, n).len() ==> cameras.take(n as int).contains(
                #[trigger] shared_among(cameras, others, n)[a],
            ),
    decreases n,
{
    if n > 0 {
        lemma_shared_ascend(cameras, others, (n - 1) as nat);
        let rest = shared_among(cameras, others, (n - 1) as nat);
        let out = shared_among(cameras, others, n);
        let front = cameras.take(n - 1);
        let upto = cameras.take(n as int);
        assert forall|a: int| 0 <= a < out.len() implies upto.contains(#[trigger] out[a]) by {
            if a < rest.len() {
                assert(out[a] == rest[a]);
                assert(front.contains(rest[a]));
                let j = choose|j: int| 0 <= j < front.len() && front[j] == rest[a];
                assert(upto[j] == out[a]);
            } else {
                assert(upto[n - 1] == out[a]);
            }
        }
        assert forall|a: int, b: int| 0 <= a < b < out.len() implies (#[trigger] out[a]) < (
        #[trigger] out[b]) by {
            assert(out[a] == rest[a]);
            if b < rest.len() {
                assert(out[b] == rest[b]);
            } else {
                assert(front.contains(rest[a]));
                let j = choose|j: int| 0 <= j < front.len() && front[j] == rest[a];
                assert(cameras[j] < cameras[n - 1]);
            }
        }
    }
}

/// The cameras that two captures share are those of the first that the second
/// has too, each once, ascending.
pub proof fn shared_cameras_are_in_both(cameras: Seq<u32>, others: Seq<u32>, id: u32)
    requires
        sets::increasing(cameras),
    ensures
        shared_among(cameras, others, cameras.len()).contains(id) <==> cameras.contains(id)
            && others.contains(id),
        sets::increasing(shared_among(cameras, others, cameras.len())),
{
    broadcast use vstd::seq_lib::group_to_multiset_ensures;

    lemma_shared_among(cameras, others, cameras.len(), id);
    lemma_shared_ascend(cameras, others, cameras.len());
    assert(cameras.take(cameras.len() as int) =~= cameras);
}

proof fn lemma_known_pairs(images: Seq<ImageRow>, pairs: Seq<(u32, u32)>, n: nat)
    requires
        n <= pairs.len() <= usize::MAX,
        images.len() <= usize::MAX,
    ensures
        ({
            let out = known_pairs(images, pairs, n);
            &&& forall|a: int|
                0 <= a < out.len() ==> {
                    let p = #[trigger] out[a];
                    &&& p.pair < n
                    &&& p.i < images.len()
                    &&& p.j < images.len()
                    &&& (images[p.i as int].id, images[p.j as int].id) == pairs[p.pair as int]
                }
            &&& forall|k: int|
                0 <= k < n && has_id(images, (#[trigger] pairs[k]).0) && has_id(images, pairs[k].1)
                    ==> is_listed_pair(out, k)
            &&& forall|a: int, b: int|
                0 <= a < b < out.len() ==> (#[trigger] out[a]).pair < (#[trigger] out[b]).pair
        }),
    decreases n,
{
    if n > 0 {
        lemma_known_pairs(images, pairs, (n - 1) as nat);
        let rest = known_pairs(images, pairs, (n - 1) as nat);
        let out = known_pairs(images, pairs, n);
        let q = pairs[n - 1];
        mapinput::lemma_place_of(images, q.0, images.len());
        mapinput::lemma_place_of(images, q.1, images.len());
        assert forall|a: int| 0 <= a < out.len() implies {
            let p = #[trigger] out[a];
            &&& p.pair < n
            &&& p.i < images.len()
            &&& p.j < images.len()
            &&& (images[p.i as int].id, images[p.j as int].id) == pairs[p.pair as int]
        } by {
            if a < rest.len() {
                assert(out[a] == rest[a]);
            }
        }
        assert forall|k: int|
            0 <= k < n && has_id(images, (#[trigger] pairs[k]).0) && has_id(
                images,
                pairs[k].1,
            ) implies is_listed_pair(out, k) by {
            if k < n - 1 {
                assert(is_listed_pair(rest, k));
                let a = choose|a: int| 0 <= a < rest.len() && (#[trigger] rest[a]).pair == k;
                assert(out[a].pair == k);
            } else {
                assert(out[rest.len() as int].pair == k);
            }
        }
        assert forall|a: int, b: int| 0 <= a < b < out.len() implies (#[trigger] out[a]).pair < (
        #[trigger] out[b]).pair by {
            assert(out[a] == rest[a]);
            if b < rest.len() {
                assert(out[b] == rest[b]);
            }
        }
    }
}

/// Whether an image has an id.
pub open spec fn has_id(images: Seq<ImageRow>, id: u32) -> bool {
    exists|i: int| 0 <= i < images.len() && (#[trigger] images[i]).id == id
}

/// Whether pair `k` is among the places.
pub open spec fn is_listed_pair(out: Seq<PairPlace>, k: int) -> bool {
    exists|a: int| 0 <= a < out.len() && (#[trigger] out[a]).pair == k
}

/// The pairs of a capture are those of which it has both images, each once and
/// in order, by the places of the two images in their own order.
pub proof fn pairs_of_a_capture_have_both_images(
    images: Seq<ImageRow>,
    pairs: Seq<(u32, u32)>,
)
    requires
        pairs.len() <= usize::MAX,
        images.len() <= usize::MAX,
    ensures
        ({
            let out = known_pairs(images, pairs, pairs.len());
            &&& forall|a: int|
                0 <= a < out.len() ==> {
                    let p = #[trigger] out[a];
                    &&& p.pair < pairs.len()
                    &&& p.i < images.len()
                    &&& p.j < images.len()
                    &&& (images[p.i as int].id, images[p.j as int].id) == pairs[p.pair as int]
                }
            &&& forall|k: int|
                0 <= k < pairs.len() && has_id(images, (#[trigger] pairs[k]).0) && has_id(
                    images,
                    pairs[k].1,
                ) ==> is_listed_pair(out, k)
            &&& forall|a: int, b: int|
                0 <= a < b < out.len() ==> (#[trigger] out[a]).pair < (#[trigger] out[b]).pair
        }),
{
    lemma_known_pairs(images, pairs, pairs.len());
}

/// A camera is well backed where three captures or more agree on it: one more
/// such camera is one more that is.
pub proof fn well_backed_cameras_have_three_captures(seen: Seq<usize>, more: usize)
    ensures
        backed(seen.push(more), seen.len() + 1) == backed(seen, seen.len()) + if more > 2 {
            1nat
        } else {
            0nat
        },
        backed(Seq::<usize>::empty(), 0) == 0,
{
    lemma_backed_prefix(seen, more, seen.len());
}

proof fn lemma_backed_prefix(seen: Seq<usize>, more: usize, n: nat)
    requires
        n <= seen.len(),
    ensures
        backed(seen.push(more), n) == backed(seen, n),
    decreases n,
{
    if n > 0 {
        lemma_backed_prefix(seen, more, (n - 1) as nat);
    }
}

/// A rig has exactly the cameras that were placed.
pub proof fn rigs_have_the_placed_cameras<P>(images: Seq<(u32, P)>, camera: u32)
    ensures
        sets::sorted_set(placed_cameras(images)).contains(camera) <==> exists|i: int|
            0 <= i < images.len() && (#[trigger] images[i]).0 == camera,
{
    let all = placed_cameras(images);
    let set = sets::sorted_set(all);
    sets::sorted_set_is_the_set(all);
    assert(set.contains(camera) <==> set.to_set().contains(camera));
    assert(all.contains(camera) <==> all.to_set().contains(camera));
    if all.contains(camera) {
        let i = choose|i: int| 0 <= i < all.len() && all[i] == camera;
        assert(images[i].0 == camera);
    }
    if exists|i: int| 0 <= i < images.len() && (#[trigger] images[i]).0 == camera {
        let i = choose|i: int| 0 <= i < images.len() && (#[trigger] images[i]).0 == camera;
        assert(all[i] == camera);
    }
}

/// Every draw is made afresh, with the next three steps of the generator.
pub proof fn draws_are_made_in_turn(n: int, k: nat)
    requires
        0 < n <= usize::MAX,
    ensures
        ({
            let first = consensus::step(consensus::steps(SEED, 3 * k));
            let second = consensus::step(first);
            let third = consensus::step(second);
            &&& draw(n, k).a == first as int % n
            &&& draw(n, k).b == second as int % n
            &&& draw(n, k).c == third as int % n
            &&& consensus::steps(SEED, 3 * (k + 1)) == third
        }),
{
    reveal_with_fuel(consensus::steps, 4);
    let (a, b, c) = (
        consensus::steps(SEED, 3 * k + 1),
        consensus::steps(SEED, 3 * k + 2),
        consensus::steps(SEED, 3 * k + 3),
    );
    vstd::arithmetic::div_mod::lemma_mod_bound(a as int, n);
    vstd::arithmetic::div_mod::lemma_mod_bound(b as int, n);
    vstd::arithmetic::div_mod::lemma_mod_bound(c as int, n);
}

/// Every draw of three different cameras is a sample.
pub proof fn every_proper_draw_is_a_sample(n: int, k: nat, t: nat)
    requires
        t < k,
        ({
            let s = draw(n, t);
            s.a != s.b && s.b != s.c && s.a != s.c
        }),
    ensures
        samples(n, k).contains(draw(n, t)),
    decreases k,
{
    let rest = samples(n, (k - 1) as nat);
    let all = samples(n, k);
    if t < k - 1 {
        every_proper_draw_is_a_sample(n, (k - 1) as nat, t);
        let i = choose|i: int| 0 <= i < rest.len() && rest[i] == draw(n, t);
        assert(all[i] == draw(n, t));
    } else {
        assert(all[rest.len() as int] == draw(n, t));
    }
}

/// A capture is aligned where it shares three cameras or more with the
/// reference, and as many as were asked for; the reference itself is not.
pub proof fn captures_that_share_enough_are_aligned<P>(
    p: Plan,
    rig: CaptureRig<P>,
    reference: CaptureRig<P>,
    min_shared: usize,
)
    requires
        is_plan(p, rig, reference, min_shared),
    ensures
        ({
            let shared = shared_among(rig.cameras@, reference.cameras@, rig.cameras@.len());
            &&& p is Reference <==> rig.capture_id == reference.capture_id
            &&& p is Align <==> rig.capture_id != reference.capture_id && shared.len() >= 3
                && shared.len() >= min_shared
            &&& p matches Plan::Align(ids) ==> ids@ == shared
        }),
{
}

/// The reference contributes every one of its cameras, and an aligned capture
/// those at the places named, each as its own.
pub proof fn contributions_are_of_their_capture<P>(
    rigs: Seq<CaptureRig<P>>,
    capture: int,
    places: Seq<usize>,
    i: int,
    k: int,
)
    requires
        0 <= capture < rigs.len() <= usize::MAX,
        0 <= i < rigs[capture].cameras@.len() <= usize::MAX,
        0 <= k < places.len(),
    ensures
        whole(rigs, capture).len() == rigs[capture].cameras@.len(),
        whole(rigs, capture)[i].capture == capture && whole(rigs, capture)[i].place == i,
        some_places(capture, places).len() == places.len(),
        some_places(capture, places)[k].capture == capture,
        some_places(capture, places)[k].place == places[k],
{
}

/// What is pooled is of the camera at its place in its capture.
pub proof fn pooled_cameras_are_those_of_their_captures<P>(
    m: Solver,
    rigs: Seq<CaptureRig<P>>,
    k: int,
)
    requires
        0 <= k < m.pooled@.len(),
    ensures
        m.pooled_cameras(rigs).len() == m.pooled@.len(),
        m.pooled_cameras(rigs)[k] == rigs[m.pooled@[k].capture as int].cameras@[m.pooled@[k].place as int],
{
}

/// Captures make a rig exactly where there are two or more of them, none is
/// pooled from several, and there are verified pairs.
pub proof fn rigs_need_two_captures_and_pairs(captures: Seq<i64>, num_pairs: usize)
    ensures
        rig_complaint(captures, num_pairs) is None <==> num_pairs > 0 && (forall|i: int|
            0 <= i < captures.len() ==> #[trigger] captures[i] >= 0) && exists|i: int, j: int|
            0 <= i < captures.len() && 0 <= j < captures.len() && #[trigger] captures[i]
                != #[trigger] captures[j],
{
    let set = sets::sorted_set(captures);
    sets::sorted_set_is_the_set(captures);
    if set.len() >= 2 {
        assert(set[0] != set[1]);
        assert(set.to_set().contains(set[0]) && set.to_set().contains(set[1]));
        assert(captures.to_set().contains(set[0]) && captures.to_set().contains(set[1]));
        let i = choose|i: int| 0 <= i < captures.len() && captures[i] == set[0];
        let j = choose|j: int| 0 <= j < captures.len() && captures[j] == set[1];
        assert(captures[i] != captures[j]);
    }
    if exists|i: int, j: int|
        0 <= i < captures.len() && 0 <= j < captures.len() && #[trigger] captures[i]
            != #[trigger] captures[j] {
        let (i, j) = choose|i: int, j: int|
            0 <= i < captures.len() && 0 <= j < captures.len() && #[trigger] captures[i]
                != #[trigger] captures[j];
        assert(captures.to_set().contains(captures[i]) && captures.to_set().contains(captures[j]));
        assert(set.to_set().contains(captures[i]) && set.to_set().contains(captures[j]));
        let a = choose|a: int| 0 <= a < set.len() && set[a] == captures[i];
        let b = choose|b: int| 0 <= b < set.len() && set[b] == captures[j];
        assert(a != b);
    }
}

/// The middle of some numbers stands as far from the least as from the
/// greatest once they are in order; of two in the middle it is the upper.
pub proof fn the_middle_is_in_the_middle(seen: Seq<usize>)
    requires
        seen.len() > 0,
    ensures
        exists|p: Seq<usize>| #[trigger]
            p.to_multiset() == seen.to_multiset() && p.len() == seen.len() && (forall|
                i: int,
                j: int,
            |
                0 <= i < j < p.len() ==> p[i] <= p[j]) && p[p.len() as int / 2] == middle(seen),
{
    let p = order::sorted(seen);
    order::sorted_is_an_ordered_permutation(seen);
    assert forall|i: int, j: int| 0 <= i < j < p.len() implies p[i] <= p[j] by {
        assert(!order::natural::<usize>()(p[j], p[i]));
    }
    assert(p.to_multiset() == seen.to_multiset());
}

/// Being a capture with an id.
pub open spec fn has_capture_id<P>(id: i64) -> spec_fn(CaptureRig<P>) -> bool {
    |r: CaptureRig<P>| r.capture_id == id
}

/// The captures with the reference's id are counted.
pub proof fn references_are_counted<P>(rigs: Seq<CaptureRig<P>>, reference: int, n: nat)
    requires
        n <= rigs.len(),
        0 <= reference < rigs.len(),
    ensures
        references(rigs, reference, n) == sets::how_many(
            rigs,
            has_capture_id(rigs[reference].capture_id),
            n,
        ),
    decreases n,
{
    let kind = has_capture_id::<P>(rigs[reference].capture_id);
    sets::lemma_none_of_none(rigs, kind);
    if n > 0 {
        references_are_counted(rigs, reference, (n - 1) as nat);
        sets::lemma_one_more(rigs, kind, (n - 1) as nat);
    }
}

} // verus!
