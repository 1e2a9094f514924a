//! Choosing a camera model by how well it generalises, not how well it fits.
//!
//! A richer camera model always fits the observations it was fitted to at
//! least as well as a simpler one, so in-sample error cannot choose between
//! them. Cross-validation can, and the fold structure is the part that matters:
//! observations inside one capture share a board pose, so folds are whole
//! captures where the dataset has them and whole images otherwise. Fit on the
//! other folds, score on the held-out one, and a parameter that only ever
//! memorised one pose scores badly.

use vstd::prelude::*;

use crate::consensus;
use crate::consensus::explained;
use crate::error::SfmError;
use crate::model;
use crate::model::{ids_u32, ids_u64, observations, Observation, Reconstruction};
use crate::order;
use crate::order::{push_text, sort, Sortable};
use crate::paths;
use crate::paths::number_list;
use crate::sets;
use crate::sets::{count_key, slot};
use crate::text;
use crate::text::{contains_text, decimal_string};

verus! {

/// Candidate models, simplest first. A model with no distortion term and one
/// focal length is left out: it is never right for a real lens, and would only
/// win on a camera with too few observations to fit anything.
pub fn candidates() -> (r: Vec<&'static str>)
    ensures
        r@.len() == 5,
        forall|i: int| 0 <= i < 5 ==> (#[trigger] r@[i])@ == candidate_name(i),
{
    let mut r: Vec<&'static str> = Vec::new();
    r.push("PINHOLE");
    r.push("SIMPLE_RADIAL");
    r.push("RADIAL");
    r.push("OPENCV");
    r.push("OPENCV_FISHEYE");
    r
}

pub open spec fn candidate_name(i: int) -> Seq<char> {
    if i == 0 {
        "PINHOLE"@
    } else if i == 1 {
        "SIMPLE_RADIAL"@
    } else if i == 2 {
        "RADIAL"@
    } else if i == 3 {
        "OPENCV"@
    } else {
        "OPENCV_FISHEYE"@
    }
}

/// What is recommended where nothing could be scored.
pub const FALLBACK: usize = 1;

// ---------------------------------------------------------------------------
// The problem
// ---------------------------------------------------------------------------

/// How observations are divided for cross-validation.
#[derive(Debug)]
pub struct Folds {
    /// The fold of each observation.
    pub of_observation: Vec<usize>,
    pub count: usize,
    /// What a fold is: a capture or an image.
    pub kind: String,
}

/// The observations that the fitter wants, and the cameras and images that
/// they refer to, by ascending id.
#[derive(Debug)]
pub struct Problem<K> {
    pub observations: Vec<Observation<K>>,
    pub camera_ids: Vec<u32>,
    pub image_ids: Vec<u32>,
    pub point_ids: Vec<u64>,
    /// The place of each image's camera.
    pub camera_of_image: Vec<usize>,
}

impl<K> Problem<K> {
    /// Every place that is referred to exists.
    pub open spec fn wf(self) -> bool {
        &&& self.camera_of_image@.len() == self.image_ids@.len()
        &&& forall|i: int|
            0 <= i < self.camera_of_image@.len() ==> (#[trigger] self.camera_of_image@[i])
                < self.camera_ids@.len()
        &&& forall|i: int|
            0 <= i < self.observations@.len() ==> (#[trigger] self.observations@[i]).image_idx
                < self.image_ids@.len() && self.observations@[i].point_idx < self.point_ids@.len()
    }

    /// The camera of an observation.
    pub open spec fn camera_of(self, i: int) -> usize {
        self.camera_of_image@[self.observations@[i].image_idx as int]
    }
}

impl<K: Copy> Problem<K> {
    /// Indexes a reconstruction. Fails where nothing was observed.
    pub fn from_reconstruction<T, P>(recon: &Reconstruction<T, P, K>) -> (r: Result<
        Problem<K>,
        SfmError,
    >)
        requires
            recon.cameras_known(),
        ensures
            ({
                let seen = model::observations_of(*recon, recon.points3d@.len());
                match r {
                    Ok(p) => {
                        &&& seen.len() > 0
                        &&& p.wf()
                        &&& p.observations@ == seen
                        &&& p.camera_ids@ == model::ids(recon.cameras@)
                        &&& p.image_ids@ == model::ids(recon.images@)
                        &&& p.point_ids@ == model::ids(recon.points3d@)
                        &&& forall|i: int|
                            0 <= i < p.image_ids@.len()
                                ==> p.camera_ids@[#[trigger] p.camera_of_image@[i] as int]
                                == recon.images@[p.image_ids@[i]].camera_id
                    },
                    Err(e) => e matches SfmError::Other(m) && seen.len() == 0 && m@
                        == "the reconstruction has no observations to fit a camera model to"@,
                }
            }),
    {
        broadcast use vstd::std_specs::btree::group_btree_axioms;

        let observations = observations(recon);
        if observations.len() == 0 {
            return Err(
                SfmError::Other(
                    String::from_str(
                        "the reconstruction has no observations to fit a camera model to",
                    ),
                ),
            );
        }
        let camera_ids = ids_u32(&recon.cameras);
        let image_ids = ids_u32(&recon.images);
        let point_ids = ids_u64(&recon.points3d);
        let mut camera_of_image: Vec<usize> = Vec::new();
        let mut i: usize = 0;
        while i < image_ids.len()
            invariant
                i <= image_ids@.len(),
                recon.cameras_known(),
                sets::increasing(camera_ids@),
                camera_ids@.to_set() == recon.cameras@.dom(),
                image_ids@.to_set() == recon.images@.dom(),
                camera_of_image@.len() == i,
                forall|k: int|
                    0 <= k < i ==> (#[trigger] camera_of_image@[k]) < camera_ids@.len()
                        && camera_ids@[camera_of_image@[k] as int]
                        == recon.images@[image_ids@[k]].camera_id,
            decreases image_ids@.len() - i,
        {
            let id: u32 = image_ids[i];
            assert(image_ids@.to_set().contains(id)) by {
                assert(image_ids@[i as int] == id);
            }
            assert(recon.images@.contains_key(id));
            match recon.images.get(&id) {
                Some(im) => {
                    match slot(&camera_ids, im.camera_id) {
                        Some(c) => {
                            camera_of_image.push(c);
                        },
                        None => {
                            assert(camera_ids@.to_set().contains(im.camera_id));
                            assert(false);
                        },
                    }
                },
                None => {
                    assert(false);
                },
            }
            i += 1;
        }
        Ok(Problem { observations, camera_ids, image_ids, point_ids, camera_of_image })
    }

    /// One fold per image.
    pub fn image_folds(&self) -> (r: Folds)
        ensures
            r.kind@ == "image"@,
            r.count == self.image_ids@.len(),
            r.of_observation@.len() == self.observations@.len(),
            forall|i: int|
                0 <= i < self.observations@.len() ==> (#[trigger] r.of_observation@[i])
                    == self.observations@[i].image_idx,
    {
        let mut of_observation: Vec<usize> = Vec::new();
        let mut i: usize = 0;
        while i < self.observations.len()
            invariant
                i <= self.observations@.len(),
                of_observation@.len() == i,
                forall|k: int|
                    0 <= k < i ==> (#[trigger] of_observation@[k])
                        == self.observations@[k].image_idx,
            decreases self.observations@.len() - i,
        {
            of_observation.push(self.observations[i].image_idx);
            i += 1;
        }
        Folds { of_observation, count: self.image_ids.len(), kind: String::from_str("image") }
    }

    /// The observations of a list that one camera made.
    pub open spec fn of_camera(self, set: Seq<usize>, camera: usize, n: nat) -> Seq<usize>
        decreases n,
    {
        if n == 0 {
            Seq::empty()
        } else {
            let rest = self.of_camera(set, camera, (n - 1) as nat);
            if self.camera_of(set[n - 1] as int) == camera {
                rest.push(set[n - 1])
            } else {
                rest
            }
        }
    }

    /// Scores are per camera, so a model can win on one lens and lose on
    /// another.
    pub fn observations_by(&self, set: &Vec<usize>, camera: usize) -> (out: Vec<usize>)
        requires
            self.wf(),
            forall|k: int| 0 <= k < set@.len() ==> (#[trigger] set@[k]) < self.observations@.len(),
        ensures
            out@ == self.of_camera(set@, camera, set@.len()),
    {
        let mut out: Vec<usize> = Vec::new();
        let mut n: usize = 0;
        while n < set.len()
            invariant
                n <= set@.len(),
                self.wf(),
                forall|k: int|
                    0 <= k < set@.len() ==> (#[trigger] set@[k]) < self.observations@.len(),
                out@ == self.of_camera(set@, camera, n as nat),
            decreases set@.len() - n,
        {
            let i: usize = set[n];
            assert(set@[n as int] < self.observations@.len());
            assert(self.observations@[i as int].image_idx < self.image_ids@.len());
            if self.camera_of_image[self.observations[i].image_idx] == camera {
                out.push(i);
            }
            n += 1;
        }
        out
    }

    /// How many observations each camera made.
    pub fn observations_per_camera(&self) -> (out: Vec<usize>)
        requires
            self.wf(),
        ensures
            out@.len() == self.camera_ids@.len(),
            forall|c: int|
                0 <= c < out@.len() ==> (#[trigger] out@[c]) == sets::key_count(
                    Seq::new(self.observations@.len(), |i: int| self.camera_of(i)),
                    c as usize,
                    self.observations@.len(),
                ),
    {
        let ghost all = Seq::new(self.observations@.len(), |i: int| self.camera_of(i));
        let mut cameras: Vec<usize> = Vec::new();
        let mut i: usize = 0;
        while i < self.observations.len()
            invariant
                i <= self.observations@.len(),
                self.wf(),
                all == Seq::new(self.observations@.len(), |i: int| self.camera_of(i)),
                cameras@ == all.take(i as int),
            decreases self.observations@.len() - i,
        {
            assert(self.observations@[i as int].image_idx < self.image_ids@.len());
            cameras.push(self.camera_of_image[self.observations[i].image_idx]);
            i += 1;
            assert(cameras@ =~= all.take(i as int));
        }
        assert(cameras@ =~= all);
        let mut out: Vec<usize> = Vec::new();
        let mut c: usize = 0;
        while c < self.camera_ids.len()
            invariant
                c <= self.camera_ids@.len(),
                cameras@ == all,
                all.len() == self.observations@.len(),
                out@.len() == c,
                forall|d: int|
                    0 <= d < c ==> (#[trigger] out@[d]) == sets::key_count(
                        all,
                        d as usize,
                        self.observations@.len(),
                    ),
            decreases self.camera_ids@.len() - c,
        {
            out.push(count_key(&cameras, c));
            c += 1;
        }
        out
    }
}

// ---------------------------------------------------------------------------
// Folds
// ---------------------------------------------------------------------------

/// A model is scored on data that it was not fitted to.
#[derive(Debug)]
pub struct Split {
    pub train: Vec<usize>,
    pub test: Vec<usize>,
}

/// Which observations a fold keeps for fitting.
pub open spec fn outside(of_observation: Seq<usize>, fold: usize) -> Seq<bool> {
    of_observation.map_values(|f: usize| f != fold)
}

/// Which observations a fold holds out.
pub open spec fn inside(of_observation: Seq<usize>, fold: usize) -> Seq<bool> {
    of_observation.map_values(|f: usize| f == fold)
}

/// Fits on the other folds and scores on this one; nothing where either would
/// be empty.
pub fn split(folds: &Folds, fold: usize) -> (r: Option<Split>)
    ensures
        ({
            let n = folds.of_observation@.len();
            let train = consensus::flagged(outside(folds.of_observation@, fold), n);
            let test = consensus::flagged(inside(folds.of_observation@, fold), n);
            match r {
                Some(s) => s.train@ == train && s.test@ == test && train.len() > 0 && test.len()
                    > 0,
                None => train.len() == 0 || test.len() == 0,
            }
        }),
{
    let mut out: Vec<bool> = Vec::new();
    let mut held: Vec<bool> = Vec::new();
    let mut i: usize = 0;
    while i < folds.of_observation.len()
        invariant
            i <= folds.of_observation@.len(),
            out@ == outside(folds.of_observation@, fold).take(i as int),
            held@ == inside(folds.of_observation@, fold).take(i as int),
        decreases folds.of_observation@.len() - i,
    {
        out.push(folds.of_observation[i] != fold);
        held.push(folds.of_observation[i] == fold);
        i += 1;
        assert(out@ =~= outside(folds.of_observation@, fold).take(i as int));
        assert(held@ =~= inside(folds.of_observation@, fold).take(i as int));
    }
    assert(out@ =~= outside(folds.of_observation@, fold));
    assert(held@ =~= inside(folds.of_observation@, fold));
    let train = explained(&out);
    let test = explained(&held);
    if train.len() == 0 || test.len() == 0 {
        None
    } else {
        Some(Split { train, test })
    }
}

/// No observation that scores a fold was used to fit it, and none is left out.
pub proof fn folds_hold_out_what_they_score(of_observation: Seq<usize>, fold: usize, i: int)
    requires
        of_observation.len() <= usize::MAX,
        0 <= i < of_observation.len(),
    ensures
        ({
            let n = of_observation.len();
            let train = consensus::flagged(outside(of_observation, fold), n);
            let test = consensus::flagged(inside(of_observation, fold), n);
            train.contains(i as usize) <==> !test.contains(i as usize)
        }),
{
    let n = of_observation.len();
    let (a, b) = (outside(of_observation, fold), inside(of_observation, fold));
    consensus::flagged_are_listed(a, n);
    consensus::flagged_are_listed(b, n);
    let (train, test) = (consensus::flagged(a, n), consensus::flagged(b, n));
    if of_observation[i] != fold {
        assert(a[i]);
        assert(train.contains(i as usize));
        if test.contains(i as usize) {
            let k = choose|k: int| 0 <= k < test.len() && test[k] == i as usize;
            assert(b[test[k] as int]);
        }
    } else {
        assert(b[i]);
        assert(test.contains(i as usize));
        if train.contains(i as usize) {
            let k = choose|k: int| 0 <= k < train.len() && train[k] == i as usize;
            assert(a[train[k] as int]);
        }
    }
}

/// What must be there before models can be compared.
pub fn check_folds(folds: &Folds) -> (r: Result<(), SfmError>)
    ensures
        match r {
            Ok(_) => folds.count >= 2,
            Err(e) => e matches SfmError::Other(m) && folds.count < 2 && m@
                == "need at least 2 folds to score a model on data it was not fitted to"@,
        },
{
    if folds.count < 2 {
        return Err(
            SfmError::Other(
                String::from_str(
                    "need at least 2 folds to score a model on data it was not fitted to",
                ),
            ),
        );
    }
    Ok(())
}

// ---------------------------------------------------------------------------
// Recommendation
// ---------------------------------------------------------------------------

/// Smallest of the held-out errors; a candidate without one was never scored.
pub fn best_held_out(held: &Vec<Option<u64>>) -> (r: Option<u64>)
    ensures
        match r {
            Some(b) => held@.contains(Some(b)) && forall|i: int|
                0 <= i < held@.len() ==> ((#[trigger] held@[i]) matches Some(e) ==> b <= e),
            None => forall|i: int| 0 <= i < held@.len() ==> (#[trigger] held@[i]) is None,
        },
{
    let mut best: Option<u64> = None;
    let mut i: usize = 0;
    while i < held.len()
        invariant
            i <= held@.len(),
            match best {
                Some(b) => held@.contains(Some(b)) && forall|k: int|
                    0 <= k < i ==> ((#[trigger] held@[k]) matches Some(e) ==> b <= e),
                None => forall|k: int| 0 <= k < i ==> (#[trigger] held@[k]) is None,
            },
        decreases held@.len() - i,
    {
        match held[i] {
            Some(e) => {
                assert(held@[i as int] == Some(e));
                best = match best {
                    Some(b) => if e < b {
                        Some(e)
                    } else {
                        Some(b)
                    },
                    None => Some(e),
                };
            },
            None => {},
        }
        i += 1;
    }
    best
}

/// The simplest model within the margin of the best, so that extra parameters
/// have to earn their place. `within` says of each candidate that it was scored
/// and lies within the margin.
pub fn recommend(within: &Vec<bool>) -> (r: usize)
    requires
        within@.len() == 5,
    ensures
        r < 5,
        if exists|i: int| 0 <= i < 5 && within@[i] {
            within@[r as int] && forall|i: int| 0 <= i < r ==> !#[trigger] within@[i]
        } else {
            r == FALLBACK
        },
{
    let mut i: usize = 0;
    while i < within.len()
        invariant
            i <= within@.len() == 5,
            forall|k: int| 0 <= k < i ==> !#[trigger] within@[k],
        decreases within@.len() - i,
    {
        if within[i] {
            return i;
        }
        i += 1;
    }
    FALLBACK
}

/// One model and on how many cameras it is recommended.
#[derive(Debug, Clone, Copy, PartialEq, Eq, Structural)]
pub struct Tallied {
    pub model: usize,
    pub cameras: usize,
}

/// The place of a candidate in the order of their names.
pub open spec fn name_rank(model: usize) -> int {
    if model == 3 {
        0
    } else if model == 4 {
        1
    } else if model == 0 {
        2
    } else if model == 2 {
        3
    } else {
        4
    }
}

/// The ranks follow the names.
pub proof fn ranks_follow_names(a: usize, b: usize)
    requires
        a < 5,
        b < 5,
        name_rank(a) < name_rank(b),
    ensures
        order::precedes(candidate_name(a as int), candidate_name(b as int)),
{
    reveal_strlit("PINHOLE");
    reveal_strlit("SIMPLE_RADIAL");
    reveal_strlit("RADIAL");
    reveal_strlit("OPENCV");
    reveal_strlit("OPENCV_FISHEYE");
    reveal_with_fuel(order::precedes, 8);
}

impl Sortable for Tallied {
    /// More cameras first; of two with as many, by name.
    open spec fn before(self, other: Self) -> bool {
        ||| self.cameras > other.cameras
        ||| self.cameras == other.cameras && name_rank(self.model) < name_rank(other.model)
    }

    proof fn is_strict_weak_order(a: Self, b: Self, c: Self) {
    }

    fn is_before(&self, other: &Self) -> (r: bool) {
        self.cameras > other.cameras || (self.cameras == other.cameras && rank_of(self.model)
            < rank_of(other.model))
    }
}

fn rank_of(model: usize) -> (r: usize)
    ensures
        r == name_rank(model),
{
    if model == 3 {
        0
    } else if model == 4 {
        1
    } else if model == 0 {
        2
    } else if model == 2 {
        3
    } else {
        4
    }
}

/// The candidates among the first `n` that are recommended somewhere.
pub open spec fn tallies(recommended: Seq<usize>, n: nat) -> Seq<Tallied>
    decreases n,
{
    if n == 0 {
        Seq::empty()
    } else {
        let rest = tallies(recommended, (n - 1) as nat);
        let count = sets::key_count(recommended, (n - 1) as usize, recommended.len());
        if count > 0 {
            rest.push(Tallied { model: (n - 1) as usize, cameras: count as usize })
        } else {
            rest
        }
    }
}

/// How often each model is recommended: most often first, and by name where
/// two are recommended as often.
pub fn tally(recommended: &Vec<usize>) -> (out: Vec<Tallied>)
    ensures
        out@ == order::sorted(tallies(recommended@, 5)),
{
    let mut all: Vec<Tallied> = Vec::new();
    let mut m: usize = 0;
    while m < 5
        invariant
            m <= 5,
            all@ == tallies(recommended@, m as nat),
        decreases 5 - m,
    {
        let cameras: usize = count_key(recommended, m);
        if cameras > 0 {
            all.push(Tallied { model: m, cameras });
        }
        m += 1;
    }
    sort(all)
}

/// The model recommended most often, or the fallback.
pub fn most_recommended(ranked: &Vec<Tallied>) -> (r: usize)
    ensures
        r == if ranked@.len() > 0 {
            ranked@[0].model
        } else {
            FALLBACK
        },
{
    if ranked.len() > 0 {
        ranked[0].model
    } else {
        FALLBACK
    }
}

// ---------------------------------------------------------------------------
// Writing the choice down
// ---------------------------------------------------------------------------

/// A camera's images and the model chosen for it.
#[derive(Debug)]
pub struct Block {
    pub camera_id: u32,
    pub glob: String,
    pub model: String,
}

/// One entry of the configuration.
pub open spec fn block_text(b: Block) -> Seq<char> {
    "\n[[cameras]]\nname = \"camera"@ + text::decimal(b.camera_id as nat) + "\"\nimages = \""@
        + b.glob@ + "\"\nmodel = \""@ + b.model@ + "\"\n"@
}

/// The entries of the first `n` blocks.
pub open spec fn blocks_text(blocks: Seq<Block>, n: nat) -> Seq<char>
    decreases n,
{
    if n == 0 {
        Seq::empty()
    } else {
        blocks_text(blocks, (n - 1) as nat) + block_text(blocks[n - 1])
    }
}

/// Why the choice cannot be written, if it cannot.
pub open spec fn write_complaint(existing: Seq<char>, blocks: Seq<Block>, path: Seq<char>) -> Option<
    Seq<char>,
> {
    if blocks.len() == 0 {
        Some("no camera could be selected by a glob, so there is nothing to write"@)
    } else if text::occurs(existing, "[[cameras]]"@) {
        Some(
            path
                + " already declares [[cameras]]; not overwriting. The recommendations are above - set them there by hand instead."@,
        )
    } else {
        None
    }
}

/// The configuration with one entry per camera, because a rig can carry more
/// than one lens.
pub fn selected_config(existing: &str, folds: &Folds, blocks: &Vec<Block>, path: &str) -> (r:
    Result<String, SfmError>)
    ensures
        match r {
            Ok(out) => write_complaint(existing@, blocks@, path@) is None && out@ == existing@
                + "\n# Selected by `sfmtory select-model` on held-out reprojection error,\n# scored over "@
                + text::decimal(folds.count as nat) + " fold(s) by "@ + folds.kind@ + ".\n"@
                + blocks_text(blocks@, blocks@.len()),
            Err(e) => e matches SfmError::Other(m) && write_complaint(existing@, blocks@, path@)
                == Some(m@),
        },
{
    if blocks.len() == 0 {
        return Err(
            SfmError::Other(
                String::from_str(
                    "no camera could be selected by a glob, so there is nothing to write",
                ),
            ),
        );
    }
    if contains_text(existing, "[[cameras]]") {
        let mut m = String::from_str(path);
        m.append(
            " already declares [[cameras]]; not overwriting. The recommendations are above - set them there by hand instead.",
        );
        return Err(SfmError::Other(m));
    }
    let mut out = String::from_str(existing);
    out.append(
        "\n# Selected by `sfmtory select-model` on held-out reprojection error,\n# scored over ",
    );
    out.append(decimal_string(folds.count as u64).as_str());
    out.append(" fold(s) by ");
    out.append(folds.kind.as_str());
    out.append(".\n");
    let ghost head = out@;
    let mut n: usize = 0;
    assert(out@ =~= head + blocks_text(blocks@, 0));
    while n < blocks.len()
        invariant
            n <= blocks@.len(),
            out@ == head + blocks_text(blocks@, n as nat),
        decreases blocks@.len() - n,
    {
        let b = &blocks[n];
        let ghost before = out@;
        out.append("\n[[cameras]]\nname = \"camera");
        out.append(decimal_string(b.camera_id as u64).as_str());
        out.append("\"\nimages = \"");
        out.append(b.glob.as_str());
        out.append("\"\nmodel = \"");
        out.append(b.model.as_str());
        out.append("\"\n");
        assert(out@ =~= before + block_text(*b));
        n += 1;
        assert(out@ =~= head + blocks_text(blocks@, n as nat));
    }
    Ok(out)
}

// ---------------------------------------------------------------------------
// Cameras whose residuals grow toward the edge
// ---------------------------------------------------------------------------

/// What a camera's parameters say of residuals that grow toward the edge of
/// the frame: whether the family is wrong, or right and left unfitted.
#[derive(Debug, Clone, Copy, PartialEq, Eq, Structural)]
pub enum TrendCause {
    /// Every distortion coefficient is still zero.
    Unfitted,
    /// The model has no distortion terms.
    NoDistortionTerms,
    FittedButStillCurved,
}

/// A camera whose residuals grow toward the edge.
#[derive(Debug)]
pub struct Suspect {
    pub camera_id: u32,
    /// The correlation, as it is shown.
    pub correlation: String,
    pub cause: TrendCause,
}

/// How many of the first `n` were never fitted.
pub open spec fn unfitted(suspects: Seq<Suspect>, n: nat) -> nat
    decreases n,
{
    if n == 0 {
        0
    } else {
        unfitted(suspects, (n - 1) as nat) + if suspects[n - 1].cause is Unfitted {
            1nat
        } else {
            0nat
        }
    }
}

/// The lines of the first `n` suspects.
pub open spec fn suspect_lines(suspects: Seq<Suspect>, n: nat) -> Seq<Seq<char>>
    decreases n,
{
    if n == 0 {
        Seq::empty()
    } else {
        suspect_lines(suspects, (n - 1) as nat).push(
            "   camera "@ + text::decimal(suspects[n - 1].camera_id as nat)
                + ": residual/radius correlation "@ + suspects[n - 1].correlation@,
        )
    }
}

/// What is said of the suspects.
pub open spec fn trend_text(suspects: Seq<Suspect>, min_images: usize) -> Seq<Seq<char>> {
    let n = suspects.len();
    let bare = unfitted(suspects, n);
    if n == 0 {
        Seq::empty()
    } else {
        seq![
            ""@,
            text::decimal(n)
                + " camera(s) have residuals that grow toward the edge of the frame. Comparing"@,
            "models against fixed structure cannot see this, because the points were"@,
            "triangulated by the model being judged."@,
        ] + suspect_lines(
            suspects,
            if n < 8 {
                n
            } else {
                8
            },
        ) + (if bare > 0 {
            seq![
                ""@,
                text::decimal(bare)
                    + " of them still have every distortion coefficient at zero, so the"@,
                "model they have has never been fitted - a wider one would not help. See the"@,
                "\"kept the focal length they started with\" warning from `map`: intrinsics are"@,
                "refined only for cameras with at least "@ + text::decimal(min_images as nat)
                    + " images."@,
            ]
        } else {
            Seq::empty()
        }) + (if bare < n {
            seq![
                ""@,
                "For the rest, the projection family itself is the suspect - a fisheye lens"@,
                "fitted as rectilinear looks exactly like this. Try it explicitly:"@,
                "   [[cameras]] model = \"OPENCV_FISHEYE\"   then re-run map and compare."@,
            ]
        } else {
            Seq::empty()
        })
    }
}

/// Reports the suspects; nothing where there is none. Recommending a wider
/// model for a camera whose coefficients are all still zero would send the
/// user in a circle, so the two causes are told apart.
pub fn trend_report(suspects: &Vec<Suspect>, min_images: usize) -> (out: Vec<String>)
    ensures
        order::texts(out@) == trend_text(suspects@, min_images),
{
    let total: usize = suspects.len();
    let mut out: Vec<String> = Vec::new();
    if total == 0 {
        assert(order::texts(out@) =~= trend_text(suspects@, min_images));
        return out;
    }
    let mut bare: usize = 0;
    let mut i: usize = 0;
    while i < total
        invariant
            i <= total == suspects@.len(),
            bare <= i,
            bare == unfitted(suspects@, i as nat),
        decreases total - i,
    {
        match suspects[i].cause {
            TrendCause::Unfitted => {
                bare += 1;
            },
            _ => {},
        }
        i += 1;
    }
    push_text(&mut out, String::from_str(""));
    let mut head = decimal_string(total as u64);
    head.append(" camera(s) have residuals that grow toward the edge of the frame. Comparing");
    let ghost title = head@;
    push_text(&mut out, head);
    push_text(
        &mut out,
        String::from_str("models against fixed structure cannot see this, because the points were"),
    );
    push_text(&mut out, String::from_str("triangulated by the model being judged."));
    let ghost start = order::texts(out@);
    assert(start =~= seq![
        ""@,
        title,
        "models against fixed structure cannot see this, because the points were"@,
        "triangulated by the model being judged."@,
    ]);
    let shown: usize = if total < 8 {
        total
    } else {
        8
    };
    let mut n: usize = 0;
    assert(order::texts(out@) =~= start + suspect_lines(suspects@, 0));
    while n < shown
        invariant
            n <= shown <= suspects@.len(),
            order::texts(out@) == start + suspect_lines(suspects@, n as nat),
        decreases shown - n,
    {
        let s = &suspects[n];
        let mut line = String::from_str("   camera ");
        line.append(decimal_string(s.camera_id as u64).as_str());
        line.append(": residual/radius correlation ");
        line.append(s.correlation.as_str());
        push_text(&mut out, line);
        n += 1;
        assert(order::texts(out@) =~= start + suspect_lines(suspects@, n as nat));
    }
    let ghost body = order::texts(out@);
    if bare > 0 {
        push_text(&mut out, String::from_str(""));
        let mut line = decimal_string(bare as u64);
        line.append(" of them still have every distortion coefficient at zero, so the");
        push_text(&mut out, line);
        push_text(
            &mut out,
            String::from_str(
                "model they have has never been fitted - a wider one would not help. See the",
            ),
        );
        push_text(
            &mut out,
            String::from_str(
                "\"kept the focal length they started with\" warning from `map`: intrinsics are",
            ),
        );
        let mut last = String::from_str("refined only for cameras with at least ");
        last.append(decimal_string(min_images as u64).as_str());
        last.append(" images.");
        push_text(&mut out, last);
    }
    let ghost middle: Seq<Seq<char>> = if bare > 0 {
        seq![
            ""@,
            text::decimal(bare as nat)
                + " of them still have every distortion coefficient at zero, so the"@,
            "model they have has never been fitted - a wider one would not help. See the"@,
            "\"kept the focal length they started with\" warning from `map`: intrinsics are"@,
            "refined only for cameras with at least "@ + text::decimal(min_images as nat)
                + " images."@,
        ]
    } else {
        Seq::empty()
    };
    assert(order::texts(out@) =~= body + middle);
    if bare < total {
        push_text(&mut out, String::from_str(""));
        push_text(
            &mut out,
            String::from_str(
                "For the rest, the projection family itself is the suspect - a fisheye lens",
            ),
        );
        push_text(
            &mut out,
            String::from_str("fitted as rectilinear looks exactly like this. Try it explicitly:"),
        );
        push_text(
            &mut out,
            String::from_str(
                "   [[cameras]] model = \"OPENCV_FISHEYE\"   then re-run map and compare.",
            ),
        );
    }
    assert(order::texts(out@) =~= trend_text(suspects@, min_images));
    out
}

/// Why models cannot be compared on folds that share almost no points.
pub open spec fn overlap_text(percent: Seq<char>, num_points: usize) -> Seq<char> {
    "these folds share almost no points ("@ + percent + "% of "@ + text::decimal(
        num_points as nat,
    )
        + "), so held-out reprojection error cannot tell the models apart - a point that only its own fold observes is scored against structure that fold helped place.\n\nWith fiducial folds this is structural: every marker is stamped with its capture, so each point belongs to exactly one capture by construction.\n\nWhat does work here is comparing whole reconstructions: run `map` with each candidate set via `[[cameras]] model = ...` and compare point count and mean reprojection error. On a 4-camera rig that separated the true models clearly (0.921px/677pts) from a swapped assignment (1.239px/649pts) while this comparison saw nothing.\n\nPass --fold-by-image to score anyway, understanding the above."@
}

/// The refusal to rank models that the data cannot separate; `percent` is the
/// share of points seen in more than one fold, as it is shown.
pub fn overlap_complaint(percent: &str, num_points: usize) -> (r: SfmError)
    ensures
        r matches SfmError::Other(m) && m@ == overlap_text(percent@, num_points),
{
    let mut m = String::from_str("these folds share almost no points (");
    m.append(percent);
    m.append("% of ");
    m.append(decimal_string(num_points as u64).as_str());
    m.append(
        "), so held-out reprojection error cannot tell the models apart - a point that only its own fold observes is scored against structure that fold helped place.\n\nWith fiducial folds this is structural: every marker is stamped with its capture, so each point belongs to exactly one capture by construction.\n\nWhat does work here is comparing whole reconstructions: run `map` with each candidate set via `[[cameras]] model = ...` and compare point count and mean reprojection error. On a 4-camera rig that separated the true models clearly (0.921px/677pts) from a swapped assignment (1.239px/649pts) while this comparison saw nothing.\n\nPass --fold-by-image to score anyway, understanding the above.",
    );
    SfmError::Other(m)
}

/// What is said of cameras that no glob selects, if there are any: the first
/// eight are named.
pub fn unnamed_note(ids: &Vec<u32>) -> (r: Option<String>)
    ensures
        match r {
            Some(s) => ids@.len() > 0 && s@ == "note: "@ + text::decimal(ids@.len())
                + " camera(s) share every path component with another, so no glob can select them individually: "@
                + paths::bracketed(
                ids@.take(
                    if ids@.len() < 8 {
                        ids@.len() as int
                    } else {
                        8
                    },
                ),
            ),
            None => ids@.len() == 0,
        },
{
    if ids.len() == 0 {
        return None;
    }
    let mut first: Vec<u32> = Vec::new();
    let mut i: usize = 0;
    while i < ids.len() && i < 8
        invariant
            i <= ids@.len(),
            i <= 8,
            first@ == ids@.take(i as int),
        decreases ids@.len() - i,
    {
        first.push(ids[i]);
        i += 1;
        assert(first@ =~= ids@.take(i as int));
    }
    let mut s = String::from_str("note: ");
    s.append(decimal_string(ids.len() as u64).as_str());
    s.append(
        " camera(s) share every path component with another, so no glob can select them individually: ",
    );
    s.append(number_list(&first).as_str());
    Some(s)
}

/// What is said of the problem before models are fitted to it.
pub fn folds_note(cameras: usize, observations: usize, folds: &Folds) -> (r: String)
    ensures
        r@ == text::decimal(cameras as nat) + " camera(s), "@ + text::decimal(observations as nat)
            + " observations, "@ + text::decimal(folds.count as nat) + " folds by "@
            + folds.kind@,
{
    let mut s = decimal_string(cameras as u64);
    s.append(" camera(s), ");
    s.append(decimal_string(observations as u64).as_str());
    s.append(" observations, ");
    s.append(decimal_string(folds.count as u64).as_str());
    s.append(" folds by ");
    s.append(folds.kind.as_str());
    s
}

proof fn lemma_of_camera<K: Copy>(p: Problem<K>, set: Seq<usize>, camera: usize, n: nat, x: usize)
    requires
        n <= set.len(),
    ensures
        p.of_camera(set, camera, n).to_multiset().count(x) == if p.camera_of_image@[p.observations@[
        x as int].image_idx as int] == camera {
            set.take(n as int).to_multiset().count(x)
        } else {
            0
        },
    decreases n,
{
    broadcast use vstd::seq_lib::group_to_multiset_ensures;

    if n == 0 {
        assert(set.take(0) =~= Seq::<usize>::empty());
    } else {
        lemma_of_camera(p, set, camera, (n - 1) as nat, x);
        assert(set.take(n as int) =~= set.take(n - 1).push(set[n - 1]));
    }
}

/// The observations that a camera is scored on are those of the set that it
/// made itself, each as often as the set holds it.
pub proof fn cameras_are_scored_on_their_own_observations<K: Copy>(
    p: Problem<K>,
    set: Seq<usize>,
    camera: usize,
    x: usize,
)
    ensures
        p.of_camera(set, camera, set.len()).contains(x) <==> set.contains(x)
            && p.camera_of_image@[p.observations@[x as int].image_idx as int] == camera,
        p.of_camera(set, camera, set.len()).to_multiset().count(x)
            == if p.camera_of_image@[p.observations@[x as int].image_idx as int] == camera {
            set.to_multiset().count(x)
        } else {
            0
        },
{
    broadcast use vstd::seq_lib::group_to_multiset_ensures;

    lemma_of_camera(p, set, camera, set.len(), x);
    assert(set.take(set.len() as int) =~= set);
}

/// No observation is scored for two cameras.
pub proof fn cameras_share_no_observation<K: Copy>(
    p: Problem<K>,
    set: Seq<usize>,
    one: usize,
    other: usize,
    x: usize,
)
    requires
        one != other,
        p.of_camera(set, one, set.len()).contains(x),
    ensures
        !p.of_camera(set, other, set.len()).contains(x),
{
    cameras_are_scored_on_their_own_observations(p, set, one, x);
    cameras_are_scored_on_their_own_observations(p, set, other, x);
}

/// How many observations of the set the first `n` cameras are scored on.
pub open spec fn scored_on<K: Copy>(p: Problem<K>, set: Seq<usize>, n: nat) -> nat
    decreases n,
{
    if n == 0 {
        0
    } else {
        scored_on(p, set, (n - 1) as nat) + p.of_camera(set, (n - 1) as usize, set.len()).len()
    }
}

proof fn lemma_scored_on<K: Copy>(p: Problem<K>, set: Seq<usize>, n: nat, m: nat)
    requires
        m <= set.len(),
        n <= usize::MAX,
    ensures
        scored_prefix(p, set, n, m) == cameras_below(p, set, n, m),
    decreases n,
{
    if n > 0 {
        lemma_scored_on(p, set, (n - 1) as nat, m);
        lemma_one_camera(p, set, n, m);
    } else {
        lemma_none_below(p, set, m);
    }
}

proof fn lemma_none_below<K: Copy>(p: Problem<K>, set: Seq<usize>, m: nat)
    ensures
        cameras_below(p, set, 0, m) == 0,
    decreases m,
{
    if m > 0 {
        lemma_none_below(p, set, (m - 1) as nat);
    }
}

spec fn scored_prefix<K: Copy>(p: Problem<K>, set: Seq<usize>, n: nat, m: nat) -> nat
    decreases n,
{
    if n == 0 {
        0
    } else {
        scored_prefix(p, set, (n - 1) as nat, m) + p.of_camera(set, (n - 1) as usize, m).len()
    }
}

/// How many of the first `m` observations of the set a camera before `n` made.
spec fn cameras_below<K: Copy>(p: Problem<K>, set: Seq<usize>, n: nat, m: nat) -> nat
    decreases m,
{
    if m == 0 {
        0
    } else {
        cameras_below(p, set, n, (m - 1) as nat) + if p.camera_of_image@[p.observations@[set[m - 1]
            as int].image_idx as int] < n {
            1nat
        } else {
            0nat
        }
    }
}

proof fn lemma_one_camera<K: Copy>(p: Problem<K>, set: Seq<usize>, n: nat, m: nat)
    requires
        0 < n <= usize::MAX,
    ensures
        cameras_below(p, set, n, m) == cameras_below(p, set, (n - 1) as nat, m) + p.of_camera(
            set,
            (n - 1) as usize,
            m,
        ).len(),
    decreases m,
{
    if m > 0 {
        lemma_one_camera(p, set, n, (m - 1) as nat);
    }
}

proof fn lemma_prefix_is_whole<K: Copy>(p: Problem<K>, set: Seq<usize>, n: nat)
    ensures
        scored_on(p, set, n) == scored_prefix(p, set, n, set.len()),
    decreases n,
{
    if n > 0 {
        lemma_prefix_is_whole(p, set, (n - 1) as nat);
    }
}

proof fn lemma_all_below<K: Copy>(p: Problem<K>, set: Seq<usize>, m: nat)
    requires
        p.wf(),
        m <= set.len(),
        forall|k: int| 0 <= k < set.len() ==> (#[trigger] set[k]) < p.observations@.len(),
    ensures
        cameras_below(p, set, p.camera_ids@.len(), m) == m,
    decreases m,
{
    if m > 0 {
        lemma_all_below(p, set, (m - 1) as nat);
        let i = set[m - 1] as int;
        assert(set[m - 1] < p.observations@.len());
        assert(p.observations@[i].image_idx < p.image_ids@.len());
        assert(p.camera_of_image@[p.observations@[i].image_idx as int] < p.camera_ids@.len());
    }
}

/// Over all cameras, every observation of the set is scored once.
pub proof fn cameras_part_the_observations<K: Copy>(p: Problem<K>, set: Seq<usize>)
    requires
        p.wf(),
        p.camera_ids@.len() <= usize::MAX,
        forall|k: int| 0 <= k < set.len() ==> (#[trigger] set[k]) < p.observations@.len(),
    ensures
        scored_on(p, set, p.camera_ids@.len()) == set.len(),
{
    lemma_prefix_is_whole(p, set, p.camera_ids@.len());
    lemma_scored_on(p, set, p.camera_ids@.len(), set.len());
    lemma_all_below(p, set, set.len());
}

/// A fold is scored on exactly its own observations, and fitted on exactly
/// those of the other folds.
pub proof fn folds_score_their_own_observations(of_observation: Seq<usize>, fold: usize, i: int)
    requires
        of_observation.len() <= usize::MAX,
        0 <= i < of_observation.len(),
    ensures
        ({
            let n = of_observation.len();
            let train = consensus::flagged(outside(of_observation, fold), n);
            let test = consensus::flagged(inside(of_observation, fold), n);
            &&& test.contains(i as usize) <==> of_observation[i] == fold
            &&& train.contains(i as usize) <==> of_observation[i] != fold
        }),
{
    let n = of_observation.len();
    let (keep, hold) = (outside(of_observation, fold), inside(of_observation, fold));
    consensus::flagged_are_listed(keep, n);
    consensus::flagged_are_listed(hold, n);
    let train = consensus::flagged(keep, n);
    let test = consensus::flagged(hold, n);
    assert(keep[i] == (of_observation[i] != fold));
    assert(hold[i] == (of_observation[i] == fold));
    if train.contains(i as usize) {
        let k = choose|k: int| 0 <= k < train.len() && train[k] == i as usize;
        assert(keep[train[k] as int]);
    }
    if test.contains(i as usize) {
        let k = choose|k: int| 0 <= k < test.len() && test[k] == i as usize;
        assert(hold[test[k] as int]);
    }
}

/// How many cameras recommend a model.
pub open spec fn votes_for(recommended: Seq<usize>, model: usize) -> nat {
    recommended.to_multiset().count(model)
}

proof fn lemma_votes(recommended: Seq<usize>, model: usize, n: nat)
    requires
        n <= recommended.len(),
    ensures
        sets::key_count(recommended, model, n) == votes_for(recommended.take(n as int), model),
    decreases n,
{
    broadcast use vstd::seq_lib::group_to_multiset_ensures;

    if n == 0 {
        assert(recommended.take(0) =~= Seq::<usize>::empty());
    } else {
        lemma_votes(recommended, model, (n - 1) as nat);
        assert(recommended.take(n as int) =~= recommended.take(n - 1).push(recommended[n - 1]));
    }
}

/// Each recommended model is tallied once, with as many cameras as recommend
/// it.
pub proof fn tallies_count_the_recommendations(recommended: Seq<usize>, n: nat, t: Tallied)
    requires
        recommended.len() <= usize::MAX,
        n <= usize::MAX,
    ensures
        tallies(recommended, n).contains(t) <==> t.model < n && t.cameras > 0 && t.cameras
            == votes_for(recommended, t.model),
    decreases n,
{
    if n > 0 {
        let m = (n - 1) as usize;
        tallies_count_the_recommendations(recommended, (n - 1) as nat, t);
        lemma_votes(recommended, m, recommended.len());
        assert(recommended.take(recommended.len() as int) =~= recommended);
        let rest = tallies(recommended, (n - 1) as nat);
        let all = tallies(recommended, n);
        let count = sets::key_count(recommended, m, recommended.len());
        lemma_count_bound(recommended, m, recommended.len());
        let last = Tallied { model: m, cameras: count as usize };
        if rest.contains(t) {
            let k = choose|k: int| 0 <= k < rest.len() && rest[k] == t;
            assert(all[k] == t);
        }
        if all.contains(t) && !rest.contains(t) {
            let k = choose|k: int| 0 <= k < all.len() && all[k] == t;
            if k < rest.len() {
                assert(rest[k] == t);
            }
        }
        if t == last && count > 0 {
            assert(all[rest.len() as int] == t);
        }
    }
}

proof fn lemma_count_bound(recommended: Seq<usize>, model: usize, n: nat)
    ensures
        sets::key_count(recommended, model, n) <= n,
    decreases n,
{
    if n > 0 {
        lemma_count_bound(recommended, model, (n - 1) as nat);
    }
}

/// The models are ranked by how many cameras they are recommended for, and
/// those for as many by their names.
pub proof fn the_most_recommended_model_leads(recommended: Seq<usize>, i: int, j: int)
    requires
        0 <= i < j < order::sorted(tallies(recommended, 5)).len(),
    ensures
        ({
            let ranked = order::sorted(tallies(recommended, 5));
            &&& ranked[i].cameras >= ranked[j].cameras
            &&& ranked[i].cameras == ranked[j].cameras ==> !order::precedes(
                candidate_name(ranked[j].model as int),
                candidate_name(ranked[i].model as int),
            )
        }),
{
    broadcast use vstd::seq_lib::group_to_multiset_ensures;

    let all = tallies(recommended, 5);
    let ranked = order::sorted(all);
    order::sorted_is_an_ordered_permutation(all);
    assert(!order::natural::<Tallied>()(ranked[j], ranked[i]));
    assert(!ranked[j].before(ranked[i]));
    assert(ranked.contains(ranked[i]) && ranked.contains(ranked[j]));
    assert(all.to_multiset().count(ranked[i]) > 0 && all.to_multiset().count(ranked[j]) > 0);
    lemma_tallied_models(recommended, 5, ranked[i]);
    lemma_tallied_models(recommended, 5, ranked[j]);
    let (a, b) = (ranked[i].model, ranked[j].model);
    if ranked[i].cameras == ranked[j].cameras {
        let (x, y) = (candidate_name(a as int), candidate_name(b as int));
        order::names_are_totally_ordered(x, y, x);
        if name_rank(a) < name_rank(b) {
            ranks_follow_names(a, b);
        } else {
            assert(a == b);
        }
    }
}

proof fn lemma_tallied_models(recommended: Seq<usize>, n: nat, t: Tallied)
    requires
        tallies(recommended, n).contains(t),
        n <= 5,
    ensures
        t.model < 5,
    decreases n,
{
    if n > 0 {
        let all = tallies(recommended, n);
        let rest = tallies(recommended, (n - 1) as nat);
        let k = choose|k: int| 0 <= k < all.len() && all[k] == t;
        if k < rest.len() {
            assert(rest[k] == t);
            lemma_tallied_models(recommended, (n - 1) as nat, t);
        }
    }
}

/// Never having been fitted.
pub open spec fn is_unfitted() -> spec_fn(Suspect) -> bool {
    |s: Suspect| s.cause is Unfitted
}

/// The cameras that were never fitted are counted.
pub proof fn unfitted_cameras_are_counted(suspects: Seq<Suspect>, n: nat)
    requires
        n <= suspects.len(),
    ensures
        unfitted(suspects, n) == sets::how_many(suspects, is_unfitted(), n),
    decreases n,
{
    sets::lemma_none_of_none(suspects, is_unfitted());
    if n > 0 {
        unfitted_cameras_are_counted(suspects, (n - 1) as nat);
        sets::lemma_one_more(suspects, is_unfitted(), (n - 1) as nat);
    }
}

/// Every camera's entry is in the written configuration, behind those of the
/// cameras in front of it.
pub proof fn every_block_is_written(blocks: Seq<Block>, i: int, n: nat)
    requires
        0 <= i < n <= blocks.len(),
    ensures
        text::stands_at(
            blocks_text(blocks, n),
            block_text(blocks[i]),
            blocks_text(blocks, i as nat).len() as int,
        ),
    decreases n,
{
    let front = blocks_text(blocks, (n - 1) as nat);
    let all = blocks_text(blocks, n);
    let block = block_text(blocks[i]);
    let at = blocks_text(blocks, i as nat).len() as int;
    if i < n - 1 {
        every_block_is_written(blocks, i, (n - 1) as nat);
        assert(all.subrange(at, at + block.len()) =~= front.subrange(at, at + block.len()));
    } else {
        assert(all.subrange(at, at + block.len()) =~= block);
    }
}

/// Every camera whose residuals grow toward the edge is named on a line of its
/// own, in order.
pub proof fn suspects_are_named_in_order(suspects: Seq<Suspect>, n: nat, i: int)
    requires
        0 <= i < n <= suspects.len(),
    ensures
        suspect_lines(suspects, n).len() == n,
        suspect_lines(suspects, n)[i] == "   camera "@ + text::decimal(
            suspects[i].camera_id as nat,
        ) + ": residual/radius correlation "@ + suspects[i].correlation@,
    decreases n,
{
    if i < n - 1 {
        suspects_are_named_in_order(suspects, (n - 1) as nat, i);
    } else if n > 1 {
        suspects_are_named_in_order(suspects, (n - 1) as nat, 0);
    } else {
        assert(suspect_lines(suspects, 0).len() == 0);
    }
}

/// The observations of a camera are counted: as many as it is scored on where
/// every observation is.
pub proof fn cameras_have_as_many_observations_as_they_made<K: Copy>(p: Problem<K>, camera: usize)
    requires
        p.wf(),
        p.observations@.len() <= usize::MAX,
    ensures
        sets::key_count(
            Seq::new(p.observations@.len(), |i: int| p.camera_of(i)),
            camera,
            p.observations@.len(),
        ) == p.of_camera(
            sets::places(p.observations@.len()),
            camera,
            p.observations@.len(),
        ).len(),
{
    lemma_counted_observations(p, camera, p.observations@.len());
}

proof fn lemma_counted_observations<K: Copy>(p: Problem<K>, camera: usize, n: nat)
    requires
        n <= p.observations@.len() <= usize::MAX,
    ensures
        sets::key_count(Seq::new(p.observations@.len(), |i: int| p.camera_of(i)), camera, n)
            == p.of_camera(sets::places(p.observations@.len()), camera, n).len(),
    decreases n,
{
    if n > 0 {
        lemma_counted_observations(p, camera, (n - 1) as nat);
        assert(sets::places(p.observations@.len())[n - 1] == n - 1);
    }
}

} // verus!
