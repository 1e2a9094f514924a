//! Camera-model selection by rebuilding the reconstruction.
//!
//! Scoring candidate models against *existing* structure is structurally blind
//! to the question a user asks first - "is this lens even a rectilinear
//! camera?" - because the points it scores against were triangulated by the
//! incumbent model. The comparison that can see this runs the reconstruction
//! again, once per candidate. Two things make that affordable:
//!
//! - Candidates are tried *uniformly* first, then refined one camera at a
//!   time. A joint search over families for `n` cameras is `|families|^n`; a
//!   uniform pass followed by coordinate descent is `|families| * (1 + n)`.
//! - The focal is only swept for cameras that cannot refine their own
//!   intrinsics.
//!
//! The reconstructions are run by the caller; what stands here is which
//! candidates to run, what becomes of their scores, and which of them wins.
//! A candidate's error is given by a key that orders as the error does (for a
//! non-negative float, its bits).

use vstd::prelude::*;

use crate::camera;
use crate::mapinput::ImageRow;
use crate::order;
use crate::order::push_text;
use crate::project;
use crate::project::glob_match;
use crate::sets;
use crate::text;
use crate::text::{contains_text, decimal_string, padded_string, quoted};

verus! {

/// How many families there are to choose from.
pub const NUM_FAMILIES: usize = 7;

/// How many focal multipliers are tried for a camera whose intrinsics cannot
/// be refined.
pub const NUM_SCALES: usize = 6;

/// Which of the multipliers leaves the focal as it is.
pub const UNIT_SCALE: usize = 4;

/// The families worth rebuilding for, simplest first. The order is the
/// parsimony order: ties and near-ties resolve to the earliest entry.
pub fn families() -> (r: Vec<&'static str>)
    ensures
        r@.len() == NUM_FAMILIES,
        r@.map_values(|s: &'static str| s@) == camera::model_names(),
{
    let r = vec![
        "SIMPLE_PINHOLE",
        "PINHOLE",
        "SIMPLE_RADIAL",
        "RADIAL",
        "RADIAL3",
        "OPENCV",
        "OPENCV_FISHEYE",
    ];
    assert(r@.map_values(|s: &'static str| s@) =~= camera::model_names());
    r
}

/// The focal multipliers in hundredths, from a fisheye's focal through a
/// rectilinear one's: an equidistant fisheye covering the same field of view
/// as a rectilinear lens has a focal well under half as large. Coarse on
/// purpose - this is here to stop the family comparison being decided by the
/// focal, not to calibrate.
pub fn focal_scales() -> (r: Vec<u32>)
    ensures
        r@ == seq![30u32, 40, 55, 75, 100, 130],
        r@.len() == NUM_SCALES,
        r@[UNIT_SCALE as int] == 100,
{
    vec![30u32, 40, 55, 75, 100, 130]
}

/// A candidate's measured outcome: the same three numbers that a
/// reconstruction reports.
#[derive(Debug, Clone, Copy, PartialEq, Eq, Structural)]
pub struct Score {
    pub registered: usize,
    pub points: usize,
    /// The key of the mean error; nothing where it is not finite.
    pub mean_error: Option<u64>,
}

impl Score {
    pub open spec fn usable(&self) -> bool {
        self.registered >= 2 && self.points > 0 && self.mean_error is Some
    }

    /// The score of a candidate that could not be built.
    pub fn failed() -> (r: Score)
        ensures
            r == (Score { registered: 0, points: 0, mean_error: None }),
            !r.usable(),
    {
        Score { registered: 0, points: 0, mean_error: None }
    }

    /// The score of a reconstruction: failed when it registered fewer than two
    /// images or triangulated nothing.
    pub fn of(registered: usize, points: usize, mean_error: Option<u64>) -> (r: Score)
        ensures
            r == if registered < 2 || points == 0 {
                (Score { registered: 0, points: 0, mean_error: None })
            } else {
                (Score { registered, points, mean_error })
            },
    {
        if registered < 2 || points == 0 {
            Score::failed()
        } else {
            Score { registered, points, mean_error }
        }
    }

    pub fn is_usable(&self) -> (r: bool)
        ensures
            r == self.usable(),
    {
        self.registered >= 2 && self.points > 0 && self.mean_error.is_some()
    }
}

/// One camera's candidate: a family, and the multiplier of its focal.
#[derive(Debug, Clone, Copy, PartialEq, Eq, Structural)]
pub struct Choice {
    /// Place of the family in [`families`].
    pub model: usize,
    /// Place of the multiplier in [`focal_scales`].
    pub scale: usize,
    /// Whether the focal was swept, i.e. whether this camera had too few
    /// images for bundle adjustment to move it.
    pub focal_swept: bool,
}

pub type Scored = (Choice, Score);

// ---------------------------------------------------------------------------
// Choosing a winner
// ---------------------------------------------------------------------------

/// Nine tenths of a count, rounded down: how much of the best candidate's
/// structure a candidate must keep. Mean error is an average over *surviving*
/// points, so the cheapest way to a small number is to triangulate almost
/// nothing.
pub open spec fn retained(points: int) -> int {
    points * 9 / 10
}

fn retain(points: usize) -> (r: usize)
    ensures
        r == retained(points as int),
{
    (points / 10) * 9 + (points % 10) * 9 / 10
}

/// No usable candidate registered more images.
pub open spec fn is_complete(s: Seq<Scored>, i: int) -> bool {
    &&& 0 <= i < s.len()
    &&& s[i].1.usable()
    &&& forall|j: int|
        0 <= j < s.len() && (#[trigger] s[j]).1.usable() ==> s[j].1.registered
            <= s[i].1.registered
}

/// Complete, and holding enough of the structure of every complete candidate.
pub open spec fn is_dense(s: Seq<Scored>, i: int) -> bool {
    &&& is_complete(s, i)
    &&& forall|j: int|
        #![trigger is_complete(s, j)]
        is_complete(s, j) ==> s[i].1.points >= retained(s[j].1.points as int)
}

/// Dense, and with an error not above `cutoff`.
pub open spec fn is_adequate(s: Seq<Scored>, cutoff: u64, i: int) -> bool {
    is_dense(s, i) && s[i].1.mean_error->0 <= cutoff
}

/// Parameters of a family: what makes it simpler than another.
pub open spec fn family_params(model: int) -> nat {
    if model == 0 {
        3
    } else if model == 1 || model == 2 {
        4
    } else if model == 3 {
        5
    } else if model == 4 {
        6
    } else {
        8
    }
}

/// The counts agree with what the named models take.
pub proof fn family_params_are_the_models(model: int)
    requires
        0 <= model < NUM_FAMILIES,
    ensures
        camera::param_count(camera::model_names()[model]) == Some(family_params(model)),
{
    camera::lemma_names_differ();
}

/// How many parameters a family takes.
pub fn num_params(model: usize) -> (r: usize)
    ensures
        r == family_params(model as int),
{
    if model == 0 {
        3
    } else if model == 1 || model == 2 {
        4
    } else if model == 3 {
        5
    } else if model == 4 {
        6
    } else {
        8
    }
}

/// `a` is a simpler family than `b`: fewer parameters, or as many and listed
/// earlier.
pub open spec fn simpler(a: int, b: int) -> bool {
    family_params(a) < family_params(b) || (family_params(a) == family_params(b) && a < b)
}

/// `w` is the simplest adequate candidate, the first of them where several
/// have one family.
pub open spec fn is_winner(s: Seq<Scored>, cutoff: u64, w: int) -> bool {
    &&& is_adequate(s, cutoff, w)
    &&& forall|i: int|
        #![trigger is_adequate(s, cutoff, i)]
        is_adequate(s, cutoff, i) ==> !simpler(s[i].0.model as int, s[w].0.model as int)
    &&& forall|i: int|
        #![trigger is_adequate(s, cutoff, i)]
        is_adequate(s, cutoff, i) && s[i].0.model == s[w].0.model ==> w <= i
}

/// The most images that a usable candidate registered.
fn most_registered(s: &Vec<Scored>) -> (r: Option<usize>)
    ensures
        match r {
            Some(m) => (exists|i: int|
                0 <= i < s@.len() && (#[trigger] s@[i]).1.usable() && s@[i].1.registered == m)
                && forall|i: int|
                0 <= i < s@.len() && (#[trigger] s@[i]).1.usable() ==> s@[i].1.registered <= m,
            None => forall|i: int| 0 <= i < s@.len() ==> !(#[trigger] s@[i]).1.usable(),
        },
{
    let mut best: Option<usize> = None;
    let mut i: usize = 0;
    while i < s.len()
        invariant
            i <= s.len(),
            match best {
                Some(m) => (exists|k: int|
                    0 <= k < i && (#[trigger] s@[k]).1.usable() && s@[k].1.registered == m)
                    && forall|k: int|
                    0 <= k < i && (#[trigger] s@[k]).1.usable() ==> s@[k].1.registered <= m,
                None => forall|k: int| 0 <= k < i ==> !(#[trigger] s@[k]).1.usable(),
            },
        decreases s.len() - i,
    {
        if s[i].1.is_usable() {
            let n: usize = s[i].1.registered;
            match best {
                Some(m) => {
                    if n > m {
                        assert(s@[i as int].1.registered == n);
                        best = Some(n);
                    }
                },
                None => {
                    assert(s@[i as int].1.registered == n);
                    best = Some(n);
                },
            }
        }
        i += 1;
    }
    best
}

/// For every candidate, whether it is dense.
fn dense_flags(s: &Vec<Scored>) -> (out: Vec<bool>)
    ensures
        out@.len() == s@.len(),
        forall|i: int| 0 <= i < s@.len() ==> #[trigger] out@[i] == is_dense(s@, i),
        (exists|i: int| 0 <= i < s@.len() && (#[trigger] s@[i]).1.usable()) ==> exists|i: int|
            is_dense(s@, i),
{
    let top = most_registered(s);
    let mut complete: Vec<bool> = Vec::new();
    let mut most_points: usize = 0;
    let ghost mut richest: int = -1;
    let mut i: usize = 0;
    while i < s.len()
        invariant
            i <= s.len(),
            complete@.len() == i,
            match top {
                Some(m) => (exists|k: int|
                    0 <= k < s@.len() && (#[trigger] s@[k]).1.usable() && s@[k].1.registered == m)
                    && forall|k: int|
                    0 <= k < s@.len() && (#[trigger] s@[k]).1.usable() ==> s@[k].1.registered <= m,
                None => forall|k: int| 0 <= k < s@.len() ==> !(#[trigger] s@[k]).1.usable(),
            },
            forall|k: int| 0 <= k < i ==> #[trigger] complete@[k] == is_complete(s@, k),
            forall|k: int| 0 <= k < i && is_complete(s@, k) ==> #[trigger] s@[k].1.points
                <= most_points,
            -1 <= richest < i,
            richest >= 0 ==> is_complete(s@, richest) && s@[richest].1.points == most_points,
            richest < 0 ==> most_points == 0 && forall|k: int|
                0 <= k < i ==> !#[trigger] is_complete(s@, k),
        decreases s.len() - i,
    {
        let full = match top {
            Some(m) => s[i].1.is_usable() && s[i].1.registered == m,
            None => false,
        };
        proof {
            if let Some(m) = top {
                let k = choose|k: int|
                    0 <= k < s@.len() && (#[trigger] s@[k]).1.usable() && s@[k].1.registered == m;
                assert(s@[k].1.usable());
                if s@[i as int].1.usable() && s@[i as int].1.registered == m {
                    assert(is_complete(s@, i as int));
                }
                if is_complete(s@, i as int) {
                    assert(s@[k].1.registered <= s@[i as int].1.registered);
                }
            }
            assert(full == is_complete(s@, i as int));
        }
        complete.push(full);
        if full && (s[i].1.points > most_points) {
            most_points = s[i].1.points;
            proof {
                richest = i as int;
            }
        } else {
            proof {
                if full && richest < 0 {
                    richest = i as int;
                }
            }
        }
        i += 1;
    }
    let floor: usize = retain(most_points);
    let mut out: Vec<bool> = Vec::new();
    let mut k: usize = 0;
    while k < s.len()
        invariant
            k <= s.len(),
            complete@.len() == s@.len(),
            out@.len() == k,
            floor == retained(most_points as int),
            forall|j: int| 0 <= j < s@.len() ==> #[trigger] complete@[j] == is_complete(s@, j),
            forall|j: int| 0 <= j < s@.len() && is_complete(s@, j) ==> #[trigger] s@[j].1.points
                <= most_points,
            -1 <= richest < s@.len(),
            richest >= 0 ==> is_complete(s@, richest) && s@[richest].1.points == most_points,
            richest < 0 ==> forall|j: int| 0 <= j < s@.len() ==> !#[trigger] is_complete(s@, j),
            forall|j: int| 0 <= j < k ==> #[trigger] out@[j] == is_dense(s@, j),
        decreases s.len() - k,
    {
        let d = complete[k] && s[k].1.points >= floor;
        proof {
            if is_complete(s@, k as int) {
                assert(richest >= 0);
                assert forall|j: int| #![trigger is_complete(s@, j)] is_complete(s@, j) && d implies s@[k as int].1.points
                    >= retained(s@[j].1.points as int) by {
                    assert(s@[j].1.points <= most_points);
                }
            }
            assert(d == is_dense(s@, k as int));
        }
        out.push(d);
        k += 1;
    }
    proof {
        if exists|i: int| 0 <= i < s@.len() && (#[trigger] s@[i]).1.usable() {
            let m = top->0;
            let j = choose|j: int|
                0 <= j < s@.len() && (#[trigger] s@[j]).1.usable() && s@[j].1.registered == m;
            assert(is_complete(s@, j));
            assert(richest >= 0);
            assert forall|q: int| #![trigger is_complete(s@, q)] is_complete(s@, q) implies s@[richest].1.points
                >= retained(s@[q].1.points as int) by {
                assert(s@[q].1.points <= most_points);
            }
            assert(is_dense(s@, richest));
        }
    }
    out
}

/// The lowest error among the dense candidates. The caller sets the cutoff of
/// [`pick`] a margin above it: error falls with parameter count on the data it
/// was fitted to, so "lowest error wins" would always pick the most complex
/// family offered.
pub fn best_error(s: &Vec<Scored>) -> (r: Option<u64>)
    ensures
        match r {
            Some(e) => (exists|i: int|
                #![trigger is_dense(s@, i)]
                is_dense(s@, i) && s@[i].1.mean_error == Some(e)) && forall|i: int|
                #![trigger is_dense(s@, i)]
                is_dense(s@, i) ==> e <= s@[i].1.mean_error->0,
            None => forall|i: int| 0 <= i < s@.len() ==> !(#[trigger] s@[i]).1.usable(),
        },
{
    let dense = dense_flags(s);
    let mut best: Option<u64> = None;
    let mut i: usize = 0;
    while i < s.len()
        invariant
            i <= s.len(),
            dense@.len() == s@.len(),
            forall|k: int| 0 <= k < s@.len() ==> #[trigger] dense@[k] == is_dense(s@, k),
            match best {
                Some(e) => (exists|k: int|
                    #![trigger is_dense(s@, k)]
                    0 <= k < i && is_dense(s@, k) && s@[k].1.mean_error == Some(e)) && forall|
                    k: int,
                |
                    #![trigger is_dense(s@, k)]
                    0 <= k < i && is_dense(s@, k) ==> e <= s@[k].1.mean_error->0,
                None => forall|k: int| 0 <= k < i ==> !#[trigger] is_dense(s@, k),
            },
        decreases s.len() - i,
    {
        if dense[i] {
            assert(is_dense(s@, i as int));
            if let Some(e) = s[i].1.mean_error {
                match best {
                    Some(b) => {
                        if e < b {
                            best = Some(e);
                        }
                    },
                    None => {
                        best = Some(e);
                    },
                }
            }
        }
        i += 1;
    }
    best
}

/// Picks the winner from a set of scored candidates.
///
/// Registering more images beats any error improvement - an unregistered image
/// is a hole in the result, not a slightly worse number - then comes keeping
/// the structure, and below that the simplest family within the cutoff wins.
pub fn pick(s: &Vec<Scored>, cutoff: u64) -> (r: Option<usize>)
    ensures
        match r {
            Some(w) => is_winner(s@, cutoff, w as int),
            None => forall|i: int| !#[trigger] is_adequate(s@, cutoff, i),
        },
{
    let dense = dense_flags(s);
    let mut best: Option<usize> = None;
    let mut i: usize = 0;
    while i < s.len()
        invariant
            i <= s.len(),
            dense@.len() == s@.len(),
            forall|k: int| 0 <= k < s@.len() ==> #[trigger] dense@[k] == is_dense(s@, k),
            match best {
                Some(w) => w < i && is_adequate(s@, cutoff, w as int) && (forall|k: int|
                    #![trigger is_adequate(s@, cutoff, k)]
                    0 <= k < i && is_adequate(s@, cutoff, k) ==> !simpler(
                        s@[k].0.model as int,
                        s@[w as int].0.model as int,
                    )) && (forall|k: int|
                    #![trigger is_adequate(s@, cutoff, k)]
                    0 <= k < i && is_adequate(s@, cutoff, k) && s@[k].0.model
                        == s@[w as int].0.model ==> w <= k),
                None => forall|k: int| 0 <= k < i ==> !#[trigger] is_adequate(s@, cutoff, k),
            },
        decreases s.len() - i,
    {
        let within = match s[i].1.mean_error {
            Some(e) => e <= cutoff,
            None => false,
        };
        assert(is_adequate(s@, cutoff, i as int) == (dense@[i as int] && within));
        if dense[i] && within {
            match best {
                Some(w) => {
                    let (a, b) = (s[i].0.model, s[w].0.model);
                    let (pa, pb) = (num_params(a), num_params(b));
                    if pa < pb || (pa == pb && a < b) {
                        best = Some(i);
                    }
                },
                None => {
                    best = Some(i);
                },
            }
        }
        i += 1;
    }
    assert(forall|k: int| is_adequate(s@, cutoff, k) ==> 0 <= k < s@.len());
    best
}

/// Whether `new` should displace `incumbent` as the running best.
pub open spec fn is_improvement(new: Score, incumbent: Score) -> bool {
    new.usable() && (!incumbent.usable() || (new.registered >= incumbent.registered && 10
        * new.points >= 9 * incumbent.points && new.mean_error->0 < incumbent.mean_error->0))
}

/// Whether `new` should displace `incumbent` as the running best. Same order
/// as [`pick`]: never register fewer images, never collapse the structure,
/// then reduce the error.
pub fn improves(new: &Score, incumbent: &Score) -> (r: bool)
    ensures
        r == is_improvement(*new, *incumbent),
{
    if !new.is_usable() {
        return false;
    }
    if !incumbent.is_usable() {
        return true;
    }
    let floor: u128 = 9 * (incumbent.points as u128);
    let lower = match (new.mean_error, incumbent.mean_error) {
        (Some(a), Some(b)) => a < b,
        _ => false,
    };
    new.registered >= incumbent.registered && 10 * (new.points as u128) >= floor && lower
}

/// The winner drops no image that another candidate registered, and collapses
/// no structure.
pub proof fn winners_are_complete(s: Seq<Scored>, cutoff: u64, w: int, i: int)
    requires
        is_winner(s, cutoff, w),
        0 <= i < s.len(),
        s[i].1.usable(),
    ensures
        s[w].1.usable(),
        s[w].1.registered >= s[i].1.registered,
        s[w].1.registered == s[i].1.registered ==> s[w].1.points >= retained(
            s[i].1.points as int,
        ),
        s[w].1.mean_error->0 <= cutoff,
{
    if s[w].1.registered == s[i].1.registered {
        assert(is_complete(s, i));
    }
}

/// A cutoff that one dense candidate meets always leaves a winner.
pub proof fn a_fair_cutoff_leaves_a_winner(s: Seq<Scored>, cutoff: u64, i: int)
    requires
        is_dense(s, i),
        s[i].1.mean_error->0 <= cutoff,
    ensures
        exists|w: int| #[trigger] is_winner(s, cutoff, w),
{
    assert(is_adequate(s, cutoff, i));
    lemma_best_among(s, cutoff, s.len());
    let w = choose|w: int| #[trigger] is_best_among(s, cutoff, w, s.len() as int);
    assert(is_winner(s, cutoff, w));
}

/// The adequate candidate that no adequate one among the first `n` beats.
spec fn is_best_among(s: Seq<Scored>, cutoff: u64, w: int, n: int) -> bool {
    &&& 0 <= w < n
    &&& is_adequate(s, cutoff, w)
    &&& forall|k: int|
        #![trigger is_adequate(s, cutoff, k)]
        0 <= k < n && is_adequate(s, cutoff, k) ==> !simpler(
            s[k].0.model as int,
            s[w].0.model as int,
        ) && (s[k].0.model == s[w].0.model ==> w <= k)
}

proof fn lemma_best_among(s: Seq<Scored>, cutoff: u64, n: nat)
    ensures
        (exists|w: int| #[trigger] is_best_among(s, cutoff, w, n as int)) || forall|k: int|
            0 <= k < n ==> !#[trigger] is_adequate(s, cutoff, k),
    decreases n,
{
    if n > 0 {
        let last = n - 1;
        lemma_best_among(s, cutoff, last as nat);
        if exists|w: int| #[trigger] is_best_among(s, cutoff, w, last) {
            let w = choose|w: int| #[trigger] is_best_among(s, cutoff, w, last);
            if is_adequate(s, cutoff, last) && simpler(
                s[last].0.model as int,
                s[w].0.model as int,
            ) {
                assert(is_best_among(s, cutoff, last, n as int));
            } else {
                assert(is_best_among(s, cutoff, w, n as int));
            }
        } else if is_adequate(s, cutoff, last) {
            assert(is_best_among(s, cutoff, last, n as int));
        }
    }
}

/// What displaces a usable incumbent has a lower error and registers no fewer
/// images, and is not displaced by it in turn.
pub proof fn improvements_reduce_the_error(a: Score, b: Score)
    requires
        is_improvement(a, b),
        b.usable(),
    ensures
        a.mean_error->0 < b.mean_error->0,
        a.registered >= b.registered,
        !is_improvement(b, a),
{
}

// ---------------------------------------------------------------------------
// Candidates
// ---------------------------------------------------------------------------

/// How many multipliers a camera is tried with.
pub open spec fn scales_for(sweep: bool) -> nat {
    if sweep {
        NUM_SCALES as nat
    } else {
        1
    }
}

pub open spec fn candidate(sweep: bool, i: int) -> Choice {
    let n = scales_for(sweep) as int;
    Choice {
        model: (i / n) as usize,
        scale: if sweep {
            (i % n) as usize
        } else {
            UNIT_SCALE
        },
        focal_swept: sweep,
    }
}

/// Every family, each with every multiplier to be tried.
pub open spec fn candidates(sweep: bool) -> Seq<Choice> {
    Seq::new(NUM_FAMILIES as nat * scales_for(sweep), |i: int| candidate(sweep, i))
}

/// The candidates of one camera.
pub fn candidates_for(sweep: bool) -> (out: Vec<Choice>)
    ensures
        out@ == candidates(sweep),
{
    let n: usize = if sweep {
        NUM_SCALES
    } else {
        1
    };
    let mut out: Vec<Choice> = Vec::new();
    let mut i: usize = 0;
    while i < NUM_FAMILIES * n
        invariant
            n == scales_for(sweep),
            1 <= n <= 6,
            i <= NUM_FAMILIES * n,
            out@ == candidates(sweep).take(i as int),
        decreases NUM_FAMILIES * n - i,
    {
        out.push(
            Choice {
                model: i / n,
                scale: if sweep {
                    i % n
                } else {
                    UNIT_SCALE
                },
                focal_swept: sweep,
            },
        );
        i += 1;
        assert(out@ =~= candidates(sweep).take(i as int));
    }
    assert(out@ =~= candidates(sweep));
    out
}

/// Every combination of family and multiplier is a candidate.
pub proof fn candidates_are_complete(sweep: bool, model: usize, scale: usize)
    requires
        model < NUM_FAMILIES,
        if sweep {
            scale < NUM_SCALES
        } else {
            scale == UNIT_SCALE
        },
    ensures
        candidates(sweep).contains(Choice { model, scale, focal_swept: sweep }),
{
    let n = scales_for(sweep) as int;
    let i = model * n + if sweep {
        scale as int
    } else {
        0
    };
    assert(i / n == model && (sweep ==> i % n == scale) && 0 <= i < NUM_FAMILIES * n)
        by (nonlinear_arith)
        requires
            i == model * n + if sweep {
                scale as int
            } else {
                0
            },
            n == if sweep {
                6int
            } else {
                1int
            },
            model < 7,
            sweep ==> scale < 6,
    ;
    assert(candidates(sweep)[i] == (Choice { model, scale, focal_swept: sweep }));
}

/// How many of the first `n` images belong to `camera`.
pub open spec fn image_count(image_cameras: Seq<u32>, camera: u32, n: nat) -> nat
    decreases n,
{
    if n == 0 {
        0
    } else {
        image_count(image_cameras, camera, (n - 1) as nat) + if image_cameras[n - 1] == camera {
            1nat
        } else {
            0nat
        }
    }
}

/// How many images each camera has.
pub fn images_per_camera(cameras: &Vec<u32>, image_cameras: &Vec<u32>) -> (out: Vec<usize>)
    ensures
        out@.len() == cameras@.len(),
        forall|k: int|
            0 <= k < cameras@.len() ==> #[trigger] out@[k] == image_count(
                image_cameras@,
                cameras@[k],
                image_cameras@.len(),
            ),
{
    let mut out: Vec<usize> = Vec::new();
    let mut k: usize = 0;
    while k < cameras.len()
        invariant
            k <= cameras.len(),
            out@.len() == k,
            forall|j: int|
                0 <= j < k ==> #[trigger] out@[j] == image_count(
                    image_cameras@,
                    cameras@[j],
                    image_cameras@.len(),
                ),
        decreases cameras.len() - k,
    {
        let mut n: usize = 0;
        let mut i: usize = 0;
        while i < image_cameras.len()
            invariant
                k < cameras.len(),
                i <= image_cameras.len(),
                n <= i,
                n == image_count(image_cameras@, cameras@[k as int], i as nat),
            decreases image_cameras.len() - i,
        {
            if image_cameras[i] == cameras[k] {
                n += 1;
            }
            i += 1;
        }
        out.push(n);
        k += 1;
    }
    out
}

// ---------------------------------------------------------------------------
// The search
// ---------------------------------------------------------------------------

/// One row of the search, kept for reporting so the user can see what was
/// tried rather than only what was chosen.
#[derive(Debug, Clone, Copy, PartialEq, Eq, Structural)]
pub struct Tried {
    /// Nothing for the uniform pass, which assigns every camera the same
    /// family.
    pub camera: Option<usize>,
    pub choice: Choice,
    pub score: Score,
}

/// A search in progress. Cameras are numbered as the caller lists them.
pub struct Search {
    /// Which cameras have too few images for their focal to be refined.
    pub sweep: Vec<bool>,
    pub assignment: Vec<Option<Choice>>,
    pub best: Score,
    pub tried: Vec<Tried>,
}

/// Every camera with the candidate's family and multiplier. The caller scales
/// each camera's *own* focal, so cameras that started at different focals stay
/// at different focals.
pub open spec fn uniformly(sweep: Seq<bool>, c: Choice) -> Seq<Option<Choice>> {
    sweep.map_values(
        |s: bool| Some(Choice { model: c.model, scale: c.scale, focal_swept: s }),
    )
}

pub open spec fn rows(camera: Option<usize>, s: Seq<Scored>) -> Seq<Tried> {
    s.map_values(|x: Scored| Tried { camera, choice: x.0, score: x.1 })
}

/// Whether some camera's focal is swept.
pub open spec fn some_swept(sweep: Seq<bool>) -> bool {
    exists|k: int| 0 <= k < sweep.len() && #[trigger] sweep[k]
}

impl Search {
    pub open spec fn wf(&self) -> bool {
        self.assignment@.len() == self.sweep@.len()
    }

    /// Begins a search over cameras with the given numbers of images. A camera
    /// with fewer than `min_images` cannot have its focal refined by bundle
    /// adjustment, so the search has to supply it.
    pub fn begin(images: &Vec<usize>, min_images: usize) -> (r: Search)
        ensures
            r.wf(),
            r.sweep@ == images@.map_values(|n: usize| n < min_images),
            forall|k: int| 0 <= k < images@.len() ==> #[trigger] r.assignment@[k] is None,
            r.best == (Score { registered: 0, points: 0, mean_error: None }),
            r.tried@ == Seq::<Tried>::empty(),
    {
        let mut sweep: Vec<bool> = Vec::new();
        let mut assignment: Vec<Option<Choice>> = Vec::new();
        let mut k: usize = 0;
        while k < images.len()
            invariant
                k <= images.len(),
                sweep@ == images@.take(k as int).map_values(|n: usize| n < min_images),
                assignment@.len() == k,
                forall|j: int| 0 <= j < k ==> #[trigger] assignment@[j] is None,
            decreases images.len() - k,
        {
            sweep.push(images[k] < min_images);
            assignment.push(None);
            k += 1;
            assert(sweep@ =~= images@.take(k as int).map_values(|n: usize| n < min_images));
        }
        assert(images@.take(images@.len() as int) =~= images@);
        Search { sweep, assignment, best: Score::failed(), tried: Vec::new() }
    }

    /// Whether the first pass sweeps the focal.
    pub fn any_swept(&self) -> (r: bool)
        ensures
            r == some_swept(self.sweep@),
    {
        let mut k: usize = 0;
        while k < self.sweep.len()
            invariant
                k <= self.sweep.len(),
                forall|j: int| 0 <= j < k ==> !#[trigger] self.sweep@[j],
            decreases self.sweep.len() - k,
        {
            if self.sweep[k] {
                assert(self.sweep@[k as int]);
                return true;
            }
            k += 1;
        }
        false
    }

    /// How many rebuilds the search announces: one uniform pass and one pass
    /// per camera.
    pub fn total(&self) -> (r: usize)
        requires
            candidates(some_swept(self.sweep@)).len() * (1 + self.sweep@.len()) <= usize::MAX,
        ensures
            r == candidates(some_swept(self.sweep@)).len() * (1 + self.sweep@.len()),
    {
        let per: usize = candidates_for(self.any_swept()).len();
        assert(per * self.sweep@.len() <= usize::MAX && per + per * self.sweep@.len() == per * (1
            + self.sweep@.len())) by (nonlinear_arith)
            requires
                per * (1 + self.sweep@.len()) <= usize::MAX,
        ;
        per + per * self.sweep.len()
    }

    /// What the first pass tries.
    pub fn uniform_candidates(&self) -> (out: Vec<Choice>)
        ensures
            out@ == candidates(some_swept(self.sweep@)),
    {
        candidates_for(self.any_swept())
    }

    /// The assignment to rebuild with for one candidate of the first pass.
    pub fn uniform_assignment(&self, c: Choice) -> (out: Vec<Option<Choice>>)
        ensures
            out@ == uniformly(self.sweep@, c),
    {
        let mut out: Vec<Option<Choice>> = Vec::new();
        let mut k: usize = 0;
        while k < self.sweep.len()
            invariant
                k <= self.sweep.len(),
                out@ == uniformly(self.sweep@.take(k as int), c),
            decreases self.sweep.len() - k,
        {
            out.push(
                Some(Choice { model: c.model, scale: c.scale, focal_swept: self.sweep[k] }),
            );
            k += 1;
            assert(out@ =~= uniformly(self.sweep@.take(k as int), c));
        }
        assert(self.sweep@.take(self.sweep@.len() as int) =~= self.sweep@);
        out
    }

    fn record(&mut self, camera: Option<usize>, s: &Vec<Scored>)
        ensures
            final(self).tried@ == old(self).tried@ + rows(camera, s@),
            final(self).sweep == old(self).sweep,
            final(self).assignment == old(self).assignment,
            final(self).best == old(self).best,
    {
        let mut i: usize = 0;
        let ghost start = self.tried@;
        assert(self.tried@ =~= start + rows(camera, s@.take(0)));
        while i < s.len()
            invariant
                i <= s.len(),
                self.tried@ == start + rows(camera, s@.take(i as int)),
                self.sweep == old(self).sweep,
                self.assignment == old(self).assignment,
                self.best == old(self).best,
            decreases s.len() - i,
        {
            let (choice, score) = s[i];
            self.tried.push(Tried { camera, choice, score });
            i += 1;
            assert(self.tried@ =~= start + rows(camera, s@.take(i as int)));
        }
        assert(s@.take(s@.len() as int) =~= s@);
    }

    /// Takes the scores of the first pass: every camera gets the winner, which
    /// finds the right answer outright on a single-lens dataset and gives the
    /// second pass a sane starting point on a mixed rig.
    pub fn take_uniform(&mut self, s: &Vec<Scored>, cutoff: u64)
        requires
            old(self).wf(),
        ensures
            final(self).wf(),
            final(self).sweep == old(self).sweep,
            final(self).tried@ == old(self).tried@ + rows(None, s@),
            (exists|w: int| is_winner(s@, cutoff, w)) ==> exists|w: int|
                #![trigger is_winner(s@, cutoff, w)]
                is_winner(s@, cutoff, w) && final(self).assignment@ == uniformly(
                    old(self).sweep@,
                    s@[w].0,
                ) && final(self).best == s@[w].1,
            (forall|w: int| !is_winner(s@, cutoff, w)) ==> final(self).assignment
                == old(self).assignment && final(self).best == old(self).best,
    {
        self.record(None, s);
        match pick(s, cutoff) {
            Some(w) => {
                let a = self.uniform_assignment(s[w].0);
                self.assignment = a;
                self.best = s[w].1;
                assert(is_winner(s@, cutoff, w as int));
                assert(self.assignment@.len() == self.sweep@.len());
            },
            None => {
                assert forall|w: int| !is_winner(s@, cutoff, w) by {
                    assert(!is_adequate(s@, cutoff, w));
                }
            },
        }
    }

    /// What the second pass tries for camera `k`.
    pub fn camera_candidates(&self, k: usize) -> (out: Vec<Choice>)
        requires
            k < self.sweep@.len(),
        ensures
            out@ == candidates(self.sweep@[k as int]),
    {
        candidates_for(self.sweep[k])
    }

    /// The assignment to rebuild with for one candidate of camera `k`:
    /// everything else held at the incumbent.
    pub fn trial_assignment(&self, k: usize, c: Choice) -> (out: Vec<Option<Choice>>)
        requires
            self.wf(),
            k < self.sweep@.len(),
        ensures
            out@ == self.assignment@.update(k as int, Some(c)),
    {
        let mut out: Vec<Option<Choice>> = Vec::new();
        let mut i: usize = 0;
        while i < self.assignment.len()
            invariant
                i <= self.assignment.len(),
                k < self.assignment@.len(),
                out@ == self.assignment@.update(k as int, Some(c)).take(i as int),
            decreases self.assignment.len() - i,
        {
            out.push(
                if i == k {
                    Some(c)
                } else {
                    self.assignment[i]
                },
            );
            i += 1;
            assert(out@ =~= self.assignment@.update(k as int, Some(c)).take(i as int));
        }
        assert(out@ =~= self.assignment@.update(k as int, Some(c)));
        out
    }

    /// Takes the scores of camera `k`: its winner stays if it improves on the
    /// best so far. This is what separates a mixed rig, which no uniform
    /// assignment can express.
    pub fn take_camera(&mut self, k: usize, s: &Vec<Scored>, cutoff: u64)
        requires
            old(self).wf(),
            k < old(self).sweep@.len(),
        ensures
            final(self).wf(),
            final(self).sweep == old(self).sweep,
            final(self).tried@ == old(self).tried@ + rows(Some(k), s@),
            (exists|w: int|
                #![trigger is_winner(s@, cutoff, w)]
                is_winner(s@, cutoff, w) && is_improvement(s@[w].1, old(self).best)) ==> exists|
                w: int,
            |
                #![trigger is_winner(s@, cutoff, w)]
                is_winner(s@, cutoff, w) && is_improvement(s@[w].1, old(self).best) && final(self).assignment@ == old(self).assignment@.update(k as int, Some(s@[w].0)) && final(self).best == s@[w].1,
            (forall|w: int|
                #![trigger is_winner(s@, cutoff, w)]
                is_winner(s@, cutoff, w) ==> !is_improvement(s@[w].1, old(self).best)) ==> final(self).assignment == old(self).assignment && final(self).best == old(self).best,
    {
        self.record(Some(k), s);
        match pick(s, cutoff) {
            Some(w) => {
                assert(is_winner(s@, cutoff, w as int));
                assert forall|v: int| is_winner(s@, cutoff, v) implies v == w by {
                    winner_is_unique(s@, cutoff, v, w as int);
                }
                if improves(&s[w].1, &self.best) {
                    self.assignment.set(k, Some(s[w].0));
                    self.best = s[w].1;
                }
            },
            None => {
                assert forall|w: int| !is_winner(s@, cutoff, w) by {
                    assert(!is_adequate(s@, cutoff, w));
                }
            },
        }
    }
}

/// A set of scored candidates has at most one winner.
pub proof fn winner_is_unique(s: Seq<Scored>, cutoff: u64, a: int, b: int)
    requires
        is_winner(s, cutoff, a),
        is_winner(s, cutoff, b),
    ensures
        a == b,
{
    assert(is_adequate(s, cutoff, a));
    assert(is_adequate(s, cutoff, b));
}

// ---------------------------------------------------------------------------
// Reporting
// ---------------------------------------------------------------------------

/// `a` is a lower error than `b`; an error that is not finite is above all.
pub open spec fn lower_error(a: Option<u64>, b: Option<u64>) -> bool {
    match (a, b) {
        (Some(x), Some(y)) => x < y,
        (Some(_), None) => true,
        _ => false,
    }
}

/// The row is one of camera `k` with the given family.
pub open spec fn is_row(t: Tried, k: usize, family: usize) -> bool {
    t.camera == Some(k) && t.choice.model == family
}

/// The best row of one camera and family: the family is the question, the
/// focal is a nuisance parameter.
pub fn best_of_family(tried: &Vec<Tried>, k: usize, family: usize) -> (r: Option<usize>)
    ensures
        match r {
            Some(b) => b < tried@.len() && is_row(tried@[b as int], k, family) && (forall|i: int|
                0 <= i < tried@.len() && is_row(#[trigger] tried@[i], k, family)
                    ==> !lower_error(
                    tried@[i].score.mean_error,
                    tried@[b as int].score.mean_error,
                )) && (forall|i: int|
                0 <= i < b && is_row(#[trigger] tried@[i], k, family) ==> lower_error(
                    tried@[b as int].score.mean_error,
                    tried@[i].score.mean_error,
                )),
            None => forall|i: int|
                0 <= i < tried@.len() ==> !is_row(#[trigger] tried@[i], k, family),
        },
{
    let mut best: Option<usize> = None;
    let mut i: usize = 0;
    while i < tried.len()
        invariant
            i <= tried.len(),
            match best {
                Some(b) => b < i && is_row(tried@[b as int], k, family) && (forall|j: int|
                    0 <= j < i && is_row(#[trigger] tried@[j], k, family) ==> !lower_error(
                        tried@[j].score.mean_error,
                        tried@[b as int].score.mean_error,
                    )) && (forall|j: int|
                    0 <= j < b && is_row(#[trigger] tried@[j], k, family) ==> lower_error(
                        tried@[b as int].score.mean_error,
                        tried@[j].score.mean_error,
                    )),
                None => forall|j: int| 0 <= j < i ==> !is_row(#[trigger] tried@[j], k, family),
            },
        decreases tried.len() - i,
    {
        let t = tried[i];
        let mine = match t.camera {
            Some(c) => c == k && t.choice.model == family,
            None => false,
        };
        if mine {
            match best {
                Some(b) => {
                    let lower = match (t.score.mean_error, tried[b].score.mean_error) {
                        (Some(x), Some(y)) => x < y,
                        (Some(_), None) => true,
                        _ => false,
                    };
                    if lower {
                        best = Some(i);
                    }
                },
                None => {
                    best = Some(i);
                },
            }
        }
        i += 1;
    }
    best
}

/// One camera of a recommended assignment, with what the configuration says of
/// it.
pub struct CameraEntry {
    pub id: u32,
    /// The glob that selects its images, where the configuration has one.
    pub glob: Option<String>,
    pub model: String,
    pub focal_swept: bool,
    /// The focal, written with one decimal.
    pub focal: String,
}

pub open spec fn entry_toml(e: CameraEntry, pin_focal: bool) -> Seq<char> {
    "[[cameras]]\nname = \"cam"@ + text::decimal(e.id as nat) + "\"\nimages = "@
        + text::debug_form(
        match e.glob {
            Some(g) => g@,
            None => "*cam"@ + text::padded(e.id as nat, 3) + "*"@,
        },
    ) + "\nmodel = "@ + text::debug_form(e.model@) + "\n"@ + (if pin_focal && e.focal_swept {
        "# focal from the model search, not calibrated\nparams = ["@ + e.focal@
            + ", 0.0, 0.0]  # f, cx, cy - fill in the principal point\n"@
    } else {
        Seq::empty()
    }) + "\n"@
}

pub open spec fn entries_toml(e: Seq<CameraEntry>, pin_focal: bool, n: nat) -> Seq<char>
    decreases n,
{
    if n == 0 {
        Seq::empty()
    } else {
        entries_toml(e, pin_focal, (n - 1) as nat) + entry_toml(e[n - 1], pin_focal)
    }
}

/// The `[[cameras]]` blocks that reproduce an assignment, ready to paste into
/// `sfm.toml`. The focal is only worth writing where the search had to supply
/// it: a camera with enough images refines its own, and pinning a swept value
/// there would freeze a coarse guess over a fitted one.
pub fn as_camera_toml(entries: &Vec<CameraEntry>, pin_focal: bool) -> (out: String)
    ensures
        out@ == entries_toml(entries@, pin_focal, entries@.len()),
{
    let mut out = String::new();
    let mut i: usize = 0;
    while i < entries.len()
        invariant
            i <= entries.len(),
            out@ == entries_toml(entries@, pin_focal, i as nat),
        decreases entries.len() - i,
    {
        let e = &entries[i];
        let ghost before = out@;
        let mut s = String::from_str("[[cameras]]\nname = \"cam");
        s.append(decimal_string(e.id as u64).as_str());
        s.append("\"\nimages = ");
        let glob = match &e.glob {
            Some(g) => quoted(g.as_str()),
            None => {
                let mut g = String::from_str("*cam");
                g.append(padded_string(e.id as u64, 3).as_str());
                g.append("*");
                quoted(g.as_str())
            },
        };
        s.append(glob.as_str());
        s.append("\nmodel = ");
        s.append(quoted(e.model.as_str()).as_str());
        s.append("\n");
        if pin_focal && e.focal_swept {
            let mut p = String::from_str("# focal from the model search, not calibrated\nparams = [");
            p.append(e.focal.as_str());
            p.append(", 0.0, 0.0]  # f, cx, cy - fill in the principal point\n");
            s.append(p.as_str());
        }
        s.append("\n");
        assert(s@ =~= entry_toml(*e, pin_focal));
        out.append(s.as_str());
        i += 1;
    }
    out
}

/// The camera of the first of the `n` first images that a pattern matches.
pub open spec fn first_claimed(images: Seq<ImageRow>, pattern: Seq<char>, n: nat) -> Option<u32>
    decreases n,
{
    if n == 0 {
        None
    } else {
        match first_claimed(images, pattern, (n - 1) as nat) {
            Some(id) => Some(id),
            None => if project::matches_glob(pattern, images[n - 1].name@) {
                Some(images[n - 1].camera_id)
            } else {
                None
            },
        }
    }
}

fn claim(images: &Vec<ImageRow>, pattern: &str) -> (r: Option<u32>)
    ensures
        r == first_claimed(images@, pattern@, images@.len()),
{
    let mut found: Option<u32> = None;
    let mut i: usize = 0;
    while i < images.len()
        invariant
            i <= images@.len(),
            found == first_claimed(images@, pattern@, i as nat),
        decreases images@.len() - i,
    {
        if found.is_none() && glob_match(pattern, images[i].name.as_str()) {
            found = Some(images[i].camera_id);
        }
        i += 1;
    }
    found
}

/// The last of the `n` first patterns whose first image is of this camera.
pub open spec fn last_glob(globs: Seq<String>, images: Seq<ImageRow>, id: u32, n: nat) -> Option<int>
    decreases n,
{
    if n == 0 {
        None
    } else if first_claimed(images, globs[n - 1]@, images.len()) == Some(id) {
        Some(n - 1)
    } else {
        last_glob(globs, images, id, (n - 1) as nat)
    }
}

/// The declared pattern that already stands for a camera, by its place.
pub fn declared_glob(globs: &Vec<String>, images: &Vec<ImageRow>, id: u32) -> (r: Option<usize>)
    ensures
        match r {
            Some(i) => i < globs@.len() && last_glob(globs@, images@, id, globs@.len()) == Some(
                i as int,
            ),
            None => last_glob(globs@, images@, id, globs@.len()) is None,
        },
{
    let mut n: usize = globs.len();
    while n > 0
        invariant
            n <= globs@.len(),
            last_glob(globs@, images@, id, globs@.len()) == last_glob(
                globs@,
                images@,
                id,
                n as nat,
            ),
        decreases n,
    {
        if claim(images, globs[n - 1].as_str()) == Some(id) {
            return Some(n - 1);
        }
        n -= 1;
    }
    None
}

/// The configuration with the chosen cameras added, unless it declares cameras
/// already.
pub fn rebuilt_config(existing: &str, cameras: &str) -> (r: Option<String>)
    ensures
        match r {
            Some(out) => !text::occurs(existing@, "[[cameras]]"@) && out@ == existing@ + "\n"@
                + cameras@,
            None => text::occurs(existing@, "[[cameras]]"@),
        },
{
    if contains_text(existing, "[[cameras]]") {
        return None;
    }
    let mut out = String::from_str(existing);
    out.append("\n");
    out.append(cameras);
    Some(out)
}

// ---------------------------------------------------------------------------
// What is said of a search
// ---------------------------------------------------------------------------

/// How many of the first `n` cameras have images, but fewer than needed.
pub open spec fn short_of_images(counts: Seq<usize>, need: usize, n: nat) -> nat
    decreases n,
{
    if n == 0 {
        0
    } else {
        short_of_images(counts, need, (n - 1) as nat) + if 0 < counts[n - 1] < need {
            1nat
        } else {
            0nat
        }
    }
}

/// Why the focal is swept, where it is for some camera.
pub open spec fn sweep_text(counts: Seq<usize>, need: usize) -> Seq<Seq<char>> {
    let few = short_of_images(counts, need, counts.len());
    if few == 0 {
        Seq::empty()
    } else {
        seq![
            "  "@ + text::decimal(few) + " camera(s) have fewer than "@ + text::decimal(
                need as nat,
            ) + " images, so bundle adjustment cannot move"@,
            "  their focal; the search sweeps it instead. Each family needs its own focal -"@,
            "  a fisheye's is roughly a third of a rectilinear lens's for the same view -"@,
            "  so without this the comparison would be decided by the focal, not the model."@,
        ]
    }
}

/// Says why the focal is swept; nothing where it is not.
pub fn sweep_note(counts: &Vec<usize>, need: usize) -> (out: Vec<String>)
    ensures
        order::texts(out@) == sweep_text(counts@, need),
{
    let mut few: usize = 0;
    let mut i: usize = 0;
    while i < counts.len()
        invariant
            i <= counts@.len(),
            few <= i,
            few == short_of_images(counts@, need, i as nat),
        decreases counts@.len() - i,
    {
        if 0 < counts[i] && counts[i] < need {
            few += 1;
        }
        i += 1;
    }
    let mut out: Vec<String> = Vec::new();
    if few > 0 {
        let mut head = String::from_str("  ");
        head.append(decimal_string(few as u64).as_str());
        head.append(" camera(s) have fewer than ");
        head.append(decimal_string(need as u64).as_str());
        head.append(" images, so bundle adjustment cannot move");
        push_text(&mut out, head);
        push_text(
            &mut out,
            String::from_str(
                "  their focal; the search sweeps it instead. Each family needs its own focal -",
            ),
        );
        push_text(
            &mut out,
            String::from_str(
                "  a fisheye's is roughly a third of a rectilinear lens's for the same view -",
            ),
        );
        push_text(
            &mut out,
            String::from_str(
                "  so without this the comparison would be decided by the focal, not the model.",
            ),
        );
    }
    assert(order::texts(out@) =~= sweep_text(counts@, need));
    out
}

/// Why the winner is not always the family with the lowest error.
pub open spec fn parsimony_text(percent: Seq<char>) -> Seq<Seq<char>> {
    seq![
        "A more complex family had to beat a simpler one by "@ + percent
            + "% to be preferred; reprojection"@,
        "error always falls with parameter count, so lowest-error-wins would pick the most"@,
        "complex model offered every time."@,
    ]
}

/// Says why the lowest error does not always win; `percent` is the margin as
/// it is shown.
pub fn parsimony_note(percent: &str) -> (out: Vec<String>)
    ensures
        order::texts(out@) == parsimony_text(percent@),
{
    let mut out: Vec<String> = Vec::new();
    let mut head = String::from_str("A more complex family had to beat a simpler one by ");
    head.append(percent);
    head.append("% to be preferred; reprojection");
    push_text(&mut out, head);
    push_text(
        &mut out,
        String::from_str(
            "error always falls with parameter count, so lowest-error-wins would pick the most",
        ),
    );
    push_text(&mut out, String::from_str("complex model offered every time."));
    assert(order::texts(out@) =~= parsimony_text(percent@));
    out
}

/// What is said before anything is rebuilt.
pub fn rebuilding_note(images: usize, cameras: usize) -> (r: String)
    ensures
        r@ == "Rebuilding to compare camera models: "@ + text::decimal(images as nat)
            + " image(s), "@ + text::decimal(cameras as nat) + " camera(s)."@,
{
    let mut s = String::from_str("Rebuilding to compare camera models: ");
    s.append(decimal_string(images as u64).as_str());
    s.append(" image(s), ");
    s.append(decimal_string(cameras as u64).as_str());
    s.append(" camera(s).");
    s
}

/// What is said where there is nothing to compare with.
pub fn no_baseline_note() -> (r: &'static str)
    ensures
        r@
            == "The reconstruction as currently configured does not build, so there is no\nbaseline to compare against. Fix `map` first."@,
{
    "The reconstruction as currently configured does not build, so there is no\nbaseline to compare against. Fix `map` first."
}

/// A candidate keeps the structure of another where it has nine points for
/// each ten of it, up to less than one point.
pub proof fn nine_tenths_are_retained(points: int)
    requires
        points >= 0,
    ensures
        10 * retained(points) <= 9 * points < 10 * (retained(points) + 1),
{
}

/// No family with fewer parameters than the winner's would have done: a
/// candidate that registers every image that any does, keeps nine tenths of
/// the structure and has an error within the cutoff takes at least as many.
pub proof fn no_simpler_family_would_do(s: Seq<Scored>, cutoff: u64, w: int, i: int)
    requires
        is_winner(s, cutoff, w),
        0 <= i < s.len(),
        s[i].1.registered >= 2,
        s[i].1.points > 0,
        s[i].1.mean_error matches Some(e) && e <= cutoff,
        forall|j: int|
            0 <= j < s.len() && (#[trigger] s[j]).1.usable() ==> s[j].1.registered
                <= s[i].1.registered && 9 * s[j].1.points <= 10 * s[i].1.points,
        0 <= s[i].0.model < NUM_FAMILIES,
        0 <= s[w].0.model < NUM_FAMILIES,
    ensures
        camera::param_count(camera::model_names()[s[w].0.model as int])->0 <= camera::param_count(
            camera::model_names()[s[i].0.model as int],
        )->0,
{
    assert(is_complete(s, i));
    assert forall|j: int| #[trigger] is_complete(s, j) implies s[i].1.points >= retained(
        s[j].1.points as int,
    ) by {
        nine_tenths_are_retained(s[j].1.points as int);
    }
    assert(is_dense(s, i));
    assert(is_adequate(s, cutoff, i));
    family_params_are_the_models(s[i].0.model as int);
    family_params_are_the_models(s[w].0.model as int);
}

/// Every candidate is of one of the families and at one of the multipliers,
/// and no two are the same.
pub proof fn candidates_are_all_different(sweep: bool, i: int, j: int)
    requires
        0 <= i < candidates(sweep).len(),
        0 <= j < candidates(sweep).len(),
    ensures
        candidates(sweep)[i].model < NUM_FAMILIES,
        candidates(sweep)[i].scale < NUM_SCALES,
        !sweep ==> candidates(sweep)[i].scale == UNIT_SCALE,
        candidates(sweep)[i].focal_swept == sweep,
        candidates(sweep)[i] == candidates(sweep)[j] ==> i == j,
        i < j ==> candidates(sweep)[i].model <= candidates(sweep)[j].model,
{
}

/// The images of a camera are counted.
pub proof fn images_of_a_camera_are_counted(image_cameras: Seq<u32>, camera: u32, n: nat)
    requires
        n <= image_cameras.len(),
    ensures
        image_count(image_cameras, camera, n) == sets::how_many(
            image_cameras,
            sets::is_key(camera),
            n,
        ),
    decreases n,
{
    sets::lemma_none_of_none(image_cameras, sets::is_key(camera));
    if n > 0 {
        images_of_a_camera_are_counted(image_cameras, camera, (n - 1) as nat);
        sets::lemma_one_more(image_cameras, sets::is_key(camera), (n - 1) as nat);
    }
}

/// In the first pass every camera has the one family and the one multiplier;
/// whether its focal is swept stays its own.
pub proof fn the_first_pass_is_uniform(sweep: Seq<bool>, c: Choice, k: int)
    requires
        0 <= k < sweep.len(),
    ensures
        uniformly(sweep, c).len() == sweep.len(),
        uniformly(sweep, c)[k] matches Some(x) && x.model == c.model && x.scale == c.scale
            && x.focal_swept == sweep[k],
{
}

/// Every score is recorded for its camera, with the candidate that it is of.
pub proof fn every_candidate_is_recorded(camera: Option<usize>, s: Seq<Scored>, i: int)
    requires
        0 <= i < s.len(),
    ensures
        rows(camera, s).len() == s.len(),
        rows(camera, s)[i].camera == camera,
        rows(camera, s)[i].choice == s[i].0,
        rows(camera, s)[i].score == s[i].1,
{
}

/// Errors are ordered by size, with those that are not finite above all.
pub proof fn errors_are_ordered_by_size(a: Option<u64>, b: Option<u64>)
    ensures
        lower_error(a, b) ==> a is Some && !lower_error(b, a),
        a is Some && b is Some ==> (lower_error(a, b) <==> a->0 < b->0),
        a is Some && b is None ==> lower_error(a, b),
{
}

/// A pattern stands for the camera of the first image that it matches.
pub proof fn patterns_stand_for_their_first_image(
    images: Seq<ImageRow>,
    pattern: Seq<char>,
    n: nat,
)
    requires
        n <= images.len(),
    ensures
        match first_claimed(images, pattern, n) {
            Some(id) => exists|i: int|
                0 <= i < n && (#[trigger] images[i]).camera_id == id && project::matches_glob(
                    pattern,
                    images[i].name@,
                ) && forall|j: int|
                    0 <= j < i ==> !project::matches_glob(pattern, (#[trigger] images[j]).name@),
            None => forall|j: int|
                0 <= j < n ==> !project::matches_glob(pattern, (#[trigger] images[j]).name@),
        },
    decreases n,
{
    if n > 0 {
        patterns_stand_for_their_first_image(images, pattern, (n - 1) as nat);
        if first_claimed(images, pattern, (n - 1) as nat) is None && project::matches_glob(
            pattern,
            images[n - 1].name@,
        ) {
            assert(images[n - 1].camera_id == first_claimed(images, pattern, n)->0);
        }
    }
}

/// Of the patterns that stand for a camera the last is the one it is declared
/// with.
pub proof fn the_last_pattern_declares(
    globs: Seq<String>,
    images: Seq<ImageRow>,
    id: u32,
    n: nat,
)
    requires
        n <= globs.len(),
    ensures
        match last_glob(globs, images, id, n) {
            Some(i) => 0 <= i < n && first_claimed(images, globs[i]@, images.len()) == Some(id)
                && forall|j: int|
                i < j < n ==> first_claimed(images, (#[trigger] globs[j])@, images.len()) != Some(
                    id,
                ),
            None => forall|j: int|
                0 <= j < n ==> first_claimed(images, (#[trigger] globs[j])@, images.len()) != Some(
                    id,
                ),
        },
    decreases n,
{
    if n > 0 {
        the_last_pattern_declares(globs, images, id, (n - 1) as nat);
    }
}

/// Having images, but fewer than needed.
pub open spec fn has_too_few(need: usize) -> spec_fn(usize) -> bool {
    |n: usize| 1 <= n && n < need
}

/// The cameras with images, but with too few, are counted.
pub proof fn cameras_short_of_images_are_counted(counts: Seq<usize>, need: usize, n: nat)
    requires
        n <= counts.len(),
    ensures
        short_of_images(counts, need, n) == sets::how_many(counts, has_too_few(need), n),
    decreases n,
{
    sets::lemma_none_of_none(counts, has_too_few(need));
    if n > 0 {
        cameras_short_of_images_are_counted(counts, need, (n - 1) as nat);
        sets::lemma_one_more(counts, has_too_few(need), (n - 1) as nat);
    }
}

/// Every camera's block is in the written configuration, behind those of the
/// cameras in front of it.
pub proof fn every_camera_is_written(e: Seq<CameraEntry>, pin_focal: bool, i: int, n: nat)
    requires
        0 <= i < n <= e.len(),
    ensures
        text::stands_at(
            entries_toml(e, pin_focal, n),
            entry_toml(e[i], pin_focal),
            entries_toml(e, pin_focal, i as nat).len() as int,
        ),
    decreases n,
{
    let front = entries_toml(e, pin_focal, (n - 1) as nat);
    let all = entries_toml(e, pin_focal, n);
    let block = entry_toml(e[i], pin_focal);
    let at = entries_toml(e, pin_focal, i as nat).len() as int;
    if i < n - 1 {
        every_camera_is_written(e, pin_focal, i, (n - 1) as nat);
        assert(all.subrange(at, at + block.len()) =~= front.subrange(at, at + block.len()));
    } else {
        assert(all.subrange(at, at + block.len()) =~= block);
    }
}

/// Something is said of sweeping the focal exactly where a camera has images,
/// but too few.
pub proof fn sweeping_is_explained_where_it_happens(counts: Seq<usize>, need: usize)
    ensures
        sweep_text(counts, need).len() > 0 <==> exists|k: int|
            0 <= k < counts.len() && 1 <= #[trigger] counts[k] < need,
{
    lemma_some_short(counts, need, counts.len());
}

proof fn lemma_some_short(counts: Seq<usize>, need: usize, n: nat)
    requires
        n <= counts.len(),
    ensures
        short_of_images(counts, need, n) > 0 <==> exists|k: int|
            0 <= k < n && 1 <= #[trigger] counts[k] < need,
    decreases n,
{
    if n > 0 {
        lemma_some_short(counts, need, (n - 1) as nat);
        if 0 < counts[n - 1] < need {
            assert(1 <= counts[n - 1] < need);
        }
    }
}

/// A row is of the camera and the family that it was tried for.
pub proof fn rows_are_of_their_camera_and_family(camera: Option<usize>, s: Seq<Scored>, i: int)
    requires
        0 <= i < s.len(),
    ensures
        camera matches Some(k) ==> is_row(rows(camera, s)[i], k, s[i].0.model),
        forall|k: usize, family: usize| #[trigger]
            is_row(rows(camera, s)[i], k, family) ==> camera == Some(k) && s[i].0.model == family,
{
}

/// Nothing is swept exactly where no camera's focal is.
pub proof fn something_is_swept_where_a_camera_is(sweep: Seq<bool>, k: int)
    requires
        0 <= k < sweep.len(),
    ensures
        sweep[k] ==> some_swept(sweep),
        (forall|j: int| 0 <= j < sweep.len() ==> !#[trigger] sweep[j]) ==> !some_swept(sweep),
{
}

} // verus!
