//! The search for vanishing points: recovering the supported extent of a line
//! from the edge pixels along it, and extracting dominant points one by one,
//! each time without the segments that support the points found before.

use vstd::prelude::*;

use crate::consensus;
use crate::consensus::{Supported, Xorshift64};
use crate::order;
use crate::order::sort;
use crate::sets;

verus! {

// ---------------------------------------------------------------------------
// Lines through edge pixels
// ---------------------------------------------------------------------------

/// A line by its signed distance from the origin in pixels, and by its angle
/// in whole degrees.
#[derive(Debug, Clone, Copy, PartialEq, Eq, Structural)]
pub struct EdgeLine {
    pub distance: i64,
    pub angle: u32,
}

/// How many of the first `n` pixels are edge pixels.
pub open spec fn lit(edges: Seq<u8>, n: nat) -> nat
    decreases n,
{
    if n == 0 {
        0
    } else {
        lit(edges, (n - 1) as nat) + if edges[n - 1] > 0 {
            1nat
        } else {
            0nat
        }
    }
}

/// How far apart two numbers are.
pub open spec fn apart(a: int, b: int) -> int {
    if a < b {
        b - a
    } else {
        a - b
    }
}

/// Lines in the order of their angles and distances, none of them within
/// `radius` of another in both.
pub open spec fn are_separate(lines: Seq<EdgeLine>, radius: u32) -> bool {
    forall|i: int, j: int|
        0 <= i < j < lines.len() ==> {
            let (a, b) = (#[trigger] lines[i], #[trigger] lines[j]);
            &&& a.angle < b.angle || (a.angle == b.angle && a.distance < b.distance)
            &&& apart(a.angle as int, b.angle as int) > radius || apart(
                a.distance as int,
                b.distance as int,
            ) > radius
        }
}

/// Lines that a picture of this size can have.
pub open spec fn lie_within(lines: Seq<EdgeLine>, width: u32, height: u32) -> bool {
    forall|i: int|
        0 <= i < lines.len() ==> {
            let line = #[trigger] lines[i];
            line.angle < 180 && line.distance * line.distance <= width * width + height * height
        }
}

/// What the lines of an edge picture are looked for with.
pub struct LineRequest {
    /// One byte per pixel, row by row; an edge pixel is not zero.
    pub edges: Vec<u8>,
    pub width: u32,
    pub height: u32,
    /// Edge pixels that a line needs.
    pub votes: u32,
    /// Of lines closer than this, in pixels and in degrees, one is kept.
    pub radius: u32,
}

/// `imageproc::hough::detect_lines`. Each line gathered at least `votes` edge
/// pixels, so there is none where there are fewer; a line lies within the
/// picture's diagonal; and of lines closer than `radius` only one is kept.
/// Which lines they are rests on the machine's sine and cosine, and is not
/// stated.
#[verifier::external_body]
fn detected_lines(q: LineRequest) -> (r: Vec<EdgeLine>)
    requires
        q.edges@.len() == q.width * q.height,
        q.width * q.width + q.height * q.height <= u32::MAX,
        q.votes > 0,
        q.radius <= 180,
    ensures
        lie_within(r@, q.width, q.height),
        are_separate(r@, q.radius),
        r@.len() > 0 ==> q.votes <= lit(q.edges@, q.edges@.len()),
{
    let picture = image::GrayImage::from_raw(q.width, q.height, q.edges).unwrap();
    let options = imageproc::hough::LineDetectionOptions {
        vote_threshold: q.votes,
        suppression_radius: q.radius,
    };
    imageproc::hough::detect_lines(&picture, options)
        .into_iter()
        .map(|l| EdgeLine { distance: l.r as i64, angle: l.angle_in_degrees })
        .collect()
}

/// A line needs this many edge pixels, however small the picture.
pub const MIN_VOTES: u32 = 30;

/// Of lines closer than this, in pixels and in degrees, one is kept.
pub const SUPPRESSION_RADIUS: u32 = 5;

/// Fewer lines, or segments, than this say nothing of vanishing points.
pub const MIN_LINES: usize = 6;

/// How many votes a line needs.
pub open spec fn votes_needed(votes: u32) -> u32 {
    if votes < MIN_VOTES {
        MIN_VOTES
    } else {
        votes
    }
}

/// Lines, or segments, where there are enough of them.
pub fn enough<L>(lines: Vec<L>) -> (r: Option<Vec<L>>)
    ensures
        r == if lines@.len() < MIN_LINES {
            None
        } else {
            Some(lines)
        },
{
    if lines.len() < MIN_LINES {
        None
    } else {
        Some(lines)
    }
}

/// How lines are looked for: the votes that one needs, and the distance below
/// which one of two is dropped. `votes` is what the picture's size asks of a
/// line.
pub fn line_options(votes: u32) -> (r: (u32, u32))
    ensures
        r == (votes_needed(votes), SUPPRESSION_RADIUS),
{
    if votes < MIN_VOTES {
        (MIN_VOTES, SUPPRESSION_RADIUS)
    } else {
        (votes, SUPPRESSION_RADIUS)
    }
}

/// What the lines of an edge picture are looked for with: the picture as it
/// is, and the options that go with `votes`.
pub fn line_request(edges: Vec<u8>, width: u32, height: u32, votes: u32) -> (q: LineRequest)
    ensures
        q.edges@ == edges@,
        q.width == width,
        q.height == height,
        q.votes == votes_needed(votes),
        q.radius == SUPPRESSION_RADIUS,
{
    let (needed, radius) = line_options(votes);
    LineRequest { edges, width, height, votes: needed, radius }
}

/// The lines of an edge picture, where there are enough of them. `votes` is
/// what the picture's size asks of a line.
pub fn edge_lines(edges: Vec<u8>, width: u32, height: u32, votes: u32) -> (r: Option<
    Vec<EdgeLine>,
>)
    requires
        edges@.len() == width * height,
        width * width + height * height <= u32::MAX,
    ensures
        lit(edges@, edges@.len()) < votes_needed(votes) ==> r is None,
        r matches Some(lines) ==> {
            &&& lines@.len() >= MIN_LINES
            &&& lie_within(lines@, width, height)
            &&& are_separate(lines@, SUPPRESSION_RADIUS)
        },
{
    enough(detected_lines(line_request(edges, width, height, votes)))
}

/// Whether a place of the picture is an edge pixel.
pub open spec fn is_edge(edges: Seq<u8>, width: u32, height: u32, x: int, y: int) -> bool {
    0 <= x < width && 0 <= y < height && edges[y * width + x] > 0
}

/// Whether an edge pixel stands at a place or beside it.
pub open spec fn is_near_edge(edges: Seq<u8>, width: u32, height: u32, x: int, y: int) -> bool {
    exists|px: int, py: int|
        x - 1 <= px <= x + 1 && y - 1 <= py <= y + 1 && #[trigger] is_edge(
            edges,
            width,
            height,
            px,
            py,
        )
}

pub fn near_edge(edges: &Vec<u8>, width: u32, height: u32, x: i64, y: i64) -> (r: bool)
    requires
        edges@.len() == width * height,
    ensures
        r == is_near_edge(edges@, width, height, x as int, y as int),
{
    let total: usize = edges.len();
    let (w, h) = (width as i64, height as i64);
    if x < -1 || y < -1 || x > w || y > h {
        assert forall|px: int, py: int|
            x - 1 <= px <= x + 1 && y - 1 <= py <= y + 1 implies !#[trigger] is_edge(
            edges@,
            width,
            height,
            px,
            py,
        ) by {}
        return false;
    }
    let mut py: i64 = y - 1;
    while py <= y + 1
        invariant
            -1 <= x <= w,
            -1 <= y <= h,
            w == width,
            h == height,
            y - 1 <= py <= y + 2,
            total == edges@.len() == width * height,
            forall|qx: int, qy: int|
                x - 1 <= qx <= x + 1 && y - 1 <= qy < py ==> !#[trigger] is_edge(
                    edges@,
                    width,
                    height,
                    qx,
                    qy,
                ),
        decreases y + 2 - py,
    {
        let mut px: i64 = x - 1;
        while px <= x + 1
            invariant
                -1 <= x <= w,
                -1 <= y <= h,
                w == width,
                h == height,
                y - 1 <= py <= y + 1,
                x - 1 <= px <= x + 2,
                total == edges@.len() == width * height,
                forall|qx: int, qy: int|
                    x - 1 <= qx <= x + 1 && y - 1 <= qy < py ==> !#[trigger] is_edge(
                        edges@,
                        width,
                        height,
                        qx,
                        qy,
                    ),
                forall|qx: int|
                    x - 1 <= qx < px ==> !#[trigger] is_edge(
                        edges@,
                        width,
                        height,
                        qx,
                        py as int,
                    ),
            decreases x + 2 - px,
        {
            if px >= 0 && py >= 0 && px < w && py < h {
                proof {
                    assert(0 <= py * w + px < width * height) by (nonlinear_arith)
                        requires
                            0 <= px < w,
                            0 <= py < h,
                            w == width,
                            h == height,
                    ;
                    assert(0 <= py * w) by (nonlinear_arith)
                        requires
                            0 <= py,
                            0 <= w,
                    ;
                }
                let at: usize = py as usize * width as usize + px as usize;
                if edges[at] > 0 {
                    assert(is_edge(edges@, width, height, px as int, py as int));
                    return true;
                }
            }
            assert(!is_edge(edges@, width, height, px as int, py as int));
            px += 1;
        }
        py += 1;
    }
    false
}

// ---------------------------------------------------------------------------
// Runs of edge pixels
// ---------------------------------------------------------------------------

/// The last hit before a place.
pub open spec fn previous_hit(hits: Seq<bool>, i: int) -> Option<int>
    decreases i,
{
    if i <= 0 {
        None
    } else if hits[i - 1] {
        Some(i - 1)
    } else {
        previous_hit(hits, i - 1)
    }
}

/// Where the run of a hit begins. Hits belong to one run while no more than
/// six misses lie between them, so that a dashed or partly hidden edge still
/// reads as one segment.
pub open spec fn run_start(hits: Seq<bool>, e: int) -> int
    decreases e,
    via run_start_decreases
{
    match previous_hit(hits, e) {
        Some(p) => if e - p <= 7 {
            run_start(hits, p)
        } else {
            e
        },
        None => e,
    }
}

#[via_fn]
proof fn run_start_decreases(hits: Seq<bool>, e: int) {
    lemma_previous_hit(hits, e);
}

proof fn lemma_previous_hit(hits: Seq<bool>, i: int)
    ensures
        previous_hit(hits, i) matches Some(p) ==> 0 <= p < i && hits[p] && forall|k: int|
            p < k < i ==> !#[trigger] hits[k],
        previous_hit(hits, i) is None ==> forall|k: int| 0 <= k < i ==> !#[trigger] hits[k],
    decreases i,
{
    if i > 0 && !hits[i - 1] {
        lemma_previous_hit(hits, i - 1);
    }
}

proof fn lemma_run_start(hits: Seq<bool>, e: int)
    requires
        0 <= e,
    ensures
        0 <= run_start(hits, e) <= e,
    decreases e,
{
    lemma_previous_hit(hits, e);
    match previous_hit(hits, e) {
        Some(p) => {
            lemma_run_start(hits, p);
        },
        None => {},
    }
}

/// A run ends at this hit: seven misses follow it.
pub open spec fn closes(hits: Seq<bool>, e: int) -> bool {
    0 <= e && hits[e] && forall|k: int| e < k <= e + 7 ==> !#[trigger] hits[k]
}

/// A stretch of a line, by the places where it starts and ends.
#[derive(Debug, Clone, Copy, PartialEq, Eq, Structural)]
pub struct Run {
    pub start: usize,
    /// The last hit, or nothing where the run reaches the end of the line.
    pub end: Option<usize>,
}

/// The best of the runs that end among the first `n` places, by its last hit:
/// the longest, and the first of those. A single hit has no length.
pub open spec fn longest_closed(hits: Seq<bool>, n: int) -> Option<int>
    decreases n,
{
    if n <= 7 {
        None
    } else {
        let rest = longest_closed(hits, n - 1);
        let e = n - 8;
        if closes(hits, e) && e - run_start(hits, e) > closed_length(hits, rest) {
            Some(e)
        } else {
            rest
        }
    }
}

/// How long a closed run is; nothing has no length.
pub open spec fn closed_length(hits: Seq<bool>, e: Option<int>) -> int {
    match e {
        Some(e) => e - run_start(hits, e),
        None => 0,
    }
}

/// The last hit, where the line ends before seven misses follow it.
pub open spec fn open_hit(hits: Seq<bool>) -> Option<int> {
    match previous_hit(hits, hits.len() as int) {
        Some(p) => if hits.len() - p <= 7 {
            Some(p)
        } else {
            None
        },
        None => None,
    }
}

/// The longest run along a line. One that is still open at the end reaches to
/// the end of the line, which lies beyond the last place if `overhang` says so.
pub open spec fn longest(hits: Seq<bool>, overhang: bool) -> Option<Run> {
    let best = longest_closed(hits, hits.len() as int);
    let closed = match best {
        Some(e) => Some(Run { start: run_start(hits, e) as usize, end: Some(e as usize) }),
        None => None,
    };
    match open_hit(hits) {
        Some(p) => {
            let len = hits.len() - 1 - run_start(hits, p);
            if len > closed_length(hits, best) || (len == closed_length(hits, best) && overhang) {
                Some(Run { start: run_start(hits, p) as usize, end: None })
            } else {
                closed
            }
        },
        None => closed,
    }
}

pub fn longest_run(hits: &Vec<bool>, overhang: bool) -> (r: Option<Run>)
    ensures
        r == longest(hits@, overhang),
{
    let total: usize = hits.len();
    let mut best: Option<(usize, usize)> = None;
    let mut best_len: usize = 0;
    // start of the current run and its last hit
    let mut run: Option<(usize, usize)> = None;
    let mut i: usize = 0;
    while i < total
        invariant
            i <= total == hits@.len(),
            match run {
                Some((s, e)) => s <= e < i && i - e <= 7 && hits@[e as int] && s == run_start(
                    hits@,
                    e as int,
                ) && previous_hit(hits@, i as int) == Some(e as int),
                None => match previous_hit(hits@, i as int) {
                    Some(p) => i - p > 7,
                    None => true,
                },
            },
            match best {
                Some((s, e)) => s <= e && longest_closed(hits@, i as int) == Some(e as int) && s
                    == run_start(hits@, e as int),
                None => longest_closed(hits@, i as int) is None,
            },
            best_len == closed_length(hits@, longest_closed(hits@, i as int)),
        decreases total - i,
    {
        proof {
            lemma_previous_hit(hits@, i as int);
            lemma_previous_hit(hits@, i + 1);
        }
        if hits[i] {
            assert(previous_hit(hits@, i + 1) == Some(i as int));
            assert(i >= 7 ==> !closes(hits@, i - 7)) by {
                if i >= 7 && closes(hits@, i - 7) {
                    assert(!hits@[i as int]);
                }
            }
            run = match run {
                Some((s, e)) => Some((s, i)),
                None => Some((i, i)),
            };
        } else {
            assert(previous_hit(hits@, i + 1) == previous_hit(hits@, i as int));
            match run {
                Some((s, e)) => {
                    if i - e == 7 {
                        proof {
                            assert(closes(hits@, e as int));
                            lemma_run_start(hits@, e as int);
                        }
                        if e - s > best_len {
                            best_len = e - s;
                            best = Some((s, e));
                        }
                        run = None;
                    } else {
                        assert(i >= 7 ==> !closes(hits@, i - 7)) by {
                            if i >= 7 && closes(hits@, i - 7) {
                                assert(e != i - 7);
                                assert(!hits@[e as int]);
                            }
                        }
                    }
                },
                None => {
                    assert(i >= 7 ==> !closes(hits@, i - 7)) by {
                        if i >= 7 && closes(hits@, i - 7) {
                            assert(hits@[i - 7]);
                        }
                    }
                },
            }
        }
        i += 1;
    }
    let closed = match best {
        Some((s, e)) => Some(Run { start: s, end: Some(e) }),
        None => None,
    };
    match run {
        Some((s, e)) => {
            let len: usize = total - 1 - s;
            if len > best_len || (len == best_len && overhang) {
                Some(Run { start: s, end: None })
            } else {
                closed
            }
        },
        None => closed,
    }
}

// ---------------------------------------------------------------------------
// Extracting vanishing points
// ---------------------------------------------------------------------------

/// How many pairs of segments are tried for one point.
pub const TRIALS: usize = 3000;

/// A vanishing point needs this many segments.
pub const MIN_SUPPORT: usize = 4;

/// Where sampling starts.
pub const SEED: u64 = 0x7A17_C0DE_1234_5678;

/// A vanishing point and how many segments support it.
#[derive(Debug, Clone, Copy, PartialEq)]
pub struct Vanishing<P> {
    pub point: P,
    pub support: usize,
}

/// The points found so far, and the segments that none of them explains.
#[derive(Debug)]
pub struct VanishingSearch<P> {
    pub rng: Xorshift64,
    pub remaining: Vec<usize>,
    pub found: Vec<Vanishing<P>>,
    pub wanted: usize,
}

/// The pair that trial `k` draws of what remains.
pub open spec fn pair_drawn(state: u64, remaining: Seq<usize>, k: nat) -> (usize, usize) {
    (
        remaining[consensus::choice(
            consensus::steps(state, 2 * k + 1),
            remaining.len() as int,
        )],
        remaining[consensus::choice(
            consensus::steps(state, 2 * k + 2),
            remaining.len() as int,
        )],
    )
}

/// The pairs of different segments among the first `k` trials.
pub open spec fn pairs_drawn(state: u64, remaining: Seq<usize>, k: nat) -> Seq<(usize, usize)>
    decreases k,
{
    if k == 0 {
        Seq::empty()
    } else {
        let rest = pairs_drawn(state, remaining, (k - 1) as nat);
        let p = pair_drawn(state, remaining, (k - 1) as nat);
        if p.0 != p.1 {
            rest.push(p)
        } else {
            rest
        }
    }
}

/// Those among the first `n` that are not in the support.
pub open spec fn unsupported(remaining: Seq<usize>, support: Seq<usize>, n: nat) -> Seq<usize>
    decreases n,
{
    if n == 0 {
        Seq::empty()
    } else {
        let rest = unsupported(remaining, support, (n - 1) as nat);
        if support.contains(remaining[n - 1]) {
            rest
        } else {
            rest.push(remaining[n - 1])
        }
    }
}

/// What is left supports nothing that was found, and was there before.
pub proof fn points_share_no_segment(remaining: Seq<usize>, support: Seq<usize>, n: nat, k: int)
    requires
        n <= remaining.len(),
        0 <= k < unsupported(remaining, support, n).len(),
    ensures
        !support.contains(unsupported(remaining, support, n)[k]),
        remaining.contains(unsupported(remaining, support, n)[k]),
    decreases n,
{
    if n > 0 {
        let rest = unsupported(remaining, support, (n - 1) as nat);
        if k < rest.len() {
            points_share_no_segment(remaining, support, (n - 1) as nat, k);
        }
    }
}

fn among(list: &Vec<usize>, x: usize) -> (r: bool)
    ensures
        r == list@.contains(x),
{
    let mut i: usize = 0;
    while i < list.len()
        invariant
            i <= list@.len(),
            forall|k: int| 0 <= k < i ==> list@[k] != x,
        decreases list@.len() - i,
    {
        if list[i] == x {
            return true;
        }
        i += 1;
    }
    false
}

impl<P> VanishingSearch<P> {
    pub fn begin(num_segments: usize, wanted: usize) -> (r: Self)
        ensures
            r.rng.state == SEED,
            r.remaining@ == Seq::new(num_segments as nat, |i: int| i as usize),
            r.found@.len() == 0,
            r.wanted == wanted,
    {
        let mut remaining: Vec<usize> = Vec::new();
        let mut i: usize = 0;
        while i < num_segments
            invariant
                i <= num_segments,
                remaining@ == Seq::new(i as nat, |k: int| k as usize),
            decreases num_segments - i,
        {
            remaining.push(i);
            i += 1;
            assert(remaining@ =~= Seq::new(i as nat, |k: int| k as usize));
        }
        VanishingSearch { rng: Xorshift64 { state: SEED }, remaining, found: Vec::new(), wanted }
    }

    /// The pairs of segments to intersect for the next point; nothing where
    /// no more is wanted or too few segments are left.
    pub fn next_pairs(&mut self) -> (r: Option<Vec<(usize, usize)>>)
        ensures
            final(self).remaining@ == old(self).remaining@,
            final(self).found@ == old(self).found@,
            final(self).wanted == old(self).wanted,
            match r {
                Some(pairs) => {
                    &&& old(self).wanted > 0
                    &&& old(self).remaining@.len() >= MIN_SUPPORT
                    &&& pairs@ == pairs_drawn(
                        old(self).rng.state,
                        old(self).remaining@,
                        TRIALS as nat,
                    )
                    &&& final(self).rng.state == consensus::steps(
                        old(self).rng.state,
                        (2 * TRIALS) as nat,
                    )
                },
                None => (old(self).wanted == 0 || old(self).remaining@.len() < MIN_SUPPORT)
                    && final(self).rng.state == old(self).rng.state,
            },
    {
        let n: usize = self.remaining.len();
        if self.wanted == 0 || n < MIN_SUPPORT {
            return None;
        }
        let ghost start = self.rng.state;
        let mut pairs: Vec<(usize, usize)> = Vec::new();
        let mut k: usize = 0;
        while k < TRIALS
            invariant
                k <= TRIALS,
                n == self.remaining@.len(),
                n >= MIN_SUPPORT,
                self.remaining == old(self).remaining,
                self.found == old(self).found,
                self.wanted == old(self).wanted,
                start == old(self).rng.state,
                self.rng.state == consensus::steps(start, (2 * k) as nat),
                pairs@ == pairs_drawn(start, self.remaining@, k as nat),
            decreases TRIALS - k,
        {
            let a: usize = self.rng.below(n);
            let b: usize = self.rng.below(n);
            assert(self.rng.state == consensus::steps(start, (2 * k + 2) as nat)) by {
                assert(consensus::steps(start, (2 * k + 1) as nat) == consensus::step(
                    consensus::steps(start, (2 * k) as nat),
                ));
            }
            let (i, j) = (self.remaining[a], self.remaining[b]);
            assert((i, j) == pair_drawn(start, self.remaining@, k as nat));
            if i != j {
                pairs.push((i, j));
            }
            k += 1;
            assert(2 * k == 2 * (k - 1) + 2);
        }
        Some(pairs)
    }

    /// Takes the point that most segments support. Too little support ends the
    /// search.
    pub fn conclude(&mut self, best: Option<Supported<P>>)
        requires
            old(self).wanted > 0,
        ensures
            final(self).rng == old(self).rng,
            match best {
                Some(b) if b.support@.len() >= MIN_SUPPORT => {
                    &&& final(self).found@ == old(self).found@.push(
                        Vanishing { point: b.candidate, support: b.support@.len() as usize },
                    )
                    &&& final(self).remaining@ == unsupported(
                        old(self).remaining@,
                        b.support@,
                        old(self).remaining@.len(),
                    )
                    &&& final(self).wanted == old(self).wanted - 1
                },
                _ => {
                    &&& final(self).found@ == old(self).found@
                    &&& final(self).remaining@ == old(self).remaining@
                    &&& final(self).wanted == 0
                },
            },
    {
        match best {
            Some(b) => {
                if b.support.len() >= MIN_SUPPORT {
                    let mut left: Vec<usize> = Vec::new();
                    let mut n: usize = 0;
                    while n < self.remaining.len()
                        invariant
                            n <= self.remaining@.len(),
                            left@ == unsupported(self.remaining@, b.support@, n as nat),
                        decreases self.remaining@.len() - n,
                    {
                        if !among(&b.support, self.remaining[n]) {
                            left.push(self.remaining[n]);
                        }
                        n += 1;
                    }
                    self.remaining = left;
                    self.found.push(Vanishing { point: b.candidate, support: b.support.len() });
                    self.wanted = self.wanted - 1;
                } else {
                    self.wanted = 0;
                }
            },
            None => {
                self.wanted = 0;
            },
        }
    }
}

// ---------------------------------------------------------------------------
// The focal length
// ---------------------------------------------------------------------------

/// The focal length that perpendicular pairs of vanishing points agree on, and
/// how many pairs there were.
#[derive(Debug, Clone, Copy, PartialEq, Eq, Structural)]
pub struct VanishingCalibration {
    /// The key of the focal length.
    pub focal: u64,
    pub num_pairs: usize,
}

/// The middle of the focal lengths, each by a key that orders as it does.
pub fn calibrated(focals: Vec<u64>) -> (r: Option<VanishingCalibration>)
    ensures
        r == if focals@.len() == 0 {
            None
        } else {
            Some(
                VanishingCalibration {
                    focal: order::sorted(focals@)[focals@.len() as int / 2],
                    num_pairs: focals@.len() as usize,
                },
            )
        },
{
    let n: usize = focals.len();
    if n == 0 {
        return None;
    }
    proof {
        order::sorted_is_an_ordered_permutation(focals@);
    }
    let ordered = sort(focals);
    Some(VanishingCalibration { focal: ordered[n / 2], num_pairs: n })
}

/// Being an edge pixel.
pub open spec fn is_lit() -> spec_fn(u8) -> bool {
    |p: u8| p > 0
}

/// The edge pixels are counted.
pub proof fn edge_pixels_are_counted(edges: Seq<u8>, n: nat)
    requires
        n <= edges.len(),
    ensures
        lit(edges, n) == sets::how_many(edges, is_lit(), n),
    decreases n,
{
    sets::lemma_none_of_none(edges, is_lit());
    if n > 0 {
        edge_pixels_are_counted(edges, (n - 1) as nat);
        sets::lemma_one_more(edges, is_lit(), (n - 1) as nat);
    }
}

/// An edge pixel is near to itself and to its eight neighbours, and to nothing
/// else.
pub proof fn edges_are_near_their_neighbours(
    edges: Seq<u8>,
    width: u32,
    height: u32,
    x: int,
    y: int,
    dx: int,
    dy: int,
)
    requires
        edges.len() == width * height,
        0 <= x < width,
        0 <= y < height,
        edges[y * width + x] > 0,
    ensures
        -1 <= dx <= 1 && -1 <= dy <= 1 ==> is_near_edge(edges, width, height, x + dx, y + dy),
        (forall|p: int, q: int|
            0 <= p < width && 0 <= q < height && (p != x || q != y) ==> edges[#[trigger] (q * width
                + p)] == 0) && !(-1 <= dx <= 1 && -1 <= dy <= 1) ==> !is_near_edge(
            edges,
            width,
            height,
            x + dx,
            y + dy,
        ),
{
    assert(is_edge(edges, width, height, x, y));
    if (forall|p: int, q: int|
        0 <= p < width && 0 <= q < height && (p != x || q != y) ==> edges[#[trigger] (q * width
            + p)] == 0) && is_near_edge(edges, width, height, x + dx, y + dy) {
        let (px, py) = choose|px: int, py: int|
            x + dx - 1 <= px <= x + dx + 1 && y + dy - 1 <= py <= y + dy + 1
                && #[trigger] is_edge(edges, width, height, px, py);
        if px != x || py != y {
            assert(edges[py * width + px] == 0);
        }
    }
}

/// A hit lies among the seven places behind a place, and not behind `e`.
pub open spec fn goes_on(hits: Seq<bool>, i: int, e: int) -> bool {
    exists|k: int| i < k <= i + 7 && k <= e && #[trigger] hits[k]
}

/// A run starts at a hit with no other among the seven places before it, and
/// has no seven misses in a row.
pub proof fn runs_have_no_long_gap(hits: Seq<bool>, e: int, i: int)
    requires
        0 <= e < hits.len(),
        hits[e],
    ensures
        0 <= run_start(hits, e) <= e,
        hits[run_start(hits, e)],
        forall|k: int|
            0 <= k && run_start(hits, e) - 7 <= k < run_start(hits, e) ==> !#[trigger] hits[k],
        run_start(hits, e) <= i < e ==> goes_on(hits, i, e),
    decreases e,
{
    lemma_previous_hit(hits, e);
    match previous_hit(hits, e) {
        Some(p) => {
            if e - p <= 7 {
                runs_have_no_long_gap(hits, p, i);
                if p <= i < e {
                    assert(hits[e]);
                } else if run_start(hits, e) <= i < p {
                    let k = choose|k: int| i < k <= i + 7 && k <= p && #[trigger] hits[k];
                    assert(hits[k]);
                }
            }
        },
        None => {},
    }
}

proof fn lemma_longest_closed(hits: Seq<bool>, n: int)
    requires
        n <= hits.len(),
    ensures
        forall|e: int|
            0 <= e && e + 8 <= n && #[trigger] closes(hits, e) ==> e - run_start(hits, e)
                <= closed_length(hits, longest_closed(hits, n)),
        longest_closed(hits, n) matches Some(b) ==> 0 <= b && b + 8 <= n && closes(hits, b) && b
            > run_start(hits, b) && forall|e: int|
            0 <= e < b && #[trigger] closes(hits, e) ==> e - run_start(hits, e) < b - run_start(
                hits,
                b,
            ),
        closed_length(hits, longest_closed(hits, n)) >= 0,
    decreases n,
{
    if n > 7 {
        lemma_longest_closed(hits, n - 1);
        lemma_run_start(hits, n - 8);
        assert forall|e: int| 0 <= e && e + 8 <= n && #[trigger] closes(hits, e) implies e
            - run_start(hits, e) <= closed_length(hits, longest_closed(hits, n)) by {
            if e + 8 < n {
                assert(e - run_start(hits, e) <= closed_length(hits, longest_closed(hits, n - 1)));
            }
        }
    }
}

/// How long a run is along a line of `n` places; one that is open reaches to
/// the last of them.
pub open spec fn run_length(r: Option<Run>, n: int) -> int {
    match r {
        Some(r) => match r.end {
            Some(e) => e - r.start,
            None => n - 1 - r.start,
        },
        None => 0,
    }
}

/// No run along a line is longer than the longest: neither one that ends
/// before the line does nor one that is still open where the line ends.
pub proof fn the_longest_run_is_longest(hits: Seq<bool>, overhang: bool, e: int)
    requires
        hits.len() <= usize::MAX,
        0 <= e < hits.len(),
        hits[e],
        forall|k: int| e < k <= e + 7 && k < hits.len() ==> !#[trigger] hits[k],
    ensures
        e + 8 <= hits.len() ==> e - run_start(hits, e) <= run_length(
            longest(hits, overhang),
            hits.len() as int,
        ),
        e + 8 > hits.len() ==> hits.len() - 1 - run_start(hits, e) <= run_length(
            longest(hits, overhang),
            hits.len() as int,
        ),
{
    let n = hits.len() as int;
    lemma_longest_closed(hits, n);
    lemma_run_start(hits, e);
    lemma_previous_hit(hits, n);
    let best = longest_closed(hits, n);
    if best is Some {
        lemma_run_start(hits, best->0);
    }
    if open_hit(hits) is Some {
        lemma_run_start(hits, open_hit(hits)->0);
    }
    if e + 8 <= n {
        assert(closes(hits, e));
    } else {
        assert(previous_hit(hits, n) == Some(e)) by {
            let p = previous_hit(hits, n);
            if p is None {
                assert(!hits[e]);
            } else if p->0 > e {
                assert(!hits[p->0]);
            } else if p->0 < e {
                assert(!hits[e]);
            }
        }
    }
}

/// The longest run is one: it starts where the run of its last hit does.
pub proof fn the_longest_run_is_a_run(hits: Seq<bool>, overhang: bool)
    requires
        hits.len() <= usize::MAX,
    ensures
        longest(hits, overhang) matches Some(r) ==> {
            &&& r.start < hits.len()
            &&& hits[r.start as int]
            &&& r.end matches Some(e) ==> e + 8 <= hits.len() && hits[e as int] && (forall|k: int|
                e < k <= e + 7 ==> !#[trigger] hits[k]) && r.start == run_start(hits, e as int)
                && r.start < e
        },
{
    let n = hits.len() as int;
    lemma_longest_closed(hits, n);
    lemma_previous_hit(hits, n);
    let best = longest_closed(hits, n);
    if best is Some {
        runs_have_no_long_gap(hits, best->0, 0);
    }
    if open_hit(hits) is Some {
        runs_have_no_long_gap(hits, open_hit(hits)->0, 0);
    }
}

/// Every trial draws afresh: its first segment with the next step of the
/// generator, its second with the step after that, and the next trial with the
/// steps behind them.
pub proof fn trials_draw_in_turn(state: u64, remaining: Seq<usize>, k: nat)
    requires
        remaining.len() > 0,
    ensures
        ({
            let before = consensus::steps(state, 2 * k);
            let first = consensus::step(before);
            let second = consensus::step(first);
            &&& pair_drawn(state, remaining, k).0 == remaining[first as int
                % remaining.len() as int]
            &&& pair_drawn(state, remaining, k).1 == remaining[second as int
                % remaining.len() as int]
            &&& consensus::steps(state, 2 * (k + 1)) == second
        }),
{
    reveal_with_fuel(consensus::steps, 3);
}

/// The drawn pairs are of different segments that remain, and every trial that
/// drew different ones gave a pair.
pub proof fn drawn_pairs_are_of_different_segments(
    state: u64,
    remaining: Seq<usize>,
    k: nat,
    t: nat,
)
    requires
        remaining.len() > 0,
        t < k,
    ensures
        forall|i: int|
            0 <= i < pairs_drawn(state, remaining, k).len() ==> {
                let p = #[trigger] pairs_drawn(state, remaining, k)[i];
                p.0 != p.1 && remaining.contains(p.0) && remaining.contains(p.1)
            },
        pair_drawn(state, remaining, t).0 != pair_drawn(state, remaining, t).1 ==> pairs_drawn(
            state,
            remaining,
            k,
        ).contains(pair_drawn(state, remaining, t)),
    decreases k,
{
    let rest = pairs_drawn(state, remaining, (k - 1) as nat);
    let all = pairs_drawn(state, remaining, k);
    let p = pair_drawn(state, remaining, (k - 1) as nat);
    trials_draw_in_turn(state, remaining, (k - 1) as nat);
    lemma_drawn_remain(state, remaining, (k - 1) as nat);
    lemma_drawn_remain(state, remaining, k);
    if t < k - 1 {
        drawn_pairs_are_of_different_segments(state, remaining, (k - 1) as nat, t);
        if rest.contains(pair_drawn(state, remaining, t)) {
            let i = choose|i: int|
                0 <= i < rest.len() && rest[i] == pair_drawn(state, remaining, t);
            assert(all[i] == pair_drawn(state, remaining, t));
        }
    } else if p.0 != p.1 {
        assert(all[rest.len() as int] == p);
    }
}

proof fn lemma_drawn_remain(state: u64, remaining: Seq<usize>, k: nat)
    requires
        remaining.len() > 0,
    ensures
        forall|i: int|
            0 <= i < pairs_drawn(state, remaining, k).len() ==> {
                let p = #[trigger] pairs_drawn(state, remaining, k)[i];
                p.0 != p.1 && remaining.contains(p.0) && remaining.contains(p.1)
            },
    decreases k,
{
    if k > 0 {
        lemma_drawn_remain(state, remaining, (k - 1) as nat);
        let rest = pairs_drawn(state, remaining, (k - 1) as nat);
        let all = pairs_drawn(state, remaining, k);
        let n = remaining.len() as int;
        let (a, b) = (
            consensus::steps(state, (2 * (k - 1) + 1) as nat),
            consensus::steps(state, (2 * (k - 1) + 2) as nat),
        );
        vstd::arithmetic::div_mod::lemma_mod_bound(a as int, n);
        vstd::arithmetic::div_mod::lemma_mod_bound(b as int, n);
        let p = pair_drawn(state, remaining, (k - 1) as nat);
        assert(p.0 == remaining[a as int % n] && p.1 == remaining[b as int % n]);
        assert forall|i: int| 0 <= i < all.len() implies {
            let p = #[trigger] all[i];
            p.0 != p.1 && remaining.contains(p.0) && remaining.contains(p.1)
        } by {
            if i < rest.len() {
                assert(all[i] == rest[i]);
            }
        }
    }
}

proof fn lemma_unsupported_stay(remaining: Seq<usize>, support: Seq<usize>, n: nat, k: int)
    requires
        0 <= k < n <= remaining.len(),
        !support.contains(remaining[k]),
    ensures
        unsupported(remaining, support, n).contains(remaining[k]),
    decreases n,
{
    let rest = unsupported(remaining, support, (n - 1) as nat);
    let all = unsupported(remaining, support, n);
    if k < n - 1 {
        lemma_unsupported_stay(remaining, support, (n - 1) as nat, k);
        let i = choose|i: int| 0 <= i < rest.len() && rest[i] == remaining[k];
        assert(all[i] == remaining[k]);
    } else {
        assert(all[rest.len() as int] == remaining[k]);
    }
}

/// Every segment that does not support the point that was found is left for
/// the next one.
pub proof fn other_segments_remain(remaining: Seq<usize>, support: Seq<usize>, k: int)
    requires
        0 <= k < remaining.len(),
    ensures
        unsupported(remaining, support, remaining.len()).contains(remaining[k])
            <==> !support.contains(remaining[k]),
{
    if !support.contains(remaining[k]) {
        lemma_unsupported_stay(remaining, support, remaining.len(), k);
    } else if unsupported(remaining, support, remaining.len()).contains(remaining[k]) {
        let all = unsupported(remaining, support, remaining.len());
        let i = choose|i: int| 0 <= i < all.len() && all[i] == remaining[k];
        points_share_no_segment(remaining, support, remaining.len(), i);
    }
}

} // verus!
