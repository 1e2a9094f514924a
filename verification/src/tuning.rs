//! Searching marker-detector parameters for a dataset.
//!
//! Fiducial detection is sensitive to capture conditions, and the failure is
//! silent: markers simply are not found. A sweep over the parameters that
//! matter, against a sample of the real dataset, keeps the best-scoring
//! combination.

use vstd::prelude::*;

use crate::error::SfmError;
use crate::sets;
use crate::text;
use crate::text::decimal_string;

verus! {

/// Images sampled from the dataset for the sweep.
pub const MAX_SAMPLE_IMAGES: usize = 12;

// ---------------------------------------------------------------------------
// Sampling
// ---------------------------------------------------------------------------

/// The distance between sampled places.
pub open spec fn stride_of(len: int, wanted: int) -> int {
    let step = len / if wanted < 1 {
        1
    } else {
        wanted
    };
    if step < 1 {
        1
    } else {
        step
    }
}

/// Evenly spread rather than the first few, so that a dataset whose first
/// capture is unrepresentative does not drive the whole choice.
pub fn sample_places(len: usize, wanted: usize) -> (out: Vec<usize>)
    ensures
        out@.len() <= wanted,
        out@.len() <= len,
        forall|i: int|
            0 <= i < out@.len() ==> (#[trigger] out@[i]) == i * stride_of(
                len as int,
                wanted as int,
            ) && out@[i] < len,
        out@.len() == wanted || out@.len() * stride_of(len as int, wanted as int) >= len,
{
    let step: usize = len / if wanted < 1 {
        1
    } else {
        wanted
    };
    let stride: usize = if step < 1 {
        1
    } else {
        step
    };
    assert(stride == stride_of(len as int, wanted as int));
    let mut out: Vec<usize> = Vec::new();
    let mut at: usize = 0;
    let mut left: usize = len;
    while out.len() < wanted && left > 0
        invariant
            stride >= 1,
            stride == stride_of(len as int, wanted as int),
            out@.len() <= wanted,
            out@.len() <= at,
            left > 0 ==> at == out@.len() * stride && at + left == len,
            left == 0 ==> out@.len() * stride >= len,
            at <= len,
            forall|i: int|
                0 <= i < out@.len() ==> (#[trigger] out@[i]) == i * stride && out@[i] < len,
        decreases left,
    {
        out.push(at);
        assert(out@.len() * stride == (out@.len() - 1) * stride + stride) by (nonlinear_arith);
        if left > stride {
            at += stride;
            left -= stride;
        } else {
            at = len;
            left = 0;
        }
    }
    out
}

// ---------------------------------------------------------------------------
// Scores
// ---------------------------------------------------------------------------

/// How many markers were found, and in how many images.
#[derive(Debug, Clone, Copy, PartialEq, Eq, Structural)]
pub struct Score {
    pub images_with_markers: usize,
    pub total_markers: usize,
}

/// How many of the first `n` images have markers.
pub open spec fn with_markers(counts: Seq<usize>, n: nat) -> nat
    decreases n,
{
    if n == 0 {
        0
    } else {
        with_markers(counts, (n - 1) as nat) + if counts[n - 1] > 0 {
            1nat
        } else {
            0nat
        }
    }
}

/// How many markers the first `n` images have.
pub open spec fn marker_sum(counts: Seq<usize>, n: nat) -> nat
    decreases n,
{
    if n == 0 {
        0
    } else {
        marker_sum(counts, (n - 1) as nat) + counts[n - 1] as nat
    }
}

proof fn lemma_marker_sum(counts: Seq<usize>, m: nat, n: nat)
    requires
        m <= n,
    ensures
        marker_sum(counts, m) <= marker_sum(counts, n),
    decreases n,
{
    if m < n {
        lemma_marker_sum(counts, m, (n - 1) as nat);
    }
}

/// Coverage counts first: a setting that finds many markers in one image loses
/// to one that finds them across the dataset.
pub open spec fn better(a: Score, b: Score) -> bool {
    a.images_with_markers > b.images_with_markers || (a.images_with_markers
        == b.images_with_markers && a.total_markers > b.total_markers)
}

impl Score {
    /// The score of the markers found per image, unless they are too many to
    /// count.
    pub fn counted(counts: &Vec<usize>) -> (r: Option<Score>)
        ensures
            match r {
                Some(s) => s.images_with_markers == with_markers(counts@, counts@.len())
                    && s.total_markers == marker_sum(counts@, counts@.len()),
                None => marker_sum(counts@, counts@.len()) > usize::MAX,
            },
    {
        let mut total: usize = 0;
        let mut i: usize = 0;
        while i < counts.len()
            invariant
                i <= counts@.len(),
                total == marker_sum(counts@, i as nat),
            decreases counts@.len() - i,
        {
            proof {
                lemma_marker_sum(counts@, i as nat + 1, counts@.len());
            }
            match total.checked_add(counts[i]) {
                Some(sum) => {
                    total = sum;
                },
                None => {
                    return None;
                },
            }
            i += 1;
        }
        Some(Score::of(counts))
    }

    /// The score of the markers found per image.
    pub fn of(counts: &Vec<usize>) -> (r: Score)
        requires
            marker_sum(counts@, counts@.len()) <= usize::MAX,
        ensures
            r.images_with_markers == with_markers(counts@, counts@.len()),
            r.total_markers == marker_sum(counts@, counts@.len()),
    {
        let mut images_with_markers: usize = 0;
        let mut total_markers: usize = 0;
        let mut i: usize = 0;
        while i < counts.len()
            invariant
                i <= counts@.len(),
                images_with_markers <= i,
                images_with_markers == with_markers(counts@, i as nat),
                total_markers == marker_sum(counts@, i as nat),
                marker_sum(counts@, counts@.len()) <= usize::MAX,
            decreases counts@.len() - i,
        {
            proof {
                lemma_marker_sum(counts@, (i + 1) as nat, counts@.len());
            }
            if counts[i] > 0 {
                images_with_markers += 1;
            }
            total_markers += counts[i];
            i += 1;
        }
        Score { images_with_markers, total_markers }
    }

    pub fn is_better_than(&self, other: &Score) -> (r: bool)
        ensures
            r == better(*self, *other),
    {
        self.images_with_markers > other.images_with_markers || (self.images_with_markers
            == other.images_with_markers && self.total_markers > other.total_markers)
    }
}

// ---------------------------------------------------------------------------
// The sweep
// ---------------------------------------------------------------------------

/// Threshold window and offset, and contrast and gamma in tenths.
#[derive(Debug, Clone, Copy, PartialEq, Eq, Structural)]
pub struct Setting {
    pub radius: u32,
    pub offset: u32,
    pub contrast: u32,
    pub gamma: u32,
}

/// How many settings there are.
pub const SETTINGS: usize = 270;

/// The settings in the order in which they are tried: the window varies
/// slowest and gamma fastest.
pub open spec fn setting_at(i: int) -> Setting {
    let r = i / 45;
    let o = (i / 9) % 5;
    let c = (i / 3) % 3;
    let g = i % 3;
    Setting {
        radius: if r == 0 {
            3
        } else if r == 1 {
            5
        } else if r == 2 {
            7
        } else if r == 3 {
            11
        } else if r == 4 {
            15
        } else {
            21
        },
        offset: if o == 0 {
            4
        } else if o == 1 {
            8
        } else if o == 2 {
            12
        } else if o == 3 {
            18
        } else {
            25
        },
        contrast: if c == 0 {
            10
        } else if c == 1 {
            14
        } else {
            18
        },
        gamma: if g == 0 {
            10
        } else if g == 1 {
            7
        } else {
            14
        },
    }
}

fn setting(i: usize) -> (r: Setting)
    requires
        i < SETTINGS,
    ensures
        r == setting_at(i as int),
{
    let r: usize = i / 45;
    let o: usize = (i / 9) % 5;
    let c: usize = (i / 3) % 3;
    let g: usize = i % 3;
    Setting {
        radius: if r == 0 {
            3
        } else if r == 1 {
            5
        } else if r == 2 {
            7
        } else if r == 3 {
            11
        } else if r == 4 {
            15
        } else {
            21
        },
        offset: if o == 0 {
            4
        } else if o == 1 {
            8
        } else if o == 2 {
            12
        } else if o == 3 {
            18
        } else {
            25
        },
        contrast: if c == 0 {
            10
        } else if c == 1 {
            14
        } else {
            18
        },
        gamma: if g == 0 {
            10
        } else if g == 1 {
            7
        } else {
            14
        },
    }
}

/// No setting is tried twice.
pub proof fn settings_differ(i: int, j: int)
    requires
        0 <= i < j < SETTINGS,
    ensures
        setting_at(i) != setting_at(j),
{
    if setting_at(i) == setting_at(j) {
        assert(i / 45 == j / 45);
        assert((i / 9) % 5 == (j / 9) % 5);
        assert((i / 3) % 3 == (j / 3) % 3);
        assert(i % 3 == j % 3);
        assert(i / 9 == 5 * (i / 45) + (i / 9) % 5);
        assert(j / 9 == 5 * (j / 45) + (j / 9) % 5);
        assert(i / 3 == 3 * (i / 9) + (i / 3) % 3);
        assert(j / 3 == 3 * (j / 9) + (j / 3) % 3);
    }
}

/// The best setting so far; nothing where the defaults are.
#[derive(Debug)]
pub struct Sweep {
    pub next: usize,
    /// The defaults, where they are among the settings or comparable to them.
    pub base: Option<Setting>,
    pub chosen: Option<Setting>,
    pub best: Score,
    pub evaluated: usize,
}

impl Sweep {
    /// The setting in force.
    pub open spec fn in_force(&self) -> Option<Setting> {
        match self.chosen {
            Some(s) => Some(s),
            None => self.base,
        }
    }

    pub open spec fn wf(&self) -> bool {
        &&& self.next <= SETTINGS
        &&& 1 <= self.evaluated <= self.next + 1
    }

    /// Starts from the score of the defaults. Fails where there is nothing to
    /// tune on.
    pub fn begin(num_images: usize, base: Option<Setting>, baseline: Score) -> (r: Result<
        Sweep,
        SfmError,
    >)
        ensures
            match r {
                Ok(s) => num_images > 0 && s.wf() && s.next == 0 && s.base == base && s.chosen
                    is None && s.best == baseline && s.evaluated == 1,
                Err(e) => e matches SfmError::Other(m) && num_images == 0 && m@
                    == "no images to tune ArUco parameters on"@,
            },
    {
        if num_images == 0 {
            return Err(SfmError::Other(String::from_str("no images to tune ArUco parameters on")));
        }
        Ok(Sweep { next: 0, base, chosen: None, best: baseline, evaluated: 1 })
    }

    /// The next setting to try: one that is in force already is passed over.
    pub fn candidate(&mut self) -> (r: Option<Setting>)
        requires
            old(self).wf(),
        ensures
            final(self).wf(),
            final(self).base == old(self).base,
            final(self).chosen == old(self).chosen,
            final(self).best == old(self).best,
            final(self).evaluated == old(self).evaluated,
            match r {
                Some(s) => {
                    &&& old(self).next <= final(self).next < SETTINGS
                    &&& s == setting_at(final(self).next as int)
                    &&& Some(s) != old(self).in_force()
                    &&& forall|k: int|
                        old(self).next <= k < final(self).next ==> Some(#[trigger] setting_at(k))
                            == old(self).in_force()
                },
                None => {
                    &&& final(self).next == SETTINGS
                    &&& forall|k: int|
                        old(self).next <= k < SETTINGS ==> Some(#[trigger] setting_at(k))
                            == old(self).in_force()
                },
            },
    {
        while self.next < SETTINGS
            invariant
                self.wf(),
                old(self).next <= self.next,
                self.base == old(self).base,
                self.chosen == old(self).chosen,
                self.best == old(self).best,
                self.evaluated == old(self).evaluated,
                forall|k: int|
                    old(self).next <= k < self.next ==> Some(#[trigger] setting_at(k)) == old(
                        self,
                    ).in_force(),
            decreases SETTINGS - self.next,
        {
            let s = setting(self.next);
            let same = match self.chosen {
                Some(c) => c == s,
                None => match self.base {
                    Some(b) => b == s,
                    None => false,
                },
            };
            if !same {
                return Some(s);
            }
            self.next = self.next + 1;
        }
        None
    }

    /// Takes the score of the candidate, and moves on.
    pub fn take(&mut self, score: Score)
        requires
            old(self).wf(),
            old(self).next < SETTINGS,
        ensures
            final(self).wf(),
            final(self).next == old(self).next + 1,
            final(self).base == old(self).base,
            final(self).evaluated == old(self).evaluated + 1,
            if better(score, old(self).best) {
                final(self).best == score && final(self).chosen == Some(
                    setting_at(old(self).next as int),
                )
            } else {
                final(self).best == old(self).best && final(self).chosen == old(self).chosen
            },
            !better(score, final(self).best),
            !better(old(self).best, final(self).best),
    {
        if score.is_better_than(&self.best) {
            self.best = score;
            self.chosen = Some(setting(self.next));
        }
        self.evaluated = self.evaluated + 1;
        self.next = self.next + 1;
    }
}

/// What is said of the markers found before anything is tuned.
pub open spec fn baseline_text(s: Score, images: usize) -> Seq<char> {
    "  baseline: "@ + text::decimal(s.total_markers as nat) + " markers across "@ + text::decimal(
        s.images_with_markers as nat,
    ) + "/"@ + text::decimal(images as nat) + " images"@
}

/// What is said of the markers found before anything is tuned.
pub fn baseline_note(score: &Score, images: usize) -> (r: String)
    ensures
        r@ == baseline_text(*score, images),
{
    let mut s = String::from_str("  baseline: ");
    s.append(decimal_string(score.total_markers as u64).as_str());
    s.append(" markers across ");
    s.append(decimal_string(score.images_with_markers as u64).as_str());
    s.append("/");
    s.append(decimal_string(images as u64).as_str());
    s.append(" images");
    s
}

/// A number of tenths, without a fraction where it has none.
pub open spec fn tenths(n: u32) -> Seq<char> {
    text::decimal((n / 10) as nat) + if n % 10 == 0 {
        Seq::empty()
    } else {
        "."@ + text::decimal((n % 10) as nat)
    }
}

fn tenths_text(n: u32) -> (r: String)
    ensures
        r@ == tenths(n),
{
    let mut s = decimal_string((n / 10) as u64);
    if n % 10 != 0 {
        s.append(".");
        s.append(decimal_string((n % 10) as u64).as_str());
    }
    assert(s@ =~= tenths(n));
    s
}

/// A setting, or the defaults where none beat them.
pub open spec fn chosen_text(chosen: Option<Setting>) -> Seq<char> {
    match chosen {
        Some(s) => "radius="@ + text::decimal(s.radius as nat) + ", c="@ + text::decimal(
            s.offset as nat,
        ) + ", contrast="@ + tenths(s.contrast) + ", gamma="@ + tenths(s.gamma),
        None => "defaults"@,
    }
}

/// What is said of a finished sweep over a sample of `images`.
pub fn swept_note(sweep: &Sweep, images: usize) -> (r: String)
    ensures
        r@ == "  evaluated "@ + text::decimal(sweep.evaluated as nat) + " combinations; best: "@
            + text::decimal(sweep.best.total_markers as nat) + " markers across "@ + text::decimal(
            sweep.best.images_with_markers as nat,
        ) + "/"@ + text::decimal(images as nat) + " images ("@ + chosen_text(sweep.chosen) + ")"@,
{
    let mut s = String::from_str("  evaluated ");
    s.append(decimal_string(sweep.evaluated as u64).as_str());
    s.append(" combinations; best: ");
    s.append(decimal_string(sweep.best.total_markers as u64).as_str());
    s.append(" markers across ");
    s.append(decimal_string(sweep.best.images_with_markers as u64).as_str());
    s.append("/");
    s.append(decimal_string(images as u64).as_str());
    s.append(" images (");
    let mut chosen = String::from_str("defaults");
    if let Some(c) = &sweep.chosen {
        chosen = String::from_str("radius=");
        chosen.append(decimal_string(c.radius as u64).as_str());
        chosen.append(", c=");
        chosen.append(decimal_string(c.offset as u64).as_str());
        chosen.append(", contrast=");
        chosen.append(tenths_text(c.contrast).as_str());
        chosen.append(", gamma=");
        chosen.append(tenths_text(c.gamma).as_str());
    }
    s.append(chosen.as_str());
    s.append(")");
    s
}

/// What is said where no setting finds any marker.
pub fn no_markers_note(best: &Score) -> (r: Option<&'static str>)
    ensures
        match r {
            Some(s) => best.total_markers == 0 && s@
                == "warning: no markers detected under any tested parameters - check that the images really contain markers from this dictionary (`--aruco-dict`)"@,
            None => best.total_markers > 0,
        },
{
    if best.total_markers == 0 {
        Some(
            "warning: no markers detected under any tested parameters - check that the images really contain markers from this dictionary (`--aruco-dict`)",
        )
    } else {
        None
    }
}

/// Having markers.
pub open spec fn has_markers() -> spec_fn(usize) -> bool {
    |n: usize| n > 0
}

/// Adding up.
pub open spec fn plus() -> spec_fn(nat, usize) -> nat {
    |sum: nat, n: usize| sum + n as nat
}

/// A score counts the images with markers, and adds up the markers.
pub proof fn scores_count_images_and_markers(counts: Seq<usize>, n: nat)
    requires
        n <= counts.len(),
    ensures
        with_markers(counts, n) == sets::how_many(counts, has_markers(), n),
        marker_sum(counts, n) == counts.take(n as int).fold_left(0nat, plus()),
    decreases n,
{
    reveal_with_fuel(Seq::fold_left, 2);
    sets::lemma_none_of_none(counts, has_markers());
    if n > 0 {
        scores_count_images_and_markers(counts, (n - 1) as nat);
        sets::lemma_one_more(counts, has_markers(), (n - 1) as nat);
        assert(counts.take(n as int).drop_last() =~= counts.take(n - 1));
    }
}

/// More images with markers are better however many markers there are; among
/// scores with as many images more markers are.
pub proof fn coverage_counts_first(a: Score, b: Score)
    ensures
        a.images_with_markers > b.images_with_markers ==> better(a, b) && !better(b, a),
        a.images_with_markers == b.images_with_markers ==> (better(a, b) <==> a.total_markers
            > b.total_markers),
{
}

/// The sampled places are as far apart as the sample can have them and still
/// be as large as wanted.
pub proof fn samples_are_spread_out(len: int, wanted: int)
    requires
        0 < wanted <= len,
    ensures
        stride_of(len, wanted) * wanted <= len < (stride_of(len, wanted) + 1) * wanted,
{
    let step = len / wanted;
    vstd::arithmetic::div_mod::lemma_fundamental_div_mod(len, wanted);
    vstd::arithmetic::div_mod::lemma_mod_bound(len, wanted);
    assert(step >= 1) by (nonlinear_arith)
        requires
            len == wanted * step + len % wanted,
            len % wanted < wanted,
            0 < wanted <= len,
    ;
    assert(step * wanted <= len && len < (step + 1) * wanted) by (nonlinear_arith)
        requires
            len == wanted * step + len % wanted,
            0 <= len % wanted < wanted,
    ;
}

/// Every window is tried with every offset, contrast and gamma.
pub proof fn every_combination_is_tried(r: int, o: int, c: int, g: int)
    requires
        0 <= r < 6,
        0 <= o < 5,
        0 <= c < 3,
        0 <= g < 3,
    ensures
        0 <= 45 * r + 9 * o + 3 * c + g < SETTINGS,
        ({
            let s = setting_at(45 * r + 9 * o + 3 * c + g);
            &&& s.radius == seq![3u32, 5, 7, 11, 15, 21][r]
            &&& s.offset == seq![4u32, 8, 12, 18, 25][o]
            &&& s.contrast == seq![10u32, 14, 18][c]
            &&& s.gamma == seq![10u32, 7, 14][g]
        }),
{
    let i = 45 * r + 9 * o + 3 * c + g;
    assert(i / 45 == r);
    assert(i / 9 == 5 * r + o);
    assert((5 * r + o) % 5 == o);
    assert(i / 3 == 15 * r + 3 * o + c);
    assert((15 * r + 3 * o + c) % 3 == c);
    assert(i % 3 == g);
}

/// Tenths are written as a whole number and, where there is one, a digit
/// behind the point.
pub proof fn tenths_are_written_as_decimals(n: u32, whole: int, tenth: int)
    requires
        n == 10 * whole + tenth,
        0 <= whole,
        0 <= tenth < 10,
    ensures
        tenth == 0 ==> tenths(n) == text::decimal(whole as nat),
        tenth > 0 ==> tenths(n) == text::decimal(whole as nat) + "."@ + text::decimal(
            tenth as nat,
        ),
{
    assert(n / 10 == whole && n % 10 == tenth);
    if tenth == 0 {
        assert(tenths(n) =~= text::decimal(whole as nat));
    } else {
        assert(tenths(n) =~= text::decimal(whole as nat) + "."@ + text::decimal(tenth as nat));
    }
}

} // verus!
