//! The stages of a run: which detectors, pairings and matchers there are, what
//! a stage refuses, and what it reports.

use vstd::prelude::*;

use crate::error::SfmError;
use crate::graph::VerifiedPair;
use crate::paths;
use crate::paths::{extension, file_name, join};
use crate::sets;
use crate::text;
use crate::text::{decimal_string, first_word, same_text, wide_decimal};

verus! {

// ---------------------------------------------------------------------------
// Features
// ---------------------------------------------------------------------------

#[derive(Debug, Clone, Copy, PartialEq, Eq, Structural)]
pub enum Detector {
    Sift,
    Akaze,
    Orb,
    Superpoint,
    Disk,
    Aruco,
}

impl Detector {
    pub open spec fn shown(self) -> Seq<char> {
        match self {
            Detector::Sift => "Sift"@,
            Detector::Akaze => "Akaze"@,
            Detector::Orb => "Orb"@,
            Detector::Superpoint => "Superpoint"@,
            Detector::Disk => "Disk"@,
            Detector::Aruco => "Aruco"@,
        }
    }

    pub fn name(self) -> (r: &'static str)
        ensures
            r@ == self.shown(),
    {
        match self {
            Detector::Sift => "Sift",
            Detector::Akaze => "Akaze",
            Detector::Orb => "Orb",
            Detector::Superpoint => "Superpoint",
            Detector::Disk => "Disk",
            Detector::Aruco => "Aruco",
        }
    }

    /// The detector of a name on the command line.
    pub open spec fn of_name(name: Seq<char>) -> Option<Detector> {
        if name == "sift"@ {
            Some(Detector::Sift)
        } else if name == "akaze"@ {
            Some(Detector::Akaze)
        } else if name == "orb"@ {
            Some(Detector::Orb)
        } else if name == "superpoint"@ {
            Some(Detector::Superpoint)
        } else if name == "disk"@ {
            Some(Detector::Disk)
        } else if name == "aruco"@ {
            Some(Detector::Aruco)
        } else {
            None
        }
    }

    /// The detector of a name on the command line.
    pub fn named(name: &str) -> (r: Option<Self>)
        ensures
            r == Detector::of_name(name@),
    {
        if same_text(name, "sift") {
            Some(Detector::Sift)
        } else if same_text(name, "akaze") {
            Some(Detector::Akaze)
        } else if same_text(name, "orb") {
            Some(Detector::Orb)
        } else if same_text(name, "superpoint") {
            Some(Detector::Superpoint)
        } else if same_text(name, "disk") {
            Some(Detector::Disk)
        } else if same_text(name, "aruco") {
            Some(Detector::Aruco)
        } else {
            None
        }
    }

    /// Detectors that are there.
    pub open spec fn exists_now(self) -> bool {
        self == Detector::Sift || self == Detector::Orb || self == Detector::Aruco || self
            == Detector::Disk
    }
}

/// Refuses a detector that is not there.
pub fn check_detector(detector: Detector) -> (r: Result<(), SfmError>)
    ensures
        match r {
            Ok(_) => detector.exists_now(),
            Err(e) => e matches SfmError::Other(m) && !detector.exists_now() && m@ == "detector "@
                + detector.shown()
                + " is not implemented yet (see PLAN.md); available now: sift, orb, aruco, disk"@,
        },
{
    match detector {
        Detector::Akaze | Detector::Superpoint => {
            let mut m = String::from_str("detector ");
            m.append(detector.name());
            m.append(
                " is not implemented yet (see PLAN.md); available now: sift, orb, aruco, disk",
            );
            Err(SfmError::Other(m))
        },
        _ => Ok(()),
    }
}

/// What is said where a detector does not use the graphics processor that it
/// was offered.
pub fn gpu_note(detector: Detector, gpu: bool) -> (r: Option<String>)
    ensures
        match r {
            Some(s) => gpu && detector != Detector::Disk && s@ == "note: --gpu has no effect for "@
                + detector.shown()
                + " (classical CPU detector); GPU is used for the learned `disk` detector"@,
            None => !gpu || detector == Detector::Disk,
        },
{
    match detector {
        Detector::Disk => None,
        _ => {
            if !gpu {
                return None;
            }
            let mut s = String::from_str("note: --gpu has no effect for ");
            s.append(detector.name());
            s.append(" (classical CPU detector); GPU is used for the learned `disk` detector");
            Some(s)
        },
    }
}

/// Where the parameters of a fiducial detector come from.
#[derive(Debug, Clone, Copy, PartialEq, Eq, Structural)]
pub enum Tuning {
    /// They are searched for, and saved.
    Search,
    /// They are those of an earlier search.
    Saved,
    Defaults,
}

/// Decides how a detector is tuned: by a search on request, else by what an
/// earlier one saved. Only fiducials are tuned.
pub fn tuning_for(detector: Detector, find_params: bool, saved: bool) -> (r: Result<
    Tuning,
    SfmError,
>)
    ensures
        match r {
            Ok(t) => t == if detector != Detector::Aruco {
                Tuning::Defaults
            } else if find_params {
                Tuning::Search
            } else if saved {
                Tuning::Saved
            } else {
                Tuning::Defaults
            } && (find_params ==> detector == Detector::Aruco),
            Err(e) => e matches SfmError::Other(m) && find_params && detector != Detector::Aruco
                && m@ == "--find-params applies to `--detector aruco` only"@,
        },
{
    match detector {
        Detector::Aruco => if find_params {
            Ok(Tuning::Search)
        } else if saved {
            Ok(Tuning::Saved)
        } else {
            Ok(Tuning::Defaults)
        },
        _ => if find_params {
            Err(
                SfmError::Other(
                    String::from_str("--find-params applies to `--detector aruco` only"),
                ),
            )
        } else {
            Ok(Tuning::Defaults)
        },
    }
}

/// Lines, each with its end.
pub open spec fn ended(lines: Seq<String>, n: nat) -> Seq<char>
    decreases n,
{
    if n == 0 {
        Seq::empty()
    } else {
        ended(lines, (n - 1) as nat) + lines[n - 1]@ + "\n"@
    }
}

/// The file of fiducial corners, if there are any.
pub fn corners_file(rows: &Vec<String>) -> (r: Option<String>)
    ensures
        match r {
            Some(s) => rows@.len() > 0 && s@ == "feature_id,image_id,image_name,x,y\n"@ + ended(
                rows@,
                rows@.len(),
            ),
            None => rows@.len() == 0,
        },
{
    if rows.len() == 0 {
        return None;
    }
    let mut s = String::from_str("feature_id,image_id,image_name,x,y\n");
    let ghost head = s@;
    let mut i: usize = 0;
    assert(s@ =~= head + ended(rows@, 0));
    while i < rows.len()
        invariant
            i <= rows@.len(),
            s@ == head + ended(rows@, i as nat),
        decreases rows@.len() - i,
    {
        s.append(rows[i].as_str());
        s.append("\n");
        i += 1;
        assert(s@ =~= head + ended(rows@, i as nat));
    }
    Some(s)
}

// ---------------------------------------------------------------------------
// Matching
// ---------------------------------------------------------------------------

#[derive(Debug, Clone, Copy, PartialEq, Eq, Structural)]
pub enum Pairing {
    Exhaustive,
    Sequential,
    Spatial,
    VocabTree,
    Aruco,
    /// Every pair within a capture, none across them.
    WithinCapture,
}

#[derive(Debug, Clone, Copy, PartialEq, Eq, Structural)]
pub enum Matcher {
    MnnRatio,
    Lightglue,
}

impl Pairing {
    /// The pairing of a name on the command line.
    pub open spec fn of_name(name: Seq<char>) -> Option<Pairing> {
        if name == "exhaustive"@ {
            Some(Pairing::Exhaustive)
        } else if name == "sequential"@ {
            Some(Pairing::Sequential)
        } else if name == "spatial"@ {
            Some(Pairing::Spatial)
        } else if name == "vocab-tree"@ {
            Some(Pairing::VocabTree)
        } else if name == "aruco"@ {
            Some(Pairing::Aruco)
        } else if name == "within-capture"@ {
            Some(Pairing::WithinCapture)
        } else {
            None
        }
    }

    /// The pairing of a name on the command line.
    pub fn named(name: &str) -> (r: Option<Self>)
        ensures
            r == Pairing::of_name(name@),
    {
        if same_text(name, "exhaustive") {
            Some(Pairing::Exhaustive)
        } else if same_text(name, "sequential") {
            Some(Pairing::Sequential)
        } else if same_text(name, "spatial") {
            Some(Pairing::Spatial)
        } else if same_text(name, "vocab-tree") {
            Some(Pairing::VocabTree)
        } else if same_text(name, "aruco") {
            Some(Pairing::Aruco)
        } else if same_text(name, "within-capture") {
            Some(Pairing::WithinCapture)
        } else {
            None
        }
    }
}

impl Matcher {
    /// The matcher of a name on the command line.
    pub open spec fn of_name(name: Seq<char>) -> Option<Matcher> {
        if name == "mnn-ratio"@ {
            Some(Matcher::MnnRatio)
        } else if name == "lightglue"@ {
            Some(Matcher::Lightglue)
        } else {
            None
        }
    }

    /// The matcher of a name on the command line.
    pub fn named(name: &str) -> (r: Option<Self>)
        ensures
            r == Matcher::of_name(name@),
    {
        if same_text(name, "mnn-ratio") {
            Some(Matcher::MnnRatio)
        } else if same_text(name, "lightglue") {
            Some(Matcher::Lightglue)
        } else {
            None
        }
    }
}

/// What is said where the matcher does not use the graphics processor that it
/// was offered.
pub fn matching_gpu_note(gpu: bool) -> (r: Option<&'static str>)
    ensures
        match r {
            Some(s) => gpu && s@
                == "note: --gpu has no effect for mnn-ratio (classical CPU matcher); GPU is used once LightGlue is implemented"@,
            None => !gpu,
        },
{
    if gpu {
        Some(
            "note: --gpu has no effect for mnn-ratio (classical CPU matcher); GPU is used once LightGlue is implemented",
        )
    } else {
        None
    }
}

/// Pairings that are not there, by their names.
pub open spec fn missing_pairing(pairing: Pairing) -> Option<Seq<char>> {
    match pairing {
        Pairing::Spatial => Some("Spatial"@),
        Pairing::Aruco => Some("Aruco"@),
        _ => None,
    }
}

/// Why images cannot be matched as asked.
pub open spec fn matching_complaint(matcher: Matcher, pairing: Pairing) -> Option<Seq<char>> {
    if matcher == Matcher::Lightglue {
        Some(
            "matcher Lightglue is not implemented yet (see PLAN.md); available now: mnn-ratio"@,
        )
    } else {
        match missing_pairing(pairing) {
            Some(name) => Some(
                "pairing "@ + name
                    + " is not implemented yet (see PLAN.md); available now: exhaustive, sequential, vocab-tree, within-capture"@,
            ),
            None => None,
        }
    }
}

/// Refuses a matcher or a pairing that is not there.
pub fn check_matching(matcher: Matcher, pairing: Pairing) -> (r: Result<(), SfmError>)
    ensures
        match r {
            Ok(_) => matching_complaint(matcher, pairing) is None,
            Err(e) => e matches SfmError::Other(m) && matching_complaint(matcher, pairing) == Some(
                m@,
            ),
        },
{
    if matcher == Matcher::Lightglue {
        return Err(
            SfmError::Other(
                String::from_str(
                    "matcher Lightglue is not implemented yet (see PLAN.md); available now: mnn-ratio",
                ),
            ),
        );
    }
    let name = match pairing {
        Pairing::Spatial => "Spatial",
        Pairing::Aruco => "Aruco",
        _ => {
            return Ok(());
        },
    };
    let mut m = String::from_str("pairing ");
    m.append(name);
    m.append(
        " is not implemented yet (see PLAN.md); available now: exhaustive, sequential, vocab-tree, within-capture",
    );
    Err(SfmError::Other(m))
}

/// Refuses to match fewer than two images.
pub fn check_images(num_images: usize) -> (r: Result<(), SfmError>)
    ensures
        match r {
            Ok(_) => num_images >= 2,
            Err(e) => e matches SfmError::Other(m) && num_images < 2 && m@
                == "need at least 2 images with extracted features to match; run `sfm extract` first"@,
        },
{
    if num_images < 2 {
        return Err(
            SfmError::Other(
                String::from_str(
                    "need at least 2 images with extracted features to match; run `sfm extract` first",
                ),
            ),
        );
    }
    Ok(())
}

/// Two images, by their places, that were found to match, and how well.
#[derive(Debug, Clone, Copy, PartialEq, Eq, Structural)]
pub struct Matched {
    pub i: usize,
    pub j: usize,
    pub inliers: usize,
}

/// What a matching run found.
#[derive(Debug)]
pub struct MatchTally {
    /// The verified pairs, by the ids of their images.
    pub pairs: Vec<VerifiedPair>,
    pub total_inliers: u128,
}

/// The verified pairs among the first `n` results.
pub open spec fn verified(ids: Seq<u32>, results: Seq<Option<Matched>>, n: nat) -> Seq<VerifiedPair>
    decreases n,
{
    if n == 0 {
        Seq::empty()
    } else {
        let rest = verified(ids, results, (n - 1) as nat);
        match results[n - 1] {
            Some(m) => rest.push(
                VerifiedPair {
                    image1: ids[m.i as int],
                    image2: ids[m.j as int],
                    inliers: m.inliers,
                },
            ),
            None => rest,
        }
    }
}

/// The inliers of the first `n` results.
pub open spec fn inliers_of(results: Seq<Option<Matched>>, n: nat) -> nat
    decreases n,
{
    if n == 0 {
        0
    } else {
        inliers_of(results, (n - 1) as nat) + match results[n - 1] {
            Some(m) => m.inliers as nat,
            None => 0,
        }
    }
}

/// Sorts out the results of matching: which pairs were verified, and how many
/// inliers they have together.
pub fn tally_matches(ids: &Vec<u32>, results: &Vec<Option<Matched>>) -> (r: MatchTally)
    requires
        forall|k: int|
            0 <= k < results@.len() ==> ((#[trigger] results@[k]) matches Some(m) ==> m.i
                < ids@.len() && m.j < ids@.len()),
    ensures
        r.pairs@ == verified(ids@, results@, results@.len()),
        r.total_inliers == inliers_of(results@, results@.len()),
{
    let mut pairs: Vec<VerifiedPair> = Vec::new();
    let mut total: u128 = 0;
    let count: usize = results.len();
    let mut k: usize = 0;
    while k < count
        invariant
            k <= count == results@.len(),
            forall|k: int|
                0 <= k < results@.len() ==> ((#[trigger] results@[k]) matches Some(m) ==> m.i
                    < ids@.len() && m.j < ids@.len()),
            pairs@ == verified(ids@, results@, k as nat),
            total == inliers_of(results@, k as nat),
            total <= k * 0xffff_ffff_ffff_ffff,
        decreases count - k,
    {
        if let Some(m) = results[k] {
            pairs.push(
                VerifiedPair { image1: ids[m.i], image2: ids[m.j], inliers: m.inliers },
            );
            total = total + m.inliers as u128;
        }
        k += 1;
    }
    MatchTally { pairs, total_inliers: total }
}

// ---------------------------------------------------------------------------
// Mapping, export, evaluation
// ---------------------------------------------------------------------------

/// Refuses a reconstruction without images.
pub fn check_mapped(registered: usize) -> (r: Result<(), SfmError>)
    ensures
        match r {
            Ok(_) => registered > 0,
            Err(e) => e matches SfmError::Other(m) && registered == 0 && m@
                == "reconstruction failed to register any images; check `sfm match` results (too few/weak verified pairs?)"@,
        },
{
    if registered == 0 {
        return Err(
            SfmError::Other(
                String::from_str(
                    "reconstruction failed to register any images; check `sfm match` results (too few/weak verified pairs?)",
                ),
            ),
        );
    }
    Ok(())
}

/// Whether a path names a file by having an extension.
pub open spec fn has_extension(path: Seq<char>) -> bool {
    match paths::file_name_of(path) {
        Some(name) => paths::extension_of(name) is Some,
        None => false,
    }
}

/// The file that poses are exported to: the one that was asked for, or the
/// usual one in the directory that was.
pub fn transforms_file(out: &str) -> (r: String)
    ensures
        r@ == if has_extension(out@) {
            out@
        } else {
            paths::joined(out@, "transforms.json"@)
        },
{
    match file_name(out) {
        Some(name) => match extension(name.as_str()) {
            Some(_) => String::from_str(out),
            None => join(out, "transforms.json"),
        },
        None => join(out, "transforms.json"),
    }
}

/// The text that a reference focal length is read from, where what was given is
/// not a number itself: the first word of the file that it names.
pub fn reference_text(given: &str, file: Option<&str>) -> (r: Result<String, SfmError>)
    ensures
        match (r, file) {
            (Ok(word), Some(content)) => word@.len() > 0 && word@ == text::until_white(
                text::trim_start(content@),
            ),
            (Ok(_), None) => false,
            (Err(e), None) => e matches SfmError::Other(m) && m@ == "--gt-focal: "@ + given@
                + " is neither a number nor a readable file"@,
            (Err(e), Some(content)) => e matches SfmError::Other(m) && text::until_white(
                text::trim_start(content@),
            ).len() == 0 && m@ == "--gt-focal file is empty"@,
        },
{
    match file {
        None => {
            let mut m = String::from_str("--gt-focal: ");
            m.append(given);
            m.append(" is neither a number nor a readable file");
            Err(SfmError::Other(m))
        },
        Some(content) => match first_word(content) {
            Some(word) => Ok(word),
            None => Err(SfmError::Other(String::from_str("--gt-focal file is empty"))),
        },
    }
}

/// What is said of a matching run over `attempted` pairs.
pub fn matched_note(tally: &MatchTally, attempted: usize, log: &str) -> (r: String)
    ensures
        r@ == "Verified "@ + text::decimal(tally.pairs@.len()) + "/"@ + text::decimal(
            attempted as nat,
        ) + " pairs, "@ + text::decimal(tally.total_inliers as nat)
            + " inlier matches total. Logged to "@ + log@ + "."@,
{
    let mut s = String::from_str("Verified ");
    s.append(decimal_string(tally.pairs.len() as u64).as_str());
    s.append("/");
    s.append(decimal_string(attempted as u64).as_str());
    s.append(" pairs, ");
    s.append(wide_decimal(tally.total_inliers).as_str());
    s.append(" inlier matches total. Logged to ");
    s.append(log);
    s.append(".");
    s
}

/// What is said where retrieval has nothing to go by.
pub fn fallback_note() -> (r: &'static str)
    ensures
        r@
            == "note: vocab-tree retrieval does not apply to these descriptors (fiducial markers); falling back to exhaustive pairing"@,
{
    "note: vocab-tree retrieval does not apply to these descriptors (fiducial markers); falling back to exhaustive pairing"
}

/// Being verified.
pub open spec fn is_verified() -> spec_fn(Option<Matched>) -> bool {
    |m: Option<Matched>| m is Some
}

/// Every result that was verified is a pair of its two images with its
/// inliers, in the order of the results.
pub proof fn verified_results_are_pairs(ids: Seq<u32>, results: Seq<Option<Matched>>, n: nat)
    requires
        n <= results.len(),
    ensures
        verified(ids, results, n).len() == sets::how_many(results, is_verified(), n),
        forall|k: int|
            0 <= k < n && (#[trigger] results[k]) is Some ==> {
                let at = sets::how_many(results, is_verified(), k as nat) as int;
                &&& at < verified(ids, results, n).len()
                &&& verified(ids, results, n)[at].image1 == ids[results[k]->0.i as int]
                &&& verified(ids, results, n)[at].image2 == ids[results[k]->0.j as int]
                &&& verified(ids, results, n)[at].inliers == results[k]->0.inliers
            },
    decreases n,
{
    sets::lemma_none_of_none(results, is_verified());
    if n > 0 {
        verified_results_are_pairs(ids, results, (n - 1) as nat);
        sets::lemma_one_more(results, is_verified(), (n - 1) as nat);
        let rest = verified(ids, results, (n - 1) as nat);
        let all = verified(ids, results, n);
        assert forall|k: int| 0 <= k < n && (#[trigger] results[k]) is Some implies {
            let at = sets::how_many(results, is_verified(), k as nat) as int;
            &&& at < all.len()
            &&& all[at].image1 == ids[results[k]->0.i as int]
            &&& all[at].image2 == ids[results[k]->0.j as int]
            &&& all[at].inliers == results[k]->0.inliers
        } by {
            if k < n - 1 {
                let at = sets::how_many(results, is_verified(), k as nat) as int;
                assert(at < rest.len());
                assert(all[at] == rest[at]);
            }
        }
    }
}

/// Adding up the inliers of pairs.
pub open spec fn plus_inliers() -> spec_fn(nat, VerifiedPair) -> nat {
    |sum: nat, p: VerifiedPair| sum + p.inliers as nat
}

/// The inliers in all are those of the verified pairs.
pub proof fn inliers_are_those_of_the_pairs(ids: Seq<u32>, results: Seq<Option<Matched>>, n: nat)
    requires
        n <= results.len(),
    ensures
        inliers_of(results, n) == verified(ids, results, n).fold_left(0nat, plus_inliers()),
    decreases n,
{
    reveal_with_fuel(Seq::fold_left, 2);
    if n > 0 {
        inliers_are_those_of_the_pairs(ids, results, (n - 1) as nat);
        if results[n - 1] is Some {
            assert(verified(ids, results, n).drop_last() =~= verified(
                ids,
                results,
                (n - 1) as nat,
            ));
        }
    }
}

proof fn lemma_ended(lines: Seq<String>, n: nat)
    requires
        n <= lines.len(),
        forall|i: int| 0 <= i < lines.len() ==> !(#[trigger] lines[i])@.contains('\n'),
    ensures
        paths::split_on(ended(lines, n), '\n') == Seq::new(n, |i: int| lines[i]@).push(
            Seq::empty(),
        ),
    decreases n,
{
    reveal_strlit("\n");
    let none = Seq::<char>::empty();
    let out = Seq::new(n, |i: int| lines[i]@).push(none);
    if n == 0 {
        assert(ended(lines, n) =~= none);
        assert(paths::split_on(none, '\n') =~= out);
    } else {
        let front = ended(lines, (n - 1) as nat);
        let line = lines[n - 1]@;
        lemma_ended(lines, (n - 1) as nat);
        assert("\n"@ =~= seq!['\n']);
        assert(ended(lines, n) =~= (front + line) + seq!['\n'] + none);
        paths::a_separator_parts_the_pieces(front + line, '\n', none);
        assert(paths::split_on(none, '\n') =~= seq![none]);
        let one = seq![line];
        paths::joined_pieces_are_split_again(one, '\n');
        if n == 1 {
            assert(front + line =~= line);
            assert(paths::split_on(ended(lines, n), '\n') =~= out);
        } else {
            let before = ended(lines, (n - 2) as nat);
            assert(front =~= (before + lines[n - 2]@) + seq!['\n'] + none);
            assert(front + line =~= (before + lines[n - 2]@) + seq!['\n'] + line);
            paths::a_separator_parts_the_pieces(before + lines[n - 2]@, '\n', line);
            paths::a_separator_parts_the_pieces(before + lines[n - 2]@, '\n', none);
            let head = paths::split_on(before + lines[n - 2]@, '\n');
            assert(paths::split_on(front, '\n') =~= head + seq![none]);
            assert(head =~= paths::split_on(front, '\n').drop_last());
            assert(head =~= Seq::new((n - 1) as nat, |i: int| lines[i]@));
            assert(paths::split_on(ended(lines, n), '\n') =~= out);
        }
    }
}

/// The rows of a file are its lines, each of them ended.
pub proof fn rows_are_the_lines_of_their_file(lines: Seq<String>)
    requires
        forall|i: int| 0 <= i < lines.len() ==> !(#[trigger] lines[i])@.contains('\n'),
    ensures
        paths::split_on(ended(lines, lines.len()), '\n') == Seq::new(
            lines.len(),
            |i: int| lines[i]@,
        ).push(Seq::empty()),
{
    lemma_ended(lines, lines.len());
}

/// On the command line a detector goes by its name in lower case, and by no
/// other.
pub proof fn detectors_go_by_their_names(d: Detector, name: Seq<char>)
    ensures
        Detector::of_name(text::lowercase(d.shown())) == Some(d),
        Detector::of_name(name) matches Some(e) ==> name == text::lowercase(e.shown()),
{
    reveal_strlit("Sift");
    reveal_strlit("Akaze");
    reveal_strlit("Orb");
    reveal_strlit("Superpoint");
    reveal_strlit("Disk");
    reveal_strlit("Aruco");
    reveal_strlit("sift");
    reveal_strlit("akaze");
    reveal_strlit("orb");
    reveal_strlit("superpoint");
    reveal_strlit("disk");
    reveal_strlit("aruco");
    assert(text::lowercase("Sift"@) =~= "sift"@);
    assert(text::lowercase("Akaze"@) =~= "akaze"@);
    assert(text::lowercase("Orb"@) =~= "orb"@);
    assert(text::lowercase("Superpoint"@) =~= "superpoint"@);
    assert(text::lowercase("Disk"@) =~= "disk"@);
    assert(text::lowercase("Aruco"@) =~= "aruco"@);
    assert("sift"@[0] == 's' && "disk"@[0] == 'd' && "akaze"@[1] == 'k' && "aruco"@[1] == 'r');
}

/// The detectors that are there are those that are offered where another is
/// asked for.
pub proof fn the_detectors_on_offer_are_there(d: Detector)
    ensures
        d.exists_now() <==> seq!["sift"@, "orb"@, "aruco"@, "disk"@].contains(
            text::lowercase(d.shown()),
        ),
{
    let offered = seq!["sift"@, "orb"@, "aruco"@, "disk"@];
    detectors_go_by_their_names(d, "sift"@);
    detectors_go_by_their_names(Detector::Sift, "sift"@);
    detectors_go_by_their_names(Detector::Orb, "orb"@);
    detectors_go_by_their_names(Detector::Aruco, "aruco"@);
    detectors_go_by_their_names(Detector::Disk, "disk"@);
    assert(Detector::of_name("sift"@) == Some(Detector::Sift));
    lemma_detector_names();
    assert(offered[0] == "sift"@ && offered[1] == "orb"@ && offered[2] == "aruco"@ && offered[3]
        == "disk"@);
    if offered.contains(text::lowercase(d.shown())) {
        let k = choose|k: int| 0 <= k < 4 && offered[k] == text::lowercase(d.shown());
        assert(k == 0 || k == 1 || k == 2 || k == 3);
    }
    if d.exists_now() {
        let k: int = match d {
            Detector::Sift => 0,
            Detector::Orb => 1,
            Detector::Aruco => 2,
            _ => 3,
        };
        assert(offered[k] == text::lowercase(d.shown()));
    }
}

proof fn lemma_detector_names()
    ensures
        text::lowercase(Detector::Sift.shown()) == "sift"@,
        text::lowercase(Detector::Orb.shown()) == "orb"@,
        text::lowercase(Detector::Aruco.shown()) == "aruco"@,
        text::lowercase(Detector::Disk.shown()) == "disk"@,
        Detector::of_name("sift"@) == Some(Detector::Sift),
        Detector::of_name("orb"@) == Some(Detector::Orb),
        Detector::of_name("aruco"@) == Some(Detector::Aruco),
        Detector::of_name("disk"@) == Some(Detector::Disk),
{
    reveal_strlit("Sift");
    reveal_strlit("Orb");
    reveal_strlit("Disk");
    reveal_strlit("Aruco");
    reveal_strlit("sift");
    reveal_strlit("akaze");
    reveal_strlit("orb");
    reveal_strlit("superpoint");
    reveal_strlit("disk");
    reveal_strlit("aruco");
    assert(text::lowercase("Sift"@) =~= "sift"@);
    assert(text::lowercase("Orb"@) =~= "orb"@);
    assert(text::lowercase("Disk"@) =~= "disk"@);
    assert(text::lowercase("Aruco"@) =~= "aruco"@);
    assert("sift"@[0] == 's' && "disk"@[0] == 'd' && "akaze"@[1] == 'k' && "aruco"@[1] == 'r');
}

/// Images are matched unless by LightGlue, or paired by place or by fiducials.
pub proof fn what_can_be_matched(matcher: Matcher, pairing: Pairing)
    ensures
        matching_complaint(matcher, pairing) is None <==> matcher == Matcher::MnnRatio && pairing
            != Pairing::Spatial && pairing != Pairing::Aruco,
{
}

/// A path names a file by what follows the last dot of its last name; a name
/// without a dot is that of a directory.
pub proof fn paths_name_files_by_their_extension(
    base: Seq<char>,
    stem: Seq<char>,
    ext: Seq<char>,
    plain: Seq<char>,
)
    requires
        stem.len() > 0,
        !stem.contains('/'),
        !ext.contains('/'),
        !ext.contains('.'),
        ext.len() > 0,
        paths::is_plain(plain),
        !plain.contains('.'),
    ensures
        has_extension(paths::joined(base, stem + seq!['.'] + ext)),
        !has_extension(paths::joined(base, plain)),
{
    let name = stem + paths::dot() + ext;
    assert(name == stem + seq!['.'] + ext);
    assert(!name.contains('/')) by {
        if name.contains('/') {
            let k = choose|k: int| 0 <= k < name.len() && name[k] == '/';
            if k < stem.len() {
                assert(stem[k] == '/');
            } else if k > stem.len() {
                assert(ext[k - stem.len() - 1] == '/');
            }
        }
    }
    assert(name.len() >= 3);
    paths::files_keep_their_name(base, name);
    assert(plain != paths::dot_dot()) by {
        if plain == paths::dot_dot() {
            assert(plain[0] == '.');
        }
    }
    paths::files_keep_their_name(base, plain);
    assert forall|i: int| 0 < i < plain.len() implies #[trigger] plain[i] != '.' by {
        assert(plain.contains(plain[i]));
    }
    paths::stem_and_extension_make_the_name(stem, ext, plain);
}

} // verus!
