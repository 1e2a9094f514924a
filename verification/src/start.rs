//! What to do next, and whether the result can mean anything when it arrives.
//!
//! A reconstruction that kept its initial field-of-view guess looks as
//! plausible as a calibrated one. So two questions are answered in order: what
//! is the next command, and will its output be a calibration or a picture of
//! one.

use vstd::prelude::*;

use crate::ingest;
use crate::order;
use crate::order::push_text;
use crate::paths;
use crate::paths::join_text;
use crate::project::CameraConfig;
use crate::sets;
use crate::sets::{count_key, distinct_numbers};
use crate::text;
use crate::text::decimal_string;

verus! {

/// A single readiness check, phrased as something that can be acted on.
#[derive(Debug)]
pub struct Check {
    pub ok: bool,
    /// Short label.
    pub what: String,
    /// What is currently true.
    pub state: String,
    /// What to do about it, when there is something to do.
    pub fix: Option<String>,
    /// The command that does it.
    pub command: Option<Vec<String>>,
}

/// A check as its texts.
#[verifier::ext_equal]
pub struct CheckModel {
    pub ok: bool,
    pub what: Seq<char>,
    pub state: Seq<char>,
    pub fix: Option<Seq<char>>,
    pub command: Option<Seq<Seq<char>>>,
}

impl View for Check {
    type V = CheckModel;

    open spec fn view(&self) -> CheckModel {
        CheckModel {
            ok: self.ok,
            what: self.what@,
            state: self.state@,
            fix: match self.fix {
                Some(s) => Some(s@),
                None => None,
            },
            command: match self.command {
                Some(c) => Some(order::texts(c@)),
                None => None,
            },
        }
    }
}

/// The checks as their texts.
pub open spec fn check_models(v: Seq<Check>) -> Seq<CheckModel> {
    v.map_values(|c: Check| c@)
}

/// A lens that the configuration declares.
#[derive(Debug)]
pub struct DeclaredModel {
    pub images: String,
    pub model: String,
}

/// What is known of a project before its numbers are trusted.
#[derive(Debug)]
pub struct Readiness {
    pub num_images: usize,
    pub num_captures: usize,
    pub num_cameras: usize,
    /// Camera and number of its images, by ascending camera.
    pub images_per_camera: Vec<(u32, usize)>,
    pub merged: bool,
    pub declared_models: Vec<DeclaredModel>,
    pub checks: Vec<Check>,
}

// ---------------------------------------------------------------------------
// The checks
// ---------------------------------------------------------------------------

/// Each declared camera, as the images it is for and the model it names.
pub open spec fn are_declared<T>(v: Seq<DeclaredModel>, cameras: Seq<CameraConfig<T>>) -> bool {
    &&& v.len() == cameras.len()
    &&& forall|i: int|
        0 <= i < v.len() ==> (#[trigger] v[i]).images@ == cameras[i].images@ && v[i].model@
            == ingest::declared_name(cameras[i])
}

/// The lenses that a configuration declares.
pub fn declared_models<T>(cameras: &Vec<CameraConfig<T>>) -> (r: Vec<DeclaredModel>)
    ensures
        are_declared(r@, cameras@),
{
    let mut out: Vec<DeclaredModel> = Vec::new();
    let mut i: usize = 0;
    while i < cameras.len()
        invariant
            i <= cameras@.len(),
            are_declared(out@, cameras@.take(i as int)),
        decreases cameras@.len() - i,
    {
        let model = match &cameras[i].model {
            Some(m) => m.clone(),
            None => String::from_str("SIMPLE_RADIAL"),
        };
        out.push(DeclaredModel { images: cameras[i].images.clone(), model });
        i += 1;
    }
    assert(cameras@.take(i as int) =~= cameras@);
    out
}

/// One declared lens.
pub open spec fn declared_text(d: DeclaredModel) -> Seq<char> {
    d.images@ + " -> "@ + d.model@
}

/// The declared lenses, one after another.
pub open spec fn declared_texts(v: Seq<DeclaredModel>) -> Seq<Seq<char>> {
    v.map_values(|d: DeclaredModel| declared_text(d))
}

/// Are the lenses declared? An undeclared camera gets one radial term at a
/// guessed focal, which is silently wrong for a fisheye.
pub open spec fn model_check(declared: Seq<DeclaredModel>, num_cameras: usize) -> CheckModel {
    if declared.len() == 0 {
        CheckModel {
            ok: false,
            what: "camera models"@,
            state: "none declared - all "@ + text::decimal(
                if num_cameras < 1 {
                    1
                } else {
                    num_cameras as nat
                },
            ) + " camera(s) will be SIMPLE_RADIAL at a guessed focal"@,
            fix: Some(
                "SIMPLE_RADIAL cannot represent a fisheye lens, and a fisheye fitted as one is placed at the wrong depth. Declare the models, or search for them."@,
            ),
            command: Some(seq!["select-model"@, "--rebuild"@]),
        }
    } else {
        CheckModel {
            ok: true,
            what: "camera models"@,
            state: paths::join_with(declared_texts(declared), ", "@),
            fix: None,
            command: None,
        }
    }
}

/// Several captures need merging, or each becomes its own island in the match
/// graph.
pub open spec fn capture_check(num_captures: usize, merged: bool) -> CheckModel {
    if merged {
        CheckModel {
            ok: true,
            what: "captures"@,
            state: text::decimal(num_captures as nat) + " captures merged per camera"@,
            fix: None,
            command: None,
        }
    } else {
        CheckModel {
            ok: false,
            what: "captures"@,
            state: text::decimal(num_captures as nat) + " captures, not merged"@,
            fix: Some(
                "A fiducial that was moved between captures is a different 3D point in each one, so captures do not match each other and each becomes its own island - only one of them will reconstruct. Merge them per camera."@,
            ),
            command: Some(seq!["feature"@, "--detector"@, "aruco"@, "--merge-multicaps"@]),
        }
    }
}

/// Has every camera the images that its focal length is determined by?
pub open spec fn focal_check(fewest: usize, need: usize) -> CheckModel {
    if fewest >= need {
        CheckModel {
            ok: true,
            what: "focal length"@,
            state: text::decimal(fewest as nat) + " image(s) per camera - refinable"@,
            fix: None,
            command: None,
        }
    } else {
        CheckModel {
            ok: false,
            what: "focal length"@,
            state: text::decimal(fewest as nat) + " image(s) on the thinnest camera - needs "@
                + text::decimal(need as nat) + " to refine"@,
            fix: Some(
                "Moving the focal and moving the camera toward or away from the scene produce almost the same picture, so one view cannot separate them. The focal will stay at its initial guess and the reconstruction will still look plausible. Either give each camera views of differently-placed targets, or supply known intrinsics with refine = false."@,
            ),
            command: None,
        }
    }
}

/// The smallest number of images on any of the first `n` cameras.
pub open spec fn fewest_images(per_camera: Seq<(u32, usize)>, n: nat) -> usize
    decreases n,
{
    if n == 0 {
        0
    } else if n == 1 {
        per_camera[0].1
    } else {
        let rest = fewest_images(per_camera, (n - 1) as nat);
        if per_camera[n - 1].1 < rest {
            per_camera[n - 1].1
        } else {
            rest
        }
    }
}

/// The checks that apply to a project.
pub open spec fn checks_of(r: Readiness, need: usize) -> Seq<CheckModel> {
    seq![model_check(r.declared_models@, r.num_cameras)] + (if r.num_captures > 1 {
        seq![capture_check(r.num_captures, r.merged)]
    } else {
        Seq::empty()
    }) + (if r.images_per_camera@.len() > 0 {
        seq![
            focal_check(
                fewest_images(r.images_per_camera@, r.images_per_camera@.len()),
                need,
            ),
        ]
    } else {
        Seq::empty()
    })
}

fn add_check(out: &mut Vec<Check>, c: Check)
    ensures
        check_models(final(out)@) == check_models(old(out)@).push(c@),
{
    let ghost before = out@;
    out.push(c);
    assert(check_models(out@) =~= check_models(before).push(c@));
}

fn models_checked(declared: &Vec<DeclaredModel>, num_cameras: usize) -> (r: Check)
    ensures
        r@ == model_check(declared@, num_cameras),
{
    if declared.len() == 0 {
        let mut state = String::from_str("none declared - all ");
        state.append(
            decimal_string(
                if num_cameras < 1 {
                    1
                } else {
                    num_cameras as u64
                },
            ).as_str(),
        );
        state.append(" camera(s) will be SIMPLE_RADIAL at a guessed focal");
        let mut command: Vec<String> = Vec::new();
        push_text(&mut command, String::from_str("select-model"));
        push_text(&mut command, String::from_str("--rebuild"));
        assert(order::texts(command@) =~= seq!["select-model"@, "--rebuild"@]);
        Check {
            ok: false,
            what: String::from_str("camera models"),
            state,
            fix: Some(
                String::from_str(
                    "SIMPLE_RADIAL cannot represent a fisheye lens, and a fisheye fitted as one is placed at the wrong depth. Declare the models, or search for them.",
                ),
            ),
            command: Some(command),
        }
    } else {
        let mut parts: Vec<String> = Vec::new();
        let mut i: usize = 0;
        assert(order::texts(parts@) =~= declared_texts(declared@).take(0));
        while i < declared.len()
            invariant
                i <= declared@.len(),
                order::texts(parts@) == declared_texts(declared@).take(i as int),
            decreases declared@.len() - i,
        {
            let mut part = declared[i].images.clone();
            part.append(" -> ");
            part.append(declared[i].model.as_str());
            push_text(&mut parts, part);
            i += 1;
            assert(order::texts(parts@) =~= declared_texts(declared@).take(i as int));
        }
        assert(order::texts(parts@) =~= declared_texts(declared@));
        Check {
            ok: true,
            what: String::from_str("camera models"),
            state: join_text(&parts, ", "),
            fix: None,
            command: None,
        }
    }
}

fn captures_checked(num_captures: usize, merged: bool) -> (r: Check)
    ensures
        r@ == capture_check(num_captures, merged),
{
    let mut state = decimal_string(num_captures as u64);
    if merged {
        state.append(" captures merged per camera");
        Check {
            ok: true,
            what: String::from_str("captures"),
            state,
            fix: None,
            command: None,
        }
    } else {
        state.append(" captures, not merged");
        let mut command: Vec<String> = Vec::new();
        push_text(&mut command, String::from_str("feature"));
        push_text(&mut command, String::from_str("--detector"));
        push_text(&mut command, String::from_str("aruco"));
        push_text(&mut command, String::from_str("--merge-multicaps"));
        assert(order::texts(command@) =~= seq![
            "feature"@,
            "--detector"@,
            "aruco"@,
            "--merge-multicaps"@,
        ]);
        Check {
            ok: false,
            what: String::from_str("captures"),
            state,
            fix: Some(
                String::from_str(
                    "A fiducial that was moved between captures is a different 3D point in each one, so captures do not match each other and each becomes its own island - only one of them will reconstruct. Merge them per camera.",
                ),
            ),
            command: Some(command),
        }
    }
}

fn focal_checked(fewest: usize, need: usize) -> (r: Check)
    ensures
        r@ == focal_check(fewest, need),
{
    let mut state = decimal_string(fewest as u64);
    if fewest >= need {
        state.append(" image(s) per camera - refinable");
        Check {
            ok: true,
            what: String::from_str("focal length"),
            state,
            fix: None,
            command: None,
        }
    } else {
        state.append(" image(s) on the thinnest camera - needs ");
        state.append(decimal_string(need as u64).as_str());
        state.append(" to refine");
        Check {
            ok: false,
            what: String::from_str("focal length"),
            state,
            fix: Some(
                String::from_str(
                    "Moving the focal and moving the camera toward or away from the scene produce almost the same picture, so one view cannot separate them. The focal will stay at its initial guess and the reconstruction will still look plausible. Either give each camera views of differently-placed targets, or supply known intrinsics with refine = false.",
                ),
            ),
            command: None,
        }
    }
}

/// The cameras and how many images each has.
pub open spec fn counts_images(per_camera: Seq<(u32, usize)>, image_cameras: Seq<u32>) -> bool {
    &&& per_camera.map_values(|p: (u32, usize)| p.0) == sets::sorted_set(image_cameras)
    &&& forall|i: int|
        0 <= i < per_camera.len() ==> (#[trigger] per_camera[i]).1 == sets::key_count(
            image_cameras,
            per_camera[i].0,
            image_cameras.len(),
        )
}

proof fn lemma_counts(per_camera: Seq<(u32, usize)>, image_cameras: Seq<u32>, n: nat)
    requires
        counts_images(per_camera, image_cameras),
        n <= per_camera.len(),
    ensures
        ({
            let all = sets::sorted_set(image_cameras);
            let total = sets::occurrences(image_cameras, all, image_cameras.len(), n);
            &&& total >= n
            &&& total == n <==> forall|i: int| 0 <= i < n ==> (#[trigger] per_camera[i]).1 == 1
        }),
    decreases n,
{
    if n > 0 {
        lemma_counts(per_camera, image_cameras, (n - 1) as nat);
        let all = sets::sorted_set(image_cameras);
        let cameras = per_camera.map_values(|p: (u32, usize)| p.0);
        sets::sorted_set_is_the_set(image_cameras);
        assert(cameras[n - 1] == per_camera[n - 1].0);
        assert(all.to_set().contains(all[n - 1]));
        let k = choose|k: int| 0 <= k < image_cameras.len() && image_cameras[k] == all[n - 1];
        sets::lemma_key_occurs(image_cameras, image_cameras.len(), k);
        if forall|i: int| 0 <= i < n ==> (#[trigger] per_camera[i]).1 == 1 {
            assert(per_camera[n - 1].1 == 1);
        }
    }
}

/// There are as many images as cameras exactly where every camera has one.
pub proof fn as_many_images_as_cameras(per_camera: Seq<(u32, usize)>, image_cameras: Seq<u32>)
    requires
        counts_images(per_camera, image_cameras),
    ensures
        image_cameras.len() == per_camera.len() <==> forall|i: int|
            0 <= i < per_camera.len() ==> (#[trigger] per_camera[i]).1 == 1,
        image_cameras.len() == 0 <==> per_camera.len() == 0,
{
    lemma_counts(per_camera, image_cameras, per_camera.len());
    sets::counts_add_up(image_cameras);
    let cameras = per_camera.map_values(|p: (u32, usize)| p.0);
    assert(cameras.len() == per_camera.len());
}

/// Counts images by camera.
pub fn count_images(image_cameras: &Vec<u32>) -> (out: Vec<(u32, usize)>)
    ensures
        counts_images(out@, image_cameras@),
{
    let cameras = distinct_numbers(image_cameras);
    let mut out: Vec<(u32, usize)> = Vec::new();
    let mut i: usize = 0;
    while i < cameras.len()
        invariant
            i <= cameras@.len(),
            out@.len() == i,
            forall|k: int|
                0 <= k < i ==> (#[trigger] out@[k]).0 == cameras@[k] && out@[k].1
                    == sets::key_count(image_cameras@, cameras@[k], image_cameras@.len()),
        decreases cameras@.len() - i,
    {
        out.push((cameras[i], count_key(image_cameras, cameras[i])));
        i += 1;
    }
    assert(out@.map_values(|p: (u32, usize)| p.0) =~= cameras@);
    out
}

impl Readiness {
    /// What is known where there is no project to read.
    pub fn unread() -> (r: Self)
        ensures
            r.num_images == 0,
            r.num_captures == 0,
            r.num_cameras == 0,
            r.images_per_camera@.len() == 0,
            !r.merged,
            r.declared_models@.len() == 0,
            r.checks@.len() == 0,
    {
        Readiness {
            num_images: 0,
            num_captures: 0,
            num_cameras: 0,
            images_per_camera: Vec::new(),
            merged: false,
            declared_models: Vec::new(),
            checks: Vec::new(),
        }
    }

    /// Reads a project: the camera and capture of each image of the dataset,
    /// the cameras that the configuration declares, and the camera of each
    /// image in the database.
    pub fn read<T>(
        cameras: &Vec<u32>,
        captures: &Vec<u32>,
        declared: &Vec<CameraConfig<T>>,
        image_cameras: &Vec<u32>,
        need: usize,
    ) -> (r: Self)
        requires
            cameras@.len() == captures@.len(),
        ensures
            r.num_images == cameras@.len(),
            r.num_captures == sets::sorted_set(captures@).len(),
            r.num_cameras == sets::sorted_set(cameras@).len(),
            counts_images(r.images_per_camera@, image_cameras@),
            // Merging pools every capture of a camera into one feature set, so
            // several captures that came to one image per camera were merged.
            r.merged == (r.num_captures > 1 && image_cameras@.len() > 0 && image_cameras@.len()
                == r.images_per_camera@.len()),
            are_declared(r.declared_models@, declared@),
            check_models(r.checks@) == checks_of(r, need),
    {
        let num_captures: usize = distinct_numbers(captures).len();
        let num_cameras: usize = distinct_numbers(cameras).len();
        let images_per_camera = count_images(image_cameras);
        let merged = num_captures > 1 && image_cameras.len() > 0 && image_cameras.len()
            == images_per_camera.len();
        let mut r = Readiness {
            num_images: cameras.len(),
            num_captures,
            num_cameras,
            images_per_camera,
            merged,
            declared_models: declared_models(declared),
            checks: Vec::new(),
        };
        let checks = r.build_checks(need);
        r.checks = checks;
        r
    }

    /// Every check that applies.
    pub fn build_checks(&self, need: usize) -> (out: Vec<Check>)
        ensures
            check_models(out@) == checks_of(*self, need),
    {
        let mut out: Vec<Check> = Vec::new();
        let ghost none: Seq<CheckModel> = Seq::empty();
        assert(check_models(out@) =~= none);
        add_check(&mut out, models_checked(&self.declared_models, self.num_cameras));
        let ghost first = check_models(out@);
        assert(first =~= seq![model_check(self.declared_models@, self.num_cameras)]);
        if self.num_captures > 1 {
            add_check(&mut out, captures_checked(self.num_captures, self.merged));
        }
        let ghost second = check_models(out@);
        assert(second =~= first + (if self.num_captures > 1 {
            seq![capture_check(self.num_captures, self.merged)]
        } else {
            none
        }));
        if self.images_per_camera.len() > 0 {
            let mut fewest: usize = self.images_per_camera[0].1;
            let mut i: usize = 1;
            while i < self.images_per_camera.len()
                invariant
                    1 <= i <= self.images_per_camera@.len(),
                    fewest == fewest_images(self.images_per_camera@, i as nat),
                decreases self.images_per_camera@.len() - i,
            {
                if self.images_per_camera[i].1 < fewest {
                    fewest = self.images_per_camera[i].1;
                }
                i += 1;
            }
            add_check(&mut out, focal_checked(fewest, need));
        }
        assert(check_models(out@) =~= checks_of(*self, need));
        out
    }

    /// Whether nothing is worth attention before the numbers are trusted.
    pub fn all_ok(&self) -> (r: bool)
        ensures
            r == forall|i: int| 0 <= i < self.checks@.len() ==> (#[trigger] self.checks@[i]).ok,
    {
        let mut i: usize = 0;
        while i < self.checks.len()
            invariant
                i <= self.checks@.len(),
                forall|k: int| 0 <= k < i ==> (#[trigger] self.checks@[k]).ok,
            decreases self.checks@.len() - i,
        {
            if !self.checks[i].ok {
                return false;
            }
            i += 1;
        }
        true
    }
}

/// A project of a single capture is never asked to merge.
pub proof fn single_captures_are_not_asked_to_merge(r: Readiness, need: usize, i: int)
    requires
        r.num_captures <= 1,
        0 <= i < checks_of(r, need).len(),
    ensures
        checks_of(r, need)[i].what != "captures"@,
{
    reveal_strlit("captures");
    reveal_strlit("camera models");
    reveal_strlit("focal length");
    assert("captures"@.len() == 8);
    assert("camera models"@.len() == 13);
    assert("focal length"@.len() == 12);
}

/// No command is offered for a focal length that only other data or known
/// intrinsics can settle.
pub proof fn no_command_settles_a_focal_length(fewest: usize, need: usize)
    ensures
        focal_check(fewest, need).command is None,
        focal_check(fewest, need).ok <==> fewest >= need,
{
}

proof fn lemma_fewest(per_camera: Seq<(u32, usize)>, n: nat)
    requires
        0 < n <= per_camera.len(),
    ensures
        forall|i: int|
            0 <= i < n ==> fewest_images(per_camera, n) <= (#[trigger] per_camera[i]).1,
        exists|i: int| 0 <= i < n && (#[trigger] per_camera[i]).1 == fewest_images(per_camera, n),
    decreases n,
{
    if n > 1 {
        lemma_fewest(per_camera, (n - 1) as nat);
        let rest = fewest_images(per_camera, (n - 1) as nat);
        if per_camera[n - 1].1 < rest {
            assert(per_camera[n - 1].1 == fewest_images(per_camera, n));
        } else {
            let i = choose|i: int| 0 <= i < n - 1 && (#[trigger] per_camera[i]).1 == rest;
            assert(per_camera[i].1 == fewest_images(per_camera, n));
        }
    } else {
        assert(per_camera[0].1 == fewest_images(per_camera, n));
    }
}

/// A project passes every check exactly where its lenses are declared, its
/// captures are merged if there are several, and each of its cameras has the
/// images that its focal length needs.
pub proof fn projects_are_ready_where_nothing_is_amiss(r: Readiness, need: usize)
    ensures
        (forall|i: int| 0 <= i < checks_of(r, need).len() ==> (#[trigger] checks_of(r, need)[i]).ok)
            <==> r.declared_models@.len() > 0 && (r.num_captures <= 1 || r.merged) && forall|
            k: int,
        |
            0 <= k < r.images_per_camera@.len() ==> (#[trigger] r.images_per_camera@[k]).1 >= need,
{
    let all = checks_of(r, need);
    let per = r.images_per_camera@;
    if per.len() > 0 {
        lemma_fewest(per, per.len());
    }
    assert(all[0] == model_check(r.declared_models@, r.num_cameras));
    let second: int = if r.num_captures > 1 {
        1
    } else {
        0
    };
    if r.num_captures > 1 {
        assert(all[1] == capture_check(r.num_captures, r.merged));
    }
    if per.len() > 0 {
        assert(all[1 + second] == focal_check(fewest_images(per, per.len()), need));
    }
    assert(all.len() == 1 + second + (if per.len() > 0 {
        1int
    } else {
        0
    }));
    if forall|i: int| 0 <= i < all.len() ==> (#[trigger] all[i]).ok {
        assert(all[0].ok);
        if r.num_captures > 1 {
            assert(all[1].ok);
        }
        if per.len() > 0 {
            assert(all[1 + second].ok);
        }
    }
    if per.len() > 0 && fewest_images(per, per.len()) < need {
        let k = choose|k: int|
            0 <= k < per.len() && (#[trigger] per[k]).1 == fewest_images(per, per.len());
        assert(per[k].1 < need);
    }
}

/// Each camera has as many images as are of it, and every camera with an image
/// is there.
pub proof fn cameras_have_the_images_that_are_theirs(
    per_camera: Seq<(u32, usize)>,
    image_cameras: Seq<u32>,
    i: int,
    k: int,
)
    requires
        counts_images(per_camera, image_cameras),
        0 <= i < per_camera.len(),
        0 <= k < image_cameras.len(),
    ensures
        per_camera[i].1 == sets::how_many(
            image_cameras,
            sets::is_key(per_camera[i].0),
            image_cameras.len(),
        ),
        exists|j: int| 0 <= j < per_camera.len() && (#[trigger] per_camera[j]).0 == image_cameras[k],
{
    sets::keys_are_counted(image_cameras, per_camera[i].0, image_cameras.len());
    sets::sorted_set_is_the_set(image_cameras);
    let set = sets::sorted_set(image_cameras);
    assert(image_cameras.to_set().contains(image_cameras[k]));
    assert(set.to_set().contains(image_cameras[k]));
    let j = choose|j: int| 0 <= j < set.len() && set[j] == image_cameras[k];
    let firsts = per_camera.map_values(|p: (u32, usize)| p.0);
    assert(firsts[j] == per_camera[j].0);
}

/// A declared lens is told of with its own images and with the model that it
/// names, or SIMPLE_RADIAL where it names none.
pub proof fn lenses_are_told_of_as_declared<T>(
    v: Seq<DeclaredModel>,
    cameras: Seq<CameraConfig<T>>,
    i: int,
)
    requires
        are_declared(v, cameras),
        0 <= i < cameras.len(),
    ensures
        v.len() == cameras.len(),
        v[i].images@ == cameras[i].images@,
        cameras[i].model matches Some(m) ==> v[i].model@ == m@,
        cameras[i].model is None ==> v[i].model@ == "SIMPLE_RADIAL"@,
{
    assert(v[i].images@ == cameras[i].images@);
}

} // verus!
