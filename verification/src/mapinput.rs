//! What a reconstruction is given: images, pairs, known poses and pinned
//! cameras, resolved from the project's rows and its configuration.
//!
//! Choosing a camera model honestly requires rebuilding, and every caller has
//! to load identically, or the comparison would be measuring the loader rather
//! than the model.

use std::collections::HashSet;

use vstd::prelude::*;

use crate::error::SfmError;
use crate::order;
use crate::paths;
use crate::paths::number_list;
use crate::project;
use crate::project::{glob_match, CameraConfig, PoseConfig};
use crate::sets;
use crate::sets::distinct_numbers;
use crate::text;
use crate::text::{decimal_string, quoted};

verus! {

/// An image of the project.
#[derive(Debug)]
pub struct ImageRow {
    pub id: u32,
    pub camera_id: u32,
    pub name: String,
}

// ---------------------------------------------------------------------------
// Known poses
// ---------------------------------------------------------------------------

pub open spec fn is_image(images: Seq<ImageRow>, name: Seq<char>) -> bool {
    exists|i: int| 0 <= i < images.len() && (#[trigger] images[i]).name@ == name
}

/// The names among the first `n` poses that no image has.
pub open spec fn unknown_names<P>(poses: Seq<PoseConfig<P>>, images: Seq<ImageRow>, n: nat) -> Seq<
    Seq<char>,
>
    decreases n,
{
    if n == 0 {
        Seq::empty()
    } else {
        let front = unknown_names(poses, images, (n - 1) as nat);
        if is_image(images, poses[n - 1].image@) {
            front
        } else {
            front.push(poses[n - 1].image@)
        }
    }
}

pub open spec fn quoted_list(names: Seq<Seq<char>>) -> Seq<char> {
    "["@ + paths::join_with(names.map_values(|s: Seq<char>| text::debug_form(s)), ", "@) + "]"@
}

/// The complaint about poses that name no image.
pub open spec fn pose_complaint(missing: Seq<Seq<char>>) -> Seq<char> {
    text::decimal(missing.len())
        + " [[poses]] entr(y/ies) name images that are not in this project: "@ + quoted_list(
        missing,
    ) + " (check the file names match exactly, including any directory prefix)"@
}

fn has_image(images: &Vec<ImageRow>, name: &String) -> (r: bool)
    ensures
        r == is_image(images@, name@),
{
    let mut i: usize = 0;
    while i < images.len()
        invariant
            i <= images.len(),
            forall|k: int| 0 <= k < i ==> (#[trigger] images@[k]).name@ != name@,
        decreases images.len() - i,
    {
        if images[i].name == *name {
            assert(images@[i as int].name@ == name@);
            return true;
        }
        i += 1;
    }
    false
}

/// Every known pose must belong to an image.
pub fn check_poses<P>(poses: &Vec<PoseConfig<P>>, images: &Vec<ImageRow>) -> (r: Result<
    (),
    SfmError,
>)
    ensures
        ({
            let missing = sets::distinct(unknown_names(poses@, images@, poses@.len()));
            match r {
                Ok(_) => missing.len() == 0,
                Err(e) => missing.len() > 0 && (e matches SfmError::Other(m) && m@
                    == pose_complaint(missing)),
            }
        }),
{
    let mut unknown: Vec<String> = Vec::new();
    let mut i: usize = 0;
    assert(order::texts(unknown@) =~= unknown_names(poses@, images@, 0));
    while i < poses.len()
        invariant
            i <= poses.len(),
            order::texts(unknown@) == unknown_names(poses@, images@, i as nat),
        decreases poses.len() - i,
    {
        if !has_image(images, &poses[i].image) {
            let ghost before = unknown@;
            unknown.push(poses[i].image.clone());
            proof {
                order::lemma_texts_push(before, unknown@.last());
                assert(unknown@ =~= before.push(unknown@.last()));
            }
        }
        i += 1;
    }
    let missing = sets::distinct_texts(&unknown);
    let ghost names = order::texts(missing@);
    assert(missing@.len() == names.len());
    if missing.len() == 0 {
        return Ok(());
    }
    let mut parts: Vec<String> = Vec::new();
    let ghost forms = names.map_values(|s: Seq<char>| text::debug_form(s));
    let mut k: usize = 0;
    assert(order::texts(parts@) =~= forms.take(0));
    while k < missing.len()
        invariant
            k <= missing.len(),
            names == order::texts(missing@),
            forms == names.map_values(|s: Seq<char>| text::debug_form(s)),
            order::texts(parts@) == forms.take(k as int),
        decreases missing.len() - k,
    {
        let ghost before = parts@;
        parts.push(quoted(missing[k].as_str()));
        proof {
            order::lemma_texts_push(before, parts@.last());
            assert(parts@ =~= before.push(parts@.last()));
        }
        k += 1;
        assert(order::texts(parts@) =~= forms.take(k as int));
    }
    assert(forms.take(forms.len() as int) =~= forms);
    let mut m = decimal_string(missing.len() as u64);
    m.append(" [[poses]] entr(y/ies) name images that are not in this project: ");
    let mut list = String::from_str("[");
    list.append(paths::join_text(&parts, ", ").as_str());
    list.append("]");
    m.append(list.as_str());
    m.append(" (check the file names match exactly, including any directory prefix)");
    Err(SfmError::Other(m))
}

/// The last of the first `n` poses that names an image.
pub open spec fn pose_named<P>(poses: Seq<PoseConfig<P>>, name: Seq<char>, n: nat) -> Option<int>
    decreases n,
{
    if n == 0 {
        None
    } else if poses[n - 1].image@ == name {
        Some(n - 1)
    } else {
        pose_named(poses, name, (n - 1) as nat)
    }
}

/// The known pose of an image, by its place in the configuration, and whether
/// it is pinned. The last entry for a name counts.
pub fn known_pose<P>(poses: &Vec<PoseConfig<P>>, name: &String) -> (r: (Option<usize>, bool))
    ensures
        match r.0 {
            Some(i) => i < poses@.len() && pose_named(poses@, name@, poses@.len()) == Some(
                i as int,
            ) && r.1 == (poses@[i as int].fixed == Some(true)),
            None => pose_named(poses@, name@, poses@.len()) is None && !r.1,
        },
{
    let mut i: usize = poses.len();
    while i > 0
        invariant
            i <= poses.len(),
            pose_named(poses@, name@, poses@.len()) == pose_named(poses@, name@, i as nat),
        decreases i,
    {
        i -= 1;
        if poses[i].image == *name {
            let fixed = match poses[i].fixed {
                Some(f) => f,
                None => false,
            };
            return (Some(i), fixed);
        }
    }
    (None, false)
}

// ---------------------------------------------------------------------------
// Images and pairs
// ---------------------------------------------------------------------------

/// Where the image of an id stands: the last of the first `n` rows with it.
pub open spec fn place_of(images: Seq<ImageRow>, id: u32, n: nat) -> Option<int>
    decreases n,
{
    if n == 0 {
        None
    } else if images[n - 1].id == id {
        Some(n - 1)
    } else {
        place_of(images, id, (n - 1) as nat)
    }
}

/// The place of an image is one with its id, the last where several have it.
pub proof fn lemma_place_of(images: Seq<ImageRow>, id: u32, n: nat)
    ensures
        match place_of(images, id, n) {
            Some(i) => 0 <= i < n && images[i].id == id && forall|j: int|
                i < j < n ==> (#[trigger] images[j]).id != id,
            None => forall|i: int| 0 <= i < n ==> (#[trigger] images[i]).id != id,
        },
    decreases n,
{
    if n > 0 && images[n - 1].id != id {
        lemma_place_of(images, id, (n - 1) as nat);
    }
}

/// The place of an image.
pub fn find_image(images: &Vec<ImageRow>, id: u32) -> (r: Option<usize>)
    ensures
        match r {
            Some(i) => i < images@.len() && place_of(images@, id, images@.len()) == Some(i as int),
            None => place_of(images@, id, images@.len()) is None,
        },
{
    let mut i: usize = images.len();
    while i > 0
        invariant
            i <= images.len(),
            place_of(images@, id, images@.len()) == place_of(images@, id, i as nat),
        decreases i,
    {
        i -= 1;
        if images[i].id == id {
            return Some(i);
        }
    }
    None
}

/// The pairs given by the places of their images.
pub open spec fn placed_pairs(images: Seq<ImageRow>, pairs: Seq<(u32, u32)>) -> Seq<(int, int)> {
    pairs.map_values(
        |p: (u32, u32)|
            (
                place_of(images, p.0, images.len())->0,
                place_of(images, p.1, images.len())->0,
            ),
    )
}

/// Both images of the pair are in the project.
pub open spec fn pair_known(images: Seq<ImageRow>, p: (u32, u32)) -> bool {
    place_of(images, p.0, images.len()) is Some && place_of(images, p.1, images.len()) is Some
}

/// The complaint about a pair that names an image which is not there.
pub open spec fn unknown_pair(pair: (u32, u32)) -> Seq<char> {
    "a verified pair names an image that is not in the project: "@ + text::decimal(pair.0 as nat)
        + ", "@ + text::decimal(pair.1 as nat)
}

/// Fails at the first pair that names an image which is not there.
pub fn check_pairs(images: &Vec<ImageRow>, pairs: &Vec<(u32, u32)>) -> (r: Result<(), SfmError>)
    ensures
        match r {
            Ok(_) => forall|k: int|
                0 <= k < pairs@.len() ==> pair_known(images@, #[trigger] pairs@[k]),
            Err(e) => e matches SfmError::Other(m) && exists|k: int|
                0 <= k < pairs@.len() && m@ == unknown_pair(#[trigger] pairs@[k]) && !pair_known(
                    images@,
                    pairs@[k],
                ) && forall|j: int| 0 <= j < k ==> pair_known(images@, #[trigger] pairs@[j]),
        },
{
    let mut k: usize = 0;
    while k < pairs.len()
        invariant
            k <= pairs@.len(),
            forall|j: int| 0 <= j < k ==> pair_known(images@, #[trigger] pairs@[j]),
        decreases pairs@.len() - k,
    {
        let pair = pairs[k];
        if find_image(images, pair.0).is_none() || find_image(images, pair.1).is_none() {
            let mut m = String::from_str(
                "a verified pair names an image that is not in the project: ",
            );
            m.append(decimal_string(pair.0 as u64).as_str());
            m.append(", ");
            m.append(decimal_string(pair.1 as u64).as_str());
            assert(m@ == unknown_pair(pairs@[k as int]));
            return Err(SfmError::Other(m));
        }
        assert(pair_known(images@, pairs@[k as int]));
        k += 1;
    }
    Ok(())
}

/// Turns pairs of ids into pairs of places.
pub fn compact_pairs(images: &Vec<ImageRow>, pairs: &Vec<(u32, u32)>) -> (out: Vec<(usize, usize)>)
    requires
        forall|k: int| 0 <= k < pairs@.len() ==> pair_known(images@, #[trigger] pairs@[k]),
    ensures
        out@.len() == pairs@.len(),
        forall|k: int|
            0 <= k < pairs@.len() ==> ((#[trigger] out@[k]).0 as int, out@[k].1 as int)
                == placed_pairs(images@, pairs@)[k],
{
    let mut out: Vec<(usize, usize)> = Vec::new();
    let mut k: usize = 0;
    while k < pairs.len()
        invariant
            k <= pairs.len(),
            out@.len() == k,
            forall|k: int| 0 <= k < pairs@.len() ==> pair_known(images@, #[trigger] pairs@[k]),
            forall|j: int|
                0 <= j < k ==> ((#[trigger] out@[j]).0 as int, out@[j].1 as int) == placed_pairs(
                    images@,
                    pairs@,
                )[j],
        decreases pairs.len() - k,
    {
        let (a, b) = pairs[k];
        assert(pair_known(images@, pairs@[k as int]));
        match (find_image(images, a), find_image(images, b)) {
            (Some(i), Some(j)) => {
                out.push((i, j));
            },
            _ => {
                assert(false);
            },
        }
        k += 1;
    }
    out
}

/// What must be there before mapping can begin.
pub fn check_counts(num_images: usize, num_pairs: usize) -> (r: Result<(), SfmError>)
    ensures
        match r {
            Ok(_) => num_images >= 2 && num_pairs > 0,
            Err(e) => e matches SfmError::Other(m) && m@ == if num_images < 2 {
                "need at least 2 images with extracted features to map; run `sfm extract` first"@
            } else {
                "no verified image pairs found; run `sfm match` first"@
            } && (num_images < 2 || num_pairs == 0),
        },
{
    if num_images < 2 {
        return Err(
            SfmError::Other(
                String::from_str(
                    "need at least 2 images with extracted features to map; run `sfm extract` first",
                ),
            ),
        );
    }
    if num_pairs == 0 {
        return Err(
            SfmError::Other(
                String::from_str("no verified image pairs found; run `sfm match` first"),
            ),
        );
    }
    Ok(())
}

// ---------------------------------------------------------------------------
// Cameras
// ---------------------------------------------------------------------------

/// The configuration pins a camera: an entry that is not to be refined claims
/// one of its images.
pub open spec fn is_pinned<T>(
    cameras: Seq<CameraConfig<T>>,
    images: Seq<ImageRow>,
    id: u32,
) -> bool {
    exists|c: int, i: int|
        0 <= c < cameras.len() && 0 <= i < images.len() && (#[trigger] cameras[c]).refine == Some(
            false,
        ) && (#[trigger] images[i]).camera_id == id && project::matches_glob(
            cameras[c].images@,
            images[i].name@,
        )
}

/// Cameras whose intrinsics the configuration pins, resolved from the declared
/// globs back to the ids that the images have.
pub fn pinned_cameras<T>(cameras: &Vec<CameraConfig<T>>, images: &Vec<ImageRow>) -> (out: Vec<u32>)
    ensures
        sets::increasing(out@),
        forall|id: u32| #[trigger] out@.contains(id) <==> is_pinned(cameras@, images@, id),
{
    let mut found: Vec<u32> = Vec::new();
    let mut c: usize = 0;
    while c < cameras.len()
        invariant
            c <= cameras.len(),
            forall|id: u32| #[trigger]
                found@.contains(id) <==> exists|a: int, i: int|
                    0 <= a < c && 0 <= i < images@.len() && (#[trigger] cameras@[a]).refine == Some(
                        false,
                    ) && (#[trigger] images@[i]).camera_id == id && project::matches_glob(
                        cameras@[a].images@,
                        images@[i].name@,
                    ),
        decreases cameras.len() - c,
    {
        let pinned = match cameras[c].refine {
            Some(r) => !r,
            None => false,
        };
        let ghost before = found@;
        if pinned {
            let mut i: usize = 0;
            while i < images.len()
                invariant
                    c < cameras.len(),
                    i <= images.len(),
                    cameras@[c as int].refine == Some(false),
                    forall|id: u32| #[trigger]
                        found@.contains(id) <==> before.contains(id) || exists|k: int|
                            0 <= k < i && (#[trigger] images@[k]).camera_id == id
                                && project::matches_glob(
                                cameras@[c as int].images@,
                                images@[k].name@,
                            ),
                decreases images.len() - i,
            {
                let ghost sofar = found@;
                if glob_match(cameras[c].images.as_str(), images[i].name.as_str()) {
                    found.push(images[i].camera_id);
                    assert forall|id: u32| #[trigger] found@.contains(id) <==> sofar.contains(id)
                        || id == images@[i as int].camera_id by {
                        if sofar.contains(id) {
                            let q = choose|q: int| 0 <= q < sofar.len() && sofar[q] == id;
                            assert(found@[q] == id);
                        }
                        if id == images@[i as int].camera_id {
                            assert(found@[found@.len() - 1] == id);
                        }
                        if found@.contains(id) && !sofar.contains(id) {
                            let q = choose|q: int| 0 <= q < found@.len() && found@[q] == id;
                            if q < sofar.len() {
                                assert(sofar[q] == id);
                            }
                        }
                    }
                }
                assert forall|id: u32| #[trigger] found@.contains(id) <==> before.contains(id)
                    || exists|k: int|
                    0 <= k < i + 1 && (#[trigger] images@[k]).camera_id == id
                        && project::matches_glob(
                        cameras@[c as int].images@,
                        images@[k].name@,
                    ) by {
                    assert(sofar.contains(id) <==> before.contains(id) || exists|k: int|
                        0 <= k < i && (#[trigger] images@[k]).camera_id == id
                            && project::matches_glob(
                            cameras@[c as int].images@,
                            images@[k].name@,
                        ));
                    if id == images@[i as int].camera_id && found@.contains(id)
                        && !sofar.contains(id) {
                        assert(images@[i as int].camera_id == id);
                    }
                }
                i += 1;
            }
        }
        assert forall|id: u32| #[trigger] found@.contains(id) <==> exists|a: int, i: int|
            0 <= a < c + 1 && 0 <= i < images@.len() && (#[trigger] cameras@[a]).refine == Some(
                false,
            ) && (#[trigger] images@[i]).camera_id == id && project::matches_glob(
                cameras@[a].images@,
                images@[i].name@,
            ) by {
            if before.contains(id) {
                let (a, i) = choose|a: int, i: int|
                    0 <= a < c && 0 <= i < images@.len() && (#[trigger] cameras@[a]).refine == Some(
                        false,
                    ) && (#[trigger] images@[i]).camera_id == id && project::matches_glob(
                        cameras@[a].images@,
                        images@[i].name@,
                    );
                assert(cameras@[a].refine == Some(false) && images@[i].camera_id == id);
            }
            if pinned && exists|k: int|
                0 <= k < images@.len() && (#[trigger] images@[k]).camera_id == id
                    && project::matches_glob(cameras@[c as int].images@, images@[k].name@) {
                let k = choose|k: int|
                    0 <= k < images@.len() && (#[trigger] images@[k]).camera_id == id
                        && project::matches_glob(cameras@[c as int].images@, images@[k].name@);
                assert(cameras@[c as int].refine == Some(false) && images@[k].camera_id == id);
            }
            if exists|a: int, i: int|
                0 <= a < c + 1 && 0 <= i < images@.len() && (#[trigger] cameras@[a]).refine == Some(
                    false,
                ) && (#[trigger] images@[i]).camera_id == id && project::matches_glob(
                    cameras@[a].images@,
                    images@[i].name@,
                ) {
                let (a, i) = choose|a: int, i: int|
                    0 <= a < c + 1 && 0 <= i < images@.len() && (#[trigger] cameras@[a]).refine
                        == Some(false) && (#[trigger] images@[i]).camera_id == id
                        && project::matches_glob(cameras@[a].images@, images@[i].name@);
                if a < c {
                    assert(before.contains(id));
                }
            }
        }
        c += 1;
    }
    let out = sets::distinct_numbers(&found);
    assert forall|id: u32| #[trigger] out@.contains(id) <==> is_pinned(cameras@, images@, id) by {
        assert(out@.to_set().contains(id) == out@.contains(id));
        assert(found@.to_set().contains(id) == found@.contains(id));
    }
    out
}

/// The cameras of the images among the first `n` that a glob claims.
pub open spec fn cameras_claimed(images: Seq<ImageRow>, glob: Seq<char>, n: nat) -> Seq<u32>
    decreases n,
{
    if n == 0 {
        Seq::empty()
    } else {
        let front = cameras_claimed(images, glob, (n - 1) as nat);
        if project::matches_glob(glob, images[n - 1].name@) {
            front.push(images[n - 1].camera_id)
        } else {
            front
        }
    }
}

/// The cameras that one declared entry applies to: ascending, and only those
/// that the project has.
pub open spec fn known_among(ids: Seq<u32>, known: Set<u32>, n: nat) -> Seq<u32>
    decreases n,
{
    if n == 0 {
        Seq::empty()
    } else {
        let front = known_among(ids, known, (n - 1) as nat);
        if known.contains(ids[n - 1]) {
            front.push(ids[n - 1])
        } else {
            front
        }
    }
}

/// The cameras that entry `c` declares a model for.
pub open spec fn declares_for<T>(
    cfg: CameraConfig<T>,
    images: Seq<ImageRow>,
    known: Set<u32>,
) -> Seq<u32> {
    if cfg.model is None {
        Seq::empty()
    } else {
        let ids = sets::sorted_set(cameras_claimed(images, cfg.images@, images.len()));
        known_among(ids, known, ids.len())
    }
}

/// The cameras whose model one declared entry sets. The configuration is
/// authoritative over the stored rows for camera *models*: they disagree
/// exactly when the user edits the declaration afterwards, which is the whole
/// workflow for fixing a wrong camera model.
pub fn model_targets<T>(
    cfg: &CameraConfig<T>,
    images: &Vec<ImageRow>,
    known: &HashSet<u32>,
) -> (out: Vec<u32>)
    ensures
        out@ == declares_for(*cfg, images@, known@),
{
    broadcast use vstd::std_specs::hash::group_hash_axioms;

    let mut out: Vec<u32> = Vec::new();
    if cfg.model.is_none() {
        assert(out@ =~= Seq::<u32>::empty());
        return out;
    }
    let mut claimed: Vec<u32> = Vec::new();
    let mut i: usize = 0;
    while i < images.len()
        invariant
            i <= images.len(),
            claimed@ == cameras_claimed(images@, cfg.images@, i as nat),
        decreases images.len() - i,
    {
        if glob_match(cfg.images.as_str(), images[i].name.as_str()) {
            claimed.push(images[i].camera_id);
        }
        i += 1;
    }
    let ids = sets::distinct_numbers(&claimed);
    let mut k: usize = 0;
    while k < ids.len()
        invariant
            k <= ids.len(),
            out@ == known_among(ids@, known@, k as nat),
        decreases ids.len() - k,
    {
        if known.contains(&ids[k]) {
            out.push(ids[k]);
        }
        k += 1;
    }
    out
}

/// Whether a declared entry claims a camera: its glob matches one of the
/// camera's images.
pub open spec fn claims<T>(cfg: CameraConfig<T>, images: Seq<ImageRow>, id: u32) -> bool {
    exists|i: int|
        0 <= i < images.len() && (#[trigger] images[i]).camera_id == id && project::matches_glob(
            cfg.images@,
            images[i].name@,
        )
}

/// Whether entry `c` decides the model of a camera that the project has: it is
/// the last that has a model and claims the camera.
pub open spec fn decides<T>(
    cameras: Seq<CameraConfig<T>>,
    images: Seq<ImageRow>,
    known: Set<u32>,
    id: u32,
    c: int,
) -> bool {
    &&& known.contains(id)
    &&& 0 <= c < cameras.len()
    &&& cameras[c].model is Some
    &&& claims(cameras[c], images, id)
    &&& forall|d: int|
        c < d < cameras.len() ==> !((#[trigger] cameras[d]).model is Some && claims(
            cameras[d],
            images,
            id,
        ))
}

fn claims_camera<T>(cfg: &CameraConfig<T>, images: &Vec<ImageRow>, id: u32) -> (r: bool)
    ensures
        r == claims(*cfg, images@, id),
{
    let mut i: usize = 0;
    while i < images.len()
        invariant
            i <= images@.len(),
            forall|k: int|
                0 <= k < i ==> !((#[trigger] images@[k]).camera_id == id && project::matches_glob(
                    cfg.images@,
                    images@[k].name@,
                )),
        decreases images@.len() - i,
    {
        if images[i].camera_id == id && glob_match(
            cfg.images.as_str(),
            images[i].name.as_str(),
        ) {
            return true;
        }
        i += 1;
    }
    false
}

/// The entry that decides the model of a camera, if there is one.
fn deciding_entry<T>(
    cameras: &Vec<CameraConfig<T>>,
    images: &Vec<ImageRow>,
    id: u32,
    Ghost(known): Ghost<Set<u32>>,
) -> (r: Option<usize>)
    requires
        known.contains(id),
    ensures
        r matches Some(c) ==> decides(cameras@, images@, known, id, c as int),
        forall|c: usize| #[trigger]
            decides(cameras@, images@, known, id, c as int) ==> r == Some(c),
{
    let mut n: usize = cameras.len();
    while n > 0
        invariant
            n <= cameras@.len(),
            known.contains(id),
            forall|d: int|
                n <= d < cameras@.len() ==> !((#[trigger] cameras@[d]).model is Some && claims(
                    cameras@[d],
                    images@,
                    id,
                )),
        decreases n,
    {
        n -= 1;
        if cameras[n].model.is_some() && claims_camera(&cameras[n], images, id) {
            assert(decides(cameras@, images@, known, id, n as int));
            assert forall|c: usize| #[trigger] decides(
                cameras@,
                images@,
                known,
                id,
                c as int,
            ) implies c == n by {
                assert(cameras@[c as int].model is Some && cameras@[n as int].model is Some);
            }
            return Some(n);
        }
    }
    None
}

/// Which declared entry decides the model of each camera, by ascending camera.
/// Where several entries claim a camera, the last that has a model does;
/// cameras that none claims, or that the project does not have, are left out.
pub fn model_choices<T>(
    cameras: &Vec<CameraConfig<T>>,
    images: &Vec<ImageRow>,
    known: &HashSet<u32>,
) -> (out: Vec<(u32, usize)>)
    ensures
        sets::increasing(out@.map_values(|p: (u32, usize)| p.0)),
        forall|id: u32, c: usize| #[trigger]
            out@.contains((id, c)) <==> decides(cameras@, images@, known@, id, c as int),
{
    broadcast use vstd::std_specs::hash::group_hash_axioms;

    let mut all: Vec<u32> = Vec::new();
    let mut i: usize = 0;
    while i < images.len()
        invariant
            i <= images@.len(),
            all@.len() == i,
            forall|k: int| 0 <= k < i ==> #[trigger] all@[k] == images@[k].camera_id,
        decreases images@.len() - i,
    {
        all.push(images[i].camera_id);
        i += 1;
    }
    let ids = distinct_numbers(&all);
    let mut out: Vec<(u32, usize)> = Vec::new();
    let mut k: usize = 0;
    while k < ids.len()
        invariant
            k <= ids@.len(),
            sets::increasing(ids@),
            sets::increasing(out@.map_values(|p: (u32, usize)| p.0)),
            forall|j: int|
                0 <= j < out@.len() ==> exists|q: int|
                    0 <= q < k && (#[trigger] out@[j]).0 == #[trigger] ids@[q],
            forall|j: int|
                0 <= j < out@.len() ==> decides(
                    cameras@,
                    images@,
                    known@,
                    (#[trigger] out@[j]).0,
                    out@[j].1 as int,
                ),
            forall|q: int, c: usize|
                0 <= q < k && #[trigger] decides(cameras@, images@, known@, ids@[q], c as int)
                    ==> out@.contains((ids@[q], c)),
        decreases ids@.len() - k,
    {
        let id: u32 = ids[k];
        let ghost before = out@;
        if known.contains(&id) {
            if let Some(c) = deciding_entry(cameras, images, id, Ghost(known@)) {
                assert(decides(cameras@, images@, known@, id, c as int));
                out.push((id, c));
                proof {
                    let firsts = before.map_values(|p: (u32, usize)| p.0);
                    let now = out@.map_values(|p: (u32, usize)| p.0);
                    assert forall|a: int, b: int| 0 <= a < b < now.len() implies (
                    #[trigger] now[a]) < (#[trigger] now[b]) by {
                        assert(now[a] == firsts[a]);
                        if b < firsts.len() {
                            assert(now[b] == firsts[b]);
                        } else {
                            let q = choose|q: int|
                                0 <= q < k && before[a].0 == #[trigger] ids@[q];
                            assert(ids@[q] < ids@[k as int]);
                        }
                    }
                    assert(out@[before.len() as int] == (id, c));
                }
            }
        }
        proof {
            assert forall|j: int| 0 <= j < out@.len() implies exists|q: int|
                0 <= q < k + 1 && (#[trigger] out@[j]).0 == #[trigger] ids@[q] by {
                if j < before.len() {
                    assert(out@[j] == before[j]);
                    let q = choose|q: int| 0 <= q < k && before[j].0 == #[trigger] ids@[q];
                    assert(out@[j].0 == ids@[q]);
                } else {
                    assert(out@[j].0 == ids@[k as int]);
                }
            }
            assert forall|q: int, c: usize|
                0 <= q < k + 1 && #[trigger] decides(
                    cameras@,
                    images@,
                    known@,
                    ids@[q],
                    c as int,
                ) implies out@.contains((ids@[q], c)) by {
                if q < k {
                    let j = choose|j: int| 0 <= j < before.len() && before[j] == (ids@[q], c);
                    assert(before.contains((ids@[q], c)));
                    assert(out@[j] == (ids@[q], c));
                } else {
                    assert(out@[before.len() as int] == (id, c));
                }
            }
        }
        k += 1;
    }
    assert forall|id: u32, c: usize| decides(
        cameras@,
        images@,
        known@,
        id,
        c as int,
    ) implies #[trigger] out@.contains((id, c)) by {
        let i = choose|i: int|
            0 <= i < images@.len() && (#[trigger] images@[i]).camera_id == id
                && project::matches_glob(cameras@[c as int].images@, images@[i].name@);
        assert(all@[i] == id);
        assert(all@.to_set().contains(id));
        assert(ids@.to_set().contains(id));
        let q = choose|q: int| 0 <= q < ids@.len() && ids@[q] == id;
        assert(decides(cameras@, images@, known@, ids@[q], c as int));
    }
    out
}

proof fn lemma_cameras_claimed(images: Seq<ImageRow>, glob: Seq<char>, n: nat, id: u32)
    requires
        n <= images.len(),
    ensures
        cameras_claimed(images, glob, n).contains(id) <==> exists|i: int|
            0 <= i < n && (#[trigger] images[i]).camera_id == id && project::matches_glob(
                glob,
                images[i].name@,
            ),
    decreases n,
{
    if n > 0 {
        let front = cameras_claimed(images, glob, (n - 1) as nat);
        let all = cameras_claimed(images, glob, n);
        lemma_cameras_claimed(images, glob, (n - 1) as nat, id);
        if front.contains(id) {
            let k = choose|k: int| 0 <= k < front.len() && front[k] == id;
            assert(all[k] == id);
        }
        if project::matches_glob(glob, images[n - 1].name@) && images[n - 1].camera_id == id {
            assert(all[front.len() as int] == id);
        }
        if all.contains(id) && !front.contains(id) {
            let k = choose|k: int| 0 <= k < all.len() && all[k] == id;
            if k < front.len() {
                assert(front[k] == id);
            }
        }
    }
}

proof fn lemma_known_among(ids: Seq<u32>, known: Set<u32>, n: nat, id: u32)
    requires
        n <= ids.len(),
    ensures
        known_among(ids, known, n).contains(id) <==> known.contains(id) && exists|k: int|
            0 <= k < n && #[trigger] ids[k] == id,
    decreases n,
{
    if n > 0 {
        let front = known_among(ids, known, (n - 1) as nat);
        let all = known_among(ids, known, n);
        lemma_known_among(ids, known, (n - 1) as nat, id);
        if front.contains(id) {
            let k = choose|k: int| 0 <= k < front.len() && front[k] == id;
            assert(all[k] == id);
        }
        if known.contains(id) && ids[n - 1] == id {
            assert(all[front.len() as int] == id);
        }
        if all.contains(id) && !front.contains(id) {
            let k = choose|k: int| 0 <= k < all.len() && all[k] == id;
            if k < front.len() {
                assert(front[k] == id);
            }
        }
    }
}

/// An entry sets the model of exactly the cameras of the project that it
/// claims, where it has a model.
pub proof fn targets_are_the_claimed_cameras<T>(
    cfg: CameraConfig<T>,
    images: Seq<ImageRow>,
    known: Set<u32>,
    id: u32,
)
    ensures
        declares_for(cfg, images, known).contains(id) <==> cfg.model is Some && known.contains(id)
            && claims(cfg, images, id),
{
    let claimed = cameras_claimed(images, cfg.images@, images.len());
    let ids = sets::sorted_set(claimed);
    sets::sorted_set_is_the_set(claimed);
    lemma_cameras_claimed(images, cfg.images@, images.len(), id);
    lemma_known_among(ids, known, ids.len(), id);
    assert(ids.to_set().contains(id) == ids.contains(id));
    assert(claimed.to_set().contains(id) == claimed.contains(id));
}

/// The entry that last set the model of each camera, when the first `n`
/// entries are applied in turn.
pub open spec fn set_in_turn<T>(
    cameras: Seq<CameraConfig<T>>,
    images: Seq<ImageRow>,
    known: Set<u32>,
    n: nat,
) -> Map<u32, int>
    decreases n,
{
    if n == 0 {
        Map::empty()
    } else {
        set_in_turn(cameras, images, known, (n - 1) as nat).union_prefer_right(
            Map::new(
                |id: u32| declares_for(cameras[n - 1], images, known).contains(id),
                |id: u32| n - 1,
            ),
        )
    }
}

proof fn lemma_set_in_turn<T>(
    cameras: Seq<CameraConfig<T>>,
    images: Seq<ImageRow>,
    known: Set<u32>,
    n: nat,
    id: u32,
)
    requires
        n <= cameras.len(),
    ensures
        ({
            let m = set_in_turn(cameras, images, known, n);
            if m.contains_key(id) {
                &&& 0 <= m[id] < n
                &&& known.contains(id)
                &&& cameras[m[id]].model is Some
                &&& claims(cameras[m[id]], images, id)
                &&& forall|d: int|
                    m[id] < d < n ==> !((#[trigger] cameras[d]).model is Some && claims(
                        cameras[d],
                        images,
                        id,
                    ))
            } else {
                !known.contains(id) || forall|d: int|
                    0 <= d < n ==> !((#[trigger] cameras[d]).model is Some && claims(
                        cameras[d],
                        images,
                        id,
                    ))
            }
        }),
    decreases n,
{
    if n > 0 {
        lemma_set_in_turn(cameras, images, known, (n - 1) as nat, id);
        targets_are_the_claimed_cameras(cameras[n - 1], images, known, id);
    }
}

/// Applying the declared entries in turn leaves each camera with the model of
/// the entry that decides it.
pub proof fn entries_in_turn_leave_the_deciding_one<T>(
    cameras: Seq<CameraConfig<T>>,
    images: Seq<ImageRow>,
    known: Set<u32>,
    id: u32,
    c: int,
)
    ensures
        ({
            let m = set_in_turn(cameras, images, known, cameras.len());
            decides(cameras, images, known, id, c) <==> m.contains_key(id) && m[id] == c
        }),
{
    lemma_set_in_turn(cameras, images, known, cameras.len(), id);
    let m = set_in_turn(cameras, images, known, cameras.len());
    if decides(cameras, images, known, id, c) {
        assert(cameras[c].model is Some);
        if m.contains_key(id) {
            assert(cameras[m[id]].model is Some);
        }
    }
}

// ---------------------------------------------------------------------------
// Pairing
// ---------------------------------------------------------------------------

/// The pairs `(i, j)` with `i < j` of images of one capture, those with `i`
/// below `n`.
pub open spec fn within(captures: Seq<i64>, n: nat) -> Seq<(usize, usize)>
    decreases n,
{
    if n == 0 {
        Seq::empty()
    } else {
        within(captures, (n - 1) as nat) + within_row(captures, n - 1, captures.len())
    }
}

/// The partners of image `i` behind it and before `to` in its capture.
pub open spec fn within_row(captures: Seq<i64>, i: int, to: nat) -> Seq<(usize, usize)>
    decreases to,
{
    if to == 0 || to <= i + 1 {
        Seq::empty()
    } else {
        let front = within_row(captures, i, (to - 1) as nat);
        if captures[i] == captures[to - 1] {
            front.push((i as usize, (to - 1) as usize))
        } else {
            front
        }
    }
}

proof fn lemma_within_row(captures: Seq<i64>, i: int, to: nat, p: (usize, usize))
    requires
        0 <= i < captures.len(),
        to <= captures.len() <= usize::MAX,
    ensures
        within_row(captures, i, to).contains(p) <==> p.0 == i && i < p.1 < to && captures[i]
            == captures[p.1 as int],
    decreases to,
{
    let all = within_row(captures, i, to);
    if to > i + 1 {
        let front = within_row(captures, i, (to - 1) as nat);
        lemma_within_row(captures, i, (to - 1) as nat, p);
        if front.contains(p) {
            let k = choose|k: int| 0 <= k < front.len() && front[k] == p;
            assert(all[k] == p);
        }
        if captures[i] == captures[to - 1] {
            let last = (i as usize, (to - 1) as usize);
            assert(all[all.len() - 1] == last);
            if all.contains(p) && p != last {
                let k = choose|k: int| 0 <= k < all.len() && all[k] == p;
                assert(front[k] == p);
            }
        }
    }
}

proof fn lemma_within(captures: Seq<i64>, n: nat, p: (usize, usize))
    requires
        n <= captures.len() <= usize::MAX,
    ensures
        within(captures, n).contains(p) <==> p.0 < n && p.0 < p.1 < captures.len()
            && captures[p.0 as int] == captures[p.1 as int],
    decreases n,
{
    if n > 0 {
        let front = within(captures, (n - 1) as nat);
        let last = within_row(captures, n - 1, captures.len());
        let all = within(captures, n);
        lemma_within(captures, (n - 1) as nat, p);
        lemma_within_row(captures, n - 1, captures.len(), p);
        if front.contains(p) {
            let k = choose|k: int| 0 <= k < front.len() && front[k] == p;
            assert(all[k] == p);
        }
        if last.contains(p) {
            let k = choose|k: int| 0 <= k < last.len() && last[k] == p;
            assert(all[front.len() + k] == p);
        }
        if all.contains(p) && !front.contains(p) {
            let k = choose|k: int| 0 <= k < all.len() && all[k] == p;
            if k < front.len() {
                assert(front[k] == p);
            } else {
                assert(last[k - front.len()] == p);
            }
        }
    }
}

/// Two images are paired exactly when they belong to one capture, so nothing
/// is matched across captures.
pub proof fn pairs_stay_within_captures(captures: Seq<i64>, i: usize, j: usize)
    requires
        captures.len() <= usize::MAX,
    ensures
        within(captures, captures.len()).contains((i, j)) <==> i < j < captures.len()
            && captures[i as int] == captures[j as int],
{
    lemma_within(captures, captures.len(), (i, j));
}

/// Every pair of images of one capture. Images pooled over captures (negative
/// capture) cannot be paired this way.
pub fn within_capture_pairs(captures: &Vec<i64>) -> (r: Result<Vec<(usize, usize)>, SfmError>)
    ensures
        match r {
            Ok(pairs) => (forall|k: int| 0 <= k < captures@.len() ==> #[trigger] captures@[k] >= 0)
                && pairs@ == within(captures@, captures@.len()),
            Err(e) => (exists|k: int| 0 <= k < captures@.len() && #[trigger] captures@[k] < 0)
                && (e matches SfmError::Other(m) && m@
                == "--pairing within-capture needs per-capture images, but this project was built with --merge-multicaps, which pools them. Re-run `feature` without it."@),
        },
{
    let mut k: usize = 0;
    while k < captures.len()
        invariant
            k <= captures.len(),
            forall|j: int| 0 <= j < k ==> #[trigger] captures@[j] >= 0,
        decreases captures.len() - k,
    {
        if captures[k] < 0 {
            assert(captures@[k as int] < 0);
            return Err(
                SfmError::Other(
                    String::from_str(
                        "--pairing within-capture needs per-capture images, but this project was built with --merge-multicaps, which pools them. Re-run `feature` without it.",
                    ),
                ),
            );
        }
        k += 1;
    }
    let mut out: Vec<(usize, usize)> = Vec::new();
    let mut i: usize = 0;
    assert(out@ =~= within(captures@, 0));
    while i < captures.len()
        invariant
            i <= captures.len(),
            out@ == within(captures@, i as nat),
        decreases captures.len() - i,
    {
        let ghost done = out@;
        let mut j: usize = i + 1;
        assert(out@ =~= done + within_row(captures@, i as int, j as nat));
        while j < captures.len()
            invariant
                i < j <= captures.len(),
                out@ == done + within_row(captures@, i as int, j as nat),
            decreases captures.len() - j,
        {
            if captures[i] == captures[j] {
                out.push((i, j));
            }
            j += 1;
            assert(out@ =~= done + within_row(captures@, i as int, j as nat));
        }
        i += 1;
    }
    Ok(out)
}

/// The pair of ids in the order in which a geometry is filed.
pub fn pair_key(a: u32, b: u32) -> (r: (u32, u32))
    ensures
        r == if a <= b {
            (a, b)
        } else {
            (b, a)
        },
{
    if a <= b {
        (a, b)
    } else {
        (b, a)
    }
}

/// What is said of pinned cameras, if there are any.
pub fn pinned_note(ids: &Vec<u32>) -> (r: Option<String>)
    ensures
        match r {
            Some(s) => ids@.len() > 0 && s@ == "holding intrinsics fixed for camera(s) "@
                + paths::bracketed(ids@) + " (refine = false)"@,
            None => ids@.len() == 0,
        },
{
    if ids.len() == 0 {
        return None;
    }
    let mut s = String::from_str("holding intrinsics fixed for camera(s) ");
    s.append(number_list(ids).as_str());
    s.append(" (refine = false)");
    Some(s)
}

/// What is said of cameras whose declared model is not the recorded one, if
/// there are any: each is named once, in ascending order.
pub fn override_note(ids: &Vec<u32>) -> (r: Option<String>)
    ensures
        match r {
            Some(s) => ids@.len() > 0 && s@
                == "using the camera model(s) declared in sfm.toml for camera(s) "@
                + paths::bracketed(sets::sorted_set(ids@))
                + ", which differ from what `feature` recorded"@,
            None => ids@.len() == 0,
        },
{
    if ids.len() == 0 {
        return None;
    }
    let mut s = String::from_str("using the camera model(s) declared in sfm.toml for camera(s) ");
    s.append(number_list(&distinct_numbers(ids)).as_str());
    s.append(", which differ from what `feature` recorded");
    Some(s)
}

/// A pose is complained about exactly where no image has the name it gives.
pub proof fn misnamed_poses_are_complained_about<P>(
    poses: Seq<PoseConfig<P>>,
    images: Seq<ImageRow>,
    name: Seq<char>,
    n: nat,
)
    requires
        n <= poses.len(),
    ensures
        unknown_names(poses, images, n).contains(name) <==> (exists|k: int|
            0 <= k < n && (#[trigger] poses[k]).image@ == name) && (forall|i: int|
            0 <= i < images.len() ==> (#[trigger] images[i]).name@ != name),
    decreases n,
{
    if n > 0 {
        misnamed_poses_are_complained_about(poses, images, name, (n - 1) as nat);
        let front = unknown_names(poses, images, (n - 1) as nat);
        let all = unknown_names(poses, images, n);
        let last = poses[n - 1].image@;
        if front.contains(name) {
            let k = choose|k: int| 0 <= k < front.len() && front[k] == name;
            assert(all[k] == name);
        }
        if !is_image(images, last) {
            assert(all[front.len() as int] == last);
        }
        if all.contains(name) && !front.contains(name) {
            let k = choose|k: int| 0 <= k < all.len() && all[k] == name;
            if k < front.len() {
                assert(front[k] == name);
            }
            assert(poses[n - 1].image@ == name);
        }
    }
}

/// Of the poses for an image the last counts.
pub proof fn the_last_pose_counts<P>(poses: Seq<PoseConfig<P>>, name: Seq<char>, n: nat)
    requires
        n <= poses.len(),
    ensures
        match pose_named(poses, name, n) {
            Some(i) => 0 <= i < n && poses[i].image@ == name && forall|j: int|
                i < j < n ==> (#[trigger] poses[j]).image@ != name,
            None => forall|j: int| 0 <= j < n ==> (#[trigger] poses[j]).image@ != name,
        },
    decreases n,
{
    if n > 0 {
        the_last_pose_counts(poses, name, (n - 1) as nat);
    }
}

/// A pair of places leads to the images of the pair of ids.
pub proof fn placed_pairs_are_of_their_images(
    images: Seq<ImageRow>,
    pairs: Seq<(u32, u32)>,
    k: int,
)
    requires
        0 <= k < pairs.len(),
        pair_known(images, pairs[k]),
    ensures
        ({
            let (a, b) = placed_pairs(images, pairs)[k];
            &&& 0 <= a < images.len() && images[a].id == pairs[k].0
            &&& 0 <= b < images.len() && images[b].id == pairs[k].1
        }),
{
    lemma_place_of(images, pairs[k].0, images.len());
    lemma_place_of(images, pairs[k].1, images.len());
}

/// An entry that is not to be refined pins the cameras of the images that it
/// claims; where no entry says so, nothing is pinned.
pub proof fn only_unrefined_entries_pin<T>(
    cameras: Seq<CameraConfig<T>>,
    images: Seq<ImageRow>,
    c: int,
    i: int,
    id: u32,
)
    requires
        0 <= c < cameras.len(),
        0 <= i < images.len(),
    ensures
        cameras[c].refine == Some(false) && project::matches_glob(
            cameras[c].images@,
            images[i].name@,
        ) ==> is_pinned(cameras, images, images[i].camera_id),
        (forall|k: int| 0 <= k < cameras.len() ==> (#[trigger] cameras[k]).refine != Some(false))
            ==> !is_pinned(cameras, images, id),
        (forall|k: int| 0 <= k < images.len() ==> (#[trigger] images[k]).camera_id != id)
            ==> !is_pinned(cameras, images, id),
        (forall|k: int, j: int|
            0 <= k < cameras.len() && 0 <= j < images.len() ==> !project::matches_glob(
                (#[trigger] cameras[k]).images@,
                (#[trigger] images[j]).name@,
            )) ==> !is_pinned(cameras, images, id),
{
}

} // verus!
