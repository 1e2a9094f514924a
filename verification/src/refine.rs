//! A standalone bundle-adjustment pass over an existing model: what is handed
//! to the solver and what comes back.

use vstd::prelude::*;

use crate::camera;
use crate::camera::{default_fixed_params_mask, Camera, CameraModel};
use crate::error::SfmError;
use crate::model;
use crate::model::{ids_u32, ids_u64, observations, Image, Observation, Point3D, Reconstruction};
use crate::sets;

verus! {

/// A reconstruction by places: one pose per registered image and one point per
/// id, both by ascending id, and one intrinsics block per physical camera, in
/// the order in which the images first use them.
#[derive(Debug)]
pub struct Compact<K> {
    pub image_ids: Vec<u32>,
    pub point_ids: Vec<u64>,
    pub camera_ids: Vec<u32>,
    pub camera_of_image: Vec<usize>,
    pub observations: Vec<Observation<K>>,
    pub fixed_poses: Vec<bool>,
}

/// The distinct ones among the first `n`, in the order in which they are first
/// seen.
pub open spec fn first_seen(s: Seq<u32>, n: nat) -> Seq<u32>
    decreases n,
{
    if n == 0 {
        Seq::empty()
    } else {
        let rest = first_seen(s, (n - 1) as nat);
        if rest.contains(s[n - 1]) {
            rest
        } else {
            rest.push(s[n - 1])
        }
    }
}

/// Every number is seen once, and none but those.
pub proof fn each_is_first_seen_once(s: Seq<u32>, n: nat)
    requires
        n <= s.len(),
    ensures
        first_seen(s, n).no_duplicates(),
        forall|i: int| 0 <= i < n ==> first_seen(s, n).contains(#[trigger] s[i]),
        forall|k: int|
            0 <= k < first_seen(s, n).len() ==> s.contains(#[trigger] first_seen(s, n)[k]),
    decreases n,
{
    if n > 0 {
        each_is_first_seen_once(s, (n - 1) as nat);
        let rest = first_seen(s, (n - 1) as nat);
        let all = first_seen(s, n);
        assert forall|i: int| 0 <= i < n implies all.contains(#[trigger] s[i]) by {
            if i < n - 1 {
                assert(rest.contains(s[i]));
                let k = choose|k: int| 0 <= k < rest.len() && rest[k] == s[i];
                assert(all[k] == s[i]);
            } else if !rest.contains(s[i]) {
                assert(all[all.len() - 1] == s[i]);
            }
        }
        assert forall|k: int| 0 <= k < all.len() implies s.contains(#[trigger] all[k]) by {
            if k < rest.len() {
                assert(s.contains(rest[k]));
            } else {
                assert(s[n - 1] == all[k]);
            }
        }
    }
}

/// Why the model cannot be refined, if it cannot.
pub open spec fn refine_complaint<T, P, K>(recon: Reconstruction<T, P, K>, dir: Seq<char>) -> Option<
    Seq<char>,
> {
    if recon.images@.len() < 2 {
        Some("need at least 2 registered images in "@ + dir + " to refine"@)
    } else if recon.points3d@.len() == 0 {
        Some("no 3D points in "@ + dir + " to refine"@)
    } else if model::observations_of(recon, recon.points3d@.len()).len() == 0 {
        Some(
            "no observations linking tracked points to registered images; nothing to refine"@,
        )
    } else {
        None
    }
}

impl<K> Compact<K> {
    /// The places of a reconstruction.
    pub open spec fn is_of<T, P>(self, recon: Reconstruction<T, P, K>) -> bool {
        let cameras = model::image_cameras(recon);
        &&& self.image_ids@ == model::ids(recon.images@)
        &&& self.point_ids@ == model::ids(recon.points3d@)
        &&& self.camera_ids@ == first_seen(cameras, cameras.len())
        &&& self.camera_of_image@.len() == self.image_ids@.len()
        &&& forall|i: int|
            0 <= i < self.camera_of_image@.len() ==> (#[trigger] self.camera_of_image@[i])
                < self.camera_ids@.len() && self.camera_ids@[self.camera_of_image@[i] as int]
                == cameras[i]
        &&& self.observations@ == model::observations_of(recon, recon.points3d@.len())
        &&& self.fixed_poses@.len() == self.image_ids@.len()
        &&& forall|i: int|
            0 <= i < self.fixed_poses@.len() ==> (#[trigger] self.fixed_poses@[i]) == (i == 0)
    }
}

/// Indexes a model for refinement. Reprojection error does not change under a
/// similarity of the whole scene, so the first pose is held fixed.
pub fn compact<T, P, K: Copy>(recon: &Reconstruction<T, P, K>, dir: &str) -> (r: Result<
    Compact<K>,
    SfmError,
>)
    requires
        recon.cameras_known(),
    ensures
        match r {
            Ok(c) => refine_complaint(*recon, dir@) is None && c.is_of(*recon),
            Err(e) => e matches SfmError::Other(m) && refine_complaint(*recon, dir@) == Some(m@),
        },
{
    broadcast use vstd::std_specs::btree::group_btree_axioms;

    let image_ids = ids_u32(&recon.images);
    let point_ids = ids_u64(&recon.points3d);
    if image_ids.len() < 2 {
        let mut m = String::from_str("need at least 2 registered images in ");
        m.append(dir);
        m.append(" to refine");
        return Err(SfmError::Other(m));
    }
    if point_ids.len() == 0 {
        let mut m = String::from_str("no 3D points in ");
        m.append(dir);
        m.append(" to refine");
        return Err(SfmError::Other(m));
    }
    let observations = observations(recon);
    if observations.len() == 0 {
        return Err(
            SfmError::Other(
                String::from_str(
                    "no observations linking tracked points to registered images; nothing to refine",
                ),
            ),
        );
    }
    let ghost cameras = model::image_cameras(*recon);
    let mut camera_ids: Vec<u32> = Vec::new();
    let mut camera_of_image: Vec<usize> = Vec::new();
    let mut fixed_poses: Vec<bool> = Vec::new();
    let mut i: usize = 0;
    while i < image_ids.len()
        invariant
            i <= image_ids@.len(),
            image_ids@ == model::ids(recon.images@),
            image_ids@.to_set() == recon.images@.dom(),
            cameras == model::image_cameras(*recon),
            camera_ids@ == first_seen(cameras, i as nat),
            camera_of_image@.len() == i,
            fixed_poses@.len() == i,
            forall|k: int|
                0 <= k < i ==> (#[trigger] camera_of_image@[k]) < camera_ids@.len()
                    && camera_ids@[camera_of_image@[k] as int] == cameras[k],
            forall|k: int| 0 <= k < i ==> (#[trigger] fixed_poses@[k]) == (k == 0),
        decreases image_ids@.len() - i,
    {
        let id: u32 = image_ids[i];
        assert(image_ids@.to_set().contains(id)) by {
            assert(image_ids@[i as int] == id);
        }
        match recon.images.get(&id) {
            Some(im) => {
                let camera: u32 = im.camera_id;
                assert(cameras[i as int] == camera);
                let mut k: usize = 0;
                while k < camera_ids.len() && camera_ids[k] != camera
                    invariant
                        k <= camera_ids@.len(),
                        forall|j: int| 0 <= j < k ==> camera_ids@[j] != camera,
                    decreases camera_ids@.len() - k,
                {
                    k += 1;
                }
                if k == camera_ids.len() {
                    assert(!camera_ids@.contains(camera));
                    camera_ids.push(camera);
                } else {
                    assert(camera_ids@[k as int] == camera);
                }
                camera_of_image.push(k);
            },
            None => {
                assert(recon.images@.contains_key(id));
                assert(false);
            },
        }
        fixed_poses.push(i == 0);
        i += 1;
    }
    Ok(Compact { image_ids, point_ids, camera_ids, camera_of_image, observations, fixed_poses })
}

/// Which cameras are held fixed, and which of their parameters: either every
/// camera, or none of them and only the principal points.
pub fn camera_freedom<T: Copy>(models: &Vec<CameraModel<T>>, refine_intrinsics: bool) -> (r: (
    Vec<bool>,
    Vec<Vec<bool>>,
))
    ensures
        r.0@ == Seq::new(models@.len(), |i: int| !refine_intrinsics),
        r.1@.len() == if refine_intrinsics {
            models@.len()
        } else {
            0
        },
        forall|i: int|
            0 <= i < r.1@.len() ==> (#[trigger] r.1@[i])@ == camera::centre_mask(models@[i]),
{
    let mut fixed: Vec<bool> = Vec::new();
    let total: usize = models.len();
    while fixed.len() < total
        invariant
            fixed@.len() <= total,
            forall|i: int| 0 <= i < fixed@.len() ==> (#[trigger] fixed@[i]) == !refine_intrinsics,
        decreases total - fixed@.len(),
    {
        fixed.push(!refine_intrinsics);
    }
    assert(fixed@ =~= Seq::new(models@.len(), |i: int| !refine_intrinsics));
    if refine_intrinsics {
        (fixed, default_fixed_params_mask(models.as_slice()))
    } else {
        (fixed, Vec::new())
    }
}

// ---------------------------------------------------------------------------
// Writing the result back
// ---------------------------------------------------------------------------

/// An image with another pose.
pub open spec fn posed<P, K>(im: Image<P, K>, pose: P) -> Image<P, K> {
    Image {
        id: im.id,
        camera_id: im.camera_id,
        name: im.name,
        pose,
        keypoints: im.keypoints,
        point3d_ids: im.point3d_ids,
    }
}

/// A point at another place.
pub open spec fn placed<T>(p: Point3D<T>, xyz: [T; 3]) -> Point3D<T> {
    Point3D { id: p.id, xyz, color: p.color, error: p.error, track: p.track }
}

/// Gives every image its refined pose.
pub fn write_poses<T, P: Copy, K>(
    recon: &mut Reconstruction<T, P, K>,
    image_ids: &Vec<u32>,
    poses: &Vec<P>,
)
    requires
        image_ids@ == model::ids(old(recon).images@),
        sets::increasing(image_ids@),
        image_ids@.to_set() == old(recon).images@.dom(),
        poses@.len() == image_ids@.len(),
    ensures
        final(recon).cameras == old(recon).cameras,
        final(recon).points3d == old(recon).points3d,
        final(recon).images@.dom() == old(recon).images@.dom(),
        forall|i: int|
            0 <= i < image_ids@.len() ==> final(recon).images@[#[trigger] image_ids@[i]] == posed(
                old(recon).images@[image_ids@[i]],
                poses@[i],
            ),
{
    broadcast use vstd::std_specs::btree::group_btree_axioms;

    let ghost before = recon.images@;
    let mut i: usize = 0;
    while i < image_ids.len()
        invariant
            i <= image_ids@.len(),
            poses@.len() == image_ids@.len(),
            sets::increasing(image_ids@),
            image_ids@.to_set() == before.dom(),
            before == old(recon).images@,
            recon.cameras == old(recon).cameras,
            recon.points3d == old(recon).points3d,
            recon.images@.dom() == before.dom(),
            forall|k: int|
                0 <= k < i ==> recon.images@[#[trigger] image_ids@[k]] == posed(
                    before[image_ids@[k]],
                    poses@[k],
                ),
            forall|k: int|
                i <= k < image_ids@.len() ==> recon.images@[#[trigger] image_ids@[k]]
                    == before[image_ids@[k]],
        decreases image_ids@.len() - i,
    {
        let id: u32 = image_ids[i];
        assert(image_ids@.to_set().contains(id)) by {
            assert(image_ids@[i as int] == id);
        }
        assert(recon.images@.contains_key(id));
        let ghost now = recon.images@;
        match recon.images.remove(&id) {
            Some(im) => {
                assert(im == now[id]);
                let moved = Image {
                    id: im.id,
                    camera_id: im.camera_id,
                    name: im.name,
                    pose: poses[i],
                    keypoints: im.keypoints,
                    point3d_ids: im.point3d_ids,
                };
                recon.images.insert(id, moved);
                assert(recon.images@.dom() =~= before.dom());
                assert forall|k: int| 0 <= k < image_ids@.len() && k != i implies recon.images@[
                #[trigger] image_ids@[k]] == now[image_ids@[k]] by {
                    assert(image_ids@[k] != id) by {
                        if k < i {
                            assert(sets::Number::value(image_ids@[k]) < sets::Number::value(
                                image_ids@[i as int],
                            ));
                        } else {
                            assert(sets::Number::value(image_ids@[i as int])
                                < sets::Number::value(image_ids@[k]));
                        }
                    }
                }
            },
            None => {
                assert(false);
            },
        }
        i += 1;
    }
}

/// Moves every point to its refined place.
pub fn write_points<T: Copy, P, K>(
    recon: &mut Reconstruction<T, P, K>,
    point_ids: &Vec<u64>,
    points: &Vec<[T; 3]>,
)
    requires
        point_ids@ == model::ids(old(recon).points3d@),
        sets::increasing(point_ids@),
        point_ids@.to_set() == old(recon).points3d@.dom(),
        points@.len() == point_ids@.len(),
    ensures
        final(recon).cameras == old(recon).cameras,
        final(recon).images == old(recon).images,
        final(recon).points3d@.dom() == old(recon).points3d@.dom(),
        forall|i: int|
            0 <= i < point_ids@.len() ==> final(recon).points3d@[#[trigger] point_ids@[i]]
                == placed(old(recon).points3d@[point_ids@[i]], points@[i]),
{
    broadcast use vstd::std_specs::btree::group_btree_axioms;

    let ghost before = recon.points3d@;
    let mut i: usize = 0;
    while i < point_ids.len()
        invariant
            i <= point_ids@.len(),
            points@.len() == point_ids@.len(),
            sets::increasing(point_ids@),
            point_ids@.to_set() == before.dom(),
            before == old(recon).points3d@,
            recon.cameras == old(recon).cameras,
            recon.images == old(recon).images,
            recon.points3d@.dom() == before.dom(),
            forall|k: int|
                0 <= k < i ==> recon.points3d@[#[trigger] point_ids@[k]] == placed(
                    before[point_ids@[k]],
                    points@[k],
                ),
            forall|k: int|
                i <= k < point_ids@.len() ==> recon.points3d@[#[trigger] point_ids@[k]]
                    == before[point_ids@[k]],
        decreases point_ids@.len() - i,
    {
        let id: u64 = point_ids[i];
        assert(point_ids@.to_set().contains(id)) by {
            assert(point_ids@[i as int] == id);
        }
        assert(recon.points3d@.contains_key(id));
        let ghost now = recon.points3d@;
        match recon.points3d.remove(&id) {
            Some(p) => {
                assert(p == now[id]);
                let moved = Point3D {
                    id: p.id,
                    xyz: points[i],
                    color: p.color,
                    error: p.error,
                    track: p.track,
                };
                recon.points3d.insert(id, moved);
                assert(recon.points3d@.dom() =~= before.dom());
                assert forall|k: int| 0 <= k < point_ids@.len() && k != i implies recon.points3d@[
                #[trigger] point_ids@[k]] == now[point_ids@[k]] by {
                    assert(point_ids@[k] != id) by {
                        if k < i {
                            assert(sets::Number::value(point_ids@[k]) < sets::Number::value(
                                point_ids@[i as int],
                            ));
                        } else {
                            assert(sets::Number::value(point_ids@[i as int])
                                < sets::Number::value(point_ids@[k]));
                        }
                    }
                }
            },
            None => {
                assert(false);
            },
        }
        i += 1;
    }
}

/// Gives every camera that was refined its new intrinsics.
pub fn write_cameras<T: Copy, P, K>(
    recon: &mut Reconstruction<T, P, K>,
    camera_ids: &Vec<u32>,
    models: &Vec<CameraModel<T>>,
)
    requires
        camera_ids@.no_duplicates(),
        forall|i: int|
            0 <= i < camera_ids@.len() ==> old(recon).cameras@.contains_key(#[trigger] camera_ids@[i]),
        models@.len() == camera_ids@.len(),
    ensures
        final(recon).images == old(recon).images,
        final(recon).points3d == old(recon).points3d,
        final(recon).cameras@.dom() == old(recon).cameras@.dom(),
        forall|i: int|
            0 <= i < camera_ids@.len() ==> final(recon).cameras@[#[trigger] camera_ids@[i]]
                == remodelled(old(recon).cameras@[camera_ids@[i]], models@[i]),
        forall|id: u32| #[trigger]
            old(recon).cameras@.contains_key(id) && !camera_ids@.contains(id)
                ==> final(recon).cameras@[id] == old(recon).cameras@[id],
{
    broadcast use vstd::std_specs::btree::group_btree_axioms;

    let ghost before = recon.cameras@;
    let mut i: usize = 0;
    while i < camera_ids.len()
        invariant
            i <= camera_ids@.len(),
            models@.len() == camera_ids@.len(),
            camera_ids@.no_duplicates(),
            before == old(recon).cameras@,
            forall|k: int|
                0 <= k < camera_ids@.len() ==> before.contains_key(#[trigger] camera_ids@[k]),
            recon.images == old(recon).images,
            recon.points3d == old(recon).points3d,
            recon.cameras@.dom() == before.dom(),
            forall|k: int|
                0 <= k < i ==> recon.cameras@[#[trigger] camera_ids@[k]] == remodelled(
                    before[camera_ids@[k]],
                    models@[k],
                ),
            forall|k: int|
                i <= k < camera_ids@.len() ==> recon.cameras@[#[trigger] camera_ids@[k]]
                    == before[camera_ids@[k]],
            forall|id: u32| #[trigger]
                before.contains_key(id) && !camera_ids@.contains(id) ==> recon.cameras@[id]
                    == before[id],
        decreases camera_ids@.len() - i,
    {
        let id: u32 = camera_ids[i];
        assert(before.contains_key(camera_ids@[i as int]));
        assert(camera_ids@.contains(id));
        let ghost now = recon.cameras@;
        match recon.cameras.get(&id) {
            Some(cam) => {
                let changed = Camera {
                    camera_id: cam.camera_id,
                    model: models[i],
                    width: cam.width,
                    height: cam.height,
                };
                recon.cameras.insert(id, changed);
                assert(recon.cameras@.dom() =~= before.dom());
                assert forall|k: int| 0 <= k < camera_ids@.len() && k != i implies recon.cameras@[
                #[trigger] camera_ids@[k]] == now[camera_ids@[k]] by {
                    assert(camera_ids@[k] != camera_ids@[i as int]);
                }
            },
            None => {
                assert(recon.cameras@.contains_key(id));
                assert(false);
            },
        }
        i += 1;
    }
}

/// A camera with other intrinsics.
pub open spec fn remodelled<T>(cam: Camera<T>, model: CameraModel<T>) -> Camera<T> {
    Camera { camera_id: cam.camera_id, model, width: cam.width, height: cam.height }
}

/// Only the first pose is held fixed.
pub proof fn only_the_first_pose_is_held<T, P, K>(
    c: Compact<K>,
    recon: Reconstruction<T, P, K>,
    i: int,
)
    requires
        c.is_of(recon),
        0 <= i < c.image_ids@.len(),
    ensures
        i < c.fixed_poses@.len(),
        c.fixed_poses@[i] <==> i == 0,
{
    assert(c.fixed_poses@[i] == (i == 0));
}

/// Every image refers to its own camera, and every observation to the image
/// and the point that it is of.
pub proof fn places_are_those_of_the_model<T, P, K>(
    c: Compact<K>,
    recon: Reconstruction<T, P, K>,
    i: int,
)
    requires
        c.is_of(recon),
        0 <= i < c.image_ids@.len(),
    ensures
        recon.images@.contains_key(c.image_ids@[i]),
        c.camera_ids@[c.camera_of_image@[i] as int]
            == recon.images@[c.image_ids@[i]].camera_id,
{
    broadcast use vstd::std_specs::btree::group_btree_axioms;

    model::ids_are_the_keys(recon.images@);
    assert(c.image_ids@.to_set().contains(c.image_ids@[i]));
    assert(c.camera_ids@[c.camera_of_image@[i] as int] == model::image_cameras(recon)[i]);
}

/// Writing a refined value back changes that value alone.
pub proof fn writing_back_changes_nothing_else<T, P, K>(
    im: Image<P, K>,
    pose: P,
    p: Point3D<T>,
    xyz: [T; 3],
    cam: Camera<T>,
    model: CameraModel<T>,
)
    ensures
        posed(im, pose).pose == pose,
        posed(im, pose).id == im.id && posed(im, pose).camera_id == im.camera_id,
        posed(im, pose).name == im.name,
        posed(im, pose).keypoints == im.keypoints && posed(im, pose).point3d_ids
            == im.point3d_ids,
        placed(p, xyz).xyz == xyz,
        placed(p, xyz).id == p.id && placed(p, xyz).color == p.color,
        placed(p, xyz).error == p.error && placed(p, xyz).track == p.track,
        remodelled(cam, model).model == model,
        remodelled(cam, model).camera_id == cam.camera_id,
        remodelled(cam, model).width == cam.width && remodelled(cam, model).height == cam.height,
{
}

/// Cameras are numbered in the order in which they are first seen: the first
/// occurrence of an earlier one stands in front of that of a later one.
pub proof fn first_seen_comes_first(s: Seq<u32>, n: nat, a: int, b: int, k: int)
    requires
        n <= s.len(),
        0 <= a < b < first_seen(s, n).len(),
        0 <= k < n,
        s[k] == first_seen(s, n)[b],
    ensures
        exists|j: int| 0 <= j < k && #[trigger] s[j] == first_seen(s, n)[a],
    decreases n,
{
    let rest = first_seen(s, (n - 1) as nat);
    each_is_first_seen_once(s, (n - 1) as nat);
    if b < rest.len() {
        if k < n - 1 {
            first_seen_comes_first(s, (n - 1) as nat, a, b, k);
        } else {
            // The last one was seen before.
            assert(rest.contains(s[k]));
            let x = lemma_seen_at(s, (n - 1) as nat, b);
            first_seen_comes_first(s, (n - 1) as nat, a, b, x);
        }
    } else {
        assert(k == n - 1) by {
            if k < n - 1 {
                assert(rest.contains(s[k]));
            }
        }
        let x = lemma_seen_at(s, (n - 1) as nat, a);
        assert(s[x] == first_seen(s, n)[a]);
    }
}

proof fn lemma_seen_at(s: Seq<u32>, n: nat, a: int) -> (j: int)
    requires
        n <= s.len(),
        0 <= a < first_seen(s, n).len(),
    ensures
        0 <= j < n,
        s[j] == first_seen(s, n)[a],
    decreases n,
{
    let rest = first_seen(s, (n - 1) as nat);
    if a < rest.len() {
        lemma_seen_at(s, (n - 1) as nat, a)
    } else {
        n - 1
    }
}

/// A reconstruction can be refined where it has two images or more and a track
/// element that leads to a keypoint of one of them.
pub proof fn tracked_reconstructions_can_be_refined<T, P, K>(
    recon: Reconstruction<T, P, K>,
    dir: Seq<char>,
    p: int,
    k: int,
)
    requires
        recon.points3d@.dom().finite(),
        recon.images@.dom().finite(),
        recon.points3d@.len() <= usize::MAX,
        recon.images@.len() <= usize::MAX,
        0 <= p < recon.points3d@.len(),
        0 <= k < recon.points3d@[model::ids(recon.points3d@)[p]].track@.len(),
        recon.is_seen(recon.points3d@[model::ids(recon.points3d@)[p]].track@[k]),
    ensures
        refine_complaint(recon, dir) is None <==> recon.images@.len() >= 2,
{
    model::every_track_element_is_observed(recon, p, k);
    let obs = model::observations_of(recon, recon.points3d@.len());
    let t = recon.points3d@[model::ids(recon.points3d@)[p]].track@[k];
    assert(model::has_told_of_point(recon, obs, p, t));
    let i = choose|i: int|
        0 <= i < obs.len() && model::tells_of(recon, #[trigger] obs[i], t) && obs[i].point_idx
            == p;
    assert(obs.len() > 0);
}

/// A reconstruction without points, or with fewer than two images, cannot be
/// refined.
pub proof fn empty_reconstructions_cannot_be_refined<T, P, K>(
    recon: Reconstruction<T, P, K>,
    dir: Seq<char>,
)
    requires
        recon.images@.len() < 2 || recon.points3d@.len() == 0,
    ensures
        refine_complaint(recon, dir) is Some,
{
}

} // verus!
