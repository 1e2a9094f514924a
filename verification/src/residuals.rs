//! What the residuals of a reconstruction are: those of a plain walk over its
//! points, image by image, and nothing that the points carry from an earlier
//! adjustment.
//!
//! How a point is measured against an observation is left open: a function
//! from camera, pose, position and keypoint to an error, or to nothing where
//! the point is behind the camera.

use vstd::prelude::*;

use crate::camera::CameraModel;
use crate::consensus;
use crate::diagnostics;
use crate::diagnostics::ResidualIndex;
use crate::model;
use crate::model::{Observation, Reconstruction, TrackElement};
use crate::sets;

verus! {

/// How far off a point is seen, or nothing where it is behind the camera.
pub type Measure<T, P, K, E> = spec_fn(CameraModel<T>, P, [T; 3], K) -> Option<E>;

// ---------------------------------------------------------------------------
// The plain walk
// ---------------------------------------------------------------------------

/// The error of a point in one element of its track, which leads somewhere.
pub open spec fn error_at<T, P, K, E>(
    recon: Reconstruction<T, P, K>,
    measure: Measure<T, P, K, E>,
    id: u64,
    t: TrackElement,
) -> Option<E> {
    let image = recon.images@[t.image_id];
    measure(
        recon.cameras@[image.camera_id].model,
        image.pose,
        recon.points3d@[id].xyz,
        image.keypoints@[t.point2d_idx as int],
    )
}

/// The errors of a point along the first `n` elements of its track, without
/// those that lead nowhere or to a camera that the point is behind.
pub open spec fn track_errors<T, P, K, E>(
    recon: Reconstruction<T, P, K>,
    measure: Measure<T, P, K, E>,
    id: u64,
    n: nat,
) -> Seq<E>
    decreases n,
{
    if n == 0 {
        Seq::empty()
    } else {
        let rest = track_errors(recon, measure, id, (n - 1) as nat);
        let t = recon.points3d@[id].track@[n - 1];
        if recon.is_seen(t) {
            match error_at(recon, measure, id, t) {
                Some(e) => rest.push(e),
                None => rest,
            }
        } else {
            rest
        }
    }
}

/// How many of the first `n` elements of a track lead to a camera that the
/// point is behind.
pub open spec fn track_behind<T, P, K, E>(
    recon: Reconstruction<T, P, K>,
    measure: Measure<T, P, K, E>,
    id: u64,
    n: nat,
) -> nat
    decreases n,
{
    if n == 0 {
        0
    } else {
        let t = recon.points3d@[id].track@[n - 1];
        track_behind(recon, measure, id, (n - 1) as nat) + if recon.is_seen(t) && error_at(
            recon,
            measure,
            id,
            t,
        ) is None {
            1nat
        } else {
            0nat
        }
    }
}

/// The errors of the first `n` points, one track after another.
pub open spec fn recomputed<T, P, K, E>(
    recon: Reconstruction<T, P, K>,
    measure: Measure<T, P, K, E>,
    n: nat,
) -> Seq<E>
    decreases n,
{
    if n == 0 {
        Seq::empty()
    } else {
        let id = model::ids(recon.points3d@)[n - 1];
        recomputed(recon, measure, (n - 1) as nat) + track_errors(
            recon,
            measure,
            id,
            recon.points3d@[id].track@.len(),
        )
    }
}

/// How often one of the first `n` points is behind a camera that its track
/// leads to.
pub open spec fn recomputed_behind<T, P, K, E>(
    recon: Reconstruction<T, P, K>,
    measure: Measure<T, P, K, E>,
    n: nat,
) -> nat
    decreases n,
{
    if n == 0 {
        0
    } else {
        let id = model::ids(recon.points3d@)[n - 1];
        recomputed_behind(recon, measure, (n - 1) as nat) + track_behind(
            recon,
            measure,
            id,
            recon.points3d@[id].track@.len(),
        )
    }
}

// ---------------------------------------------------------------------------
// The indexed residuals
// ---------------------------------------------------------------------------

/// The error of an observation.
pub open spec fn error_of<T, P, K, E>(
    recon: Reconstruction<T, P, K>,
    measure: Measure<T, P, K, E>,
    o: Observation<K>,
) -> Option<E> {
    let image = recon.images@[model::ids(recon.images@)[o.image_idx as int]];
    let point = recon.points3d@[model::ids(recon.points3d@)[o.point_idx as int]];
    measure(recon.cameras@[image.camera_id].model, image.pose, point.xyz, o.at)
}

/// The errors of some observations.
pub open spec fn errors_of<T, P, K, E>(
    recon: Reconstruction<T, P, K>,
    measure: Measure<T, P, K, E>,
    obs: Seq<Observation<K>>,
) -> Seq<Option<E>> {
    obs.map_values(|o: Observation<K>| error_of(recon, measure, o))
}

/// Which observations have an error.
pub open spec fn have_error<E>(errors: Seq<Option<E>>) -> Seq<bool> {
    errors.map_values(|e: Option<E>| e is Some)
}

/// The errors at some places.
pub open spec fn errors_at<E>(errors: Seq<Option<E>>, places: Seq<usize>) -> Seq<E> {
    places.map_values(|i: usize| errors[i as int]->0)
}

/// Every observation of a reconstruction.
pub open spec fn all_observations<T, P, K>(recon: Reconstruction<T, P, K>) -> Seq<
    Observation<K>,
> {
    model::observations_of(recon, recon.points3d@.len())
}

/// Two reconstructions that differ in nothing but the errors that their points
/// carry.
pub open spec fn same_but_for_errors<T, P, K>(
    a: Reconstruction<T, P, K>,
    b: Reconstruction<T, P, K>,
) -> bool {
    &&& model::same_tracks(a, b)
    &&& forall|id: u64|
        a.points3d@.contains_key(id) ==> (#[trigger] a.points3d@[id]).xyz == b.points3d@[id].xyz
            && a.points3d@[id].id == b.points3d@[id].id && a.points3d@[id].color
            == b.points3d@[id].color
}

// ---------------------------------------------------------------------------
// They are the same
// ---------------------------------------------------------------------------

/// The errors that are there, in order.
spec fn present<E>(errors: Seq<Option<E>>) -> Seq<E>
    decreases errors.len(),
{
    if errors.len() == 0 {
        Seq::empty()
    } else {
        let rest = present(errors.drop_last());
        match errors.last() {
            Some(e) => rest.push(e),
            None => rest,
        }
    }
}

proof fn lemma_present_push<E>(errors: Seq<Option<E>>, e: Option<E>)
    ensures
        present(errors.push(e)) == match e {
            Some(x) => present(errors).push(x),
            None => present(errors),
        },
{
    assert(errors.push(e).drop_last() =~= errors);
}

proof fn lemma_present_add<E>(a: Seq<Option<E>>, b: Seq<Option<E>>)
    ensures
        present(a + b) == present(a) + present(b),
    decreases b.len(),
{
    if b.len() == 0 {
        assert(a + b =~= a);
        assert(present(a) + present(b) =~= present(a));
    } else {
        let front = b.drop_last();
        lemma_present_add(a, front);
        assert((a + b).drop_last() =~= a + front);
        assert(present(a + b) =~= present(a) + present(b));
    }
}

/// The places that are kept are those of the errors that are there.
proof fn lemma_kept_are_present<E>(errors: Seq<Option<E>>, n: nat)
    requires
        n <= errors.len() <= usize::MAX,
    ensures
        errors_at(errors, consensus::flagged(have_error(errors), n)) == present(
            errors.take(n as int),
        ),
    decreases n,
{
    if n == 0 {
        assert(errors.take(0) =~= Seq::<Option<E>>::empty());
        assert(errors_at(errors, consensus::flagged(have_error(errors), 0)) =~= Seq::<E>::empty());
    } else {
        let rest = consensus::flagged(have_error(errors), (n - 1) as nat);
        lemma_kept_are_present(errors, (n - 1) as nat);
        assert(errors.take(n as int).drop_last() =~= errors.take(n - 1));
        assert(have_error(errors)[n - 1] == errors[n - 1] is Some);
        assert(errors_at(errors, rest.push((n - 1) as usize)) =~= errors_at(errors, rest).push(
            errors[n - 1]->0,
        ));
    }
}

spec fn is_bounded<T, P, K>(recon: Reconstruction<T, P, K>) -> bool {
    &&& recon.images@.len() <= usize::MAX
    &&& recon.points3d@.len() <= usize::MAX
    &&& model::ids(recon.images@).to_set() == recon.images@.dom()
    &&& model::ids(recon.images@).len() == recon.images@.len()
    &&& model::ids(recon.points3d@).len() == recon.points3d@.len()
}

proof fn lemma_track<T, P, K, E>(
    recon: Reconstruction<T, P, K>,
    measure: Measure<T, P, K, E>,
    i: int,
    n: nat,
)
    requires
        is_bounded(recon),
        0 <= i < recon.points3d@.len(),
        n <= recon.points3d@[model::ids(recon.points3d@)[i]].track@.len(),
    ensures
        ({
            let id = model::ids(recon.points3d@)[i];
            let obs = model::track_observations(recon, i, recon.points3d@[id].track@, n);
            &&& present(errors_of(recon, measure, obs)) == track_errors(recon, measure, id, n)
            &&& obs.len() == track_errors(recon, measure, id, n).len() + track_behind(
                recon,
                measure,
                id,
                n,
            )
        }),
    decreases n,
{
    let id = model::ids(recon.points3d@)[i];
    let track = recon.points3d@[id].track@;
    let obs = model::track_observations(recon, i, track, n);
    if n == 0 {
        assert(errors_of(recon, measure, obs) =~= Seq::<Option<E>>::empty());
    } else {
        lemma_track(recon, measure, i, (n - 1) as nat);
        let front = model::track_observations(recon, i, track, (n - 1) as nat);
        let t = track[n - 1];
        if recon.is_seen(t) {
            let o = obs.last();
            let ids = model::ids(recon.images@);
            assert(ids.to_set().contains(t.image_id));
            assert(ids.contains(t.image_id));
            assert(ids[ids.index_of(t.image_id)] == t.image_id);
            assert(error_of(recon, measure, o) == error_at(recon, measure, id, t));
            assert(errors_of(recon, measure, obs) =~= errors_of(recon, measure, front).push(
                error_of(recon, measure, o),
            ));
            lemma_present_push(errors_of(recon, measure, front), error_of(recon, measure, o));
        }
    }
}

proof fn lemma_walk<T, P, K, E>(
    recon: Reconstruction<T, P, K>,
    measure: Measure<T, P, K, E>,
    n: nat,
)
    requires
        is_bounded(recon),
        n <= recon.points3d@.len(),
    ensures
        present(errors_of(recon, measure, model::observations_of(recon, n))) == recomputed(
            recon,
            measure,
            n,
        ),
        model::observations_of(recon, n).len() == recomputed(recon, measure, n).len()
            + recomputed_behind(recon, measure, n),
    decreases n,
{
    if n == 0 {
        assert(errors_of(recon, measure, model::observations_of(recon, 0)) =~= Seq::<
            Option<E>,
        >::empty());
    } else {
        let id = model::ids(recon.points3d@)[n - 1];
        let track = recon.points3d@[id].track@;
        let front = model::observations_of(recon, (n - 1) as nat);
        let last = model::track_observations(recon, n - 1, track, track.len());
        lemma_walk(recon, measure, (n - 1) as nat);
        lemma_track(recon, measure, n - 1, track.len());
        assert(errors_of(recon, measure, front + last) =~= errors_of(recon, measure, front)
            + errors_of(recon, measure, last));
        lemma_present_add(errors_of(recon, measure, front), errors_of(recon, measure, last));
    }
}

proof fn lemma_same_track<T, P, K, E>(
    a: Reconstruction<T, P, K>,
    b: Reconstruction<T, P, K>,
    measure: Measure<T, P, K, E>,
    id: u64,
    n: nat,
)
    requires
        same_but_for_errors(a, b),
        a.points3d@.contains_key(id),
        n <= a.points3d@[id].track@.len(),
    ensures
        track_errors(a, measure, id, n) == track_errors(b, measure, id, n),
        track_behind(a, measure, id, n) == track_behind(b, measure, id, n),
    decreases n,
{
    if n > 0 {
        lemma_same_track(a, b, measure, id, (n - 1) as nat);
    }
}

proof fn lemma_same_walk<T, P, K, E>(
    a: Reconstruction<T, P, K>,
    b: Reconstruction<T, P, K>,
    measure: Measure<T, P, K, E>,
    n: nat,
)
    requires
        same_but_for_errors(a, b),
        model::ids(a.points3d@).to_set() == a.points3d@.dom(),
        n <= model::ids(a.points3d@).len(),
    ensures
        recomputed(a, measure, n) == recomputed(b, measure, n),
        recomputed_behind(a, measure, n) == recomputed_behind(b, measure, n),
    decreases n,
{
    if n > 0 {
        lemma_same_walk(a, b, measure, (n - 1) as nat);
        let id = model::ids(a.points3d@)[n - 1];
        assert(model::ids(a.points3d@).to_set().contains(id));
        assert(model::ids(a.points3d@) == model::ids(b.points3d@));
        lemma_same_track(a, b, measure, id, a.points3d@[id].track@.len());
    }
}

/// The indexed residuals of a reconstruction are those of the plain walk over
/// its points: the same errors in the same order, and so with the same mean,
/// quantiles and largest, as many of them, and as many observations behind
/// their camera. The lists by image and by point each part them. And `other`,
/// which differs in the errors that its points carry, has the same
/// observations with the same errors.
pub proof fn residuals_are_recomputed<T, P, K, E>(
    recon: Reconstruction<T, P, K>,
    other: Reconstruction<T, P, K>,
    measure: Measure<T, P, K, E>,
    r: ResidualIndex,
)
    requires
        recon.images@.len() <= usize::MAX,
        recon.points3d@.len() <= usize::MAX,
        all_observations(recon).len() <= usize::MAX,
        same_but_for_errors(recon, other),
        diagnostics::is_index(
            r,
            all_observations(recon),
            have_error(errors_of(recon, measure, all_observations(recon))),
        ),
    ensures
        errors_at(errors_of(recon, measure, all_observations(recon)), r.kept@) == recomputed(
            recon,
            measure,
            recon.points3d@.len(),
        ),
        r.kept@.len() == recomputed(recon, measure, recon.points3d@.len()).len(),
        r.num_behind_camera == recomputed_behind(recon, measure, recon.points3d@.len()),
        sets::part_the_places(
            r.by_image@,
            diagnostics::kept_images(all_observations(recon), r.kept@),
        ),
        sets::part_the_places(
            r.by_point@,
            diagnostics::kept_points(all_observations(recon), r.kept@),
        ),
        model::ids(recon.images@).no_duplicates(),
        model::ids(recon.points3d@).no_duplicates(),
        all_observations(other) == all_observations(recon),
        errors_of(other, measure, all_observations(other)) == errors_of(
            recon,
            measure,
            all_observations(recon),
        ),
        recomputed(other, measure, other.points3d@.len()) == recomputed(
            recon,
            measure,
            recon.points3d@.len(),
        ),
        recomputed_behind(other, measure, other.points3d@.len()) == recomputed_behind(
            recon,
            measure,
            recon.points3d@.len(),
        ),
{
    broadcast use vstd::std_specs::btree::group_btree_axioms;

    model::ids_are_the_keys(recon.images@);
    model::ids_are_the_keys(recon.points3d@);
    let obs = all_observations(recon);
    let errors = errors_of(recon, measure, obs);
    lemma_walk(recon, measure, recon.points3d@.len());
    lemma_kept_are_present(errors, errors.len());
    assert(errors.take(errors.len() as int) =~= errors);
    diagnostics::residual_lists_part_the_observations(obs, have_error(errors), r);
    model::observations_ignore_errors(recon, other);
    assert forall|i: int| 0 <= i < obs.len() implies error_of(other, measure, #[trigger] obs[i])
        == error_of(recon, measure, obs[i]) by {
        model::lemma_observed_places(recon, recon.points3d@.len(), i);
        let id = model::ids(recon.points3d@)[obs[i].point_idx as int];
        assert(model::ids(recon.points3d@).to_set().contains(id));
        assert(recon.points3d@.contains_key(id));
    }
    assert(errors_of(other, measure, obs) =~= errors);
    lemma_same_walk(recon, other, measure, recon.points3d@.len());
}

} // verus!
