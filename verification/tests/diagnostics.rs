use std::collections::BTreeSet;

use sfmtory::camera::{Camera, CameraModel};
use sfmtory::diagnostics::{
    azimuth_sectors, camera_diags, coverage_grid, coverage_message, coverage_verdict, focal_verdict,
    index_residuals, quantiles, track_stats, unrefined_warning, CameraDiag, CoverageVerdict,
    FocalChange, FocalVerdict, ShownAngles, ViewAngle,
};
use sfmtory::model::{
    cameras_of_images, observations, Image, Observation, Point3D, Reconstruction, TrackElement,
};
use sfmtory::viewer::{coverage_note, untracked, worst_observations};

/// How many images a camera needs before its focal length can move.
const MIN_IMAGES_PER_CAMERA_FOR_INTRINSICS: usize = 4;

type Recon = Reconstruction<f64, (), (f32, f32)>;

fn point(id: u64, track: Vec<TrackElement>) -> Point3D<f64> {
    Point3D { id, xyz: [0.0, 0.0, 0.0], color: [0, 0, 0], error: 0.0, track }
}

fn seen(image_id: u32, point2d_idx: u32) -> TrackElement {
    TrackElement { image_id, point2d_idx }
}

fn image(id: u32, camera_id: u32, ids: Vec<Option<u64>>) -> Image<(), (f32, f32)> {
    Image {
        id,
        camera_id,
        name: format!("img{id}.jpg"),
        pose: (),
        keypoints: vec![(0.5, 1.5); ids.len()],
        point3d_ids: ids,
    }
}

fn pinhole(camera_id: u32) -> Camera<f64> {
    let model = CameraModel::Pinhole { fx: 500.0, fy: 500.0, cx: 320.0, cy: 240.0 };
    Camera { camera_id, model, width: 640, height: 480 }
}

/// The change of a focal length, as the share by which it moved.
fn change(prior: Option<(f64, f64)>, now: (f64, f64)) -> FocalChange<f64> {
    match prior {
        None => FocalChange::Unknown,
        Some(p) => {
            let before = 0.5 * (p.0 + p.1);
            let relative = (0.5 * (now.0 + now.1) - before) / before;
            if relative == 0.0 {
                FocalChange::Same
            } else {
                FocalChange::Moved(relative)
            }
        }
    }
}

fn verdict(
    prior: Option<(f64, f64)>,
    now: (f64, f64),
    num_images: usize,
    pinned: bool,
) -> FocalVerdict<f64> {
    focal_verdict(
        change(prior, now),
        num_images,
        pinned,
        MIN_IMAGES_PER_CAMERA_FOR_INTRINSICS,
    )
}

#[test]
fn track_histogram_counts_each_length() {
    let mut recon: Recon = Reconstruction::new();
    for (id, len) in [(1u64, 2usize), (2, 2), (3, 5), (4, 3)] {
        recon.points3d.insert(id, point(id, (0..len).map(|i| seen(i as u32, 0)).collect()));
    }
    let s = track_stats(&recon);
    assert_eq!(s.histogram, vec![(2, 2), (3, 1), (5, 1)]);
    assert_eq!(s.min, 2);
    assert_eq!(s.max, 5);
    assert_eq!(s.total_points, 4);
    assert_eq!(s.median as f64, 3.0);
    // The mean is the total over the count.
    assert_eq!(s.total_length as f64 / s.total_points as f64, 3.0);
}

#[test]
fn verdict_separates_never_attempted_from_rejected() {
    // Unchanged focal with too few images: never eligible.
    assert_eq!(
        verdict(Some((1536.0, 1536.0)), (1536.0, 1536.0), 3, false),
        FocalVerdict::NotEligible { num_images: 3 }
    );
    // Unchanged focal with enough images: it ran and lost the comparison.
    assert_eq!(
        verdict(Some((1536.0, 1536.0)), (1536.0, 1536.0), 13, false),
        FocalVerdict::Rejected
    );
    // Moved: refined, and the sign of the change is reported.
    match verdict(Some((1000.0, 1000.0)), (1100.0, 1100.0), 13, false) {
        FocalVerdict::Refined { relative_change } => {
            assert!((relative_change - 0.1).abs() < 1e-12);
        }
        other => panic!("expected Refined, got {other:?}"),
    }
    // A pinned camera is never a warning, however little it moved.
    assert_eq!(
        verdict(Some((1536.0, 1536.0)), (1536.0, 1536.0), 3, true),
        FocalVerdict::Pinned
    );
    assert_eq!(verdict(None, (1536.0, 1536.0), 13, false), FocalVerdict::Unknown);
}

#[test]
fn coverage_grid_collapses_the_fronto_parallel_band() {
    let views = vec![
        ViewAngle { image_id: 1, tilt_deg: 5, azimuth_deg: 200 },
        ViewAngle { image_id: 2, tilt_deg: 20, azimuth_deg: 10 },
        ViewAngle { image_id: 3, tilt_deg: 50, azimuth_deg: 190 },
    ];
    let grid = coverage_grid(&views);
    // Band 0 ignores azimuth entirely.
    assert_eq!(grid[0][0], 1);
    assert_eq!(grid[0].iter().sum::<usize>(), 1);
    assert_eq!(grid[1][0], 1);
    assert_eq!(grid[3][4], 1);
    assert_eq!(azimuth_sectors(&views), [1, 0, 0, 0, 1, 0, 0, 0]);
    let (note, thin) = coverage_note(&grid);
    assert_eq!(note, "22 of 25 orientation cells still empty");
    assert!(thin);
}

#[test]
fn only_unmoved_focals_are_warnings() {
    let need = MIN_IMAGES_PER_CAMERA_FOR_INTRINSICS;
    let few: FocalVerdict<f64> = FocalVerdict::NotEligible { num_images: 3 };
    assert!(few.is_warning());
    assert_eq!(
        few.headline(need, ""),
        "focal NOT refined - only 3 image(s) on this camera, needs 4"
    );
    let lost: FocalVerdict<f64> = FocalVerdict::Rejected;
    assert!(lost.is_warning());
    let moved = FocalVerdict::Refined { relative_change: 0.1 };
    assert!(!moved.is_warning());
    assert_eq!(
        moved.headline(need, "+10.00"),
        "focal refined (+10.00% from the initial guess)"
    );
    let pinned: FocalVerdict<f64> = FocalVerdict::Pinned;
    assert!(!pinned.is_warning());
    let unknown: FocalVerdict<f64> = FocalVerdict::Unknown;
    assert!(!unknown.is_warning());
}

#[test]
fn observations_follow_the_tracks() {
    let mut recon: Recon = Reconstruction::new();
    recon.cameras.insert(1, pinhole(1));
    recon.images.insert(4, image(4, 1, vec![Some(7), None]));
    recon.images.insert(5, image(5, 1, vec![None, Some(7)]));
    // Image 9 is not there, and image 5 has no keypoint 8.
    recon.points3d.insert(7, point(7, vec![seen(5, 1), seen(9, 0), seen(5, 8), seen(4, 0)]));
    let obs = observations(&recon);
    let places: Vec<(usize, usize)> = obs.iter().map(|o| (o.image_idx, o.point_idx)).collect();
    assert_eq!(places, vec![(1, 0), (0, 0)]);
    assert_eq!(cameras_of_images(&recon), vec![1, 1]);
    assert_eq!(recon.num_registered_images(), 2);
    assert_eq!(recon.next_point3d_id(), 8);
    assert_eq!(recon.images[&4].num_observations(), 1);
    assert_eq!(untracked(&recon.images[&4]), vec![1]);
}

#[test]
fn residuals_are_indexed_by_image_and_point() {
    let o = |image_idx: usize, point_idx: usize| Observation { image_idx, point_idx, at: () };
    let obs = vec![o(0, 5), o(1, 5), o(0, 6)];
    let r = index_residuals(&obs, &vec![true, false, true]);
    assert_eq!(r.kept, vec![0, 2]);
    assert_eq!(r.num_behind_camera, 1);
    assert_eq!(r.by_image.len(), 1);
    assert_eq!((r.by_image[0].key, r.by_image[0].values.clone()), (0, vec![0, 1]));
    let points: Vec<usize> = r.by_point.iter().map(|g| g.key).collect();
    assert_eq!(points, vec![5, 6]);
}

#[test]
fn quantiles_are_taken_from_the_sorted_errors() {
    assert!(quantiles(Vec::new()).is_none());
    let q = quantiles((0..100).rev().collect()).unwrap();
    assert_eq!((q.median, q.max), (50, 99));
    assert_eq!(q.p95, 94);
    let one = quantiles(vec![8]).unwrap();
    assert_eq!((one.median, one.p95, one.max), (8, 8, 8));
}

#[test]
fn cameras_are_described_from_the_reconstruction() {
    let mut recon: Recon = Reconstruction::new();
    recon.cameras.insert(1, pinhole(1));
    recon.cameras.insert(2, pinhole(2));
    recon.images.insert(4, image(4, 1, vec![Some(7)]));
    recon.images.insert(5, image(5, 2, vec![Some(7)]));
    recon.points3d.insert(7, point(7, vec![seen(4, 0), seen(5, 0)]));
    let changes = vec![FocalChange::Same, FocalChange::Moved(0.2)];
    let diags = camera_diags(&recon, &vec![0, 1, 1], &changes, &BTreeSet::new(), 4);
    let seen: Vec<(u32, usize, usize, usize)> = diags
        .iter()
        .map(|d| (d.camera_id, d.num_images, d.num_observations, d.max_track_len))
        .collect();
    assert_eq!(seen, vec![(1, 1, 1, 2), (2, 1, 2, 2)]);
    assert_eq!(diags[0].model_name, "PINHOLE");
    assert_eq!(diags[0].verdict, FocalVerdict::NotEligible { num_images: 1 });
    assert_eq!(diags[1].verdict, FocalVerdict::Refined { relative_change: 0.2 });
    // A warning is only backed by evidence where every track is short.
    assert!(diags[0].evidence().is_some());
    assert!(diags[1].evidence().is_none());
    let pinned: BTreeSet<u32> = [1].into_iter().collect();
    let diags = camera_diags(&recon, &vec![], &changes, &pinned, 4);
    assert_eq!(diags[0].verdict, FocalVerdict::Pinned);
}

#[test]
fn warnings_list_the_cameras_whose_focal_stayed() {
    let diag = |camera_id: u32, verdict: FocalVerdict<f64>| CameraDiag {
        camera_id,
        model_name: "PINHOLE".to_string(),
        num_images: 3,
        num_observations: 10,
        verdict,
        max_track_len: 4,
    };
    let fine = vec![diag(1, FocalVerdict::Refined { relative_change: 0.1 })];
    assert!(unrefined_warning(&fine, 4).is_empty());
    let bad = vec![
        diag(1, FocalVerdict::Refined { relative_change: 0.1 }),
        diag(2, FocalVerdict::Rejected),
    ];
    let lines = unrefined_warning(&bad, 4);
    assert_eq!(
        lines[2],
        "WARNING: 1 of 2 camera(s) kept the focal length they started with; not calibrated."
    );
    assert!(lines[3].contains("self-calibration ran and its result was rejected"));
}

#[test]
fn narrow_coverage_says_what_is_missing() {
    let shown = ShownAngles {
        range: "4.0".to_string(),
        min: "1.0".to_string(),
        max: "5.0".to_string(),
        spread: "9.0".to_string(),
    };
    assert!(matches!(coverage_verdict(false, true, true, &shown), CoverageVerdict::NotPlanar));
    assert!(matches!(coverage_verdict(true, true, true, &shown), CoverageVerdict::Adequate));
    match coverage_verdict(true, false, true, &shown) {
        CoverageVerdict::Narrow(msg) => assert!(msg.contains("same angle"), "{msg}"),
        other => panic!("expected Narrow, got {other:?}"),
    }
    match coverage_verdict(true, true, false, &shown) {
        CoverageVerdict::Narrow(msg) => assert!(msg.contains("same axis"), "{msg}"),
        other => panic!("expected Narrow, got {other:?}"),
    }
}

#[test]
fn the_worst_observations_come_first() {
    let worst = worst_observations(&vec![3, 9, 1, 9], 3);
    let places: Vec<(usize, u64)> = worst.iter().map(|r| (r.observation, r.size)).collect();
    assert_eq!(places, vec![(1, 9), (3, 9), (0, 3)]);
    assert_eq!(worst_observations(&vec![3], 30).len(), 1);
}

#[test]
fn coverage_is_put_into_words() {
    assert_eq!(
        coverage_message(&CoverageVerdict::NotPlanar, "0.412"),
        "note: this cloud is not planar (flatness 0.412), so the plane below is only a best fit and its coverage is not a calibration criterion"
    );
    assert_eq!(coverage_message(&CoverageVerdict::Narrow("why".to_string()), "0.1"), "why");
    assert_eq!(
        coverage_message(&CoverageVerdict::Adequate, "0.1"),
        "coverage is adequate for single-plane self-calibration"
    );
}

/// Each residual stands in one list by image and in one by point.
#[test]
fn residual_lists_account_for_every_observation() {
    let o = |image_idx: usize, point_idx: usize| Observation { image_idx, point_idx, at: () };
    let obs = vec![o(2, 0), o(0, 0), o(2, 1), o(1, 1), o(2, 3), o(0, 3)];
    let r = index_residuals(&obs, &vec![true, true, false, true, true, true]);
    let images: Vec<(usize, Vec<usize>)> =
        r.by_image.iter().map(|g| (g.key, g.values.clone())).collect();
    assert_eq!(images, vec![(0, vec![1, 4]), (1, vec![2]), (2, vec![0, 3])]);
    let points: Vec<(usize, Vec<usize>)> =
        r.by_point.iter().map(|g| (g.key, g.values.clone())).collect();
    assert_eq!(points, vec![(0, vec![0, 1]), (1, vec![2]), (3, vec![3, 4])]);
    let listed: usize = images.iter().map(|(_, v)| v.len()).sum();
    assert_eq!(listed + r.num_behind_camera, obs.len());
    // Taken by image or by point, the errors are the same errors.
    let errors: Vec<u64> = vec![40, 10, 30, 50, 20];
    let of = |lists: &Vec<(usize, Vec<usize>)>| {
        lists.iter().flat_map(|(_, v)| v.iter().map(|k| errors[*k])).collect::<Vec<u64>>()
    };
    let all = quantiles(errors.clone()).unwrap();
    assert_eq!((all.median, all.max), (30, 50));
    assert_eq!(quantiles(of(&images)).unwrap(), all);
    assert_eq!(quantiles(of(&points)).unwrap(), all);
}

/// Errors in another order have the same quantiles.
#[test]
fn quantiles_do_not_depend_on_the_order_of_the_errors() {
    let up = quantiles((0..41).collect()).unwrap();
    assert_eq!(quantiles((0..41).rev().collect()).unwrap(), up);
    assert_eq!(quantiles((0..41).map(|i| (i * 7) % 41).collect()).unwrap(), up);
}

/// The error that a point carries has no part in what is observed.
#[test]
fn stored_errors_do_not_change_the_observations() {
    let made = |error: f64| {
        let mut recon: Recon = Reconstruction::new();
        recon.cameras.insert(1, pinhole(1));
        recon.images.insert(4, image(4, 1, vec![Some(7), None]));
        let mut p = point(7, vec![seen(4, 0), seen(4, 1)]);
        p.error = error;
        recon.points3d.insert(7, p);
        let obs = observations(&recon);
        obs.iter().map(|o| (o.image_idx, o.point_idx)).collect::<Vec<(usize, usize)>>()
    };
    assert_eq!(made(0.25), vec![(0, 0), (0, 0)]);
    assert_eq!(made(0.25), made(1000.0));
}

/// The indexed residuals are those of a walk over the points and their tracks.
#[test]
fn residuals_are_those_of_a_plain_walk() {
    // A stand-in for the reprojection: the error grows with the ids, and one
    // point is behind one camera.
    let measure = |image: u32, point: u64| -> Option<u64> {
        if (image, point) == (5, 7) { None } else { Some(10 * point + image as u64) }
    };
    let mut recon: Recon = Reconstruction::new();
    recon.cameras.insert(1, pinhole(1));
    for id in [4, 5, 6] {
        recon.images.insert(id, image(id, 1, vec![None, None]));
    }
    recon.points3d.insert(7, point(7, vec![seen(6, 0), seen(5, 1), seen(9, 0), seen(4, 0)]));
    recon.points3d.insert(2, point(2, vec![seen(5, 0), seen(4, 9), seen(6, 1)]));
    let mut walked = Vec::new();
    let mut behind = 0;
    for p in recon.points3d.values() {
        for t in &p.track {
            let Some(im) = recon.images.get(&t.image_id) else { continue };
            if t.point2d_idx as usize >= im.keypoints.len() {
                continue;
            }
            match measure(t.image_id, p.id) {
                Some(e) => walked.push(e),
                None => behind += 1,
            }
        }
    }
    let images: Vec<u32> = recon.images.keys().copied().collect();
    let points: Vec<u64> = recon.points3d.keys().copied().collect();
    let obs = observations(&recon);
    let errors: Vec<Option<u64>> =
        obs.iter().map(|o| measure(images[o.image_idx], points[o.point_idx])).collect();
    let r = index_residuals(&obs, &errors.iter().map(|e| e.is_some()).collect());
    let kept: Vec<u64> = r.kept.iter().map(|k| errors[*k].unwrap()).collect();
    assert_eq!(kept, walked);
    assert_eq!(kept, vec![25, 26, 76, 74]);
    assert_eq!((r.num_behind_camera, behind), (1, 1));
    assert_eq!(quantiles(kept).unwrap(), quantiles(walked).unwrap());
}
