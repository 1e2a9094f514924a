use std::collections::HashSet;

use sfmtory::camera::{Camera, CameraModel};
use sfmtory::dataset::DiscoveredImage;
use sfmtory::features::{Descriptors, FeatureSet};
use sfmtory::mapinput::{
    check_counts, check_pairs, check_poses, compact_pairs, find_image, known_pose, model_choices,
    model_targets, override_note, pair_key, pinned_cameras, pinned_note, within_capture_pairs, ImageRow,
};
use sfmtory::merge::{merge_across_captures, merge_note, Record};
use sfmtory::model::{Image, Point3D, Reconstruction, TrackElement};
use sfmtory::modelselect::{
    best_held_out, candidates, check_folds, folds_note, most_recommended, overlap_complaint, recommend,
    selected_config, split, tally, trend_report, unnamed_note, Block, Folds, Problem, Suspect, TrendCause,
};
use sfmtory::project::{CameraConfig, PoseConfig};
use sfmtory::refine::{camera_freedom, compact, write_cameras, write_points, write_poses};

fn record(camera_id: u32, capture_id: u32, width: u32, keypoints: Vec<u32>) -> Record<u32, u8> {
    let mut data = Vec::new();
    for k in &keypoints {
        for part in [capture_id, *k, 0] {
            data.extend_from_slice(&part.to_le_bytes());
        }
    }
    Record {
        image: DiscoveredImage {
            path: format!("/d/{capture_id}/{camera_id}.jpg"),
            capture_id,
            camera_id,
            image_index: 0,
            name: format!("{capture_id}/{camera_id}.jpg"),
        },
        width,
        height: 100,
        features: FeatureSet { keypoints, descriptors: Descriptors::MarkerCorner { data } },
    }
}

#[test]
fn captures_are_pooled_per_camera() {
    let records = vec![
        record(2, 0, 200, vec![1, 2]),
        record(1, 0, 200, vec![3]),
        record(2, 1, 200, vec![4]),
    ];
    let merged = merge_across_captures(records, 2).unwrap();
    let shown: Vec<(String, Vec<u32>)> =
        merged.iter().map(|r| (r.image.name.clone(), r.features.keypoints.clone())).collect();
    assert_eq!(
        shown,
        vec![
            ("cam001/slot000".to_string(), vec![3]),
            ("cam002/slot000".to_string(), vec![1, 2, 4]),
        ]
    );
    // A corner keeps the capture that it was seen in.
    assert_eq!(merged[1].features.descriptors.marker_corner(2), Some((1, 4, 0)));
}

#[test]
fn one_capture_is_left_as_it_is() {
    let merged = merge_across_captures(vec![record(2, 0, 200, vec![1])], 1).unwrap();
    assert_eq!(merged[0].image.name, "0/2.jpg");
}

#[test]
fn a_camera_that_changed_size_cannot_be_merged() {
    let records = vec![record(2, 0, 200, vec![1]), record(2, 1, 300, vec![2])];
    let message = match merge_across_captures(records, 2) {
        Ok(_) => String::new(),
        Err(e) => e.message(),
    };
    assert_eq!(
        message,
        "--merge-multicaps: camera 2 slot 0 mixes image sizes (200x100 vs 300x100); merged images must come from the same unmoved camera"
    );
}

fn row(id: u32, camera_id: u32, name: &str) -> ImageRow {
    ImageRow { id, camera_id, name: name.to_string() }
}

fn pose(image: &str, fixed: Option<bool>) -> PoseConfig<()> {
    PoseConfig { image: image.to_string(), pose: (), fixed }
}

#[test]
fn known_poses_must_name_images() {
    let images = vec![row(5, 1, "a.jpg"), row(6, 2, "b.jpg")];
    assert!(check_poses(&vec![pose("b.jpg", None)], &images).is_ok());
    let e = check_poses(&vec![pose("z.jpg", None), pose("c\t.jpg", None), pose("z.jpg", None)], &images)
        .unwrap_err();
    assert_eq!(
        e.message(),
        "2 [[poses]] entr(y/ies) name images that are not in this project: [\"c\\t.jpg\", \"z.jpg\"] (check the file names match exactly, including any directory prefix)"
    );
    let poses = vec![pose("b.jpg", Some(false)), pose("b.jpg", Some(true))];
    let (which, fixed) = known_pose(&poses, &"b.jpg".to_string());
    assert!(which.is_some());
    assert_eq!(fixed, poses[which.unwrap()].fixed == Some(true));
    assert_eq!(known_pose(&poses, &"a.jpg".to_string()), (None, false));
    assert_eq!(find_image(&images, 6), Some(1));
    assert_eq!(find_image(&images, 7), None);
}

#[test]
fn pairs_are_placed_in_the_list_of_images() {
    let images = vec![row(5, 1, "a.jpg"), row(6, 2, "b.jpg"), row(9, 2, "c.jpg")];
    assert_eq!(compact_pairs(&images, &vec![(9, 5), (5, 6)]), vec![(2, 0), (0, 1)]);
    assert_eq!(pair_key(9, 5), (5, 9));
    assert_eq!(pair_key(5, 9), (5, 9));
    assert!(check_counts(2, 1).is_ok());
    assert_eq!(
        check_counts(1, 1).unwrap_err().message(),
        "need at least 2 images with extracted features to map; run `sfm extract` first"
    );
    assert_eq!(
        check_counts(2, 0).unwrap_err().message(),
        "no verified image pairs found; run `sfm match` first"
    );
}

#[test]
fn pairs_within_captures_need_captures() {
    assert_eq!(within_capture_pairs(&vec![0, 1, 0, 0]).unwrap(), vec![(0, 2), (0, 3), (2, 3)]);
    assert!(within_capture_pairs(&vec![0, -1])
        .unwrap_err()
        .message()
        .contains("Re-run `feature` without it."));
}

fn camera(images: &str, model: Option<&str>, refine: Option<bool>) -> CameraConfig<i64> {
    CameraConfig {
        name: "c".to_string(),
        images: images.to_string(),
        model: model.map(|m| m.to_string()),
        params: None,
        refine,
    }
}

#[test]
fn cameras_are_pinned_and_declared_by_their_images() {
    let images = vec![row(1, 9, "left_1"), row(2, 4, "right_1"), row(3, 9, "left_2")];
    let cameras = vec![camera("left_*", None, Some(false)), camera("*", None, None)];
    assert_eq!(pinned_cameras(&cameras, &images), vec![9]);
    let known: HashSet<u32> = [4, 9].into_iter().collect();
    assert_eq!(model_targets(&camera("*", Some("RADIAL"), None), &images, &known), vec![4, 9]);
    assert_eq!(model_targets(&camera("*", None, None), &images, &known), Vec::<u32>::new());
    let one: HashSet<u32> = [4].into_iter().collect();
    assert_eq!(model_targets(&camera("*", Some("RADIAL"), None), &images, &one), vec![4]);
}

type Recon = Reconstruction<i64, u8, u16>;

/// Two images of camera 7 and one of camera 3, with one point that the first
/// and the last see.
fn scene() -> Recon {
    let mut recon: Recon = Reconstruction::new();
    for id in [3u32, 7] {
        let model = CameraModel::SimpleRadial { f: 500, cx: 320, cy: 240, k: 0 };
        recon.cameras.insert(id, Camera { camera_id: id, model, width: 640, height: 480 });
    }
    for (id, camera_id) in [(10u32, 7u32), (11, 3), (12, 7)] {
        let mut image = Image::new_unregistered(id, camera_id, format!("{id}.jpg"), 0u8);
        image.keypoints = vec![id as u16];
        image.point3d_ids = vec![Some(5)];
        recon.images.insert(id, image);
    }
    let track = vec![
        TrackElement { image_id: 12, point2d_idx: 0 },
        TrackElement { image_id: 10, point2d_idx: 0 },
    ];
    recon.points3d.insert(
        5,
        Point3D { id: 5, xyz: [1, 2, 3], color: [0, 0, 0], error: 0, track },
    );
    recon
}

#[test]
fn a_reconstruction_is_refined_by_places() {
    let mut recon = scene();
    let c = compact(&recon, "/sparse").unwrap();
    assert_eq!(c.image_ids, vec![10, 11, 12]);
    assert_eq!(c.point_ids, vec![5]);
    // Cameras in the order in which the images meet them.
    assert_eq!(c.camera_ids, vec![7, 3]);
    assert_eq!(c.camera_of_image, vec![0, 1, 0]);
    assert_eq!(c.fixed_poses, vec![true, false, false]);
    let seen: Vec<(usize, usize, u16)> =
        c.observations.iter().map(|o| (o.image_idx, o.point_idx, o.at)).collect();
    assert_eq!(seen, vec![(2, 0, 12), (0, 0, 10)]);

    write_poses(&mut recon, &c.image_ids, &vec![1, 2, 3]);
    write_points(&mut recon, &c.point_ids, &vec![[7, 8, 9]]);
    let wide = CameraModel::SimplePinhole { f: 1, cx: 2, cy: 3 };
    write_cameras(&mut recon, &vec![7], &vec![wide]);
    assert_eq!(recon.images[&12].pose, 3);
    assert_eq!(recon.images[&12].name, "12.jpg");
    assert_eq!(recon.points3d[&5].xyz, [7, 8, 9]);
    assert_eq!(recon.cameras[&7].model, wide);
    assert_eq!(recon.cameras[&3].model.name(), "SIMPLE_RADIAL");
}

#[test]
fn there_must_be_something_to_refine() {
    let mut recon = scene();
    recon.points3d.get_mut(&5).unwrap().track.clear();
    assert_eq!(
        compact(&recon, "/s").unwrap_err().message(),
        "no observations linking tracked points to registered images; nothing to refine"
    );
    recon.points3d.clear();
    assert_eq!(compact(&recon, "/s").unwrap_err().message(), "no 3D points in /s to refine");
    recon.images.remove(&10);
    recon.images.remove(&11);
    assert_eq!(
        compact(&recon, "/s").unwrap_err().message(),
        "need at least 2 registered images in /s to refine"
    );
    let models = vec![CameraModel::SimplePinhole { f: 1, cx: 2, cy: 3 }];
    assert_eq!(camera_freedom(&models, false), (vec![true], vec![]));
    assert_eq!(camera_freedom(&models, true), (vec![false], vec![vec![false, true, true]]));
}

#[test]
fn folds_hold_out_images() {
    let problem = Problem::from_reconstruction(&scene()).unwrap();
    assert_eq!(problem.camera_ids, vec![3, 7]);
    assert_eq!(problem.camera_of_image, vec![1, 0, 1]);
    assert_eq!(problem.observations_per_camera(), vec![0, 2]);
    assert_eq!(problem.observations_by(&vec![0, 1], 1), vec![0, 1]);
    let folds = problem.image_folds();
    assert_eq!((folds.count, folds.kind.as_str()), (3, "image"));
    assert_eq!(folds.of_observation, vec![2, 0]);
    let s = split(&folds, 2).unwrap();
    assert_eq!((s.train, s.test), (vec![1], vec![0]));
    // Nothing to score on.
    assert!(split(&folds, 1).is_none());
    assert!(check_folds(&folds).is_ok());
    let one = Folds { of_observation: vec![], count: 1, kind: "image".to_string() };
    assert_eq!(
        check_folds(&one).unwrap_err().message(),
        "need at least 2 folds to score a model on data it was not fitted to"
    );
    let empty: Recon = Reconstruction::new();
    assert_eq!(
        Problem::from_reconstruction(&empty).unwrap_err().message(),
        "the reconstruction has no observations to fit a camera model to"
    );
}

#[test]
fn the_simplest_adequate_model_is_recommended() {
    assert_eq!(candidates().len(), 5);
    assert_eq!(best_held_out(&vec![None, Some(7), Some(4)]), Some(4));
    assert_eq!(best_held_out(&vec![None]), None);
    assert_eq!(recommend(&vec![false, false, true, false, true]), 2);
    assert_eq!(recommend(&vec![false; 5]), 1);
    let ranked = tally(&vec![2, 1, 2, 4]);
    assert_eq!((ranked[0].model, ranked[0].cameras), (2, 2));
    assert_eq!(ranked.len(), 3);
    assert_eq!(most_recommended(&ranked), 2);
    assert_eq!(most_recommended(&vec![]), 1);
    // Of two that as many cameras ask for, the one whose name comes first.
    let even: Vec<&str> = tally(&vec![0, 1]).iter().map(|t| candidates()[t.model]).collect();
    assert!(even[0] < even[1], "{even:?}");
}

#[test]
fn a_selection_is_written_once() {
    let folds = Folds { of_observation: vec![], count: 3, kind: "capture".to_string() };
    let blocks = vec![Block {
        camera_id: 4,
        glob: "left_*".to_string(),
        model: "RADIAL".to_string(),
    }];
    let out = selected_config("x = 1\n", &folds, &blocks, "/p/sfm.toml").unwrap();
    assert_eq!(
        out,
        "x = 1\n\n# Selected by `sfmtory select-model` on held-out reprojection error,\n# scored over 3 fold(s) by capture.\n\n[[cameras]]\nname = \"camera4\"\nimages = \"left_*\"\nmodel = \"RADIAL\"\n"
    );
    assert_eq!(
        selected_config(&out, &folds, &blocks, "/p/sfm.toml").unwrap_err().message(),
        "/p/sfm.toml already declares [[cameras]]; not overwriting. The recommendations are above - set them there by hand instead."
    );
    assert_eq!(
        selected_config("", &folds, &vec![], "/p/sfm.toml").unwrap_err().message(),
        "no camera could be selected by a glob, so there is nothing to write"
    );
    assert!(overlap_complaint("4", 120)
        .message()
        .starts_with("these folds share almost no points (4% of 120), so"));
}

#[test]
fn trends_are_explained_by_their_cause() {
    assert!(trend_report(&vec![], 4).is_empty());
    let suspect = |camera_id: u32, cause: TrendCause| Suspect {
        camera_id,
        correlation: "0.81".to_string(),
        cause,
    };
    let lines = trend_report(&vec![suspect(3, TrendCause::Unfitted)], 4);
    assert_eq!(
        lines[1],
        "1 camera(s) have residuals that grow toward the edge of the frame. Comparing"
    );
    assert!(lines[4].contains('3') && lines[4].contains("0.81"), "{}", lines[4]);
    assert!(lines.contains(
        &"refined only for cameras with at least 4 images.".to_string()
    ));
    let lines = trend_report(&vec![suspect(3, TrendCause::NoDistortionTerms)], 4);
    assert!(!lines.iter().any(|l| l.contains("refined only for cameras")));
}

#[test]
fn cameras_are_named_in_what_is_said_of_them() {
    assert_eq!(
        pinned_note(&vec![1, 4]).unwrap(),
        "holding intrinsics fixed for camera(s) [1, 4] (refine = false)"
    );
    assert!(pinned_note(&Vec::new()).is_none());
    assert_eq!(
        override_note(&vec![7, 2, 7]).unwrap(),
        "using the camera model(s) declared in sfm.toml for camera(s) [2, 7], which differ from what `feature` recorded"
    );
    assert!(override_note(&Vec::new()).is_none());
    assert_eq!(
        unnamed_note(&(0..10).collect()).unwrap(),
        "note: 10 camera(s) share every path component with another, so no glob can select them individually: [0, 1, 2, 3, 4, 5, 6, 7]"
    );
    assert!(unnamed_note(&vec![3]).unwrap().ends_with(": [3]"));
    assert!(unnamed_note(&Vec::new()).is_none());
}

#[test]
fn a_merge_says_what_it_came_to() {
    assert_eq!(
        merge_note(1, 7),
        "--merge-multicaps: only one capture present, nothing to merge"
    );
    assert_eq!(
        merge_note(3, 2),
        "--merge-multicaps: merged 3 captures into 2 per-camera feature set(s)"
    );
}

/// Where several entries claim a camera, the last that has a model decides.
#[test]
fn the_last_entry_with_a_model_decides() {
    let images = vec![row(1, 9, "left_1"), row(2, 4, "right_1"), row(3, 9, "left_2"), row(4, 6, "up")];
    let cameras = vec![
        camera("*", Some("RADIAL"), None),
        camera("left_*", Some("OPENCV_FISHEYE"), None),
        camera("*_1", Some("PINHOLE"), None),
        camera("*", None, None),
        camera("nothing", Some("RADIAL"), None),
    ];
    let known: HashSet<u32> = [4, 6, 9].into_iter().collect();
    assert_eq!(model_choices(&cameras, &images, &known), vec![(4, 2), (6, 0), (9, 2)]);
    // In another order another entry comes last.
    let turned: Vec<CameraConfig<i64>> = cameras.into_iter().rev().collect();
    assert_eq!(model_choices(&turned, &images, &known), vec![(4, 4), (6, 4), (9, 4)]);
    // Cameras that the project does not have, and those without a claim, stay out.
    let one: HashSet<u32> = [6, 50].into_iter().collect();
    assert_eq!(model_choices(&turned, &images, &one), vec![(6, 4)]);
    let none = vec![camera("*", None, None)];
    assert_eq!(model_choices(&none, &images, &known), Vec::<(u32, usize)>::new());
}

/// Applying the entries in turn ends with the same choices.
#[test]
fn entries_in_turn_end_with_the_choices() {
    let images = vec![row(1, 9, "left_1"), row(2, 4, "right_1"), row(3, 9, "left_2")];
    let cameras = vec![
        camera("*", Some("RADIAL"), None),
        camera("left_*", Some("PINHOLE"), None),
        camera("*", None, None),
    ];
    let known: HashSet<u32> = [4, 9].into_iter().collect();
    let mut last = std::collections::BTreeMap::new();
    for (c, cfg) in cameras.iter().enumerate() {
        for id in model_targets(cfg, &images, &known) {
            last.insert(id, c);
        }
    }
    let last: Vec<(u32, usize)> = last.into_iter().collect();
    assert_eq!(model_choices(&cameras, &images, &known), last);
}

#[test]
fn pairs_of_unknown_images_are_refused() {
    let images = vec![row(1, 9, "a"), row(2, 9, "b")];
    assert!(check_pairs(&images, &vec![(1, 2), (2, 1)]).is_ok());
    assert_eq!(
        check_pairs(&images, &vec![(1, 2), (2, 7), (8, 1)]).unwrap_err().message(),
        "a verified pair names an image that is not in the project: 2, 7"
    );
}

#[test]
fn folds_are_announced() {
    let folds = Folds { of_observation: Vec::new(), count: 4, kind: "capture".to_string() };
    assert_eq!(folds_note(2, 900, &folds), "2 camera(s), 900 observations, 4 folds by capture");
}
