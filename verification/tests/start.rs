use sfmtory::imageview::{candidate_paths, not_found};
use sfmtory::project::CameraConfig;
use sfmtory::start::{count_images, declared_models, DeclaredModel, Readiness};

/// How many images a camera needs before its focal length can move.
const MIN_IMAGES_PER_CAMERA_FOR_INTRINSICS: usize = 4;

fn base() -> Readiness {
    Readiness {
        num_images: 4,
        num_captures: 1,
        num_cameras: 4,
        images_per_camera: (1..=4).map(|i| (i, 1)).collect(),
        merged: false,
        declared_models: Vec::new(),
        checks: Vec::new(),
    }
}

fn declared(images: &str, model: &str) -> Vec<DeclaredModel> {
    vec![DeclaredModel { images: images.to_string(), model: model.to_string() }]
}

#[test]
fn undeclared_models_are_flagged_with_a_command_to_fix_them() {
    let r = base();
    let checks = r.build_checks(MIN_IMAGES_PER_CAMERA_FOR_INTRINSICS);
    let c = checks.iter().find(|c| c.what == "camera models").unwrap();
    assert!(!c.ok);
    // The point of the check is the next command, not the complaint.
    assert_eq!(
        c.command.as_deref(),
        Some(["select-model".to_string(), "--rebuild".to_string()].as_slice())
    );
}

#[test]
fn declared_models_pass_and_are_listed() {
    let mut r = base();
    r.declared_models = declared("*cam001*", "OPENCV_FISHEYE");
    let checks = r.build_checks(MIN_IMAGES_PER_CAMERA_FOR_INTRINSICS);
    let c = checks.iter().find(|c| c.what == "camera models").unwrap();
    assert!(c.ok);
    assert!(c.state.contains("OPENCV_FISHEYE"));
}

#[test]
fn a_single_capture_project_is_not_asked_to_merge() {
    let r = base();
    assert!(r
        .build_checks(MIN_IMAGES_PER_CAMERA_FOR_INTRINSICS)
        .iter()
        .all(|c| c.what != "captures"));
}

#[test]
fn unmerged_multicapture_is_flagged() {
    let mut r = base();
    r.num_captures = 5;
    let checks = r.build_checks(MIN_IMAGES_PER_CAMERA_FOR_INTRINSICS);
    let c = checks.iter().find(|c| c.what == "captures").unwrap();
    assert!(!c.ok);
    assert!(c.command.as_ref().unwrap().contains(&"--merge-multicaps".to_string()));
}

#[test]
fn one_image_per_camera_fails_the_focal_check_with_no_command() {
    let r = base();
    let checks = r.build_checks(MIN_IMAGES_PER_CAMERA_FOR_INTRINSICS);
    let c = checks.iter().find(|c| c.what == "focal length").unwrap();
    assert!(!c.ok);
    // Deliberately no command: no stage can fix this, only different data
    // or known intrinsics can, and offering a button would imply otherwise.
    assert!(c.command.is_none());
    assert!(c.fix.as_ref().unwrap().contains("refine = false"));
}

#[test]
fn enough_images_passes_the_focal_check() {
    let mut r = base();
    r.images_per_camera =
        (1..=4).map(|i| (i, MIN_IMAGES_PER_CAMERA_FOR_INTRINSICS)).collect();
    let checks = r.build_checks(MIN_IMAGES_PER_CAMERA_FOR_INTRINSICS);
    assert!(checks.iter().find(|c| c.what == "focal length").unwrap().ok);
}

#[test]
fn all_ok_requires_every_check() {
    let mut r = base();
    r.checks = r.build_checks(MIN_IMAGES_PER_CAMERA_FOR_INTRINSICS);
    assert!(!r.all_ok());
    r.declared_models = declared("*", "RADIAL3");
    r.images_per_camera = (1..=4).map(|i| (i, 8)).collect();
    r.checks = r.build_checks(MIN_IMAGES_PER_CAMERA_FOR_INTRINSICS);
    assert!(r.all_ok());
}

#[test]
fn a_project_is_read_from_its_images() {
    // Two captures of two cameras, merged into one image per camera.
    let none: Vec<CameraConfig<i64>> = Vec::new();
    let r = Readiness::read(&vec![1, 2, 1, 2], &vec![0, 0, 1, 1], &none, &vec![1, 2], 4);
    assert_eq!((r.num_images, r.num_captures, r.num_cameras), (4, 2, 2));
    assert_eq!(r.images_per_camera, vec![(1, 1), (2, 1)]);
    assert!(r.merged);
    let states: Vec<&str> = r.checks.iter().map(|c| c.state.as_str()).collect();
    assert_eq!(
        states,
        vec![
            "none declared - all 2 camera(s) will be SIMPLE_RADIAL at a guessed focal",
            "2 captures merged per camera",
            "1 image(s) on the thinnest camera - needs 4 to refine",
        ]
    );
    // Not merged where a camera has more than one image.
    let r = Readiness::read(&vec![1, 1], &vec![0, 1], &none, &vec![1, 1], 4);
    assert!(!r.merged);
    assert_eq!(count_images(&vec![9, 3, 9]), vec![(3, 1), (9, 2)]);
}

#[test]
fn falls_back_to_the_conventional_images_directory() {
    // A stale absolute path from a project directory that has since moved.
    let c = candidate_paths("/data/set", "/elsewhere/old/images", "a.jpg");
    assert_eq!(c[0], "/elsewhere/old/images/a.jpg");
    assert_eq!(c[1], "/data/set/images/a.jpg");
}

#[test]
fn does_not_repeat_the_conventional_path() {
    let c = candidate_paths("/data/set", "/data/set/images", "sub/a.jpg");
    assert_eq!(c.len(), 1);
    assert_eq!(c[0], "/data/set/images/sub/a.jpg");
}

#[test]
fn paths_are_compared_by_their_components() {
    let c = candidate_paths("/data/set/", "/data/./set//images", "a.jpg");
    assert_eq!(c.len(), 1);
    assert_eq!(
        not_found("a.jpg", &vec!["/x/a.jpg".to_string(), "/y/a.jpg".to_string()]),
        "could not find the source image for \"a.jpg\"; looked in /x/a.jpg and /y/a.jpg"
    );
}

fn camera(images: &str, model: Option<&str>) -> CameraConfig<i64> {
    CameraConfig {
        name: "any".to_string(),
        images: images.to_string(),
        model: model.map(|m| m.to_string()),
        params: None,
        refine: None,
    }
}

/// A camera that names no model is declared with the usual one.
#[test]
fn declared_cameras_are_listed_in_order() {
    let cameras = vec![camera("left_*", Some("OPENCV_FISHEYE")), camera("right_*", None)];
    let listed: Vec<(String, String)> =
        declared_models(&cameras).into_iter().map(|d| (d.images, d.model)).collect();
    assert_eq!(
        listed,
        vec![
            ("left_*".to_string(), "OPENCV_FISHEYE".to_string()),
            ("right_*".to_string(), "SIMPLE_RADIAL".to_string()),
        ]
    );
    let r = Readiness::read(&Vec::new(), &Vec::new(), &cameras, &Vec::new(), 4);
    assert_eq!(r.declared_models.len(), 2);
    assert_eq!(r.checks.len(), 1);
    assert_eq!(r.checks[0].what, "camera models");
    assert_eq!(r.checks[0].state, "left_* -> OPENCV_FISHEYE, right_* -> SIMPLE_RADIAL");
}

#[test]
fn nothing_is_known_of_a_project_that_is_not_there() {
    let r = Readiness::unread();
    assert_eq!((r.num_images, r.num_captures, r.num_cameras, r.merged), (0, 0, 0, false));
    assert!(r.images_per_camera.is_empty());
    assert!(r.declared_models.is_empty());
    assert!(r.checks.is_empty());
}

/// Merged captures leave each camera one image, and so does nothing else.
#[test]
fn merged_cameras_have_one_image_each() {
    let none: Vec<CameraConfig<i64>> = Vec::new();
    for rows in [vec![], vec![1], vec![1, 2], vec![1, 1], vec![1, 2, 2]] {
        let r = Readiness::read(&vec![1, 2, 1, 2], &vec![0, 0, 1, 1], &none, &rows, 4);
        let one_each = r.images_per_camera.iter().all(|(_, n)| *n == 1);
        assert_eq!(r.merged, !r.images_per_camera.is_empty() && one_each, "{rows:?}");
    }
}
