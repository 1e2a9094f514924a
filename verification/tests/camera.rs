use sfmtory::camera::{
    count_params, default_camera_model, default_fixed_params_mask, reseed, seed_camera, Camera,
    CameraModel,
};

#[test]
fn radial3_round_trips_through_its_name_and_params() {
    let cam = CameraModel::Radial3 {
        f: 1234.5,
        cx: 640.0,
        cy: 512.0,
        k1: -0.21,
        k2: 0.04,
        k3: -0.006,
    };
    assert_eq!(cam.name(), "RADIAL3");
    let params = cam.params();
    assert_eq!(params.len(), 6);
    assert_eq!(CameraModel::from_name_and_params("RADIAL3", &params), Some(cam));
    // The third coefficient must survive the OpenCV-ordered view, which
    // puts k3 in slot 4 (after the two tangential terms this model lacks).
    assert_eq!(cam.opencv_distortion(0.0), [-0.21, 0.04, 0.0, 0.0, -0.006, 0.0]);
}

#[test]
fn reseeding_carries_geometry_and_zeroes_distortion() {
    let cam = CameraModel::SimpleRadial { f: 1234.0, cx: 640.0, cy: 512.0, k: -0.3 };
    let opencv = reseed(&cam, "OPENCV", 0.0).unwrap();
    assert_eq!(opencv.name(), "OPENCV");
    assert_eq!(opencv.focal_lengths(), (1234.0, 1234.0));
    assert_eq!(opencv.principal_point(), (640.0, 512.0));
    // The old k must not leak into the new model's distortion terms.
    assert!(opencv.opencv_distortion(0.0).iter().all(|d| *d == 0.0));
    assert!(reseed(&cam, "NOT_A_MODEL", 0.0).is_none());
}

#[test]
fn seeding_keeps_principal_point_and_zeroes_distortion() {
    let cam = Camera {
        camera_id: 1,
        model: CameraModel::SimpleRadial { f: 500.0, cx: 100.0, cy: 50.0, k: 0.1 },
        width: 200,
        height: 100,
    };
    let c = seed_camera(&cam, "OPENCV_FISHEYE", 180.0, 0.0).unwrap();
    assert_eq!(c.model.name(), "OPENCV_FISHEYE");
    assert_eq!(c.model.principal_point(), (100.0, 50.0));
    assert_eq!(c.model.focal_lengths(), (180.0, 180.0));
    assert!(c.model.params()[4..].iter().all(|v| *v == 0.0));
    // Image size must survive - a reseeded camera that forgets its size
    // silently changes what "distance from the principal point" means.
    assert_eq!((c.width, c.height), (200, 100));
}

/// The two focal estimates measured on the `scan2` rig, which differ by
/// 2.1x and land on opposite sides of every model-choice threshold.
#[test]
fn field_of_view_separates_the_two_focal_estimates() {
    let fov = |f: f64| {
        let (w, h) = (3840.0f64, 3104.0f64);
        (
            2.0 * (w / (2.0 * f)).atan().to_degrees(),
            2.0 * (w.hypot(h) / (2.0 * f)).atan().to_degrees(),
        )
    };
    // The 1.2 x width placeholder: narrow, and a single radial term would
    // look adequate.
    let (h_placeholder, d_placeholder) = fov(4608.0);
    assert!((h_placeholder - 45.2).abs() < 0.2, "{h_placeholder}");
    assert!(d_placeholder < 70.0);

    // What init-cam actually measured from the marker squares: wide enough
    // that SIMPLE_RADIAL is the wrong model and fisheye is worth testing.
    let (h_measured, d_measured) = fov(2185.71);
    assert!((h_measured - 82.6).abs() < 0.2, "{h_measured}");
    assert!(d_measured > 95.0, "{d_measured}");
}

#[test]
fn orthogonal_vanishing_points_give_the_focal() {
    // Two perpendicular directions imaged by a camera with a known focal:
    // their vanishing points must satisfy the orthogonality relation.
    let (f, cx, cy) = (900.0f64, 640.0, 480.0);
    let d1 = [1.0f64, 0.0, 0.3];
    let d2 = [0.0f64, 1.0, 0.0];
    assert!((d1[0] * d2[0] + d1[1] * d2[1] + d1[2] * d2[2]).abs() < 1e-12);
    let vp = |d: [f64; 3]| (f * d[0] / d[2] + cx, f * d[1] / d[2] + cy);
    // d2 has zero z: its vanishing point is at infinity, so use a third
    // direction perpendicular to d1 with non-zero depth instead.
    let d3 = [-0.3f64, 0.0, 1.0];
    assert!((d1[0] * d3[0] + d1[1] * d3[1] + d1[2] * d3[2]).abs() < 1e-12);
    let (v1, v3) = (vp(d1), vp(d3));
    let dot = (v1.0 - cx) * (v3.0 - cx) + (v1.1 - cy) * (v3.1 - cy);
    let recovered = (-dot).sqrt();
    assert!((recovered - f).abs() < 1e-6, "recovered {recovered}, want {f}");
}

#[test]
fn every_model_round_trips_and_keeps_its_number() {
    let names = [
        ("SIMPLE_PINHOLE", 3, 0),
        ("PINHOLE", 4, 1),
        ("SIMPLE_RADIAL", 4, 2),
        ("RADIAL", 5, 3),
        ("OPENCV", 8, 4),
        ("OPENCV_FISHEYE", 8, 5),
    ];
    for (name, count, id) in names {
        assert_eq!(count_params(name), Some(count));
        let params: Vec<i32> = (10..10 + count as i32).collect();
        let m = CameraModel::from_name_and_params(name, &params).unwrap();
        assert_eq!(m.name(), name);
        assert_eq!(m.model_id(), id);
        assert_eq!(m.params(), params);
        let (cx, cy) = m.principal_point_indices();
        assert_eq!((params[cx], params[cy]), m.principal_point());
    }
    assert_eq!(count_params("NOT_A_MODEL"), None);
    assert_eq!(CameraModel::from_name_and_params("NOT_A_MODEL", &[1, 2, 3]), None);
}

#[test]
fn opencv_terms_follow_the_opencv_order() {
    let m = CameraModel::OpenCV {
        fx: 1,
        fy: 2,
        cx: 3,
        cy: 4,
        k1: 5,
        k2: 6,
        p1: 7,
        p2: 8,
    };
    assert_eq!(m.opencv_distortion(0), [5, 6, 7, 8, 0, 0]);
    let s = CameraModel::SimpleRadial { f: 1, cx: 2, cy: 3, k: 9 };
    assert_eq!(s.opencv_distortion(0), [9, 0, 0, 0, 0, 0]);
}

#[test]
fn only_the_principal_point_is_fixed_by_default() {
    let masks = default_fixed_params_mask(&[
        CameraModel::SimpleRadial { f: 1, cx: 2, cy: 3, k: 4 },
        CameraModel::Pinhole { fx: 1, fy: 2, cx: 3, cy: 4 },
    ]);
    assert_eq!(
        masks,
        vec![vec![false, true, true, false], vec![false, false, true, true]]
    );
}

#[test]
fn a_default_camera_has_one_focal_and_no_distortion() {
    let m = default_camera_model("RADIAL", 1200, (640, 480), 0).unwrap();
    assert_eq!(m.params(), vec![1200, 640, 480, 0, 0]);
    let p = default_camera_model("PINHOLE", 1200, (640, 480), 0).unwrap();
    assert_eq!(p.params(), vec![1200, 1200, 640, 480]);
    assert!(default_camera_model("", 1200, (640, 480), 0).is_none());
}
