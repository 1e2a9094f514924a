use sfmtory::features::{lighten, read_le_u32, strongest, Descriptors, FeatureSet};
use sfmtory::initcam::{applied_config, squares};
use sfmtory::markers::{capture_folds, group_markers, keypoint_captures};

fn rec(marker: u32, corner: u32) -> Vec<u8> {
    let mut v = Vec::new();
    v.extend_from_slice(&0u32.to_le_bytes());
    v.extend_from_slice(&marker.to_le_bytes());
    v.extend_from_slice(&corner.to_le_bytes());
    v
}

fn corners(list: &[(u32, u32, u32)]) -> Vec<u8> {
    let mut v = Vec::new();
    for (capture, marker, corner) in list {
        v.extend_from_slice(&capture.to_le_bytes());
        v.extend_from_slice(&marker.to_le_bytes());
        v.extend_from_slice(&corner.to_le_bytes());
    }
    v
}

#[test]
fn corners_regroup_into_whole_markers() {
    let mut keypoints: Vec<[f32; 2]> = Vec::new();
    let mut data = Vec::new();
    for (marker, base) in [(7u32, 0.0f32), (3, 100.0)] {
        for corner in 0..4u32 {
            keypoints.push([base + corner as f32, base]);
            data.extend_from_slice(&rec(marker, corner));
        }
    }
    let fs: FeatureSet<[f32; 2], f32> =
        FeatureSet { keypoints, descriptors: Descriptors::MarkerCorner { data } };
    let markers = group_markers(&fs);
    assert_eq!(markers.len(), 2);
    // Ordered by id, and each corner lands in its own slot.
    assert_eq!(markers[0].id, 3);
    assert_eq!(markers[1].id, 7);
    assert_eq!(markers[1].corners[2], [2.0, 0.0]);
}

#[test]
fn a_marker_missing_a_corner_is_dropped_not_drawn_through_the_origin() {
    let mut keypoints: Vec<[f32; 2]> = Vec::new();
    let mut data = Vec::new();
    for corner in 0..3u32 {
        keypoints.push([corner as f32, 0.0]);
        data.extend_from_slice(&rec(9, corner));
    }
    let fs: FeatureSet<[f32; 2], f32> =
        FeatureSet { keypoints, descriptors: Descriptors::MarkerCorner { data } };
    assert!(group_markers(&fs).is_empty());
}

#[test]
fn non_marker_descriptors_yield_nothing() {
    let fs: FeatureSet<[f32; 2], f32> = FeatureSet {
        keypoints: vec![[1.0, 1.0]],
        descriptors: Descriptors::Float32 { dim: 1, data: vec![0.0] },
    };
    assert!(group_markers(&fs).is_empty());
}

#[test]
fn the_last_sighting_of_a_corner_counts() {
    let data = corners(&[(0, 5, 0), (0, 5, 1), (0, 5, 2), (0, 5, 3), (1, 5, 0), (0, 6, 9)]);
    let fs: FeatureSet<u32, u8> =
        FeatureSet { keypoints: vec![0, 1, 2, 3, 4, 5], descriptors: Descriptors::MarkerCorner { data } };
    let markers = group_markers(&fs);
    assert_eq!(markers.len(), 1);
    assert_eq!(markers[0].corners, [4, 1, 2, 3]);
}

#[test]
fn corners_carry_the_capture_they_were_seen_in() {
    let data = corners(&[(0, 5, 0), (3, 5, 0), (0, 5, 1)]);
    let captures = keypoint_captures(&data, 3).unwrap();
    assert_eq!(captures, vec![0, 3, 0]);
    // Fewer bytes than keypoints.
    assert!(keypoint_captures(&data, 4).is_none());
    let folds = capture_folds(&captures).unwrap();
    assert_eq!(folds.kind, "capture");
    assert_eq!(folds.count, 2);
    assert_eq!(folds.of_observation, vec![0, 1, 0]);
    // One capture cannot be held out.
    assert!(capture_folds(&vec![4, 4]).is_none());
}

#[test]
fn rows_of_descriptors_are_read_by_their_kind() {
    let data = corners(&[(1, 2, 3), (70000, 5, 0)]);
    assert_eq!(read_le_u32(&data, 12), 70000);
    let d: Descriptors<i32> = Descriptors::MarkerCorner { data };
    assert_eq!(d.len(), 2);
    assert_eq!(d.marker_corner(1), Some((70000, 5, 0)));
    assert_eq!(d.float_row(1), None);
    let f = Descriptors::Float32 { dim: 2, data: vec![1, 2, 3, 4] };
    assert_eq!(f.len(), 2);
    assert_eq!(f.float_row(1), Some([3, 4].as_slice()));
    let b: Descriptors<i32> =
        Descriptors::Binary { bytes_per_descriptor: 3, data: vec![1, 2, 3, 4, 5, 6] };
    assert_eq!(b.binary_row(1), Some([4u8, 5, 6].as_slice()));
    let none: Descriptors<i32> = Descriptors::Float32 { dim: 0, data: Vec::new() };
    assert_eq!(none.len(), 0);
}

#[test]
fn lightening_keeps_only_marker_identities() {
    let f = Descriptors::Float32 { dim: 2, data: vec![1, 2, 3, 4] };
    assert_eq!(lighten(&f).len(), 0);
    let m: Descriptors<i32> = Descriptors::MarkerCorner { data: corners(&[(1, 2, 3)]) };
    assert_eq!(lighten(&m).marker_corner(0), Some((1, 2, 3)));
}

#[test]
fn truncation_keeps_the_strongest_in_order() {
    assert_eq!(strongest(&vec![5, 9, 1, 9], 2), vec![1, 3]);
    let mut fs = FeatureSet {
        keypoints: vec!['a', 'b', 'c', 'd'],
        descriptors: Descriptors::Float32 { dim: 1, data: vec![10, 20, 30, 40] },
    };
    fs.truncate_to_strongest(9, &vec![5, 9, 1, 7]);
    assert_eq!(fs.len(), 4);
    fs.truncate_to_strongest(2, &vec![5, 9, 1, 7]);
    assert_eq!(fs.keypoints, vec!['b', 'd']);
    assert_eq!(fs.descriptors.float_row(1), Some([40].as_slice()));
    assert!(!fs.is_empty());
}

#[test]
fn squares_are_gathered_by_capture_and_marker() {
    let data = corners(&[
        (1, 5, 0),
        (1, 5, 1),
        (1, 5, 2),
        (1, 5, 3),
        (0, 5, 0),
        (0, 5, 1),
    ]);
    let fs: FeatureSet<u32, u8> =
        FeatureSet { keypoints: vec![0, 1, 2, 3, 4, 5], descriptors: Descriptors::MarkerCorner { data } };
    let found = squares(&fs).unwrap();
    assert_eq!(found.len(), 1);
    assert_eq!(found[0].corners, [0, 1, 2, 3]);
    let plain: FeatureSet<u32, u8> = FeatureSet {
        keypoints: vec![1],
        descriptors: Descriptors::Binary { bytes_per_descriptor: 1, data: vec![0] },
    };
    assert!(squares(&plain).is_none());
}

#[test]
fn an_estimated_camera_is_not_written_over_a_declared_one() {
    let camera = "[[cameras]]\nname = \"x\"\n";
    let fresh = applied_config("", "images", camera, "/p/sfm.toml", "/p/cam.toml").unwrap();
    assert!(fresh.ends_with(camera));
    assert!(fresh.contains("images_dir = \"images\""), "{fresh}");
    let kept =
        applied_config("images_dir = \"x\"\n", "images", camera, "/p/sfm.toml", "/p/cam.toml")
            .unwrap();
    assert_eq!(kept, format!("images_dir = \"x\"\n\n{camera}"));
    let refused =
        applied_config(&fresh, "images", camera, "/p/sfm.toml", "/p/cam.toml").unwrap_err();
    assert_eq!(
        refused.message(),
        "/p/sfm.toml already declares [[cameras]]; not overwriting. Merge \n/p/cam.toml\nby hand instead."
    );
}
