use sfmtory::dataset::{discover, is_countable, is_image_file, Dir, DiscoveredImage, Layout};
use sfmtory::error::SfmError;

fn empty(name: &str) -> Dir {
    Dir { name: name.to_string(), dirs: Vec::new(), files: Vec::new() }
}

/// Adds one file, given by its slash-separated path, to a listing.
fn touch(dir: &mut Dir, path: &str) {
    match path.split_once('/') {
        None => dir.files.push(path.to_string()),
        Some((first, rest)) => {
            let at = match dir.dirs.iter().position(|d| d.name == first) {
                Some(at) => at,
                None => {
                    dir.dirs.push(empty(first));
                    dir.dirs.len() - 1
                }
            };
            touch(&mut dir.dirs[at], rest);
        }
    }
}

fn listing(paths: &[String]) -> Dir {
    let mut root = empty("images");
    for p in paths {
        touch(&mut root, p);
    }
    root
}

fn names(paths: &[&str]) -> Dir {
    listing(&paths.iter().map(|p| p.to_string()).collect::<Vec<String>>())
}

fn found(dir: &Dir) -> (Vec<DiscoveredImage>, Layout) {
    discover("/data/images", Some(dir)).unwrap()
}

#[test]
fn discovers_captures_and_cameras() {
    let mut paths: Vec<String> = Vec::new();
    for cap in 0..3 {
        for cam in 0..2 {
            paths.push(format!("capture_{cap:03}/cam{cam:03}/image.jpg"));
        }
    }
    let (imgs, layout) = found(&listing(&paths));
    assert_eq!(layout, Layout::CapturesAndCameras);
    assert_eq!(imgs.len(), 6);
    let c1 = imgs.iter().find(|i| i.name.contains("capture_001/cam001")).unwrap();
    assert_eq!((c1.capture_id, c1.camera_id, c1.image_index), (1, 1, 0));
}

#[test]
fn discovers_cameras_only_as_single_capture() {
    let (imgs, layout) = found(&names(&["cam000/a.png", "cam000/b.png", "cam007/a.png"]));
    assert_eq!(layout, Layout::CamerasOnly);
    assert_eq!(imgs.len(), 3);
    assert!(imgs.iter().all(|i| i.capture_id == 0));
    // Second image in cam000 gets index 1, so merging pairs shot-for-shot.
    let b = imgs.iter().find(|i| i.name.ends_with("cam000/b.png")).unwrap();
    assert_eq!((b.camera_id, b.image_index), (0, 1));
    // Camera id follows the directory name, not discovery order.
    assert!(imgs.iter().any(|i| i.camera_id == 7));
}

#[test]
fn discovers_flat_with_camera_prefix() {
    let (imgs, layout) =
        found(&names(&["cam000_image.jpg", "cam001_image.jpeg", "cam001_other.png"]));
    assert_eq!(layout, Layout::Flat);
    assert_eq!(imgs.len(), 3);
    assert_eq!(imgs.iter().filter(|i| i.camera_id == 1).count(), 2);
}

#[test]
fn flat_without_prefix_is_one_camera() {
    let (imgs, layout) = found(&names(&["a.jpg", "b.jpg"]));
    assert_eq!(layout, Layout::Flat);
    assert!(imgs.iter().all(|i| i.camera_id == 0 && i.capture_id == 0));
    assert_eq!(imgs[1].image_index, 1);
}

#[test]
fn non_numeric_directories_fall_back_to_ordinals() {
    let (imgs, _) = found(&names(&["left/a.jpg", "right/a.jpg"]));
    let mut ids: Vec<u32> = imgs.iter().map(|i| i.camera_id).collect();
    ids.sort_unstable();
    assert_eq!(ids, vec![0, 1]);
}

#[test]
fn ignores_non_image_files() {
    let (imgs, _) = found(&names(&["a.jpg", "notes.txt"]));
    assert_eq!(imgs.len(), 1);
}

#[test]
fn extensions_are_compared_in_any_case() {
    assert!(is_image_file("/data/IMG_0001.JPG"));
    assert!(is_image_file("a.b.Jpeg"));
    assert!(is_image_file("x.png"));
    assert!(!is_image_file("x.tiff"));
    assert!(!is_image_file("jpg"));
    // A leading dot starts a hidden name, not an extension.
    assert!(!is_image_file("/data/.png"));
    assert!(!is_image_file("/"));
}

#[test]
fn a_missing_or_empty_directory_is_an_error() {
    let missing = discover("/nowhere", None).unwrap_err();
    assert_eq!(missing.message(), "images directory does not exist: /nowhere");
    let bare = discover("/data/images", Some(&empty("images"))).unwrap_err();
    assert!(matches!(bare, SfmError::Other(_)));
    assert_eq!(bare.message(), "no images found in /data/images");
}

#[test]
fn duplicate_numbers_fall_back_to_ordinals() {
    // Both directories end in 1, so neither keeps its own number.
    let (imgs, _) = found(&names(&["a1/x.jpg", "b01/x.jpg"]));
    let ids: Vec<u32> = imgs.iter().map(|i| i.camera_id).collect();
    assert_eq!(ids, vec![0, 1]);
}

#[test]
fn a_number_beyond_the_range_is_no_id() {
    let (imgs, _) = found(&names(&["cam99999999999/x.jpg", "cam3/x.jpg"]));
    let ids: Vec<(String, u32)> = imgs.iter().map(|i| (i.name.clone(), i.camera_id)).collect();
    assert_eq!(
        ids,
        vec![("cam3/x.jpg".to_string(), 0), ("cam99999999999/x.jpg".to_string(), 1)]
    );
}

#[test]
fn images_carry_their_paths_and_distinct_identities() {
    let (imgs, _) = found(&names(&[
        "capture_000/cam000/b.jpg",
        "capture_000/cam000/a.jpg",
        "capture_001/cam000/a.jpg",
    ]));
    let all: Vec<(u32, u32, u32, String)> = imgs
        .iter()
        .map(|i| (i.capture_id, i.camera_id, i.image_index, i.name.clone()))
        .collect();
    assert_eq!(
        all,
        vec![
            (0, 0, 0, "capture_000/cam000/a.jpg".to_string()),
            (0, 0, 1, "capture_000/cam000/b.jpg".to_string()),
            (1, 0, 0, "capture_001/cam000/a.jpg".to_string()),
        ]
    );
    assert_eq!(imgs[0].path, "/data/images/capture_000/cam000/a.jpg");
}

#[test]
fn ordinary_trees_are_countable() {
    let mut root = empty("images");
    root.dirs.push(empty("cam0"));
    root.dirs[0].files.push("a.jpg".to_string());
    root.dirs[0].dirs.push(empty("inner"));
    assert!(is_countable(&root));
}

/// No two images of a dataset go by one name.
#[test]
fn image_names_are_distinct() {
    for dir in [
        names(&["c1/cam1/a.jpg", "c1/cam1/b.jpg", "c1/cam2/a.jpg", "c2/cam1/a.jpg"]),
        names(&["cam1/a.jpg", "cam1/b.jpg", "cam2/a.jpg"]),
        names(&["a.jpg", "b.jpg", "a.png"]),
    ] {
        let (images, _) = found(&dir);
        let mut all: Vec<&str> = images.iter().map(|i| i.name.as_str()).collect();
        let count = all.len();
        all.sort();
        all.dedup();
        assert_eq!(all.len(), count);
        assert!(count >= 3);
    }
}
