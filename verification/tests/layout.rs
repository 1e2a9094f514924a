use std::collections::BTreeSet;

use sfmtory::dataset::{discover, Dir, Layout};
use sfmtory::layout::{can_be_numbered, plan, probe_depth, Layer, LayoutConfig, Plan};
use sfmtory::linking::{link_report, link_step, linked_note, rebuilds};
use sfmtory::paths::relative_link;

const CAPTURE_CAMERA: [Layer; 2] = [Layer::Capture, Layer::Camera];

fn empty(name: &str) -> Dir {
    Dir { name: name.to_string(), dirs: Vec::new(), files: Vec::new() }
}

/// Adds one file, given by its slash-separated path, to a listing.
fn touch(dir: &mut Dir, path: &str) {
    match path.split_once('/') {
        None => dir.files.push(path.to_string()),
        Some((first, rest)) => {
            let at = match dir.dirs.iter().position(|d| d.name == first) {
                Some(at) => at,
                None => {
                    dir.dirs.push(empty(first));
                    dir.dirs.len() - 1
                }
            };
            touch(&mut dir.dirs[at], rest);
        }
    }
}

fn listing(paths: &[String]) -> Dir {
    let mut root = empty("raw");
    for p in paths {
        touch(&mut root, p);
    }
    root
}

fn cfg(layers: &[Layer]) -> LayoutConfig {
    LayoutConfig { source: None, layers: layers.to_vec() }
}

fn grid(outer: &[&str], inner: &[&str], ext: &str) -> Vec<String> {
    let mut out = Vec::new();
    for a in outer {
        for b in inner {
            out.push(format!("{a}/{b}.{ext}"));
        }
    }
    out
}

/// The directory under `target` that holds what a plan's links make.
fn linked(p: &Plan, target: &str) -> Dir {
    let mut root = empty("images");
    for x in &p.placed {
        let step = link_step(target, &x.link, &x.source).unwrap();
        touch(&mut root, step.dest.strip_prefix(target).unwrap().trim_start_matches('/'));
    }
    root
}

/// What a link stored in `dir` leads to.
fn follow(dir: &str, link: &str) -> String {
    let mut parts: Vec<&str> = dir.split('/').filter(|c| !c.is_empty()).collect();
    for c in link.split('/') {
        if c == ".." {
            parts.pop();
        } else {
            parts.push(c);
        }
    }
    format!("/{}", parts.join("/"))
}

/// The `p44` shape: capture directories holding one file per camera.
#[test]
fn capture_dirs_of_per_camera_files() {
    let root = listing(&grid(&["9", "16", "23"], &["101", "7", "58"], "jpg"));
    let p = plan("/raw", Some(&root), &cfg(&CAPTURE_CAMERA)).unwrap();
    assert_eq!(p.placed.len(), 9);
    assert_eq!(p.captures, [9, 16, 23].into_iter().collect());
    assert_eq!(p.cameras, [7, 58, 101].into_iter().collect());
    assert!(p.gaps.is_empty());
    // The ids follow the names, and the link path is the canonical form that
    // discovery reads as captures-and-cameras.
    let one = p.placed.iter().find(|x| x.source.ends_with("16/101.jpg")).unwrap();
    assert_eq!(one.capture_id, 16);
    assert_eq!(one.camera_id, 101);
    assert_eq!(one.link, "capture_016/cam101/101.jpg");
}

/// One camera must keep one id even when it is missing from a capture -
/// the failure a per-directory assignment would introduce silently.
#[test]
fn camera_ids_stay_aligned_across_captures_with_a_gap() {
    let paths: Vec<String> =
        ["1/alpha.jpg", "1/beta.jpg", "2/beta.jpg"].iter().map(|p| p.to_string()).collect();
    let p = plan("/raw", Some(&listing(&paths)), &cfg(&CAPTURE_CAMERA)).unwrap();
    let id_of = |cap: u32, stem: &str| {
        p.placed
            .iter()
            .find(|x| x.capture_id == cap && x.source.ends_with(&format!("{stem}.jpg")))
            .unwrap()
            .camera_id
    };
    assert_eq!(id_of(1, "beta"), id_of(2, "beta"), "beta changed id");
    assert_ne!(id_of(1, "alpha"), id_of(1, "beta"));
    // And the gap is reported rather than passed over.
    assert_eq!(p.gaps.len(), 1);
    let (cam, missing) = p.gaps.iter().next().unwrap();
    assert_eq!(*cam, id_of(1, "alpha"));
    assert_eq!(missing, &vec![2]);
}

#[test]
fn non_numeric_names_fall_back_to_sorted_ordinals() {
    let root = listing(&grid(&["morning", "evening"], &["left", "right"], "png"));
    let p = plan("/raw", Some(&root), &cfg(&CAPTURE_CAMERA)).unwrap();
    assert_eq!(p.captures, [0, 1].into_iter().collect());
    assert_eq!(p.cameras, [0, 1].into_iter().collect());
    assert_eq!(p.placed.len(), 4);
}

#[test]
fn the_transposed_layout_also_works() {
    // Camera directories holding one file per capture: the same two roles
    // in the other order.
    let root = listing(&grid(&["cam1", "cam2"], &["5", "6"], "jpg"));
    let p = plan("/raw", Some(&root), &cfg(&[Layer::Camera, Layer::Capture])).unwrap();
    assert_eq!(p.captures, [5, 6].into_iter().collect());
    assert_eq!(p.cameras, [1, 2].into_iter().collect());
}

#[test]
fn colliding_images_are_refused_rather_than_overwritten() {
    // Two files in one capture that both resolve to the same camera,
    // because the extension is what differs and the stem is the key.
    let root = listing(&["1/7.jpg".to_string(), "1/7.png".to_string()]);
    let err = plan("/raw", Some(&root), &cfg(&CAPTURE_CAMERA)).unwrap_err();
    let msg = err.message();
    assert!(msg.contains("capture 1, camera 7"), "{msg}");
    // And the message points at the fix rather than just the problem.
    assert!(msg.contains("\"image\" level"), "{msg}");
}

#[test]
fn apply_creates_a_tree_discovery_reads_back_as_captures_and_cameras() {
    let src = listing(&grid(&["9", "16"], &["101", "102"], "jpg"));
    let p = plan("/data/raw", Some(&src), &cfg(&CAPTURE_CAMERA)).unwrap();
    let target = "/data/linked";
    assert_eq!(rebuilds(false, false, target).unwrap(), false);
    let tree = linked(&p, target);
    assert_eq!(p.placed.len(), 4);

    let (imgs, layout) = discover(target, Some(&tree)).unwrap();
    assert_eq!(layout, Layout::CapturesAndCameras);
    assert_eq!(imgs.len(), 4);
    let caps: BTreeSet<u32> = imgs.iter().map(|i| i.capture_id).collect();
    let cams: BTreeSet<u32> = imgs.iter().map(|i| i.camera_id).collect();
    assert_eq!(caps, [9, 16].into_iter().collect());
    assert_eq!(cams, [101, 102].into_iter().collect());
    // One image per (capture, camera), so every slot index is zero and
    // merging keys on the camera alone.
    assert!(imgs.iter().all(|i| i.image_index == 0));

    // Rebuilding without --force must refuse rather than silently replace.
    assert!(rebuilds(true, false, target).is_err());
    assert_eq!(rebuilds(true, true, target).unwrap(), true);
    assert_eq!(linked(&p, target).dirs.len(), 2);
}

/// Renaming the dataset directory must not break the tree.
#[test]
fn the_tree_survives_the_dataset_being_renamed() {
    let src = listing(&grid(&["9", "16"], &["101", "102"], "jpg"));
    let p = plan("/base/p44/images", Some(&src), &cfg(&CAPTURE_CAMERA)).unwrap();
    let target = "/base/p44/cache/dataset/images";
    assert_eq!(p.placed.len(), 4);

    // The link must not mention the directory that is about to move.
    for x in &p.placed {
        let step = link_step(target, &x.link, &x.source).unwrap();
        assert!(!step.target.starts_with('/'), "link target must be relative, got {}", step.target);
        assert!(!step.target.contains("p44"));
        assert_eq!(follow(&step.parent, &step.target), x.source);
        // Seen from where the tree now lies, it leads to the moved image.
        let moved = step.parent.replacen("/base/p44", "/base/scan", 1);
        assert_eq!(
            follow(&moved, &step.target),
            x.source.replacen("/base/p44", "/base/scan", 1)
        );
    }
    // And discovery still reads the moved tree.
    let (imgs, layout) =
        discover("/base/scan/cache/dataset/images", Some(&linked(&p, target))).unwrap();
    assert_eq!(layout, Layout::CapturesAndCameras);
    assert_eq!(imgs.len(), 4);
}

/// Three levels: captures of cameras of several shots each.
#[test]
fn an_image_level_numbers_shots_within_each_camera() {
    let mut paths = Vec::new();
    for cap in ["cap1", "cap2"] {
        for cam in ["cam1", "cam2"] {
            for shot in ["0001", "0002", "0003"] {
                paths.push(format!("{cap}/{cam}/{shot}.jpg"));
            }
        }
    }
    let layers = [Layer::Capture, Layer::Camera, Layer::Image];
    let p = plan("/raw", Some(&listing(&paths)), &cfg(&layers)).unwrap();
    assert_eq!(p.placed.len(), 12);
    assert_eq!(p.captures.len(), 2);
    assert_eq!(p.cameras.len(), 2);
    // Slots are numbered per (capture, camera), and the same shot name lands
    // on the same index everywhere - which is what merging pairs along.
    let idx = |cap: u32, cam: u32, shot: &str| {
        p.placed
            .iter()
            .find(|x| {
                x.capture_id == cap
                    && x.camera_id == cam
                    && x.source.ends_with(&format!("{shot}.jpg"))
            })
            .unwrap()
            .image_index
    };
    assert_eq!(idx(1, 1, "0001"), 0);
    assert_eq!(idx(1, 1, "0003"), 2);
    assert_eq!(idx(2, 2, "0003"), 2);
}

/// A wrapper directory that means nothing is skipped rather than forcing
/// the user to restructure the dataset.
#[test]
fn an_ignore_level_is_skipped() {
    let paths: Vec<String> =
        ["9", "16"].iter().map(|cap| format!("session_a/{cap}/101.jpg")).collect();
    let layers = [Layer::Ignore, Layer::Capture, Layer::Camera];
    let p = plan("/raw", Some(&listing(&paths)), &cfg(&layers)).unwrap();
    assert_eq!(p.captures, [9, 16].into_iter().collect());
    assert_eq!(p.cameras, [101].into_iter().collect());
}

/// The wrong number of layers must be an error naming the offending file,
/// not silently-misaligned roles.
#[test]
fn a_depth_mismatch_is_reported_against_the_actual_file() {
    let root = listing(&["9/101.jpg".to_string()]);
    let layers = [Layer::Capture, Layer::Camera, Layer::Image];
    let err = plan("/raw", Some(&root), &cfg(&layers)).unwrap_err();
    let msg = err.message();
    assert!(msg.contains("declares 3 level(s)"), "{msg}");
    assert!(msg.contains("is 2 level(s) deep"), "{msg}");
}

#[test]
fn probe_depth_reports_the_tree_depth() {
    assert_eq!(probe_depth(&listing(&["a/b/c.jpg".to_string()])), Some(3));
}

#[test]
fn relative_link_walks_up_to_the_common_ancestor() {
    let from = "/a/b/cache/dataset/images/capture_009/cam101";
    let to = "/a/b/images/9/101.jpg";
    assert_eq!(relative_link(from, to).unwrap(), "../../../../../images/9/101.jpg");
    // Same directory needs no traversal at all.
    assert_eq!(relative_link("/a/b", "/a/b/x.jpg").unwrap(), "x.jpg");
}

#[test]
fn a_link_between_unrelated_paths_is_absolute() {
    assert!(relative_link("a/b", "/c/d.jpg").is_none());
    let step = link_step("links", "capture_001/cam001/x.jpg", "/c/x.jpg").unwrap();
    assert_eq!(step.parent, "links/capture_001/cam001");
    assert_eq!(step.target, "/c/x.jpg");
    let lone = link_step("", "x.jpg", "/c/x.jpg").unwrap_err();
    assert_eq!(lone.message(), "link x.jpg has no parent");
}

#[test]
fn a_plan_needs_layers_and_images() {
    let root = listing(&["1/7.jpg".to_string()]);
    assert_eq!(
        plan("/raw", None, &cfg(&CAPTURE_CAMERA)).unwrap_err().message(),
        "layout source directory does not exist: /raw"
    );
    assert_eq!(
        plan("/raw", Some(&root), &cfg(&[])).unwrap_err().message(),
        "[layout] layers is empty; it needs one entry per path level, e.g. layers = [\"capture\", \"camera\"]"
    );
    assert_eq!(
        plan("/raw", Some(&empty("raw")), &cfg(&CAPTURE_CAMERA)).unwrap_err().message(),
        "no images found under /raw"
    );
    assert_eq!(probe_depth(&empty("raw")), None);
}

#[test]
fn the_report_counts_slots_and_names_gaps() {
    let paths: Vec<String> =
        ["1/3.jpg", "1/4.jpg", "2/4.jpg"].iter().map(|p| p.to_string()).collect();
    let p = plan("/raw", Some(&listing(&paths)), &cfg(&CAPTURE_CAMERA)).unwrap();
    assert_eq!(
        link_report(&p, "/raw"),
        vec![
            "Source /raw",
            "  2 captures x 2 cameras -> 3 images",
            "  3 of 4 (capture, camera) slots are filled",
            "  1 camera(s) are absent from at least one capture:",
            "    camera 3 missing from capture(s) [2]",
            "  e.g. /raw/1/3.jpg -> capture_001/cam003/3.jpg",
            "  e.g. /raw/1/4.jpg -> capture_001/cam004/4.jpg",
            "  e.g. /raw/2/4.jpg -> capture_002/cam004/4.jpg",
        ]
    );
    let refused = rebuilds(true, false, "/data/linked").unwrap_err();
    assert_eq!(
        refused.message(),
        "/data/linked already exists; pass --force to rebuild it"
    );
}

#[test]
fn the_report_names_several_shots() {
    let paths: Vec<String> =
        ["1/3/a.jpg", "1/3/b.jpg"].iter().map(|p| p.to_string()).collect();
    let layers = [Layer::Capture, Layer::Camera, Layer::Image];
    let p = plan("/raw", Some(&listing(&paths)), &cfg(&layers)).unwrap();
    let lines = link_report(&p, "/raw");
    assert!(lines.contains(&"  up to 2 shot(s) per camera per capture".to_string()));
}

#[test]
fn ordinary_trees_can_be_numbered() {
    let root = Dir {
        name: "images".to_string(),
        dirs: Vec::new(),
        files: vec!["a.jpg".to_string(), "b.txt".to_string()],
    };
    assert!(can_be_numbered(&root));
}

/// A shot that is missing from a capture leaves the others in their slots.
#[test]
fn a_missing_shot_leaves_the_others_in_their_slots() {
    let files: Vec<String> = ["cap1/cam1/0001.jpg", "cap1/cam1/0002.jpg", "cap2/cam1/0002.jpg"]
        .iter()
        .map(|s| s.to_string())
        .collect();
    let layers = [Layer::Capture, Layer::Camera, Layer::Image];
    let p = plan("/raw", Some(&listing(&files)), &cfg(&layers)).unwrap();
    let slots: Vec<(&str, u32)> =
        p.placed.iter().map(|x| (x.source.as_str(), x.image_index)).collect();
    assert_eq!(
        slots,
        vec![
            ("/raw/cap1/cam1/0001.jpg", 0),
            ("/raw/cap1/cam1/0002.jpg", 1),
            ("/raw/cap2/cam1/0002.jpg", 1),
        ]
    );
    let lines = link_report(&p, "/raw");
    assert!(lines.contains(&"  up to 2 shot(s) per camera per capture".to_string()), "{lines:?}");
}

/// How many shots there are is counted in each capture, whatever their slots.
#[test]
fn shots_are_counted_within_a_capture() {
    let files: Vec<String> =
        ["1/7/a.jpg", "2/7/b.jpg", "2/9/a.jpg"].iter().map(|s| s.to_string()).collect();
    let layers = [Layer::Capture, Layer::Camera, Layer::Image];
    let p = plan("/raw", Some(&listing(&files)), &cfg(&layers)).unwrap();
    let slots: Vec<u32> = p.placed.iter().map(|x| x.image_index).collect();
    assert_eq!(slots, vec![0, 1, 0]);
    let lines = link_report(&p, "/raw");
    assert!(!lines.iter().any(|l| l.contains("shot(s)")), "{lines:?}");
    assert!(lines.contains(&"  3 of 4 (capture, camera) slots are filled".to_string()), "{lines:?}");
}

/// What a plan links is what discovery finds, under the same ids.
#[test]
fn a_linked_plan_is_read_back_whole() {
    let files: Vec<String> =
        ["day/left/b.jpg", "day/left/a.jpg", "day/right/a.jpg", "night/right/c.png", "night/notes.txt"]
            .iter()
            .map(|s| s.to_string())
            .collect();
    let layers = [Layer::Capture, Layer::Camera, Layer::Image];
    let p = plan("/raw", Some(&listing(&files)), &cfg(&layers)).unwrap();
    let tree = linked(&p, "/data/images");
    let (images, layout) = discover("/data/images", Some(&tree)).unwrap();
    assert_eq!(layout, Layout::CapturesAndCameras);
    let mut found: Vec<(String, u32, u32)> =
        images.iter().map(|i| (i.name.clone(), i.capture_id, i.camera_id)).collect();
    let mut placed: Vec<(String, u32, u32)> =
        p.placed.iter().map(|x| (x.link.clone(), x.capture_id, x.camera_id)).collect();
    found.sort();
    placed.sort();
    assert_eq!(found, placed);
    assert_eq!(found.len(), 4);
}

#[test]
fn a_built_tree_is_announced() {
    assert_eq!(
        linked_note(4, "/p/images"),
        "\nLinked 4 image(s) into /p/images\nStages will now read that tree; re-run this after the raw dataset changes."
    );
}
