use sfmtory::error::SfmError;
use sfmtory::ingest::{
    camera_note,
    capture_column, configured_model, corner_line, find_glob, usable_model, Incoming, Ingest,
};
use sfmtory::layout::{role_named, roles, Layer};
use sfmtory::layoutfile::{
    add_layout, choose_layout, no_layouts, remove_block_with_line, remove_layout_block, render_layout,
    unknown_layout, LayoutText,
};
use sfmtory::project::{glob_match, CameraConfig, Project, ProjectConfig};
use sfmtory::viewer::declare_layout;

use std::collections::HashMap;

type Config = ProjectConfig<i64, ()>;

#[test]
fn glob_matches_prefix_suffix_and_single_char() {
    assert!(glob_match("left_*", "left_0001.png"));
    assert!(!glob_match("left_*", "right_0001.png"));
    assert!(glob_match("*.png", "cam2_0007.png"));
    assert!(glob_match("cam?_*", "cam3_0001.png"));
    assert!(!glob_match("cam?_*", "cam31_0001.png"));
    assert!(glob_match("*", "anything.jpg"));
    assert!(glob_match("exact.png", "exact.png"));
    assert!(!glob_match("exact.png", "exact.jpg"));
}

#[test]
fn stars_take_runs_of_any_length() {
    assert!(glob_match("", ""));
    assert!(!glob_match("", "a"));
    assert!(glob_match("*", ""));
    assert!(glob_match("a**b", "ab"));
    assert!(glob_match("*ab*ab", "xabyabzab"));
    assert!(!glob_match("*ab*ab", "xab"));
    assert!(!glob_match("?", ""));
    assert!(glob_match("*?", "é"));
}

#[test]
fn a_project_knows_its_directories() {
    let p: Project<i64, ()> = Project::open("/data/set", None);
    assert_eq!(p.config.images_dir, "/data/set/images");
    assert_eq!(p.cache_dir(), "/data/set/cache");
    assert_eq!(p.stage_dir("map"), "/data/set/cache/map");
    assert_eq!(p.database_path(), "/data/set/cache/project.sqlite");
    assert_eq!(p.sparse_dir(), "/data/set/cache/map/sparse/0");
    assert_eq!(p.export_dir(), "/data/set/export");
    assert_eq!(p.logs_dir(), "/data/set/logs");
    assert_eq!(p.aruco_params_path(), "/data/set/cache/feature/aruco_params.toml");
    assert_eq!(p.log_path("map", 1234), "/data/set/logs/map_1234.json");
    assert_eq!(Project::<i64, ()>::config_path("/data/set"), "/data/set/sfm.toml");
    assert_eq!(Project::<i64, ()>::default_images_dir("/data/set"), "/data/set/images");
}

#[test]
fn a_configuration_names_its_images_or_falls_back() {
    let mut c: Config = ProjectConfig::defaults("/elsewhere");
    c.images_dir = String::new();
    c.detector = Some("aruco".to_string());
    let p = Project::open("/data/set", Some(c));
    assert_eq!(p.config.images_dir, "/data/set/images");
    assert_eq!(p.config.detector.as_deref(), Some("aruco"));
    let mut c: Config = ProjectConfig::defaults("/elsewhere");
    c.images_dir = "/photos".to_string();
    assert_eq!(Project::open("/data/set", Some(c)).config.images_dir, "/photos");
}

fn incoming(name: &str, camera_id: u32, width: u32) -> Incoming {
    Incoming {
        name: name.to_string(),
        capture_id: 2,
        camera_id,
        image_index: 0,
        width,
        height: 480,
    }
}

#[test]
fn declared_cameras_claim_images_by_glob() {
    let globs = vec!["left_*".to_string(), "*".to_string()];
    assert_eq!(find_glob(&globs, "left_1.jpg"), Some(0));
    assert_eq!(find_glob(&globs, "right_1.jpg"), Some(1));
    let mut i = Ingest::begin(4, 9, HashMap::new(), Vec::new(), 2);
    assert_eq!(i.camera_for(&incoming("right_1.jpg", 0, 640), &globs, 1).unwrap(), (5, true));
    assert_eq!(i.camera_for(&incoming("left_1.jpg", 0, 640), &globs, 1).unwrap(), (6, true));
    assert_eq!(i.camera_for(&incoming("right_2.jpg", 0, 999), &globs, 1).unwrap(), (5, false));
    let only = vec!["left_*".to_string()];
    let mut i = Ingest::begin(4, 9, HashMap::new(), Vec::new(), 1);
    let e = i.camera_for(&incoming("right_1.jpg", 0, 640), &only, 1).unwrap_err();
    assert_eq!(
        e.message(),
        "image right_1.jpg matches none of the 1 declared [[cameras]] globs in sfm.toml (add a catch-all `images = \"*\"` entry if that is intended)"
    );
}

#[test]
fn physical_cameras_come_before_image_sizes() {
    let none: Vec<String> = Vec::new();
    let mut i = Ingest::begin(0, 0, HashMap::new(), Vec::new(), 0);
    assert_eq!(i.camera_for(&incoming("a", 3, 640), &none, 2).unwrap(), (1, true));
    assert_eq!(i.camera_for(&incoming("b", 4, 640), &none, 2).unwrap(), (2, true));
    assert_eq!(i.camera_for(&incoming("c", 3, 999), &none, 2).unwrap(), (1, false));
    // One physical camera: by the size of the image.
    let mut i = Ingest::begin(0, 0, HashMap::new(), Vec::new(), 0);
    assert_eq!(i.camera_for(&incoming("a", 0, 640), &none, 1).unwrap(), (1, true));
    assert_eq!(i.camera_for(&incoming("b", 0, 999), &none, 1).unwrap(), (2, true));
    assert_eq!(i.camera_for(&incoming("c", 0, 640), &none, 1).unwrap(), (1, false));
}

#[test]
fn an_image_keeps_its_number() {
    let mut i = Ingest::begin(0, 7, HashMap::new(), vec![("a.jpg".to_string(), 3)], 0);
    assert_eq!(i.image_for(&"a.jpg".to_string()), 3);
    assert_eq!(i.image_for(&"b.jpg".to_string()), 8);
    assert_eq!(i.image_for(&"b.jpg".to_string()), 8);
    assert_eq!(i.image_for(&"c.jpg".to_string()), 9);
}

#[test]
fn corners_are_written_with_their_identity() {
    assert_eq!(
        corner_line((2, 17, 3), &incoming("cam1/a.jpg", 1, 640), 40, "1.50", "2.25"),
        "2_1_0_17_3,40,cam1/a.jpg,1.50,2.25"
    );
    assert_eq!(capture_column(true, 2, 5), -1);
    assert_eq!(capture_column(true, 1, 5), 5);
    assert_eq!(capture_column(false, 2, 5), 5);
}

fn declared(model: Option<&str>, params: Option<Vec<i64>>) -> CameraConfig<i64> {
    CameraConfig {
        name: "left".to_string(),
        images: "*".to_string(),
        model: model.map(|m| m.to_string()),
        params,
        refine: None,
    }
}

#[test]
fn a_declared_camera_is_given_or_guessed() {
    let guessed = configured_model(&declared(None, None), 700, (320, 240), 0).unwrap();
    assert_eq!(guessed.name(), "SIMPLE_RADIAL");
    assert_eq!(guessed.params(), vec![700, 320, 240, 0]);
    let given =
        configured_model(&declared(Some("PINHOLE"), Some(vec![1, 2, 3, 4])), 700, (320, 240), 0)
            .unwrap();
    assert_eq!(given.params(), vec![1, 2, 3, 4]);
    let unknown = configured_model(&declared(Some("X"), None), 700, (320, 240), 0).unwrap_err();
    assert_eq!(unknown.message(), "camera \"left\": unknown model X");
    let wrong =
        configured_model(&declared(Some("X"), Some(vec![1])), 700, (320, 240), 0).unwrap_err();
    assert_eq!(
        wrong.message(),
        "camera \"left\": model X does not accept 1 parameters"
    );
}

#[test]
fn every_error_has_its_text() {
    assert_eq!(SfmError::Io("denied".to_string()).message(), "io error: denied");
    let parse = SfmError::Parse { context: "cameras.txt:3".to_string(), message: "no id".to_string() };
    assert_eq!(parse.message(), "parse error at cameras.txt:3: no id");
    assert_eq!(
        SfmError::UnknownCameraModel("X".to_string()).message(),
        "unknown camera model: X"
    );
    assert_eq!(SfmError::Other("so".to_string()).message(), "so");
}

fn layout(source: Option<&str>) -> LayoutText {
    LayoutText {
        source: source.map(|s| s.to_string()),
        layers: vec!["capture".to_string(), "camera".to_string()],
    }
}

#[test]
fn a_layout_is_written_as_a_block() {
    assert_eq!(
        render_layout("night", true, &layout(Some("raw \"x\""))),
        "\n[[layouts]]\nname = \"night\"\ndefault = true\nsource = \"raw \\\"x\\\"\"\nlayers = [\"capture\", \"camera\"]\n"
    );
    assert_eq!(
        render_layout("day", false, &layout(None)),
        "\n[[layouts]]\nname = \"day\"\nlayers = [\"capture\", \"camera\"]\n"
    );
}

#[test]
fn layouts_are_added_once() {
    let file = "images_dir = \"images\"\n";
    let none: Vec<String> = Vec::new();
    let out = add_layout(file, None, &none, "day", true, &layout(None)).unwrap();
    assert_eq!(out, format!("{file}{}", render_layout("day", true, &layout(None))));
    let again =
        add_layout(&out, None, &vec!["day".to_string()], "day", false, &layout(None)).unwrap_err();
    assert_eq!(again.message(), "this project already has a layout named \"day\"");
    let bare = LayoutText { source: None, layers: Vec::new() };
    assert_eq!(
        add_layout(file, None, &none, "day", true, &bare).unwrap_err().message(),
        "--layers needs at least one role, e.g. --layers capture,camera"
    );
    assert_eq!(
        unknown_layout("x", &vec!["day".to_string(), "night".to_string()]).message(),
        "no layout named \"x\"; this project has: day, night"
    );
}

#[test]
fn a_lone_layout_becomes_the_default_one() {
    let file = "images_dir = \"images\"\n\n[layout]\nlayers = [\"camera\"]\n";
    let lone = LayoutText { source: None, layers: vec!["camera".to_string()] };
    let none: Vec<String> = Vec::new();
    let out = add_layout(file, Some(&lone), &none, "night", false, &layout(None)).unwrap();
    assert!(!out.contains("[layout]"), "{out}");
    assert!(out.contains("name = \"default\"\ndefault = true\nlayers = [\"camera\"]"), "{out}");
    assert!(out.ends_with(&render_layout("night", false, &layout(None))), "{out}");
}

#[test]
fn removing_a_layout_leaves_the_others() {
    let mut file = "images_dir = \"images\"\n".to_string();
    file.push_str(&render_layout("day", true, &layout(None)));
    file.push_str(&render_layout("night", false, &layout(None)));
    let out = remove_layout_block(&file, "day").unwrap();
    assert!(!out.contains("\"day\""), "{out}");
    assert!(out.contains("\"night\""), "{out}");
    assert!(out.starts_with("images_dir"));
    assert!(!out.contains("\n\n\n"), "{out}");
    assert!(remove_layout_block(&file, "dusk").is_none());
}

#[test]
fn a_layout_is_declared_once() {
    let out = declare_layout("images_dir = \"x\"\n", "/p/sfm.toml", "dir", "file").unwrap();
    assert_eq!(out, "images_dir = \"x\"\n\n[layout]\ncapture = \"dir\"\ncamera = \"file\"\n");
    let again = declare_layout(&out, "/p/sfm.toml", "dir", "file").unwrap_err();
    assert_eq!(
        again.message(),
        "/p/sfm.toml already declares [layout]; edit it by hand instead"
    );
}

#[test]
fn role_names_are_read_as_roles() {
    let names: Vec<String> =
        ["capture", "camera", "image", "frame", "ignore"].iter().map(|s| s.to_string()).collect();
    assert_eq!(
        roles(&names).unwrap(),
        vec![Layer::Capture, Layer::Camera, Layer::Image, Layer::Image, Layer::Ignore]
    );
    assert_eq!(role_named("Capture"), None);
    let bad = vec!["camera".to_string(), "sh\"ot".to_string(), "other".to_string()];
    assert_eq!(roles(&bad).unwrap_err().message(), "unknown layout role \"sh\\\"ot\"");
}

#[test]
fn a_layout_is_chosen_by_name_then_alone_then_by_default() {
    let names = vec!["day".to_string(), "night".to_string(), "dusk".to_string()];
    let defaults = vec![false, true, true];
    assert_eq!(choose_layout(&names, &defaults, Some("dusk")).unwrap(), 2);
    assert_eq!(choose_layout(&names, &defaults, None).unwrap(), 1);
    assert_eq!(choose_layout(&vec!["day".to_string()], &vec![false], None).unwrap(), 0);
    assert_eq!(
        choose_layout(&names, &defaults, Some("noon")).unwrap_err().message(),
        "no layout named \"noon\"; this project has: day, night, dusk"
    );
    assert_eq!(
        choose_layout(&names, &vec![false, false, false], None).unwrap_err().message(),
        "this project has several layouts and no default; pass --layout with one of: day, night, dusk"
    );
}

#[test]
fn a_project_without_layouts_is_told_how_to_add_one() {
    let said = no_layouts("p/sfm.toml").message();
    assert!(said.starts_with("p/sfm.toml declares no layout, so there is nothing to normalise.\n"));
    assert!(said.contains("\n\nsfmtory dataset add-layout --name rig --layers capture,camera\n\n"));
    assert!(said.ends_with(
        "Roles: capture, camera, image (a shot within one camera), ignore. A level may also be a pattern such as cam{camera}_{image}.\n"
    ));
}

#[test]
fn a_declared_camera_is_announced() {
    let mut cfg = declared(None, None);
    assert_eq!(camera_note(3, &cfg), "camera 3 \"left\" (SIMPLE_RADIAL)");
    cfg = declared(Some("RADIAL"), Some(vec![1, 2, 3, 4, 5]));
    cfg.refine = Some(false);
    assert_eq!(
        camera_note(4, &cfg),
        "camera 4 \"left\" (RADIAL, known intrinsics), held fixed"
    );
    cfg.refine = Some(true);
    assert_eq!(camera_note(4, &cfg), "camera 4 \"left\" (RADIAL, known intrinsics)");
}

#[test]
fn a_block_is_removed_by_a_line_of_it() {
    let file = "a = 1\n\n[[layouts]]\nname = \"day\"\n\n[[layouts]]\n  name = \"night\"  \nx = 2\n";
    assert_eq!(
        remove_block_with_line(file, "name = \"night\"").unwrap(),
        "a = 1\n\n[[layouts]]\nname = \"day\"\n\n"
    );
    assert_eq!(
        remove_block_with_line(file, "name = \"day\"").unwrap(),
        "a = 1\n\n[[layouts]]\n  name = \"night\"  \nx = 2\n"
    );
    // A line of the file outside any block names none.
    assert_eq!(remove_block_with_line(file, "a = 1"), None);
    assert_eq!(remove_block_with_line(file, "name = night"), None);
}

#[test]
fn a_camera_with_too_few_parameters_is_refused() {
    let few = declared(Some("PINHOLE"), Some(vec![1, 2, 3]));
    assert_eq!(
        usable_model(&few, 700, (320, 240), 0).unwrap_err().message(),
        "camera \"left\": model PINHOLE does not accept 3 parameters"
    );
    let enough = declared(Some("PINHOLE"), Some(vec![1, 2, 3, 4]));
    assert!(usable_model(&enough, 700, (320, 240), 0).is_ok());
    let unknown = declared(Some("X"), None);
    assert_eq!(
        usable_model(&unknown, 700, (320, 240), 0).unwrap_err().message(),
        "camera \"left\": unknown model X"
    );
    assert!(usable_model(&declared(None, None), 700, (320, 240), 0).is_ok());
}
