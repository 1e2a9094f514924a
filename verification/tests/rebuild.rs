use sfmtory::rebuild::{
    as_camera_toml, best_error, best_of_family, candidates_for, families, focal_scales,
    declared_glob, images_per_camera, improves, no_baseline_note, num_params, parsimony_note, pick, rebuilding_note,
    rebuilt_config,
    sweep_note, CameraEntry, Choice, Score, Scored, Search,
};
use sfmtory::mapinput::ImageRow;

/// How much worse than the best a simpler model may be.
const MARGIN: f64 = 0.10;

fn choice(model: &str) -> Choice {
    Choice {
        model: families().iter().position(|f| *f == model).unwrap(),
        scale: 4,
        focal_swept: false,
    }
}

/// A score, with the error as the number whose order is that of the error.
fn score(reg: usize, pts: usize, err: f64) -> Score {
    Score { registered: reg, points: pts, mean_error: Some(err.to_bits()) }
}

fn cutoff(scored: &Vec<Scored>) -> u64 {
    match best_error(scored) {
        Some(e) => (f64::from_bits(e) * (1.0 + MARGIN)).to_bits(),
        None => 0,
    }
}

fn winner(scored: &Vec<Scored>) -> &'static str {
    let w = pick(scored, cutoff(scored)).unwrap();
    families()[scored[w].0.model]
}

#[test]
fn parsimony_prefers_the_simpler_model_within_the_margin() {
    // OPENCV_FISHEYE is 5% better than SIMPLE_RADIAL - inside the 10%
    // margin, so the four-parameter model should win.
    let scored = vec![
        (choice("SIMPLE_RADIAL"), score(10, 500, 1.00)),
        (choice("OPENCV_FISHEYE"), score(10, 520, 0.95)),
    ];
    assert_eq!(winner(&scored), "SIMPLE_RADIAL");
}

#[test]
#[allow(clippy::approx_constant)]
fn a_clearly_wrong_family_loses() {
    // The scan3 case: the wide model is 40% better, far outside the margin.
    let scored = vec![
        (choice("SIMPLE_RADIAL"), score(4, 300, 3.141)),
        (choice("OPENCV_FISHEYE"), score(4, 306, 1.84)),
    ];
    assert_eq!(winner(&scored), "OPENCV_FISHEYE");
}

#[test]
fn registering_more_images_outranks_a_lower_error() {
    // A model that drops an image is not "better" for having a tidier
    // error over the images it kept - that is survivorship bias.
    let scored = vec![
        (choice("SIMPLE_RADIAL"), score(9, 400, 0.50)),
        (choice("RADIAL3"), score(10, 500, 2.00)),
    ];
    assert_eq!(winner(&scored), "RADIAL3");
}

#[test]
fn failed_rebuilds_are_ignored() {
    let scored = vec![
        (choice("SIMPLE_PINHOLE"), Score::failed()),
        (choice("RADIAL"), score(5, 100, 2.0)),
    ];
    assert_eq!(winner(&scored), "RADIAL");
    let all_bad = vec![(choice("RADIAL"), Score::failed())];
    assert!(pick(&all_bad, cutoff(&all_bad)).is_none());
}

#[test]
fn focal_scales_span_a_fisheye_through_a_rectilinear_lens() {
    // A camera seeded at a rectilinear focal must be able to reach the
    // roughly one-third focal an equidistant fisheye needs for the same
    // field of view, or the family comparison is decided by the focal.
    let scales: Vec<f64> = focal_scales().iter().map(|s| *s as f64 / 100.0).collect();
    assert!(scales.iter().any(|s| *s <= 0.35));
    assert!(scales.iter().any(|s| *s >= 1.0));
}

#[test]
fn an_emptier_reconstruction_is_not_a_better_one() {
    // Against a 311-point baseline the search once recommended a
    // configuration holding 60 points because its average over those 60 was
    // small. Completeness outranks accuracy.
    let scored = vec![
        (choice("SIMPLE_RADIAL"), score(4, 306, 1.84)),
        (choice("SIMPLE_PINHOLE"), score(4, 60, 0.30)),
    ];
    assert_eq!(winner(&scored), "SIMPLE_RADIAL");
}

#[test]
fn a_small_loss_of_points_is_tolerated() {
    // Point counts wobble between rebuilds; only a collapse disqualifies.
    let scored = vec![
        (choice("SIMPLE_RADIAL"), score(4, 300, 2.00)),
        (choice("OPENCV_FISHEYE"), score(4, 290, 1.00)),
    ];
    assert_eq!(winner(&scored), "OPENCV_FISHEYE");
}

#[test]
fn improves_refuses_to_trade_structure_for_error() {
    let incumbent = score(4, 300, 2.0);
    assert!(!improves(&score(4, 100, 0.1), &incumbent));
    assert!(improves(&score(4, 295, 1.5), &incumbent));
    assert!(!improves(&score(3, 300, 0.5), &incumbent));
    assert!(improves(&score(4, 300, 1.9), &Score::failed()));
}

#[test]
fn a_score_needs_two_images_and_a_point() {
    assert_eq!(Score::of(1, 50, Some(1)), Score::failed());
    assert_eq!(Score::of(5, 0, Some(1)), Score::failed());
    let s = Score::of(5, 50, None);
    assert_eq!((s.registered, s.points), (5, 50));
    assert!(!s.is_usable());
    assert!(Score::of(2, 1, Some(7)).is_usable());
}

#[test]
fn swept_candidates_try_every_scale_of_every_family() {
    assert_eq!(candidates_for(false).len(), families().len());
    assert!(candidates_for(false).iter().all(|c| focal_scales()[c.scale] == 100));
    let swept = candidates_for(true);
    assert_eq!(swept.len(), families().len() * focal_scales().len());
    assert!(swept.iter().all(|c| c.focal_swept));
}

#[test]
fn families_count_their_parameters() {
    let counts: Vec<usize> = (0..families().len()).map(num_params).collect();
    let by_name: Vec<usize> = families()
        .iter()
        .map(|f| sfmtory::camera::count_params(f).unwrap())
        .collect();
    assert_eq!(counts, by_name);
}

#[test]
fn the_search_keeps_a_camera_only_where_it_improves() {
    // Camera 0 has images enough; camera 1 has its focal swept.
    let images = images_per_camera(&vec![7, 9], &vec![7, 7, 7, 7, 9]);
    assert_eq!(images, vec![4, 1]);
    let mut search = Search::begin(&images, 4);
    assert_eq!(search.sweep, vec![false, true]);
    assert!(search.any_swept());
    assert_eq!(search.total(), 42 * 3);

    let a = Choice { model: 2, scale: 0, focal_swept: true };
    let b = Choice { model: 3, scale: 1, focal_swept: true };
    let uniform: Vec<Scored> = vec![(a, score(4, 100, 2.0)), (b, score(4, 100, 1.0))];
    search.take_uniform(&uniform, cutoff(&uniform));
    assert_eq!(search.best, score(4, 100, 1.0));
    // The camera whose focal is not swept keeps the focal that it has.
    assert_eq!(search.assignment[1], Some(b));
    assert_eq!(search.assignment[0].unwrap().model, 3);
    assert!(!search.assignment[0].unwrap().focal_swept);
    assert_eq!(search.tried.len(), 2);

    // Worse than the incumbent: noted, not taken.
    let before = search.assignment.clone();
    let c = Choice { model: 4, scale: 2, focal_swept: true };
    let trial = search.trial_assignment(1, c);
    assert_eq!(trial[1], Some(c));
    let worse: Vec<Scored> = vec![(c, score(4, 100, 1.5))];
    search.take_camera(1, &worse, cutoff(&worse));
    assert_eq!(search.assignment, before);
    assert_eq!(search.tried.len(), 3);

    let better: Vec<Scored> = vec![(c, score(4, 100, 0.5))];
    search.take_camera(1, &better, cutoff(&better));
    assert_eq!(search.assignment[1], Some(c));
    assert_eq!(search.best, score(4, 100, 0.5));
    // Of the two trials of that family on camera 1, the second was better.
    assert_eq!(best_of_family(&search.tried, 1, 4), Some(3));
    assert_eq!(best_of_family(&search.tried, 1, 0), None);
}

#[test]
fn swept_focals_are_written_and_pinned() {
    let entries = vec![
        CameraEntry {
            id: 1,
            glob: Some("left_\"*".to_string()),
            model: "RADIAL".to_string(),
            focal_swept: true,
            focal: "812.5".to_string(),
        },
        CameraEntry {
            id: 2,
            glob: None,
            model: "PINHOLE".to_string(),
            focal_swept: false,
            focal: "900.0".to_string(),
        },
    ];
    // Texts are quoted, with what stands in them escaped.
    assert_eq!(
        as_camera_toml(&entries, true),
        "[[cameras]]\nname = \"cam1\"\nimages = \"left_\\\"*\"\nmodel = \"RADIAL\"\n\
         # focal from the model search, not calibrated\n\
         params = [812.5, 0.0, 0.0]  # f, cx, cy - fill in the principal point\n\n\
         [[cameras]]\nname = \"cam2\"\nimages = \"*cam002*\"\nmodel = \"PINHOLE\"\n\n"
    );
    assert!(!as_camera_toml(&entries, false).contains("params"));
}

#[test]
fn the_last_declared_pattern_stands_for_a_camera() {
    let row = |id: u32, camera_id: u32, name: &str| ImageRow { id, camera_id, name: name.into() };
    let images = vec![row(1, 7, "left/a.jpg"), row(2, 8, "right/a.jpg")];
    let globs: Vec<String> =
        ["left/*", "*", "right/*", "up/*"].iter().map(|g| g.to_string()).collect();
    // A pattern stands for the camera of the first image that it takes.
    assert_eq!(declared_glob(&globs, &images, 7), Some(1));
    assert_eq!(declared_glob(&globs, &images, 8), Some(2));
    assert_eq!(declared_glob(&globs, &images, 9), None);
}

#[test]
fn a_rebuilt_configuration_never_replaces_declared_cameras() {
    let cameras = "[[cameras]]\nname = \"cam1\"\n";
    assert_eq!(
        rebuilt_config("images_dir = \"i\"\n", cameras),
        Some("images_dir = \"i\"\n\n[[cameras]]\nname = \"cam1\"\n".to_string())
    );
    assert_eq!(rebuilt_config("x\n[[cameras]]\n", cameras), None);
}

#[test]
fn a_cutoff_at_the_lowest_error_leaves_a_winner() {
    let scored: Vec<Scored> = vec![
        (choice("OPENCV"), score(4, 100, 0.5)),
        (choice("PINHOLE"), score(4, 95, 0.9)),
        (choice("RADIAL"), score(3, 500, 0.1)),
    ];
    let best = best_error(&scored).unwrap();
    assert_eq!(f64::from_bits(best), 0.5);
    assert_eq!(pick(&scored, best), Some(0));
    assert_eq!(pick(&scored, best - 1), None);
}

#[test]
fn a_search_says_why_it_sweeps_and_why_simplicity_wins() {
    assert_eq!(
        sweep_note(&vec![1, 0, 5, 3], 4),
        vec![
            "  2 camera(s) have fewer than 4 images, so bundle adjustment cannot move",
            "  their focal; the search sweeps it instead. Each family needs its own focal -",
            "  a fisheye's is roughly a third of a rectilinear lens's for the same view -",
            "  so without this the comparison would be decided by the focal, not the model.",
        ]
    );
    assert!(sweep_note(&vec![4, 9, 0], 4).is_empty());
    assert_eq!(
        parsimony_note("10"),
        vec![
            "A more complex family had to beat a simpler one by 10% to be preferred; reprojection",
            "error always falls with parameter count, so lowest-error-wins would pick the most",
            "complex model offered every time.",
        ]
    );
}

#[test]
fn a_search_is_announced() {
    assert_eq!(
        rebuilding_note(12, 3),
        "Rebuilding to compare camera models: 12 image(s), 3 camera(s)."
    );
    assert!(no_baseline_note().ends_with("\nbaseline to compare against. Fix `map` first."));
}
