use sfmtory::ba::{
    assign_slots, chunk_ranges, decoupled_rows, flag, kept_or_moved, observations_by_camera, point_couplings,
    schur_updates, worth_refining, Sighting, Variable, builds_in_parallel,
};
use sfmtory::consensus::Supported;
use sfmtory::lm::{Damping, Event, Growth, Phase, Run};
use sfmtory::tuning::{baseline_note, no_markers_note, sample_places, swept_note, Score, Setting, Sweep};
use sfmtory::vanishing::{
    calibrated, edge_lines, enough, line_options, line_request, longest_run, near_edge, VanishingSearch,
};

#[test]
fn free_variables_get_consecutive_rows() {
    // Three poses with the first fixed, two cameras with the second fixed.
    let s = assign_slots(3, &[true, false, false], &vec![4, 8], &[false, true]);
    assert_eq!(s.poses, vec![None, Some(0), Some(6)]);
    assert_eq!(s.cameras, vec![Some(12), None]);
    assert_eq!(s.total_dim, 16);
    assert_eq!(s.row_of(Variable::Pose(2)), Some(6));
    assert_eq!(s.row_of(Variable::Camera(1)), None);
    assert_eq!(s.size_of(Variable::Pose(2)), 6);
    assert_eq!(s.size_of(Variable::Camera(0)), 4);
    // What a list does not mention is free.
    assert!(!flag(&[true], 5));
    assert!(flag(&[true], 0));
}

#[test]
fn elimination_updates_every_pair_of_blocks_once() {
    let s = assign_slots(2, &[false, false], &vec![4], &[false]);
    let obs = vec![
        Sighting { image_idx: 0, camera_idx: 0, point_idx: 0 },
        Sighting { image_idx: 1, camera_idx: 0, point_idx: 0 },
        Sighting { image_idx: 1, camera_idx: 0, point_idx: 1 },
    ];
    let couplings = point_couplings(&s, &obs, 2);
    // A pose and a camera for each observation.
    assert_eq!(couplings[0].len(), 4);
    assert_eq!(couplings[1].len(), 2);
    let updates = schur_updates(&s, &couplings[1]);
    let blocks: Vec<(usize, usize, usize, usize)> =
        updates.iter().map(|u| (u.row, u.col, u.rows, u.cols)).collect();
    for b in &blocks {
        assert_eq!(blocks.iter().filter(|c| *c == b).count(), 1);
    }
    // Pose with pose, pose with camera, camera with camera.
    assert!(blocks.contains(&(6, 6, 6, 6)));
    assert!(blocks.contains(&(12, 12, 4, 4)));
    assert!(blocks.iter().any(|b| *b == (6, 12, 6, 4) || *b == (12, 6, 4, 6)));
}

#[test]
fn masked_parameters_are_decoupled() {
    let s = assign_slots(1, &[false], &vec![4, 3], &[false, false]);
    let masks = vec![vec![false, true, true, false], vec![]];
    assert_eq!(decoupled_rows(&s, &masks), vec![7, 8]);
}

#[test]
fn points_are_split_among_workers() {
    assert_eq!(chunk_ranges(10, 3), vec![(0, 4), (4, 8), (8, 10)]);
    assert_eq!(chunk_ranges(2, 0), vec![(0, 2)]);
    let spare = chunk_ranges(2, 4);
    assert_eq!(spare.iter().map(|r| r.1 - r.0).sum::<usize>(), 2);
    assert_eq!(observations_by_camera(&vec![0, 1, 0], &vec![1, 0], 2), vec![vec![1], vec![0, 2]]);
    assert!(!worth_refining(7));
    assert!(worth_refining(8));
}

#[test]
fn nothing_to_solve_is_done_at_once() {
    assert_eq!(Run::start(10, Growth::Nielsen, 0).phase, Phase::Done);
    assert_eq!(Run::start(0, Growth::Nielsen, 6).phase, Phase::Done);
    let r = Run::start(10, Growth::Nielsen, 6);
    assert_eq!((r.phase, r.iterations), (Phase::Linearize, 1));
}

#[test]
fn refused_steps_raise_the_damping_ever_faster() {
    let mut r = Run::start(10, Growth::Nielsen, 6);
    assert_eq!(r.step(Event::Linearized { empty: false }), Damping::Keep);
    assert_eq!(r.step(Event::Trial { better: false }), Damping::Times(2));
    assert_eq!(r.step(Event::Unsolvable), Damping::Times(4));
    assert_eq!(r.step(Event::Trial { better: false }), Damping::Times(8));
    assert_eq!(r.step(Event::Trial { better: true }), Damping::Shrink);
    assert_eq!((r.phase, r.nu), (Phase::Check, 2));
    assert_eq!(r.step(Event::Progress { converged: false }), Damping::Keep);
    assert_eq!((r.phase, r.iterations), (Phase::Linearize, 2));
    r.step(Event::Linearized { empty: false });
    r.step(Event::Trial { better: true });
    r.step(Event::Progress { converged: true });
    assert_eq!(r.phase, Phase::Done);
}

#[test]
fn a_run_gives_up_after_its_tries() {
    let mut r = Run::start(10, Growth::Threefold, 6);
    r.step(Event::Linearized { empty: false });
    let mut tries = 0;
    while r.phase == Phase::Solve {
        assert_eq!(r.step(Event::Trial { better: false }), Damping::Times(3));
        tries += 1;
    }
    assert_eq!(tries, 8);
}

#[test]
fn sampled_images_are_spread_out() {
    assert_eq!(sample_places(10, 3), vec![0, 3, 6]);
    assert_eq!(sample_places(2, 5), vec![0, 1]);
    assert_eq!(sample_places(0, 5), Vec::<usize>::new());
}

#[test]
fn images_with_markers_count_before_markers() {
    let a = Score::of(&vec![1, 1, 0]);
    let b = Score::of(&vec![9, 0, 0]);
    assert_eq!((a.images_with_markers, a.total_markers), (2, 2));
    assert!(a.is_better_than(&b));
    assert!(Score::of(&vec![2, 1, 0]).is_better_than(&a));
    assert!(!a.is_better_than(&a));
}

#[test]
fn a_sweep_takes_only_what_is_better() {
    let baseline = Score { images_with_markers: 1, total_markers: 4 };
    assert_eq!(
        Sweep::begin(0, None, baseline).unwrap_err().message(),
        "no images to tune ArUco parameters on"
    );
    // The setting in force is not tried again.
    let first = Setting { radius: 3, offset: 4, contrast: 10, gamma: 10 };
    let mut sweep = Sweep::begin(5, Some(first), baseline).unwrap();
    let mut tried = 0;
    let mut seen: Vec<Setting> = Vec::new();
    while let Some(s) = sweep.candidate() {
        assert_ne!(s, first);
        assert!(!seen.contains(&s));
        seen.push(s);
        tried += 1;
        // Only one candidate finds more.
        let more = s.radius == 7 && s.offset == 12 && s.contrast == 14 && s.gamma == 7;
        sweep.take(Score { images_with_markers: if more { 3 } else { 1 }, total_markers: 4 });
        // A chosen setting is in force from then on, so the first one is not
        // skipped a second time: it has already gone by.
    }
    assert_eq!(tried, 269);
    assert_eq!(
        sweep.chosen,
        Some(Setting { radius: 7, offset: 12, contrast: 14, gamma: 7 })
    );
    assert_eq!(sweep.best.images_with_markers, 3);
    assert_eq!(sweep.evaluated, 270);
}

#[test]
fn a_run_of_edge_pixels_ends_at_a_long_gap() {
    let hits = |s: &str| s.chars().map(|c| c == '#').collect::<Vec<bool>>();
    assert!(longest_run(&hits("........"), false).is_none());
    let r = longest_run(&hits("..####..........#.........."), false).unwrap();
    assert_eq!(r.start, 2);
    // A run that reaches the border is open.
    let r = longest_run(&hits("....######"), false).unwrap();
    assert_eq!((r.start, r.end), (4, None));
}

#[test]
fn vanishing_points_take_their_segments() {
    let mut search: VanishingSearch<char> = VanishingSearch::begin(9, 3);
    let pairs = search.next_pairs().unwrap();
    assert!(!pairs.is_empty() && pairs.len() <= 3000);
    assert!(pairs.iter().all(|(a, b)| *a < 9 && *b < 9 && a != b));
    search.conclude(Some(Supported { candidate: 'a', support: vec![0, 1, 2, 3, 4] }));
    assert_eq!(search.found.len(), 1);
    assert_eq!((search.found[0].point, search.found[0].support), ('a', 5));
    assert_eq!(search.remaining, vec![5, 6, 7, 8]);
    assert!(search.next_pairs().is_some());
    // Too little support ends the search.
    search.conclude(Some(Supported { candidate: 'b', support: vec![5, 6, 7] }));
    assert_eq!(search.found.len(), 1);
    assert!(search.next_pairs().is_none());
    let mut few: VanishingSearch<char> = VanishingSearch::begin(3, 3);
    assert!(few.next_pairs().is_none());
}

/// A picture of edge pixels with the given columns and rows lit.
fn ruled(size: usize, columns: &[usize], rows: &[usize]) -> Vec<u8> {
    let mut edges = vec![0u8; size * size];
    for y in 0..size {
        for x in 0..size {
            if columns.contains(&x) || rows.contains(&y) {
                edges[y * size + x] = 255;
            }
        }
    }
    edges
}

#[test]
fn straight_edges_are_found_as_lines() {
    let columns = [20usize, 60, 100, 140];
    let rows = [30usize, 70, 110, 150];
    let lines = edge_lines(ruled(200, &columns, &rows), 200, 200, 90).unwrap();
    assert_eq!(lines.len(), 8);
    // Upright lines are at no angle, level ones at a right angle; they come in
    // the order of their angles.
    for (line, x) in lines[..4].iter().zip(columns) {
        assert_eq!(line.angle, 0);
        assert!((line.distance - x as i64).abs() <= 1, "{line:?}");
    }
    for (line, y) in lines[4..].iter().zip(rows) {
        assert_eq!(line.angle, 90);
        assert!((line.distance - y as i64).abs() <= 1, "{line:?}");
    }
}

#[test]
fn too_few_lines_are_none() {
    assert!(edge_lines(vec![0; 100 * 100], 100, 100, 8).is_none());
    assert!(edge_lines(ruled(200, &[20, 60], &[30, 70]), 200, 200, 90).is_none());
    assert_eq!(enough(vec![1, 2, 3, 4, 5]), None);
    assert_eq!(enough(vec![1, 2, 3, 4, 5, 6]), Some(vec![1, 2, 3, 4, 5, 6]));
}

/// However small the picture, a line needs a few votes.
#[test]
fn lines_need_votes_and_room() {
    assert_eq!(line_options(8), (30, 5));
    assert_eq!(line_options(30), (30, 5));
    assert_eq!(line_options(90), (90, 5));
    let q = line_request(vec![0, 7, 0, 0, 0, 9], 3, 2, 8);
    assert_eq!((q.edges, q.width, q.height), (vec![0, 7, 0, 0, 0, 9], 3, 2));
    assert_eq!((q.votes, q.radius), (30, 5));
    // A picture whose lines all fall short of the votes asked for has none.
    let picture = ruled(200, &[20, 60, 100, 140], &[30, 70, 110, 150]);
    assert!(edge_lines(picture, 200, 200, 5000).is_none());
}

#[test]
fn an_edge_counts_from_the_pixels_around_it() {
    let mut edges = vec![0u8; 4 * 3];
    edges[1 * 4 + 2] = 9;
    assert!(near_edge(&edges, 4, 3, 2, 1));
    assert!(near_edge(&edges, 4, 3, 3, 2));
    assert!(near_edge(&edges, 4, 3, 1, 0));
    assert!(!near_edge(&edges, 4, 3, 0, 1));
    edges[0] = 9;
    assert!(near_edge(&edges, 4, 3, -1, -1));
    assert!(!near_edge(&edges, 4, 3, -2, 0));
    assert!(!near_edge(&edges, 4, 3, i64::MAX, i64::MIN));
}

#[test]
fn the_middle_focal_length_is_taken() {
    assert_eq!(calibrated(vec![]), None);
    let c = calibrated(vec![9, 1, 5, 7]).unwrap();
    assert_eq!((c.focal, c.num_pairs), (7, 4));
}

#[test]
fn small_systems_are_built_on_one_thread() {
    assert!(!builds_in_parallel(1499, false));
    assert!(builds_in_parallel(1500, false));
    assert!(!builds_in_parallel(1500, true));
}

#[test]
fn a_sweep_that_finds_nothing_warns() {
    assert!(no_markers_note(&Score::of(&vec![0, 0]))
        .unwrap()
        .starts_with("warning: no markers detected under any tested parameters"));
    assert!(no_markers_note(&Score::of(&vec![0, 2])).is_none());
}

/// What is fixed comes out of a run of steps as it went in.
#[test]
fn fixed_variables_stay_where_they_are() {
    let s = assign_slots(3, &[true, false, false], &vec![4, 8], &[false, true]);
    let start = vec![10, 20, 30];
    let first = kept_or_moved(&s.poses, &start, &vec![11, 21, 31]);
    assert_eq!(first, vec![10, 21, 31]);
    let second = kept_or_moved(&s.poses, &first, &vec![12, 22, 32]);
    assert_eq!(second, vec![10, 22, 32]);
    assert_eq!(kept_or_moved(&s.cameras, &vec!['a', 'b'], &vec!['x', 'y']), vec!['x', 'b']);
}

#[test]
fn too_many_markers_are_not_counted() {
    assert_eq!(Score::counted(&vec![3, 0, 4]), Some(Score::of(&vec![3, 0, 4])));
    assert_eq!(Score::counted(&vec![usize::MAX, 1]), None);
    let s = Score::of(&vec![3, 0, 4]);
    assert_eq!(baseline_note(&s, 3), "  baseline: 7 markers across 2/3 images");
}

#[test]
fn a_sweep_is_summed_up() {
    let mut sweep = Sweep::begin(2, None, Score::of(&vec![0, 1])).unwrap();
    assert_eq!(
        swept_note(&sweep, 2),
        "  evaluated 1 combinations; best: 1 markers across 1/2 images (defaults)"
    );
    sweep.take(Score::of(&vec![3, 2]));
    assert_eq!(
        swept_note(&sweep, 2),
        "  evaluated 2 combinations; best: 5 markers across 2/2 images (radius=3, c=4, contrast=1, gamma=1)"
    );
    sweep.chosen = Some(Setting { radius: 21, offset: 25, contrast: 18, gamma: 7 });
    assert!(swept_note(&sweep, 2).ends_with("(radius=21, c=25, contrast=1.8, gamma=0.7)"));
}
