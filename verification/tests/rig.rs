use sfmtory::consensus::{explained, Consensus, Xorshift64};
use sfmtory::mapinput::ImageRow;
use sfmtory::rig::{
    accepted, alignment_samples, backing, backing_note, capture_pairs, captures_note, captures_of_rig, choose_reference,
    contributors, median_error, shared_cameras, Action, CaptureRig, Solver,
};

type Place = [f64; 3];

/// A rig of `n` cameras, with the error as the number whose order is that of
/// the error.
fn rig(capture_id: i64, cameras: u32, error: f64) -> CaptureRig<Place> {
    let images: Vec<(u32, Place)> =
        (0..cameras).map(|i| (i, [i as f64, 0.0, (i % 3) as f64])).collect();
    CaptureRig::from_reconstruction(capture_id, &images, 10, Some(error.to_bits()))
}

/// Which captures are no worse than twice the middle one.
fn acceptable(rigs: &Vec<CaptureRig<Place>>) -> Vec<bool> {
    let median = median_error(rigs).map(f64::from_bits).unwrap_or(f64::MAX);
    rigs.iter()
        .map(|r| r.error.map(f64::from_bits).unwrap_or(f64::INFINITY) <= 2.0 * median)
        .collect()
}

#[test]
fn reference_capture_is_chosen_by_quality_not_only_by_count() {
    let rigs = vec![
        // Most cameras, but a badly-converged reconstruction.
        rig(16, 6, 5.6),
        rig(9, 5, 0.7),
        rig(23, 5, 0.8),
    ];
    let chosen = choose_reference(&rigs, &acceptable(&rigs)).unwrap();
    assert_ne!(rigs[chosen].capture_id, 16, "the 5.6px capture must not be the reference");
}

#[test]
fn a_reference_needs_three_cameras() {
    let none: Vec<CaptureRig<Place>> = Vec::new();
    assert_eq!(
        choose_reference(&none, &vec![]).unwrap_err().message(),
        "no capture produced a reconstruction"
    );
    let small = vec![rig(1, 2, 0.5)];
    assert_eq!(
        choose_reference(&small, &vec![true]).unwrap_err().message(),
        "the best capture registered only 2 camera(s); at least 3 are needed to align captures to each other"
    );
    // With no acceptable capture the largest is taken all the same, and of
    // equals the last.
    let rigs = vec![rig(1, 4, 0.5), rig(2, 5, 0.5), rig(3, 5, 0.5)];
    assert_eq!(choose_reference(&rigs, &vec![false, false, false]).unwrap(), 2);
}

#[test]
fn a_camera_keeps_its_last_place() {
    let images: Vec<(u32, u8)> = vec![(7, 1), (3, 2), (7, 3)];
    let r = CaptureRig::from_reconstruction(5, &images, 10, None);
    assert_eq!(r.cameras, vec![3, 7]);
    assert_eq!(r.places, vec![2, 3]);
}

#[test]
fn captures_are_pooled_around_the_reference() {
    let rigs = vec![rig(0, 4, 0.5), rig(1, 4, 0.5), rig(2, 2, 0.5), rig(3, 4, 0.5)];
    let mut solver = Solver::begin(&rigs, 0);
    assert!(matches!(solver.step(&rigs, 3), Action::Next));
    assert_eq!(solver.pooled.len(), 4);
    // Capture 1 is aligned, keeping three of its four cameras.
    assert!(matches!(solver.step(&rigs, 3), Action::Align(1)));
    assert_eq!(solver.shared, Some(vec![0, 1, 2, 3]));
    solver.aligned(&rigs, Some(&vec![0, 1, 3]));
    assert_eq!(solver.agreement.len(), 1);
    assert_eq!((solver.agreement[0].inliers, solver.agreement[0].shared), (3, 4));
    // Capture 2 shares too little.
    assert!(matches!(solver.step(&rigs, 3), Action::Next));
    assert_eq!(
        solver.skipped[0].reason,
        "shares only 2 camera(s) with the reference; needs 3"
    );
    // Capture 3 cannot be aligned.
    assert!(matches!(solver.step(&rigs, 3), Action::Align(3)));
    solver.aligned(&rigs, None);
    assert_eq!(solver.skipped[1].reason, "cameras are degenerate (collinear?)");
    assert!(matches!(solver.step(&rigs, 3), Action::Done));

    let counts: Vec<(u32, usize)> =
        solver.cameras(&rigs).iter().map(|g| (g.key, g.values.len())).collect();
    assert_eq!(counts, vec![(0, 2), (1, 2), (2, 1), (3, 2)]);
}

#[test]
fn contributors_are_the_cameras_that_agree() {
    assert_eq!(shared_cameras(&vec![1, 2, 5], &vec![5, 1]), vec![1, 5]);
    // Camera 5 was compared and disagreed; camera 9 was never compared.
    assert_eq!(contributors(&vec![1, 5, 9], &vec![1, 5], &vec![0]), vec![0]);
}

#[test]
fn samples_are_three_different_cameras() {
    assert!(alignment_samples(2).is_empty());
    let samples = alignment_samples(5);
    assert!(!samples.is_empty());
    assert!(samples.iter().all(|s| s.a != s.b && s.b != s.c && s.a != s.c));
    assert!(samples.iter().all(|s| s.a < 5 && s.b < 5 && s.c < 5));
    // The same every time.
    assert_eq!(samples, alignment_samples(5));
}

#[test]
fn the_first_largest_support_wins() {
    let mut c = Consensus::new();
    c.offer('a', vec![1, 2]);
    c.offer('b', vec![1, 2, 3]);
    c.offer('c', vec![4, 5, 6]);
    let best = accepted(c).unwrap();
    assert_eq!((best.candidate, best.support), ('b', vec![1, 2, 3]));
    let mut thin = Consensus::new();
    thin.offer('a', vec![1, 2]);
    assert!(accepted(thin).is_none());
    assert_eq!(explained(&vec![true, false, true]), vec![0, 2]);
}

#[test]
fn the_generator_steps_by_shifts() {
    let mut r = Xorshift64 { state: 1 };
    // 1 ^ 1 << 13, then >> 7, then << 17.
    assert_eq!(r.next(), 1082269761);
    assert_eq!(r.state, 1082269761);
    assert_eq!(r.below(0), 0);
    assert_eq!(r.state, 1082269761);
    for n in 1..50 {
        assert!(r.below(n) < n);
    }
    assert_ne!(r.state, 0);
}

#[test]
fn a_rig_needs_captures_and_pairs() {
    let message = |captures: Vec<i64>, pairs: usize| {
        captures_of_rig(&captures, pairs).unwrap_err().message()
    };
    assert_eq!(
        message(vec![], 1),
        "no images in the project database; run `sfmtory feature` first"
    );
    assert!(message(vec![-1, -1], 1).contains("--merge-multicaps"));
    assert_eq!(
        message(vec![3, 3], 1),
        "a rig needs at least two captures to have anything to cross-check; this project has one"
    );
    assert_eq!(
        message(vec![3, 4], 0),
        "no verified image pairs; run `sfmtory match` first"
    );
    let groups = captures_of_rig(&vec![4, 3, 4], 1).unwrap();
    let shown: Vec<(i64, Vec<usize>)> =
        groups.iter().map(|g| (g.key, g.values.clone())).collect();
    assert_eq!(shown, vec![(3, vec![1]), (4, vec![0, 2])]);
}

#[test]
fn pairs_are_placed_among_the_images_of_a_capture() {
    let images: Vec<ImageRow> = [5, 8]
        .iter()
        .map(|id| ImageRow { id: *id, camera_id: 1, name: String::new() })
        .collect();
    let placed = capture_pairs(&images, &vec![(5, 9), (8, 5)]);
    let shown: Vec<(usize, usize, usize)> = placed.iter().map(|p| (p.pair, p.i, p.j)).collect();
    assert_eq!(shown, vec![(1, 1, 0)]);
}

#[test]
fn backing_tells_how_often_a_camera_was_seen() {
    let b = backing(vec![5, 1, 3], 8);
    assert_eq!(b.median, 3);
    assert!(b.partial);
    assert!(!backing(vec![5, 5], 5).partial);
}

#[test]
fn a_partly_backed_rig_is_said_to_be_one() {
    let b = backing(vec![5, 1, 3], 8);
    let lines = backing_note(&b, 8, 3);
    assert_eq!(
        lines[0],
        "  backed by: median 3 of 8 captures; 2/3 cameras agreed across 3 or more"
    );
    assert_eq!(lines.len(), 2);
    assert!(lines[1].starts_with("  NOTE: most cameras agreed in fewer than half the captures"));
    assert!(lines[1].ends_with("Treat it as a lower bound on the real uncertainty."));
    assert_eq!(backing_note(&backing(vec![5, 5], 5), 5, 2).len(), 1);
}

#[test]
fn a_capture_without_an_error_does_not_set_the_median() {
    let rigs = vec![rig(0, 4, 0.0), rig(1, 4, 0.0), rig(2, 4, 1.0), rig(3, 5, 1.5)];
    assert_eq!(median_error(&rigs).map(f64::from_bits), Some(1.5));
    assert_eq!(choose_reference(&rigs, &acceptable(&rigs)).unwrap(), 3);
    assert_eq!(median_error(&vec![rig(0, 4, 0.0)]), None);
}

#[test]
fn captures_are_announced() {
    assert_eq!(
        captures_note(12, 3),
        "12 images across 3 capture(s); reconstructing each on its own"
    );
}
