use sfmtory::graph::VerifiedPair;
use sfmtory::stages::{
    check_detector, check_images, check_mapped, check_matching, corners_file, fallback_note, gpu_note,
    matched_note, matching_gpu_note, reference_text, tally_matches, transforms_file, tuning_for, Detector, Matched, Matcher,
    Pairing, Tuning,
};

#[test]
fn missing_detectors_are_refused() {
    for d in [Detector::Sift, Detector::Orb, Detector::Aruco, Detector::Disk] {
        assert!(check_detector(d).is_ok());
    }
    assert_eq!(
        check_detector(Detector::Akaze).unwrap_err().message(),
        "detector Akaze is not implemented yet (see PLAN.md); available now: sift, orb, aruco, disk"
    );
    assert!(check_detector(Detector::Superpoint).is_err());
    assert_eq!(
        gpu_note(Detector::Orb, true).unwrap(),
        "note: --gpu has no effect for Orb (classical CPU detector); GPU is used for the learned `disk` detector"
    );
    assert!(gpu_note(Detector::Disk, true).is_none());
    assert!(gpu_note(Detector::Orb, false).is_none());
}

#[test]
fn only_fiducials_are_tuned() {
    assert_eq!(tuning_for(Detector::Aruco, true, true).unwrap(), Tuning::Search);
    assert_eq!(tuning_for(Detector::Aruco, false, true).unwrap(), Tuning::Saved);
    assert_eq!(tuning_for(Detector::Aruco, false, false).unwrap(), Tuning::Defaults);
    assert_eq!(tuning_for(Detector::Sift, false, true).unwrap(), Tuning::Defaults);
    assert_eq!(
        tuning_for(Detector::Sift, true, true).unwrap_err().message(),
        "--find-params applies to `--detector aruco` only"
    );
}

#[test]
fn corners_are_written_under_a_heading() {
    assert!(corners_file(&vec![]).is_none());
    assert_eq!(
        corners_file(&vec!["a".to_string(), "b".to_string()]).unwrap(),
        "feature_id,image_id,image_name,x,y\na\nb\n"
    );
}

#[test]
fn missing_matchers_and_pairings_are_refused() {
    for p in [Pairing::Exhaustive, Pairing::Sequential, Pairing::VocabTree, Pairing::WithinCapture] {
        assert!(check_matching(Matcher::MnnRatio, p).is_ok());
    }
    assert_eq!(
        check_matching(Matcher::Lightglue, Pairing::Spatial).unwrap_err().message(),
        "matcher Lightglue is not implemented yet (see PLAN.md); available now: mnn-ratio"
    );
    assert_eq!(
        check_matching(Matcher::MnnRatio, Pairing::Aruco).unwrap_err().message(),
        "pairing Aruco is not implemented yet (see PLAN.md); available now: exhaustive, sequential, vocab-tree, within-capture"
    );
    assert!(check_images(2).is_ok());
    assert_eq!(
        check_images(1).unwrap_err().message(),
        "need at least 2 images with extracted features to match; run `sfm extract` first"
    );
}

#[test]
fn verified_pairs_are_counted() {
    let results = vec![
        Some(Matched { i: 0, j: 2, inliers: 40 }),
        None,
        Some(Matched { i: 1, j: 2, inliers: 2 }),
    ];
    let t = tally_matches(&vec![7, 8, 9], &results);
    assert_eq!(t.total_inliers, 42);
    assert_eq!(
        t.pairs,
        vec![
            VerifiedPair { image1: 7, image2: 9, inliers: 40 },
            VerifiedPair { image1: 8, image2: 9, inliers: 2 },
        ]
    );
}

#[test]
fn a_reconstruction_needs_an_image() {
    assert!(check_mapped(1).is_ok());
    assert_eq!(
        check_mapped(0).unwrap_err().message(),
        "reconstruction failed to register any images; check `sfm match` results (too few/weak verified pairs?)"
    );
}

#[test]
fn poses_are_exported_to_a_file() {
    assert_eq!(transforms_file("/out/poses.json"), "/out/poses.json");
    assert_eq!(transforms_file("/out"), "/out/transforms.json");
}

#[test]
fn a_reference_focal_is_the_first_word_of_its_file() {
    assert_eq!(reference_text("k.txt", Some("\n 812.5 0 320\n")).unwrap(), "812.5");
    assert_eq!(
        reference_text("k.txt", Some(" \n")).unwrap_err().message(),
        "--gt-focal file is empty"
    );
    assert_eq!(
        reference_text("k.txt", None).unwrap_err().message(),
        "--gt-focal: k.txt is neither a number nor a readable file"
    );
}

#[test]
fn stage_options_are_read_by_name() {
    assert_eq!(Detector::named("sift"), Some(Detector::Sift));
    assert_eq!(Detector::named("akaze"), Some(Detector::Akaze));
    assert_eq!(Detector::named("orb"), Some(Detector::Orb));
    assert_eq!(Detector::named("superpoint"), Some(Detector::Superpoint));
    assert_eq!(Detector::named("disk"), Some(Detector::Disk));
    assert_eq!(Detector::named("aruco"), Some(Detector::Aruco));
    assert_eq!(Detector::named("Sift"), None);
    assert_eq!(Pairing::named("exhaustive"), Some(Pairing::Exhaustive));
    assert_eq!(Pairing::named("sequential"), Some(Pairing::Sequential));
    assert_eq!(Pairing::named("spatial"), Some(Pairing::Spatial));
    assert_eq!(Pairing::named("vocab-tree"), Some(Pairing::VocabTree));
    assert_eq!(Pairing::named("aruco"), Some(Pairing::Aruco));
    assert_eq!(Pairing::named("within-capture"), Some(Pairing::WithinCapture));
    assert_eq!(Pairing::named("vocabtree"), None);
    assert_eq!(Matcher::named("mnn-ratio"), Some(Matcher::MnnRatio));
    assert_eq!(Matcher::named("lightglue"), Some(Matcher::Lightglue));
    assert_eq!(Matcher::named(""), None);
}

#[test]
fn the_matcher_says_that_it_uses_no_graphics_processor() {
    assert_eq!(
        matching_gpu_note(true),
        Some("note: --gpu has no effect for mnn-ratio (classical CPU matcher); GPU is used once LightGlue is implemented")
    );
    assert_eq!(matching_gpu_note(false), None);
}

#[test]
fn a_matching_run_is_summed_up() {
    let t = tally_matches(&vec![7, 8], &vec![Some(Matched { i: 0, j: 1, inliers: 42 }), None]);
    assert_eq!(
        matched_note(&t, 2, "/p/log.json"),
        "Verified 1/2 pairs, 42 inlier matches total. Logged to /p/log.json."
    );
    assert!(fallback_note().ends_with("falling back to exhaustive pairing"));
}
