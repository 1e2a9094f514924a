use std::collections::BTreeSet;

use sfmtory::graph::{connected_components, EdgeLink, MatchGraph, VerifiedPair};
use sfmtory::mapinput::ImageRow;
use sfmtory::viewer::{isolated_note, split_note, summary};

fn e(a: usize, b: usize) -> EdgeLink {
    EdgeLink { a, b, inliers: 10 }
}

fn rows(n: u32) -> Vec<ImageRow> {
    (0..n)
        .map(|i| ImageRow { id: 10 + i, camera_id: 1, name: format!("img{i}.jpg") })
        .collect()
}

#[test]
fn components_split_a_disconnected_graph() {
    // 0-1-2 and 3-4, plus an isolated 5.
    let edges = [e(0, 1), e(1, 2), e(3, 4)];
    let c = connected_components(6, &edges);
    assert_eq!(c[0], c[1]);
    assert_eq!(c[1], c[2]);
    assert_eq!(c[3], c[4]);
    assert_ne!(c[0], c[3]);
    assert_ne!(c[0], c[5]);
    assert_ne!(c[3], c[5]);
    assert_eq!(c.iter().copied().max().unwrap() + 1, 3);
}

#[test]
fn a_fully_connected_graph_is_one_component() {
    let edges = [e(0, 1), e(1, 2), e(2, 3), e(3, 0)];
    let c = connected_components(4, &edges);
    assert!(c.iter().all(|&x| x == c[0]));
}

#[test]
fn components_are_numbered_as_they_are_met() {
    assert_eq!(connected_components(5, &[e(4, 1), e(3, 2)]), vec![0, 1, 2, 2, 1]);
    assert_eq!(connected_components(3, &[]), vec![0, 1, 2]);
    assert_eq!(connected_components(0, &[]), Vec::<usize>::new());
}

#[test]
fn the_graph_of_a_project_drops_unknown_images() {
    let images = rows(4);
    let pairs = vec![
        VerifiedPair { image1: 10, image2: 11, inliers: 30 },
        VerifiedPair { image1: 11, image2: 12, inliers: 80 },
        VerifiedPair { image1: 12, image2: 99, inliers: 500 },
    ];
    let registered: BTreeSet<u32> = [10, 11].into_iter().collect();
    let g = MatchGraph::load(&images, &pairs, &registered);
    assert_eq!(g.edges, vec![EdgeLink { a: 0, b: 1, inliers: 30 }, EdgeLink { a: 1, b: 2, inliers: 80 }]);
    assert_eq!(g.max_inliers, 80);
    let degrees: Vec<usize> = g.nodes.iter().map(|n| n.degree).collect();
    assert_eq!(degrees, vec![1, 2, 1, 0]);
    let registered: Vec<bool> = g.nodes.iter().map(|n| n.registered).collect();
    assert_eq!(registered, vec![true, true, false, false]);
    // The largest component comes first.
    assert_eq!(g.components, vec![vec![0, 1, 2], vec![3]]);
    assert_eq!(g.isolated(), vec![3]);

    assert!(split_note(&g)
        .unwrap()
        .starts_with("the match graph is split into 2 components, and 1 image(s) outside"));
    assert_eq!(
        isolated_note(&g, &g.isolated()).unwrap(),
        "1 image(s) have no verified pair at all: img3.jpg"
    );
    assert_eq!(
        summary(&g),
        "4 images  ·  2 verified pairs  ·  2 connected component(s)  ·  2 registered"
    );
}

#[test]
fn a_connected_project_has_nothing_to_warn_about() {
    let pairs = vec![VerifiedPair { image1: 10, image2: 11, inliers: 30 }];
    let g = MatchGraph::load(&rows(2), &pairs, &BTreeSet::new());
    assert_eq!(g.components, vec![vec![0, 1]]);
    assert!(split_note(&g).is_none());
    assert!(isolated_note(&g, &g.isolated()).is_none());
}
