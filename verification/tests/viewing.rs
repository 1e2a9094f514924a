use sfmtory::imageview::texture;
use sfmtory::raster::{pick_point, render, Splat};
use sfmtory::viewer::{by_name, layout_state, listed_entries, nearest, Entry, Named, Pane, Selection};

fn splat(x: i64, y: i64, depth: u64, shade: u8) -> Option<Splat> {
    Some(Splat { x, y, depth, color: (shade, shade, shade) })
}

#[test]
fn the_nearest_splat_covers_the_others() {
    let points = vec![splat(2, 2, 50, 10), splat(2, 2, 20, 20), None, splat(2, 2, 90, 30)];
    let f = render(&points, 0, 5, 4, (1, 2, 3));
    assert_eq!((f.width, f.height), (5, 4));
    assert_eq!(f.point_at[2 * 5 + 2], Some(1));
    let at = 4 * (2 * 5 + 2);
    assert_eq!(f.rgba[at..at + 4], [20, 20, 20, 255]);
    assert_eq!(f.rgba[0..4], [1, 2, 3, 255]);
    assert_eq!(f.point_at.iter().filter(|p| p.is_some()).count(), 1);
}

#[test]
fn splats_are_clipped_to_the_frame() {
    let f = render(&vec![splat(0, 0, 5, 9), splat(-50, 2, 5, 9)], 1, 3, 3, (0, 0, 0));
    assert_eq!(f.point_at[0], Some(0));
    assert!(f.point_at.iter().flatten().all(|p| *p == 0));
}

#[test]
fn a_click_picks_the_closest_point() {
    let f = render(&vec![splat(2, 2, 5, 9), splat(6, 2, 5, 9)], 0, 12, 12, (0, 0, 0));
    assert_eq!(pick_point(&f, 5, 2), Some(1));
    assert_eq!(pick_point(&f, 3, 3), Some(0));
    assert_eq!(pick_point(&f, 11, 11), None);
    assert_eq!(pick_point(&f, -3, 2), None);
}

#[test]
fn a_click_selects_a_camera_before_a_point() {
    let mut s = Selection::open(Pane::Scene3d, 3);
    assert_eq!((s.image, s.point), (None, None));
    assert!(s.click(Some(2), Some(7)));
    assert_eq!((s.image, s.point), (Some(2), None));
    assert!(!s.click(Some(2), None));
    // A point is picked beside the camera; empty space clears both.
    assert!(!s.click(None, Some(7)));
    assert_eq!((s.image, s.point), (Some(2), Some(7)));
    assert!(!s.click(None, None));
    assert_eq!((s.image, s.point), (None, None));
    assert!(s.select_image(1));
    assert!(!s.select_image(1));
    assert_eq!(Selection::open(Pane::Image, 3).image, Some(0));
    assert_eq!(Selection::open(Pane::Image, 0).image, None);
}

#[test]
fn the_first_of_the_nearest_is_taken() {
    assert_eq!(nearest(&vec![5, 2, 9, 2]), Some(1));
    assert_eq!(nearest(&vec![]), None);
}

#[test]
fn lists_are_in_the_order_of_names() {
    let named = |name: &str, place: usize| Named { name: name.to_string(), place };
    let sorted = by_name(vec![named("b", 0), named("a", 1), named("b", 2)]);
    let places: Vec<usize> = sorted.iter().map(|n| n.place).collect();
    assert_eq!(places, vec![1, 0, 2]);
    let entry = |name: &str, is_dir: bool| Entry { name: name.to_string(), is_dir };
    let shown: Vec<String> =
        listed_entries(vec![entry("a.jpg", false), entry("z", true), entry("b", true)], 0)
            .iter()
            .map(|e| e.name.clone())
            .collect();
    // Directories come first.
    assert_eq!(shown, vec!["b", "z", "a.jpg"]);
    assert!(listed_entries(vec![entry("b", true)], 7).is_empty());
}

#[test]
fn a_large_picture_is_reduced_before_it_is_shown() {
    // One colour stays that colour at any size.
    let row: Vec<u8> = [10u8, 20, 30, 255].repeat(4000 * 2);
    let t = texture(row, 4000, 2, (2000, 1));
    assert_eq!((t.width, t.height), (2000, 1));
    assert_eq!(t.rgba, [10u8, 20, 30, 255].repeat(2000));
    // An edge is never reduced to nothing.
    let t = texture(vec![7; 4 * 2001], 2001, 1, (2000, 0));
    assert_eq!((t.width, t.height), (2000, 1));
    assert_eq!(t.rgba.len(), 4 * 2000);
}

#[test]
fn a_small_picture_is_shown_as_it_is() {
    let t = texture(vec![1, 2, 3, 4, 5, 6, 7, 8], 2, 1, (9, 9));
    assert_eq!((t.width, t.height), (2, 1));
    assert_eq!(t.rgba, vec![1, 2, 3, 4, 5, 6, 7, 8]);
    let t = texture(vec![3; 4 * 2000], 2000, 1, (5, 5));
    assert_eq!((t.width, t.height), (2000, 1));
}

#[test]
fn the_state_of_a_layout_is_shown() {
    assert_eq!(layout_state(false, true), "no [layout] declared - the usual case");
    assert_eq!(layout_state(true, true), "[layout] declared, link tree built");
    assert_eq!(layout_state(true, false), "[layout] declared but not linked yet - run Link");
}
