//! What discovery makes of a linked tree: exactly the plan that the tree was
//! built from.

use vstd::prelude::*;

use crate::dataset;
use crate::dataset::{Dir, ImageModel, Layout};
use crate::layout;
use crate::layout::{Layer, Path, PlacedModel, Plan, Resolved};
use crate::listing;
use crate::order;
use crate::text;

verus! {

// ---------------------------------------------------------------------------
// The tree of a plan
// ---------------------------------------------------------------------------

/// The path of a file two directories down.
pub open spec fn path_in(dir: Dir, i: int, j: int, f: int) -> Seq<char> {
    listing::nested_path(
        dir.dirs@[i].name@,
        dir.dirs@[i].dirs@[j].name@,
        dir.dirs@[i].dirs@[j].files@[f]@,
    )
}

/// Whether a file two directories down is listed.
pub open spec fn is_within(dir: Dir, i: int, j: int, f: int) -> bool {
    0 <= i < dir.dirs@.len() && 0 <= j < dir.dirs@[i].dirs@.len() && 0 <= f
        < dir.dirs@[i].dirs@[j].files@.len()
}

/// A tree in which exactly the given links stand, each two directories down,
/// and no directory without one.
pub open spec fn is_tree_of(dir: Dir, links: Seq<Seq<char>>) -> bool {
    &&& listing::plainly_named(dir)
    &&& forall|i: int, j: int, f: int| #[trigger]
        is_within(dir, i, j, f) ==> links.contains(path_in(dir, i, j, f))
    &&& forall|k: int|
        0 <= k < links.len() ==> exists|i: int, j: int, f: int|
            is_within(dir, i, j, f) && (#[trigger] links[k]) == #[trigger] path_in(dir, i, j, f)
    &&& forall|i: int| 0 <= i < dir.dirs@.len() ==> (#[trigger] dir.dirs@[i]).dirs@.len() > 0
    &&& forall|i: int, j: int|
        0 <= i < dir.dirs@.len() && 0 <= j < dir.dirs@[i].dirs@.len() ==> (
        #[trigger] dir.dirs@[i].dirs@[j]).files@.len() > 0
}

/// The links of a plan.
pub open spec fn links_of(p: Plan) -> Seq<Seq<char>> {
    layout::placed_models(p.placed@).map_values(|m: PlacedModel| m.link)
}

/// The name of an image and the ids that it was found with.
pub open spec fn found_as(m: ImageModel) -> (Seq<char>, u32, u32) {
    (m.name, m.capture_id, m.camera_id)
}

/// The link of an image and the ids that it was given.
pub open spec fn placed_as(m: PlacedModel) -> (Seq<char>, u32, u32) {
    (m.link, m.capture_id, m.camera_id)
}

// ---------------------------------------------------------------------------
// The images of a plan
// ---------------------------------------------------------------------------

proof fn lemma_tree_paths(dir: Dir, prefix: Path, i: int)
    requires
        0 <= i < layout::tree_paths(dir, prefix).len(),
    ensures
        layout::tree_paths(dir, prefix)[i].len() > 0,
        dataset::names_an_image(layout::tree_paths(dir, prefix)[i].last()),
    decreases dir, dir.dirs@.len() + 1,
{
    let files = layout::file_paths(dir.files@, prefix);
    if i < files.len() {
        let images = dataset::images_among(dir.files@);
        let j = listing::lemma_is_among(dir.files@, i);
        assert(files[i] == prefix.push(images[i]@));
    } else {
        lemma_subtree_paths(dir, prefix, dir.dirs@.len(), i - files.len());
    }
}

proof fn lemma_subtree_paths(dir: Dir, prefix: Path, n: nat, i: int)
    requires
        n <= dir.dirs@.len(),
        0 <= i < layout::subtree_paths(dir, prefix, n).len(),
    ensures
        layout::subtree_paths(dir, prefix, n)[i].len() > 0,
        dataset::names_an_image(layout::subtree_paths(dir, prefix, n)[i].last()),
    decreases dir, n,
{
    let front = layout::subtree_paths(dir, prefix, (n - 1) as nat);
    if i < front.len() {
        lemma_subtree_paths(dir, prefix, (n - 1) as nat, i);
    } else {
        let sub = dir.dirs@[n - 1];
        lemma_tree_paths(sub, prefix.push(sub.name@), i - front.len());
    }
}

proof fn lemma_paths_are_ordered()
    ensures
        order::orders(layout::by_path()),
{
    let less = layout::by_path();
    assert forall|a: Path| !#[trigger] less(a, a) by {
        order::paths_are_totally_ordered(a, a, a);
    }
    assert forall|a: Path, b: Path, c: Path| #[trigger] less(a, b) && #[trigger] less(
        b,
        c,
    ) implies less(a, c) by {
        order::paths_are_totally_ordered(a, b, c);
    }
    assert forall|a: Path, b: Path, c: Path| !(#[trigger] less(a, b)) && !(#[trigger] less(
        b,
        c,
    )) implies !less(a, c) by {
        order::paths_are_totally_ordered(a, b, c);
        order::paths_are_totally_ordered(a, c, b);
        order::paths_are_totally_ordered(c, b, a);
    }
}

/// Every image that a plan places is one by its name.
proof fn lemma_images_in(dir: Dir, k: int)
    requires
        0 <= k < layout::images_in(dir).len(),
    ensures
        layout::images_in(dir)[k].len() > 0,
        dataset::names_an_image(layout::images_in(dir)[k].last()),
{
    broadcast use vstd::seq_lib::group_to_multiset_ensures;

    let all = layout::tree_paths(dir, Seq::empty());
    let images = layout::images_in(dir);
    lemma_paths_are_ordered();
    order::sorted_by_is_an_ordered_permutation(all, layout::by_path());
    assert(images.contains(images[k]));
    assert(images.to_multiset().count(images[k]) > 0);
    assert(all.contains(images[k]));
    let i = choose|i: int| 0 <= i < all.len() && all[i] == images[k];
    lemma_tree_paths(dir, Seq::empty(), i);
}

// ---------------------------------------------------------------------------
// Names and ids
// ---------------------------------------------------------------------------

proof fn lemma_no_slash(id: u32)
    ensures
        !layout::capture_dir(id).contains('/'),
        !layout::camera_dir(id).contains('/'),
{
    reveal_strlit("capture_");
    reveal_strlit("cam");
    text::padded_reads_back(id as nat, 3);
}

proof fn lemma_link_at(dir: Dir, r: Resolved, links: Seq<Seq<char>>, i: int, j: int, f: int) -> (k:
    int)
    requires
        links == Seq::new(r.paths.len(), |k: int| layout::link_of(r, k)),
        is_tree_of(dir, links),
        is_within(dir, i, j, f),
    ensures
        0 <= k < r.paths.len(),
        links[k] == path_in(dir, i, j, f),
        dir.dirs@[i].name@ == layout::capture_dir(r.captures[k]),
        dir.dirs@[i].dirs@[j].name@ == layout::camera_dir(r.cameras[k]),
        dir.dirs@[i].dirs@[j].files@[f]@ == r.paths[k].last(),
{
    let path = path_in(dir, i, j, f);
    assert(links.contains(path));
    let k = choose|k: int| 0 <= k < links.len() && links[k] == path;
    lemma_no_slash(r.captures[k]);
    lemma_no_slash(r.cameras[k]);
    assert(listing::plain_dirs(dir.dirs@[i]));
    listing::lemma_nested_paths(
        dir.dirs@[i].name@,
        dir.dirs@[i].dirs@[j].name@,
        dir.dirs@[i].dirs@[j].files@[f]@,
        layout::capture_dir(r.captures[k]),
        layout::camera_dir(r.cameras[k]),
        r.paths[k].last(),
    );
    k
}

proof fn lemma_capture_id(dir: Dir, r: Resolved, links: Seq<Seq<char>>, p: int)
    requires
        links == Seq::new(r.paths.len(), |k: int| layout::link_of(r, k)),
        is_tree_of(dir, links),
        0 <= p < dataset::dirs_of(dir).len(),
    ensures
        forall|c: u32|
            dataset::dirs_of(dir)[p].name@ == #[trigger] layout::capture_dir(c) ==> dataset::ids_of(
                dataset::names_of(dataset::dirs_of(dir)),
            )[p] == c,
{
    let names = dataset::names_of(dataset::dirs_of(dir));
    dataset::lemma_sorted_names_distinct(dir);
    assert forall|q: int| 0 <= q < names.len() implies layout::is_dir_for(
        true,
        #[trigger] names[q],
    ) by {
        let i = dataset::lemma_is_listed(dir, q);
        assert(dir.dirs@[i].dirs@[0].files@.len() > 0);
        assert(is_within(dir, i, 0, 0));
        let k = lemma_link_at(dir, r, links, i, 0, 0);
        assert(names[q] == layout::dir_for(true, r.captures[k]));
    }
    layout::lemma_ids_of_linked(names, true);
    let id = dataset::ids_of(names)[p];
    assert(names[p] == layout::dir_for(true, id));
    layout::linked_names_carry_their_ids(id);
    assert forall|c: u32| names[p] == #[trigger] layout::capture_dir(c) implies id == c by {
        layout::linked_names_carry_their_ids(c);
    }
}

proof fn lemma_camera_id(dir: Dir, r: Resolved, links: Seq<Seq<char>>, i: int, q: int)
    requires
        links == Seq::new(r.paths.len(), |k: int| layout::link_of(r, k)),
        is_tree_of(dir, links),
        0 <= i < dir.dirs@.len(),
        0 <= q < dataset::dirs_of(dir.dirs@[i]).len(),
    ensures
        forall|c: u32|
            dataset::dirs_of(dir.dirs@[i])[q].name@ == #[trigger] layout::camera_dir(c)
                ==> dataset::ids_of(dataset::names_of(dataset::dirs_of(dir.dirs@[i])))[q] == c,
{
    let cap = dir.dirs@[i];
    let names = dataset::names_of(dataset::dirs_of(cap));
    assert(listing::plain_dirs(dir.dirs@[i]));
    dataset::lemma_sorted_names_distinct(cap);
    assert forall|s: int| 0 <= s < names.len() implies layout::is_dir_for(
        false,
        #[trigger] names[s],
    ) by {
        let j = dataset::lemma_is_listed(cap, s);
        assert(dir.dirs@[i].dirs@[j].files@.len() > 0);
        assert(is_within(dir, i, j, 0));
        let k = lemma_link_at(dir, r, links, i, j, 0);
        assert(names[s] == layout::dir_for(false, r.cameras[k]));
    }
    layout::lemma_ids_of_linked(names, false);
    let id = dataset::ids_of(names)[q];
    assert(names[q] == layout::dir_for(false, id));
    layout::linked_names_carry_their_ids(id);
    assert forall|c: u32| names[q] == #[trigger] layout::camera_dir(c) implies id == c by {
        layout::linked_names_carry_their_ids(c);
    }
}

// ---------------------------------------------------------------------------
// Reading the tree back
// ---------------------------------------------------------------------------

/// What is found in the tree was placed by the plan.
proof fn lemma_found_is_placed(
    root: Seq<char>,
    dir: Dir,
    r: Resolved,
    links: Seq<Seq<char>>,
    a: int,
) -> (k: int)
    requires
        links == Seq::new(r.paths.len(), |k: int| layout::link_of(r, k)),
        is_tree_of(dir, links),
        dataset::is_nested(dir),
        0 <= a < dataset::discovered(root, dir).len(),
    ensures
        0 <= k < r.paths.len(),
        found_as(dataset::discovered(root, dir)[a]) == (
            layout::link_of(r, k),
            r.captures[k],
            r.cameras[k],
        ),
{
    let caps = dataset::dirs_of(dir);
    let (p, q, f) = listing::lemma_comes_from(root, dir, a);
    let i = dataset::lemma_is_listed(dir, p);
    let j = dataset::lemma_is_listed(dir.dirs@[i], q);
    let g = listing::lemma_is_file(dir.dirs@[i].dirs@[j], f);
    assert(is_within(dir, i, j, g));
    let k = lemma_link_at(dir, r, links, i, j, g);
    assert(listing::plain_dirs(dir.dirs@[i]));
    assert(listing::plain_files(dir.dirs@[i].dirs@[j]));
    listing::lemma_nested_name(
        dir.dirs@[i].name@,
        dir.dirs@[i].dirs@[j].name@,
        dir.dirs@[i].dirs@[j].files@[g]@,
    );
    lemma_capture_id(dir, r, links, p);
    lemma_camera_id(dir, r, links, i, q);
    k
}

/// What the plan placed is found in the tree.
proof fn lemma_placed_is_found(
    root: Seq<char>,
    dir: Dir,
    r: Resolved,
    links: Seq<Seq<char>>,
    k: int,
) -> (a: int)
    requires
        links == Seq::new(r.paths.len(), |k: int| layout::link_of(r, k)),
        is_tree_of(dir, links),
        0 <= k < r.paths.len(),
        dataset::names_an_image(r.paths[k].last()),
    ensures
        dataset::is_nested(dir),
        0 <= a < dataset::discovered(root, dir).len(),
        found_as(dataset::discovered(root, dir)[a]) == (
            layout::link_of(r, k),
            r.captures[k],
            r.cameras[k],
        ),
{
    let (i, j, g) = choose|i: int, j: int, g: int|
        is_within(dir, i, j, g) && links[k] == #[trigger] path_in(dir, i, j, g);
    lemma_no_slash(r.captures[k]);
    lemma_no_slash(r.cameras[k]);
    assert(listing::plain_dirs(dir.dirs@[i]));
    assert(listing::plain_files(dir.dirs@[i].dirs@[j]));
    listing::lemma_nested_paths(
        dir.dirs@[i].name@,
        dir.dirs@[i].dirs@[j].name@,
        dir.dirs@[i].dirs@[j].files@[g]@,
        layout::capture_dir(r.captures[k]),
        layout::camera_dir(r.cameras[k]),
        r.paths[k].last(),
    );
    let p = dataset::lemma_is_sorted_in(dir, i);
    let q = dataset::lemma_is_sorted_in(dir.dirs@[i], j);
    let f = listing::lemma_is_image(dir.dirs@[i].dirs@[j], g);
    dataset::lemma_images_of_len(dir.dirs@[i].dirs@[j]);
    assert(dataset::images_among(dir.dirs@[i].dirs@[j].files@).len() > 0);
    let a = listing::lemma_is_discovered(root, dir, p, q, f);
    listing::lemma_nested_name(
        dir.dirs@[i].name@,
        dir.dirs@[i].dirs@[j].name@,
        dir.dirs@[i].dirs@[j].files@[g]@,
    );
    lemma_capture_id(dir, r, links, p);
    lemma_camera_id(dir, r, links, i, q);
    a
}

/// Discovery reads the tree of a plan back as exactly that plan: each image
/// under the name of its link, with the capture and the camera that the plan
/// gave it, and no other image.
pub proof fn applied_plans_read_back(
    source: Seq<char>,
    tree: Dir,
    layers: Seq<Layer>,
    plan: Plan,
    root: Seq<char>,
    dir: Dir,
)
    requires
        layout::plan_failure(source, Some(tree), layers) is None,
        layout::is_plan(plan, layout::resolve(layout::images_in(tree), layers), source),
        is_tree_of(dir, links_of(plan)),
        dataset::countable(dir),
    ensures
        dataset::layout_of(root, dir) == Layout::CapturesAndCameras,
        dataset::discovered(root, dir).map_values(
            |m: ImageModel| found_as(m),
        ).to_multiset() == layout::placed_models(plan.placed@).map_values(
            |m: PlacedModel| placed_as(m),
        ).to_multiset(),
{
    let r = layout::resolve(layout::images_in(tree), layers);
    let links = links_of(plan);
    let placed = layout::placed_models(plan.placed@);
    let all = dataset::discovered(root, dir);
    let found = all.map_values(|m: ImageModel| found_as(m));
    let given = placed.map_values(|m: PlacedModel| placed_as(m));
    assert(links =~= Seq::new(r.paths.len(), |k: int| layout::link_of(r, k)));
    lemma_images_in(tree, 0);
    let first = lemma_placed_is_found(root, dir, r, links, 0);
    listing::images_have_distinct_names(root, dir);
    assert(found.no_duplicates()) by {
        assert forall|a: int, b: int| 0 <= a < found.len() && 0 <= b < found.len() && a
            != b implies found[a] != found[b] by {
            assert(found[a].0 == all[a].name);
            assert(found[b].0 == all[b].name);
            if a < b {
                assert(all[a].name != all[b].name);
            } else {
                assert(all[b].name != all[a].name);
            }
        }
    }
    assert(given.no_duplicates()) by {
        assert forall|a: int, b: int| 0 <= a < given.len() && 0 <= b < given.len() && a
            != b implies given[a] != given[b] by {
            if a < b {
                layout::plans_have_no_collisions(r, source, layers, a, b);
            } else {
                layout::plans_have_no_collisions(r, source, layers, b, a);
            }
        }
    }
    assert forall|x: (Seq<char>, u32, u32)| #[trigger] found.contains(x) <==> given.contains(x) by {
        if found.contains(x) {
            let a = choose|a: int| 0 <= a < found.len() && found[a] == x;
            let k = lemma_found_is_placed(root, dir, r, links, a);
            assert(given[k] == x);
        }
        if given.contains(x) {
            let k = choose|k: int| 0 <= k < given.len() && given[k] == x;
            lemma_images_in(tree, k);
            let a = lemma_placed_is_found(root, dir, r, links, k);
            assert(found[a] == x);
        }
    }
    order::lemma_same_multiset(found, given);
}

} // verus!
