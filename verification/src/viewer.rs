//! What the viewer decides: what is selected, in which order things are listed,
//! and what is said of a match graph, a capture and a layout.

use vstd::prelude::*;

use crate::error::SfmError;
use crate::graph::{MatchGraph, Node};
use crate::model::Image;
use crate::order;
use crate::order::{push_text, sort, text_before, Sortable};
use crate::paths;
use crate::paths::join_text;
use crate::sets;
use crate::text;
use crate::text::{contains_text, decimal_string, is_blank};

verus! {

/// What the central panel shows.
#[derive(Debug, Clone, Copy, PartialEq, Eq, Structural)]
pub enum Pane {
    Scene3d,
    Image,
    Graph,
    Coverage,
}

// ---------------------------------------------------------------------------
// Selection
// ---------------------------------------------------------------------------

/// The selected image and point.
#[derive(Debug, Clone, Copy, PartialEq, Eq, Structural)]
pub struct Selection {
    pub image: Option<usize>,
    pub point: Option<usize>,
}

impl Selection {
    /// Selects an image, and tells whether it was another: what is cached of
    /// the one before is then to be dropped.
    pub fn select_image(&mut self, index: usize) -> (changed: bool)
        ensures
            final(self).image == Some(index),
            final(self).point == old(self).point,
            changed == (old(self).image != Some(index)),
    {
        let changed = match self.image {
            Some(i) => i != index,
            None => true,
        };
        self.image = Some(index);
        changed
    }

    /// Takes a click: the camera that is close enough, if one is, or else the
    /// point under the pointer. A click on nothing clears the selection.
    pub fn click(&mut self, camera: Option<usize>, point: Option<usize>) -> (changed: bool)
        ensures
            match camera {
                Some(c) => final(self).image == Some(c) && final(self).point is None,
                None => final(self).point == point && final(self).image == if point is Some {
                    old(self).image
                } else {
                    None
                },
            },
            changed == (camera is Some && old(self).image != camera),
    {
        match camera {
            Some(c) => {
                let changed = self.select_image(c);
                self.point = None;
                changed
            },
            None => {
                self.point = point;
                if point.is_none() {
                    self.image = None;
                }
                false
            },
        }
    }

    /// Opening the image pane with nothing selected selects the first image.
    pub fn open(pane: Pane, num_images: usize) -> (r: Selection)
        ensures
            r.point is None,
            r.image == if pane == Pane::Image && num_images > 0 {
                Some(0usize)
            } else {
                None
            },
    {
        let image = if pane == Pane::Image && num_images > 0 {
            Some(0usize)
        } else {
            None
        };
        Selection { image, point: None }
    }
}

/// The first of the smallest distances.
pub fn nearest(distances: &Vec<u64>) -> (r: Option<usize>)
    ensures
        match r {
            Some(b) => b < distances@.len() && (forall|k: int|
                0 <= k < distances@.len() ==> distances@[b as int] <= #[trigger] distances@[k])
                && (forall|k: int|
                0 <= k < b ==> distances@[b as int] < #[trigger] distances@[k]),
            None => distances@.len() == 0,
        },
{
    if distances.len() == 0 {
        return None;
    }
    let mut best: usize = 0;
    let mut i: usize = 1;
    while i < distances.len()
        invariant
            1 <= i <= distances@.len(),
            best < i,
            forall|k: int| 0 <= k < i ==> distances@[best as int] <= #[trigger] distances@[k],
            forall|k: int| 0 <= k < best ==> distances@[best as int] < #[trigger] distances@[k],
        decreases distances@.len() - i,
    {
        if distances[i] < distances[best] {
            best = i;
        }
        i += 1;
    }
    Some(best)
}

// ---------------------------------------------------------------------------
// Orders
// ---------------------------------------------------------------------------

/// A name and where it came from.
#[derive(Debug)]
pub struct Named {
    pub name: String,
    pub place: usize,
}

impl Sortable for Named {
    open spec fn before(self, other: Self) -> bool {
        order::precedes(self.name@, other.name@)
    }

    proof fn is_strict_weak_order(a: Self, b: Self, c: Self) {
        order::names_are_totally_ordered(a.name@, b.name@, c.name@);
        order::names_are_totally_ordered(a.name@, c.name@, b.name@);
        order::names_are_totally_ordered(c.name@, b.name@, a.name@);
    }

    fn is_before(&self, other: &Self) -> (r: bool) {
        text_before(self.name.as_str(), other.name.as_str())
    }
}

/// Lists images by name.
pub fn by_name(images: Vec<Named>) -> (out: Vec<Named>)
    ensures
        out@ == order::sorted(images@),
{
    sort(images)
}

/// An entry of a directory.
#[derive(Debug)]
pub struct Entry {
    pub name: String,
    pub is_dir: bool,
}

impl Sortable for Entry {
    /// Directories come first, and each kind by name.
    open spec fn before(self, other: Self) -> bool {
        if self.is_dir != other.is_dir {
            self.is_dir
        } else {
            order::precedes(self.name@, other.name@)
        }
    }

    proof fn is_strict_weak_order(a: Self, b: Self, c: Self) {
        order::names_are_totally_ordered(a.name@, b.name@, c.name@);
        order::names_are_totally_ordered(a.name@, c.name@, b.name@);
        order::names_are_totally_ordered(c.name@, b.name@, a.name@);
    }

    fn is_before(&self, other: &Self) -> (r: bool) {
        if self.is_dir != other.is_dir {
            self.is_dir
        } else {
            text_before(self.name.as_str(), other.name.as_str())
        }
    }
}

/// How deep a tree is listed: a deep or linked one must not turn browsing into
/// a hang.
pub const MAX_TREE_DEPTH: usize = 6;

/// The entries to list at a depth.
pub fn listed_entries(entries: Vec<Entry>, depth: usize) -> (out: Vec<Entry>)
    ensures
        out@ == if depth > MAX_TREE_DEPTH {
            Seq::empty()
        } else {
            order::sorted(entries@)
        },
{
    if depth > MAX_TREE_DEPTH {
        return Vec::new();
    }
    sort(entries)
}

/// A residual and the observation that has it.
#[derive(Debug, Clone, Copy, PartialEq, Eq, Structural)]
pub struct Residual {
    pub observation: usize,
    pub size: u64,
}

impl Sortable for Residual {
    /// Larger first.
    open spec fn before(self, other: Self) -> bool {
        self.size > other.size
    }

    proof fn is_strict_weak_order(a: Self, b: Self, c: Self) {
    }

    fn is_before(&self, other: &Self) -> (r: bool) {
        self.size > other.size
    }
}

/// The residuals with their observations.
pub open spec fn residuals_of(sizes: Seq<u64>) -> Seq<Residual> {
    Seq::new(sizes.len(), |i: int| Residual { observation: i as usize, size: sizes[i] })
}

/// The worst observations, worst first. The residuals are given as numbers
/// that are ordered as they are.
pub fn worst_observations(sizes: &Vec<u64>, limit: usize) -> (out: Vec<Residual>)
    ensures
        out@ == order::sorted(residuals_of(sizes@)).take(
            if limit < sizes@.len() {
                limit as int
            } else {
                sizes@.len() as int
            },
        ),
{
    let mut all: Vec<Residual> = Vec::new();
    let mut i: usize = 0;
    while i < sizes.len()
        invariant
            i <= sizes@.len(),
            all@ == residuals_of(sizes@).take(i as int),
        decreases sizes@.len() - i,
    {
        all.push(Residual { observation: i, size: sizes[i] });
        i += 1;
        assert(all@ =~= residuals_of(sizes@).take(i as int));
    }
    assert(all@ =~= residuals_of(sizes@));
    proof {
        order::sorted_is_an_ordered_permutation(all@);
    }
    let mut out = sort(all);
    let ghost ordered = out@;
    if limit < out.len() {
        out.truncate(limit);
        assert(out@ =~= ordered.take(limit as int));
    } else {
        assert(out@ =~= ordered.take(ordered.len() as int));
    }
    out
}

/// The keypoints among the first `n` that are linked to no point.
pub open spec fn unlinked(links: Seq<Option<u64>>, n: nat) -> Seq<usize>
    decreases n,
{
    if n == 0 {
        Seq::empty()
    } else {
        let rest = unlinked(links, (n - 1) as nat);
        if n - 1 < links.len() && links[n - 1] is Some {
            rest
        } else {
            rest.push((n - 1) as usize)
        }
    }
}

/// The keypoints that were detected and not triangulated: a frame covered in
/// them says that detection worked and matching did not.
pub fn untracked<P, K>(image: &Image<P, K>) -> (out: Vec<usize>)
    ensures
        out@ == unlinked(image.point3d_ids@, image.keypoints@.len()),
{
    let mut out: Vec<usize> = Vec::new();
    let mut n: usize = 0;
    while n < image.keypoints.len()
        invariant
            n <= image.keypoints@.len(),
            out@ == unlinked(image.point3d_ids@, n as nat),
        decreases image.keypoints@.len() - n,
    {
        let linked = n < image.point3d_ids.len() && image.point3d_ids[n].is_some();
        if !linked {
            out.push(n);
        }
        n += 1;
    }
    out
}

// ---------------------------------------------------------------------------
// The match graph
// ---------------------------------------------------------------------------

/// How many of the first `n` images are registered.
pub open spec fn registered_count(nodes: Seq<Node>, n: nat) -> nat
    decreases n,
{
    if n == 0 {
        0
    } else {
        registered_count(nodes, (n - 1) as nat) + if nodes[n - 1].registered {
            1nat
        } else {
            0nat
        }
    }
}

/// How many of the first `n` images are unregistered and outside the largest
/// component.
pub open spec fn stranded_count(nodes: Seq<Node>, n: nat) -> nat
    decreases n,
{
    if n == 0 {
        0
    } else {
        stranded_count(nodes, (n - 1) as nat) + if nodes[n - 1].component > 0
            && !nodes[n - 1].registered {
            1nat
        } else {
            0nat
        }
    }
}

/// The names of the first `n` of some nodes.
pub open spec fn names_of(nodes: Seq<Node>, which: Seq<usize>, n: int) -> Seq<Seq<char>> {
    Seq::new(n as nat, |i: int| nodes[which[i] as int].name@)
}

/// The head line of a graph.
pub open spec fn graph_summary(g: MatchGraph) -> Seq<char> {
    text::decimal(g.nodes@.len()) + " images  ·  "@ + text::decimal(g.edges@.len())
        + " verified pairs  ·  "@ + text::decimal(g.components@.len())
        + " connected component(s)  ·  "@ + text::decimal(
        registered_count(g.nodes@, g.nodes@.len()),
    ) + " registered"@
}

/// What is said of a graph in several parts.
pub open spec fn split_warning(g: MatchGraph) -> Seq<char> {
    "the match graph is split into "@ + text::decimal(g.components@.len()) + " components, and "@
        + text::decimal(stranded_count(g.nodes@, g.nodes@.len()))
        + " image(s) outside the largest one are unregistered. An incremental reconstruction grows from one seed and cannot cross a component boundary, so these cannot register however good their own matches are."@
}

/// The head line.
pub fn summary(g: &MatchGraph) -> (r: String)
    ensures
        r@ == graph_summary(*g),
{
    let mut registered: usize = 0;
    let mut i: usize = 0;
    while i < g.nodes.len()
        invariant
            i <= g.nodes@.len(),
            registered <= i,
            registered == registered_count(g.nodes@, i as nat),
        decreases g.nodes@.len() - i,
    {
        if g.nodes[i].registered {
            registered += 1;
        }
        i += 1;
    }
    let mut s = decimal_string(g.nodes.len() as u64);
    s.append(" images  ·  ");
    s.append(decimal_string(g.edges.len() as u64).as_str());
    s.append(" verified pairs  ·  ");
    s.append(decimal_string(g.components.len() as u64).as_str());
    s.append(" connected component(s)  ·  ");
    s.append(decimal_string(registered as u64).as_str());
    s.append(" registered");
    s
}

/// The warning about a graph in several parts, if it is.
pub fn split_note(g: &MatchGraph) -> (r: Option<String>)
    ensures
        match r {
            Some(s) => g.components@.len() > 1 && s@ == split_warning(*g),
            None => g.components@.len() <= 1,
        },
{
    if g.components.len() <= 1 {
        return None;
    }
    let mut stranded: usize = 0;
    let mut i: usize = 0;
    while i < g.nodes.len()
        invariant
            i <= g.nodes@.len(),
            stranded <= i,
            stranded == stranded_count(g.nodes@, i as nat),
        decreases g.nodes@.len() - i,
    {
        if g.nodes[i].component > 0 && !g.nodes[i].registered {
            stranded += 1;
        }
        i += 1;
    }
    let mut s = String::from_str("the match graph is split into ");
    s.append(decimal_string(g.components.len() as u64).as_str());
    s.append(" components, and ");
    s.append(decimal_string(stranded as u64).as_str());
    s.append(
        " image(s) outside the largest one are unregistered. An incremental reconstruction grows from one seed and cannot cross a component boundary, so these cannot register however good their own matches are.",
    );
    Some(s)
}

/// The warning about images without any verified pair, if there are any: the
/// first six are named.
pub fn isolated_note(g: &MatchGraph, isolated: &Vec<usize>) -> (r: Option<String>)
    requires
        forall|k: int| 0 <= k < isolated@.len() ==> (#[trigger] isolated@[k]) < g.nodes@.len(),
    ensures
        match r {
            Some(s) => isolated@.len() > 0 && s@ == text::decimal(isolated@.len())
                + " image(s) have no verified pair at all: "@ + paths::join_with(
                names_of(
                    g.nodes@,
                    isolated@,
                    if isolated@.len() < 6 {
                        isolated@.len() as int
                    } else {
                        6
                    },
                ),
                ", "@,
            ),
            None => isolated@.len() == 0,
        },
{
    if isolated.len() == 0 {
        return None;
    }
    let shown: usize = if isolated.len() < 6 {
        isolated.len()
    } else {
        6
    };
    let mut names: Vec<String> = Vec::new();
    let mut i: usize = 0;
    assert(order::texts(names@) =~= names_of(g.nodes@, isolated@, 0));
    while i < shown
        invariant
            i <= shown <= isolated@.len(),
            forall|k: int| 0 <= k < isolated@.len() ==> (#[trigger] isolated@[k]) < g.nodes@.len(),
            order::texts(names@) == names_of(g.nodes@, isolated@, i as int),
        decreases shown - i,
    {
        assert(isolated@[i as int] < g.nodes@.len());
        push_text(&mut names, g.nodes[isolated[i]].name.clone());
        i += 1;
        assert(order::texts(names@) =~= names_of(g.nodes@, isolated@, i as int));
    }
    let mut s = decimal_string(isolated.len() as u64);
    s.append(" image(s) have no verified pair at all: ");
    s.append(join_text(&names, ", ").as_str());
    Some(s)
}

// ---------------------------------------------------------------------------
// Coverage
// ---------------------------------------------------------------------------

/// How many of the first `n` sectors of a band are empty.
pub open spec fn empty_sectors(row: Seq<usize>, n: nat) -> nat
    decreases n,
{
    if n == 0 {
        0
    } else {
        empty_sectors(row, (n - 1) as nat) + if row[n - 1] == 0 {
            1nat
        } else {
            0nat
        }
    }
}

/// How many orientations a capture still lacks: the fronto-parallel band counts
/// as one cell.
pub open spec fn missing_cells(grid: Seq<[usize; 8]>) -> nat {
    (if empty_sectors(grid[0]@, 8) == 8 {
        1nat
    } else {
        0nat
    }) + empty_sectors(grid[1]@, 8) + empty_sectors(grid[2]@, 8) + empty_sectors(grid[3]@, 8)
}

/// How many orientations there are.
pub const CELLS: usize = 25;

fn count_empty(row: &[usize; 8]) -> (r: usize)
    ensures
        r == empty_sectors(row@, 8),
        r <= 8,
{
    let mut count: usize = 0;
    let mut i: usize = 0;
    while i < 8
        invariant
            i <= 8,
            count <= i,
            count == empty_sectors(row@, i as nat),
        decreases 8 - i,
    {
        if row[i] == 0 {
            count += 1;
        }
        i += 1;
    }
    count
}

/// What a coverage plot says below it, and whether more than half is missing.
pub fn coverage_note(grid: &[[usize; 8]; 4]) -> (r: (String, bool))
    ensures
        r.0@ == text::decimal(missing_cells(grid@)) + " of 25 orientation cells still empty"@,
        r.1 == (2 * missing_cells(grid@) > CELLS),
{
    let front: usize = if count_empty(&grid[0]) == 8 {
        1
    } else {
        0
    };
    let missing: usize = front + count_empty(&grid[1]) + count_empty(&grid[2]) + count_empty(
        &grid[3],
    );
    let mut s = decimal_string(missing as u64);
    s.append(" of 25 orientation cells still empty");
    (s, missing * 2 > CELLS)
}

// ---------------------------------------------------------------------------
// Declaring a layout
// ---------------------------------------------------------------------------

/// What goes before the layout: an otherwise empty configuration gets its
/// image directory too.
pub open spec fn images_line(existing: Seq<char>) -> Seq<char> {
    if text::all_white(existing) {
        "images_dir = \"images\"\n\n"@
    } else {
        Seq::empty()
    }
}

/// The configuration with a layout declared. One that is there already is
/// never rewritten: the file is the user's.
pub fn declare_layout(existing: &str, path: &str, capture: &str, camera: &str) -> (r: Result<
    String,
    SfmError,
>)
    ensures
        match r {
            Ok(out) => !text::occurs(existing@, "[layout]"@) && out@ == existing@ + images_line(
                existing@,
            ) + "\n[layout]\ncapture = \""@ + capture@ + "\"\ncamera = \""@ + camera@ + "\"\n"@,
            Err(e) => e matches SfmError::Other(m) && text::occurs(existing@, "[layout]"@) && m@
                == path@ + " already declares [layout]; edit it by hand instead"@,
        },
{
    if contains_text(existing, "[layout]") {
        let mut m = String::from_str(path);
        m.append(" already declares [layout]; edit it by hand instead");
        return Err(SfmError::Other(m));
    }
    let mut out = String::from_str(existing);
    if is_blank(existing) {
        out.append("images_dir = \"images\"\n\n");
    }
    assert(out@ =~= existing@ + images_line(existing@));
    out.append("\n[layout]\ncapture = \"");
    out.append(capture);
    out.append("\"\ncamera = \"");
    out.append(camera);
    out.append("\"\n");
    Ok(out)
}

/// What is said of a project's layout: whether one is declared, and whether
/// its tree is built.
pub fn layout_state(declared: bool, linked: bool) -> (r: &'static str)
    ensures
        r@ == if !declared {
            "no [layout] declared - the usual case"@
        } else if linked {
            "[layout] declared, link tree built"@
        } else {
            "[layout] declared but not linked yet - run Link"@
        },
{
    if !declared {
        "no [layout] declared - the usual case"
    } else if linked {
        "[layout] declared, link tree built"
    } else {
        "[layout] declared but not linked yet - run Link"
    }
}

proof fn lemma_unlinked(links: Seq<Option<u64>>, total: nat, n: nat)
    requires
        n <= total <= usize::MAX,
    ensures
        ({
            let out = unlinked(links, n);
            &&& forall|x: usize| #[trigger] out.contains(x) <==> x < n && !((x as int) < links.len() && links[(x as int)] is Some)
            &&& forall|a: int, b: int| 0 <= a < b < out.len() ==> out[a] < out[b]
        }),
    decreases n,
{
    let out = unlinked(links, n);
    if n == 0 {
        assert(out.len() == 0);
    } else {
        let rest = unlinked(links, (n - 1) as nat);
        lemma_unlinked(links, total, (n - 1) as nat);
        
        assert forall|x: usize| #[trigger] out.contains(x) <==> x < n && !((x as int) < links.len() && links[(x as int)] is Some) by {
            if rest.contains(x) {
                let a = choose|a: int| 0 <= a < rest.len() && rest[a] == x;
                assert(out[a] == x);
            }
            if out.contains(x) {
                let a = choose|a: int| 0 <= a < out.len() && out[a] == x;
                if a < rest.len() {
                    assert(rest[a] == x);
                    assert(rest.contains(x));
                }
            }
            if x == n - 1 && !((x as int) < links.len() && links[(x as int)] is Some) {
                assert(out[rest.len() as int] == x);
            }
        }
        assert forall|a: int, b: int| 0 <= a < b < out.len() implies out[a] < out[b] by {
            assert(rest.contains(rest[a]));
            if b < rest.len() {
                assert(out[b] == rest[b]);
            }
        }
    }
}

/// A keypoint is untracked exactly where it is linked to no point.
pub proof fn untracked_keypoints_have_no_point(links: Seq<Option<u64>>, total: nat)
    requires
        total <= usize::MAX,
    ensures
        forall|x: usize| #[trigger] unlinked(links, total).contains(x) <==> x < total && !((x as int) < links.len() && links[(x as int)] is Some),
        forall|a: int, b: int|
            0 <= a < b < unlinked(links, total).len() ==> unlinked(links, total)[a] < unlinked(links, total)[b],
{
    lemma_unlinked(links, total, total);
}

/// Being registered.
pub open spec fn is_registered() -> spec_fn(Node) -> bool {
    |n: Node| n.registered
}

/// Being unregistered and outside the largest component.
pub open spec fn is_stranded() -> spec_fn(Node) -> bool {
    |n: Node| !n.registered && n.component != 0
}

/// The registered images are counted, and so are those that cannot register
/// because they lie outside the largest component.
pub proof fn stranded_images_are_counted(nodes: Seq<Node>, n: nat)
    requires
        n <= nodes.len(),
    ensures
        registered_count(nodes, n) == sets::how_many(nodes, is_registered(), n),
        stranded_count(nodes, n) == sets::how_many(nodes, is_stranded(), n),
    decreases n,
{
    sets::lemma_none_of_none(nodes, is_registered());
    sets::lemma_none_of_none(nodes, is_stranded());
    if n > 0 {
        stranded_images_are_counted(nodes, (n - 1) as nat);
        sets::lemma_one_more(nodes, is_registered(), (n - 1) as nat);
        sets::lemma_one_more(nodes, is_stranded(), (n - 1) as nat);
    }
}

proof fn lemma_empty_sectors(row: Seq<usize>, n: nat)
    requires
        n <= row.len(),
    ensures
        empty_sectors(row, n) == sets::how_many(row, sets::is_key(0usize), n),
        empty_sectors(row, n) <= n,
        empty_sectors(row, n) == n <==> forall|i: int| 0 <= i < n ==> #[trigger] row[i] == 0,
        empty_sectors(row, n) == 0 <==> forall|i: int| 0 <= i < n ==> #[trigger] row[i] != 0,
    decreases n,
{
    sets::lemma_none_of_none(row, sets::is_key(0usize));
    if n > 0 {
        lemma_empty_sectors(row, (n - 1) as nat);
        sets::lemma_one_more(row, sets::is_key(0usize), (n - 1) as nat);
    }
}

/// The missing orientations are the sectors without a view of the three tilted
/// bands and, as a single one, the fronto-parallel band without any.
pub proof fn missing_orientations_are_the_empty_cells(grid: Seq<[usize; 8]>)
    requires
        grid.len() == 4,
    ensures
        missing_cells(grid) <= 25,
        missing_cells(grid) == sets::how_many(grid[1]@, sets::is_key(0usize), 8) + sets::how_many(
            grid[2]@,
            sets::is_key(0usize),
            8,
        ) + sets::how_many(grid[3]@, sets::is_key(0usize), 8) + if forall|i: int|
            0 <= i < 8 ==> #[trigger] grid[0]@[i] == 0 {
            1nat
        } else {
            0nat
        },
{
    lemma_empty_sectors(grid[0]@, 8);
    lemma_empty_sectors(grid[1]@, 8);
    lemma_empty_sectors(grid[2]@, 8);
    lemma_empty_sectors(grid[3]@, 8);
}

/// In a listing every directory stands above every file, and each kind is in
/// the order of names; nothing is lost.
pub proof fn directories_are_listed_above_files(entries: Seq<Entry>, i: int, j: int)
    requires
        0 <= i < j < entries.len(),
    ensures
        order::sorted(entries).to_multiset() == entries.to_multiset(),
        order::sorted(entries)[j].is_dir ==> order::sorted(entries)[i].is_dir,
        order::sorted(entries)[i].is_dir == order::sorted(entries)[j].is_dir ==> !order::precedes(
            order::sorted(entries)[j].name@,
            order::sorted(entries)[i].name@,
        ),
{
    order::sorted_is_an_ordered_permutation(entries);
    let out = order::sorted(entries);
    assert(!order::natural::<Entry>()(out[j], out[i]));
    assert(!out[j].before(out[i]));
}

/// Images are listed in the order of their names; none is lost.
pub proof fn images_are_listed_by_name(images: Seq<Named>, i: int, j: int)
    requires
        0 <= i < j < images.len(),
    ensures
        order::sorted(images).to_multiset() == images.to_multiset(),
        !order::precedes(order::sorted(images)[j].name@, order::sorted(images)[i].name@),
{
    order::sorted_is_an_ordered_permutation(images);
    let out = order::sorted(images);
    assert(!order::natural::<Named>()(out[j], out[i]));
    assert(!out[j].before(out[i]));
}

/// The worst observations come first, each with its own residual: none that is
/// left out has a larger one than any that is listed.
pub proof fn the_worst_observations_come_first(sizes: Seq<u64>, i: int, j: int)
    requires
        0 <= i < j < sizes.len(),
        sizes.len() <= usize::MAX,
    ensures
        ({
            let out = order::sorted(residuals_of(sizes));
            &&& out.len() == sizes.len()
            &&& out[i].size >= out[j].size
            &&& out[i].observation < sizes.len()
            &&& out[i].size == sizes[out[i].observation as int]
            &&& out[i].observation != out[j].observation
        }),
{
    broadcast use vstd::seq_lib::group_to_multiset_ensures;

    let all = residuals_of(sizes);
    let out = order::sorted(all);
    order::sorted_is_an_ordered_permutation(all);
    assert(!order::natural::<Residual>()(out[j], out[i]));
    assert(!out[j].before(out[i]));
    assert(out.contains(out[i]) && out.contains(out[j]));
    assert(all.to_multiset().count(out[i]) > 0);
    assert(all.contains(out[i]));
    let a = choose|a: int| 0 <= a < all.len() && all[a] == out[i];
    assert(all.no_duplicates());
    all.lemma_multiset_has_no_duplicates();
    out.lemma_multiset_has_no_duplicates_conv();
    assert(out[i] != out[j]);
    assert(all.to_multiset().count(out[j]) > 0);
    assert(all.contains(out[j]));
    let b = choose|b: int| 0 <= b < all.len() && all[b] == out[j];
}

} // verus!
