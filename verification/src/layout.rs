//! Normalises a declared dataset layout into the tree that
//! [`crate::dataset::discover`] understands.
//!
//! Some datasets carry capture and camera identity in names that no amount of
//! inspecting the directory shape can decode. The motivating one: a rig of
//! fixed cameras photographing a target that moves between captures, dumped as
//! one directory per capture with one file per camera inside it -
//!
//! ```text
//! images/9/101.jpg     capture 9,  camera 101
//! images/9/102.jpg     capture 9,  camera 102
//! images/16/101.jpg    capture 16, camera 101
//! ```
//!
//! That is shaped exactly like `images/<camera>/<shot>.jpg`, which discovery
//! reads the other way round. The declaration names each *level* of the path,
//! so one rule covers any depth and reads in the same order as the path it
//! describes:
//!
//! ```toml
//! layers = ["capture", "camera"]            # images/9/101.jpg
//! layers = ["capture", "camera", "image"]   # images/cap0/cam0/0001.jpg
//! layers = ["camera", "image"]              # images/cam0/0001.jpg
//! ```
//!
//! It is resolved here into links in the canonical `capture_<n>/cam<n>/` form.

use std::collections::{BTreeMap, BTreeSet};

use vstd::prelude::*;

use crate::dataset;
use crate::dataset::{is_image_file, Dir};
use crate::error::SfmError;
use crate::order;
use crate::order::{path_before, sort, Sortable};
use crate::paths;
use crate::sets;
use crate::sets::Number;
use crate::text;
use crate::text::{decimal_string, padded_string, quoted, same_text};

verus! {

/// What one level of a path says.
#[derive(Debug, Clone, Copy, PartialEq, Eq, Structural)]
pub enum Layer {
    Capture,
    Camera,
    Image,
    Ignore,
}

/// A declared layout: where the raw images lie, and one role per path level.
#[derive(Debug)]
pub struct LayoutConfig {
    pub source: Option<String>,
    pub layers: Vec<Layer>,
}

/// The role that a name stands for.
pub open spec fn role_of(name: Seq<char>) -> Option<Layer> {
    if name == "capture"@ {
        Some(Layer::Capture)
    } else if name == "camera"@ {
        Some(Layer::Camera)
    } else if name == "image"@ || name == "frame"@ {
        Some(Layer::Image)
    } else if name == "ignore"@ {
        Some(Layer::Ignore)
    } else {
        None
    }
}

/// The role that a name stands for.
pub fn role_named(name: &str) -> (r: Option<Layer>)
    ensures
        r == role_of(name@),
{
    if same_text(name, "capture") {
        Some(Layer::Capture)
    } else if same_text(name, "camera") {
        Some(Layer::Camera)
    } else if same_text(name, "image") || same_text(name, "frame") {
        Some(Layer::Image)
    } else if same_text(name, "ignore") {
        Some(Layer::Ignore)
    } else {
        None
    }
}

/// Every one of the first `n` names stands for a role.
pub open spec fn all_roles(names: Seq<String>, n: int) -> bool {
    forall|i: int| 0 <= i < n ==> role_of((#[trigger] names[i])@) is Some
}

/// The roles of a layout's levels. The first name that stands for none is
/// complained about.
pub fn roles(names: &Vec<String>) -> (r: Result<Vec<Layer>, SfmError>)
    ensures
        match r {
            Ok(v) => v@.len() == names@.len() && forall|i: int|
                0 <= i < names@.len() ==> role_of((#[trigger] names@[i])@) == Some(v@[i]),
            Err(e) => exists|k: int|
                0 <= k < names@.len() && all_roles(names@, k) && role_of(
                    (#[trigger] names@[k])@,
                ) is None && (e matches SfmError::Other(m) && m@ == "unknown layout role "@
                    + text::debug_form(names@[k]@)),
        },
{
    let mut out: Vec<Layer> = Vec::new();
    let mut i: usize = 0;
    while i < names.len()
        invariant
            i <= names@.len(),
            out@.len() == i,
            forall|k: int| 0 <= k < i ==> role_of((#[trigger] names@[k])@) == Some(out@[k]),
        decreases names@.len() - i,
    {
        match role_named(names[i].as_str()) {
            Some(role) => out.push(role),
            None => {
                let mut m = String::from_str("unknown layout role ");
                m.append(quoted(names[i].as_str()).as_str());
                assert(all_roles(names@, i as int) && role_of(names@[i as int]@) is None);
                return Err(SfmError::Other(m));
            },
        }
        i += 1;
    }
    Ok(out)
}

/// One raw image and the identity the layout gives it.
#[derive(Debug)]
pub struct Placed {
    pub source: String,
    pub capture_id: u32,
    pub camera_id: u32,
    /// Which of its camera's shots this is, the same number in every capture,
    /// when the layout has an `image` level. Zero when each camera contributes one frame per capture.
    pub image_index: u32,
    /// Path of the link to create, relative to the link tree's root.
    pub link: String,
}

#[derive(Debug)]
pub struct Plan {
    pub placed: Vec<Placed>,
    pub captures: BTreeSet<u32>,
    pub cameras: BTreeSet<u32>,
    /// Cameras absent from at least one capture, with the captures they are
    /// missing from. A rig dataset is usually meant to be complete, and a
    /// camera that silently drops out of some captures weakens exactly the
    /// multi-capture redundancy the layout exists to provide.
    pub gaps: BTreeMap<u32, Vec<u32>>,
}

/// What a [`Placed`] says.
pub struct PlacedModel {
    pub source: Seq<char>,
    pub capture_id: u32,
    pub camera_id: u32,
    pub image_index: u32,
    pub link: Seq<char>,
}

impl View for Placed {
    type V = PlacedModel;

    open spec fn view(&self) -> PlacedModel {
        PlacedModel {
            source: self.source@,
            capture_id: self.capture_id,
            camera_id: self.camera_id,
            image_index: self.image_index,
            link: self.link@,
        }
    }
}

// ---------------------------------------------------------------------------
// The images of a tree
// ---------------------------------------------------------------------------

/// A path below the source, one text per component.
pub type Path = Seq<Seq<char>>;

/// A raw image, by its path below the source.
pub struct RawImage {
    pub path: Vec<String>,
}

impl View for RawImage {
    type V = Path;

    open spec fn view(&self) -> Path {
        order::texts(self.path@)
    }
}

impl Sortable for RawImage {
    open spec fn before(self, other: Self) -> bool {
        order::path_precedes(self@, other@)
    }

    proof fn is_strict_weak_order(a: Self, b: Self, c: Self) {
        order::paths_are_totally_ordered(a@, b@, c@);
        order::paths_are_totally_ordered(a@, c@, b@);
        order::paths_are_totally_ordered(c@, b@, a@);
    }

    fn is_before(&self, other: &Self) -> (r: bool) {
        path_before(&self.path, &other.path)
    }
}

pub open spec fn raw_paths(v: Seq<RawImage>) -> Seq<Path> {
    v.map_values(|r: RawImage| r@)
}

/// The paths of the images among `files`, which lie under `prefix`.
pub open spec fn file_paths(files: Seq<String>, prefix: Path) -> Seq<Path> {
    dataset::images_among(files).map_values(|f: String| prefix.push(f@))
}

/// The paths of all images in a directory and below.
pub open spec fn tree_paths(dir: Dir, prefix: Path) -> Seq<Path>
    decreases dir, dir.dirs@.len() + 1,
{
    file_paths(dir.files@, prefix) + subtree_paths(dir, prefix, dir.dirs@.len())
}

/// The paths of all images below the first `n` directories of `dir`.
pub open spec fn subtree_paths(dir: Dir, prefix: Path, n: nat) -> Seq<Path>
    decreases dir, n,
{
    if n == 0 || n > dir.dirs@.len() {
        Seq::empty()
    } else {
        let sub = dir.dirs@[n - 1];
        subtree_paths(dir, prefix, (n - 1) as nat) + tree_paths(sub, prefix.push(sub.name@))
    }
}

pub open spec fn by_path() -> spec_fn(Path, Path) -> bool {
    |a: Path, b: Path| order::path_precedes(a, b)
}

/// The images of a tree, sorted by path so ids and reports are stable between
/// runs.
pub open spec fn images_in(dir: Dir) -> Seq<Path> {
    order::sorted_by(tree_paths(dir, Seq::empty()), by_path())
}

fn clone_path(prefix: &Vec<String>, last: &String) -> (out: Vec<String>)
    ensures
        order::texts(out@) == order::texts(prefix@).push(last@),
{
    let mut out: Vec<String> = Vec::new();
    let mut i: usize = 0;
    while i < prefix.len()
        invariant
            i <= prefix.len(),
            order::texts(out@) == order::texts(prefix@.take(i as int)),
        decreases prefix.len() - i,
    {
        let ghost before = out@;
        out.push(prefix[i].clone());
        i += 1;
        proof {
            order::lemma_texts_push(before, out@.last());
            assert(out@ =~= before.push(out@.last()));
            assert(order::texts(out@) =~= order::texts(prefix@.take(i as int)));
        }
    }
    assert(prefix@.take(prefix@.len() as int) =~= prefix@);
    let ghost before = out@;
    out.push(last.clone());
    proof {
        order::lemma_texts_push(before, out@.last());
        assert(out@ =~= before.push(out@.last()));
    }
    out
}

proof fn lemma_raw_paths_push(v: Seq<RawImage>, x: RawImage)
    ensures
        raw_paths(v.push(x)) == raw_paths(v).push(x@),
{
    assert(raw_paths(v.push(x)) =~= raw_paths(v).push(x@));
}

/// Collects the images of a directory and below.
fn walk(dir: &Dir, prefix: &Vec<String>, out: &mut Vec<RawImage>)
    ensures
        raw_paths(final(out)@) == raw_paths(old(out)@) + tree_paths(
            *dir,
            order::texts(prefix@),
        ),
    decreases dir,
{
    let ghost start = raw_paths(out@);
    let ghost pre = order::texts(prefix@);
    let mut i: usize = 0;
    assert(start =~= start + file_paths(dir.files@.take(0), pre));
    while i < dir.files.len()
        invariant
            i <= dir.files.len(),
            pre == order::texts(prefix@),
            raw_paths(out@) == start + file_paths(dir.files@.take(i as int), pre),
        decreases dir.files.len() - i,
    {
        assert(dir.files@.take(i + 1).drop_last() =~= dir.files@.take(i as int));
        if is_image_file(dir.files[i].as_str()) {
            let path = clone_path(prefix, &dir.files[i]);
            let raw = RawImage { path };
            proof {
                lemma_raw_paths_push(out@, raw);
                let before = dataset::images_among(dir.files@.take(i as int));
                let f = dir.files@[i as int];
                assert(before.push(f).map_values(|g: String| pre.push(g@)) =~= before.map_values(
                    |g: String| pre.push(g@),
                ).push(pre.push(f@)));
            }
            out.push(raw);
        }
        i += 1;
        assert(raw_paths(out@) =~= start + file_paths(dir.files@.take(i as int), pre));
    }
    assert(dir.files@.take(dir.files@.len() as int) =~= dir.files@);
    let ghost files = start + file_paths(dir.files@, pre);
    let mut j: usize = 0;
    assert(raw_paths(out@) =~= files + subtree_paths(*dir, pre, 0));
    while j < dir.dirs.len()
        invariant
            j <= dir.dirs.len(),
            pre == order::texts(prefix@),
            raw_paths(out@) == files + subtree_paths(*dir, pre, j as nat),
        decreases dir.dirs.len() - j,
    {
        let sub = &dir.dirs[j];
        let below = clone_path(prefix, &sub.name);
        walk(sub, &below, out);
        j += 1;
        assert(raw_paths(out@) =~= files + subtree_paths(*dir, pre, j as nat));
    }
    assert(raw_paths(out@) =~= start + tree_paths(*dir, pre));
}

/// The images of a tree, sorted by path.
pub fn collect_images(dir: &Dir) -> (out: Vec<RawImage>)
    ensures
        raw_paths(out@) == images_in(*dir),
{
    let mut found: Vec<RawImage> = Vec::new();
    let none: Vec<String> = Vec::new();
    walk(dir, &none, &mut found);
    assert(order::texts(none@) =~= Seq::<Seq<char>>::empty());
    assert(raw_paths(found@) =~= tree_paths(*dir, Seq::empty()));
    proof {
        order::lemma_sorted_map(
            found@,
            order::natural::<RawImage>(),
            by_path(),
            |r: RawImage| r@,
        );
    }
    sort(found)
}

/// Whether the images of a tree can be numbered in 32 bits.
pub fn can_be_numbered(dir: &Dir) -> (r: bool)
    ensures
        r == (images_in(*dir).len() <= u32::MAX),
{
    let images = collect_images(dir);
    assert(raw_paths(images@).len() == images@.len());
    images.len() <= u32::MAX as usize
}

/// Depth of the first image found, so a UI can offer one role per real level
/// instead of asking the user to count directories.
pub fn probe_depth(dir: &Dir) -> (r: Option<usize>)
    ensures
        match r {
            Some(depth) => tree_paths(*dir, Seq::empty()).len() > 0 && depth == tree_paths(
                *dir,
                Seq::empty(),
            )[0].len(),
            None => tree_paths(*dir, Seq::empty()).len() == 0,
        },
{
    let mut found: Vec<RawImage> = Vec::new();
    let none: Vec<String> = Vec::new();
    walk(dir, &none, &mut found);
    assert(order::texts(none@) =~= Seq::<Seq<char>>::empty());
    assert(raw_paths(found@) =~= tree_paths(*dir, Seq::empty()));
    if found.len() == 0 {
        assert(raw_paths(found@).len() == 0);
        None
    } else {
        assert(raw_paths(found@)[0] == found@[0]@);
        Some(found[0].path.len())
    }
}

// ---------------------------------------------------------------------------
// Keys and ids
// ---------------------------------------------------------------------------

/// The levels of a path: its components, the last without its extension.
pub open spec fn levels(path: Path) -> Path {
    if path.len() == 0 {
        path
    } else {
        path.drop_last().push(paths::stem_of(path.last()))
    }
}

/// The levels among the first `n` that carry `role`.
pub open spec fn levels_with(path: Path, layers: Seq<Layer>, role: Layer, n: nat) -> Path
    decreases n,
{
    if n == 0 {
        Seq::empty()
    } else {
        let front = levels_with(path, layers, role, (n - 1) as nat);
        if n <= layers.len() && layers[n - 1] == role && n <= path.len() {
            front.push(levels(path)[n - 1])
        } else {
            front
        }
    }
}

/// What identifies the `role` of an image: every level carrying it, joined, so
/// two levels can jointly identify one thing (a session directory plus a
/// capture directory, say).
pub open spec fn key_of(path: Path, layers: Seq<Layer>, role: Layer) -> Seq<char> {
    paths::join_with(levels_with(path, layers, role, layers.len()), "/"@)
}

/// The key of an image for one role.
pub fn key(image: &RawImage, layers: &Vec<Layer>, role: Layer) -> (r: String)
    ensures
        r@ == key_of(image@, layers@, role),
{
    let mut parts: Vec<String> = Vec::new();
    let mut i: usize = 0;
    assert(order::texts(parts@) =~= levels_with(image@, layers@, role, 0));
    while i < layers.len()
        invariant
            i <= layers.len(),
            order::texts(parts@) == levels_with(image@, layers@, role, i as nat),
        decreases layers.len() - i,
    {
        let ghost before = parts@;
        if layers[i] == role && i < image.path.len() {
            assert(image@[i as int] == image.path@[i as int]@);
            if i + 1 == image.path.len() {
                parts.push(paths::stem(image.path[i].as_str()));
            } else {
                parts.push(image.path[i].clone());
            }
            proof {
                order::lemma_texts_push(before, parts@.last());
                assert(parts@ =~= before.push(parts@.last()));
                assert(parts@.last()@ == levels(image@)[i as int]);
            }
        }
        i += 1;
    }
    paths::join_text(&parts, "/")
}

pub open spec fn keys_of(images: Seq<Path>, layers: Seq<Layer>, role: Layer) -> Seq<Seq<char>> {
    images.map_values(|p: Path| key_of(p, layers, role))
}

/// The id of a key among `keys`: the number that it carries where numbers tell
/// all keys apart, else its place in their order. Keys are taken over the
/// whole dataset, so one camera keeps one id across every capture.
pub open spec fn id_of(keys: Seq<Seq<char>>, key: Seq<char>) -> u32 {
    let all = sets::distinct(keys);
    dataset::ids_of(all)[all.index_of(key)]
}

pub open spec fn assigned(keys: Seq<Seq<char>>) -> Seq<u32> {
    keys.map_values(|k: Seq<char>| id_of(keys, k))
}

fn all_keys(images: &Vec<RawImage>, layers: &Vec<Layer>, role: Layer) -> (out: Vec<String>)
    ensures
        order::texts(out@) == keys_of(raw_paths(images@), layers@, role),
{
    let mut out: Vec<String> = Vec::new();
    let mut i: usize = 0;
    let ghost all = keys_of(raw_paths(images@), layers@, role);
    assert(order::texts(out@) =~= all.take(0));
    while i < images.len()
        invariant
            i <= images.len(),
            all == keys_of(raw_paths(images@), layers@, role),
            order::texts(out@) == all.take(i as int),
        decreases images.len() - i,
    {
        let ghost before = out@;
        out.push(key(&images[i], layers, role));
        proof {
            order::lemma_texts_push(before, out@.last());
            assert(out@ =~= before.push(out@.last()));
            assert(raw_paths(images@)[i as int] == images@[i as int]@);
        }
        i += 1;
        assert(order::texts(out@) =~= all.take(i as int));
    }
    assert(all.take(all.len() as int) =~= all);
    out
}

/// Gives each key its id.
pub fn assign_ids(keys: &Vec<String>) -> (out: Vec<u32>)
    requires
        keys.len() <= u32::MAX,
    ensures
        out@ == assigned(order::texts(keys@)),
{
    let ghost all = order::texts(keys@);
    let names = sets::distinct_texts(keys);
    proof {
        sets::distinct_is_the_ascending_set(all);
        assert(names.len() == order::texts(names@).len());
    }
    let ids = dataset::ids_for(&names);
    proof {
        dataset::ids_are_distinct(order::texts(names@));
    }
    let mut out: Vec<u32> = Vec::new();
    let mut i: usize = 0;
    assert(out@ =~= assigned(all).take(0));
    while i < keys.len()
        invariant
            i <= keys.len(),
            all == order::texts(keys@),
            order::texts(names@) == sets::distinct(all),
            sets::ascending(sets::distinct(all)),
            forall|y: Seq<char>| #[trigger] sets::distinct(all).contains(y) == all.contains(y),
            ids@ == dataset::ids_of(sets::distinct(all)),
            ids@.len() == names@.len(),
            out@ == assigned(all).take(i as int),
        decreases keys.len() - i,
    {
        assert(all[i as int] == keys@[i as int]@);
        assert(all.contains(keys@[i as int]@));
        assert(sets::distinct(all).contains(keys@[i as int]@));
        match sets::position(&names, &keys[i]) {
            Some(k) => {
                assert(order::texts(names@)[k as int] == names@[k as int]@);
                proof {
                    sets::lemma_ascending_index(sets::distinct(all), k as int);
                }
                out.push(ids[k]);
            },
            None => {
                assert(false);
            },
        }
        i += 1;
        assert(out@ =~= assigned(all).take(i as int));
    }
    assert(assigned(all).take(all.len() as int) =~= assigned(all));
    out
}

/// Two images have the same id exactly when they have the same key.
pub proof fn ids_follow_keys(keys: Seq<Seq<char>>, i: int, j: int)
    requires
        keys.len() <= u32::MAX,
        0 <= i < keys.len(),
        0 <= j < keys.len(),
    ensures
        assigned(keys)[i] == assigned(keys)[j] <==> keys[i] == keys[j],
{
    let all = sets::distinct(keys);
    sets::distinct_is_the_ascending_set(keys);
    dataset::ids_are_distinct(all);
    assert(keys.contains(keys[i]));
    assert(keys.contains(keys[j]));
    assert(all.contains(keys[i]));
    assert(all.contains(keys[j]));
    let a = all.index_of(keys[i]);
    let b = all.index_of(keys[j]);
    if keys[i] != keys[j] {
        assert(all[a] != all[b]);
        assert(dataset::ids_of(all)[a] != dataset::ids_of(all)[b]);
    }
}

// ---------------------------------------------------------------------------
// Identities
// ---------------------------------------------------------------------------

/// The images of a dataset with their identities.
pub struct Resolved {
    pub paths: Seq<Path>,
    pub captures: Seq<u32>,
    pub cameras: Seq<u32>,
    pub shots: Seq<Seq<char>>,
}

pub open spec fn resolve(images: Seq<Path>, layers: Seq<Layer>) -> Resolved {
    Resolved {
        paths: images,
        captures: assigned(keys_of(images, layers, Layer::Capture)),
        cameras: assigned(keys_of(images, layers, Layer::Camera)),
        shots: keys_of(images, layers, Layer::Image),
    }
}

/// The shot keys of the first `n` images that belong to the camera of image
/// `i`, in whatever capture.
pub open spec fn shots_of_camera(r: Resolved, i: int, n: nat) -> Seq<Seq<char>>
    decreases n,
{
    if n == 0 {
        Seq::empty()
    } else {
        let front = shots_of_camera(r, i, (n - 1) as nat);
        if r.cameras[n - 1] == r.cameras[i] {
            front.push(r.shots[n - 1])
        } else {
            front
        }
    }
}

/// The shots of one camera are numbered by their own key over the whole
/// dataset, so the slot a shot occupies is the same in every capture, also
/// where other shots are missing from one.
pub open spec fn slot_of(r: Resolved, i: int) -> int {
    sets::distinct(shots_of_camera(r, i, r.paths.len())).index_of(r.shots[i])
}

/// The name of a capture's directory in the linked tree.
pub open spec fn capture_dir(id: u32) -> Seq<char> {
    "capture_"@ + text::padded(id as nat, 3)
}

/// The name of a camera's directory in the linked tree.
pub open spec fn camera_dir(id: u32) -> Seq<char> {
    "cam"@ + text::padded(id as nat, 3)
}

pub open spec fn link_of(r: Resolved, i: int) -> Seq<char> {
    capture_dir(r.captures[i]) + "/"@ + camera_dir(r.cameras[i]) + "/"@ + r.paths[i].last()
}

pub open spec fn source_of(source: Seq<char>, path: Path) -> Seq<char> {
    paths::joined(source, paths::join_with(path, "/"@))
}

/// Whether images `i` and `j` have the same identity.
pub open spec fn same_identity(r: Resolved, i: int, j: int) -> bool {
    r.captures[i] == r.captures[j] && r.cameras[i] == r.cameras[j] && r.shots[i] == r.shots[j]
}

/// The first of the images before `n` that has the identity of image `i`.
pub open spec fn identity_taken(r: Resolved, i: int, n: nat) -> Option<int>
    decreases n,
{
    if n == 0 {
        None
    } else {
        match identity_taken(r, i, (n - 1) as nat) {
            Some(j) => Some(j),
            None => if same_identity(r, n - 1, i) {
                Some(n - 1)
            } else {
                None
            },
        }
    }
}

/// The first of the images before `n` that has the link of image `i`.
pub open spec fn link_taken(r: Resolved, i: int, n: nat) -> Option<int>
    decreases n,
{
    if n == 0 {
        None
    } else {
        match link_taken(r, i, (n - 1) as nat) {
            Some(j) => Some(j),
            None => if link_of(r, n - 1) == link_of(r, i) {
                Some(n - 1)
            } else {
                None
            },
        }
    }
}

/// What to do about two images with one identity.
pub open spec fn identity_hint(layers: Seq<Layer>) -> Seq<char> {
    if layers.contains(Layer::Image) {
        "Check the [layout] layers in sfm.toml."@
    } else {
        "If these are meant to be separate shots of one camera, add an \"image\" level to `layers`."@
    }
}

/// The complaint about image `i`: another image before it claims its identity
/// or its place in the linked tree.
pub open spec fn conflict_at(
    r: Resolved,
    source: Seq<char>,
    layers: Seq<Layer>,
    i: int,
) -> Option<Seq<char>> {
    match identity_taken(r, i, i as nat) {
        Some(j) => Some(
            "layout maps two images to capture "@ + text::decimal(r.captures[i] as nat)
                + ", camera "@ + text::decimal(r.cameras[i] as nat) + ":\n  "@ + source_of(
                source,
                r.paths[j],
            ) + "\n  "@ + source_of(source, r.paths[i]) + "\n"@ + identity_hint(layers),
        ),
        None => match link_taken(r, i, i as nat) {
            Some(j) => Some(
                "layout maps two images to the same place ("@ + link_of(r, i) + "):\n  "@
                    + source_of(source, r.paths[j]) + "\n  "@ + source_of(source, r.paths[i])
                    + "\nCheck the [layout] layers in sfm.toml."@,
            ),
            None => None,
        },
    }
}

/// The complaint about the first offending image before `n`.
pub open spec fn conflict_before(
    r: Resolved,
    source: Seq<char>,
    layers: Seq<Layer>,
    n: nat,
) -> Option<Seq<char>>
    decreases n,
{
    if n == 0 {
        None
    } else {
        match conflict_before(r, source, layers, (n - 1) as nat) {
            Some(m) => Some(m),
            None => conflict_at(r, source, layers, n - 1),
        }
    }
}

pub open spec fn placed_at(r: Resolved, source: Seq<char>, i: int) -> PlacedModel {
    PlacedModel {
        source: source_of(source, r.paths[i]),
        capture_id: r.captures[i],
        camera_id: r.cameras[i],
        image_index: slot_of(r, i) as u32,
        link: link_of(r, i),
    }
}

pub open spec fn placed_of(r: Resolved, source: Seq<char>) -> Seq<PlacedModel> {
    Seq::new(r.paths.len(), |i: int| placed_at(r, source, i))
}

pub open spec fn placed_models(v: Seq<Placed>) -> Seq<PlacedModel> {
    v.map_values(|p: Placed| p@)
}

/// Whether camera `cam` has an image in capture `cap`.
pub open spec fn is_filled(r: Resolved, cap: u32, cam: u32) -> bool {
    exists|i: int|
        0 <= i < r.paths.len() && #[trigger] r.captures[i] == cap && r.cameras[i] == cam
}

/// `missing` lists, ascending, the captures that camera `cam` is absent from.
pub open spec fn are_the_gaps(r: Resolved, cam: u32, missing: Seq<u32>) -> bool {
    &&& sets::increasing(missing)
    &&& forall|c: u32|
        #[trigger] missing.contains(c) <==> r.captures.contains(c) && !is_filled(r, c, cam)
}

/// Whether camera `cam` is absent from some capture.
pub open spec fn has_gap(r: Resolved, cam: u32) -> bool {
    exists|c: u32| #[trigger] r.captures.contains(c) && !is_filled(r, c, cam)
}

/// The number of path levels does not match the declaration.
pub open spec fn depth_complaint(
    source: Seq<char>,
    layers: Seq<Layer>,
    path: Path,
) -> Seq<char> {
    "[layout] declares "@ + text::decimal(layers.len()) + " level(s) but "@ + source_of(
        source,
        path,
    ) + " is "@ + text::decimal(path.len()) + " level(s) deep under "@ + source
        + ".\n`layers` lists one role per path level, ending with the file itself."@
}

/// The complaint about the first image before `n` at another depth than the
/// declared one.
pub open spec fn depth_failure(
    source: Seq<char>,
    layers: Seq<Layer>,
    images: Seq<Path>,
    n: nat,
) -> Option<Seq<char>>
    decreases n,
{
    if n == 0 {
        None
    } else {
        match depth_failure(source, layers, images, (n - 1) as nat) {
            Some(m) => Some(m),
            None => if images[n - 1].len() != layers.len() {
                Some(depth_complaint(source, layers, images[n - 1]))
            } else {
                None
            },
        }
    }
}

/// Why no plan can be made, if none can.
pub open spec fn plan_failure(
    source: Seq<char>,
    tree: Option<Dir>,
    layers: Seq<Layer>,
) -> Option<Seq<char>> {
    match tree {
        None => Some("layout source directory does not exist: "@ + source),
        Some(dir) => {
            let images = images_in(dir);
            if layers.len() == 0 {
                Some(
                    "[layout] layers is empty; it needs one entry per path level, e.g. layers = [\"capture\", \"camera\"]"@,
                )
            } else if images.len() == 0 {
                Some("no images found under "@ + source)
            } else {
                match depth_failure(source, layers, images, images.len()) {
                    Some(m) => Some(m),
                    None => conflict_before(
                        resolve(images, layers),
                        source,
                        layers,
                        images.len(),
                    ),
                }
            }
        },
    }
}

/// The plan places every image, and reports the ids it used and the gaps.
pub open spec fn is_plan(p: Plan, r: Resolved, source: Seq<char>) -> bool {
    &&& placed_models(p.placed@) == placed_of(r, source)
    &&& p.captures@ == r.captures.to_set()
    &&& p.cameras@ == r.cameras.to_set()
    &&& forall|cam: u32| #[trigger]
        p.gaps@.dom().contains(cam) <==> r.cameras.contains(cam) && has_gap(r, cam)
    &&& forall|cam: u32|
        p.gaps@.dom().contains(cam) ==> are_the_gaps(r, cam, (#[trigger] p.gaps@[cam])@)
}

// ---------------------------------------------------------------------------
// Planning
// ---------------------------------------------------------------------------

fn source_path(source: &str, image: &RawImage) -> (r: String)
    ensures
        r@ == source_of(source@, image@),
{
    let rel = paths::join_text(&image.path, "/");
    paths::join(source, rel.as_str())
}

fn link_path(capture_id: u32, camera_id: u32, file: &str) -> (r: String)
    ensures
        r@ == capture_dir(capture_id) + "/"@ + camera_dir(camera_id) + "/"@ + file@,
{
    let mut r = String::from_str("capture_");
    r.append(padded_string(capture_id as u64, 3).as_str());
    r.append("/");
    let mut cam = String::from_str("cam");
    cam.append(padded_string(camera_id as u64, 3).as_str());
    r.append(cam.as_str());
    r.append("/");
    r.append(file);
    r
}

/// Every image must sit at the declared depth, or the roles line up against
/// the wrong path components and every id afterwards is quietly wrong.
fn check_depths(source: &str, layers: &Vec<Layer>, images: &Vec<RawImage>) -> (r: Option<String>)
    ensures
        match r {
            Some(m) => depth_failure(source@, layers@, raw_paths(images@), images@.len()) == Some(
                m@,
            ),
            None => depth_failure(source@, layers@, raw_paths(images@), images@.len()) is None
                && forall|i: int|
                0 <= i < images@.len() ==> (#[trigger] raw_paths(images@)[i]).len()
                    == layers@.len(),
        },
{
    let ghost all = raw_paths(images@);
    let mut i: usize = 0;
    let mut failure: Option<String> = None;
    while i < images.len()
        invariant
            i <= images.len(),
            all == raw_paths(images@),
            match failure {
                Some(m) => depth_failure(source@, layers@, all, i as nat) == Some(m@),
                None => depth_failure(source@, layers@, all, i as nat) is None && forall|k: int|
                    0 <= k < i ==> (#[trigger] all[k]).len() == layers@.len(),
            },
        decreases images.len() - i,
    {
        assert(all[i as int] == images@[i as int]@);
        if failure.is_none() && images[i].path.len() != layers.len() {
            let mut m = String::from_str("[layout] declares ");
            m.append(decimal_string(layers.len() as u64).as_str());
            m.append(" level(s) but ");
            m.append(source_path(source, &images[i]).as_str());
            m.append(" is ");
            m.append(decimal_string(images[i].path.len() as u64).as_str());
            m.append(" level(s) deep under ");
            m.append(source);
            m.append(
                ".\n`layers` lists one role per path level, ending with the file itself.",
            );
            assert(m@ == depth_complaint(source@, layers@, all[i as int]));
            failure = Some(m);
        }
        i += 1;
    }
    failure
}

/// The identities of the images, worked out.
struct Identities {
    captures: Vec<u32>,
    cameras: Vec<u32>,
    shots: Vec<String>,
}

impl Identities {
    spec fn models(&self, r: Resolved) -> bool {
        &&& self.captures@ == r.captures
        &&& self.cameras@ == r.cameras
        &&& order::texts(self.shots@) == r.shots
        &&& r.captures.len() == r.paths.len()
        &&& r.cameras.len() == r.paths.len()
        &&& r.shots.len() == r.paths.len()
    }
}

fn identify(images: &Vec<RawImage>, layers: &Vec<Layer>) -> (out: Identities)
    requires
        images.len() <= u32::MAX,
    ensures
        out.models(resolve(raw_paths(images@), layers@)),
{
    let capture_keys = all_keys(images, layers, Layer::Capture);
    let camera_keys = all_keys(images, layers, Layer::Camera);
    let shots = all_keys(images, layers, Layer::Image);
    assert(capture_keys@.len() == order::texts(capture_keys@).len());
    assert(camera_keys@.len() == order::texts(camera_keys@).len());
    assert(shots@.len() == order::texts(shots@).len());
    Identities {
        captures: assign_ids(&capture_keys),
        cameras: assign_ids(&camera_keys),
        shots,
    }
}

proof fn lemma_shots_of_camera(r: Resolved, i: int, n: nat)
    requires
        0 <= i < n,
    ensures
        shots_of_camera(r, i, n).contains(r.shots[i]),
        shots_of_camera(r, i, n).len() <= n,
    decreases n,
{
    let s = shots_of_camera(r, i, n);
    let front = shots_of_camera(r, i, (n - 1) as nat);
    if i == n - 1 {
        lemma_shots_of_camera_len(r, i, (n - 1) as nat);
        assert(s[s.len() - 1] == r.shots[i]);
    } else {
        lemma_shots_of_camera(r, i, (n - 1) as nat);
        let k = choose|k: int| 0 <= k < front.len() && front[k] == r.shots[i];
        assert(s[k] == r.shots[i]);
    }
}

proof fn lemma_shots_of_camera_len(r: Resolved, i: int, n: nat)
    ensures
        shots_of_camera(r, i, n).len() <= n,
    decreases n,
{
    if n > 0 {
        lemma_shots_of_camera_len(r, i, (n - 1) as nat);
    }
}

fn slot(ids: &Identities, i: usize, Ghost(r): Ghost<Resolved>) -> (out: u32)
    requires
        ids.models(r),
        i < r.paths.len() <= u32::MAX,
    ensures
        out == slot_of(r, i as int) as u32,
        0 <= slot_of(r, i as int) < r.paths.len(),
{
    let mut beside: Vec<String> = Vec::new();
    let mut k: usize = 0;
    assert(order::texts(beside@) =~= shots_of_camera(r, i as int, 0));
    while k < ids.shots.len()
        invariant
            ids.models(r),
            i < r.paths.len(),
            k <= ids.shots.len(),
            ids.shots@.len() == order::texts(ids.shots@).len(),
            order::texts(beside@) == shots_of_camera(r, i as int, k as nat),
        decreases ids.shots.len() - k,
    {
        if ids.cameras[k] == ids.cameras[i] {
            let ghost before = beside@;
            beside.push(ids.shots[k].clone());
            proof {
                order::lemma_texts_push(before, beside@.last());
                assert(beside@ =~= before.push(beside@.last()));
                assert(order::texts(ids.shots@)[k as int] == ids.shots@[k as int]@);
            }
        }
        k += 1;
    }
    assert(ids.shots@.len() == order::texts(ids.shots@).len());
    let ghost all = shots_of_camera(r, i as int, r.paths.len());
    let slots = sets::distinct_texts(&beside);
    proof {
        lemma_shots_of_camera(r, i as int, r.paths.len());
        sets::distinct_is_the_ascending_set(all);
        assert(order::texts(ids.shots@)[i as int] == ids.shots@[i as int]@);
        assert(sets::distinct(all).contains(r.shots[i as int]));
    }
    match sets::position(&slots, &ids.shots[i]) {
        Some(k) => {
            assert(order::texts(slots@)[k as int] == slots@[k as int]@);
            proof {
                sets::lemma_ascending_index(sets::distinct(all), k as int);
                assert(slots@.len() == order::texts(slots@).len());
            }
            k as u32
        },
        None => {
            assert(false);
            0
        },
    }
}

/// The first image before `n` with the identity of image `i`.
fn find_identity(ids: &Identities, i: usize, Ghost(r): Ghost<Resolved>) -> (out: Option<usize>)
    requires
        ids.models(r),
        i < r.paths.len(),
    ensures
        match out {
            Some(j) => j < i && identity_taken(r, i as int, i as nat) == Some(j as int),
            None => identity_taken(r, i as int, i as nat) is None,
        },
{
    let mut found: Option<usize> = None;
    let mut k: usize = 0;
    assert(ids.shots@.len() == order::texts(ids.shots@).len());
    while k < i
        invariant
            ids.models(r),
            ids.shots@.len() == order::texts(ids.shots@).len(),
            k <= i < r.paths.len(),
            match found {
                Some(j) => j < k && identity_taken(r, i as int, k as nat) == Some(j as int),
                None => identity_taken(r, i as int, k as nat) is None,
            },
        decreases i - k,
    {
        assert(order::texts(ids.shots@)[k as int] == ids.shots@[k as int]@);
        assert(order::texts(ids.shots@)[i as int] == ids.shots@[i as int]@);
        if found.is_none() && ids.captures[k] == ids.captures[i] && ids.cameras[k]
            == ids.cameras[i] && ids.shots[k] == ids.shots[i] {
            found = Some(k);
        }
        k += 1;
    }
    found
}

/// The first image before `i` with the link of image `i`.
fn find_link(placed: &Vec<Placed>, link: &String, Ghost(r): Ghost<Resolved>) -> (out: Option<usize>)
    requires
        placed@.len() < r.paths.len(),
        forall|k: int| 0 <= k < placed@.len() ==> (#[trigger] placed@[k]).link@ == link_of(r, k),
        link@ == link_of(r, placed@.len() as int),
    ensures
        match out {
            Some(j) => j < placed@.len() && link_taken(r, placed@.len() as int, placed@.len())
                == Some(j as int),
            None => link_taken(r, placed@.len() as int, placed@.len()) is None,
        },
{
    let mut found: Option<usize> = None;
    let mut k: usize = 0;
    let ghost i = placed@.len() as int;
    while k < placed.len()
        invariant
            k <= placed.len(),
            i == placed@.len(),
            forall|k: int| 0 <= k < placed@.len() ==> (#[trigger] placed@[k]).link@ == link_of(r, k),
            link@ == link_of(r, i),
            match found {
                Some(j) => j < k && link_taken(r, i, k as nat) == Some(j as int),
                None => link_taken(r, i, k as nat) is None,
            },
        decreases placed.len() - k,
    {
        if found.is_none() && placed[k].link == *link {
            found = Some(k);
        }
        k += 1;
    }
    found
}

fn has_image_layer(layers: &Vec<Layer>) -> (r: bool)
    ensures
        r == layers@.contains(Layer::Image),
{
    let mut i: usize = 0;
    while i < layers.len()
        invariant
            i <= layers.len(),
            forall|k: int| 0 <= k < i ==> layers@[k] != Layer::Image,
        decreases layers.len() - i,
    {
        if layers[i] == Layer::Image {
            assert(layers@[i as int] == Layer::Image);
            return true;
        }
        i += 1;
    }
    false
}

/// Places every image, or says which two of them collide.
fn place(
    source: &str,
    layers: &Vec<Layer>,
    images: &Vec<RawImage>,
    ids: &Identities,
    Ghost(r): Ghost<Resolved>,
) -> (out: Result<Vec<Placed>, String>)
    requires
        ids.models(r),
        r.paths == raw_paths(images@),
        images@.len() <= u32::MAX,
        forall|i: int| 0 <= i < r.paths.len() ==> (#[trigger] r.paths[i]).len() > 0,
    ensures
        match out {
            Ok(placed) => conflict_before(r, source@, layers@, r.paths.len()) is None
                && placed_models(placed@) == placed_of(r, source@),
            Err(m) => conflict_before(r, source@, layers@, r.paths.len()) == Some(m@),
        },
{
    let mut placed: Vec<Placed> = Vec::new();
    let mut i: usize = 0;
    let ghost all = placed_of(r, source@);
    assert(placed_models(placed@) =~= all.take(0));
    while i < images.len()
        invariant
            i <= images.len(),
            ids.models(r),
            r.paths == raw_paths(images@),
            images@.len() <= u32::MAX,
            forall|k: int| 0 <= k < r.paths.len() ==> (#[trigger] r.paths[k]).len() > 0,
            all == placed_of(r, source@),
            placed@.len() == i,
            placed_models(placed@) == all.take(i as int),
            conflict_before(r, source@, layers@, i as nat) is None,
        decreases images.len() - i,
    {
        let capture_id: u32 = ids.captures[i];
        let camera_id: u32 = ids.cameras[i];
        assert(r.paths[i as int] == images@[i as int]@);
        let path = &images[i].path;
        assert(path@.len() == r.paths[i as int].len());
        let file = &path[path.len() - 1];
        assert(r.paths[i as int].last() == file@);
        let link = link_path(capture_id, camera_id, file.as_str());
        if let Some(j) = find_identity(ids, i, Ghost(r)) {
            let mut m = String::from_str("layout maps two images to capture ");
            m.append(decimal_string(capture_id as u64).as_str());
            m.append(", camera ");
            m.append(decimal_string(camera_id as u64).as_str());
            m.append(":\n  ");
            assert(r.paths[j as int] == images@[j as int]@);
            m.append(source_path(source, &images[j]).as_str());
            m.append("\n  ");
            m.append(source_path(source, &images[i]).as_str());
            m.append("\n");
            if has_image_layer(layers) {
                m.append("Check the [layout] layers in sfm.toml.");
            } else {
                m.append(
                    "If these are meant to be separate shots of one camera, add an \"image\" level to `layers`.",
                );
            }
            assert(conflict_at(r, source@, layers@, i as int) == Some(m@));
            proof {
                lemma_conflict_stays(r, source@, layers@, i as nat + 1, r.paths.len());
            }
            return Err(m);
        }
        assert forall|k: int| 0 <= k < placed@.len() implies (#[trigger] placed@[k]).link@
            == link_of(r, k) by {
            assert(placed_models(placed@)[k] == all[k]);
        }
        if let Some(j) = find_link(&placed, &link, Ghost(r)) {
            let mut m = String::from_str("layout maps two images to the same place (");
            m.append(link.as_str());
            m.append("):\n  ");
            assert(r.paths[j as int] == images@[j as int]@);
            m.append(source_path(source, &images[j]).as_str());
            m.append("\n  ");
            m.append(source_path(source, &images[i]).as_str());
            m.append("\nCheck the [layout] layers in sfm.toml.");
            assert(conflict_at(r, source@, layers@, i as int) == Some(m@));
            proof {
                lemma_conflict_stays(r, source@, layers@, i as nat + 1, r.paths.len());
            }
            return Err(m);
        }
        let image_index: u32 = slot(ids, i, Ghost(r));
        let p = Placed {
            source: source_path(source, &images[i]),
            capture_id,
            camera_id,
            image_index,
            link,
        };
        assert(p@ == all[i as int]);
        let ghost before = placed@;
        placed.push(p);
        assert(placed_models(placed@) =~= placed_models(before).push(p@));
        i += 1;
        assert(placed_models(placed@) =~= all.take(i as int));
    }
    assert(all.take(all.len() as int) =~= all);
    Ok(placed)
}

proof fn lemma_conflict_stays(r: Resolved, source: Seq<char>, layers: Seq<Layer>, n: nat, m: nat)
    requires
        n <= m,
        conflict_before(r, source, layers, n) is Some,
    ensures
        conflict_before(r, source, layers, m) == conflict_before(r, source, layers, n),
    decreases m,
{
    if n < m {
        lemma_conflict_stays(r, source, layers, n, (m - 1) as nat);
    }
}

fn filled(ids: &Identities, cap: u32, cam: u32, Ghost(r): Ghost<Resolved>) -> (out: bool)
    requires
        ids.models(r),
    ensures
        out == is_filled(r, cap, cam),
{
    let mut i: usize = 0;
    while i < ids.captures.len()
        invariant
            ids.models(r),
            i <= ids.captures.len(),
            forall|k: int| 0 <= k < i ==> !(#[trigger] r.captures[k] == cap && r.cameras[k] == cam),
        decreases ids.captures.len() - i,
    {
        if ids.captures[i] == cap && ids.cameras[i] == cam {
            assert(r.captures[i as int] == cap);
            return true;
        }
        i += 1;
    }
    false
}

/// The captures that a camera is missing from.
fn missing_from(
    captures: &Vec<u32>,
    ids: &Identities,
    cam: u32,
    Ghost(r): Ghost<Resolved>,
) -> (out: Vec<u32>)
    requires
        ids.models(r),
        sets::increasing(captures@),
        captures@.to_set() == r.captures.to_set(),
    ensures
        are_the_gaps(r, cam, out@),
{
    let mut out: Vec<u32> = Vec::new();
    let mut i: usize = 0;
    while i < captures.len()
        invariant
            ids.models(r),
            sets::increasing(captures@),
            i <= captures.len(),
            sets::increasing(out@),
            forall|k: int|
                0 <= k < out@.len() && i < captures@.len() ==> (#[trigger] out@[k]).value()
                    < captures@[i as int].value(),
            forall|c: u32| #[trigger]
                out@.contains(c) <==> captures@.take(i as int).contains(c) && !is_filled(r, c, cam),
        decreases captures.len() - i,
    {
        let c: u32 = captures[i];
        let ghost before = out@;
        if !filled(ids, c, cam, Ghost(r)) {
            out.push(c);
        }
        proof {
            sets::lemma_take_to_set(captures@, i as int);
            assert forall|x: u32| #[trigger] out@.contains(x) <==> captures@.take(
                i + 1,
            ).contains(x) && !is_filled(r, x, cam) by {
                assert(captures@.take(i + 1).to_set().contains(x) == (captures@.take(
                    i as int,
                ).to_set().contains(x) || x == c));
                if before.contains(x) {
                    let k = choose|k: int| 0 <= k < before.len() && before[k] == x;
                    assert(out@[k] == x);
                }
                if x == c && !is_filled(r, c, cam) {
                    assert(out@[out@.len() - 1] == c);
                }
                if out@.contains(x) && !before.contains(x) {
                    let k = choose|k: int| 0 <= k < out@.len() && out@[k] == x;
                    if k < before.len() {
                        assert(before[k] == x);
                    }
                }
            }
            if i + 1 < captures@.len() {
                assert(captures@[i as int].value() < captures@[i + 1].value());
            }
        }
        i += 1;
    }
    assert(captures@.take(captures@.len() as int) =~= captures@);
    assert forall|c: u32| #[trigger] out@.contains(c) <==> r.captures.contains(c) && !is_filled(
        r,
        c,
        cam,
    ) by {
        assert(captures@.take(i as int) == captures@);
        assert(captures@.to_set().contains(c) == captures@.contains(c));
        assert(r.captures.to_set().contains(c) == r.captures.contains(c));
    }
    out
}

fn number_set(v: &Vec<u32>) -> (out: BTreeSet<u32>)
    ensures
        out@ == v@.to_set(),
{
    broadcast use vstd::std_specs::btree::group_btree_axioms;

    let mut out: BTreeSet<u32> = BTreeSet::new();
    let mut i: usize = 0;
    assert(out@ =~= v@.take(0).to_set());
    while i < v.len()
        invariant
            i <= v.len(),
            out@ == v@.take(i as int).to_set(),
        decreases v.len() - i,
    {
        out.insert(v[i]);
        proof {
            sets::lemma_take_to_set(v@, i as int);
        }
        i += 1;
    }
    assert(v@.take(v@.len() as int) =~= v@);
    out
}

/// Reads the listing of `source` and works out where every image belongs.
/// Creates nothing.
pub fn plan(source: &str, tree: Option<&Dir>, cfg: &LayoutConfig) -> (out: Result<Plan, SfmError>)
    requires
        tree is Some ==> images_in(*tree->0).len() <= u32::MAX,
    ensures
        match out {
            Ok(p) => tree is Some && plan_failure(source@, Some(*tree->0), cfg.layers@) is None
                && is_plan(p, resolve(images_in(*tree->0), cfg.layers@), source@),
            Err(e) => e matches SfmError::Other(m) && (match tree {
                Some(dir) => plan_failure(source@, Some(*dir), cfg.layers@),
                None => plan_failure(source@, None, cfg.layers@),
            }) == Some(m@),
        },
{
    broadcast use vstd::std_specs::btree::group_btree_axioms;

    let dir = match tree {
        Some(d) => d,
        None => {
            let mut m = String::from_str("layout source directory does not exist: ");
            m.append(source);
            return Err(SfmError::Other(m));
        },
    };
    if cfg.layers.len() == 0 {
        return Err(
            SfmError::Other(
                String::from_str(
                    "[layout] layers is empty; it needs one entry per path level, e.g. layers = [\"capture\", \"camera\"]",
                ),
            ),
        );
    }
    let images = collect_images(dir);
    assert(images@.len() == raw_paths(images@).len());
    if images.len() == 0 {
        let mut m = String::from_str("no images found under ");
        m.append(source);
        return Err(SfmError::Other(m));
    }
    if let Some(m) = check_depths(source, &cfg.layers, &images) {
        return Err(SfmError::Other(m));
    }
    let ids = identify(&images, &cfg.layers);
    let ghost r = resolve(images_in(*dir), cfg.layers@);
    let placed = match place(source, &cfg.layers, &images, &ids, Ghost(r)) {
        Ok(p) => p,
        Err(m) => {
            return Err(SfmError::Other(m));
        },
    };
    let captures = sets::distinct_numbers(&ids.captures);
    let cameras = sets::distinct_numbers(&ids.cameras);
    let mut gaps: BTreeMap<u32, Vec<u32>> = BTreeMap::new();
    let mut i: usize = 0;
    while i < cameras.len()
        invariant
            i <= cameras.len(),
            ids.models(r),
            sets::increasing(captures@),
            captures@.to_set() == r.captures.to_set(),
            forall|cam: u32| #[trigger]
                gaps@.dom().contains(cam) <==> cameras@.take(i as int).contains(cam) && has_gap(
                    r,
                    cam,
                ),
            forall|cam: u32|
                gaps@.dom().contains(cam) ==> are_the_gaps(r, cam, (#[trigger] gaps@[cam])@),
        decreases cameras.len() - i,
    {
        let cam: u32 = cameras[i];
        let missing = missing_from(&captures, &ids, cam, Ghost(r));
        let ghost before = gaps@;
        proof {
            sets::lemma_take_to_set(cameras@, i as int);
            assert(has_gap(r, cam) <==> missing@.len() > 0) by {
                if missing@.len() > 0 {
                    assert(missing@.contains(missing@[0]));
                }
                if has_gap(r, cam) {
                    let c = choose|c: u32| #[trigger] r.captures.contains(c) && !is_filled(r, c, cam);
                    assert(missing@.contains(c));
                }
            }
        }
        if missing.len() > 0 {
            gaps.insert(cam, missing);
        }
        proof {
            assert forall|x: u32| #[trigger] gaps@.dom().contains(x) <==> cameras@.take(
                i + 1,
            ).contains(x) && has_gap(r, x) by {
                assert(cameras@.take(i + 1).to_set().contains(x) == (cameras@.take(
                    i as int,
                ).to_set().contains(x) || x == cam));
                assert(before.dom().contains(x) <==> cameras@.take(i as int).contains(x) && has_gap(
                    r,
                    x,
                ));
            }
            assert forall|x: u32| gaps@.dom().contains(x) implies are_the_gaps(
                r,
                x,
                (#[trigger] gaps@[x])@,
            ) by {
                if x != cam {
                    assert(before.dom().contains(x));
                    assert(are_the_gaps(r, x, before[x]@));
                }
            }
        }
        i += 1;
    }
    proof {
        assert(cameras@.take(cameras@.len() as int) =~= cameras@);
        assert forall|cam: u32| #[trigger] gaps@.dom().contains(cam) <==> r.cameras.contains(cam)
            && has_gap(r, cam) by {
            assert(cameras@.to_set().contains(cam) == cameras@.contains(cam));
            assert(r.cameras.to_set().contains(cam) == r.cameras.contains(cam));
        }
    }
    Ok(Plan { placed, captures: number_set(&captures), cameras: number_set(&cameras), gaps })
}

// ---------------------------------------------------------------------------
// What holds of every plan
// ---------------------------------------------------------------------------

proof fn lemma_none_taken(r: Resolved, i: int, n: nat, j: int)
    requires
        0 <= j < n,
    ensures
        identity_taken(r, i, n) is None ==> !same_identity(r, j, i),
        link_taken(r, i, n) is None ==> link_of(r, j) != link_of(r, i),
    decreases n,
{
    if j < n - 1 {
        lemma_none_taken(r, i, (n - 1) as nat, j);
    }
}

proof fn lemma_no_conflict_at(r: Resolved, source: Seq<char>, layers: Seq<Layer>, n: nat, i: int)
    requires
        0 <= i < n,
        conflict_before(r, source, layers, n) is None,
    ensures
        conflict_at(r, source, layers, i) is None,
    decreases n,
{
    if i < n - 1 {
        lemma_no_conflict_at(r, source, layers, (n - 1) as nat, i);
    }
}

/// An accepted layout gives no two images one identity, nor one place in the
/// linked tree.
pub proof fn plans_have_no_collisions(
    r: Resolved,
    source: Seq<char>,
    layers: Seq<Layer>,
    i: int,
    j: int,
)
    requires
        conflict_before(r, source, layers, r.paths.len()) is None,
        0 <= i < j < r.paths.len(),
    ensures
        !same_identity(r, i, j),
        link_of(r, i) != link_of(r, j),
{
    lemma_no_conflict_at(r, source, layers, r.paths.len(), j);
    lemma_none_taken(r, j, j as nat, i);
}

proof fn lemma_shots_of_camera_agree(r: Resolved, i: int, j: int, n: nat)
    requires
        r.cameras[i] == r.cameras[j],
    ensures
        shots_of_camera(r, i, n) == shots_of_camera(r, j, n),
    decreases n,
{
    if n > 0 {
        lemma_shots_of_camera_agree(r, i, j, (n - 1) as nat);
    }
}

/// Two images of one camera have the same slot exactly when they are the same
/// shot, whichever captures they belong to.
pub proof fn slots_are_stable(r: Resolved, i: int, j: int)
    requires
        0 <= i < r.paths.len(),
        0 <= j < r.paths.len(),
        r.cameras[i] == r.cameras[j],
    ensures
        slot_of(r, i) == slot_of(r, j) <==> r.shots[i] == r.shots[j],
        0 <= slot_of(r, i) < r.paths.len(),
{
    let n = r.paths.len();
    lemma_shots_of_camera_agree(r, i, j, n);
    lemma_shots_of_camera(r, i, n);
    lemma_shots_of_camera(r, j, n);
    lemma_shots_of_camera_len(r, i, n);
    let all = shots_of_camera(r, i, n);
    sets::distinct_is_the_ascending_set(all);
    assert(sets::distinct(all).contains(r.shots[i]));
    assert(sets::distinct(all).contains(r.shots[j]));
}

/// An accepted layout gives no two images one capture, camera and slot.
pub proof fn slots_tell_shots_apart(
    r: Resolved,
    source: Seq<char>,
    layers: Seq<Layer>,
    i: int,
    j: int,
)
    requires
        conflict_before(r, source, layers, r.paths.len()) is None,
        0 <= i < j < r.paths.len(),
    ensures
        !(r.captures[i] == r.captures[j] && r.cameras[i] == r.cameras[j] && slot_of(r, i)
            == slot_of(r, j)),
{
    plans_have_no_collisions(r, source, layers, i, j);
    if r.cameras[i] == r.cameras[j] {
        slots_are_stable(r, i, j);
    }
}

/// Every camera absent from a capture that has other images is reported, with
/// exactly the captures it is absent from.
pub proof fn gaps_are_complete(p: Plan, r: Resolved, source: Seq<char>, cap: u32, cam: u32)
    requires
        is_plan(p, r, source),
        r.captures.contains(cap),
        r.cameras.contains(cam),
    ensures
        is_filled(r, cap, cam) <==> !(p.gaps@.dom().contains(cam) && p.gaps@[cam]@.contains(cap)),
{
    if p.gaps@.dom().contains(cam) {
        assert(are_the_gaps(r, cam, p.gaps@[cam]@));
    }
}

/// The directory names of the linked tree carry the ids they were made from.
pub proof fn linked_names_carry_their_ids(id: u32)
    ensures
        dataset::number_of(capture_dir(id)) == Some(id),
        dataset::number_of(camera_dir(id)) == Some(id),
{
    reveal_strlit("capture_");
    reveal_strlit("cam");
    text::trailing_number_of_padded("capture_"@, id, 3);
    text::trailing_number_of_padded("cam"@, id, 3);
}

/// A tree of the canonical form: one directory per capture, in each one
/// directory per camera.
pub open spec fn is_linked_tree(dir: Dir) -> bool {
    &&& dataset::distinct_names(dir)
    &&& forall|i: int|
        0 <= i < dir.dirs@.len() ==> dataset::distinct_names(#[trigger] dir.dirs@[i]) && exists|
            c: u32,
        |
            dir.dirs@[i].name@ == #[trigger] capture_dir(c)
    &&& forall|i: int, j: int|
        0 <= i < dir.dirs@.len() && 0 <= j < dir.dirs@[i].dirs@.len() ==> exists|k: u32|
            (#[trigger] dir.dirs@[i].dirs@[j]).name@ == #[trigger] camera_dir(k)
}

/// The image stands at `capture_<id>/cam<id>/<file>` for its own ids.
pub open spec fn stands_at_its_ids(m: dataset::ImageModel) -> bool {
    exists|file: Seq<char>|
        m.name == #[trigger] paths::forward_slashes(
            paths::joined(
                paths::joined(capture_dir(m.capture_id), camera_dir(m.camera_id)),
                file,
            ),
        )
}

/// The name of a capture's or a camera's directory.
pub open spec fn dir_for(capture: bool, id: u32) -> Seq<char> {
    if capture {
        capture_dir(id)
    } else {
        camera_dir(id)
    }
}

/// Whether a directory is a capture's or a camera's.
pub open spec fn is_dir_for(capture: bool, name: Seq<char>) -> bool {
    exists|c: u32| name == #[trigger] dir_for(capture, c)
}

/// The ids of linked directories are those that they were named for.
pub proof fn lemma_ids_of_linked(names: Seq<Seq<char>>, capture: bool)
    requires
        names.no_duplicates(),
        forall|i: int| 0 <= i < names.len() ==> is_dir_for(capture, #[trigger] names[i]),
    ensures
        forall|k: int|
            0 <= k < names.len() ==> (#[trigger] names[k]) == dir_for(
                capture,
                dataset::ids_of(names)[k],
            ),
{
    assert forall|i: int| 0 <= i < names.len() implies dataset::number_of(#[trigger] names[i])
        is Some && names[i] == dir_for(capture, dataset::number_of(names[i]).unwrap()) by {
        let c = choose|c: u32| names[i] == #[trigger] dir_for(capture, c);
        linked_names_carry_their_ids(c);
    }
    assert forall|i: int, j: int| 0 <= i < j < names.len() implies dataset::number_of(
        #[trigger] names[i],
    ) != dataset::number_of(#[trigger] names[j]) by {
        assert(names[i] != names[j]);
        assert(names[i] == dir_for(capture, dataset::number_of(names[i]).unwrap()));
        assert(names[j] == dir_for(capture, dataset::number_of(names[j]).unwrap()));
        assert(dataset::number_of(names[i]) is Some);
        assert(dataset::number_of(names[j]) is Some);
    }
    assert(dataset::distinctly_numbered(names));
}

proof fn lemma_linked_cameras(
    root: Seq<char>,
    dir: Dir,
    capture_id: u32,
    n: nat,
)
    requires
        n <= dataset::dirs_of(dir).len(),
        dataset::distinct_names(dir),
        forall|j: int|
            0 <= j < dir.dirs@.len() ==> exists|k: u32|
                (#[trigger] dir.dirs@[j]).name@ == #[trigger] camera_dir(k),
    ensures
        forall|i: int|
            0 <= i < dataset::cameras_images(
                root,
                capture_dir(capture_id),
                dir,
                capture_id,
                n,
            ).len() ==> stands_at_its_ids(
                #[trigger] dataset::cameras_images(
                    root,
                    capture_dir(capture_id),
                    dir,
                    capture_id,
                    n,
                )[i],
            ),
    decreases n,
{
    if n > 0 {
        let rel = capture_dir(capture_id);
        let cams = dataset::dirs_of(dir);
        let names = dataset::names_of(cams);
        let ids = dataset::ids_of(names);
        let k = (n - 1) as int;
        lemma_linked_cameras(root, dir, capture_id, (n - 1) as nat);
        dataset::lemma_sorted_names_distinct(dir);
        assert forall|i: int| 0 <= i < names.len() implies is_dir_for(
            false,
            #[trigger] names[i],
        ) by {
            let j = dataset::lemma_is_listed(dir, i);
            let c = choose|c: u32| dir.dirs@[j].name@ == #[trigger] camera_dir(c);
            assert(names[i] == dir_for(false, c));
        }
        lemma_ids_of_linked(names, false);
        assert(names[k] == camera_dir(ids[k]));
        let front = dataset::cameras_images(root, rel, dir, capture_id, (n - 1) as nat);
        let all = dataset::cameras_images(root, rel, dir, capture_id, n);
        let files = dataset::images_of(*cams[k]);
        assert forall|i: int| 0 <= i < all.len() implies stands_at_its_ids(#[trigger] all[i]) by {
            if i < front.len() {
                assert(all[i] == front[i]);
            } else {
                let f = files[i - front.len()]@;
                let last = dataset::camera_images(
                    root,
                    paths::joined(rel, cams[k].name@),
                    *cams[k],
                    capture_id,
                    ids[k],
                );
                assert(all[i] == last[i - front.len()]);
                assert(all[i].capture_id == capture_id && all[i].camera_id == ids[k]);
                assert(all[i].name == paths::forward_slashes(
                    paths::joined(paths::joined(rel, camera_dir(ids[k])), f),
                ));
            }
        }
    }
}

proof fn lemma_linked_captures(root: Seq<char>, dir: Dir, n: nat)
    requires
        is_linked_tree(dir),
        n <= dataset::dirs_of(dir).len(),
    ensures
        forall|i: int|
            0 <= i < dataset::captures_images(root, dir, n).len() ==> stands_at_its_ids(
                #[trigger] dataset::captures_images(root, dir, n)[i],
            ),
    decreases n,
{
    if n > 0 {
        let caps = dataset::dirs_of(dir);
        let names = dataset::names_of(caps);
        let ids = dataset::ids_of(names);
        let k = (n - 1) as int;
        lemma_linked_captures(root, dir, (n - 1) as nat);
        dataset::lemma_sorted_names_distinct(dir);
        assert forall|i: int| 0 <= i < names.len() implies is_dir_for(
            true,
            #[trigger] names[i],
        ) by {
            let j = dataset::lemma_is_listed(dir, i);
            let c = choose|c: u32| dir.dirs@[j].name@ == #[trigger] capture_dir(c);
            assert(names[i] == dir_for(true, c));
        }
        lemma_ids_of_linked(names, true);
        assert(names[k] == capture_dir(ids[k]));
        let j = dataset::lemma_is_listed(dir, k);
        let cap = *caps[k];
        assert forall|b: int| 0 <= b < cap.dirs@.len() implies exists|c: u32|
            (#[trigger] cap.dirs@[b]).name@ == #[trigger] camera_dir(c) by {
            let c = choose|c: u32| dir.dirs@[j].dirs@[b].name@ == #[trigger] camera_dir(c);
            assert(cap.dirs@[b].name@ == camera_dir(c));
        }
        assert(dataset::distinct_names(dir.dirs@[j]));
        lemma_linked_cameras(root, cap, ids[k], dataset::dirs_of(cap).len());
        let front = dataset::captures_images(root, dir, (n - 1) as nat);
        let all = dataset::captures_images(root, dir, n);
        let last = dataset::cameras_images(
            root,
            capture_dir(ids[k]),
            cap,
            ids[k],
            dataset::dirs_of(cap).len(),
        );
        assert forall|i: int| 0 <= i < all.len() implies stands_at_its_ids(#[trigger] all[i]) by {
            if i < front.len() {
                assert(all[i] == front[i]);
            } else {
                assert(all[i] == last[i - front.len()]);
            }
        }
    }
}

/// Discovery reads a tree of the canonical form back as captures and cameras,
/// and gives every image the ids that its directories were named for.
pub proof fn linked_trees_read_back(root: Seq<char>, dir: Dir)
    requires
        is_linked_tree(dir),
        dataset::is_nested(dir),
    ensures
        dataset::layout_of(root, dir) == dataset::Layout::CapturesAndCameras,
        dataset::discovered(root, dir).len() > 0,
        forall|i: int|
            0 <= i < dataset::discovered(root, dir).len() ==> stands_at_its_ids(
                #[trigger] dataset::discovered(root, dir)[i],
            ),
{
    dataset::lemma_nested_has_images(root, dir);
    lemma_linked_captures(root, dir, dataset::dirs_of(dir).len());
}

/// A name stands for the one role that goes by it.
pub proof fn roles_go_by_their_names(name: Seq<char>)
    ensures
        role_of(name) == Some(Layer::Capture) <==> name == "capture"@,
        role_of(name) == Some(Layer::Camera) <==> name == "camera"@,
        role_of(name) == Some(Layer::Image) <==> name == "image"@ || name == "frame"@,
        role_of(name) == Some(Layer::Ignore) <==> name == "ignore"@,
{
    reveal_strlit("capture");
    reveal_strlit("camera");
    reveal_strlit("image");
    reveal_strlit("frame");
    reveal_strlit("ignore");
    assert("capture"@.len() == 7 && "camera"@.len() == 6 && "image"@.len() == 5 && "frame"@.len()
        == 5 && "ignore"@.len() == 6);
    assert("image"@[0] == 'i' && "frame"@[0] == 'f');
    assert("camera"@[0] == 'c' && "ignore"@[0] == 'i');
}

/// A directory holds an image at a path: the names along the path are those of
/// directories, each in the one before it, and the last is that of an image
/// file.
pub open spec fn holds_image(dir: Dir, rel: Path) -> bool
    decreases rel.len(),
{
    if rel.len() == 0 {
        false
    } else if rel.len() == 1 {
        exists|f: int|
            0 <= f < dir.files@.len() && (#[trigger] dir.files@[f])@ == rel[0]
                && dataset::names_an_image(rel[0])
    } else {
        exists|k: int|
            0 <= k < dir.dirs@.len() && (#[trigger] dir.dirs@[k]).name@ == rel[0] && holds_image(
                dir.dirs@[k],
                rel.drop_first(),
            )
    }
}

/// A path leads through one of the first `n` directories to an image.
spec fn leads_below(dir: Dir, prefix: Path, n: nat, p: Path) -> bool {
    &&& p.len() >= prefix.len() + 2
    &&& p.take(prefix.len() as int) == prefix
    &&& exists|k: int|
        0 <= k < n && (#[trigger] dir.dirs@[k]).name@ == p[prefix.len() as int] && holds_image(
            dir.dirs@[k],
            p.skip((prefix.len() + 1) as int),
        )
}

proof fn lemma_file_paths(files: Seq<String>, prefix: Path, p: Path)
    ensures
        file_paths(files, prefix).contains(p) <==> p.len() == prefix.len() + 1 && p.take(
            prefix.len() as int,
        ) == prefix && exists|f: int|
            0 <= f < files.len() && (#[trigger] files[f])@ == p[prefix.len() as int]
                && dataset::names_an_image(p[prefix.len() as int]),
{
    let among = dataset::images_among(files);
    let all = file_paths(files, prefix);
    if all.contains(p) {
        let k = choose|k: int| 0 <= k < all.len() && all[k] == p;
        assert(p == prefix.push(among[k]@));
        assert(p.take(prefix.len() as int) =~= prefix);
        dataset::the_images_are_files_that_name_one(files, among[k]);
        assert(among.contains(among[k]));
        let f = choose|f: int| 0 <= f < files.len() && files[f] == among[k];
        assert(files[f]@ == p[prefix.len() as int]);
    }
    if p.len() == prefix.len() + 1 && p.take(prefix.len() as int) == prefix && exists|f: int|
        0 <= f < files.len() && (#[trigger] files[f])@ == p[prefix.len() as int]
            && dataset::names_an_image(p[prefix.len() as int]) {
        let f = choose|f: int|
            0 <= f < files.len() && (#[trigger] files[f])@ == p[prefix.len() as int]
                && dataset::names_an_image(p[prefix.len() as int]);
        dataset::the_images_are_files_that_name_one(files, files[f]);
        assert(files.contains(files[f]));
        let k = choose|k: int| 0 <= k < among.len() && among[k] == files[f];
        assert(all[k] == prefix.push(files[f]@));
        assert(p =~= prefix.push(files[f]@));
        assert(all[k] == p);
    }
}

proof fn lemma_subtree_paths(dir: Dir, prefix: Path, n: nat, p: Path)
    requires
        n <= dir.dirs@.len(),
    ensures
        subtree_paths(dir, prefix, n).contains(p) <==> leads_below(dir, prefix, n, p),
    decreases dir, n,
{
    if n > 0 {
        let sub = dir.dirs@[n - 1];
        let front = subtree_paths(dir, prefix, (n - 1) as nat);
        let inner = tree_paths(sub, prefix.push(sub.name@));
        let all = subtree_paths(dir, prefix, n);
        lemma_subtree_paths(dir, prefix, (n - 1) as nat, p);
        lemma_tree_paths(sub, prefix.push(sub.name@), p);
        assert(all == front + inner);
        let m = prefix.len() as int;
        if all.contains(p) {
            let k = choose|k: int| 0 <= k < all.len() && all[k] == p;
            if k < front.len() {
                assert(front[k] == p);
                assert(leads_below(dir, prefix, (n - 1) as nat, p));
                let d = choose|d: int|
                    0 <= d < n - 1 && (#[trigger] dir.dirs@[d]).name@ == p[m] && holds_image(
                        dir.dirs@[d],
                        p.skip(m + 1),
                    );
                assert(dir.dirs@[d].name@ == p[m]);
            } else {
                assert(inner[k - front.len()] == p);
                assert(inner.contains(p));
                assert(p.take(m) =~= p.take(m + 1).take(m));
                assert(prefix.push(sub.name@).take(m) =~= prefix);
                assert(p.take(m + 1)[m] == p[m]);
                assert(dir.dirs@[n - 1].name@ == p[m]);
            }
        }
        if leads_below(dir, prefix, n, p) {
            let d = choose|d: int|
                0 <= d < n && (#[trigger] dir.dirs@[d]).name@ == p[m] && holds_image(
                    dir.dirs@[d],
                    p.skip(m + 1),
                );
            if d < n - 1 {
                assert(leads_below(dir, prefix, (n - 1) as nat, p));
                let k = choose|k: int| 0 <= k < front.len() && front[k] == p;
                assert(all[k] == p);
            } else {
                assert(p.take(m + 1) =~= prefix.push(sub.name@)) by {
                    assert(p.take(m + 1).drop_last() =~= p.take(m));
                }
                assert(inner.contains(p));
                let k = choose|k: int| 0 <= k < inner.len() && inner[k] == p;
                assert(all[front.len() + k] == p);
            }
        }
    }
}

proof fn lemma_tree_paths(dir: Dir, prefix: Path, p: Path)
    ensures
        tree_paths(dir, prefix).contains(p) <==> p.len() > prefix.len() && p.take(
            prefix.len() as int,
        ) == prefix && holds_image(dir, p.skip(prefix.len() as int)),
    decreases dir, dir.dirs@.len() + 1,
{
    let m = prefix.len() as int;
    let n = dir.dirs@.len();
    let here = file_paths(dir.files@, prefix);
    let below = subtree_paths(dir, prefix, n);
    let all = tree_paths(dir, prefix);
    lemma_file_paths(dir.files@, prefix, p);
    lemma_subtree_paths(dir, prefix, n, p);
    assert(all == here + below);
    assert(all.contains(p) <==> here.contains(p) || below.contains(p)) by {
        if here.contains(p) {
            let k = choose|k: int| 0 <= k < here.len() && here[k] == p;
            assert(all[k] == p);
        }
        if below.contains(p) {
            let k = choose|k: int| 0 <= k < below.len() && below[k] == p;
            assert(all[here.len() + k] == p);
        }
        if all.contains(p) {
            let k = choose|k: int| 0 <= k < all.len() && all[k] == p;
            if k < here.len() {
                assert(here[k] == p);
            } else {
                assert(below[k - here.len()] == p);
            }
        }
    }
    if p.len() > m {
        let rel = p.skip(m);
        assert(rel[0] == p[m]);
        assert(rel.drop_first() =~= p.skip(m + 1));
        if rel.len() >= 2 && holds_image(dir, rel) {
            let k = choose|k: int|
                0 <= k < dir.dirs@.len() && (#[trigger] dir.dirs@[k]).name@ == rel[0]
                    && holds_image(dir.dirs@[k], rel.drop_first());
            assert(dir.dirs@[k].name@ == p[m]);
        }
        if leads_below(dir, prefix, n, p) {
            let k = choose|k: int|
                0 <= k < n && (#[trigger] dir.dirs@[k]).name@ == p[m] && holds_image(
                    dir.dirs@[k],
                    p.skip(m + 1),
                );
            assert(dir.dirs@[k].name@ == rel[0]);
        }
    }
}

/// Exactly the images of a tree are collected, however deep they lie, in the
/// order of their paths.
pub proof fn every_image_of_a_tree_is_collected(dir: Dir, path: Path)
    ensures
        images_in(dir).contains(path) <==> holds_image(dir, path),
        forall|i: int, j: int|
            0 <= i < j < images_in(dir).len() ==> !order::path_precedes(
                #[trigger] images_in(dir)[j],
                #[trigger] images_in(dir)[i],
            ),
{
    broadcast use vstd::seq_lib::group_to_multiset_ensures;

    let none: Path = Seq::empty();
    let all = tree_paths(dir, none);
    lemma_tree_paths(dir, none, path);
    assert(path.take(0) =~= none);
    assert(path.skip(0) =~= path);
    let less = by_path();
    assert(order::orders(less)) by {
        assert forall|x: Path| !#[trigger] less(x, x) by {
            order::paths_are_totally_ordered(x, x, x);
        }
        assert forall|x: Path, y: Path, z: Path| #[trigger] less(x, y) && #[trigger] less(
            y,
            z,
        ) implies less(x, z) by {
            order::paths_are_totally_ordered(x, y, z);
        }
        assert forall|x: Path, y: Path, z: Path| !#[trigger] less(x, y) && !#[trigger] less(
            y,
            z,
        ) implies !less(x, z) by {
            order::paths_are_totally_ordered(x, z, y);
            order::paths_are_totally_ordered(y, x, z);
            order::paths_are_totally_ordered(z, y, x);
        }
    }
    order::sorted_by_is_an_ordered_permutation(all, by_path());
    assert(all.to_multiset().count(path) == images_in(dir).to_multiset().count(path));
    assert forall|i: int, j: int| 0 <= i < j < images_in(dir).len() implies !order::path_precedes(
        #[trigger] images_in(dir)[j],
        #[trigger] images_in(dir)[i],
    ) by {
        assert(!by_path()(images_in(dir)[j], images_in(dir)[i]));
    }
}

/// The levels of a path are its names, the last without its extension.
pub proof fn levels_are_the_names_of_a_path(path: Path, i: int)
    requires
        0 <= i < path.len(),
    ensures
        levels(path).len() == path.len(),
        i < path.len() - 1 ==> levels(path)[i] == path[i],
        i == path.len() - 1 ==> levels(path)[i] == paths::stem_of(path[i]),
{
}

/// Every level that carries a role is part of what identifies it, in order,
/// and no other level is.
pub proof fn keys_are_made_of_the_levels_of_their_role(
    path: Path,
    layers: Seq<Layer>,
    role: Layer,
    n: nat,
)
    requires
        n <= layers.len() <= path.len(),
    ensures
        levels_with(path, layers, role, n).len() == sets::how_many(layers, sets::is_key(role), n),
        forall|k: int|
            0 <= k < n && #[trigger] layers[k] == role ==> sets::how_many(
                layers,
                sets::is_key(role),
                k as nat,
            ) < levels_with(path, layers, role, n).len() && levels_with(
                path,
                layers,
                role,
                n,
            )[sets::how_many(layers, sets::is_key(role), k as nat) as int] == levels(path)[k],
    decreases n,
{
    sets::lemma_none_of_none(layers, sets::is_key(role));
    if n > 0 {
        keys_are_made_of_the_levels_of_their_role(path, layers, role, (n - 1) as nat);
        sets::lemma_one_more(layers, sets::is_key(role), (n - 1) as nat);
        let front = levels_with(path, layers, role, (n - 1) as nat);
        let all = levels_with(path, layers, role, n);
        assert(front.len() <= all.len());
        assert forall|k: int| 0 <= k < n && #[trigger] layers[k] == role implies sets::how_many(
            layers,
            sets::is_key(role),
            k as nat,
        ) < all.len() && all[sets::how_many(layers, sets::is_key(role), k as nat) as int]
            == levels(path)[k] by {
            if k < n - 1 {
                let at = sets::how_many(layers, sets::is_key(role), k as nat) as int;
                assert(at < front.len());
                assert(all[at] == front[at]);
            }
        }
    }
}

proof fn lemma_one_level(path: Path, layers: Seq<Layer>, role: Layer, k: int, n: nat)
    requires
        0 <= k < layers.len() <= path.len(),
        n <= layers.len(),
        layers[k] == role,
        forall|j: int| 0 <= j < layers.len() && j != k ==> #[trigger] layers[j] != role,
    ensures
        levels_with(path, layers, role, n) == if k < n {
            seq![levels(path)[k]]
        } else {
            Seq::empty()
        },
    decreases n,
{
    if n > 0 {
        lemma_one_level(path, layers, role, k, (n - 1) as nat);
        assert(levels_with(path, layers, role, n) =~= if k < n {
            seq![levels(path)[k]]
        } else {
            Seq::empty()
        });
    }
}

/// A role that one level carries is identified by that level alone.
pub proof fn a_single_level_is_the_key(path: Path, layers: Seq<Layer>, role: Layer, k: int)
    requires
        0 <= k < layers.len() <= path.len(),
        layers[k] == role,
        forall|j: int| 0 <= j < layers.len() && j != k ==> #[trigger] layers[j] != role,
    ensures
        key_of(path, layers, role) == levels(path)[k],
{
    lemma_one_level(path, layers, role, k, layers.len());
}

/// Where different keys carry different numbers, the number of a key is its
/// id.
pub proof fn keys_keep_their_numbers(keys: Seq<Seq<char>>, i: int)
    requires
        keys.len() <= u32::MAX,
        0 <= i < keys.len(),
        forall|a: int| 0 <= a < keys.len() ==> dataset::number_of(#[trigger] keys[a]) is Some,
        forall|a: int, b: int|
            0 <= a < keys.len() && 0 <= b < keys.len() && #[trigger] keys[a] != #[trigger] keys[b]
                ==> dataset::number_of(keys[a]) != dataset::number_of(keys[b]),
    ensures
        Some(assigned(keys)[i]) == dataset::number_of(keys[i]),
{
    let all = sets::distinct(keys);
    sets::distinct_is_the_ascending_set(keys);
    assert forall|a: int| 0 <= a < all.len() implies dataset::number_of(#[trigger] all[a])
        is Some by {
        assert(all.contains(all[a]));
        let k = choose|k: int| 0 <= k < keys.len() && keys[k] == all[a];
        assert(dataset::number_of(keys[k]) is Some);
    }
    assert forall|a: int, b: int| 0 <= a < b < all.len() implies dataset::number_of(
        #[trigger] all[a],
    ) != dataset::number_of(#[trigger] all[b]) by {
        assert(all.contains(all[a]) && all.contains(all[b]));
        let k = choose|k: int| 0 <= k < keys.len() && keys[k] == all[a];
        let l = choose|l: int| 0 <= l < keys.len() && keys[l] == all[b];
        sets::lemma_ascending_index(all, a);
        sets::lemma_ascending_index(all, b);
        assert(keys[k] != keys[l]);
    }
    assert(dataset::distinctly_numbered(all));
    assert(keys.contains(keys[i]));
    assert(all.contains(keys[i]));
    let at = all.index_of(keys[i]);
    assert(all[at] == keys[i]);
    assert(dataset::number_of(all[at]) is Some);
}

/// Where a key carries no number, or two carry the same, keys are numbered in
/// their order from 0.
pub proof fn other_keys_are_numbered_in_order(keys: Seq<Seq<char>>, i: int)
    requires
        keys.len() <= u32::MAX,
        0 <= i < keys.len(),
        exists|a: int, b: int|
            0 <= a < keys.len() && 0 <= b < keys.len() && (dataset::number_of(#[trigger] keys[a])
                is None || (keys[a] != #[trigger] keys[b] && dataset::number_of(keys[a])
                == dataset::number_of(keys[b]))),
    ensures
        assigned(keys)[i] == sets::distinct(keys).index_of(keys[i]),
        assigned(keys)[i] < keys.len(),
{
    let all = sets::distinct(keys);
    sets::distinct_is_the_ascending_set(keys);
    assert(keys.contains(keys[i]));
    assert(all.contains(keys[i]));
    let (a, b) = choose|a: int, b: int|
        0 <= a < keys.len() && 0 <= b < keys.len() && (dataset::number_of(#[trigger] keys[a])
            is None || (keys[a] != #[trigger] keys[b] && dataset::number_of(keys[a])
            == dataset::number_of(keys[b])));
    assert(keys.contains(keys[a]) && keys.contains(keys[b]));
    assert(all.contains(keys[a]) && all.contains(keys[b]));
    let (x, y) = (all.index_of(keys[a]), all.index_of(keys[b]));
    assert(all[x] == keys[a] && all[y] == keys[b]);
    assert(!dataset::distinctly_numbered(all));
}

/// Two images are of one capture exactly where their capture levels agree, and
/// of one camera exactly where their camera levels do.
pub proof fn identities_come_from_their_own_levels(
    images: Seq<Path>,
    layers: Seq<Layer>,
    i: int,
    j: int,
)
    requires
        images.len() <= u32::MAX,
        0 <= i < images.len(),
        0 <= j < images.len(),
    ensures
        ({
            let r = resolve(images, layers);
            &&& r.captures[i] == r.captures[j] <==> key_of(images[i], layers, Layer::Capture)
                == key_of(images[j], layers, Layer::Capture)
            &&& r.cameras[i] == r.cameras[j] <==> key_of(images[i], layers, Layer::Camera)
                == key_of(images[j], layers, Layer::Camera)
            &&& r.shots[i] == key_of(images[i], layers, Layer::Image)
        }),
{
    ids_follow_keys(keys_of(images, layers, Layer::Capture), i, j);
    ids_follow_keys(keys_of(images, layers, Layer::Camera), i, j);
}

/// The shots of a camera are numbered in the order of their keys.
pub proof fn slots_follow_the_order_of_shots(r: Resolved, i: int, j: int)
    requires
        0 <= i < r.paths.len(),
        0 <= j < r.paths.len(),
        r.cameras[i] == r.cameras[j],
        order::precedes(r.shots[i], r.shots[j]),
    ensures
        slot_of(r, i) < slot_of(r, j),
{
    let n = r.paths.len();
    lemma_shots_of_camera_agree(r, i, j, n);
    lemma_shots_of_camera(r, i, n);
    lemma_shots_of_camera(r, j, n);
    let all = sets::distinct(shots_of_camera(r, i, n));
    sets::distinct_is_the_ascending_set(shots_of_camera(r, i, n));
    assert(all.contains(r.shots[i]));
    assert(all.contains(r.shots[j]));
    let (a, b) = (all.index_of(r.shots[i]), all.index_of(r.shots[j]));
    assert(all[a] == r.shots[i] && all[b] == r.shots[j]);
    order::names_are_totally_ordered(r.shots[i], r.shots[j], r.shots[i]);
    if b < a {
        assert(order::precedes(all[b], all[a]));
    }
}

/// An image that is refused for its identity has that of an earlier image, the
/// first that has it.
pub proof fn a_taken_identity_is_that_of_an_earlier_image(r: Resolved, i: int, n: nat)
    ensures
        match identity_taken(r, i, n) {
            Some(j) => 0 <= j < n && r.captures[j] == r.captures[i] && r.cameras[j] == r.cameras[i]
                && r.shots[j] == r.shots[i] && forall|k: int|
                0 <= k < j ==> !(#[trigger] r.captures[k] == r.captures[i] && r.cameras[k]
                    == r.cameras[i] && r.shots[k] == r.shots[i]),
            None => forall|k: int|
                0 <= k < n ==> !(#[trigger] r.captures[k] == r.captures[i] && r.cameras[k]
                    == r.cameras[i] && r.shots[k] == r.shots[i]),
        },
        match link_taken(r, i, n) {
            Some(j) => 0 <= j < n && link_of(r, j) == link_of(r, i),
            None => forall|k: int| 0 <= k < n ==> #[trigger] link_of(r, k) != link_of(r, i),
        },
    decreases n,
{
    if n > 0 {
        a_taken_identity_is_that_of_an_earlier_image(r, i, (n - 1) as nat);
    }
}

/// Paths are accepted exactly where every one has a level for each role; the
/// first that has not is complained about.
pub proof fn every_path_has_a_level_for_each_role(
    source: Seq<char>,
    layers: Seq<Layer>,
    images: Seq<Path>,
    n: nat,
)
    requires
        n <= images.len(),
    ensures
        match depth_failure(source, layers, images, n) {
            Some(m) => exists|k: int|
                0 <= k < n && (#[trigger] images[k]).len() != layers.len() && m == depth_complaint(
                    source,
                    layers,
                    images[k],
                ) && forall|j: int| 0 <= j < k ==> (#[trigger] images[j]).len() == layers.len(),
            None => forall|k: int| 0 <= k < n ==> (#[trigger] images[k]).len() == layers.len(),
        },
    decreases n,
{
    if n > 0 {
        every_path_has_a_level_for_each_role(source, layers, images, (n - 1) as nat);
        if depth_failure(source, layers, images, (n - 1) as nat) is None && images[n - 1].len()
            != layers.len() {
            assert(images[n - 1].len() != layers.len());
        }
    }
}

proof fn lemma_no_slash(digits: Seq<char>, head: Seq<char>)
    requires
        text::all_digits(digits),
        !head.contains('/'),
    ensures
        !(head + digits).contains('/'),
{
    let s = head + digits;
    if s.contains('/') {
        let k = choose|k: int| 0 <= k < s.len() && s[k] == '/';
        if k < head.len() {
            assert(head[k] == '/');
        } else {
            assert(text::is_digit(digits[k - head.len()]));
        }
    }
}

/// A link lies in the directory of its image's camera, in that of its capture,
/// under the file's own name.
pub proof fn links_lie_under_their_ids(r: Resolved, i: int)
    requires
        0 <= i < r.paths.len(),
        r.paths[i].len() > 0,
        !r.paths[i].last().contains('/'),
    ensures
        ({
            let steps = paths::split_on(link_of(r, i), '/');
            &&& steps.len() == 3
            &&& dataset::number_of(steps[0]) == Some(r.captures[i])
            &&& dataset::number_of(steps[1]) == Some(r.cameras[i])
            &&& steps[2] == r.paths[i].last()
        }),
{
    reveal_strlit("capture_");
    reveal_strlit("cam");
    reveal_strlit("/");
    let (a, b, c) = (capture_dir(r.captures[i]), camera_dir(r.cameras[i]), r.paths[i].last());
    text::padded_reads_back(r.captures[i] as nat, 3);
    text::padded_reads_back(r.cameras[i] as nat, 3);
    assert(!"capture_"@.contains('/'));
    assert(!"cam"@.contains('/'));
    lemma_no_slash(text::padded(r.captures[i] as nat, 3), "capture_"@);
    lemma_no_slash(text::padded(r.cameras[i] as nat, 3), "cam"@);
    linked_names_carry_their_ids(r.captures[i]);
    linked_names_carry_their_ids(r.cameras[i]);
    assert("/"@ =~= seq!['/']);
    let parts = seq![a, b, c];
    reveal_with_fuel(paths::join_with, 4);
    assert(parts.drop_last().drop_last() =~= seq![a]);
    assert(parts.drop_last().last() == b);
    assert(paths::join_with(parts, seq!['/']) =~= link_of(r, i));
    paths::joined_pieces_are_split_again(parts, '/');
}

/// The source of an image lies at its path below the raw dataset.
pub proof fn sources_lie_below_the_dataset(source: Seq<char>, path: Path)
    requires
        source.len() > 0,
        path.len() > 0,
        forall|i: int| 0 <= i < path.len() ==> paths::is_plain(#[trigger] path[i]),
    ensures
        paths::components(source_of(source, path)) == paths::components(source) + path,
{
    reveal_strlit("/");
    assert("/"@ =~= seq!['/']);
    let rel = paths::join_with(path, seq!['/']);
    assert forall|i: int| 0 <= i < path.len() implies !(#[trigger] path[i]).contains('/') by {
        assert(paths::is_plain(path[i]));
    }
    paths::written_paths_are_read(path);
    paths::joined_pieces_are_split_again(path, '/');
    paths::lemma_first_char(path);
    assert(paths::is_plain(path[0]));
    paths::joined_paths_have_both_components(source, rel);
}

/// A layout in which no two images share an identity or a place in the linked
/// tree is accepted.
pub proof fn layouts_without_collisions_are_accepted(
    r: Resolved,
    source: Seq<char>,
    layers: Seq<Layer>,
    n: nat,
)
    requires
        forall|i: int, j: int|
            0 <= i < j < n ==> !(#[trigger] r.captures[i] == #[trigger] r.captures[j]
                && r.cameras[i] == r.cameras[j] && r.shots[i] == r.shots[j]),
        forall|i: int, j: int|
            0 <= i < j < n ==> #[trigger] link_of(r, i) != #[trigger] link_of(r, j),
    ensures
        conflict_before(r, source, layers, n) is None,
    decreases n,
{
    if n > 0 {
        layouts_without_collisions_are_accepted(r, source, layers, (n - 1) as nat);
        a_taken_identity_is_that_of_an_earlier_image(r, n - 1, (n - 1) as nat);
        match identity_taken(r, n - 1, (n - 1) as nat) {
            Some(j) => {
                assert(r.captures[j] == r.captures[n - 1]);
            },
            None => {
                if link_taken(r, n - 1, (n - 1) as nat) is Some {
                    let j = link_taken(r, n - 1, (n - 1) as nat)->0;
                    assert(link_of(r, j) != link_of(r, n - 1));
                }
            },
        }
    }
}

/// A plan places every image: from its own source, with its own capture,
/// camera and slot, at its own place in the linked tree.
pub proof fn plans_place_every_image(p: Plan, r: Resolved, source: Seq<char>, i: int)
    requires
        is_plan(p, r, source),
        r.paths.len() <= u32::MAX,
        0 <= i < r.paths.len(),
    ensures
        p.placed@.len() == r.paths.len(),
        p.placed@[i].source@ == source_of(source, r.paths[i]),
        p.placed@[i].capture_id == r.captures[i],
        p.placed@[i].camera_id == r.cameras[i],
        p.placed@[i].image_index == slot_of(r, i),
        p.placed@[i].link@ == link_of(r, i),
{
    let all = placed_models(p.placed@);
    assert(all.len() == p.placed@.len());
    assert(all[i] == p.placed@[i]@);
    assert(all[i] == placed_at(r, source, i));
    slots_are_stable(r, i, i);
}

/// A plan uses exactly the captures and cameras of the images, and tells of a
/// gap exactly where a camera is missing from one of the captures.
pub proof fn plans_tell_of_what_is_there(p: Plan, r: Resolved, source: Seq<char>, id: u32)
    requires
        is_plan(p, r, source),
        r.cameras.len() == r.paths.len(),
    ensures
        p.captures@.contains(id) <==> r.captures.contains(id),
        p.cameras@.contains(id) <==> r.cameras.contains(id),
        p.gaps@.dom().contains(id) <==> r.cameras.contains(id) && exists|c: u32|
            #[trigger] r.captures.contains(c) && !is_filled(r, c, id),
        p.gaps@.dom().contains(id) ==> p.gaps@[id]@.len() > 0,
{
    if p.gaps@.dom().contains(id) {
        assert(has_gap(r, id));
        let c = choose|c: u32| #[trigger] r.captures.contains(c) && !is_filled(r, c, id);
        assert(are_the_gaps(r, id, p.gaps@[id]@));
        assert(p.gaps@[id]@.contains(c));
    }
}

/// An image fills its own camera's place in its own capture.
pub proof fn images_fill_their_places(r: Resolved, i: int, cap: u32, cam: u32)
    requires
        0 <= i < r.paths.len(),
    ensures
        is_filled(r, r.captures[i], r.cameras[i]),
        (forall|k: int|
            0 <= k < r.paths.len() ==> !(#[trigger] r.captures[k] == cap && r.cameras[k] == cam))
            ==> !is_filled(r, cap, cam),
{
    assert(r.captures[i] == r.captures[i]);
}

} // verus!
