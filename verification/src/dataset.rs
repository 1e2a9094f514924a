//! Input-image discovery.
//!
//! A dataset is laid out in one of three ways, and which one it is has to be
//! inferred rather than declared, because the same pipeline serves all of
//! them:
//!
//! ```text
//! images/capture_000/cam000/image.jpg   # captures x cameras
//! images/cam000/image.jpg               # cameras only (one implicit capture)
//! images/cam000_image.jpg               # flat files
//! ```
//!
//! The distinction matters well beyond bookkeeping. `capture_id` is what keeps
//! a fiducial marker that was *physically moved between captures* from being
//! matched to itself across them, and `(camera_id, image_index)` is the key
//! along which captures are merged.
//!
//! Discovery works on a listing of the directory tree ([`Dir`]); reading the
//! listing is the caller's part.

use vstd::prelude::*;

use crate::error::SfmError;
use crate::order;
use crate::order::{sort, text_before, Sortable};
use crate::paths;
use crate::sets;
use crate::text;
use crate::text::{
    chars_of, leading_number, lowercase_chars, same_chars, starts_with, trailing_number,
};

verus! {

/// One directory: its name, the directories in it, and its files, in any
/// order.
pub struct Dir {
    pub name: String,
    pub dirs: Vec<Dir>,
    pub files: Vec<String>,
}

/// An image with the identity its place in the tree gives it.
#[derive(Debug, Clone)]
pub struct DiscoveredImage {
    pub path: String,
    pub capture_id: u32,
    pub camera_id: u32,
    /// Position of this image within its camera directory, so that a camera
    /// holding several shots per capture merges shot-for-shot rather than
    /// pooling them all together.
    pub image_index: u32,
    /// Slash-separated path relative to the images root. Unique, stable, and
    /// what gets stored as the image name.
    pub name: String,
}

#[derive(Debug, Clone, Copy, PartialEq, Eq, Structural)]
pub enum Layout {
    CapturesAndCameras,
    CamerasOnly,
    Flat,
}

/// What a [`DiscoveredImage`] says.
pub struct ImageModel {
    pub path: Seq<char>,
    pub capture_id: u32,
    pub camera_id: u32,
    pub image_index: u32,
    pub name: Seq<char>,
}

impl View for DiscoveredImage {
    type V = ImageModel;

    open spec fn view(&self) -> ImageModel {
        ImageModel {
            path: self.path@,
            capture_id: self.capture_id,
            camera_id: self.camera_id,
            image_index: self.image_index,
            name: self.name@,
        }
    }
}

pub open spec fn models(images: Seq<DiscoveredImage>) -> Seq<ImageModel> {
    images.map_values(|i: DiscoveredImage| i@)
}

// ---------------------------------------------------------------------------
// Images by extension
// ---------------------------------------------------------------------------

/// Extensions of image files, in lower case.
pub open spec fn is_image_extension(e: Seq<char>) -> bool {
    e == "jpg"@ || e == "jpeg"@ || e == "png"@
}

/// Whether a path names an image, by its extension in any case.
pub open spec fn names_an_image(path: Seq<char>) -> bool {
    match paths::file_name_of(path) {
        Some(name) => match paths::extension_of(name) {
            Some(e) => is_image_extension(text::lowercase(e)),
            None => false,
        },
        None => false,
    }
}

/// Whether a path names an image file.
pub fn is_image_file(path: &str) -> (r: bool)
    ensures
        r == names_an_image(path@),
{
    match paths::file_name(path) {
        Some(name) => match paths::extension(name.as_str()) {
            Some(e) => {
                let chars = chars_of(e.as_str());
                let low = lowercase_chars(chars.as_slice());
                same_chars(low.as_slice(), chars_of("jpg").as_slice()) || same_chars(
                    low.as_slice(),
                    chars_of("jpeg").as_slice(),
                ) || same_chars(low.as_slice(), chars_of("png").as_slice())
            },
            None => false,
        },
        None => false,
    }
}

/// The images among the given files, in the order in which they are listed.
pub open spec fn images_among(files: Seq<String>) -> Seq<String>
    decreases files.len(),
{
    if files.len() == 0 {
        Seq::empty()
    } else {
        let front = images_among(files.drop_last());
        if names_an_image(files.last()@) {
            front.push(files.last())
        } else {
            front
        }
    }
}

/// The images of a directory, sorted by name.
pub open spec fn images_of(dir: Dir) -> Seq<String> {
    order::sorted(images_among(dir.files@))
}

/// The images of a directory, sorted by name.
pub fn sorted_images(dir: &Dir) -> (out: Vec<String>)
    ensures
        out@ == images_of(*dir),
{
    let mut out: Vec<String> = Vec::new();
    let mut i: usize = 0;
    while i < dir.files.len()
        invariant
            i <= dir.files.len(),
            out@ == images_among(dir.files@.take(i as int)),
        decreases dir.files.len() - i,
    {
        assert(dir.files@.take(i + 1).drop_last() =~= dir.files@.take(i as int));
        if is_image_file(dir.files[i].as_str()) {
            let f = dir.files[i].clone();
            assert(f == dir.files@[i as int]);
            out.push(f);
        }
        i += 1;
    }
    assert(dir.files@.take(dir.files@.len() as int) =~= dir.files@);
    sort(out)
}

// ---------------------------------------------------------------------------
// Directories
// ---------------------------------------------------------------------------

impl<'a> Sortable for &'a Dir {
    open spec fn before(self, other: Self) -> bool {
        order::precedes(self.name@, other.name@)
    }

    proof fn is_strict_weak_order(a: Self, b: Self, c: Self) {
        order::names_are_totally_ordered(a.name@, b.name@, c.name@);
        order::names_are_totally_ordered(a.name@, c.name@, b.name@);
        order::names_are_totally_ordered(c.name@, b.name@, a.name@);
    }

    fn is_before(&self, other: &Self) -> (r: bool) {
        text_before(self.name.as_str(), other.name.as_str())
    }
}

/// The directories of a directory, sorted by name.
pub open spec fn dirs_of<'a>(dir: Dir) -> Seq<&'a Dir> {
    order::sorted(dir.dirs@.map_values(|d: Dir| &d))
}

pub open spec fn names_of(dirs: Seq<&Dir>) -> Seq<Seq<char>> {
    dirs.map_values(|d: &Dir| d.name@)
}

/// The directories of a directory, sorted by name.
pub fn sorted_dirs(dir: &Dir) -> (out: Vec<&Dir>)
    ensures
        out@ == dirs_of(*dir),
{
    let mut out: Vec<&Dir> = Vec::new();
    let mut i: usize = 0;
    while i < dir.dirs.len()
        invariant
            i <= dir.dirs.len(),
            out@ == dir.dirs@.take(i as int).map_values(|d: Dir| &d),
        decreases dir.dirs.len() - i,
    {
        out.push(&dir.dirs[i]);
        i += 1;
        assert(out@ =~= dir.dirs@.take(i as int).map_values(|d: Dir| &d));
    }
    assert(dir.dirs@.take(dir.dirs@.len() as int) =~= dir.dirs@);
    sort(out)
}

// ---------------------------------------------------------------------------
// Ids
// ---------------------------------------------------------------------------

/// The number a name ends with.
pub open spec fn number_of(name: Seq<char>) -> Option<u32> {
    text::as_u32(text::trailing_digits(name))
}

/// Whether every name carries a number and no two carry the same.
pub open spec fn distinctly_numbered(names: Seq<Seq<char>>) -> bool {
    &&& forall|i: int| 0 <= i < names.len() ==> number_of(#[trigger] names[i]) is Some
    &&& forall|i: int, j: int|
        0 <= i < j < names.len() ==> number_of(#[trigger] names[i]) != number_of(
            #[trigger] names[j],
        )
}

/// Ids for a list of names: the numbers that the names carry where those tell
/// them apart, else their positions.
pub open spec fn ids_of(names: Seq<Seq<char>>) -> Seq<u32> {
    if distinctly_numbered(names) {
        names.map_values(|n: Seq<char>| number_of(n).unwrap())
    } else {
        Seq::new(names.len(), |i: int| i as u32)
    }
}

/// Assigns ids from names where they carry a number, falling back to the
/// position where they do not - so `cam000/ cam001/` and `left/ right/` both
/// work, the former keeping the user's numbering.
pub fn ids_for(names: &Vec<String>) -> (ids: Vec<u32>)
    requires
        names.len() <= u32::MAX,
    ensures
        ids@ == ids_of(order::texts(names@)),
{
    let ghost all = order::texts(names@);
    let mut parsed: Vec<u32> = Vec::new();
    let mut i: usize = 0;
    let mut distinct = true;
    while i < names.len() && distinct
        invariant
            i <= names.len(),
            all == order::texts(names@),
            distinct ==> parsed.len() == i && distinctly_numbered(all.take(i as int)) && parsed@
                == all.take(i as int).map_values(|n: Seq<char>| number_of(n).unwrap()),
            !distinct ==> !distinctly_numbered(all),
        decreases names.len() - i,
    {
        let ghost prev = all.take(i as int);
        let ghost next = all.take(i + 1);
        assert(next[i as int] == names@[i as int]@);
        match trailing_number(names[i].as_str()) {
            Some(n) => {
                let mut j: usize = 0;
                while j < parsed.len() && parsed[j] != n
                    invariant
                        j <= parsed.len(),
                        forall|k: int| 0 <= k < j ==> parsed@[k] != n,
                    decreases parsed.len() - j,
                {
                    j += 1;
                }
                if j < parsed.len() {
                    assert(prev[j as int] == all[j as int]);
                    assert(number_of(all[j as int]) is Some) by {
                        assert(number_of(prev[j as int]) is Some);
                    }
                    assert(number_of(all[j as int]) == number_of(all[i as int]));
                    distinct = false;
                } else {
                    assert forall|k: int| 0 <= k < next.len() implies number_of(
                        #[trigger] next[k],
                    ) is Some by {
                        if k < i {
                            assert(next[k] == prev[k]);
                        }
                    }
                    assert forall|a: int, b: int| 0 <= a < b < next.len() implies number_of(
                        #[trigger] next[a],
                    ) != number_of(#[trigger] next[b]) by {
                        assert(next[a] == prev[a]);
                        if b < i {
                            assert(next[b] == prev[b]);
                        } else {
                            assert(parsed@[a] == number_of(prev[a]).unwrap());
                        }
                    }
                    parsed.push(n);
                    assert(parsed@ =~= next.map_values(|n: Seq<char>| number_of(n).unwrap()));
                }
            },
            None => {
                assert(number_of(all[i as int]) is None);
                distinct = false;
            },
        }
        i += 1;
    }
    if distinct {
        assert(all.take(all.len() as int) =~= all);
        return parsed;
    }
    let mut ids: Vec<u32> = Vec::new();
    let mut k: usize = 0;
    while k < names.len()
        invariant
            k <= names.len() <= u32::MAX,
            ids@ == Seq::new(k as nat, |x: int| x as u32),
        decreases names.len() - k,
    {
        ids.push(k as u32);
        k += 1;
        assert(ids@ =~= Seq::new(k as nat, |x: int| x as u32));
    }
    ids
}

/// The ids of names are all different.
pub proof fn ids_are_distinct(names: Seq<Seq<char>>)
    requires
        names.len() <= u32::MAX,
    ensures
        ids_of(names).len() == names.len(),
        ids_of(names).no_duplicates(),
{
    let ids = ids_of(names);
    assert forall|i: int, j: int| 0 <= i < ids.len() && 0 <= j < ids.len() && i != j implies ids[i]
        != ids[j] by {
        if distinctly_numbered(names) {
            assert(number_of(names[i]) is Some);
            assert(number_of(names[j]) is Some);
            if i < j {
                assert(number_of(names[i]) != number_of(names[j]));
            } else {
                assert(number_of(names[j]) != number_of(names[i]));
            }
        }
    }
}

/// Leading `cam<N>` (or `camera<N>`) prefix of a flat file name.
pub open spec fn camera_number(stem: Seq<char>) -> Option<u32> {
    let low = text::lowercase(stem);
    if "camera"@.is_prefix_of(low) {
        text::as_u32(text::leading_digits(low.skip("camera"@.len() as int)))
    } else if "cam"@.is_prefix_of(low) {
        text::as_u32(text::leading_digits(low.skip("cam"@.len() as int)))
    } else {
        None
    }
}

/// Leading `cam<N>` (or `camera<N>`) prefix of a flat file name, e.g.
/// `cam003_image.jpg` -> 3.
pub fn leading_camera_number(file_stem: &str) -> (r: Option<u32>)
    ensures
        r == camera_number(file_stem@),
{
    let chars = chars_of(file_stem);
    let low = lowercase_chars(chars.as_slice());
    let long = chars_of("camera");
    let short = chars_of("cam");
    if starts_with(low.as_slice(), long.as_slice()) {
        leading_number(low.as_slice(), long.len())
    } else if starts_with(low.as_slice(), short.as_slice()) {
        leading_number(low.as_slice(), short.len())
    } else {
        None
    }
}

// ---------------------------------------------------------------------------
// Discovery
// ---------------------------------------------------------------------------

/// The image at `rel` below the images root.
pub open spec fn image_at(
    root: Seq<char>,
    rel: Seq<char>,
    capture_id: u32,
    camera_id: u32,
    image_index: u32,
) -> ImageModel {
    ImageModel {
        path: paths::joined(root, rel),
        capture_id,
        camera_id,
        image_index,
        name: paths::forward_slashes(rel),
    }
}

/// The images of one camera directory, numbered in order.
pub open spec fn camera_images(
    root: Seq<char>,
    rel: Seq<char>,
    dir: Dir,
    capture_id: u32,
    camera_id: u32,
) -> Seq<ImageModel> {
    let files = images_of(dir);
    Seq::new(
        files.len(),
        |i: int|
            image_at(root, paths::joined(rel, files[i]@), capture_id, camera_id, i as u32),
    )
}

/// The images of the first `n` camera directories below `rel`.
pub open spec fn cameras_images(
    root: Seq<char>,
    rel: Seq<char>,
    dir: Dir,
    capture_id: u32,
    n: nat,
) -> Seq<ImageModel>
    decreases n,
{
    if n == 0 {
        Seq::empty()
    } else {
        let i = (n - 1) as int;
        let cams = dirs_of(dir);
        cameras_images(root, rel, dir, capture_id, (n - 1) as nat) + camera_images(
            root,
            paths::joined(rel, cams[i].name@),
            *cams[i],
            capture_id,
            ids_of(names_of(cams))[i],
        )
    }
}

/// The images of the first `n` capture directories.
pub open spec fn captures_images(root: Seq<char>, dir: Dir, n: nat) -> Seq<ImageModel>
    decreases n,
{
    if n == 0 {
        Seq::empty()
    } else {
        let i = (n - 1) as int;
        let caps = dirs_of(dir);
        captures_images(root, dir, (n - 1) as nat) + cameras_images(
            root,
            caps[i].name@,
            *caps[i],
            ids_of(names_of(caps))[i],
            dirs_of(*caps[i]).len(),
        )
    }
}

/// The camera that a file directly under the images root belongs to.
pub open spec fn flat_camera(file: Seq<char>) -> u32 {
    match camera_number(paths::stem_of(file)) {
        Some(n) => n,
        None => 0,
    }
}

/// How many of the first `n` files belong to `camera`.
pub open spec fn shots_before(files: Seq<String>, n: nat, camera: u32) -> nat
    decreases n,
{
    if n == 0 {
        0
    } else {
        shots_before(files, (n - 1) as nat, camera) + if flat_camera(files[n - 1]@) == camera {
            1nat
        } else {
            0nat
        }
    }
}

/// The images directly under the root, numbered within each camera.
pub open spec fn flat_images(root: Seq<char>, dir: Dir) -> Seq<ImageModel> {
    let files = images_of(dir);
    Seq::new(
        files.len(),
        |i: int|
            image_at(
                root,
                files[i]@,
                0,
                flat_camera(files[i]@),
                shots_before(files, i as nat, flat_camera(files[i]@)) as u32,
            ),
    )
}

/// Whether some second-level directory holds an image.
pub open spec fn is_nested(dir: Dir) -> bool {
    exists|i: int, j: int|
        0 <= i < dir.dirs@.len() && 0 <= j < dir.dirs@[i].dirs@.len() && images_among(
            (#[trigger] dir.dirs@[i].dirs@[j]).files@,
        ).len() > 0
}

/// The layout of a dataset.
pub open spec fn layout_of(root: Seq<char>, dir: Dir) -> Layout {
    if is_nested(dir) {
        Layout::CapturesAndCameras
    } else if cameras_images(root, Seq::empty(), dir, 0, dirs_of(dir).len()).len() > 0 {
        Layout::CamerasOnly
    } else {
        Layout::Flat
    }
}

/// Every image of a dataset, with its identity.
pub open spec fn discovered(root: Seq<char>, dir: Dir) -> Seq<ImageModel> {
    match layout_of(root, dir) {
        Layout::CapturesAndCameras => captures_images(root, dir, dirs_of(dir).len()),
        Layout::CamerasOnly => cameras_images(root, Seq::empty(), dir, 0, dirs_of(dir).len()),
        Layout::Flat => flat_images(root, dir),
    }
}

/// Every directory down to the camera level lists few enough entries for ids
/// and positions to be counted in 32 bits.
pub open spec fn countable(dir: Dir) -> bool {
    &&& dir.dirs@.len() <= u32::MAX
    &&& dir.files@.len() <= u32::MAX
    &&& forall|i: int|
        0 <= i < dir.dirs@.len() ==> (#[trigger] dir.dirs@[i]).dirs@.len() <= u32::MAX
            && dir.dirs@[i].files@.len() <= u32::MAX
    &&& forall|i: int, j: int|
        0 <= i < dir.dirs@.len() && 0 <= j < dir.dirs@[i].dirs@.len() ==> (
        #[trigger] dir.dirs@[i].dirs@[j]).files@.len() <= u32::MAX
}

proof fn lemma_images_among_len(files: Seq<String>)
    ensures
        images_among(files).len() <= files.len(),
    decreases files.len(),
{
    if files.len() > 0 {
        lemma_images_among_len(files.drop_last());
    }
}

/// A directory's images are no more than its files.
pub proof fn lemma_images_of_len(dir: Dir)
    ensures
        images_of(dir).len() == images_among(dir.files@).len(),
        images_of(dir).len() <= dir.files@.len(),
{
    lemma_images_among_len(dir.files@);
    order::sorted_is_an_ordered_permutation(images_among(dir.files@));
}

/// Whether ids and positions can be counted in 32 bits.
pub fn is_countable(dir: &Dir) -> (r: bool)
    ensures
        r == countable(*dir),
{
    let limit: usize = u32::MAX as usize;
    if dir.dirs.len() > limit || dir.files.len() > limit {
        return false;
    }
    let mut i: usize = 0;
    while i < dir.dirs.len()
        invariant
            i <= dir.dirs@.len() <= u32::MAX,
            dir.files@.len() <= u32::MAX,
            limit == u32::MAX,
            forall|k: int|
                0 <= k < i ==> (#[trigger] dir.dirs@[k]).dirs@.len() <= u32::MAX
                    && dir.dirs@[k].files@.len() <= u32::MAX,
            forall|k: int, m: int|
                0 <= k < i && 0 <= m < dir.dirs@[k].dirs@.len() ==> (
                #[trigger] dir.dirs@[k].dirs@[m]).files@.len() <= u32::MAX,
        decreases dir.dirs@.len() - i,
    {
        let sub = &dir.dirs[i];
        if sub.dirs.len() > limit || sub.files.len() > limit {
            assert(dir.dirs@[i as int] == *sub);
            return false;
        }
        let mut j: usize = 0;
        while j < sub.dirs.len()
            invariant
                i < dir.dirs@.len(),
                *sub == dir.dirs@[i as int],
                j <= sub.dirs@.len(),
                limit == u32::MAX,
                forall|m: int|
                    0 <= m < j ==> (#[trigger] dir.dirs@[i as int].dirs@[m]).files@.len()
                        <= u32::MAX,
            decreases sub.dirs@.len() - j,
        {
            if sub.dirs[j].files.len() > limit {
                assert(dir.dirs@[i as int].dirs@[j as int].files@.len() > u32::MAX);
                return false;
            }
            j += 1;
        }
        i += 1;
    }
    true
}

/// Sorting the directories drops none and adds none.
pub proof fn lemma_dirs_of_len(dir: Dir)
    ensures
        dirs_of(dir).len() == dir.dirs@.len(),
{
    order::sorted_is_an_ordered_permutation(dir.dirs@.map_values(|d: Dir| &d));
}

/// Each sorted directory is a listed one.
pub proof fn lemma_is_listed(dir: Dir, i: int) -> (j: int)
    requires
        0 <= i < dirs_of(dir).len(),
    ensures
        0 <= j < dir.dirs@.len(),
        *dirs_of(dir)[i] == dir.dirs@[j],
{
    broadcast use vstd::seq_lib::group_to_multiset_ensures;

    let listed = dir.dirs@.map_values(|d: Dir| &d);
    order::sorted_is_an_ordered_permutation(listed);
    let x = dirs_of(dir)[i];
    assert(order::sorted(listed).contains(x));
    assert(order::sorted(listed).to_multiset().count(x) > 0);
    assert(listed.contains(x));
    choose|j: int| 0 <= j < listed.len() && listed[j] == x
}

/// Each listed directory is among the sorted ones.
pub proof fn lemma_is_sorted_in(dir: Dir, j: int) -> (i: int)
    requires
        0 <= j < dir.dirs@.len(),
    ensures
        0 <= i < dirs_of(dir).len(),
        *dirs_of(dir)[i] == dir.dirs@[j],
{
    broadcast use vstd::seq_lib::group_to_multiset_ensures;

    let listed = dir.dirs@.map_values(|d: Dir| &d);
    order::sorted_is_an_ordered_permutation(listed);
    let x = listed[j];
    assert(listed.contains(x));
    assert(listed.to_multiset().count(x) > 0);
    assert(dirs_of(dir).contains(x));
    choose|i: int| 0 <= i < dirs_of(dir).len() && dirs_of(dir)[i] == x
}

proof fn lemma_cameras_images_len(
    root: Seq<char>,
    rel: Seq<char>,
    dir: Dir,
    capture_id: u32,
    n: nat,
    k: int,
)
    requires
        0 <= k < n,
    ensures
        cameras_images(root, rel, dir, capture_id, n).len() >= images_of(*dirs_of(dir)[k]).len(),
    decreases n,
{
    if k < n - 1 {
        lemma_cameras_images_len(root, rel, dir, capture_id, (n - 1) as nat, k);
    }
}

proof fn lemma_captures_images_len(root: Seq<char>, dir: Dir, n: nat, k: int)
    requires
        0 <= k < n,
    ensures
        captures_images(root, dir, n).len() >= cameras_images(
            root,
            dirs_of(dir)[k].name@,
            *dirs_of(dir)[k],
            ids_of(names_of(dirs_of(dir)))[k],
            dirs_of(*dirs_of(dir)[k]).len(),
        ).len(),
    decreases n,
{
    if k < n - 1 {
        lemma_captures_images_len(root, dir, (n - 1) as nat, k);
    }
}

/// A tree with an image two levels down is a dataset of captures and cameras
/// with at least one image.
pub proof fn lemma_nested_has_images(root: Seq<char>, dir: Dir)
    requires
        is_nested(dir),
    ensures
        layout_of(root, dir) == Layout::CapturesAndCameras,
        discovered(root, dir).len() > 0,
{
    let (i, j) = choose|i: int, j: int|
        0 <= i < dir.dirs@.len() && 0 <= j < dir.dirs@[i].dirs@.len() && images_among(
            (#[trigger] dir.dirs@[i].dirs@[j]).files@,
        ).len() > 0;
    let cap = dir.dirs@[i];
    let cam = cap.dirs@[j];
    let p = lemma_is_sorted_in(dir, i);
    let q = lemma_is_sorted_in(cap, j);
    lemma_images_of_len(cam);
    lemma_captures_images_len(root, dir, dirs_of(dir).len(), p);
    lemma_cameras_images_len(
        root,
        cap.name@,
        cap,
        ids_of(names_of(dirs_of(dir)))[p],
        dirs_of(cap).len(),
        q,
    );
}

fn names_in(dirs: &Vec<&Dir>) -> (out: Vec<String>)
    ensures
        order::texts(out@) == names_of(dirs@),
{
    let mut out: Vec<String> = Vec::new();
    let mut i: usize = 0;
    while i < dirs.len()
        invariant
            i <= dirs.len(),
            order::texts(out@) == names_of(dirs@.take(i as int)),
        decreases dirs.len() - i,
    {
        let ghost before = out@;
        out.push(dirs[i].name.clone());
        proof {
            order::lemma_texts_push(before, out@.last());
        }
        assert(out@ =~= before.push(out@.last()));
        i += 1;
        assert(order::texts(out@) =~= names_of(dirs@.take(i as int)));
    }
    assert(dirs@.take(dirs@.len() as int) =~= dirs@);
    out
}

fn found(
    root: &str,
    rel: &str,
    capture_id: u32,
    camera_id: u32,
    image_index: u32,
) -> (r: DiscoveredImage)
    ensures
        r@ == image_at(root@, rel@, capture_id, camera_id, image_index),
{
    DiscoveredImage {
        path: paths::join(root, rel),
        capture_id,
        camera_id,
        image_index,
        name: paths::with_forward_slashes(rel),
    }
}

proof fn lemma_models_push(images: Seq<DiscoveredImage>, x: DiscoveredImage)
    ensures
        models(images.push(x)) == models(images).push(x@),
{
    assert(models(images.push(x)) =~= models(images).push(x@));
}

/// Appends the images of one camera directory.
fn push_camera(
    out: &mut Vec<DiscoveredImage>,
    root: &str,
    rel: &str,
    dir: &Dir,
    capture_id: u32,
    camera_id: u32,
)
    requires
        dir.files@.len() <= u32::MAX,
    ensures
        models(final(out)@) == models(old(out)@) + camera_images(
            root@,
            rel@,
            *dir,
            capture_id,
            camera_id,
        ),
{
    let files = sorted_images(dir);
    proof {
        lemma_images_of_len(*dir);
    }
    let ghost start = models(out@);
    let ghost all = camera_images(root@, rel@, *dir, capture_id, camera_id);
    let mut i: usize = 0;
    assert(models(out@) =~= start + all.take(0));
    while i < files.len()
        invariant
            i <= files.len() <= u32::MAX,
            files@ == images_of(*dir),
            all == camera_images(root@, rel@, *dir, capture_id, camera_id),
            models(out@) == start + all.take(i as int),
        decreases files.len() - i,
    {
        let path = paths::join(rel, files[i].as_str());
        let image = found(root, path.as_str(), capture_id, camera_id, i as u32);
        proof {
            lemma_models_push(out@, image);
        }
        assert(image@ == all[i as int]);
        out.push(image);
        i += 1;
        assert(models(out@) =~= start + all.take(i as int));
    }
    assert(all.take(all.len() as int) =~= all);
}

/// Appends the images of every camera directory below `rel`.
fn push_cameras(
    out: &mut Vec<DiscoveredImage>,
    root: &str,
    rel: &str,
    dir: &Dir,
    capture_id: u32,
)
    requires
        dir.dirs@.len() <= u32::MAX,
        forall|i: int|
            0 <= i < dir.dirs@.len() ==> (#[trigger] dir.dirs@[i]).files@.len() <= u32::MAX,
    ensures
        models(final(out)@) == models(old(out)@) + cameras_images(
            root@,
            rel@,
            *dir,
            capture_id,
            dirs_of(*dir).len(),
        ),
{
    let cams = sorted_dirs(dir);
    proof {
        lemma_dirs_of_len(*dir);
    }
    let names = names_in(&cams);
    assert(names.len() == order::texts(names@).len());
    let ids = ids_for(&names);
    proof {
        ids_are_distinct(names_of(cams@));
    }
    let ghost start = models(out@);
    let mut i: usize = 0;
    assert(models(out@) =~= start + cameras_images(root@, rel@, *dir, capture_id, 0));
    while i < cams.len()
        invariant
            i <= cams.len(),
            ids.len() == cams.len(),
            cams@ == dirs_of(*dir),
            ids@ == ids_of(names_of(cams@)),
            cams@.len() == dir.dirs@.len(),
            forall|k: int|
                0 <= k < dir.dirs@.len() ==> (#[trigger] dir.dirs@[k]).files@.len() <= u32::MAX,
            models(out@) == start + cameras_images(root@, rel@, *dir, capture_id, i as nat),
        decreases cams.len() - i,
    {
        let cam = cams[i];
        proof {
            let j = lemma_is_listed(*dir, i as int);
        }
        let path = paths::join(rel, cam.name.as_str());
        push_camera(out, root, path.as_str(), cam, capture_id, ids[i]);
        i += 1;
        assert(models(out@) =~= start + cameras_images(root@, rel@, *dir, capture_id, i as nat));
    }
}

/// Whether the dataset has images two levels down.
fn has_nested_images(dir: &Dir) -> (r: bool)
    ensures
        r == is_nested(*dir),
{
    let mut i: usize = 0;
    while i < dir.dirs.len()
        invariant
            i <= dir.dirs.len(),
            forall|a: int, b: int|
                0 <= a < i && 0 <= b < dir.dirs@[a].dirs@.len() ==> images_among(
                    (#[trigger] dir.dirs@[a].dirs@[b]).files@,
                ).len() == 0,
        decreases dir.dirs.len() - i,
    {
        let sub = &dir.dirs[i];
        let mut j: usize = 0;
        while j < sub.dirs.len()
            invariant
                i < dir.dirs.len(),
                *sub == dir.dirs@[i as int],
                j <= sub.dirs.len(),
                forall|b: int|
                    0 <= b < j ==> images_among((#[trigger] sub.dirs@[b]).files@).len() == 0,
            decreases sub.dirs.len() - j,
        {
            let images = sorted_images(&sub.dirs[j]);
            proof {
                lemma_images_of_len(sub.dirs@[j as int]);
            }
            if images.len() > 0 {
                assert(images_among(dir.dirs@[i as int].dirs@[j as int].files@).len() > 0);
                return true;
            }
            j += 1;
        }
        i += 1;
    }
    false
}

/// The camera of a file directly under the images root.
fn flat_camera_of(file: &str) -> (r: u32)
    ensures
        r == flat_camera(file@),
{
    match leading_camera_number(paths::stem(file).as_str()) {
        Some(n) => n,
        None => 0,
    }
}

proof fn lemma_shots_before(files: Seq<String>, n: nat, camera: u32)
    ensures
        shots_before(files, n, camera) <= n,
    decreases n,
{
    if n > 0 {
        lemma_shots_before(files, (n - 1) as nat, camera);
    }
}

/// Lists the images directly under the images root.
fn flat(root: &str, dir: &Dir) -> (out: Vec<DiscoveredImage>)
    requires
        dir.files@.len() <= u32::MAX,
    ensures
        models(out@) == flat_images(root@, *dir),
{
    let files = sorted_images(dir);
    proof {
        lemma_images_of_len(*dir);
    }
    let ghost all = flat_images(root@, *dir);
    let mut out: Vec<DiscoveredImage> = Vec::new();
    let mut cameras: Vec<u32> = Vec::new();
    let mut i: usize = 0;
    assert(models(out@) =~= all.take(0));
    while i < files.len()
        invariant
            i <= files.len() <= u32::MAX,
            files@ == images_of(*dir),
            all == flat_images(root@, *dir),
            models(out@) == all.take(i as int),
            cameras.len() == i,
            forall|k: int| 0 <= k < i ==> #[trigger] cameras@[k] == flat_camera(files@[k]@),
        decreases files.len() - i,
    {
        let camera_id: u32 = flat_camera_of(files[i].as_str());
        let mut slot: u32 = 0;
        let mut j: usize = 0;
        while j < i
            invariant
                j <= i == cameras.len(),
                i < files.len() <= u32::MAX,
                slot == shots_before(files@, j as nat, camera_id),
                slot <= j,
                forall|k: int| 0 <= k < i ==> #[trigger] cameras@[k] == flat_camera(files@[k]@),
            decreases i - j,
        {
            if cameras[j] == camera_id {
                slot += 1;
            }
            j += 1;
        }
        let image = found(root, files[i].as_str(), 0, camera_id, slot);
        proof {
            lemma_models_push(out@, image);
        }
        assert(image@ == all[i as int]);
        out.push(image);
        cameras.push(camera_id);
        i += 1;
        assert(models(out@) =~= all.take(i as int));
    }
    assert(all.take(all.len() as int) =~= all);
    out
}

/// Why discovery fails: the images directory is missing, or holds no image.
pub open spec fn discovery_failure(root: Seq<char>, tree: Option<Dir>) -> Option<Seq<char>> {
    match tree {
        None => Some("images directory does not exist: "@ + root),
        Some(dir) => if discovered(root, dir).len() > 0 {
            None
        } else {
            Some("no images found in "@ + root)
        },
    }
}

/// Detects the layout and enumerates every image with its capture and camera
/// ids. `tree` lists the images directory, if there is one.
pub fn discover(images_root: &str, tree: Option<&Dir>) -> (r: Result<
    (Vec<DiscoveredImage>, Layout),
    SfmError,
>)
    requires
        tree is Some ==> countable(*tree->0),
    ensures
        match r {
            Ok((images, layout)) => tree is Some && layout == layout_of(images_root@, *tree->0)
                && models(images@) == discovered(images_root@, *tree->0) && images@.len() > 0,
            Err(e) => e matches SfmError::Other(m) && (match tree {
                None => discovery_failure(images_root@, None),
                Some(dir) => discovery_failure(images_root@, Some(*dir)),
            }) == Some(m@),
        },
{
    let dir = match tree {
        Some(d) => d,
        None => {
            let mut m = String::from_str("images directory does not exist: ");
            m.append(images_root);
            return Err(SfmError::Other(m));
        },
    };
    let mut out: Vec<DiscoveredImage> = Vec::new();
    if has_nested_images(dir) {
        let caps = sorted_dirs(dir);
        proof {
            lemma_dirs_of_len(*dir);
        }
        let names = names_in(&caps);
        assert(names.len() == order::texts(names@).len());
        let ids = ids_for(&names);
        proof {
            ids_are_distinct(names_of(caps@));
        }
        let mut i: usize = 0;
        assert(models(out@) =~= captures_images(images_root@, *dir, 0));
        while i < caps.len()
            invariant
                i <= caps.len(),
                ids.len() == caps.len(),
                caps@ == dirs_of(*dir),
                ids@ == ids_of(names_of(caps@)),
                caps@.len() == dir.dirs@.len(),
                countable(*dir),
                models(out@) == captures_images(images_root@, *dir, i as nat),
            decreases caps.len() - i,
        {
            let cap = caps[i];
            proof {
                let j = lemma_is_listed(*dir, i as int);
                assert forall|b: int| 0 <= b < cap.dirs@.len() implies (
                #[trigger] cap.dirs@[b]).files@.len() <= u32::MAX by {
                    assert(dir.dirs@[j].dirs@[b].files@.len() <= u32::MAX);
                }
            }
            push_cameras(&mut out, images_root, cap.name.as_str(), cap, ids[i]);
            i += 1;
        }
        proof {
            lemma_nested_has_images(images_root@, *dir);
        }
        return Ok((out, Layout::CapturesAndCameras));
    }
    push_cameras(&mut out, images_root, "", dir, 0);
    proof {
        reveal_strlit("");
        assert(""@ =~= Seq::<char>::empty());
        assert(models(out@) =~= cameras_images(
            images_root@,
            Seq::empty(),
            *dir,
            0,
            dirs_of(*dir).len(),
        ));
    }
    if out.len() > 0 {
        return Ok((out, Layout::CamerasOnly));
    }
    let images = flat(images_root, dir);
    assert(images@.len() == models(images@).len());
    if images.len() == 0 {
        let mut m = String::from_str("no images found in ");
        m.append(images_root);
        return Err(SfmError::Other(m));
    }
    Ok((images, Layout::Flat))
}

// ---------------------------------------------------------------------------
// What holds of every dataset
// ---------------------------------------------------------------------------

/// What tells one image from another.
pub open spec fn identity(m: ImageModel) -> (u32, u32, u32) {
    (m.capture_id, m.camera_id, m.image_index)
}

pub open spec fn distinct_identities(s: Seq<ImageModel>) -> bool {
    forall|i: int, j: int|
        0 <= i < j < s.len() ==> identity(#[trigger] s[i]) != identity(#[trigger] s[j])
}

proof fn lemma_cameras_identities(
    root: Seq<char>,
    rel: Seq<char>,
    dir: Dir,
    capture_id: u32,
    n: nat,
)
    requires
        n <= dirs_of(dir).len(),
        dir.dirs@.len() <= u32::MAX,
        forall|i: int|
            0 <= i < dir.dirs@.len() ==> (#[trigger] dir.dirs@[i]).files@.len() <= u32::MAX,
    ensures
        distinct_identities(cameras_images(root, rel, dir, capture_id, n)),
        forall|i: int|
            0 <= i < cameras_images(root, rel, dir, capture_id, n).len() ==> (
            #[trigger] cameras_images(root, rel, dir, capture_id, n)[i]).capture_id == capture_id
                && exists|q: int|
                0 <= q < n && cameras_images(root, rel, dir, capture_id, n)[i].camera_id
                    == #[trigger] ids_of(names_of(dirs_of(dir)))[q],
    decreases n,
{
    if n > 0 {
        let cams = dirs_of(dir);
        let ids = ids_of(names_of(cams));
        let k = (n - 1) as int;
        let front = cameras_images(root, rel, dir, capture_id, (n - 1) as nat);
        let last = camera_images(
            root,
            paths::joined(rel, cams[k].name@),
            *cams[k],
            capture_id,
            ids[k],
        );
        let all = cameras_images(root, rel, dir, capture_id, n);
        lemma_cameras_identities(root, rel, dir, capture_id, (n - 1) as nat);
        lemma_dirs_of_len(dir);
        ids_are_distinct(names_of(cams));
        let j = lemma_is_listed(dir, k);
        lemma_images_of_len(*cams[k]);
        assert forall|i: int| 0 <= i < all.len() implies (#[trigger] all[i]).capture_id
            == capture_id && exists|q: int|
            0 <= q < n && all[i].camera_id == #[trigger] ids[q] by {
            if i < front.len() {
                assert(all[i] == front[i]);
                let q = choose|q: int| 0 <= q < n - 1 && front[i].camera_id == #[trigger] ids[q];
                assert(all[i].camera_id == ids[q]);
            } else {
                assert(all[i] == last[i - front.len()]);
                assert(all[i].camera_id == ids[k]);
            }
        }
        assert forall|a: int, b: int| 0 <= a < b < all.len() implies identity(#[trigger] all[a])
            != identity(#[trigger] all[b]) by {
            if b < front.len() {
                assert(all[a] == front[a]);
                assert(all[b] == front[b]);
            } else {
                assert(all[b] == last[b - front.len()]);
                if a < front.len() {
                    assert(all[a] == front[a]);
                    let q = choose|q: int|
                        0 <= q < n - 1 && front[a].camera_id == #[trigger] ids[q];
                    assert(ids[q] != ids[k]);
                } else {
                    assert(all[a] == last[a - front.len()]);
                }
            }
        }
    }
}

proof fn lemma_captures_identities(root: Seq<char>, dir: Dir, n: nat)
    requires
        n <= dirs_of(dir).len(),
        countable(dir),
    ensures
        distinct_identities(captures_images(root, dir, n)),
        forall|i: int|
            0 <= i < captures_images(root, dir, n).len() ==> exists|p: int|
                0 <= p < n && (#[trigger] captures_images(root, dir, n)[i]).capture_id
                    == #[trigger] ids_of(names_of(dirs_of(dir)))[p],
    decreases n,
{
    if n > 0 {
        let caps = dirs_of(dir);
        let ids = ids_of(names_of(caps));
        let k = (n - 1) as int;
        let front = captures_images(root, dir, (n - 1) as nat);
        let last = cameras_images(root, caps[k].name@, *caps[k], ids[k], dirs_of(*caps[k]).len());
        let all = captures_images(root, dir, n);
        lemma_captures_identities(root, dir, (n - 1) as nat);
        lemma_dirs_of_len(dir);
        ids_are_distinct(names_of(caps));
        let j = lemma_is_listed(dir, k);
        assert forall|b: int| 0 <= b < caps[k].dirs@.len() implies (
        #[trigger] caps[k].dirs@[b]).files@.len() <= u32::MAX by {
            assert(dir.dirs@[j].dirs@[b].files@.len() <= u32::MAX);
        }
        lemma_cameras_identities(
            root,
            caps[k].name@,
            *caps[k],
            ids[k],
            dirs_of(*caps[k]).len(),
        );
        assert forall|i: int| 0 <= i < all.len() implies exists|p: int|
            0 <= p < n && (#[trigger] all[i]).capture_id == #[trigger] ids[p] by {
            if i < front.len() {
                assert(all[i] == front[i]);
                let p = choose|p: int| 0 <= p < n - 1 && front[i].capture_id == #[trigger] ids[p];
                assert(all[i].capture_id == ids[p]);
            } else {
                assert(all[i] == last[i - front.len()]);
                assert(all[i].capture_id == ids[k]);
            }
        }
        assert forall|a: int, b: int| 0 <= a < b < all.len() implies identity(#[trigger] all[a])
            != identity(#[trigger] all[b]) by {
            if b < front.len() {
                assert(all[a] == front[a]);
                assert(all[b] == front[b]);
            } else {
                assert(all[b] == last[b - front.len()]);
                if a < front.len() {
                    assert(all[a] == front[a]);
                    let p = choose|p: int|
                        0 <= p < n - 1 && front[a].capture_id == #[trigger] ids[p];
                    assert(ids[p] != ids[k]);
                } else {
                    assert(all[a] == last[a - front.len()]);
                }
            }
        }
    }
}

proof fn lemma_shots_increase(files: Seq<String>, i: nat, j: nat, camera: u32)
    requires
        i < j <= files.len(),
        flat_camera(files[i as int]@) == camera,
    ensures
        shots_before(files, i, camera) < shots_before(files, j, camera),
    decreases j,
{
    if j > i + 1 {
        lemma_shots_increase(files, i, (j - 1) as nat, camera);
    }
}

/// No two images of a dataset share capture, camera and position.
pub proof fn images_have_distinct_identities(root: Seq<char>, dir: Dir)
    requires
        countable(dir),
    ensures
        distinct_identities(discovered(root, dir)),
{
    match layout_of(root, dir) {
        Layout::CapturesAndCameras => {
            lemma_captures_identities(root, dir, dirs_of(dir).len());
        },
        Layout::CamerasOnly => {
            lemma_cameras_identities(root, Seq::empty(), dir, 0, dirs_of(dir).len());
        },
        Layout::Flat => {
            let files = images_of(dir);
            let all = flat_images(root, dir);
            lemma_images_of_len(dir);
            assert forall|a: int, b: int| 0 <= a < b < all.len() implies identity(
                #[trigger] all[a],
            ) != identity(#[trigger] all[b]) by {
                if flat_camera(files[a]@) == flat_camera(files[b]@) {
                    let cam = flat_camera(files[a]@);
                    lemma_shots_increase(files, a as nat, b as nat, cam);
                    lemma_shots_before(files, a as nat, cam);
                    lemma_shots_before(files, b as nat, cam);
                }
            }
        },
    }
}

/// No two directories listed in `dir` have the same name.
pub open spec fn distinct_names(dir: Dir) -> bool {
    forall|i: int, j: int|
        0 <= i < j < dir.dirs@.len() ==> (#[trigger] dir.dirs@[i]).name@ != (
        #[trigger] dir.dirs@[j]).name@
}

/// Sorting directories with distinct names leaves their names distinct.
pub proof fn lemma_sorted_names_distinct(dir: Dir)
    requires
        distinct_names(dir),
    ensures
        names_of(dirs_of(dir)).no_duplicates(),
{
    broadcast use vstd::seq_lib::group_to_multiset_ensures;

    let listed = dir.dirs@.map_values(|d: Dir| &d);
    let all = dirs_of(dir);
    order::sorted_is_an_ordered_permutation(listed);
    assert(listed.no_duplicates()) by {
        assert forall|i: int, j: int| 0 <= i < listed.len() && 0 <= j < listed.len() && i
            != j implies listed[i] != listed[j] by {
            if i < j {
                assert(dir.dirs@[i].name@ != dir.dirs@[j].name@);
            } else {
                assert(dir.dirs@[j].name@ != dir.dirs@[i].name@);
            }
        }
    }
    listed.lemma_multiset_has_no_duplicates();
    all.lemma_multiset_has_no_duplicates_conv();
    let names = names_of(all);
    assert forall|p: int, q: int| 0 <= p < names.len() && 0 <= q < names.len() && p
        != q implies names[p] != names[q] by {
        let a = lemma_is_listed(dir, p);
        let b = lemma_is_listed(dir, q);
        if a < b {
            assert(dir.dirs@[a].name@ != dir.dirs@[b].name@);
        } else if b < a {
            assert(dir.dirs@[b].name@ != dir.dirs@[a].name@);
        } else {
            assert(*all[p] == *all[q]);
            assert(all[p] == all[q]);
        }
    }
}

// ---------------------------------------------------------------------------
// Numbered cameras
// ---------------------------------------------------------------------------

/// The word in any mixture of lower and upper case; its letters are lower case.
pub open spec fn reads_in_any_case(s: Seq<char>, word: Seq<char>) -> bool {
    &&& s.len() == word.len()
    &&& forall|i: int|
        0 <= i < word.len() ==> (#[trigger] s[i]) == word[i] || s[i] as int == word[i] as int - 32
}

/// A stem that reads `cam` or `camera`, in any case, and then a number that no
/// further digit follows, is of the camera with that number, however many
/// zeros lead it.
pub proof fn numbered_stems_are_of_their_camera(
    head: Seq<char>,
    n: u32,
    width: nat,
    rest: Seq<char>,
)
    requires
        reads_in_any_case(head, "camera"@) || reads_in_any_case(head, "cam"@),
        rest.len() == 0 || !('0' <= rest[0] && rest[0] <= '9'),
    ensures
        camera_number(head + text::padded(n as nat, width) + rest) == Some(n),
{
    reveal_strlit("camera");
    reveal_strlit("cam");
    let digits = text::padded(n as nat, width);
    text::padded_reads_back(n as nat, width);
    let stem = head + digits + rest;
    let low = text::lowercase(stem);
    assert forall|i: int| 0 <= i < head.len() implies #[trigger] low[i] == text::lower(head[i]) by {
        assert(stem[i] == head[i]);
    }
    assert forall|i: int| 0 <= i < digits.len() implies #[trigger] low[head.len() + i]
        == digits[i] by {
        assert(stem[head.len() + i] == digits[i]);
        assert(text::is_digit(digits[i]));
    }
    let tail = low.skip(head.len() as int);
    assert(tail.take(digits.len() as int) =~= digits);
    if rest.len() > 0 {
        assert(stem[(head + digits).len() as int] == rest[0]);
        assert(tail[digits.len() as int] == text::lower(rest[0]));
        assert(!text::is_digit(text::lower(rest[0])));
    }
    text::lemma_leading_split(tail, digits.len() as int);
    if head.len() == 6 {
        assert(low.take(6) =~= "camera"@);
        assert("camera"@.is_prefix_of(low));
    } else {
        assert(low.take(3) =~= "cam"@);
        assert("cam"@.is_prefix_of(low));
        assert(low[3] == digits[0]);
        assert(text::is_digit(digits[0]));
        assert(!"camera"@.is_prefix_of(low)) by {
            if "camera"@.is_prefix_of(low) {
                assert(low.take(6)[3] == "camera"@[3]);
            }
        }
    }
}

/// A stem that does not start with `cam`, in any case, is of no numbered
/// camera.
pub proof fn other_stems_are_of_no_numbered_camera(stem: Seq<char>)
    requires
        stem.len() < 3 || !reads_in_any_case(stem.take(3), "cam"@),
    ensures
        camera_number(stem) is None,
{
    reveal_strlit("camera");
    reveal_strlit("cam");
    let low = text::lowercase(stem);
    if stem.len() >= 3 {
        let i = choose|i: int|
            0 <= i < 3 && !((#[trigger] stem.take(3)[i]) == "cam"@[i] || stem.take(3)[i] as int
                == "cam"@[i] as int - 32);
        assert(low[i] == text::lower(stem[i]));
        assert(low[i] != "cam"@[i]);
        assert("cam"@[i] == "camera"@[i]);
        if "cam"@.is_prefix_of(low) {
            assert(low.take(3)[i] == "cam"@[i]);
        }
        if "camera"@.is_prefix_of(low) {
            assert(low.take(6)[i] == "camera"@[i]);
        }
    }
}

/// A flat file `cam<n>...`, by its stem, is of camera `n`; one whose stem does
/// not start so is of camera 0.
pub proof fn flat_files_are_of_the_camera_they_name(
    root: Seq<char>,
    dir: Dir,
    i: int,
    head: Seq<char>,
    n: u32,
    width: nat,
    rest: Seq<char>,
)
    requires
        layout_of(root, dir) == Layout::Flat,
        0 <= i < discovered(root, dir).len(),
        reads_in_any_case(head, "camera"@) || reads_in_any_case(head, "cam"@),
        rest.len() == 0 || !('0' <= rest[0] && rest[0] <= '9'),
        paths::stem_of(images_of(dir)[i]@) == head + text::padded(n as nat, width) + rest,
    ensures
        discovered(root, dir)[i].camera_id == n,
{
    numbered_stems_are_of_their_camera(head, n, width, rest);
}

proof fn lemma_images_add(a: Seq<String>, b: Seq<String>)
    ensures
        images_among(a + b) == images_among(a) + images_among(b),
    decreases b.len(),
{
    if b.len() == 0 {
        assert(a + b =~= a);
        assert(images_among(a + b) =~= images_among(a) + images_among(b));
    } else {
        assert((a + b).drop_last() =~= a + b.drop_last());
        lemma_images_add(a, b.drop_last());
        assert(images_among(a + b) =~= images_among(a) + images_among(b));
    }
}

/// The images among some files are those that name one, in the order of the
/// files: what is listed first comes first.
pub proof fn images_are_listed_as_the_files_are(front: Seq<String>, file: String, back: Seq<String>)
    ensures
        images_among(front.push(file) + back) == if names_an_image(file@) {
            images_among(front).push(file) + images_among(back)
        } else {
            images_among(front) + images_among(back)
        },
        images_among(Seq::empty()) == Seq::<String>::empty(),
{
    lemma_images_add(front.push(file), back);
    assert(front.push(file).drop_last() =~= front);
}

/// The images among some files are those of them that name an image.
pub proof fn the_images_are_files_that_name_one(files: Seq<String>, file: String)
    ensures
        images_among(files).contains(file) <==> files.contains(file) && names_an_image(file@),
    decreases files.len(),
{
    if files.len() > 0 {
        the_images_are_files_that_name_one(files.drop_last(), file);
        let front = images_among(files.drop_last());
        let all = images_among(files);
        if front.contains(file) {
            let k = choose|k: int| 0 <= k < front.len() && front[k] == file;
            assert(all[k] == file);
        }
        if files.contains(file) {
            let k = choose|k: int| 0 <= k < files.len() && files[k] == file;
            if k < files.len() - 1 {
                assert(files.drop_last()[k] == file);
            } else if names_an_image(file@) {
                assert(all[front.len() as int] == file);
            }
        }
        if all.contains(file) && !front.contains(file) {
            let k = choose|k: int| 0 <= k < all.len() && all[k] == file;
            if k < front.len() {
                assert(front[k] == file);
            }
            assert(files[files.len() - 1] == file);
        }
        if files.drop_last().contains(file) {
            let k = choose|k: int|
                0 <= k < files.drop_last().len() && files.drop_last()[k] == file;
            assert(files[k] == file);
        }
    }
}

/// The images of a directory are those of its files that name an image, by
/// name.
pub proof fn images_of_a_directory_are_its_image_files(dir: Dir, file: String)
    ensures
        images_of(dir).contains(file) <==> dir.files@.contains(file) && names_an_image(file@),
        forall|i: int, j: int|
            0 <= i < j < images_of(dir).len() ==> !order::precedes(
                #[trigger] images_of(dir)[j]@,
                #[trigger] images_of(dir)[i]@,
            ),
{
    broadcast use vstd::seq_lib::group_to_multiset_ensures;

    let among = images_among(dir.files@);
    the_images_are_files_that_name_one(dir.files@, file);
    order::sorted_is_an_ordered_permutation(among);
    assert(among.to_multiset().count(file) == images_of(dir).to_multiset().count(file));
}

/// A file is an image by what follows the last dot of its name, in whatever
/// case it is written and wherever the file lies.
pub proof fn image_files_are_told_by_their_extension(
    base: Seq<char>,
    stem: Seq<char>,
    ext: Seq<char>,
)
    requires
        stem.len() > 0,
        !stem.contains('/'),
        !ext.contains('/'),
        !ext.contains('.'),
        ext.len() > 0,
    ensures
        names_an_image(paths::joined(base, stem + seq!['.'] + ext)) <==> text::lowercase(ext)
            == "jpg"@ || text::lowercase(ext) == "jpeg"@ || text::lowercase(ext) == "png"@,
{
    let name = stem + paths::dot() + ext;
    assert(name == stem + seq!['.'] + ext);
    assert(!name.contains('/')) by {
        if name.contains('/') {
            let k = choose|k: int| 0 <= k < name.len() && name[k] == '/';
            if k < stem.len() {
                assert(stem[k] == '/');
            } else if k > stem.len() {
                assert(ext[k - stem.len() - 1] == '/');
            }
        }
    }
    assert(name.len() >= 3);
    paths::files_keep_their_name(base, name);
    paths::stem_and_extension_make_the_name(stem, ext, Seq::empty());
}

/// Names that carry different numbers keep them as their ids, whatever stands
/// in front of the numbers; any other names are numbered by their place.
pub proof fn numbered_names_keep_their_number(
    heads: Seq<Seq<char>>,
    numbers: Seq<u32>,
    widths: Seq<nat>,
    names: Seq<Seq<char>>,
    i: int,
)
    requires
        names.len() == heads.len() == numbers.len() == widths.len(),
        forall|k: int|
            0 <= k < names.len() ==> (#[trigger] heads[k]).len() > 0 && !text::is_digit(
                heads[k].last(),
            ) && names[k] == heads[k] + text::padded(numbers[k] as nat, widths[k]),
        0 <= i < names.len() <= u32::MAX,
    ensures
        numbers.no_duplicates() ==> ids_of(names)[i] == numbers[i],
        !numbers.no_duplicates() ==> ids_of(names)[i] == i,
{
    assert forall|k: int| 0 <= k < names.len() implies number_of(#[trigger] names[k]) == Some(
        numbers[k],
    ) by {
        assert(heads[k].len() > 0);
        text::trailing_number_of_padded(heads[k], numbers[k], widths[k]);
    }
    if numbers.no_duplicates() {
        assert forall|a: int, b: int| 0 <= a < b < names.len() implies number_of(
            #[trigger] names[a],
        ) != number_of(#[trigger] names[b]) by {
            assert(numbers[a] != numbers[b]);
        }
        assert(distinctly_numbered(names));
    } else {
        let (a, b) = choose|a: int, b: int|
            0 <= a < numbers.len() && 0 <= b < numbers.len() && a != b && #[trigger] numbers[a]
                == #[trigger] numbers[b];
        assert(number_of(names[a]) == number_of(names[b]));
        assert(!distinctly_numbered(names));
    }
}

/// Names of which one carries no number are numbered by their place.
pub proof fn unnumbered_names_are_numbered_in_order(names: Seq<Seq<char>>, k: int, i: int)
    requires
        0 <= k < names.len() <= u32::MAX,
        0 <= i < names.len(),
        names[k].len() == 0 || !text::is_digit(names[k].last()),
    ensures
        ids_of(names)[i] == i,
{
    assert(number_of(names[k]) is None);
}

/// The identity that an image is discovered with.
pub open spec fn is_found(
    found: Seq<ImageModel>,
    path: Seq<char>,
    capture: u32,
    camera: u32,
    place: int,
) -> bool {
    exists|k: int|
        0 <= k < found.len() && (#[trigger] found[k]).path == path && found[k].capture_id
            == capture && found[k].camera_id == camera && found[k].image_index == place
}

proof fn lemma_camera_found(
    root: Seq<char>,
    rel: Seq<char>,
    dir: Dir,
    capture: u32,
    n: nat,
    i: int,
    f: int,
)
    requires
        0 <= i < n <= dirs_of(dir).len(),
        0 <= f < images_of(*dirs_of(dir)[i]).len() <= u32::MAX,
    ensures
        is_found(
            cameras_images(root, rel, dir, capture, n),
            paths::joined(
                root,
                paths::joined(
                    paths::joined(rel, dirs_of(dir)[i].name@),
                    images_of(*dirs_of(dir)[i])[f]@,
                ),
            ),
            capture,
            ids_of(names_of(dirs_of(dir)))[i],
            f,
        ),
    decreases n,
{
    let all = cameras_images(root, rel, dir, capture, n);
    let front = cameras_images(root, rel, dir, capture, (n - 1) as nat);
    if i < n - 1 {
        lemma_camera_found(root, rel, dir, capture, (n - 1) as nat, i, f);
        let path = paths::joined(
            root,
            paths::joined(
                paths::joined(rel, dirs_of(dir)[i].name@),
                images_of(*dirs_of(dir)[i])[f]@,
            ),
        );
        let k = choose|k: int|
            0 <= k < front.len() && (#[trigger] front[k]).path == path && front[k].capture_id
                == capture && front[k].camera_id == ids_of(names_of(dirs_of(dir)))[i]
                && front[k].image_index == f;
        assert(all[k] == front[k]);
    } else {
        let last = camera_images(
            root,
            paths::joined(rel, dirs_of(dir)[i].name@),
            *dirs_of(dir)[i],
            capture,
            ids_of(names_of(dirs_of(dir)))[i],
        );
        assert(all[front.len() + f] == last[f]);
    }
}

proof fn lemma_capture_found(root: Seq<char>, dir: Dir, n: nat, c: int, i: int, f: int)
    requires
        0 <= c < n <= dirs_of(dir).len(),
        0 <= i < dirs_of(*dirs_of(dir)[c]).len(),
        0 <= f < images_of(*dirs_of(*dirs_of(dir)[c])[i]).len() <= u32::MAX,
    ensures
        ({
            let capture = *dirs_of(dir)[c];
            let camera = *dirs_of(capture)[i];
            is_found(
                captures_images(root, dir, n),
                paths::joined(
                    root,
                    paths::joined(
                        paths::joined(capture.name@, camera.name@),
                        images_of(camera)[f]@,
                    ),
                ),
                ids_of(names_of(dirs_of(dir)))[c],
                ids_of(names_of(dirs_of(capture)))[i],
                f,
            )
        }),
    decreases n,
{
    let capture = *dirs_of(dir)[c];
    let camera = *dirs_of(capture)[i];
    let path = paths::joined(
        root,
        paths::joined(paths::joined(capture.name@, camera.name@), images_of(camera)[f]@),
    );
    let (capture_id, camera_id) = (
        ids_of(names_of(dirs_of(dir)))[c],
        ids_of(names_of(dirs_of(capture)))[i],
    );
    let all = captures_images(root, dir, n);
    let front = captures_images(root, dir, (n - 1) as nat);
    if c < n - 1 {
        lemma_capture_found(root, dir, (n - 1) as nat, c, i, f);
        let k = choose|k: int|
            0 <= k < front.len() && (#[trigger] front[k]).path == path && front[k].capture_id
                == capture_id && front[k].camera_id == camera_id && front[k].image_index == f;
        assert(all[k] == front[k]);
    } else {
        let n_cameras = dirs_of(capture).len();
        let last = cameras_images(root, capture.name@, capture, capture_id, n_cameras);
        lemma_camera_found(root, capture.name@, capture, capture_id, n_cameras, i, f);
        let k = choose|k: int|
            0 <= k < last.len() && (#[trigger] last[k]).path == path && last[k].capture_id
                == capture_id && last[k].camera_id == camera_id && last[k].image_index == f;
        assert(all[front.len() + k] == last[k]);
    }
}

/// Every image of every camera directory is discovered, with the number of its
/// capture, the number of its camera and its own place among that camera's
/// images.
pub proof fn every_image_of_a_camera_is_discovered(
    root: Seq<char>,
    dir: Dir,
    c: int,
    i: int,
    f: int,
)
    requires
        countable(dir),
        layout_of(root, dir) == Layout::CapturesAndCameras,
        0 <= c < dirs_of(dir).len(),
        0 <= i < dirs_of(*dirs_of(dir)[c]).len(),
        0 <= f < images_of(*dirs_of(*dirs_of(dir)[c])[i]).len(),
    ensures
        ({
            let capture = *dirs_of(dir)[c];
            let camera = *dirs_of(capture)[i];
            is_found(
                discovered(root, dir),
                paths::joined(
                    root,
                    paths::joined(
                        paths::joined(capture.name@, camera.name@),
                        images_of(camera)[f]@,
                    ),
                ),
                ids_of(names_of(dirs_of(dir)))[c],
                ids_of(names_of(dirs_of(capture)))[i],
                f,
            )
        }),
{
    let capture = *dirs_of(dir)[c];
    let a = lemma_is_listed(dir, c);
    let b = lemma_is_listed(capture, i);
    lemma_images_of_len(*dirs_of(capture)[i]);
    assert(dir.dirs@[a].dirs@[b].files@.len() <= u32::MAX);
    lemma_capture_found(root, dir, dirs_of(dir).len(), c, i, f);
}

/// Where there are cameras but no captures, every image is of capture 0.
pub proof fn every_image_of_a_lone_capture_is_discovered(root: Seq<char>, dir: Dir, i: int, f: int)
    requires
        countable(dir),
        layout_of(root, dir) == Layout::CamerasOnly,
        0 <= i < dirs_of(dir).len(),
        0 <= f < images_of(*dirs_of(dir)[i]).len(),
    ensures
        is_found(
            discovered(root, dir),
            paths::joined(
                root,
                paths::joined(dirs_of(dir)[i].name@, images_of(*dirs_of(dir)[i])[f]@),
            ),
            0,
            ids_of(names_of(dirs_of(dir)))[i],
            f,
        ),
{
    let a = lemma_is_listed(dir, i);
    lemma_images_of_len(*dirs_of(dir)[i]);
    lemma_camera_found(root, Seq::empty(), dir, 0, dirs_of(dir).len(), i, f);
}

/// Being a file of a camera.
pub open spec fn shot_by(camera: u32) -> spec_fn(String) -> bool {
    |f: String| flat_camera(f@) == camera
}

proof fn lemma_shots_counted(files: Seq<String>, n: nat, camera: u32)
    requires
        n <= files.len(),
    ensures
        shots_before(files, n, camera) == sets::how_many(files, shot_by(camera), n),
    decreases n,
{
    sets::lemma_none_of_none(files, shot_by(camera));
    if n > 0 {
        lemma_shots_counted(files, (n - 1) as nat, camera);
        sets::lemma_one_more(files, shot_by(camera), (n - 1) as nat);
    }
}

/// Files directly under the root are of capture 0, and each is numbered by how
/// many of its camera stand in front of it.
pub proof fn flat_files_are_numbered_within_their_camera(root: Seq<char>, dir: Dir, i: int)
    requires
        countable(dir),
        layout_of(root, dir) == Layout::Flat,
        0 <= i < images_of(dir).len(),
    ensures
        discovered(root, dir).len() == images_of(dir).len(),
        ({
            let found = discovered(root, dir)[i];
            let file = images_of(dir)[i];
            &&& found.path == paths::joined(root, file@)
            &&& found.capture_id == 0
            &&& found.camera_id == flat_camera(file@)
            &&& found.image_index == sets::how_many(
                images_of(dir),
                shot_by(found.camera_id),
                i as nat,
            )
        }),
{
    let files = images_of(dir);
    lemma_images_of_len(dir);
    lemma_shots_counted(files, i as nat, flat_camera(files[i]@));
    lemma_shots_before(files, i as nat, flat_camera(files[i]@));
}

proof fn lemma_no_camera_images(root: Seq<char>, dir: Dir, n: nat)
    requires
        n <= dirs_of(dir).len(),
    ensures
        cameras_images(root, Seq::empty(), dir, 0, n).len() > 0 <==> exists|i: int|
            0 <= i < n && images_of(*#[trigger] dirs_of(dir)[i]).len() > 0,
    decreases n,
{
    if n > 0 {
        lemma_no_camera_images(root, dir, (n - 1) as nat);
        let last = camera_images(
            root,
            paths::joined(Seq::empty(), dirs_of(dir)[n - 1].name@),
            *dirs_of(dir)[n - 1],
            0,
            ids_of(names_of(dirs_of(dir)))[n - 1],
        );
        assert(last.len() == images_of(*dirs_of(dir)[n - 1]).len());
    }
}

/// An image two levels down makes the directories above it captures; failing
/// that, one a level down makes the directory above it a camera; failing both,
/// the files lie flat.
pub proof fn the_deepest_image_decides_the_layout(root: Seq<char>, dir: Dir)
    ensures
        layout_of(root, dir) == Layout::CapturesAndCameras <==> exists|i: int, j: int|
            0 <= i < dir.dirs@.len() && 0 <= j < dir.dirs@[i].dirs@.len() && images_of(
                #[trigger] dir.dirs@[i].dirs@[j],
            ).len() > 0,
        layout_of(root, dir) == Layout::Flat <==> !is_nested(dir) && forall|i: int|
            0 <= i < dirs_of(dir).len() ==> images_of(*#[trigger] dirs_of(dir)[i]).len() == 0,
{
    lemma_no_camera_images(root, dir, dirs_of(dir).len());
    assert forall|d: Dir| images_of(d).len() == images_among(#[trigger] d.files@).len() by {
        lemma_images_of_len(d);
    }
    if is_nested(dir) {
        let (i, j) = choose|i: int, j: int|
            0 <= i < dir.dirs@.len() && 0 <= j < dir.dirs@[i].dirs@.len() && images_among(
                (#[trigger] dir.dirs@[i].dirs@[j]).files@,
            ).len() > 0;
        lemma_images_of_len(dir.dirs@[i].dirs@[j]);
        assert(images_of(dir.dirs@[i].dirs@[j]).len() > 0);
    }
    if exists|i: int, j: int|
        0 <= i < dir.dirs@.len() && 0 <= j < dir.dirs@[i].dirs@.len() && images_of(
            #[trigger] dir.dirs@[i].dirs@[j],
        ).len() > 0 {
        let (i, j) = choose|i: int, j: int|
            0 <= i < dir.dirs@.len() && 0 <= j < dir.dirs@[i].dirs@.len() && images_of(
                #[trigger] dir.dirs@[i].dirs@[j],
            ).len() > 0;
        lemma_images_of_len(dir.dirs@[i].dirs@[j]);
        assert(images_among(dir.dirs@[i].dirs@[j].files@).len() > 0);
    }
}

/// Discovery fails exactly where the images directory is missing, or holds no
/// image: neither itself, nor in a directory in it, nor in one below that.
pub proof fn discovery_fails_where_there_is_no_image(root: Seq<char>, tree: Option<Dir>)
    ensures
        discovery_failure(root, tree) is None <==> (tree matches Some(dir) && (images_of(dir).len()
            > 0 || is_nested(dir) || exists|i: int|
            0 <= i < dirs_of(dir).len() && images_of(*#[trigger] dirs_of(dir)[i]).len() > 0)),
{
    if tree is Some {
        let dir = tree->0;
        if is_nested(dir) {
            lemma_nested_has_images(root, dir);
        } else {
            lemma_no_camera_images(root, dir, dirs_of(dir).len());
        }
    }
}

} // verus!
