//! What the images of a dataset are called.
//!
//! An image is known by its path below the images root, so a dataset whose
//! files and directories have plain, different names has no two images of one
//! name.

use vstd::prelude::*;

use crate::dataset;
use crate::dataset::{Dir, ImageModel, Layout};
use crate::order;
use crate::paths;

verus! {

// ---------------------------------------------------------------------------
// Plain names
// ---------------------------------------------------------------------------

/// A name that is one level of a path on every system: not empty, and without
/// a slash of either kind.
pub open spec fn is_plain(name: Seq<char>) -> bool {
    name.len() > 0 && !name.contains('/') && !name.contains('\\')
}

/// Files with plain names, no two the same.
pub open spec fn plain_files(dir: Dir) -> bool {
    &&& forall|i: int| 0 <= i < dir.files@.len() ==> is_plain((#[trigger] dir.files@[i])@)
    &&& forall|i: int, j: int|
        0 <= i < j < dir.files@.len() ==> (#[trigger] dir.files@[i])@ != (
        #[trigger] dir.files@[j])@
}

/// Directories with plain names, no two the same.
pub open spec fn plain_dirs(dir: Dir) -> bool {
    &&& forall|i: int| 0 <= i < dir.dirs@.len() ==> is_plain((#[trigger] dir.dirs@[i]).name@)
    &&& dataset::distinct_names(dir)
}

/// Plain, different names down to the images of a camera's directory.
pub open spec fn plainly_named(dir: Dir) -> bool {
    &&& plain_files(dir)
    &&& plain_dirs(dir)
    &&& forall|i: int|
        0 <= i < dir.dirs@.len() ==> plain_files(#[trigger] dir.dirs@[i]) && plain_dirs(
            dir.dirs@[i],
        )
    &&& forall|i: int, j: int|
        0 <= i < dir.dirs@.len() && 0 <= j < dir.dirs@[i].dirs@.len() ==> plain_files(
            #[trigger] dir.dirs@[i].dirs@[j],
        )
}

/// The path of a file two directories down.
pub open spec fn nested_path(a: Seq<char>, b: Seq<char>, file: Seq<char>) -> Seq<char> {
    a + "/"@ + b + "/"@ + file
}

proof fn lemma_first_slash(a: Seq<char>, b: Seq<char>, c: Seq<char>, d: Seq<char>)
    requires
        !a.contains('/'),
        !c.contains('/'),
        a + "/"@ + b == c + "/"@ + d,
    ensures
        a == c,
        b == d,
{
    reveal_strlit("/");
    let s = a + "/"@ + b;
    let t = c + "/"@ + d;
    assert(s[a.len() as int] == '/');
    assert(t[c.len() as int] == '/');
    if a.len() < c.len() {
        assert(c[a.len() as int] == t[a.len() as int]);
        assert(c.contains('/'));
    } else if c.len() < a.len() {
        assert(a[c.len() as int] == s[c.len() as int]);
        assert(a.contains('/'));
    }
    assert(a =~= c) by {
        assert(a =~= s.take(a.len() as int));
        assert(c =~= t.take(c.len() as int));
    }
    assert(b =~= d) by {
        assert(b =~= s.skip(a.len() as int + 1));
        assert(d =~= t.skip(c.len() as int + 1));
    }
}

/// Two paths are the same only where every level of them is.
pub proof fn lemma_nested_paths(
    a: Seq<char>,
    b: Seq<char>,
    f: Seq<char>,
    c: Seq<char>,
    d: Seq<char>,
    g: Seq<char>,
)
    requires
        !a.contains('/'),
        !b.contains('/'),
        !c.contains('/'),
        !d.contains('/'),
        nested_path(a, b, f) == nested_path(c, d, g),
    ensures
        a == c,
        b == d,
        f == g,
{
    assert(nested_path(a, b, f) =~= a + "/"@ + (b + "/"@ + f));
    assert(nested_path(c, d, g) =~= c + "/"@ + (d + "/"@ + g));
    lemma_first_slash(a, b + "/"@ + f, c, d + "/"@ + g);
    lemma_first_slash(b, f, d, g);
}

proof fn lemma_one_level(a: Seq<char>, b: Seq<char>)
    requires
        is_plain(a),
        is_plain(b),
    ensures
        paths::joined(Seq::empty(), a) == a,
        paths::joined(a, b) == a + "/"@ + b,
        paths::forward_slashes(a) == a,
        paths::forward_slashes(a + "/"@ + b) == a + "/"@ + b,
{
    reveal_strlit("/");
    assert("/"@ =~= seq!['/']);
    assert(a.contains(a.last()));
    assert(b.contains(b[0]));
    assert forall|i: int| 0 <= i < a.len() implies a[i] != '\\' by {
        assert(a.contains(a[i]));
    }
    assert forall|i: int| 0 <= i < b.len() implies b[i] != '\\' by {
        assert(b.contains(b[i]));
    }
    assert(paths::forward_slashes(a) =~= a);
    assert(paths::forward_slashes(a + "/"@ + b) =~= a + "/"@ + b);
}

/// The name of an image two directories down is its path.
pub proof fn lemma_nested_name(a: Seq<char>, b: Seq<char>, file: Seq<char>)
    requires
        is_plain(a),
        is_plain(b),
        is_plain(file),
    ensures
        paths::forward_slashes(paths::joined(paths::joined(a, b), file)) == nested_path(
            a,
            b,
            file,
        ),
{
    reveal_strlit("/");
    assert("/"@ =~= seq!['/']);
    lemma_one_level(a, b);
    lemma_one_level(b, file);
    let ab = a + "/"@ + b;
    assert(ab.last() == b.last());
    assert(b.contains(b.last()));
    assert(file.contains(file[0]));
    assert(paths::joined(ab, file) == ab + "/"@ + file);
    let bf = b + "/"@ + file;
    assert(ab + "/"@ + file =~= a + "/"@ + bf);
    assert(paths::forward_slashes(a + "/"@ + bf) =~= paths::forward_slashes(a) + "/"@
        + paths::forward_slashes(bf));
}

// ---------------------------------------------------------------------------
// The images of one directory
// ---------------------------------------------------------------------------

pub proof fn lemma_is_among(files: Seq<String>, i: int) -> (j: int)
    requires
        0 <= i < dataset::images_among(files).len(),
    ensures
        0 <= j < files.len(),
        dataset::images_among(files)[i] == files[j],
        dataset::names_an_image(files[j]@),
    decreases files.len(),
{
    let front = dataset::images_among(files.drop_last());
    if i < front.len() {
        let j = lemma_is_among(files.drop_last(), i);
        assert(files.drop_last()[j] == files[j]);
        j
    } else {
        files.len() - 1
    }
}

proof fn lemma_has_image(files: Seq<String>, j: int) -> (i: int)
    requires
        0 <= j < files.len(),
        dataset::names_an_image(files[j]@),
    ensures
        0 <= i < dataset::images_among(files).len(),
        dataset::images_among(files)[i] == files[j],
    decreases files.len(),
{
    let front = dataset::images_among(files.drop_last());
    if j < files.len() - 1 {
        assert(files.drop_last()[j] == files[j]);
        lemma_has_image(files.drop_last(), j)
    } else {
        front.len() as int
    }
}

proof fn lemma_images_among_differ(files: Seq<String>, a: int, b: int)
    requires
        forall|i: int, j: int|
            0 <= i < j < files.len() ==> (#[trigger] files[i])@ != (#[trigger] files[j])@,
        0 <= a < b < dataset::images_among(files).len(),
    ensures
        dataset::images_among(files)[a]@ != dataset::images_among(files)[b]@,
    decreases files.len(),
{
    let rest = files.drop_last();
    let front = dataset::images_among(rest);
    assert forall|i: int, j: int| 0 <= i < j < rest.len() implies (#[trigger] rest[i])@ != (
    #[trigger] rest[j])@ by {
        assert(rest[i] == files[i]);
        assert(rest[j] == files[j]);
    }
    if b < front.len() {
        lemma_images_among_differ(rest, a, b);
    } else {
        let j = lemma_is_among(rest, a);
        assert(rest[j] == files[j]);
        assert(files[j]@ != files[files.len() - 1]@);
    }
}

/// Each image of a directory is one of its files.
pub proof fn lemma_is_file(dir: Dir, i: int) -> (j: int)
    requires
        0 <= i < dataset::images_of(dir).len(),
    ensures
        0 <= j < dir.files@.len(),
        dataset::images_of(dir)[i] == dir.files@[j],
        dataset::names_an_image(dir.files@[j]@),
{
    broadcast use vstd::seq_lib::group_to_multiset_ensures;

    let among = dataset::images_among(dir.files@);
    order::sorted_is_an_ordered_permutation(among);
    let x = dataset::images_of(dir)[i];
    assert(dataset::images_of(dir).contains(x));
    assert(dataset::images_of(dir).to_multiset().count(x) > 0);
    assert(among.contains(x));
    let k = choose|k: int| 0 <= k < among.len() && among[k] == x;
    lemma_is_among(dir.files@, k)
}

/// Each file that is an image is among the images of its directory.
pub proof fn lemma_is_image(dir: Dir, j: int) -> (i: int)
    requires
        0 <= j < dir.files@.len(),
        dataset::names_an_image(dir.files@[j]@),
    ensures
        0 <= i < dataset::images_of(dir).len(),
        dataset::images_of(dir)[i] == dir.files@[j],
{
    broadcast use vstd::seq_lib::group_to_multiset_ensures;

    let among = dataset::images_among(dir.files@);
    order::sorted_is_an_ordered_permutation(among);
    let k = lemma_has_image(dir.files@, j);
    let x = among[k];
    assert(among.contains(x));
    assert(among.to_multiset().count(x) > 0);
    assert(dataset::images_of(dir).contains(x));
    choose|i: int| 0 <= i < dataset::images_of(dir).len() && dataset::images_of(dir)[i] == x
}

/// The images of a directory have different names.
proof fn lemma_images_differ(dir: Dir, a: int, b: int)
    requires
        plain_files(dir),
        0 <= a < dataset::images_of(dir).len(),
        0 <= b < dataset::images_of(dir).len(),
        dataset::images_of(dir)[a]@ == dataset::images_of(dir)[b]@,
    ensures
        a == b,
{
    broadcast use vstd::seq_lib::group_to_multiset_ensures;

    let among = dataset::images_among(dir.files@);
    let all = dataset::images_of(dir);
    order::sorted_is_an_ordered_permutation(among);
    assert(among.no_duplicates()) by {
        assert forall|i: int, j: int| 0 <= i < among.len() && 0 <= j < among.len() && i
            != j implies among[i] != among[j] by {
            if i < j {
                lemma_images_among_differ(dir.files@, i, j);
            } else {
                lemma_images_among_differ(dir.files@, j, i);
            }
        }
    }
    among.lemma_multiset_has_no_duplicates();
    all.lemma_multiset_has_no_duplicates_conv();
    let i = lemma_is_file(dir, a);
    let j = lemma_is_file(dir, b);
    if i < j {
        assert(dir.files@[i]@ != dir.files@[j]@);
    } else if j < i {
        assert(dir.files@[j]@ != dir.files@[i]@);
    } else {
        assert(all[a] == all[b]);
    }
}

// ---------------------------------------------------------------------------
// Where an image of a dataset comes from
// ---------------------------------------------------------------------------

/// Image `f` of camera directory `q` of `dir`.
pub open spec fn camera_image(
    root: Seq<char>,
    rel: Seq<char>,
    dir: Dir,
    capture_id: u32,
    q: int,
    f: int,
) -> ImageModel {
    let cams = dataset::dirs_of(dir);
    dataset::image_at(
        root,
        paths::joined(paths::joined(rel, cams[q].name@), dataset::images_of(*cams[q])[f]@),
        capture_id,
        dataset::ids_of(dataset::names_of(cams))[q],
        f as u32,
    )
}

/// Image `f` of camera directory `q` of capture directory `p`.
pub open spec fn capture_image(root: Seq<char>, dir: Dir, p: int, q: int, f: int) -> ImageModel {
    let caps = dataset::dirs_of(dir);
    camera_image(
        root,
        caps[p].name@,
        *caps[p],
        dataset::ids_of(dataset::names_of(caps))[p],
        q,
        f,
    )
}

proof fn lemma_from_camera(
    root: Seq<char>,
    rel: Seq<char>,
    dir: Dir,
    capture_id: u32,
    n: nat,
    i: int,
) -> (r: (int, int))
    requires
        0 <= i < dataset::cameras_images(root, rel, dir, capture_id, n).len(),
    ensures
        0 <= r.0 < n,
        0 <= r.1 < dataset::images_of(*dataset::dirs_of(dir)[r.0]).len(),
        dataset::cameras_images(root, rel, dir, capture_id, n)[i] == camera_image(
            root,
            rel,
            dir,
            capture_id,
            r.0,
            r.1,
        ),
    decreases n,
{
    let front = dataset::cameras_images(root, rel, dir, capture_id, (n - 1) as nat);
    if i < front.len() {
        lemma_from_camera(root, rel, dir, capture_id, (n - 1) as nat, i)
    } else {
        (n - 1, i - front.len())
    }
}

proof fn lemma_in_cameras(
    root: Seq<char>,
    rel: Seq<char>,
    dir: Dir,
    capture_id: u32,
    n: nat,
    q: int,
    f: int,
) -> (i: int)
    requires
        0 <= q < n,
        0 <= f < dataset::images_of(*dataset::dirs_of(dir)[q]).len(),
    ensures
        0 <= i < dataset::cameras_images(root, rel, dir, capture_id, n).len(),
        dataset::cameras_images(root, rel, dir, capture_id, n)[i] == camera_image(
            root,
            rel,
            dir,
            capture_id,
            q,
            f,
        ),
    decreases n,
{
    let front = dataset::cameras_images(root, rel, dir, capture_id, (n - 1) as nat);
    if q < n - 1 {
        lemma_in_cameras(root, rel, dir, capture_id, (n - 1) as nat, q, f)
    } else {
        front.len() + f
    }
}

proof fn lemma_from_capture(root: Seq<char>, dir: Dir, n: nat, i: int) -> (r: (int, int, int))
    requires
        0 <= i < dataset::captures_images(root, dir, n).len(),
    ensures
        0 <= r.0 < n,
        0 <= r.1 < dataset::dirs_of(*dataset::dirs_of(dir)[r.0]).len(),
        0 <= r.2 < dataset::images_of(
            *dataset::dirs_of(*dataset::dirs_of(dir)[r.0])[r.1],
        ).len(),
        dataset::captures_images(root, dir, n)[i] == capture_image(root, dir, r.0, r.1, r.2),
    decreases n,
{
    let front = dataset::captures_images(root, dir, (n - 1) as nat);
    if i < front.len() {
        lemma_from_capture(root, dir, (n - 1) as nat, i)
    } else {
        let caps = dataset::dirs_of(dir);
        let (q, f) = lemma_from_camera(
            root,
            caps[n - 1].name@,
            *caps[n - 1],
            dataset::ids_of(dataset::names_of(caps))[n - 1],
            dataset::dirs_of(*caps[n - 1]).len(),
            i - front.len(),
        );
        (n - 1, q, f)
    }
}

/// Every image of a dataset of captures and cameras comes from the directory
/// of its camera in the directory of its capture.
pub proof fn lemma_comes_from(root: Seq<char>, dir: Dir, i: int) -> (r: (int, int, int))
    requires
        dataset::is_nested(dir),
        0 <= i < dataset::discovered(root, dir).len(),
    ensures
        0 <= r.0 < dataset::dirs_of(dir).len(),
        0 <= r.1 < dataset::dirs_of(*dataset::dirs_of(dir)[r.0]).len(),
        0 <= r.2 < dataset::images_of(
            *dataset::dirs_of(*dataset::dirs_of(dir)[r.0])[r.1],
        ).len(),
        dataset::discovered(root, dir)[i] == capture_image(root, dir, r.0, r.1, r.2),
{
    lemma_from_capture(root, dir, dataset::dirs_of(dir).len(), i)
}

proof fn lemma_in_captures(root: Seq<char>, dir: Dir, n: nat, p: int, q: int, f: int) -> (i: int)
    requires
        0 <= p < n,
        0 <= q < dataset::dirs_of(*dataset::dirs_of(dir)[p]).len(),
        0 <= f < dataset::images_of(*dataset::dirs_of(*dataset::dirs_of(dir)[p])[q]).len(),
    ensures
        0 <= i < dataset::captures_images(root, dir, n).len(),
        dataset::captures_images(root, dir, n)[i] == capture_image(root, dir, p, q, f),
    decreases n,
{
    let front = dataset::captures_images(root, dir, (n - 1) as nat);
    if p < n - 1 {
        lemma_in_captures(root, dir, (n - 1) as nat, p, q, f)
    } else {
        let caps = dataset::dirs_of(dir);
        let i = lemma_in_cameras(
            root,
            caps[p].name@,
            *caps[p],
            dataset::ids_of(dataset::names_of(caps))[p],
            dataset::dirs_of(*caps[p]).len(),
            q,
            f,
        );
        front.len() + i
    }
}

/// Every image in a directory two levels down is an image of the dataset.
pub proof fn lemma_is_discovered(root: Seq<char>, dir: Dir, p: int, q: int, f: int) -> (i: int)
    requires
        dataset::is_nested(dir),
        0 <= p < dataset::dirs_of(dir).len(),
        0 <= q < dataset::dirs_of(*dataset::dirs_of(dir)[p]).len(),
        0 <= f < dataset::images_of(*dataset::dirs_of(*dataset::dirs_of(dir)[p])[q]).len(),
    ensures
        0 <= i < dataset::discovered(root, dir).len(),
        dataset::discovered(root, dir)[i] == capture_image(root, dir, p, q, f),
{
    lemma_in_captures(root, dir, dataset::dirs_of(dir).len(), p, q, f)
}

// ---------------------------------------------------------------------------
// Different names
// ---------------------------------------------------------------------------

/// No two images have one name.
pub open spec fn distinct_image_names(s: Seq<ImageModel>) -> bool {
    forall|i: int, j: int|
        0 <= i < j < s.len() ==> (#[trigger] s[i]).name != (#[trigger] s[j]).name
}

proof fn lemma_same_dir(dir: Dir, p: int, q: int)
    requires
        dataset::distinct_names(dir),
        0 <= p < dataset::dirs_of(dir).len(),
        0 <= q < dataset::dirs_of(dir).len(),
        dataset::dirs_of(dir)[p].name@ == dataset::dirs_of(dir)[q].name@,
    ensures
        p == q,
{
    dataset::lemma_sorted_names_distinct(dir);
    let names = dataset::names_of(dataset::dirs_of(dir));
    assert(names[p] == names[q]);
}

proof fn lemma_nested_images(root: Seq<char>, dir: Dir, a: int, b: int)
    requires
        dataset::countable(dir),
        plainly_named(dir),
        dataset::is_nested(dir),
        0 <= a < b < dataset::discovered(root, dir).len(),
    ensures
        dataset::discovered(root, dir)[a].name != dataset::discovered(root, dir)[b].name,
{
    let all = dataset::discovered(root, dir);
    let caps = dataset::dirs_of(dir);
    let (p, q, f) = lemma_comes_from(root, dir, a);
    let (s, t, g) = lemma_comes_from(root, dir, b);
    dataset::images_have_distinct_identities(root, dir);
    assert(dataset::identity(all[a]) != dataset::identity(all[b]));
    if all[a].name == all[b].name {
        let i = dataset::lemma_is_listed(dir, p);
        let j = dataset::lemma_is_listed(*caps[p], q);
        let k = lemma_is_file(*dataset::dirs_of(*caps[p])[q], f);
        let l = dataset::lemma_is_listed(dir, s);
        let m = dataset::lemma_is_listed(*caps[s], t);
        let n = lemma_is_file(*dataset::dirs_of(*caps[s])[t], g);
        let one = dir.dirs@[i].dirs@[j];
        let other = dir.dirs@[l].dirs@[m];
        assert(plain_files(dir.dirs@[i].dirs@[j]));
        assert(plain_files(dir.dirs@[l].dirs@[m]));
        assert(plain_dirs(dir.dirs@[i]));
        assert(plain_dirs(dir.dirs@[l]));
        lemma_nested_name(dir.dirs@[i].name@, one.name@, one.files@[k]@);
        lemma_nested_name(dir.dirs@[l].name@, other.name@, other.files@[n]@);
        lemma_nested_paths(
            dir.dirs@[i].name@,
            one.name@,
            one.files@[k]@,
            dir.dirs@[l].name@,
            other.name@,
            other.files@[n]@,
        );
        lemma_same_dir(dir, p, s);
        lemma_same_dir(*caps[p], q, t);
        lemma_images_differ(one, f, g);
    }
}

proof fn lemma_camera_images(root: Seq<char>, dir: Dir, a: int, b: int)
    requires
        dataset::countable(dir),
        plainly_named(dir),
        dataset::layout_of(root, dir) == Layout::CamerasOnly,
        0 <= a < b < dataset::discovered(root, dir).len(),
    ensures
        dataset::discovered(root, dir)[a].name != dataset::discovered(root, dir)[b].name,
{
    let all = dataset::discovered(root, dir);
    let cams = dataset::dirs_of(dir);
    let (q, f) = lemma_from_camera(root, Seq::empty(), dir, 0, cams.len(), a);
    let (t, g) = lemma_from_camera(root, Seq::empty(), dir, 0, cams.len(), b);
    dataset::images_have_distinct_identities(root, dir);
    assert(dataset::identity(all[a]) != dataset::identity(all[b]));
    if all[a].name == all[b].name {
        let i = dataset::lemma_is_listed(dir, q);
        let k = lemma_is_file(*cams[q], f);
        let l = dataset::lemma_is_listed(dir, t);
        let n = lemma_is_file(*cams[t], g);
        let one = dir.dirs@[i];
        let other = dir.dirs@[l];
        assert(plain_files(dir.dirs@[i]));
        assert(plain_files(dir.dirs@[l]));
        lemma_one_level(one.name@, one.files@[k]@);
        lemma_one_level(other.name@, other.files@[n]@);
        lemma_first_slash(one.name@, one.files@[k]@, other.name@, other.files@[n]@);
        lemma_same_dir(dir, q, t);
        lemma_images_differ(one, f, g);
    }
}

/// No two images of a dataset have one name, where the files and directories
/// of each level have plain, different names.
pub proof fn images_have_distinct_names(root: Seq<char>, dir: Dir)
    requires
        dataset::countable(dir),
        plainly_named(dir),
    ensures
        distinct_image_names(dataset::discovered(root, dir)),
{
    let all = dataset::discovered(root, dir);
    assert forall|a: int, b: int| 0 <= a < b < all.len() implies (#[trigger] all[a]).name != (
    #[trigger] all[b]).name by {
        match dataset::layout_of(root, dir) {
            Layout::CapturesAndCameras => {
                lemma_nested_images(root, dir, a, b);
            },
            Layout::CamerasOnly => {
                lemma_camera_images(root, dir, a, b);
            },
            Layout::Flat => {
                let files = dataset::images_of(dir);
                let i = lemma_is_file(dir, a);
                let j = lemma_is_file(dir, b);
                lemma_one_level(files[a]@, files[a]@);
                lemma_one_level(files[b]@, files[b]@);
                if files[a]@ == files[b]@ {
                    lemma_images_differ(dir, a, b);
                }
            },
        }
    }
}

} // verus!
