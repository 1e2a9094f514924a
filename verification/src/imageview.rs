//! Where an image might be on disk, and how large it is shown.

use vstd::prelude::*;

use crate::order;
use crate::order::push_text;
use crate::paths;
use crate::paths::{join, join_text, path_components};
use crate::text::same_text;

verus! {

/// Two paths of the same components are the same path.
pub open spec fn same_path(a: Seq<char>, b: Seq<char>) -> bool {
    paths::components(a) == paths::components(b)
}

fn is_same_path(a: &str, b: &str) -> (r: bool)
    ensures
        r == same_path(a@, b@),
{
    let x = path_components(a);
    let y = path_components(b);
    let ghost (p, q) = (order::texts(x@), order::texts(y@));
    assert(p.len() == x@.len() && q.len() == y@.len());
    if x.len() != y.len() {
        return false;
    }
    let mut i: usize = 0;
    while i < x.len()
        invariant
            i <= x@.len() == y@.len(),
            p == order::texts(x@),
            q == order::texts(y@),
            p == paths::components(a@),
            q == paths::components(b@),
            forall|k: int| 0 <= k < i ==> p[k] == q[k],
        decreases x@.len() - i,
    {
        assert(p[i as int] == x@[i as int]@ && q[i as int] == y@[i as int]@);
        if !same_text(x[i].as_str(), y[i].as_str()) {
            return false;
        }
        i += 1;
    }
    assert(p =~= q);
    true
}

/// The directory that holds a project's images by convention.
pub open spec fn conventional(root: Seq<char>, name: Seq<char>) -> Seq<char> {
    paths::joined(paths::joined(root, "images"@), name)
}

/// Where to look for an image: under the configured directory and, since that
/// is stored absolute and a project may have been moved, under the
/// conventional one too.
pub fn candidate_paths(root: &str, images_dir: &str, name: &str) -> (out: Vec<String>)
    ensures
        ({
            let first = paths::joined(images_dir@, name@);
            let second = conventional(root@, name@);
            order::texts(out@) == if same_path(first, second) {
                seq![first]
            } else {
                seq![first, second]
            }
        }),
{
    let first = join(images_dir, name);
    let second = join(join(root, "images").as_str(), name);
    let same = is_same_path(first.as_str(), second.as_str());
    let ghost (a, b) = (first@, second@);
    let mut out: Vec<String> = Vec::new();
    push_text(&mut out, first);
    assert(order::texts(out@) =~= seq![a]);
    if !same {
        push_text(&mut out, second);
        assert(order::texts(out@) =~= seq![a, b]);
    }
    out
}

/// What is said where none of the places holds the image.
pub fn not_found(name: &str, candidates: &Vec<String>) -> (r: String)
    ensures
        r@ == "could not find the source image for \""@ + name@ + "\"; looked in "@
            + paths::join_with(order::texts(candidates@), " and "@),
{
    let mut m = String::from_str("could not find the source image for \"");
    m.append(name);
    m.append("\"; looked in ");
    m.append(join_text(candidates, " and ").as_str());
    m
}

// ---------------------------------------------------------------------------
// Textures
// ---------------------------------------------------------------------------

/// The long edge of a texture is at most this. A photograph in full is
/// pointless to upload: the overlay is read at screen scale.
pub const MAX_TEXTURE_EDGE: u32 = 2000;

/// No edge of a picture that is resized reaches beyond this: sampling weights
/// are computed in single precision, which tells neighbouring pixels apart up
/// to here.
pub const MAX_SAMPLED_EDGE: u32 = 1_048_575;

/// What a picture of four bytes per pixel becomes at another size, with a
/// triangle filter.
pub uninterp spec fn triangle_resized(
    rgba: Seq<u8>,
    width: u32,
    height: u32,
    to_width: u32,
    to_height: u32,
) -> Seq<u8>;

/// The number of bytes of a picture of four bytes per pixel.
pub open spec fn rgba_len(width: u32, height: u32) -> int {
    4 * (width * height)
}

/// A size that pictures are resized from and to.
pub open spec fn can_sample(width: u32, height: u32) -> bool {
    0 < width <= MAX_SAMPLED_EDGE && 0 < height <= MAX_SAMPLED_EDGE
}

/// `image::imageops::resize` with `FilterType::Triangle`. Its result is a
/// function of the picture and the two sizes; it has four bytes for every pixel
/// of the new size, and it is the picture itself where the size stays. How the
/// filter weighs the pixels is not stated.
#[verifier::external_body]
fn resized(rgba: Vec<u8>, width: u32, height: u32, to_width: u32, to_height: u32) -> (r: Vec<u8>)
    requires
        can_sample(width, height),
        can_sample(to_width, to_height),
        rgba@.len() == rgba_len(width, height),
        // the picture in between is one of single-precision numbers
        4 * rgba_len(width, to_height) <= isize::MAX,
        rgba_len(to_width, to_height) <= isize::MAX,
    ensures
        r@ == triangle_resized(rgba@, width, height, to_width, to_height),
        r@.len() == rgba_len(to_width, to_height),
        (to_width, to_height) == (width, height) ==> r@ == rgba@,
{
    let picture = image::RgbaImage::from_raw(width, height, rgba).unwrap();
    let filter = image::imageops::FilterType::Triangle;
    image::imageops::resize(&picture, to_width, to_height, filter).into_raw()
}

/// A picture as it is uploaded: four bytes per pixel, row by row.
#[derive(Debug)]
pub struct Texture {
    pub width: u32,
    pub height: u32,
    pub rgba: Vec<u8>,
}

/// Whether a picture is reduced before it is shown.
pub open spec fn is_too_large(width: u32, height: u32) -> bool {
    width > MAX_TEXTURE_EDGE || height > MAX_TEXTURE_EDGE
}

/// An edge is never reduced to nothing.
pub open spec fn edge(n: u32) -> u32 {
    if n < 1 {
        1
    } else {
        n
    }
}

/// The texture of a picture: the picture itself, or, where it is too large, the
/// picture at the size `reduced`, which scales the long edge to the limit.
pub fn texture(rgba: Vec<u8>, width: u32, height: u32, reduced: (u32, u32)) -> (r: Texture)
    requires
        rgba@.len() == rgba_len(width, height),
        is_too_large(width, height) ==> can_sample(width, height) && reduced.0 <= width
            && reduced.1 <= height && 4 * rgba_len(width, height) <= isize::MAX,
    ensures
        r.rgba@.len() == rgba_len(r.width, r.height),
        !is_too_large(width, height) ==> r.width == width && r.height == height && r.rgba == rgba,
        is_too_large(width, height) ==> r.width == edge(reduced.0) && r.height == edge(reduced.1)
            && r.rgba@ == triangle_resized(rgba@, width, height, r.width, r.height),
{
    if width <= MAX_TEXTURE_EDGE && height <= MAX_TEXTURE_EDGE {
        return Texture { width, height, rgba };
    }
    let to_width: u32 = if reduced.0 < 1 {
        1
    } else {
        reduced.0
    };
    let to_height: u32 = if reduced.1 < 1 {
        1
    } else {
        reduced.1
    };
    assert(width * to_height <= width * height) by (nonlinear_arith)
        requires
            to_height <= height,
    ;
    assert(to_width * to_height <= width * to_height) by (nonlinear_arith)
        requires
            to_width <= width,
    ;
    let small = resized(rgba, width, height, to_width, to_height);
    Texture { width: to_width, height: to_height, rgba: small }
}

/// Two ways of writing a path lead to one place, however many slashes stand
/// between two names.
pub proof fn slashes_do_not_tell_paths_apart(a: Seq<char>, b: Seq<char>, other: Seq<char>)
    requires
        a.len() > 0,
    ensures
        same_path(a + seq!['/'] + seq!['/'] + b, a + seq!['/'] + b),
        same_path(a, a),
        same_path(a, other) ==> same_path(other, a),
        same_path(a, other) <==> paths::components(a) == paths::components(other),
{
    paths::empty_steps_name_nothing(a, b);
}

/// A picture is reduced exactly where an edge of it is longer than a texture's
/// may be, and never to nothing.
pub proof fn pictures_that_fit_are_left_alone(width: u32, height: u32, n: u32)
    ensures
        !is_too_large(width, height) <==> width <= MAX_TEXTURE_EDGE && height <= MAX_TEXTURE_EDGE,
        edge(n) >= 1,
        n >= 1 ==> edge(n) == n,
{
}

} // verus!
