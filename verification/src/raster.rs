//! Drawing points into a pixel buffer with a depth test, and picking the point
//! that a pixel shows.
//!
//! Picking reuses the depth test rather than searching for the nearest point on
//! screen: with a dense cloud that one is routinely hidden behind the surface
//! being clicked, and only the buffer that resolved occlusion knows which one
//! is visible.

use vstd::prelude::*;

verus! {

/// A point on the screen: the pixel that it lands on, how far away it is (as a
/// number that is ordered as the distance is), and its colour.
#[derive(Debug, Clone, Copy, PartialEq, Eq)]
pub struct Splat {
    pub x: i64,
    pub y: i64,
    pub depth: u64,
    pub color: (u8, u8, u8),
}

/// What a frame shows.
#[derive(Debug)]
pub struct Frame {
    pub width: usize,
    pub height: usize,
    /// Red, green, blue and alpha of each pixel, row by row.
    pub rgba: Vec<u8>,
    /// The point that owns each pixel.
    pub point_at: Vec<Option<usize>>,
}

/// The point's square covers a pixel.
pub open spec fn covers(s: Splat, radius: int, x: int, y: int) -> bool {
    &&& s.x - radius <= x <= s.x + radius
    &&& s.y - radius <= y <= s.y + radius
}

/// Of the first `n` points the one that a pixel shows: the nearest that covers
/// it, and the first of those.
pub open spec fn owner(points: Seq<Option<Splat>>, radius: int, x: int, y: int, n: nat) -> Option<
    usize,
>
    decreases n,
{
    if n == 0 {
        None
    } else {
        let before = owner(points, radius, x, y, (n - 1) as nat);
        match points[n - 1] {
            Some(s) => if covers(s, radius, x, y) && (match before {
                Some(b) => s.depth < points[b as int]->0.depth,
                None => true,
            }) {
                Some((n - 1) as usize)
            } else {
                before
            },
            None => before,
        }
    }
}

/// The owner covers the pixel, no point that covers it is nearer, and none
/// before it is as near.
pub proof fn the_nearest_point_shows(
    points: Seq<Option<Splat>>,
    radius: int,
    x: int,
    y: int,
    n: nat,
)
    requires
        n <= points.len() <= usize::MAX,
    ensures
        match owner(points, radius, x, y, n) {
            Some(o) => {
                &&& o < n
                &&& points[o as int] is Some
                &&& covers(points[o as int]->0, radius, x, y)
                &&& forall|k: int|
                    0 <= k < n && (#[trigger] points[k]) is Some && covers(
                        points[k]->0,
                        radius,
                        x,
                        y,
                    ) ==> points[o as int]->0.depth <= points[k]->0.depth && (k < o
                        ==> points[o as int]->0.depth < points[k]->0.depth)
            },
            None => forall|k: int|
                0 <= k < n && (#[trigger] points[k]) is Some ==> !covers(
                    points[k]->0,
                    radius,
                    x,
                    y,
                ),
        },
    decreases n,
{
    if n > 0 {
        the_nearest_point_shows(points, radius, x, y, (n - 1) as nat);
    }
}

/// The pixel of a row and a column.
pub open spec fn pixel(width: int, x: int, y: int) -> int {
    y * width + x
}

proof fn lemma_pixel(width: int, height: int, x: int, y: int)
    requires
        0 <= x < width,
        0 <= y < height,
    ensures
        0 <= pixel(width, x, y) < width * height,
{
    assert(0 <= y * width) by (nonlinear_arith)
        requires
            0 <= y,
            0 <= width,
    ;
    assert((y + 1) * width <= height * width) by (nonlinear_arith)
        requires
            y + 1 <= height,
            0 <= width,
    ;
    assert((y + 1) * width == y * width + width) by (nonlinear_arith);
    assert(height * width == width * height) by (nonlinear_arith);
}

proof fn lemma_pixels_differ(width: int, x: int, y: int, u: int, v: int)
    requires
        0 <= x < width,
        0 <= u < width,
        pixel(width, x, y) == pixel(width, u, v),
    ensures
        x == u,
        y == v,
{
    if y < v {
        assert(y * width + width <= v * width) by (nonlinear_arith)
            requires
                y + 1 <= v,
                0 <= width,
        ;
    } else if v < y {
        assert(v * width + width <= y * width) by (nonlinear_arith)
            requires
                v + 1 <= y,
                0 <= width,
        ;
    }
}

/// The colour of the first `n` points at a pixel.
pub open spec fn color_of(
    points: Seq<Option<Splat>>,
    radius: int,
    background: (u8, u8, u8),
    x: int,
    y: int,
    n: nat,
) -> (u8, u8, u8) {
    match owner(points, radius, x, y, n) {
        Some(o) => points[o as int]->0.color,
        None => background,
    }
}

/// The frame shows the first `n` points.
pub open spec fn shows(
    f: Frame,
    points: Seq<Option<Splat>>,
    radius: int,
    background: (u8, u8, u8),
    n: nat,
) -> bool {
    &&& f.point_at@.len() == f.width * f.height
    &&& f.rgba@.len() == 4 * (f.width * f.height)
    &&& forall|x: int, y: int|
        #![trigger pixel(f.width as int, x, y)]
        0 <= x < f.width && 0 <= y < f.height ==> {
            let p = pixel(f.width as int, x, y);
            &&& f.point_at@[p] == owner(points, radius, x, y, n)
            &&& (f.rgba@[4 * p], f.rgba@[4 * p + 1], f.rgba@[4 * p + 2]) == color_of(
                points,
                radius,
                background,
                x,
                y,
                n,
            )
            &&& f.rgba@[4 * p + 3] == 255
        }
}

/// A pixel as it stands while point `n` is being drawn: done above and to the
/// left of a place, still to do from there on.
spec fn half_drawn(
    f: Frame,
    points: Seq<Option<Splat>>,
    radius: int,
    background: (u8, u8, u8),
    n: nat,
    row: int,
    column: int,
) -> bool {
    &&& f.point_at@.len() == f.width * f.height
    &&& f.rgba@.len() == 4 * (f.width * f.height)
    &&& forall|x: int, y: int|
        #![trigger pixel(f.width as int, x, y)]
        0 <= x < f.width && 0 <= y < f.height ==> {
            let p = pixel(f.width as int, x, y);
            let m = if y < row || (y == row && x < column) {
                n + 1
            } else {
                n
            };
            &&& f.point_at@[p] == owner(points, radius, x, y, m)
            &&& (f.rgba@[4 * p], f.rgba@[4 * p + 1], f.rgba@[4 * p + 2]) == color_of(
                points,
                radius,
                background,
                x,
                y,
                m,
            )
            &&& f.rgba@[4 * p + 3] == 255
        }
}

/// An empty frame.
fn blank(width: usize, height: usize, background: (u8, u8, u8)) -> (f: Frame)
    requires
        4 * (width * height) <= usize::MAX,
    ensures
        f.width == width,
        f.height == height,
        shows(f, Seq::empty(), 0, background, 0),
{
    assert(width * height <= usize::MAX);
    let total: usize = width * height;
    let mut rgba: Vec<u8> = Vec::new();
    let mut point_at: Vec<Option<usize>> = Vec::new();
    let mut i: usize = 0;
    while i < total
        invariant
            i <= total == width * height,
            4 * total <= usize::MAX,
            point_at@.len() == i,
            rgba@.len() == 4 * i,
            forall|p: int|
                0 <= p < i ==> {
                    &&& (#[trigger] point_at@[p]) is None
                    &&& rgba@[4 * p] == background.0
                    &&& rgba@[4 * p + 1] == background.1
                    &&& rgba@[4 * p + 2] == background.2
                    &&& rgba@[4 * p + 3] == 255
                },
        decreases total - i,
    {
        let ghost (pixels, points) = (rgba@, point_at@);
        rgba.push(background.0);
        rgba.push(background.1);
        rgba.push(background.2);
        rgba.push(255);
        point_at.push(None);
        assert forall|p: int| 0 <= p < i + 1 implies {
            &&& (#[trigger] point_at@[p]) is None
            &&& rgba@[4 * p] == background.0
            &&& rgba@[4 * p + 1] == background.1
            &&& rgba@[4 * p + 2] == background.2
            &&& rgba@[4 * p + 3] == 255
        } by {
            if p < i {
                assert(points[p] is None);
                assert(rgba@[4 * p] == pixels[4 * p]);
            }
        }
        i += 1;
    }
    let f = Frame { width, height, rgba, point_at };
    assert forall|x: int, y: int|
        #![trigger pixel(f.width as int, x, y)]
        0 <= x < f.width && 0 <= y < f.height implies {
        let p = pixel(f.width as int, x, y);
        &&& f.point_at@[p] is None
        &&& (f.rgba@[4 * p], f.rgba@[4 * p + 1], f.rgba@[4 * p + 2]) == background
        &&& f.rgba@[4 * p + 3] == 255
    } by {
        lemma_pixel(f.width as int, f.height as int, x, y);
    }
    f
}

/// A place brought within a size.
spec fn clamped(v: int, size: int) -> int {
    if v <= 0 {
        0
    } else if v >= size {
        size
    } else {
        v
    }
}

/// The part of `-radius..=radius` around a place that lies within a size.
fn span(at: i64, radius: u32, size: usize) -> (r: (usize, usize))
    ensures
        r.0 <= r.1 <= size,
        r.0 == clamped(at - radius, size as int),
        r.1 == clamped(at + radius + 1, size as int),
{
    let lo: i128 = at as i128 - radius as i128;
    let hi: i128 = at as i128 + radius as i128 + 1;
    let end: i128 = size as i128;
    let from: usize = if lo <= 0 {
        0
    } else if lo >= end {
        size
    } else {
        lo as usize
    };
    let to: usize = if hi <= 0 {
        0
    } else if hi >= end {
        size
    } else {
        hi as usize
    };
    (from, to)
}

/// Draws the points: each as a square of pixels, nearer ones over farther ones.
/// Points that are hidden or behind the eye are given as nothing.
pub fn render(
    points: &Vec<Option<Splat>>,
    radius: u32,
    width: usize,
    height: usize,
    background: (u8, u8, u8),
) -> (f: Frame)
    requires
        4 * (width * height) <= usize::MAX,
    ensures
        f.width == width,
        f.height == height,
        shows(f, points@, radius as int, background, points@.len()),
{
    let mut f = blank(width, height, background);
    let mut n: usize = 0;
    while n < points.len()
        invariant
            n <= points@.len(),
            f.width == width,
            f.height == height,
            4 * (width * height) <= usize::MAX,
            shows(f, points@, radius as int, background, n as nat),
        decreases points@.len() - n,
    {
        match points[n] {
            Some(s) => {
                draw(&mut f, points, radius, n, s, Ghost(background));
            },
            None => {},
        }
        n += 1;
    }
    f
}

fn draw(
    f: &mut Frame,
    points: &Vec<Option<Splat>>,
    radius: u32,
    n: usize,
    s: Splat,
    Ghost(background): Ghost<(u8, u8, u8)>,
)
    requires
        n < points@.len(),
        points@[n as int] == Some(s),
        4 * (old(f).width * old(f).height) <= usize::MAX,
        shows(*old(f), points@, radius as int, background, n as nat),
    ensures
        final(f).width == old(f).width,
        final(f).height == old(f).height,
        shows(*final(f), points@, radius as int, background, (n + 1) as nat),
{
    let total: usize = points.len();
    let width: usize = f.width;
    let height: usize = f.height;
    let (left, right) = span(s.x, radius, width);
    let (top, bottom) = span(s.y, radius, height);
    let ghost r = radius as int;
    let mut y: usize = top;
    proof {
        assert forall|u: int, v: int|
            #![trigger pixel(f.width as int, u, v)]
            0 <= u < f.width && 0 <= v < f.height && v < top implies owner(
            points@,
            r,
            u,
            v,
            (n + 1) as nat,
        ) == owner(points@, r, u, v, n as nat) by {
            assert(!covers(s, r, u, v));
        }
        assert(half_drawn(*f, points@, r, background, n as nat, y as int, 0));
    }
    while y < bottom
        invariant
            top <= y <= bottom <= height,
            left <= right <= width,
            r == radius as int,
            total == points@.len(),
            n < total,
            points@[n as int] == Some(s),
            4 * (width * height) <= usize::MAX,
            f.width == width,
            f.height == height,
            left == clamped(s.x - radius, width as int),
            right == clamped(s.x + radius + 1, width as int),
            top == clamped(s.y - radius, height as int),
            bottom == clamped(s.y + radius + 1, height as int),
            top <= bottom,
            half_drawn(*f, points@, r, background, n as nat, y as int, 0),
        decreases bottom - y,
    {
        proof {
            assert forall|u: int, v: int|
                #![trigger pixel(f.width as int, u, v)]
                0 <= u < f.width && 0 <= v < f.height && v == y && u < left implies owner(
                points@,
                r,
                u,
                v,
                (n + 1) as nat,
            ) == owner(points@, r, u, v, n as nat) by {
                assert(!covers(s, r, u, v));
            }
            assert(half_drawn(*f, points@, r, background, n as nat, y as int, left as int));
        }
        let mut x: usize = left;
        while x < right
            invariant
                top <= y < bottom <= height,
                left <= x <= right <= width,
                r == radius as int,
                total == points@.len(),
                n < total,
                points@[n as int] == Some(s),
                4 * (width * height) <= usize::MAX,
                f.width == width,
                f.height == height,
                left == clamped(s.x - radius, width as int),
                right == clamped(s.x + radius + 1, width as int),
                top == clamped(s.y - radius, height as int),
                bottom == clamped(s.y + radius + 1, height as int),
                half_drawn(*f, points@, r, background, n as nat, y as int, x as int),
            decreases right - x,
        {
            proof {
                lemma_pixel(width as int, height as int, x as int, y as int);
                assert(y * width + x == pixel(width as int, x as int, y as int));
                assert(0 <= y * width) by (nonlinear_arith);
            }
            let p: usize = y * width + x;
            assert(p == pixel(f.width as int, x as int, y as int));
            assert(4 * p + 3 < 4 * (width * height));
            let ghost before = *f;
            assert(covers(s, r, x as int, y as int));
            proof {
                the_nearest_point_shows(points@, r, x as int, y as int, n as nat);
            }
            let nearer = match f.point_at[p] {
                Some(b) => match points[b] {
                    Some(t) => s.depth < t.depth,
                    None => true,
                },
                None => true,
            };
            if nearer {
                f.point_at.set(p, Some(n));
                f.rgba.set(4 * p, s.color.0);
                f.rgba.set(4 * p + 1, s.color.1);
                f.rgba.set(4 * p + 2, s.color.2);
            }
            proof {
                lemma_step(before, *f, points@, r, background, n as nat, x as int, y as int);
            }
            x += 1;
        }
        proof {
            assert forall|u: int, v: int|
                #![trigger pixel(f.width as int, u, v)]
                0 <= u < f.width && 0 <= v < f.height && v == y && u >= right implies owner(
                points@,
                r,
                u,
                v,
                (n + 1) as nat,
            ) == owner(points@, r, u, v, n as nat) by {
                assert(!covers(s, r, u, v));
            }
            assert(half_drawn(*f, points@, r, background, n as nat, y + 1, 0));
        }
        y += 1;
    }
    proof {
        assert forall|u: int, v: int|
            #![trigger pixel(f.width as int, u, v)]
            0 <= u < f.width && 0 <= v < f.height && v >= bottom implies owner(
            points@,
            r,
            u,
            v,
            (n + 1) as nat,
        ) == owner(points@, r, u, v, n as nat) by {
            assert(!covers(s, r, u, v));
        }
    }
}

/// Drawing one pixel moves the border between done and to do by one.
proof fn lemma_step(
    before: Frame,
    after: Frame,
    points: Seq<Option<Splat>>,
    radius: int,
    background: (u8, u8, u8),
    n: nat,
    x: int,
    y: int,
)
    requires
        half_drawn(before, points, radius, background, n, y, x),
        0 <= x < before.width,
        0 <= y < before.height,
        n < points.len() <= usize::MAX,
        points[n as int] is Some,
        covers(points[n as int]->0, radius, x, y),
        after.width == before.width,
        after.height == before.height,
        ({
            let p = pixel(before.width as int, x, y);
            let s = points[n as int]->0;
            let nearer = match before.point_at@[p] {
                Some(b) => s.depth < points[b as int]->0.depth,
                None => true,
            };
            if nearer {
                &&& after.point_at@ == before.point_at@.update(p, Some(n as usize))
                &&& after.rgba@ == before.rgba@.update(4 * p, s.color.0).update(
                    4 * p + 1,
                    s.color.1,
                ).update(4 * p + 2, s.color.2)
            } else {
                &&& after.point_at@ == before.point_at@
                &&& after.rgba@ == before.rgba@
            }
        }),
    ensures
        half_drawn(after, points, radius, background, n, y, x + 1),
{
    let width = before.width as int;
    let p = pixel(width, x, y);
    lemma_pixel(width, before.height as int, x, y);
    the_nearest_point_shows(points, radius, x, y, n);
    assert forall|u: int, v: int|
        #![trigger pixel(after.width as int, u, v)]
        0 <= u < after.width && 0 <= v < after.height implies {
        let q = pixel(after.width as int, u, v);
        let m = if v < y || (v == y && u < x + 1) {
            n + 1
        } else {
            n
        };
        &&& after.point_at@[q] == owner(points, radius, u, v, m)
        &&& (after.rgba@[4 * q], after.rgba@[4 * q + 1], after.rgba@[4 * q + 2]) == color_of(
            points,
            radius,
            background,
            u,
            v,
            m,
        )
        &&& after.rgba@[4 * q + 3] == 255
    } by {
        let q = pixel(before.width as int, u, v);
        lemma_pixel(width, before.height as int, u, v);
        if q == p {
            lemma_pixels_differ(width, x, y, u, v);
        }
    }
}

// ---------------------------------------------------------------------------
// Picking
// ---------------------------------------------------------------------------

/// The offsets that are searched around a click, row by row: demanding an exact
/// hit makes selection feel broken.
pub open spec fn offset(k: int) -> (int, int) {
    (k % 9 - 4, k / 9 - 4)
}

/// How far an offset lies.
pub open spec fn distance2(k: int) -> int {
    offset(k).0 * offset(k).0 + offset(k).1 * offset(k).1
}

/// What is visible at an offset from a click.
pub open spec fn seen_at(f: Frame, cx: int, cy: int, k: int) -> Option<usize> {
    let (x, y) = (cx + offset(k).0, cy + offset(k).1);
    if 0 <= x < f.width && 0 <= y < f.height {
        f.point_at@[pixel(f.width as int, x, y)]
    } else {
        None
    }
}

/// The offset of the pick among the first `n`: the nearest that shows a point,
/// and the first of those.
pub open spec fn picked(f: Frame, cx: int, cy: int, n: nat) -> Option<int>
    decreases n,
{
    if n == 0 {
        None
    } else {
        let before = picked(f, cx, cy, (n - 1) as nat);
        let k = n - 1;
        if seen_at(f, cx, cy, k) is Some && (match before {
            Some(b) => distance2(k) < distance2(b),
            None => true,
        }) {
            Some(k)
        } else {
            before
        }
    }
}

/// The pick is the nearest pixel that shows a point.
pub proof fn the_pick_is_nearest(f: Frame, cx: int, cy: int, n: nat)
    ensures
        match picked(f, cx, cy, n) {
            Some(b) => 0 <= b < n && seen_at(f, cx, cy, b) is Some && forall|k: int|
                0 <= k < n && #[trigger] seen_at(f, cx, cy, k) is Some ==> distance2(b)
                    <= distance2(k),
            None => forall|k: int| 0 <= k < n ==> #[trigger] seen_at(f, cx, cy, k) is None,
        },
    decreases n,
{
    if n > 0 {
        the_pick_is_nearest(f, cx, cy, (n - 1) as nat);
    }
}

/// The point that is visible at or around a place.
pub fn pick_point(f: &Frame, cx: i64, cy: i64) -> (r: Option<usize>)
    requires
        f.point_at@.len() == f.width * f.height,
    ensures
        r == match picked(*f, cx as int, cy as int, 81) {
            Some(b) => seen_at(*f, cx as int, cy as int, b),
            None => None,
        },
{
    let mut best: Option<(i64, usize)> = None;
    let ghost mut at: Option<int> = None;
    let mut k: i64 = 0;
    while k < 81
        invariant
            0 <= k <= 81,
            f.point_at@.len() == f.width * f.height,
            at == picked(*f, cx as int, cy as int, k as nat),
            match (best, at) {
                (Some((d, v)), Some(b)) => d == distance2(b) && seen_at(
                    *f,
                    cx as int,
                    cy as int,
                    b,
                ) == Some(v),
                (None, None) => true,
                _ => false,
            },
        decreases 81 - k,
    {
        let dx: i64 = k % 9 - 4;
        let dy: i64 = k / 9 - 4;
        assert((dx as int, dy as int) == offset(k as int));
        let x: i128 = cx as i128 + dx as i128;
        let y: i128 = cy as i128 + dy as i128;
        if x >= 0 && y >= 0 && x < f.width as i128 && y < f.height as i128 {
            proof {
                lemma_pixel(f.width as int, f.height as int, x as int, y as int);
                assert(0 <= y * f.width) by (nonlinear_arith)
                    requires
                        0 <= y,
                ;
            }
            let total: usize = f.point_at.len();
            assert(y * f.width + x < total);
            let p: usize = (y as usize) * f.width + x as usize;
            assert(p == pixel(f.width as int, x as int, y as int));
            match f.point_at[p] {
                Some(v) => {
                    assert(-4 <= dx <= 4 && -4 <= dy <= 4);
                    assert(dx * dx <= 16 && dy * dy <= 16 && dx * dx >= 0 && dy * dy >= 0)
                        by (nonlinear_arith)
                        requires
                            -4 <= dx <= 4,
                            -4 <= dy <= 4,
                    ;
                    let d2: i64 = dx * dx + dy * dy;
                    assert(d2 == distance2(k as int));
                    let better = match best {
                        Some((d, _)) => d2 < d,
                        None => true,
                    };
                    if better {
                        best = Some((d2, v));
                        proof {
                            at = Some(k as int);
                        }
                    }
                },
                None => {},
            }
        }
        k += 1;
    }
    match best {
        Some((_, v)) => Some(v),
        None => None,
    }
}

/// A point covers the pixels that lie no farther from it than the radius, in
/// either direction.
pub proof fn points_cover_what_is_near(s: Splat, radius: int, dx: int, dy: int)
    ensures
        covers(s, radius, s.x + dx, s.y + dy) <==> -radius <= dx <= radius && -radius <= dy
            <= radius,
{
}

/// Different places in a frame are different pixels of it.
pub proof fn places_are_different_pixels(width: int, height: int, x: int, y: int, v: int, w: int)
    requires
        0 <= x < width,
        0 <= y < height,
        0 <= v < width,
        0 <= w < height,
    ensures
        0 <= pixel(width, x, y) < width * height,
        pixel(width, x, y) == pixel(width, v, w) ==> x == v && y == w,
        x + 1 < width ==> pixel(width, x + 1, y) == pixel(width, x, y) + 1,
{
    assert(0 <= y * width + x < width * height) by (nonlinear_arith)
        requires
            0 <= x < width,
            0 <= y < height,
    ;
    if pixel(width, x, y) == pixel(width, v, w) {
        assert(y == w) by (nonlinear_arith)
            requires
                y * width + x == w * width + v,
                0 <= x < width,
                0 <= v < width,
        ;
    }
}

/// Every place within four pixels of a click, in either direction, is looked
/// at, once.
pub proof fn every_place_nearby_is_searched(dx: int, dy: int, k: int)
    requires
        -4 <= dx <= 4,
        -4 <= dy <= 4,
    ensures
        ({
            let at = 9 * (dy + 4) + dx + 4;
            &&& 0 <= at < 81
            &&& offset(at) == (dx, dy)
            &&& distance2(at) == dx * dx + dy * dy
        }),
        0 <= k < 81 ==> -4 <= offset(k).0 <= 4 && -4 <= offset(k).1 <= 4,
        0 <= k < 81 && offset(k) == (dx, dy) ==> k == 9 * (dy + 4) + dx + 4,
{
    let at = 9 * (dy + 4) + dx + 4;
    assert(at / 9 == dy + 4 && at % 9 == dx + 4);
}

/// Of two places as near the one that is looked at first is picked.
pub proof fn the_first_of_the_nearest_is_picked(f: Frame, cx: int, cy: int, n: nat, k: int)
    requires
        picked(f, cx, cy, n) matches Some(b) && 0 <= k < b,
        seen_at(f, cx, cy, k) is Some,
    ensures
        distance2(picked(f, cx, cy, n)->0) < distance2(k),
    decreases n,
{
    let before = picked(f, cx, cy, (n - 1) as nat);
    the_pick_is_nearest(f, cx, cy, (n - 1) as nat);
    if picked(f, cx, cy, n) == before {
        the_first_of_the_nearest_is_picked(f, cx, cy, (n - 1) as nat, k);
    }
}

/// A pixel that points cover has the colour of one of them, with none of the
/// others nearer than it; any other has the background's. Every pixel is
/// opaque.
pub proof fn pixels_show_what_is_nearest(
    f: Frame,
    points: Seq<Option<Splat>>,
    radius: int,
    background: (u8, u8, u8),
    x: int,
    y: int,
)
    requires
        shows(f, points, radius, background, points.len()),
        points.len() <= usize::MAX,
        0 <= x < f.width,
        0 <= y < f.height,
    ensures
        ({
            let at = 4 * (y * f.width + x);
            let shown = (f.rgba@[at], f.rgba@[at + 1], f.rgba@[at + 2]);
            &&& f.rgba@[at + 3] == 255
            &&& match f.point_at@[y * f.width + x] {
                Some(o) => {
                    &&& o < points.len()
                    &&& points[o as int] matches Some(s) && shown == s.color && s.x - radius <= x
                        <= s.x + radius && s.y - radius <= y <= s.y + radius
                    &&& forall|k: int|
                        0 <= k < points.len() ==> ((#[trigger] points[k]) matches Some(t) ==> t.x
                            - radius <= x <= t.x + radius && t.y - radius <= y <= t.y + radius
                            ==> points[o as int]->0.depth <= t.depth)
                },
                None => shown == background && forall|k: int|
                    0 <= k < points.len() ==> ((#[trigger] points[k]) matches Some(t) ==> !(t.x
                        - radius <= x <= t.x + radius && t.y - radius <= y <= t.y + radius)),
            }
        }),
{
    let p = pixel(f.width as int, x, y);
    assert(p == y * f.width + x);
    the_nearest_point_shows(points, radius, x, y, points.len());
    assert(f.point_at@[p] == owner(points, radius, x, y, points.len()));
}

/// What is seen around a click is what the frame shows there; beyond the frame
/// nothing is.
pub proof fn clicks_see_what_the_frame_shows(f: Frame, cx: int, cy: int, dx: int, dy: int)
    requires
        -4 <= dx <= 4,
        -4 <= dy <= 4,
    ensures
        ({
            let (x, y) = (cx + dx, cy + dy);
            let seen = seen_at(f, cx, cy, 9 * (dy + 4) + dx + 4);
            &&& 0 <= x < f.width && 0 <= y < f.height ==> seen == f.point_at@[y * f.width + x]
            &&& !(0 <= x < f.width && 0 <= y < f.height) ==> seen is None
        }),
{
    every_place_nearby_is_searched(dx, dy, 0);
}

} // verus!
