//! Minimal EXIF reader for the one thing that camera initialization needs: the
//! focal length that the camera itself recorded.

use vstd::prelude::*;
use vstd::slice::slice_subrange;

use crate::text;
use crate::text::{string_of, trim};

verus! {

/// A number as the file holds it: one integer over another.
#[derive(Debug, Clone, Copy, PartialEq, Eq, Structural)]
pub struct Ratio {
    pub num: u64,
    pub den: u64,
}

/// What a camera recorded about its own optics.
#[derive(Debug)]
pub struct ExifFocal {
    /// 35mm-equivalent focal length in millimetres.
    pub focal_35mm: Option<Ratio>,
    /// Physical focal length in millimetres.
    pub focal_mm: Option<Ratio>,
    pub make: Option<String>,
    pub model: Option<String>,
}

/// The longer side of a frame.
pub open spec fn long_side(width: u32, height: u32) -> int {
    if width > height {
        width as int
    } else {
        height as int
    }
}

/// A number that two 32-bit integers give.
pub open spec fn is_small(r: Ratio) -> bool {
    r.num <= u32::MAX && 0 < r.den <= u32::MAX
}

/// The focal length in pixels that a 35mm equivalent gives in a frame, if it is
/// known and positive.
pub open spec fn pixels_of(focal_35mm: Option<Ratio>, width: u32, height: u32) -> Option<Ratio> {
    match focal_35mm {
        Some(f) if f.num > 0 => Some(
            Ratio {
                num: (f.num * long_side(width, height)) as u64,
                den: (f.den * 36) as u64,
            },
        ),
        _ => None,
    }
}

impl ExifFocal {
    /// Focal length in pixels, if the 35mm equivalent is known and positive.
    ///
    /// The 35mm equivalent is defined against a frame of 36x24mm, so it maps
    /// onto the image's longer side whichever way it is held.
    pub fn focal_px(&self, width: u32, height: u32) -> (r: Option<Ratio>)
        requires
            self.focal_35mm matches Some(f) ==> is_small(f),
        ensures
            r == pixels_of(self.focal_35mm, width, height),
            self.focal_35mm matches Some(f) ==> f.num * long_side(width, height) <= u64::MAX,
    {
        let f = match self.focal_35mm {
            Some(f) => f,
            None => {
                return None;
            },
        };
        let long: u64 = if width > height {
            width as u64
        } else {
            height as u64
        };
        assert(f.num * long <= u64::MAX) by (nonlinear_arith)
            requires
                f.num <= 0xffff_ffff,
                long <= 0xffff_ffff,
        ;
        if f.num == 0 {
            return None;
        }
        Some(Ratio { num: f.num * long, den: f.den * 36 })
    }
}

/// A photo gives the same focal length held upright and held sideways.
pub proof fn orientation_does_not_matter(focal_35mm: Option<Ratio>, width: u32, height: u32)
    ensures
        pixels_of(focal_35mm, width, height) == pixels_of(focal_35mm, height, width),
{
}

// ---------------------------------------------------------------------------
// Numbers in a block
// ---------------------------------------------------------------------------

/// The 16-bit number at an offset, low byte first or high byte first.
pub open spec fn word_at(b: Seq<u8>, off: int, le: bool) -> Option<u16> {
    if 0 <= off && off + 2 <= b.len() {
        if le {
            Some((b[off] + 256 * b[off + 1]) as u16)
        } else {
            Some((256 * b[off] + b[off + 1]) as u16)
        }
    } else {
        None
    }
}

/// The 32-bit number at an offset.
pub open spec fn long_at(b: Seq<u8>, off: int, le: bool) -> Option<u32> {
    if 0 <= off && off + 4 <= b.len() {
        if le {
            Some(
                (b[off] + 256 * b[off + 1] + 65536 * b[off + 2] + 16777216 * b[off + 3]) as u32,
            )
        } else {
            Some(
                (16777216 * b[off] + 65536 * b[off + 1] + 256 * b[off + 2] + b[off + 3]) as u32,
            )
        }
    } else {
        None
    }
}

fn u16_at(b: &[u8], off: usize, le: bool) -> (r: Option<u16>)
    ensures
        r == word_at(b@, off as int, le),
{
    if b.len() < 2 || off > b.len() - 2 {
        return None;
    }
    let (x, y) = (b[off] as u16, b[off + 1] as u16);
    Some(
        if le {
            x + 256 * y
        } else {
            256 * x + y
        },
    )
}

fn u32_at(b: &[u8], off: usize, le: bool) -> (r: Option<u32>)
    ensures
        r == long_at(b@, off as int, le),
{
    if b.len() < 4 || off > b.len() - 4 {
        return None;
    }
    let (x, y, z, w) = (b[off] as u32, b[off + 1] as u32, b[off + 2] as u32, b[off + 3] as u32);
    Some(
        if le {
            x + 256 * y + 65536 * z + 16777216 * w
        } else {
            16777216 * x + 65536 * y + 256 * z + w
        },
    )
}

// ---------------------------------------------------------------------------
// Directory entries
// ---------------------------------------------------------------------------

/// An entry's numeric value: a short, a long, or a fraction that stands
/// elsewhere in the block.
pub open spec fn numeric(tiff: Seq<u8>, entry: int, le: bool) -> Option<Ratio> {
    match word_at(tiff, entry + 2, le) {
        Some(3) => match word_at(tiff, entry + 8, le) {
            Some(v) => Some(Ratio { num: v as u64, den: 1 }),
            None => None,
        },
        Some(4) => match long_at(tiff, entry + 8, le) {
            Some(v) => Some(Ratio { num: v as u64, den: 1 }),
            None => None,
        },
        Some(5) => match long_at(tiff, entry + 8, le) {
            Some(off) => match (
                long_at(tiff, off as int, le),
                long_at(tiff, off as int + 4, le),
            ) {
                (Some(num), Some(den)) => if den == 0 {
                    None
                } else {
                    Some(Ratio { num: num as u64, den: den as u64 })
                },
                _ => None,
            },
            None => None,
        },
        _ => None,
    }
}

/// A numeric value fits in two 32-bit integers, and is never over zero.
pub proof fn numeric_values_are_small(tiff: Seq<u8>, entry: int, le: bool)
    ensures
        numeric(tiff, entry, le) matches Some(r) ==> is_small(r),
{
}

fn entry_value_ratio(tiff: &[u8], entry: usize, le: bool) -> (r: Option<Ratio>)
    requires
        entry + 12 <= tiff@.len(),
    ensures
        r == numeric(tiff@, entry as int, le),
{
    let total: usize = tiff.len();
    assert(entry + 12 <= total);
    let ty = match u16_at(tiff, entry + 2, le) {
        Some(ty) => ty,
        None => {
            return None;
        },
    };
    if ty == 3 {
        match u16_at(tiff, entry + 8, le) {
            Some(v) => Some(Ratio { num: v as u64, den: 1 }),
            None => None,
        }
    } else if ty == 4 {
        match u32_at(tiff, entry + 8, le) {
            Some(v) => Some(Ratio { num: v as u64, den: 1 }),
            None => None,
        }
    } else if ty == 5 {
        let off = match u32_at(tiff, entry + 8, le) {
            Some(off) => off as usize,
            None => {
                return None;
            },
        };
        let num = match u32_at(tiff, off, le) {
            Some(v) => v,
            None => {
                return None;
            },
        };
        let den = match u32_at(tiff, off + 4, le) {
            Some(v) => v,
            None => {
                return None;
            },
        };
        if den == 0 {
            None
        } else {
            Some(Ratio { num: num as u64, den: den as u64 })
        }
    } else {
        None
    }
}

/// A byte as a character.
pub open spec fn byte_char(b: u8) -> char {
    b as char
}

/// The characters up to the first zero byte.
pub open spec fn until_zero(b: Seq<u8>) -> Seq<char>
    decreases b.len(),
{
    if b.len() == 0 || b[0] == 0 {
        Seq::empty()
    } else {
        seq![byte_char(b[0])] + until_zero(b.drop_first())
    }
}

/// The text of some bytes; nothing where only white space is left.
pub open spec fn label(b: Seq<u8>) -> Option<Seq<char>> {
    let s = text::trimmed(until_zero(b));
    if s.len() == 0 {
        None
    } else {
        Some(s)
    }
}

/// An entry's text value: up to four bytes stand in the entry itself, more of
/// them elsewhere in the block.
pub open spec fn textual(tiff: Seq<u8>, entry: int, le: bool) -> Option<Seq<char>> {
    match (word_at(tiff, entry + 2, le), long_at(tiff, entry + 4, le)) {
        (Some(2), Some(count)) => {
            if count <= 4 {
                if entry + 8 + count <= tiff.len() {
                    label(tiff.subrange(entry + 8, entry + 8 + count))
                } else {
                    None
                }
            } else {
                match long_at(tiff, entry + 8, le) {
                    Some(off) => if off + count <= tiff.len() {
                        label(tiff.subrange(off as int, off + count))
                    } else {
                        None
                    },
                    None => None,
                }
            }
        },
        _ => None,
    }
}

fn read_label(b: &[u8]) -> (r: Option<String>)
    ensures
        match r {
            Some(s) => label(b@) == Some(s@),
            None => label(b@) is None,
        },
{
    let mut chars: Vec<char> = Vec::new();
    let mut i: usize = 0;
    assert(b@.skip(0) =~= b@);
    assert(until_zero(b@) =~= chars@ + until_zero(b@.skip(0)));
    while i < b.len() && b[i] != 0
        invariant
            i <= b@.len(),
            until_zero(b@) == chars@ + until_zero(b@.skip(i as int)),
        decreases b@.len() - i,
    {
        let ghost rest = b@.skip(i as int);
        let ghost before = chars@;
        chars.push(b[i] as char);
        assert(rest.drop_first() =~= b@.skip(i + 1));
        assert(until_zero(rest) =~= seq![byte_char(b@[i as int])] + until_zero(b@.skip(i + 1)));
        assert(before + until_zero(rest) =~= chars@ + until_zero(b@.skip(i + 1)));
        i += 1;
    }
    assert(until_zero(b@.skip(i as int)) =~= Seq::<char>::empty());
    assert(chars@ =~= until_zero(b@));
    let kept = trim(chars.as_slice());
    if kept.len() == 0 {
        return None;
    }
    Some(string_of(kept))
}

fn entry_value_ascii(tiff: &[u8], entry: usize, le: bool) -> (r: Option<String>)
    requires
        entry + 12 <= tiff@.len(),
    ensures
        match r {
            Some(s) => textual(tiff@, entry as int, le) == Some(s@),
            None => textual(tiff@, entry as int, le) is None,
        },
{
    let total: usize = tiff.len();
    assert(entry + 12 <= total);
    match u16_at(tiff, entry + 2, le) {
        Some(ty) => {
            if ty != 2 {
                return None;
            }
        },
        None => {
            return None;
        },
    }
    let count = match u32_at(tiff, entry + 4, le) {
        Some(count) => count as usize,
        None => {
            return None;
        },
    };
    if count <= 4 {
        return read_label(slice_subrange(tiff, entry + 8, entry + 8 + count));
    }
    let off = match u32_at(tiff, entry + 8, le) {
        Some(off) => off as usize,
        None => {
            return None;
        },
    };
    if count > total || off > total - count {
        return None;
    }
    read_label(slice_subrange(tiff, off, off + count))
}

// ---------------------------------------------------------------------------
// Directories
// ---------------------------------------------------------------------------

/// How many entries of a directory can be read: no more than it claims, and no
/// more than the block can hold.
pub open spec fn readable(tiff: Seq<u8>, ifd: int, le: bool) -> Option<int> {
    match word_at(tiff, ifd, le) {
        Some(count) => {
            let room = (tiff.len() - (ifd + 2)) / 12;
            if count <= room {
                Some(count as int)
            } else {
                Some(room)
            }
        },
        None => None,
    }
}

/// The last of the first `n` entries with a tag.
pub open spec fn tagged(tiff: Seq<u8>, ifd: int, le: bool, tag: u16, n: nat) -> Option<int>
    decreases n,
{
    if n == 0 {
        None
    } else {
        let entry = ifd + 2 + (n - 1) * 12;
        if word_at(tiff, entry, le) == Some(tag) {
            Some(entry)
        } else {
            tagged(tiff, ifd, le, tag, (n - 1) as nat)
        }
    }
}

/// Where a tag's entry stands in a directory that can be read.
pub open spec fn entry_of(tiff: Seq<u8>, ifd: int, le: bool, tag: u16) -> Option<int> {
    match readable(tiff, ifd, le) {
        Some(n) => tagged(tiff, ifd, le, tag, n as nat),
        None => None,
    }
}

/// Counts the entries of a directory.
fn count_entries(tiff: &[u8], ifd: usize, le: bool) -> (r: Option<usize>)
    ensures
        match r {
            Some(n) => readable(tiff@, ifd as int, le) == Some(n as int) && ifd + 2 + n * 12
                <= tiff@.len(),
            None => readable(tiff@, ifd as int, le) is None,
        },
{
    match u16_at(tiff, ifd, le) {
        Some(count) => {
            let room: usize = (tiff.len() - (ifd + 2)) / 12;
            if count as usize <= room {
                Some(count as usize)
            } else {
                Some(room)
            }
        },
        None => None,
    }
}

/// Finds a tag's entry among those of a directory.
fn find_entry(tiff: &[u8], ifd: usize, le: bool, tag: u16, entries: usize) -> (r: Option<usize>)
    requires
        ifd + 2 + entries * 12 <= tiff@.len(),
    ensures
        match r {
            Some(e) => tagged(tiff@, ifd as int, le, tag, entries as nat) == Some(e as int) && e
                + 12 <= tiff@.len(),
            None => tagged(tiff@, ifd as int, le, tag, entries as nat) is None,
        },
{
    let total: usize = tiff.len();
    let mut n: usize = entries;
    while n > 0
        invariant
            n <= entries,
            total == tiff@.len(),
            ifd + 2 + entries * 12 <= total,
            tagged(tiff@, ifd as int, le, tag, entries as nat) == tagged(
                tiff@,
                ifd as int,
                le,
                tag,
                n as nat,
            ),
        decreases n,
    {
        let entry: usize = ifd + 2 + (n - 1) * 12;
        match u16_at(tiff, entry, le) {
            Some(t) => {
                if t == tag {
                    return Some(entry);
                }
            },
            None => {},
        }
        n -= 1;
    }
    None
}

// ---------------------------------------------------------------------------
// The file
// ---------------------------------------------------------------------------

/// The segment starts with the mark of an EXIF block and goes on after it.
pub open spec fn is_exif(seg: Seq<u8>) -> bool {
    seg.len() > 6 && seg[0] == 0x45 && seg[1] == 0x78 && seg[2] == 0x69 && seg[3] == 0x66 && seg[4]
        == 0 && seg[5] == 0
}

/// The block in the chain of segments from `i` on: the segments are followed
/// until one carries it, and no further than the start of the image data.
pub open spec fn block_from(bytes: Seq<u8>, i: int) -> Option<Seq<u8>>
    decreases bytes.len() - i,
{
    if i < 0 || i + 4 > bytes.len() || bytes[i] != 0xFF || bytes[i + 1] == 0xDA {
        None
    } else {
        let len = 256 * bytes[i + 2] + bytes[i + 3];
        if len < 2 || i + 2 + len > bytes.len() {
            None
        } else {
            let seg = bytes.subrange(i + 4, i + 2 + len);
            if bytes[i + 1] == 0xE1 && is_exif(seg) {
                Some(seg.skip(6))
            } else {
                block_from(bytes, i + 2 + len)
            }
        }
    }
}

/// Low byte first, high byte first, or neither.
pub open spec fn byte_order(tiff: Seq<u8>) -> Option<bool> {
    if tiff.len() < 2 {
        None
    } else if tiff[0] == 0x49 && tiff[1] == 0x49 {
        Some(true)
    } else if tiff[0] == 0x4D && tiff[1] == 0x4D {
        Some(false)
    } else {
        None
    }
}

/// What a block records.
#[verifier::ext_equal]
pub struct Recorded {
    pub focal_35mm: Option<Ratio>,
    pub focal_mm: Option<Ratio>,
    pub make: Option<Seq<char>>,
    pub model: Option<Seq<char>>,
}

/// The focal lengths of the sub-directory that the first directory points to,
/// and the names in the first one.
pub open spec fn recorded(tiff: Seq<u8>) -> Option<Recorded> {
    match byte_order(tiff) {
        None => None,
        Some(le) => match (word_at(tiff, 2, le), long_at(tiff, 4, le)) {
            (Some(42), Some(first)) => {
                let ifd = first as int;
                if readable(tiff, ifd, le) is None {
                    None
                } else {
                    let make = match entry_of(tiff, ifd, le, 0x010F) {
                        Some(e) => textual(tiff, e, le),
                        None => None,
                    };
                    let model = match entry_of(tiff, ifd, le, 0x0110) {
                        Some(e) => textual(tiff, e, le),
                        None => None,
                    };
                    let sub = match entry_of(tiff, ifd, le, 0x8769) {
                        Some(e) => long_at(tiff, e + 8, le),
                        None => None,
                    };
                    match sub {
                        None => None,
                        Some(off) => {
                            if readable(tiff, off as int, le) is None {
                                None
                            } else {
                                let focal_mm = match entry_of(tiff, off as int, le, 0x920A) {
                                    Some(e) => numeric(tiff, e, le),
                                    None => None,
                                };
                                let focal_35mm = match entry_of(tiff, off as int, le, 0xA405) {
                                    Some(e) => numeric(tiff, e, le),
                                    None => None,
                                };
                                if focal_mm is None && focal_35mm is None {
                                    None
                                } else {
                                    Some(Recorded { focal_35mm, focal_mm, make, model })
                                }
                            }
                        },
                    }
                }
            },
            _ => None,
        },
    }
}

/// What a file records; nothing where it is no JPEG or carries no block.
pub open spec fn exif_of(bytes: Seq<u8>) -> Option<Recorded> {
    if bytes.len() < 4 || bytes[0] != 0xFF || bytes[1] != 0xD8 {
        None
    } else {
        match block_from(bytes, 2) {
            Some(tiff) => recorded(tiff),
            None => None,
        }
    }
}

/// The text of an optional name.
pub open spec fn name_text(s: Option<String>) -> Option<Seq<char>> {
    match s {
        Some(t) => Some(t@),
        None => None,
    }
}

fn find_block(bytes: &[u8]) -> (r: Option<&[u8]>)
    requires
        bytes@.len() >= 2,
    ensures
        match r {
            Some(b) => block_from(bytes@, 2) == Some(b@),
            None => block_from(bytes@, 2) is None,
        },
{
    let total: usize = bytes.len();
    let mut i: usize = 2;
    loop
        invariant
            total == bytes@.len(),
            2 <= i <= total,
            block_from(bytes@, 2) == block_from(bytes@, i as int),
        decreases total - i,
    {
        if total - i < 4 || bytes[i] != 0xFF {
            return None;
        }
        let marker: u8 = bytes[i + 1];
        if marker == 0xDA {
            return None;
        }
        let len: usize = 256 * (bytes[i + 2] as usize) + bytes[i + 3] as usize;
        if len < 2 {
            return None;
        }
        if len > total - i - 2 {
            return None;
        }
        let seg = slice_subrange(bytes, i + 4, i + 2 + len);
        if marker == 0xE1 && seg.len() > 6 && seg[0] == 0x45 && seg[1] == 0x78 && seg[2] == 0x69
            && seg[3] == 0x66 && seg[4] == 0 && seg[5] == 0 {
            let block = slice_subrange(seg, 6, seg.len());
            assert(block@ =~= seg@.skip(6));
            return Some(block);
        }
        i += 2 + len;
    }
}

fn read_block(tiff: &[u8]) -> (r: Option<ExifFocal>)
    ensures
        match r {
            Some(e) => recorded(tiff@) == Some(
                Recorded {
                    focal_35mm: e.focal_35mm,
                    focal_mm: e.focal_mm,
                    make: name_text(e.make),
                    model: name_text(e.model),
                },
            ),
            None => recorded(tiff@) is None,
        },
        r matches Some(e) ==> (e.focal_35mm matches Some(f) ==> is_small(f)),
{
    if tiff.len() < 2 {
        return None;
    }
    let le = if tiff[0] == 0x49 && tiff[1] == 0x49 {
        true
    } else if tiff[0] == 0x4D && tiff[1] == 0x4D {
        false
    } else {
        return None;
    };
    match u16_at(tiff, 2, le) {
        Some(v) => {
            if v != 42 {
                return None;
            }
        },
        None => {
            return None;
        },
    }
    let ifd = match u32_at(tiff, 4, le) {
        Some(v) => v as usize,
        None => {
            return None;
        },
    };
    let entries = match count_entries(tiff, ifd, le) {
        Some(n) => n,
        None => {
            return None;
        },
    };
    let make = match find_entry(tiff, ifd, le, 0x010F, entries) {
        Some(e) => entry_value_ascii(tiff, e, le),
        None => None,
    };
    let model = match find_entry(tiff, ifd, le, 0x0110, entries) {
        Some(e) => entry_value_ascii(tiff, e, le),
        None => None,
    };
    let sub = match find_entry(tiff, ifd, le, 0x8769, entries) {
        Some(e) => u32_at(tiff, e + 8, le),
        None => None,
    };
    let off = match sub {
        Some(v) => v as usize,
        None => {
            return None;
        },
    };
    let inner = match count_entries(tiff, off, le) {
        Some(n) => n,
        None => {
            return None;
        },
    };
    let focal_mm = match find_entry(tiff, off, le, 0x920A, inner) {
        Some(e) => entry_value_ratio(tiff, e, le),
        None => None,
    };
    let focal_35mm = match find_entry(tiff, off, le, 0xA405, inner) {
        Some(e) => {
            proof {
                numeric_values_are_small(tiff@, e as int, le);
            }
            entry_value_ratio(tiff, e, le)
        },
        None => None,
    };
    if focal_mm.is_none() && focal_35mm.is_none() {
        return None;
    }
    Some(ExifFocal { focal_35mm, focal_mm, make, model })
}

/// Extracts the focal-length tags from a JPEG's EXIF block. Nothing where the
/// file has none, which is common: many messaging apps strip it.
pub fn read_jpeg_exif(bytes: &[u8]) -> (r: Option<ExifFocal>)
    ensures
        match r {
            Some(e) => exif_of(bytes@) == Some(
                Recorded {
                    focal_35mm: e.focal_35mm,
                    focal_mm: e.focal_mm,
                    make: name_text(e.make),
                    model: name_text(e.model),
                },
            ),
            None => exif_of(bytes@) is None,
        },
        r matches Some(e) ==> (e.focal_35mm matches Some(f) ==> is_small(f)),
{
    if bytes.len() < 4 || bytes[0] != 0xFF || bytes[1] != 0xD8 {
        return None;
    }
    match find_block(bytes) {
        Some(tiff) => read_block(tiff),
        None => None,
    }
}

// ---------------------------------------------------------------------------
// What is written is read back
// ---------------------------------------------------------------------------

/// The two bytes of a number stand at an offset, low byte first or high byte
/// first.
pub open spec fn holds_word(b: Seq<u8>, off: int, v: u16, le: bool) -> bool {
    &&& 0 <= off
    &&& off + 2 <= b.len()
    &&& b[if le {
        off
    } else {
        off + 1
    }] == v % 256
    &&& b[if le {
        off + 1
    } else {
        off
    }] == v / 256
}

/// The four bytes of a number stand at an offset, lowest byte first or highest
/// byte first.
pub open spec fn holds_long(b: Seq<u8>, off: int, v: u32, le: bool) -> bool {
    &&& 0 <= off
    &&& off + 4 <= b.len()
    &&& if le {
        &&& holds_word(b, off, (v % 65536) as u16, true)
        &&& holds_word(b, off + 2, (v / 65536) as u16, true)
    } else {
        &&& holds_word(b, off, (v / 65536) as u16, false)
        &&& holds_word(b, off + 2, (v % 65536) as u16, false)
    }
}

/// A number is read back in the byte order in which it was written.
pub proof fn words_read_back(b: Seq<u8>, off: int, v: u16, le: bool)
    requires
        holds_word(b, off, v, le),
    ensures
        word_at(b, off, le) == Some(v),
{
    assert(v == 256 * (v / 256) + v % 256);
}

/// A long number is read back in the byte order in which it was written.
pub proof fn longs_read_back(b: Seq<u8>, off: int, v: u32, le: bool)
    requires
        holds_long(b, off, v, le),
    ensures
        long_at(b, off, le) == Some(v),
{
    let high = (v / 65536) as u16;
    let low = (v % 65536) as u16;
    assert(v == 65536 * high + low);
    assert(high == 256 * (high / 256) + high % 256);
    assert(low == 256 * (low / 256) + low % 256);
}

/// A short value stands in the first two of the four value bytes of its entry,
/// in either byte order, and is read as the number that was written.
pub proof fn short_entries_read_back(tiff: Seq<u8>, entry: int, le: bool, v: u16)
    requires
        holds_word(tiff, entry + 2, 3, le),
        holds_word(tiff, entry + 8, v, le),
    ensures
        numeric(tiff, entry, le) == Some(Ratio { num: v as u64, den: 1 }),
{
    words_read_back(tiff, entry + 2, 3, le);
    words_read_back(tiff, entry + 8, v, le);
}

/// A long value stands in the four value bytes of its entry, in either byte
/// order.
pub proof fn long_entries_read_back(tiff: Seq<u8>, entry: int, le: bool, v: u32)
    requires
        holds_word(tiff, entry + 2, 4, le),
        holds_long(tiff, entry + 8, v, le),
    ensures
        numeric(tiff, entry, le) == Some(Ratio { num: v as u64, den: 1 }),
{
    words_read_back(tiff, entry + 2, 4, le);
    longs_read_back(tiff, entry + 8, v, le);
}

/// A fraction stands where the value bytes of its entry point, numerator first,
/// in either byte order; over zero it is none.
pub proof fn fractions_read_back(
    tiff: Seq<u8>,
    entry: int,
    le: bool,
    at: u32,
    num: u32,
    den: u32,
)
    requires
        holds_word(tiff, entry + 2, 5, le),
        holds_long(tiff, entry + 8, at, le),
        holds_long(tiff, at as int, num, le),
        holds_long(tiff, at + 4, den, le),
    ensures
        numeric(tiff, entry, le) == if den == 0 {
            None
        } else {
            Some(Ratio { num: num as u64, den: den as u64 })
        },
{
    words_read_back(tiff, entry + 2, 5, le);
    longs_read_back(tiff, entry + 8, at, le);
    longs_read_back(tiff, at as int, num, le);
    longs_read_back(tiff, at + 4, den, le);
}

/// The same short entry written in the other byte order reads the same.
pub proof fn byte_order_does_not_change_a_value(
    low_first: Seq<u8>,
    high_first: Seq<u8>,
    entry: int,
    v: u16,
)
    requires
        holds_word(low_first, entry + 2, 3, true),
        holds_word(low_first, entry + 8, v, true),
        holds_word(high_first, entry + 2, 3, false),
        holds_word(high_first, entry + 8, v, false),
    ensures
        numeric(low_first, entry, true) == numeric(high_first, entry, false),
{
    short_entries_read_back(low_first, entry, true, v);
    short_entries_read_back(high_first, entry, false, v);
}

/// The characters of some bytes.
pub open spec fn characters(b: Seq<u8>) -> Seq<char> {
    Seq::new(b.len(), |i: int| b[i] as char)
}

proof fn lemma_until_zero(name: Seq<u8>, behind: Seq<u8>)
    requires
        forall|i: int| 0 <= i < name.len() ==> #[trigger] name[i] != 0,
        behind.len() == 0 || behind[0] == 0,
    ensures
        until_zero(name + behind) == characters(name),
    decreases name.len(),
{
    let all = name + behind;
    if name.len() == 0 {
        assert(all =~= behind);
        assert(until_zero(all) =~= characters(name));
    } else {
        let rest = name.drop_first();
        assert forall|i: int| 0 <= i < rest.len() implies #[trigger] rest[i] != 0 by {
            assert(rest[i] == name[i + 1]);
        }
        lemma_until_zero(rest, behind);
        assert(all.drop_first() =~= rest + behind);
        assert(all[0] == name[0]);
        assert(until_zero(all) =~= characters(name));
    }
}

/// A name that stands elsewhere in the block is read back, without the zero
/// that ends it, whatever follows that zero, and without white space around
/// it.
pub proof fn names_read_back(
    tiff: Seq<u8>,
    entry: int,
    le: bool,
    count: u32,
    at: u32,
    name: Seq<u8>,
    behind: Seq<u8>,
)
    requires
        holds_word(tiff, entry + 2, 2, le),
        holds_long(tiff, entry + 4, count, le),
        holds_long(tiff, entry + 8, at, le),
        count > 4,
        at + count <= tiff.len(),
        tiff.subrange(at as int, at + count) == name + behind,
        forall|i: int| 0 <= i < name.len() ==> #[trigger] name[i] != 0,
        behind.len() == 0 || behind[0] == 0,
    ensures
        textual(tiff, entry, le) == if text::trimmed(characters(name)).len() == 0 {
            None
        } else {
            Some(text::trimmed(characters(name)))
        },
{
    words_read_back(tiff, entry + 2, 2, le);
    longs_read_back(tiff, entry + 4, count, le);
    longs_read_back(tiff, entry + 8, at, le);
    lemma_until_zero(name, behind);
}

/// A name of up to four bytes stands in its entry itself.
pub proof fn short_names_read_back(
    tiff: Seq<u8>,
    entry: int,
    le: bool,
    count: u32,
    name: Seq<u8>,
    behind: Seq<u8>,
)
    requires
        holds_word(tiff, entry + 2, 2, le),
        holds_long(tiff, entry + 4, count, le),
        count <= 4,
        entry + 12 <= tiff.len(),
        tiff.subrange(entry + 8, entry + 8 + count) == name + behind,
        forall|i: int| 0 <= i < name.len() ==> #[trigger] name[i] != 0,
        behind.len() == 0 || behind[0] == 0,
    ensures
        textual(tiff, entry, le) == if text::trimmed(characters(name)).len() == 0 {
            None
        } else {
            Some(text::trimmed(characters(name)))
        },
{
    words_read_back(tiff, entry + 2, 2, le);
    longs_read_back(tiff, entry + 4, count, le);
    lemma_until_zero(name, behind);
}

/// A directory of `count` entries stands at `ifd`, whole.
pub open spec fn holds_directory(tiff: Seq<u8>, ifd: int, count: u16, le: bool) -> bool {
    &&& holds_word(tiff, ifd, count, le)
    &&& ifd + 2 + 12 * count <= tiff.len()
}

/// Entry `i` of a directory has a tag, and none behind it has.
pub open spec fn last_with_tag(
    tiff: Seq<u8>,
    ifd: int,
    count: u16,
    le: bool,
    tag: u16,
    i: int,
) -> bool {
    &&& 0 <= i < count
    &&& holds_word(tiff, ifd + 2 + 12 * i, tag, le)
    &&& forall|j: int|
        i < j < count ==> !#[trigger] holds_word(tiff, ifd + 2 + 12 * j, tag, le)
}

proof fn lemma_word_is_held(b: Seq<u8>, off: int, v: u16, le: bool)
    requires
        word_at(b, off, le) == Some(v),
    ensures
        holds_word(b, off, v, le),
{
    let (low, high) = if le {
        (b[off] as int, b[off + 1] as int)
    } else {
        (b[off + 1] as int, b[off] as int)
    };
    assert(v == 256 * high + low);
    assert(v / 256 == high);
    assert(v % 256 == low);
}

proof fn lemma_tagged(
    tiff: Seq<u8>,
    ifd: int,
    count: u16,
    le: bool,
    tag: u16,
    i: int,
    n: nat,
)
    requires
        holds_directory(tiff, ifd, count, le),
        last_with_tag(tiff, ifd, count, le, tag, i),
        i < n <= count,
    ensures
        tagged(tiff, ifd, le, tag, n) == Some(ifd + 2 + 12 * i),
    decreases n,
{
    let entry = ifd + 2 + (n - 1) * 12;
    if n - 1 > i {
        lemma_tagged(tiff, ifd, count, le, tag, i, (n - 1) as nat);
        assert(!holds_word(tiff, ifd + 2 + 12 * (n - 1), tag, le));
        if word_at(tiff, entry, le) == Some(tag) {
            lemma_word_is_held(tiff, entry, tag, le);
        }
    } else {
        words_read_back(tiff, ifd + 2 + 12 * i, tag, le);
    }
}

/// The entry of a tag is found in a directory wherever it stands; of several
/// with one tag, the last.
pub proof fn entries_are_found(
    tiff: Seq<u8>,
    ifd: int,
    count: u16,
    le: bool,
    tag: u16,
    i: int,
)
    requires
        holds_directory(tiff, ifd, count, le),
        last_with_tag(tiff, ifd, count, le, tag, i),
    ensures
        readable(tiff, ifd, le) == Some(count as int),
        entry_of(tiff, ifd, le, tag) == Some(ifd + 2 + 12 * i),
{
    words_read_back(tiff, ifd, count, le);
    assert(count <= (tiff.len() - (ifd + 2)) / 12);
    lemma_tagged(tiff, ifd, count, le, tag, i, count as nat);
}

/// A block in either byte order, whose first directory points to a second one.
pub open spec fn holds_block(
    tiff: Seq<u8>,
    le: bool,
    ifd: u32,
    count: u16,
    at: int,
    sub: u32,
    inner: u16,
) -> bool {
    &&& 8 <= tiff.len()
    &&& if le {
        tiff[0] == 0x49 && tiff[1] == 0x49
    } else {
        tiff[0] == 0x4D && tiff[1] == 0x4D
    }
    &&& holds_word(tiff, 2, 42, le)
    &&& holds_long(tiff, 4, ifd, le)
    &&& holds_directory(tiff, ifd as int, count, le)
    &&& last_with_tag(tiff, ifd as int, count, le, 0x8769, at)
    &&& holds_long(tiff, ifd + 2 + 12 * at + 8, sub, le)
    &&& holds_directory(tiff, sub as int, inner, le)
}

/// A block that records a 35mm equivalent as a short number of millimetres, as
/// cameras do, is read as recording it, in either byte order and wherever the
/// entry stands.
pub proof fn written_35mm_equivalents_are_read(
    tiff: Seq<u8>,
    le: bool,
    ifd: u32,
    count: u16,
    at: int,
    sub: u32,
    inner: u16,
    i: int,
    v: u16,
)
    requires
        holds_block(tiff, le, ifd, count, at, sub, inner),
        last_with_tag(tiff, sub as int, inner, le, 0xA405, i),
        holds_word(tiff, sub + 2 + 12 * i + 2, 3, le),
        holds_word(tiff, sub + 2 + 12 * i + 8, v, le),
    ensures
        recorded(tiff) matches Some(r) && r.focal_35mm == Some(Ratio { num: v as u64, den: 1 }),
{
    words_read_back(tiff, 2, 42, le);
    longs_read_back(tiff, 4, ifd, le);
    entries_are_found(tiff, ifd as int, count, le, 0x8769, at);
    longs_read_back(tiff, ifd + 2 + 12 * at + 8, sub, le);
    entries_are_found(tiff, sub as int, inner, le, 0xA405, i);
    short_entries_read_back(tiff, sub + 2 + 12 * i, le, v);
}

/// A block that records a focal length as a fraction of millimetres is read as
/// recording it.
pub proof fn written_focal_lengths_are_read(
    tiff: Seq<u8>,
    le: bool,
    ifd: u32,
    count: u16,
    at: int,
    sub: u32,
    inner: u16,
    i: int,
    place: u32,
    num: u32,
    den: u32,
)
    requires
        holds_block(tiff, le, ifd, count, at, sub, inner),
        last_with_tag(tiff, sub as int, inner, le, 0x920A, i),
        holds_word(tiff, sub + 2 + 12 * i + 2, 5, le),
        holds_long(tiff, sub + 2 + 12 * i + 8, place, le),
        holds_long(tiff, place as int, num, le),
        holds_long(tiff, place + 4, den, le),
        den > 0,
    ensures
        recorded(tiff) matches Some(r) && r.focal_mm == Some(
            Ratio { num: num as u64, den: den as u64 },
        ),
{
    words_read_back(tiff, 2, 42, le);
    longs_read_back(tiff, 4, ifd, le);
    entries_are_found(tiff, ifd as int, count, le, 0x8769, at);
    longs_read_back(tiff, ifd + 2 + 12 * at + 8, sub, le);
    entries_are_found(tiff, sub as int, inner, le, 0x920A, i);
    fractions_read_back(tiff, sub + 2 + 12 * i, le, place, num, den);
}

/// The names of the maker and of the model are those of their entries in the
/// first directory.
pub proof fn written_names_are_read(
    tiff: Seq<u8>,
    le: bool,
    ifd: u32,
    count: u16,
    at: int,
    sub: u32,
    inner: u16,
    make: int,
    model: int,
)
    requires
        holds_block(tiff, le, ifd, count, at, sub, inner),
        recorded(tiff) is Some,
        last_with_tag(tiff, ifd as int, count, le, 0x010F, make),
        last_with_tag(tiff, ifd as int, count, le, 0x0110, model),
    ensures
        recorded(tiff)->0.make == textual(tiff, ifd + 2 + 12 * make, le),
        recorded(tiff)->0.model == textual(tiff, ifd + 2 + 12 * model, le),
{
    words_read_back(tiff, 2, 42, le);
    longs_read_back(tiff, 4, ifd, le);
    entries_are_found(tiff, ifd as int, count, le, 0x010F, make);
    entries_are_found(tiff, ifd as int, count, le, 0x0110, model);
}

/// A segment of a file: its marker, its length, and what it carries.
pub open spec fn segment(marker: u8, carried: Seq<u8>) -> Seq<u8> {
    seq![
        0xFFu8,
        marker,
        ((carried.len() + 2) / 256) as u8,
        ((carried.len() + 2) % 256) as u8,
    ] + carried
}

/// The mark in front of a block.
pub open spec fn exif_mark() -> Seq<u8> {
    seq![0x45u8, 0x78u8, 0x69u8, 0x66u8, 0u8, 0u8]
}

/// The block of a file stands in the segment that carries its mark; segments in
/// front of that are passed over.
pub proof fn blocks_are_found_behind_segments(
    front: Seq<u8>,
    marker: u8,
    carried: Seq<u8>,
    behind: Seq<u8>,
)
    requires
        carried.len() + 2 <= u16::MAX,
        marker != 0xDA,
    ensures
        ({
            let bytes = front + segment(marker, carried) + behind;
            let is_block = marker == 0xE1 && carried.len() > 6 && carried.take(6) == exif_mark();
            block_from(bytes, front.len() as int) == if is_block {
                Some(carried.skip(6))
            } else {
                block_from(bytes, (front + segment(marker, carried)).len() as int)
            }
        }),
{
    let bytes = front + segment(marker, carried) + behind;
    let i = front.len() as int;
    let n = (carried.len() + 2) as int;
    assert(n == 256 * (n / 256) + n % 256);
    assert(bytes[i] == 0xFF);
    assert(bytes[i + 1] == marker);
    assert(bytes[i + 2] == (n / 256) as u8);
    assert(bytes[i + 3] == (n % 256) as u8);
    assert(bytes.subrange(i + 4, i + 2 + n) =~= carried);
    if carried.len() > 6 {
        if is_exif(carried) {
            assert(carried.take(6) =~= exif_mark());
        }
        if carried.take(6) == exif_mark() {
            assert(forall|k: int| 0 <= k < 6 ==> carried.take(6)[k] == carried[k]);
            assert(exif_mark()[0] == carried[0]);
            assert(exif_mark()[1] == carried[1]);
            assert(exif_mark()[2] == carried[2]);
            assert(exif_mark()[3] == carried[3]);
            assert(exif_mark()[4] == carried[4]);
            assert(exif_mark()[5] == carried[5]);
        }
    }
}

/// A JPEG file whose first segment carries a block records what the block
/// does; nothing that follows matters.
pub proof fn files_record_what_their_block_does(tiff: Seq<u8>, behind: Seq<u8>)
    requires
        0 < tiff.len() <= u16::MAX - 8,
    ensures
        exif_of(seq![0xFFu8, 0xD8u8] + segment(0xE1, exif_mark() + tiff) + behind) == recorded(tiff),
{
    let front = seq![0xFFu8, 0xD8u8];
    let carried = exif_mark() + tiff;
    blocks_are_found_behind_segments(front, 0xE1, carried, behind);
    assert(carried.take(6) =~= exif_mark());
    assert(carried.skip(6) =~= tiff);
}

/// The 35mm equivalent is of a frame 36mm long: a pixel focal length over the
/// longer side is the focal length over 36mm.
pub proof fn pixels_scale_with_the_longer_side(f: Ratio, width: u32, height: u32, r: Ratio)
    requires
        is_small(f),
        pixels_of(Some(f), width, height) == Some(r),
    ensures
        f.num > 0,
        width >= height ==> r.num * f.den * 36 == f.num * width * r.den,
        height >= width ==> r.num * f.den * 36 == f.num * height * r.den,
{
    let long = long_side(width, height);
    assert(f.num * long <= u64::MAX) by (nonlinear_arith)
        requires
            f.num <= 0xffff_ffff,
            0 <= long <= 0xffff_ffff,
    ;
    assert(r.num == f.num * long);
    assert(r.den == f.den * 36);
    assert((f.num * long) * f.den * 36 == f.num * long * (f.den * 36)) by (nonlinear_arith);
}

/// A file that does not start as a JPEG does records nothing.
pub proof fn other_files_record_nothing(bytes: Seq<u8>)
    requires
        bytes.len() < 4 || bytes[0] != 0xFF || bytes[1] != 0xD8,
    ensures
        exif_of(bytes) is None,
{
}

/// The search for a block ends where the picture starts, where no segment does
/// and where one is cut short.
pub proof fn the_search_ends_at_the_picture(bytes: Seq<u8>, i: int)
    requires
        0 <= i,
        ({
            ||| i + 4 > bytes.len()
            ||| bytes[i] != 0xFF
            ||| bytes[i + 1] == 0xDA
            ||| i + 2 + 256 * bytes[i + 2] + bytes[i + 3] > bytes.len()
        }),
    ensures
        block_from(bytes, i) is None,
{
}

} // verus!
