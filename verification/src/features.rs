//! Detector-agnostic feature types, shared by what produces them, what matches
//! them and what stores them.
//!
//! Keypoints and float descriptors are generic: what stands here is how many
//! there are, which rows belong to which keypoint, and how they are selected
//! and merged.

use vstd::prelude::*;
use vstd::slice::slice_subrange;

use crate::order;
use crate::order::{sort, Sortable};
use crate::sets;

verus! {

/// Bytes per fiducial corner descriptor: `capture_id`, `marker_id`,
/// `corner_index`, each a little-endian `u32`.
pub const MARKER_CORNER_BYTES: usize = 12;

/// Descriptor storage for a whole image, kept flat so it serializes compactly.
#[derive(Debug)]
#[allow(inconsistent_fields)]
pub enum Descriptors<F> {
    /// Row-major `[num_keypoints * dim]`, e.g. a 128-d float descriptor.
    Float32 { dim: u32, data: Vec<F> },
    /// Row-major `[num_keypoints * bytes_per_descriptor]` packed bits, compared
    /// by Hamming distance.
    Binary { bytes_per_descriptor: u32, data: Vec<u8> },
    /// Fiducial marker corners: 12 bytes per keypoint, three little-endian
    /// `u32`s - `capture_id`, `marker_id`, `corner_index` (0..3, clockwise from
    /// top-left). Matched by exact equality of the whole triple.
    ///
    /// `capture_id` is part of the identity, not decoration: a fiducial that
    /// is physically moved between captures is a *different 3D point* in each
    /// one. Datasets with no captures use `capture_id = 0` throughout.
    MarkerCorner { data: Vec<u8> },
}

/// What [`Descriptors`] hold.
#[verifier::ext_equal]
#[allow(inconsistent_fields)]
pub enum DescriptorsModel<F> {
    Float32 { dim: u32, data: Seq<F> },
    Binary { bytes_per_descriptor: u32, data: Seq<u8> },
    MarkerCorner { data: Seq<u8> },
}

impl<F> View for Descriptors<F> {
    type V = DescriptorsModel<F>;

    open spec fn view(&self) -> DescriptorsModel<F> {
        match *self {
            Descriptors::Float32 { dim, data } => DescriptorsModel::Float32 { dim, data: data@ },
            Descriptors::Binary { bytes_per_descriptor, data } => DescriptorsModel::Binary {
                bytes_per_descriptor,
                data: data@,
            },
            Descriptors::MarkerCorner { data } => DescriptorsModel::MarkerCorner { data: data@ },
        }
    }
}

/// Values per row of a flat descriptor array.
pub open spec fn stride_of<F>(d: DescriptorsModel<F>) -> nat {
    match d {
        DescriptorsModel::Float32 { dim, .. } => dim as nat,
        DescriptorsModel::Binary { bytes_per_descriptor, .. } => bytes_per_descriptor as nat,
        DescriptorsModel::MarkerCorner { .. } => MARKER_CORNER_BYTES as nat,
    }
}

/// How many values the flat array holds.
pub open spec fn data_len<F>(d: DescriptorsModel<F>) -> nat {
    match d {
        DescriptorsModel::Float32 { data, .. } => data.len(),
        DescriptorsModel::Binary { data, .. } => data.len(),
        DescriptorsModel::MarkerCorner { data } => data.len(),
    }
}

/// Row `i` of a flat array.
pub open spec fn row<A>(data: Seq<A>, stride: nat, i: nat) -> Seq<A> {
    data.subrange((i * stride) as int, ((i + 1) * stride) as int)
}

/// The number that four bytes write, least significant first.
pub open spec fn le_u32(b: Seq<u8>) -> u32 {
    (b[0] as int + 256 * b[1] as int + 65536 * b[2] as int + 16777216 * b[3] as int) as u32
}

/// The four bytes of a number, least significant first.
pub open spec fn le_bytes(n: u32) -> Seq<u8> {
    seq![
        (n as int % 256) as u8,
        (n as int / 256 % 256) as u8,
        (n as int / 65536 % 256) as u8,
        (n as int / 16777216) as u8,
    ]
}

/// Reading four little-endian bytes gives back the number they were written
/// from.
pub proof fn le_u32_reads_back(n: u32)
    ensures
        le_u32(le_bytes(n)) == n,
{
    let m = n as int;
    assert(m % 256 + 256 * (m / 256 % 256) + 65536 * (m / 65536 % 256) + 16777216 * (m / 16777216)
        == m) by (nonlinear_arith)
        requires
            0 <= m < 4294967296,
    ;
}

/// Reads a little-endian `u32` at `at`.
pub fn read_le_u32(data: &[u8], at: usize) -> (r: u32)
    requires
        at + 4 <= data@.len(),
    ensures
        r == le_u32(data@.subrange(at as int, at + 4)),
{
    let (a, b, c, d) = (
        data[at] as u32,
        data[at + 1] as u32,
        data[at + 2] as u32,
        data[at + 3] as u32,
    );
    a + 256 * b + 65536 * c + 16777216 * d
}

/// What a marker-corner row says: capture, marker and corner.
pub open spec fn corner_of(row: Seq<u8>) -> (u32, u32, u32) {
    (le_u32(row.subrange(0, 4)), le_u32(row.subrange(4, 8)), le_u32(row.subrange(8, 12)))
}

/// The row of a marker corner.
pub open spec fn corner_row(capture: u32, marker: u32, corner: u32) -> Seq<u8> {
    le_bytes(capture) + le_bytes(marker) + le_bytes(corner)
}

/// A marker corner is read back as it was written.
pub proof fn corners_read_back(capture: u32, marker: u32, corner: u32)
    ensures
        corner_of(corner_row(capture, marker, corner)) == (capture, marker, corner),
{
    let r = corner_row(capture, marker, corner);
    assert(r.subrange(0, 4) =~= le_bytes(capture));
    assert(r.subrange(4, 8) =~= le_bytes(marker));
    assert(r.subrange(8, 12) =~= le_bytes(corner));
    le_u32_reads_back(capture);
    le_u32_reads_back(marker);
    le_u32_reads_back(corner);
}

proof fn lemma_row_fits(i: nat, stride: nat, len: nat)
    requires
        (i + 1) * stride <= len,
    ensures
        i * stride <= (i + 1) * stride,
        i * stride + stride == (i + 1) * stride,
        i * stride <= len,
{
    assert(i * stride + stride == (i + 1) * stride) by (nonlinear_arith);
}

impl<F> Descriptors<F> {
    /// How many descriptors there are.
    pub fn len(&self) -> (r: usize)
        ensures
            r == if stride_of(self@) == 0 {
                0
            } else {
                data_len(self@) / stride_of(self@)
            },
    {
        match self {
            Descriptors::Float32 { dim, data } => {
                if *dim == 0 {
                    0
                } else {
                    data.len() / (*dim as usize)
                }
            },
            Descriptors::Binary { bytes_per_descriptor, data } => {
                if *bytes_per_descriptor == 0 {
                    0
                } else {
                    data.len() / (*bytes_per_descriptor as usize)
                }
            },
            Descriptors::MarkerCorner { data } => data.len() / MARKER_CORNER_BYTES,
        }
    }

    /// The float descriptor of keypoint `i`, where descriptors are floats.
    pub fn float_row(&self, i: usize) -> (r: Option<&[F]>)
        requires
            self is Float32 ==> (i + 1) * stride_of(self@) <= data_len(self@),
        ensures
            match (self@, r) {
                (DescriptorsModel::Float32 { dim, data }, Some(x)) => x@ == row(
                    data,
                    dim as nat,
                    i as nat,
                ),
                (DescriptorsModel::Float32 { .. }, None) => false,
                (_, x) => x is None,
            },
    {
        match self {
            Descriptors::Float32 { dim, data } => {
                let n: usize = *dim as usize;
                let total: usize = data.len();
                proof {
                    lemma_row_fits(i as nat, n as nat, total as nat);
                }
                let from: usize = i * n;
                Some(slice_subrange(data.as_slice(), from, from + n))
            },
            _ => None,
        }
    }

    /// The packed bits of keypoint `i`, where descriptors are binary.
    pub fn binary_row(&self, i: usize) -> (r: Option<&[u8]>)
        requires
            self is Binary ==> (i + 1) * stride_of(self@) <= data_len(self@),
        ensures
            match (self@, r) {
                (DescriptorsModel::Binary { bytes_per_descriptor, data }, Some(x)) => x@ == row(
                    data,
                    bytes_per_descriptor as nat,
                    i as nat,
                ),
                (DescriptorsModel::Binary { .. }, None) => false,
                (_, x) => x is None,
            },
    {
        match self {
            Descriptors::Binary { bytes_per_descriptor, data } => {
                let n: usize = *bytes_per_descriptor as usize;
                let total: usize = data.len();
                proof {
                    lemma_row_fits(i as nat, n as nat, total as nat);
                }
                let from: usize = i * n;
                Some(slice_subrange(data.as_slice(), from, from + n))
            },
            _ => None,
        }
    }

    /// `(capture_id, marker_id, corner_index)` - the full match key.
    pub fn marker_corner(&self, i: usize) -> (r: Option<(u32, u32, u32)>)
        requires
            self is MarkerCorner ==> (i + 1) * stride_of(self@) <= data_len(self@),
        ensures
            r == match self@ {
                DescriptorsModel::MarkerCorner { data } => Some(
                    corner_of(row(data, MARKER_CORNER_BYTES as nat, i as nat)),
                ),
                _ => None,
            },
    {
        match self {
            Descriptors::MarkerCorner { data } => {
                let total: usize = data.len();
                assert((i + 1) * MARKER_CORNER_BYTES <= total);
                let at: usize = i * MARKER_CORNER_BYTES;
                let ghost r = row(data@, MARKER_CORNER_BYTES as nat, i as nat);
                assert(r.subrange(0, 4) =~= data@.subrange(at as int, at + 4));
                assert(r.subrange(4, 8) =~= data@.subrange(at + 4, at + 8));
                assert(r.subrange(8, 12) =~= data@.subrange(at + 8, at + 12));
                Some(
                    (
                        read_le_u32(data.as_slice(), at),
                        read_le_u32(data.as_slice(), at + 4),
                        read_le_u32(data.as_slice(), at + 8),
                    ),
                )
            },
            _ => None,
        }
    }
}

/// The descriptors without their payload, but with their kind. A
/// reconstruction never reads what a float or binary descriptor holds -
/// matching already happened - only which kind it is. Marker corners *are* the
/// identity that matching proved, so those stay.
pub open spec fn lightened<F>(d: DescriptorsModel<F>) -> DescriptorsModel<F> {
    match d {
        DescriptorsModel::Float32 { dim, .. } => DescriptorsModel::Float32 {
            dim,
            data: Seq::empty(),
        },
        DescriptorsModel::Binary { bytes_per_descriptor, .. } => DescriptorsModel::Binary {
            bytes_per_descriptor,
            data: Seq::empty(),
        },
        DescriptorsModel::MarkerCorner { data } => DescriptorsModel::MarkerCorner { data },
    }
}

fn copy_of<A: Copy>(v: &Vec<A>) -> (out: Vec<A>)
    ensures
        out@ == v@,
{
    let mut out: Vec<A> = Vec::new();
    push_all(&mut out, v);
    assert(out@ =~= v@);
    out
}

pub fn push_all<A: Copy>(out: &mut Vec<A>, v: &Vec<A>)
    ensures
        final(out)@ == old(out)@ + v@,
{
    let mut i: usize = 0;
    let ghost start = out@;
    assert(out@ =~= start + v@.take(0));
    while i < v.len()
        invariant
            i <= v.len(),
            out@ == start + v@.take(i as int),
        decreases v.len() - i,
    {
        out.push(v[i]);
        i += 1;
        assert(out@ =~= start + v@.take(i as int));
    }
    assert(v@.take(v@.len() as int) =~= v@);
}

/// Strips descriptor payloads while keeping every descriptor's kind.
pub fn lighten<F: Copy>(d: &Descriptors<F>) -> (r: Descriptors<F>)
    ensures
        r@ == lightened(d@),
{
    match d {
        Descriptors::Float32 { dim, .. } => Descriptors::Float32 { dim: *dim, data: Vec::new() },
        Descriptors::Binary { bytes_per_descriptor, .. } => Descriptors::Binary {
            bytes_per_descriptor: *bytes_per_descriptor,
            data: Vec::new(),
        },
        Descriptors::MarkerCorner { data } => Descriptors::MarkerCorner { data: copy_of(data) },
    }
}

// ---------------------------------------------------------------------------
// Keeping the strongest
// ---------------------------------------------------------------------------

/// The features of one image.
#[derive(Debug)]
pub struct FeatureSet<K, F> {
    pub keypoints: Vec<K>,
    pub descriptors: Descriptors<F>,
}

/// A keypoint and its strength, for ranking.
struct Ranked {
    strength: i64,
    index: usize,
}

impl Sortable for Ranked {
    closed spec fn before(self, other: Self) -> bool {
        self.strength > other.strength || (self.strength == other.strength && self.index
            < other.index)
    }

    proof fn is_strict_weak_order(a: Self, b: Self, c: Self) {
    }

    fn is_before(&self, other: &Self) -> (r: bool) {
        self.strength > other.strength || (self.strength == other.strength && self.index
            < other.index)
    }
}

/// `a` is kept rather than `b`: stronger, or as strong and listed earlier.
pub open spec fn stronger(strength: Seq<i64>, a: int, b: int) -> bool {
    strength[a] > strength[b] || (strength[a] == strength[b] && a < b)
}

/// `kept` lists, ascending, the `max` strongest of all places.
pub open spec fn are_strongest(strength: Seq<i64>, max: nat, kept: Seq<usize>) -> bool {
    &&& kept.len() == max
    &&& sets::increasing(kept)
    &&& forall|k: int| 0 <= k < kept.len() ==> (#[trigger] kept[k]) < strength.len()
    &&& forall|a: int, b: int|
        0 <= a < strength.len() && 0 <= b < strength.len() && kept.contains(a as usize)
            && !kept.contains(b as usize) ==> #[trigger] stronger(strength, a, b)
}

/// The places of the `max` strongest, ascending.
pub fn strongest(strength: &Vec<i64>, max: usize) -> (kept: Vec<usize>)
    requires
        max <= strength@.len(),
    ensures
        are_strongest(strength@, max as nat, kept@),
{
    let n: usize = strength.len();
    let mut ranked: Vec<Ranked> = Vec::new();
    let mut mask: Vec<bool> = Vec::new();
    let mut i: usize = 0;
    while i < n
        invariant
            i <= n == strength@.len(),
            ranked@.len() == i,
            mask@.len() == i,
            forall|k: int|
                0 <= k < i ==> (#[trigger] ranked@[k]).index == k && ranked@[k].strength
                    == strength@[k],
            forall|k: int| 0 <= k < i ==> !#[trigger] mask@[k],
        decreases n - i,
    {
        ranked.push(Ranked { strength: strength[i], index: i });
        mask.push(false);
        i += 1;
    }
    let ghost listed = ranked@;
    let sorted = sort(ranked);
    let ghost all = sorted@;
    proof {
        lemma_ranking(strength@, listed);
    }
    let mut p: usize = 0;
    while p < max
        invariant
            p <= max <= n == strength@.len(),
            sorted@ == all,
            mask@.len() == n,
            all.len() == n,
            forall|k: int| 0 <= k < n ==> (#[trigger] all[k]).index < n,
            forall|k: int|
                #![trigger mask@[k]]
                0 <= k < n ==> (mask@[k] <==> exists|q: int| 0 <= q < p && all[q].index == k),
        decreases max - p,
    {
        let ghost before = mask@;
        let at: usize = sorted[p].index;
        assert(all[p as int].index < n);
        mask.set(at, true);
        p += 1;
        assert forall|k: int| #![trigger mask@[k]] 0 <= k < n implies (mask@[k] <==> exists|q: int|
            0 <= q < p && all[q].index == k) by {
            if k == at {
                assert(all[p - 1].index == k);
            }
            if before[k] {
                let q = choose|q: int| 0 <= q < p - 1 && all[q].index == k;
                assert(all[q].index == k);
            }
        }
    }
    let mut kept: Vec<usize> = Vec::new();
    let mut j: usize = 0;
    while j < n
        invariant
            j <= n == mask@.len(),
            sets::increasing(kept@),
            forall|k: int| 0 <= k < kept@.len() ==> (#[trigger] kept@[k]) < j,
            forall|k: int|
                #![trigger mask@[k]]
                0 <= k < j ==> (mask@[k] <==> kept@.contains(k as usize)),
        decreases n - j,
    {
        let ghost before = kept@;
        if mask[j] {
            kept.push(j);
        }
        assert forall|k: int| #![trigger mask@[k]] 0 <= k < j + 1 implies (mask@[k]
            <==> kept@.contains(k as usize)) by {
            if before.contains(k as usize) {
                let q = choose|q: int| 0 <= q < before.len() && before[q] == k as usize;
                assert(kept@[q] == k as usize);
            }
            if k == j && mask@[k] {
                assert(kept@[kept@.len() - 1] == j);
            }
            if kept@.contains(k as usize) && !before.contains(k as usize) {
                let q = choose|q: int| 0 <= q < kept@.len() && kept@[q] == k as usize;
                if q < before.len() {
                    assert(before[q] == k as usize);
                }
            }
        }
        j += 1;
    }
    proof {
        let first = all.take(max as int).map_values(|r: Ranked| r.index);
        assert(first.no_duplicates()) by {
            assert forall|a: int, b: int| 0 <= a < first.len() && 0 <= b < first.len() && a
                != b implies first[a] != first[b] by {
                assert(all[a].index != all[b].index);
            }
        }
        assert(kept@.no_duplicates()) by {
            assert forall|a: int, b: int| 0 <= a < kept@.len() && 0 <= b < kept@.len() && a
                != b implies kept@[a] != kept@[b] by {
                if a < b {
                    assert(kept@[a] < kept@[b]);
                } else {
                    assert(kept@[b] < kept@[a]);
                }
            }
        }
        assert forall|x: usize| first.contains(x) == kept@.contains(x) by {
            if first.contains(x) {
                let q = choose|q: int| 0 <= q < first.len() && first[q] == x;
                assert(all[q].index == x);
                assert(mask@[x as int]);
            }
            if kept@.contains(x) {
                let q = choose|q: int| 0 <= q < kept@.len() && kept@[q] == x;
                assert(kept@[q] < n);
                assert(mask@[x as int]);
                let r = choose|r: int| 0 <= r < max && all[r].index == x;
                assert(first[r] == x);
            }
        }
        assert(first.to_set() =~= kept@.to_set());
        first.unique_seq_to_set();
        kept@.unique_seq_to_set();
        assert forall|a: int, b: int|
            0 <= a < strength@.len() && 0 <= b < strength@.len() && kept@.contains(a as usize)
                && !kept@.contains(b as usize) implies #[trigger] stronger(strength@, a, b) by {
            assert(mask@[a]);
            assert(!mask@[b]);
            let q = choose|q: int| 0 <= q < max && all[q].index == a;
            let r = lemma_ranked_at(strength@, listed, b);
            assert(all[r].index == b);
            assert(r >= max);
            assert(!order::natural::<Ranked>()(all[r], all[q]));
        }
    }
    kept
}

/// Sorting the ranking keeps it a ranking of the same places.
proof fn lemma_ranking(strength: Seq<i64>, listed: Seq<Ranked>)
    requires
        listed.len() == strength.len(),
        forall|k: int|
            0 <= k < listed.len() ==> (#[trigger] listed[k]).index == k && listed[k].strength
                == strength[k],
    ensures
        order::sorted(listed).len() == listed.len(),
        order::is_sorted_by(order::sorted(listed), order::natural::<Ranked>()),
        forall|k: int|
            0 <= k < listed.len() ==> (#[trigger] order::sorted(listed)[k]).index < listed.len()
                && order::sorted(listed)[k].strength == strength[order::sorted(
                listed,
            )[k].index as int],
        forall|a: int, b: int|
            0 <= a < b < listed.len() ==> (#[trigger] order::sorted(listed)[a]).index != (
            #[trigger] order::sorted(listed)[b]).index,
{
    broadcast use vstd::seq_lib::group_to_multiset_ensures;

    let all = order::sorted(listed);
    order::sorted_is_an_ordered_permutation(listed);
    assert(listed.no_duplicates()) by {
        assert forall|a: int, b: int| 0 <= a < listed.len() && 0 <= b < listed.len() && a
            != b implies listed[a] != listed[b] by {
            assert(listed[a].index == a);
            assert(listed[b].index == b);
        }
    }
    listed.lemma_multiset_has_no_duplicates();
    all.lemma_multiset_has_no_duplicates_conv();
    assert forall|k: int| 0 <= k < listed.len() implies (#[trigger] all[k]).index < listed.len()
        && all[k] == listed[all[k].index as int] by {
        assert(all.contains(all[k]));
        assert(all.to_multiset().count(all[k]) > 0);
        assert(listed.contains(all[k]));
        let j = choose|j: int| 0 <= j < listed.len() && listed[j] == all[k];
        assert(listed[j].index == j);
    }
    assert forall|k: int| 0 <= k < listed.len() implies (#[trigger] all[k]).index < listed.len()
        && all[k].strength == strength[all[k].index as int] by {
        let j = all[k].index as int;
        assert(all[k] == listed[j]);
        assert(listed[j].strength == strength[j]);
    }
    assert forall|a: int, b: int| 0 <= a < b < listed.len() implies (#[trigger] all[a]).index != (
    #[trigger] all[b]).index by {
        assert(all[a] != all[b]);
        assert(all[a] == listed[all[a].index as int]);
        assert(all[b] == listed[all[b].index as int]);
    }
}

/// Where a place stands in the sorted ranking.
proof fn lemma_ranked_at(strength: Seq<i64>, listed: Seq<Ranked>, b: int) -> (r: int)
    requires
        0 <= b < listed.len(),
        forall|k: int| 0 <= k < listed.len() ==> (#[trigger] listed[k]).index == k,
    ensures
        0 <= r < order::sorted(listed).len(),
        order::sorted(listed)[r].index == b,
{
    broadcast use vstd::seq_lib::group_to_multiset_ensures;

    let all = order::sorted(listed);
    order::sorted_is_an_ordered_permutation(listed);
    let x = listed[b];
    assert(listed.contains(x));
    assert(listed.to_multiset().count(x) > 0);
    assert(all.contains(x));
    let r = choose|r: int| 0 <= r < all.len() && all[r] == x;
    assert(listed[b].index == b);
    r
}

/// There is only one list of the strongest.
pub proof fn the_strongest_are_unique(
    strength: Seq<i64>,
    max: nat,
    a: Seq<usize>,
    b: Seq<usize>,
)
    requires
        are_strongest(strength, max, a),
        are_strongest(strength, max, b),
        strength.len() <= usize::MAX,
    ensures
        a == b,
{
    lemma_increasing_no_duplicates(a);
    lemma_increasing_no_duplicates(b);
    a.unique_seq_to_set();
    b.unique_seq_to_set();
    assert(a.to_set() =~= b.to_set()) by {
        if exists|x: usize| a.to_set().contains(x) && !b.to_set().contains(x) {
            let x = choose|x: usize| a.to_set().contains(x) && !b.to_set().contains(x);
            if forall|y: usize| b.to_set().contains(y) ==> a.to_set().contains(y) {
                assert(b.to_set().subset_of(a.to_set().remove(x)));
                vstd::set_lib::lemma_len_subset(b.to_set(), a.to_set().remove(x));
            }
            let y = choose|y: usize| b.to_set().contains(y) && !a.to_set().contains(y);
            lemma_kept_in_range(strength, max, a, x);
            lemma_kept_in_range(strength, max, b, y);
            assert(stronger(strength, x as int, y as int));
            assert(stronger(strength, y as int, x as int));
        }
        if exists|x: usize| b.to_set().contains(x) && !a.to_set().contains(x) {
            let x = choose|x: usize| b.to_set().contains(x) && !a.to_set().contains(x);
            if forall|y: usize| a.to_set().contains(y) ==> b.to_set().contains(y) {
                assert(a.to_set().subset_of(b.to_set().remove(x)));
                vstd::set_lib::lemma_len_subset(a.to_set(), b.to_set().remove(x));
            }
            let y = choose|y: usize| a.to_set().contains(y) && !b.to_set().contains(y);
            lemma_kept_in_range(strength, max, b, x);
            lemma_kept_in_range(strength, max, a, y);
            assert(stronger(strength, x as int, y as int));
            assert(stronger(strength, y as int, x as int));
        }
    }
    sets::lemma_increasing_unique(a, b);
}

proof fn lemma_kept_in_range(strength: Seq<i64>, max: nat, a: Seq<usize>, x: usize)
    requires
        are_strongest(strength, max, a),
        a.contains(x),
    ensures
        x < strength.len(),
{
    let k = choose|k: int| 0 <= k < a.len() && a[k] == x;
    assert(a[k] < strength.len());
}

proof fn lemma_increasing_no_duplicates(a: Seq<usize>)
    requires
        sets::increasing(a),
    ensures
        a.no_duplicates(),
{
    assert forall|i: int, j: int| 0 <= i < a.len() && 0 <= j < a.len() && i != j implies a[i]
        != a[j] by {
        if i < j {
            assert(a[i] < a[j]);
        } else {
            assert(a[j] < a[i]);
        }
    }
}

/// The rows at the first `n` of the given places, one after another.
pub open spec fn gathered<A>(data: Seq<A>, stride: nat, at: Seq<usize>, n: nat) -> Seq<A>
    decreases n,
{
    if n == 0 {
        Seq::empty()
    } else {
        gathered(data, stride, at, (n - 1) as nat) + row(data, stride, at[n - 1] as nat)
    }
}

fn gather_rows<A: Copy>(data: &Vec<A>, stride: usize, at: &Vec<usize>) -> (out: Vec<A>)
    requires
        forall|k: int| 0 <= k < at@.len() ==> ((#[trigger] at@[k]) + 1) * stride <= data@.len(),
    ensures
        out@ == gathered(data@, stride as nat, at@, at@.len()),
{
    let mut out: Vec<A> = Vec::new();
    let total: usize = data.len();
    let mut k: usize = 0;
    while k < at.len()
        invariant
            k <= at.len(),
            total == data@.len(),
            forall|k: int| 0 <= k < at@.len() ==> ((#[trigger] at@[k]) + 1) * stride <= data@.len(),
            out@ == gathered(data@, stride as nat, at@, k as nat),
        decreases at.len() - k,
    {
        let i: usize = at[k];
        assert((at@[k as int] + 1) * stride <= data@.len());
        proof {
            lemma_row_fits(i as nat, stride as nat, data@.len());
        }
        let from: usize = i * stride;
        let ghost start = out@;
        let ghost whole = row(data@, stride as nat, i as nat);
        let mut j: usize = 0;
        assert(out@ =~= start + whole.take(0));
        while j < stride
            invariant
                j <= stride,
                from == i * stride,
                from + stride <= total == data@.len(),
                from + stride == (i + 1) * stride,
                whole == row(data@, stride as nat, i as nat),
                out@ == start + whole.take(j as int),
            decreases stride - j,
        {
            out.push(data[from + j]);
            j += 1;
            assert(out@ =~= start + whole.take(j as int));
        }
        assert(whole.take(whole.len() as int) =~= whole);
        k += 1;
    }
    out
}

/// The values at the given places.
pub open spec fn picked<A>(v: Seq<A>, at: Seq<usize>) -> Seq<A> {
    at.map_values(|i: usize| v[i as int])
}

/// The descriptors of the keypoints at the given places.
pub open spec fn selected<F>(d: DescriptorsModel<F>, at: Seq<usize>) -> DescriptorsModel<F> {
    match d {
        DescriptorsModel::Float32 { dim, data } => DescriptorsModel::Float32 {
            dim,
            data: gathered(data, dim as nat, at, at.len()),
        },
        DescriptorsModel::Binary { bytes_per_descriptor, data } => DescriptorsModel::Binary {
            bytes_per_descriptor,
            data: gathered(data, bytes_per_descriptor as nat, at, at.len()),
        },
        DescriptorsModel::MarkerCorner { data } => DescriptorsModel::MarkerCorner {
            data: gathered(data, MARKER_CORNER_BYTES as nat, at, at.len()),
        },
    }
}

impl<K: Copy, F: Copy> FeatureSet<K, F> {
    /// Every keypoint has its descriptor row.
    pub open spec fn wf(&self) -> bool {
        self.keypoints@.len() * stride_of(self.descriptors@) <= data_len(self.descriptors@)
    }

    pub fn len(&self) -> (r: usize)
        ensures
            r == self.keypoints@.len(),
    {
        self.keypoints.len()
    }

    pub fn is_empty(&self) -> (r: bool)
        ensures
            r == (self.keypoints@.len() == 0),
    {
        self.keypoints.len() == 0
    }

    /// Keeps only the `max` strongest keypoints and their descriptor rows, in
    /// the order in which they stood. `strength` orders the keypoints as their
    /// response does. Nothing changes when there are no more than `max`.
    pub fn truncate_to_strongest(&mut self, max: usize, strength: &Vec<i64>)
        requires
            old(self).wf(),
            strength@.len() == old(self).keypoints@.len(),
        ensures
            old(self).keypoints@.len() <= max ==> *final(self) == *old(self),
            old(self).keypoints@.len() > max ==> exists|kept: Seq<usize>|
                #![trigger are_strongest(strength@, max as nat, kept)]
                are_strongest(strength@, max as nat, kept) && final(self).keypoints@ == picked(
                    old(self).keypoints@,
                    kept,
                ) && final(self).descriptors@ == selected(old(self).descriptors@, kept),
    {
        if self.keypoints.len() <= max {
            return;
        }
        let kept = strongest(strength, max);
        let ghost n = self.keypoints@.len();
        let ghost stride = stride_of(self.descriptors@);
        assert forall|k: int| 0 <= k < kept@.len() implies ((#[trigger] kept@[k]) + 1) * stride
            <= data_len(self.descriptors@) by {
            let i = kept@[k];
            assert((i + 1) * stride <= n * stride) by (nonlinear_arith)
                requires
                    i + 1 <= n,
            ;
        }
        let mut keypoints: Vec<K> = Vec::new();
        let mut k: usize = 0;
        while k < kept.len()
            invariant
                k <= kept.len(),
                *self == *old(self),
                forall|j: int| 0 <= j < kept@.len() ==> (#[trigger] kept@[j]) < self.keypoints@.len(),
                keypoints@ == picked(self.keypoints@, kept@.take(k as int)),
            decreases kept.len() - k,
        {
            keypoints.push(self.keypoints[kept[k]]);
            k += 1;
            assert(keypoints@ =~= picked(self.keypoints@, kept@.take(k as int)));
        }
        assert(kept@.take(kept@.len() as int) =~= kept@);
        let descriptors = match &self.descriptors {
            Descriptors::Float32 { dim, data } => Descriptors::Float32 {
                dim: *dim,
                data: gather_rows(data, *dim as usize, &kept),
            },
            Descriptors::Binary { bytes_per_descriptor, data } => Descriptors::Binary {
                bytes_per_descriptor: *bytes_per_descriptor,
                data: gather_rows(data, *bytes_per_descriptor as usize, &kept),
            },
            Descriptors::MarkerCorner { data } => Descriptors::MarkerCorner {
                data: gather_rows(data, MARKER_CORNER_BYTES, &kept),
            },
        };
        self.keypoints = keypoints;
        self.descriptors = descriptors;
        assert(are_strongest(strength@, max as nat, kept@));
    }
}

/// What is kept is at least as strong as anything that is not, and of two as
/// strong the earlier is kept.
pub proof fn nothing_stronger_is_dropped(
    strength: Seq<i64>,
    max: nat,
    kept: Seq<usize>,
    a: int,
    b: int,
)
    requires
        are_strongest(strength, max, kept),
        0 <= a < strength.len() <= usize::MAX,
        0 <= b < strength.len(),
        kept.contains(a as usize),
        !kept.contains(b as usize),
    ensures
        strength[a] >= strength[b],
        strength[a] == strength[b] ==> a < b,
        kept.len() == max,
{
    assert(stronger(strength, a, b));
}

proof fn lemma_gathered_len<A>(data: Seq<A>, stride: nat, at: Seq<usize>, n: nat)
    requires
        n <= at.len(),
        forall|k: int| 0 <= k < at.len() ==> (#[trigger] at[k] + 1) * stride <= data.len(),
    ensures
        gathered(data, stride, at, n).len() == n * stride,
    decreases n,
{
    if n > 0 {
        lemma_gathered_len(data, stride, at, (n - 1) as nat);
        let i = at[n - 1] as nat;
        assert((at[n - 1] + 1) * stride <= data.len());
        assert((i + 1) * stride == i * stride + stride) by (nonlinear_arith);
        assert(n * stride == (n - 1) * stride + stride) by (nonlinear_arith);
        assert(i * stride >= 0) by (nonlinear_arith);
    } else {
        assert(n * stride == 0) by (nonlinear_arith)
            requires
                n == 0,
        ;
    }
}

/// Row `k` of the rows that are picked out is the row of the keypoint that is
/// picked out in place `k`: descriptors stay with their keypoints.
pub proof fn picked_rows_stay_with_their_keypoint<A>(
    data: Seq<A>,
    stride: nat,
    at: Seq<usize>,
    n: nat,
    k: nat,
)
    requires
        k < n <= at.len(),
        forall|j: int| 0 <= j < at.len() ==> (#[trigger] at[j] + 1) * stride <= data.len(),
    ensures
        (k + 1) * stride <= gathered(data, stride, at, n).len(),
        row(gathered(data, stride, at, n), stride, k) == row(data, stride, at[k as int] as nat),
    decreases n,
{
    lemma_gathered_len(data, stride, at, n);
    lemma_gathered_len(data, stride, at, (n - 1) as nat);
    let all = gathered(data, stride, at, n);
    let front = gathered(data, stride, at, (n - 1) as nat);
    let last = row(data, stride, at[n - 1] as nat);
    let i = at[n - 1] as nat;
    assert((at[n - 1] + 1) * stride <= data.len());
    assert((i + 1) * stride == i * stride + stride) by (nonlinear_arith);
    assert((k + 1) * stride == k * stride + stride) by (nonlinear_arith);
    assert(k * stride >= 0) by (nonlinear_arith);
    assert(i * stride >= 0) by (nonlinear_arith);
    assert((k + 1) * stride <= n * stride) by (nonlinear_arith)
        requires
            k + 1 <= n,
    ;
    if k == n - 1 {
        assert(row(all, stride, k) =~= last);
    } else {
        picked_rows_stay_with_their_keypoint(data, stride, at, (n - 1) as nat, k);
        assert((k + 1) * stride <= (n - 1) * stride) by (nonlinear_arith)
            requires
                k + 1 <= n - 1,
        ;
        assert(row(all, stride, k) =~= row(front, stride, k));
    }
}

/// Stripping descriptors keeps their kind and width, and leaves marker corners
/// as they are; nothing else of them stays.
pub proof fn stripping_keeps_the_kind<F>(d: DescriptorsModel<F>)
    ensures
        stride_of(lightened(d)) == stride_of(d),
        d is MarkerCorner ==> lightened(d) == d,
        d is Float32 ==> lightened(d) is Float32,
        d is Binary ==> lightened(d) is Binary,
        !(d is MarkerCorner) ==> data_len(lightened(d)) == 0,
{
}

/// Selecting keypoints keeps the kind and the width of their descriptors, and
/// gives keypoint `k` of the selection the descriptor of the one it was.
pub proof fn selected_descriptors_are_those_of_their_keypoints<F>(
    d: DescriptorsModel<F>,
    at: Seq<usize>,
    k: nat,
)
    requires
        k < at.len(),
        forall|j: int| 0 <= j < at.len() ==> (#[trigger] at[j] + 1) * stride_of(d) <= data_len(d),
    ensures
        match (d, selected(d, at)) {
            (
                DescriptorsModel::Float32 { dim, data },
                DescriptorsModel::Float32 { dim: width, data: out },
            ) => width == dim && row(out, dim as nat, k) == row(
                data,
                dim as nat,
                at[k as int] as nat,
            ),
            (
                DescriptorsModel::Binary { bytes_per_descriptor, data },
                DescriptorsModel::Binary { bytes_per_descriptor: width, data: out },
            ) => width == bytes_per_descriptor && row(out, width as nat, k) == row(
                data,
                width as nat,
                at[k as int] as nat,
            ),
            (
                DescriptorsModel::MarkerCorner { data },
                DescriptorsModel::MarkerCorner { data: out },
            ) => row(out, 12, k) == row(data, 12, at[k as int] as nat),
            _ => false,
        },
{
    match d {
        DescriptorsModel::Float32 { dim, data } => {
            picked_rows_stay_with_their_keypoint(data, dim as nat, at, at.len(), k);
        },
        DescriptorsModel::Binary { bytes_per_descriptor, data } => {
            picked_rows_stay_with_their_keypoint(
                data,
                bytes_per_descriptor as nat,
                at,
                at.len(),
                k,
            );
        },
        DescriptorsModel::MarkerCorner { data } => {
            picked_rows_stay_with_their_keypoint(data, 12, at, at.len(), k);
        },
    }
}

} // verus!
