//! Ordering of names and paths, and a stable sort.

use vstd::prelude::*;

use crate::text::chars_of;

verus! {

// ---------------------------------------------------------------------------
// Lexicographic order
// ---------------------------------------------------------------------------

/// Names are ordered by their first differing character; a proper prefix comes
/// first.
pub open spec fn precedes(a: Seq<char>, b: Seq<char>) -> bool
    decreases a.len(),
{
    if b.len() == 0 {
        false
    } else if a.len() == 0 {
        true
    } else if a[0] != b[0] {
        a[0] < b[0]
    } else {
        precedes(a.drop_first(), b.drop_first())
    }
}

/// Paths are ordered by their first differing component.
pub open spec fn path_precedes(a: Seq<Seq<char>>, b: Seq<Seq<char>>) -> bool
    decreases a.len(),
{
    if b.len() == 0 {
        false
    } else if a.len() == 0 {
        true
    } else if a[0] != b[0] {
        precedes(a[0], b[0])
    } else {
        path_precedes(a.drop_first(), b.drop_first())
    }
}

/// [`precedes`] is a strict order in which any two different names are
/// ordered.
pub proof fn names_are_totally_ordered(a: Seq<char>, b: Seq<char>, c: Seq<char>)
    ensures
        !precedes(a, a),
        precedes(a, b) && precedes(b, c) ==> precedes(a, c),
        a != b ==> precedes(a, b) || precedes(b, a),
        !(precedes(a, b) && precedes(b, a)),
    decreases a.len(),
{
    if a.len() > 0 && b.len() > 0 {
        if a[0] == b[0] {
            if c.len() > 0 {
                names_are_totally_ordered(a.drop_first(), b.drop_first(), c.drop_first());
            } else {
                names_are_totally_ordered(a.drop_first(), b.drop_first(), c);
            }
            if a.drop_first() == b.drop_first() {
                assert(a =~= seq![a[0]] + a.drop_first());
                assert(b =~= seq![b[0]] + b.drop_first());
            }
        } else {
            names_are_totally_ordered(a.drop_first(), a.drop_first(), a.drop_first());
        }
    } else if a.len() > 0 {
        names_are_totally_ordered(a.drop_first(), a.drop_first(), a.drop_first());
    } else if b.len() == 0 {
        assert(a =~= b);
    }
}

/// [`path_precedes`] is a strict order in which any two different paths are
/// ordered.
pub proof fn paths_are_totally_ordered(a: Seq<Seq<char>>, b: Seq<Seq<char>>, c: Seq<Seq<char>>)
    ensures
        !path_precedes(a, a),
        path_precedes(a, b) && path_precedes(b, c) ==> path_precedes(a, c),
        a != b ==> path_precedes(a, b) || path_precedes(b, a),
        !(path_precedes(a, b) && path_precedes(b, a)),
    decreases a.len(),
{
    if a.len() > 0 && b.len() > 0 {
        if a[0] == b[0] {
            if c.len() > 0 {
                paths_are_totally_ordered(a.drop_first(), b.drop_first(), c.drop_first());
            } else {
                paths_are_totally_ordered(a.drop_first(), b.drop_first(), c);
            }
            if a.drop_first() == b.drop_first() {
                assert(a =~= seq![a[0]] + a.drop_first());
                assert(b =~= seq![b[0]] + b.drop_first());
            }
        } else {
            paths_are_totally_ordered(a.drop_first(), a.drop_first(), a.drop_first());
            if c.len() > 0 {
                names_are_totally_ordered(a[0], b[0], c[0]);
            } else {
                names_are_totally_ordered(a[0], b[0], a[0]);
            }
        }
    } else if a.len() > 0 {
        paths_are_totally_ordered(a.drop_first(), a.drop_first(), a.drop_first());
    } else if b.len() == 0 {
        assert(a =~= b);
    }
}

/// Whether the text `a` comes before the text `b`.
pub fn text_before(a: &str, b: &str) -> (r: bool)
    ensures
        r == precedes(a@, b@),
{
    let ca = chars_of(a);
    let cb = chars_of(b);
    let mut i: usize = 0;
    assert(ca@.skip(0) =~= a@);
    assert(cb@.skip(0) =~= b@);
    while i < ca.len() && i < cb.len() && ca[i] == cb[i]
        invariant
            i <= ca.len(),
            i <= cb.len(),
            ca@ == a@,
            cb@ == b@,
            precedes(a@, b@) == precedes(ca@.skip(i as int), cb@.skip(i as int)),
        decreases ca.len() - i,
    {
        assert(ca@.skip(i as int).drop_first() =~= ca@.skip(i + 1));
        assert(cb@.skip(i as int).drop_first() =~= cb@.skip(i + 1));
        i += 1;
    }
    if i >= cb.len() {
        false
    } else if i >= ca.len() {
        true
    } else {
        ca[i] < cb[i]
    }
}

/// The texts held by a list of strings.
pub open spec fn texts(v: Seq<String>) -> Seq<Seq<char>> {
    v.map_values(|s: String| s@)
}

/// Adding a string to a list adds its text.
pub proof fn lemma_texts_push(v: Seq<String>, s: String)
    ensures
        texts(v.push(s)) == texts(v).push(s@),
{
    assert(texts(v.push(s)) =~= texts(v).push(s@));
}

/// Adds a text to a list.
pub fn push_text(out: &mut Vec<String>, line: String)
    ensures
        texts(final(out)@) == texts(old(out)@).push(line@),
{
    let ghost before = out@;
    out.push(line);
    proof {
        lemma_texts_push(before, line);
    }
}

/// Whether the path `a` comes before the path `b`, both given by components.
pub fn path_before(a: &Vec<String>, b: &Vec<String>) -> (r: bool)
    ensures
        r == path_precedes(texts(a@), texts(b@)),
{
    let ghost ta = texts(a@);
    let ghost tb = texts(b@);
    let mut i: usize = 0;
    assert(ta.skip(0) =~= ta);
    assert(tb.skip(0) =~= tb);
    while i < a.len() && i < b.len() && a[i] == b[i]
        invariant
            i <= a.len(),
            i <= b.len(),
            ta == texts(a@),
            tb == texts(b@),
            path_precedes(ta, tb) == path_precedes(ta.skip(i as int), tb.skip(i as int)),
        decreases a.len() - i,
    {
        assert(ta.skip(i as int).drop_first() =~= ta.skip(i + 1));
        assert(tb.skip(i as int).drop_first() =~= tb.skip(i + 1));
        i += 1;
    }
    if i >= b.len() {
        false
    } else if i >= a.len() {
        true
    } else {
        text_before(a[i].as_str(), b[i].as_str())
    }
}

// ---------------------------------------------------------------------------
// Stable sort
// ---------------------------------------------------------------------------

/// Values that can be sorted: `before` is a strict weak order.
pub trait Sortable: Sized {
    spec fn before(self, other: Self) -> bool;

    proof fn is_strict_weak_order(a: Self, b: Self, c: Self)
        ensures
            !a.before(a),
            a.before(b) && b.before(c) ==> a.before(c),
            !a.before(b) && !b.before(c) ==> !a.before(c),
    ;

    fn is_before(&self, other: &Self) -> (r: bool)
        ensures
            r == self.before(*other),
    ;
}

/// The relation is a strict weak order.
pub open spec fn orders<A>(less: spec_fn(A, A) -> bool) -> bool {
    &&& forall|a: A| !#[trigger] less(a, a)
    &&& forall|a: A, b: A, c: A| #[trigger] less(a, b) && #[trigger] less(b, c) ==> less(a, c)
    &&& forall|a: A, b: A, c: A| !#[trigger] less(a, b) && !#[trigger] less(b, c) ==> !less(a, c)
}

/// Puts `x` in front of the first element that does not come before it.
pub open spec fn insert_by<A>(s: Seq<A>, x: A, less: spec_fn(A, A) -> bool) -> Seq<A>
    decreases s.len(),
{
    if s.len() == 0 || !less(s[0], x) {
        seq![x] + s
    } else {
        seq![s[0]] + insert_by(s.drop_first(), x, less)
    }
}

/// The stable sort of `s`.
pub open spec fn sorted_by<A>(s: Seq<A>, less: spec_fn(A, A) -> bool) -> Seq<A>
    decreases s.len(),
{
    if s.len() == 0 {
        s
    } else {
        insert_by(sorted_by(s.drop_first(), less), s[0], less)
    }
}

/// No element comes before an earlier one.
pub open spec fn is_sorted_by<A>(s: Seq<A>, less: spec_fn(A, A) -> bool) -> bool {
    forall|i: int, j: int| 0 <= i < j < s.len() ==> !less(#[trigger] s[j], #[trigger] s[i])
}

/// The order of a sortable type.
pub open spec fn natural<T: Sortable>() -> spec_fn(T, T) -> bool {
    |a: T, b: T| a.before(b)
}

/// The stable sort of `s` in the order of its type.
pub open spec fn sorted<T: Sortable>(s: Seq<T>) -> Seq<T> {
    sorted_by(s, natural::<T>())
}

proof fn lemma_insert_by<A>(s: Seq<A>, x: A, less: spec_fn(A, A) -> bool)
    requires
        orders(less),
    ensures
        insert_by(s, x, less).to_multiset() == s.to_multiset().insert(x),
        insert_by(s, x, less).len() == s.len() + 1,
        is_sorted_by(s, less) ==> is_sorted_by(insert_by(s, x, less), less),
    decreases s.len(),
{
    broadcast use vstd::seq_lib::group_to_multiset_ensures;

    if s.len() == 0 || !less(s[0], x) {
        vstd::seq_lib::lemma_multiset_commutative(seq![x], s);
        assert(seq![x] =~= Seq::<A>::empty().push(x));
        assert((seq![x] + s).to_multiset() =~= s.to_multiset().insert(x));
        if is_sorted_by(s, less) {
            let r = seq![x] + s;
            assert forall|i: int, j: int| 0 <= i < j < r.len() implies !less(
                #[trigger] r[j],
                #[trigger] r[i],
            ) by {
                if i == 0 {
                    if j > 1 {
                        assert(!less(s[j - 1], s[0]));
                    }
                } else {
                    assert(!less(s[j - 1], s[i - 1]));
                }
            }
        }
    } else {
        let rest = s.drop_first();
        lemma_insert_by(rest, x, less);
        assert(s =~= seq![s[0]] + rest);
        vstd::seq_lib::lemma_multiset_commutative(seq![s[0]], rest);
        vstd::seq_lib::lemma_multiset_commutative(seq![s[0]], insert_by(rest, x, less));
        assert(insert_by(s, x, less).to_multiset() =~= s.to_multiset().insert(x));
        if is_sorted_by(s, less) {
            assert forall|i: int, j: int| 0 <= i < j < rest.len() implies !less(
                #[trigger] rest[j],
                #[trigger] rest[i],
            ) by {
                assert(!less(s[j + 1], s[i + 1]));
            }
            let tail = insert_by(rest, x, less);
            let r = seq![s[0]] + tail;
            assert forall|i: int, j: int| 0 <= i < j < r.len() implies !less(
                #[trigger] r[j],
                #[trigger] r[i],
            ) by {
                if i == 0 {
                    let y = tail[j - 1];
                    assert(tail.to_multiset().count(y) > 0) by {
                        assert(tail.contains(y));
                    }
                    assert(rest.to_multiset().insert(x).count(y) > 0);
                    if y == x {
                        assert(!less(x, s[0])) by {
                            if less(x, s[0]) {
                                assert(less(x, x));
                            }
                        }
                    } else {
                        assert(rest.to_multiset().count(y) > 0);
                        assert(rest.contains(y));
                        let k = choose|k: int| 0 <= k < rest.len() && rest[k] == y;
                        assert(!less(s[k + 1], s[0]));
                    }
                } else {
                    assert(!less(tail[j - 1], tail[i - 1]));
                }
            }
        }
    }
}

/// Sorting keeps every element and puts them in order.
pub proof fn sorted_by_is_an_ordered_permutation<A>(s: Seq<A>, less: spec_fn(A, A) -> bool)
    requires
        orders(less),
    ensures
        sorted_by(s, less).to_multiset() == s.to_multiset(),
        sorted_by(s, less).len() == s.len(),
        is_sorted_by(sorted_by(s, less), less),
    decreases s.len(),
{
    broadcast use vstd::seq_lib::group_to_multiset_ensures;

    if s.len() > 0 {
        let rest = s.drop_first();
        sorted_by_is_an_ordered_permutation(rest, less);
        lemma_insert_by(sorted_by(rest, less), s[0], less);
        assert(s =~= seq![s[0]] + rest);
        vstd::seq_lib::lemma_multiset_commutative(seq![s[0]], rest);
        assert(seq![s[0]] =~= Seq::<A>::empty().push(s[0]));
        assert(sorted_by(s, less).to_multiset() =~= s.to_multiset());
    }
}

/// Sorting keeps every element and puts them in order.
pub proof fn sorted_is_an_ordered_permutation<T: Sortable>(s: Seq<T>)
    ensures
        sorted(s).to_multiset() == s.to_multiset(),
        sorted(s).len() == s.len(),
        is_sorted_by(sorted(s), natural::<T>()),
{
    lemma_natural_orders::<T>();
    sorted_by_is_an_ordered_permutation(s, natural::<T>());
}

/// Two sequences without repetition that hold the same are the same but for
/// their order.
pub proof fn lemma_same_multiset<A>(s: Seq<A>, t: Seq<A>)
    requires
        s.no_duplicates(),
        t.no_duplicates(),
        forall|x: A| #[trigger] s.contains(x) <==> t.contains(x),
    ensures
        s.to_multiset() == t.to_multiset(),
{
    broadcast use vstd::seq_lib::group_to_multiset_ensures;

    s.lemma_multiset_has_no_duplicates();
    t.lemma_multiset_has_no_duplicates();
    assert forall|x: A| s.to_multiset().count(x) == t.to_multiset().count(x) by {
        assert(s.contains(x) <==> t.contains(x));
        if s.contains(x) {
            assert(s.to_multiset().contains(x));
            assert(t.to_multiset().contains(x));
        } else {
            assert(!s.to_multiset().contains(x));
            assert(!t.to_multiset().contains(x));
        }
    }
    assert(s.to_multiset() =~= t.to_multiset());
}

/// What is made of the elements of two sequences that differ in their order
/// differs in its order alone.
pub proof fn lemma_mapped_multiset<A, B>(s: Seq<A>, t: Seq<A>, f: spec_fn(A) -> B)
    requires
        s.to_multiset() == t.to_multiset(),
    ensures
        s.map_values(f).to_multiset() == t.map_values(f).to_multiset(),
    decreases s.len(),
{
    broadcast use vstd::seq_lib::group_to_multiset_ensures;

    if s.len() == 0 {
        vstd::seq_lib::to_multiset_len(s);
        vstd::seq_lib::to_multiset_len(t);
        assert(s =~= t);
    } else {
        let x = s.last();
        assert(s[s.len() - 1] == x);
        assert(s.contains(x));
        assert(s.to_multiset().count(x) > 0);
        assert(t.contains(x));
        let i = choose|i: int| 0 <= i < t.len() && t[i] == x;
        let front = s.drop_last();
        let rest = t.remove(i);
        assert(front =~= s.remove(s.len() - 1));
        assert(front.to_multiset() =~= rest.to_multiset());
        lemma_mapped_multiset(front, rest, f);
        assert(s.map_values(f) =~= front.map_values(f).push(f(x)));
        assert(t.map_values(f).remove(i) =~= rest.map_values(f));
        assert(t.map_values(f)[i] == f(x));
        assert(t.map_values(f).contains(f(x)));
        let made = t.map_values(f).to_multiset();
        assert(rest.map_values(f).to_multiset() == made.remove(f(x)));
        assert(made =~= made.remove(f(x)).insert(f(x)));
    }
}

/// Sorting commutes with a map that keeps the order.
pub proof fn lemma_sorted_map<A, B>(
    s: Seq<A>,
    less_a: spec_fn(A, A) -> bool,
    less_b: spec_fn(B, B) -> bool,
    f: spec_fn(A) -> B,
)
    requires
        forall|a: A, b: A| #[trigger] less_a(a, b) == less_b(f(a), f(b)),
    ensures
        sorted_by(s, less_a).map_values(f) == sorted_by(s.map_values(f), less_b),
    decreases s.len(),
{
    if s.len() == 0 {
        assert(s.map_values(f) =~= Seq::<B>::empty());
        assert(sorted_by(s, less_a).map_values(f) =~= Seq::<B>::empty());
    } else {
        let rest = s.drop_first();
        lemma_sorted_map(rest, less_a, less_b, f);
        assert(s.map_values(f).drop_first() =~= rest.map_values(f));
        lemma_insert_map(sorted_by(rest, less_a), s[0], less_a, less_b, f);
    }
}

proof fn lemma_insert_map<A, B>(
    s: Seq<A>,
    x: A,
    less_a: spec_fn(A, A) -> bool,
    less_b: spec_fn(B, B) -> bool,
    f: spec_fn(A) -> B,
)
    requires
        forall|a: A, b: A| #[trigger] less_a(a, b) == less_b(f(a), f(b)),
    ensures
        insert_by(s, x, less_a).map_values(f) == insert_by(s.map_values(f), f(x), less_b),
    decreases s.len(),
{
    if s.len() == 0 || !less_a(s[0], x) {
        assert((seq![x] + s).map_values(f) =~= seq![f(x)] + s.map_values(f));
    } else {
        lemma_insert_map(s.drop_first(), x, less_a, less_b, f);
        assert(s.map_values(f).drop_first() =~= s.drop_first().map_values(f));
        assert(insert_by(s, x, less_a).map_values(f) =~= seq![f(s[0])] + insert_by(
            s.drop_first(),
            x,
            less_a,
        ).map_values(f));
    }
}

/// Inserting with respect to the place where the scan stopped.
pub proof fn lemma_insert_at<A>(s: Seq<A>, x: A, less: spec_fn(A, A) -> bool, k: int)
    requires
        0 <= k <= s.len(),
        forall|i: int| 0 <= i < k ==> less(#[trigger] s[i], x),
        k < s.len() ==> !less(s[k], x),
    ensures
        insert_by(s, x, less) == s.insert(k, x),
    decreases k,
{
    if k == 0 {
        assert(seq![x] + s =~= s.insert(0, x));
    } else {
        let rest = s.drop_first();
        assert forall|i: int| 0 <= i < k - 1 implies less(#[trigger] rest[i], x) by {
            assert(less(s[i + 1], x));
        }
        assert(less(s[0], x));
        lemma_insert_at(rest, x, less, k - 1);
        assert(seq![s[0]] + rest.insert(k - 1, x) =~= s.insert(k, x));
    }
}

/// Two sorted sequences in one; of elements neither of which comes before the
/// other, those of `a` come first.
pub open spec fn merged<A>(a: Seq<A>, b: Seq<A>, less: spec_fn(A, A) -> bool) -> Seq<A>
    decreases a.len() + b.len(),
{
    if a.len() == 0 {
        b
    } else if b.len() == 0 {
        a
    } else if less(b[0], a[0]) {
        seq![b[0]] + merged(a, b.drop_first(), less)
    } else {
        seq![a[0]] + merged(a.drop_first(), b, less)
    }
}

proof fn lemma_merged_insert<A>(a: Seq<A>, b: Seq<A>, x: A, less: spec_fn(A, A) -> bool)
    requires
        orders(less),
    ensures
        merged(insert_by(a, x, less), b, less) == insert_by(merged(a, b, less), x, less),
    decreases a.len() + b.len(),
{
    let l = insert_by(a, x, less);
    if b.len() > 0 {
        if a.len() == 0 || !less(a[0], x) {
            assert(l =~= seq![x] + a);
            assert(l.drop_first() =~= a);
            if less(b[0], x) {
                lemma_merged_insert(a, b.drop_first(), x, less);
                if a.len() > 0 {
                    assert(less(b[0], a[0]));
                    let m = merged(a, b, less);
                    assert(m =~= seq![b[0]] + merged(a, b.drop_first(), less));
                    assert(m.drop_first() =~= merged(a, b.drop_first(), less));
                } else {
                    assert(merged(a, b.drop_first(), less) =~= b.drop_first());
                }
            }
        } else {
            let rest = a.drop_first();
            assert(l =~= seq![a[0]] + insert_by(rest, x, less));
            assert(l.drop_first() =~= insert_by(rest, x, less));
            let m = merged(a, b, less);
            if less(b[0], a[0]) {
                lemma_merged_insert(a, b.drop_first(), x, less);
                assert(less(b[0], x));
                assert(m.drop_first() =~= merged(a, b.drop_first(), less));
            } else {
                lemma_merged_insert(rest, b, x, less);
                assert(m.drop_first() =~= merged(rest, b, less));
            }
        }
    } else {
        if a.len() == 0 {
            assert(b =~= a);
        }
        assert(l.len() > 0);
    }
}

/// Sorting two halves and merging them sorts the whole.
pub proof fn lemma_merge_sort<A>(a: Seq<A>, b: Seq<A>, less: spec_fn(A, A) -> bool)
    requires
        orders(less),
    ensures
        sorted_by(a + b, less) == merged(sorted_by(a, less), sorted_by(b, less), less),
    decreases a.len(),
{
    if a.len() == 0 {
        assert(a + b =~= b);
    } else {
        let rest = a.drop_first();
        lemma_merge_sort(rest, b, less);
        assert((a + b).drop_first() =~= rest + b);
        lemma_merged_insert(sorted_by(rest, less), sorted_by(b, less), a[0], less);
    }
}

pub proof fn lemma_natural_orders<T: Sortable>()
    ensures
        orders(natural::<T>()),
{
    let less = natural::<T>();
    assert forall|a: T| !#[trigger] less(a, a) by {
        T::is_strict_weak_order(a, a, a);
    }
    assert forall|a: T, b: T, c: T| #[trigger] less(a, b) && #[trigger] less(b, c) implies less(
        a,
        c,
    ) by {
        T::is_strict_weak_order(a, b, c);
    }
    assert forall|a: T, b: T, c: T| !#[trigger] less(a, b) && !#[trigger] less(b, c) implies !less(
        a,
        c,
    ) by {
        T::is_strict_weak_order(a, b, c);
    }
}

fn reversed<T>(items: Vec<T>) -> (out: Vec<T>)
    ensures
        out@ == items@.reverse(),
{
    let mut rest = items;
    let mut out: Vec<T> = Vec::new();
    while rest.len() > 0
        invariant
            rest@.len() <= items@.len(),
            rest@ == items@.take(rest@.len() as int),
            out@ == items@.skip(rest@.len() as int).reverse(),
        decreases rest.len(),
    {
        let ghost n = rest@.len();
        let x = rest.pop().unwrap();
        out.push(x);
        assert(rest@ =~= items@.take(n - 1));
        assert(out@ =~= items@.skip(n - 1).reverse());
    }
    assert(items@.skip(0) =~= items@);
    out
}

fn merge<T: Sortable>(a: Vec<T>, b: Vec<T>) -> (out: Vec<T>)
    ensures
        out@ == merged(a@, b@, natural::<T>()),
{
    let mut ra = reversed(a);
    let mut rb = reversed(b);
    let mut out: Vec<T> = Vec::new();
    let ghost less = natural::<T>();
    assert(ra@.reverse() =~= a@);
    assert(rb@.reverse() =~= b@);
    assert(out@ + merged(ra@.reverse(), rb@.reverse(), less) =~= merged(a@, b@, less));
    while ra.len() > 0 && rb.len() > 0
        invariant
            less == natural::<T>(),
            out@ + merged(ra@.reverse(), rb@.reverse(), less) == merged(a@, b@, less),
        decreases ra.len() + rb.len(),
    {
        let ghost (fa, fb) = (ra@.reverse(), rb@.reverse());
        let ghost before = out@;
        if rb[rb.len() - 1].is_before(&ra[ra.len() - 1]) {
            let x = rb.pop().unwrap();
            out.push(x);
            assert(rb@.reverse() =~= fb.drop_first());
            assert(out@ + merged(ra@.reverse(), rb@.reverse(), less) =~= before + merged(
                fa,
                fb,
                less,
            ));
        } else {
            let x = ra.pop().unwrap();
            out.push(x);
            assert(ra@.reverse() =~= fa.drop_first());
            assert(out@ + merged(ra@.reverse(), rb@.reverse(), less) =~= before + merged(
                fa,
                fb,
                less,
            ));
        }
    }
    while ra.len() > 0
        invariant
            less == natural::<T>(),
            ra@.len() == 0 || rb@.len() == 0,
            out@ + merged(ra@.reverse(), rb@.reverse(), less) == merged(a@, b@, less),
        decreases ra.len(),
    {
        let ghost fa = ra@.reverse();
        let ghost before = out@;
        let x = ra.pop().unwrap();
        out.push(x);
        assert(ra@.reverse() =~= fa.drop_first());
        assert(rb@.reverse() =~= Seq::<T>::empty());
        assert(out@ + merged(ra@.reverse(), rb@.reverse(), less) =~= before + fa);
    }
    while rb.len() > 0
        invariant
            less == natural::<T>(),
            ra@.len() == 0,
            out@ + merged(ra@.reverse(), rb@.reverse(), less) == merged(a@, b@, less),
        decreases rb.len(),
    {
        let ghost fb = rb@.reverse();
        let ghost before = out@;
        let x = rb.pop().unwrap();
        out.push(x);
        assert(rb@.reverse() =~= fb.drop_first());
        assert(out@ + merged(ra@.reverse(), rb@.reverse(), less) =~= before + fb);
    }
    assert(rb@.reverse() =~= Seq::<T>::empty());
    assert(out@ =~= merged(a@, b@, less));
    out
}

/// Sorts the items, keeping the order of those neither of which comes before
/// the other.
pub fn sort<T: Sortable>(items: Vec<T>) -> (out: Vec<T>)
    ensures
        out@ == sorted(items@),
    decreases items.len(),
{
    if items.len() < 2 {
        assert(sorted(items@) =~= items@) by {
            reveal_with_fuel(sorted_by, 3);
        }
        return items;
    }
    let mut left = items;
    let mid: usize = left.len() / 2;
    let right = left.split_off(mid);
    assert(left@ + right@ =~= items@);
    proof {
        lemma_natural_orders::<T>();
        lemma_merge_sort(left@, right@, natural::<T>());
    }
    let left = sort(left);
    let right = sort(right);
    merge(left, right)
}

impl Sortable for String {
    open spec fn before(self, other: Self) -> bool {
        precedes(self@, other@)
    }

    proof fn is_strict_weak_order(a: Self, b: Self, c: Self) {
        names_are_totally_ordered(a@, b@, c@);
        names_are_totally_ordered(a@, c@, b@);
        names_are_totally_ordered(c@, b@, a@);
    }

    fn is_before(&self, other: &Self) -> (r: bool) {
        text_before(self.as_str(), other.as_str())
    }
}

impl Sortable for usize {
    open spec fn before(self, other: Self) -> bool {
        self < other
    }

    proof fn is_strict_weak_order(a: Self, b: Self, c: Self) {
    }

    fn is_before(&self, other: &Self) -> (r: bool) {
        *self < *other
    }
}

impl Sortable for u64 {
    open spec fn before(self, other: Self) -> bool {
        self < other
    }

    proof fn is_strict_weak_order(a: Self, b: Self, c: Self) {
    }

    fn is_before(&self, other: &Self) -> (r: bool) {
        *self < *other
    }
}

/// Neither comes before the other.
pub open spec fn ties_with<A>(less: spec_fn(A, A) -> bool, c: A) -> spec_fn(A) -> bool {
    |x: A| !less(x, c) && !less(c, x)
}

proof fn lemma_insert_ties<A>(s: Seq<A>, x: A, less: spec_fn(A, A) -> bool, c: A)
    requires
        orders(less),
    ensures
        insert_by(s, x, less).filter(ties_with(less, c)) == (if ties_with(less, c)(x) {
            seq![x]
        } else {
            Seq::empty()
        }) + s.filter(ties_with(less, c)),
    decreases s.len(),
{
    let tie = ties_with(less, c);
    lemma_filter_one(x, tie);
    if s.len() == 0 || !less(s[0], x) {
        Seq::filter_distributes_over_add(seq![x], s, tie);
    } else {
        let rest = s.drop_first();
        lemma_insert_ties(rest, x, less, c);
        lemma_filter_one(s[0], tie);
        Seq::filter_distributes_over_add(seq![s[0]], insert_by(rest, x, less), tie);
        Seq::filter_distributes_over_add(seq![s[0]], rest, tie);
        assert(seq![s[0]] + rest =~= s);
        if tie(x) {
            // What comes before `x` comes before `c` as well.
            assert(!tie(s[0]));
        }
        assert(insert_by(s, x, less).filter(tie) =~= (if tie(x) {
            seq![x]
        } else {
            Seq::empty()
        }) + s.filter(tie));
    }
}

proof fn lemma_filter_one<A>(x: A, kind: spec_fn(A) -> bool)
    ensures
        seq![x].filter(kind) == if kind(x) {
            seq![x]
        } else {
            Seq::empty()
        },
{
    reveal(Seq::filter);
    let none = Seq::<A>::empty();
    assert(seq![x].drop_last() =~= none);
    assert(none.filter(kind) =~= none);
    assert(seq![x].filter(kind) =~= if kind(x) {
        seq![x]
    } else {
        none
    });
}

/// Sorting leaves what ties in the order in which it was.
pub proof fn sorting_keeps_the_order_of_ties<A>(s: Seq<A>, less: spec_fn(A, A) -> bool, c: A)
    requires
        orders(less),
    ensures
        sorted_by(s, less).filter(ties_with(less, c)) == s.filter(ties_with(less, c)),
    decreases s.len(),
{
    if s.len() > 0 {
        let tie = ties_with(less, c);
        let rest = s.drop_first();
        sorting_keeps_the_order_of_ties(rest, less, c);
        lemma_insert_ties(sorted_by(rest, less), s[0], less, c);
        lemma_filter_one(s[0], tie);
        Seq::filter_distributes_over_add(seq![s[0]], rest, tie);
        assert(seq![s[0]] + rest =~= s);
    }
}

} // verus!
