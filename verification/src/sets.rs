//! Sets kept as sorted lists without repeats.

use vstd::prelude::*;

use crate::order;
use crate::order::text_before;

verus! {

// ---------------------------------------------------------------------------
// Numbers
// ---------------------------------------------------------------------------

/// Machine integers.
pub trait Number: Copy {
    spec fn value(self) -> int;

    proof fn is_its_value(a: Self, b: Self)
        ensures
            a.value() == b.value() ==> a == b,
    ;

    fn below(self, other: Self) -> (r: bool)
        ensures
            r == (self.value() < other.value()),
    ;
}

impl Number for u32 {
    open spec fn value(self) -> int {
        self as int
    }

    proof fn is_its_value(a: Self, b: Self) {
    }

    fn below(self, other: Self) -> (r: bool) {
        self < other
    }
}

impl Number for u64 {
    open spec fn value(self) -> int {
        self as int
    }

    proof fn is_its_value(a: Self, b: Self) {
    }

    fn below(self, other: Self) -> (r: bool) {
        self < other
    }
}

impl Number for usize {
    open spec fn value(self) -> int {
        self as int
    }

    proof fn is_its_value(a: Self, b: Self) {
    }

    fn below(self, other: Self) -> (r: bool) {
        self < other
    }
}

impl Number for i64 {
    open spec fn value(self) -> int {
        self as int
    }

    proof fn is_its_value(a: Self, b: Self) {
    }

    fn below(self, other: Self) -> (r: bool) {
        self < other
    }
}

/// Strictly ascending numbers.
pub open spec fn increasing<N: Number>(s: Seq<N>) -> bool {
    forall|i: int, j: int|
        0 <= i < j < s.len() ==> (#[trigger] s[i]).value() < (#[trigger] s[j]).value()
}

/// Adds a number to a sorted list, unless it is there.
pub fn insert_number<N: Number>(v: &mut Vec<N>, x: N)
    requires
        increasing(old(v)@),
    ensures
        increasing(final(v)@),
        final(v)@.to_set() == old(v)@.to_set().insert(x),
{
    let ghost before = v@;
    let mut k: usize = v.len();
    while k > 0 && x.below(v[k - 1])
        invariant
            k <= v.len(),
            v@ == before,
            forall|i: int| k <= i < v.len() ==> (#[trigger] v@[i]).value() > x.value(),
        decreases k,
    {
        k -= 1;
    }
    if k > 0 && !v[k - 1].below(x) {
        proof {
            N::is_its_value(before[k - 1], x);
        }
        assert(before.contains(x)) by {
            assert(before[k - 1] == x);
        }
        assert(v@.to_set() =~= before.to_set().insert(x));
        return;
    }
    v.insert(k, x);
    let ghost after = before.insert(k as int, x);
    assert forall|i: int, j: int| 0 <= i < j < after.len() implies (#[trigger] after[i]).value()
        < (#[trigger] after[j]).value() by {
        if j == k {
            assert(before[i].value() <= before[k - 1].value());
        } else if i == k {
            assert(before[j - 1].value() > x.value());
        } else {
            let a = if i < k {
                i
            } else {
                i - 1
            };
            let b = if j < k {
                j
            } else {
                j - 1
            };
            assert(before[a].value() < before[b].value());
        }
    }
    assert forall|y: N| after.contains(y) == (before.contains(y) || y == x) by {
        if before.contains(y) {
            let i = choose|i: int| 0 <= i < before.len() && before[i] == y;
            assert(after[if i < k {
                i
            } else {
                i + 1
            }] == y);
        }
        if y == x {
            assert(after[k as int] == x);
        }
        if after.contains(y) && y != x {
            let i = choose|i: int| 0 <= i < after.len() && after[i] == y;
            assert(before[if i < k {
                i
            } else {
                i - 1
            }] == y);
        }
    }
    assert(after.to_set() =~= before.to_set().insert(x));
}

/// The distinct numbers of a list, ascending.
pub open spec fn sorted_set<N: Number>(s: Seq<N>) -> Seq<N> {
    choose|r: Seq<N>| increasing(r) && r.to_set() == s.to_set()
}

/// The distinct numbers of a list, ascending.
pub fn distinct_numbers<N: Number>(v: &Vec<N>) -> (out: Vec<N>)
    ensures
        increasing(out@),
        out@.to_set() == v@.to_set(),
        out@ == sorted_set(v@),
{
    let mut out: Vec<N> = Vec::new();
    let mut i: usize = 0;
    assert(out@.to_set() =~= v@.take(0).to_set());
    while i < v.len()
        invariant
            i <= v.len(),
            increasing(out@),
            out@.to_set() == v@.take(i as int).to_set(),
        decreases v.len() - i,
    {
        insert_number(&mut out, v[i]);
        proof {
            lemma_take_to_set(v@, i as int);
        }
        i += 1;
    }
    assert(v@.take(v@.len() as int) =~= v@);
    proof {
        lemma_increasing_unique(out@, sorted_set(v@));
    }
    out
}

pub proof fn lemma_take_to_set<A>(s: Seq<A>, i: int)
    requires
        0 <= i < s.len(),
    ensures
        s.take(i + 1).to_set() == s.take(i).to_set().insert(s[i]),
{
    let (a, b) = (s.take(i + 1), s.take(i));
    assert forall|y: A| a.contains(y) == (b.contains(y) || y == s[i]) by {
        if a.contains(y) && y != s[i] {
            let k = choose|k: int| 0 <= k < a.len() && a[k] == y;
            assert(b[k] == y);
        }
        if b.contains(y) {
            let k = choose|k: int| 0 <= k < b.len() && b[k] == y;
            assert(a[k] == y);
        }
        if y == s[i] {
            assert(a[i] == y);
        }
    }
    assert(a.to_set() =~= b.to_set().insert(s[i]));
}

/// Two ascending lists of the same numbers are the same list.
pub proof fn lemma_increasing_unique<N: Number>(a: Seq<N>, b: Seq<N>)
    requires
        increasing(a),
        increasing(b),
        a.to_set() == b.to_set(),
    ensures
        a == b,
    decreases a.len(),
{
    if a.len() == 0 {
        if b.len() > 0 {
            assert(b.to_set().contains(b[0]));
            assert(a.contains(b[0]));
        }
        assert(a =~= b);
    } else {
        assert(a.to_set().contains(a.last()));
        assert(b.contains(a.last()));
        assert(b.to_set().contains(b.last()));
        assert(a.contains(b.last()));
        let i = choose|i: int| 0 <= i < b.len() && b[i] == a.last();
        let j = choose|j: int| 0 <= j < a.len() && a[j] == b.last();
        assert(a.last() == b.last()) by {
            if i < b.len() - 1 {
                assert(b[i].value() < b.last().value());
            }
            if j < a.len() - 1 {
                assert(a[j].value() < a.last().value());
            }
        }
        let (x, y) = (a.drop_last(), b.drop_last());
        assert forall|v: N| x.contains(v) == y.contains(v) by {
            if x.contains(v) {
                let k = choose|k: int| 0 <= k < x.len() && x[k] == v;
                assert(a[k] == v);
                assert(a.to_set().contains(v));
                assert(b.contains(v));
                let m = choose|m: int| 0 <= m < b.len() && b[m] == v;
                assert(a[k].value() < a.last().value());
                assert(y[m] == v);
            }
            if y.contains(v) {
                let k = choose|k: int| 0 <= k < y.len() && y[k] == v;
                assert(b[k] == v);
                assert(b.to_set().contains(v));
                assert(a.contains(v));
                let m = choose|m: int| 0 <= m < a.len() && a[m] == v;
                assert(b[k].value() < b.last().value());
                assert(x[m] == v);
            }
        }
        assert(x.to_set() =~= y.to_set());
        lemma_increasing_unique(x, y);
        assert(a =~= x.push(a.last()));
        assert(b =~= y.push(b.last()));
    }
}

/// The place of a number in an ascending list.
pub fn slot<N: Number>(list: &Vec<N>, id: N) -> (r: Option<usize>)
    requires
        increasing(list@),
    ensures
        match r {
            Some(i) => i < list@.len() && list@[i as int] == id && list@.index_of(id) == i,
            None => !list@.contains(id),
        },
{
    let mut lo: usize = 0;
    let mut hi: usize = list.len();
    while lo < hi
        invariant
            lo <= hi <= list@.len(),
            increasing(list@),
            forall|k: int| 0 <= k < lo ==> (#[trigger] list@[k]).value() < id.value(),
            forall|k: int| hi <= k < list@.len() ==> (#[trigger] list@[k]).value() > id.value(),
        decreases hi - lo,
    {
        let mid: usize = lo + (hi - lo) / 2;
        let here = list[mid];
        if here.below(id) {
            lo = mid + 1;
        } else if id.below(here) {
            hi = mid;
        } else {
            proof {
                N::is_its_value(here, id);
                assert(list@.contains(id));
                let k = list@.index_of(id);
                assert(list@[k] == id);
                if k != mid {
                    assert(false);
                }
            }
            return Some(mid);
        }
    }
    None
}

// ---------------------------------------------------------------------------
// Grouping by number
// ---------------------------------------------------------------------------

/// The values among the first `n` that carry the key, in order.
pub open spec fn with_key<N, T>(keys: Seq<N>, values: Seq<T>, key: N, n: nat) -> Seq<T>
    decreases n,
{
    if n == 0 {
        Seq::empty()
    } else {
        let rest = with_key(keys, values, key, (n - 1) as nat);
        if keys[n - 1] == key {
            rest.push(values[n - 1])
        } else {
            rest
        }
    }
}

/// The values that share a key.
#[derive(Debug)]
pub struct Gathered<N, T> {
    pub key: N,
    pub values: Vec<T>,
}

/// The values of each key, by ascending key; those of one key in order.
pub open spec fn gathers<N: Number, T>(
    out: Seq<Gathered<N, T>>,
    keys: Seq<N>,
    values: Seq<T>,
) -> bool {
    &&& out.map_values(|g: Gathered<N, T>| g.key) == sorted_set(keys)
    &&& forall|i: int|
        0 <= i < out.len() ==> (#[trigger] out[i]).values@ == with_key(
            keys,
            values,
            out[i].key,
            keys.len(),
        )
}

/// Groups values by their keys.
pub fn gather<N: Number, T: Copy>(keys: &Vec<N>, values: &Vec<T>) -> (out: Vec<Gathered<N, T>>)
    requires
        keys@.len() == values@.len(),
    ensures
        gathers(out@, keys@, values@),
{
    let all = distinct_numbers(keys);
    let mut out: Vec<Gathered<N, T>> = Vec::new();
    let mut i: usize = 0;
    while i < all.len()
        invariant
            i <= all@.len(),
            out@.len() == i,
            forall|j: int|
                0 <= j < i ==> (#[trigger] out@[j]).key == all@[j] && out@[j].values@ == with_key(
                    keys@,
                    values@,
                    all@[j],
                    0,
                ),
        decreases all@.len() - i,
    {
        out.push(Gathered { key: all[i], values: Vec::new() });
        i += 1;
    }
    let mut k: usize = 0;
    while k < keys.len()
        invariant
            k <= keys@.len(),
            keys@.len() == values@.len(),
            increasing(all@),
            all@.to_set() == keys@.to_set(),
            out@.len() == all@.len(),
            forall|j: int|
                0 <= j < out@.len() ==> (#[trigger] out@[j]).key == all@[j] && out@[j].values@
                    == with_key(keys@, values@, all@[j], k as nat),
        decreases keys@.len() - k,
    {
        let ghost before = out@;
        match slot(&all, keys[k]) {
            Some(g) => {
                out[g].values.push(values[k]);
                assert forall|j: int| 0 <= j < out@.len() implies (#[trigger] out@[j]).key
                    == all@[j] && out@[j].values@ == with_key(
                    keys@,
                    values@,
                    all@[j],
                    (k + 1) as nat,
                ) by {
                    assert(before[j].key == all@[j]);
                    if j != g && all@[j] == all@[g as int] {
                        assert(all@[j].value() == all@[g as int].value());
                    }
                }
            },
            None => {
                assert(keys@.to_set().contains(keys@[k as int]));
                assert(false);
            },
        }
        k += 1;
    }
    assert(out@.map_values(|g: Gathered<N, T>| g.key) =~= all@);
    out
}

/// The length of a group, as a count of its key.
pub open spec fn key_count<N>(keys: Seq<N>, key: N, n: nat) -> nat
    decreases n,
{
    if n == 0 {
        0
    } else {
        key_count(keys, key, (n - 1) as nat) + if keys[n - 1] == key {
            1nat
        } else {
            0nat
        }
    }
}

/// How often a key occurs.
pub fn count_key<N: Number>(keys: &Vec<N>, key: N) -> (r: usize)
    ensures
        r == key_count(keys@, key, keys@.len()),
{
    let mut count: usize = 0;
    let mut i: usize = 0;
    while i < keys.len()
        invariant
            i <= keys@.len(),
            count <= i,
            count == key_count(keys@, key, i as nat),
        decreases keys@.len() - i,
    {
        let other = keys[i];
        proof {
            N::is_its_value(other, key);
        }
        if !other.below(key) && !key.below(other) {
            count += 1;
        }
        i += 1;
    }
    count
}

/// A group is as long as its key occurs often.
pub proof fn groups_keep_every_value<N, T>(keys: Seq<N>, values: Seq<T>, key: N, n: nat)
    ensures
        with_key(keys, values, key, n).len() == key_count(keys, key, n),
    decreases n,
{
    if n > 0 {
        groups_keep_every_value(keys, values, key, (n - 1) as nat);
    }
}

proof fn lemma_with_number<N: Number>(s: Seq<N>, x: N) -> (r: Seq<N>)
    requires
        increasing(s),
    ensures
        increasing(r),
        r.to_set() == s.to_set().insert(x),
    decreases s.len(),
{
    if s.len() == 0 {
        let r = seq![x];
        assert(r[0] == x);
        assert(r.to_set() =~= s.to_set().insert(x));
        r
    } else {
        let last = s.last();
        if last.value() < x.value() {
            let r = s.push(x);
            assert forall|y: N| #[trigger] r.to_set().contains(y) <==> s.to_set().insert(x).contains(
                y,
            ) by {
                if s.contains(y) {
                    let i = choose|i: int| 0 <= i < s.len() && s[i] == y;
                    assert(r[i] == y);
                }
                assert(r[s.len() as int] == x);
            }
            assert(r.to_set() =~= s.to_set().insert(x));
            r
        } else if last.value() == x.value() {
            N::is_its_value(last, x);
            assert(s.contains(x));
            assert(s.to_set() =~= s.to_set().insert(x));
            s
        } else {
            let front = s.drop_last();
            let t = lemma_with_number(front, x);
            let r = t.push(last);
            assert forall|i: int| 0 <= i < t.len() implies (#[trigger] t[i]).value()
                < last.value() by {
                assert(t.to_set().contains(t[i]));
                if t[i] != x {
                    assert(front.contains(t[i]));
                    let j = choose|j: int| 0 <= j < front.len() && front[j] == t[i];
                    assert(s[j].value() < s[s.len() - 1].value());
                }
            }
            assert forall|y: N| #[trigger] r.to_set().contains(y) <==> s.to_set().insert(x).contains(
                y,
            ) by {
                if r.contains(y) {
                    let i = choose|i: int| 0 <= i < r.len() && r[i] == y;
                    if i < t.len() {
                        assert(t[i] == y);
                        assert(t.to_set().contains(y));
                        if y != x {
                            assert(front.contains(y));
                            let j = choose|j: int| 0 <= j < front.len() && front[j] == y;
                            assert(s[j] == y);
                        }
                    } else {
                        assert(s[s.len() - 1] == y);
                    }
                }
                if s.to_set().insert(x).contains(y) {
                    if y == last {
                        assert(r[t.len() as int] == y);
                    } else {
                        if y != x {
                            let j = choose|j: int| 0 <= j < s.len() && s[j] == y;
                            assert(front[j] == y);
                            assert(front.to_set().contains(y));
                        }
                        assert(t.to_set().contains(y));
                        let i = choose|i: int| 0 <= i < t.len() && t[i] == y;
                        assert(r[i] == y);
                    }
                }
            }
            assert(r.to_set() =~= s.to_set().insert(x));
            r
        }
    }
}

proof fn lemma_sorted_set_exists<N: Number>(s: Seq<N>) -> (r: Seq<N>)
    ensures
        increasing(r),
        r.to_set() == s.to_set(),
    decreases s.len(),
{
    if s.len() == 0 {
        s
    } else {
        let front = s.drop_last();
        let t = lemma_sorted_set_exists(front);
        let r = lemma_with_number(t, s.last());
        lemma_take_to_set(s, s.len() - 1);
        assert(s.take(s.len() - 1) =~= front);
        assert(s.take(s.len() as int) =~= s);
        assert(r.to_set() =~= s.to_set());
        r
    }
}

/// The distinct numbers of a list are ascending, and are those of the list.
pub proof fn sorted_set_is_the_set<N: Number>(s: Seq<N>)
    ensures
        increasing(sorted_set(s)),
        sorted_set(s).to_set() == s.to_set(),
{
    let r = lemma_sorted_set_exists(s);
    assert(increasing(r) && r.to_set() == s.to_set());
}

/// A key that stands somewhere is counted.
pub proof fn lemma_key_occurs<N>(keys: Seq<N>, n: nat, k: int)
    requires
        0 <= k < n <= keys.len(),
    ensures
        key_count(keys, keys[k], n) > 0,
    decreases n,
{
    if k < n - 1 {
        lemma_key_occurs(keys, (n - 1) as nat, k);
    }
}

/// How often the first `m` numbers of `all` occur among the first `n` keys.
pub open spec fn occurrences<N>(keys: Seq<N>, all: Seq<N>, n: nat, m: nat) -> nat
    decreases m,
{
    if m == 0 {
        0
    } else {
        occurrences(keys, all, n, (m - 1) as nat) + key_count(keys, all[m - 1], n)
    }
}

proof fn lemma_occurrences_step<N: Number>(keys: Seq<N>, all: Seq<N>, n: nat, m: nat, at: int)
    requires
        increasing(all),
        0 < n,
        m <= all.len(),
        0 <= at < all.len(),
        all[at] == keys[n - 1],
    ensures
        occurrences(keys, all, n, m) == occurrences(keys, all, (n - 1) as nat, m) + if at < m {
            1nat
        } else {
            0nat
        },
    decreases m,
{
    if m > 0 {
        lemma_occurrences_step(keys, all, n, (m - 1) as nat, at);
        if at < m - 1 {
            assert(all[at].value() < all[m - 1].value());
        } else if at > m - 1 {
            assert(all[m - 1].value() < all[at].value());
        }
    }
}

proof fn lemma_occurrences<N: Number>(keys: Seq<N>, all: Seq<N>, n: nat)
    requires
        increasing(all),
        n <= keys.len(),
        forall|k: int| 0 <= k < keys.len() ==> all.contains(#[trigger] keys[k]),
    ensures
        occurrences(keys, all, n, all.len()) == n,
    decreases n,
{
    if n == 0 {
        lemma_no_occurrences(keys, all, all.len());
    } else {
        lemma_occurrences(keys, all, (n - 1) as nat);
        assert(all.contains(keys[n - 1]));
        let at = choose|at: int| 0 <= at < all.len() && all[at] == keys[n - 1];
        lemma_occurrences_step(keys, all, n, all.len(), at);
    }
}

proof fn lemma_no_occurrences<N>(keys: Seq<N>, all: Seq<N>, m: nat)
    ensures
        occurrences(keys, all, 0, m) == 0,
    decreases m,
{
    if m > 0 {
        lemma_no_occurrences(keys, all, (m - 1) as nat);
    }
}

/// Every key is counted once: the counts of the distinct keys add up to the
/// number of keys.
pub proof fn counts_add_up<N: Number>(keys: Seq<N>)
    ensures
        occurrences(keys, sorted_set(keys), keys.len(), sorted_set(keys).len()) == keys.len(),
{
    let all = sorted_set(keys);
    sorted_set_is_the_set(keys);
    assert forall|k: int| 0 <= k < keys.len() implies all.contains(#[trigger] keys[k]) by {
        assert(keys.to_set().contains(keys[k]));
        assert(all.to_set().contains(keys[k]));
    }
    lemma_occurrences(keys, all, keys.len());
}

// ---------------------------------------------------------------------------
// Parts
// ---------------------------------------------------------------------------

/// The first `n` places.
pub open spec fn places(n: nat) -> Seq<usize> {
    Seq::new(n, |i: int| i as usize)
}

/// How many values the first `n` groups hold.
pub open spec fn group_sizes<N, T>(groups: Seq<Gathered<N, T>>, n: nat) -> nat
    decreases n,
{
    if n == 0 {
        0
    } else {
        group_sizes(groups, (n - 1) as nat) + groups[n - 1].values@.len()
    }
}

/// Whether a place stands in a group of a key.
pub open spec fn is_grouped<N>(groups: Seq<Gathered<N, usize>>, place: int, key: N) -> bool {
    exists|i: int|
        0 <= i < groups.len() && (#[trigger] groups[i]).key == key && groups[i].values@.contains(
            place as usize,
        )
}

/// Every place of the keys stands once in one group, that of its own key; no
/// two groups have one key, and they hold no other place.
pub open spec fn part_the_places<N>(groups: Seq<Gathered<N, usize>>, keys: Seq<N>) -> bool {
    &&& forall|i: int, j: int|
        0 <= i < j < groups.len() ==> (#[trigger] groups[i]).key != (#[trigger] groups[j]).key
    &&& forall|i: int| 0 <= i < groups.len() ==> (#[trigger] groups[i]).values@.no_duplicates()
    &&& forall|i: int, j: int|
        0 <= i < groups.len() && 0 <= j < groups[i].values@.len() ==> (
        #[trigger] groups[i].values@[j]) < keys.len() && keys[groups[i].values@[j] as int]
            == groups[i].key
    &&& forall|k: int| 0 <= k < keys.len() ==> is_grouped(groups, k, #[trigger] keys[k])
    &&& group_sizes(groups, groups.len()) == keys.len()
}

/// The values of the first `n` groups, one group after another.
pub open spec fn listed<N, T>(groups: Seq<Gathered<N, T>>, n: nat) -> Seq<T>
    decreases n,
{
    if n == 0 {
        Seq::empty()
    } else {
        listed(groups, (n - 1) as nat) + groups[n - 1].values@
    }
}

proof fn lemma_listed<N, T>(groups: Seq<Gathered<N, T>>, n: nat, a: int) -> (r: (int, int))
    requires
        0 <= a < listed(groups, n).len(),
    ensures
        0 <= r.0 < n,
        0 <= r.1 < groups[r.0].values@.len(),
        listed(groups, n)[a] == groups[r.0].values@[r.1],
    decreases n,
{
    let front = listed(groups, (n - 1) as nat);
    if a < front.len() {
        lemma_listed(groups, (n - 1) as nat, a)
    } else {
        (n - 1, a - front.len())
    }
}

proof fn lemma_is_listed<N, T>(groups: Seq<Gathered<N, T>>, n: nat, i: int, j: int) -> (a: int)
    requires
        0 <= i < n,
        0 <= j < groups[i].values@.len(),
    ensures
        0 <= a < listed(groups, n).len(),
        listed(groups, n)[a] == groups[i].values@[j],
    decreases n,
{
    let front = listed(groups, (n - 1) as nat);
    if i < n - 1 {
        lemma_is_listed(groups, (n - 1) as nat, i, j)
    } else {
        front.len() + j
    }
}

proof fn lemma_listed_once<N>(groups: Seq<Gathered<N, usize>>, keys: Seq<N>, n: nat)
    requires
        part_the_places(groups, keys),
        n <= groups.len(),
    ensures
        listed(groups, n).no_duplicates(),
    decreases n,
{
    if n > 0 {
        let front = listed(groups, (n - 1) as nat);
        let last = groups[n - 1].values@;
        let all = listed(groups, n);
        lemma_listed_once(groups, keys, (n - 1) as nat);
        assert(last.no_duplicates());
        assert forall|a: int, b: int| 0 <= a < front.len() && 0 <= b < last.len() implies front[a]
            != last[b] by {
            let (i, j) = lemma_listed(groups, (n - 1) as nat, a);
            assert(keys[groups[i].values@[j] as int] == groups[i].key);
            assert(keys[groups[n - 1].values@[b] as int] == groups[n - 1].key);
            assert(groups[i].key != groups[n - 1].key);
        }
        assert forall|a: int, b: int| 0 <= a < all.len() && 0 <= b < all.len() && a
            != b implies all[a] != all[b] by {
            if a < front.len() && b >= front.len() {
                assert(front[a] != last[b - front.len()]);
            } else if b < front.len() && a >= front.len() {
                assert(front[b] != last[a - front.len()]);
            }
        }
    }
}

/// Taken one group after another, the places are all there, in some order.
pub proof fn groups_list_every_place<N>(groups: Seq<Gathered<N, usize>>, keys: Seq<N>)
    requires
        part_the_places(groups, keys),
        keys.len() <= usize::MAX,
    ensures
        listed(groups, groups.len()).to_multiset() == places(keys.len()).to_multiset(),
{
    let n = groups.len();
    let all = listed(groups, n);
    let every = places(keys.len());
    lemma_listed_once(groups, keys, n);
    assert(every.no_duplicates());
    assert forall|x: usize| #[trigger] all.contains(x) <==> every.contains(x) by {
        if all.contains(x) {
            let a = choose|a: int| 0 <= a < all.len() && all[a] == x;
            let (i, j) = lemma_listed(groups, n, a);
            assert(groups[i].values@[j] < keys.len());
            assert(every[x as int] == x);
        }
        if every.contains(x) {
            let k = choose|k: int| 0 <= k < every.len() && every[k] == x;
            assert(is_grouped(groups, k, keys[k]));
            let i = choose|i: int|
                0 <= i < groups.len() && (#[trigger] groups[i]).key == keys[k]
                    && groups[i].values@.contains(k as usize);
            let j = choose|j: int|
                0 <= j < groups[i].values@.len() && groups[i].values@[j] == k as usize;
            let a = lemma_is_listed(groups, n, i, j);
            assert(all[a] == x);
        }
    }
    order::lemma_same_multiset(all, every);
}

proof fn lemma_places_with_key<N>(keys: Seq<N>, key: N, n: nat)
    requires
        n <= keys.len() <= usize::MAX,
    ensures
        forall|j: int|
            0 <= j < with_key(keys, places(keys.len()), key, n).len() ==> (#[trigger] with_key(
                keys,
                places(keys.len()),
                key,
                n,
            )[j]) < n && keys[with_key(keys, places(keys.len()), key, n)[j] as int] == key,
        with_key(keys, places(keys.len()), key, n).no_duplicates(),
        forall|k: int|
            0 <= k < n && #[trigger] keys[k] == key ==> with_key(
                keys,
                places(keys.len()),
                key,
                n,
            ).contains(k as usize),
    decreases n,
{
    if n > 0 {
        let all = places(keys.len());
        let rest = with_key(keys, all, key, (n - 1) as nat);
        let here = with_key(keys, all, key, n);
        lemma_places_with_key(keys, key, (n - 1) as nat);
        assert forall|k: int| 0 <= k < n && #[trigger] keys[k] == key implies here.contains(
            k as usize,
        ) by {
            if k == n - 1 {
                assert(here[rest.len() as int] == k as usize);
            } else {
                assert(rest.contains(k as usize));
                let j = choose|j: int| 0 <= j < rest.len() && rest[j] == k as usize;
                assert(here[j] == k as usize);
            }
        }
        assert(here.no_duplicates()) by {
            assert forall|a: int, b: int| 0 <= a < here.len() && 0 <= b < here.len() && a
                != b implies here[a] != here[b] by {
                if a < rest.len() {
                    assert(here[a] == rest[a]);
                }
                if b < rest.len() {
                    assert(here[b] == rest[b]);
                }
            }
        }
        assert forall|j: int| 0 <= j < here.len() implies (#[trigger] here[j]) < n
            && keys[here[j] as int] == key by {
            if j < rest.len() {
                assert(here[j] == rest[j]);
            }
        }
    }
}

proof fn lemma_group_sizes<N: Number, T>(
    groups: Seq<Gathered<N, T>>,
    keys: Seq<N>,
    values: Seq<T>,
    n: nat,
)
    requires
        gathers(groups, keys, values),
        n <= groups.len(),
    ensures
        group_sizes(groups, n) == occurrences(keys, sorted_set(keys), keys.len(), n),
    decreases n,
{
    if n > 0 {
        lemma_group_sizes(groups, keys, values, (n - 1) as nat);
        let all = groups.map_values(|g: Gathered<N, T>| g.key);
        assert(all[n - 1] == groups[n - 1].key);
        groups_keep_every_value(keys, values, groups[n - 1].key, keys.len());
    }
}

/// Grouping places by their keys parts them.
pub proof fn groups_part_the_places<N: Number>(groups: Seq<Gathered<N, usize>>, keys: Seq<N>)
    requires
        gathers(groups, keys, places(keys.len())),
        keys.len() <= usize::MAX,
    ensures
        part_the_places(groups, keys),
{
    let all = groups.map_values(|g: Gathered<N, usize>| g.key);
    sorted_set_is_the_set(keys);
    assert(all == sorted_set(keys));
    assert forall|i: int, j: int| 0 <= i < j < groups.len() implies (#[trigger] groups[i]).key != (
    #[trigger] groups[j]).key by {
        assert(all[i].value() < all[j].value());
    }
    assert forall|i: int| 0 <= i < groups.len() implies (
    #[trigger] groups[i]).values@.no_duplicates() by {
        lemma_places_with_key(keys, groups[i].key, keys.len());
    }
    assert forall|i: int, j: int|
        0 <= i < groups.len() && 0 <= j < groups[i].values@.len() implies (
    #[trigger] groups[i].values@[j]) < keys.len() && keys[groups[i].values@[j] as int]
        == groups[i].key by {
        lemma_places_with_key(keys, groups[i].key, keys.len());
    }
    assert forall|k: int| 0 <= k < keys.len() implies is_grouped(
        groups,
        k,
        #[trigger] keys[k],
    ) by {
        assert(keys.to_set().contains(keys[k]));
        assert(all.to_set().contains(keys[k]));
        let i = choose|i: int| 0 <= i < all.len() && all[i] == keys[k];
        lemma_places_with_key(keys, groups[i].key, keys.len());
        assert(groups[i].values@.contains(k as usize));
    }
    lemma_group_sizes(groups, keys, places(keys.len()), groups.len());
    counts_add_up(keys);
}

// ---------------------------------------------------------------------------
// Texts
// ---------------------------------------------------------------------------

pub open spec fn by_name() -> spec_fn(Seq<char>, Seq<char>) -> bool {
    |a: Seq<char>, b: Seq<char>| order::precedes(a, b)
}

/// Strictly ascending texts.
pub open spec fn ascending(s: Seq<Seq<char>>) -> bool {
    forall|i: int, j: int|
        0 <= i < j < s.len() ==> order::precedes(#[trigger] s[i], #[trigger] s[j])
}

/// A sorted list of texts with one more, unless it is there.
pub open spec fn with_text(s: Seq<Seq<char>>, x: Seq<char>) -> Seq<Seq<char>> {
    if s.contains(x) {
        s
    } else {
        order::insert_by(s, x, by_name())
    }
}

/// The distinct texts of a list, ascending.
pub open spec fn distinct(keys: Seq<Seq<char>>) -> Seq<Seq<char>>
    decreases keys.len(),
{
    if keys.len() == 0 {
        Seq::empty()
    } else {
        with_text(distinct(keys.drop_last()), keys.last())
    }
}

proof fn lemma_with_text(s: Seq<Seq<char>>, x: Seq<char>)
    requires
        ascending(s),
    ensures
        ascending(with_text(s, x)),
        forall|y: Seq<char>| #[trigger] with_text(s, x).contains(y) == (s.contains(y) || y == x),
        with_text(s, x).len() <= s.len() + 1,
    decreases s.len(),
{
    let r = with_text(s, x);
    if !s.contains(x) {
        if s.len() == 0 || !order::precedes(s[0], x) {
            assert(r =~= seq![x] + s);
            assert forall|i: int, j: int| 0 <= i < j < r.len() implies order::precedes(
                #[trigger] r[i],
                #[trigger] r[j],
            ) by {
                if i == 0 {
                    assert(s[0] != x);
                    order::names_are_totally_ordered(s[0], x, x);
                    order::names_are_totally_ordered(x, s[0], s[j - 1]);
                } else {
                    assert(order::precedes(s[i - 1], s[j - 1]));
                }
            }
            assert forall|y: Seq<char>| #[trigger] r.contains(y) == (s.contains(y) || y == x) by {
                if s.contains(y) {
                    let i = choose|i: int| 0 <= i < s.len() && s[i] == y;
                    assert(r[i + 1] == y);
                }
                if y == x {
                    assert(r[0] == y);
                }
                if r.contains(y) && y != x {
                    let i = choose|i: int| 0 <= i < r.len() && r[i] == y;
                    assert(s[i - 1] == y);
                }
            }
        } else {
            let rest = s.drop_first();
            assert(!rest.contains(x)) by {
                if rest.contains(x) {
                    let i = choose|i: int| 0 <= i < rest.len() && rest[i] == x;
                    assert(s[i + 1] == x);
                }
            }
            assert forall|i: int, j: int| 0 <= i < j < rest.len() implies order::precedes(
                #[trigger] rest[i],
                #[trigger] rest[j],
            ) by {
                assert(order::precedes(s[i + 1], s[j + 1]));
            }
            lemma_with_text(rest, x);
            let tail = with_text(rest, x);
            assert(r =~= seq![s[0]] + tail);
            assert forall|i: int, j: int| 0 <= i < j < r.len() implies order::precedes(
                #[trigger] r[i],
                #[trigger] r[j],
            ) by {
                if i == 0 {
                    let y = tail[j - 1];
                    assert(tail.contains(y));
                    if y != x {
                        assert(rest.contains(y));
                        let k = choose|k: int| 0 <= k < rest.len() && rest[k] == y;
                        assert(order::precedes(s[0], s[k + 1]));
                    }
                } else {
                    assert(order::precedes(tail[i - 1], tail[j - 1]));
                }
            }
            assert forall|y: Seq<char>| #[trigger] r.contains(y) == (s.contains(y) || y == x) by {
                if s.contains(y) {
                    let i = choose|i: int| 0 <= i < s.len() && s[i] == y;
                    if i == 0 {
                        assert(r[0] == y);
                    } else {
                        assert(rest[i - 1] == y);
                        assert(tail.contains(y));
                        let k = choose|k: int| 0 <= k < tail.len() && tail[k] == y;
                        assert(r[k + 1] == y);
                    }
                }
                if y == x {
                    assert(tail.contains(y));
                    let k = choose|k: int| 0 <= k < tail.len() && tail[k] == y;
                    assert(r[k + 1] == y);
                }
                if r.contains(y) && y != x {
                    let i = choose|i: int| 0 <= i < r.len() && r[i] == y;
                    if i == 0 {
                        assert(s[0] == y);
                    } else {
                        assert(tail[i - 1] == y);
                        assert(tail.contains(y));
                        let k = choose|k: int| 0 <= k < rest.len() && rest[k] == y;
                        assert(s[k + 1] == y);
                    }
                }
            }
        }
    }
}

/// [`distinct`] is ascending, holds exactly the given texts, and so no text
/// twice.
pub proof fn distinct_is_the_ascending_set(keys: Seq<Seq<char>>)
    ensures
        ascending(distinct(keys)),
        forall|y: Seq<char>| #[trigger] distinct(keys).contains(y) == keys.contains(y),
        distinct(keys).len() <= keys.len(),
    decreases keys.len(),
{
    if keys.len() > 0 {
        let front = keys.drop_last();
        distinct_is_the_ascending_set(front);
        lemma_with_text(distinct(front), keys.last());
        assert forall|y: Seq<char>| #[trigger] distinct(keys).contains(y) == keys.contains(y) by {
            if keys.contains(y) && y != keys.last() {
                let i = choose|i: int| 0 <= i < keys.len() && keys[i] == y;
                assert(front[i] == y);
            }
            if front.contains(y) {
                let i = choose|i: int| 0 <= i < front.len() && front[i] == y;
                assert(keys[i] == y);
            }
        }
    }
}

/// In an ascending list each text stands at one place.
pub proof fn lemma_ascending_index(s: Seq<Seq<char>>, i: int)
    requires
        ascending(s),
        0 <= i < s.len(),
    ensures
        s.index_of(s[i]) == i,
{
    assert(s.contains(s[i]));
    let k = s.index_of(s[i]);
    if k < i {
        order::names_are_totally_ordered(s[k], s[i], s[i]);
    } else if i < k {
        order::names_are_totally_ordered(s[i], s[k], s[k]);
    }
}

/// Where `x` first stands in a list of texts.
pub fn position(list: &Vec<String>, x: &String) -> (r: Option<usize>)
    ensures
        match r {
            Some(i) => i < list.len() && list@[i as int]@ == x@ && forall|k: int|
                0 <= k < i ==> (#[trigger] list@[k])@ != x@,
            None => !order::texts(list@).contains(x@),
        },
{
    let mut i: usize = 0;
    while i < list.len()
        invariant
            i <= list.len(),
            forall|k: int| 0 <= k < i ==> #[trigger] list@[k]@ != x@,
        decreases list.len() - i,
    {
        if list[i] == *x {
            return Some(i);
        }
        i += 1;
    }
    assert forall|k: int| 0 <= k < order::texts(list@).len() implies order::texts(list@)[k]
        != x@ by {
        assert(list@[k]@ != x@);
    }
    None
}

/// The distinct texts of a list, ascending.
pub fn distinct_texts(keys: &Vec<String>) -> (out: Vec<String>)
    ensures
        order::texts(out@) == distinct(order::texts(keys@)),
{
    let ghost all = order::texts(keys@);
    let mut out: Vec<String> = Vec::new();
    let mut i: usize = 0;
    assert(order::texts(out@) =~= distinct(all.take(0)));
    while i < keys.len()
        invariant
            i <= keys.len(),
            all == order::texts(keys@),
            order::texts(out@) == distinct(all.take(i as int)),
        decreases keys.len() - i,
    {
        let ghost sofar = order::texts(out@);
        assert(all.take(i + 1).drop_last() =~= all.take(i as int));
        assert(all.take(i + 1).last() == keys@[i as int]@);
        match position(&out, &keys[i]) {
            Some(k) => {
                assert(sofar[k as int] == keys@[i as int]@);
                assert(sofar.contains(keys@[i as int]@));
            },
            None => {
                let mut k: usize = 0;
                while k < out.len() && text_before(out[k].as_str(), keys[i].as_str())
                    invariant
                        i < keys.len(),
                        k <= out.len(),
                        forall|j: int|
                            0 <= j < k ==> order::precedes((#[trigger] out@[j])@, keys@[i as int]@),
                    decreases out.len() - k,
                {
                    k += 1;
                }
                proof {
                    let less = by_name();
                    assert forall|j: int| 0 <= j < k implies less(
                        #[trigger] sofar[j],
                        keys@[i as int]@,
                    ) by {
                        assert(order::precedes(out@[j]@, keys@[i as int]@));
                    }
                    if k < sofar.len() {
                        assert(!less(sofar[k as int], keys@[i as int]@));
                    }
                    order::lemma_insert_at(sofar, keys@[i as int]@, less, k as int);
                }
                let x = keys[i].clone();
                out.insert(k, x);
                assert(order::texts(out@) =~= sofar.insert(k as int, keys@[i as int]@));
            },
        }
        i += 1;
    }
    assert(all.take(all.len() as int) =~= all);
    out
}

/// How many of the first `n` of some values are of a kind.
pub open spec fn how_many<A>(s: Seq<A>, is_of_kind: spec_fn(A) -> bool, n: nat) -> nat {
    s.take(n as int).filter(is_of_kind).len()
}

/// One more value counts where it is of the kind.
pub proof fn lemma_one_more<A>(s: Seq<A>, is_of_kind: spec_fn(A) -> bool, n: nat)
    requires
        n < s.len(),
    ensures
        how_many(s, is_of_kind, 0) == 0,
        how_many(s, is_of_kind, n + 1) == how_many(s, is_of_kind, n) + if is_of_kind(s[n as int]) {
            1nat
        } else {
            0nat
        },
{
    reveal(Seq::filter);
    let all = s.take((n + 1) as int);
    assert(all.drop_last() =~= s.take(n as int));
    assert(all.last() == s[n as int]);
    assert(s.take(0) =~= Seq::<A>::empty());
}

/// None of no values is of a kind.
pub proof fn lemma_none_of_none<A>(s: Seq<A>, is_of_kind: spec_fn(A) -> bool)
    ensures
        how_many(s, is_of_kind, 0) == 0,
{
    reveal(Seq::filter);
    assert(s.take(0) =~= Seq::<A>::empty());
}

/// Being a given key.
pub open spec fn is_key<N>(key: N) -> spec_fn(N) -> bool {
    |k: N| k == key
}

/// A key is counted as often as it occurs.
pub proof fn keys_are_counted<N>(keys: Seq<N>, key: N, n: nat)
    requires
        n <= keys.len(),
    ensures
        key_count(keys, key, n) == how_many(keys, is_key(key), n),
    decreases n,
{
    lemma_none_of_none(keys, is_key(key));
    if n > 0 {
        keys_are_counted(keys, key, (n - 1) as nat);
        lemma_one_more(keys, is_key(key), (n - 1) as nat);
    }
}

} // verus!
