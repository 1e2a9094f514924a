//! The match graph: images as nodes, geometrically-verified pairs as edges.
//!
//! Worth a view of its own because the failure it exposes is invisible in the
//! stage logs: images can go unregistered not because their features or
//! matches are bad but because they form their own connected component, with
//! no verified pair bridging to the component that the reconstruction seeded
//! from.

use std::collections::BTreeSet;

use vstd::prelude::*;

use crate::mapinput;
use crate::mapinput::{find_image, ImageRow};
use crate::order;
use crate::order::{sort, Sortable};
use crate::sets;

verus! {

/// A verified pair between two nodes.
#[derive(Debug, Clone, Copy, PartialEq, Eq, Structural)]
pub struct EdgeLink {
    pub a: usize,
    pub b: usize,
    pub inliers: usize,
}

// ---------------------------------------------------------------------------
// Connectedness
// ---------------------------------------------------------------------------

/// Some edge joins the two nodes.
pub open spec fn adjacent(edges: Seq<EdgeLink>, x: int, y: int) -> bool {
    exists|k: int|
        0 <= k < edges.len() && (((#[trigger] edges[k]).a == x && edges[k].b == y) || (edges[k].a
            == y && edges[k].b == x))
}

/// Consecutive nodes of the path are joined.
pub open spec fn is_path(edges: Seq<EdgeLink>, p: Seq<int>) -> bool {
    &&& p.len() > 0
    &&& forall|i: int| 0 <= i < p.len() - 1 ==> adjacent(edges, #[trigger] p[i], p[i + 1])
}

/// A path leads from one node to the other.
pub open spec fn connected(edges: Seq<EdgeLink>, x: int, y: int) -> bool {
    exists|p: Seq<int>| #[trigger] is_path(edges, p) && p[0] == x && p.last() == y
}

/// Being connected is an equivalence.
pub proof fn connected_is_an_equivalence(edges: Seq<EdgeLink>, x: int, y: int, z: int)
    ensures
        connected(edges, x, x),
        connected(edges, x, y) ==> connected(edges, y, x),
        connected(edges, x, y) && connected(edges, y, z) ==> connected(edges, x, z),
{
    let one = seq![x];
    assert(is_path(edges, one) && one[0] == x && one.last() == x);
    if connected(edges, x, y) {
        let p = choose|p: Seq<int>| #[trigger] is_path(edges, p) && p[0] == x && p.last() == y;
        let q = p.reverse();
        assert forall|i: int| 0 <= i < q.len() - 1 implies adjacent(
            edges,
            #[trigger] q[i],
            q[i + 1],
        ) by {
            let j = p.len() - 2 - i;
            assert(adjacent(edges, p[j], p[j + 1]));
            assert(q[i] == p[j + 1]);
            assert(q[i + 1] == p[j]);
            let k = choose|k: int|
                0 <= k < edges.len() && (((#[trigger] edges[k]).a == p[j] && edges[k].b == p[j + 1])
                    || (edges[k].a == p[j + 1] && edges[k].b == p[j]));
            assert(edges[k].a == q[i] && edges[k].b == q[i + 1] || edges[k].a == q[i + 1]
                && edges[k].b == q[i]);
        }
        assert(is_path(edges, q) && q[0] == y && q.last() == x);
        if connected(edges, y, z) {
            let r = choose|r: Seq<int>| #[trigger] is_path(edges, r) && r[0] == y && r.last() == z;
            let s = p + r.drop_first();
            assert forall|i: int| 0 <= i < s.len() - 1 implies adjacent(
                edges,
                #[trigger] s[i],
                s[i + 1],
            ) by {
                if i < p.len() - 1 {
                    assert(adjacent(edges, p[i], p[i + 1]));
                } else {
                    let j = i - (p.len() - 1);
                    assert(adjacent(edges, r[j], r[j + 1]));
                    assert(s[i] == r[j]);
                    assert(s[i + 1] == r[j + 1]);
                }
            }
            assert(is_path(edges, s) && s[0] == x && s.last() == z);
        }
    }
}

proof fn lemma_more_edges(edges: Seq<EdgeLink>, k: int, x: int, y: int)
    requires
        0 <= k < edges.len(),
        connected(edges.take(k), x, y),
    ensures
        connected(edges.take(k + 1), x, y),
{
    let few = edges.take(k);
    let more = edges.take(k + 1);
    let p = choose|p: Seq<int>| #[trigger] is_path(few, p) && p[0] == x && p.last() == y;
    assert forall|i: int| 0 <= i < p.len() - 1 implies adjacent(
        more,
        #[trigger] p[i],
        p[i + 1],
    ) by {
        assert(adjacent(few, p[i], p[i + 1]));
        let e = choose|e: int|
            0 <= e < few.len() && (((#[trigger] few[e]).a == p[i] && few[e].b == p[i + 1])
                || (few[e].a == p[i + 1] && few[e].b == p[i]));
        assert(more[e] == few[e]);
    }
    assert(is_path(more, p));
}

proof fn lemma_edge_connects(edges: Seq<EdgeLink>, k: int)
    requires
        0 <= k < edges.len(),
    ensures
        connected(edges.take(k + 1), edges[k].a as int, edges[k].b as int),
{
    let more = edges.take(k + 1);
    let p = seq![edges[k].a as int, edges[k].b as int];
    assert(more[k] == edges[k]);
    assert(adjacent(more, p[0], p[1]));
    assert(is_path(more, p));
}

// ---------------------------------------------------------------------------
// Union-find
// ---------------------------------------------------------------------------

/// The parents form a forest: `class` numbers its trees, `rank` grows toward
/// the roots and stays below `bound`.
spec fn is_forest(parent: Seq<usize>, class: Seq<int>, rank: Seq<nat>, bound: nat) -> bool {
    &&& class.len() == parent.len()
    &&& rank.len() == parent.len()
    &&& forall|x: int| 0 <= x < parent.len() ==> (#[trigger] parent[x]) < parent.len()
    &&& forall|x: int| 0 <= x < parent.len() ==> class[(#[trigger] parent[x]) as int] == class[x]
    &&& forall|x: int|
        0 <= x < parent.len() && (#[trigger] parent[x]) != x ==> rank[x] < rank[parent[x] as int]
    &&& forall|x: int| 0 <= x < parent.len() ==> (#[trigger] rank[x]) <= bound
    &&& forall|x: int, y: int|
        0 <= x < parent.len() && 0 <= y < parent.len() && (#[trigger] parent[x]) == x && (
        #[trigger] parent[y]) == y && class[x] == class[y] ==> x == y
}

/// The root of a node's tree; the way there is halved.
fn find(
    parent: &mut Vec<usize>,
    start: usize,
    Ghost(class): Ghost<Seq<int>>,
    Ghost(rank): Ghost<Seq<nat>>,
    Ghost(bound): Ghost<nat>,
) -> (r: usize)
    requires
        is_forest(old(parent)@, class, rank, bound),
        start < old(parent)@.len(),
    ensures
        is_forest(final(parent)@, class, rank, bound),
        final(parent)@.len() == old(parent)@.len(),
        r < final(parent)@.len(),
        final(parent)@[r as int] == r,
        class[r as int] == class[start as int],
        forall|x: int|
            0 <= x < old(parent)@.len() ==> (final(parent)@[x] == x <==> (#[trigger] old(
                parent,
            )@[x]) == x),
{
    let mut x: usize = start;
    let ghost before = parent@;
    while parent[x] != x
        invariant
            is_forest(parent@, class, rank, bound),
            parent@.len() == before.len(),
            x < parent@.len(),
            class[x as int] == class[start as int],
            forall|y: int| 0 <= y < before.len() ==> (parent@[y] == y <==> (#[trigger] before[y]) == y),
        decreases bound - rank[x as int],
    {
        let ghost now = parent@;
        let up: usize = parent[x];
        let over: usize = parent[up];
        assert(now[up as int] == over);
        parent.set(x, over);
        assert forall|y: int| 0 <= y < parent@.len() implies class[(#[trigger] parent@[y]) as int]
            == class[y] by {
            assert(class[now[y] as int] == class[y]);
        }
        assert forall|y: int| 0 <= y < parent@.len() && (#[trigger] parent@[y]) != y implies rank[y]
            < rank[parent@[y] as int] by {
            assert(now[y] != y);
            if y == x {
                if over != up {
                    assert(rank[up as int] < rank[over as int]);
                }
            }
        }
        assert forall|y: int, z: int|
            0 <= y < parent@.len() && 0 <= z < parent@.len() && (#[trigger] parent@[y]) == y && (
            #[trigger] parent@[z]) == z && class[y] == class[z] implies y == z by {
            if y == x {
                assert(rank[x as int] < rank[up as int]);
                assert(over == x);
                if over != up {
                    assert(rank[up as int] < rank[over as int]);
                }
            }
            if z == x {
                assert(rank[x as int] < rank[up as int]);
                if over != up {
                    assert(rank[up as int] < rank[over as int]);
                }
            }
            assert(now[y] == y);
            assert(now[z] == z);
        }
        assert forall|y: int| 0 <= y < before.len() implies (parent@[y] == y <==> (
        #[trigger] before[y]) == y) by {
            if y == x {
                assert(rank[x as int] < rank[up as int]);
                if over != up {
                    assert(rank[up as int] < rank[over as int]);
                }
            }
        }
        assert(rank[x as int] < rank[over as int]) by {
            assert(rank[x as int] < rank[up as int]);
            if over != up {
                assert(rank[up as int] < rank[over as int]);
            }
        }
        x = over;
    }
    x
}

/// Two nodes are of one class exactly when they are connected.
spec fn classes_are(class: Seq<int>, edges: Seq<EdgeLink>) -> bool {
    forall|x: int, y: int|
        0 <= x < class.len() && 0 <= y < class.len() ==> (#[trigger] class[x] == #[trigger] class[y]
            <==> connected(edges, x, y))
}

/// With no edges every node is alone.
proof fn lemma_no_edges(x: int, y: int)
    ensures
        connected(Seq::<EdgeLink>::empty(), x, y) <==> x == y,
{
    let none = Seq::<EdgeLink>::empty();
    connected_is_an_equivalence(none, x, x, x);
    if connected(none, x, y) {
        let p = choose|p: Seq<int>| #[trigger] is_path(none, p) && p[0] == x && p.last() == y;
        if p.len() > 1 {
            assert(adjacent(none, p[0], p[1]));
        }
    }
}

/// Every node of a path has the class of its first.
proof fn lemma_path_class(class: Seq<int>, edges: Seq<EdgeLink>, p: Seq<int>, i: int)
    requires
        is_path(edges, p),
        0 <= i < p.len(),
        0 <= p[0] < class.len(),
        forall|k: int|
            0 <= k < edges.len() ==> (#[trigger] edges[k]).a < class.len() && edges[k].b
                < class.len() && class[edges[k].a as int] == class[edges[k].b as int],
    ensures
        0 <= p[i] < class.len(),
        class[p[i]] == class[p[0]],
    decreases i,
{
    if i > 0 {
        lemma_path_class(class, edges, p, i - 1);
        assert(adjacent(edges, p[i - 1], p[i]));
        let k = choose|k: int|
            0 <= k < edges.len() && (((#[trigger] edges[k]).a == p[i - 1] && edges[k].b == p[i])
                || (edges[k].a == p[i] && edges[k].b == p[i - 1]));
        assert(edges[k].a < class.len());
    }
}

/// The classes after one more edge: the two it joins become one.
spec fn joined_classes(class: Seq<int>, from: int, into: int) -> Seq<int> {
    class.map_values(
        |c: int|
            if c == from {
                into
            } else {
                c
            },
    )
}

proof fn lemma_join(class: Seq<int>, edges: Seq<EdgeLink>, k: int)
    requires
        0 <= k < edges.len(),
        classes_are(class, edges.take(k)),
        forall|j: int|
            0 <= j < edges.len() ==> (#[trigger] edges[j]).a < class.len() && edges[j].b
                < class.len(),
    ensures
        classes_are(
            joined_classes(class, class[edges[k].a as int], class[edges[k].b as int]),
            edges.take(k + 1),
        ),
{
    let (a, b) = (edges[k].a as int, edges[k].b as int);
    assert(edges[k].a < class.len());
    let few = edges.take(k);
    let more = edges.take(k + 1);
    let new = joined_classes(class, class[a], class[b]);
    lemma_edge_connects(edges, k);
    assert forall|j: int| 0 <= j < more.len() implies (#[trigger] more[j]).a < new.len()
        && more[j].b < new.len() && new[more[j].a as int] == new[more[j].b as int] by {
        assert(more[j] == edges[j]);
        if j < k {
            assert(few[j] == edges[j]);
            let (x, y) = (edges[j].a as int, edges[j].b as int);
            let p = seq![x, y];
            assert(adjacent(few, p[0], p[1]));
            assert(is_path(few, p));
            assert(connected(few, x, y));
            assert(class[x] == class[y]);
        }
    }
    assert forall|x: int, y: int|
        0 <= x < new.len() && 0 <= y < new.len() implies (#[trigger] new[x] == #[trigger] new[y]
        <==> connected(more, x, y)) by {
        if connected(more, x, y) {
            let p = choose|p: Seq<int>| #[trigger] is_path(more, p) && p[0] == x && p.last() == y;
            lemma_path_class(new, more, p, p.len() - 1);
        }
        if new[x] == new[y] {
            if class[x] == class[y] {
                assert(connected(few, x, y));
                lemma_more_edges(edges, k, x, y);
            } else if class[x] == class[a] {
                assert(class[y] == class[b]);
                assert(connected(few, x, a));
                assert(connected(few, b, y));
                lemma_more_edges(edges, k, x, a);
                lemma_more_edges(edges, k, b, y);
                connected_is_an_equivalence(more, x, a, b);
                connected_is_an_equivalence(more, x, b, y);
            } else {
                assert(class[y] == class[a] && class[x] == class[b]);
                assert(connected(few, x, b));
                assert(connected(few, a, y));
                lemma_more_edges(edges, k, x, b);
                lemma_more_edges(edges, k, a, y);
                connected_is_an_equivalence(more, a, b, a);
                connected_is_an_equivalence(more, x, b, a);
                connected_is_an_equivalence(more, x, a, y);
            }
        }
    }
}

// ---------------------------------------------------------------------------
// Components
// ---------------------------------------------------------------------------

/// No earlier node has the label of node `i`.
#[verifier::opaque]
pub open spec fn is_new_label(labels: Seq<usize>, i: int) -> bool {
    forall|j: int| 0 <= j < i ==> (#[trigger] labels[j]) != labels[i]
}

/// How many labels occur among the first `n` nodes.
pub open spec fn labels_seen(labels: Seq<usize>, n: nat) -> nat
    decreases n,
{
    if n == 0 {
        0
    } else {
        labels_seen(labels, (n - 1) as nat) + if is_new_label(labels, n - 1) {
            1nat
        } else {
            0nat
        }
    }
}

/// Labels number the components without gaps, in the order in which they are
/// first seen.
pub open spec fn first_seen_order(labels: Seq<usize>) -> bool {
    forall|i: int|
        0 <= i < labels.len() ==> {
            &&& (#[trigger] labels[i]) < labels_seen(labels, (i + 1) as nat)
            &&& is_new_label(labels, i) ==> labels[i] == labels_seen(labels, i as nat)
        }
}

/// A forest whose trees are the components of a graph.
struct Forest {
    parent: Vec<usize>,
    class: Ghost<Seq<int>>,
    rank: Ghost<Seq<nat>>,
    bound: Ghost<nat>,
}

impl Forest {
    spec fn holds(self, edges: Seq<EdgeLink>) -> bool {
        &&& is_forest(self.parent@, self.class@, self.rank@, self.bound@)
        &&& classes_are(self.class@, edges)
    }
}

/// Joining the tree of `ra` to that of `rb` leaves a forest.
proof fn lemma_joined_forest(
    parent: Seq<usize>,
    class: Seq<int>,
    rank: Seq<nat>,
    bound: nat,
    ra: usize,
    rb: usize,
) -> (r: Seq<nat>)
    requires
        is_forest(parent, class, rank, bound),
        ra < parent.len(),
        rb < parent.len(),
        ra != rb,
        parent[ra as int] == ra,
        parent[rb as int] == rb,
    ensures
        is_forest(
            parent.update(ra as int, rb),
            joined_classes(class, class[ra as int], class[rb as int]),
            r,
            bound + 1,
        ),
{
    let top = if rank[rb as int] > rank[ra as int] {
        rank[rb as int]
    } else {
        rank[ra as int] + 1
    };
    let r = rank.update(rb as int, top);
    let now = parent.update(ra as int, rb);
    let new = joined_classes(class, class[ra as int], class[rb as int]);
    assert forall|x: int| 0 <= x < now.len() implies new[(#[trigger] now[x]) as int] == new[x] by {
        assert(class[parent[x] as int] == class[x]);
    }
    assert forall|x: int| 0 <= x < now.len() && (#[trigger] now[x]) != x implies r[x]
        < r[now[x] as int] by {
        if x != ra {
            assert(parent[x] != x);
            assert(rank[x] < rank[parent[x] as int]);
        }
    }
    assert forall|x: int| 0 <= x < now.len() implies (#[trigger] r[x]) <= bound + 1 by {
        assert(rank[x] <= bound);
        assert(rank[ra as int] <= bound);
    }
    assert forall|x: int, y: int|
        0 <= x < now.len() && 0 <= y < now.len() && (#[trigger] now[x]) == x && (#[trigger] now[y])
            == y && new[x] == new[y] implies x == y by {
        assert(x != ra && y != ra);
        assert(parent[x] == x && parent[y] == y);
        if class[x] == class[ra as int] {
            assert(parent[ra as int] == ra);
        }
        if class[y] == class[ra as int] {
            assert(parent[ra as int] == ra);
        }
    }
    r
}

/// The forest of a graph.
fn forest(n: usize, edges: &[EdgeLink]) -> (f: Forest)
    requires
        forall|k: int| 0 <= k < edges@.len() ==> (#[trigger] edges@[k]).a < n && edges@[k].b < n,
    ensures
        f.parent@.len() == n,
        f.holds(edges@),
{
    let mut parent: Vec<usize> = Vec::new();
    let mut i: usize = 0;
    while i < n
        invariant
            i <= n,
            parent@.len() == i,
            forall|x: int| 0 <= x < i ==> (#[trigger] parent@[x]) == x,
        decreases n - i,
    {
        parent.push(i);
        i += 1;
    }
    let ghost mut class: Seq<int> = Seq::new(n as nat, |x: int| x);
    let ghost mut rank: Seq<nat> = Seq::new(n as nat, |x: int| 0nat);
    let ghost mut bound: nat = 0;
    assert(classes_are(class, edges@.take(0))) by {
        assert(edges@.take(0) =~= Seq::<EdgeLink>::empty());
        assert forall|x: int, y: int|
            0 <= x < class.len() && 0 <= y < class.len() implies (#[trigger] class[x]
            == #[trigger] class[y] <==> connected(edges@.take(0), x, y)) by {
            lemma_no_edges(x, y);
        }
    }
    let mut k: usize = 0;
    while k < edges.len()
        invariant
            k <= edges@.len(),
            parent@.len() == n,
            is_forest(parent@, class, rank, bound),
            classes_are(class, edges@.take(k as int)),
            forall|k: int|
                0 <= k < edges@.len() ==> (#[trigger] edges@[k]).a < n && edges@[k].b < n,
        decreases edges@.len() - k,
    {
        let e = edges[k];
        assert(edges@[k as int].a < n && edges@[k as int].b < n);
        let ra: usize = find(&mut parent, e.a, Ghost(class), Ghost(rank), Ghost(bound));
        let rb: usize = find(&mut parent, e.b, Ghost(class), Ghost(rank), Ghost(bound));
        assert(parent@[ra as int] == ra);
        proof {
            lemma_join(class, edges@, k as int);
        }
        let ghost new = joined_classes(class, class[ra as int], class[rb as int]);
        if ra != rb {
            proof {
                rank = lemma_joined_forest(parent@, class, rank, bound, ra, rb);
                bound = bound + 1;
                class = new;
            }
            parent.set(ra, rb);
        } else {
            assert(new =~= class);
        }
        k += 1;
    }
    assert(edges@.take(edges@.len() as int) =~= edges@);
    Forest { parent, class: Ghost(class), rank: Ghost(rank), bound: Ghost(bound) }
}

/// What is known while nodes are labelled: node `j` lies in the tree of
/// `root[j]`, and a labelled root `x` was first met at node `met[x]`.
spec fn labelled(
    labels: Seq<usize>,
    label: Seq<Option<usize>>,
    count: int,
    class: Seq<int>,
    root: Seq<int>,
    met: Seq<int>,
) -> bool {
    &&& root.len() == labels.len() <= label.len()
    &&& met.len() == label.len() == class.len()
    &&& forall|j: int|
        0 <= j < root.len() ==> 0 <= (#[trigger] root[j]) < label.len() && class[root[j]] == class[j]
            && label[root[j]] == Some(labels[j])
    &&& forall|x: int|
        0 <= x < label.len() && (#[trigger] label[x]) is Some ==> label[x]->0 < count && 0 <= met[x]
            < root.len() && root[met[x]] == x
    &&& forall|x: int, y: int|
        0 <= x < label.len() && 0 <= y < label.len() && (#[trigger] label[x]) is Some && (
        #[trigger] label[y]) == label[x] ==> x == y
}

/// One more node keeps labels in first-seen order.
proof fn lemma_next_label(labels: Seq<usize>, last: usize)
    requires
        first_seen_order(labels),
        ({
            ||| last == labels_seen(labels, labels.len()) && forall|j: int|
                0 <= j < labels.len() ==> (#[trigger] labels[j]) != last
            ||| exists|j: int| 0 <= j < labels.len() && (#[trigger] labels[j]) == last
        }),
        last <= labels_seen(labels, labels.len()),
        forall|j: int|
            0 <= j < labels.len() && (#[trigger] labels[j]) == last ==> last < labels_seen(
                labels,
                labels.len(),
            ),
    ensures
        first_seen_order(labels.push(last)),
        labels_seen(labels.push(last), labels.len() + 1) == labels_seen(labels, labels.len())
            + if exists|j: int| 0 <= j < labels.len() && (#[trigger] labels[j]) == last {
            0nat
        } else {
            1nat
        },
{
    reveal(is_new_label);
    let n = labels.len();
    let more = labels.push(last);
    lemma_seen_prefix(labels, last, n);
    if exists|j: int| 0 <= j < labels.len() && (#[trigger] labels[j]) == last {
        let j = choose|j: int| 0 <= j < labels.len() && (#[trigger] labels[j]) == last;
        assert(more[j] == more[n as int]);
        assert(!is_new_label(more, n as int));
    } else {
        assert forall|j: int| 0 <= j < n implies (#[trigger] more[j]) != more[n as int] by {
            assert(labels[j] != last);
        }
        assert(is_new_label(more, n as int));
    }
    assert forall|i: int| 0 <= i < more.len() implies {
        &&& (#[trigger] more[i]) < labels_seen(more, (i + 1) as nat)
        &&& is_new_label(more, i) ==> more[i] == labels_seen(more, i as nat)
    } by {
        if i < n {
            lemma_seen_prefix(labels, last, (i + 1) as nat);
            lemma_seen_prefix(labels, last, i as nat);
            assert(labels[i] == more[i]);
            if is_new_label(more, i) {
                assert forall|q: int| 0 <= q < i implies (#[trigger] labels[q]) != labels[i] by {
                    assert(more[q] != more[i]);
                }
                assert(is_new_label(labels, i));
            }
        }
    }
}

/// The component of every node: two nodes carry one label exactly when a path
/// joins them.
pub fn connected_components(n: usize, edges: &[EdgeLink]) -> (labels: Vec<usize>)
    requires
        forall|k: int| 0 <= k < edges@.len() ==> (#[trigger] edges@[k]).a < n && edges@[k].b < n,
    ensures
        labels@.len() == n,
        forall|x: int, y: int|
            0 <= x < n && 0 <= y < n ==> (#[trigger] labels@[x] == #[trigger] labels@[y]
                <==> connected(edges@, x, y)),
        first_seen_order(labels@),
{
    let f = forest(n, edges);
    let ghost class = f.class@;
    let ghost rank = f.rank@;
    let ghost bound = f.bound@;
    let mut parent: Vec<usize> = f.parent;
    let mut label: Vec<Option<usize>> = Vec::new();
    let mut q: usize = 0;
    while q < n
        invariant
            q <= n,
            label@.len() == q,
            forall|x: int| 0 <= x < q ==> (#[trigger] label@[x]) is None,
        decreases n - q,
    {
        label.push(None);
        q += 1;
    }
    let mut labels: Vec<usize> = Vec::new();
    let mut count: usize = 0;
    let ghost roots = parent@;
    let ghost mut root: Seq<int> = Seq::empty();
    let ghost mut met: Seq<int> = Seq::new(n as nat, |x: int| 0int);
    let mut i: usize = 0;
    while i < n
        invariant
            i <= n,
            labels@.len() == i,
            label@.len() == n,
            parent@.len() == n,
            roots.len() == n,
            is_forest(parent@, class, rank, bound),
            forall|x: int| 0 <= x < n ==> (parent@[x] == x <==> (#[trigger] roots[x]) == x),
            forall|j: int| 0 <= j < root.len() ==> roots[#[trigger] root[j]] == root[j],
            count <= i,
            count == labels_seen(labels@, i as nat),
            labelled(labels@, label@, count as int, class, root, met),
            first_seen_order(labels@),
        decreases n - i,
    {
        let r: usize = find(&mut parent, i, Ghost(class), Ghost(rank), Ghost(bound));
        let ghost before = labels@;
        let ghost had = label@;
        assert(roots[r as int] == r) by {
            assert(parent@[r as int] == r);
        }
        match label[r] {
            Some(l) => {
                assert(had[r as int] == Some(l));
                assert(before[met[r as int]] == l);
                proof {
                    lemma_next_label(before, l);
                    root = root.push(r as int);
                }
                labels.push(l);
            },
            None => {
                proof {
                    assert forall|j: int| 0 <= j < i implies (#[trigger] before[j]) != count by {
                        assert(had[root[j]] == Some(before[j]));
                    }
                    lemma_next_label(before, count);
                    met = met.update(r as int, i as int);
                    assert forall|j: int| 0 <= j < i implies root[j] != r by {
                        assert(had[root[j]] == Some(before[j]));
                    }
                    root = root.push(r as int);
                }
                label.set(r, Some(count));
                labels.push(count);
                count += 1;
            },
        }
        assert(labels@ =~= before.push(labels@[i as int]));
        i += 1;
    }
    assert forall|x: int, y: int| 0 <= x < n && 0 <= y < n implies (#[trigger] labels@[x]
        == #[trigger] labels@[y] <==> connected(edges@, x, y)) by {
        assert(class[x] == class[y] <==> connected(edges@, x, y));
        let (a, b) = (root[x], root[y]);
        assert(label@[a] is Some && label@[b] is Some);
        assert(roots[a] == a && roots[b] == b);
        assert(parent@[a] == a && parent@[b] == b);
    }
    labels
}

/// Labels seen among the first nodes do not depend on later ones.
proof fn lemma_seen_prefix(labels: Seq<usize>, last: usize, n: nat)
    requires
        n <= labels.len(),
    ensures
        labels_seen(labels.push(last), n) == labels_seen(labels, n),
    decreases n,
{
    reveal(is_new_label);
    if n > 0 {
        lemma_seen_prefix(labels, last, (n - 1) as nat);
        let (a, b) = (labels.push(last), labels);
        assert(is_new_label(a, n - 1) == is_new_label(b, n - 1)) by {
            if is_new_label(a, n - 1) {
                assert forall|j: int| 0 <= j < n - 1 implies (#[trigger] b[j]) != b[n - 1] by {
                    assert(a[j] != a[n - 1]);
                }
            }
            if is_new_label(b, n - 1) {
                assert forall|j: int| 0 <= j < n - 1 implies (#[trigger] a[j]) != a[n - 1] by {
                    assert(b[j] != b[n - 1]);
                }
            }
        }
    }
}

// ---------------------------------------------------------------------------
// Groups of nodes
// ---------------------------------------------------------------------------

/// A label below the number of labels seen belongs to some node.
proof fn lemma_label_occurs(labels: Seq<usize>, n: nat, l: int) -> (i: int)
    requires
        first_seen_order(labels),
        n <= labels.len(),
        0 <= l < labels_seen(labels, n),
    ensures
        0 <= i < n,
        labels[i] == l,
    decreases n,
{
    if n > 0 && is_new_label(labels, n - 1) && labels[n - 1] == l {
        n - 1
    } else {
        assert(l < labels_seen(labels, (n - 1) as nat)) by {
            if is_new_label(labels, n - 1) {
                assert(labels[n - 1] == labels_seen(labels, (n - 1) as nat));
            }
        }
        lemma_label_occurs(labels, (n - 1) as nat, l)
    }
}

/// The first nodes that carry the label, in order.
spec fn members(labels: Seq<usize>, n: nat, label: int) -> Seq<usize>
    decreases n,
{
    if n == 0 {
        Seq::empty()
    } else {
        let rest = members(labels, (n - 1) as nat, label);
        if labels[n - 1] == label {
            rest.push((n - 1) as usize)
        } else {
            rest
        }
    }
}

spec fn increases(s: Seq<usize>) -> bool {
    forall|i: int, j: int| 0 <= i < j < s.len() ==> s[i] < s[j]
}

proof fn lemma_members(labels: Seq<usize>, n: nat, label: int)
    requires
        n <= labels.len() <= usize::MAX,
    ensures
        increases(members(labels, n, label)),
        forall|k: int|
            0 <= k < members(labels, n, label).len() ==> (#[trigger] members(labels, n, label)[k])
                < n && labels[members(labels, n, label)[k] as int] == label,
    decreases n,
{
    if n > 0 {
        lemma_members(labels, (n - 1) as nat, label);
    }
}

proof fn lemma_is_member(labels: Seq<usize>, n: nat, x: int) -> (k: int)
    requires
        n <= labels.len() <= usize::MAX,
        0 <= x < n,
    ensures
        0 <= k < members(labels, n, labels[x] as int).len(),
        members(labels, n, labels[x] as int)[k] == x,
    decreases n,
{
    if x == n - 1 {
        members(labels, n, labels[x] as int).len() - 1
    } else {
        lemma_is_member(labels, (n - 1) as nat, x)
    }
}

/// The members of one component.
struct Group {
    members: Vec<usize>,
}

impl Sortable for Group {
    /// Larger first; of two of one size, the one that starts earlier.
    closed spec fn before(self, other: Self) -> bool {
        ||| self.members@.len() > other.members@.len()
        ||| self.members@.len() == other.members@.len() && self.members@.len() > 0
            && self.members@[0] < other.members@[0]
    }

    proof fn is_strict_weak_order(a: Self, b: Self, c: Self) {
    }

    fn is_before(&self, other: &Self) -> (r: bool) {
        self.members.len() > other.members.len() || (self.members.len() == other.members.len()
            && self.members.len() > 0 && self.members[0] < other.members[0])
    }
}

/// How many labels there are.
fn count_labels(labels: &Vec<usize>) -> (count: usize)
    requires
        first_seen_order(labels@),
    ensures
        count == labels_seen(labels@, labels@.len()),
        count <= labels@.len(),
{
    let mut count: usize = 0;
    let mut i: usize = 0;
    while i < labels.len()
        invariant
            i <= labels@.len(),
            count <= i,
            count == labels_seen(labels@, i as nat),
            first_seen_order(labels@),
        decreases labels@.len() - i,
    {
        let l: usize = labels[i];
        assert(labels@[i as int] < labels_seen(labels@, (i + 1) as nat));
        if l >= count {
            count = l + 1;
        }
        i += 1;
    }
    count
}

/// The nodes of each label.
fn group(labels: &Vec<usize>) -> (groups: Vec<Group>)
    requires
        first_seen_order(labels@),
    ensures
        groups@.len() == labels_seen(labels@, labels@.len()),
        forall|c: int|
            0 <= c < groups@.len() ==> (#[trigger] groups@[c]).members@ == members(
                labels@,
                labels@.len(),
                c,
            ),
{
    let count: usize = count_labels(labels);
    let mut groups: Vec<Group> = Vec::new();
    let mut c: usize = 0;
    while c < count
        invariant
            c <= count,
            groups@.len() == c,
            forall|d: int| 0 <= d < c ==> (#[trigger] groups@[d]).members@ == members(labels@, 0, d),
        decreases count - c,
    {
        groups.push(Group { members: Vec::new() });
        c += 1;
    }
    let mut i: usize = 0;
    while i < labels.len()
        invariant
            i <= labels@.len(),
            groups@.len() == count,
            count == labels_seen(labels@, labels@.len()),
            first_seen_order(labels@),
            forall|d: int|
                0 <= d < count ==> (#[trigger] groups@[d]).members@ == members(labels@, i as nat, d),
        decreases labels@.len() - i,
    {
        let l: usize = labels[i];
        proof {
            lemma_seen_grows(labels@, (i + 1) as nat, labels@.len());
            assert(labels@[i as int] < labels_seen(labels@, (i + 1) as nat));
        }
        groups[l].members.push(i);
        i += 1;
    }
    groups
}

proof fn lemma_seen_grows(labels: Seq<usize>, m: nat, n: nat)
    requires
        m <= n,
    ensures
        labels_seen(labels, m) <= labels_seen(labels, n),
    decreases n,
{
    if m < n {
        lemma_seen_grows(labels, m, (n - 1) as nat);
    }
}

/// The components, largest first, and the place of each node's component.
struct Components {
    lists: Vec<Vec<usize>>,
    of_node: Vec<usize>,
}

/// The lists part the nodes as `of_node` says: each is in increasing order and
/// has a member, larger ones come first, and of two of one size the one that
/// starts with the smaller node.
pub open spec fn parts(lists: Seq<Vec<usize>>, of_node: Seq<usize>) -> bool {
    &&& forall|c: int| 0 <= c < lists.len() ==> (#[trigger] lists[c])@.len() > 0
    &&& forall|c: int, i: int, j: int|
        0 <= c < lists.len() && 0 <= i < j < lists[c]@.len() ==> (#[trigger] lists[c]@[i]) < (
        #[trigger] lists[c]@[j])
    &&& forall|c: int, k: int|
        0 <= c < lists.len() && 0 <= k < lists[c]@.len() ==> (#[trigger] lists[c]@[k])
            < of_node.len() && of_node[lists[c]@[k] as int] == c
    &&& forall|x: int|
        0 <= x < of_node.len() ==> (#[trigger] of_node[x]) < lists.len()
            && lists[of_node[x] as int]@.contains(x as usize)
    &&& forall|c: int, d: int|
        0 <= c < d < lists.len() ==> ((#[trigger] lists[c])@.len() > (#[trigger] lists[d])@.len()
            || (lists[c]@.len() == lists[d]@.len() && lists[c]@[0] < lists[d]@[0]))
}

/// The components of labelled nodes.
fn components(labels: &Vec<usize>) -> (r: Components)
    requires
        first_seen_order(labels@),
    ensures
        r.of_node@.len() == labels@.len(),
        parts(r.lists@, r.of_node@),
        forall|x: int, y: int|
            0 <= x < labels@.len() && 0 <= y < labels@.len() ==> (#[trigger] r.of_node@[x]
                == #[trigger] r.of_node@[y] <==> labels@[x] == labels@[y]),
{
    let total: usize = labels.len();
    let groups = group(labels);
    let ghost unsorted = groups@;
    let mut groups = sort(groups);
    let ghost sorted_groups = groups@;
    proof {
        lemma_sorted_groups(labels@, unsorted);
    }
    let mut of_node: Vec<usize> = Vec::new();
    while of_node.len() < total
        invariant
            of_node@.len() <= total,
        decreases total - of_node@.len(),
    {
        of_node.push(0);
    }
    let mut lists: Vec<Vec<usize>> = Vec::new();
    let mut c: usize = 0;
    let count: usize = groups.len();
    while c < count
        invariant
            c <= count,
            count == groups@.len(),
            groups@ == sorted_groups,
            lists@.len() == c,
            total == labels@.len(),
            of_node@.len() == total,
            sorted_groups_hold(labels@, sorted_groups),
            forall|d: int|
                0 <= d < c ==> (#[trigger] lists@[d])@ == sorted_groups[d].members@,
            forall|d: int, k: int|
                0 <= d < c && 0 <= k < sorted_groups[d].members@.len()
                    ==> of_node@[(#[trigger] sorted_groups[d].members@[k]) as int] == d,
        decreases count - c,
    {
        let mut list: Vec<usize> = Vec::new();
        let mut k: usize = 0;
        while k < groups[c].members.len()
            invariant
                c < count,
                count == groups@.len(),
                groups@ == sorted_groups,
                k <= groups@[c as int].members@.len(),
                total == labels@.len(),
                of_node@.len() == total,
                sorted_groups_hold(labels@, sorted_groups),
                list@ == sorted_groups[c as int].members@.take(k as int),
                forall|d: int, k: int|
                    0 <= d < c && 0 <= k < sorted_groups[d].members@.len()
                        ==> of_node@[(#[trigger] sorted_groups[d].members@[k]) as int] == d,
                forall|j: int|
                    0 <= j < k ==> of_node@[(#[trigger] sorted_groups[c as int].members@[j]) as int]
                        == c,
            decreases groups@[c as int].members@.len() - k,
        {
            let n: usize = groups[c].members[k];
            assert(sorted_groups[c as int].members@[k as int] == n);
            assert forall|d: int, j: int|
                0 <= d < c && 0 <= j < sorted_groups[d].members@.len() implies (
            #[trigger] sorted_groups[d].members@[j]) != n by {
                assert(labels@[sorted_groups[d].members@[j] as int] != labels@[n as int]);
            }
            list.push(n);
            of_node.set(n, c);
            assert(list@ =~= sorted_groups[c as int].members@.take(k + 1));
            k += 1;
        }
        assert(list@ =~= sorted_groups[c as int].members@);
        lists.push(list);
        c += 1;
    }
    proof {
        assert forall|x: int| 0 <= x < of_node@.len() implies (#[trigger] of_node@[x])
            < lists@.len() && lists@[of_node@[x] as int]@.contains(x as usize) && labels@[x]
            == labels@[lists@[of_node@[x] as int]@[0] as int] by {
            let (d, k) = lemma_node_is_sorted(labels@, unsorted, x);
            assert(sorted_groups[d].members@[k] == x);
            assert(lists@[d]@ == sorted_groups[d].members@);
            assert(lists@[d]@[k] == x);
            assert(labels@[sorted_groups[d].members@[0] as int]
                == labels@[sorted_groups[d].members@[k] as int]);
        }
        assert forall|x: int, y: int|
            0 <= x < labels@.len() && 0 <= y < labels@.len() implies (#[trigger] of_node@[x]
            == #[trigger] of_node@[y] <==> labels@[x] == labels@[y]) by {
            let (d, k) = lemma_node_is_sorted(labels@, unsorted, x);
            let (e, l) = lemma_node_is_sorted(labels@, unsorted, y);
            assert(sorted_groups[d].members@[k] == x);
            assert(sorted_groups[e].members@[l] == y);
            if d == e {
                assert(labels@[sorted_groups[d].members@[k] as int]
                    == labels@[sorted_groups[d].members@[l] as int]);
            } else if d < e {
                assert(labels@[sorted_groups[d].members@[k] as int]
                    != labels@[sorted_groups[e].members@[l] as int]);
            } else {
                assert(labels@[sorted_groups[e].members@[l] as int]
                    != labels@[sorted_groups[d].members@[k] as int]);
            }
        }
        assert forall|c: int, d: int| 0 <= c < d < lists@.len() implies ((
        #[trigger] lists@[c])@.len() > (#[trigger] lists@[d])@.len() || (lists@[c]@.len()
            == lists@[d]@.len() && lists@[c]@[0] < lists@[d]@[0])) by {
            assert(sorted_groups[c].before(sorted_groups[d]));
        }
    }
    Components { lists, of_node }
}

/// What holds of the sorted groups.
spec fn sorted_groups_hold(labels: Seq<usize>, groups: Seq<Group>) -> bool {
    &&& labels.len() <= usize::MAX
    &&& forall|c: int|
        0 <= c < groups.len() ==> (#[trigger] groups[c]).members@.len() > 0 && increases(
            groups[c].members@,
        )
    &&& forall|c: int, k: int|
        0 <= c < groups.len() && 0 <= k < groups[c].members@.len() ==> (
        #[trigger] groups[c].members@[k]) < labels.len()
    &&& forall|c: int, k: int, l: int|
        0 <= c < groups.len() && 0 <= k < groups[c].members@.len() && 0 <= l
            < groups[c].members@.len() ==> labels[(#[trigger] groups[c].members@[k]) as int]
            == labels[(#[trigger] groups[c].members@[l]) as int]
    &&& forall|c: int, d: int, k: int, l: int|
        0 <= c < d < groups.len() && 0 <= k < groups[c].members@.len() && 0 <= l
            < groups[d].members@.len() ==> labels[(#[trigger] groups[c].members@[k]) as int]
            != labels[(#[trigger] groups[d].members@[l]) as int]
    &&& forall|c: int, d: int|
        0 <= c < d < groups.len() ==> (#[trigger] groups[c]).before(#[trigger] groups[d])
}

spec fn are_groups(labels: Seq<usize>, groups: Seq<Group>) -> bool {
    &&& labels.len() <= usize::MAX
    &&& first_seen_order(labels)
    &&& groups.len() == labels_seen(labels, labels.len())
    &&& forall|c: int|
        0 <= c < groups.len() ==> (#[trigger] groups[c]).members@ == members(
            labels,
            labels.len(),
            c,
        )
}

/// Every sorted group is the group of some label.
proof fn lemma_group_of(labels: Seq<usize>, groups: Seq<Group>, c: int) -> (l: int)
    requires
        are_groups(labels, groups),
        0 <= c < order::sorted(groups).len(),
    ensures
        0 <= l < groups.len(),
        order::sorted(groups)[c] == groups[l],
        groups[l].members@ == members(labels, labels.len(), l),
        groups[l].members@.len() > 0,
{
    broadcast use vstd::seq_lib::group_to_multiset_ensures;

    let s = order::sorted(groups);
    order::sorted_is_an_ordered_permutation(groups);
    assert(s.contains(s[c]));
    assert(s.to_multiset().count(s[c]) > 0);
    assert(groups.to_multiset().count(s[c]) > 0);
    let l = choose|l: int| 0 <= l < groups.len() && groups[l] == s[c];
    let i = lemma_label_occurs(labels, labels.len(), l);
    let k = lemma_is_member(labels, labels.len(), i);
    l
}

proof fn lemma_sorted_groups(labels: Seq<usize>, groups: Seq<Group>)
    requires
        are_groups(labels, groups),
    ensures
        sorted_groups_hold(labels, order::sorted(groups)),
{
    let s = order::sorted(groups);
    order::sorted_is_an_ordered_permutation(groups);
    assert(s.no_duplicates()) by {
        assert forall|i: int, j: int|
            0 <= i < groups.len() && 0 <= j < groups.len() && i != j implies groups[i]
            != groups[j] by {
            let x = lemma_label_occurs(labels, labels.len(), i);
            let k = lemma_is_member(labels, labels.len(), x);
            lemma_members(labels, labels.len(), i);
            lemma_members(labels, labels.len(), j);
            assert(groups[i].members@[k] == x);
            if groups[i] == groups[j] {
                assert(groups[j].members@[k] == x);
            }
        }
        groups.lemma_multiset_has_no_duplicates();
        s.lemma_multiset_has_no_duplicates_conv();
    }
    assert forall|c: int| 0 <= c < s.len() implies (#[trigger] s[c]).members@.len() > 0
        && increases(s[c].members@) by {
        let l = lemma_group_of(labels, groups, c);
        lemma_members(labels, labels.len(), l);
    }
    assert forall|c: int, k: int| 0 <= c < s.len() && 0 <= k < s[c].members@.len() implies (
    #[trigger] s[c].members@[k]) < labels.len() by {
        let l = lemma_group_of(labels, groups, c);
        lemma_members(labels, labels.len(), l);
    }
    assert forall|c: int, k: int, l: int|
        0 <= c < s.len() && 0 <= k < s[c].members@.len() && 0 <= l
            < s[c].members@.len() implies labels[(#[trigger] s[c].members@[k]) as int] == labels[(
    #[trigger] s[c].members@[l]) as int] by {
        let m = lemma_group_of(labels, groups, c);
        lemma_members(labels, labels.len(), m);
    }
    assert forall|c: int, d: int, k: int, l: int|
        0 <= c < d < s.len() && 0 <= k < s[c].members@.len() && 0 <= l
            < s[d].members@.len() implies labels[(#[trigger] s[c].members@[k]) as int] != labels[(
    #[trigger] s[d].members@[l]) as int] by {
        let a = lemma_group_of(labels, groups, c);
        let b = lemma_group_of(labels, groups, d);
        lemma_members(labels, labels.len(), a);
        lemma_members(labels, labels.len(), b);
        assert(s[c] != s[d]);
        assert(a != b);
    }
    assert forall|c: int, d: int| 0 <= c < d < s.len() implies (#[trigger] s[c]).before(
        #[trigger] s[d],
    ) by {
        assert(!order::natural::<Group>()(s[d], s[c]));
        assert(!s[d].before(s[c]));
        assert(labels[s[c].members@[0] as int] != labels[s[d].members@[0] as int]);
    }
}

/// Every node stands in some sorted group.
proof fn lemma_node_is_sorted(labels: Seq<usize>, groups: Seq<Group>, x: int) -> (r: (int, int))
    requires
        are_groups(labels, groups),
        0 <= x < labels.len(),
    ensures
        0 <= r.0 < order::sorted(groups).len(),
        0 <= r.1 < order::sorted(groups)[r.0].members@.len(),
        order::sorted(groups)[r.0].members@[r.1] == x,
{
    broadcast use vstd::seq_lib::group_to_multiset_ensures;

    let s = order::sorted(groups);
    order::sorted_is_an_ordered_permutation(groups);
    assert(labels[x] < labels_seen(labels, (x + 1) as nat));
    lemma_seen_grows(labels, (x + 1) as nat, labels.len());
    let k = lemma_is_member(labels, labels.len(), x);
    let g = groups[labels[x] as int];
    assert(groups.contains(g));
    assert(groups.to_multiset().count(g) > 0);
    assert(s.to_multiset().count(g) > 0);
    let d = choose|d: int| 0 <= d < s.len() && s[d] == g;
    (d, k)
}

// ---------------------------------------------------------------------------
// The match graph
// ---------------------------------------------------------------------------

/// An image, as a node of the graph.
pub struct Node {
    pub image_id: u32,
    pub name: String,
    /// Index into `MatchGraph::components`.
    pub component: usize,
    /// Whether this image made it into the reconstruction.
    pub registered: bool,
    pub degree: usize,
}

/// A verified pair of images and its number of inlier matches.
#[derive(Debug, Clone, Copy, PartialEq, Eq, Structural)]
pub struct VerifiedPair {
    pub image1: u32,
    pub image2: u32,
    pub inliers: usize,
}

/// The images and their verified pairs.
pub struct MatchGraph {
    pub nodes: Vec<Node>,
    pub edges: Vec<EdgeLink>,
    /// Node indices per connected component, largest first.
    pub components: Vec<Vec<usize>>,
    pub max_inliers: usize,
}

/// The edges of the first `n` pairs: those of which both images are known.
pub open spec fn links(images: Seq<ImageRow>, pairs: Seq<VerifiedPair>, n: nat) -> Seq<EdgeLink>
    decreases n,
{
    if n == 0 {
        Seq::empty()
    } else {
        let rest = links(images, pairs, (n - 1) as nat);
        let pair = pairs[n - 1];
        match (
            mapinput::place_of(images, pair.image1, images.len()),
            mapinput::place_of(images, pair.image2, images.len()),
        ) {
            (Some(a), Some(b)) => rest.push(
                EdgeLink { a: a as usize, b: b as usize, inliers: pair.inliers },
            ),
            _ => rest,
        }
    }
}

/// How many edge ends lie at a node.
pub open spec fn degree_of(edges: Seq<EdgeLink>, x: int) -> nat
    decreases edges.len(),
{
    if edges.len() == 0 {
        0
    } else {
        let last = edges.last();
        degree_of(edges.drop_last(), x) + (if last.a == x {
            1nat
        } else {
            0nat
        }) + (if last.b == x {
            1nat
        } else {
            0nat
        })
    }
}

/// The largest inlier count, and at least one.
pub open spec fn most_inliers(edges: Seq<EdgeLink>) -> usize
    decreases edges.len(),
{
    if edges.len() == 0 {
        1
    } else {
        let rest = most_inliers(edges.drop_last());
        if edges.last().inliers > rest {
            edges.last().inliers
        } else {
            rest
        }
    }
}

impl MatchGraph {
    /// The graph of the images and pairs; `registered` holds the ids of the
    /// images in the reconstruction.
    pub open spec fn is_of(
        self,
        images: Seq<ImageRow>,
        pairs: Seq<VerifiedPair>,
        registered: Set<u32>,
    ) -> bool {
        &&& self.edges@ == links(images, pairs, pairs.len())
        &&& self.nodes@.len() == images.len()
        &&& forall|i: int|
            0 <= i < images.len() ==> {
                let node = #[trigger] self.nodes@[i];
                &&& node.image_id == images[i].id
                &&& node.name@ == images[i].name@
                &&& node.registered == registered.contains(images[i].id)
                &&& node.degree == degree_of(self.edges@, i)
            }
        &&& parts(self.components@, self.component_of())
        &&& forall|x: int, y: int|
            0 <= x < images.len() && 0 <= y < images.len() ==> ((
            #[trigger] self.nodes@[x]).component == (#[trigger] self.nodes@[y]).component
                <==> connected(self.edges@, x, y))
        &&& self.max_inliers == most_inliers(self.edges@)
    }

    /// The component of each node.
    pub open spec fn component_of(self) -> Seq<usize> {
        self.nodes@.map_values(|n: Node| n.component)
    }

    /// Builds the graph from the image rows and the verified pairs, so it is
    /// available before any reconstruction: which is when a disconnected graph
    /// is worth knowing about.
    pub fn load(
        images: &Vec<ImageRow>,
        pairs: &Vec<VerifiedPair>,
        registered: &BTreeSet<u32>,
    ) -> (r: Self)
        requires
            2 * pairs@.len() <= usize::MAX,
        ensures
            r.is_of(images@, pairs@, registered@),
    {
        broadcast use vstd::std_specs::btree::group_btree_axioms;

        let total: usize = images.len();
        let mut edges: Vec<EdgeLink> = Vec::new();
        let mut degree: Vec<usize> = Vec::new();
        let mut max_inliers: usize = 1;
        while degree.len() < total
            invariant
                degree@.len() <= total,
                forall|x: int| 0 <= x < degree@.len() ==> (#[trigger] degree@[x]) == 0,
            decreases total - degree@.len(),
        {
            degree.push(0);
        }
        let mut n: usize = 0;
        while n < pairs.len()
            invariant
                n <= pairs@.len(),
                2 * pairs@.len() <= usize::MAX,
                total == images@.len(),
                degree@.len() == total,
                edges@ == links(images@, pairs@, n as nat),
                edges@.len() <= n,
                forall|k: int|
                    0 <= k < edges@.len() ==> (#[trigger] edges@[k]).a < total && edges@[k].b
                        < total,
                forall|x: int|
                    0 <= x < total ==> (#[trigger] degree@[x]) == degree_of(edges@, x) && degree@[x]
                        <= 2 * n,
                max_inliers == most_inliers(edges@),
            decreases pairs@.len() - n,
        {
            let pair = pairs[n];
            let first = find_image(images, pair.image1);
            let second = find_image(images, pair.image2);
            match (first, second) {
                (Some(a), Some(b)) => {
                    let ghost before = edges@;
                    let e = EdgeLink { a, b, inliers: pair.inliers };
                    assert(degree@[a as int] <= 2 * n);
                    degree.set(a, degree[a] + 1);
                    assert(degree@[b as int] <= 2 * n + 1);
                    degree.set(b, degree[b] + 1);
                    edges.push(e);
                    assert(edges@.drop_last() =~= before);
                    if pair.inliers > max_inliers {
                        max_inliers = pair.inliers;
                    }
                },
                _ => {},
            }
            n += 1;
        }
        let labels = connected_components(total, edges.as_slice());
        let parted = components(&labels);
        let mut nodes: Vec<Node> = Vec::new();
        let mut i: usize = 0;
        while i < total
            invariant
                i <= total,
                total == images@.len(),
                nodes@.len() == i,
                degree@.len() == total,
                parted.of_node@.len() == total,
                forall|x: int| 0 <= x < total ==> (#[trigger] degree@[x]) == degree_of(edges@, x),
                forall|x: int|
                    0 <= x < i ==> {
                        let node = #[trigger] nodes@[x];
                        &&& node.image_id == images@[x].id
                        &&& node.name@ == images@[x].name@
                        &&& node.registered == registered@.contains(images@[x].id)
                        &&& node.degree == degree_of(edges@, x)
                        &&& node.component == parted.of_node@[x]
                    },
            decreases total - i,
        {
            let id: u32 = images[i].id;
            nodes.push(
                Node {
                    image_id: id,
                    name: images[i].name.clone(),
                    component: parted.of_node[i],
                    registered: registered.contains(&id),
                    degree: degree[i],
                },
            );
            i += 1;
        }
        let r = MatchGraph { nodes, edges, components: parted.lists, max_inliers };
        assert(r.component_of() =~= parted.of_node@);
        assert forall|x: int, y: int| 0 <= x < total && 0 <= y < total implies ((
        #[trigger] r.nodes@[x]).component == (#[trigger] r.nodes@[y]).component <==> connected(
            r.edges@,
            x,
            y,
        )) by {
            assert(parted.of_node@[x] == parted.of_node@[y] <==> labels@[x] == labels@[y]);
        }
        r
    }

    /// Images with no verified pair at all: the extreme case of a
    /// disconnected graph, and the one most worth naming explicitly.
    pub fn isolated(&self) -> (out: Vec<usize>)
        ensures
            forall|i: int, j: int| 0 <= i < j < out@.len() ==> out@[i] < out@[j],
            forall|k: int|
                0 <= k < out@.len() ==> (#[trigger] out@[k]) < self.nodes@.len()
                    && self.nodes@[out@[k] as int].degree == 0,
            forall|x: int|
                0 <= x < self.nodes@.len() && (#[trigger] self.nodes@[x]).degree == 0
                    ==> out@.contains(x as usize),
    {
        let mut out: Vec<usize> = Vec::new();
        let mut i: usize = 0;
        while i < self.nodes.len()
            invariant
                i <= self.nodes@.len(),
                forall|k: int, j: int| 0 <= k < j < out@.len() ==> out@[k] < out@[j],
                forall|k: int|
                    0 <= k < out@.len() ==> (#[trigger] out@[k]) < i
                        && self.nodes@[out@[k] as int].degree == 0,
                forall|x: int|
                    0 <= x < i && (#[trigger] self.nodes@[x]).degree == 0 ==> out@.contains(
                        x as usize,
                    ),
            decreases self.nodes@.len() - i,
        {
            if self.nodes[i].degree == 0 {
                let ghost before = out@;
                out.push(i);
                assert forall|x: int|
                    0 <= x < i + 1 && (#[trigger] self.nodes@[x]).degree
                        == 0 implies out@.contains(x as usize) by {
                    if x < i {
                        let k = choose|k: int| 0 <= k < before.len() && before[k] == x as usize;
                        assert(out@[k] == x as usize);
                    } else {
                        assert(out@[out@.len() - 1] == x as usize);
                    }
                }
            }
            i += 1;
        }
        out
    }
}

/// An isolated node is alone in its component.
pub proof fn isolated_images_are_alone(edges: Seq<EdgeLink>, x: int, y: int)
    requires
        degree_of(edges, x) == 0,
        connected(edges, x, y),
    ensures
        x == y,
{
    let p = choose|p: Seq<int>| #[trigger] is_path(edges, p) && p[0] == x && p.last() == y;
    if p.len() > 1 {
        assert(adjacent(edges, p[0], p[1]));
        let k = choose|k: int|
            0 <= k < edges.len() && (((#[trigger] edges[k]).a == p[0] && edges[k].b == p[1]) || (
            edges[k].a == p[1] && edges[k].b == p[0]));
        lemma_end_counts(edges, k);
    }
}

proof fn lemma_end_counts(edges: Seq<EdgeLink>, k: int)
    requires
        0 <= k < edges.len(),
    ensures
        degree_of(edges, edges[k].a as int) > 0,
        degree_of(edges, edges[k].b as int) > 0,
    decreases edges.len(),
{
    if k < edges.len() - 1 {
        assert(edges.drop_last()[k] == edges[k]);
        lemma_end_counts(edges.drop_last(), k);
    }
}

/// An edge joins the two images of a pair and carries its inliers.
pub open spec fn is_edge_of(e: EdgeLink, images: Seq<ImageRow>, pair: VerifiedPair) -> bool {
    &&& e.a < images.len() && images[e.a as int].id == pair.image1
    &&& e.b < images.len() && images[e.b as int].id == pair.image2
    &&& e.inliers == pair.inliers
}

/// Both images of a pair are known.
pub open spec fn is_between(images: Seq<ImageRow>) -> spec_fn(VerifiedPair) -> bool {
    |p: VerifiedPair|
        (exists|i: int| 0 <= i < images.len() && (#[trigger] images[i]).id == p.image1) && (exists|
            i: int,
        |
            0 <= i < images.len() && (#[trigger] images[i]).id == p.image2)
}

/// Each pair of known images gives one edge, between those images and with its
/// inliers; no other edge is there.
pub proof fn edges_are_the_pairs_of_known_images(
    images: Seq<ImageRow>,
    pairs: Seq<VerifiedPair>,
    n: nat,
)
    requires
        n <= pairs.len(),
        images.len() <= usize::MAX,
    ensures
        links(images, pairs, n).len() == sets::how_many(pairs, is_between(images), n),
        forall|k: int|
            0 <= k < n && is_between(images)(#[trigger] pairs[k]) ==> is_edge_of(
                links(images, pairs, n)[sets::how_many(pairs, is_between(images), k as nat) as int],
                images,
                pairs[k],
            ),
        forall|k: int|
            0 <= k < n ==> sets::how_many(pairs, is_between(images), k as nat) + (
            if is_between(images)(#[trigger] pairs[k]) {
                1nat
            } else {
                0nat
            }) <= links(images, pairs, n).len(),
    decreases n,
{
    sets::lemma_none_of_none(pairs, is_between(images));
    if n > 0 {
        edges_are_the_pairs_of_known_images(images, pairs, (n - 1) as nat);
        sets::lemma_one_more(pairs, is_between(images), (n - 1) as nat);
        let pair = pairs[n - 1];
        mapinput::lemma_place_of(images, pair.image1, images.len());
        mapinput::lemma_place_of(images, pair.image2, images.len());
        let rest = links(images, pairs, (n - 1) as nat);
        let all = links(images, pairs, n);
        assert(rest.len() <= all.len());
        assert forall|k: int| 0 <= k < n && is_between(images)(#[trigger] pairs[k]) implies is_edge_of(
            all[sets::how_many(pairs, is_between(images), k as nat) as int],
            images,
            pairs[k],
        ) by {
            if k < n - 1 {
                let at = sets::how_many(pairs, is_between(images), k as nat) as int;
                assert(at < rest.len());
                assert(all[at] == rest[at]);
            }
        }
    }
}

/// Starting, or ending, at a node.
pub open spec fn starts_at(x: int) -> spec_fn(EdgeLink) -> bool {
    |e: EdgeLink| e.a == x
}

pub open spec fn ends_at(x: int) -> spec_fn(EdgeLink) -> bool {
    |e: EdgeLink| e.b == x
}

proof fn lemma_degree(edges: Seq<EdgeLink>, x: int, n: nat)
    requires
        n <= edges.len(),
    ensures
        degree_of(edges.take(n as int), x) == sets::how_many(edges, starts_at(x), n)
            + sets::how_many(edges, ends_at(x), n),
    decreases n,
{
    sets::lemma_none_of_none(edges, starts_at(x));
    sets::lemma_none_of_none(edges, ends_at(x));
    if n > 0 {
        lemma_degree(edges, x, (n - 1) as nat);
        sets::lemma_one_more(edges, starts_at(x), (n - 1) as nat);
        sets::lemma_one_more(edges, ends_at(x), (n - 1) as nat);
        assert(edges.take(n as int).drop_last() =~= edges.take(n - 1));
    }
}

/// The degree of a node counts the edges that start there and those that end
/// there.
pub proof fn degrees_count_the_edge_ends(edges: Seq<EdgeLink>, x: int)
    ensures
        degree_of(edges, x) == sets::how_many(edges, starts_at(x), edges.len()) + sets::how_many(
            edges,
            ends_at(x),
            edges.len(),
        ),
{
    lemma_degree(edges, x, edges.len());
    assert(edges.take(edges.len() as int) =~= edges);
}

/// No edge has more inliers than the most, and some edge has as many, unless
/// none has even one.
pub proof fn the_most_inliers_are_on_an_edge(edges: Seq<EdgeLink>)
    ensures
        most_inliers(edges) >= 1,
        forall|k: int| 0 <= k < edges.len() ==> (#[trigger] edges[k]).inliers <= most_inliers(edges),
        most_inliers(edges) == 1 || exists|k: int|
            0 <= k < edges.len() && (#[trigger] edges[k]).inliers == most_inliers(edges),
    decreases edges.len(),
{
    if edges.len() > 0 {
        the_most_inliers_are_on_an_edge(edges.drop_last());
        assert forall|k: int| 0 <= k < edges.len() implies (#[trigger] edges[k]).inliers
            <= most_inliers(edges) by {
            if k < edges.len() - 1 {
                assert(edges.drop_last()[k] == edges[k]);
            }
        }
        let rest = most_inliers(edges.drop_last());
        if edges.last().inliers > rest {
            assert(edges[edges.len() - 1].inliers == most_inliers(edges));
        } else if rest != 1 {
            let k = choose|k: int|
                0 <= k < edges.drop_last().len() && (#[trigger] edges.drop_last()[k]).inliers
                    == rest;
            assert(edges[k].inliers == most_inliers(edges));
        }
    }
}

/// The first node is of component 0, and a component is numbered next to one
/// that was met before it.
pub proof fn components_are_numbered_as_they_are_met(labels: Seq<usize>, i: int)
    requires
        first_seen_order(labels),
        0 <= i < labels.len(),
    ensures
        labels[0] == 0,
        labels[i] == 0 || exists|j: int| 0 <= j < i && #[trigger] labels[j] == labels[i] - 1,
{
    assert(labels[0] == 0) by {
        assert(labels[0] < labels_seen(labels, 1));
        reveal_with_fuel(labels_seen, 2);
    }
    if labels[i] > 0 {
        lemma_label_met(labels, (i + 1) as nat, (labels[i] - 1) as nat);
        let j = choose|j: int| 0 <= j < i + 1 && #[trigger] labels[j] == labels[i] - 1;
        assert(j != i);
    }
}

proof fn lemma_label_met(labels: Seq<usize>, n: nat, label: nat)
    requires
        first_seen_order(labels),
        n <= labels.len(),
        label < labels_seen(labels, n),
    ensures
        exists|j: int| 0 <= j < n && #[trigger] labels[j] == label,
    decreases n,
{
    if label < labels_seen(labels, (n - 1) as nat) {
        lemma_label_met(labels, (n - 1) as nat, label);
        let j = choose|j: int| 0 <= j < n - 1 && #[trigger] labels[j] == label;
        assert(labels[j] == label);
    } else {
        assert(is_new_label(labels, n - 1));
        assert(labels[n - 1] == label);
    }
}

/// Every image is a node, at its own place: by its own id and name, registered
/// where the reconstruction has it.
pub proof fn nodes_are_the_images(
    g: MatchGraph,
    images: Seq<ImageRow>,
    pairs: Seq<VerifiedPair>,
    registered: Set<u32>,
    i: int,
)
    requires
        g.is_of(images, pairs, registered),
        0 <= i < images.len(),
    ensures
        g.nodes@.len() == images.len(),
        g.nodes@[i].image_id == images[i].id,
        g.nodes@[i].name@ == images[i].name@,
        g.nodes@[i].registered <==> registered.contains(images[i].id),
        g.nodes@[i].degree == degree_of(g.edges@, i),
        g.edges@ == links(images, pairs, pairs.len()),
{
    assert(g.nodes@[i].image_id == images[i].id);
}

/// A node is listed in its own component and in no other; the larger component
/// comes first, and of two as large the one with the first node.
pub proof fn components_list_their_nodes(
    lists: Seq<Vec<usize>>,
    of_node: Seq<usize>,
    x: int,
    c: int,
    d: int,
)
    requires
        parts(lists, of_node),
        0 <= x < of_node.len() <= usize::MAX,
        0 <= c < d < lists.len(),
    ensures
        lists[c]@.contains(x as usize) <==> of_node[x] == c,
        lists[c]@.len() >= lists[d]@.len(),
        lists[c]@.len() == lists[d]@.len() ==> lists[c]@[0] < lists[d]@[0],
        forall|i: int, j: int| 0 <= i < j < lists[c]@.len() ==> lists[c]@[i] < lists[c]@[j],
{
    if lists[c]@.contains(x as usize) {
        let k = choose|k: int| 0 <= k < lists[c]@.len() && lists[c]@[k] == x as usize;
        assert(of_node[lists[c]@[k] as int] == c);
    }
    if of_node[x] == c {
        assert(lists[of_node[x] as int]@.contains(x as usize));
    }
    assert forall|i: int, j: int| 0 <= i < j < lists[c]@.len() implies lists[c]@[i]
        < lists[c]@[j] by {
        assert(lists[c]@[i] < lists[c]@[j]);
    }
}

} // verus!
