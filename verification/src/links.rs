//! Turning the pairwise links of an older database into groups of related
//! entries: entries joined by a chain of links end up in one group.
//!
//! The links are merged in a union-find forest held in a `HashMap` from each
//! entry to its parent. A ghost rank, strictly growing from child to parent,
//! shows that every walk to a root ends.

use std::collections::HashMap;
use vstd::prelude::*;

verus! {

broadcast use vstd::std_specs::hash::group_hash_axioms;

/// Whether `parent` is a forest that `rank` orders: every parent is itself
/// in the map, and a parent's rank is above its child's, all ranks being at
/// most `bound`.
#[verifier::opaque]
pub open spec fn is_forest(parent: Map<i64, i64>, rank: Map<i64, nat>, bound: nat) -> bool {
    &&& parent.dom() == rank.dom()
    &&& forall|x: i64| #[trigger] parent.dom().contains(x) ==> parent.dom().contains(parent[x])
    &&& forall|x: i64| #[trigger] parent.dom().contains(x) ==> rank[x] <= bound
    &&& forall|x: i64|
        #[trigger] parent.dom().contains(x) && parent[x] != x ==> rank[x] < rank[parent[x]]
}

/// One step in a forest: the parent is in it, and ranks rise from child to
/// parent within the bound.
pub proof fn lemma_forest_step(parent: Map<i64, i64>, rank: Map<i64, nat>, bound: nat, x: i64)
    requires
        is_forest(parent, rank, bound),
        parent.dom().contains(x),
    ensures
        parent.dom().contains(parent[x]),
        rank.dom() == parent.dom(),
        rank[x] <= bound,
        rank[parent[x]] <= bound,
        parent[x] != x ==> rank[x] < rank[parent[x]],
{
    reveal(is_forest);
}

/// The root of the tree that holds `x`: follow parents until a node is its
/// own parent.
pub open spec fn find(parent: Map<i64, i64>, rank: Map<i64, nat>, bound: nat, x: i64) -> i64
    decreases bound - rank[x],
    when is_forest(parent, rank, bound) && parent.dom().contains(x)
{
    proof {
        lemma_forest_step(parent, rank, bound, x);
    }
    if parent[x] == x {
        x
    } else {
        find(parent, rank, bound, parent[x])
    }
}

/// The root is in the forest, is its own parent, and ranks no lower than
/// the node; strictly higher where the node is not a root.
pub proof fn lemma_find_is_root(parent: Map<i64, i64>, rank: Map<i64, nat>, bound: nat, x: i64)
    requires
        is_forest(parent, rank, bound),
        parent.dom().contains(x),
    ensures
        parent.dom().contains(find(parent, rank, bound, x)),
        parent[find(parent, rank, bound, x)] == find(parent, rank, bound, x),
        rank[x] <= rank[find(parent, rank, bound, x)],
        parent[x] != x ==> rank[x] < rank[find(parent, rank, bound, x)],
        parent[x] == x ==> find(parent, rank, bound, x) == x,
        parent[x] != x ==> find(parent, rank, bound, x) == find(parent, rank, bound, parent[x]),
    decreases bound - rank[x],
{
    lemma_forest_step(parent, rank, bound, x);
    if parent[x] != x {
        lemma_find_is_root(parent, rank, bound, parent[x]);
    }
}

/// Pointing a node at the root of its tree keeps a forest.
pub proof fn lemma_compress_forest(parent: Map<i64, i64>, rank: Map<i64, nat>, bound: nat, x: i64)
    requires
        is_forest(parent, rank, bound),
        parent.dom().contains(x),
    ensures
        is_forest(parent.insert(x, find(parent, rank, bound, x)), rank, bound),
{
    let r = find(parent, rank, bound, x);
    let p2 = parent.insert(x, r);
    lemma_find_is_root(parent, rank, bound, x);
    reveal(is_forest);
    assert(p2.dom() =~= parent.dom());
}

/// Pointing a node at the root of its tree keeps every root.
pub proof fn lemma_compress(parent: Map<i64, i64>, rank: Map<i64, nat>, bound: nat, x: i64, y: i64)
    requires
        is_forest(parent, rank, bound),
        parent.dom().contains(x),
        parent.dom().contains(y),
    ensures
        is_forest(parent.insert(x, find(parent, rank, bound, x)), rank, bound),
        find(parent.insert(x, find(parent, rank, bound, x)), rank, bound, y) == find(parent, rank, bound, y),
    decreases bound - rank[y],
{
    let r = find(parent, rank, bound, x);
    let p2 = parent.insert(x, r);
    lemma_compress_forest(parent, rank, bound, x);
    lemma_find_is_root(parent, rank, bound, x);
    lemma_find_is_root(parent, rank, bound, y);
    assert(p2.dom() =~= parent.dom());
    lemma_find_is_root(p2, rank, bound, y);
    if y == x {
        if r != x {
            assert(p2[r] == r);
            lemma_find_is_root(p2, rank, bound, r);
        }
    } else if parent[y] != y {
        lemma_forest_step(parent, rank, bound, y);
        lemma_compress(parent, rank, bound, x, parent[y]);
    }
}

/// The ranks after hanging root `a` under root `b`.
pub open spec fn union_rank(rank: Map<i64, nat>, a: i64, b: i64) -> Map<i64, nat> {
    rank.insert(b, if rank[b] > rank[a] { rank[b] } else { rank[a] + 1 })
}

/// Hanging root `a` under another root `b`, with `b`'s rank raised above
/// `a`'s where needed, keeps a forest.
pub proof fn lemma_union_forest(parent: Map<i64, i64>, rank: Map<i64, nat>, bound: nat, a: i64, b: i64)
    requires
        is_forest(parent, rank, bound),
        parent.dom().contains(a),
        parent.dom().contains(b),
        parent[a] == a,
        parent[b] == b,
        a != b,
    ensures
        is_forest(parent.insert(a, b), union_rank(rank, a, b), bound + 1),
{
    let p2 = parent.insert(a, b);
    let r2 = union_rank(rank, a, b);
    reveal(is_forest);
    assert(p2.dom() =~= r2.dom());
    assert forall|z: i64| #[trigger] p2.dom().contains(z) && p2[z] != z implies r2[z] < r2[p2[z]] by {
        if z != a {
            assert(parent[z] != z);
        }
    }
}

/// After hanging root `a` under root `b`, the nodes of `a`'s tree have root
/// `b` and the others keep theirs.
pub proof fn lemma_union(parent: Map<i64, i64>, rank: Map<i64, nat>, bound: nat, a: i64, b: i64, y: i64)
    requires
        is_forest(parent, rank, bound),
        parent.dom().contains(a),
        parent.dom().contains(b),
        parent.dom().contains(y),
        parent[a] == a,
        parent[b] == b,
        a != b,
    ensures
        is_forest(parent.insert(a, b), union_rank(rank, a, b), bound + 1),
        find(parent.insert(a, b), union_rank(rank, a, b), bound + 1, y) == if find(parent, rank, bound, y) == a {
            b
        } else {
            find(parent, rank, bound, y)
        },
    decreases bound - rank[y],
{
    let p2 = parent.insert(a, b);
    let r2 = union_rank(rank, a, b);
    lemma_union_forest(parent, rank, bound, a, b);
    lemma_find_is_root(parent, rank, bound, y);
    assert(p2.dom() =~= parent.dom());
    lemma_find_is_root(p2, r2, bound + 1, y);
    if y == a {
        lemma_find_is_root(p2, r2, bound + 1, b);
    } else if parent[y] != y {
        lemma_forest_step(parent, rank, bound, y);
        lemma_union(parent, rank, bound, a, b, parent[y]);
    }
}

/// A node not yet in the forest can enter it as a root of rank zero.
proof fn lemma_enter(parent: Map<i64, i64>, rank: Map<i64, nat>, bound: nat, node: i64)
    requires
        is_forest(parent, rank, bound),
    ensures
        parent.dom().contains(node) ==> is_forest(parent, rank, bound),
        !parent.dom().contains(node) ==> is_forest(parent.insert(node, node), rank.insert(node, 0), bound),
{
    if !parent.dom().contains(node) {
        reveal(is_forest);
        let start = parent.insert(node, node);
        let rank2 = rank.insert(node, 0);
        assert(start.dom() =~= rank2.dom());
        assert forall|x: i64| #[trigger] start.dom().contains(x) && start[x] != x implies rank2[x] < rank2[start[x]] by {
            if x != node {
                assert(parent.dom().contains(x));
            }
        }
        assert forall|x: i64| #[trigger] start.dom().contains(x) implies start.dom().contains(start[x]) && rank2[x] <= bound by {
            if x != node {
                assert(parent.dom().contains(x));
            }
        }
    }
}

/// Whether `y` lies on the walk from `x` to its root, both ends included.
pub open spec fn on_path(parent: Map<i64, i64>, rank: Map<i64, nat>, bound: nat, x: i64, y: i64) -> bool
    decreases bound - rank[x],
    when is_forest(parent, rank, bound) && parent.dom().contains(x)
{
    proof {
        lemma_forest_step(parent, rank, bound, x);
    }
    if x == y {
        true
    } else if parent[x] == x {
        false
    } else {
        on_path(parent, rank, bound, parent[x], y)
    }
}

/// What lies on a walk is in the forest and ranks no lower than the start;
/// the walk from a node ends at its root.
proof fn lemma_on_path(parent: Map<i64, i64>, rank: Map<i64, nat>, bound: nat, x: i64, y: i64)
    requires
        is_forest(parent, rank, bound),
        parent.dom().contains(x),
    ensures
        on_path(parent, rank, bound, x, y) ==> parent.dom().contains(y) && rank[x] <= rank[y],
        on_path(parent, rank, bound, x, find(parent, rank, bound, x)),
    decreases bound - rank[x],
{
    lemma_forest_step(parent, rank, bound, x);
    lemma_find_is_root(parent, rank, bound, x);
    if x != y && parent[x] != x {
        lemma_on_path(parent, rank, bound, parent[x], y);
    }
    if parent[x] != x {
        lemma_on_path(parent, rank, bound, parent[x], find(parent, rank, bound, x));
    }
}

/// A walk that passes `b` goes on along the walk from `b`.
proof fn lemma_on_path_trans(parent: Map<i64, i64>, rank: Map<i64, nat>, bound: nat, a: i64, b: i64, c: i64)
    requires
        is_forest(parent, rank, bound),
        parent.dom().contains(a),
        on_path(parent, rank, bound, a, b),
        on_path(parent, rank, bound, b, c),
    ensures
        on_path(parent, rank, bound, a, c),
    decreases bound - rank[a],
{
    lemma_forest_step(parent, rank, bound, a);
    if a != b {
        lemma_on_path_trans(parent, rank, bound, parent[a], b, c);
    }
}

/// Walks from `node` to the root of its tree and returns the root, pointing
/// every node on the way straight at it. A node not yet in the forest
/// enters it as a root of its own.
///
/// The forest is closed: every parent is itself an entry. The links are
/// merged for [`groups_from_links`] so that this always holds: each end of a link is
/// entered as its own root before it is looked up, and the only other write
/// points one root, an entry, at another.
pub fn root_of(
    parent: &mut HashMap<i64, i64>,
    node: i64,
    Ghost(rank): Ghost<Map<i64, nat>>,
    Ghost(bound): Ghost<nat>,
) -> (r: i64)
    requires
        is_forest(old(parent)@, rank, bound),
    ensures
        ({
            let start = if old(parent)@.dom().contains(node) {
                old(parent)@
            } else {
                old(parent)@.insert(node, node)
            };
            let rank2 = if old(parent)@.dom().contains(node) { rank } else { rank.insert(node, 0) };
            &&& final(parent)@.dom() == start.dom()
            &&& is_forest(start, rank2, bound)
            &&& is_forest(final(parent)@, rank2, bound)
            &&& r == find(start, rank2, bound, node)
            &&& forall|y: i64| #[trigger] start.dom().contains(y) ==> find(final(parent)@, rank2, bound, y)
                == find(start, rank2, bound, y)
            &&& forall|y: i64| #[trigger] start.dom().contains(y) ==> final(parent)@[y] == if on_path(
                start,
                rank2,
                bound,
                node,
                y,
            ) {
                r
            } else {
                start[y]
            }
        }),
        old(parent)@.dom().contains(node) ==> {
            &&& final(parent)@.dom() == old(parent)@.dom()
            &&& is_forest(final(parent)@, rank, bound)
            &&& r == find(old(parent)@, rank, bound, node)
            &&& forall|y: i64| #[trigger] old(parent)@.dom().contains(y) ==> find(final(parent)@, rank, bound, y)
                == find(old(parent)@, rank, bound, y)
        },
{
    let ghost rank2 = if parent@.dom().contains(node) { rank } else { rank.insert(node, 0) };
    if !parent.contains_key(&node) {
        parent.insert(node, node);
    }
    let ghost start = parent@;
    proof {
        lemma_enter(old(parent)@, rank, bound, node);
    }

    let mut current = node;
    loop
        invariant
            is_forest(start, rank2, bound),
            parent@ == start,
            start.dom().contains(current),
            find(start, rank2, bound, current) == find(start, rank2, bound, node),
        ensures
            start.dom().contains(current),
            start[current] == current,
            current == find(start, rank2, bound, node),
        decreases bound - rank2[current],
    {
        let next = *parent.get(&current).unwrap();
        proof {
            lemma_forest_step(start, rank2, bound, current);
            lemma_find_is_root(start, rank2, bound, current);
        }
        if next == current {
            break;
        }
        current = next;
    }
    proof {
        lemma_find_is_root(start, rank2, bound, current);
    }

    let mut walk = node;
    while walk != current
        invariant
            is_forest(start, rank2, bound),
            is_forest(parent@, rank2, bound),
            parent@.dom() == start.dom(),
            start.dom().contains(walk),
            current == find(start, rank2, bound, node),
            start[current] == current,
            find(start, rank2, bound, walk) == current,
            forall|y: i64| #[trigger] start.dom().contains(y) ==> find(parent@, rank2, bound, y)
                == find(start, rank2, bound, y),
            forall|y: i64| #[trigger] start.dom().contains(y) && rank2[y] >= rank2[walk] ==> parent@[y] == start[y],
            start.dom().contains(node),
            on_path(start, rank2, bound, node, walk),
            forall|y: i64| #[trigger] start.dom().contains(y) ==> parent@[y] == if on_path(start, rank2, bound, node, y)
                && !on_path(start, rank2, bound, walk, y) {
                current
            } else {
                start[y]
            },
        decreases bound - rank2[walk],
    {
        let next = *parent.get(&walk).unwrap();
        proof {
            let p = parent@;
            lemma_forest_step(start, rank2, bound, walk);
            assert(next == start[walk]);
            if start[walk] == walk {
                lemma_find_is_root(start, rank2, bound, walk);
            }
            lemma_find_is_root(start, rank2, bound, walk);
            lemma_find_is_root(p, rank2, bound, walk);
            assert(find(p, rank2, bound, walk) == current);
            assert forall|y: i64| #[trigger] start.dom().contains(y) implies find(p.insert(walk, current), rank2, bound, y)
                == find(start, rank2, bound, y) by {
                lemma_compress(p, rank2, bound, walk, y);
            }
            lemma_compress(p, rank2, bound, walk, walk);
            lemma_on_path(start, rank2, bound, next, walk);
            assert(on_path(start, rank2, bound, next, next));
            assert(on_path(start, rank2, bound, walk, next));
            lemma_on_path_trans(start, rank2, bound, node, walk, next);
            let p2 = p.insert(walk, current);
            assert forall|y: i64| #[trigger] start.dom().contains(y) implies p2[y] == if on_path(start, rank2, bound, node, y)
                && !on_path(start, rank2, bound, next, y) {
                current
            } else {
                start[y]
            } by {
                if y != walk {
                    assert(on_path(start, rank2, bound, walk, y) == on_path(start, rank2, bound, next, y));
                }
            }
        }
        parent.insert(walk, current);
        walk = next;
    }
    proof {
        assert forall|y: i64| #[trigger] start.dom().contains(y) implies parent@[y] == if on_path(start, rank2, bound, node, y) {
            current
        } else {
            start[y]
        } by {
            if y == current {
                assert(on_path(start, rank2, bound, current, y));
            } else {
                assert(!on_path(start, rank2, bound, current, y));
            }
        }
    }
    current
}


/// A node entering the forest as a new root leaves the root of every other
/// node as it was.
proof fn lemma_enter_keeps(parent: Map<i64, i64>, rank: Map<i64, nat>, bound: nat, node: i64, y: i64)
    requires
        is_forest(parent, rank, bound),
        !parent.dom().contains(node),
        parent.dom().contains(y),
    ensures
        is_forest(parent.insert(node, node), rank.insert(node, 0), bound),
        find(parent.insert(node, node), rank.insert(node, 0), bound, y) == find(parent, rank, bound, y),
    decreases bound - rank[y],
{
    lemma_enter(parent, rank, bound, node);
    let p2 = parent.insert(node, node);
    let r2 = rank.insert(node, 0);
    lemma_forest_step(parent, rank, bound, y);
    lemma_find_is_root(parent, rank, bound, y);
    lemma_find_is_root(p2, r2, bound, y);
    if parent[y] != y {
        lemma_enter_keeps(parent, rank, bound, node, parent[y]);
    }
}

/// The entries named by a list of links.
pub open spec fn endpoints(edges: Seq<(i64, i64)>) -> Set<i64>
    decreases edges.len(),
{
    if edges.len() == 0 {
        Set::empty()
    } else {
        endpoints(edges.drop_last()).insert(edges.last().0).insert(edges.last().1)
    }
}

/// Both ends of every link are among the endpoints.
pub proof fn lemma_endpoints_contain(edges: Seq<(i64, i64)>, j: int)
    requires
        0 <= j < edges.len(),
    ensures
        endpoints(edges).contains(edges[j].0),
        endpoints(edges).contains(edges[j].1),
    decreases edges.len(),
{
    if j < edges.len() - 1 {
        lemma_endpoints_contain(edges.drop_last(), j);
    }
}

/// Adding an element that is not there keeps a sequence free of repeats.
proof fn lemma_push_fresh(s: Seq<i64>, x: i64)
    requires
        s.no_duplicates(),
        !s.contains(x),
    ensures
        s.push(x).no_duplicates(),
{
    let t = s.push(x);
    assert forall|i: int, j: int| 0 <= i < t.len() && 0 <= j < t.len() && i != j implies t[i] != t[j] by {
        if i == s.len() {
            assert(s[j] == t[j]);
        } else if j == s.len() {
            assert(s[i] == t[i]);
        }
    }
}

/// Whether every pair of linked entries has the same root.
pub open spec fn links_joined(parent: Map<i64, i64>, rank: Map<i64, nat>, bound: nat, edges: Seq<(i64, i64)>) -> bool {
    forall|j: int|
        0 <= j < edges.len() ==> find(parent, rank, bound, #[trigger] edges[j].0) == find(parent, rank, bound, edges[j].1)
}

/// Whether a labelling of the entries gives both ends of every link the
/// same label. The partitions that such labellings draw are exactly those
/// that keep every chain of links within one part.
pub open spec fn respects(label: spec_fn(i64) -> int, edges: Seq<(i64, i64)>) -> bool {
    forall|j: int| #![trigger edges[j]] 0 <= j < edges.len() ==> label(edges[j].0) == label(edges[j].1)
}

/// Whether, under every labelling that respects the links, each node of the
/// forest carries the label of its root.
pub open spec fn labels_follow_roots(
    parent: Map<i64, i64>,
    rank: Map<i64, nat>,
    bound: nat,
    edges: Seq<(i64, i64)>,
) -> bool {
    forall|label: spec_fn(i64) -> int, x: i64|
        #![trigger respects(label, edges), find(parent, rank, bound, x)]
        respects(label, edges) && parent.dom().contains(x) ==> label(x) == label(find(parent, rank, bound, x))
}

/// A labelling that respects a list of links respects each shorter prefix.
proof fn lemma_respects_prefix(label: spec_fn(i64) -> int, edges: Seq<(i64, i64)>, e: (i64, i64))
    requires
        respects(label, edges.push(e)),
    ensures
        respects(label, edges),
        label(e.0) == label(e.1),
{
    assert forall|j: int| #![trigger edges[j]] 0 <= j < edges.len() implies label(edges[j].0) == label(edges[j].1) by {
        assert(edges.push(e)[j] == edges[j]);
    }
    assert(edges.push(e)[edges.len() as int] == e);
}

/// A new root entering the forest keeps every node on its root's label.
proof fn lemma_labels_enter(parent: Map<i64, i64>, rank: Map<i64, nat>, bound: nat, edges: Seq<(i64, i64)>, node: i64)
    requires
        is_forest(parent, rank, bound),
        labels_follow_roots(parent, rank, bound, edges),
        !parent.dom().contains(node),
    ensures
        labels_follow_roots(parent.insert(node, node), rank.insert(node, 0), bound, edges),
{
    let p2 = parent.insert(node, node);
    let r2 = rank.insert(node, 0);
    lemma_enter(parent, rank, bound, node);
    assert forall|label: spec_fn(i64) -> int, x: i64|
        #![trigger respects(label, edges), find(p2, r2, bound, x)]
        respects(label, edges) && p2.dom().contains(x) implies label(x) == label(find(p2, r2, bound, x)) by {
        if x == node {
            lemma_find_is_root(p2, r2, bound, node);
        } else {
            lemma_enter_keeps(parent, rank, bound, node, x);
            assert(label(x) == label(find(parent, rank, bound, x)));
        }
    }
}

/// Changes to the forest that keep the root of every node keep each node on
/// its root's label.
proof fn lemma_labels_same_roots(
    p1: Map<i64, i64>,
    p2: Map<i64, i64>,
    rank: Map<i64, nat>,
    bound: nat,
    edges: Seq<(i64, i64)>,
)
    requires
        labels_follow_roots(p1, rank, bound, edges),
        p2.dom() == p1.dom(),
        forall|y: i64| #[trigger] p1.dom().contains(y) ==> find(p2, rank, bound, y) == find(p1, rank, bound, y),
    ensures
        labels_follow_roots(p2, rank, bound, edges),
{
    assert forall|label: spec_fn(i64) -> int, x: i64|
        #![trigger respects(label, edges), find(p2, rank, bound, x)]
        respects(label, edges) && p2.dom().contains(x) implies label(x) == label(find(p2, rank, bound, x)) by {
        assert(label(x) == label(find(p1, rank, bound, x)));
    }
}

/// A link whose ends already share a root keeps each node on its root's
/// label.
proof fn lemma_labels_extend(
    parent: Map<i64, i64>,
    rank: Map<i64, nat>,
    bound: nat,
    edges: Seq<(i64, i64)>,
    e: (i64, i64),
)
    requires
        labels_follow_roots(parent, rank, bound, edges),
    ensures
        labels_follow_roots(parent, rank, bound, edges.push(e)),
{
    assert forall|label: spec_fn(i64) -> int, x: i64|
        #![trigger respects(label, edges.push(e)), find(parent, rank, bound, x)]
        respects(label, edges.push(e)) && parent.dom().contains(x) implies label(x) == label(find(parent, rank, bound, x)) by {
        lemma_respects_prefix(label, edges, e);
        assert(label(x) == label(find(parent, rank, bound, x)));
    }
}

/// Hanging the root `a` of `left` under the root `b` of `right`, for a new
/// link between them, keeps each node on its root's label.
proof fn lemma_labels_union(
    parent: Map<i64, i64>,
    rank: Map<i64, nat>,
    bound: nat,
    edges: Seq<(i64, i64)>,
    left: i64,
    right: i64,
    a: i64,
    b: i64,
)
    requires
        is_forest(parent, rank, bound),
        labels_follow_roots(parent, rank, bound, edges),
        parent.dom().contains(left),
        parent.dom().contains(right),
        a == find(parent, rank, bound, left),
        b == find(parent, rank, bound, right),
        a != b,
    ensures
        labels_follow_roots(parent.insert(a, b), union_rank(rank, a, b), bound + 1, edges.push((left, right))),
{
    let e2 = edges.push((left, right));
    let p2 = parent.insert(a, b);
    let r2 = union_rank(rank, a, b);
    lemma_find_is_root(parent, rank, bound, left);
    lemma_find_is_root(parent, rank, bound, right);
    assert forall|label: spec_fn(i64) -> int, x: i64|
        #![trigger respects(label, e2), find(p2, r2, bound + 1, x)]
        respects(label, e2) && p2.dom().contains(x) implies label(x) == label(find(p2, r2, bound + 1, x)) by {
        lemma_respects_prefix(label, edges, (left, right));
        lemma_union(parent, rank, bound, a, b, x);
        assert(label(x) == label(find(parent, rank, bound, x)));
        assert(label(left) == label(find(parent, rank, bound, left)));
        assert(label(right) == label(find(parent, rank, bound, right)));
    }
}

/// Enters `node` into the forest unless it is there, adding it to the list
/// of nodes in the order met.
fn enter_node(
    parent: &mut HashMap<i64, i64>,
    order: &mut Vec<i64>,
    node: i64,
) -> (r: i64)
    ensures
        r == node,
        !old(parent)@.dom().contains(node) ==> final(parent)@ == old(parent)@.insert(node, node)
            && final(order)@ == old(order)@.push(node),
        old(parent)@.dom().contains(node) ==> final(parent)@ == old(parent)@ && final(order)@ == old(order)@,
{
    if !parent.contains_key(&node) {
        parent.insert(node, node);
        order.push(node);
    }
    node
}

/// Merges the links into a forest: every linked pair ends up with one root.
/// Also gives the entries met, each once, in the order met.
fn merge_links(edges: &Vec<(i64, i64)>) -> (r: (HashMap<i64, i64>, Vec<i64>, Ghost<Map<i64, nat>>, Ghost<nat>))
    ensures
        is_forest(r.0@, r.2@, r.3@),
        r.0@.dom() == endpoints(edges@),
        links_joined(r.0@, r.2@, r.3@, edges@),
        labels_follow_roots(r.0@, r.2@, r.3@, edges@),
        r.1@.no_duplicates(),
        forall|x: i64| r.0@.dom().contains(x) <==> r.1@.contains(x),
        r.1@.len() <= 2 * edges@.len(),
{
    let mut parent: HashMap<i64, i64> = HashMap::new();
    let mut order: Vec<i64> = Vec::new();
    let ghost mut rank: Map<i64, nat> = Map::empty();
    let ghost mut bound: nat = 0;
    proof {
        reveal(is_forest);
        assert(parent@.dom() =~= rank.dom());
    }
    let mut i: usize = 0;
    while i < edges.len()
        invariant
            i <= edges.len(),
            is_forest(parent@, rank, bound),
            parent@.dom() == endpoints(edges@.take(i as int)),
            links_joined(parent@, rank, bound, edges@.take(i as int)),
            labels_follow_roots(parent@, rank, bound, edges@.take(i as int)),
            order@.no_duplicates(),
            forall|x: i64| parent@.dom().contains(x) <==> order@.contains(x),
            order@.len() <= 2 * i,
        decreases edges.len() - i,
    {
        let (left, right) = edges[i];
        let ghost e = edges@.take(i as int);
        let ghost p0 = parent@;
        let ghost o0 = order@;
        assert(edges@.take(i + 1).drop_last() =~= e);
        assert(edges@.take(i + 1).last() == (left, right));
        assert(e.push((left, right)) =~= edges@.take(i + 1));

        // Enter both ends first, as roots of their own where new.
        enter_node(&mut parent, &mut order, left);
        proof {
            if !p0.dom().contains(left) {
                assert forall|j: int| 0 <= j < e.len() implies
                    find(parent@, rank.insert(left, 0), bound, #[trigger] e[j].0)
                        == find(parent@, rank.insert(left, 0), bound, e[j].1) by {
                    lemma_endpoints_contain(e, j);
                    lemma_enter_keeps(p0, rank, bound, left, e[j].0);
                    lemma_enter_keeps(p0, rank, bound, left, e[j].1);
                }
                assert forall|x: i64| parent@.dom().contains(x) <==> order@.contains(x) by {
                    if order@.contains(x) && x != left {
                        let k = choose|k: int| 0 <= k < order@.len() && order@[k] == x;
                        assert(o0[k] == x);
                    }
                    if o0.contains(x) {
                        let k = choose|k: int| 0 <= k < o0.len() && o0[k] == x;
                        assert(order@[k] == x);
                    }
                    if x == left {
                        assert(order@[order@.len() - 1] == left);
                    }
                }
                lemma_enter(p0, rank, bound, left);
                lemma_labels_enter(p0, rank, bound, e, left);
                lemma_push_fresh(o0, left);
                rank = rank.insert(left, 0);
            }
        }
        let ghost p1 = parent@;
        let ghost o1 = order@;
        enter_node(&mut parent, &mut order, right);
        proof {
            if !p1.dom().contains(right) {
                assert forall|j: int| 0 <= j < e.len() implies
                    find(parent@, rank.insert(right, 0), bound, #[trigger] e[j].0)
                        == find(parent@, rank.insert(right, 0), bound, e[j].1) by {
                    lemma_endpoints_contain(e, j);
                    lemma_enter_keeps(p1, rank, bound, right, e[j].0);
                    lemma_enter_keeps(p1, rank, bound, right, e[j].1);
                }
                assert forall|x: i64| parent@.dom().contains(x) <==> order@.contains(x) by {
                    if order@.contains(x) && x != right {
                        let k = choose|k: int| 0 <= k < order@.len() && order@[k] == x;
                        assert(o1[k] == x);
                    }
                    if o1.contains(x) {
                        let k = choose|k: int| 0 <= k < o1.len() && o1[k] == x;
                        assert(order@[k] == x);
                    }
                    if x == right {
                        assert(order@[order@.len() - 1] == right);
                    }
                }
                lemma_enter_keeps(p1, rank, bound, right, left);
                lemma_enter(p1, rank, bound, right);
                lemma_labels_enter(p1, rank, bound, e, right);
                lemma_push_fresh(o1, right);
                rank = rank.insert(right, 0);
            }
        }

        // Find both roots, and hang one tree under the other if they differ.
        let ghost p2 = parent@;
        let a = root_of(&mut parent, left, Ghost(rank), Ghost(bound));
        let ghost p3 = parent@;
        let b = root_of(&mut parent, right, Ghost(rank), Ghost(bound));
        let ghost p4 = parent@;
        proof {
            assert(p3.dom() == p2.dom());
            assert(p4.dom() == p2.dom());
            lemma_labels_same_roots(p2, p3, rank, bound, e);
            lemma_labels_same_roots(p3, p4, rank, bound, e);
            assert forall|j: int| 0 <= j < e.len() implies
                find(p4, rank, bound, #[trigger] e[j].0) == find(p4, rank, bound, e[j].1) by {
                lemma_endpoints_contain(e, j);
                assert(p2.dom().contains(e[j].0) && p2.dom().contains(e[j].1));
            }
            assert(a == find(p4, rank, bound, left));
            assert(b == find(p4, rank, bound, right));
            lemma_find_is_root(p4, rank, bound, left);
            lemma_find_is_root(p4, rank, bound, right);
        }
        if a == b {
            proof {
                lemma_labels_extend(p4, rank, bound, e, (left, right));
            }
        }
        if a != b {
            proof {
                assert forall|j: int| 0 <= j < e.len() implies
                    find(p4.insert(a, b), union_rank(rank, a, b), bound + 1, #[trigger] e[j].0)
                        == find(p4.insert(a, b), union_rank(rank, a, b), bound + 1, e[j].1) by {
                    lemma_endpoints_contain(e, j);
                    lemma_union(p4, rank, bound, a, b, e[j].0);
                    lemma_union(p4, rank, bound, a, b, e[j].1);
                }
                lemma_union(p4, rank, bound, a, b, left);
                lemma_union(p4, rank, bound, a, b, right);
                lemma_union(p4, rank, bound, a, b, b);
                lemma_labels_union(p4, rank, bound, e, left, right, a, b);
            }
            parent.insert(a, b);
            proof {
                rank = union_rank(rank, a, b);
                bound = bound + 1;
                assert(parent@.dom() =~= p4.dom());
            }
        }
        proof {
            assert(parent@.dom() =~= endpoints(edges@.take(i + 1)));
            assert forall|j: int| 0 <= j < edges@.take(i + 1).len() implies
                find(parent@, rank, bound, #[trigger] edges@.take(i + 1)[j].0)
                    == find(parent@, rank, bound, edges@.take(i + 1)[j].1) by {
                if j < i {
                    assert(edges@.take(i + 1)[j] == e[j]);
                }
            }
        }
        i = i + 1;
    }
    assert(edges@.take(edges.len() as int) =~= edges@);
    (parent, order, Ghost(rank), Ghost(bound))
}


/// Pushing keeps what a sequence held and adds the new element.
proof fn lemma_push_keeps(s: Seq<(i64, i64)>, v: (i64, i64))
    ensures
        forall|t: (i64, i64)| s.contains(t) ==> #[trigger] s.push(v).contains(t),
        s.push(v).contains(v),
{
    assert forall|t: (i64, i64)| s.contains(t) implies #[trigger] s.push(v).contains(t) by {
        let i = choose|i: int| 0 <= i < s.len() && s[i] == t;
        assert(s.push(v)[i] == t);
    }
    assert(s.push(v)[s.len() as int] == v);
}

/// Whether every pair names an entry of `dom` and a group number from 1.
pub open spec fn pairs_valid(dom: Set<i64>, out: Seq<(i64, i64)>) -> bool {
    forall|t: int| 0 <= t < out.len() ==> dom.contains(#[trigger] out[t].0) && out[t].1 >= 1
}

proof fn lemma_pairs_valid_push(dom: Set<i64>, out: Seq<(i64, i64)>, v: (i64, i64))
    requires
        pairs_valid(dom, out),
        dom.contains(v.0),
        v.1 >= 1,
    ensures
        pairs_valid(dom, out.push(v)),
{
    assert forall|t: int| 0 <= t < out.push(v).len() implies dom.contains(#[trigger] out.push(v)[t].0) && out.push(v)[t].1 >= 1 by {
        if t < out.len() {
            assert(out.push(v)[t] == out[t]);
        }
    }
}

/// Whether a processed entry has been given its group: once two entries of
/// a tree have been met, all of them are in `out` with that tree's number;
/// until then the single one met is remembered in `first`.
pub open spec fn placed(
    number: Map<i64, i64>,
    first: Map<i64, i64>,
    out: Seq<(i64, i64)>,
    x: i64,
    root: i64,
) -> bool {
    ||| number.contains_key(root) && out.contains((x, number[root]))
    ||| !number.contains_key(root) && first.contains_key(root) && first[root] == x
}

/// Whether the pairs name each entry at most once.
pub open spec fn entries_once(out: Seq<(i64, i64)>) -> bool {
    forall|a: int, b: int|
        0 <= a < out.len() && 0 <= b < out.len() && a != b ==> #[trigger] out[a].0 != #[trigger] out[b].0
}

/// Whether the entry of pair `t` shares its group with another entry.
pub open spec fn has_partner(out: Seq<(i64, i64)>, t: int) -> bool {
    exists|y: i64| y != out[t].0 && #[trigger] out.contains((y, out[t].1))
}

/// Whether every paired entry shares its group with another entry.
pub open spec fn no_group_of_one(out: Seq<(i64, i64)>) -> bool {
    forall|t: int| 0 <= t < out.len() ==> #[trigger] has_partner(out, t)
}

/// Whether some entry is paired with group number `g`.
pub open spec fn has_number(out: Seq<(i64, i64)>, g: i64) -> bool {
    exists|y: i64| out.contains((y, g))
}

/// Whether the group numbers in use run from 1 without gaps: below every
/// number in use, each number from 1 is in use too, so that `k` groups get
/// exactly the numbers `1..=k`.
pub open spec fn numbers_without_gaps(out: Seq<(i64, i64)>) -> bool {
    forall|t: int, g: i64|
        #![trigger out[t], has_number(out, g)]
        0 <= t < out.len() && 1 <= g <= out[t].1 ==> has_number(out, g)
}

/// Whether entries share a group only where every labelling that respects
/// the links gives them one label, that is, only where a chain of links
/// joins them.
pub open spec fn groups_within_chains(edges: Seq<(i64, i64)>, out: Seq<(i64, i64)>) -> bool {
    forall|label: spec_fn(i64) -> int, a: int, b: int|
        #![trigger respects(label, edges), out[a], out[b]]
        respects(label, edges) && 0 <= a < out.len() && 0 <= b < out.len() && out[a].1 == out[b].1
            ==> label(out[a].0) == label(out[b].0)
}

/// Whether each of the first `k` entries of `order` has been placed.
spec fn all_placed(
    p0: Map<i64, i64>,
    rank: Map<i64, nat>,
    bound: nat,
    order: Seq<i64>,
    k: int,
    number: Map<i64, i64>,
    first: Map<i64, i64>,
    out: Seq<(i64, i64)>,
) -> bool {
    forall|j: int| 0 <= j < k ==> placed(number, first, out, #[trigger] order[j], find(p0, rank, bound, order[j]))
}

/// Whether each entry remembered in `first` is of the tree it is filed
/// under, and among the first `k` entries of `order`.
spec fn firsts_met(
    p0: Map<i64, i64>,
    rank: Map<i64, nat>,
    bound: nat,
    order: Seq<i64>,
    k: int,
    first: Map<i64, i64>,
) -> bool {
    forall|root: i64|
        #[trigger] first.contains_key(root) ==> p0.dom().contains(first[root])
            && find(p0, rank, bound, first[root]) == root && order.take(k).contains(first[root])
}

/// Whether every pair carries the number given to the root of its entry.
spec fn pairs_numbered(
    p0: Map<i64, i64>,
    rank: Map<i64, nat>,
    bound: nat,
    number: Map<i64, i64>,
    out: Seq<(i64, i64)>,
) -> bool {
    forall|t: int|
        #![trigger out[t]]
        0 <= t < out.len() ==> number.contains_key(find(p0, rank, bound, out[t].0))
            && number[find(p0, rank, bound, out[t].0)] == out[t].1
}

/// Whether different roots have different numbers, all from 1 and below
/// `next`.
spec fn numbers_distinct(number: Map<i64, i64>, next: int) -> bool {
    &&& forall|root: i64| #[trigger] number.contains_key(root) ==> 1 <= number[root] < next
    &&& forall|r1: i64, r2: i64|
        number.contains_key(r1) && number.contains_key(r2) && #[trigger] number[r1] == #[trigger] number[r2]
            ==> r1 == r2
}

/// Whether number `g` is given to some root.
spec fn number_given(number: Map<i64, i64>, g: int) -> bool {
    exists|root: i64| number.contains_key(root) && number[root] == g
}

/// Whether every number from 1 below `next` is given to some root.
spec fn numbers_dense(number: Map<i64, i64>, next: int) -> bool {
    forall|g: int| 1 <= g < next ==> #[trigger] number_given(number, g)
}

/// Whether every numbered root has a member among the pairs.
spec fn numbers_used(number: Map<i64, i64>, out: Seq<(i64, i64)>) -> bool {
    forall|root: i64| #[trigger] number.contains_key(root) ==> exists|x: i64| out.contains((x, number[root]))
}

/// Whether every paired entry comes from the first `k` entries of `order`.
spec fn pairs_from(order: Seq<i64>, k: int, out: Seq<(i64, i64)>) -> bool {
    forall|t: int| #![trigger out[t]] 0 <= t < out.len() ==> order.take(k).contains(out[t].0)
}

/// What the numbering loop has established after the first `k` entries of
/// `order`.
#[verifier::opaque]
spec fn assigned(
    p0: Map<i64, i64>,
    rank: Map<i64, nat>,
    bound: nat,
    order: Seq<i64>,
    k: int,
    number: Map<i64, i64>,
    first: Map<i64, i64>,
    out: Seq<(i64, i64)>,
    next: int,
) -> bool {
    &&& all_placed(p0, rank, bound, order, k, number, first, out)
    &&& firsts_met(p0, rank, bound, order, k, first)
    &&& numbers_distinct(number, next)
    &&& numbers_dense(number, next)
    &&& numbers_used(number, out)
    &&& pairs_numbered(p0, rank, bound, number, out)
    &&& pairs_from(order, k, out)
    &&& pairs_valid(p0.dom(), out)
    &&& entries_once(out)
    &&& no_group_of_one(out)
}

/// What the numbering loop relies on throughout: the forest, and the
/// entries met, each once.
spec fn numbering_frame(p0: Map<i64, i64>, rank: Map<i64, nat>, bound: nat, order: Seq<i64>) -> bool {
    &&& is_forest(p0, rank, bound)
    &&& order.no_duplicates()
    &&& forall|x: i64| p0.dom().contains(x) <==> order.contains(x)
}

proof fn lemma_assigned_parts(
    p0: Map<i64, i64>,
    rank: Map<i64, nat>,
    bound: nat,
    order: Seq<i64>,
    k: int,
    number: Map<i64, i64>,
    first: Map<i64, i64>,
    out: Seq<(i64, i64)>,
    next: int,
)
    ensures
        assigned(p0, rank, bound, order, k, number, first, out, next) <==> {
            &&& all_placed(p0, rank, bound, order, k, number, first, out)
            &&& firsts_met(p0, rank, bound, order, k, first)
            &&& numbers_distinct(number, next)
    &&& numbers_dense(number, next)
            &&& numbers_used(number, out)
            &&& pairs_numbered(p0, rank, bound, number, out)
            &&& pairs_from(order, k, out)
            &&& pairs_valid(p0.dom(), out)
            &&& entries_once(out)
            &&& no_group_of_one(out)
        },
{
    reveal(assigned);
}

/// Growing a prefix keeps what it held and adds the next element.
proof fn lemma_take_grow(order: Seq<i64>, k: int)
    requires
        0 <= k < order.len(),
    ensures
        forall|x: i64| order.take(k).contains(x) ==> #[trigger] order.take(k + 1).contains(x),
        order.take(k + 1).contains(order[k]),
{
    assert forall|x: i64| order.take(k).contains(x) implies #[trigger] order.take(k + 1).contains(x) by {
        let i = choose|i: int| 0 <= i < k && order.take(k)[i] == x;
        assert(order.take(k + 1)[i] == x);
    }
    assert(order.take(k + 1)[k] == order[k]);
}

/// The entry at `k` is in the forest, is not among those before it, and is
/// not yet paired.
proof fn lemma_next_entry(
    p0: Map<i64, i64>,
    rank: Map<i64, nat>,
    bound: nat,
    order: Seq<i64>,
    k: int,
    out: Seq<(i64, i64)>,
)
    requires
        numbering_frame(p0, rank, bound, order),
        0 <= k < order.len(),
        pairs_from(order, k, out),
    ensures
        p0.dom().contains(order[k]),
        !order.take(k).contains(order[k]),
        forall|t: int| 0 <= t < out.len() ==> #[trigger] out[t].0 != order[k],
{
    assert(order.contains(order[k]));
    if order.take(k).contains(order[k]) {
        let i = choose|i: int| 0 <= i < k && order.take(k)[i] == order[k];
        assert(order[i] == order[k]);
    }
    assert forall|t: int| 0 <= t < out.len() implies #[trigger] out[t].0 != order[k] by {
        assert(order.take(k).contains(out[t].0));
    }
}

proof fn lemma_firsts_grow(
    p0: Map<i64, i64>,
    rank: Map<i64, nat>,
    bound: nat,
    order: Seq<i64>,
    k: int,
    first: Map<i64, i64>,
)
    requires
        0 <= k < order.len(),
        firsts_met(p0, rank, bound, order, k, first),
    ensures
        firsts_met(p0, rank, bound, order, k + 1, first),
{
    lemma_take_grow(order, k);
}

proof fn lemma_pairs_from_push(order: Seq<i64>, k: int, out: Seq<(i64, i64)>, v: (i64, i64))
    requires
        0 <= k < order.len(),
        pairs_from(order, k, out),
        order.take(k + 1).contains(v.0),
    ensures
        pairs_from(order, k + 1, out.push(v)),
{
    lemma_take_grow(order, k);
    let o2 = out.push(v);
    assert forall|t: int| #![trigger o2[t]] 0 <= t < o2.len() implies order.take(k + 1).contains(o2[t].0) by {
        if t < out.len() {
            assert(o2[t] == out[t]);
            assert(order.take(k).contains(out[t].0));
        }
    }
}

proof fn lemma_pairs_from_grow(order: Seq<i64>, k: int, out: Seq<(i64, i64)>)
    requires
        0 <= k < order.len(),
        pairs_from(order, k, out),
    ensures
        pairs_from(order, k + 1, out),
{
    lemma_take_grow(order, k);
    assert forall|t: int| #![trigger out[t]] 0 <= t < out.len() implies order.take(k + 1).contains(out[t].0) by {
        assert(order.take(k).contains(out[t].0));
    }
}

proof fn lemma_numbered_push(
    p0: Map<i64, i64>,
    rank: Map<i64, nat>,
    bound: nat,
    number: Map<i64, i64>,
    out: Seq<(i64, i64)>,
    v: (i64, i64),
)
    requires
        pairs_numbered(p0, rank, bound, number, out),
        number.contains_key(find(p0, rank, bound, v.0)),
        number[find(p0, rank, bound, v.0)] == v.1,
    ensures
        pairs_numbered(p0, rank, bound, number, out.push(v)),
{
    let o2 = out.push(v);
    assert forall|t: int| #![trigger o2[t]] 0 <= t < o2.len() implies number.contains_key(find(p0, rank, bound, o2[t].0))
        && number[find(p0, rank, bound, o2[t].0)] == o2[t].1 by {
        if t < out.len() {
            assert(o2[t] == out[t]);
        }
    }
}

proof fn lemma_numbered_insert(
    p0: Map<i64, i64>,
    rank: Map<i64, nat>,
    bound: nat,
    number: Map<i64, i64>,
    out: Seq<(i64, i64)>,
    root: i64,
    g: i64,
)
    requires
        pairs_numbered(p0, rank, bound, number, out),
        !number.contains_key(root),
    ensures
        pairs_numbered(p0, rank, bound, number.insert(root, g), out),
{
    let n2 = number.insert(root, g);
    assert forall|t: int| #![trigger out[t]] 0 <= t < out.len() implies n2.contains_key(find(p0, rank, bound, out[t].0))
        && n2[find(p0, rank, bound, out[t].0)] == out[t].1 by {
        assert(number.contains_key(find(p0, rank, bound, out[t].0)));
    }
}

proof fn lemma_dense_insert(number: Map<i64, i64>, root: i64, g: i64)
    requires
        numbers_dense(number, g as int),
        !number.contains_key(root),
    ensures
        numbers_dense(number.insert(root, g), g + 1),
{
    let n2 = number.insert(root, g);
    assert forall|h: int| 1 <= h < g + 1 implies #[trigger] number_given(n2, h) by {
        if h < g {
            assert(number_given(number, h));
            let r1 = choose|r1: i64| number.contains_key(r1) && number[r1] == h;
            assert(n2.contains_key(r1) && n2[r1] == h);
        } else {
            assert(n2.contains_key(root) && n2[root] == h);
        }
    }
}

proof fn lemma_used_push(number: Map<i64, i64>, out: Seq<(i64, i64)>, v: (i64, i64))
    requires
        numbers_used(number, out),
    ensures
        numbers_used(number, out.push(v)),
{
    lemma_push_keeps(out, v);
    assert forall|r2: i64| #[trigger] number.contains_key(r2) implies exists|y: i64| out.push(v).contains((y, number[r2])) by {
        let y = choose|y: i64| out.contains((y, number[r2]));
        assert(out.push(v).contains((y, number[r2])));
    }
}

proof fn lemma_used_insert(number: Map<i64, i64>, out: Seq<(i64, i64)>, root: i64, x: i64, g: i64)
    requires
        numbers_used(number, out),
        out.contains((x, g)),
    ensures
        numbers_used(number.insert(root, g), out),
{
    let n2 = number.insert(root, g);
    assert forall|r2: i64| #[trigger] n2.contains_key(r2) implies exists|y: i64| out.contains((y, n2[r2])) by {
        if r2 != root {
            let y = choose|y: i64| out.contains((y, number[r2]));
            assert(out.contains((y, n2[r2])));
        } else {
            assert(out.contains((x, n2[r2])));
        }
    }
}

proof fn lemma_distinct_insert(number: Map<i64, i64>, root: i64, g: i64)
    requires
        numbers_distinct(number, g as int),
        !number.contains_key(root),
        g >= 1,
    ensures
        numbers_distinct(number.insert(root, g), g + 1),
{
    let n2 = number.insert(root, g);
    assert forall|r1: i64, r2: i64|
        n2.contains_key(r1) && n2.contains_key(r2) && #[trigger] n2[r1] == #[trigger] n2[r2] implies r1 == r2 by {
        if r1 != root && r2 != root {
            assert(number[r1] == number[r2]);
        } else if r1 != root {
            assert(number.contains_key(r1));
        } else if r2 != root {
            assert(number.contains_key(r2));
        }
    }
}

/// Pushing a pair for a new entry keeps the entries once each.
proof fn lemma_once_push(out: Seq<(i64, i64)>, v: (i64, i64))
    requires
        entries_once(out),
        forall|t: int| 0 <= t < out.len() ==> #[trigger] out[t].0 != v.0,
    ensures
        entries_once(out.push(v)),
{
    let o2 = out.push(v);
    assert forall|a: int, b: int|
        0 <= a < o2.len() && 0 <= b < o2.len() && a != b implies #[trigger] o2[a].0 != #[trigger] o2[b].0 by {
        if a < out.len() {
            assert(o2[a] == out[a]);
        }
        if b < out.len() {
            assert(o2[b] == out[b]);
        }
    }
}

/// Pushing pairs keeps every partner found before.
proof fn lemma_partner_keep(out: Seq<(i64, i64)>, v: (i64, i64), t: int)
    requires
        0 <= t < out.len(),
        has_partner(out, t),
    ensures
        has_partner(out.push(v), t),
{
    let o2 = out.push(v);
    lemma_push_keeps(out, v);
    assert(o2[t] == out[t]);
    let z = choose|z: i64| z != out[t].0 && #[trigger] out.contains((z, out[t].1));
    assert(o2.contains((z, o2[t].1)));
}

/// Pushing a pair whose group already holds another entry keeps every
/// paired entry with a partner.
proof fn lemma_partner_push(out: Seq<(i64, i64)>, v: (i64, i64), y: i64)
    requires
        no_group_of_one(out),
        y != v.0,
        out.push(v).contains((y, v.1)),
    ensures
        no_group_of_one(out.push(v)),
{
    let o2 = out.push(v);
    assert forall|t: int| 0 <= t < o2.len() implies #[trigger] has_partner(o2, t) by {
        if t < out.len() {
            lemma_partner_keep(out, v, t);
        } else {
            assert(o2[t] == v);
            assert(o2.contains((y, o2[t].1)));
        }
    }
}

/// Pushing two different entries in one new group keeps every paired entry
/// with a partner.
proof fn lemma_partner_pair(out: Seq<(i64, i64)>, f: i64, node: i64, g: i64)
    requires
        no_group_of_one(out),
        f != node,
    ensures
        no_group_of_one(out.push((f, g)).push((node, g))),
{
    let o1 = out.push((f, g));
    let o2 = o1.push((node, g));
    lemma_push_keeps(o1, (node, g));
    assert(o1[out.len() as int] == (f, g));
    assert(o2.contains((f, g)));
    assert forall|t: int| 0 <= t < o2.len() implies #[trigger] has_partner(o2, t) by {
        if t < out.len() {
            lemma_partner_keep(out, (f, g), t);
            lemma_partner_keep(o1, (node, g), t);
        } else if t == out.len() {
            assert(o2[t] == (f, g));
            assert(o2.contains((node, o2[t].1)));
        } else {
            assert(o2[t] == (node, g));
            assert(o2.contains((f, o2[t].1)));
        }
    }
}

proof fn lemma_assigned_start(p0: Map<i64, i64>, rank: Map<i64, nat>, bound: nat, order: Seq<i64>)
    ensures
        assigned(p0, rank, bound, order, 0, Map::empty(), Map::empty(), Seq::empty(), 1),
{
    reveal(assigned);
    assert(no_group_of_one(Seq::<(i64, i64)>::empty()));
}

/// The entry at `k` joins the group already numbered for its root.
proof fn lemma_step_join(
    p0: Map<i64, i64>,
    rank: Map<i64, nat>,
    bound: nat,
    order: Seq<i64>,
    k: int,
    number: Map<i64, i64>,
    first: Map<i64, i64>,
    out: Seq<(i64, i64)>,
    next: int,
    root: i64,
)
    requires
        numbering_frame(p0, rank, bound, order),
        0 <= k < order.len(),
        root == find(p0, rank, bound, order[k]),
        assigned(p0, rank, bound, order, k, number, first, out, next),
        number.contains_key(root),
    ensures
        assigned(p0, rank, bound, order, k + 1, number, first, out.push((order[k], number[root])), next),
{
    let node = order[k];
    let g = number[root];
    let v = (node, g);
    let o2 = out.push(v);
    lemma_assigned_parts(p0, rank, bound, order, k, number, first, out, next);
    lemma_assigned_parts(p0, rank, bound, order, k + 1, number, first, o2, next);
    lemma_next_entry(p0, rank, bound, order, k, out);
    lemma_take_grow(order, k);
    lemma_push_keeps(out, v);
    assert(all_placed(p0, rank, bound, order, k + 1, number, first, o2)) by {
        assert forall|j: int| 0 <= j < k + 1 implies placed(number, first, o2, #[trigger] order[j], find(p0, rank, bound, order[j])) by {
            if j < k {
                assert(placed(number, first, out, order[j], find(p0, rank, bound, order[j])));
            }
        }
    }
    lemma_firsts_grow(p0, rank, bound, order, k, first);
    lemma_used_push(number, out, v);
    lemma_numbered_push(p0, rank, bound, number, out, v);
    lemma_pairs_from_push(order, k, out, v);
    lemma_pairs_valid_push(p0.dom(), out, v);
    lemma_once_push(out, v);
    let x = choose|x: i64| out.contains((x, number[root]));
    let i = choose|i: int| 0 <= i < out.len() && out[i] == (x, g);
    assert(out[i].0 != node);
    assert(o2.contains((x, g)));
    lemma_partner_push(out, v, x);
}

/// The entry at `k` is the second met of its tree: it and the first one
/// start a new group numbered `g`.
proof fn lemma_step_new(
    p0: Map<i64, i64>,
    rank: Map<i64, nat>,
    bound: nat,
    order: Seq<i64>,
    k: int,
    number: Map<i64, i64>,
    first: Map<i64, i64>,
    out: Seq<(i64, i64)>,
    g: i64,
    root: i64,
)
    requires
        numbering_frame(p0, rank, bound, order),
        0 <= k < order.len(),
        root == find(p0, rank, bound, order[k]),
        assigned(p0, rank, bound, order, k, number, first, out, g as int),
        !number.contains_key(root),
        first.contains_key(root),
        1 <= g < i64::MAX,
    ensures
        assigned(
            p0,
            rank,
            bound,
            order,
            k + 1,
            number.insert(root, g),
            first,
            out.push((first[root], g)).push((order[k], g)),
            g + 1,
        ),
{
    let node = order[k];
    let f = first[root];
    let n2 = number.insert(root, g);
    let o1 = out.push((f, g));
    let o2 = o1.push((node, g));
    lemma_assigned_parts(p0, rank, bound, order, k, number, first, out, g as int);
    lemma_assigned_parts(p0, rank, bound, order, k + 1, n2, first, o2, g + 1);
    lemma_next_entry(p0, rank, bound, order, k, out);
    lemma_take_grow(order, k);
    assert(f != node);
    assert forall|t: int| 0 <= t < out.len() implies #[trigger] out[t].0 != f by {
        assert(number.contains_key(find(p0, rank, bound, out[t].0)));
    }
    assert forall|t: int| 0 <= t < o1.len() implies #[trigger] o1[t].0 != node by {
        if t < out.len() {
            assert(o1[t] == out[t]);
        }
    }
    lemma_push_keeps(out, (f, g));
    lemma_push_keeps(o1, (node, g));
    assert(all_placed(p0, rank, bound, order, k + 1, n2, first, o2)) by {
        assert forall|j: int| 0 <= j < k + 1 implies placed(n2, first, o2, #[trigger] order[j], find(p0, rank, bound, order[j])) by {
            if j < k {
                let rj = find(p0, rank, bound, order[j]);
                assert(placed(number, first, out, order[j], rj));
                if number.contains_key(rj) {
                    assert(o1.contains((order[j], number[rj])));
                }
            }
        }
    }
    lemma_firsts_grow(p0, rank, bound, order, k, first);
    lemma_distinct_insert(number, root, g);
    lemma_dense_insert(number, root, g);
    lemma_used_push(number, out, (f, g));
    lemma_used_push(number, o1, (node, g));
    lemma_used_insert(number, o2, root, node, g);
    lemma_numbered_insert(p0, rank, bound, number, out, root, g);
    lemma_numbered_push(p0, rank, bound, n2, out, (f, g));
    lemma_numbered_push(p0, rank, bound, n2, o1, (node, g));
    lemma_pairs_from_grow(order, k, out);
    assert(pairs_from(order, k + 1, o1)) by {
        assert forall|t: int| #![trigger o1[t]] 0 <= t < o1.len() implies order.take(k + 1).contains(o1[t].0) by {
            if t < out.len() {
                assert(o1[t] == out[t]);
            }
        }
    }
    assert(pairs_from(order, k + 1, o2)) by {
        assert forall|t: int| #![trigger o2[t]] 0 <= t < o2.len() implies order.take(k + 1).contains(o2[t].0) by {
            if t < o1.len() {
                assert(o2[t] == o1[t]);
            }
        }
    }
    lemma_pairs_valid_push(p0.dom(), out, (f, g));
    lemma_pairs_valid_push(p0.dom(), o1, (node, g));
    lemma_once_push(out, (f, g));
    lemma_once_push(o1, (node, g));
    lemma_partner_pair(out, f, node, g);
}

/// The entry at `k` is the first met of its tree: it is remembered.
proof fn lemma_step_first(
    p0: Map<i64, i64>,
    rank: Map<i64, nat>,
    bound: nat,
    order: Seq<i64>,
    k: int,
    number: Map<i64, i64>,
    first: Map<i64, i64>,
    out: Seq<(i64, i64)>,
    next: int,
    root: i64,
)
    requires
        numbering_frame(p0, rank, bound, order),
        0 <= k < order.len(),
        root == find(p0, rank, bound, order[k]),
        assigned(p0, rank, bound, order, k, number, first, out, next),
        !number.contains_key(root),
        !first.contains_key(root),
    ensures
        assigned(p0, rank, bound, order, k + 1, number, first.insert(root, order[k]), out, next),
{
    let node = order[k];
    let f2 = first.insert(root, node);
    lemma_assigned_parts(p0, rank, bound, order, k, number, first, out, next);
    lemma_assigned_parts(p0, rank, bound, order, k + 1, number, f2, out, next);
    lemma_next_entry(p0, rank, bound, order, k, out);
    lemma_take_grow(order, k);
    assert(all_placed(p0, rank, bound, order, k + 1, number, f2, out)) by {
        assert forall|j: int| 0 <= j < k + 1 implies placed(number, f2, out, #[trigger] order[j], find(p0, rank, bound, order[j])) by {
            if j < k {
                assert(placed(number, first, out, order[j], find(p0, rank, bound, order[j])));
            }
        }
    }
    assert(firsts_met(p0, rank, bound, order, k + 1, f2)) by {
        assert forall|r2: i64| #[trigger] f2.contains_key(r2) implies p0.dom().contains(f2[r2])
            && find(p0, rank, bound, f2[r2]) == r2 && order.take(k + 1).contains(f2[r2]) by {
            if r2 != root {
                assert(first.contains_key(r2));
            }
        }
    }
    lemma_pairs_from_grow(order, k, out);
}

/// Once every entry met has been placed, the pairs give each linked entry a
/// group, share groups only along chains of links, and name each entry once
/// and never alone.
proof fn lemma_assigned_end(
    edges: Seq<(i64, i64)>,
    p0: Map<i64, i64>,
    rank: Map<i64, nat>,
    bound: nat,
    order: Seq<i64>,
    number: Map<i64, i64>,
    first: Map<i64, i64>,
    out: Seq<(i64, i64)>,
    next: int,
)
    requires
        numbering_frame(p0, rank, bound, order),
        p0.dom() == endpoints(edges),
        links_joined(p0, rank, bound, edges),
        labels_follow_roots(p0, rank, bound, edges),
        assigned(p0, rank, bound, order, order.len() as int, number, first, out, next),
    ensures
        forall|j: int|
            #![trigger edges[j]]
            0 <= j < edges.len() && edges[j].0 != edges[j].1 ==> exists|g: i64|
                out.contains((edges[j].0, g)) && out.contains((edges[j].1, g)),
        forall|t: int| 0 <= t < out.len() ==> endpoints(edges).contains(#[trigger] out[t].0) && out[t].1 >= 1,
        entries_once(out),
        no_group_of_one(out),
        groups_within_chains(edges, out),
        numbers_without_gaps(out),
{
    lemma_assigned_parts(p0, rank, bound, order, order.len() as int, number, first, out, next);
    assert forall|j: int|
        #![trigger edges[j]]
        0 <= j < edges.len() && edges[j].0 != edges[j].1 implies exists|g: i64|
            out.contains((edges[j].0, g)) && out.contains((edges[j].1, g)) by {
        let (l, rr) = edges[j];
        lemma_endpoints_contain(edges, j);
        assert(order.contains(l));
        assert(order.contains(rr));
        let kl = choose|i: int| 0 <= i < order.len() && order[i] == l;
        let kr = choose|i: int| 0 <= i < order.len() && order[i] == rr;
        assert(placed(number, first, out, order[kl], find(p0, rank, bound, order[kl])));
        assert(placed(number, first, out, order[kr], find(p0, rank, bound, order[kr])));
        let root = find(p0, rank, bound, l);
        assert(out.contains((l, number[root])) && out.contains((rr, number[root])));
    }
    assert forall|label: spec_fn(i64) -> int, a: int, b: int|
        #![trigger respects(label, edges), out[a], out[b]]
        respects(label, edges) && 0 <= a < out.len() && 0 <= b < out.len() && out[a].1 == out[b].1
        implies label(out[a].0) == label(out[b].0) by {
        let ra = find(p0, rank, bound, out[a].0);
        let rb = find(p0, rank, bound, out[b].0);
        assert(number[ra] == number[rb]);
        assert(ra == rb);
        assert(label(out[a].0) == label(ra));
        assert(label(out[b].0) == label(rb));
    }
    assert forall|t: int, g: i64|
        #![trigger out[t], has_number(out, g)]
        0 <= t < out.len() && 1 <= g <= out[t].1 implies has_number(out, g) by {
        let rt = find(p0, rank, bound, out[t].0);
        assert(number.contains_key(rt));
        assert(number[rt] < next);
        assert(number_given(number, g as int));
        let r1 = choose|r1: i64| number.contains_key(r1) && number[r1] == g as int;
        let y = choose|y: i64| out.contains((y, number[r1]));
        assert(out.contains((y, g)));
    }
}

/// The group numbers that the links give: entries joined by a chain of
/// links share a group, numbered from 1; an entry alone gets none. The
/// result pairs each grouped entry with its group number, each entry once.
pub fn groups_from_links(edges: &Vec<(i64, i64)>) -> (r: Vec<(i64, i64)>)
    requires
        edges.len() < 0x1000_0000_0000_0000,
    ensures
        forall|j: int|
            #![trigger edges@[j]]
            0 <= j < edges@.len() && edges@[j].0 != edges@[j].1 ==> exists|g: i64|
                r@.contains((edges@[j].0, g)) && r@.contains((edges@[j].1, g)),
        forall|k: int| 0 <= k < r@.len() ==> endpoints(edges@).contains(#[trigger] r@[k].0) && r@[k].1 >= 1,
        entries_once(r@),
        no_group_of_one(r@),
        groups_within_chains(edges@, r@),
        numbers_without_gaps(r@),
{
    let (mut parent, order, Ghost(rank), Ghost(bound)) = merge_links(edges);
    let ghost p0 = parent@;
    let mut first: HashMap<i64, i64> = HashMap::new();
    let mut number: HashMap<i64, i64> = HashMap::new();
    let mut out: Vec<(i64, i64)> = Vec::new();
    let mut next_group: i64 = 1;
    let mut k: usize = 0;
    proof {
        lemma_assigned_start(p0, rank, bound, order@);
        assert(first@ =~= Map::empty());
        assert(number@ =~= Map::empty());
    }
    while k < order.len()
        invariant
            k <= order.len(),
            order.len() <= 2 * edges.len(),
            edges.len() < 0x1000_0000_0000_0000,
            numbering_frame(p0, rank, bound, order@),
            is_forest(parent@, rank, bound),
            parent@.dom() == p0.dom(),
            forall|y: i64| #[trigger] p0.dom().contains(y) ==> find(parent@, rank, bound, y) == find(p0, rank, bound, y),
            1 <= next_group <= k + 1,
            assigned(p0, rank, bound, order@, k as int, number@, first@, out@, next_group as int),
        decreases order.len() - k,
    {
        let node = order[k];
        proof {
            assert(order@.contains(node));
        }
        let root = root_of(&mut parent, node, Ghost(rank), Ghost(bound));
        assert(root == find(p0, rank, bound, node));
        match number.get(&root) {
            Some(g) => {
                proof {
                    lemma_step_join(p0, rank, bound, order@, k as int, number@, first@, out@, next_group as int, root);
                }
                out.push((node, *g));
            },
            None => match first.get(&root) {
                Some(f) => {
                    let f = *f;
                    let g = next_group;
                    proof {
                        lemma_step_new(p0, rank, bound, order@, k as int, number@, first@, out@, g, root);
                    }
                    number.insert(root, g);
                    out.push((f, g));
                    out.push((node, g));
                    next_group = next_group + 1;
                },
                None => {
                    proof {
                        lemma_step_first(p0, rank, bound, order@, k as int, number@, first@, out@, next_group as int, root);
                    }
                    first.insert(root, node);
                },
            },
        }
        k = k + 1;
    }
    proof {
        lemma_assigned_end(edges@, p0, rank, bound, order@, number@, first@, out@, next_group as int);
    }
    out
}

} // verus!
