//! The graph that splines draw between rooms, as mathematics: which rooms
//! are linked, which are connected, and how many connected components the
//! rooms fall into.
use vstd::prelude::*;

verus! {

/// `x` and `y` are the two ends of one of the `edges`, in either direction.
pub open spec fn linked(edges: Seq<(Seq<char>, Seq<char>)>, x: Seq<char>, y: Seq<char>) -> bool {
    exists|k: int| 0 <= k < edges.len() && (#[trigger] edges[k] == (x, y) || edges[k] == (y, x))
}

/// The `i`-th step of `p` follows an edge.
pub open spec fn step(edges: Seq<(Seq<char>, Seq<char>)>, p: Seq<Seq<char>>, i: int) -> bool {
    linked(edges, p[i], p[i + 1])
}

/// `p` is a walk along the edges.
pub open spec fn is_path(edges: Seq<(Seq<char>, Seq<char>)>, p: Seq<Seq<char>>) -> bool {
    &&& p.len() > 0
    &&& forall|i: int| 0 <= i < p.len() - 1 ==> #[trigger] step(edges, p, i)
}

/// Some walk along the edges leads from `x` to `y`.
pub open spec fn connected(edges: Seq<(Seq<char>, Seq<char>)>, x: Seq<char>, y: Seq<char>) -> bool {
    exists|p: Seq<Seq<char>>| #[trigger] is_path(edges, p) && p[0] == x && p[p.len() - 1] == y
}

/// The rooms connected to `w`, as a predicate.
pub open spec fn connected_to(
    edges: Seq<(Seq<char>, Seq<char>)>,
    w: Seq<char>,
) -> spec_fn(Seq<char>) -> bool {
    |z: Seq<char>| connected(edges, w, z)
}

/// The room at position `i` is connected to none of the rooms before it:
/// it is the first of its component.
pub open spec fn opens_component(
    rooms: Seq<Seq<char>>,
    edges: Seq<(Seq<char>, Seq<char>)>,
    i: int,
) -> bool {
    forall|j: int| 0 <= j < i ==> !#[trigger] connected(edges, rooms[j], rooms[i])
}

/// How many components the first `k` rooms open.
pub open spec fn components_among(
    rooms: Seq<Seq<char>>,
    edges: Seq<(Seq<char>, Seq<char>)>,
    k: nat,
) -> nat
    decreases k,
{
    if k == 0 {
        0
    } else {
        components_among(rooms, edges, (k - 1) as nat) + if opens_component(
            rooms,
            edges,
            k - 1,
        ) {
            1nat
        } else {
            0nat
        }
    }
}

/// The number of connected components among the rooms.
pub open spec fn component_count(rooms: Seq<Seq<char>>, edges: Seq<(Seq<char>, Seq<char>)>) -> nat {
    components_among(rooms, edges, rooms.len())
}

/// `z` is connected to the first member of one of the `groups`.
pub open spec fn in_some_group(
    edges: Seq<(Seq<char>, Seq<char>)>,
    groups: Seq<Seq<Seq<char>>>,
    z: Seq<char>,
) -> bool {
    exists|g: int| 0 <= g < groups.len() && #[trigger] connected(edges, groups[g][0], z)
}

/// `groups` is the partition of `rooms` into connected components: each group
/// holds, in their order among the rooms, exactly the rooms connected to its
/// first member; the first members of two groups are never connected; every
/// room is connected to the first member of some group; and there are as
/// many groups as components.
pub open spec fn is_clustering(
    rooms: Seq<Seq<char>>,
    edges: Seq<(Seq<char>, Seq<char>)>,
    groups: Seq<Seq<Seq<char>>>,
) -> bool {
    &&& forall|g: int|
        0 <= g < groups.len() ==> {
            &&& #[trigger] groups[g].len() > 0
            &&& groups[g] == rooms.filter(connected_to(edges, groups[g][0]))
        }
    &&& forall|g: int, h: int|
        0 <= g < groups.len() && 0 <= h < groups.len() && g != h ==> !connected(
            edges,
            #[trigger] groups[g][0],
            #[trigger] groups[h][0],
        )
    &&& forall|x: int| 0 <= x < rooms.len() ==> in_some_group(edges, groups, #[trigger] rooms[x])
    &&& groups.len() == component_count(rooms, edges)
}

/// Every end of every edge is one of the rooms.
pub open spec fn ends_within(rooms: Seq<Seq<char>>, edges: Seq<(Seq<char>, Seq<char>)>) -> bool {
    forall|k: int|
        0 <= k < edges.len() ==> rooms.contains(#[trigger] edges[k].0) && rooms.contains(
            edges[k].1,
        )
}

/// Every room is connected to itself.
pub proof fn lemma_connected_refl(edges: Seq<(Seq<char>, Seq<char>)>, x: Seq<char>)
    ensures
        connected(edges, x, x),
{
    let p = seq![x];
    assert(is_path(edges, p));
}

/// Connection goes both ways.
pub proof fn lemma_connected_symm(edges: Seq<(Seq<char>, Seq<char>)>, x: Seq<char>, y: Seq<char>)
    requires
        connected(edges, x, y),
    ensures
        connected(edges, y, x),
{
    let p = choose|p: Seq<Seq<char>>| #[trigger] is_path(edges, p) && p[0] == x && p[p.len() - 1] == y;
    let n = p.len();
    let q = p.reverse();
    assert forall|i: int| 0 <= i < q.len() - 1 implies #[trigger] step(edges, q, i) by {
        assert(step(edges, p, n - 2 - i));
        let k = choose|k: int|
            0 <= k < edges.len() && (#[trigger] edges[k] == (p[n - 2 - i], p[n - 1 - i]) || edges[k]
                == (p[n - 1 - i], p[n - 2 - i]));
        assert(q[i] == p[n - 1 - i]);
        assert(q[i + 1] == p[n - 2 - i]);
    }
    assert(is_path(edges, q));
}

/// A walk from `x` to `y` goes on along an edge from `y` to `z`.
pub proof fn lemma_connected_link(
    edges: Seq<(Seq<char>, Seq<char>)>,
    x: Seq<char>,
    y: Seq<char>,
    z: Seq<char>,
)
    requires
        connected(edges, x, y),
        linked(edges, y, z),
    ensures
        connected(edges, x, z),
{
    let p = choose|p: Seq<Seq<char>>| #[trigger] is_path(edges, p) && p[0] == x && p[p.len() - 1] == y;
    let q = p.push(z);
    assert forall|i: int| 0 <= i < q.len() - 1 implies #[trigger] step(edges, q, i) by {
        if i < p.len() - 1 {
            assert(step(edges, p, i));
        }
    }
    assert(is_path(edges, q));
}

/// Connection is transitive.
pub proof fn lemma_connected_trans(
    edges: Seq<(Seq<char>, Seq<char>)>,
    x: Seq<char>,
    y: Seq<char>,
    z: Seq<char>,
)
    requires
        connected(edges, x, y),
        connected(edges, y, z),
    ensures
        connected(edges, x, z),
{
    let p = choose|p: Seq<Seq<char>>| #[trigger] is_path(edges, p) && p[0] == x && p[p.len() - 1] == y;
    let r = choose|r: Seq<Seq<char>>| #[trigger] is_path(edges, r) && r[0] == y && r[r.len() - 1] == z;
    let q = p + r.subrange(1, r.len() as int);
    assert forall|i: int| 0 <= i < q.len() - 1 implies #[trigger] step(edges, q, i) by {
        if i < p.len() - 1 {
            assert(step(edges, p, i));
        } else {
            let j = i - p.len() + 1;
            assert(step(edges, r, j));
            if j == 0 {
                assert(q[i] == p[p.len() - 1]);
            } else {
                assert(q[i] == r[j]);
            }
            assert(q[i + 1] == r[j + 1]);
        }
    }
    assert(is_path(edges, q));
}

/// More edges never disconnect two rooms.
pub proof fn lemma_connected_more_edges(
    edges: Seq<(Seq<char>, Seq<char>)>,
    e: (Seq<char>, Seq<char>),
    x: Seq<char>,
    y: Seq<char>,
)
    requires
        connected(edges, x, y),
    ensures
        connected(edges.push(e), x, y),
{
    let p = choose|p: Seq<Seq<char>>| #[trigger] is_path(edges, p) && p[0] == x && p[p.len() - 1] == y;
    let more = edges.push(e);
    assert forall|i: int| 0 <= i < p.len() - 1 implies #[trigger] step(more, p, i) by {
        assert(step(edges, p, i));
        let k = choose|k: int|
            0 <= k < edges.len() && (#[trigger] edges[k] == (p[i], p[i + 1]) || edges[k] == (
            p[i + 1], p[i]));
        assert(more[k] == edges[k]);
    }
    assert(is_path(more, p));
}

/// Without edges, a room is connected only to itself.
pub proof fn lemma_connected_no_edges(x: Seq<char>, y: Seq<char>)
    requires
        connected(Seq::<(Seq<char>, Seq<char>)>::empty(), x, y),
    ensures
        x == y,
{
    let edges = Seq::<(Seq<char>, Seq<char>)>::empty();
    let p = choose|p: Seq<Seq<char>>| #[trigger] is_path(edges, p) && p[0] == x && p[p.len() - 1] == y;
    if p.len() > 1 {
        assert(step(edges, p, 0));
    }
}

/// A walk that may use one more edge `(a, b)` either avoids it, or its two
/// ends are connected without it to the two ends of that edge.
pub proof fn lemma_path_with_new_edge(
    edges: Seq<(Seq<char>, Seq<char>)>,
    a: Seq<char>,
    b: Seq<char>,
    p: Seq<Seq<char>>,
)
    requires
        is_path(edges.push((a, b)), p),
    ensures
        ({
            let x = p[0];
            let y = p[p.len() - 1];
            ||| connected(edges, x, y)
            ||| connected(edges, x, a) && connected(edges, b, y)
            ||| connected(edges, x, b) && connected(edges, a, y)
        }),
    decreases p.len(),
{
    let more = edges.push((a, b));
    let x = p[0];
    let y = p[p.len() - 1];
    if p.len() == 1 {
        lemma_connected_refl(edges, x);
    } else {
        let q = p.drop_last();
        assert forall|i: int| 0 <= i < q.len() - 1 implies #[trigger] step(more, q, i) by {
            assert(step(more, p, i));
        }
        lemma_path_with_new_edge(edges, a, b, q);
        let z = q[q.len() - 1];
        assert(z == p[p.len() - 2]);
        assert(step(more, p, p.len() - 2));
        let k = choose|k: int|
            0 <= k < more.len() && (#[trigger] more[k] == (z, y) || more[k] == (y, z));
        lemma_connected_refl(edges, y);
        lemma_connected_refl(edges, a);
        lemma_connected_refl(edges, b);
        if k < edges.len() {
            assert(more[k] == edges[k]);
            assert(linked(edges, z, y));
            if connected(edges, x, z) {
                lemma_connected_link(edges, x, z, y);
            }
            if connected(edges, b, z) {
                lemma_connected_link(edges, b, z, y);
            }
            if connected(edges, a, z) {
                lemma_connected_link(edges, a, z, y);
            }
        } else {
            assert(more[k] == (a, b));
            if z == a && y == b {
                if connected(edges, x, z) {
                } else if connected(edges, x, b) && connected(edges, a, z) {
                    lemma_connected_symm(edges, a, z);
                }
            } else {
                assert(z == b && y == a);
                if connected(edges, x, z) {
                } else if connected(edges, x, a) && connected(edges, b, z) {
                    lemma_connected_symm(edges, b, z);
                }
            }
        }
    }
}

/// Connection with one more edge `(a, b)`, in terms of connection without it.
pub proof fn lemma_connected_with_new_edge(
    edges: Seq<(Seq<char>, Seq<char>)>,
    a: Seq<char>,
    b: Seq<char>,
    x: Seq<char>,
    y: Seq<char>,
)
    ensures
        connected(edges.push((a, b)), x, y) <==> {
            ||| connected(edges, x, y)
            ||| connected(edges, x, a) && connected(edges, b, y)
            ||| connected(edges, x, b) && connected(edges, a, y)
        },
{
    let more = edges.push((a, b));
    if connected(more, x, y) {
        let p = choose|p: Seq<Seq<char>>| #[trigger] is_path(more, p) && p[0] == x && p[p.len() - 1] == y;
        lemma_path_with_new_edge(edges, a, b, p);
    }
    assert(more[edges.len() as int] == (a, b));
    assert(linked(more, a, b));
    assert(linked(more, b, a));
    if connected(edges, x, y) {
        lemma_connected_more_edges(edges, (a, b), x, y);
    }
    if connected(edges, x, a) && connected(edges, b, y) {
        lemma_connected_more_edges(edges, (a, b), x, a);
        lemma_connected_more_edges(edges, (a, b), b, y);
        lemma_connected_link(more, x, a, b);
        lemma_connected_trans(more, x, b, y);
    }
    if connected(edges, x, b) && connected(edges, a, y) {
        lemma_connected_more_edges(edges, (a, b), x, b);
        lemma_connected_more_edges(edges, (a, b), a, y);
        lemma_connected_link(more, x, b, a);
        lemma_connected_trans(more, x, a, y);
    }
}

/// Names other than `r`, as a predicate.
pub open spec fn other_than(r: Seq<char>) -> spec_fn(Seq<char>) -> bool {
    |z: Seq<char>| z != r
}

/// Edges with neither end at `r`, as a predicate.
pub open spec fn avoiding(r: Seq<char>) -> spec_fn((Seq<char>, Seq<char>)) -> bool {
    |e: (Seq<char>, Seq<char>)| e.0 != r && e.1 != r
}

/// The rooms other than `r`.
pub open spec fn without_room(rooms: Seq<Seq<char>>, r: Seq<char>) -> Seq<Seq<char>> {
    rooms.filter(other_than(r))
}

/// The edges that do not touch `r`.
pub open spec fn edges_without(
    edges: Seq<(Seq<char>, Seq<char>)>,
    r: Seq<char>,
) -> Seq<(Seq<char>, Seq<char>)> {
    edges.filter(avoiding(r))
}

/// Taking `r` and its edges away leaves more components than there are.
pub open spec fn is_bridge(
    rooms: Seq<Seq<char>>,
    edges: Seq<(Seq<char>, Seq<char>)>,
    r: Seq<char>,
) -> bool {
    component_count(without_room(rooms, r), edges_without(edges, r)) > component_count(rooms, edges)
}

/// The bridge rooms, as a predicate.
pub open spec fn bridge_test(
    rooms: Seq<Seq<char>>,
    edges: Seq<(Seq<char>, Seq<char>)>,
) -> spec_fn(Seq<char>) -> bool {
    |r: Seq<char>| is_bridge(rooms, edges, r)
}

/// In a clustering, every room is in exactly one group.
pub proof fn lemma_clustering_places_each_room_once(
    rooms: Seq<Seq<char>>,
    edges: Seq<(Seq<char>, Seq<char>)>,
    groups: Seq<Seq<Seq<char>>>,
    x: int,
)
    requires
        is_clustering(rooms, edges, groups),
        0 <= x < rooms.len(),
    ensures
        exists|g: int| 0 <= g < groups.len() && #[trigger] groups[g].contains(rooms[x]),
        forall|g: int, h: int|
            0 <= g < groups.len() && 0 <= h < groups.len() && #[trigger] groups[g].contains(rooms[x])
                && #[trigger] groups[h].contains(rooms[x]) ==> g == h,
{
    let z = rooms[x];
    assert(in_some_group(edges, groups, z));
    let g0 = choose|g: int| 0 <= g < groups.len() && #[trigger] connected(edges, groups[g][0], z);
    assert(groups[g0] == rooms.filter(connected_to(edges, groups[g0][0])));
    rooms.lemma_filter_contains(connected_to(edges, groups[g0][0]), x);
    assert(groups[g0].contains(z));
    assert forall|g: int, h: int|
        0 <= g < groups.len() && 0 <= h < groups.len() && #[trigger] groups[g].contains(z)
            && #[trigger] groups[h].contains(z) implies g == h by {
        let pg = connected_to(edges, groups[g][0]);
        let ph = connected_to(edges, groups[h][0]);
        assert(groups[g] == rooms.filter(pg));
        assert(groups[h] == rooms.filter(ph));
        let i = choose|i: int| 0 <= i < groups[g].len() && groups[g][i] == z;
        let j = choose|j: int| 0 <= j < groups[h].len() && groups[h][j] == z;
        rooms.lemma_filter_pred(pg, i);
        rooms.lemma_filter_pred(ph, j);
        assert(connected(edges, groups[g][0], z));
        assert(connected(edges, groups[h][0], z));
        if g != h {
            lemma_connected_symm(edges, groups[h][0], z);
            lemma_connected_trans(edges, groups[g][0], z, groups[h][0]);
        }
    }
}

/// Whether `r` is a bridge is whether a clustering without it has more
/// groups than a clustering with it.
pub proof fn lemma_bridge_iff_more_groups(
    rooms: Seq<Seq<char>>,
    edges: Seq<(Seq<char>, Seq<char>)>,
    r: Seq<char>,
    groups: Seq<Seq<Seq<char>>>,
    reduced_groups: Seq<Seq<Seq<char>>>,
)
    requires
        is_clustering(rooms, edges, groups),
        is_clustering(without_room(rooms, r), edges_without(edges, r), reduced_groups),
    ensures
        is_bridge(rooms, edges, r) <==> reduced_groups.len() > groups.len(),
{
}

/// No edge has `r` at an end.
pub open spec fn is_isolated(edges: Seq<(Seq<char>, Seq<char>)>, r: Seq<char>) -> bool {
    forall|k: int| 0 <= k < edges.len() ==> #[trigger] edges[k].0 != r && edges[k].1 != r
}

/// An isolated room is connected to no other room.
pub proof fn lemma_isolated_unconnected(edges: Seq<(Seq<char>, Seq<char>)>, r: Seq<char>, z: Seq<char>)
    requires
        is_isolated(edges, r),
        z != r,
    ensures
        !connected(edges, r, z),
{
    if connected(edges, r, z) {
        let p = choose|p: Seq<Seq<char>>| #[trigger] is_path(edges, p) && p[0] == r && p[p.len() - 1] == z;
        assert(step(edges, p, 0));
        let k = choose|k: int|
            0 <= k < edges.len() && (#[trigger] edges[k] == (p[0], p[1]) || edges[k] == (p[1], p[0]));
        assert(edges[k].0 != r);
    }
}

/// Counting components of the first `k` rooms reads only those rooms.
pub proof fn lemma_components_prefix(
    a: Seq<Seq<char>>,
    b: Seq<Seq<char>>,
    edges: Seq<(Seq<char>, Seq<char>)>,
    k: nat,
)
    requires
        k <= a.len(),
        k <= b.len(),
        forall|i: int| 0 <= i < k ==> #[trigger] a[i] == b[i],
    ensures
        components_among(a, edges, k) == components_among(b, edges, k),
    decreases k,
{
    if k > 0 {
        lemma_components_prefix(a, b, edges, (k - 1) as nat);
        let i = k - 1;
        assert(a[i] == b[i]);
        assert forall|j: int|
            0 <= j < i implies connected(edges, a[j], a[i]) == connected(edges, b[j], b[i]) by {
            assert(a[j] == b[j]);
        }
        assert(opens_component(a, edges, i) == opens_component(b, edges, i));
    }
}

/// One more room adds one component exactly when it opens one.
pub proof fn lemma_components_push(
    rooms: Seq<Seq<char>>,
    edges: Seq<(Seq<char>, Seq<char>)>,
    z: Seq<char>,
)
    ensures
        component_count(rooms.push(z), edges) == component_count(rooms, edges) + if opens_component(
            rooms.push(z),
            edges,
            rooms.len() as int,
        ) {
            1nat
        } else {
            0nat
        },
{
    let more = rooms.push(z);
    assert forall|i: int| 0 <= i < rooms.len() implies #[trigger] more[i] == rooms[i] by {}
    lemma_components_prefix(more, rooms, edges, rooms.len());
}

/// Filtering by a predicate that holds of every element changes nothing.
pub proof fn lemma_filter_keeps_all<A>(s: Seq<A>, p: spec_fn(A) -> bool)
    requires
        forall|i: int| 0 <= i < s.len() ==> p(#[trigger] s[i]),
    ensures
        s.filter(p) == s,
    decreases s.len(),
{
    reveal(Seq::filter);
    if s.len() > 0 {
        let t = s.drop_last();
        assert forall|i: int| 0 <= i < t.len() implies p(#[trigger] t[i]) by {
            assert(t[i] == s[i]);
        }
        lemma_filter_keeps_all(t, p);
        assert(p(s[s.len() - 1]));
        assert(t.push(s[s.len() - 1]) =~= s);
    }
}

/// Leaving out an isolated room never adds components, prefix by prefix.
proof fn lemma_without_isolated_prefix(
    rooms: Seq<Seq<char>>,
    edges: Seq<(Seq<char>, Seq<char>)>,
    r: Seq<char>,
    k: int,
)
    requires
        is_isolated(edges, r),
        0 <= k <= rooms.len(),
    ensures
        component_count(rooms.take(k).filter(other_than(r)), edges) <= component_count(
            rooms.take(k),
            edges,
        ),
    decreases k,
{
    let p = other_than(r);
    if k == 0 {
        reveal(Seq::filter);
        assert(rooms.take(0).filter(p).len() == 0);
    } else {
        lemma_without_isolated_prefix(rooms, edges, r, k - 1);
        let t = rooms.take(k - 1);
        let t1 = rooms.take(k);
        let z = rooms[k - 1];
        assert(t1 =~= t.push(z));
        let f = t.filter(p);
        crate::components::lemma_filter_take_step(rooms, p, k - 1);
        lemma_components_push(t, edges, z);
        if z != r {
            let f1 = f.push(z);
            lemma_components_push(f, edges, z);
            if !opens_component(t1, edges, k - 1) {
                let j = choose|j: int| 0 <= j < k - 1 && #[trigger] connected(edges, t1[j], t1[k - 1]);
                assert(t1[j] == t[j]);
                if t[j] == r {
                    lemma_isolated_unconnected(edges, r, z);
                }
                t.lemma_filter_contains(p, j);
                let i = choose|i: int| 0 <= i < f.len() && f[i] == t[j];
                assert(f1[i] == t[j]);
                assert(f1[f.len() as int] == z);
                assert(connected(edges, f1[i], f1[f.len() as int]));
                assert(!opens_component(f1, edges, f.len() as int));
            }
        }
    }
}

/// A room that no edge touches is never a bridge.
pub proof fn lemma_isolated_room_is_not_bridge(
    rooms: Seq<Seq<char>>,
    edges: Seq<(Seq<char>, Seq<char>)>,
    r: Seq<char>,
)
    requires
        is_isolated(edges, r),
    ensures
        !is_bridge(rooms, edges, r),
{
    lemma_filter_keeps_all(edges, avoiding(r));
    lemma_without_isolated_prefix(rooms, edges, r, rooms.len() as int);
    assert(rooms.take(rooms.len() as int) =~= rooms);
}

} // verus!
