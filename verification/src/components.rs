//! Connected components of rooms under a list of links, computed with
//! disjoint sets and proved to be the components of the graph.
use vstd::prelude::*;
use crate::disjoint_sets::DisjointSets;
use crate::graph::{
    components_among, connected, connected_to, ends_within, in_some_group, is_clustering,
    lemma_connected_no_edges, lemma_connected_refl, lemma_connected_with_new_edge,
};

verus! {

/// The names of a list of rooms.
pub open spec fn names(rooms: Seq<String>) -> Seq<Seq<char>> {
    rooms.map_values(|r: String| r@)
}

/// The names at both ends of a list of links.
pub open spec fn pair_names(ends: Seq<(String, String)>) -> Seq<(Seq<char>, Seq<char>)> {
    ends.map_values(|e: (String, String)| (e.0@, e.1@))
}

/// The names in each of a list of groups.
pub open spec fn group_names(groups: Seq<Vec<String>>) -> Seq<Seq<Seq<char>>> {
    groups.map_values(|g: Vec<String>| names(g@))
}

/// `i` is the first position of the name `z` in `rooms`.
pub open spec fn is_first_of(rooms: Seq<Seq<char>>, i: int, z: Seq<char>) -> bool {
    &&& 0 <= i < rooms.len()
    &&& rooms[i] == z
    &&& forall|j: int| 0 <= j < i ==> #[trigger] rooms[j] != z
}

/// The first position of the name `z` in `rooms` (meaningful when `z` is there).
pub open spec fn first_position(rooms: Seq<Seq<char>>, z: Seq<char>) -> int {
    choose|i: int| is_first_of(rooms, i, z)
}

/// A name that is among the rooms has a first position.
pub proof fn lemma_first_position(rooms: Seq<Seq<char>>, z: Seq<char>)
    requires
        rooms.contains(z),
    ensures
        is_first_of(rooms, first_position(rooms, z), z),
{
    rooms.index_of_first_ensures(z);
    let i = rooms.index_of_first(z).unwrap();
    assert(is_first_of(rooms, i, z));
}

/// Filtering by two predicates that agree on every element gives the same.
pub proof fn lemma_filter_agree(
    s: Seq<Seq<char>>,
    p1: spec_fn(Seq<char>) -> bool,
    p2: spec_fn(Seq<char>) -> bool,
)
    requires
        forall|i: int| 0 <= i < s.len() ==> p1(#[trigger] s[i]) == p2(s[i]),
    ensures
        s.filter(p1) == s.filter(p2),
    decreases s.len(),
{
    reveal(Seq::filter);
    if s.len() > 0 {
        let t = s.drop_last();
        assert forall|i: int| 0 <= i < t.len() implies p1(#[trigger] t[i]) == p2(t[i]) by {
            assert(t[i] == s[i]);
        }
        lemma_filter_agree(t, p1, p2);
        assert(p1(s[s.len() - 1]) == p2(s[s.len() - 1]));
    }
}

/// Filtering a prefix one element longer.
pub proof fn lemma_filter_take_step<A>(s: Seq<A>, p: spec_fn(A) -> bool, i: int)
    requires
        0 <= i < s.len(),
    ensures
        s.take(i + 1).filter(p) == if p(s[i]) {
            s.take(i).filter(p).push(s[i])
        } else {
            s.take(i).filter(p)
        },
{
    reveal(Seq::filter);
    assert(s.take(i + 1).drop_last() =~= s.take(i));
    assert(s.take(i + 1).last() == s[i]);
}

/// The groups come in the order their first members first appear among
/// the rooms.
pub open spec fn in_room_order(rooms: Seq<Seq<char>>, groups: Seq<Seq<Seq<char>>>) -> bool {
    forall|g: int, h: int|
        0 <= g < h < groups.len() ==> first_position(rooms, #[trigger] groups[g][0]) < first_position(
            rooms,
            #[trigger] groups[h][0],
        )
}

/// The position of the first room named `name`, if any.
pub fn first_index(rooms: &Vec<String>, name: &String) -> (r: Option<usize>)
    ensures
        match r {
            Some(i) => is_first_of(names(rooms@), i as int, name@),
            None => !names(rooms@).contains(name@),
        },
{
    let mut i: usize = 0;
    while i < rooms.len()
        invariant
            i <= rooms@.len(),
            forall|j: int| 0 <= j < i ==> #[trigger] names(rooms@)[j] != name@,
        decreases rooms@.len() - i,
    {
        if rooms[i] == *name {
            return Some(i);
        }
        i = i + 1;
    }
    None
}

/// The class, under `cls`, of the room named `z`.
pub open spec fn class_of_name(
    rooms: Seq<Seq<char>>,
    node: Seq<usize>,
    cls: Seq<int>,
    z: Seq<char>,
) -> int {
    cls[node[rooms.index_of(z)] as int]
}

/// The names whose class is `c`, as a predicate.
pub open spec fn in_class(
    rooms: Seq<Seq<char>>,
    node: Seq<usize>,
    cls: Seq<int>,
    c: int,
) -> spec_fn(Seq<char>) -> bool {
    |z: Seq<char>| class_of_name(rooms, node, cls, z) == c
}

/// `node` maps each position to the first position of the same name.
pub open spec fn first_positions(rooms: Seq<Seq<char>>, node: Seq<usize>) -> bool {
    &&& node.len() == rooms.len()
    &&& forall|x: int| 0 <= x < rooms.len() ==> is_first_of(rooms, #[trigger] node[x] as int, rooms[x])
}

/// Classes agree exactly on connected rooms.
pub open spec fn tracks(
    rooms: Seq<Seq<char>>,
    node: Seq<usize>,
    cls: Seq<int>,
    edges: Seq<(Seq<char>, Seq<char>)>,
) -> bool {
    forall|x: int, y: int|
        0 <= x < rooms.len() && 0 <= y < rooms.len() ==> ((cls[node[x] as int] == cls[node[y] as int])
            == #[trigger] connected(edges, rooms[x], rooms[y]))
}

/// Two positions with the same name have the same first position.
pub proof fn lemma_first_unique(rooms: Seq<Seq<char>>, i: int, j: int, z: Seq<char>)
    requires
        is_first_of(rooms, i, z),
        is_first_of(rooms, j, z),
    ensures
        i == j,
{
    if i < j {
        assert(rooms[i] == z);
    } else if j < i {
        assert(rooms[j] == z);
    }
}

/// The class of a room's name is the class of its first position.
pub proof fn lemma_class_of_name(
    rooms: Seq<Seq<char>>,
    node: Seq<usize>,
    cls: Seq<int>,
    y: int,
)
    requires
        first_positions(rooms, node),
        0 <= y < rooms.len(),
    ensures
        class_of_name(rooms, node, cls, rooms[y]) == cls[node[y] as int],
{
    assert(rooms.contains(rooms[y]));
    let i = rooms.index_of(rooms[y]);
    assert(is_first_of(rooms, node[i] as int, rooms[i]));
    assert(is_first_of(rooms, node[y] as int, rooms[y]));
    lemma_first_unique(rooms, node[i] as int, node[y] as int, rooms[y]);
}

/// With no links, every position is its own class.
pub proof fn lemma_tracks_start(rooms: Seq<Seq<char>>, node: Seq<usize>)
    requires
        first_positions(rooms, node),
    ensures
        tracks(rooms, node, Seq::new(rooms.len(), |i: int| i), Seq::empty()),
{
    let cls = Seq::new(rooms.len(), |i: int| i);
    let e = Seq::<(Seq<char>, Seq<char>)>::empty();
    assert forall|x: int, y: int| 0 <= x < rooms.len() && 0 <= y < rooms.len() implies ((cls[node[x] as int]
        == cls[node[y] as int]) == #[trigger] connected(e, rooms[x], rooms[y])) by {
        assert(is_first_of(rooms, node[x] as int, rooms[x]));
        assert(is_first_of(rooms, node[y] as int, rooms[y]));
        if connected(e, rooms[x], rooms[y]) {
            lemma_connected_no_edges(rooms[x], rooms[y]);
            lemma_first_unique(rooms, node[x] as int, node[y] as int, rooms[x]);
        }
        if node[x] == node[y] {
            lemma_connected_refl(e, rooms[x]);
        }
    }
}

/// Joining the classes of the ends of one more link keeps classes in step
/// with connection.
pub proof fn lemma_tracks_link(
    rooms: Seq<Seq<char>>,
    node: Seq<usize>,
    cls: Seq<int>,
    edges: Seq<(Seq<char>, Seq<char>)>,
    a: int,
    b: int,
    cls2: Seq<int>,
)
    requires
        first_positions(rooms, node),
        tracks(rooms, node, cls, edges),
        is_first_of(rooms, a, rooms[a]),
        is_first_of(rooms, b, rooms[b]),
        cls.len() == rooms.len(),
        cls2.len() == rooms.len(),
        forall|i: int|
            0 <= i < rooms.len() ==> #[trigger] cls2[i] == if cls[i] == cls[a] {
                cls[b]
            } else {
                cls[i]
            },
    ensures
        tracks(rooms, node, cls2, edges.push((rooms[a], rooms[b]))),
{
    let more = edges.push((rooms[a], rooms[b]));
    assert(is_first_of(rooms, node[a] as int, rooms[a]));
    assert(is_first_of(rooms, node[b] as int, rooms[b]));
    lemma_first_unique(rooms, node[a] as int, a, rooms[a]);
    lemma_first_unique(rooms, node[b] as int, b, rooms[b]);
    assert forall|x: int, y: int| 0 <= x < rooms.len() && 0 <= y < rooms.len() implies ((
    cls2[node[x] as int] == cls2[node[y] as int]) == #[trigger] connected(more, rooms[x], rooms[y])) by {
        assert(is_first_of(rooms, node[x] as int, rooms[x]));
        assert(is_first_of(rooms, node[y] as int, rooms[y]));
        lemma_connected_with_new_edge(edges, rooms[a], rooms[b], rooms[x], rooms[y]);
        assert(connected(edges, rooms[x], rooms[y]) == (cls[node[x] as int] == cls[node[y] as int]));
        assert(connected(edges, rooms[x], rooms[a]) == (cls[node[x] as int] == cls[node[a] as int]));
        assert(connected(edges, rooms[b], rooms[y]) == (cls[node[b] as int] == cls[node[y] as int]));
        assert(connected(edges, rooms[x], rooms[b]) == (cls[node[x] as int] == cls[node[b] as int]));
        assert(connected(edges, rooms[a], rooms[y]) == (cls[node[a] as int] == cls[node[y] as int]));
        assert(cls2[node[x] as int] == cls2[node[x] as int]);
        assert(cls2[node[y] as int] == cls2[node[y] as int]);
    }
}

/// The rooms grouped into the connected components of the links `ends`.
pub fn component_groups(rooms: &Vec<String>, ends: &Vec<(String, String)>) -> (groups: Vec<
    Vec<String>,
>)
    requires
        ends_within(names(rooms@), pair_names(ends@)),
    ensures
        is_clustering(names(rooms@), pair_names(ends@), group_names(groups@)),
        in_room_order(names(rooms@), group_names(groups@)),
{
    let ghost rn = names(rooms@);
    let ghost en = pair_names(ends@);
    let n: usize = rooms.len();
    // The first position of each room's name.
    let mut node: Vec<usize> = Vec::new();
    let mut x: usize = 0;
    while x < n
        invariant
            x <= n,
            n == rooms@.len(),
            rn == names(rooms@),
            node@.len() == x,
            forall|y: int| 0 <= y < x ==> is_first_of(rn, #[trigger] node@[y] as int, rn[y]),
        decreases n - x,
    {
        proof {
            assert(rn[x as int] == rooms@[x as int]@);
            assert(rn.contains(rn[x as int]));
        }
        let i: usize = first_index(rooms, &rooms[x]).unwrap();
        node.push(i);
        x = x + 1;
    }
    // Join the classes of the two ends of each link.
    let mut sets = DisjointSets::new(n);
    proof {
        lemma_tracks_start(rn, node@);
        assert(en.take(0) =~= Seq::<(Seq<char>, Seq<char>)>::empty());
    }
    let mut k: usize = 0;
    while k < ends.len()
        invariant
            sets.wf(),
            sets.size() == n,
            first_positions(rn, node@),
            tracks(rn, node@, sets.classes(), en.take(k as int)),
            k <= ends@.len(),
            ends_within(rn, en),
            rn == names(rooms@),
            en == pair_names(ends@),
            n == rooms@.len(),
        decreases ends@.len() - k,
    {
        proof {
            assert(en[k as int] == (ends@[k as int].0@, ends@[k as int].1@));
            assert(rn.contains(en[k as int].0));
            assert(rn.contains(en[k as int].1));
        }
        let a: usize = first_index(rooms, &ends[k].0).unwrap();
        let b: usize = first_index(rooms, &ends[k].1).unwrap();
        let ra: usize = sets.find(a);
        let rb: usize = sets.find(b);
        let ghost cls = sets.classes();
        proof {
            sets.lemma_classes();
        }
        if ra != rb {
            sets.union(ra, rb);
        }
        proof {
            assert(en.take(k + 1) =~= en.take(k as int).push((rn[a as int], rn[b as int])));
            lemma_tracks_link(rn, node@, cls, en.take(k as int), a as int, b as int, sets.classes());
        }
        k = k + 1;
    }
    proof {
        assert(en.take(ends@.len() as int) =~= en);
    }
    // Give each position the index of its class, in order of first appearance.
    let ghost cls = sets.classes();
    let mut gid: Vec<usize> = Vec::new();
    let mut roots: Vec<usize> = Vec::new();
    let ghost mut leaders: Seq<int> = Seq::empty();
    let mut x: usize = 0;
    while x < n
        invariant
            sets.wf(),
            sets.size() == n,
            sets.classes() == cls,
            first_positions(rn, node@),
            tracks(rn, node@, cls, en),
            rn == names(rooms@),
            n == rooms@.len(),
            x <= n,
            gid@.len() == x,
            roots@.len() == leaders.len(),
            forall|g: int, h: int|
                0 <= g < h < leaders.len() ==> #[trigger] leaders[g] < #[trigger] leaders[h],
            forall|g: int|
                0 <= g < roots@.len() ==> 0 <= #[trigger] leaders[g] < x && roots@[g] as int
                    == cls[node@[leaders[g]] as int] && gid@[leaders[g]] as int == g,
            forall|g: int, y: int|
                #![trigger gid@[y], leaders[g]]
                0 <= g < roots@.len() && 0 <= y < leaders[g] ==> gid@[y] as int != g,
            forall|g: int, h: int|
                0 <= g < roots@.len() && 0 <= h < roots@.len() && g != h ==> #[trigger] roots@[g]
                    != #[trigger] roots@[h],
            forall|y: int|
                0 <= y < x ==> (#[trigger] gid@[y] as int) < roots@.len() && roots@[gid@[y] as int]
                    as int == cls[node@[y] as int],
            roots@.len() == components_among(rn, en, x as nat),
        decreases n - x,
    {
        let r: usize = sets.find(node[x]);
        let mut j: usize = 0;
        while j < roots.len() && roots[j] != r
            invariant
                j <= roots@.len(),
                forall|h: int| 0 <= h < j ==> roots@[h] != r,
            decreases roots@.len() - j,
        {
            j = j + 1;
        }
        if j < roots.len() {
            proof {
                let l = leaders[j as int];
                assert(connected(en, rn[l], rn[x as int]));
            }
            gid.push(j);
        } else {
            proof {
                assert forall|y: int| 0 <= y < x implies !#[trigger] connected(
                    en,
                    rn[y],
                    rn[x as int],
                ) by {
                    assert(roots@[gid@[y] as int] as int == cls[node@[y] as int]);
                }
                leaders = leaders.push(x as int);
            }
            gid.push(roots.len());
            roots.push(r);
        }
        x = x + 1;
    }
    // Collect the rooms of each class.
    let mut groups: Vec<Vec<String>> = Vec::new();
    let mut g: usize = 0;
    while g < roots.len()
        invariant
            first_positions(rn, node@),
            tracks(rn, node@, cls, en),
            rn == names(rooms@),
            n == rooms@.len(),
            gid@.len() == n,
            roots@.len() == leaders.len(),
            forall|g: int, h: int|
                0 <= g < h < leaders.len() ==> #[trigger] leaders[g] < #[trigger] leaders[h],
            forall|h: int|
                0 <= h < roots@.len() ==> 0 <= #[trigger] leaders[h] < n && roots@[h] as int
                    == cls[node@[leaders[h]] as int] && gid@[leaders[h]] as int == h,
            forall|h: int, y: int|
                #![trigger gid@[y], leaders[h]]
                0 <= h < roots@.len() && 0 <= y < leaders[h] ==> gid@[y] as int != h,
            forall|h: int, i: int|
                0 <= h < roots@.len() && 0 <= i < roots@.len() && h != i ==> #[trigger] roots@[h]
                    != #[trigger] roots@[i],
            forall|y: int|
                0 <= y < n ==> (#[trigger] gid@[y] as int) < roots@.len() && roots@[gid@[y] as int]
                    as int == cls[node@[y] as int],
            g <= roots@.len(),
            roots@.len() == components_among(rn, en, n as nat),
            groups@.len() == g,
            forall|h: int|
                0 <= h < g ==> {
                    &&& #[trigger] group_names(groups@)[h] == rn.filter(
                        in_class(rn, node@, cls, roots@[h] as int),
                    )
                    &&& group_names(groups@)[h].len() > 0
                    &&& group_names(groups@)[h][0] == rn[leaders[h]]
                },
        decreases roots@.len() - g,
    {
        let ghost pred = in_class(rn, node@, cls, roots@[g as int] as int);
        let ghost lead = leaders[g as int];
        let mut cur: Vec<String> = Vec::new();
        let mut y: usize = 0;
        while y < n
            invariant
                first_positions(rn, node@),
                rn == names(rooms@),
                n == rooms@.len(),
                gid@.len() == n,
                g < roots@.len(),
                0 <= lead < n,
                gid@[lead] == g,
                forall|z: int| 0 <= z < lead ==> #[trigger] gid@[z] as int != g,
                forall|h: int, i: int|
                    0 <= h < roots@.len() && 0 <= i < roots@.len() && h != i ==> #[trigger] roots@[h]
                        != #[trigger] roots@[i],
                forall|z: int|
                    0 <= z < n ==> (#[trigger] gid@[z] as int) < roots@.len() && roots@[gid@[z]
                        as int] as int == cls[node@[z] as int],
                pred == in_class(rn, node@, cls, roots@[g as int] as int),
                y <= n,
                names(cur@) == rn.take(y as int).filter(pred),
                y <= lead ==> cur@.len() == 0,
                y > lead ==> cur@.len() > 0 && names(cur@)[0] == rn[lead],
            decreases n - y,
        {
            let ghost before = cur@;
            proof {
                lemma_filter_take_step(rn, pred, y as int);
                lemma_class_of_name(rn, node@, cls, y as int);
                assert(rn[y as int] == rooms@[y as int]@);
            }
            if gid[y] == g {
                cur.push(rooms[y].clone());
                proof {
                    assert(names(cur@) =~= names(before).push(rn[y as int]));
                }
            }
            y = y + 1;
        }
        proof {
            assert(rn.take(n as int) =~= rn);
        }
        let ghost before = groups@;
        groups.push(cur);
        proof {
            assert forall|h: int| 0 <= h < g + 1 implies #[trigger] group_names(groups@)[h] == (
            if h < g {
                group_names(before)[h]
            } else {
                names(cur@)
            }) by {}
        }
        g = g + 1;
    }
    proof {
        let gn = group_names(groups@);
        assert forall|h: int| 0 <= h < gn.len() implies {
            &&& #[trigger] gn[h].len() > 0
            &&& gn[h] == rn.filter(connected_to(en, gn[h][0]))
        } by {
            let l = leaders[h];
            let p1 = in_class(rn, node@, cls, roots@[h] as int);
            let p2 = connected_to(en, gn[h][0]);
            assert forall|i: int| 0 <= i < rn.len() implies p1(#[trigger] rn[i]) == p2(rn[i]) by {
                lemma_class_of_name(rn, node@, cls, i);
                assert(connected(en, rn[l], rn[i]) == (cls[node@[l] as int] == cls[node@[i] as int]));
            }
            lemma_filter_agree(rn, p1, p2);
        }
        assert forall|h: int, i: int|
            0 <= h < gn.len() && 0 <= i < gn.len() && h != i implies !connected(
            en,
            #[trigger] gn[h][0],
            #[trigger] gn[i][0],
        ) by {
            let lh = leaders[h];
            let li = leaders[i];
            assert(connected(en, rn[lh], rn[li]) == (cls[node@[lh] as int] == cls[node@[li] as int]));
        }
        assert forall|x: int| 0 <= x < rn.len() implies in_some_group(en, gn, #[trigger] rn[x]) by {
            let h = gid@[x] as int;
            let l = leaders[h];
            assert(connected(en, rn[l], rn[x]) == (cls[node@[l] as int] == cls[node@[x] as int]));
            assert(connected(en, gn[h][0], rn[x]));
        }
        assert(is_clustering(rn, en, gn));
        assert forall|h: int|
            0 <= h < gn.len() implies first_position(rn, #[trigger] gn[h][0]) == leaders[h] by {
            let l = leaders[h];
            let f = node@[l] as int;
            assert(is_first_of(rn, f, rn[l]));
            assert(is_first_of(rn, node@[f] as int, rn[f]));
            lemma_first_unique(rn, node@[f] as int, f, rn[l]);
            if f < l {
                assert(roots@[gid@[f] as int] as int == cls[node@[f] as int]);
                assert(gid@[f] as int != h);
            }
            lemma_first_position(rn, rn[l]);
            lemma_first_unique(rn, first_position(rn, rn[l]), l, rn[l]);
        }
        assert(in_room_order(rn, gn));
    }
    groups
}

/// Names are taken one for one, in order.
pub proof fn lemma_names(rooms: Seq<String>, ends: Seq<(String, String)>, groups: Seq<Vec<String>>)
    ensures
        names(rooms).len() == rooms.len(),
        forall|i: int| 0 <= i < rooms.len() ==> #[trigger] names(rooms)[i] == rooms[i]@,
        pair_names(ends).len() == ends.len(),
        forall|i: int|
            0 <= i < ends.len() ==> #[trigger] pair_names(ends)[i] == (ends[i].0@, ends[i].1@),
        group_names(groups).len() == groups.len(),
        forall|i: int| 0 <= i < groups.len() ==> #[trigger] group_names(groups)[i] == names(groups[i]@),
{
}

} // verus!
