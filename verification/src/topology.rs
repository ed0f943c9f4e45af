//! The correlation topology: rooms and the splines between them.
use vstd::prelude::*;
use crate::components::{
    component_groups, group_names, in_room_order, lemma_filter_take_step, names, pair_names,
};
use crate::graph::{
    connected, connected_to, in_some_group, lemma_connected_link, lemma_connected_refl,
    lemma_connected_trans, linked, avoiding, bridge_test, component_count, edges_without, ends_within, is_clustering, other_than,
    without_room,
};
use crate::spline::{
    Spline, degree_in, spline_ends, touches, touching, with_accuracy,
};

verus! {

/// A graph of rooms and the splines detected between them.
#[derive(Debug, Clone)]
pub struct CorrelationTopology<F> {
    pub rooms: Vec<String>,
    pub splines: Vec<Spline<F>>,
}

impl<F> CorrelationTopology<F> {
    /// The names of the rooms.
    pub open spec fn room_names(&self) -> Seq<Seq<char>> {
        names(self.rooms@)
    }

    /// The names at the two ends of each spline.
    pub open spec fn edges(&self) -> Seq<(Seq<char>, Seq<char>)> {
        spline_ends(self.splines@)
    }

    /// Every spline joins two of the rooms.
    pub open spec fn splines_within_rooms(&self) -> bool {
        ends_within(self.room_names(), self.edges())
    }

    /// Position `k` holds the room chosen as most central: no room has a
    /// higher degree, and every later room has a lower one.
    pub open spec fn is_most_central_at(&self, k: int) -> bool {
        let r = self.room_names();
        &&& 0 <= k < r.len()
        &&& forall|j: int|
            0 <= j < r.len() ==> degree_in(self.splines@, #[trigger] r[j]) <= degree_in(
                self.splines@,
                r[k],
            )
        &&& forall|j: int|
            k < j < r.len() ==> degree_in(self.splines@, #[trigger] r[j]) < degree_in(
                self.splines@,
                r[k],
            )
    }

    /// A topology over `rooms` with `splines` between them.
    pub fn new(rooms: Vec<String>, splines: Vec<Spline<F>>) -> (t: Self)
        ensures
            t.rooms == rooms,
            t.splines == splines,
    {
        CorrelationTopology { rooms, splines }
    }

    /// The splines that touch `room_id`, in order.
    pub fn neighbors(&self, room_id: &str) -> (r: Vec<&Spline<F>>)
        ensures
            r@.map_values(|s: &Spline<F>| *s) == self.splines@.filter(touching(room_id@)),
    {
        let key = room_id.to_owned();
        let mut out: Vec<&Spline<F>> = Vec::new();
        let mut i: usize = 0;
        while i < self.splines.len()
            invariant
                i <= self.splines@.len(),
                key@ == room_id@,
                out@.map_values(|s: &Spline<F>| *s) == self.splines@.take(i as int).filter(
                    touching(room_id@),
                ),
            decreases self.splines@.len() - i,
        {
            let ghost before = out@;
            proof {
                lemma_filter_take_step(self.splines@, touching(room_id@), i as int);
            }
            if self.splines[i].room_a == key || self.splines[i].room_b == key {
                out.push(&self.splines[i]);
                proof {
                    assert(out@.map_values(|s: &Spline<F>| *s) =~= before.map_values(
                        |s: &Spline<F>| *s,
                    ).push(self.splines@[i as int]));
                }
            }
            i = i + 1;
        }
        proof {
            assert(self.splines@.take(self.splines@.len() as int) =~= self.splines@);
        }
        out
    }

    /// The number of splines that touch `room_id`.
    pub fn degree(&self, room_id: &str) -> (d: usize)
        ensures
            d == degree_in(self.splines@, room_id@),
    {
        let key = room_id.to_owned();
        let mut d: usize = 0;
        let mut i: usize = 0;
        while i < self.splines.len()
            invariant
                i <= self.splines@.len(),
                key@ == room_id@,
                d == self.splines@.take(i as int).filter(touching(room_id@)).len(),
                d <= i,
            decreases self.splines@.len() - i,
        {
            proof {
                lemma_filter_take_step(self.splines@, touching(room_id@), i as int);
            }
            if self.splines[i].room_a == key || self.splines[i].room_b == key {
                d = d + 1;
            }
            i = i + 1;
        }
        proof {
            assert(self.splines@.take(self.splines@.len() as int) =~= self.splines@);
        }
        d
    }

    /// The names at the two ends of each spline, as owned strings.
    fn spline_end_names(&self) -> (ends: Vec<(String, String)>)
        ensures
            pair_names(ends@) == self.edges(),
    {
        let mut ends: Vec<(String, String)> = Vec::new();
        let mut i: usize = 0;
        while i < self.splines.len()
            invariant
                i <= self.splines@.len(),
                pair_names(ends@) == spline_ends(self.splines@.take(i as int)),
            decreases self.splines@.len() - i,
        {
            let ghost before = ends@;
            let a = self.splines[i].room_a.clone();
            let b = self.splines[i].room_b.clone();
            ends.push((a, b));
            proof {
                assert(pair_names(ends@) =~= pair_names(before).push(
                    (self.splines@[i as int].room_a@, self.splines@[i as int].room_b@),
                ));
                assert(spline_ends(self.splines@.take(i + 1)) =~= spline_ends(
                    self.splines@.take(i as int),
                ).push((self.splines@[i as int].room_a@, self.splines@[i as int].room_b@)));
            }
            i = i + 1;
        }
        proof {
            assert(self.splines@.take(self.splines@.len() as int) =~= self.splines@);
        }
        ends
    }

    /// The rooms grouped into connected components: each group lists, in
    /// room order, the rooms connected to its first member.
    pub fn clusters(&self) -> (groups: Vec<Vec<String>>)
        requires
            self.splines_within_rooms(),
        ensures
            is_clustering(self.room_names(), self.edges(), group_names(groups@)),
            in_room_order(self.room_names(), group_names(groups@)),
            forall|k: int|
                0 <= k < self.splines@.len() ==> in_one_group(
                    group_names(groups@),
                    #[trigger] self.splines@[k],
                ),
    {
        let ends = self.spline_end_names();
        let groups = component_groups(&self.rooms, &ends);
        proof {
            assert forall|k: int| 0 <= k < self.splines@.len() implies in_one_group(
                group_names(groups@),
                #[trigger] self.splines@[k],
            ) by {
                lemma_spline_rooms_share_cluster(*self, group_names(groups@), k);
            }
        }
        groups
    }

    /// The room with the highest degree centrality; the last such room when
    /// several share it, and none when there are no rooms. Degree centrality
    /// is the degree divided by the number of other rooms, the same divisor
    /// for every room, so it ranks rooms as their degrees do.
    pub fn most_central(&self) -> (r: Option<String>)
        ensures
            r is None <==> self.rooms@.len() == 0,
            r matches Some(c) ==> exists|k: int|
                self.is_most_central_at(k) && #[trigger] self.room_names()[k] == c@,
    {
        let n: usize = self.rooms.len();
        if n == 0 {
            return None;
        }
        let ghost rn = self.room_names();
        let mut best: usize = 0;
        let mut best_degree: usize = self.degree(self.rooms[0].as_str());
        let mut j: usize = 1;
        while j < n
            invariant
                n == self.rooms@.len(),
                rn == self.room_names(),
                1 <= j <= n,
                best < j,
                best_degree == degree_in(self.splines@, rn[best as int]),
                forall|i: int|
                    0 <= i < j ==> degree_in(self.splines@, #[trigger] rn[i]) <= best_degree,
                forall|i: int|
                    best < i < j ==> degree_in(self.splines@, #[trigger] rn[i]) < best_degree,
            decreases n - j,
        {
            let d: usize = self.degree(self.rooms[j].as_str());
            proof {
                assert(rn[j as int] == self.rooms@[j as int]@);
            }
            if d >= best_degree {
                best = j;
                best_degree = d;
            }
            j = j + 1;
        }
        proof {
            assert(self.is_most_central_at(best as int));
        }
        Some(self.rooms[best].clone())
    }

    /// The rooms whose removal, together with their splines, splits the
    /// rooms into more connected components, in room order.
    pub fn bridge_rooms(&self) -> (bridges: Vec<String>)
        requires
            self.splines_within_rooms(),
        ensures
            names(bridges@) == self.room_names().filter(
                bridge_test(self.room_names(), self.edges()),
            ),
    {
        let ghost rn = self.room_names();
        let ghost en = self.edges();
        let ends = self.spline_end_names();
        let base: usize = component_groups(&self.rooms, &ends).len();
        let n: usize = self.rooms.len();
        let mut bridges: Vec<String> = Vec::new();
        let mut i: usize = 0;
        while i < n
            invariant
                n == self.rooms@.len(),
                rn == self.room_names(),
                en == self.edges(),
                pair_names(ends@) == en,
                ends_within(rn, en),
                base == component_count(rn, en),
                i <= n,
                names(bridges@) == rn.take(i as int).filter(bridge_test(rn, en)),
            decreases n - i,
        {
            let room = &self.rooms[i];
            let ghost r = rn[i as int];
            proof {
                assert(r == room@);
            }
            let other_rooms = Self::rooms_other_than(&self.rooms, room);
            let other_ends = Self::ends_avoiding(&self.rooms, &ends, room);
            let count: usize = component_groups(&other_rooms, &other_ends).len();
            let ghost before = bridges@;
            proof {
                lemma_filter_take_step(rn, bridge_test(rn, en), i as int);
            }
            if count > base {
                bridges.push(room.clone());
                proof {
                    assert(names(bridges@) =~= names(before).push(r));
                }
            }
            i = i + 1;
        }
        proof {
            assert(rn.take(n as int) =~= rn);
        }
        bridges
    }

    /// The rooms not named like `room`, in order.
    fn rooms_other_than(rooms: &Vec<String>, room: &String) -> (others: Vec<String>)
        ensures
            names(others@) == without_room(names(rooms@), room@),
    {
        let ghost rn = names(rooms@);
        let mut others: Vec<String> = Vec::new();
        let mut j: usize = 0;
        while j < rooms.len()
            invariant
                j <= rooms@.len(),
                rn == names(rooms@),
                names(others@) == rn.take(j as int).filter(other_than(room@)),
            decreases rooms@.len() - j,
        {
            let ghost before = others@;
            proof {
                lemma_filter_take_step(rn, other_than(room@), j as int);
                assert(rn[j as int] == rooms@[j as int]@);
            }
            if rooms[j] != *room {
                others.push(rooms[j].clone());
                proof {
                    assert(names(others@) =~= names(before).push(rn[j as int]));
                }
            }
            j = j + 1;
        }
        proof {
            assert(rn.take(rooms@.len() as int) =~= rn);
        }
        others
    }

    /// The links that avoid `room`, in order; their ends stay among the
    /// rooms other than `room`.
    fn ends_avoiding(rooms: &Vec<String>, ends: &Vec<(String, String)>, room: &String) -> (kept: Vec<
        (String, String),
    >)
        requires
            ends_within(names(rooms@), pair_names(ends@)),
        ensures
            pair_names(kept@) == edges_without(pair_names(ends@), room@),
            ends_within(without_room(names(rooms@), room@), pair_names(kept@)),
    {
        let ghost rn = names(rooms@);
        let ghost en = pair_names(ends@);
        let ghost others = without_room(rn, room@);
        let mut kept: Vec<(String, String)> = Vec::new();
        let mut k: usize = 0;
        while k < ends.len()
            invariant
                k <= ends@.len(),
                rn == names(rooms@),
                en == pair_names(ends@),
                others == without_room(rn, room@),
                ends_within(rn, en),
                pair_names(kept@) == en.take(k as int).filter(
                    avoiding(room@),
                ),
                ends_within(others, pair_names(kept@)),
            decreases ends@.len() - k,
        {
            let ghost before = kept@;
            proof {
                lemma_filter_take_step(en, avoiding(room@), k as int);
                assert(en[k as int] == (ends@[k as int].0@, ends@[k as int].1@));
            }
            if ends[k].0 != *room && ends[k].1 != *room {
                let a = ends[k].0.clone();
                let b = ends[k].1.clone();
                kept.push((a, b));
                proof {
                    assert(pair_names(kept@) =~= pair_names(before).push(en[k as int]));
                    let x = en[k as int].0;
                    let y = en[k as int].1;
                    assert(rn.contains(x));
                    assert(rn.contains(y));
                    let ix = choose|ix: int| 0 <= ix < rn.len() && rn[ix] == x;
                    let iy = choose|iy: int| 0 <= iy < rn.len() && rn[iy] == y;
                    rn.lemma_filter_contains(other_than(room@), ix);
                    rn.lemma_filter_contains(other_than(room@), iy);
                    assert forall|m: int| 0 <= m < pair_names(kept@).len() implies others.contains(
                        #[trigger] pair_names(kept@)[m].0,
                    ) && others.contains(pair_names(kept@)[m].1) by {
                        if m < pair_names(before).len() {
                            assert(pair_names(kept@)[m] == pair_names(before)[m]);
                        }
                    }
                }
            }
            k = k + 1;
        }
        proof {
            assert(en.take(ends@.len() as int) =~= en);
        }
        kept
    }

    /// Sets the prediction accuracy of every spline that touches `room_id`.
    pub fn set_prediction_accuracy(&mut self, room_id: &str, accuracy: F)
        where
            F: Copy,
        ensures
            final(self).rooms == old(self).rooms,
            final(self).splines@.len() == old(self).splines@.len(),
            forall|i: int|
                0 <= i < old(self).splines@.len() ==> #[trigger] final(self).splines@[i] == if touches(
                    old(self).splines@[i],
                    room_id@,
                ) {
                    with_accuracy(old(self).splines@[i], accuracy)
                } else {
                    old(self).splines@[i]
                },
    {
        let key = room_id.to_owned();
        let n: usize = self.splines.len();
        let mut i: usize = 0;
        while i < n
            invariant
                i <= n,
                n == self.splines@.len(),
                key@ == room_id@,
                self.rooms == old(self).rooms,
                old(self).splines@.len() == n,
                forall|j: int|
                    0 <= j < n ==> #[trigger] self.splines@[j] == if j < i && touches(
                        old(self).splines@[j],
                        room_id@,
                    ) {
                        with_accuracy(old(self).splines@[j], accuracy)
                    } else {
                        old(self).splines@[j]
                    },
            decreases n - i,
        {
            if self.splines[i].room_a == key || self.splines[i].room_b == key {
                self.splines[i].prediction_accuracy = accuracy;
            }
            i = i + 1;
        }
    }
}

/// Some one group holds both rooms of the spline.
pub open spec fn in_one_group<F>(groups: Seq<Seq<Seq<char>>>, s: Spline<F>) -> bool {
    exists|g: int| 0 <= g < groups.len() && #[trigger] shares_group(groups[g], s)
}

/// Both rooms of the spline are in the group.
pub open spec fn shares_group<F>(group: Seq<Seq<char>>, s: Spline<F>) -> bool {
    group.contains(s.room_a@) && group.contains(s.room_b@)
}

/// The two rooms at the ends of any spline, whatever its type, coefficient
/// or confidence, always fall in the same cluster.
pub proof fn lemma_spline_rooms_share_cluster<F>(
    t: CorrelationTopology<F>,
    groups: Seq<Seq<Seq<char>>>,
    k: int,
)
    requires
        t.splines_within_rooms(),
        is_clustering(t.room_names(), t.edges(), groups),
        0 <= k < t.splines@.len(),
    ensures
        in_one_group(groups, t.splines@[k]),
{
    let r = t.room_names();
    let e = t.edges();
    let a = t.splines@[k].room_a@;
    let b = t.splines@[k].room_b@;
    assert(e[k] == (e[k].0, e[k].1));
    assert(r.contains(e[k].0) && r.contains(e[k].1));
    assert(linked(e, e[k].0, e[k].1));
    lemma_connected_refl(e, e[k].0);
    lemma_connected_link(e, e[k].0, e[k].0, e[k].1);
    let ia = choose|i: int| 0 <= i < r.len() && r[i] == e[k].0;
    let ib = choose|i: int| 0 <= i < r.len() && r[i] == e[k].1;
    assert(in_some_group(e, groups, r[ia]));
    let g = choose|g: int| 0 <= g < groups.len() && #[trigger] connected(e, groups[g][0], r[ia]);
    lemma_connected_trans(e, groups[g][0], r[ia], r[ib]);
    assert(groups[g] == r.filter(connected_to(e, groups[g][0])));
    r.lemma_filter_contains(connected_to(e, groups[g][0]), ia);
    r.lemma_filter_contains(connected_to(e, groups[g][0]), ib);
    assert(e[k] == (a, b));
    assert(shares_group(groups[g], t.splines@[k]));
}

/// The topology's links are, one for one, the two rooms of each spline, in
/// spline order, whatever the spline's type.
pub proof fn lemma_edges_are_spline_rooms<F>(t: CorrelationTopology<F>)
    ensures
        t.edges().len() == t.splines@.len(),
        forall|k: int|
            0 <= k < t.splines@.len() ==> #[trigger] t.edges()[k] == (
                t.splines@[k].room_a@,
                t.splines@[k].room_b@,
            ),
{
}

} // verus!
