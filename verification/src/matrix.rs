//! A symmetric matrix of correlation coefficients between named rooms.
use vstd::prelude::*;
use crate::components::{
    first_index, first_position, is_first_of, lemma_first_position, lemma_first_unique, names,
};

verus! {

/// An N×N matrix of coefficients between the rooms, indexed by room name.
/// `F` is the type of the coefficients.
#[derive(Debug, Clone)]
pub struct CorrelationMatrix<F> {
    pub rooms: Vec<String>,
    pub values: Vec<Vec<F>>,
}

/// The coefficient between the rooms named `a` and `b`: the entry at their
/// first positions, or none when one of them is not a room.
pub open spec fn entry_in<F>(
    rooms: Seq<Seq<char>>,
    rows: Seq<Seq<F>>,
    a: Seq<char>,
    b: Seq<char>,
) -> Option<F> {
    if rooms.contains(a) && rooms.contains(b) {
        Some(rows[first_position(rooms, a)][first_position(rooms, b)])
    } else {
        None
    }
}

/// The rows after storing `v` between `a` and `b`, both ways; unchanged
/// when one of them is not a room.
pub open spec fn stored_in<F>(
    rooms: Seq<Seq<char>>,
    rows: Seq<Seq<F>>,
    a: Seq<char>,
    b: Seq<char>,
    v: F,
) -> Seq<Seq<F>> {
    if rooms.contains(a) && rooms.contains(b) {
        let i = first_position(rooms, a);
        let j = first_position(rooms, b);
        Seq::new(
            rows.len(),
            |p: int|
                Seq::new(
                    rows[p].len(),
                    |q: int|
                        if (p == i && q == j) || (p == j && q == i) {
                            v
                        } else {
                            rows[p][q]
                        },
                ),
        )
    } else {
        rows
    }
}

/// The rows are square, of the size given.
pub open spec fn is_square<F>(rows: Seq<Seq<F>>, n: nat) -> bool {
    rows.len() == n && forall|p: int| 0 <= p < n ==> #[trigger] rows[p].len() == n
}

/// Entry `(p, q)` equals entry `(q, p)`.
pub open spec fn is_symmetric<F>(rows: Seq<Seq<F>>) -> bool {
    forall|p: int, q: int|
        0 <= p < rows.len() && 0 <= q < rows.len() ==> #[trigger] rows[p][q]
            == #[trigger] rows[q][p]
}

impl<F: Copy> CorrelationMatrix<F> {
    /// The names of the rooms.
    pub open spec fn room_names(&self) -> Seq<Seq<char>> {
        names(self.rooms@)
    }

    /// The rows, as sequences.
    pub open spec fn rows(&self) -> Seq<Seq<F>> {
        self.values@.map_values(|row: Vec<F>| row@)
    }

    /// One row and one column per room.
    pub open spec fn wf(&self) -> bool {
        is_square(self.rows(), self.rooms@.len())
    }

    /// The coefficient between the rooms named `a` and `b`.
    pub open spec fn entry(&self, a: Seq<char>, b: Seq<char>) -> Option<F> {
        entry_in(self.room_names(), self.rows(), a, b)
    }

    /// A matrix over `rooms` with every entry `fill`.
    pub fn new(rooms: Vec<String>, fill: F) -> (m: Self)
        ensures
            m.rooms == rooms,
            m.wf(),
            is_symmetric(m.rows()),
            forall|p: int, q: int|
                0 <= p < rooms@.len() && 0 <= q < rooms@.len() ==> #[trigger] m.rows()[p][q]
                    == fill,
    {
        let n: usize = rooms.len();
        let mut values: Vec<Vec<F>> = Vec::new();
        let mut i: usize = 0;
        while i < n
            invariant
                i <= n,
                values@.len() == i,
                forall|p: int|
                    0 <= p < i ==> #[trigger] values@[p]@ == Seq::new(n as nat, |q: int| fill),
            decreases n - i,
        {
            let mut row: Vec<F> = Vec::new();
            let mut j: usize = 0;
            while j < n
                invariant
                    j <= n,
                    row@ == Seq::new(j as nat, |q: int| fill),
                decreases n - j,
            {
                row.push(fill);
                proof {
                    assert(row@ =~= Seq::new((j + 1) as nat, |q: int| fill));
                }
                j = j + 1;
            }
            values.push(row);
            i = i + 1;
        }
        let m = CorrelationMatrix { rooms, values };
        proof {
            assert forall|p: int| 0 <= p < n implies #[trigger] m.rows()[p].len() == n by {
                assert(m.rows()[p] == values@[p]@);
            }
            assert forall|p: int, q: int| 0 <= p < n && 0 <= q < n implies #[trigger] m.rows()[p][q]
                == fill by {
                assert(m.rows()[p] == values@[p]@);
            }
        }
        m
    }

    /// The position of the first room named `room`.
    pub fn index_of(&self, room: &str) -> (r: Option<usize>)
        ensures
            match r {
                Some(i) => is_first_of(self.room_names(), i as int, room@),
                None => !self.room_names().contains(room@),
            },
    {
        first_index(&self.rooms, &room.to_owned())
    }

    /// The coefficient between `room_a` and `room_b`, if both are rooms.
    pub fn get(&self, room_a: &str, room_b: &str) -> (r: Option<F>)
        requires
            self.wf(),
        ensures
            r == self.entry(room_a@, room_b@),
    {
        let i: usize = match self.index_of(room_a) {
            Some(i) => i,
            None => return None,
        };
        let j: usize = match self.index_of(room_b) {
            Some(j) => j,
            None => return None,
        };
        proof {
            lemma_first_position(self.room_names(), room_a@);
            lemma_first_position(self.room_names(), room_b@);
            lemma_first_unique(
                self.room_names(),
                i as int,
                first_position(self.room_names(), room_a@),
                room_a@,
            );
            lemma_first_unique(
                self.room_names(),
                j as int,
                first_position(self.room_names(), room_b@),
                room_b@,
            );
            assert(self.rows()[i as int] == self.values@[i as int]@);
        }
        Some(self.values[i][j])
    }

    /// Stores `value` between `room_a` and `room_b`, both ways; does nothing
    /// when one of them is not a room.
    pub fn set(&mut self, room_a: &str, room_b: &str, value: F)
        requires
            old(self).wf(),
        ensures
            final(self).wf(),
            final(self).rooms == old(self).rooms,
            final(self).rows() == stored_in(
                old(self).room_names(),
                old(self).rows(),
                room_a@,
                room_b@,
                value,
            ),
    {
        let oi = self.index_of(room_a);
        let oj = self.index_of(room_b);
        if let (Some(i), Some(j)) = (oi, oj) {
            proof {
                lemma_first_position(self.room_names(), room_a@);
                lemma_first_position(self.room_names(), room_b@);
                lemma_first_unique(
                self.room_names(),
                i as int,
                first_position(self.room_names(), room_a@),
                room_a@,
            );
                lemma_first_unique(
                self.room_names(),
                j as int,
                first_position(self.room_names(), room_b@),
                room_b@,
            );
                assert(self.rows()[i as int] == self.values@[i as int]@);
                assert(self.rows()[j as int] == self.values@[j as int]@);
            }
            self.values[i][j] = value;
            self.values[j][i] = value;
            proof {
                let target = stored_in(
                    old(self).room_names(),
                    old(self).rows(),
                    room_a@,
                    room_b@,
                    value,
                );
                assert forall|p: int| 0 <= p < self.rows().len() implies #[trigger] self.rows()[p]
                    =~= target[p] by {
                    assert(self.rows()[p] == self.values@[p]@);
                    assert(old(self).rows()[p] == old(self).values@[p]@);
                }
                assert(self.rows() =~= target);
            }
        } else {
            proof {
                if self.room_names().contains(room_a@) && self.room_names().contains(room_b@) {
                    assert(false);
                }
            }
        }
    }
}

/// After storing `v` between `a` and `b`, the coefficient between them is
/// `v`, read either way round.
pub proof fn lemma_stored_entry<F>(
    rooms: Seq<Seq<char>>,
    rows: Seq<Seq<F>>,
    a: Seq<char>,
    b: Seq<char>,
    v: F,
)
    requires
        is_square(rows, rooms.len()),
        rooms.contains(a),
        rooms.contains(b),
    ensures
        entry_in(rooms, stored_in(rooms, rows, a, b, v), a, b) == Some(v),
        entry_in(rooms, stored_in(rooms, rows, a, b, v), b, a) == Some(v),
{
    lemma_first_position(rooms, a);
    lemma_first_position(rooms, b);
}

/// Storing between `a` and `b` leaves the coefficient of every other pair
/// of names as it was.
pub proof fn lemma_stored_other_entry<F>(
    rooms: Seq<Seq<char>>,
    rows: Seq<Seq<F>>,
    a: Seq<char>,
    b: Seq<char>,
    v: F,
    c: Seq<char>,
    d: Seq<char>,
)
    requires
        is_square(rows, rooms.len()),
        !((c == a && d == b) || (c == b && d == a)),
    ensures
        entry_in(rooms, stored_in(rooms, rows, a, b, v), c, d) == entry_in(rooms, rows, c, d),
{
    if rooms.contains(a) && rooms.contains(b) && rooms.contains(c) && rooms.contains(d) {
        lemma_first_position(rooms, a);
        lemma_first_position(rooms, b);
        lemma_first_position(rooms, c);
        lemma_first_position(rooms, d);
    }
}

/// Storing keeps a symmetric matrix symmetric.
pub proof fn lemma_stored_symmetric<F>(
    rooms: Seq<Seq<char>>,
    rows: Seq<Seq<F>>,
    a: Seq<char>,
    b: Seq<char>,
    v: F,
)
    requires
        is_square(rows, rooms.len()),
        is_symmetric(rows),
    ensures
        is_symmetric(stored_in(rooms, rows, a, b, v)),
{
    if rooms.contains(a) && rooms.contains(b) {
        lemma_first_position(rooms, a);
        lemma_first_position(rooms, b);
        let s = stored_in(rooms, rows, a, b, v);
        assert forall|p: int, q: int|
            0 <= p < s.len() && 0 <= q < s.len() implies #[trigger] s[p][q]
            == #[trigger] s[q][p] by {
            assert(rows[p][q] == rows[q][p]);
        }
    }
}

/// In a symmetric matrix the coefficient between two rooms reads the same
/// either way round.
pub proof fn lemma_symmetric_entry<F>(
    rooms: Seq<Seq<char>>,
    rows: Seq<Seq<F>>,
    a: Seq<char>,
    b: Seq<char>,
)
    requires
        is_square(rows, rooms.len()),
        is_symmetric(rows),
    ensures
        entry_in(rooms, rows, a, b) == entry_in(rooms, rows, b, a),
{
    if rooms.contains(a) && rooms.contains(b) {
        lemma_first_position(rooms, a);
        lemma_first_position(rooms, b);
        let i = first_position(rooms, a);
        let j = first_position(rooms, b);
        assert(rows[i][j] == rows[j][i]);
    }
}

/// The coefficient between two names is there exactly when both are rooms,
/// and it is the entry at the first row named `a` and the first column
/// named `b`.
pub proof fn lemma_entry_in<F>(rooms: Seq<Seq<char>>, rows: Seq<Seq<F>>, a: Seq<char>, b: Seq<char>)
    ensures
        entry_in(rooms, rows, a, b) is Some <==> rooms.contains(a) && rooms.contains(b),
        entry_in(rooms, rows, a, b) matches Some(x) ==> exists|i: int, j: int|
            is_first_of(rooms, i, a) && is_first_of(rooms, j, b) && #[trigger] rows[i][j] == x,
{
    if rooms.contains(a) && rooms.contains(b) {
        lemma_first_position(rooms, a);
        lemma_first_position(rooms, b);
        let i = first_position(rooms, a);
        let j = first_position(rooms, b);
        assert(rows[i][j] == rows[i][j]);
    }
}

} // verus!
