//! A room's signal over time.
use vstd::prelude::*;

verus! {

/// A room's signal over time: `(timestamp, value)` pairs in arrival order.
/// `F` is the type of the measured values.
#[derive(Debug, Clone)]
pub struct TimeSeries<F> {
    pub room_id: String,
    pub values: Vec<(u64, F)>,
}

/// Where the last `n` of `len` entries start.
pub open spec fn tail_start(len: nat, n: nat) -> nat {
    if n >= len {
        0
    } else {
        (len - n) as nat
    }
}

impl<F: Copy> TimeSeries<F> {
    /// An empty series for the room `room_id`.
    pub fn new(room_id: &str) -> (ts: Self)
        ensures
            ts.room_id@ == room_id@,
            ts.values@ == Seq::<(u64, F)>::empty(),
    {
        TimeSeries { room_id: room_id.to_owned(), values: Vec::new() }
    }

    /// Appends an observation.
    pub fn push(&mut self, timestamp: u64, value: F)
        ensures
            final(self).room_id == old(self).room_id,
            final(self).values@ == old(self).values@.push((timestamp, value)),
    {
        self.values.push((timestamp, value));
    }

    /// The last `n` observations, or all of them when there are fewer.
    pub fn last_n(&self, n: usize) -> (tail: Vec<(u64, F)>)
        ensures
            tail@ == self.values@.subrange(
                tail_start(self.values@.len(), n as nat) as int,
                self.values@.len() as int,
            ),
    {
        let len: usize = self.values.len();
        let start: usize = if n >= len {
            0
        } else {
            len - n
        };
        let mut tail: Vec<(u64, F)> = Vec::new();
        let mut i: usize = start;
        while i < len
            invariant
                start <= i <= len,
                len == self.values@.len(),
                start == tail_start(len as nat, n as nat),
                tail@ == self.values@.subrange(start as int, i as int),
            decreases len - i,
        {
            tail.push(self.values[i]);
            proof {
                assert(self.values@.subrange(start as int, i + 1) =~= self.values@.subrange(
                    start as int,
                    i as int,
                ).push(self.values@[i as int]));
            }
            i = i + 1;
        }
        tail
    }

    /// The number of observations.
    pub fn len(&self) -> (n: usize)
        ensures
            n == self.values@.len(),
    {
        self.values.len()
    }

    /// There are no observations.
    pub fn is_empty(&self) -> (b: bool)
        ensures
            b == (self.values@.len() == 0),
    {
        self.values.len() == 0
    }
}

} // verus!
