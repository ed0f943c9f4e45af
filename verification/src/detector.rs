//! The store of room signals that correlations are detected from.
use vstd::prelude::*;
use crate::components::{
    first_position, is_first_of, lemma_first_position, lemma_first_unique, names,
};
use crate::name_order::{names_sorted, sorted_names};
use crate::series::TimeSeries;

verus! {

/// Each room's name with its observations, in the order rooms first appeared.
pub open spec fn signals_of<F>(series: Seq<TimeSeries<F>>) -> Seq<(Seq<char>, Seq<(u64, F)>)> {
    series.map_values(|s: TimeSeries<F>| (s.room_id@, s.values@))
}

/// The room names of a list of signals.
pub open spec fn signal_names<F>(signals: Seq<(Seq<char>, Seq<(u64, F)>)>) -> Seq<Seq<char>> {
    signals.map_values(|e: (Seq<char>, Seq<(u64, F)>)| e.0)
}

/// The observations recorded for `room`, if it has any record.
pub open spec fn observations_of<F>(
    signals: Seq<(Seq<char>, Seq<(u64, F)>)>,
    room: Seq<char>,
) -> Option<Seq<(u64, F)>> {
    let ids = signal_names(signals);
    if ids.contains(room) {
        Some(signals[first_position(ids, room)].1)
    } else {
        None
    }
}

/// The signals after recording `obs` for `room`: appended to the room's
/// observations, or as the first observation of a new room at the end.
pub open spec fn with_observation<F>(
    signals: Seq<(Seq<char>, Seq<(u64, F)>)>,
    room: Seq<char>,
    obs: (u64, F),
) -> Seq<(Seq<char>, Seq<(u64, F)>)> {
    let ids = signal_names(signals);
    if ids.contains(room) {
        let i = first_position(ids, room);
        signals.update(i, (room, signals[i].1.push(obs)))
    } else {
        signals.push((room, seq![obs]))
    }
}

/// The samples that the correlation of `a` and `b` is computed from: the
/// last `n` observations of each, where `n` is the shorter length; none
/// when either room is unknown or has fewer than `min_samples`.
pub open spec fn tails_of<F>(
    signals: Seq<(Seq<char>, Seq<(u64, F)>)>,
    a: Seq<char>,
    b: Seq<char>,
    min_samples: nat,
) -> Option<(Seq<(u64, F)>, Seq<(u64, F)>)> {
    match (observations_of(signals, a), observations_of(signals, b)) {
        (Some(va), Some(vb)) => if va.len() < min_samples || vb.len() < min_samples {
            None
        } else {
            let n = if va.len() <= vb.len() { va.len() } else { vb.len() };
            Some(
                (
                    va.subrange(va.len() - n, va.len() as int),
                    vb.subrange(vb.len() - n, vb.len() as int),
                ),
            )
        },
        _ => None,
    }
}

/// Detects correlations between rooms from their signals. `F` is the type
/// of measured values and of the detection threshold.
#[derive(Debug, Clone)]
pub struct PenroseDetector<F> {
    pub series: Vec<TimeSeries<F>>,
    pub min_samples: usize,
    pub threshold: F,
}

impl<F: Copy> PenroseDetector<F> {
    /// The signals held, by room.
    pub open spec fn signals(&self) -> Seq<(Seq<char>, Seq<(u64, F)>)> {
        signals_of(self.series@)
    }

    /// The names of the rooms held.
    pub open spec fn ids(&self) -> Seq<Seq<char>> {
        signal_names(self.signals())
    }

    /// A detector with no signals yet.
    pub fn new(min_samples: usize, threshold: F) -> (d: Self)
        ensures
            d.series@.len() == 0,
            d.min_samples == min_samples,
            d.threshold == threshold,
    {
        PenroseDetector { series: Vec::new(), min_samples, threshold }
    }

    /// The position of the series of `room_id`.
    fn position_of(&self, room_id: &str) -> (r: Option<usize>)
        ensures
            match r {
                Some(i) => is_first_of(self.ids(), i as int, room_id@),
                None => !self.ids().contains(room_id@),
            },
    {
        let key = room_id.to_owned();
        let mut i: usize = 0;
        while i < self.series.len()
            invariant
                i <= self.series@.len(),
                key@ == room_id@,
                forall|j: int| 0 <= j < i ==> #[trigger] self.ids()[j] != room_id@,
            decreases self.series@.len() - i,
        {
            if self.series[i].room_id == key {
                return Some(i);
            }
            i = i + 1;
        }
        None
    }

    /// Records the observation `(timestamp, value)` for `room_id`, starting
    /// a series for it when it has none.
    pub fn observe(&mut self, room_id: &str, timestamp: u64, value: F)
        ensures
            final(self).min_samples == old(self).min_samples,
            final(self).threshold == old(self).threshold,
            final(self).signals() == with_observation(
                old(self).signals(),
                room_id@,
                (timestamp, value),
            ),
    {
        match self.position_of(room_id) {
            Some(i) => {
                proof {
                    lemma_first_position(self.ids(), room_id@);
                    lemma_first_unique(
                        self.ids(),
                        i as int,
                        first_position(self.ids(), room_id@),
                        room_id@,
                    );
                }
                self.series[i].push(timestamp, value);
                proof {
                    assert(self.signals() =~= with_observation(
                        old(self).signals(),
                        room_id@,
                        (timestamp, value),
                    ));
                }
            },
            None => {
                let mut ts = TimeSeries::new(room_id);
                ts.push(timestamp, value);
                self.series.push(ts);
                proof {
                    assert(self.signals() =~= with_observation(
                        old(self).signals(),
                        room_id@,
                        (timestamp, value),
                    ));
                }
            },
        }
    }

    /// The series of `room_id`, if it has one.
    pub fn series_of(&self, room_id: &str) -> (r: Option<&TimeSeries<F>>)
        ensures
            match r {
                Some(s) => observations_of(self.signals(), room_id@) == Some(s.values@)
                    && s.room_id@ == room_id@,
                None => observations_of(self.signals(), room_id@) is None,
            },
    {
        match self.position_of(room_id) {
            Some(i) => {
                proof {
                    lemma_first_position(self.ids(), room_id@);
                    lemma_first_unique(
                        self.ids(),
                        i as int,
                        first_position(self.ids(), room_id@),
                        room_id@,
                    );
                }
                Some(&self.series[i])
            },
            None => None,
        }
    }

    /// The names of the rooms held, sorted.
    pub fn sorted_room_ids(&self) -> (ids: Vec<String>)
        ensures
            names(ids@).to_multiset() == self.ids().to_multiset(),
            names_sorted(names(ids@)),
    {
        sorted_names(&self.room_ids())
    }

    /// The aligned tails of the signals of `a` and `b` that their
    /// correlation is computed from.
    pub fn paired_tails(&self, a: &str, b: &str) -> (r: Option<(Vec<(u64, F)>, Vec<(u64, F)>)>)
        ensures
            match r {
                Some((ta, tb)) => tails_of(self.signals(), a@, b@, self.min_samples as nat) == Some(
                    (ta@, tb@),
                ),
                None => tails_of(self.signals(), a@, b@, self.min_samples as nat) is None,
            },
            observations_of(self.signals(), a@) matches Some(va) && va.len() < self.min_samples
                ==> r is None,
            observations_of(self.signals(), b@) matches Some(vb) && vb.len() < self.min_samples
                ==> r is None,
            r matches Some((ta, tb)) ==> ta@.len() >= self.min_samples && tb@.len() == ta@.len(),
    {
        proof {
            lemma_tails_need_min_samples(self.signals(), a@, b@, self.min_samples as nat);
        }
        let sa = match self.series_of(a) {
            Some(s) => s,
            None => return None,
        };
        let sb = match self.series_of(b) {
            Some(s) => s,
            None => return None,
        };
        if sa.len() < self.min_samples || sb.len() < self.min_samples {
            return None;
        }
        let n: usize = if sa.len() <= sb.len() {
            sa.len()
        } else {
            sb.len()
        };
        Some((sa.last_n(n), sb.last_n(n)))
    }

    /// The names of the rooms held, in the order they first appeared.
    pub fn room_ids(&self) -> (ids: Vec<String>)
        ensures
            names(ids@) == self.ids(),
    {
        let mut ids: Vec<String> = Vec::new();
        let mut i: usize = 0;
        while i < self.series.len()
            invariant
                i <= self.series@.len(),
                names(ids@) == self.ids().take(i as int),
            decreases self.series@.len() - i,
        {
            let ghost before = ids@;
            ids.push(self.series[i].room_id.clone());
            proof {
                assert(self.ids()[i as int] == self.series@[i as int].room_id@);
                assert(names(ids@) =~= names(before).push(self.series@[i as int].room_id@));
                assert(names(ids@) =~= self.ids().take(i + 1));
            }
            i = i + 1;
        }
        proof {
            assert(self.ids().take(self.series@.len() as int) =~= self.ids());
        }
        ids
    }
}

/// Recording an observation appends it to that room's observations, or
/// starts them with it, and leaves every other room's observations as they
/// were.
pub proof fn lemma_observe_then_lookup<F>(
    signals: Seq<(Seq<char>, Seq<(u64, F)>)>,
    room: Seq<char>,
    obs: (u64, F),
    other: Seq<char>,
)
    ensures
        observations_of(with_observation(signals, room, obs), room) == Some(
            match observations_of(signals, room) {
                Some(values) => values.push(obs),
                None => seq![obs],
            },
        ),
        other != room ==> observations_of(with_observation(signals, room, obs), other)
            == observations_of(signals, other),
{
    let ids = signal_names(signals);
    let after = with_observation(signals, room, obs);
    let ids2 = signal_names(after);
    if ids.contains(room) {
        lemma_first_position(ids, room);
        let i = first_position(ids, room);
        assert(ids2 =~= ids);
        if ids.contains(other) && other != room {
            lemma_first_position(ids, other);
        }
    } else {
        assert(ids2 =~= ids.push(room));
        assert(ids2[ids.len() as int] == room);
        lemma_first_position(ids2, room);
        let j = first_position(ids2, room);
        assert(is_first_of(ids2, ids.len() as int, room));
        lemma_first_unique(ids2, j, ids.len() as int, room);
        if ids.contains(other) && other != room {
            lemma_first_position(ids, other);
            let k = choose|k: int| 0 <= k < ids.len() && ids[k] == other;
            assert(ids2[k] == other);
            lemma_first_position(ids2, other);
            lemma_first_unique(
                ids2,
                first_position(ids2, other),
                first_position(ids, other),
                other,
            );
        }
        if ids2.contains(other) && other != room {
            let k = choose|k: int| 0 <= k < ids2.len() && ids2[k] == other;
            assert(ids[k] == other);
        }
    }
}

/// Recording an observation never gives two series the same room name.
pub proof fn lemma_observe_keeps_names_distinct<F>(
    signals: Seq<(Seq<char>, Seq<(u64, F)>)>,
    room: Seq<char>,
    obs: (u64, F),
)
    requires
        signal_names(signals).no_duplicates(),
    ensures
        signal_names(with_observation(signals, room, obs)).no_duplicates(),
{
    let ids = signal_names(signals);
    let ids2 = signal_names(with_observation(signals, room, obs));
    if ids.contains(room) {
        lemma_first_position(ids, room);
        assert(ids2 =~= ids);
    } else {
        assert(ids2 =~= ids.push(room));
    }
}

/// The samples for a pair are those for the reversed pair, swapped.
pub proof fn lemma_tails_swap<F>(
    signals: Seq<(Seq<char>, Seq<(u64, F)>)>,
    a: Seq<char>,
    b: Seq<char>,
    min_samples: nat,
)
    ensures
        tails_of(signals, a, b, min_samples) == match tails_of(signals, b, a, min_samples) {
            Some((tb, ta)) => Some((ta, tb)),
            None => None,
        },
{
}

/// A room paired with itself gives the same samples on both sides.
pub proof fn lemma_tails_self<F>(
    signals: Seq<(Seq<char>, Seq<(u64, F)>)>,
    a: Seq<char>,
    min_samples: nat,
)
    ensures
        tails_of(signals, a, a, min_samples) matches Some((ta, tb)) ==> ta == tb,
{
}

/// The correlation of two rooms is computed only when each has at least
/// `min_samples` observations: no samples at all otherwise; and when there
/// are samples, both tails have the same length, at least `min_samples`,
/// the length of the shorter signal, and each is the end of its room's
/// observations.
pub proof fn lemma_tails_need_min_samples<F>(
    signals: Seq<(Seq<char>, Seq<(u64, F)>)>,
    a: Seq<char>,
    b: Seq<char>,
    min_samples: nat,
)
    ensures
        observations_of(signals, a) is None ==> tails_of(signals, a, b, min_samples) is None,
        observations_of(signals, b) is None ==> tails_of(signals, a, b, min_samples) is None,
        observations_of(signals, a) matches Some(va) && va.len() < min_samples ==> tails_of(
            signals,
            a,
            b,
            min_samples,
        ) is None,
        observations_of(signals, b) matches Some(vb) && vb.len() < min_samples ==> tails_of(
            signals,
            a,
            b,
            min_samples,
        ) is None,
        tails_of(signals, a, b, min_samples) matches Some((ta, tb)) ==> {
            let va = observations_of(signals, a).unwrap();
            let vb = observations_of(signals, b).unwrap();
            &&& ta.len() == tb.len()
            &&& ta.len() >= min_samples
            &&& (ta.len() == va.len() || ta.len() == vb.len())
            &&& ta.len() <= va.len() && ta.len() <= vb.len()
            &&& va.len() >= min_samples && vb.len() >= min_samples
            &&& forall|i: int| 0 <= i < ta.len() ==> #[trigger] ta[i] == va[va.len() - ta.len() + i]
            &&& forall|i: int| 0 <= i < tb.len() ==> #[trigger] tb[i] == vb[vb.len() - tb.len() + i]
        },
{
}

/// A room's recorded observations are those stored under its name, at its
/// first entry; a room with no entry has none.
pub proof fn lemma_observations_of<F>(signals: Seq<(Seq<char>, Seq<(u64, F)>)>, room: Seq<char>)
    ensures
        observations_of(signals, room) is None <==> forall|i: int|
            0 <= i < signals.len() ==> #[trigger] signals[i].0 != room,
        observations_of(signals, room) matches Some(v) ==> exists|i: int|
            0 <= i < signals.len() && #[trigger] signals[i] == (room, v) && forall|j: int|
                0 <= j < i ==> #[trigger] signals[j].0 != room,
{
    let ids = signal_names(signals);
    if ids.contains(room) {
        lemma_first_position(ids, room);
        let i = first_position(ids, room);
        assert(signals[i].0 == room);
        assert forall|j: int| 0 <= j < i implies #[trigger] signals[j].0 != room by {
            assert(ids[j] == signals[j].0);
        }
    } else {
        assert forall|i: int| 0 <= i < signals.len() implies #[trigger] signals[i].0 != room by {
            assert(ids[i] == signals[i].0);
        }
    }
}

} // verus!
