//! What a prediction for a room is built from.
use vstd::prelude::*;
use crate::detector::{observations_of, PenroseDetector};
use crate::spline::{touches, Spline, SplineType};
use crate::topology::CorrelationTopology;

verus! {

/// A neighbouring room's contribution to a prediction: the spline's
/// coefficient and confidence, and the room's latest value.
#[derive(Debug, Clone, Copy)]
pub struct NeighborReading<'a, F> {
    pub room_id: &'a str,
    pub coefficient: F,
    pub confidence: F,
    pub last_value: F,
}

/// A reading as plain values.
pub open spec fn reading_view<F>(r: NeighborReading<'_, F>) -> (Seq<char>, F, F, F) {
    (r.room_id@, r.coefficient, r.confidence, r.last_value)
}

/// The room at the other end of a spline that touches `room`.
pub open spec fn other_end<F>(s: Spline<F>, room: Seq<char>) -> Seq<char> {
    if s.room_a@ == room {
        s.room_b@
    } else {
        s.room_a@
    }
}

/// What a spline contributes to a prediction for `room`: nothing unless it
/// touches `room` and the room at its other end has observations.
pub open spec fn reading_from<F>(
    signals: Seq<(Seq<char>, Seq<(u64, F)>)>,
    room: Seq<char>,
) -> spec_fn(Spline<F>) -> Option<(Seq<char>, F, F, F)> {
    |s: Spline<F>|
        if touches(s, room) {
            match observations_of(signals, other_end(s, room)) {
                Some(obs) => if obs.len() > 0 {
                    Some((other_end(s, room), s.coefficient, s.confidence, obs.last().1))
                } else {
                    None
                },
                None => None,
            }
        } else {
            None
        }
}

/// Predicts rooms' next values from their correlated neighbours.
#[derive(Debug, Clone)]
pub struct PenrosePredictor<F> {
    pub detector: PenroseDetector<F>,
    pub topology: CorrelationTopology<F>,
}

impl<F: Copy> PenrosePredictor<F> {
    /// A predictor over the signals of `detector` and the splines found
    /// between them.
    pub fn new(detector: PenroseDetector<F>, topology: CorrelationTopology<F>) -> (p: Self)
        ensures
            p.detector == detector,
            p.topology == topology,
    {
        PenrosePredictor { detector, topology }
    }

    /// The readings of the rooms correlated with `room_id`, one for each
    /// spline that touches it and whose other room has observations, in
    /// spline order.
    pub fn neighbor_readings(&self, room_id: &str) -> (readings: Vec<NeighborReading<'_, F>>)
        ensures
            readings@.map_values(|r: NeighborReading<'_, F>| reading_view(r))
                == self.topology.splines@.filter_map(reading_from(self.detector.signals(), room_id@)),
    {
        let key = room_id.to_owned();
        let ghost f = reading_from(self.detector.signals(), room_id@);
        let splines = &self.topology.splines;
        let mut readings: Vec<NeighborReading<'_, F>> = Vec::new();
        let mut i: usize = 0;
        while i < splines.len()
            invariant
                i <= splines@.len(),
                splines == &self.topology.splines,
                key@ == room_id@,
                f == reading_from(self.detector.signals(), room_id@),
                readings@.map_values(|r: NeighborReading<'_, F>| reading_view(r))
                    == splines@.take(i as int).filter_map(f),
            decreases splines@.len() - i,
        {
            let ghost before = readings@;
            let s = &splines[i];
            proof {
                assert(splines@.take(i + 1).drop_last() =~= splines@.take(i as int));
                assert(splines@.take(i + 1).last() == splines@[i as int]);
            }
            if s.room_a == key || s.room_b == key {
                let other: &String = if s.room_a == key {
                    &s.room_b
                } else {
                    &s.room_a
                };
                match self.detector.series_of(other.as_str()) {
                    Some(series) => {
                        if !series.is_empty() {
                            let last = series.values[series.values.len() - 1].1;
                            readings.push(
                                NeighborReading {
                                    room_id: other.as_str(),
                                    coefficient: s.coefficient,
                                    confidence: s.confidence,
                                    last_value: last,
                                },
                            );
                            proof {
                                assert(readings@.map_values(
                                    |r: NeighborReading<'_, F>| reading_view(r),
                                ) =~= before.map_values(|r: NeighborReading<'_, F>| reading_view(r))
                                    + seq![f(splines@[i as int]).unwrap()]);
                            }
                        }
                    },
                    None => {},
                }
            }
            i = i + 1;
        }
        proof {
            assert(splines@.take(splines@.len() as int) =~= splines@);
        }
        readings
    }
}

/// What one spline contributes to a prediction for `room`: a reading
/// exactly when `room` is at one of its ends and the room at the other end
/// has observations; the reading names that other room and carries the
/// spline's own coefficient and confidence and that room's latest value.
/// Nothing here depends on the spline's type.
pub proof fn lemma_reading_of_spline<F>(
    signals: Seq<(Seq<char>, Seq<(u64, F)>)>,
    room: Seq<char>,
    s: Spline<F>,
)
    ensures
        !(s.room_a@ == room || s.room_b@ == room) ==> reading_from(signals, room)(s) is None,
        (s.room_a@ == room || s.room_b@ == room) ==> {
            let other = if s.room_a@ == room {
                s.room_b@
            } else {
                s.room_a@
            };
            match observations_of(signals, other) {
                Some(obs) => if obs.len() > 0 {
                    reading_from(signals, room)(s) == Some(
                        (other, s.coefficient, s.confidence, obs[obs.len() - 1].1),
                    )
                } else {
                    reading_from(signals, room)(s) is None
                },
                None => reading_from(signals, room)(s) is None,
            }
        },
{
}

/// Changing a spline's type changes nothing it contributes.
pub proof fn lemma_reading_ignores_type<F>(
    signals: Seq<(Seq<char>, Seq<(u64, F)>)>,
    room: Seq<char>,
    s: Spline<F>,
    t: SplineType,
)
    ensures
        reading_from(signals, room)(Spline { spline_type: t, ..s }) == reading_from(signals, room)(s),
{
}

/// One more spline adds at most its own reading at the end of the list, and
/// adds one exactly when the room is at one of its ends and the room at the
/// other end has observations.
pub proof fn lemma_readings_push<F>(
    signals: Seq<(Seq<char>, Seq<(u64, F)>)>,
    room: Seq<char>,
    splines: Seq<Spline<F>>,
    s: Spline<F>,
)
    ensures
        splines.push(s).filter_map(reading_from(signals, room)) == match reading_from(signals, room)(s) {
            Some(r) => splines.filter_map(reading_from(signals, room)).push(r),
            None => splines.filter_map(reading_from(signals, room)),
        },
        splines.push(s).filter_map(reading_from(signals, room)).len() == splines.filter_map(
            reading_from(signals, room),
        ).len() + if (s.room_a@ == room || s.room_b@ == room) && match observations_of(
            signals,
            if s.room_a@ == room {
                s.room_b@
            } else {
                s.room_a@
            },
        ) {
            Some(obs) => obs.len() > 0,
            None => false,
        } {
            1int
        } else {
            0int
        },
{
    let f = reading_from(signals, room);
    assert(splines.push(s).drop_last() =~= splines);
    assert(splines.push(s).last() == s);
    lemma_reading_of_spline(signals, room, s);
    match f(s) {
        Some(r) => {
            assert(splines.filter_map(f) + seq![r] =~= splines.filter_map(f).push(r));
        },
        None => {},
    }
}

} // verus!
