use vstd::prelude::*;

verus! {

/// The kind of link a spline stands for.
#[derive(Debug, Clone, Copy, PartialEq, Eq, Structural)]
pub enum SplineType {
    Causal,
    Resonant,
    Predictive,
    Synergistic,
    Redundant,
}

/// The band a correlation coefficient `r` falls in.
///
/// - `AboveSynergy`: `r > 0.95`
/// - `Strong`: `0.7 < r <= 0.95`
/// - `Moderate`: `0.3 < r <= 0.7`
/// - `StrongNegative`: `r < -0.7`
/// - `ModerateNegative`: `-0.7 <= r < -0.3`
/// - `Weak`: every other value
#[derive(Debug, Clone, Copy, PartialEq, Eq, Structural)]
pub enum CoefficientBand {
    AboveSynergy,
    Strong,
    Moderate,
    StrongNegative,
    ModerateNegative,
    Weak,
}

/// The classification rule: which spline type a coefficient band gives,
/// where `autocorrelated_a` / `autocorrelated_b` say whether the lag-1
/// autocorrelation of each room is above one half.
pub open spec fn classification(
    band: CoefficientBand,
    autocorrelated_a: bool,
    autocorrelated_b: bool,
) -> SplineType {
    match band {
        CoefficientBand::AboveSynergy => SplineType::Synergistic,
        CoefficientBand::Strong => SplineType::Predictive,
        CoefficientBand::Moderate => if autocorrelated_a && autocorrelated_b {
            SplineType::Resonant
        } else {
            SplineType::Causal
        },
        CoefficientBand::StrongNegative => SplineType::Redundant,
        CoefficientBand::ModerateNegative => SplineType::Causal,
        CoefficientBand::Weak => SplineType::Resonant,
    }
}

/// Decides the type of a spline from the band of its coefficient and from
/// whether both rooms are autocorrelated.
pub fn spline_type_for(
    band: CoefficientBand,
    autocorrelated_a: bool,
    autocorrelated_b: bool,
) -> (t: SplineType)
    ensures
        t == classification(band, autocorrelated_a, autocorrelated_b),
        band == CoefficientBand::AboveSynergy ==> t == SplineType::Synergistic,
        band == CoefficientBand::Strong ==> t == SplineType::Predictive,
        band == CoefficientBand::Moderate ==> t == (if autocorrelated_a && autocorrelated_b {
            SplineType::Resonant
        } else {
            SplineType::Causal
        }),
        band == CoefficientBand::StrongNegative ==> t == SplineType::Redundant,
        band == CoefficientBand::ModerateNegative ==> t == SplineType::Causal,
        band == CoefficientBand::Weak ==> t == SplineType::Resonant,
{
    match band {
        CoefficientBand::AboveSynergy => SplineType::Synergistic,
        CoefficientBand::Strong => SplineType::Predictive,
        CoefficientBand::Moderate => {
            if autocorrelated_a && autocorrelated_b {
                SplineType::Resonant
            } else {
                SplineType::Causal
            }
        },
        CoefficientBand::StrongNegative => SplineType::Redundant,
        CoefficientBand::ModerateNegative => SplineType::Causal,
        CoefficientBand::Weak => SplineType::Resonant,
    }
}

/// A detected correlation link between two rooms. `F` is the type of the
/// measured quantities: the coefficient, the confidence and the accuracy of
/// the predictions made through it.
#[derive(Debug, Clone)]
pub struct Spline<F> {
    pub id: String,
    pub room_a: String,
    pub room_b: String,
    pub coefficient: F,
    pub spline_type: SplineType,
    pub detected_at: u64,
    pub confidence: F,
    pub prediction_accuracy: F,
}

/// The spline has the room named `room` at one of its ends.
pub open spec fn touches<F>(s: Spline<F>, room: Seq<char>) -> bool {
    s.room_a@ == room || s.room_b@ == room
}

/// The splines that touch `room`, as a predicate.
pub open spec fn touching<F>(room: Seq<char>) -> spec_fn(Spline<F>) -> bool {
    |s: Spline<F>| touches(s, room)
}

/// The names at the two ends of each spline.
pub open spec fn spline_ends<F>(splines: Seq<Spline<F>>) -> Seq<(Seq<char>, Seq<char>)> {
    splines.map_values(|s: Spline<F>| (s.room_a@, s.room_b@))
}

/// The number of splines that touch `room`.
pub open spec fn degree_in<F>(splines: Seq<Spline<F>>, room: Seq<char>) -> nat {
    splines.filter(touching(room)).len()
}

/// The spline with its prediction accuracy replaced.
pub open spec fn with_accuracy<F>(s: Spline<F>, accuracy: F) -> Spline<F> {
    Spline { prediction_accuracy: accuracy, ..s }
}

/// Autocorrelation decides only between Resonant and Causal for a moderate
/// positive coefficient: in every other band the type is the same whatever
/// the two rooms' autocorrelation, and a strongly negative coefficient is
/// always Redundant.
pub proof fn lemma_autocorrelation_matters_only_when_moderate(
    band: CoefficientBand,
    a1: bool,
    b1: bool,
    a2: bool,
    b2: bool,
)
    ensures
        band != CoefficientBand::Moderate ==> classification(band, a1, b1) == classification(
            band,
            a2,
            b2,
        ),
        band == CoefficientBand::StrongNegative ==> classification(band, a1, b1)
            == SplineType::Redundant,
        band == CoefficientBand::Moderate ==> (classification(band, a1, b1) == SplineType::Resonant
            <==> a1 && b1),
        classification(band, a1, b1) == SplineType::Redundant <==> band
            == CoefficientBand::StrongNegative,
        classification(band, a1, b1) == SplineType::Synergistic <==> band
            == CoefficientBand::AboveSynergy,
        classification(band, a1, b1) == SplineType::Predictive <==> band == CoefficientBand::Strong,
{
}

/// No spline touches a room in an empty list.
pub proof fn lemma_degree_empty<F>(room: Seq<char>)
    ensures
        degree_in(Seq::<Spline<F>>::empty(), room) == 0,
{
    reveal(Seq::filter);
}

/// One more spline adds one to a room's degree exactly when the room is at
/// one of its two ends, whatever the spline's type, coefficient or
/// confidence.
pub proof fn lemma_degree_push<F>(splines: Seq<Spline<F>>, s: Spline<F>, room: Seq<char>)
    ensures
        degree_in(splines.push(s), room) == degree_in(splines, room) + if s.room_a@ == room
            || s.room_b@ == room {
            1int
        } else {
            0int
        },
{
    reveal(Seq::filter);
    assert(splines.push(s).drop_last() =~= splines);
}

/// A room's degree does not depend on the types of the splines: retyping
/// one spline leaves every degree as it was.
pub proof fn lemma_degree_ignores_type<F>(
    splines: Seq<Spline<F>>,
    k: int,
    t: SplineType,
    room: Seq<char>,
)
    requires
        0 <= k < splines.len(),
    ensures
        degree_in(splines.update(k, Spline { spline_type: t, ..splines[k] }), room) == degree_in(
            splines,
            room,
        ),
    decreases splines.len(),
{
    let other = splines.update(k, Spline { spline_type: t, ..splines[k] });
    let n = splines.len() - 1;
    lemma_degree_push(splines.drop_last(), splines[n], room);
    assert(splines.drop_last().push(splines[n]) =~= splines);
    if k == n {
        assert(other.drop_last() =~= splines.drop_last());
        lemma_degree_push(splines.drop_last(), other[n], room);
        assert(splines.drop_last().push(other[n]) =~= other);
    } else {
        lemma_degree_ignores_type(splines.drop_last(), k, t, room);
        assert(other.drop_last() =~= splines.drop_last().update(k, Spline { spline_type: t, ..splines[k] }));
        lemma_degree_push(other.drop_last(), other[n], room);
        assert(other.drop_last().push(other[n]) =~= other);
    }
}

/// A spline touches a room exactly when the room is at one of its two ends,
/// whatever the spline's type.
pub proof fn lemma_touching<F>(s: Spline<F>, room: Seq<char>)
    ensures
        touching(room)(s) <==> (s.room_a@ == room || s.room_b@ == room),
        touches(s, room) <==> (s.room_a@ == room || s.room_b@ == room),
{
}

/// Replacing the accuracy changes the accuracy and nothing else.
pub proof fn lemma_with_accuracy<F>(s: Spline<F>, accuracy: F)
    ensures
        with_accuracy(s, accuracy).prediction_accuracy == accuracy,
        with_accuracy(s, accuracy).id == s.id,
        with_accuracy(s, accuracy).room_a == s.room_a,
        with_accuracy(s, accuracy).room_b == s.room_b,
        with_accuracy(s, accuracy).coefficient == s.coefficient,
        with_accuracy(s, accuracy).spline_type == s.spline_type,
        with_accuracy(s, accuracy).detected_at == s.detected_at,
        with_accuracy(s, accuracy).confidence == s.confidence,
{
}

/// The ends of each spline are its two rooms, one pair per spline, in order.
pub proof fn lemma_spline_ends<F>(splines: Seq<Spline<F>>)
    ensures
        spline_ends(splines).len() == splines.len(),
        forall|k: int|
            0 <= k < splines.len() ==> #[trigger] spline_ends(splines)[k] == (
                splines[k].room_a@,
                splines[k].room_b@,
            ),
{
}

} // verus!
