use lau_penrose_v2::spline::{spline_type_for, CoefficientBand, SplineType};

#[test]
fn spline_type_above_synergy_is_synergistic() {
    assert_eq!(spline_type_for(CoefficientBand::AboveSynergy, false, false), SplineType::Synergistic);
    assert_eq!(spline_type_for(CoefficientBand::AboveSynergy, true, true), SplineType::Synergistic);
}

#[test]
fn spline_type_strong_is_predictive() {
    assert_eq!(spline_type_for(CoefficientBand::Strong, true, false), SplineType::Predictive);
}

#[test]
fn spline_type_moderate_depends_on_autocorrelation() {
    assert_eq!(spline_type_for(CoefficientBand::Moderate, false, false), SplineType::Causal);
    assert_eq!(spline_type_for(CoefficientBand::Moderate, true, false), SplineType::Causal);
    assert_eq!(spline_type_for(CoefficientBand::Moderate, false, true), SplineType::Causal);
    assert_eq!(spline_type_for(CoefficientBand::Moderate, true, true), SplineType::Resonant);
}

#[test]
fn spline_type_negative_bands() {
    assert_eq!(spline_type_for(CoefficientBand::StrongNegative, false, false), SplineType::Redundant);
    assert_eq!(spline_type_for(CoefficientBand::ModerateNegative, true, true), SplineType::Causal);
}

#[test]
fn spline_type_weak_is_resonant() {
    assert_eq!(spline_type_for(CoefficientBand::Weak, false, false), SplineType::Resonant);
}
