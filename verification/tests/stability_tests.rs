use lau_spectral_zeta::stability::{
    assess_regions, assess_stability, critical_line_flags, partition_zeros, StabilityClass,
    ZeroRegion,
};

#[test]
fn test_classification_stable() {
    let a = assess_stability(2, 2, 0);
    assert_eq!(a.classification, StabilityClass::Stable);
    assert!(a.riemann_hypothesis_holds);
    assert_eq!(a.metastable_count, 0);
}

#[test]
fn test_classification_metastable() {
    let a = assess_stability(4, 2, 1);
    assert_eq!(a.classification, StabilityClass::Metastable);
    assert!(!a.riemann_hypothesis_holds);
    assert_eq!(a.metastable_count, 2);
    assert_eq!((a.score_numerator, a.score_denominator), (2, 4));
}

#[test]
fn classification_unstable_when_exterior_dominates() {
    let a = assess_stability(2, 1, 3);
    assert_eq!(a.classification, StabilityClass::Unstable);
    assert_eq!(a.metastable_count, 1);
}

#[test]
fn classification_indeterminate_when_no_zero_found() {
    let a = assess_stability(0, 0, 0);
    assert_eq!(a.classification, StabilityClass::Indeterminate);
    assert!(a.riemann_hypothesis_holds);
    assert_eq!((a.score_numerator, a.score_denominator), (1, 1));
}

#[test]
fn classification_unstable_with_only_exterior_zeros() {
    let a = assess_stability(0, 0, 1);
    assert_eq!(a.classification, StabilityClass::Unstable);
    assert_eq!((a.score_numerator, a.score_denominator), (1, 1));
}

#[test]
fn classification_exterior_zeros_prevent_stability() {
    // every interior zero on the line, but zeros outside the strip
    assert_eq!(assess_stability(1, 1, 10).classification, StabilityClass::Unstable);
    let a = assess_stability(2, 2, 1);
    assert_eq!(a.classification, StabilityClass::Metastable);
    assert!(a.riemann_hypothesis_holds);
}

#[test]
fn partition_keeps_order_and_puts_line_zeros_in_interior() {
    let regions = vec![
        ZeroRegion::Exterior,
        ZeroRegion::CriticalLine,
        ZeroRegion::OffLineInStrip,
        ZeroRegion::CriticalLine,
        ZeroRegion::Exterior,
    ];
    let p = partition_zeros(&regions);
    assert_eq!(p.interior, vec![1, 2, 3]);
    assert_eq!(p.critical_line, vec![1, 3]);
    assert_eq!(p.exterior, vec![0, 4]);
}

#[test]
fn partition_single_line_zero() {
    // one zero on the critical line
    let p = partition_zeros(&vec![ZeroRegion::CriticalLine]);
    assert_eq!(p.interior.len(), 1);
    assert_eq!(p.critical_line.len(), 1);
    assert_eq!(p.exterior.len(), 0);
}

#[test]
fn partition_single_exterior_zero() {
    let p = partition_zeros(&vec![ZeroRegion::Exterior]);
    assert_eq!(p.exterior.len(), 1);
}

#[test]
fn law_partition_counts() {
    let regions = vec![
        ZeroRegion::OffLineInStrip,
        ZeroRegion::CriticalLine,
        ZeroRegion::Exterior,
        ZeroRegion::OffLineInStrip,
    ];
    let p = partition_zeros(&regions);
    assert_eq!(p.interior.len() + p.exterior.len(), regions.len());
    assert!(p.critical_line.iter().all(|k| p.interior.contains(k)));
}

#[test]
fn assess_regions_combines_partition_and_counts() {
    let regions = vec![
        ZeroRegion::CriticalLine,
        ZeroRegion::OffLineInStrip,
        ZeroRegion::Exterior,
        ZeroRegion::Exterior,
        ZeroRegion::Exterior,
    ];
    let (p, a) = assess_regions(&regions);
    assert_eq!(p.interior, vec![0, 1]);
    assert_eq!(a.metastable_count, 1);
    assert!(!a.riemann_hypothesis_holds);
    assert_eq!(a.classification, StabilityClass::Unstable);
    let (_, empty) = assess_regions(&vec![]);
    assert_eq!(empty.classification, StabilityClass::Indeterminate);
    let (_, outside) = assess_regions(&vec![ZeroRegion::Exterior]);
    assert_eq!(outside.classification, StabilityClass::Unstable);
}

#[test]
fn critical_line_flags_follow_regions() {
    let regions = vec![ZeroRegion::Exterior, ZeroRegion::CriticalLine, ZeroRegion::OffLineInStrip];
    assert_eq!(critical_line_flags(&regions), vec![false, true, false]);
}
