//! Agent stability read off the zeros of the spectral zeta function.
//!
//! Each zero found lies on the critical line `Re(s) = d/2`, elsewhere in the
//! critical strip `0 < Re(s) < d`, or outside it. Zeros on the line count as
//! interior zeros too. The Riemann hypothesis analogue holds when every
//! interior zero lies on the critical line.

use vstd::prelude::*;

verus! {

/// Classification of agent stability.
#[derive(Clone, Copy, Debug, PartialEq, Eq, Structural)]
pub enum StabilityClass {
    /// All zeros found lie on the critical line — maximally stable.
    Stable,
    /// Some zeros off the critical line, but no more outside the critical
    /// strip than inside it — metastable.
    Metastable,
    /// More zeros outside the critical strip than inside it — unstable.
    Unstable,
    /// No zeros found — indeterminate.
    Indeterminate,
}

/// Where a zero of the spectral zeta lies.
#[derive(Clone, Copy, Debug, PartialEq, Eq, Structural)]
pub enum ZeroRegion {
    /// Within the line tolerance of `Re(s) = d/2`.
    CriticalLine,
    /// In the critical strip `0 < Re(s) < d`, off the critical line.
    OffLineInStrip,
    /// Outside the critical strip.
    Exterior,
}

/// Interior zeros: those on the critical line and those elsewhere in the strip.
pub open spec fn is_interior(r: ZeroRegion) -> bool {
    r != ZeroRegion::Exterior
}

/// Zeros on the critical line.
pub open spec fn is_on_line(r: ZeroRegion) -> bool {
    r == ZeroRegion::CriticalLine
}

/// Zeros outside the critical strip.
pub open spec fn is_exterior(r: ZeroRegion) -> bool {
    r == ZeroRegion::Exterior
}

/// The positions in `regions` whose region satisfies `pred`, in order.
pub open spec fn indices_where(regions: Seq<ZeroRegion>, pred: spec_fn(ZeroRegion) -> bool) -> Seq<usize>
    decreases regions.len(),
{
    if regions.len() == 0 {
        Seq::empty()
    } else {
        let before = indices_where(regions.drop_last(), pred);
        if pred(regions.last()) {
            before.push((regions.len() - 1) as usize)
        } else {
            before
        }
    }
}

/// Positions of the interior zeros.
pub open spec fn interior_indices(regions: Seq<ZeroRegion>) -> Seq<usize> {
    indices_where(regions, |r: ZeroRegion| is_interior(r))
}

/// Positions of the critical-line zeros.
pub open spec fn line_indices(regions: Seq<ZeroRegion>) -> Seq<usize> {
    indices_where(regions, |r: ZeroRegion| is_on_line(r))
}

/// Positions of the exterior zeros.
pub open spec fn exterior_indices(regions: Seq<ZeroRegion>) -> Seq<usize> {
    indices_where(regions, |r: ZeroRegion| is_exterior(r))
}

/// The zeros of a search, by position, sorted into the critical strip's
/// interior, the critical line (a part of the interior) and the exterior.
#[derive(Debug)]
pub struct ZeroPartition {
    /// Positions of the zeros inside the critical strip, on the line or not.
    pub interior: Vec<usize>,
    /// Positions of the zeros on the critical line.
    pub critical_line: Vec<usize>,
    /// Positions of the zeros outside the critical strip.
    pub exterior: Vec<usize>,
}

/// Sort zeros, given by their regions, into interior, critical-line and
/// exterior positions, keeping the order in which they were found.
pub fn partition_zeros(regions: &Vec<ZeroRegion>) -> (p: ZeroPartition)
    ensures
        p.interior@ == interior_indices(regions@),
        p.critical_line@ == line_indices(regions@),
        p.exterior@ == exterior_indices(regions@),
        forall|k: int|
            0 <= k < regions@.len() ==> (p.critical_line@.contains(k as usize) <==> #[trigger] regions@[k]
                == ZeroRegion::CriticalLine),
        forall|k: int|
            0 <= k < regions@.len() ==> (p.interior@.contains(k as usize) <==> #[trigger] regions@[k]
                != ZeroRegion::Exterior),
        forall|k: int|
            0 <= k < regions@.len() ==> (p.exterior@.contains(k as usize) <==> #[trigger] regions@[k]
                == ZeroRegion::Exterior),
        forall|a: int, b: int|
            0 <= a < b < p.critical_line@.len() ==> #[trigger] p.critical_line@[a]
                < #[trigger] p.critical_line@[b],
        forall|a: int, b: int|
            0 <= a < b < p.interior@.len() ==> #[trigger] p.interior@[a] < #[trigger] p.interior@[b],
        forall|a: int, b: int|
            0 <= a < b < p.exterior@.len() ==> #[trigger] p.exterior@[a] < #[trigger] p.exterior@[b],
        forall|a: int| 0 <= a < p.critical_line@.len() ==> #[trigger] p.critical_line@[a] < regions@.len(),
        forall|a: int| 0 <= a < p.interior@.len() ==> #[trigger] p.interior@[a] < regions@.len(),
        forall|a: int| 0 <= a < p.exterior@.len() ==> #[trigger] p.exterior@[a] < regions@.len(),
{
    let mut interior: Vec<usize> = Vec::new();
    let mut critical_line: Vec<usize> = Vec::new();
    let mut exterior: Vec<usize> = Vec::new();
    let mut k: usize = 0;
    while k < regions.len()
        invariant
            k <= regions@.len(),
            interior@ == interior_indices(regions@.take(k as int)),
            critical_line@ == line_indices(regions@.take(k as int)),
            exterior@ == exterior_indices(regions@.take(k as int)),
        decreases regions@.len() - k,
    {
        assert(regions@.take(k + 1).drop_last() =~= regions@.take(k as int));
        match regions[k] {
            ZeroRegion::CriticalLine => {
                critical_line.push(k);
                interior.push(k);
            },
            ZeroRegion::OffLineInStrip => {
                interior.push(k);
            },
            ZeroRegion::Exterior => {
                exterior.push(k);
            },
        }
        k = k + 1;
    }
    assert(regions@.take(regions@.len() as int) =~= regions@);
    proof {
        lemma_partition_positions(regions@);
    }
    ZeroPartition { interior, critical_line, exterior }
}

/// Whether each zero lies on the critical line: `true` exactly at the
/// critical-line positions, `false` elsewhere.
pub fn critical_line_flags(regions: &Vec<ZeroRegion>) -> (flags: Vec<bool>)
    ensures
        flags@.len() == regions@.len(),
        forall|k: int| 0 <= k < regions@.len() ==> flags@[k] == is_on_line(#[trigger] regions@[k]),
{
    let mut flags: Vec<bool> = Vec::new();
    let mut k: usize = 0;
    while k < regions.len()
        invariant
            k <= regions@.len(),
            flags@.len() == k,
            forall|a: int| 0 <= a < k ==> flags@[a] == is_on_line(#[trigger] regions@[a]),
        decreases regions@.len() - k,
    {
        let on_line = match regions[k] {
            ZeroRegion::CriticalLine => true,
            _ => false,
        };
        flags.push(on_line);
        k = k + 1;
    }
    flags
}

/// Every zero is either interior or exterior, and the critical-line zeros
/// are among the interior ones: `interior + exterior == total`,
/// `critical_line <= interior`.
pub proof fn lemma_partition_counts(regions: Seq<ZeroRegion>)
    ensures
        interior_indices(regions).len() + exterior_indices(regions).len() == regions.len(),
        line_indices(regions).len() <= interior_indices(regions).len(),
        forall|a: int|
            0 <= a < line_indices(regions).len() ==> interior_indices(regions).contains(
                #[trigger] line_indices(regions)[a],
            ),
    decreases regions.len(),
{
    if regions.len() > 0 {
        let t = regions.drop_last();
        lemma_partition_counts(t);
        let line = line_indices(regions);
        let inner = interior_indices(regions);
        let line_t = line_indices(t);
        let inner_t = interior_indices(t);
        assert forall|a: int| 0 <= a < line.len() implies inner.contains(#[trigger] line[a]) by {
            if a < line_t.len() {
                assert(line[a] == line_t[a]);
                let b = choose|b: int| 0 <= b < inner_t.len() && inner_t[b] == line_t[a];
                assert(inner[b] == inner_t[b]);
            } else {
                assert(inner[inner.len() - 1] == line[a]);
            }
        }
    }
}

/// The positions that `indices_where` picks are in range, strictly
/// increasing, and are exactly those whose region satisfies `pred`.
proof fn lemma_indices_where_exact(regions: Seq<ZeroRegion>, pred: spec_fn(ZeroRegion) -> bool)
    requires
        regions.len() <= usize::MAX,
    ensures
        forall|a: int|
            0 <= a < indices_where(regions, pred).len() ==> #[trigger] indices_where(regions, pred)[a]
                < regions.len(),
        forall|a: int, b: int|
            0 <= a < b < indices_where(regions, pred).len() ==> #[trigger] indices_where(regions, pred)[a]
                < #[trigger] indices_where(regions, pred)[b],
        forall|k: int|
            0 <= k < regions.len() ==> (indices_where(regions, pred).contains(k as usize) <==> pred(
                #[trigger] regions[k],
            )),
    decreases regions.len(),
{
    if regions.len() > 0 {
        let t = regions.drop_last();
        lemma_indices_where_exact(t, pred);
        let s = indices_where(regions, pred);
        let st = indices_where(t, pred);
        let last = (regions.len() - 1) as usize;
        assert forall|a: int, b: int| 0 <= a < b < s.len() implies #[trigger] s[a] < #[trigger] s[b] by {
            if b < st.len() {
                assert(s[a] == st[a] && s[b] == st[b]);
            } else {
                assert(s[a] == st[a]);
                assert(s[b] == last);
            }
        }
        assert forall|a: int| 0 <= a < s.len() implies #[trigger] s[a] < regions.len() by {
            if a < st.len() {
                assert(s[a] == st[a]);
            }
        }
        assert forall|k: int| 0 <= k < regions.len() implies (s.contains(k as usize) <==> pred(
            #[trigger] regions[k],
        )) by {
            if k < t.len() {
                assert(t[k] == regions[k]);
                if s.contains(k as usize) {
                    let a = choose|a: int| 0 <= a < s.len() && s[a] == k as usize;
                    if a < st.len() {
                        assert(st[a] == s[a]);
                    }
                } else if st.contains(k as usize) {
                    let a = choose|a: int| 0 <= a < st.len() && st[a] == k as usize;
                    assert(s[a] == st[a]);
                }
            } else {
                if pred(regions.last()) {
                    assert(s[s.len() - 1] == last);
                } else if s.contains(k as usize) {
                    let a = choose|a: int| 0 <= a < s.len() && s[a] == k as usize;
                    assert(st[a] == s[a]);
                }
            }
        }
    }
}

/// Each list of a partition names exactly the positions of its region, in
/// increasing order: the interior list every zero that is not exterior, the
/// critical-line list every zero on the line, the exterior list every zero
/// outside the strip.
pub proof fn lemma_partition_positions(regions: Seq<ZeroRegion>)
    requires
        regions.len() <= usize::MAX,
    ensures
        forall|k: int|
            0 <= k < regions.len() ==> (interior_indices(regions).contains(k as usize) <==> #[trigger] regions[k]
                != ZeroRegion::Exterior),
        forall|k: int|
            0 <= k < regions.len() ==> (line_indices(regions).contains(k as usize) <==> #[trigger] regions[k]
                == ZeroRegion::CriticalLine),
        forall|k: int|
            0 <= k < regions.len() ==> (exterior_indices(regions).contains(k as usize) <==> #[trigger] regions[k]
                == ZeroRegion::Exterior),
        forall|a: int, b: int|
            0 <= a < b < interior_indices(regions).len() ==> #[trigger] interior_indices(regions)[a]
                < #[trigger] interior_indices(regions)[b],
        forall|a: int, b: int|
            0 <= a < b < line_indices(regions).len() ==> #[trigger] line_indices(regions)[a]
                < #[trigger] line_indices(regions)[b],
        forall|a: int, b: int|
            0 <= a < b < exterior_indices(regions).len() ==> #[trigger] exterior_indices(regions)[a]
                < #[trigger] exterior_indices(regions)[b],
        forall|a: int|
            0 <= a < interior_indices(regions).len() ==> #[trigger] interior_indices(regions)[a]
                < regions.len(),
        forall|a: int|
            0 <= a < line_indices(regions).len() ==> #[trigger] line_indices(regions)[a] < regions.len(),
        forall|a: int|
            0 <= a < exterior_indices(regions).len() ==> #[trigger] exterior_indices(regions)[a]
                < regions.len(),
{
    lemma_indices_where_exact(regions, |r: ZeroRegion| is_interior(r));
    lemma_indices_where_exact(regions, |r: ZeroRegion| is_on_line(r));
    lemma_indices_where_exact(regions, |r: ZeroRegion| is_exterior(r));
}

/// What the zero counts say of an agent's stability.
#[derive(Debug)]
pub struct StabilityAssessment {
    /// Metastable states: interior zeros off the critical line.
    pub metastable_count: usize,
    /// Whether the Riemann hypothesis analogue holds (all interior zeros on
    /// the critical line).
    pub riemann_hypothesis_holds: bool,
    /// Stability classification.
    pub classification: StabilityClass,
    /// Numerator of the stability score: zeros on the critical line.
    pub score_numerator: usize,
    /// Denominator of the stability score: interior zeros (1 when there are
    /// none, which scores as maximally stable).
    pub score_denominator: usize,
}

/// The classification of an agent from its zero counts: no zero at all is
/// indeterminate; every zero on the critical line (none off it inside the
/// strip, none outside) is stable; otherwise more exterior than interior
/// zeros is unstable, and the rest metastable.
pub open spec fn stability_class(critical_strip_zeros: int, critical_line_zeros: int, exterior_zeros: int) -> StabilityClass {
    if critical_strip_zeros + exterior_zeros == 0 {
        StabilityClass::Indeterminate
    } else if critical_line_zeros == critical_strip_zeros && exterior_zeros == 0 {
        StabilityClass::Stable
    } else if exterior_zeros > critical_strip_zeros {
        StabilityClass::Unstable
    } else {
        StabilityClass::Metastable
    }
}

/// The classification law: indeterminate exactly when no zero was found;
/// stable exactly when zeros were found and all of them lie on the critical
/// line; otherwise unstable exactly when the exterior zeros outnumber the
/// critical-strip zeros, and metastable when they do not.
pub proof fn lemma_stability_class_law(critical_strip_zeros: int, critical_line_zeros: int, exterior_zeros: int)
    requires
        0 <= critical_line_zeros <= critical_strip_zeros,
        0 <= exterior_zeros,
    ensures
        (stability_class(critical_strip_zeros, critical_line_zeros, exterior_zeros)
            == StabilityClass::Indeterminate) <==> critical_strip_zeros + exterior_zeros == 0,
        (stability_class(critical_strip_zeros, critical_line_zeros, exterior_zeros)
            == StabilityClass::Stable) <==> (critical_strip_zeros > 0 && critical_line_zeros
            == critical_strip_zeros && exterior_zeros == 0),
        (stability_class(critical_strip_zeros, critical_line_zeros, exterior_zeros)
            == StabilityClass::Unstable) <==> (exterior_zeros > critical_strip_zeros),
        (stability_class(critical_strip_zeros, critical_line_zeros, exterior_zeros)
            == StabilityClass::Metastable) <==> (critical_strip_zeros + exterior_zeros > 0
            && exterior_zeros <= critical_strip_zeros && (critical_line_zeros < critical_strip_zeros
            || exterior_zeros > 0)),
{
}

/// Assess stability from the numbers of interior (critical strip),
/// critical-line and exterior zeros. The stability score is the share of
/// interior zeros that lie on the critical line, and 1 when there are no
/// interior zeros; it is given as a fraction.
pub fn assess_stability(critical_strip_zeros: usize, critical_line_zeros: usize, exterior_zeros: usize) -> (a: StabilityAssessment)
    requires
        critical_line_zeros <= critical_strip_zeros,
    ensures
        a.metastable_count == critical_strip_zeros - critical_line_zeros,
        a.riemann_hypothesis_holds <==> critical_line_zeros == critical_strip_zeros,
        a.classification == stability_class(
            critical_strip_zeros as int,
            critical_line_zeros as int,
            exterior_zeros as int,
        ),
        critical_strip_zeros == 0 ==> a.score_numerator == 1 && a.score_denominator == 1,
        critical_strip_zeros > 0 ==> a.score_numerator == critical_line_zeros
            && a.score_denominator == critical_strip_zeros,
        0 < a.score_denominator,
        a.score_numerator <= a.score_denominator,
        a.riemann_hypothesis_holds <==> a.score_numerator == a.score_denominator,
        (a.classification == StabilityClass::Indeterminate) <==> critical_strip_zeros + exterior_zeros
            == 0,
        (a.classification == StabilityClass::Stable) <==> (critical_strip_zeros > 0
            && critical_line_zeros == critical_strip_zeros && exterior_zeros == 0),
        (a.classification == StabilityClass::Unstable) <==> exterior_zeros > critical_strip_zeros,
        (a.classification == StabilityClass::Metastable) <==> (critical_strip_zeros + exterior_zeros > 0
            && exterior_zeros <= critical_strip_zeros && (critical_line_zeros < critical_strip_zeros
            || exterior_zeros > 0)),
{
    let metastable_count = critical_strip_zeros - critical_line_zeros;
    let riemann_hypothesis_holds = metastable_count == 0;
    let classification = if critical_strip_zeros == 0 && exterior_zeros == 0 {
        StabilityClass::Indeterminate
    } else if riemann_hypothesis_holds && exterior_zeros == 0 {
        StabilityClass::Stable
    } else if exterior_zeros > critical_strip_zeros {
        StabilityClass::Unstable
    } else {
        StabilityClass::Metastable
    };
    let (score_numerator, score_denominator) = if critical_strip_zeros == 0 {
        (1, 1)
    } else {
        (critical_line_zeros, critical_strip_zeros)
    };
    StabilityAssessment {
        metastable_count,
        riemann_hypothesis_holds,
        classification,
        score_numerator,
        score_denominator,
    }
}

/// Sort zeros by region and assess the agent's stability from the counts.
pub fn assess_regions(regions: &Vec<ZeroRegion>) -> (result: (ZeroPartition, StabilityAssessment))
    ensures
        result.0.interior@ == interior_indices(regions@),
        result.0.critical_line@ == line_indices(regions@),
        result.0.exterior@ == exterior_indices(regions@),
        result.1.metastable_count == result.0.interior@.len() - result.0.critical_line@.len(),
        result.1.riemann_hypothesis_holds <==> result.0.critical_line@.len() == result.0.interior@.len(),
        result.1.classification == stability_class(
            result.0.interior@.len() as int,
            result.0.critical_line@.len() as int,
            result.0.exterior@.len() as int,
        ),
        result.0.interior@.len() == 0 ==> result.1.score_numerator == 1
            && result.1.score_denominator == 1,
        result.0.interior@.len() > 0 ==> result.1.score_numerator == result.0.critical_line@.len()
            && result.1.score_denominator == result.0.interior@.len(),
        result.0.interior@.len() + result.0.exterior@.len() == regions@.len(),
{
    let p = partition_zeros(regions);
    proof {
        lemma_partition_counts(regions@);
    }
    let a = assess_stability(p.interior.len(), p.critical_line.len(), p.exterior.len());
    (p, a)
}

} // verus!
