//! Pairwise predicates on transcripts: positional spanning, containment,
//! dominance and the two overlap tests.

use vstd::prelude::*;
use crate::model::{Threshold, Transcript};

verus! {

/// `outer` spans `inner`, give or take `tolerance` bases at either end.
pub open spec fn spans(outer: Transcript, inner: Transcript, tolerance: u64) -> bool {
    &&& outer.start <= inner.start + tolerance
    &&& inner.start + tolerance < outer.end + tolerance
    &&& outer.end + tolerance >= inner.end
    &&& inner.end > outer.start
}

/// `value * factor`, as a coverage scaled by one side of a threshold.
pub open spec fn scaled(value: u64, factor: u32) -> int {
    value * factor
}

/// `outer` contains `inner`: it spans it, and its coverage times the threshold
/// is below `inner`'s. A single-exon `inner` needs ten times the margin.
pub open spec fn contains(
    outer: Transcript,
    inner: Transcript,
    tolerance: u64,
    threshold: Threshold,
) -> bool {
    &&& spans(outer, inner, tolerance)
    &&& scaled(outer.coverage, threshold.numer) < scaled(inner.coverage, threshold.denom)
    &&& (inner.multi_exonic() || scaled(outer.coverage, threshold.numer) * 10 < scaled(
        inner.coverage,
        threshold.denom,
    ))
}

/// `outer` dominates `inner`: it spans it, and its coverage is above `inner`'s
/// times the threshold. A single-exon `inner` needs ten times the margin.
pub open spec fn dominates(
    outer: Transcript,
    inner: Transcript,
    tolerance: u64,
    threshold: Threshold,
) -> bool {
    &&& spans(outer, inner, tolerance)
    &&& scaled(outer.coverage, threshold.denom) > scaled(inner.coverage, threshold.numer)
    &&& (inner.multi_exonic() || scaled(outer.coverage, threshold.denom) > scaled(
        inner.coverage,
        threshold.numer,
    ) * 10)
}

/// `a - b`, or 0 where `b` is the greater.
pub open spec fn floor_sub(a: u64, b: u64) -> int {
    if a >= b {
        a - b
    } else {
        0
    }
}

/// `a` starts after `b` ends, give or take `tolerance` bases.
pub open spec fn no_overlap(a: Transcript, b: Transcript, tolerance: u64) -> bool {
    a.start > floor_sub(b.end, tolerance)
}

/// `a` and `b` share more than `tolerance` bases at `b`'s end.
pub open spec fn containers_overlap(a: Transcript, b: Transcript, tolerance: u64) -> bool {
    a.start <= floor_sub(b.end, tolerance) && a.end >= b.start + tolerance
}

/// What a container contains under a threshold it contains under every lower
/// one.
pub proof fn lemma_contains_loosens(
    outer: Transcript,
    inner: Transcript,
    tolerance: u64,
    low: Threshold,
    high: Threshold,
)
    requires
        low.denom > 0,
        low.at_most(high),
        contains(outer, inner, tolerance, high),
    ensures
        contains(outer, inner, tolerance, low),
{
    let c = outer.coverage as int;
    let i = inner.coverage as int;
    let nl = low.numer as int;
    let dl = low.denom as int;
    let nh = high.numer as int;
    let dh = high.denom as int;
    assert(c * nl < i * dl) by (nonlinear_arith)
        requires
            c * nh < i * dh,
            nl * dh <= nh * dl,
            0 <= c,
            0 <= i,
            0 <= nl,
            0 < dl,
            0 <= nh,
            0 <= dh,
    ;
    if !inner.multi_exonic() {
        assert(c * nl * 10 < i * dl) by (nonlinear_arith)
            requires
                c * nh * 10 < i * dh,
                nl * dh <= nh * dl,
                0 <= c,
                0 <= i,
                0 <= nl,
                0 < dl,
                0 <= nh,
                0 <= dh,
        ;
    }
}

/// What dominates a transcript under a threshold dominates it under every
/// lower one.
pub proof fn lemma_dominates_loosens(
    outer: Transcript,
    inner: Transcript,
    tolerance: u64,
    low: Threshold,
    high: Threshold,
)
    requires
        low.denom > 0,
        low.at_most(high),
        dominates(outer, inner, tolerance, high),
    ensures
        dominates(outer, inner, tolerance, low),
{
    let o = outer.coverage as int;
    let i = inner.coverage as int;
    let nl = low.numer as int;
    let dl = low.denom as int;
    let nh = high.numer as int;
    let dh = high.denom as int;
    assert(o * dl > i * nl) by (nonlinear_arith)
        requires
            o * dh > i * nh,
            nl * dh <= nh * dl,
            0 <= o,
            0 <= i,
            0 <= nl,
            0 < dl,
            0 <= nh,
            0 <= dh,
    ;
    if !inner.multi_exonic() {
        assert(o * dl > i * nl * 10) by (nonlinear_arith)
            requires
                o * dh > i * nh * 10,
                nl * dh <= nh * dl,
                0 <= o,
                0 <= i,
                0 <= nl,
                0 < dl,
                0 <= nh,
                0 <= dh,
        ;
    }
}

fn spans_exec(outer: &Transcript, inner: &Transcript, tolerance: u64) -> (r: bool)
    ensures
        r == spans(*outer, *inner, tolerance),
{
    let tol: u128 = tolerance as u128;
    (outer.start as u128) <= (inner.start as u128) + tol && (inner.start as u128) + tol < (
    outer.end as u128) + tol && (outer.end as u128) + tol >= (inner.end as u128) && inner.end
        > outer.start
}

fn scale(value: u64, factor: u32) -> (r: u128)
    ensures
        r == scaled(value, factor),
        r <= 0xFFFF_FFFF_FFFF_FFFF * 0xFFFF_FFFF,
{
    assert(value * factor <= 0xFFFF_FFFF_FFFF_FFFF * 0xFFFF_FFFF) by (nonlinear_arith)
        requires
            0 <= value <= 0xFFFF_FFFF_FFFF_FFFF,
            0 <= factor <= 0xFFFF_FFFF,
    ;
    (value as u128) * (factor as u128)
}

/// Whether `t1` contains `t2`.
pub fn transcripts_inside_op(
    t1: &Transcript,
    t2: &Transcript,
    tolerance: u64,
    threshold: Threshold,
) -> (r: bool)
    ensures
        r == contains(*t1, *t2, tolerance, threshold),
{
    let low: u128 = scale(t1.coverage, threshold.numer);
    let high: u128 = scale(t2.coverage, threshold.denom);
    spans_exec(t1, t2, tolerance) && low < high && (t2.is_multi_exonic() || low * 10 < high)
}

/// Whether `t1` dominates `t2`.
pub fn transcripts_inside(
    t1: &Transcript,
    t2: &Transcript,
    tolerance: u64,
    threshold: Threshold,
) -> (r: bool)
    ensures
        r == dominates(*t1, *t2, tolerance, threshold),
{
    let high: u128 = scale(t1.coverage, threshold.denom);
    let low: u128 = scale(t2.coverage, threshold.numer);
    spans_exec(t1, t2, tolerance) && high > low && (t2.is_multi_exonic() || high > low * 10)
}

/// Whether `t1` starts clear of `t2`'s end.
pub fn transcripts_no_overlap(t1: &Transcript, t2: &Transcript, tolerance: u64) -> (r: bool)
    ensures
        r == no_overlap(*t1, *t2, tolerance),
{
    t1.start > t2.end.saturating_sub(tolerance)
}

/// Whether container `t1` overlaps container `t2`.
pub fn operontrans_overlap(t1: &Transcript, t2: &Transcript, tolerance: u64) -> (r: bool)
    ensures
        r == containers_overlap(*t1, *t2, tolerance),
{
    t1.start <= t2.end.saturating_sub(tolerance) && (t1.end as u128) >= (t2.start as u128) + (
    tolerance as u128)
}

} // verus!
