//! The records the pipeline works on.

use vstd::prelude::*;
use vstd::utf8::encode_utf8;

verus! {

/// The bytes of a text: its UTF-8 encoding.
pub open spec fn text_bytes(text: Seq<char>) -> Seq<u8> {
    encode_utf8(text)
}

/// Slack, in bases, within which a container's ends may fall short of a gene's
/// ends, and by which two containers must overlap to share an operon.
pub const CONTAINMENT_TOLERANCE: u64 = 250;

/// Slack, in bases, by which two selected genes may overlap.
pub const SELECTION_TOLERANCE: u64 = 50;

/// The strand a feature was annotated on.
#[derive(Clone, Copy, Debug, PartialEq, Eq, Structural)]
pub enum Strand {
    Forward,
    Reverse,
    Unstranded,
    Unknown,
}

/// One assembled transcript.
///
/// `start` and `end` are 1-based and inclusive. `coverage` and `expression`
/// are fixed-point: the unit is the caller's choice, as long as it is the same
/// for every transcript of a run.
#[derive(Clone, Debug)]
pub struct Transcript {
    pub id: String,
    pub gene_id: String,
    pub chrom: String,
    pub start: u64,
    pub end: u64,
    pub strand: Strand,
    pub coverage: u64,
    pub expression: u64,
    pub exons: Vec<(u64, u64)>,
    pub annotation_lines: Vec<String>,
}

/// The coverage multiplier `numer / denom`.
///
/// A ratio with `denom == 0` stands for a multiplier beyond every coverage:
/// nothing contains or dominates anything under it.
#[derive(Clone, Copy, Debug, PartialEq, Eq, Structural)]
pub struct Threshold {
    pub numer: u32,
    pub denom: u32,
}

impl Transcript {
    /// More than one exon.
    pub open spec fn multi_exonic(self) -> bool {
        self.exons@.len() > 1
    }

    /// Coordinates are in order.
    pub open spec fn well_formed(self) -> bool {
        self.start <= self.end
    }

    pub fn is_multi_exonic(&self) -> (r: bool)
        ensures
            r == self.multi_exonic(),
    {
        self.exons.len() > 1
    }

    pub fn is_well_formed(&self) -> (r: bool)
        ensures
            r == self.well_formed(),
    {
        self.start <= self.end
    }
}

impl Threshold {
    /// The multiplier 1.
    pub fn unit() -> (t: Threshold)
        ensures
            t.numer == 1,
            t.denom == 1,
    {
        Threshold { numer: 1, denom: 1 }
    }

    /// `a` is no greater a multiplier than `b`.
    pub open spec fn at_most(self, other: Threshold) -> bool {
        self.numer * other.denom <= other.numer * self.denom
    }
}

} // verus!
