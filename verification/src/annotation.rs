//! The exons and the lines of an annotation, by the transcript they belong
//! to.

use vstd::prelude::*;
use vstd::string::*;
use crate::model::Transcript;

verus! {

/// One exon of the annotation, under the id of the transcript it belongs to.
#[derive(Clone, Debug)]
pub struct Exon {
    pub transcript_id: String,
    pub start: u64,
    pub end: u64,
}

/// The spans of the exons that belong to the transcript `id`, in the order of
/// `exons`.
pub open spec fn exon_spans(exons: Seq<Exon>, id: Seq<char>) -> Seq<(u64, u64)>
    decreases exons.len(),
{
    if exons.len() == 0 {
        Seq::empty()
    } else {
        let before = exon_spans(exons.drop_last(), id);
        if exons.last().transcript_id@ == id {
            before.push((exons.last().start, exons.last().end))
        } else {
            before
        }
    }
}

/// `after` is `before` with its exons attached: the spans of the exons that
/// belong to it, where there are any.
pub open spec fn with_exons(before: Transcript, after: Transcript, exons: Seq<Exon>) -> bool {
    let spans = exon_spans(exons, before.id@);
    &&& after.id == before.id
    &&& after.gene_id == before.gene_id
    &&& after.chrom == before.chrom
    &&& after.start == before.start
    &&& after.end == before.end
    &&& after.strand == before.strand
    &&& after.coverage == before.coverage
    &&& after.expression == before.expression
    &&& after.annotation_lines == before.annotation_lines
    &&& after.exons@ == if spans.len() > 0 {
        spans
    } else {
        before.exons@
    }
}

/// The spans of the exons that belong to the transcript `id`.
pub fn exons_of(exons: &Vec<Exon>, id: &String) -> (spans: Vec<(u64, u64)>)
    ensures
        spans@ == exon_spans(exons@, id@),
{
    let mut spans: Vec<(u64, u64)> = Vec::new();
    let mut k: usize = 0;
    while k < exons.len()
        invariant
            k <= exons.len(),
            spans@ == exon_spans(exons@.take(k as int), id@),
        decreases exons.len() - k,
    {
        assert(exons@.take(k + 1).drop_last() =~= exons@.take(k as int));
        if exons[k].transcript_id == *id {
            spans.push((exons[k].start, exons[k].end));
        }
        k = k + 1;
    }
    assert(exons@.take(exons.len() as int) =~= exons@);
    spans
}

/// Attaches to each transcript the exons that belong to it.
///
/// A transcript to which no exon belongs is left as it is; so is everything
/// but the exons of the others.
pub fn attach_exons(transcripts: &mut Vec<Transcript>, exons: &Vec<Exon>)
    ensures
        final(transcripts)@.len() == old(transcripts)@.len(),
        forall|k: int|
            0 <= k < old(transcripts)@.len() ==> with_exons(
                old(transcripts)@[k],
                #[trigger] final(transcripts)@[k],
                exons@,
            ),
{
    let ghost before = transcripts@;
    let mut k: usize = 0;
    while k < transcripts.len()
        invariant
            k <= transcripts@.len(),
            transcripts@.len() == before.len(),
            forall|j: int| 0 <= j < k ==> with_exons(before[j], #[trigger] transcripts@[j], exons@),
            forall|j: int| k <= j < before.len() ==> transcripts@[j] == before[j],
        decreases transcripts@.len() - k,
    {
        let spans = exons_of(exons, &transcripts[k].id);
        if spans.len() > 0 {
            transcripts[k].exons = spans;
        }
        k = k + 1;
    }
}

/// One line of the annotation as it is to be written out again, under the id
/// of the transcript it belongs to.
#[derive(Clone, Debug)]
pub struct Line {
    pub transcript_id: String,
    pub text: String,
}

/// The texts of the lines that belong to the transcript `id`, in the order of
/// `lines`.
pub open spec fn lines_for(lines: Seq<Line>, id: Seq<char>) -> Seq<String>
    decreases lines.len(),
{
    if lines.len() == 0 {
        Seq::empty()
    } else {
        let before = lines_for(lines.drop_last(), id);
        if lines.last().transcript_id@ == id {
            before.push(lines.last().text)
        } else {
            before
        }
    }
}

/// Line `p` is the first to name its id.
pub open spec fn first_mention(lines: Seq<Line>, p: int) -> bool {
    forall|q: int| 0 <= q < p ==> (#[trigger] lines[q]).transcript_id@ != lines[p].transcript_id@
}

/// The positions, among the first `upto` lines, of the lines that are the
/// first to name their id, in ascending order.
pub open spec fn mentions(lines: Seq<Line>, upto: int) -> Seq<usize>
    decreases upto,
{
    if upto <= 0 {
        Seq::empty()
    } else {
        let before = mentions(lines, upto - 1);
        if first_mention(lines, upto - 1) {
            before.push((upto - 1) as usize)
        } else {
            before
        }
    }
}

/// `ids` are the ids that the first `upto` lines name, each once, in the
/// order in which they are first named.
pub open spec fn are_mentioned(lines: Seq<Line>, upto: int, ids: Seq<String>) -> bool {
    &&& ids.len() == mentions(lines, upto).len()
    &&& forall|k: int|
        0 <= k < ids.len()
            ==> (#[trigger] ids[k]) == lines[mentions(lines, upto)[k] as int].transcript_id
}

proof fn lemma_mentions(lines: Seq<Line>, upto: int)
    requires
        0 <= upto <= lines.len() <= usize::MAX,
    ensures
        mentions(lines, upto).len() <= upto,
        forall|k: int|
            0 <= k < mentions(lines, upto).len() ==> (#[trigger] mentions(lines, upto)[k]) < upto,
        forall|q: int|
            0 <= q < upto ==> exists|k: int|
                0 <= k < mentions(lines, upto).len()
                    && lines[(#[trigger] mentions(lines, upto)[k]) as int].transcript_id@
                    == (#[trigger] lines[q]).transcript_id@,
    decreases upto,
{
    if upto > 0 {
        lemma_mentions(lines, upto - 1);
        let before = mentions(lines, upto - 1);
        let after = mentions(lines, upto);
        let p = upto - 1;
        assert forall|q: int| 0 <= q < upto implies exists|k: int|
            0 <= k < after.len() && lines[(#[trigger] after[k]) as int].transcript_id@
                == (#[trigger] lines[q]).transcript_id@ by {
            if q < p {
                let k = choose|k: int|
                    0 <= k < before.len() && lines[(#[trigger] before[k]) as int].transcript_id@
                        == lines[q].transcript_id@;
                assert(after[k] == before[k]);
            } else if first_mention(lines, p) {
                assert(after[after.len() - 1] == p);
            }
        }
    }
}

/// The texts of the lines that belong to the transcript `id`.
pub fn lines_of(lines: &Vec<Line>, id: &String) -> (texts: Vec<String>)
    ensures
        texts@ == lines_for(lines@, id@),
{
    let mut texts: Vec<String> = Vec::new();
    let mut k: usize = 0;
    while k < lines.len()
        invariant
            k <= lines.len(),
            texts@ == lines_for(lines@.take(k as int), id@),
        decreases lines.len() - k,
    {
        assert(lines@.take(k + 1).drop_last() =~= lines@.take(k as int));
        if lines[k].transcript_id == *id {
            texts.push(lines[k].text.clone());
        }
        k = k + 1;
    }
    assert(lines@.take(lines.len() as int) =~= lines@);
    texts
}

/// The ids that the lines name, each once, in the order in which they are
/// first named.
pub fn mentioned_ids(lines: &Vec<Line>) -> (ids: Vec<String>)
    ensures
        are_mentioned(lines@, lines@.len() as int, ids@),
{
    let mut ids: Vec<String> = Vec::new();
    let mut p: usize = 0;
    while p < lines.len()
        invariant
            p <= lines.len(),
            are_mentioned(lines@, p as int, ids@),
        decreases lines.len() - p,
    {
        let ghost found = mentions(lines@, p as int);
        proof {
            lemma_mentions(lines@, p as int);
        }
        // the id of a line is mostly that of the line before it: look from the back
        let mut k: usize = ids.len();
        let mut known = false;
        while k > 0 && !known
            invariant
                k <= ids@.len(),
                p < lines@.len(),
                known ==> exists|j: int| 0 <= j < ids@.len()
                    && (#[trigger] ids@[j])@ == lines@[p as int].transcript_id@,
                !known ==> forall|j: int|
                    k <= j < ids@.len()
                        ==> (#[trigger] ids@[j])@ != lines@[p as int].transcript_id@,
            decreases k,
        {
            k = k - 1;
            if ids[k] == lines[p].transcript_id {
                known = true;
            }
        }
        proof {
            if !known {
                assert forall|q: int| 0 <= q < p implies (#[trigger] lines@[q]).transcript_id@
                    != lines@[p as int].transcript_id@ by {
                    let j = choose|j: int|
                        0 <= j < found.len() && lines@[(#[trigger] found[j]) as int].transcript_id@
                            == lines@[q].transcript_id@;
                    assert(ids@[j]@ != lines@[p as int].transcript_id@);
                }
            }
        }
        if !known {
            ids.push(lines[p].transcript_id.clone());
        }
        p = p + 1;
    }
    ids
}

/// `after` is `before` with its annotation lines attached: the texts of the
/// lines that belong to it, where there are any.
pub open spec fn with_lines(before: Transcript, after: Transcript, lines: Seq<Line>) -> bool {
    let texts = lines_for(lines, before.id@);
    &&& after.id == before.id
    &&& after.gene_id == before.gene_id
    &&& after.chrom == before.chrom
    &&& after.start == before.start
    &&& after.end == before.end
    &&& after.strand == before.strand
    &&& after.coverage == before.coverage
    &&& after.expression == before.expression
    &&& after.exons == before.exons
    &&& after.annotation_lines@ == if texts.len() > 0 {
        texts
    } else {
        before.annotation_lines@
    }
}

/// Attaches to each transcript the annotation lines that belong to it.
///
/// A transcript to which no line belongs is left as it is; so is everything
/// but the lines of the others.
pub fn attach_lines(transcripts: &mut Vec<Transcript>, lines: &Vec<Line>)
    ensures
        final(transcripts)@.len() == old(transcripts)@.len(),
        forall|k: int|
            0 <= k < old(transcripts)@.len() ==> with_lines(
                old(transcripts)@[k],
                #[trigger] final(transcripts)@[k],
                lines@,
            ),
{
    let ghost before = transcripts@;
    let mut k: usize = 0;
    while k < transcripts.len()
        invariant
            k <= transcripts@.len(),
            transcripts@.len() == before.len(),
            forall|j: int| 0 <= j < k ==> with_lines(before[j], #[trigger] transcripts@[j], lines@),
            forall|j: int| k <= j < before.len() ==> transcripts@[j] == before[j],
        decreases transcripts@.len() - k,
    {
        let texts = lines_of(lines, &transcripts[k].id);
        if texts.len() > 0 {
            transcripts[k].annotation_lines = texts;
        }
        k = k + 1;
    }
}

} // verus!
