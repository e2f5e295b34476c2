//! Candidate operons of one chromosome: each container with the genes it
//! keeps.

use vstd::prelude::*;
use crate::classify::{
    contains, dominates, lemma_contains_loosens, transcripts_inside, transcripts_inside_op,
};
use crate::model::{Threshold, Transcript, CONTAINMENT_TOLERANCE, SELECTION_TOLERANCE};
use crate::select::{lemma_select, select, select_non_overlapping, within, Ranking};

verus! {

/// A container and one of its genes, as positions in the transcript table.
#[derive(Clone, Copy, Debug, PartialEq, Eq, Structural)]
pub struct Pair {
    pub container: usize,
    pub gene: usize,
}

/// `a` and `b` are two transcripts of one strand.
pub open spec fn comparable(a: Transcript, b: Transcript) -> bool {
    a.id@ != b.id@ && a.strand == b.strand
}

/// Transcript `i` is another transcript of `c`'s strand that `c` contains.
pub open spec fn is_gene_of(
    table: Seq<Transcript>,
    c: usize,
    i: usize,
    threshold: Threshold,
) -> bool {
    comparable(table[c as int], table[i as int]) && contains(
        table[c as int],
        table[i as int],
        CONTAINMENT_TOLERANCE,
        threshold,
    )
}

/// Transcript `j` is another transcript of `c`'s strand that dominates `c`.
pub open spec fn is_dominated_by(
    table: Seq<Transcript>,
    c: usize,
    j: usize,
    threshold: Threshold,
) -> bool {
    comparable(table[c as int], table[j as int]) && dominates(
        table[j as int],
        table[c as int],
        CONTAINMENT_TOLERANCE,
        threshold,
    )
}

/// The test that picks `c`'s genes out of a chromosome.
pub open spec fn gene_test(table: Seq<Transcript>, c: usize, threshold: Threshold) -> spec_fn(
    usize,
) -> bool {
    |i: usize| is_gene_of(table, c, i, threshold)
}

/// The transcripts of `members` that `c` contains, in the order of `members`.
pub open spec fn contained_in(
    table: Seq<Transcript>,
    members: Seq<usize>,
    c: usize,
    threshold: Threshold,
) -> Seq<usize> {
    members.filter(gene_test(table, c, threshold))
}

/// Some transcript of `members` dominates `c`.
pub open spec fn dominated(
    table: Seq<Transcript>,
    members: Seq<usize>,
    c: usize,
    threshold: Threshold,
) -> bool {
    exists|k: int|
        0 <= k < members.len() && is_dominated_by(table, c, #[trigger] members[k], threshold)
}

/// The genes that `c` keeps as a container among `members`, in ascending order
/// of start; empty where `c` is no container.
///
/// `c` is a container where it contains at least two transcripts, nothing
/// dominates it, and at least two of the transcripts it contains survive the
/// non-overlapping selection.
pub open spec fn genes_of(
    table: Seq<Transcript>,
    members: Seq<usize>,
    c: usize,
    threshold: Threshold,
) -> Seq<usize> {
    let contained = contained_in(table, members, c, threshold);
    let reduced = select(table, contained, SELECTION_TOLERANCE, Ranking::ExpressionThenExons);
    if contained.len() >= 2 && !dominated(table, members, c, threshold) && reduced.len() >= 2 {
        reduced
    } else {
        Seq::empty()
    }
}

/// `c` paired with each of `genes`.
pub open spec fn pairs_with(c: usize, genes: Seq<usize>) -> Seq<Pair> {
    Seq::new(genes.len(), |k: int| Pair { container: c, gene: genes[k] })
}

/// The candidate pairs of the containers `containers` among `members`: for
/// each container in turn, one pair for each gene it keeps.
pub open spec fn candidate_pairs(
    table: Seq<Transcript>,
    members: Seq<usize>,
    containers: Seq<usize>,
    threshold: Threshold,
) -> Seq<Pair>
    decreases containers.len(),
{
    if containers.len() == 0 {
        Seq::empty()
    } else {
        candidate_pairs(table, members, containers.drop_last(), threshold) + pairs_with(
            containers.last(),
            genes_of(table, members, containers.last(), threshold),
        )
    }
}

/// `pair` is a candidate among `members`: both ends are members, the
/// container contains the gene, and no member dominates the container.
pub open spec fn is_candidate(
    table: Seq<Transcript>,
    members: Seq<usize>,
    pair: Pair,
    threshold: Threshold,
) -> bool {
    &&& members.contains(pair.container)
    &&& members.contains(pair.gene)
    &&& is_gene_of(table, pair.container, pair.gene, threshold)
    &&& !dominated(table, members, pair.container, threshold)
}

/// Every pair is a candidate among `members`.
pub open spec fn all_candidates(
    table: Seq<Transcript>,
    members: Seq<usize>,
    pairs: Seq<Pair>,
    threshold: Threshold,
) -> bool {
    forall|k: int| 0 <= k < pairs.len()
        ==> is_candidate(table, members, #[trigger] pairs[k], threshold)
}

/// The genes a container keeps are at least two or none, each is a member
/// that the container contains, and no member dominates the container.
pub proof fn lemma_genes_of(
    table: Seq<Transcript>,
    members: Seq<usize>,
    c: usize,
    threshold: Threshold,
)
    requires
        members.len() <= usize::MAX,
    ensures
        genes_of(table, members, c, threshold).len() != 1,
        genes_of(table, members, c, threshold).len() <= members.len(),
        genes_of(table, members, c, threshold).len() > 0 ==> !dominated(
            table,
            members,
            c,
            threshold,
        ),
        forall|k: int|
            0 <= k < genes_of(table, members, c, threshold).len() ==> {
                &&& members.contains(#[trigger] genes_of(table, members, c, threshold)[k])
                &&& is_gene_of(table, c, genes_of(table, members, c, threshold)[k], threshold)
            },
{
    let test = gene_test(table, c, threshold);
    let contained = contained_in(table, members, c, threshold);
    let genes = genes_of(table, members, c, threshold);
    members.filter_lemma(test);
    lemma_select(table, contained, SELECTION_TOLERANCE, Ranking::ExpressionThenExons);
    assert forall|k: int| 0 <= k < genes.len() implies {
        &&& members.contains(#[trigger] genes[k])
        &&& is_gene_of(table, c, genes[k], threshold)
    } by {
        members.lemma_filter_contains_rev(test, genes[k]);
    }
}

/// No gene that a container keeps dominates the container.
pub proof fn lemma_container_not_dominated_by_its_genes(
    table: Seq<Transcript>,
    members: Seq<usize>,
    c: usize,
    threshold: Threshold,
    k: int,
)
    requires
        members.len() <= usize::MAX,
        0 <= k < genes_of(table, members, c, threshold).len(),
    ensures
        contains(
            table[c as int],
            table[genes_of(table, members, c, threshold)[k] as int],
            CONTAINMENT_TOLERANCE,
            threshold,
        ),
        !dominates(
            table[genes_of(table, members, c, threshold)[k] as int],
            table[c as int],
            CONTAINMENT_TOLERANCE,
            threshold,
        ),
{
    lemma_genes_of(table, members, c, threshold);
}

/// Raising the threshold never adds to what a container contains: whatever
/// it contains under the higher threshold it contains under the lower one.
pub proof fn lemma_contained_shrinks(
    table: Seq<Transcript>,
    members: Seq<usize>,
    c: usize,
    low: Threshold,
    high: Threshold,
    k: int,
)
    requires
        low.denom > 0,
        low.at_most(high),
        0 <= k < contained_in(table, members, c, high).len(),
    ensures
        contained_in(table, members, c, low).contains(contained_in(table, members, c, high)[k]),
{
    let strict = gene_test(table, c, high);
    let gene = contained_in(table, members, c, high)[k];
    members.lemma_filter_contains_rev(strict, gene);
    lemma_contains_loosens(table[c as int], table[gene as int], CONTAINMENT_TOLERANCE, low, high);
}

/// Candidate pairs are candidates.
pub proof fn lemma_candidate_pairs(
    table: Seq<Transcript>,
    members: Seq<usize>,
    containers: Seq<usize>,
    threshold: Threshold,
)
    requires
        members.len() <= usize::MAX,
        forall|k: int| 0 <= k < containers.len() ==> members.contains(#[trigger] containers[k]),
    ensures
        all_candidates(
            table,
            members,
            candidate_pairs(table, members, containers, threshold),
            threshold,
        ),
    decreases containers.len(),
{
    if containers.len() > 0 {
        let rest = containers.drop_last();
        let c = containers.last();
        lemma_candidate_pairs(table, members, rest, threshold);
        lemma_genes_of(table, members, c, threshold);
    }
}

/// Whether `a` and `b` are two transcripts of one strand.
pub fn is_comparable(a: &Transcript, b: &Transcript) -> (r: bool)
    ensures
        r == comparable(*a, *b),
{
    a.id != b.id && a.strand == b.strand
}

/// The genes that `c` keeps as a container among `members`.
pub fn contained_genes(
    table: &Vec<Transcript>,
    members: &Vec<usize>,
    c: usize,
    threshold: Threshold,
) -> (genes: Vec<usize>)
    requires
        within(members@, table@.len()),
        c < table@.len(),
    ensures
        genes@ == genes_of(table@, members@, c, threshold),
        within(genes@, table@.len()),
{
    let ghost test = gene_test(table@, c, threshold);
    let mut contained: Vec<usize> = Vec::new();
    let mut vetoed = false;
    let mut k: usize = 0;
    while k < members.len()
        invariant
            k <= members.len(),
            c < table@.len(),
            within(members@, table@.len()),
            within(contained@, table@.len()),
            test == gene_test(table@, c, threshold),
            contained@ == members@.take(k as int).filter(test),
            vetoed == exists|j: int|
                0 <= j < k && is_dominated_by(table@, c, #[trigger] members@[j], threshold),
        decreases members.len() - k,
    {
        let i = members[k];
        proof {
            reveal(Seq::filter);
            assert(members@.take(k + 1).drop_last() =~= members@.take(k as int));
        }
        if is_comparable(&table[c], &table[i]) {
            if transcripts_inside_op(&table[c], &table[i], CONTAINMENT_TOLERANCE, threshold) {
                contained.push(i);
            }
            if transcripts_inside(&table[i], &table[c], CONTAINMENT_TOLERANCE, threshold) {
                vetoed = true;
            }
        }
        k = k + 1;
    }
    assert(members@.take(members.len() as int) =~= members@);
    if contained.len() >= 2 && !vetoed {
        let reduced = select_non_overlapping(
            table,
            &contained,
            SELECTION_TOLERANCE,
            Ranking::ExpressionThenExons,
        );
        if reduced.len() >= 2 {
            return reduced;
        }
    }
    Vec::new()
}

/// The candidate pairs of one chromosome, whose transcripts are `members`.
///
/// Each member is tried as a container in turn; one that contains at least
/// two other transcripts of its strand, is dominated by none, and keeps at
/// least two of them after the non-overlapping selection yields one pair for
/// each gene it keeps.
pub fn build_candidates(
    table: &Vec<Transcript>,
    members: &Vec<usize>,
    threshold: Threshold,
) -> (pairs:
    Vec<Pair>)
    requires
        within(members@, table@.len()),
    ensures
        pairs@ == candidate_pairs(table@, members@, members@, threshold),
        all_candidates(table@, members@, pairs@, threshold),
{
    let mut pairs: Vec<Pair> = Vec::new();
    let mut k: usize = 0;
    while k < members.len()
        invariant
            k <= members.len(),
            within(members@, table@.len()),
            pairs@ == candidate_pairs(table@, members@, members@.take(k as int), threshold),
        decreases members.len() - k,
    {
        let c = members[k];
        let genes = contained_genes(table, members, c, threshold);
        proof {
            assert(members@.take(k + 1).drop_last() =~= members@.take(k as int));
        }
        let ghost before = pairs@;
        let mut g: usize = 0;
        while g < genes.len()
            invariant
                g <= genes.len(),
                pairs@ == before + pairs_with(c, genes@.take(g as int)),
            decreases genes.len() - g,
        {
            pairs.push(Pair { container: c, gene: genes[g] });
            g = g + 1;
        }
        k = k + 1;
    }
    proof {
        assert(members@.take(members.len() as int) =~= members@);
        lemma_candidate_pairs(table@, members@, members@, threshold);
    }
    pairs
}

} // verus!
