//! Refining each operon's membership.
//!
//! The genes of an operon are reduced once more to a non-overlapping
//! selection, this time ranked by expression alone. An operon keeps the pairs
//! whose gene survives; an operon with fewer than two survivors is dropped
//! whole.

use vstd::prelude::*;
use crate::candidates::Pair;
use crate::cluster::{gene_id, operons_wf, pair_lists, pairs_within};
use crate::model::{Transcript, SELECTION_TOLERANCE};
use crate::select::{lemma_select, scan_sorted, select, sort_by_start_merged, within, Ranking};

verus! {

/// One row of the result: gene `gene` belongs to operon number `operon`
/// through container `container`.
#[derive(Clone, Copy, Debug, PartialEq, Eq, Structural)]
pub struct Membership {
    pub operon: u64,
    pub container: usize,
    pub gene: usize,
}

/// Both ends of every row are positions in a table of `len` transcripts.
pub open spec fn rows_within(rows: Seq<Membership>, len: nat) -> bool {
    forall|k: int|
        0 <= k < rows.len() ==> (#[trigger] rows[k]).container < len && rows[k].gene < len
}

/// The gene of each pair.
pub open spec fn genes(operon: Seq<Pair>) -> Seq<usize> {
    Seq::new(operon.len(), |k: int| operon[k].gene)
}

/// The genes of an operon that survive the selection.
pub open spec fn survivors(table: Seq<Transcript>, operon: Seq<Pair>) -> Seq<usize> {
    select(table, genes(operon), SELECTION_TOLERANCE, Ranking::ExpressionOnly)
}

/// Some transcript of `chosen` has the id of transcript `gene`.
pub open spec fn survives(table: Seq<Transcript>, chosen: Seq<usize>, gene: usize) -> bool {
    exists|k: int|
        0 <= k < chosen.len() && table[(#[trigger] chosen[k]) as int].id@ == table[gene as int].id@
}

/// The test that picks the pairs whose gene is among `chosen`.
pub open spec fn survivor_test(
    table: Seq<Transcript>,
    chosen: Seq<usize>) -> spec_fn(Pair,
) -> bool {
    |p: Pair| survives(table, chosen, p.gene)
}

/// The pairs of an operon whose gene survives, in the operon's order.
pub open spec fn kept(table: Seq<Transcript>, operon: Seq<Pair>) -> Seq<Pair> {
    operon.filter(survivor_test(table, survivors(table, operon)))
}

/// One row for each pair, under operon number `number`.
pub open spec fn rows_of(pairs: Seq<Pair>, number: u64) -> Seq<Membership> {
    Seq::new(
        pairs.len(),
        |k: int| Membership { operon: number, container: pairs[k].container, gene: pairs[k].gene },
    )
}

/// The rows of one operon: one for each pair it keeps where at least two
/// genes survive, none otherwise.
pub open spec fn refined(
    table: Seq<Transcript>,
    operon: Seq<Pair>,
    number: u64,
) -> Seq<Membership> {
    if survivors(table, operon).len() >= 2 {
        rows_of(kept(table, operon), number)
    } else {
        Seq::empty()
    }
}

/// The rows of all operons, operon by operon; the operon at position `m` has
/// number `m + 1`.
pub open spec fn refine(table: Seq<Transcript>, operons: Seq<Seq<Pair>>) -> Seq<Membership>
    decreases operons.len(),
{
    if operons.len() == 0 {
        Seq::empty()
    } else {
        refine(table, operons.drop_last()) + refined(
            table,
            operons.last(),
            operons.len() as u64,
        )
    }
}

/// The operons, and each of them, are short enough to be held in memory.
pub open spec fn representable(operons: Seq<Seq<Pair>>) -> bool {
    &&& operons.len() <= usize::MAX
    &&& forall|m: int| 0 <= m < operons.len() ==> (#[trigger] operons[m]).len() <= usize::MAX
}

/// No two pairs share a gene id.
pub open spec fn distinct_genes(table: Seq<Transcript>, pairs: Seq<Pair>) -> bool {
    forall|i: int, j: int|
        0 <= i < j < pairs.len() ==> gene_id(table, #[trigger] pairs[i]) != gene_id(
            table,
            #[trigger] pairs[j],
        )
}

/// Row `k` has a companion: another row of its operon, with another gene id.
pub open spec fn has_companion(table: Seq<Transcript>, rows: Seq<Membership>, k: int) -> bool {
    exists|j: int|
        0 <= j < rows.len() && (#[trigger] rows[j]).operon == rows[k].operon
            && table[rows[j].gene as int].id@
            != table[rows[k].gene as int].id@
}

/// Every operon of `rows` has at least two genes with different ids, and no
/// gene id stands in two rows.
pub open spec fn membership_sound(table: Seq<Transcript>, rows: Seq<Membership>) -> bool {
    &&& forall|k: int| 0 <= k < rows.len() ==> has_companion(table, rows, k)
    &&& forall|i: int, j: int|
        0 <= i < j < rows.len() ==> table[(#[trigger] rows[i]).gene as int].id@
            != table[(#[trigger] rows[j]).gene as int].id@
}

proof fn lemma_filter_distinct(
    table: Seq<Transcript>,
    pairs: Seq<Pair>,
    test: spec_fn(Pair) -> bool,
)
    requires
        distinct_genes(table, pairs),
    ensures
        distinct_genes(table, pairs.filter(test)),
    decreases pairs.len(),
{
    reveal(Seq::filter);
    if pairs.len() > 0 {
        let rest = pairs.drop_last();
        lemma_filter_distinct(table, rest, test);
        let before = rest.filter(test);
        let after = pairs.filter(test);
        assert forall|i: int, j: int| 0 <= i < j < after.len() implies gene_id(
            table,
            #[trigger] after[i],
        ) != gene_id(table, #[trigger] after[j]) by {
            if j >= before.len() {
                rest.lemma_filter_contains_rev(test, before[i]);
            }
        }
    }
}

/// An operon whose gene ids differ keeps at least two rows or none; the rows
/// carry its number, each is a pair of the operon, and their gene ids differ.
pub proof fn lemma_refined(table: Seq<Transcript>, operon: Seq<Pair>, number: u64)
    requires
        distinct_genes(table, operon),
        operon.len() <= usize::MAX,
    ensures
        refined(table, operon, number).len() != 1,
        refined(table, operon, number).len() <= operon.len(),
        forall|k: int|
            0 <= k < refined(table, operon, number).len() ==> {
                &&& (#[trigger] refined(table, operon, number)[k]).operon == number
                &&& operon.contains(
                    Pair {
                        container: refined(table, operon, number)[k].container,
                        gene: refined(table, operon, number)[k].gene,
                    },
                )
            },
        forall|i: int, j: int|
            0 <= i < j < refined(table, operon, number).len() ==> table[(#[trigger] refined(
                table,
                operon,
                number,
            )[i]).gene as int].id@
                != table[(#[trigger] refined(table, operon, number)[j]).gene as int].id@,
{
    let chosen = survivors(table, operon);
    let test = survivor_test(table, chosen);
    let keep = kept(table, operon);
    let rows = refined(table, operon, number);
    operon.filter_lemma(test);
    lemma_filter_distinct(table, operon, test);
    assert forall|k: int| 0 <= k < keep.len() implies operon.contains(#[trigger] keep[k]) by {
        operon.lemma_filter_contains_rev(test, keep[k]);
    }
    if chosen.len() >= 2 {
        lemma_select(table, genes(operon), SELECTION_TOLERANCE, Ranking::ExpressionOnly);
        // the first two survivors are genes of two pairs, and both pairs are kept
        let a = choose|a: int| 0 <= a < operon.len() && genes(operon)[a] == chosen[0];
        let b = choose|b: int| 0 <= b < operon.len() && genes(operon)[b] == chosen[1];
        assert(keep.contains(operon[a]));
        assert(keep.contains(operon[b]));
        if keep.len() < 2 {
            let x = choose|x: int| 0 <= x < keep.len() && keep[x] == operon[a];
            let y = choose|y: int| 0 <= y < keep.len() && keep[y] == operon[b];
            assert(x == y);
            assert(gene_id(table, operon[a]) != gene_id(table, operon[b]));
        }
    }
}

/// The rows of well-formed operons carry operon numbers from 1 to the number
/// of operons; every row is a pair of the operon whose number it carries.
pub proof fn lemma_refine_rows(table: Seq<Transcript>, operons: Seq<Seq<Pair>>)
    requires
        operons_wf(table, operons),
        representable(operons),
    ensures
        forall|k: int|
            0 <= k < refine(table, operons).len() ==> {
                &&& 1 <= (#[trigger] refine(table, operons)[k]).operon <= operons.len()
                &&& operons[refine(table, operons)[k].operon - 1].contains(
                    Pair {
                        container: refine(table, operons)[k].container,
                        gene: refine(table, operons)[k].gene,
                    },
                )
            },
    decreases operons.len(),
{
    if operons.len() > 0 {
        let rest = operons.drop_last();
        let last = operons.last();
        let number = operons.len() as u64;
        lemma_operons_wf_rest(table, operons);
        lemma_refine_rows(table, rest);
        lemma_operon_distinct(table, operons, operons.len() - 1);
        lemma_refined(table, last, number);
        assert(refine(table, operons) == refine(table, rest) + refined(table, last, number));
    }
}

proof fn lemma_operons_wf_rest(table: Seq<Transcript>, operons: Seq<Seq<Pair>>)
    requires
        operons_wf(table, operons),
        operons.len() > 0,
    ensures
        operons_wf(table, operons.drop_last()),
{
}

proof fn lemma_operon_distinct(table: Seq<Transcript>, operons: Seq<Seq<Pair>>, m: int)
    requires
        operons_wf(table, operons),
        0 <= m < operons.len(),
    ensures
        distinct_genes(table, operons[m]),
{
}

/// Every operon that well-formed operons are refined to has at least two
/// genes with different ids, and no gene id stands in two rows.
pub proof fn lemma_refine_sound(table: Seq<Transcript>, operons: Seq<Seq<Pair>>)
    requires
        operons_wf(table, operons),
        representable(operons),
    ensures
        membership_sound(table, refine(table, operons)),
    decreases operons.len(),
{
    if operons.len() > 0 {
        let rest = operons.drop_last();
        let last = operons.last();
        let number = operons.len() as u64;
        lemma_refine_sound(table, rest);
        lemma_refine_rows(table, rest);
        lemma_refined(table, last, number);
        let before = refine(table, rest);
        let block = refined(table, last, number);
        let after = refine(table, operons);
        assert forall|k: int| 0 <= k < after.len() implies has_companion(table, after, k) by {
            if k < before.len() {
                assert(has_companion(table, before, k));
                let j = choose|j: int|
                    0 <= j < before.len() && (#[trigger] before[j]).operon == before[k].operon
                        && table[before[j].gene as int].id@ != table[before[k].gene as int].id@;
                assert(after[j] == before[j] && after[k] == before[k]);
            } else {
                let at = k - before.len();
                let other = if at == 0 {
                    1int
                } else {
                    0int
                };
                assert(after[before.len() + other] == block[other]);
            }
        }
    }
}

/// Whether some transcript of `chosen` has the id of transcript `gene`.
pub fn gene_survives(table: &Vec<Transcript>, chosen: &Vec<usize>, gene: usize) -> (r: bool)
    requires
        within(chosen@, table@.len()),
        gene < table@.len(),
    ensures
        r == survives(table@, chosen@, gene),
{
    let mut k: usize = 0;
    while k < chosen.len()
        invariant
            k <= chosen.len(),
            within(chosen@, table@.len()),
            gene < table@.len(),
            forall|j: int|
                0 <= j < k
                    ==> table@[(#[trigger] chosen@[j]) as int].id@ != table@[gene as int].id@,
        decreases chosen.len() - k,
    {
        if table[chosen[k]].id == table[gene].id {
            return true;
        }
        k = k + 1;
    }
    false
}

/// The rows of one operon.
pub fn refine_operon(table: &Vec<Transcript>, operon: &Vec<Pair>, number: u64) -> (rows: Vec<
    Membership,
>)
    requires
        pairs_within(operon@, table@.len()),
    ensures
        rows@ == refined(table@, operon@, number),
        rows_within(rows@, table@.len()),
{
    let mut items: Vec<usize> = Vec::new();
    let mut i: usize = 0;
    while i < operon.len()
        invariant
            i <= operon.len(),
            items.len() == i,
            pairs_within(operon@, table@.len()),
            forall|j: int| 0 <= j < i ==> #[trigger] items[j] == operon[j].gene,
        decreases operon.len() - i,
    {
        items.push(operon[i].gene);
        i = i + 1;
    }
    assert(items@ =~= genes(operon@));
    let sorted = sort_by_start_merged(table, &items);
    let chosen = scan_sorted(table, &sorted, SELECTION_TOLERANCE, Ranking::ExpressionOnly);
    let mut rows: Vec<Membership> = Vec::new();
    if chosen.len() >= 2 {
        let ghost test = survivor_test(table@, chosen@);
        let mut k: usize = 0;
        while k < operon.len()
            invariant
                k <= operon.len(),
                pairs_within(operon@, table@.len()),
                within(chosen@, table@.len()),
                test == survivor_test(table@, chosen@),
                rows@ == rows_of(operon@.take(k as int).filter(test), number),
                rows_within(rows@, table@.len()),
            decreases operon.len() - k,
        {
            let pair = operon[k];
            proof {
                reveal(Seq::filter);
                assert(operon@.take(k + 1).drop_last() =~= operon@.take(k as int));
            }
            if gene_survives(table, &chosen, pair.gene) {
                rows.push(
                    Membership { operon: number, container: pair.container, gene: pair.gene },
                );
            }
            k = k + 1;
        }
        assert(operon@.take(operon.len() as int) =~= operon@);
    }
    rows
}

/// The rows of all operons, operon by operon.
///
/// Where the operons are well formed, as clustering leaves them, every operon
/// in the result has at least two genes with different ids.
pub fn refine_operons(table: &Vec<Transcript>, operons: &Vec<Vec<Pair>>) -> (rows: Vec<Membership>)
    requires
        forall|m: int|
            0 <= m < operons@.len() ==> pairs_within((#[trigger] operons@[m])@, table@.len()),
    ensures
        rows@ == refine(table@, pair_lists(operons@)),
        rows_within(rows@, table@.len()),
        operons_wf(table@, pair_lists(operons@)) ==> membership_sound(table@, rows@),
{
    let ghost views = pair_lists(operons@);
    let mut rows: Vec<Membership> = Vec::new();
    let mut m: usize = 0;
    while m < operons.len()
        invariant
            m <= operons.len(),
            views == pair_lists(operons@),
            forall|n: int|
                0 <= n < operons@.len() ==> pairs_within((#[trigger] operons@[n])@, table@.len()),
            rows@ == refine(table@, views.take(m as int)),
            rows_within(rows@, table@.len()),
        decreases operons.len() - m,
    {
        proof {
            assert(views.take(m + 1).drop_last() =~= views.take(m as int));
        }
        let mut block = refine_operon(table, &operons[m], (m + 1) as u64);
        rows.append(&mut block);
        m = m + 1;
    }
    proof {
        assert(views.take(operons.len() as int) =~= views);
        if operons_wf(table@, views) {
            assert forall|n: int| 0 <= n < views.len() implies (#[trigger] views[n]).len()
                <= usize::MAX by {
                assert(views[n].len() == operons@[n].len());
            }
            lemma_refine_sound(table@, views);
        }
    }
    rows
}

} // verus!
