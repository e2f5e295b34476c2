//! Merging candidate pairs into operons.
//!
//! The pairs of a chromosome are taken strand by strand. Within a strand they
//! are put in order of container start and walked once: a pair whose gene
//! already belongs to an operon is passed over; a pair whose container
//! overlaps the container of the pair before it joins that pair's operon;
//! any other pair opens a new operon. The first pair of a strand always opens
//! one. Operons are numbered from 1 in the order in which they are opened, so
//! an operon's number is its position in the list plus one.

use vstd::prelude::*;
use crate::candidates::Pair;
use crate::classify::{containers_overlap, operontrans_overlap};
use crate::model::{Strand, Transcript, CONTAINMENT_TOLERANCE};
use crate::order::{arranged, is_stable_order, lemma_stable_order_is, stable_order, stable_order_of};

verus! {

/// Both ends of every pair are positions in a table of `len` transcripts.
pub open spec fn pairs_within(pairs: Seq<Pair>, len: nat) -> bool {
    forall|k: int|
        0 <= k < pairs.len() ==> (#[trigger] pairs[k]).container < len && pairs[k].gene < len
}

/// The start of a pair's container.
pub open spec fn container_start(table: Seq<Transcript>, pair: Pair) -> u64 {
    table[pair.container as int].start
}

/// The name of the chromosome of a pair's container.
pub open spec fn container_chrom(table: Seq<Transcript>, pair: Pair) -> Seq<char> {
    table[pair.container as int].chrom@
}

/// The strand of a pair's container.
pub open spec fn container_strand(table: Seq<Transcript>, pair: Pair) -> Strand {
    table[pair.container as int].strand
}

/// The id of a pair's gene.
pub open spec fn gene_id(table: Seq<Transcript>, pair: Pair) -> Seq<char> {
    table[pair.gene as int].id@
}

/// The test that picks the pairs whose container is on `strand`.
pub open spec fn strand_test(table: Seq<Transcript>, strand: Strand) -> spec_fn(Pair) -> bool {
    |p: Pair| container_strand(table, p) == strand
}

/// The pairs whose container is on `strand`, in the order of `pairs`.
pub open spec fn strand_group(
    table: Seq<Transcript>,
    pairs: Seq<Pair>,
    strand: Strand,
) -> Seq<Pair> {
    pairs.filter(strand_test(table, strand))
}

/// The container start of each pair.
pub open spec fn container_starts(table: Seq<Transcript>, pairs: Seq<Pair>) -> Seq<u64> {
    Seq::new(pairs.len(), |k: int| container_start(table, pairs[k]))
}

/// `pairs` in stable ascending order of container start.
pub open spec fn by_container_start(table: Seq<Transcript>, pairs: Seq<Pair>) -> Seq<Pair> {
    arranged(pairs, stable_order_of(container_starts(table, pairs)))
}

/// Container starts do not decrease along `pairs`.
pub open spec fn containers_ascending(table: Seq<Transcript>, pairs: Seq<Pair>) -> bool {
    forall|i: int, j: int|
        0 <= i < j < pairs.len() ==> container_start(table, #[trigger] pairs[i]) <= container_start(
            table,
            #[trigger] pairs[j],
        )
}

/// Some operon already holds a gene with the id of transcript `gene`.
pub open spec fn is_assigned(table: Seq<Transcript>, operons: Seq<Seq<Pair>>, gene: usize) -> bool {
    exists|m: int, i: int|
        0 <= m < operons.len() && 0 <= i < operons[m].len() && gene_id(
            table,
            #[trigger] operons[m][i],
        ) == table[gene as int].id@
}

/// The operons after the pairs of `group` have been walked, in order, where
/// `before` are the operons of the strands walked earlier.
pub open spec fn walk(table: Seq<Transcript>, before: Seq<Seq<Pair>>, group: Seq<Pair>) -> Seq<
    Seq<Pair>,
>
    decreases group.len(),
{
    if group.len() == 0 {
        before
    } else {
        let sofar = walk(table, before, group.drop_last());
        let pair = group.last();
        if is_assigned(table, sofar, pair.gene) {
            sofar
        } else if sofar.len() > before.len() && containers_overlap(
            table[pair.container as int],
            table[sofar.last().last().container as int],
            CONTAINMENT_TOLERANCE,
        ) {
            sofar.drop_last().push(sofar.last().push(pair))
        } else {
            sofar.push(seq![pair])
        }
    }
}

/// The operons after the pairs of one strand have been added.
pub open spec fn with_strand(
    table: Seq<Transcript>,
    before: Seq<Seq<Pair>>,
    pairs: Seq<Pair>,
    strand: Strand,
) -> Seq<Seq<Pair>> {
    walk(table, before, by_container_start(table, strand_group(table, pairs, strand)))
}

/// The operons after the pairs of one chromosome have been added: forward
/// strand first, then reverse, unstranded and unknown.
pub open spec fn with_chromosome(
    table: Seq<Transcript>,
    before: Seq<Seq<Pair>>,
    pairs: Seq<Pair>,
) -> Seq<Seq<Pair>> {
    let forward = with_strand(table, before, pairs, Strand::Forward);
    let reverse = with_strand(table, forward, pairs, Strand::Reverse);
    let unstranded = with_strand(table, reverse, pairs, Strand::Unstranded);
    with_strand(table, unstranded, pairs, Strand::Unknown)
}

/// No operon is empty, every pair lies in the table, and no gene id occurs
/// twice, in one operon or in two.
pub open spec fn operons_wf(table: Seq<Transcript>, operons: Seq<Seq<Pair>>) -> bool {
    &&& forall|m: int| 0 <= m < operons.len() ==> (#[trigger] operons[m]).len() > 0
    &&& forall|m: int| 0 <= m < operons.len() ==> pairs_within(#[trigger] operons[m], table.len())
    &&& forall|m: int, i: int, n: int, j: int|
        0 <= m < operons.len() && 0 <= i < operons[m].len() && 0 <= n < operons.len() && 0 <= j
            < operons[n].len() && (m != n || i != j) ==> gene_id(table, #[trigger] operons[m][i])
            != gene_id(table, #[trigger] operons[n][j])
}

/// From operon `from` on, container starts do not decrease: not within an
/// operon, and not from one operon to a later one.
pub open spec fn ordered_from(table: Seq<Transcript>, operons: Seq<Seq<Pair>>, from: int) -> bool {
    forall|m: int, i: int, n: int, j: int|
        from <= m < operons.len() && 0 <= i < operons[m].len() && m <= n < operons.len() && 0 <= j
            < operons[n].len() && (m < n || i < j) ==> container_start(
            table,
            #[trigger] operons[m][i],
        ) <= container_start(table, #[trigger] operons[n][j])
}

/// The containers of `p` and `q` are on one chromosome and one strand.
pub open spec fn same_group(table: Seq<Transcript>, p: Pair, q: Pair) -> bool {
    container_chrom(table, p) == container_chrom(table, q)
        && container_strand(table, p) == container_strand(table, q)
}

/// Operon numbers follow the genome: from a pair to any later pair whose
/// container is on the same chromosome and strand, in the same operon or in
/// one of higher number, container starts do not decrease.
pub open spec fn ordered_in_groups(table: Seq<Transcript>, operons: Seq<Seq<Pair>>) -> bool {
    forall|m: int, i: int, n: int, j: int|
        0 <= m <= n < operons.len() && 0 <= i < operons[m].len() && 0 <= j < operons[n].len() && (m
            < n || i < j) && same_group(table, #[trigger] operons[m][i], #[trigger] operons[n][j])
            ==> container_start(table, operons[m][i]) <= container_start(table, operons[n][j])
}

/// The containers of `pairs` are all on one chromosome.
pub open spec fn one_chromosome(table: Seq<Transcript>, pairs: Seq<Pair>) -> bool {
    forall|a: int, b: int|
        0 <= a < pairs.len() && 0 <= b < pairs.len() ==> container_chrom(table, #[trigger] pairs[a])
            == container_chrom(table, #[trigger] pairs[b])
}

/// No operon holds a pair whose container is on the chromosome of `pairs`
/// and on `strand`.
pub open spec fn clear_of(
    table: Seq<Transcript>,
    operons: Seq<Seq<Pair>>,
    pairs: Seq<Pair>,
    strand: Strand,
) -> bool {
    forall|m: int, i: int, k: int|
        0 <= m < operons.len() && 0 <= i < operons[m].len() && 0 <= k < pairs.len()
            ==> !(container_chrom(table, #[trigger] operons[m][i])
            == container_chrom(table, #[trigger] pairs[k])
            && container_strand(table, operons[m][i]) == strand)
}

/// No operon holds a pair whose container is on the chromosome of `pairs`.
pub open spec fn apart(table: Seq<Transcript>, operons: Seq<Seq<Pair>>, pairs: Seq<Pair>) -> bool {
    forall|m: int, i: int, k: int|
        0 <= m < operons.len() && 0 <= i < operons[m].len() && 0 <= k < pairs.len()
            ==> container_chrom(table, #[trigger] operons[m][i])
            != container_chrom(table, #[trigger] pairs[k])
}

/// From operon `from` on, every container is on `strand`.
pub open spec fn on_strand(
    table: Seq<Transcript>,
    operons: Seq<Seq<Pair>>,
    from: int,
    strand: Strand,
) -> bool {
    forall|m: int, i: int|
        from <= m < operons.len() && 0 <= i < operons[m].len()
            ==> container_strand(table, #[trigger] operons[m][i])
            == strand
}

/// From operon `from` on, every pair is one of `group`.
pub open spec fn drawn_from(operons: Seq<Seq<Pair>>, from: int, group: Seq<Pair>) -> bool {
    forall|m: int, i: int|
        from <= m < operons.len() && 0 <= i < operons[m].len() ==> group.contains(
            #[trigger] operons[m][i],
        )
}

/// A walk leaves the earlier operons as they were and keeps the operons well
/// formed; the operons it opens hold pairs of the group only, and where the
/// group is in order of container start, so are they: container starts do not
/// decrease as operon numbers rise.
pub proof fn lemma_walk(table: Seq<Transcript>, before: Seq<Seq<Pair>>, group: Seq<Pair>)
    requires
        operons_wf(table, before),
        pairs_within(group, table.len()),
    ensures
        operons_wf(table, walk(table, before, group)),
        walk(table, before, group).len() >= before.len(),
        walk(table, before, group).len() <= before.len() + group.len(),
        walk(table, before, group).take(before.len() as int) == before,
        drawn_from(walk(table, before, group), before.len() as int, group),
        containers_ascending(table, group) ==> ordered_from(
            table,
            walk(table, before, group),
            before.len() as int,
        ),
    decreases group.len(),
{
    if group.len() > 0 {
        lemma_walk(table, before, group.drop_last());
    }
}

/// Operons that were clear of a strand are still clear of it when another
/// strand has been added.
proof fn lemma_still_clear(
    table: Seq<Transcript>,
    before: Seq<Seq<Pair>>,
    after: Seq<Seq<Pair>>,
    pairs: Seq<Pair>,
    added: Strand,
    next: Strand,
)
    requires
        added != next,
        before.len() <= after.len(),
        after.take(before.len() as int) == before,
        on_strand(table, after, before.len() as int, added),
        clear_of(table, before, pairs, next),
    ensures
        clear_of(table, after, pairs, next),
{
    assert forall|m: int, i: int, k: int|
        0 <= m < after.len() && 0 <= i < after[m].len() && 0 <= k < pairs.len()
            implies !(container_chrom(table, #[trigger] after[m][i])
        == container_chrom(table, #[trigger] pairs[k])
        && container_strand(table, after[m][i]) == next) by {
        if m < before.len() {
            assert(after.take(before.len() as int)[m] == after[m]);
            assert(before[m][i] == after[m][i]);
        }
    }
}

/// Putting pairs in order of container start keeps them all.
pub proof fn lemma_by_container_start(table: Seq<Transcript>, pairs: Seq<Pair>, order: Seq<usize>)
    requires
        is_stable_order(container_starts(table, pairs), order),
    ensures
        by_container_start(table, pairs) == arranged(pairs, order),
        by_container_start(table, pairs).len() == pairs.len(),
        containers_ascending(table, by_container_start(table, pairs)),
        forall|k: int|
            0 <= k < pairs.len() ==> pairs.contains(#[trigger] by_container_start(table, pairs)[k]),
{
    let keys = container_starts(table, pairs);
    lemma_stable_order_is(keys, order);
}

/// The view of each list of pairs.
pub open spec fn pair_lists(lists: Seq<Vec<Pair>>) -> Seq<Seq<Pair>> {
    Seq::new(lists.len(), |m: int| lists[m]@)
}

/// The pairs whose container is on `strand`.
pub fn pairs_on_strand(table: &Vec<Transcript>, pairs: &Vec<Pair>, strand: Strand) -> (group: Vec<
    Pair,
>)
    requires
        pairs_within(pairs@, table@.len()),
    ensures
        group@ == strand_group(table@, pairs@, strand),
        pairs_within(group@, table@.len()),
{
    let ghost test = strand_test(table@, strand);
    let mut group: Vec<Pair> = Vec::new();
    let mut k: usize = 0;
    while k < pairs.len()
        invariant
            k <= pairs.len(),
            pairs_within(pairs@, table@.len()),
            pairs_within(group@, table@.len()),
            test == strand_test(table@, strand),
            group@ == pairs@.take(k as int).filter(test),
        decreases pairs.len() - k,
    {
        let pair = pairs[k];
        proof {
            reveal(Seq::filter);
            assert(pairs@.take(k + 1).drop_last() =~= pairs@.take(k as int));
        }
        if table[pair.container].strand == strand {
            group.push(pair);
        }
        k = k + 1;
    }
    assert(pairs@.take(pairs.len() as int) =~= pairs@);
    group
}

/// `pairs` in stable ascending order of container start.
pub fn sort_by_container_start(table: &Vec<Transcript>, pairs: &Vec<Pair>) -> (sorted: Vec<Pair>)
    requires
        pairs_within(pairs@, table@.len()),
    ensures
        sorted@ == by_container_start(table@, pairs@),
        pairs_within(sorted@, table@.len()),
        containers_ascending(table@, sorted@),
        forall|k: int| 0 <= k < sorted@.len() ==> pairs@.contains(#[trigger] sorted@[k]),
{
    let mut keys: Vec<u64> = Vec::new();
    let mut i: usize = 0;
    while i < pairs.len()
        invariant
            i <= pairs.len(),
            keys.len() == i,
            pairs_within(pairs@, table@.len()),
            forall|j: int| 0 <= j < i ==> #[trigger] keys[j] == container_start(table@, pairs[j]),
        decreases pairs.len() - i,
    {
        keys.push(table[pairs[i].container].start);
        i = i + 1;
    }
    let order = stable_order(&keys);
    let mut sorted: Vec<Pair> = Vec::new();
    let mut k: usize = 0;
    while k < order.len()
        invariant
            k <= order.len(),
            order.len() == pairs.len(),
            sorted.len() == k,
            is_stable_order(keys@, order@),
            keys.len() == pairs.len(),
            pairs_within(pairs@, table@.len()),
            forall|j: int| 0 <= j < k ==> #[trigger] sorted[j] == pairs[order[j] as int],
        decreases order.len() - k,
    {
        sorted.push(pairs[order[k]]);
        k = k + 1;
    }
    proof {
        lemma_by_container_start(table@, pairs@, order@);
    }
    sorted
}

/// Whether some operon already holds a gene with the id of transcript `gene`.
pub fn gene_is_assigned(table: &Vec<Transcript>, operons: &Vec<Vec<Pair>>, gene: usize) -> (r: bool)
    requires
        gene < table@.len(),
        forall|m: int|
            0 <= m < operons@.len() ==> pairs_within((#[trigger] operons@[m])@, table@.len()),
    ensures
        r == is_assigned(table@, pair_lists(operons@), gene),
{
    let ghost views = pair_lists(operons@);
    let mut m: usize = 0;
    while m < operons.len()
        invariant
            m <= operons.len(),
            gene < table@.len(),
            views == pair_lists(operons@),
            forall|n: int|
                0 <= n < operons@.len() ==> pairs_within((#[trigger] operons@[n])@, table@.len()),
            forall|n: int, i: int|
                0 <= n < m && 0 <= i < views[n].len() ==> gene_id(table@, #[trigger] views[n][i])
                    != table@[gene as int].id@,
        decreases operons.len() - m,
    {
        let operon = &operons[m];
        let mut i: usize = 0;
        while i < operon.len()
            invariant
                i <= operon.len(),
                m < operons.len(),
                gene < table@.len(),
                views == pair_lists(operons@),
                views[m as int] == operon@,
                pairs_within(operon@, table@.len()),
                forall|n: int, j: int|
                    0 <= n < m && 0 <= j < views[n].len()
                        ==> gene_id(table@, #[trigger] views[n][j])
                        != table@[gene as int].id@,
                forall|j: int|
                    0 <= j < i
                        ==> gene_id(table@, #[trigger] operon@[j]) != table@[gene as int].id@,
            decreases operon.len() - i,
        {
            if table[operon[i].gene].id == table[gene].id {
                return true;
            }
            i = i + 1;
        }
        m = m + 1;
    }
    false
}

/// The operons after the pairs of `group` have been walked, in order.
///
/// `group` is one strand's pairs in order of container start. The operons
/// given are kept as they are; the operons opened hold pairs of `group`, and
/// their container starts do not decrease as operon numbers rise.
pub fn walk_group(table: &Vec<Transcript>, operons: Vec<Vec<Pair>>, group: &Vec<Pair>) -> (out: Vec<
    Vec<Pair>,
>)
    requires
        operons_wf(table@, pair_lists(operons@)),
        pairs_within(group@, table@.len()),
    ensures
        pair_lists(out@) == walk(table@, pair_lists(operons@), group@),
        operons_wf(table@, pair_lists(out@)),
        out@.len() >= operons@.len(),
        pair_lists(out@).take(operons@.len() as int) == pair_lists(operons@),
        drawn_from(pair_lists(out@), operons@.len() as int, group@),
        containers_ascending(table@, group@) ==> ordered_from(
            table@,
            pair_lists(out@),
            operons@.len() as int,
        ),
{
    let ghost before = pair_lists(operons@);
    let base = operons.len();
    let mut out = operons;
    let mut k: usize = 0;
    while k < group.len()
        invariant
            k <= group.len(),
            base == before.len(),
            operons_wf(table@, before),
            pairs_within(group@, table@.len()),
            pair_lists(out@) == walk(table@, before, group@.take(k as int)),
        decreases group.len() - k,
    {
        let pair = group[k];
        let ghost sofar = pair_lists(out@);
        proof {
            assert(group@.take(k + 1).drop_last() =~= group@.take(k as int));
            lemma_walk(table@, before, group@.take(k as int));
            assert forall|m: int| 0 <= m < out@.len() implies pairs_within(
                (#[trigger] out@[m])@,
                table@.len(),
            ) by {
                assert(sofar[m] == out@[m]@);
            }
        }
        if !gene_is_assigned(table, &out, pair.gene) {
            let n = out.len();
            let mut joins = false;
            if n > base {
                assert(sofar[n - 1] == out@[n - 1]@);
                let last = &out[n - 1];
                let anchor = last[last.len() - 1].container;
                joins = operontrans_overlap(
                    &table[pair.container],
                    &table[anchor],
                    CONTAINMENT_TOLERANCE,
                );
            }
            if joins {
                let mut last = out.pop().unwrap();
                last.push(pair);
                out.push(last);
            } else {
                let mut opened: Vec<Pair> = Vec::new();
                opened.push(pair);
                out.push(opened);
            }
        }
        k = k + 1;
    }
    proof {
        assert(group@.take(group.len() as int) =~= group@);
        lemma_walk(table@, before, group@);
    }
    out
}

/// The operons after the pairs of one strand have been added.
pub fn add_strand(
    table: &Vec<Transcript>,
    operons: Vec<Vec<Pair>>,
    pairs: &Vec<Pair>,
    strand: Strand,
) -> (out: Vec<Vec<Pair>>)
    requires
        operons_wf(table@, pair_lists(operons@)),
        pairs_within(pairs@, table@.len()),
    ensures
        pair_lists(out@) == with_strand(table@, pair_lists(operons@), pairs@, strand),
        operons_wf(table@, pair_lists(out@)),
        out@.len() >= operons@.len(),
        pair_lists(out@).take(operons@.len() as int) == pair_lists(operons@),
        drawn_from(pair_lists(out@), operons@.len() as int, pairs@),
        ordered_from(table@, pair_lists(out@), operons@.len() as int),
        on_strand(table@, pair_lists(out@), operons@.len() as int, strand),
        ordered_in_groups(table@, pair_lists(operons@)) && one_chromosome(table@, pairs@)
            && clear_of(table@, pair_lists(operons@), pairs@, strand) ==> ordered_in_groups(
            table@,
            pair_lists(out@),
        ),
{
    let group = pairs_on_strand(table, pairs, strand);
    let sorted = sort_by_container_start(table, &group);
    let out = walk_group(table, operons, &sorted);
    proof {
        let views = pair_lists(out@);
        assert forall|m: int, i: int|
            operons@.len() <= m < views.len() && 0 <= i < views[m].len() implies pairs@.contains(
            #[trigger] views[m][i],
        ) by {
            // a pair of the walk is a pair of the sorted group, so of the group
            assert(sorted@.contains(views[m][i]));
            assert(group@.contains(views[m][i]));
            pairs@.lemma_filter_contains_rev(strand_test(table@, strand), views[m][i]);
        }
        assert forall|m: int, i: int|
            operons@.len() <= m < views.len() && 0 <= i < views[m].len()
                implies container_strand(table@, #[trigger] views[m][i])
            == strand by {
            assert(group@.contains(views[m][i]));
            pairs@.filter_lemma(strand_test(table@, strand));
            let k = choose|k: int| 0 <= k < group@.len() && group@[k] == views[m][i];
            assert(strand_test(table@, strand)(group@[k]));
        }
        let before = pair_lists(operons@);
        if ordered_in_groups(table@, before) && one_chromosome(table@, pairs@) && clear_of(
            table@,
            before,
            pairs@,
            strand,
        ) {
            assert forall|m: int, i: int, n: int, j: int|
                0 <= m <= n < views.len() && 0 <= i < views[m].len() && 0 <= j < views[n].len()
                    && (m < n || i < j) && same_group(
                    table@,
                    #[trigger] views[m][i],
                    #[trigger] views[n][j],
                ) implies container_start(table@, views[m][i]) <= container_start(
                table@,
                views[n][j],
            ) by {
                if n < before.len() {
                    assert(views.take(before.len() as int)[m] == views[m]);
                    assert(views.take(before.len() as int)[n] == views[n]);
                } else if m < before.len() {
                    // an earlier operon against one of this strand: not of one group
                    assert(views.take(before.len() as int)[m] == views[m]);
                    assert(pairs@.contains(views[n][j]));
                    let k = choose|k: int| 0 <= k < pairs@.len() && pairs@[k] == views[n][j];
                    assert(before[m][i] == views[m][i]);
                }
            }
        }
    }
    out
}

/// The operons after the pairs of one chromosome have been added.
///
/// The operons given keep their places, and with them their numbers. Of the
/// operons opened, each holds pairs of `pairs` on one strand, and within a
/// strand container starts do not decrease as operon numbers rise.
pub fn add_chromosome(table: &Vec<Transcript>, operons: Vec<Vec<Pair>>, pairs: &Vec<Pair>) -> (out:
    Vec<Vec<Pair>>)
    requires
        operons_wf(table@, pair_lists(operons@)),
        pairs_within(pairs@, table@.len()),
    ensures
        pair_lists(out@) == with_chromosome(table@, pair_lists(operons@), pairs@),
        operons_wf(table@, pair_lists(out@)),
        out@.len() >= operons@.len(),
        pair_lists(out@).take(operons@.len() as int) == pair_lists(operons@),
        drawn_from(pair_lists(out@), operons@.len() as int, pairs@),
        ordered_in_groups(table@, pair_lists(operons@)) && one_chromosome(table@, pairs@) && apart(
            table@,
            pair_lists(operons@),
            pairs@,
        ) ==> ordered_in_groups(table@, pair_lists(out@)),
{
    let ghost before = pair_lists(operons@);
    let forward = add_strand(table, operons, pairs, Strand::Forward);
    let ghost first = pair_lists(forward@);
    let reverse = add_strand(table, forward, pairs, Strand::Reverse);
    let ghost second = pair_lists(reverse@);
    let unstranded = add_strand(table, reverse, pairs, Strand::Unstranded);
    let ghost third = pair_lists(unstranded@);
    let out = add_strand(table, unstranded, pairs, Strand::Unknown);
    proof {
        let last = pair_lists(out@);
        // each strand leaves the operons of the strands before it in place
        assert forall|m: int| 0 <= m < first.len() implies #[trigger] last[m] == first[m] by {
            assert(second.take(first.len() as int)[m] == second[m]);
            assert(third.take(second.len() as int)[m] == third[m]);
            assert(last.take(third.len() as int)[m] == last[m]);
        }
        assert forall|m: int| first.len() <= m < second.len() implies #[trigger] last[m]
            == second[m] by {
            assert(third.take(second.len() as int)[m] == third[m]);
            assert(last.take(third.len() as int)[m] == last[m]);
        }
        assert forall|m: int| second.len() <= m < third.len() implies #[trigger] last[m]
            == third[m] by {
            assert(last.take(third.len() as int)[m] == last[m]);
        }
        assert(last.take(before.len() as int) =~= before) by {
            assert(first.take(before.len() as int) == before);
        }
        if ordered_in_groups(table@, before) && one_chromosome(table@, pairs@) && apart(
            table@,
            before,
            pairs@,
        ) {
            // what a strand adds is on that strand, so the next strand finds
            // the operons clear of its own pairs
            lemma_still_clear(table@, before, first, pairs@, Strand::Forward, Strand::Reverse);
            lemma_still_clear(table@, before, first, pairs@, Strand::Forward, Strand::Unstranded);
            lemma_still_clear(table@, before, first, pairs@, Strand::Forward, Strand::Unknown);
            lemma_still_clear(table@, first, second, pairs@, Strand::Reverse, Strand::Unstranded);
            lemma_still_clear(table@, first, second, pairs@, Strand::Reverse, Strand::Unknown);
            lemma_still_clear(table@, second, third, pairs@, Strand::Unstranded, Strand::Unknown);
        }
    }
    out
}

} // verus!
