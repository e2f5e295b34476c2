//! The whole run: from an index of transcripts to the membership table.

use vstd::prelude::*;
use crate::candidates::{all_candidates, build_candidates, candidate_pairs, is_candidate, Pair};
use crate::cluster::{
    add_chromosome, container_chrom, one_chromosome, operons_wf, ordered_in_groups, pair_lists,
    pairs_within, with_chromosome,
};
use crate::index::{
    holds_own, lemma_before_asymmetric, lemma_index_unique, member_lists, name_before,
    TranscriptIndex,
};
use crate::model::{text_bytes, Threshold, Transcript};
use crate::refine::{
    lemma_refine_rows, membership_sound, refine, refine_operons, representable, rows_within,
    Membership,
};
use crate::summary::{is_histogram_of, Histogram};

verus! {

/// The candidate pairs of each chromosome, where each chromosome is given by
/// the positions of its transcripts.
pub open spec fn candidates_of(
    table: Seq<Transcript>,
    chromosomes: Seq<Seq<usize>>,
    threshold: Threshold,
) -> Seq<Seq<Pair>> {
    Seq::new(
        chromosomes.len(),
        |k: int| candidate_pairs(table, chromosomes[k], chromosomes[k], threshold),
    )
}

/// The operons that the candidate pairs of the chromosomes merge to, one
/// chromosome after the other.
pub open spec fn merged(table: Seq<Transcript>, candidates: Seq<Seq<Pair>>) -> Seq<Seq<Pair>>
    decreases candidates.len(),
{
    if candidates.len() == 0 {
        Seq::empty()
    } else {
        with_chromosome(table, merged(table, candidates.drop_last()), candidates.last())
    }
}

/// The operons of a run, before refinement.
pub open spec fn operons_of(
    table: Seq<Transcript>,
    chromosomes: Seq<Seq<usize>>,
    threshold: Threshold,
) -> Seq<Seq<Pair>> {
    merged(table, candidates_of(table, chromosomes, threshold))
}

/// The membership table of a run.
pub open spec fn operon_rows(
    table: Seq<Transcript>,
    chromosomes: Seq<Seq<usize>>,
    threshold: Threshold,
) -> Seq<Membership> {
    refine(table, operons_of(table, chromosomes, threshold))
}

/// `pair` is a candidate on one of the chromosomes.
pub open spec fn is_candidate_somewhere(
    table: Seq<Transcript>,
    chromosomes: Seq<Seq<usize>>,
    pair: Pair,
    threshold: Threshold,
) -> bool {
    exists|c: int|
        0 <= c < chromosomes.len()
            && is_candidate(table, #[trigger] chromosomes[c], pair, threshold)
}

/// Every pair of every operon is a candidate on one of the chromosomes.
pub open spec fn all_sourced(
    table: Seq<Transcript>,
    chromosomes: Seq<Seq<usize>>,
    operons: Seq<Seq<Pair>>,
    threshold: Threshold,
) -> bool {
    forall|m: int, i: int|
        0 <= m < operons.len() && 0 <= i < operons[m].len() ==> is_candidate_somewhere(
            table,
            chromosomes,
            #[trigger] operons[m][i],
            threshold,
        )
}

/// Every row pairs a container with a gene that is its candidate on one of
/// the chromosomes: the container contains the gene, and nothing on the
/// chromosome dominates the container.
pub open spec fn rows_sourced(
    table: Seq<Transcript>,
    chromosomes: Seq<Seq<usize>>,
    rows: Seq<Membership>,
    threshold: Threshold,
) -> bool {
    forall|k: int|
        0 <= k < rows.len() ==> is_candidate_somewhere(
            table,
            chromosomes,
            Pair { container: (#[trigger] rows[k]).container, gene: rows[k].gene },
            threshold,
        )
}

/// Two runs over the same transcripts under the same threshold give the same
/// membership table, operon numbers included, and the same histogram.
pub proof fn lemma_runs_agree(
    table: Seq<Transcript>,
    chromosomes: Seq<Seq<usize>>,
    threshold: Threshold,
    first: Seq<Membership>,
    second: Seq<Membership>,
    first_histogram: Histogram,
    second_histogram: Histogram,
)
    requires
        first == operon_rows(table, chromosomes, threshold),
        second == operon_rows(table, chromosomes, threshold),
        is_histogram_of(first_histogram, first),
        is_histogram_of(second_histogram, second),
    ensures
        first == second,
        first_histogram == second_histogram,
{
}

/// Every pair of every chromosome is a candidate on that chromosome.
pub open spec fn candidates_sound(
    table: Seq<Transcript>,
    chromosomes: Seq<Seq<usize>>,
    candidates: Seq<Seq<Pair>>,
    threshold: Threshold,
) -> bool {
    &&& candidates.len() == chromosomes.len()
    &&& forall|k: int|
        0 <= k < candidates.len() ==> all_candidates(
            table,
            chromosomes[k],
            #[trigger] candidates[k],
            threshold,
        )
}

/// Each list holds containers of one chromosome, and no two lists hold
/// containers of the same one.
pub open spec fn chromosomes_apart(table: Seq<Transcript>, candidates: Seq<Seq<Pair>>) -> bool {
    forall|k: int, a: int, n: int, b: int|
        0 <= k < candidates.len() && 0 <= a < candidates[k].len() && 0 <= n < candidates.len()
            && 0 <= b < candidates[n].len()
                ==> (k == n <==> container_chrom(table, #[trigger] candidates[k][a])
            == container_chrom(table, #[trigger] candidates[n][b]))
}

/// Every pair of every operon is a pair of one of the first `upto` lists.
pub open spec fn drawn_upto(
    operons: Seq<Seq<Pair>>,
    candidates: Seq<Seq<Pair>>,
    upto: int,
) -> bool {
    forall|m: int, i: int|
        0 <= m < operons.len() && 0 <= i < operons[m].len() ==> exists|k: int|
            0 <= k < upto && k < candidates.len() && (#[trigger] candidates[k]).contains(
                #[trigger] operons[m][i],
            )
}

/// The candidate pairs of each chromosome of `index`, in the order of the
/// index.
pub fn collect_candidates(index: &TranscriptIndex, threshold: Threshold) -> (candidates: Vec<
    Vec<Pair>,
>)
    requires
        index.well_formed(),
    ensures
        pair_lists(candidates@) == candidates_of(
            index.table(),
            member_lists(index.groups()),
            threshold,
        ),
        candidates_sound(
            index.table(),
            member_lists(index.groups()),
            pair_lists(candidates@),
            threshold,
        ),
        forall|k: int|
            0 <= k < candidates@.len() ==> pairs_within(
                (#[trigger] candidates@[k])@,
                index.table().len(),
            ),
{
    let table = index.transcripts();
    let groups = index.chromosomes();
    let ghost lists = member_lists(groups@);
    let mut candidates: Vec<Vec<Pair>> = Vec::new();
    let mut k: usize = 0;
    while k < groups.len()
        invariant
            k <= groups.len(),
            index.well_formed(),
            table@ == index.table(),
            groups@ == index.groups(),
            lists == member_lists(groups@),
            candidates@.len() == k,
            forall|c: int|
                0 <= c < k ==> (#[trigger] candidates@[c])@ == candidate_pairs(
                    table@,
                    lists[c],
                    lists[c],
                    threshold,
                ),
            forall|c: int|
                0 <= c < k
                    ==> all_candidates(table@, lists[c], (#[trigger] candidates@[c])@, threshold),
            forall|c: int| 0 <= c < k ==> pairs_within((#[trigger] candidates@[c])@, table@.len()),
        decreases groups.len() - k,
    {
        let members = &groups[k].members;
        let pairs = build_candidates(table, members, threshold);
        candidates.push(pairs);
        k = k + 1;
    }
    candidates
}

/// The operons that the candidate pairs of the chromosomes merge to.
///
/// The operons are well formed, and each holds pairs of the lists given only.
/// Where each list stands for a chromosome of its own, operon numbers follow
/// the genome on every chromosome and strand.
pub fn merge_candidates(table: &Vec<Transcript>, candidates: &Vec<Vec<Pair>>) -> (operons: Vec<
    Vec<Pair>,
>)
    requires
        forall|k: int|
            0 <= k < candidates@.len() ==> pairs_within((#[trigger] candidates@[k])@, table@.len()),
    ensures
        pair_lists(operons@) == merged(table@, pair_lists(candidates@)),
        operons_wf(table@, pair_lists(operons@)),
        drawn_upto(pair_lists(operons@), pair_lists(candidates@), candidates@.len() as int),
        chromosomes_apart(table@, pair_lists(candidates@)) ==> ordered_in_groups(
            table@,
            pair_lists(operons@),
        ),
{
    let ghost lists = pair_lists(candidates@);
    let mut operons: Vec<Vec<Pair>> = Vec::new();
    let mut k: usize = 0;
    while k < candidates.len()
        invariant
            k <= candidates.len(),
            lists == pair_lists(candidates@),
            forall|c: int|
                0 <= c < candidates@.len() ==> pairs_within(
                    (#[trigger] candidates@[c])@,
                    table@.len(),
                ),
            pair_lists(operons@) == merged(table@, lists.take(k as int)),
            operons_wf(table@, pair_lists(operons@)),
            drawn_upto(pair_lists(operons@), lists, k as int),
            chromosomes_apart(table@, lists) ==> ordered_in_groups(table@, pair_lists(operons@)),
        decreases candidates.len() - k,
    {
        let ghost before = pair_lists(operons@);
        proof {
            assert(lists.take(k + 1).drop_last() =~= lists.take(k as int));
            assert(lists.take(k + 1).last() == candidates@[k as int]@);
        }
        proof {
            if chromosomes_apart(table@, lists) {
                // the operons so far hold pairs of earlier lists, and so of
                // other chromosomes than this list's
                let pairs = lists[k as int];
                assert forall|m: int, i: int, j: int|
                    0 <= m < before.len() && 0 <= i < before[m].len()
                        && 0 <= j < pairs.len()
                            implies container_chrom(table@, #[trigger] before[m][i])
                    != container_chrom(table@, #[trigger] pairs[j]) by {
                    let c = choose|c: int|
                        0 <= c < k && c < lists.len()
                            && (#[trigger] lists[c]).contains(before[m][i]);
                    let a = choose|a: int| 0 <= a < lists[c].len() && lists[c][a] == before[m][i];
                    assert(lists[c][a] == before[m][i] && lists[k as int][j] == pairs[j]);
                }
                assert(one_chromosome(table@, pairs)) by {
                    assert forall|a: int, b: int|
                        0 <= a < pairs.len() && 0 <= b < pairs.len()
                            implies container_chrom(table@, #[trigger] pairs[a])
                        == container_chrom(table@, #[trigger] pairs[b]) by {
                        assert(lists[k as int][a] == pairs[a] && lists[k as int][b] == pairs[b]);
                    }
                }
            }
        }
        operons = add_chromosome(table, operons, &candidates[k]);
        proof {
            let after = pair_lists(operons@);
            assert forall|m: int, i: int|
                0 <= m < after.len() && 0 <= i < after[m].len() implies exists|c: int|
                0 <= c < k + 1 && c < lists.len() && (#[trigger] lists[c]).contains(
                    #[trigger] after[m][i],
                ) by {
                if m < before.len() {
                    let c = choose|c: int|
                        0 <= c < k && c < lists.len()
                            && (#[trigger] lists[c]).contains(before[m][i]);
                    assert(after.take(before.len() as int)[m] == after[m]);
                    assert(lists[c].contains(after[m][i]));
                } else {
                    assert(lists[k as int].contains(after[m][i]));
                }
            }
        }
        k = k + 1;
    }
    assert(lists.take(candidates.len() as int) =~= lists);
    operons
}

/// The result of a run rests on the transcripts and the threshold alone: two
/// indexes of the same transcripts lead to the same membership table.
pub proof fn lemma_run_determined(
    first: TranscriptIndex,
    second: TranscriptIndex,
    threshold: Threshold,
)
    requires
        first.well_formed(),
        second.well_formed(),
        first.table() == second.table(),
    ensures
        operon_rows(first.table(), member_lists(first.groups()), threshold) == operon_rows(
            second.table(),
            member_lists(second.groups()),
            threshold,
        ),
{
    lemma_index_unique(
        first.table(),
        first.groups(),
        second.groups(),
        first.table().len() as int,
    );
}

/// The operons of the transcripts of `index`, before refinement.
///
/// Operon numbers follow the genome: on every chromosome and strand,
/// container starts do not decrease as operon numbers rise.
pub fn cluster_index(index: &TranscriptIndex, threshold: Threshold) -> (operons: Vec<Vec<Pair>>)
    requires
        index.well_formed(),
    ensures
        pair_lists(operons@) == operons_of(
            index.table(),
            member_lists(index.groups()),
            threshold,
        ),
        operons_wf(index.table(), pair_lists(operons@)),
        all_sourced(
            index.table(),
            member_lists(index.groups()),
            pair_lists(operons@),
            threshold,
        ),
        ordered_in_groups(index.table(), pair_lists(operons@)),
{
    let candidates = collect_candidates(index, threshold);
    proof {
        let table = index.table();
        let groups = index.groups();
        let lists = pair_lists(candidates@);
        // a container is a member of its chromosome and bears its name, and
        // no two chromosomes bear the same name
        assert forall|k: int, a: int, n: int, b: int|
            0 <= k < lists.len() && 0 <= a < lists[k].len() && 0 <= n < lists.len() && 0 <= b
                < lists[n].len() implies (k == n <==> container_chrom(table, #[trigger] lists[k][a])
            == container_chrom(table, #[trigger] lists[n][b])) by {
            lemma_container_on_chromosome(index, lists, threshold, k, a);
            lemma_container_on_chromosome(index, lists, threshold, n, b);
            if k < n {
                assert(name_before(groups[k].name@, groups[n].name@));
                lemma_before_asymmetric(text_bytes(groups[k].name@), text_bytes(groups[n].name@));
            } else if n < k {
                assert(name_before(groups[n].name@, groups[k].name@));
                lemma_before_asymmetric(text_bytes(groups[n].name@), text_bytes(groups[k].name@));
            }
        }
    }
    merge_candidates(index.transcripts(), &candidates)
}

proof fn lemma_container_on_chromosome(
    index: &TranscriptIndex,
    lists: Seq<Seq<Pair>>,
    threshold: Threshold,
    k: int,
    a: int,
)
    requires
        index.well_formed(),
        candidates_sound(index.table(), member_lists(index.groups()), lists, threshold),
        0 <= k < lists.len(),
        0 <= a < lists[k].len(),
    ensures
        container_chrom(index.table(), lists[k][a]) == index.groups()[k].name@,
{
    let members = member_lists(index.groups())[k];
    assert(is_candidate(index.table(), members, lists[k][a], threshold));
    let m = choose|m: int| 0 <= m < members.len() && members[m] == lists[k][a].container;
    assert(holds_own(index.table(), index.groups()[k], index.table().len() as int));
}

/// The membership table of the transcripts of `index` under `threshold`.
///
/// Chromosomes are taken in the order of the index. On each, every transcript
/// is tried as a container; the candidate pairs are merged into operons
/// strand by strand; and each operon is refined. Rows stand operon by operon,
/// in ascending order of operon number.
///
/// Every operon in the table has at least two genes with different ids, no
/// gene id stands in two rows, and every row pairs a container with a gene
/// that it contains, on a chromosome where nothing dominates the container.
pub fn find_operons(index: &TranscriptIndex, threshold: Threshold) -> (rows: Vec<Membership>)
    requires
        index.well_formed(),
    ensures
        rows@ == operon_rows(index.table(), member_lists(index.groups()), threshold),
        rows_within(rows@, index.table().len()),
        membership_sound(index.table(), rows@),
        rows_sourced(index.table(), member_lists(index.groups()), rows@, threshold),
{
    let operons = cluster_index(index, threshold);
    let table = index.transcripts();
    let ghost views = pair_lists(operons@);
    proof {
        assert forall|m: int| 0 <= m < operons@.len() implies pairs_within(
            (#[trigger] operons@[m])@,
            table@.len(),
        ) by {
            assert(views[m] == operons@[m]@);
        }
    }
    let rows = refine_operons(table, &operons);
    proof {
        assert(representable(views)) by {
            assert forall|m: int| 0 <= m < views.len() implies (#[trigger] views[m]).len()
                <= usize::MAX by {
                assert(views[m].len() == operons@[m].len());
            }
        }
        lemma_refine_rows(table@, views);
    }
    rows
}

} // verus!
