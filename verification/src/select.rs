//! The greedy reduction of a list of transcripts to a non-overlapping one.
//!
//! The list is put in order of start and scanned once. A transcript that
//! starts clear of the last one kept is kept too; one that does not replaces
//! the last one kept if it ranks higher, and is dropped otherwise. Only the
//! last one kept is ever looked at: the scan is not an optimal interval
//! schedule and is not meant to be.

use vstd::prelude::*;
use crate::classify::{no_overlap, transcripts_no_overlap};
use crate::model::Transcript;
use crate::order::{
    arranged, lemma_stable_order_exists, stable_order, stable_order_merged, stable_order_of,
};

verus! {

/// How two overlapping transcripts are ranked against each other.
#[derive(Clone, Copy, Debug, PartialEq, Eq, Structural)]
pub enum Ranking {
    /// By expression, then by number of exons.
    ExpressionThenExons,
    /// By expression alone.
    ExpressionOnly,
}

/// `a` ranks strictly above `b`.
pub open spec fn outranks(a: Transcript, b: Transcript, ranking: Ranking) -> bool {
    a.expression > b.expression || (ranking == Ranking::ExpressionThenExons && a.expression
        == b.expression && a.exons@.len() > b.exons@.len())
}

/// Every item is a position in a table of `len` transcripts.
pub open spec fn within(items: Seq<usize>, len: nat) -> bool {
    forall|i: int| 0 <= i < items.len() ==> (#[trigger] items[i]) < len
}

/// The selection `chosen` after transcript `x` has been looked at.
pub open spec fn accept(
    table: Seq<Transcript>,
    chosen: Seq<usize>,
    x: usize,
    tolerance: u64,
    ranking: Ranking,
) -> Seq<usize> {
    if chosen.len() == 0 || no_overlap(table[x as int], table[chosen.last() as int], tolerance) {
        chosen.push(x)
    } else if outranks(table[x as int], table[chosen.last() as int], ranking) {
        chosen.drop_last().push(x)
    } else {
        chosen
    }
}

/// The selection after every item of `items` has been looked at, in order.
pub open spec fn scan(
    table: Seq<Transcript>,
    items: Seq<usize>,
    tolerance: u64,
    ranking: Ranking,
) -> Seq<usize>
    decreases items.len(),
{
    if items.len() == 0 {
        Seq::empty()
    } else {
        accept(
            table,
            scan(table, items.drop_last(), tolerance, ranking),
            items.last(),
            tolerance,
            ranking,
        )
    }
}

/// The start of each item.
pub open spec fn starts(table: Seq<Transcript>, items: Seq<usize>) -> Seq<u64> {
    Seq::new(items.len(), |i: int| table[items[i] as int].start)
}

/// `items` in stable ascending order of start.
pub open spec fn by_start(table: Seq<Transcript>, items: Seq<usize>) -> Seq<usize> {
    arranged(items, stable_order_of(starts(table, items)))
}

/// The non-overlapping selection from `items`.
pub open spec fn select(
    table: Seq<Transcript>,
    items: Seq<usize>,
    tolerance: u64,
    ranking: Ranking,
) -> Seq<usize> {
    scan(table, by_start(table, items), tolerance, ranking)
}

/// Starts do not decrease along `items`.
pub open spec fn ascending(table: Seq<Transcript>, items: Seq<usize>) -> bool {
    forall|i: int, j: int|
        0 <= i < j < items.len() ==> table[#[trigger] items[i] as int].start
            <= table[#[trigger] items[j] as int].start
}

/// Every later item starts clear of every earlier one.
pub open spec fn non_overlapping(
    table: Seq<Transcript>,
    items: Seq<usize>,
    tolerance: u64,
) -> bool {
    forall|i: int, j: int|
        0 <= i < j < items.len() ==> no_overlap(
            table[#[trigger] items[j] as int],
            table[#[trigger] items[i] as int],
            tolerance,
        )
}

/// No two items share an id.
pub open spec fn distinct_ids(table: Seq<Transcript>, items: Seq<usize>) -> bool {
    forall|i: int, j: int|
        0 <= i < j < items.len() ==> table[#[trigger] items[i] as int].id@
            != table[#[trigger] items[j] as int].id@
}

/// A scan keeps only what it was given, and no more of it than there was.
pub proof fn lemma_scan_keeps(
    table: Seq<Transcript>,
    items: Seq<usize>,
    tolerance: u64,
    ranking: Ranking,
)
    ensures
        scan(table, items, tolerance, ranking).len() <= items.len(),
        items.len() > 0 ==> scan(table, items, tolerance, ranking).len() > 0,
        forall|k: int|
            0 <= k < scan(table, items, tolerance, ranking).len() ==> items.contains(
                #[trigger] scan(table, items, tolerance, ranking)[k],
            ),
    decreases items.len(),
{
    if items.len() > 0 {
        lemma_scan_keeps(table, items.drop_last(), tolerance, ranking);
    }
}

/// A scan of items in ascending order of start is in ascending order of start
/// and free of overlap.
pub proof fn lemma_scan_non_overlapping(
    table: Seq<Transcript>,
    items: Seq<usize>,
    tolerance: u64,
    ranking: Ranking,
)
    requires
        ascending(table, items),
    ensures
        ascending(table, scan(table, items, tolerance, ranking)),
        non_overlapping(table, scan(table, items, tolerance, ranking), tolerance),
    decreases items.len(),
{
    if items.len() > 0 {
        let rest = items.drop_last();
        lemma_scan_non_overlapping(table, rest, tolerance, ranking);
        lemma_scan_keeps(table, rest, tolerance, ranking);
    }
}

/// A scan of items with distinct ids has distinct ids.
pub proof fn lemma_scan_distinct(
    table: Seq<Transcript>,
    items: Seq<usize>,
    tolerance: u64,
    ranking: Ranking,
)
    requires
        distinct_ids(table, items),
    ensures
        distinct_ids(table, scan(table, items, tolerance, ranking)),
    decreases items.len(),
{
    if items.len() > 0 {
        let rest = items.drop_last();
        lemma_scan_distinct(table, rest, tolerance, ranking);
        lemma_scan_keeps(table, rest, tolerance, ranking);
    }
}

/// Whether `a` ranks strictly above `b`.
pub fn ranks_above(a: &Transcript, b: &Transcript, ranking: Ranking) -> (r: bool)
    ensures
        r == outranks(*a, *b, ranking),
{
    match ranking {
        Ranking::ExpressionThenExons => a.expression > b.expression || (a.expression
            == b.expression && a.exons.len() > b.exons.len()),
        Ranking::ExpressionOnly => a.expression > b.expression,
    }
}

fn start_keys(table: &Vec<Transcript>, items: &Vec<usize>) -> (keys: Vec<u64>)
    requires
        within(items@, table@.len()),
    ensures
        keys@ == starts(table@, items@),
{
    let mut keys: Vec<u64> = Vec::new();
    let mut i: usize = 0;
    while i < items.len()
        invariant
            i <= items.len(),
            keys.len() == i,
            within(items@, table@.len()),
            forall|j: int| 0 <= j < i ==> #[trigger] keys[j] == table[items[j] as int].start,
        decreases items.len() - i,
    {
        keys.push(table[items[i]].start);
        i = i + 1;
    }
    keys
}

fn arrange(items: &Vec<usize>, order: &Vec<usize>) -> (out: Vec<usize>)
    requires
        order@.len() == items@.len(),
        within(order@, items@.len()),
    ensures
        out@ == arranged(items@, order@),
{
    let mut out: Vec<usize> = Vec::new();
    let mut k: usize = 0;
    while k < order.len()
        invariant
            k <= order.len(),
            out.len() == k,
            within(order@, items@.len()),
            forall|j: int| 0 <= j < k ==> #[trigger] out[j] == items[order[j] as int],
        decreases order.len() - k,
    {
        out.push(items[order[k]]);
        k = k + 1;
    }
    out
}

/// `items` in stable ascending order of start, by insertion.
pub fn sort_by_start(table: &Vec<Transcript>, items: &Vec<usize>) -> (sorted: Vec<usize>)
    requires
        within(items@, table@.len()),
    ensures
        sorted@ == by_start(table@, items@),
        within(sorted@, table@.len()),
{
    let keys = start_keys(table, items);
    let order = stable_order(&keys);
    arrange(items, &order)
}

/// `items` in stable ascending order of start, by the sort of itertools.
pub fn sort_by_start_merged(table: &Vec<Transcript>, items: &Vec<usize>) -> (sorted: Vec<usize>)
    requires
        within(items@, table@.len()),
    ensures
        sorted@ == by_start(table@, items@),
        within(sorted@, table@.len()),
{
    let keys = start_keys(table, items);
    let order = stable_order_merged(&keys);
    arrange(items, &order)
}

/// The selection after every item of `sorted` has been looked at, in order.
pub fn scan_sorted(
    table: &Vec<Transcript>,
    sorted: &Vec<usize>,
    tolerance: u64,
    ranking: Ranking,
) -> (chosen: Vec<usize>)
    requires
        within(sorted@, table@.len()),
    ensures
        chosen@ == scan(table@, sorted@, tolerance, ranking),
        within(chosen@, table@.len()),
{
    let mut chosen: Vec<usize> = Vec::new();
    let mut k: usize = 0;
    while k < sorted.len()
        invariant
            k <= sorted.len(),
            within(sorted@, table@.len()),
            within(chosen@, table@.len()),
            chosen@ == scan(table@, sorted@.take(k as int), tolerance, ranking),
        decreases sorted.len() - k,
    {
        let x = sorted[k];
        let n = chosen.len();
        proof {
            assert(sorted@.take(k + 1).drop_last() =~= sorted@.take(k as int));
        }
        if n == 0 {
            chosen.push(x);
        } else {
            let last = chosen[n - 1];
            if transcripts_no_overlap(&table[x], &table[last], tolerance) {
                chosen.push(x);
            } else if ranks_above(&table[x], &table[last], ranking) {
                chosen.pop();
                chosen.push(x);
            }
        }
        k = k + 1;
    }
    assert(sorted@.take(sorted.len() as int) =~= sorted@);
    chosen
}

/// The non-overlapping selection from `items`.
///
/// The selection is in ascending order of start, every transcript in it
/// starts clear of every earlier one, and it holds only transcripts of
/// `items`, none of them twice where `items` held none twice.
pub fn select_non_overlapping(
    table: &Vec<Transcript>,
    items: &Vec<usize>,
    tolerance: u64,
    ranking: Ranking,
) -> (chosen: Vec<usize>)
    requires
        within(items@, table@.len()),
    ensures
        chosen@ == select(table@, items@, tolerance, ranking),
        within(chosen@, table@.len()),
        chosen@.len() <= items@.len(),
        ascending(table@, chosen@),
        non_overlapping(table@, chosen@, tolerance),
        forall|k: int| 0 <= k < chosen@.len() ==> items@.contains(#[trigger] chosen@[k]),
        distinct_ids(table@, items@) ==> distinct_ids(table@, chosen@),
{
    let sorted = sort_by_start(table, items);
    let chosen = scan_sorted(table, &sorted, tolerance, ranking);
    proof {
        assert(items@.len() == items.len());
        lemma_select(table@, items@, tolerance, ranking);
    }
    chosen
}

/// What holds of every selection.
pub proof fn lemma_select(
    table: Seq<Transcript>,
    items: Seq<usize>,
    tolerance: u64,
    ranking: Ranking,
)
    requires
        items.len() <= usize::MAX,
    ensures
        select(table, items, tolerance, ranking).len() <= items.len(),
        ascending(table, select(table, items, tolerance, ranking)),
        non_overlapping(table, select(table, items, tolerance, ranking), tolerance),
        forall|k: int|
            0 <= k < select(table, items, tolerance, ranking).len() ==> items.contains(
                #[trigger] select(table, items, tolerance, ranking)[k],
            ),
        distinct_ids(table, items) ==> distinct_ids(
            table,
            select(table, items, tolerance, ranking),
        ),
{
    let keys = starts(table, items);
    lemma_stable_order_exists(keys);
    let sorted = by_start(table, items);
    lemma_scan_keeps(table, sorted, tolerance, ranking);
    lemma_scan_non_overlapping(table, sorted, tolerance, ranking);
    if distinct_ids(table, items) {
        lemma_scan_distinct(table, sorted, tolerance, ranking);
    }
}

} // verus!
