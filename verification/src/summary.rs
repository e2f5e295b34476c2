//! The size distribution of the operons in a membership table.

use vstd::prelude::*;
use crate::refine::{has_companion, Membership};
use crate::model::Transcript;

verus! {

/// The size classes that operons are counted in.
#[derive(Clone, Copy, Debug, PartialEq, Eq, Structural)]
pub enum SizeClass {
    Two,
    Three,
    Four,
    Five,
    More,
}

/// How many operons there are of each size class.
#[derive(Clone, Copy, Debug, PartialEq, Eq, Structural)]
pub struct Histogram {
    pub two: usize,
    pub three: usize,
    pub four: usize,
    pub five: usize,
    pub more: usize,
}

/// The number of rows of operon `operon`.
pub open spec fn gene_count(rows: Seq<Membership>, operon: u64) -> nat
    decreases rows.len(),
{
    if rows.len() == 0 {
        0
    } else {
        gene_count(rows.drop_last(), operon) + if rows.last().operon == operon {
            1nat
        } else {
            0nat
        }
    }
}

/// Row `k` is the first row of its operon.
pub open spec fn is_first(rows: Seq<Membership>, k: int) -> bool {
    forall|j: int| 0 <= j < k ==> (#[trigger] rows[j]).operon != rows[k].operon
}

/// A gene count falls in a size class.
pub open spec fn in_class(count: nat, class: SizeClass) -> bool {
    match class {
        SizeClass::Two => count == 2,
        SizeClass::Three => count == 3,
        SizeClass::Four => count == 4,
        SizeClass::Five => count == 5,
        SizeClass::More => count > 5,
    }
}

/// The number of operons whose first row is among the first `upto` rows.
pub open spec fn operons_among(rows: Seq<Membership>, upto: int) -> nat
    decreases upto,
{
    if upto <= 0 {
        0
    } else {
        operons_among(rows, upto - 1) + if is_first(rows, upto - 1) {
            1nat
        } else {
            0nat
        }
    }
}

/// The number of operons of size class `class` whose first row is among the
/// first `upto` rows. An operon's size is the number of all its rows.
pub open spec fn tally(rows: Seq<Membership>, upto: int, class: SizeClass) -> nat
    decreases upto,
{
    if upto <= 0 {
        0
    } else {
        tally(rows, upto - 1, class) + if is_first(rows, upto - 1) && in_class(
            gene_count(rows, rows[upto - 1].operon),
            class,
        ) {
            1nat
        } else {
            0nat
        }
    }
}

/// The number of operons in `rows`.
pub open spec fn operon_total(rows: Seq<Membership>) -> nat {
    operons_among(rows, rows.len() as int)
}

/// `histogram` counts the operons of `rows` by size class.
pub open spec fn is_histogram_of(histogram: Histogram, rows: Seq<Membership>) -> bool {
    &&& histogram.two == tally(rows, rows.len() as int, SizeClass::Two)
    &&& histogram.three == tally(rows, rows.len() as int, SizeClass::Three)
    &&& histogram.four == tally(rows, rows.len() as int, SizeClass::Four)
    &&& histogram.five == tally(rows, rows.len() as int, SizeClass::Five)
    &&& histogram.more == tally(rows, rows.len() as int, SizeClass::More)
}

proof fn lemma_tally_bound(rows: Seq<Membership>, upto: int, class: SizeClass)
    requires
        0 <= upto,
    ensures
        tally(rows, upto, class) <= operons_among(rows, upto) <= upto,
    decreases upto,
{
    if upto > 0 {
        lemma_tally_bound(rows, upto - 1, class);
    }
}

/// Two rows of an operon make its gene count at least two.
proof fn lemma_two_rows(rows: Seq<Membership>, i: int, j: int)
    requires
        0 <= i < j < rows.len(),
        rows[i].operon == rows[j].operon,
    ensures
        gene_count(rows, rows[i].operon) >= 2,
    decreases rows.len(),
{
    let rest = rows.drop_last();
    if j == rows.len() - 1 {
        lemma_one_row(rest, i);
    } else {
        lemma_two_rows(rest, i, j);
    }
}

proof fn lemma_one_row(rows: Seq<Membership>, i: int)
    requires
        0 <= i < rows.len(),
    ensures
        gene_count(rows, rows[i].operon) >= 1,
    decreases rows.len(),
{
    let rest = rows.drop_last();
    if i < rows.len() - 1 {
        lemma_one_row(rest, i);
    }
}

proof fn lemma_classes_cover(rows: Seq<Membership>, upto: int)
    requires
        0 <= upto <= rows.len(),
        forall|k: int| 0 <= k < rows.len() ==> gene_count(rows, (#[trigger] rows[k]).operon) >= 2,
    ensures
        operons_among(rows, upto) == tally(rows, upto, SizeClass::Two) + tally(
            rows,
            upto,
            SizeClass::Three,
        ) + tally(rows, upto, SizeClass::Four) + tally(rows, upto, SizeClass::Five) + tally(
            rows,
            upto,
            SizeClass::More,
        ),
    decreases upto,
{
    if upto > 0 {
        lemma_classes_cover(rows, upto - 1);
    }
}

/// Where every row has a companion, every operon falls in one size class: the
/// five counts add up to the number of operons.
pub proof fn lemma_histogram_total(table: Seq<Transcript>, rows: Seq<Membership>)
    requires
        forall|k: int| 0 <= k < rows.len() ==> has_companion(table, rows, k),
    ensures
        operon_total(rows) == tally(rows, rows.len() as int, SizeClass::Two) + tally(
            rows,
            rows.len() as int,
            SizeClass::Three,
        ) + tally(rows, rows.len() as int, SizeClass::Four) + tally(
            rows,
            rows.len() as int,
            SizeClass::Five,
        ) + tally(rows, rows.len() as int, SizeClass::More),
{
    assert forall|k: int| 0 <= k < rows.len() implies gene_count(rows, (#[trigger] rows[k]).operon)
        >= 2 by {
        assert(has_companion(table, rows, k));
        let j = choose|j: int|
            0 <= j < rows.len() && (#[trigger] rows[j]).operon == rows[k].operon
                && table[rows[j].gene as int].id@ != table[rows[k].gene as int].id@;
        if j < k {
            lemma_two_rows(rows, j, k);
        } else {
            lemma_two_rows(rows, k, j);
        }
    }
    lemma_classes_cover(rows, rows.len() as int);
}

/// The number of rows of operon `operon`.
pub fn count_genes(rows: &Vec<Membership>, operon: u64) -> (count: usize)
    ensures
        count == gene_count(rows@, operon),
{
    let mut count: usize = 0;
    let mut k: usize = 0;
    while k < rows.len()
        invariant
            k <= rows.len(),
            count <= k,
            count == gene_count(rows@.take(k as int), operon),
        decreases rows.len() - k,
    {
        assert(rows@.take(k + 1).drop_last() =~= rows@.take(k as int));
        if rows[k].operon == operon {
            count = count + 1;
        }
        k = k + 1;
    }
    assert(rows@.take(rows.len() as int) =~= rows@);
    count
}

/// Whether row `k` is the first row of its operon.
pub fn is_first_row(rows: &Vec<Membership>, k: usize) -> (r: bool)
    requires
        k < rows@.len(),
    ensures
        r == is_first(rows@, k as int),
{
    let mut j: usize = 0;
    while j < k
        invariant
            j <= k,
            k < rows@.len(),
            forall|i: int| 0 <= i < j ==> (#[trigger] rows@[i]).operon != rows@[k as int].operon,
        decreases k - j,
    {
        if rows[j].operon == rows[k].operon {
            return false;
        }
        j = j + 1;
    }
    true
}

/// The number of operons in `rows`.
pub fn count_operons(rows: &Vec<Membership>) -> (total: usize)
    ensures
        total == operon_total(rows@),
{
    let mut total: usize = 0;
    let mut k: usize = 0;
    while k < rows.len()
        invariant
            k <= rows.len(),
            total <= k,
            total == operons_among(rows@, k as int),
        decreases rows.len() - k,
    {
        if is_first_row(rows, k) {
            total = total + 1;
        }
        k = k + 1;
    }
    total
}

/// The operons of `rows` counted by the number of their genes: two, three,
/// four, five, or more than five. Each operon is counted once, however its
/// rows are ordered.
pub fn summarize(rows: &Vec<Membership>) -> (histogram: Histogram)
    ensures
        is_histogram_of(histogram, rows@),
{
    let mut histogram = Histogram { two: 0, three: 0, four: 0, five: 0, more: 0 };
    let mut k: usize = 0;
    while k < rows.len()
        invariant
            k <= rows.len(),
            histogram.two == tally(rows@, k as int, SizeClass::Two),
            histogram.three == tally(rows@, k as int, SizeClass::Three),
            histogram.four == tally(rows@, k as int, SizeClass::Four),
            histogram.five == tally(rows@, k as int, SizeClass::Five),
            histogram.more == tally(rows@, k as int, SizeClass::More),
        decreases rows.len() - k,
    {
        proof {
            lemma_tally_bound(rows@, k as int, SizeClass::Two);
            lemma_tally_bound(rows@, k as int, SizeClass::Three);
            lemma_tally_bound(rows@, k as int, SizeClass::Four);
            lemma_tally_bound(rows@, k as int, SizeClass::Five);
            lemma_tally_bound(rows@, k as int, SizeClass::More);
        }
        if is_first_row(rows, k) {
            let count = count_genes(rows, rows[k].operon);
            if count == 2 {
                histogram.two = histogram.two + 1;
            } else if count == 3 {
                histogram.three = histogram.three + 1;
            } else if count == 4 {
                histogram.four = histogram.four + 1;
            } else if count == 5 {
                histogram.five = histogram.five + 1;
            } else if count > 5 {
                histogram.more = histogram.more + 1;
            }
        }
        k = k + 1;
    }
    histogram
}

} // verus!
