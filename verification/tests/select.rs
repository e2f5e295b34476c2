use gamba::model::{Strand, Transcript};
use gamba::select::{
    ranks_above, scan_sorted, select_non_overlapping, sort_by_start, sort_by_start_merged, Ranking,
};

fn gene(start: u64, end: u64, expression: u64, exons: usize) -> Transcript {
    Transcript {
        id: format!("T.{}.{}", start, end),
        gene_id: format!("G.{}", start),
        chrom: "Chr1".to_string(),
        start,
        end,
        strand: Strand::Forward,
        coverage: 1,
        expression,
        exons: vec![(start, end); exons],
        annotation_lines: Vec::new(),
    }
}

#[test]
fn selection_keeps_transcripts_that_are_clear_of_each_other() {
    let table = vec![gene(100, 500, 5, 1), gene(460, 900, 3, 1), gene(870, 1200, 9, 1)];
    let chosen = select_non_overlapping(&table, &vec![2, 0, 1], 50, Ranking::ExpressionThenExons);
    assert_eq!(chosen, vec![0, 1, 2]);
}

#[test]
fn selection_replaces_the_last_kept_by_a_higher_ranked_one() {
    let table = vec![gene(100, 500, 5, 1), gene(400, 900, 7, 1), gene(860, 1000, 1, 1)];
    let chosen = select_non_overlapping(&table, &vec![0, 1, 2], 50, Ranking::ExpressionThenExons);
    assert_eq!(chosen, vec![1, 2]);
}

#[test]
fn selection_drops_a_lower_ranked_overlap() {
    let table = vec![gene(100, 500, 5, 1), gene(400, 900, 4, 1), gene(450, 700, 5, 1)];
    let chosen = select_non_overlapping(&table, &vec![0, 1, 2], 50, Ranking::ExpressionThenExons);
    assert_eq!(chosen, vec![0]);
}

#[test]
fn selection_looks_only_at_the_last_kept() {
    // the second replaces the first, and the third overlaps the second and is
    // dropped, though it is clear of the first
    let table = vec![gene(1000, 2000, 5, 2), gene(1900, 3000, 9, 2), gene(2900, 4000, 1, 2)];
    let chosen = select_non_overlapping(&table, &vec![0, 1, 2], 50, Ranking::ExpressionThenExons);
    assert_eq!(chosen, vec![1]);
    // without the second, the first and third are both kept
    let chosen = select_non_overlapping(&table, &vec![0, 2], 50, Ranking::ExpressionThenExons);
    assert_eq!(chosen, vec![0, 2]);
}

#[test]
fn selection_breaks_expression_ties_by_exon_count() {
    let table = vec![gene(100, 500, 5, 2), gene(200, 600, 5, 3)];
    assert_eq!(
        select_non_overlapping(&table, &vec![0, 1], 50, Ranking::ExpressionThenExons),
        vec![1]
    );
    assert_eq!(select_non_overlapping(&table, &vec![0, 1], 50, Ranking::ExpressionOnly), vec![0]);
}

#[test]
fn selection_tolerates_an_overlap_below_the_tolerance() {
    let table = vec![gene(100, 500, 5, 1), gene(451, 900, 1, 1), gene(450, 900, 1, 1)];
    assert_eq!(select_non_overlapping(&table, &vec![0, 1], 50, Ranking::ExpressionOnly), vec![0, 1]);
    assert_eq!(select_non_overlapping(&table, &vec![0, 2], 50, Ranking::ExpressionOnly), vec![0]);
    assert_eq!(select_non_overlapping(&table, &vec![0, 2], 51, Ranking::ExpressionOnly), vec![0, 2]);
}

#[test]
fn selection_of_nothing_is_empty() {
    let table = vec![gene(100, 500, 5, 1)];
    let none: Vec<usize> = Vec::new();
    assert_eq!(select_non_overlapping(&table, &none, 50, Ranking::ExpressionOnly), none);
    assert_eq!(select_non_overlapping(&table, &vec![0], 50, Ranking::ExpressionOnly), vec![0]);
}

#[test]
fn selection_result_is_free_of_overlap() {
    let mut table: Vec<Transcript> = Vec::new();
    let mut x: u64 = 99;
    for _ in 0..200 {
        x = x.wrapping_mul(6364136223846793005).wrapping_add(1442695040888963407);
        let start = (x >> 40) % 5000;
        let len = (x >> 20) % 400;
        table.push(gene(start, start + len, (x >> 5) % 7, ((x >> 3) % 3) as usize));
    }
    let items: Vec<usize> = (0..table.len()).collect();
    let chosen = select_non_overlapping(&table, &items, 50, Ranking::ExpressionThenExons);
    assert!(chosen.len() <= items.len());
    assert!(!chosen.is_empty());
    for j in 0..chosen.len() {
        for i in 0..j {
            let (a, b) = (&table[chosen[i]], &table[chosen[j]]);
            assert!(a.start <= b.start);
            assert!(b.start > a.end.saturating_sub(50));
        }
    }
}

#[test]
fn sorting_by_start_is_stable() {
    let table = vec![gene(300, 400, 1, 1), gene(100, 200, 1, 1), gene(300, 350, 1, 1), gene(100, 150, 1, 1)];
    assert_eq!(sort_by_start(&table, &vec![0, 1, 2, 3]), vec![1, 3, 0, 2]);
    assert_eq!(sort_by_start(&table, &vec![2, 3, 0, 1]), vec![3, 1, 2, 0]);
    assert_eq!(sort_by_start_merged(&table, &vec![0, 1, 2, 3]), vec![1, 3, 0, 2]);
    assert_eq!(sort_by_start_merged(&table, &vec![2, 3, 0, 1]), vec![3, 1, 2, 0]);
}

#[test]
fn scan_takes_items_in_the_order_given() {
    let table = vec![gene(100, 500, 5, 1), gene(460, 900, 3, 1)];
    // given out of order, the first overlaps the last kept and ranks higher
    assert_eq!(scan_sorted(&table, &vec![1, 0], 50, Ranking::ExpressionOnly), vec![0]);
    assert_eq!(scan_sorted(&table, &vec![0, 1], 50, Ranking::ExpressionOnly), vec![0, 1]);
}

#[test]
fn ranking_compares_expression_then_exons() {
    let a = gene(1, 2, 5, 3);
    let b = gene(1, 2, 5, 2);
    let c = gene(1, 2, 6, 0);
    assert!(ranks_above(&a, &b, Ranking::ExpressionThenExons));
    assert!(!ranks_above(&b, &a, Ranking::ExpressionThenExons));
    assert!(!ranks_above(&a, &a, Ranking::ExpressionThenExons));
    assert!(!ranks_above(&a, &b, Ranking::ExpressionOnly));
    assert!(ranks_above(&c, &a, Ranking::ExpressionOnly));
    assert!(ranks_above(&c, &a, Ranking::ExpressionThenExons));
    assert!(!ranks_above(&a, &c, Ranking::ExpressionThenExons));
}
