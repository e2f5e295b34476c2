use gamba::classify::{
    operontrans_overlap, transcripts_inside, transcripts_inside_op, transcripts_no_overlap,
};
use gamba::model::{Strand, Threshold, Transcript};

fn transcript(start: u64, end: u64, coverage: u64, exons: usize) -> Transcript {
    Transcript {
        id: format!("T.{}.{}", start, end),
        gene_id: format!("G.{}", start),
        chrom: "Chr1".to_string(),
        start,
        end,
        strand: Strand::Forward,
        coverage,
        expression: coverage,
        exons: vec![(start, end); exons],
        annotation_lines: Vec::new(),
    }
}

const ONE: Threshold = Threshold { numer: 1, denom: 1 };

#[test]
fn container_contains_stronger_multi_exon_gene() {
    let outer = transcript(1000, 5000, 10, 3);
    let inner = transcript(1200, 2000, 11, 2);
    assert!(transcripts_inside_op(&outer, &inner, 250, ONE));
    assert!(!transcripts_inside_op(&inner, &outer, 250, ONE));
}

#[test]
fn containment_needs_strictly_higher_coverage() {
    let outer = transcript(1000, 5000, 10, 3);
    assert!(!transcripts_inside_op(&outer, &transcript(1200, 2000, 10, 2), 250, ONE));
    assert!(!transcripts_inside_op(&outer, &transcript(1200, 2000, 9, 2), 250, ONE));
}

#[test]
fn single_exon_gene_needs_ten_times_the_margin() {
    let outer = transcript(1000, 5000, 10, 3);
    assert!(!transcripts_inside_op(&outer, &transcript(1200, 2000, 11, 1), 250, ONE));
    assert!(!transcripts_inside_op(&outer, &transcript(1200, 2000, 100, 1), 250, ONE));
    assert!(transcripts_inside_op(&outer, &transcript(1200, 2000, 101, 1), 250, ONE));
    assert!(!transcripts_inside_op(&outer, &transcript(1200, 2000, 101, 0), 250, Threshold { numer: 11, denom: 10 }));
}

#[test]
fn containment_allows_tolerance_at_the_start() {
    let inner = transcript(1200, 2000, 50, 2);
    assert!(transcripts_inside_op(&transcript(1450, 5000, 10, 2), &inner, 250, ONE));
    assert!(!transcripts_inside_op(&transcript(1451, 5000, 10, 2), &inner, 250, ONE));
    assert!(!transcripts_inside_op(&transcript(1250, 5000, 10, 2), &inner, 0, ONE));
    assert!(transcripts_inside_op(&transcript(1200, 5000, 10, 2), &inner, 0, ONE));
}

#[test]
fn containment_allows_tolerance_at_the_end() {
    let outer = transcript(1000, 5000, 10, 2);
    assert!(transcripts_inside_op(&outer, &transcript(1200, 5250, 50, 2), 250, ONE));
    assert!(!transcripts_inside_op(&outer, &transcript(1200, 5251, 50, 2), 250, ONE));
}

#[test]
fn contained_gene_must_reach_into_the_container() {
    let outer = transcript(1000, 5000, 10, 2);
    assert!(!transcripts_inside_op(&outer, &transcript(5000, 5100, 50, 2), 250, ONE));
    assert!(transcripts_inside_op(&outer, &transcript(4999, 5100, 50, 2), 250, ONE));
    assert!(!transcripts_inside_op(&outer, &transcript(800, 1000, 50, 2), 250, ONE));
    assert!(transcripts_inside_op(&outer, &transcript(800, 1001, 50, 2), 250, ONE));
}

#[test]
fn threshold_scales_the_container_coverage() {
    let outer = transcript(1000, 5000, 10, 2);
    let three_halves = Threshold { numer: 3, denom: 2 };
    assert!(!transcripts_inside_op(&outer, &transcript(1200, 2000, 15, 2), 250, three_halves));
    assert!(transcripts_inside_op(&outer, &transcript(1200, 2000, 16, 2), 250, three_halves));
    let half = Threshold { numer: 1, denom: 2 };
    assert!(transcripts_inside_op(&outer, &transcript(1200, 2000, 6, 2), 250, half));
    assert!(!transcripts_inside_op(&outer, &transcript(1200, 2000, 5, 2), 250, half));
}

#[test]
fn zero_denominator_contains_nothing() {
    let outer = transcript(1000, 5000, 0, 2);
    let inner = transcript(1200, 2000, 1_000_000, 2);
    let none = Threshold { numer: 1, denom: 0 };
    assert!(!transcripts_inside_op(&outer, &inner, 250, none));
    assert!(transcripts_inside_op(&outer, &inner, 250, ONE));
}

#[test]
fn dominance_needs_strictly_higher_coverage() {
    let inner = transcript(1200, 2000, 10, 2);
    assert!(transcripts_inside(&transcript(1000, 5000, 11, 2), &inner, 250, ONE));
    assert!(!transcripts_inside(&transcript(1000, 5000, 10, 2), &inner, 250, ONE));
    assert!(!transcripts_inside(&transcript(3000, 5000, 11, 2), &inner, 250, ONE));
}

#[test]
fn dominance_over_single_exon_needs_ten_times_the_margin() {
    let inner = transcript(1200, 2000, 10, 1);
    assert!(!transcripts_inside(&transcript(1000, 5000, 100, 2), &inner, 250, ONE));
    assert!(transcripts_inside(&transcript(1000, 5000, 101, 2), &inner, 250, ONE));
    let double = Threshold { numer: 2, denom: 1 };
    assert!(!transcripts_inside(&transcript(1000, 5000, 200, 2), &inner, 250, double));
    assert!(transcripts_inside(&transcript(1000, 5000, 201, 2), &inner, 250, double));
}

#[test]
fn near_equal_spans_can_contain_and_dominate_at_once() {
    let weak = transcript(1000, 5000, 1, 2);
    let strong = transcript(1000, 5000, 100, 2);
    assert!(transcripts_inside_op(&weak, &strong, 250, ONE));
    assert!(transcripts_inside(&strong, &weak, 250, ONE));
}

#[test]
fn no_overlap_compares_start_with_end_less_tolerance() {
    let kept = transcript(1000, 2000, 1, 1);
    assert!(transcripts_no_overlap(&transcript(1951, 3000, 1, 1), &kept, 50));
    assert!(!transcripts_no_overlap(&transcript(1950, 3000, 1, 1), &kept, 50));
    assert!(transcripts_no_overlap(&transcript(2001, 3000, 1, 1), &kept, 0));
    assert!(!transcripts_no_overlap(&transcript(2000, 3000, 1, 1), &kept, 0));
}

#[test]
fn no_overlap_saturates_at_zero() {
    let kept = transcript(10, 30, 1, 1);
    assert!(transcripts_no_overlap(&transcript(1, 5, 1, 1), &kept, 50));
    assert!(!transcripts_no_overlap(&transcript(0, 5, 1, 1), &kept, 50));
}

#[test]
fn containers_overlap_by_more_than_the_tolerance() {
    let anchor = transcript(1000, 5000, 1, 1);
    assert!(operontrans_overlap(&transcript(4750, 9000, 1, 1), &anchor, 250));
    assert!(!operontrans_overlap(&transcript(4751, 9000, 1, 1), &anchor, 250));
    assert!(operontrans_overlap(&transcript(0, 1250, 1, 1), &anchor, 250));
    assert!(!operontrans_overlap(&transcript(0, 1249, 1, 1), &anchor, 250));
}

#[test]
fn short_container_does_not_overlap_itself() {
    let short = transcript(1000, 1200, 1, 1);
    assert!(!operontrans_overlap(&short, &short, 250));
    let long = transcript(1000, 1250, 1, 1);
    assert!(operontrans_overlap(&long, &long, 250));
}

#[test]
fn extreme_coordinates_do_not_overflow() {
    let outer = transcript(u64::MAX - 10, u64::MAX, u64::MAX, 2);
    let inner = transcript(u64::MAX - 5, u64::MAX, u64::MAX, 2);
    let huge = Threshold { numer: u32::MAX, denom: u32::MAX };
    assert!(!transcripts_inside_op(&outer, &inner, u64::MAX, huge));
    assert!(!transcripts_inside(&outer, &inner, u64::MAX, huge));
    assert!(!operontrans_overlap(&outer, &inner, u64::MAX));
    assert!(transcripts_no_overlap(&outer, &inner, u64::MAX));
    let weak = transcript(u64::MAX - 10, u64::MAX, 1, 2);
    assert!(transcripts_inside_op(&weak, &inner, u64::MAX, Threshold { numer: u32::MAX, denom: 1 }));
    assert!(transcripts_inside_op(&weak, &inner, u64::MAX, Threshold { numer: 1, denom: u32::MAX }));
    assert!(!transcripts_inside_op(&inner, &weak, u64::MAX, Threshold { numer: 1, denom: u32::MAX }));
}

#[test]
fn transcript_shape_queries() {
    assert!(transcript(1, 2, 0, 2).is_multi_exonic());
    assert!(!transcript(1, 2, 0, 1).is_multi_exonic());
    assert!(!transcript(1, 2, 0, 0).is_multi_exonic());
    assert!(transcript(5, 5, 0, 0).is_well_formed());
    assert!(!transcript(6, 5, 0, 0).is_well_formed());
    assert_eq!(Threshold::unit(), ONE);
}

#[test]
fn what_holds_under_a_threshold_holds_under_a_lower_one() {
    let thresholds = [
        Threshold { numer: 1, denom: 2 },
        Threshold { numer: 1, denom: 1 },
        Threshold { numer: 3, denom: 2 },
        Threshold { numer: 2, denom: 1 },
        Threshold { numer: 7, denom: 1 },
    ];
    let mut x: u64 = 5;
    let mut held = 0;
    for _ in 0..400 {
        x = x.wrapping_mul(6364136223846793005).wrapping_add(1442695040888963407);
        let outer = transcript(1000, 9000, 1 + (x >> 50) % 30, 1 + ((x >> 3) % 2) as usize);
        let inner = transcript(2000, 3000, 1 + (x >> 40) % 300, 1 + ((x >> 5) % 2) as usize);
        for pair in thresholds.windows(2) {
            let (low, high) = (pair[0], pair[1]);
            if transcripts_inside_op(&outer, &inner, 250, high) {
                assert!(transcripts_inside_op(&outer, &inner, 250, low));
                held += 1;
            }
            if transcripts_inside(&outer, &inner, 250, high) {
                assert!(transcripts_inside(&outer, &inner, 250, low));
                held += 1;
            }
        }
    }
    assert!(held > 0);
}
