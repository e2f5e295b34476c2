use gamba::emit::order_rows;
use gamba::index::TranscriptIndex;
use gamba::model::{Strand, Threshold, Transcript};
use gamba::candidates::Pair;
use gamba::pipeline::{cluster_index, find_operons};
use gamba::refine::Membership;
use gamba::summary::{count_operons, summarize, Histogram};

fn transcript(
    id: &str,
    chrom: &str,
    strand: Strand,
    start: u64,
    end: u64,
    coverage: u64,
    expression: u64,
) -> Transcript {
    Transcript {
        id: id.to_string(),
        gene_id: format!("{}.gene", id),
        chrom: chrom.to_string(),
        start,
        end,
        strand,
        coverage,
        expression,
        exons: vec![(start, start + 10), (end - 10, end)],
        annotation_lines: Vec::new(),
    }
}

fn row(operon: u64, container: usize, gene: usize) -> Membership {
    Membership { operon, container, gene }
}

const ONE: Threshold = Threshold { numer: 1, denom: 1 };

fn annotation() -> Vec<Transcript> {
    vec![
        transcript("STRG.5.1", "ChrB", Strand::Forward, 1000, 10000, 10, 1),
        transcript("STRG.6.1", "ChrB", Strand::Forward, 1100, 2000, 50, 5),
        transcript("STRG.7.1", "ChrB", Strand::Forward, 3000, 4000, 60, 6),
        transcript("STRG.1.1", "ChrA", Strand::Reverse, 1000, 10000, 10, 1),
        transcript("STRG.2.1", "ChrA", Strand::Reverse, 1100, 2000, 50, 5),
        transcript("STRG.3.1", "ChrA", Strand::Reverse, 3000, 4000, 50, 5),
        transcript("STRG.4.1", "ChrA", Strand::Reverse, 5000, 6000, 50, 5),
        transcript("STRG.8.1", "ChrA", Strand::Forward, 20000, 30000, 10, 1),
        transcript("STRG.9.1", "ChrA", Strand::Forward, 21000, 22000, 50, 5),
        transcript("STRG.10.1", "ChrA", Strand::Forward, 23000, 24000, 50, 5),
    ]
}

#[test]
fn run_finds_the_operons_of_each_chromosome_and_strand() {
    let index = TranscriptIndex::build(annotation());
    let rows = find_operons(&index, ONE);
    assert_eq!(
        rows,
        vec![
            row(1, 7, 8),
            row(1, 7, 9),
            row(2, 3, 4),
            row(2, 3, 5),
            row(2, 3, 6),
            row(3, 0, 1),
            row(3, 0, 2),
        ]
    );
    assert_eq!(count_operons(&rows), 3);
    assert_eq!(summarize(&rows), Histogram { two: 2, three: 1, four: 0, five: 0, more: 0 });
}

#[test]
fn run_rows_are_put_out_by_container_key() {
    let index = TranscriptIndex::build(annotation());
    let rows = find_operons(&index, ONE);
    let ordered = order_rows(index.transcripts(), &rows);
    assert_eq!(
        ordered,
        Some(vec![
            row(2, 3, 4),
            row(2, 3, 5),
            row(2, 3, 6),
            row(3, 0, 1),
            row(3, 0, 2),
            row(1, 7, 8),
            row(1, 7, 9),
        ])
    );
}

#[test]
fn run_operons_before_refinement() {
    let index = TranscriptIndex::build(annotation());
    let pair = |container, gene| Pair { container, gene };
    assert_eq!(
        cluster_index(&index, ONE),
        vec![
            vec![pair(7, 8), pair(7, 9)],
            vec![pair(3, 4), pair(3, 5), pair(3, 6)],
            vec![pair(0, 1), pair(0, 2)],
        ]
    );
}

#[test]
fn run_twice_gives_the_same_result() {
    let first = find_operons(&TranscriptIndex::build(annotation()), ONE);
    let second = find_operons(&TranscriptIndex::build(annotation()), ONE);
    assert_eq!(first, second);
    assert_eq!(summarize(&first), summarize(&second));
    assert_eq!(count_operons(&first), count_operons(&second));
}

#[test]
fn run_on_nothing_finds_nothing() {
    let rows = find_operons(&TranscriptIndex::build(Vec::new()), ONE);
    assert_eq!(rows, Vec::<Membership>::new());
    let lone = vec![transcript("STRG.1.1", "Chr1", Strand::Forward, 1, 100, 1, 1)];
    assert_eq!(find_operons(&TranscriptIndex::build(lone), ONE), Vec::<Membership>::new());
}

#[test]
fn operon_numbers_of_dropped_operons_are_not_given_again() {
    // a container too short to overlap itself: each of its pairs opens an
    // operon, and refinement drops both; having one exon, it is not dominated
    // by the genes that span it
    let mut table = vec![
        transcript("STRG.11.1", "Chr1", Strand::Forward, 1000, 1200, 10, 1),
        transcript("STRG.12.1", "Chr1", Strand::Forward, 900, 1100, 50, 5),
        transcript("STRG.13.1", "Chr1", Strand::Forward, 1060, 1400, 50, 5),
    ];
    table[0].exons.truncate(1);
    table.extend(annotation());
    let index = TranscriptIndex::build(table);
    let rows = find_operons(&index, ONE);
    // by name, Chr1 comes before ChrA and ChrB
    assert_eq!(
        rows,
        vec![
            row(3, 10, 11),
            row(3, 10, 12),
            row(4, 6, 7),
            row(4, 6, 8),
            row(4, 6, 9),
            row(5, 3, 4),
            row(5, 3, 5),
        ]
    );
    assert_eq!(cluster_index(&index, ONE).len(), 5);
}

#[test]
fn raising_the_threshold_can_add_rows() {
    // under threshold 1 the middle gene displaces the first and shadows the
    // third; under threshold 2 it is no gene at all, and the other two stand
    let table = vec![
        transcript("STRG.1.1", "Chr1", Strand::Forward, 1000, 10000, 10, 1),
        transcript("STRG.2.1", "Chr1", Strand::Forward, 1000, 2000, 100, 5),
        transcript("STRG.3.1", "Chr1", Strand::Forward, 1900, 3000, 15, 9),
        transcript("STRG.4.1", "Chr1", Strand::Forward, 2900, 4000, 100, 1),
    ];
    let index = TranscriptIndex::build(table);
    assert_eq!(find_operons(&index, ONE), Vec::<Membership>::new());
    assert_eq!(
        find_operons(&index, Threshold { numer: 2, denom: 1 }),
        vec![row(1, 0, 1), row(1, 0, 3)]
    );
    assert_eq!(find_operons(&index, Threshold { numer: 10, denom: 1 }), Vec::<Membership>::new());
}

#[test]
fn every_operon_of_a_run_has_two_distinct_genes() {
    let mut table: Vec<Transcript> = Vec::new();
    let mut x: u64 = 2024;
    for n in 0..300 {
        x = x.wrapping_mul(6364136223846793005).wrapping_add(1442695040888963407);
        let start = 1000 + (x >> 40) % 60000;
        let len = 300 + (x >> 20) % 8000;
        let strand = if (x >> 7) % 2 == 0 { Strand::Forward } else { Strand::Reverse };
        let chrom = if (x >> 9) % 3 == 0 { "Chr2" } else { "Chr1" };
        table.push(transcript(
            &format!("STRG.{}.1", n + 1),
            chrom,
            strand,
            start,
            start + len,
            1 + (x >> 10) % 40,
            (x >> 4) % 9,
        ));
    }
    let index = TranscriptIndex::build(table);
    let rows = find_operons(&index, ONE);
    let table = index.transcripts();
    assert!(!rows.is_empty());
    for (k, r) in rows.iter().enumerate() {
        assert!(rows.iter().any(|o| o.operon == r.operon && table[o.gene].id != table[r.gene].id));
        assert!(rows.iter().skip(k + 1).all(|o| table[o.gene].id != table[r.gene].id));
        assert!(gamba::classify::transcripts_inside_op(&table[r.container], &table[r.gene], 250, ONE));
        assert!(!gamba::classify::transcripts_inside(&table[r.gene], &table[r.container], 250, ONE));
        assert_eq!(table[r.container].strand, table[r.gene].strand);
        assert_eq!(table[r.container].chrom, table[r.gene].chrom);
    }
    for w in rows.windows(2) {
        assert!(w[0].operon <= w[1].operon);
    }
    let histogram = summarize(&rows);
    assert_eq!(
        count_operons(&rows),
        histogram.two + histogram.three + histogram.four + histogram.five + histogram.more
    );
}

#[test]
fn operon_numbers_follow_the_genome_on_each_chromosome_and_strand() {
    let mut table: Vec<Transcript> = Vec::new();
    let mut x: u64 = 77;
    for n in 0..300 {
        x = x.wrapping_mul(6364136223846793005).wrapping_add(1442695040888963407);
        let start = 1000 + (x >> 40) % 60000;
        let len = 300 + (x >> 20) % 8000;
        let strand = if (x >> 7) % 2 == 0 { Strand::Forward } else { Strand::Reverse };
        let chrom = if (x >> 9) % 3 == 0 { "Chr2" } else { "Chr1" };
        table.push(transcript(
            &format!("STRG.{}.1", n + 1),
            chrom,
            strand,
            start,
            start + len,
            1 + (x >> 10) % 40,
            (x >> 4) % 9,
        ));
    }
    let index = TranscriptIndex::build(table);
    let operons = cluster_index(&index, ONE);
    let table = index.transcripts();
    assert!(operons.len() > 2);
    let stream: Vec<&Transcript> =
        operons.iter().flatten().map(|pair| &table[pair.container]).collect();
    for (k, later) in stream.iter().enumerate() {
        for earlier in &stream[..k] {
            if earlier.chrom == later.chrom && earlier.strand == later.strand {
                assert!(earlier.start <= later.start);
            }
        }
    }
}
