use gamba::candidates::Pair;
use gamba::cluster::{add_chromosome, add_strand, gene_is_assigned, pairs_on_strand, sort_by_container_start, walk_group};
use gamba::model::{Strand, Transcript};

fn transcript(id: &str, strand: Strand, start: u64, end: u64) -> Transcript {
    Transcript {
        id: id.to_string(),
        gene_id: format!("{}.gene", id),
        chrom: "Chr1".to_string(),
        start,
        end,
        strand,
        coverage: 1,
        expression: 1,
        exons: Vec::new(),
        annotation_lines: Vec::new(),
    }
}

fn pair(container: usize, gene: usize) -> Pair {
    Pair { container, gene }
}

// containers at 0, 1, 2 and 3; genes from 4 on
fn table() -> Vec<Transcript> {
    vec![
        transcript("c0", Strand::Forward, 1000, 10000),
        transcript("c1", Strand::Forward, 2000, 11000),
        transcript("c2", Strand::Forward, 20000, 30000),
        transcript("c3", Strand::Reverse, 500, 9000),
        transcript("g4", Strand::Forward, 1100, 1500),
        transcript("g5", Strand::Forward, 2100, 2500),
        transcript("g6", Strand::Forward, 3100, 3500),
        transcript("g7", Strand::Forward, 4100, 4500),
        transcript("g8", Strand::Forward, 21000, 22000),
        transcript("g9", Strand::Forward, 23000, 24000),
        transcript("g10", Strand::Reverse, 600, 900),
        transcript("g11", Strand::Reverse, 1000, 1300),
    ]
}

#[test]
fn overlapping_containers_share_an_operon() {
    let pairs = vec![pair(0, 4), pair(0, 5), pair(1, 6), pair(1, 7)];
    let operons = add_chromosome(&table(), Vec::new(), &pairs);
    assert_eq!(operons, vec![vec![pair(0, 4), pair(0, 5), pair(1, 6), pair(1, 7)]]);
}

#[test]
fn container_clear_of_the_last_opens_an_operon() {
    let pairs = vec![pair(0, 4), pair(0, 5), pair(2, 8), pair(2, 9)];
    let operons = add_chromosome(&table(), Vec::new(), &pairs);
    assert_eq!(operons, vec![vec![pair(0, 4), pair(0, 5)], vec![pair(2, 8), pair(2, 9)]]);
}

#[test]
fn pairs_are_walked_in_order_of_container_start() {
    let pairs = vec![pair(2, 8), pair(1, 6), pair(2, 9), pair(0, 4), pair(1, 7), pair(0, 5)];
    let operons = add_chromosome(&table(), Vec::new(), &pairs);
    assert_eq!(
        operons,
        vec![vec![pair(0, 4), pair(0, 5), pair(1, 6), pair(1, 7)], vec![pair(2, 8), pair(2, 9)]]
    );
    assert_eq!(
        sort_by_container_start(&table(), &pairs),
        vec![pair(0, 4), pair(0, 5), pair(1, 6), pair(1, 7), pair(2, 8), pair(2, 9)]
    );
}

#[test]
fn gene_of_an_earlier_pair_is_passed_over() {
    let pairs = vec![pair(0, 4), pair(0, 5), pair(1, 5), pair(1, 6)];
    let operons = add_chromosome(&table(), Vec::new(), &pairs);
    assert_eq!(operons, vec![vec![pair(0, 4), pair(0, 5), pair(1, 6)]]);
}

#[test]
fn gene_is_known_by_its_id() {
    let mut table = table();
    table[6].id = "g4".to_string();
    let operons = add_chromosome(&table, Vec::new(), &vec![pair(0, 4), pair(0, 5), pair(1, 6), pair(1, 7)]);
    assert_eq!(operons, vec![vec![pair(0, 4), pair(0, 5), pair(1, 7)]]);
    assert!(gene_is_assigned(&table, &operons, 6));
    assert!(gene_is_assigned(&table, &operons, 4));
    assert!(!gene_is_assigned(&table, &operons, 8));
}

#[test]
fn passed_over_pair_is_no_anchor() {
    // the pair of container 2 is passed over, so container 1 is compared
    // with container 0, which it overlaps
    let mut table = table();
    table[2].start = 1500;
    table[2].end = 1600;
    let pairs = vec![pair(0, 4), pair(2, 4), pair(1, 6)];
    let operons = add_chromosome(&table, Vec::new(), &pairs);
    assert_eq!(operons, vec![vec![pair(0, 4), pair(1, 6)]]);
}

#[test]
fn short_container_opens_an_operon_with_each_pair() {
    let mut table = table();
    table[0].end = 1200;
    let operons = add_chromosome(&table, Vec::new(), &vec![pair(0, 4), pair(0, 5)]);
    assert_eq!(operons, vec![vec![pair(0, 4)], vec![pair(0, 5)]]);
}

#[test]
fn strands_are_walked_apart_forward_first() {
    let pairs = vec![pair(3, 10), pair(3, 11), pair(0, 4), pair(0, 5)];
    let operons = add_chromosome(&table(), Vec::new(), &pairs);
    assert_eq!(operons, vec![vec![pair(0, 4), pair(0, 5)], vec![pair(3, 10), pair(3, 11)]]);
    assert_eq!(pairs_on_strand(&table(), &pairs, Strand::Reverse), vec![pair(3, 10), pair(3, 11)]);
    assert_eq!(pairs_on_strand(&table(), &pairs, Strand::Forward), vec![pair(0, 4), pair(0, 5)]);
    assert_eq!(pairs_on_strand(&table(), &pairs, Strand::Unknown), Vec::<Pair>::new());
}

#[test]
fn strand_order_is_forward_reverse_unstranded_unknown() {
    let mut table = table();
    table[0].strand = Strand::Unknown;
    table[1].strand = Strand::Unstranded;
    table[2].strand = Strand::Reverse;
    table[3].strand = Strand::Forward;
    let pairs = vec![pair(0, 4), pair(1, 6), pair(2, 8), pair(3, 10)];
    let operons = add_chromosome(&table, Vec::new(), &pairs);
    assert_eq!(operons, vec![vec![pair(3, 10)], vec![pair(2, 8)], vec![pair(1, 6)], vec![pair(0, 4)]]);
}

#[test]
fn first_pair_of_a_strand_opens_an_operon() {
    // the reverse container overlaps the forward one in position, and still
    // starts an operon of its own
    let operons = add_chromosome(&table(), Vec::new(), &vec![pair(0, 4), pair(3, 10)]);
    assert_eq!(operons, vec![vec![pair(0, 4)], vec![pair(3, 10)]]);
}

#[test]
fn next_chromosome_goes_on_from_the_operons_before() {
    let first = add_chromosome(&table(), Vec::new(), &vec![pair(0, 4), pair(0, 5)]);
    let second = add_chromosome(&table(), first, &vec![pair(1, 6), pair(1, 7)]);
    assert_eq!(second, vec![vec![pair(0, 4), pair(0, 5)], vec![pair(1, 6), pair(1, 7)]]);
    let third = add_chromosome(&table(), second, &vec![pair(2, 4), pair(2, 8)]);
    assert_eq!(
        third,
        vec![vec![pair(0, 4), pair(0, 5)], vec![pair(1, 6), pair(1, 7)], vec![pair(2, 8)]]
    );
}

#[test]
fn one_strand_can_be_added_alone() {
    let pairs = vec![pair(3, 10), pair(0, 4), pair(3, 11)];
    let operons = add_strand(&table(), Vec::new(), &pairs, Strand::Reverse);
    assert_eq!(operons, vec![vec![pair(3, 10), pair(3, 11)]]);
    let walked = walk_group(&table(), Vec::new(), &vec![pair(2, 8), pair(0, 4)]);
    assert_eq!(walked, vec![vec![pair(2, 8)], vec![pair(0, 4)]]);
}

#[test]
fn container_starts_rise_with_operon_numbers() {
    let pairs = vec![pair(2, 8), pair(1, 6), pair(2, 9), pair(0, 4), pair(1, 7), pair(0, 5)];
    let table = table();
    let operons = add_chromosome(&table, Vec::new(), &pairs);
    let starts: Vec<u64> = operons.iter().flatten().map(|p| table[p.container].start).collect();
    assert_eq!(starts, vec![1000, 1000, 2000, 2000, 20000, 20000]);
}
