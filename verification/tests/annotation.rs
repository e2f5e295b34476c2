use gamba::annotation::{attach_exons, attach_lines, exons_of, lines_of, mentioned_ids, Exon, Line};
use gamba::model::{Strand, Transcript};

fn transcript(id: &str) -> Transcript {
    Transcript {
        id: id.to_string(),
        gene_id: format!("{}.gene", id),
        chrom: "Chr1".to_string(),
        start: 1,
        end: 2,
        strand: Strand::Forward,
        coverage: 3,
        expression: 4,
        exons: Vec::new(),
        annotation_lines: Vec::new(),
    }
}

fn exon(id: &str, start: u64, end: u64) -> Exon {
    Exon { transcript_id: id.to_string(), start, end }
}

fn line(id: &str, text: &str) -> Line {
    Line { transcript_id: id.to_string(), text: text.to_string() }
}

fn exons() -> Vec<Exon> {
    vec![exon("b", 10, 20), exon("a", 1, 5), exon("b", 30, 40), exon("c", 7, 8), exon("a", 9, 12)]
}

fn lines() -> Vec<Line> {
    vec![
        line("a", "transcript a"),
        line("a", "exon a1"),
        line("x", "exon of none"),
        line("b", "transcript b"),
        line("a", "exon a2\n"),
        line("b", "exon b1"),
    ]
}

#[test]
fn exons_are_found_by_transcript_id() {
    assert_eq!(exons_of(&exons(), &"a".to_string()), vec![(1, 5), (9, 12)]);
    assert_eq!(exons_of(&exons(), &"b".to_string()), vec![(10, 20), (30, 40)]);
    assert_eq!(exons_of(&exons(), &"d".to_string()), Vec::<(u64, u64)>::new());
    assert_eq!(exons_of(&Vec::new(), &"a".to_string()), Vec::<(u64, u64)>::new());
}

#[test]
fn exons_are_attached_to_their_transcripts() {
    let mut transcripts = vec![transcript("a"), transcript("d"), transcript("b"), transcript("a")];
    transcripts[1].exons = vec![(100, 200)];
    attach_exons(&mut transcripts, &exons());
    assert_eq!(transcripts.len(), 4);
    assert_eq!(transcripts[0].exons, vec![(1, 5), (9, 12)]);
    assert_eq!(transcripts[1].exons, vec![(100, 200)]);
    assert_eq!(transcripts[2].exons, vec![(10, 20), (30, 40)]);
    assert_eq!(transcripts[3].exons, vec![(1, 5), (9, 12)]);
    assert_eq!(transcripts[2].id, "b");
    assert_eq!(transcripts[2].gene_id, "b.gene");
    assert_eq!(transcripts[2].coverage, 3);
    assert_eq!(transcripts[2].expression, 4);
    assert!(transcripts[0].is_multi_exonic());
    assert!(!transcripts[1].is_multi_exonic());
}

#[test]
fn lines_are_found_by_transcript_id() {
    assert_eq!(lines_of(&lines(), &"a".to_string()), vec!["transcript a", "exon a1", "exon a2\n"]);
    assert_eq!(lines_of(&lines(), &"x".to_string()), vec!["exon of none"]);
    assert_eq!(lines_of(&lines(), &"d".to_string()), Vec::<String>::new());
}

#[test]
fn lines_are_attached_to_their_transcripts() {
    let mut transcripts = vec![transcript("b"), transcript("d"), transcript("a")];
    transcripts[1].annotation_lines = vec!["kept".to_string()];
    transcripts[0].exons = vec![(1, 2)];
    attach_lines(&mut transcripts, &lines());
    assert_eq!(transcripts[0].annotation_lines, vec!["transcript b", "exon b1"]);
    assert_eq!(transcripts[1].annotation_lines, vec!["kept"]);
    assert_eq!(transcripts[2].annotation_lines, vec!["transcript a", "exon a1", "exon a2\n"]);
    assert_eq!(transcripts[0].exons, vec![(1, 2)]);
    assert_eq!(transcripts[2].id, "a");
}

#[test]
fn ids_are_listed_once_in_order_of_first_mention() {
    assert_eq!(mentioned_ids(&lines()), vec!["a", "x", "b"]);
    assert_eq!(mentioned_ids(&Vec::new()), Vec::<String>::new());
    let repeated = vec![line("z", "1"), line("z", "2"), line("y", "3"), line("z", "4"), line("y", "5")];
    assert_eq!(mentioned_ids(&repeated), vec!["z", "y"]);
}
