use vcf_to_bed::classify::classify;
use vcf_to_bed::error::ConvertError;
use vcf_to_bed::severity::SeverityTable;

fn table() -> SeverityTable {
    let ranks = [
        ("stop_gained", "3"),
        ("missense_variant", "11"),
        ("splice_region_variant", "13"),
        ("intron_variant", "21"),
        ("upstream_gene_variant", "24"),
        ("hopeless", "255"),
        ("broken", "many"),
    ];
    SeverityTable::from_entries(
        ranks.iter().map(|(t, r)| (t.as_bytes().to_vec(), r.as_bytes().to_vec())).collect(),
    )
}

fn annotation(consequence: &str, class: &str) -> Vec<u8> {
    format!("G|{}{}{}", consequence, "|".repeat(20), class).into_bytes()
}

#[test]
fn the_lowest_rank_wins() {
    let found = classify(
        &vec![
            annotation("intron_variant", "SNV"),
            annotation("missense_variant", "SNV"),
            annotation("upstream_gene_variant", "SNV"),
        ],
        &table(),
    )
    .unwrap();
    assert_eq!(found.consequence, b"missense_variant".to_vec());
    assert_eq!(found.rank, 11);
    assert_eq!(found.group, 1);
    assert_eq!(found.variety, b"SNV".to_vec());
}

#[test]
fn each_term_of_an_annotation_is_ranked_on_its_own() {
    let found = classify(
        &vec![annotation("intron_variant&splice_region_variant&upstream_gene_variant", "deletion")],
        &table(),
    )
    .unwrap();
    assert_eq!(found.consequence, b"splice_region_variant".to_vec());
    assert_eq!(found.rank, 13);
    assert_eq!(found.group, 2);
    assert_eq!(found.variety, b"deletion".to_vec());
}

#[test]
fn the_class_comes_from_the_winning_annotation() {
    let found = classify(
        &vec![
            annotation("intron_variant", "sequence_alteration"),
            annotation("stop_gained", "insertion"),
            annotation("missense_variant", "SNV"),
        ],
        &table(),
    )
    .unwrap();
    assert_eq!(found.consequence, b"stop_gained".to_vec());
    assert_eq!(found.variety, b"insertion".to_vec());
    assert_eq!(found.group, 1);
    assert_eq!(found.rank, 3);
}

#[test]
fn of_equal_ranks_the_first_wins() {
    let mut t = table();
    t.insert(b"start_lost".to_vec(), b"11".to_vec());
    let found = classify(
        &vec![annotation("start_lost", "SNV"), annotation("missense_variant", "deletion")],
        &t,
    )
    .unwrap();
    assert_eq!(found.consequence, b"start_lost".to_vec());
    assert_eq!(found.variety, b"SNV".to_vec());
    let found = classify(
        &vec![annotation("missense_variant&start_lost", "deletion")],
        &t,
    )
    .unwrap();
    assert_eq!(found.consequence, b"missense_variant".to_vec());
}

#[test]
fn a_term_that_the_table_lacks_ranks_as_zero() {
    let found = classify(
        &vec![annotation("stop_gained", "SNV"), annotation("novel_term", "indel")],
        &table(),
    )
    .unwrap();
    assert_eq!(found.consequence, b"novel_term".to_vec());
    assert_eq!(found.rank, 0);
    assert_eq!(found.group, 0);
    assert_eq!(found.variety, b"indel".to_vec());
}

#[test]
fn a_short_annotation_has_empty_fields() {
    let found = classify(&vec![b"G|missense_variant|MODERATE".to_vec()], &table()).unwrap();
    assert_eq!(found.consequence, b"missense_variant".to_vec());
    assert_eq!(found.variety, b"".to_vec());
    let found = classify(&vec![b"G".to_vec()], &table()).unwrap();
    assert_eq!(found.consequence, b"".to_vec());
    assert_eq!(found.rank, 0);
    assert_eq!(found.group, 0);
    assert_eq!(found.variety, b"".to_vec());
}

#[test]
fn no_term_below_the_last_rank_gives_no_consequence() {
    let found = classify(&vec![annotation("hopeless", "SNV")], &table()).unwrap();
    assert_eq!(found.consequence, b"".to_vec());
    assert_eq!(found.rank, 255);
    assert_eq!(found.group, 0);
    assert_eq!(found.variety, b"".to_vec());
    let found = classify(&vec![], &table()).unwrap();
    assert_eq!(found.rank, 255);
    assert_eq!(found.consequence, b"".to_vec());
}

#[test]
fn a_rank_that_cannot_be_read_is_an_error() {
    let found = classify(&vec![annotation("broken", "SNV")], &table());
    assert_eq!(found.err(), Some(ConvertError::BadRank));
    let found = classify(
        &vec![annotation("stop_gained", "SNV"), annotation("intron_variant&broken", "SNV")],
        &table(),
    );
    assert_eq!(found.err(), Some(ConvertError::BadRank));
}
