use vcf_to_bed::severity::SeverityTable;

fn entry(term: &str, rank: &str) -> (Vec<u8>, Vec<u8>) {
    (term.as_bytes().to_vec(), rank.as_bytes().to_vec())
}

#[test]
fn rank_is_the_number_that_the_table_gives() {
    let table = SeverityTable::from_entries(vec![
        entry("missense_variant", "11"),
        entry("intron_variant", "21"),
        entry("stop_gained", "3"),
    ]);
    assert_eq!(table.rank(b"missense_variant"), Some(11));
    assert_eq!(table.rank(b"intron_variant"), Some(21));
    assert_eq!(table.rank(b"stop_gained"), Some(3));
}

#[test]
fn a_term_that_the_table_lacks_has_rank_zero() {
    let table = SeverityTable::from_entries(vec![entry("missense_variant", "11")]);
    assert_eq!(table.rank(b"intron_variant"), Some(0));
    assert_eq!(table.rank(b""), Some(0));
    assert_eq!(SeverityTable::new().rank(b"missense_variant"), Some(0));
}

#[test]
fn a_rank_that_is_no_small_number_is_refused() {
    let table = SeverityTable::from_entries(vec![
        entry("a", "256"),
        entry("b", "high"),
        entry("c", ""),
        entry("d", "-1"),
        entry("e", "255"),
        entry("f", "1.5"),
    ]);
    assert_eq!(table.rank(b"a"), None);
    assert_eq!(table.rank(b"b"), None);
    assert_eq!(table.rank(b"c"), None);
    assert_eq!(table.rank(b"d"), None);
    assert_eq!(table.rank(b"e"), Some(255));
    assert_eq!(table.rank(b"f"), None);
}

#[test]
fn the_later_of_two_entries_counts() {
    let table = SeverityTable::from_entries(vec![
        entry("missense_variant", "11"),
        entry("intron_variant", "21"),
        entry("missense_variant", "4"),
    ]);
    assert_eq!(table.rank(b"missense_variant"), Some(4));
    assert_eq!(table.rank(b"intron_variant"), Some(21));
}

#[test]
fn insert_replaces_an_earlier_rank() {
    let mut table = SeverityTable::new();
    table.insert(b"stop_lost".to_vec(), b"6".to_vec());
    assert_eq!(table.rank(b"stop_lost"), Some(6));
    table.insert(b"stop_lost".to_vec(), b"7".to_vec());
    assert_eq!(table.rank(b"stop_lost"), Some(7));
    table.insert(b"start_lost".to_vec(), b"8".to_vec());
    assert_eq!(table.rank(b"stop_lost"), Some(7));
    assert_eq!(table.rank(b"start_lost"), Some(8));
}

#[test]
fn from_json_reads_an_object_of_strings() {
    let json = "{\"missense_variant\": \"11\", \"intron_variant\": \"21\", \"odd\": \"x\"}";
    let table = SeverityTable::from_json(json).unwrap();
    assert_eq!(table.rank(b"missense_variant"), Some(11));
    assert_eq!(table.rank(b"intron_variant"), Some(21));
    assert_eq!(table.rank(b"odd"), None);
    assert_eq!(table.rank(b"stop_gained"), Some(0));
}

#[test]
fn from_json_reads_escapes_in_keys_and_values() {
    let table = SeverityTable::from_json("{\"a\\u0062\": \"\\u0037\"}").unwrap();
    assert_eq!(table.rank(b"ab"), Some(7));
}

#[test]
fn from_json_takes_the_last_of_repeated_keys() {
    let table = SeverityTable::from_json("{\"a\": \"1\", \"a\": \"2\"}").unwrap();
    assert_eq!(table.rank(b"a"), Some(2));
}

#[test]
fn from_json_reads_the_empty_object() {
    let table = SeverityTable::from_json("{}").unwrap();
    assert_eq!(table.rank(b"missense_variant"), Some(0));
}

#[test]
fn from_json_refuses_other_text() {
    assert!(SeverityTable::from_json("").is_err());
    assert!(SeverityTable::from_json("[]").is_err());
    assert!(SeverityTable::from_json("{\"missense_variant\": 11}").is_err());
    assert!(SeverityTable::from_json("{\"missense_variant\": \"11\"").is_err());
    assert!(SeverityTable::from_json("{\"a\": \"1\"} x").is_err());
    assert!(SeverityTable::from_json("{\"a\": null}").is_err());
}
