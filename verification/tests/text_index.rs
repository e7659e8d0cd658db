use vcf_to_bed::text_index::TextIndex;

#[test]
fn new_index_is_empty() {
    let index = TextIndex::new();
    assert!(!index.contains(b""));
    assert!(!index.contains(b"rs1"));
}

#[test]
fn insert_adds_a_member() {
    let mut index = TextIndex::new();
    index.insert(b"rs1".to_vec());
    assert!(index.contains(b"rs1"));
    assert!(!index.contains(b"rs2"));
    assert!(!index.contains(b"rs"));
    assert!(!index.contains(b"rs11"));
    index.insert(b"".to_vec());
    assert!(index.contains(b""));
    assert!(index.contains(b"rs1"));
}

#[test]
fn insert_of_a_member_changes_nothing() {
    let mut index = TextIndex::new();
    index.insert(b"rs1".to_vec());
    index.insert(b"rs2".to_vec());
    index.insert(b"rs1".to_vec());
    assert!(index.contains(b"rs1"));
    assert!(index.contains(b"rs2"));
    assert!(!index.contains(b"rs3"));
}

#[test]
fn members_that_differ_in_one_byte_are_told_apart() {
    let mut index = TextIndex::new();
    for n in 0..=255u8 {
        if n % 2 == 0 {
            index.insert(vec![b'r', n, b's']);
        }
    }
    for n in 0..=255u8 {
        assert_eq!(index.contains(&[b'r', n, b's']), n % 2 == 0);
        assert!(!index.contains(&[b'r', b's', n]));
    }
}
