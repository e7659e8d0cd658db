use vcf_to_bed::text_set::TextSet;

fn list(parts: &[&str]) -> Vec<Vec<u8>> {
    parts.iter().map(|p| p.as_bytes().to_vec()).collect()
}

#[test]
fn new_set_is_empty() {
    let set = TextSet::new();
    assert!(set.is_empty());
    assert_eq!(set.len(), 0);
    assert_eq!(set.to_vec(), list(&[]));
    assert!(!set.contains(b"G"));
}

#[test]
fn singleton_holds_its_member() {
    let set = TextSet::singleton(b"G".to_vec());
    assert!(!set.is_empty());
    assert_eq!(set.len(), 1);
    assert!(set.contains(b"G"));
    assert!(!set.contains(b"T"));
    assert_eq!(set.to_vec(), list(&["G"]));
}

#[test]
fn with_adds_a_new_member_behind() {
    let set = TextSet::singleton(b"G".to_vec()).with(b"T".to_vec()).with(b"".to_vec());
    assert_eq!(set.to_vec(), list(&["G", "T", ""]));
}

#[test]
fn with_adds_no_member_twice() {
    let set = TextSet::singleton(b"G".to_vec()).with(b"T".to_vec()).with(b"G".to_vec());
    assert_eq!(set.len(), 2);
    assert_eq!(set.to_vec(), list(&["G", "T"]));
}

#[test]
fn extended_keeps_first_occurrences_in_order() {
    let set = TextSet::new().extended(&list(&["T", "G", "T", "C", "G"]));
    assert_eq!(set.to_vec(), list(&["T", "G", "C"]));
}

#[test]
fn union_holds_the_members_of_both() {
    let a = TextSet::new().extended(&list(&["G", "T"]));
    let b = TextSet::new().extended(&list(&["T", "C"]));
    let u = a.union(&b);
    assert_eq!(u.to_vec(), list(&["G", "T", "C"]));
    assert_eq!(b.to_vec(), list(&["T", "C"]));
}

#[test]
fn union_with_the_empty_set_changes_nothing() {
    let a = TextSet::new().extended(&list(&["G", "T"]));
    assert_eq!(a.union(&TextSet::new()).to_vec(), list(&["G", "T"]));
    let b = TextSet::new().extended(&list(&["G", "T"]));
    assert_eq!(TextSet::new().union(&b).to_vec(), list(&["G", "T"]));
}

#[test]
fn joined_puts_the_separator_between_members() {
    let set = TextSet::new().extended(&list(&["G", "T", "CA"]));
    assert_eq!(set.joined(b'/'), b"G/T/CA".to_vec());
    assert_eq!(TextSet::singleton(b"G".to_vec()).joined(b'/'), b"G".to_vec());
    assert_eq!(TextSet::new().joined(b'/'), b"".to_vec());
}
