use vcf_to_bed::dedup::{SeenIds, ShortLine};

#[test]
fn the_first_line_of_an_identifier_is_kept() {
    let mut seen = SeenIds::new();
    let kept = seen.offer(b"1 100 100 rs5 SNV A G 1 missense_variant");
    assert_eq!(kept, Ok(Some(b"1 100 100 rs5 SNV A G 1 missense_variant\n".to_vec())));
}

#[test]
fn only_the_line_of_the_first_file_is_kept() {
    let file_a = ["1 100 100 rs4 SNV A G 1 missense_variant", "1 200 200 rs5 SNV C T 3 intron_variant"];
    let file_b = ["1 200 201 rs5 insertion C CT 1 stop_gained", "1 300 300 rs6 SNV G A 5 intergenic_variant"];
    let mut seen = SeenIds::new();
    let mut out: Vec<u8> = Vec::new();
    for line in file_a.iter().chain(file_b.iter()) {
        if let Some(kept) = seen.offer(line.as_bytes()).unwrap() {
            out.extend(kept);
        }
    }
    assert_eq!(
        String::from_utf8(out).unwrap(),
        "1 100 100 rs4 SNV A G 1 missense_variant\n1 200 200 rs5 SNV C T 3 intron_variant\n1 300 300 rs6 SNV G A 5 intergenic_variant\n"
    );
}

#[test]
fn a_repeated_identifier_is_dropped_whatever_else_the_line_holds() {
    let mut seen = SeenIds::new();
    assert!(seen.offer(b"1 1 1 rs1 SNV A G 1 a").unwrap().is_some());
    assert_eq!(seen.offer(b"9 9 9 rs1 deletion AC A 2 b"), Ok(None));
    assert_eq!(seen.offer(b"1 1 1 rs1 SNV A G 1 a"), Ok(None));
    assert!(seen.offer(b"1 1 1 rs2 SNV A G 1 a").unwrap().is_some());
    assert!(seen.offer(b"1 1 1 RS1 SNV A G 1 a").unwrap().is_some());
}

#[test]
fn fields_beyond_the_ninth_are_cut_off() {
    let mut seen = SeenIds::new();
    let kept = seen.offer(b"1 100 100 rs5 SNV A G 1 missense_variant extra more");
    assert_eq!(kept, Ok(Some(b"1 100 100 rs5 SNV A G 1 missense_variant\n".to_vec())));
}

#[test]
fn empty_fields_are_kept() {
    let mut seen = SeenIds::new();
    assert_eq!(seen.offer(b"        "), Ok(Some(b"        \n".to_vec())));
    assert_eq!(seen.offer(b"1 1 1  SNV A G 1 a"), Ok(None));
}

#[test]
fn a_line_without_an_identifier_is_an_error() {
    let mut seen = SeenIds::new();
    assert_eq!(seen.offer(b""), Err(ShortLine));
    assert_eq!(seen.offer(b"1 100 100"), Err(ShortLine));
}

#[test]
fn a_new_line_of_fewer_than_nine_fields_is_an_error() {
    let mut seen = SeenIds::new();
    assert_eq!(seen.offer(b"1 100 100 rs1 SNV A G 1"), Err(ShortLine));
    assert!(seen.offer(b"1 100 100 rs1 SNV A G 1 a").unwrap().is_some());
    assert_eq!(seen.offer(b"1 100 100 rs1"), Ok(None));
    assert_eq!(seen.offer(b"1 100 100 rs2"), Err(ShortLine));
}

#[test]
fn many_identifiers_are_told_apart() {
    let mut seen = SeenIds::new();
    for round in 0..2 {
        for n in 0..5000u32 {
            let line = format!("1 {} {} rs{} SNV A G 1 a", n, n, n);
            let kept = seen.offer(line.as_bytes()).unwrap();
            assert_eq!(kept.is_some(), round == 0, "{}", line);
            assert!(seen.contains(format!("rs{}", n).as_bytes()));
        }
    }
    assert!(!seen.contains(b"rs5000"));
    assert!(!seen.contains(b""));
}

#[test]
fn contains_knows_the_kept_identifiers() {
    let mut seen = SeenIds::new();
    assert!(!seen.contains(b"rs1"));
    seen.offer(b"1 1 1 rs1 SNV A G 1 a").unwrap();
    assert!(seen.contains(b"rs1"));
    assert!(!seen.contains(b"rs2"));
    assert_eq!(seen.offer(b"1 1 1 rs2 SNV A G 1"), Err(ShortLine));
    assert!(!seen.contains(b"rs2"));
}
