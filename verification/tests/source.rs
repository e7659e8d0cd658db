use std::io::BufReader;
use vcf::{VCFReader, VCFRecord};
use vcf_to_bed::accumulator::Accumulator;
use vcf_to_bed::record::VariantRecord;
use vcf_to_bed::severity::SeverityTable;

const HEADER: &str = "##fileformat=VCFv4.2\n#CHROM\tPOS\tID\tREF\tALT\tQUAL\tFILTER\tINFO\n";

fn read(lines: &[u8]) -> Vec<VCFRecord> {
    let mut text = HEADER.as_bytes().to_vec();
    text.extend_from_slice(lines);
    let mut reader = VCFReader::new(BufReader::new(&text[..])).unwrap();
    let mut records = Vec::new();
    let mut record = reader.empty_record();
    while reader.next_record(&mut record).unwrap() {
        records.push(record.clone());
    }
    records
}

fn annotation(consequence: &str, class: &str) -> String {
    format!("G|{}{}{}", consequence, "|".repeat(20), class)
}

fn table() -> SeverityTable {
    SeverityTable::from_json(
        "{\"stop_gained\": \"3\", \"missense_variant\": \"11\", \"intron_variant\": \"21\"}",
    )
    .unwrap()
}

#[test]
fn from_vcf_copies_the_fields_of_a_record() {
    let line = format!(
        "13\t32872836\trs7,rs8\tAC\tA,ACC\t.\t.\tAC=1;CSQ={},{}\n",
        annotation("missense_variant", "deletion"),
        annotation("intron_variant", "insertion")
    );
    let records = read(line.as_bytes());
    let record = VariantRecord::from_vcf(&records[0]);
    assert_eq!(record.chromosome, b"13".to_vec());
    assert_eq!(record.position, 32872836);
    assert_eq!(record.ids, vec![b"rs7".to_vec(), b"rs8".to_vec()]);
    assert_eq!(record.reference, b"AC".to_vec());
    assert_eq!(record.alternatives, vec![b"A".to_vec(), b"ACC".to_vec()]);
    assert_eq!(
        record.annotations,
        vec![
            annotation("missense_variant", "deletion").into_bytes(),
            annotation("intron_variant", "insertion").into_bytes()
        ]
    );
}

#[test]
fn from_vcf_gives_no_annotations_without_the_key() {
    let records = read(b"1\t100\trs1\tA\tG\t.\t.\tAC=1\n1\t200\t.\tA\t.\n");
    let record = VariantRecord::from_vcf(&records[0]);
    assert!(record.annotations.is_empty());
    let record = VariantRecord::from_vcf(&records[1]);
    assert!(record.annotations.is_empty());
    assert!(record.ids.is_empty());
    assert!(record.alternatives.is_empty());
    assert_eq!(record.position, 200);
}

#[test]
fn from_vcf_replaces_bytes_that_are_no_text() {
    let mut line = b"1\t100\trs1\tA\tG\t.\t.\tCSQ=G|mis".to_vec();
    line.push(0xff);
    line.extend_from_slice(b"sense|x\n");
    let records = read(&line);
    let record = VariantRecord::from_vcf(&records[0]);
    assert_eq!(record.annotations, vec!["G|mis\u{fffd}sense|x".as_bytes().to_vec()]);
}

#[test]
fn from_vcf_keeps_text_beyond_ascii() {
    let records = read("1\t100\trs1\tA\tG\t.\t.\tCSQ=G|caf\u{e9}|x\n".as_bytes());
    let record = VariantRecord::from_vcf(&records[0]);
    assert_eq!(record.annotations, vec!["G|caf\u{e9}|x".as_bytes().to_vec()]);
}

#[test]
fn convert_vcf_turns_records_into_lines() {
    let text = format!(
        "1\t100\trs1\tA\tG,T\t.\t.\tCSQ={}\n1\t100\trs1\tA\tC\t.\t.\tCSQ={}\n1\t150\trs9\tA\tC\t.\t.\tAC=2\n1\t200\trs2\tACG\tA\t.\t.\tCSQ={},{}\n2\t7\trs3;rs4\tA\tC\t.\t.\tCSQ={}\n2\t9\trs5\tA\tAT\t.\t.\tCSQ={}\n",
        annotation("intron_variant", "SNV"),
        annotation("intron_variant&stop_gained", "SNV"),
        annotation("intron_variant", "deletion"),
        annotation("missense_variant", "deletion"),
        annotation("stop_gained", "SNV"),
        annotation("novel", "insertion"),
    );
    let t = table();
    let mut acc = Accumulator::new();
    let mut out: Vec<u8> = Vec::new();
    for record in read(text.as_bytes()) {
        out.extend(acc.convert_vcf(&record, &t).unwrap());
    }
    if let Some(line) = acc.finish() {
        out.extend(line);
    }
    assert_eq!(
        String::from_utf8(out).unwrap(),
        "1 100 100 rs1 SNV A G/T/C 1 stop_gained\n1 200 202 rs2 deletion ACG A 1 missense_variant\n2 9 10 rs5 insertion A AT 0 novel\n"
    );
}
