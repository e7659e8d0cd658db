use vcf_to_bed::groups::variant_group;

#[test]
fn every_term_of_the_table_has_its_group() {
    let table: [(&str, u8); 45] = [
        ("frameshift_variant", 1),
        ("inframe_deletion", 1),
        ("inframe_insertion", 1),
        ("missense_variant", 1),
        ("protein_altering_variant", 1),
        ("start_lost", 1),
        ("stop_gained", 1),
        ("stop_lost", 1),
        ("splice_acceptor_variant", 2),
        ("splice_donor_5th_base_variant", 2),
        ("splice_donor_region_variant", 2),
        ("splice_donor_variant", 2),
        ("splice_polypyrimidine_tract_variant", 2),
        ("splice_region_variant", 2),
        ("3_prime_UTR_variant", 3),
        ("5_prime_UTR_variant", 3),
        ("coding_sequence_variant", 3),
        ("incomplete_terminal_codon_variant", 3),
        ("intron_variant", 3),
        ("mature_miRNA_variant", 3),
        ("NMD_transcript_variant", 3),
        ("non_coding_transcript_exon_variant", 3),
        ("non_coding_transcript_variant", 3),
        ("start_retained_variant", 3),
        ("stop_retained_variant", 3),
        ("synonymous_variant", 3),
        ("feature_elongation", 3),
        ("feature_truncation", 3),
        ("transcript_ablation", 3),
        ("transcript_amplification", 3),
        ("transcript_fusion", 3),
        ("transcript_translocation", 3),
        ("regulatory_region_variant", 4),
        ("TF_binding_site_variant", 4),
        ("regulatory_region_ablation", 4),
        ("regulatory_region_amplification", 4),
        ("regulatory_region_fusion", 4),
        ("regulatory_region_translocation", 4),
        ("TFBS_ablation", 4),
        ("TFBS_amplification", 4),
        ("TFBS_fusion", 4),
        ("TFBS_translocation", 4),
        ("upstream_gene_variant", 5),
        ("downstream_gene_variant", 5),
        ("intergenic_variant", 5),
    ];
    for (term, group) in table {
        assert_eq!(variant_group(term.as_bytes()), group, "{}", term);
    }
}

#[test]
fn a_term_outside_the_table_has_group_zero() {
    assert_eq!(variant_group(b""), 0);
    assert_eq!(variant_group(b"missense"), 0);
    assert_eq!(variant_group(b"missense_variant "), 0);
    assert_eq!(variant_group(b"Missense_variant"), 0);
    assert_eq!(variant_group(b"tfbs_ablation"), 0);
    assert_eq!(variant_group(b"sequence_variant"), 0);
}
