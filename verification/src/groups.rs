//! The group of a consequence term: a coarse class from 1, changes to the
//! protein, to 5, changes between genes; 0 for a term of no class.

use crate::text::{bytes_eq, literal};
use vstd::prelude::*;
use vstd::string::*;

verus! {

/// Terms of group 1: the variant changes the protein.
pub open spec fn alters_protein(term: Seq<u8>) -> bool {
    ||| term == literal("frameshift_variant")
    ||| term == literal("inframe_deletion")
    ||| term == literal("inframe_insertion")
    ||| term == literal("missense_variant")
    ||| term == literal("protein_altering_variant")
    ||| term == literal("start_lost")
    ||| term == literal("stop_gained")
    ||| term == literal("stop_lost")
}

/// Terms of group 2: the variant touches a splice site.
pub open spec fn alters_splicing(term: Seq<u8>) -> bool {
    ||| term == literal("splice_acceptor_variant")
    ||| term == literal("splice_donor_5th_base_variant")
    ||| term == literal("splice_donor_region_variant")
    ||| term == literal("splice_donor_variant")
    ||| term == literal("splice_polypyrimidine_tract_variant")
    ||| term == literal("splice_region_variant")
}

/// Terms of group 3: the variant lies in a transcript without changing the
/// protein.
pub open spec fn alters_transcript(term: Seq<u8>) -> bool {
    ||| term == literal("3_prime_UTR_variant")
    ||| term == literal("5_prime_UTR_variant")
    ||| term == literal("coding_sequence_variant")
    ||| term == literal("incomplete_terminal_codon_variant")
    ||| term == literal("intron_variant")
    ||| term == literal("mature_miRNA_variant")
    ||| term == literal("NMD_transcript_variant")
    ||| term == literal("non_coding_transcript_exon_variant")
    ||| term == literal("non_coding_transcript_variant")
    ||| term == literal("start_retained_variant")
    ||| term == literal("stop_retained_variant")
    ||| term == literal("synonymous_variant")
    ||| term == literal("feature_elongation")
    ||| term == literal("feature_truncation")
    ||| term == literal("transcript_ablation")
    ||| term == literal("transcript_amplification")
    ||| term == literal("transcript_fusion")
    ||| term == literal("transcript_translocation")
}

/// Terms of group 4: the variant lies in a regulatory region.
pub open spec fn alters_regulation(term: Seq<u8>) -> bool {
    ||| term == literal("regulatory_region_variant")
    ||| term == literal("TF_binding_site_variant")
    ||| term == literal("regulatory_region_ablation")
    ||| term == literal("regulatory_region_amplification")
    ||| term == literal("regulatory_region_fusion")
    ||| term == literal("regulatory_region_translocation")
    ||| term == literal("TFBS_ablation")
    ||| term == literal("TFBS_amplification")
    ||| term == literal("TFBS_fusion")
    ||| term == literal("TFBS_translocation")
}

/// Terms of group 5: the variant lies beside or between genes.
pub open spec fn lies_between_genes(term: Seq<u8>) -> bool {
    ||| term == literal("upstream_gene_variant")
    ||| term == literal("downstream_gene_variant")
    ||| term == literal("intergenic_variant")
}

/// The group of a consequence term; 0 for a term that the table lacks.
pub open spec fn group_of(term: Seq<u8>) -> u8 {
    if alters_protein(term) {
        1
    } else if alters_splicing(term) {
        2
    } else if alters_transcript(term) {
        3
    } else if alters_regulation(term) {
        4
    } else if lies_between_genes(term) {
        5
    } else {
        0
    }
}

/// Whether `term` is the text `name`.
fn is(term: &[u8], name: &str) -> (same: bool)
    ensures
        same == (term@ == literal(name)),
{
    bytes_eq(term, name.as_bytes())
}

fn in_group_1(term: &[u8]) -> (found: bool)
    ensures
        found == alters_protein(term@),
{
    is(term, "frameshift_variant") || is(term, "inframe_deletion") || is(
        term,
        "inframe_insertion",
    ) || is(term, "missense_variant") || is(term, "protein_altering_variant") || is(
        term,
        "start_lost",
    ) || is(term, "stop_gained") || is(term, "stop_lost")
}

fn in_group_2(term: &[u8]) -> (found: bool)
    ensures
        found == alters_splicing(term@),
{
    is(term, "splice_acceptor_variant") || is(term, "splice_donor_5th_base_variant") || is(
        term,
        "splice_donor_region_variant",
    ) || is(term, "splice_donor_variant") || is(term, "splice_polypyrimidine_tract_variant")
        || is(term, "splice_region_variant")
}

fn in_group_3(term: &[u8]) -> (found: bool)
    ensures
        found == alters_transcript(term@),
{
    is(term, "3_prime_UTR_variant") || is(term, "5_prime_UTR_variant") || is(
        term,
        "coding_sequence_variant",
    ) || is(term, "incomplete_terminal_codon_variant") || is(term, "intron_variant") || is(
        term,
        "mature_miRNA_variant",
    ) || is(term, "NMD_transcript_variant") || is(term, "non_coding_transcript_exon_variant")
        || is(term, "non_coding_transcript_variant") || is(term, "start_retained_variant") || is(
        term,
        "stop_retained_variant",
    ) || is(term, "synonymous_variant") || is(term, "feature_elongation") || is(
        term,
        "feature_truncation",
    ) || is(term, "transcript_ablation") || is(term, "transcript_amplification") || is(
        term,
        "transcript_fusion",
    ) || is(term, "transcript_translocation")
}

fn in_group_4(term: &[u8]) -> (found: bool)
    ensures
        found == alters_regulation(term@),
{
    is(term, "regulatory_region_variant") || is(term, "TF_binding_site_variant") || is(
        term,
        "regulatory_region_ablation",
    ) || is(term, "regulatory_region_amplification") || is(term, "regulatory_region_fusion")
        || is(term, "regulatory_region_translocation") || is(term, "TFBS_ablation") || is(
        term,
        "TFBS_amplification",
    ) || is(term, "TFBS_fusion") || is(term, "TFBS_translocation")
}

fn in_group_5(term: &[u8]) -> (found: bool)
    ensures
        found == lies_between_genes(term@),
{
    is(term, "upstream_gene_variant") || is(term, "downstream_gene_variant") || is(
        term,
        "intergenic_variant",
    )
}

/// The group of a consequence term; 0 for a term that the table lacks.
pub fn variant_group(term: &[u8]) -> (group: u8)
    ensures
        group == group_of(term@),
{
    if in_group_1(term) {
        1
    } else if in_group_2(term) {
        2
    } else if in_group_3(term) {
        3
    } else if in_group_4(term) {
        4
    } else if in_group_5(term) {
        5
    } else {
        0
    }
}

} // verus!
