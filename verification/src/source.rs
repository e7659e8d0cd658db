//! Records as the `vcf` crate reads them.

use crate::record::{RecordView, VariantRecord};
use crate::text::{literal, rows};
use crate::utf8::{decode_lossy, lossy_text};
use vstd::prelude::*;
use vstd::string::*;

verus! {

/// Declares `vcf::VCFRecord`. Nothing is known of such a record but what
/// `vcf_fields` and `vcf_info` name.
#[verifier::external_type_specification]
#[verifier::external_body]
pub struct ExVcfRecord(vcf::VCFRecord);

/// The chromosome, position, identifiers, reference allele and alternate
/// alleles that a record of the `vcf` crate holds.
pub uninterp spec fn vcf_fields(record: vcf::VCFRecord) -> (
    Seq<u8>,
    u64,
    Seq<Seq<u8>>,
    Seq<u8>,
    Seq<Seq<u8>>,
);

/// The INFO column of a record of the `vcf` crate: the values that it holds
/// under each of its keys.
pub uninterp spec fn vcf_info(record: vcf::VCFRecord) -> Map<Seq<u8>, Seq<Seq<u8>>>;

/// Each of the values, read as text.
pub open spec fn as_text(values: Seq<Seq<u8>>) -> Seq<Seq<u8>> {
    values.map_values(|v: Seq<u8>| lossy_text(v))
}

/// What a record of the `vcf` crate holds for a conversion. Its annotations
/// are the values under the key `CSQ`, read as text.
pub open spec fn vcf_view(record: vcf::VCFRecord) -> RecordView {
    let fields = vcf_fields(record);
    RecordView {
        chromosome: fields.0,
        position: fields.1,
        ids: fields.2,
        reference: fields.3,
        alternatives: fields.4,
        annotations: if vcf_info(record).contains_key(literal("CSQ")) {
            as_text(vcf_info(record)[literal("CSQ")])
        } else {
            Seq::<Seq<u8>>::empty()
        },
    }
}

/// Copies the public fields `chromosome`, `position`, `id`, `reference` and
/// `alternative` of a `vcf::VCFRecord`. Not proved: nothing but that the
/// same record gives the same fields.
#[verifier::external_body]
fn read_fields(record: &vcf::VCFRecord) -> (fields: (
    Vec<u8>,
    u64,
    Vec<Vec<u8>>,
    Vec<u8>,
    Vec<Vec<u8>>,
))
    ensures
        (fields.0@, fields.1, rows(fields.2@), fields.3@, rows(fields.4@)) == vcf_fields(*record),
{
    (
        record.chromosome.clone(),
        record.position,
        record.id.clone(),
        record.reference.clone(),
        record.alternative.clone(),
    )
}

/// Calls `vcf::VCFRecord::info` and copies the values that it finds. Not
/// proved: nothing but that the same record and key give the same values.
#[verifier::external_body]
fn read_info(record: &vcf::VCFRecord, key: &[u8]) -> (values: Option<Vec<Vec<u8>>>)
    ensures
        match values {
            Some(v) => vcf_info(*record).contains_key(key@) && vcf_info(*record)[key@] == rows(
                v@,
            ),
            None => !vcf_info(*record).contains_key(key@),
        },
{
    record.info(key).cloned()
}

impl VariantRecord {
    /// The record that a record of the `vcf` crate holds. The annotations
    /// are its `CSQ` values; bytes in them that are not UTF-8 are replaced.
    pub fn from_vcf(record: &vcf::VCFRecord) -> (converted: VariantRecord)
        ensures
            converted@ == vcf_view(*record),
    {
        let (chromosome, position, ids, reference, alternatives) = read_fields(record);
        let mut annotations: Vec<Vec<u8>> = Vec::new();
        match read_info(record, "CSQ".as_bytes()) {
            Some(values) => {
                let ghost raw = rows(values@);
                let mut k: usize = 0;
                assert(rows(annotations@) =~= as_text(raw).take(0));
                while k < values.len()
                    invariant
                        0 <= k <= values@.len(),
                        raw == rows(values@),
                        rows(annotations@) == as_text(raw).take(k as int),
                    decreases values@.len() - k,
                {
                    let ghost before = annotations@;
                    let text = decode_lossy(values[k].as_slice());
                    annotations.push(text);
                    proof {
                        assert(raw[k as int] == values@[k as int]@);
                        assert(rows(annotations@) =~= rows(before).push(text@));
                        assert(as_text(raw).take(k + 1) =~= as_text(raw).take(k as int).push(
                            lossy_text(raw[k as int]),
                        ));
                    }
                    k += 1;
                }
                assert(as_text(raw).take(k as int) =~= as_text(raw));
            },
            None => {
                assert(rows(annotations@) =~= Seq::<Seq<u8>>::empty());
            },
        }
        VariantRecord { chromosome, position, ids, reference, alternatives, annotations }
    }
}

} // verus!
