//! Variant records, and the candidate intervals that a record gives.

use crate::classify::{classified, classify, ClassView, Classification};
use crate::error::ConvertError;
use crate::line::{views, Line, LineView};
use crate::severity::SeverityTable;
use crate::text::{bytes_eq, contains_byte, literal, rows};
use crate::text_set::{union, TextSet};
use crate::utf8::is_utf8;
use vstd::prelude::*;
use vstd::slice::slice_to_vec;
use vstd::string::*;
use vstd::utf8::valid_utf8;

verus! {

/// The longest reference allele that is converted.
pub const LONGEST_REFERENCE: usize = 31;

/// The byte that joins several identifiers into one.
pub const ID_SEPARATOR: u8 = 59;

/// What a variant record holds.
pub struct RecordView {
    pub chromosome: Seq<u8>,
    pub position: u64,
    pub ids: Seq<Seq<u8>>,
    pub reference: Seq<u8>,
    pub alternatives: Seq<Seq<u8>>,
    pub annotations: Seq<Seq<u8>>,
}

/// One variant record: a position, its alleles and identifiers, and one
/// annotation text for each transcript that the variant touches.
#[derive(Debug)]
pub struct VariantRecord {
    pub chromosome: Vec<u8>,
    pub position: u64,
    pub ids: Vec<Vec<u8>>,
    pub reference: Vec<u8>,
    pub alternatives: Vec<Vec<u8>>,
    pub annotations: Vec<Vec<u8>>,
}

impl View for VariantRecord {
    type V = RecordView;

    open spec fn view(&self) -> RecordView {
        RecordView {
            chromosome: self.chromosome@,
            position: self.position,
            ids: rows(self.ids@),
            reference: self.reference@,
            alternatives: rows(self.alternatives@),
            annotations: rows(self.annotations@),
        }
    }
}

/// Whether every one of the texts is UTF-8.
pub open spec fn all_utf8(texts: Seq<Seq<u8>>) -> bool {
    forall|k: int| 0 <= k < texts.len() ==> valid_utf8(#[trigger] texts[k])
}

/// Whether one of the identifiers stands for several.
pub open spec fn has_joined_ids(ids: Seq<Seq<u8>>) -> bool {
    exists|k: int| 0 <= k < ids.len() && (#[trigger] ids[k]).contains(ID_SEPARATOR)
}

/// Where an interval ends: at its start for a single-nucleotide variant,
/// one further for an insertion, and at the last base of the reference
/// allele for any other variety.
pub open spec fn interval_end(position: u64, reference_len: nat, variety: Seq<u8>) -> int {
    if variety == literal("SNV") {
        position as int
    } else if variety == literal("insertion") {
        position + 1
    } else {
        position + reference_len - 1
    }
}

/// The candidate of a record for one identifier and one alternate allele.
pub open spec fn candidate(
    record: RecordView,
    class: ClassView,
    end: u64,
    id: Seq<u8>,
    alt: Seq<u8>,
) -> LineView {
    LineView {
        chromosome: record.chromosome,
        start: record.position,
        end,
        id,
        variety: class.variety,
        reference: record.reference,
        alts: seq![alt],
        group: class.group,
        severity: class.consequence,
        severity_rank: class.rank,
    }
}

/// The candidates of a record for one identifier: one for each allele.
pub open spec fn candidates_for(
    record: RecordView,
    class: ClassView,
    end: u64,
    id: Seq<u8>,
    alts: Seq<Seq<u8>>,
) -> Seq<LineView> {
    alts.map_values(|alt: Seq<u8>| candidate(record, class, end, id, alt))
}

/// The candidates of a record: for each identifier in turn, one for each
/// allele.
pub open spec fn candidates_of(
    record: RecordView,
    class: ClassView,
    end: u64,
    ids: Seq<Seq<u8>>,
    alts: Seq<Seq<u8>>,
) -> Seq<LineView>
    decreases ids.len(),
{
    if ids.len() == 0 {
        Seq::<LineView>::empty()
    } else {
        candidates_of(record, class, end, ids.drop_last(), alts) + candidates_for(
            record,
            class,
            end,
            ids.last(),
            alts,
        )
    }
}

/// What a record gives. The rules apply in this order:
/// a reference allele longer than `LONGEST_REFERENCE` skips the record;
/// so does an identifier that stands for several; so does a record without
/// annotations, identifiers or alternate alleles. Any other record gives
/// one candidate for each pair of an identifier and a distinct alternate
/// allele, all with the record's classification. A text that is not UTF-8,
/// a rank that cannot be read and an end beyond the coordinate type are
/// errors, each found at the point where the text or number is first
/// needed.
pub open spec fn normalized(record: RecordView, table: Map<Seq<u8>, Seq<u8>>) -> Result<
    Seq<LineView>,
    ConvertError,
> {
    if !valid_utf8(record.reference) {
        Err(ConvertError::InvalidUtf8)
    } else if record.reference.len() > LONGEST_REFERENCE {
        Ok(Seq::<LineView>::empty())
    } else if !all_utf8(record.ids) {
        Err(ConvertError::InvalidUtf8)
    } else if has_joined_ids(record.ids) {
        Ok(Seq::<LineView>::empty())
    } else if !all_utf8(record.alternatives) {
        Err(ConvertError::InvalidUtf8)
    } else if record.annotations.len() == 0 || record.ids.len() == 0 || record.alternatives.len()
        == 0 {
        Ok(Seq::<LineView>::empty())
    } else {
        match classified(table, record.annotations) {
            None => Err(ConvertError::BadRank),
            Some(class) => {
                let end = interval_end(record.position, record.reference.len(), class.variety);
                if end < 0 || end > u64::MAX {
                    Err(ConvertError::PositionOutOfRange)
                } else if !valid_utf8(record.chromosome) {
                    Err(ConvertError::InvalidUtf8)
                } else {
                    Ok(
                        candidates_of(
                            record,
                            class,
                            end as u64,
                            record.ids,
                            union(Seq::<Seq<u8>>::empty(), record.alternatives),
                        ),
                    )
                }
            },
        }
    }
}

/// The two variety names that fix an interval's end are different names.
proof fn lemma_variety_names_differ()
    ensures
        literal("SNV").len() == 3,
        literal("insertion").len() == 9,
{
    reveal_strlit("SNV");
    reveal_strlit("insertion");
    vstd::utf8::is_ascii_chars_encode_utf8("SNV"@);
    vstd::utf8::is_ascii_chars_encode_utf8("insertion"@);
}

/// Every candidate of a record starts at the record's position, ends at
/// `end`, has the variety of the classification and holds one allele.
proof fn lemma_candidates_alike(
    record: RecordView,
    class: ClassView,
    end: u64,
    ids: Seq<Seq<u8>>,
    alts: Seq<Seq<u8>>,
)
    ensures
        candidates_of(record, class, end, ids, alts).len() == ids.len() * alts.len(),
        forall|k: int|
            0 <= k < candidates_of(record, class, end, ids, alts).len() ==> {
                let c = #[trigger] candidates_of(record, class, end, ids, alts)[k];
                &&& c.start == record.position
                &&& c.end == end
                &&& c.variety == class.variety
                &&& c.alts.len() == 1
            },
    decreases ids.len(),
{
    if ids.len() > 0 {
        lemma_candidates_alike(record, class, end, ids.drop_last(), alts);
        assert(ids.len() * alts.len() == (ids.len() - 1) * alts.len() + alts.len())
            by (nonlinear_arith);
    }
}

/// The end of a point variant does not depend on the reference allele. Of
/// the candidates that a record gives, a single-nucleotide variant ends
/// where it starts and an insertion ends one base further.
pub proof fn lemma_point_variant_ends(record: RecordView, table: Map<Seq<u8>, Seq<u8>>)
    ensures
        normalized(record, table) matches Ok(lines) ==> forall|k: int|
            0 <= k < lines.len() ==> {
                &&& (#[trigger] lines[k]).variety == literal("SNV") ==> lines[k].end
                    == lines[k].start
                &&& lines[k].variety == literal("insertion") ==> lines[k].end == lines[k].start
                    + 1
            },
{
    lemma_variety_names_differ();
    if let Ok(lines) = normalized(record, table) {
        if lines.len() > 0 {
            let class = classified(table, record.annotations)->0;
            let end = interval_end(record.position, record.reference.len(), class.variety);
            lemma_candidates_alike(
                record,
                class,
                end as u64,
                record.ids,
                union(Seq::<Seq<u8>>::empty(), record.alternatives),
            );
        }
    }
}

/// Whether nothing but the length of its reference allele can keep a record
/// from being converted: its texts are UTF-8, no identifier stands for
/// several, it has annotations, identifiers and alternate alleles, its
/// terms have ranks, and its interval ends within the coordinate type.
pub open spec fn otherwise_fit(record: RecordView, table: Map<Seq<u8>, Seq<u8>>) -> bool {
    &&& valid_utf8(record.chromosome)
    &&& valid_utf8(record.reference)
    &&& all_utf8(record.ids)
    &&& all_utf8(record.alternatives)
    &&& !has_joined_ids(record.ids)
    &&& record.annotations.len() > 0
    &&& record.ids.len() > 0
    &&& record.alternatives.len() > 0
    &&& classified(table, record.annotations) matches Some(class) && 0 <= interval_end(
        record.position,
        record.reference.len(),
        class.variety,
    ) <= u64::MAX
}

/// The longest reference allele. A record that is otherwise fit gives
/// candidates, one for each pair of an identifier and a distinct alternate
/// allele, when its reference allele has up to `LONGEST_REFERENCE` bytes,
/// and gives none when it has more.
pub proof fn lemma_reference_length_rule(record: RecordView, table: Map<Seq<u8>, Seq<u8>>)
    requires
        otherwise_fit(record, table),
    ensures
        normalized(record, table) is Ok,
        record.reference.len() > LONGEST_REFERENCE ==> normalized(record, table)->Ok_0.len() == 0,
        record.reference.len() <= LONGEST_REFERENCE ==> normalized(record, table)->Ok_0.len()
            == record.ids.len() * union(Seq::<Seq<u8>>::empty(), record.alternatives).len()
            && normalized(record, table)->Ok_0.len() >= 1,
{
    if record.reference.len() <= LONGEST_REFERENCE {
        let class = classified(table, record.annotations)->0;
        let end = interval_end(record.position, record.reference.len(), class.variety);
        let distinct = union(Seq::<Seq<u8>>::empty(), record.alternatives);
        lemma_candidates_alike(record, class, end as u64, record.ids, distinct);
        let before = union(Seq::<Seq<u8>>::empty(), record.alternatives.drop_last());
        let last = record.alternatives.last();
        if before.contains(last) {
        } else {
            assert(distinct[before.len() as int] == last);
        }
        assert(distinct.len() >= 1);
        assert(record.ids.len() * distinct.len() >= 1) by (nonlinear_arith)
            requires
                record.ids.len() >= 1,
                distinct.len() >= 1,
        ;
    }
}

/// Every candidate that a record gives holds exactly one allele and starts
/// at the record's position.
pub proof fn lemma_one_allele_each(record: RecordView, table: Map<Seq<u8>, Seq<u8>>)
    ensures
        normalized(record, table) matches Ok(lines) ==> forall|k: int|
            0 <= k < lines.len() ==> (#[trigger] lines[k]).alts.len() == 1 && lines[k].start
                == record.position,
{
    if let Ok(lines) = normalized(record, table) {
        if lines.len() > 0 {
            let class = classified(table, record.annotations)->0;
            let end = interval_end(record.position, record.reference.len(), class.variety);
            lemma_candidates_alike(
                record,
                class,
                end as u64,
                record.ids,
                union(Seq::<Seq<u8>>::empty(), record.alternatives),
            );
        }
    }
}

/// Whether every one of the texts is UTF-8.
fn are_utf8(texts: &Vec<Vec<u8>>) -> (valid: bool)
    ensures
        valid == all_utf8(rows(texts@)),
{
    let mut k: usize = 0;
    while k < texts.len()
        invariant
            0 <= k <= texts@.len(),
            forall|j: int| 0 <= j < k ==> valid_utf8(#[trigger] rows(texts@)[j]),
        decreases texts@.len() - k,
    {
        if !is_utf8(texts[k].as_slice()) {
            assert(!valid_utf8(rows(texts@)[k as int]));
            return false;
        }
        k += 1;
    }
    true
}

/// Whether one of the identifiers stands for several.
fn any_joined(ids: &Vec<Vec<u8>>) -> (found: bool)
    ensures
        found == has_joined_ids(rows(ids@)),
{
    let mut k: usize = 0;
    while k < ids.len()
        invariant
            0 <= k <= ids@.len(),
            forall|j: int| 0 <= j < k ==> !(#[trigger] rows(ids@)[j]).contains(ID_SEPARATOR),
        decreases ids@.len() - k,
    {
        if contains_byte(ids[k].as_slice(), ID_SEPARATOR) {
            assert(rows(ids@)[k as int].contains(ID_SEPARATOR));
            return true;
        }
        k += 1;
    }
    false
}

/// Where an interval ends, when that fits the coordinate type.
fn end_of(position: u64, reference_len: usize, variety: &[u8]) -> (end: Option<u64>)
    ensures
        match end {
            Some(e) => e as int == interval_end(position, reference_len as nat, variety@),
            None => interval_end(position, reference_len as nat, variety@) < 0 || interval_end(
                position,
                reference_len as nat,
                variety@,
            ) > u64::MAX,
        },
{
    if bytes_eq(variety, "SNV".as_bytes()) {
        Some(position)
    } else if bytes_eq(variety, "insertion".as_bytes()) {
        position.checked_add(1)
    } else if reference_len == 0 {
        position.checked_sub(1)
    } else {
        position.checked_add((reference_len - 1) as u64)
    }
}

impl VariantRecord {
    /// One candidate for each pair of an identifier and a distinct alternate
    /// allele, with the classification `class` and the end `end`.
    fn candidates(&self, class: &Classification, end: u64) -> (lines: Vec<Line>)
        ensures
            views(lines@) == candidates_of(
                self@,
                class@,
                end,
                rows(self.ids@),
                union(Seq::<Seq<u8>>::empty(), rows(self.alternatives@)),
            ),
    {
        let mut lines: Vec<Line> = Vec::new();
        assert(views(lines@) =~= Seq::<LineView>::empty());
        let alts: Vec<Vec<u8>> = TextSet::new().extended(&self.alternatives).to_vec();
        let ghost ids = rows(self.ids@);
        let ghost distinct = union(Seq::<Seq<u8>>::empty(), rows(self.alternatives@));
        let mut i: usize = 0;
        assert(ids.take(0) =~= Seq::<Seq<u8>>::empty());
        while i < self.ids.len()
            invariant
                0 <= i <= self.ids@.len(),
                ids == rows(self.ids@),
                distinct == rows(alts@),
                views(lines@) == candidates_of(self@, class@, end, ids.take(i as int), distinct),
            decreases self.ids@.len() - i,
        {
            let id = &self.ids[i];
            let ghost before = views(lines@);
            let ghost here = candidates_for(self@, class@, end, id@, distinct);
            proof {
                let now = ids.take(i + 1);
                assert(now.drop_last() =~= ids.take(i as int));
                assert(now.last() == id@);
                assert(before + here.take(0) =~= before);
            }
            let mut j: usize = 0;
            while j < alts.len()
                invariant
                    0 <= j <= alts@.len(),
                    distinct == rows(alts@),
                    here == candidates_for(self@, class@, end, id@, distinct),
                    views(lines@) == before + here.take(j as int),
                decreases alts@.len() - j,
            {
                let line = Line {
                    chromosome: slice_to_vec(self.chromosome.as_slice()),
                    start: self.position,
                    end,
                    id: slice_to_vec(id.as_slice()),
                    variety: slice_to_vec(class.variety.as_slice()),
                    reference: slice_to_vec(self.reference.as_slice()),
                    alts: TextSet::singleton(slice_to_vec(alts[j].as_slice())),
                    group: class.group,
                    severity: slice_to_vec(class.consequence.as_slice()),
                    severity_rank: class.rank,
                };
                proof {
                    assert(rows(alts@)[j as int] == alts@[j as int]@);
                    assert(line@ == here[j as int]);
                }
                let ghost lines_before = lines@;
                lines.push(line);
                proof {
                    assert(views(lines@) =~= views(lines_before).push(line@));
                    assert(before + here.take(j + 1) =~= (before + here.take(j as int)).push(
                        here[j as int],
                    ));
                }
                j += 1;
            }
            assert(here.take(j as int) =~= here);
            i += 1;
        }
        assert(ids.take(i as int) =~= ids);
        lines
    }

    /// The candidate intervals of this record, in order: for each
    /// identifier in turn, one for each distinct alternate allele. A record
    /// that is skipped gives none.
    pub fn normalize(&self, table: &SeverityTable) -> (found: Result<Vec<Line>, ConvertError>)
        ensures
            match found {
                Ok(lines) => normalized(self@, table@) == Ok::<Seq<LineView>, ConvertError>(
                    views(lines@),
                ),
                Err(e) => normalized(self@, table@) == Err::<Seq<LineView>, ConvertError>(e),
            },
    {
        let skipped: Vec<Line> = Vec::new();
        assert(views(skipped@) =~= Seq::<LineView>::empty());
        if !is_utf8(self.reference.as_slice()) {
            return Err(ConvertError::InvalidUtf8);
        }
        if self.reference.len() > LONGEST_REFERENCE {
            return Ok(skipped);
        }
        if !are_utf8(&self.ids) {
            return Err(ConvertError::InvalidUtf8);
        }
        if any_joined(&self.ids) {
            return Ok(skipped);
        }
        if !are_utf8(&self.alternatives) {
            return Err(ConvertError::InvalidUtf8);
        }
        if self.annotations.len() == 0 || self.ids.len() == 0 || self.alternatives.len() == 0 {
            return Ok(skipped);
        }
        let class: Classification = match classify(&self.annotations, table) {
            Ok(class) => class,
            Err(e) => {
                return Err(e);
            },
        };
        let end: u64 = match end_of(self.position, self.reference.len(), class.variety.as_slice()) {
            Some(end) => end,
            None => {
                return Err(ConvertError::PositionOutOfRange);
            },
        };
        if !is_utf8(self.chromosome.as_slice()) {
            return Err(ConvertError::InvalidUtf8);
        }
        Ok(self.candidates(&class, end))
    }
}

} // verus!
