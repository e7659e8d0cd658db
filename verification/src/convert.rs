//! A whole conversion at once, for records that are all at hand.

use crate::accumulator::{
    converted, flushed_during, lemma_lines_text_concat, lemma_stream_in_parts, lines_text,
    state_after, Accumulator,
};
use crate::error::ConvertError;
use crate::line::LineView;
use crate::record::{normalized, RecordView, VariantRecord};
use crate::severity::SeverityTable;
use crate::text::append_bytes;
use vstd::prelude::*;

verus! {

/// The views of a list of records.
pub open spec fn record_views(records: Seq<VariantRecord>) -> Seq<RecordView> {
    records.map_values(|r: VariantRecord| r@)
}

/// The candidates of all the records, in order; or the error of the first
/// record that cannot be converted.
pub open spec fn candidates_of_all(
    records: Seq<RecordView>,
    table: Map<Seq<u8>, Seq<u8>>,
) -> Result<Seq<LineView>, ConvertError>
    decreases records.len(),
{
    if records.len() == 0 {
        Ok(Seq::<LineView>::empty())
    } else {
        match candidates_of_all(records.drop_last(), table) {
            Ok(earlier) => match normalized(records.last(), table) {
                Ok(more) => Ok(earlier + more),
                Err(e) => Err(e),
            },
            Err(e) => Err(e),
        }
    }
}

/// An error among the first `n` records is the error of all the records.
proof fn lemma_first_error_stands(records: Seq<RecordView>, table: Map<Seq<u8>, Seq<u8>>, n: int)
    requires
        0 <= n <= records.len(),
        candidates_of_all(records.take(n), table) is Err,
    ensures
        candidates_of_all(records, table) == candidates_of_all(records.take(n), table),
    decreases records.len(),
{
    if n == records.len() {
        assert(records.take(n) =~= records);
    } else {
        assert(records.drop_last().take(n) =~= records.take(n));
        lemma_first_error_stands(records.drop_last(), table, n);
    }
}

/// Converts the records, in order, and returns all the lines: those of the
/// intervals finished on the way, then that of the interval still open at
/// the end. The first record that cannot be converted fails the
/// conversion.
pub fn convert_all(records: &Vec<VariantRecord>, table: &SeverityTable) -> (written: Result<
    Vec<u8>,
    ConvertError,
>)
    ensures
        match written {
            Ok(bytes) => candidates_of_all(record_views(records@), table@) is Ok && bytes@
                == lines_text(converted(candidates_of_all(record_views(records@), table@)->Ok_0)),
            Err(e) => candidates_of_all(record_views(records@), table@) == Err::<
                Seq<LineView>,
                ConvertError,
            >(e),
        },
{
    let ghost all = record_views(records@);
    let mut acc = Accumulator::new();
    let mut out: Vec<u8> = Vec::new();
    let mut k: usize = 0;
    assert(all.take(0) =~= Seq::<RecordView>::empty());
    while k < records.len()
        invariant
            0 <= k <= records@.len(),
            all == record_views(records@),
            candidates_of_all(all.take(k as int), table@) is Ok,
            acc@ == state_after(None, candidates_of_all(all.take(k as int), table@)->Ok_0),
            out@ == lines_text(
                flushed_during(None, candidates_of_all(all.take(k as int), table@)->Ok_0),
            ),
        decreases records@.len() - k,
    {
        let ghost earlier = candidates_of_all(all.take(k as int), table@)->Ok_0;
        proof {
            let now = all.take(k + 1);
            assert(now.drop_last() =~= all.take(k as int));
            assert(now.last() == records@[k as int]@);
        }
        match acc.convert(&records[k], table) {
            Ok(bytes) => {
                append_bytes(&mut out, bytes.as_slice());
                proof {
                    let more = normalized(records@[k as int]@, table@)->Ok_0;
                    lemma_stream_in_parts(None, earlier, more);
                    lemma_lines_text_concat(
                        flushed_during(None, earlier),
                        flushed_during(state_after(None, earlier), more),
                    );
                }
            },
            Err(e) => {
                proof {
                    lemma_first_error_stands(all, table@, k + 1);
                }
                return Err(e);
            },
        }
        k += 1;
    }
    assert(all.take(k as int) =~= all);
    let ghost candidates = candidates_of_all(all, table@)->Ok_0;
    match acc.finish() {
        Some(line) => {
            append_bytes(&mut out, line.as_slice());
            assert(converted(candidates).drop_last() =~= flushed_during(None, candidates));
        },
        None => {},
    }
    Ok(out)
}

} // verus!
