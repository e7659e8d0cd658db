//! The streaming merge: one open interval, into which the candidates are
//! folded in the order in which they arrive.
//!
//! The merge keeps nothing but the open interval and never looks back. The
//! candidates of one variant have to arrive one after another, as they do
//! when the records are sorted by position; candidates of one variant that
//! arrive apart give one line for each run.

use crate::error::ConvertError;
use crate::line::{view_of, views, Line, LineView};
use crate::record::{normalized, VariantRecord};
use crate::severity::SeverityTable;
use crate::source::vcf_view;
use crate::text::append_bytes;
use crate::text_set::lemma_union_members;
use vstd::prelude::*;

verus! {

/// The current interval after the candidate `c` has arrived.
pub open spec fn next_state(state: Option<LineView>, c: LineView) -> Option<LineView> {
    match state {
        Some(current) => Some(current.merged(Some(c))),
        None => Some(c),
    }
}

/// The interval that the arrival of the candidate `c` finishes, if any.
pub open spec fn next_flushed(state: Option<LineView>, c: LineView) -> Option<LineView> {
    match state {
        Some(current) => current.flushed(Some(c)),
        None => None,
    }
}

/// The interval that the end of the stream finishes, if any.
pub open spec fn last_flushed(state: Option<LineView>) -> Option<LineView> {
    match state {
        Some(current) => current.flushed(None),
        None => None,
    }
}

/// The current interval after the candidates have arrived, one by one.
pub open spec fn state_after(start: Option<LineView>, candidates: Seq<LineView>) -> Option<
    LineView,
>
    decreases candidates.len(),
{
    if candidates.len() == 0 {
        start
    } else {
        next_state(state_after(start, candidates.drop_last()), candidates.last())
    }
}

/// The intervals that the candidates finish as they arrive, in the order in
/// which they are finished.
pub open spec fn flushed_during(start: Option<LineView>, candidates: Seq<LineView>) -> Seq<
    LineView,
>
    decreases candidates.len(),
{
    if candidates.len() == 0 {
        Seq::<LineView>::empty()
    } else {
        let earlier = flushed_during(start, candidates.drop_last());
        match next_flushed(state_after(start, candidates.drop_last()), candidates.last()) {
            Some(line) => earlier.push(line),
            None => earlier,
        }
    }
}

/// The intervals that a whole stream of candidates gives: those finished on
/// the way, then the one that the end of the stream finishes.
pub open spec fn converted(candidates: Seq<LineView>) -> Seq<LineView> {
    let earlier = flushed_during(None, candidates);
    match last_flushed(state_after(None, candidates)) {
        Some(line) => earlier.push(line),
        None => earlier,
    }
}

/// The lines of the intervals, one after another.
pub open spec fn lines_text(lines: Seq<LineView>) -> Seq<u8>
    decreases lines.len(),
{
    if lines.len() == 0 {
        Seq::<u8>::empty()
    } else {
        lines_text(lines.drop_last()) + lines.last().line_text()
    }
}

/// Whether `bytes` is what has to be written for `flushed`: its line, or
/// nothing.
pub open spec fn writes(bytes: Option<Vec<u8>>, flushed: Option<LineView>) -> bool {
    match bytes {
        Some(b) => flushed is Some && b@ == flushed->0.line_text(),
        None => flushed is None,
    }
}

/// Every allele that some candidate holds.
pub open spec fn all_alleles(candidates: Seq<LineView>) -> Set<Seq<u8>> {
    Set::new(
        |a: Seq<u8>|
            exists|i: int| 0 <= i < candidates.len() && (#[trigger] candidates[i]).alts.contains(a),
    )
}

/// Whether candidate `k` has the lowest severity rank of all and is the
/// first to have it.
pub open spec fn first_most_severe(candidates: Seq<LineView>, k: int) -> bool {
    &&& 0 <= k < candidates.len()
    &&& forall|j: int|
        0 <= j < candidates.len() ==> candidates[k].severity_rank <= (
        #[trigger] candidates[j]).severity_rank
    &&& forall|j: int|
        0 <= j < k ==> candidates[k].severity_rank < (#[trigger] candidates[j]).severity_rank
}

/// One variant gives one line. When every candidate of a stream is
/// compatible with the first and holds an allele, nothing is written before
/// the stream ends, and its end writes a single interval: it holds exactly
/// the alleles of all the candidates, and its consequence, group and rank
/// are those of the first candidate with the lowest rank.
pub proof fn lemma_one_variant_one_line(candidates: Seq<LineView>)
    requires
        candidates.len() >= 1,
        forall|i: int|
            0 <= i < candidates.len() ==> candidates[0].compatible(#[trigger] candidates[i])
                && !candidates[i].is_sentinel(),
    ensures
        flushed_during(None, candidates) == Seq::<LineView>::empty(),
        state_after(None, candidates) is Some,
        converted(candidates) == seq![state_after(None, candidates)->0],
        ({
            let merged = state_after(None, candidates)->0;
            &&& merged.compatible(candidates[0])
            &&& !merged.is_sentinel()
            &&& merged.id == candidates[0].id
            &&& merged.alts.to_set() == all_alleles(candidates)
            &&& exists|k: int|
                first_most_severe(candidates, k) && merged.severity
                    == (#[trigger] candidates[k]).severity && merged.group == candidates[k].group
                    && merged.severity_rank == candidates[k].severity_rank
        }),
    decreases candidates.len(),
{
    let first = candidates[0];
    let last = candidates.last();
    let front = candidates.drop_last();
    if candidates.len() == 1 {
        assert(front =~= Seq::<LineView>::empty());
        assert(state_after(None, candidates) == Some(first));
        assert(first.alts.to_set() =~= all_alleles(candidates)) by {
            assert forall|a: Seq<u8>| first.alts.contains(a) implies all_alleles(
                candidates,
            ).contains(a) by {
                assert(candidates[0].alts.contains(a));
            }
        }
        assert(first_most_severe(candidates, 0));
        assert(flushed_during(None, front) =~= Seq::<LineView>::empty());
        assert(flushed_during(None, candidates) =~= Seq::<LineView>::empty());
        assert(converted(candidates) =~= seq![first]);
    } else {
        assert forall|i: int| 0 <= i < front.len() implies front[0].compatible(#[trigger] front[i])
            && !front[i].is_sentinel() by {
            assert(front[i] == candidates[i]);
        }
        lemma_one_variant_one_line(front);
        let before = state_after(None, front)->0;
        let merged = before.absorbed(last);
        assert(before.compatible(last));
        assert(state_after(None, candidates) == Some(merged));
        lemma_union_members(before.alts, last.alts);
        assert(merged.alts.to_set() =~= all_alleles(candidates)) by {
            assert forall|a: Seq<u8>| merged.alts.to_set().contains(a) implies all_alleles(
                candidates,
            ).contains(a) by {
                if before.alts.to_set().contains(a) {
                    let i = choose|i: int|
                        0 <= i < front.len() && (#[trigger] front[i]).alts.contains(a);
                    assert(candidates[i].alts.contains(a));
                } else {
                    assert(candidates[candidates.len() - 1].alts.contains(a));
                }
            }
            assert forall|a: Seq<u8>|
                all_alleles(candidates).contains(a) implies merged.alts.to_set().contains(a) by {
                let i = choose|i: int|
                    0 <= i < candidates.len() && (#[trigger] candidates[i]).alts.contains(a);
                if i < front.len() {
                    assert(front[i].alts.contains(a));
                    assert(all_alleles(front).contains(a));
                } else {
                    assert(last.alts.to_set().contains(a));
                }
            }
        }
        let k0 = choose|k: int|
            first_most_severe(front, k) && before.severity == (#[trigger] front[k]).severity
                && before.group == front[k].group && before.severity_rank
                == front[k].severity_rank;
        let k = if last.severity_rank < before.severity_rank {
            candidates.len() - 1
        } else {
            k0
        };
        assert(first_most_severe(candidates, k)) by {
            assert forall|j: int| 0 <= j < candidates.len() implies candidates[k].severity_rank <= (
            #[trigger] candidates[j]).severity_rank by {
                if j < front.len() {
                    assert(front[j] == candidates[j]);
                }
            }
            assert forall|j: int| 0 <= j < k implies candidates[k].severity_rank < (
            #[trigger] candidates[j]).severity_rank by {
                assert(front[j] == candidates[j]);
            }
        }
        assert(merged.severity == candidates[k].severity);
        assert(flushed_during(None, candidates) =~= Seq::<LineView>::empty());
        assert(converted(candidates) =~= seq![merged]);
    }
}

/// Nothing that was written is taken back or moved: the intervals finished
/// by the first `n` candidates of a stream are the first of those finished
/// by the whole stream.
pub proof fn lemma_written_in_order(candidates: Seq<LineView>, n: int)
    requires
        0 <= n <= candidates.len(),
    ensures
        flushed_during(None, candidates.take(n)).len() <= flushed_during(None, candidates).len(),
        flushed_during(None, candidates).take(
            flushed_during(None, candidates.take(n)).len() as int,
        ) == flushed_during(None, candidates.take(n)),
    decreases candidates.len(),
{
    let whole = flushed_during(None, candidates);
    if n == candidates.len() {
        assert(candidates.take(n) =~= candidates);
        assert(whole.take(whole.len() as int) =~= whole);
    } else {
        let front = candidates.drop_last();
        lemma_written_in_order(front, n);
        assert(front.take(n) =~= candidates.take(n));
        let part = flushed_during(None, candidates.take(n));
        assert(whole.take(part.len() as int) =~= flushed_during(None, front).take(
            part.len() as int,
        ));
    }
}

/// After at least one candidate an interval is open, and it holds an allele
/// if every candidate does.
pub proof fn lemma_open_interval(candidates: Seq<LineView>)
    requires
        candidates.len() >= 1,
        forall|j: int| 0 <= j < candidates.len() ==> !(#[trigger] candidates[j]).is_sentinel(),
    ensures
        state_after(None, candidates) is Some,
        !state_after(None, candidates)->0.is_sentinel(),
    decreases candidates.len(),
{
    let front = candidates.drop_last();
    if front.len() >= 1 {
        assert forall|j: int| 0 <= j < front.len() implies !(#[trigger] front[j]).is_sentinel() by {
            assert(front[j] == candidates[j]);
        }
        lemma_open_interval(front);
        let before = state_after(None, front)->0;
        lemma_union_members(before.alts, candidates.last().alts);
    }
}

/// A new variant finishes the one before it. Take two neighbours in a
/// stream of candidates that each hold an allele, candidates `i` and
/// `i + 1`, that are not compatible. If the open interval after candidate
/// `i` is the one that candidate `i` belongs to, and candidate `i + 1` does
/// not repeat its identifier under another variety, then the arrival of
/// candidate `i + 1` finishes that interval, as the next one to be written,
/// and candidate `i + 1` opens the next.
pub proof fn lemma_new_variant_flushes(candidates: Seq<LineView>, i: int)
    requires
        0 <= i,
        i + 1 < candidates.len(),
        forall|j: int| 0 <= j < candidates.len() ==> !(#[trigger] candidates[j]).is_sentinel(),
        !candidates[i].compatible(candidates[i + 1]),
        state_after(None, candidates.take(i + 1))->0.compatible(candidates[i]),
        !state_after(None, candidates.take(i + 1))->0.redundant(candidates[i + 1]),
    ensures
        state_after(None, candidates.take(i + 1)) is Some,
        flushed_during(None, candidates.take(i + 2)) == flushed_during(
            None,
            candidates.take(i + 1),
        ).push(state_after(None, candidates.take(i + 1))->0),
        state_after(None, candidates.take(i + 2)) == Some(candidates[i + 1]),
{
    let upto = candidates.take(i + 2);
    let before = candidates.take(i + 1);
    assert(upto.drop_last() =~= before);
    assert(upto.last() == candidates[i + 1]);
    assert forall|j: int| 0 <= j < before.len() implies !(#[trigger] before[j]).is_sentinel() by {
        assert(before[j] == candidates[j]);
    }
    lemma_open_interval(before);
}

/// A sentinel is never written: every interval that a stream finishes,
/// on the way or at its end, holds an allele.
pub proof fn lemma_no_sentinel_written(start: Option<LineView>, candidates: Seq<LineView>)
    ensures
        forall|k: int|
            0 <= k < flushed_during(start, candidates).len() ==> !(#[trigger] flushed_during(
                start,
                candidates,
            )[k]).is_sentinel(),
        last_flushed(state_after(start, candidates)) matches Some(line) ==> !line.is_sentinel(),
    decreases candidates.len(),
{
    if candidates.len() > 0 {
        let front = candidates.drop_last();
        lemma_no_sentinel_written(start, front);
        let earlier = flushed_during(start, front);
        let all = flushed_during(start, candidates);
        assert forall|k: int| 0 <= k < all.len() implies !(#[trigger] all[k]).is_sentinel() by {
            if k < earlier.len() {
                assert(all[k] == earlier[k]);
            }
        }
    }
}

/// The lines of two lists of intervals, one list after the other, are the
/// lines of the first followed by the lines of the second.
pub proof fn lemma_lines_text_concat(a: Seq<LineView>, b: Seq<LineView>)
    ensures
        lines_text(a + b) == lines_text(a) + lines_text(b),
    decreases b.len(),
{
    if b.len() == 0 {
        assert(a + b =~= a);
        assert(lines_text(a) + lines_text(b) =~= lines_text(a));
    } else {
        lemma_lines_text_concat(a, b.drop_last());
        assert((a + b).drop_last() =~= a + b.drop_last());
        assert(lines_text(a + b) =~= lines_text(a) + lines_text(b));
    }
}

/// A stream may be taken in parts. Taking in `a` and then `b` leaves the
/// same interval open, and writes the same intervals in the same order, as
/// taking in the whole of `a + b` at once.
pub proof fn lemma_stream_in_parts(start: Option<LineView>, a: Seq<LineView>, b: Seq<LineView>)
    ensures
        state_after(start, a + b) == state_after(state_after(start, a), b),
        flushed_during(start, a + b) == flushed_during(start, a) + flushed_during(
            state_after(start, a),
            b,
        ),
    decreases b.len(),
{
    if b.len() == 0 {
        assert(a + b =~= a);
        assert(flushed_during(start, a) + flushed_during(state_after(start, a), b)
            =~= flushed_during(start, a));
    } else {
        lemma_stream_in_parts(start, a, b.drop_last());
        assert((a + b).drop_last() =~= a + b.drop_last());
        assert((a + b).last() == b.last());
        assert(flushed_during(start, a + b) =~= flushed_during(start, a) + flushed_during(
            state_after(start, a),
            b,
        ));
    }
}

/// The state of a conversion: the interval that is still open, if any.
/// At the start of a stream none is; the first candidate opens one.
#[derive(Debug)]
pub struct Accumulator {
    current: Option<Line>,
}

impl View for Accumulator {
    type V = Option<LineView>;

    closed spec fn view(&self) -> Option<LineView> {
        view_of(self.current)
    }
}

impl Accumulator {
    /// The state at the start of a stream: no interval is open.
    pub fn new() -> (acc: Accumulator)
        ensures
            acc@ is None,
    {
        Accumulator { current: None }
    }

    /// The interval that is open, if any.
    pub fn current(&self) -> (line: Option<&Line>)
        ensures
            match line {
                Some(l) => self@ == Some(l@),
                None => self@ is None,
            },
    {
        self.current.as_ref()
    }

    /// Takes in the next candidate and returns the line to write, if the
    /// candidate finishes the open interval.
    pub fn fold(&mut self, candidate: Line) -> (written: Option<Vec<u8>>)
        ensures
            final(self)@ == next_state(old(self)@, candidate@),
            writes(written, next_flushed(old(self)@, candidate@)),
    {
        match self.current.take() {
            Some(mut current) => {
                let written = current.merge(Some(candidate));
                self.current = Some(current);
                written
            },
            None => {
                self.current = Some(candidate);
                None
            },
        }
    }

    /// Ends the stream: returns the line of the open interval, if there is
    /// one to write, and leaves no interval open.
    pub fn finish(&mut self) -> (written: Option<Vec<u8>>)
        ensures
            final(self)@ is None,
            writes(written, last_flushed(old(self)@)),
    {
        match self.current.take() {
            Some(mut current) => current.merge(None),
            None => None,
        }
    }

    /// Takes in the candidates in order and returns the lines to write, one
    /// after another.
    pub fn fold_all(&mut self, candidates: Vec<Line>) -> (written: Vec<u8>)
        ensures
            final(self)@ == state_after(old(self)@, views(candidates@)),
            written@ == lines_text(flushed_during(old(self)@, views(candidates@))),
    {
        let mut written: Vec<u8> = Vec::new();
        let ghost all = views(candidates@);
        let ghost start = self@;
        assert(all.take(0) =~= Seq::<LineView>::empty());
        for candidate in it: candidates
            invariant
                all == views(candidates@),
                it.seq() == candidates@,
                self@ == state_after(start, all.take(it.index() as int)),
                written@ == lines_text(flushed_during(start, all.take(it.index() as int))),
        {
            let ghost k = it.index() as int;
            proof {
                let now = all.take(k + 1);
                assert(now.drop_last() =~= all.take(k));
                assert(now.last() == candidate@);
            }
            match self.fold(candidate) {
                Some(line) => {
                    append_bytes(&mut written, line.as_slice());
                    proof {
                        let lines = flushed_during(start, all.take(k + 1));
                        assert(lines.drop_last() =~= flushed_during(start, all.take(k)));
                    }
                },
                None => {},
            }
        }
        assert(all.take(all.len() as int) =~= all);
        written
    }

    /// Takes in one record: folds its candidates in, in order, and returns
    /// the lines to write. A record that cannot be converted changes
    /// nothing.
    pub fn convert(&mut self, record: &VariantRecord, table: &SeverityTable) -> (written: Result<
        Vec<u8>,
        ConvertError,
    >)
        ensures
            match written {
                Ok(bytes) => normalized(record@, table@) is Ok && final(self)@ == state_after(
                    old(self)@,
                    normalized(record@, table@)->Ok_0,
                ) && bytes@ == lines_text(
                    flushed_during(old(self)@, normalized(record@, table@)->Ok_0),
                ),
                Err(e) => normalized(record@, table@) == Err::<Seq<LineView>, ConvertError>(e)
                    && final(self)@ == old(self)@,
            },
    {
        match record.normalize(table) {
            Ok(candidates) => Ok(self.fold_all(candidates)),
            Err(e) => Err(e),
        }
    }

    /// Takes in one record as the `vcf` crate read it.
    pub fn convert_vcf(&mut self, record: &vcf::VCFRecord, table: &SeverityTable) -> (written:
        Result<Vec<u8>, ConvertError>)
        ensures
            match written {
                Ok(bytes) => normalized(vcf_view(*record), table@) is Ok && final(self)@
                    == state_after(old(self)@, normalized(vcf_view(*record), table@)->Ok_0)
                    && bytes@ == lines_text(
                    flushed_during(old(self)@, normalized(vcf_view(*record), table@)->Ok_0),
                ),
                Err(e) => normalized(vcf_view(*record), table@) == Err::<
                    Seq<LineView>,
                    ConvertError,
                >(e) && final(self)@ == old(self)@,
            },
    {
        let plain = VariantRecord::from_vcf(record);
        self.convert(&plain, table)
    }
}

} // verus!
