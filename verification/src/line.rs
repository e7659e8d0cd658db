//! Intervals, how two of them merge, and the line that an interval is
//! written as.

use crate::text::{
    append_bytes, bounded_value, bytes_eq, decimal, join, lemma_decimal_digits,
    lemma_decimal_value, lemma_split_join, parse_unsigned, push_decimal, rows, split,
    split_bytes,
};
use crate::text_set::{lemma_union_of_distinct, union, TextSet};
use vstd::prelude::*;
use vstd::slice::slice_to_vec;

verus! {

/// The rank of an interval for which no consequence is known: the least
/// severe one.
pub const UNRANKED: u8 = 255;

/// The byte between the fields of a line.
pub const FIELD_SEPARATOR: u8 = 32;

/// The byte between the alleles of a line.
pub const ALLELE_SEPARATOR: u8 = 47;

/// The byte that ends a line.
pub const LINE_END: u8 = 10;

/// The number of fields of a line.
pub const FIELD_COUNT: usize = 9;

/// What an interval holds.
pub struct LineView {
    pub chromosome: Seq<u8>,
    pub start: u64,
    pub end: u64,
    pub id: Seq<u8>,
    pub variety: Seq<u8>,
    pub reference: Seq<u8>,
    pub alts: Seq<Seq<u8>>,
    pub group: u8,
    pub severity: Seq<u8>,
    pub severity_rank: u8,
}

impl LineView {
    /// Whether `other` describes the same variant: the same chromosome,
    /// start, variety and reference allele.
    pub open spec fn compatible(self, other: LineView) -> bool {
        &&& self.chromosome == other.chromosome
        &&& self.start == other.start
        &&& self.variety == other.variety
        &&& self.reference == other.reference
    }

    /// Whether `other` repeats this interval's identifier under another
    /// variety.
    pub open spec fn redundant(self, other: LineView) -> bool {
        self.id == other.id && self.variety != other.variety
    }

    /// Whether an interval holds no allele, and so stands for no variant.
    pub open spec fn is_sentinel(self) -> bool {
        self.alts.len() == 0
    }

    /// This interval after it has taken in the compatible interval `more`:
    /// the alleles of both, and the consequence of `more` where that is
    /// strictly more severe. The end and the variety follow a more severe
    /// `more` that reaches further.
    pub open spec fn absorbed(self, more: LineView) -> LineView {
        let better = more.severity_rank < self.severity_rank;
        let longer = better && more.end > self.end;
        LineView {
            chromosome: self.chromosome,
            start: self.start,
            end: if longer {
                more.end
            } else {
                self.end
            },
            id: self.id,
            variety: if longer {
                more.variety
            } else {
                self.variety
            },
            reference: self.reference,
            alts: union(self.alts, more.alts),
            group: if better {
                more.group
            } else {
                self.group
            },
            severity: if better {
                more.severity
            } else {
                self.severity
            },
            severity_rank: if better {
                more.severity_rank
            } else {
                self.severity_rank
            },
        }
    }

    /// Whether this interval stays the current one when `more` arrives:
    /// `more` merges into it or is dropped as redundant.
    pub open spec fn keeps(self, more: Option<LineView>) -> bool {
        match more {
            Some(m) => self.compatible(m) || self.redundant(m),
            None => false,
        }
    }

    /// The current interval after `more` has arrived.
    pub open spec fn merged(self, more: Option<LineView>) -> LineView {
        match more {
            Some(m) => if self.compatible(m) {
                self.absorbed(m)
            } else if self.redundant(m) {
                self
            } else {
                m
            },
            None => self,
        }
    }

    /// The interval that is finished, and has to be written, when `more`
    /// arrives: this one, unless it stays or is a sentinel.
    pub open spec fn flushed(self, more: Option<LineView>) -> Option<LineView> {
        if self.keeps(more) || self.is_sentinel() {
            None
        } else {
            Some(self)
        }
    }

    /// The nine fields of the line.
    pub open spec fn fields(self) -> Seq<Seq<u8>> {
        seq![
            self.chromosome,
            decimal(self.start as nat),
            decimal(self.end as nat),
            self.id,
            self.variety,
            self.reference,
            join(self.alts, ALLELE_SEPARATOR),
            decimal(self.group as nat),
            self.severity,
        ]
    }

    /// The line without its end: the fields with one space between
    /// neighbours.
    pub open spec fn record_text(self) -> Seq<u8> {
        join(self.fields(), FIELD_SEPARATOR)
    }

    /// The line as it is written.
    pub open spec fn line_text(self) -> Seq<u8> {
        self.record_text().push(LINE_END)
    }

    /// Whether no field holds a space and no allele holds a slash, so that
    /// the line can be taken apart again.
    pub open spec fn separable(self) -> bool {
        &&& !self.chromosome.contains(FIELD_SEPARATOR)
        &&& !self.id.contains(FIELD_SEPARATOR)
        &&& !self.variety.contains(FIELD_SEPARATOR)
        &&& !self.reference.contains(FIELD_SEPARATOR)
        &&& !self.severity.contains(FIELD_SEPARATOR)
        &&& forall|k: int|
            0 <= k < self.alts.len() ==> !(#[trigger] self.alts[k]).contains(FIELD_SEPARATOR)
                && !self.alts[k].contains(ALLELE_SEPARATOR)
    }
}

/// The interval that the text of a line describes. The text has nine
/// fields; the second, third and eighth are numbers. A line does not record
/// a severity rank, so the interval is unranked.
pub open spec fn parsed(text: Seq<u8>) -> Option<LineView> {
    let f = split(text, FIELD_SEPARATOR);
    if f.len() != FIELD_COUNT {
        None
    } else {
        match (
            bounded_value(f[1], u64::MAX as nat),
            bounded_value(f[2], u64::MAX as nat),
            bounded_value(f[7], u8::MAX as nat),
        ) {
            (Some(start), Some(end), Some(group)) => Some(
                LineView {
                    chromosome: f[0],
                    start: start as u64,
                    end: end as u64,
                    id: f[3],
                    variety: f[4],
                    reference: f[5],
                    alts: union(Seq::<Seq<u8>>::empty(), split(f[6], ALLELE_SEPARATOR)),
                    group: group as u8,
                    severity: f[8],
                    severity_rank: UNRANKED,
                },
            ),
            _ => None,
        }
    }
}

/// A join is free of a byte that is neither the separator nor in any part.
proof fn lemma_join_free_of(parts: Seq<Seq<u8>>, sep: u8, b: u8)
    requires
        b != sep,
        forall|k: int| 0 <= k < parts.len() ==> !(#[trigger] parts[k]).contains(b),
    ensures
        !join(parts, sep).contains(b),
    decreases parts.len(),
{
    let joined = join(parts, sep);
    if parts.len() >= 2 {
        let front = parts.drop_last();
        assert forall|k: int| 0 <= k < front.len() implies !(#[trigger] front[k]).contains(b) by {
            assert(front[k] == parts[k]);
        }
        lemma_join_free_of(front, sep, b);
        let head = join(front, sep);
        assert forall|j: int| 0 <= j < joined.len() implies joined[j] != b by {
            if j < head.len() {
                assert(head.contains(joined[j]));
            } else if j > head.len() {
                assert(parts.last().contains(joined[j])) by {
                    assert(joined[j] == parts.last()[j - head.len() - 1]);
                }
            }
        }
    }
}

/// A string of digits holds neither a space nor a slash.
proof fn lemma_decimal_free_of(n: nat, b: u8)
    requires
        b == FIELD_SEPARATOR || b == ALLELE_SEPARATOR,
    ensures
        !decimal(n).contains(b),
{
    lemma_decimal_digits(n);
}

/// Reading back what was written. An interval that holds at least one
/// allele, repeats none, and is separable is read from its own line as
/// itself, but for the severity rank, which a line does not record; and
/// writing what was read gives the same line again.
pub proof fn lemma_write_read_write(l: LineView)
    requires
        !l.is_sentinel(),
        l.alts.no_duplicates(),
        l.separable(),
    ensures
        parsed(l.record_text()) == Some(LineView { severity_rank: UNRANKED, ..l }),
        parsed(l.record_text()).unwrap().line_text() == l.line_text(),
{
    let f = l.fields();
    lemma_decimal_free_of(l.start as nat, FIELD_SEPARATOR);
    lemma_decimal_free_of(l.end as nat, FIELD_SEPARATOR);
    lemma_decimal_free_of(l.group as nat, FIELD_SEPARATOR);
    lemma_join_free_of(l.alts, ALLELE_SEPARATOR, FIELD_SEPARATOR);
    assert forall|k: int| 0 <= k < f.len() implies !(#[trigger] f[k]).contains(FIELD_SEPARATOR) by {
    }
    lemma_split_join(f, FIELD_SEPARATOR);
    lemma_decimal_value(l.start as nat);
    lemma_decimal_value(l.end as nat);
    lemma_decimal_value(l.group as nat);
    lemma_split_join(l.alts, ALLELE_SEPARATOR);
    lemma_union_of_distinct(l.alts);
    let again = LineView { severity_rank: UNRANKED, ..l };
    assert(again.fields() =~= f);
}

/// What an optional interval holds.
pub open spec fn view_of(line: Option<Line>) -> Option<LineView> {
    match line {
        Some(l) => Some(l@),
        None => None,
    }
}

/// The views of a list of intervals.
pub open spec fn views(lines: Seq<Line>) -> Seq<LineView> {
    lines.map_values(|l: Line| l@)
}

/// An interval of the output: a variant's position, its alleles and its most
/// severe consequence.
#[derive(Debug)]
pub struct Line {
    pub chromosome: Vec<u8>,
    pub start: u64,
    pub end: u64,
    pub id: Vec<u8>,
    pub variety: Vec<u8>,
    pub reference: Vec<u8>,
    pub alts: TextSet,
    pub group: u8,
    pub severity: Vec<u8>,
    pub severity_rank: u8,
}

impl View for Line {
    type V = LineView;

    open spec fn view(&self) -> LineView {
        LineView {
            chromosome: self.chromosome@,
            start: self.start,
            end: self.end,
            id: self.id@,
            variety: self.variety@,
            reference: self.reference@,
            alts: self.alts@,
            group: self.group,
            severity: self.severity@,
            severity_rank: self.severity_rank,
        }
    }
}

/// Appends one more field to a line under construction.
fn push_field(out: &mut Vec<u8>, field: &[u8], Ghost(done): Ghost<Seq<Seq<u8>>>)
    requires
        done.len() >= 1,
        old(out)@ == join(done, FIELD_SEPARATOR),
    ensures
        final(out)@ == join(done.push(field@), FIELD_SEPARATOR),
{
    out.push(FIELD_SEPARATOR);
    append_bytes(out, field);
    assert(done.push(field@).drop_last() =~= done);
}

/// Appends a number as one more field to a line under construction.
fn push_number(out: &mut Vec<u8>, n: u64, Ghost(done): Ghost<Seq<Seq<u8>>>)
    requires
        done.len() >= 1,
        old(out)@ == join(done, FIELD_SEPARATOR),
    ensures
        final(out)@ == join(done.push(decimal(n as nat)), FIELD_SEPARATOR),
{
    out.push(FIELD_SEPARATOR);
    push_decimal(out, n);
    assert(done.push(decimal(n as nat)).drop_last() =~= done);
}

impl Line {
    /// Whether `other` describes the same variant as this interval.
    pub fn compatible(&self, other: &Line) -> (same: bool)
        ensures
            same == self@.compatible(other@),
    {
        bytes_eq(self.chromosome.as_slice(), other.chromosome.as_slice()) && self.start
            == other.start && bytes_eq(self.variety.as_slice(), other.variety.as_slice())
            && bytes_eq(self.reference.as_slice(), other.reference.as_slice())
    }

    /// Whether `other` repeats this interval's identifier under another
    /// variety.
    pub fn redundant(&self, other: &Line) -> (repeated: bool)
        ensures
            repeated == self@.redundant(other@),
    {
        bytes_eq(self.id.as_slice(), other.id.as_slice()) && !bytes_eq(
            self.variety.as_slice(),
            other.variety.as_slice(),
        )
    }

    /// Takes in the next interval of the stream, or the end of the stream
    /// when `more` is `None`, and returns the line to write, if one is due.
    ///
    /// A compatible interval is merged into this one and a redundant one is
    /// dropped; neither writes anything. Any other interval, and the end of
    /// the stream, finish this interval: its line is returned, unless it is
    /// a sentinel, and the new interval takes its place.
    pub fn merge(&mut self, more: Option<Line>) -> (written: Option<Vec<u8>>)
        ensures
            final(self)@ == old(self)@.merged(view_of(more)),
            match written {
                Some(bytes) => old(self)@.flushed(view_of(more)) == Some(old(self)@)
                    && bytes@ == old(self)@.line_text(),
                None => old(self)@.flushed(view_of(more)) is None,
            },
    {
        match more {
            Some(more) => {
                if self.compatible(&more) {
                    let mut alts = TextSet::new();
                    core::mem::swap(&mut self.alts, &mut alts);
                    self.alts = alts.union(&more.alts);
                    if more.severity_rank < self.severity_rank {
                        if more.end > self.end {
                            self.end = more.end;
                            self.variety = more.variety;
                        }
                        self.group = more.group;
                        self.severity = more.severity;
                        self.severity_rank = more.severity_rank;
                    }
                    return None;
                }
                if self.redundant(&more) {
                    return None;
                }
                let written = self.emit();
                *self = more;
                written
            },
            None => self.emit(),
        }
    }

    /// Whether this interval holds no allele, and so stands for no variant.
    pub fn is_sentinel(&self) -> (empty: bool)
        ensures
            empty == self@.is_sentinel(),
    {
        self.alts.is_empty()
    }

    /// The line that this interval is written as; `None` for a sentinel,
    /// which is never written.
    pub fn emit(&self) -> (written: Option<Vec<u8>>)
        ensures
            match written {
                Some(bytes) => !self@.is_sentinel() && bytes@ == self@.line_text(),
                None => self@.is_sentinel(),
            },
    {
        if self.is_sentinel() {
            return None;
        }
        let mut out: Vec<u8> = slice_to_vec(self.chromosome.as_slice());
        let ghost f = self@.fields();
        assert(f.take(1) =~= seq![self.chromosome@]);
        push_number(&mut out, self.start, Ghost(f.take(1)));
        assert(f.take(1).push(f[1]) =~= f.take(2));
        push_number(&mut out, self.end, Ghost(f.take(2)));
        assert(f.take(2).push(f[2]) =~= f.take(3));
        push_field(&mut out, self.id.as_slice(), Ghost(f.take(3)));
        assert(f.take(3).push(f[3]) =~= f.take(4));
        push_field(&mut out, self.variety.as_slice(), Ghost(f.take(4)));
        assert(f.take(4).push(f[4]) =~= f.take(5));
        push_field(&mut out, self.reference.as_slice(), Ghost(f.take(5)));
        assert(f.take(5).push(f[5]) =~= f.take(6));
        let alleles = self.alts.joined(ALLELE_SEPARATOR);
        push_field(&mut out, alleles.as_slice(), Ghost(f.take(6)));
        assert(f.take(6).push(f[6]) =~= f.take(7));
        push_number(&mut out, self.group as u64, Ghost(f.take(7)));
        assert(f.take(7).push(f[7]) =~= f.take(8));
        push_field(&mut out, self.severity.as_slice(), Ghost(f.take(8)));
        assert(f.take(8).push(f[8]) =~= f);
        out.push(LINE_END);
        Some(out)
    }

    /// Reads an interval from the text of a line, without the line's end.
    pub fn parse(text: &[u8]) -> (line: Option<Line>)
        ensures
            view_of(line) == parsed(text@),
    {
        let parts = split_bytes(text, FIELD_SEPARATOR);
        if parts.len() != FIELD_COUNT {
            return None;
        }
        let ghost f = split(text@, FIELD_SEPARATOR);
        proof {
            assert forall|k: int| 0 <= k < 9 implies f[k] == (#[trigger] parts@[k])@ by {
                assert(rows(parts@)[k] == parts@[k]@);
            }
        }
        let start = parse_unsigned(parts[1].as_slice(), u64::MAX);
        let end = parse_unsigned(parts[2].as_slice(), u64::MAX);
        let group = parse_unsigned(parts[7].as_slice(), u8::MAX as u64);
        match (start, end, group) {
            (Some(start), Some(end), Some(group)) => {
                let alleles = split_bytes(parts[6].as_slice(), ALLELE_SEPARATOR);
                Some(
                    Line {
                        chromosome: slice_to_vec(parts[0].as_slice()),
                        start,
                        end,
                        id: slice_to_vec(parts[3].as_slice()),
                        variety: slice_to_vec(parts[4].as_slice()),
                        reference: slice_to_vec(parts[5].as_slice()),
                        alts: TextSet::new().extended(&alleles),
                        group: group as u8,
                        severity: slice_to_vec(parts[8].as_slice()),
                        severity_rank: UNRANKED,
                    },
                )
            },
            _ => None,
        }
    }
}

} // verus!
