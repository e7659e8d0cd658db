//! The union of converted files: of all the lines that carry one
//! identifier, only the first is kept.

use crate::line::{FIELD_COUNT, FIELD_SEPARATOR, LINE_END};
use crate::text::{join, join_bytes, lemma_join_split, rows, split, split_bytes};
use crate::text_index::TextIndex;
use vstd::prelude::*;
use vstd::slice::{slice_subrange, slice_to_vec};

verus! {

/// The field of a line that holds the identifier.
pub const ID_FIELD: usize = 3;

/// The identifier of a line.
pub open spec fn id_of(line: Seq<u8>) -> Seq<u8> {
    split(line, FIELD_SEPARATOR)[ID_FIELD as int]
}

/// A line as it is kept: its first nine fields, and the line's end.
pub open spec fn kept_text(line: Seq<u8>) -> Seq<u8> {
    join(split(line, FIELD_SEPARATOR).take(FIELD_COUNT as int), FIELD_SEPARATOR).push(LINE_END)
}

/// Whether a line is too short to be looked at: it has no identifier, or
/// its identifier is new and it lacks one of the nine fields.
pub open spec fn too_short(seen: Set<Seq<u8>>, line: Seq<u8>) -> bool {
    let fields = split(line, FIELD_SEPARATOR);
    fields.len() <= ID_FIELD || (!seen.contains(id_of(line)) && fields.len() < FIELD_COUNT)
}

/// A line of exactly nine fields is kept as it is.
pub proof fn lemma_whole_line_kept(line: Seq<u8>)
    requires
        split(line, FIELD_SEPARATOR).len() == FIELD_COUNT,
    ensures
        kept_text(line) == line.push(LINE_END),
{
    let fields = split(line, FIELD_SEPARATOR);
    assert(fields.take(FIELD_COUNT as int) =~= fields);
    lemma_join_split(line, FIELD_SEPARATOR);
}

/// A line that has too few fields.
#[derive(Debug, Clone, Copy, PartialEq, Eq)]
pub struct ShortLine;

/// The identifiers of the lines kept so far.
#[derive(Debug)]
pub struct SeenIds {
    ids: TextIndex,
}

impl View for SeenIds {
    type V = Set<Seq<u8>>;

    closed spec fn view(&self) -> Set<Seq<u8>> {
        self.ids@
    }
}

impl SeenIds {
    /// No line has been kept yet.
    pub fn new() -> (seen: SeenIds)
        ensures
            seen@ == Set::<Seq<u8>>::empty(),
    {
        SeenIds { ids: TextIndex::new() }
    }

    /// Whether a line with the identifier `id` has been kept.
    pub fn contains(&self, id: &[u8]) -> (found: bool)
        ensures
            found == self@.contains(id@),
    {
        self.ids.contains(id)
    }

    /// Looks at the next line, given without its end. A line whose
    /// identifier is new is kept: its text is returned and its identifier
    /// remembered. A line whose identifier was seen before is dropped.
    pub fn offer(&mut self, line: &[u8]) -> (kept: Result<Option<Vec<u8>>, ShortLine>)
        ensures
            match kept {
                Ok(Some(bytes)) => !too_short(old(self)@, line@) && !old(self)@.contains(
                    id_of(line@),
                ) && bytes@ == kept_text(line@) && final(self)@ == old(self)@.insert(
                    id_of(line@),
                ),
                Ok(None) => !too_short(old(self)@, line@) && old(self)@.contains(id_of(line@))
                    && final(self)@ == old(self)@,
                Err(_) => too_short(old(self)@, line@) && final(self)@ == old(self)@,
            },
    {
        let fields = split_bytes(line, FIELD_SEPARATOR);
        if fields.len() <= ID_FIELD {
            return Err(ShortLine);
        }
        assert(rows(fields@)[ID_FIELD as int] == fields@[ID_FIELD as int]@);
        if self.ids.contains(fields[ID_FIELD].as_slice()) {
            return Ok(None);
        }
        if fields.len() < FIELD_COUNT {
            return Err(ShortLine);
        }
        let kept = slice_subrange(fields.as_slice(), 0, FIELD_COUNT);
        assert(rows(kept@) =~= rows(fields@).take(FIELD_COUNT as int));
        let mut out = join_bytes(kept, FIELD_SEPARATOR);
        out.push(LINE_END);
        self.ids.insert(slice_to_vec(fields[ID_FIELD].as_slice()));
        Ok(Some(out))
    }
}

} // verus!
