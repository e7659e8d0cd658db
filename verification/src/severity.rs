//! The severity table: the rank of each consequence term, lower for a more
//! severe one.

use crate::text::{bounded_value, bytes_eq, digits_value, parse_unsigned};
use vstd::prelude::*;

verus! {

/// The rank text of a term that the table lacks.
pub open spec fn default_rank_text() -> Seq<u8> {
    seq![48u8]
}

/// The mapping that a list of entries builds when they are entered one by
/// one: of two entries for one term the later one counts.
pub open spec fn entries_map(entries: Seq<(Seq<u8>, Seq<u8>)>) -> Map<Seq<u8>, Seq<u8>>
    decreases entries.len(),
{
    if entries.len() == 0 {
        Map::<Seq<u8>, Seq<u8>>::empty()
    } else {
        entries_map(entries.drop_last()).insert(entries.last().0, entries.last().1)
    }
}

/// The byte strings that a list of entries holds.
pub open spec fn pairs(v: Seq<(Vec<u8>, Vec<u8>)>) -> Seq<(Seq<u8>, Seq<u8>)> {
    v.map_values(|p: (Vec<u8>, Vec<u8>)| (p.0@, p.1@))
}

/// The text that the table gives as the rank of `term`: `0` for a term that
/// it lacks.
pub open spec fn rank_text(table: Map<Seq<u8>, Seq<u8>>, term: Seq<u8>) -> Seq<u8> {
    if table.contains_key(term) {
        table[term]
    } else {
        default_rank_text()
    }
}

/// The rank of `term`: the number that its rank text writes, if that is a
/// number up to 255.
#[verifier::opaque]
pub open spec fn rank_of(table: Map<Seq<u8>, Seq<u8>>, term: Seq<u8>) -> Option<u8> {
    match bounded_value(rank_text(table, term), u8::MAX as nat) {
        Some(v) => Some(v as u8),
        None => None,
    }
}

/// The entries of the JSON text `json`, with their keys ascending, when it
/// is one object whose values are all strings; `None` for any other text.
pub uninterp spec fn json_entries(json: Seq<char>) -> Option<Seq<(Seq<u8>, Seq<u8>)>>;

/// Declares `serde_json::Error`. Nothing is known of such an error; it is
/// only handed on.
#[verifier::external_type_specification]
#[verifier::external_body]
pub struct ExJsonError(serde_json::Error);

/// Why a severity table could not be read.
#[derive(Debug)]
pub enum TableError {
    /// The text is not a JSON object of strings.
    Json(serde_json::Error),
}

/// Calls `serde_json::from_str` to read an object of strings, and hands its
/// entries out as bytes. The target is a `BTreeMap`, so that the entries come
/// in one fixed order, by ascending key. Not proved: that the result is the
/// same for the same text, which is all that the contract claims.
#[verifier::external_body]
fn read_json_entries(json: &str) -> (read: Result<Vec<(Vec<u8>, Vec<u8>)>, serde_json::Error>)
    ensures
        match read {
            Ok(entries) => json_entries(json@) == Some(pairs(entries@)),
            Err(_) => json_entries(json@) is None,
        },
{
    let map: std::collections::BTreeMap<String, String> = serde_json::from_str(json)?;
    Ok(map.into_iter().map(|(k, v)| (k.into_bytes(), v.into_bytes())).collect())
}

proof fn lemma_last_entry_counts(entries: Seq<(Seq<u8>, Seq<u8>)>, term: Seq<u8>, i: int)
    requires
        0 <= i < entries.len(),
        entries[i].0 == term,
        forall|j: int| i < j < entries.len() ==> (#[trigger] entries[j]).0 != term,
    ensures
        entries_map(entries).contains_key(term),
        entries_map(entries)[term] == entries[i].1,
    decreases entries.len(),
{
    if i < entries.len() - 1 {
        let front = entries.drop_last();
        assert forall|j: int| i < j < front.len() implies (#[trigger] front[j]).0 != term by {
            assert(front[j] == entries[j]);
        }
        lemma_last_entry_counts(front, term, i);
    }
}

proof fn lemma_no_entry(entries: Seq<(Seq<u8>, Seq<u8>)>, term: Seq<u8>)
    requires
        forall|j: int| 0 <= j < entries.len() ==> (#[trigger] entries[j]).0 != term,
    ensures
        !entries_map(entries).contains_key(term),
    decreases entries.len(),
{
    if entries.len() > 0 {
        let front = entries.drop_last();
        assert forall|j: int| 0 <= j < front.len() implies (#[trigger] front[j]).0 != term by {
            assert(front[j] == entries[j]);
        }
        lemma_no_entry(front, term);
    }
}

/// A severity table.
#[derive(Debug)]
pub struct SeverityTable {
    entries: Vec<(Vec<u8>, Vec<u8>)>,
}

impl View for SeverityTable {
    type V = Map<Seq<u8>, Seq<u8>>;

    /// The rank text of each term that the table holds.
    closed spec fn view(&self) -> Map<Seq<u8>, Seq<u8>> {
        entries_map(pairs(self.entries@))
    }
}

impl SeverityTable {
    /// The table without terms.
    pub fn new() -> (table: SeverityTable)
        ensures
            table@ == Map::<Seq<u8>, Seq<u8>>::empty(),
    {
        SeverityTable { entries: Vec::new() }
    }

    /// The table of the given entries, term and rank text; of two entries
    /// for one term the later one counts.
    pub fn from_entries(entries: Vec<(Vec<u8>, Vec<u8>)>) -> (table: SeverityTable)
        ensures
            table@ == entries_map(pairs(entries@)),
    {
        SeverityTable { entries }
    }

    /// Reads a table from JSON text: one object that maps each term to its
    /// rank, written as a string.
    pub fn from_json(json: &str) -> (read: Result<SeverityTable, TableError>)
        ensures
            match read {
                Ok(table) => json_entries(json@) is Some && table@ == entries_map(
                    json_entries(json@)->0,
                ),
                Err(_) => json_entries(json@) is None,
            },
    {
        match read_json_entries(json) {
            Ok(entries) => Ok(SeverityTable::from_entries(entries)),
            Err(e) => Err(TableError::Json(e)),
        }
    }

    /// Enters `rank` as the rank text of `term`, in place of any earlier one.
    pub fn insert(&mut self, term: Vec<u8>, rank: Vec<u8>)
        ensures
            final(self)@ == old(self)@.insert(term@, rank@),
    {
        let ghost before = pairs(self.entries@);
        self.entries.push((term, rank));
        assert(pairs(self.entries@).drop_last() =~= before);
    }

    /// The rank of `term`: the number that its rank text writes, where a
    /// term that the table lacks has the text `0`. `None` when the text is
    /// not a number up to 255.
    pub fn rank(&self, term: &[u8]) -> (rank: Option<u8>)
        ensures
            rank == rank_of(self@, term@),
    {
        let ghost entries = pairs(self.entries@);
        let mut i: usize = self.entries.len();
        while i > 0
            invariant
                0 <= i <= self.entries@.len(),
                entries == pairs(self.entries@),
                forall|j: int| i <= j < entries.len() ==> (#[trigger] entries[j]).0 != term@,
            decreases i,
        {
            i -= 1;
            if bytes_eq(self.entries[i].0.as_slice(), term) {
                proof {
                    reveal(rank_of);
                    lemma_last_entry_counts(entries, term@, i as int);
                }
                return match parse_unsigned(self.entries[i].1.as_slice(), u8::MAX as u64) {
                    Some(v) => Some(v as u8),
                    None => None,
                };
            }
        }
        proof {
            reveal(rank_of);
            lemma_no_entry(entries, term@);
            let zero = default_rank_text();
            assert(zero.drop_last() =~= Seq::<u8>::empty());
            assert(digits_value(zero) == 0) by {
                reveal_with_fuel(digits_value, 2);
            }
        }
        Some(0)
    }
}

} // verus!
