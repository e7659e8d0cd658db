//! Streaming conversion of variant records into merged interval lines.
//!
//! Each variant record yields candidate intervals, one for each pair of an
//! identifier and an alternate allele. Adjacent candidates that describe the
//! same variant are folded into one interval, which holds the alleles of all
//! of them and the most severe consequence seen among them, and every
//! finished interval is written as one line of nine fields.
//!
//! The modules, from the leaves up:
//!
//! - [`text`]: byte strings, their fields, and decimal numbers;
//! - [`text_set`]: small sets of byte strings, in order of arrival;
//! - [`text_index`]: large sets of byte strings, filed under hashes;
//! - [`utf8`]: which byte strings are text;
//! - [`groups`] and [`severity`]: the group and the rank of a consequence
//!   term;
//! - [`classify`]: the most severe consequence among a record's annotations;
//! - [`line`]: intervals, how they merge and how they are written and read;
//! - [`record`]: variant records and the candidates that one gives;
//! - [`source`]: records as the `vcf` crate reads them;
//! - [`accumulator`]: the merge of a stream of candidates;
//! - [`convert`]: a whole conversion at once;
//! - [`dedup`]: the union of converted files.
//!
//! All text is held as bytes, as the `vcf` crate holds it, and a length is a
//! number of bytes.
//!
//! Everything is proved against the contracts stated, except what other
//! code is trusted to do: `serde_json` to read the severity table, the `vcf`
//! crate to hand out the fields of its records, and the standard library to
//! tell UTF-8 from other bytes. Each such call stands in a function of its
//! own, marked `external_body`, whose comment says what is taken on trust.

pub mod accumulator;
pub mod classify;
pub mod convert;
pub mod dedup;
pub mod error;
pub mod groups;
pub mod line;
pub mod record;
pub mod severity;
pub mod source;
pub mod text;
pub mod text_index;
pub mod text_set;
pub mod utf8;
