//! Merging of individually sorted k-mer presence listings into one table.
//!
//! Each source lists tokens in ascending byte order, one per line, with a
//! presence flag. The merge emits every distinct token once, in ascending
//! order, with one presence bit per source.
//!
//! - `token`: the byte-lexicographic order on tokens.
//! - `record`: the grammar of a line, and the rows that records become.
//! - `infile`: a source read as a stream of records.
//! - `rank`: the order in which streams are served.
//! - `queue`: the priority structure that holds the streams.
//! - `table`: what the merged table is, and what holds of it.
//! - `merge`: the scheduler that produces the table row by row.
//! - `format`: the text of the header and of the rows.
//! - `setup`: the order of the columns and the check of the source names.
//! - `pipeline`: from named listings to the text of the table.

pub mod format;
pub mod infile;
pub mod merge;
pub mod pipeline;
pub mod queue;
pub mod rank;
pub mod record;
pub mod setup;
pub mod table;
pub mod token;
