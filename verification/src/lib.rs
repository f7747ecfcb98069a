//! A verified parser for WARC-style archive streams.
//!
//! The library turns a byte stream into a forward-only sequence of records.
//! Each record is a version line, a block of header fields (with multi-line
//! continuations), a content block whose length the mandatory
//! `Content-Length` header declares, and a four-byte trailer.
//!
//! The wire grammar is stated once, as spec functions over the byte stream
//! ([`spec_parse`]); the executable parser ([`WarcRecord::parse`]) is proved
//! to answer exactly what that grammar says, and the streaming reader
//! ([`WarcReader`]) is proved to follow its state machine ([`model_step`]):
//! yield each well-formed record and advance the byte accumulator by its
//! on-wire length, end quietly at a clean end of stream, and after any other
//! failure yield that failure once and then nothing, for good.

mod case_string;
mod error;
mod header;
mod lines;
mod reader;
mod record;
mod text;
mod wire;

pub use case_string::CaseString;
pub use error::WarcError;
pub use header::{lemma_lookup_case_insensitive, lookup, HeaderMap};
pub use reader::{first_n_ok, lemma_accounting_after_corruption,
    lemma_pull_advances_by_record_length, lemma_reader_runs_prefix,
    lemma_terminated_reader_stays_quiet, model_step, pos_after, run_model, yield_at,
    yield_matches, ReaderModel, SpecYield, WarcReader};
pub use record::{outcome_matches, WarcRecord};
pub use text::{decode, lower_bytes, lower_chars};
pub use wire::{lemma_record_extent, spec_parse, SpecOutcome, SpecRecord};
