//! Parse ASCII/UTF-8 waveform diagrams into a stream of decoded samples.
//!
//! One or more lines of text waveforms become a sequence of [`Item`]s, one per
//! character position. Each item carries the decoded value for every line and a
//! `changed` flag that is `true` whenever at least one line changed since the
//! previous timestep.
//!
//! The default mappers use `'_'` for low, `'|'` for an edge that toggles the
//! previous value, and any other character for high. Lines may carry a label
//! prefix (`Name: content`); later lines with the same label continue the first.
pub mod parser;
pub mod prevable;

pub use parser::{
    builder::Builder,
    Item,
    Parser,
    Entry,
    ParseError,
    BoolMapper,
    NumMapper,
    LookupMap,
    Mapper,
    mapper,
};
