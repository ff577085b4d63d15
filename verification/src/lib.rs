//! Parsing of street-level outage reports.
//!
//! The heart of the crate is [`addresses`], a verified parser for the
//! address-range grammar used by outage schedules: one line of text lists
//! street entries, each a street name followed by a colon and a
//! comma-separated sequence of house-number specifications (a "no number"
//! marker, a single number with an optional extension, or a range of two
//! numbers).  [`script_mapper`] transliterates Cyrillic text to uppercase
//! Latin so that raw report rows can be fed to the parser, and [`timeint`]
//! holds a small, unrelated grammar for `HH:MM-HH:MM` time windows.

pub mod addresses;
pub mod script_mapper;
pub mod text;
pub mod timeint;
