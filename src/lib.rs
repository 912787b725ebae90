//! A parser for INI-like configuration text: named sections of `key:value`
//! attributes, with notes introduced by a configurable marker.
//!
//! Layers, bottom up: [`scanner`] (bounded scanning of characters),
//! [`grammar`] (line classification, sections, documents; each recognizer is
//! stated as a spec function and the executable parser is proved to agree
//! with it), [`model`] (the section and document maps), and the dialects
//! [`ini`] (marker `;`) and [`conf`] (marker `#`). [`laws`] and [`crlf`] hold
//! what is proved of the grammar as a whole.
//!
//! Settled points of the dialect:
//! - the separator between key and value is `:` in every dialect;
//! - only `\n` and `\r\n` end lines: a `\r` that does not begin `\r\n` is an
//!   error wherever a line ending is looked for, also at the end of input;
//! - text before the first section header is not parsed: it is left as the
//!   unconsumed residue, as is anything after the last section that begins
//!   no header.
pub mod conf;
pub mod crlf;
pub mod grammar;
pub mod ini;
pub mod laws;
pub mod model;
pub mod scanner;
