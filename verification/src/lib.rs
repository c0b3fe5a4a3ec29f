//! An anonymous card corpus.
//!
//! Card scripts come with titles, rules text and prompts. This library turns
//! them into scripts that hold none of that: each is keyed by a stable number,
//! names other cards and tokens by their numbers, and keeps what an engine
//! executes.
//!
//! - Text and its collections: `text`, `words`, `letters`, `numerals`, `tables`,
//!   `paths`, `order`, `sorting`, `maps`, `numbered`, with `text_laws`,
//!   `word_laws` and `path_laws`.
//! - Identities: `ids`, `digest`, `uuids`, `cas`.
//! - One script: `script`, `references`, `parameters`, `qualifiers`, `runtime`,
//!   `contextual`, `keywords`, `sanitize`. What becomes of its parts is stated
//!   in `script_laws`, `reference_laws`, `segment_laws`, `parameter_laws`,
//!   `named_laws`, `group_laws`, `object_laws`, `context_laws`,
//!   `vocabulary_laws`, `keyword_laws` and `row_laws`, and what holds of the
//!   result in `anonymity`, `field_laws`, `headers` and `line_laws`.
//! - Card data: `scryfall`, `signatures`, `names`, with `color_laws` and
//!   `name_laws`.
//! - The whole corpus: `catalog`, `tokens`, `report`, `generate`, with
//!   `generate_laws` and `run_laws`.
//! - Sets and their anonymous IDs: `set_ids`, `sets`, `registry`, with
//!   `registry_laws` and `assignment_laws`.
//! - The catalog of numeric IDs: `source_catalog`, `bridge`, `origin`, with
//!   `bridge_laws` and `table_laws`.
//! - What is published beside the corpus: `provenance`, `manifest`,
//!   with `manifest_laws` and `publish_laws`.
//!
//! Everything here computes on values in memory: files are read and written by
//! the programs around it. Proof functions whose names begin with `law_` state
//! what holds across several functions.

pub mod letters;
pub mod maps;
pub mod numbered;
pub mod numerals;
pub mod order;
pub mod path_laws;
pub mod paths;
pub mod sorting;
pub mod tables;
pub mod text;
pub mod text_laws;
pub mod word_laws;
pub mod words;

pub mod cas;
pub mod digest;
pub mod ids;
pub mod uuids;

pub mod anonymity;
pub mod context_laws;
pub mod contextual;
pub mod field_laws;
pub mod group_laws;
pub mod headers;
pub mod keyword_laws;
pub mod keywords;
pub mod line_laws;
pub mod named_laws;
pub mod object_laws;
pub mod parameter_laws;
pub mod parameters;
pub mod qualifiers;
pub mod reference_laws;
pub mod references;
pub mod row_laws;
pub mod runtime;
pub mod sanitize;
pub mod script;
pub mod script_laws;
pub mod segment_laws;
pub mod vocabulary_laws;

pub mod color_laws;
pub mod name_laws;
pub mod names;
pub mod scryfall;
pub mod signatures;

pub mod catalog;
pub mod generate;
pub mod generate_laws;
pub mod report;
pub mod run_laws;
pub mod tokens;

pub mod assignment_laws;
pub mod registry;
pub mod registry_laws;
pub mod set_ids;
pub mod sets;

pub mod bridge;
pub mod bridge_laws;
pub mod origin;
pub mod source_catalog;
pub mod table_laws;

pub mod manifest;
pub mod manifest_laws;
pub mod provenance;
pub mod publish_laws;
