//! A deterministic linter for formulaic prose. A scanner compiles curated
//! rules (fixed phrases and regular expressions), an excess-vocabulary data
//! set and repository terms, then scans a document: Markdown code and URLs
//! are masked at unchanged byte offsets, phrases are matched at word
//! boundaries, and dense abstraction terms, dense em dashes and structural
//! patterns of Chinese prose are reported. Each function states what it
//! returns; the report of a scan is stated over the candidates of each stage.
use vstd::prelude::*;

pub mod text;
pub mod words;
pub mod location;
pub mod markdown;
pub mod model;
pub mod engines;
pub mod strings;
pub mod scanner;
pub mod findings;
pub mod chinese;
pub mod confidence;
pub mod cli;

pub use crate::model::{
    CustomTerm, Error, Finding, Format, Profile, Report, RuleDef, RuleKind, ScanOptions, Severity,
    VocabularyEntry,
};
pub use crate::scanner::Scanner;

verus! {

} // verus!
