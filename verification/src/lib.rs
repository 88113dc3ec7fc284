//! Verified core of a set of mdBook preprocessors: cross-references
//! (`label:` / `ref:` links), abbreviations, numbered figures, Typst
//! renderings of `typst:` links and range-based rewriting of chapter
//! sources.
pub mod text;
pub mod markdown;
pub mod book;
pub mod rewrite;
pub mod extract;
pub mod assoc;
pub mod crossref;
pub mod xref;
pub mod abbr;
pub mod figure;
pub mod typst;
