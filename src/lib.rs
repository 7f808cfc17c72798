//! Paragraph class annotations for mdbook chapters.
//!
//! A paragraph whose first line is `{:.name}` is wrapped in
//! `<div class="name">` … `</div>` and the annotation line is dropped.
pub mod markdown;
pub mod preprocessor;
pub mod rewrite;
pub mod scan;
pub mod token;
