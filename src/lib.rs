//! A compiler for T4-style text templates.
//!
//! A template mixes literal text with code blocks (`<# ... #>`), expression
//! blocks (`<#= ... #>`) and directives (`<#@ ... #>`). The library splits the
//! template into segments, cleans whitespace around standalone blocks, merges
//! neighbouring segments of one kind and emits a code fragment that writes the
//! template's output to a formatter named `_fmt`.

pub mod model;
mod text;
pub mod directive;
pub mod scan;
pub mod merge;
pub mod emit;
pub mod clean;
pub mod pipeline;

pub use clean::{is_ws_till_newline, parse_postprocess};
pub use directive::{apply_directive, parse_directive, unrecognized_params};
pub use emit::{generate_code, generate_expression_print, generate_save_str_print};
pub use merge::parse_optimize;
pub use model::{TemplateDirective, TemplateError, TemplateInfo, TemplatePart};
pub use pipeline::compile_template;
pub use scan::parse_all;
