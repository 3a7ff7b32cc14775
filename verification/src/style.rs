//! Styling of display text through the `colored` crate. Each wrapper
//! applies one fixed style and renders the result to a `String`. Whether
//! ANSI escape codes appear depends on the output target and environment,
//! so the contracts state only what holds of every outcome: the input
//! text, when it is free of the escape character, appears verbatim inside
//! the output (colored wraps the input in escape sequences or passes it
//! through unchanged; it only rewrites inputs that already contain escape
//! sequences).

use vstd::prelude::*;
use crate::text::{contains_seq, esc_free};
use colored::Colorize;

verus! {

/// Relies on colored's `Colorize::bright_blue` and `Colorize::bold` and
/// on `Display for ColoredString`: the styled output carries the input
/// text inside it whenever the input holds no escape character.
#[verifier::external_body]
pub fn paint_dir(s: &str) -> (r: String)
    ensures
        esc_free(s@) ==> contains_seq(r@, s@),
{
    format!("{}", s.bright_blue().bold())
}

/// Relies on colored's `Colorize::bright_cyan` and `Colorize::bold` and
/// on `Display for ColoredString`, as `paint_dir` does.
#[verifier::external_body]
pub fn paint_link(s: &str) -> (r: String)
    ensures
        esc_free(s@) ==> contains_seq(r@, s@),
{
    format!("{}", s.bright_cyan().bold())
}

/// Relies on colored's `Colorize::white` and on `Display for
/// ColoredString`, as `paint_dir` does.
#[verifier::external_body]
pub fn paint_plain(s: &str) -> (r: String)
    ensures
        esc_free(s@) ==> contains_seq(r@, s@),
{
    format!("{}", s.white())
}

/// Relies on colored's `Colorize::red` and on `Display for
/// ColoredString`, as `paint_dir` does. Used for entries and link
/// targets whose metadata could not be read.
#[verifier::external_body]
pub fn paint_invalid(s: &str) -> (r: String)
    ensures
        esc_free(s@) ==> contains_seq(r@, s@),
{
    format!("{}", s.red())
}

/// Relies on colored's `Colorize::bold` and on `Display for
/// ColoredString`, as `paint_dir` does.
#[verifier::external_body]
pub fn paint_bold(s: &str) -> (r: String)
    ensures
        esc_free(s@) ==> contains_seq(r@, s@),
{
    format!("{}", s.bold())
}

} // verus!
