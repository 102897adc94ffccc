use crossterm::style::{PrintStyledContent, StyledContent};
use crossterm::Command;
use vstd::prelude::*;

verus! {

#[verifier::external_type_specification]
#[verifier::external_body]
#[verifier::reject_recursive_types(D)]
pub struct ExStyledContent<D: std::fmt::Display>(StyledContent<D>);

/// A value that can be shown as one tile: a short label with terminal styles.
pub trait Tile {
    fn tile(&self) -> StyledContent<&'static str>;
}

/// Relies on crossterm's `PrintStyledContent::write_ansi`: the label wrapped
/// in the escape sequences of its styles, written into a string. Where it
/// reports an error, what was written before the error is kept.
#[verifier::external_body]
pub(crate) fn styled_text(t: StyledContent<&'static str>) -> String {
    let mut s = String::new();
    match PrintStyledContent(t).write_ansi(&mut s) {
        Ok(()) => s,
        Err(_) => s,
    }
}

} // verus!
