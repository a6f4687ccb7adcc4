//! Showing revisions, and the name of the backend.

use vstd::prelude::*;

use crate::text::concat;

verus! {

/// Print the name of the backend used in the current repo
#[derive(Debug, PartialEq, Eq, Structural, Clone, Copy)]
pub struct UtilBackendNameArgs {}

/// Returns what is printed for the name of the backend.
pub fn backend_name_line(name: &str) -> (line: String)
    ensures
        line@ == name@ + "\n"@,
{
    concat(name, "\n")
}

/// Returns the template to show revisions with: the one that is given, or the
/// one from the settings.
pub fn show_template<E>(template: Option<String>, setting: Result<String, E>) -> (result: Result<
    String,
    E,
>)
    ensures
        result == (match template {
            Some(template) => Ok::<String, E>(template),
            None => setting,
        }),
{
    match template {
        Some(template) => Ok(template),
        None => setting,
    }
}

} // verus!
