//! Paths as text, for messages.

use std::path::PathBuf;
use vstd::prelude::*;

verus! {

/// `std::path::PathBuf`, handed through as it is: a path is known only by
/// the text that `path_text` gives for it.
#[verifier::external_type_specification]
#[verifier::external_body]
pub struct ExPathBuf(PathBuf);

/// The text that a path holds, as `Path::to_string_lossy` of std gives it:
/// the path itself where it is valid Unicode, and else the path with the
/// replacement character U+FFFD in place of what is not. The text depends
/// on the path alone. Nothing says here which text a given path has: a
/// caller learns it of a path by asking `display_path`, and knows then
/// that the same path gives the same text again.
pub uninterp spec fn path_text(path: PathBuf) -> Seq<char>;

/// The path as text fit to show: the text the path holds, given lossily.
pub fn display_path(path: &PathBuf) -> (text: String)
    ensures
        text@ == path_text(*path),
{
    lossy_text(path)
}

/// Calls `Path::to_string_lossy` of std and makes its result an owned
/// `String`. The contract claims that the text is the one that std gives for
/// this path, and that it is a function of the path alone; it claims nothing
/// of which text that is.
#[verifier::external_body]
fn lossy_text(path: &PathBuf) -> (text: String)
    ensures
        text@ == path_text(*path),
{
    path.to_string_lossy().into_owned()
}

} // verus!
