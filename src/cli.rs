use vstd::prelude::*;

verus! {

/// The command line: one command.
#[derive(Debug, Clone, PartialEq, Eq)]
pub struct Cli {
    pub command: Commands,
}

/// The commands of the bookmark manager.
#[derive(Debug, Clone, PartialEq, Eq)]
pub enum Commands {
    /// Add a new bookmark, from prompts or from the url on the clipboard.
    Add { clipboard: bool },
    /// Search the bookmarks and report the chosen url.
    Search,
    /// Edit the bookmark with the given id.
    Edit { id: i32 },
    /// Remove the bookmark with the given id.
    Remove { id: i32 },
    /// Search the bookmarks and copy the chosen url to the clipboard.
    Clip,
    /// Import bookmarks from an HTML bookmark file.
    Import { path: String },
}

} // verus!
