use vstd::prelude::*;

verus! {

/// A bookmark as plain values: id, name, url and description.
pub type BookmarkRow = (i64, Seq<char>, Seq<char>, Seq<char>);

/// The plain values of a list of bookmarks.
pub open spec fn rows_of(entries: Seq<Bookmark>) -> Seq<BookmarkRow> {
    entries.map_values(|b: Bookmark| b@)
}

/// One stored bookmark.
#[derive(Debug, Clone, PartialEq, Eq)]
pub struct Bookmark {
    pub id: i64,
    pub name: String,
    pub url: String,
    pub description: String,
}

impl View for Bookmark {
    type V = BookmarkRow;

    open spec fn view(&self) -> BookmarkRow {
        (self.id, self.name@, self.url@, self.description@)
    }
}

impl Bookmark {
    /// A bookmark holding exactly the given values.
    pub fn new(id: i64, name: &str, url: &str, description: &str) -> (r: Bookmark)
        ensures
            r@ == (id, name@, url@, description@),
    {
        Bookmark {
            id,
            name: name.to_owned(),
            url: url.to_owned(),
            description: description.to_owned(),
        }
    }

    /// A copy of this bookmark.
    pub fn duplicate(&self) -> (r: Bookmark)
        ensures
            r@ == self@,
    {
        Bookmark {
            id: self.id,
            name: self.name.clone(),
            url: self.url.clone(),
            description: self.description.clone(),
        }
    }
}

} // verus!
