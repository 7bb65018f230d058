use crate::failure::Failure;
use crate::record::{rows_of, Bookmark, BookmarkRow};
use crate::text::{trim, trim_text};
use scraper::{Html, Selector};
use vstd::prelude::*;

verus! {

/// The text of the first `<title>` element of an HTML page, all its text
/// nodes joined; `None` when the page has no title.
pub uninterp spec fn title_text(html: Seq<char>) -> Option<Seq<char>>;

/// The `dt > a` elements of an HTML bookmark file, in document order, each as
/// its `href` attribute (if it has one) and its text nodes.
pub uninterp spec fn link_parts(html: Seq<char>) -> Seq<(Option<Seq<char>>, Seq<Seq<char>>)>;

/// The plain values of a list of texts.
pub open spec fn texts_view(texts: Seq<String>) -> Seq<Seq<char>> {
    texts.map_values(|t: String| t@)
}

/// The plain values of links as the scraper hands them out.
pub open spec fn links_view(links: Seq<(Option<String>, Vec<String>)>) -> Seq<(Option<Seq<char>>, Seq<Seq<char>>)> {
    links.map_values(
        |l: (Option<String>, Vec<String>)|
            (
                match l.0 {
                    Some(h) => Some(h@),
                    None => None,
                },
                texts_view(l.1@),
            ),
    )
}

/// The title of an HTML page.
///
/// Relies on scraper's `Html::parse_document`, `Selector::parse` and
/// `ElementRef::text`: the first element that the selector `title` picks, its
/// text nodes concatenated.
#[verifier::external_body]
fn page_title(html: &str) -> (r: Option<String>)
    ensures
        r is None <==> title_text(html@) is None,
        r is Some ==> title_text(html@) == Some(r->0@),
{
    let document = Html::parse_document(html);
    let selector = Selector::parse("title").ok()?;
    document.select(&selector).next().map(|t| t.text().collect::<String>())
}

/// The `dt > a` links of an HTML bookmark file, each as its `href` attribute
/// and its text nodes.
///
/// Relies on scraper's `Html::parse_document`, `Selector::parse`,
/// `Element::attr` and `ElementRef::text`, over the elements that the selector
/// `dt > a` picks, in document order.
#[verifier::external_body]
fn bookmark_links(html: &str) -> (r: Vec<(Option<String>, Vec<String>)>)
    ensures
        links_view(r@) == link_parts(html@),
{
    let document = Html::parse_document(html);
    let selector = match Selector::parse("dt > a") {
        Ok(s) => s,
        Err(_) => return Vec::new(),
    };
    document.select(&selector).map(|e| {
        (e.value().attr("href").map(|h| h.to_string()), e.text().map(|t| t.to_string()).collect())
    }).collect()
}

/// Texts joined by single spaces.
pub open spec fn join_spaced(parts: Seq<Seq<char>>) -> Seq<char>
    decreases parts.len(),
{
    if parts.len() == 0 {
        Seq::empty()
    } else if parts.len() == 1 {
        parts[0]
    } else {
        join_spaced(parts.drop_last()) + seq![' '] + parts.last()
    }
}

/// The texts of `parts` joined by single spaces.
pub fn join_texts(parts: &Vec<String>) -> (r: String)
    ensures
        r@ == join_spaced(texts_view(parts@)),
{
    proof {
        reveal_strlit(" ");
    }
    let ghost pv = texts_view(parts@);
    let mut out = String::new();
    let mut i: usize = 0;
    assert(pv.subrange(0, 0) =~= Seq::<Seq<char>>::empty());
    while i < parts.len()
        invariant
            i <= parts@.len(),
            pv == texts_view(parts@),
            out@ == join_spaced(pv.subrange(0, i as int)),
        decreases parts@.len() - i,
    {
        proof {
            reveal_strlit(" ");
        }
        let ghost before = out@;
        if i > 0 {
            out.append(" ");
        }
        out.append(parts[i].as_str());
        proof {
            let p = pv.subrange(0, i + 1);
            assert(p.drop_last() =~= pv.subrange(0, i as int));
            assert(p.last() == parts@[i as int]@);
            if i == 0 {
                assert(out@ =~= p[0]);
            } else {
                assert(out@ =~= before + seq![' '] + p.last());
            }
        }
        i = i + 1;
    }
    assert(pv.subrange(0, parts@.len() as int) =~= pv);
    out
}

/// The title of a page as found, trimmed; a page without one is a parser
/// failure.
pub fn title_result(found: Option<String>) -> (r: Result<String, Failure>)
    ensures
        found is Some <==> r is Ok,
        r is Ok ==> r->Ok_0@ == trim(found->0@),
        r is Err ==> (r->Err_0 matches Failure::Parser(d) && d@ == "Title not found"@),
{
    match found {
        Some(t) => Ok(trim_text(t.as_str())),
        None => Err(Failure::Parser("Title not found".to_owned())),
    }
}

/// The trimmed title of the HTML page `text`.
pub fn parse_html_text(text: &str) -> (r: Result<String, Failure>)
    ensures
        title_text(text@) is Some <==> r is Ok,
        r is Ok ==> r->Ok_0@ == trim(title_text(text@)->0),
        r is Err ==> (r->Err_0 matches Failure::Parser(d) && d@ == "Title not found"@),
{
    title_result(page_title(text))
}

/// The bookmark that a link of a bookmark file becomes: id 0 (the store gives
/// the real one on import), the `href` or empty text as url, the link's texts
/// joined by single spaces as name, no description.
pub open spec fn link_bookmark(link: (Option<Seq<char>>, Seq<Seq<char>>)) -> BookmarkRow {
    (
        0,
        join_spaced(link.1),
        match link.0 {
            Some(h) => h,
            None => Seq::empty(),
        },
        Seq::empty(),
    )
}

/// The bookmarks that links become.
pub open spec fn link_rows(links: Seq<(Option<Seq<char>>, Seq<Seq<char>>)>) -> Seq<BookmarkRow> {
    links.map_values(|l: (Option<Seq<char>>, Seq<Seq<char>>)| link_bookmark(l))
}

/// Bookmarks for the given links, in order.
pub fn links_to_bookmarks(links: Vec<(Option<String>, Vec<String>)>) -> (r: Vec<Bookmark>)
    ensures
        rows_of(r@) == link_rows(links_view(links@)),
{
    let ghost lv = links_view(links@);
    let mut out: Vec<Bookmark> = Vec::new();
    let mut i: usize = 0;
    while i < links.len()
        invariant
            i <= links@.len(),
            lv == links_view(links@),
            out@.len() == i,
            forall|k: int| 0 <= k < i ==> (#[trigger] out@[k])@ == link_bookmark(lv[k]),
        decreases links@.len() - i,
    {
        let link = &links[i];
        let url = match &link.0 {
            Some(h) => h.clone(),
            None => String::new(),
        };
        let name = join_texts(&link.1);
        out.push(Bookmark { id: 0, name, url, description: String::new() });
        proof {
            assert(lv[i as int] == (
                match links@[i as int].0 {
                    Some(h) => Some(h@),
                    None => None,
                },
                texts_view(links@[i as int].1@),
            ));
        }
        i = i + 1;
    }
    assert(rows_of(out@) =~= link_rows(lv));
    out
}

/// The bookmarks of an HTML bookmark file, one for each `dt > a` link, in
/// document order.
pub fn parse_bookmarks(html: &str) -> (r: Vec<Bookmark>)
    ensures
        rows_of(r@) == link_rows(link_parts(html@)),
{
    links_to_bookmarks(bookmark_links(html))
}

} // verus!
