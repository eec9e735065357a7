//! What the two renderings of a table of contents are, as texts over the
//! model: a nested HTML list, and the navigation points of an EPUB
//! navigation map.

use vstd::prelude::*;
use crate::model::{count, Entry};
use crate::text::{decimal, escaped_text};

verus! {

/// The name of the list element: ordered where the list is numbered.
pub open spec fn list_tag(numbered: bool) -> Seq<char> {
    if numbered {
        "ol"@
    } else {
        "ul"@
    }
}

/// A list around the given items, as it stands below an item of the
/// enclosing list.
pub open spec fn nested_list(items: Seq<char>, numbered: bool) -> Seq<char> {
    "\n<"@ + list_tag(numbered) + ">"@ + items + "\n</"@ + list_tag(numbered) + ">\n"@
}

/// One entry as an item of a list: a link to the entry labelled with its
/// escaped title and, where it has entries below it, the list of those.
///
/// An entry with an empty title is left out, together with all that is
/// nested below it.
pub open spec fn list_item(e: Entry, numbered: bool) -> Seq<char>
    decreases e,
{
    if e.title.len() == 0 {
        Seq::empty()
    } else {
        "<li><a href=\""@ + e.url + "\">"@ + escaped_text(e.title) + "</a>"@ + (if e.children.len()
            == 0 {
            Seq::empty()
        } else {
            nested_list(list_items(e.children, numbered), numbered)
        }) + "</li>\n"@
    }
}

/// The items of the entries of a forest, in document order.
pub open spec fn list_items(forest: Seq<Entry>, numbered: bool) -> Seq<char>
    decreases forest,
{
    if forest.len() == 0 {
        Seq::empty()
    } else {
        list_items(forest.drop_last(), numbered) + list_item(forest.last(), numbered)
    }
}

/// A whole table of contents as a list.
pub open spec fn list(forest: Seq<Entry>, numbered: bool) -> Seq<char> {
    "<"@ + list_tag(numbered) + ">\n"@ + list_items(forest, numbered) + "\n</"@ + list_tag(numbered)
        + ">\n"@
}

/// One navigation point: its identifier, the escaped title as its label,
/// the link as its content, and then what is nested in it. The title is
/// rendered as it is, also where it is empty.
pub open spec fn nav_point(e: Entry, id: nat, inner: Seq<char>) -> Seq<char> {
    "\n<navPoint id=\"navPoint-"@ + decimal(id) + "\">\n  <navLabel>\n   <text>"@ + escaped_text(
        e.title,
    ) + "</text>\n  </navLabel>\n  <content src=\""@ + e.url + "\" />\n"@ + inner + "\n</navPoint>"@
}

/// The navigation point of an entry that follows `offset` earlier entries:
/// its identifier is `offset + 1`, and the entries below it are numbered on
/// from there.
pub open spec fn nav_entry(e: Entry, offset: nat) -> Seq<char>
    decreases e,
{
    nav_point(e, offset + 1, nav_points(e.children, offset + 1))
}

/// The navigation points of a forest that follows `offset` earlier entries.
/// Each entry is numbered after all that stands before it in document
/// order, its own descendants after itself.
pub open spec fn nav_points(forest: Seq<Entry>, offset: nat) -> Seq<char>
    decreases forest,
{
    if forest.len() == 0 {
        Seq::empty()
    } else {
        nav_points(forest.drop_last(), offset) + nav_entry(
            forest.last(),
            offset + count(forest.drop_last()),
        )
    }
}

} // verus!
