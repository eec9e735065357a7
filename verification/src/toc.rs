//! The executable table of contents.

use vstd::prelude::*;
use vstd::string::StringExecFns;
use crate::markup::{list, list_item, list_items, list_tag, nav_entry, nav_points};
use crate::model::{
    count, in_range, inserted, lemma_count_prefix, lemma_lifted_below, lifted, lifted_below, size,
    with_child, Entry,
};
use crate::text::{encode_text, push_decimal};

verus! {

/// An element of the table of contents.
#[derive(Debug)]
pub struct TocElement {
    /// The level. 0: part, 1: chapter, 2: section, ...
    pub level: i32,
    /// The link
    pub url: String,
    /// Title of this entry
    pub title: String,
    /// Inner elements
    pub children: Vec<TocElement>,
}

impl View for TocElement {
    type V = Entry;

    open spec fn view(&self) -> Entry
        decreases self,
    {
        Entry {
            level: self.level as int,
            url: self.url@,
            title: self.title@,
            children: views(self.children@),
        }
    }
}

/// The entries that a sequence of elements stands for, one for one.
pub open spec fn views(elements: Seq<TocElement>) -> Seq<Entry>
    decreases elements,
{
    if elements.len() == 0 {
        Seq::empty()
    } else {
        views(elements.drop_last()).push(elements.last().view())
    }
}

/// `views` keeps the length and maps each element to its view.
pub proof fn lemma_views(elements: Seq<TocElement>)
    ensures
        views(elements).len() == elements.len(),
        forall|i: int| 0 <= i < elements.len() ==> (#[trigger] views(elements)[i]) == elements[i]@,
    decreases elements.len(),
{
    if elements.len() > 0 {
        lemma_views(elements.drop_last());
        assert(views(elements) == views(elements.drop_last()).push(elements.last().view()));
    }
}

/// The levels of an element, and of all that is nested below it, are within
/// the range of the level type.
pub proof fn lemma_view_in_range(e: TocElement)
    ensures
        in_range(e@),
    decreases e,
{
    lemma_views(e.children@);
    assert forall|i: int| 0 <= i < e@.children.len() implies in_range(#[trigger] e@.children[i]) by {
        lemma_view_in_range(e.children@[i]);
    }
}

impl Clone for TocElement {
    /// A copy of the element and of everything nested below it.
    fn clone(&self) -> (r: Self)
        ensures
            r@ == self@,
        decreases self,
    {
        let mut children: Vec<TocElement> = Vec::new();
        let mut i: usize = 0;
        while i < self.children.len()
            invariant
                i <= self.children.len(),
                children.len() == i,
                forall|j: int| 0 <= j < i ==> (#[trigger] children@[j])@ == self.children@[j]@,
            decreases self.children.len() - i,
        {
            let child = self.children[i].clone();
            children.push(child);
            i += 1;
        }
        let r = TocElement {
            level: self.level,
            url: self.url.clone(),
            title: self.title.clone(),
            children,
        };
        proof {
            lemma_views(r.children@);
            lemma_views(self.children@);
            assert(r@.children =~= self@.children);
        }
        r
    }
}

/// Inserts an element among siblings by its level: below the last sibling
/// where it lies deeper than that one, and else behind it.
fn insert(siblings: &mut Vec<TocElement>, element: TocElement)
    ensures
        views(final(siblings)@) == inserted(views(old(siblings)@), element@),
    decreases *old(siblings),
{
    let n = siblings.len();
    proof {
        lemma_views(siblings@);
    }
    if n > 0 && element.level > siblings[n - 1].level {
        insert(&mut siblings[n - 1].children, element);
        proof {
            lemma_views(siblings@);
            assert(views(siblings@) =~= inserted(views(old(siblings)@), element@));
        }
    } else {
        siblings.push(element);
        proof {
            lemma_views(siblings@);
            assert(views(siblings@) =~= inserted(views(old(siblings)@), element@));
        }
    }
}

/// The name of the list element, ordered where `numbered` is set.
fn list_tag_text(numbered: bool) -> (r: &'static str)
    ensures
        r@ == list_tag(numbered),
{
    if numbered {
        "ol"
    } else {
        "ul"
    }
}

impl TocElement {
    /// Creates a new element of the table of contents, at level 1 and with
    /// nothing nested below it.
    pub fn new(url: &str, title: &str) -> (r: TocElement)
        ensures
            r@ == (Entry { level: 1, url: url@, title: title@, children: Seq::empty() }),
    {
        TocElement {
            level: 1,
            url: String::from_str(url),
            title: String::from_str(title),
            children: Vec::new(),
        }
    }

    /// Sets the level of an element.
    pub fn level(self, level: i32) -> (r: Self)
        ensures
            r@ == (Entry { level: level as int, ..self@ }),
    {
        let mut element = self;
        element.level = level;
        element
    }

    /// Moves the element to another level, and with it, recursively, each
    /// child that did not lie deeper than its parent lay before the move.
    /// Every other child stays as it is.
    ///
    /// The levels that this assigns have to fit in an `i32`.
    fn level_up(&mut self, level: i32)
        requires
            in_range(lifted(old(self)@, level as int)),
        ensures
            final(self)@ == lifted(old(self)@, level as int),
        decreases *old(self),
    {
        let before = self.level;
        self.level = level;
        let ghost kids = old(self)@.children;
        let mut i: usize = 0;
        proof {
            lemma_views(old(self).children@);
            assert(kids.take(0) =~= Seq::<Entry>::empty());
        }
        while i < self.children.len()
            invariant
                i <= self.children.len(),
                self.children.len() == old(self).children.len(),
                self.level == level,
                self.url == old(self).url,
                self.title == old(self).title,
                before == old(self).level,
                kids == views(old(self).children@),
                in_range(lifted(old(self)@, level as int)),
                forall|j: int|
                    i <= j < self.children.len() ==> self.children@[j] == old(self).children@[j],
                views(self.children@).take(i as int) == lifted_below(
                    kids.take(i as int),
                    before as int,
                    level + 1,
                ),
            decreases self.children.len() - i,
        {
            proof {
                lemma_views(old(self).children@);
                lemma_views(self.children@);
                lemma_lifted_below(kids, before as int, level + 1);
                assert(kids.take(i + 1).drop_last() =~= kids.take(i as int));
                assert(lifted(old(self)@, level as int).children[i as int] == lifted_below(
                    kids,
                    before as int,
                    level + 1,
                )[i as int]);
            }
            let ghost prior = self.children@;
            if self.children[i].level <= before {
                assert(in_range(lifted(kids[i as int], level + 1)));
                self.children[i].level_up(level + 1);
            }
            proof {
                lemma_views(self.children@);
                lemma_views(prior);
                assert(views(self.children@).take(i + 1) =~= views(prior).take(i as int).push(
                    self.children@[i as int]@,
                ));
            }
            i += 1;
        }
        proof {
            lemma_views(self.children@);
            assert(views(self.children@).take(i as int) =~= views(self.children@));
            assert(kids.take(i as int) =~= kids);
        }
    }

    /// Attaches a child to this element.
    ///
    /// A child that does not lie deeper than this element is first moved to
    /// the level below this element's, and with it, recursively, each entry
    /// below it that did not lie deeper than its own parent lay before. A
    /// child that lies deeper already is attached unchanged. The levels that
    /// this assigns have to fit in an `i32`.
    pub fn child(self, child: TocElement) -> (r: Self)
        requires
            child@.level <= self@.level ==> in_range(lifted(child@, self@.level + 1)),
        ensures
            r@ == with_child(self@, child@),
    {
        let mut parent = self;
        let mut attached = child;
        if attached.level <= parent.level {
            attached.level_up(parent.level + 1);
        }
        parent.children.push(attached);
        proof {
            lemma_views(parent.children@);
            lemma_views(self.children@);
            assert(parent@.children =~= with_child(self@, child@).children);
        }
        parent
    }

    /// Adds an element to this one or to one nested below it, according to
    /// its level: below the last child where it lies deeper than that one,
    /// and else behind it.
    pub fn add(&mut self, element: TocElement)
        ensures
            final(self)@ == (Entry {
                children: inserted(old(self)@.children, element@),
                ..old(self)@
            }),
    {
        insert(&mut self.children, element);
    }

    /// Renders the element, and all that is nested below it, as a navigation
    /// point of an EPUB navigation map.
    ///
    /// `offset` is the number of navigation points rendered before this one;
    /// the result holds the number rendered after it, and the markup. The
    /// numbers have to fit in a `u32`.
    pub fn render_epub(&self, offset: u32) -> (r: (u32, String))
        requires
            offset + size(self@) <= u32::MAX,
        ensures
            r.0 == offset + size(self@),
            r.1@ == nav_entry(self@, offset as nat),
        decreases self,
    {
        let id = offset + 1;
        let mut next = id;
        let mut inner = String::new();
        let mut i: usize = 0;
        let ghost kids = self@.children;
        proof {
            lemma_views(self.children@);
            assert(kids.take(0) =~= Seq::<Entry>::empty());
        }
        while i < self.children.len()
            invariant
                i <= self.children.len(),
                kids == views(self.children@),
                next == id + count(kids.take(i as int)),
                inner@ == nav_points(kids.take(i as int), id as nat),
                id + count(kids) <= u32::MAX,
            decreases self.children.len() - i,
        {
            proof {
                lemma_views(self.children@);
                lemma_count_prefix(kids, i as int);
                lemma_count_prefix(kids, i + 1);
                assert(kids.take(i + 1).drop_last() =~= kids.take(i as int));
            }
            let (n, s) = self.children[i].render_epub(next);
            next = n;
            inner.append(s.as_str());
            i += 1;
        }
        assert(kids.take(i as int) =~= kids);
        let escaped = encode_text(self.title.as_str());
        let mut out = String::new();
        out.append("\n<navPoint id=\"navPoint-");
        push_decimal(&mut out, id);
        out.append("\">\n  <navLabel>\n   <text>");
        out.append(escaped.as_str());
        out.append("</text>\n  </navLabel>\n  <content src=\"");
        out.append(self.url.as_str());
        out.append("\" />\n");
        out.append(inner.as_str());
        out.append("\n</navPoint>");
        assert(out@ =~= nav_entry(self@, offset as nat));
        (next, out)
    }

    /// Renders the element, and all that is nested below it, as an item of
    /// an HTML list, ordered where `numbered` is set.
    ///
    /// An element with an empty title renders as nothing at all, whatever is
    /// nested below it.
    pub fn render(&self, numbered: bool) -> (r: String)
        ensures
            r@ == list_item(self@, numbered),
        decreases self,
    {
        if self.title.as_str().is_empty() {
            return String::new();
        }
        let ghost kids = self@.children;
        proof {
            lemma_views(self.children@);
        }
        let mut out = String::new();
        out.append("<li><a href=\"");
        out.append(self.url.as_str());
        out.append("\">");
        out.append(encode_text(self.title.as_str()).as_str());
        out.append("</a>");
        if self.children.len() > 0 {
            let mut items = String::new();
            let mut i: usize = 0;
            assert(kids.take(0) =~= Seq::<Entry>::empty());
            while i < self.children.len()
                invariant
                    i <= self.children.len(),
                    kids == views(self.children@),
                    items@ == list_items(kids.take(i as int), numbered),
                decreases self.children.len() - i,
            {
                proof {
                    lemma_views(self.children@);
                    assert(kids.take(i + 1).drop_last() =~= kids.take(i as int));
                }
                let item = self.children[i].render(numbered);
                items.append(item.as_str());
                i += 1;
            }
            assert(kids.take(i as int) =~= kids);
            out.append("\n<");
            out.append(list_tag_text(numbered));
            out.append(">");
            out.append(items.as_str());
            out.append("\n</");
            out.append(list_tag_text(numbered));
            out.append(">\n");
        }
        out.append("</li>\n");
        assert(out@ =~= list_item(self@, numbered));
        out
    }
}

/// A table of contents: the top-level elements, in document order.
#[derive(Debug)]
pub struct Toc {
    /// The elements composing the table of contents
    pub elements: Vec<TocElement>,
}

impl View for Toc {
    type V = Seq<Entry>;

    /// A table of contents stands for the forest of its entries.
    open spec fn view(&self) -> Seq<Entry> {
        views(self.elements@)
    }
}

impl Default for Toc {
    /// The table of contents without any element.
    fn default() -> (r: Toc)
        ensures
            r@ == Seq::<Entry>::empty(),
    {
        Toc::new()
    }
}

impl Toc {
    /// Creates a new table of contents, without any element.
    pub fn new() -> (r: Toc)
        ensures
            r@ == Seq::<Entry>::empty(),
    {
        Toc { elements: Vec::new() }
    }

    /// Whether the table of contents is empty: whether it has no element, or
    /// one only, since with one element it is not worth displaying either.
    pub fn is_empty(&self) -> (r: bool)
        ensures
            r <==> self.elements@.len() <= 1,
            r <==> self@.len() <= 1,
    {
        proof {
            lemma_views(self.elements@);
        }
        self.elements.len() <= 1
    }

    /// Adds an element to the table of contents, according to its level:
    /// below the last element where it lies deeper than that one, by the same
    /// rule, and else behind it as a top-level element of its own.
    pub fn add(&mut self, element: TocElement) -> (r: &mut Self)
        ensures
            r@ == inserted(old(self)@, element@),
            *final(self) == *final(r),
    {
        insert(&mut self.elements, element);
        self
    }

    /// Renders the table of contents as the navigation points of an EPUB
    /// navigation map, numbered from 1 in document order.
    ///
    /// The number of entries has to fit in a `u32`.
    pub fn render_epub(&mut self) -> (r: String)
        requires
            count(old(self)@) <= u32::MAX,
        ensures
            r@ == nav_points(old(self)@, 0),
            *final(self) == *old(self),
    {
        let mut output = String::new();
        let mut offset: u32 = 0;
        let mut i: usize = 0;
        let ghost forest = self@;
        proof {
            lemma_views(self.elements@);
            assert(forest.take(0) =~= Seq::<Entry>::empty());
        }
        while i < self.elements.len()
            invariant
                i <= self.elements.len(),
                *self == *old(self),
                forest == views(self.elements@),
                offset == count(forest.take(i as int)),
                output@ == nav_points(forest.take(i as int), 0),
                count(forest) <= u32::MAX,
            decreases self.elements.len() - i,
        {
            proof {
                lemma_views(self.elements@);
                lemma_count_prefix(forest, i as int);
                lemma_count_prefix(forest, i + 1);
                assert(forest.take(i + 1).drop_last() =~= forest.take(i as int));
            }
            let (n, s) = self.elements[i].render_epub(offset);
            offset = n;
            output.append(s.as_str());
            i += 1;
        }
        assert(forest.take(i as int) =~= forest);
        output
    }

    /// Renders the table of contents as an HTML list, ordered where
    /// `numbered` is set.
    pub fn render(&mut self, numbered: bool) -> (r: String)
        ensures
            r@ == list(old(self)@, numbered),
            *final(self) == *old(self),
    {
        let mut items = String::new();
        let mut i: usize = 0;
        let ghost forest = self@;
        proof {
            lemma_views(self.elements@);
            assert(forest.take(0) =~= Seq::<Entry>::empty());
        }
        while i < self.elements.len()
            invariant
                i <= self.elements.len(),
                *self == *old(self),
                forest == views(self.elements@),
                items@ == list_items(forest.take(i as int), numbered),
            decreases self.elements.len() - i,
        {
            proof {
                lemma_views(self.elements@);
                assert(forest.take(i + 1).drop_last() =~= forest.take(i as int));
            }
            let item = self.elements[i].render(numbered);
            items.append(item.as_str());
            i += 1;
        }
        assert(forest.take(i as int) =~= forest);
        let mut out = String::new();
        out.append("<");
        out.append(list_tag_text(numbered));
        out.append(">\n");
        out.append(items.as_str());
        out.append("\n</");
        out.append(list_tag_text(numbered));
        out.append(">\n");
        assert(out@ =~= list(forest, numbered));
        out
    }
}

} // verus!
