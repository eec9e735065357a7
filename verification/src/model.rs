//! The mathematical model of a table of contents: a forest of entries.

use vstd::prelude::*;

verus! {

/// What an entry of the table of contents is: a level, a link, a title and
/// the entries nested below it, in document order.
pub struct Entry {
    pub level: int,
    pub url: Seq<char>,
    pub title: Seq<char>,
    pub children: Seq<Entry>,
}

/// The number of entries in a forest, nested ones included.
pub open spec fn count(forest: Seq<Entry>) -> nat
    decreases forest,
{
    if forest.len() == 0 {
        0
    } else {
        count(forest.drop_last()) + 1 + count(forest.last().children)
    }
}

/// The siblings after an entry has been inserted by its level.
///
/// Only the last sibling is looked at. An entry that lies deeper than the
/// last sibling is inserted among that sibling's children, by the same rule;
/// any other entry, and any entry where there is no sibling yet, is appended
/// unchanged.
pub open spec fn inserted(siblings: Seq<Entry>, e: Entry) -> Seq<Entry>
    decreases siblings,
{
    if siblings.len() > 0 && e.level > siblings.last().level {
        siblings.drop_last().push(
            Entry { children: inserted(siblings.last().children, e), ..siblings.last() },
        )
    } else {
        siblings.push(e)
    }
}

/// An entry moved to another level. Each child that did not lie deeper than
/// the entry lay before the move is moved to the level below the new one, by
/// the same rule; every other child stays as it is, with all that is nested
/// below it.
pub open spec fn lifted(e: Entry, level: int) -> Entry
    decreases e,
{
    Entry { level, children: lifted_below(e.children, e.level, level + 1), ..e }
}

/// The children of a lifted entry, where `bound` is the level that the entry
/// had before: each child whose level is at most `bound` is lifted to
/// `level`, the others stay as they are.
pub open spec fn lifted_below(children: Seq<Entry>, bound: int, level: int) -> Seq<Entry>
    decreases children,
{
    if children.len() == 0 {
        Seq::empty()
    } else {
        lifted_below(children.drop_last(), bound, level).push(
            if children.last().level <= bound {
                lifted(children.last(), level)
            } else {
                children.last()
            },
        )
    }
}

/// What `lifted_below` does to each child, and to each prefix of the
/// children.
pub proof fn lemma_lifted_below(children: Seq<Entry>, bound: int, level: int)
    ensures
        lifted_below(children, bound, level).len() == children.len(),
        forall|i: int|
            0 <= i < children.len() ==> (#[trigger] lifted_below(children, bound, level)[i]) == (if children[i].level
                <= bound {
                lifted(children[i], level)
            } else {
                children[i]
            }),
        forall|n: int|
            0 <= n <= children.len() ==> (#[trigger] lifted_below(children, bound, level).take(n))
                == lifted_below(children.take(n), bound, level),
    decreases children.len(),
{
    let all = lifted_below(children, bound, level);
    if children.len() > 0 {
        let init = children.drop_last();
        lemma_lifted_below(init, bound, level);
        assert forall|n: int| 0 <= n <= children.len() implies (#[trigger] all.take(n))
            == lifted_below(children.take(n), bound, level) by {
            if n == children.len() {
                assert(children.take(n) =~= children);
                assert(all.take(n) =~= all);
            } else {
                assert(init.take(n) =~= children.take(n));
                assert(all.take(n) =~= lifted_below(init, bound, level).take(n));
            }
        }
    } else {
        assert forall|n: int| 0 <= n <= children.len() implies (#[trigger] all.take(n))
            == lifted_below(children.take(n), bound, level) by {
            assert(children.take(n) =~= children);
            assert(all.take(n) =~= all);
        }
    }
}

/// Whether every level in the tree below an entry, its own included, is
/// within the range of the executable level type.
pub open spec fn in_range(e: Entry) -> bool
    decreases e,
{
    &&& i32::MIN <= e.level <= i32::MAX
    &&& forall|i: int| 0 <= i < e.children.len() ==> in_range(#[trigger] e.children[i])
}

/// The number of steps from an entry down to the deepest entry nested
/// below it.
pub open spec fn depth(e: Entry) -> nat
    decreases e,
{
    forest_depth(e.children)
}

/// The number of entries on the longest way down a forest.
pub open spec fn forest_depth(forest: Seq<Entry>) -> nat
    decreases forest,
{
    if forest.len() == 0 {
        0
    } else if forest_depth(forest.drop_last()) > depth(forest.last()) {
        forest_depth(forest.drop_last())
    } else {
        1 + depth(forest.last())
    }
}

/// An entry with a child attached. A child that does not lie deeper than
/// the entry is first lifted to the level below the entry's.
pub open spec fn with_child(e: Entry, child: Entry) -> Entry {
    Entry {
        children: e.children.push(
            if child.level <= e.level {
                lifted(child, e.level + 1)
            } else {
                child
            },
        ),
        ..e
    }
}

/// The number of entries in the tree below one entry, itself included.
pub open spec fn size(e: Entry) -> nat {
    1 + count(e.children)
}

/// The entries of a prefix of a forest are among those of the forest.
pub proof fn lemma_count_prefix(forest: Seq<Entry>, n: int)
    requires
        0 <= n <= forest.len(),
    ensures
        count(forest.take(n)) <= count(forest),
        n < forest.len() ==> count(forest.take(n)) + size(forest[n]) == count(forest.take(n + 1)),
    decreases forest.len(),
{
    if n < forest.len() {
        assert(forest.take(n + 1).drop_last() =~= forest.take(n));
        lemma_count_prefix(forest.drop_last(), n);
        assert(forest.drop_last().take(n) =~= forest.take(n));
    } else {
        assert(forest.take(n) =~= forest);
    }
}

} // verus!
