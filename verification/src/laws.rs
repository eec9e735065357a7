//! Laws of the table of contents, proved over the model.

use vstd::prelude::*;
use crate::markup::{nav_entry, nav_point, nav_points};
use crate::model::{
    count, depth, forest_depth, in_range, inserted, lemma_lifted_below, lifted, size, with_child,
    Entry,
};

verus! {

/// The siblings that stand `depth` steps down the last entries of a forest:
/// the forest itself at depth 0, the children of its last entry at depth 1,
/// and so on; no siblings where the last entries end before that depth.
pub open spec fn last_branch(siblings: Seq<Entry>, depth: nat) -> Seq<Entry>
    decreases depth,
{
    if depth == 0 {
        siblings
    } else if siblings.len() == 0 {
        Seq::empty()
    } else {
        last_branch(siblings.last().children, (depth - 1) as nat)
    }
}

/// The number of steps down the last entries of a forest on which an entry
/// of the given level lies deeper than the last entry found there.
pub open spec fn landing_depth(siblings: Seq<Entry>, level: int) -> nat
    decreases siblings,
{
    if siblings.len() > 0 && level > siblings.last().level {
        1 + landing_depth(siblings.last().children, level)
    } else {
        0
    }
}

/// Insertion is greedy along the last entries. An inserted entry goes down
/// as long as it lies deeper than the last entry it finds, and no further:
/// where it stops there is no entry, or a last entry that it does not lie
/// deeper than. There it is appended, unchanged. On the way down every list
/// of siblings keeps its length, all its entries but the last, and the level,
/// link and title of the last.
pub proof fn lemma_insert_is_greedy(siblings: Seq<Entry>, e: Entry)
    ensures
        forall|d: nat|
            d < landing_depth(siblings, e.level) ==> {
                let before = #[trigger] last_branch(siblings, d);
                let after = last_branch(inserted(siblings, e), d);
                &&& before.len() > 0
                &&& e.level > before.last().level
                &&& after.len() == before.len()
                &&& after.drop_last() == before.drop_last()
                &&& after.last().level == before.last().level
                &&& after.last().url == before.last().url
                &&& after.last().title == before.last().title
            },
        ({
            let stop = last_branch(siblings, landing_depth(siblings, e.level));
            stop.len() == 0 || e.level <= stop.last().level
        }),
        last_branch(inserted(siblings, e), landing_depth(siblings, e.level)) == last_branch(
            siblings,
            landing_depth(siblings, e.level),
        ).push(e),
    decreases siblings,
{
    if siblings.len() > 0 && e.level > siblings.last().level {
        let below = siblings.last().children;
        lemma_insert_is_greedy(below, e);
        let depth = landing_depth(siblings, e.level);
        assert(depth == 1 + landing_depth(below, e.level));
        let grown = inserted(siblings, e);
        assert(grown.last().children == inserted(below, e));
        assert(grown.drop_last() =~= siblings.drop_last());
        assert forall|d: nat| d < depth implies ({
            let before = #[trigger] last_branch(siblings, d);
            let after = last_branch(grown, d);
            &&& before.len() > 0
            &&& e.level > before.last().level
            &&& after.len() == before.len()
            &&& after.drop_last() == before.drop_last()
            &&& after.last().level == before.last().level
            &&& after.last().url == before.last().url
            &&& after.last().title == before.last().title
        }) by {
            if d > 0 {
                let up = (d - 1) as nat;
                assert(last_branch(siblings, d) == last_branch(below, up));
                assert(last_branch(grown, d) == last_branch(inserted(below, e), up));
            }
        }
        let up = (depth - 1) as nat;
        assert(last_branch(siblings, depth) == last_branch(below, up));
        assert(last_branch(grown, depth) == last_branch(inserted(below, e), up));
    }
}

/// Whether a path of child indices can be followed down from an entry.
pub open spec fn leads(e: Entry, path: Seq<int>) -> bool
    decreases path.len(),
{
    path.len() == 0 || (0 <= path[0] < e.children.len() && leads(
        e.children[path[0]],
        path.drop_first(),
    ))
}

/// The entry that a path of child indices leads to.
pub open spec fn descendant(e: Entry, path: Seq<int>) -> Entry
    decreases path.len(),
{
    if path.len() == 0 {
        e
    } else {
        descendant(e.children[path[0]], path.drop_first())
    }
}

/// Whether a lift of an entry goes all the way down a path: whether no
/// entry on the path lies deeper than its parent.
pub open spec fn lift_follows(e: Entry, path: Seq<int>) -> bool
    decreases path.len(),
{
    path.len() == 0 || (e.children[path[0]].level <= e.level && lift_follows(
        e.children[path[0]],
        path.drop_first(),
    ))
}

/// Whether in the tree below an entry every child lies deeper than its
/// parent.
pub open spec fn strictly_nested(e: Entry) -> bool
    decreases e,
{
    forall|i: int|
        0 <= i < e.children.len() ==> (#[trigger] e.children[i]).level > e.level
            && strictly_nested(e.children[i])
}

/// A path with one more step leads to a child of where the path leads.
pub proof fn lemma_descendant_step(e: Entry, path: Seq<int>, i: int)
    requires
        leads(e, path),
        0 <= i < descendant(e, path).children.len(),
    ensures
        leads(e, path.push(i)),
        descendant(e, path.push(i)) == descendant(e, path).children[i],
    decreases path.len(),
{
    let longer = path.push(i);
    let rest = longer.drop_first();
    let next = e.children[longer[0]];
    if path.len() == 0 {
        assert(rest =~= Seq::<int>::empty());
        assert(leads(next, rest));
        assert(descendant(next, rest) == next);
    } else {
        assert(rest =~= path.drop_first().push(i));
        lemma_descendant_step(next, path.drop_first(), i);
    }
}

/// A lift keeps the link and the title of the entry and the number of its
/// children, and sets its level.
pub proof fn lemma_lift_keeps(e: Entry, level: int)
    ensures
        lifted(e, level).level == level,
        lifted(e, level).url == e.url,
        lifted(e, level).title == e.title,
        lifted(e, level).children.len() == e.children.len(),
{
    lemma_lifted_below(e.children, e.level, level + 1);
}

/// What a lift does to each child of the entry: a child that did not lie
/// deeper than the entry lay before is lifted to the level below the new
/// one; a child that lay deeper stays as it is, with all that is nested
/// below it, also where the new level reaches or passes its own.
pub proof fn lemma_lift_children(e: Entry, level: int, i: int)
    requires
        0 <= i < e.children.len(),
    ensures
        e.children[i].level <= e.level ==> lifted(e, level).children[i] == lifted(
            e.children[i],
            level + 1,
        ) && lifted(e, level).children[i].level == level + 1,
        e.children[i].level > e.level ==> lifted(e, level).children[i] == e.children[i],
{
    lemma_lifted_below(e.children, e.level, level + 1);
}

/// A lift reaches every descendant down to which no entry lay deeper than
/// its parent: the descendant is lifted too, as many levels below the new
/// level as it stands steps below the entry.
pub proof fn lemma_lift_reaches(e: Entry, level: int, path: Seq<int>)
    requires
        leads(e, path),
        lift_follows(e, path),
    ensures
        leads(lifted(e, level), path),
        descendant(lifted(e, level), path) == lifted(descendant(e, path), level + path.len()),
        descendant(lifted(e, level), path).level == level + path.len(),
    decreases path.len(),
{
    if path.len() > 0 {
        lemma_lifted_below(e.children, e.level, level + 1);
        lemma_lift_reaches(e.children[path[0]], level + 1, path.drop_first());
    }
}

/// A lift stops at every descendant that lay deeper than its parent: that
/// descendant stays as it is, with all that is nested below it.
pub proof fn lemma_lift_stops(e: Entry, level: int, path: Seq<int>, i: int)
    requires
        leads(e, path),
        lift_follows(e, path),
        0 <= i < descendant(e, path).children.len(),
        descendant(e, path).children[i].level > descendant(e, path).level,
    ensures
        leads(lifted(e, level), path.push(i)),
        descendant(lifted(e, level), path.push(i)) == descendant(e, path.push(i)),
{
    lemma_lift_reaches(e, level, path);
    let d = descendant(e, path);
    lemma_lifted_below(d.children, d.level, level + path.len() + 1);
    lemma_descendant_step(e, path, i);
    lemma_descendant_step(lifted(e, level), path, i);
}

/// Every entry of a forest is less deep than the forest.
pub proof fn lemma_forest_depth(forest: Seq<Entry>, i: int)
    requires
        0 <= i < forest.len(),
    ensures
        depth(forest[i]) < forest_depth(forest),
    decreases forest.len(),
{
    if i < forest.len() - 1 {
        lemma_forest_depth(forest.drop_last(), i);
    }
}

/// The levels that a lift assigns are within range where the new level is,
/// and where as many levels below it as the entry is deep are.
pub proof fn lemma_lift_in_range(e: Entry, level: int)
    requires
        in_range(e),
        i32::MIN <= level,
        level + depth(e) <= i32::MAX,
    ensures
        in_range(lifted(e, level)),
    decreases e,
{
    lemma_lifted_below(e.children, e.level, level + 1);
    let after = lifted(e, level);
    assert forall|i: int| 0 <= i < after.children.len() implies in_range(
        #[trigger] after.children[i],
    ) by {
        let c = e.children[i];
        assert(in_range(c));
        lemma_forest_depth(e.children, i);
        if c.level <= e.level {
            lemma_lift_in_range(c, level + 1);
        }
    }
}

/// Attaching a child that does not lie deeper than its parent puts it on the
/// level below the parent's, whatever its level was, and every descendant of
/// it, down to which no entry lay deeper than its own parent, on the level
/// that its depth gives. The parent keeps its level, link and title, and the
/// children it had.
pub proof fn lemma_child_levels(parent: Entry, child: Entry, path: Seq<int>)
    requires
        child.level <= parent.level,
        leads(child, path),
        lift_follows(child, path),
    ensures
        with_child(parent, child).level == parent.level,
        with_child(parent, child).url == parent.url,
        with_child(parent, child).title == parent.title,
        with_child(parent, child).children.drop_last() == parent.children,
        with_child(parent, child).children.last().level == parent.level + 1,
        leads(with_child(parent, child).children.last(), path),
        descendant(with_child(parent, child).children.last(), path).level == parent.level + 1
            + path.len(),
{
    lemma_lift_reaches(child, parent.level + 1, path);
    assert(with_child(parent, child).children.drop_last() =~= parent.children);
}

/// Attaching a child that lies deeper than its parent leaves it unchanged.
pub proof fn lemma_child_kept(parent: Entry, child: Entry)
    requires
        child.level > parent.level,
    ensures
        with_child(parent, child).children.last() == child,
{
}

/// An attached child lies deeper than the entry it is attached to.
pub proof fn lemma_child_lies_deeper(parent: Entry, child: Entry)
    ensures
        with_child(parent, child).children.last().level > parent.level,
{
}

/// Insertion keeps every child deeper than its parent: where that held in
/// all the siblings and in the inserted entry, it holds in the result.
pub proof fn lemma_insert_nests_strictly(siblings: Seq<Entry>, e: Entry)
    requires
        forall|i: int| 0 <= i < siblings.len() ==> strictly_nested(#[trigger] siblings[i]),
        strictly_nested(e),
    ensures
        forall|i: int|
            0 <= i < inserted(siblings, e).len() ==> strictly_nested(
                #[trigger] inserted(siblings, e)[i],
            ),
    decreases siblings,
{
    let grown = inserted(siblings, e);
    if siblings.len() > 0 && e.level > siblings.last().level {
        let last = siblings.last();
        assert(strictly_nested(last));
        assert forall|k: int| 0 <= k < last.children.len() implies strictly_nested(
            #[trigger] last.children[k],
        ) by {}
        assert forall|k: int| 0 <= k < last.children.len() implies (#[trigger] last.children[k]).level
            > last.level by {}
        lemma_insert_nests_strictly(last.children, e);
        lemma_insert_level_floor(last.children, e, last.level);
        let below = inserted(last.children, e);
        assert(grown.last().children == below);
        assert(grown.last().level == last.level);
        assert forall|k: int| 0 <= k < below.len() implies (#[trigger] grown.last().children[k]).level
            > grown.last().level && strictly_nested(grown.last().children[k]) by {
            assert(strictly_nested(below[k]));
            assert(below[k].level > last.level);
        }
        assert(strictly_nested(grown.last()));
        assert forall|i: int| 0 <= i < grown.len() implies strictly_nested(#[trigger] grown[i]) by {
            if i < siblings.len() - 1 {
                assert(grown[i] == siblings[i]);
            }
        }
    } else {
        assert forall|i: int| 0 <= i < grown.len() implies strictly_nested(#[trigger] grown[i]) by {
            if i < siblings.len() {
                assert(grown[i] == siblings[i]);
            }
        }
    }
}

/// Insertion keeps the siblings above a level that they and the inserted
/// entry are above.
pub proof fn lemma_insert_level_floor(siblings: Seq<Entry>, e: Entry, floor: int)
    requires
        forall|i: int| 0 <= i < siblings.len() ==> (#[trigger] siblings[i]).level > floor,
        e.level > floor,
    ensures
        forall|i: int|
            0 <= i < inserted(siblings, e).len() ==> (#[trigger] inserted(siblings, e)[i]).level
                > floor,
{
    let grown = inserted(siblings, e);
    assert forall|i: int| 0 <= i < grown.len() implies (#[trigger] grown[i]).level > floor by {
        if i < siblings.len() - 1 {
            assert(grown[i] == siblings[i]);
        } else if i < siblings.len() {
            assert(grown[i].level == siblings[i].level);
        }
    }
}

/// The entries of a forest in document order: each entry before the
/// entries nested below it, and all of those before its next sibling.
pub open spec fn document_order(forest: Seq<Entry>) -> Seq<Entry>
    decreases forest,
{
    if forest.len() == 0 {
        Seq::empty()
    } else {
        document_order(forest.drop_last()).push(forest.last()) + document_order(
            forest.last().children,
        )
    }
}

/// The navigation points of a forest under a given numbering: `ids[k]` is
/// the identifier of the entry at position `k` of the document order.
pub open spec fn nav_points_numbered(forest: Seq<Entry>, ids: Seq<nat>) -> Seq<char>
    decreases forest,
{
    if forest.len() == 0 {
        Seq::empty()
    } else {
        let before = count(forest.drop_last()) as int;
        let last = forest.last();
        nav_points_numbered(forest.drop_last(), ids.take(before)) + nav_point(
            last,
            ids[before],
            nav_points_numbered(last.children, ids.subrange(before + 1, before + size(last))),
        )
    }
}

/// The `n` numbers that start at `first`, in rising order.
pub open spec fn counting(first: nat, n: nat) -> Seq<nat> {
    Seq::new(n, |k: int| (first + k) as nat)
}

/// Where the last entry of a forest, what stands before it and what is
/// nested below it are found in the document order of the forest.
pub proof fn lemma_document_order(forest: Seq<Entry>)
    ensures
        document_order(forest).len() == count(forest),
        forest.len() > 0 ==> {
            let before = count(forest.drop_last()) as int;
            &&& document_order(forest).take(before) == document_order(forest.drop_last())
            &&& document_order(forest)[before] == forest.last()
            &&& document_order(forest).subrange(before + 1, count(forest) as int) == document_order(
                forest.last().children,
            )
        },
    decreases forest,
{
    if forest.len() > 0 {
        lemma_document_order(forest.drop_last());
        lemma_document_order(forest.last().children);
        let before = count(forest.drop_last()) as int;
        assert(document_order(forest).take(before) =~= document_order(forest.drop_last()));
        assert(document_order(forest).subrange(before + 1, count(forest) as int) =~= document_order(
            forest.last().children,
        ));
    }
}

/// The navigation map numbers the entries in document order, without gaps:
/// the entry at position `k` of the document order of a forest that follows
/// `offset` earlier entries has the identifier `offset + 1 + k`. For a whole
/// table of contents, where `offset` is 0, the identifiers are 1 up to the
/// number of its entries.
pub proof fn lemma_ids_follow_document_order(forest: Seq<Entry>, offset: nat)
    ensures
        nav_points(forest, offset) == nav_points_numbered(
            forest,
            counting(offset + 1, count(forest)),
        ),
    decreases forest,
{
    if forest.len() > 0 {
        let init = forest.drop_last();
        let last = forest.last();
        let before = count(init) as int;
        let ids = counting(offset + 1, count(forest));
        lemma_ids_follow_document_order(init, offset);
        lemma_ids_follow_document_order(last.children, (offset + before + 1) as nat);
        assert(ids.take(before) =~= counting(offset + 1, count(init)));
        assert(ids.subrange(before + 1, before + size(last)) =~= counting(
            (offset + before + 2) as nat,
            count(last.children),
        ));
        assert(nav_points(forest, offset) == nav_points(init, offset) + nav_entry(
            last,
            (offset + before) as nat,
        ));
        assert(nav_entry(last, (offset + before) as nat) == nav_point(
            last,
            (offset + before + 1) as nat,
            nav_points(last.children, (offset + before + 1) as nat),
        ));
    }
}

/// Inserting an entry adds the entry, and all that is nested below it, to
/// those of the forest.
pub proof fn lemma_count_inserted(siblings: Seq<Entry>, e: Entry)
    ensures
        count(inserted(siblings, e)) == count(siblings) + size(e),
    decreases siblings,
{
    if siblings.len() > 0 && e.level > siblings.last().level {
        lemma_count_inserted(siblings.last().children, e);
        assert(inserted(siblings, e).drop_last() =~= siblings.drop_last());
    } else {
        assert(inserted(siblings, e).drop_last() =~= siblings);
    }
}

} // verus!
