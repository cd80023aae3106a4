//! What holds of the tree engine's operations together.

use vstd::prelude::*;
use crate::model::{
    chain, first_match, forest_paths, graft, graft_all, named, prune, resolve, tree_paths,
    with_children, Tree,
};
use crate::search::{lemma_first_index, lemma_first_index_agrees, lemma_first_index_is};
use crate::text::same_name;

verus! {

/// Merge-insert of one tree is merge-insert of its sequence.
pub proof fn lemma_graft_all_one(children: Seq<Tree>, t: Tree)
    ensures
        graft_all(children, seq![t]) == graft(children, t),
{
    reveal_with_fuel(graft_all, 2);
    assert(seq![t].drop_last() =~= Seq::<Tree>::empty());
}

/// The tree of a path with more than one segment holds the tree of the
/// rest of the path, and nothing else.
pub proof fn lemma_chain_unfolds(segments: Seq<Seq<char>>)
    requires
        segments.len() >= 1,
    ensures
        chain(segments).name == segments[0],
        segments.len() == 1 ==> chain(segments).children.len() == 0,
        segments.len() > 1 ==> chain(segments).children == seq![chain(segments.drop_first())],
{
}

/// A refused insertion changes nothing: where the merge-insert of a path
/// fails, the children are what they were.
pub proof fn lemma_refused_path_changes_nothing(children: Seq<Tree>, segments: Seq<Seq<char>>)
    requires
        segments.len() >= 1,
        !graft(children, chain(segments)).1,
    ensures
        graft(children, chain(segments)).0 == children,
    decreases segments.len(),
{
    let t = chain(segments);
    lemma_chain_unfolds(segments);
    let i = first_match(children, t.name);
    if 0 <= i < children.len() && t.children.len() > 0 {
        let rest = segments.drop_first();
        lemma_graft_all_one(children[i].children, chain(rest));
        lemma_refused_path_changes_nothing(children[i].children, rest);
        assert(children.update(i, with_children(children[i], children[i].children))
            =~= children);
    }
}

/// The tree of a path collides with itself.
pub proof fn lemma_chain_collides(segments: Seq<Seq<char>>)
    requires
        segments.len() >= 1,
    ensures
        !graft(seq![chain(segments)], chain(segments)).1,
    decreases segments.len(),
{
    let t = chain(segments);
    lemma_chain_unfolds(segments);
    lemma_first_index_is(seq![t], named(t.name), 0);
    if t.children.len() > 0 {
        let rest = segments.drop_first();
        lemma_graft_all_one(t.children, chain(rest));
        lemma_chain_collides(rest);
    }
}

/// A path cannot be inserted twice: after its merge-insert has succeeded,
/// a second one of the same path is refused.
pub proof fn lemma_second_insert_collides(children: Seq<Tree>, segments: Seq<Seq<char>>)
    requires
        segments.len() >= 1,
        graft(children, chain(segments)).1,
    ensures
        !graft(graft(children, chain(segments)).0, chain(segments)).1,
    decreases segments.len(),
{
    let t = chain(segments);
    lemma_chain_unfolds(segments);
    lemma_first_index(children, named(t.name));
    let i = first_match(children, t.name);
    let after = graft(children, t).0;
    if !(0 <= i < children.len()) {
        assert(after == children.push(t));
        lemma_first_index_is(after, named(t.name), children.len() as int);
        if t.children.len() > 0 {
            let rest = segments.drop_first();
            lemma_graft_all_one(t.children, chain(rest));
            lemma_chain_collides(rest);
        }
    } else {
        let rest = segments.drop_first();
        lemma_graft_all_one(children[i].children, chain(rest));
        let merged = graft(children[i].children, chain(rest)).0;
        assert(after == children.update(i, with_children(children[i], merged)));
        lemma_first_index_is(after, named(t.name), i);
        lemma_second_insert_collides(children[i].children, rest);
        lemma_graft_all_one(merged, chain(rest));
    }
}

/// Insertion keeps what is there: after a merge-insert, whether it
/// succeeded or not, every child that was there is still there, in the same
/// place and under the same name, and all but the one that was reused are
/// unchanged. A new child stands behind them.
pub proof fn lemma_insert_keeps_siblings(children: Seq<Tree>, t: Tree)
    ensures
        ({
            let i = first_match(children, t.name);
            let after = graft(children, t).0;
            if 0 <= i < children.len() {
                &&& after.len() == children.len()
                &&& after[i].name == children[i].name
                &&& forall|k: int| 0 <= k < children.len() && k != i ==> after[k] == children[k]
            } else {
                after == children.push(t)
            }
        }),
{
    lemma_first_index(children, named(t.name));
}

/// A new name is listed last: where no child bears the first segment of a
/// path, the paths after its insertion are the paths before it, followed by
/// those of the path's own tree.
pub proof fn lemma_fresh_path_is_listed_last(
    children: Seq<Tree>,
    segments: Seq<Seq<char>>,
    separator: Seq<char>,
)
    requires
        segments.len() >= 1,
        first_match(children, segments[0]) == children.len(),
    ensures
        graft(children, chain(segments)).1,
        forest_paths(graft(children, chain(segments)).0, None, separator) == forest_paths(
            children,
            None,
            separator,
        ) + tree_paths(chain(segments), None, separator),
{
    lemma_chain_unfolds(segments);
    let after = children.push(chain(segments));
    assert(after.drop_last() =~= children);
}

/// The tree of a path holds the path.
pub proof fn lemma_chain_resolves(segments: Seq<Seq<char>>)
    requires
        segments.len() >= 1,
    ensures
        resolve(seq![chain(segments)], segments) is Some,
        resolve(seq![chain(segments)], segments)->Some_0.name == segments.last(),
    decreases segments.len(),
{
    let t = chain(segments);
    lemma_chain_unfolds(segments);
    lemma_first_index_is(seq![t], named(segments[0]), 0);
    if segments.len() > 1 {
        lemma_chain_resolves(segments.drop_first());
    }
}

/// What was inserted is found: after the merge-insert of a path has
/// succeeded, the path resolves, to a node that bears its last segment's
/// name without regard to case.
pub proof fn lemma_inserted_path_resolves(children: Seq<Tree>, segments: Seq<Seq<char>>)
    requires
        segments.len() >= 1,
        graft(children, chain(segments)).1,
    ensures
        resolve(graft(children, chain(segments)).0, segments) is Some,
        same_name(
            resolve(graft(children, chain(segments)).0, segments)->Some_0.name,
            segments.last(),
        ),
    decreases segments.len(),
{
    let t = chain(segments);
    lemma_chain_unfolds(segments);
    lemma_first_index(children, named(t.name));
    let i = first_match(children, t.name);
    let after = graft(children, t).0;
    if !(0 <= i < children.len()) {
        assert(after == children.push(t));
        lemma_first_index_is(after, named(t.name), children.len() as int);
        if segments.len() > 1 {
            lemma_chain_resolves(segments.drop_first());
        }
    } else {
        let rest = segments.drop_first();
        lemma_graft_all_one(children[i].children, chain(rest));
        let merged = graft(children[i].children, chain(rest)).0;
        assert(after == children.update(i, with_children(children[i], merged)));
        lemma_first_index_is(after, named(t.name), i);
        lemma_inserted_path_resolves(children[i].children, rest);
    }
}

/// Lookup is blind to case: two paths whose segments agree without regard
/// to case resolve to the same node, with its name as it is stored.
pub proof fn lemma_resolve_ignores_case(
    children: Seq<Tree>,
    a: Seq<Seq<char>>,
    b: Seq<Seq<char>>,
)
    requires
        a.len() == b.len(),
        forall|k: int| 0 <= k < a.len() ==> same_name(#[trigger] a[k], b[k]),
    ensures
        resolve(children, a) == resolve(children, b),
    decreases a.len(),
{
    if a.len() > 0 {
        assert(same_name(a[0], b[0]));
        lemma_first_index_agrees(children, named(a[0]), named(b[0]));
        let i = first_match(children, a[0]);
        if 0 <= i < children.len() && a.len() > 1 {
            assert forall|k: int| 0 <= k < a.drop_first().len() implies same_name(
                #[trigger] a.drop_first()[k],
                b.drop_first()[k],
            ) by {
                assert(same_name(a[k + 1], b[k + 1]));
            }
            lemma_resolve_ignores_case(children[i].children, a.drop_first(), b.drop_first());
        }
    }
}

/// Removal succeeds exactly where the path resolves.
pub proof fn lemma_removal_follows_lookup(children: Seq<Tree>, segments: Seq<Seq<char>>)
    ensures
        prune(children, segments) is Ok <==> resolve(children, segments) is Some,
    decreases segments.len(),
{
    if segments.len() > 0 {
        let i = first_match(children, segments[0]);
        if 0 <= i < children.len() && segments.len() > 1 {
            lemma_removal_follows_lookup(children[i].children, segments.drop_first());
        }
    }
}

/// Removal keeps the rest: the siblings of the removed node, and of each
/// of its ancestors, stay as they are and in their order.
pub proof fn lemma_removal_keeps_siblings(children: Seq<Tree>, segments: Seq<Seq<char>>)
    requires
        prune(children, segments) is Ok,
    ensures
        ({
            let i = first_match(children, segments[0]);
            let pruned = prune(children, segments)->Ok_0;
            &&& 0 <= i < children.len()
            &&& segments.len() == 1 ==> pruned == children.remove(i)
            &&& segments.len() > 1 ==> pruned.len() == children.len() && pruned[i].name
                == children[i].name && forall|k: int|
                0 <= k < children.len() && k != i ==> pruned[k] == children[k]
        }),
{
}

} // verus!
