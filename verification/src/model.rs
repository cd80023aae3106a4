//! The mathematical model of a project hierarchy: an ordered tree of named
//! nodes, and what each operation of the engine means on it.

use vstd::prelude::*;
use crate::search::first_index;
use crate::text::{is_substring, lowercase, same_name};

verus! {

/// A node of the hierarchy: its name as stored, and its children in order.
pub ghost struct Tree {
    pub name: Seq<char>,
    pub children: Seq<Tree>,
}

/// The property of bearing the name `name`, compared without regard to case.
pub open spec fn named(name: Seq<char>) -> spec_fn(Tree) -> bool {
    |t: Tree| same_name(t.name, name)
}

/// The position of the first child whose name matches `name`, or
/// `children.len()` if none does.
pub open spec fn first_match(children: Seq<Tree>, name: Seq<char>) -> int {
    first_index(children, named(name))
}

/// `t` with its children replaced.
pub open spec fn with_children(t: Tree, children: Seq<Tree>) -> Tree {
    Tree { name: t.name, children }
}

/// The tree that a path describes: one node per segment, each the only
/// child of the one before.
pub open spec fn chain(segments: Seq<Seq<char>>) -> Tree
    decreases segments.len(),
{
    if segments.len() == 0 {
        Tree { name: Seq::empty(), children: Seq::empty() }
    } else if segments.len() == 1 {
        Tree { name: segments[0], children: Seq::empty() }
    } else {
        Tree { name: segments[0], children: seq![chain(segments.drop_first())] }
    }
}

/// Merge-insert of the tree `t` among `children`. The result is the new
/// children and whether the insertion succeeded.
///
/// Where no child bears `t`'s name, `t` is appended, and that always
/// succeeds. Where one does, the first such child is reused: it keeps its
/// name and receives `t`'s children in the same way, one after the other.
/// A `t` without children is then a collision, and nothing changes.
pub open spec fn graft(children: Seq<Tree>, t: Tree) -> (Seq<Tree>, bool)
    decreases t,
{
    let i = first_match(children, t.name);
    if !(0 <= i < children.len()) {
        (children.push(t), true)
    } else if t.children.len() == 0 {
        (children, false)
    } else {
        let (merged, ok) = graft_all(children[i].children, t.children);
        (children.update(i, with_children(children[i], merged)), ok)
    }
}

/// Merge-insert of each of `items` in turn, stopping at the first collision:
/// what was inserted before it stays. The tree of a path has at most one
/// child at each level, so that the refused insertion of a path changes
/// nothing at all.
pub open spec fn graft_all(children: Seq<Tree>, items: Seq<Tree>) -> (Seq<Tree>, bool)
    decreases items,
{
    if items.len() == 0 {
        (children, true)
    } else {
        let (before, ok) = graft_all(children, items.drop_last());
        if ok {
            graft(before, items.last())
        } else {
            (before, false)
        }
    }
}

/// The node that `segments` addresses below `children`, if there is one.
pub open spec fn resolve(children: Seq<Tree>, segments: Seq<Seq<char>>) -> Option<Tree>
    decreases segments.len(),
{
    if segments.len() == 0 {
        None
    } else {
        let i = first_match(children, segments[0]);
        if !(0 <= i < children.len()) {
            None
        } else if segments.len() == 1 {
            Some(children[i])
        } else {
            resolve(children[i].children, segments.drop_first())
        }
    }
}

/// Removal of the node that `segments` addresses below `children`: the new
/// children, or the segment at which the path left the tree.
pub open spec fn prune(children: Seq<Tree>, segments: Seq<Seq<char>>) -> Result<
    Seq<Tree>,
    Seq<char>,
>
    decreases segments.len(),
{
    if segments.len() == 0 {
        Err(Seq::empty())
    } else {
        let i = first_match(children, segments[0]);
        if !(0 <= i < children.len()) {
            Err(segments[0])
        } else if segments.len() == 1 {
            Ok(children.remove(i))
        } else {
            match prune(children[i].children, segments.drop_first()) {
                Ok(below) => Ok(children.update(i, with_children(children[i], below))),
                Err(segment) => Err(segment),
            }
        }
    }
}

/// The path of a node: its name, behind its parent's path and a separator
/// where it has a parent.
pub open spec fn join(prefix: Option<Seq<char>>, name: Seq<char>, separator: Seq<char>) -> Seq<
    char,
> {
    match prefix {
        None => name,
        Some(p) => p + separator + name,
    }
}

/// The paths of `t` and of everything below it, parents before children,
/// siblings in their stored order.
pub open spec fn tree_paths(t: Tree, prefix: Option<Seq<char>>, separator: Seq<char>) -> Seq<
    Seq<char>,
>
    decreases t,
{
    let path = join(prefix, t.name, separator);
    seq![path] + forest_paths(t.children, Some(path), separator)
}

/// The paths of every node of a forest, tree after tree.
pub open spec fn forest_paths(
    nodes: Seq<Tree>,
    prefix: Option<Seq<char>>,
    separator: Seq<char>,
) -> Seq<Seq<char>>
    decreases nodes,
{
    if nodes.len() == 0 {
        Seq::empty()
    } else {
        forest_paths(nodes.drop_last(), prefix, separator) + tree_paths(
            nodes.last(),
            prefix,
            separator,
        )
    }
}


/// The lower-case forms of `names`, in the same order.
pub open spec fn lowered(names: Seq<Seq<char>>) -> Seq<Seq<char>> {
    names.map_values(|n: Seq<char>| lowercase(n))
}

/// The property of being close to `query`: to contain it, or to be
/// contained in it.
pub open spec fn related(query: Seq<char>) -> spec_fn(Seq<char>) -> bool {
    |n: Seq<char>| is_substring(query, n) || is_substring(n, query)
}

/// What is proposed in place of a `query` that matches no path: the
/// lower-case paths that are close to it, in their order.
pub open spec fn suggestions(paths: Seq<Seq<char>>, query: Seq<char>) -> Seq<Seq<char>> {
    lowered(paths).filter(related(query))
}

/// Each of `items` on a line of its own, behind a line break.
pub open spec fn listed(items: Seq<Seq<char>>) -> Seq<char>
    decreases items.len(),
{
    if items.len() == 0 {
        Seq::empty()
    } else {
        listed(items.drop_last()) + "\n"@ + items.last()
    }
}

/// The message for a query that matches no path.
pub open spec fn unknown_text(query: Seq<char>, proposals: Seq<Seq<char>>) -> Seq<char> {
    let head = "No projects with the name '"@ + query + "' found!"@;
    if proposals.len() > 0 {
        head + "\nDid you mean:"@ + listed(proposals)
    } else {
        head
    }
}

/// The connector of a node that has siblings below it.
pub open spec fn branch() -> Seq<char> {
    "├───"@
}

/// The connector of the last child.
pub open spec fn corner() -> Seq<char> {
    "└───"@
}

/// The column of an ancestor that has siblings below it.
pub open spec fn bar() -> Seq<char> {
    "│   "@
}

/// The column of an ancestor that was the last child.
pub open spec fn gap() -> Seq<char> {
    "    "@
}

/// The lines of the diagram for `t` and everything below it. `prefix` holds
/// one column for each ancestor of `t` but the outermost; `last` says that
/// `t` is the last of its siblings.
pub open spec fn render_tree(t: Tree, prefix: Seq<char>, last: bool) -> Seq<char>
    decreases t, 0nat,
{
    let connector = if last { corner() } else { branch() };
    let column = if last { gap() } else { bar() };
    prefix + connector + t.name + "\n"@ + render_forest(
        t.children,
        prefix + column,
        t.children.len(),
    )
}

/// The lines of the diagram for the first `k` of `nodes`.
pub open spec fn render_forest(nodes: Seq<Tree>, prefix: Seq<char>, k: nat) -> Seq<char>
    decreases nodes, k,
{
    if k == 0 || k > nodes.len() {
        Seq::empty()
    } else {
        render_forest(nodes, prefix, (k - 1) as nat) + render_tree(
            nodes[k - 1],
            prefix,
            k == nodes.len(),
        )
    }
}

/// The diagram of a project list: a heading, then one line for each node.
pub open spec fn render_list(nodes: Seq<Tree>) -> Seq<char> {
    "Projects\n"@ + render_forest(nodes, Seq::empty(), nodes.len())
}

} // verus!
