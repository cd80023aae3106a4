//! Projects and the list of a workspace's projects: the path-addressed
//! tree engine.

use vstd::prelude::*;
use vstd::string::StringExecFns;
use crate::model::{
    bar, branch, chain, corner, first_match, forest_paths, gap, graft, graft_all, join, listed,
    lowered, named, prune, related, render_forest, render_list, render_tree, resolve,
    suggestions, tree_paths, unknown_text, with_children, Tree,
};
use crate::search::{first_equal, is_text, lemma_first_index, lemma_first_index_corresponds};
use crate::text::{
    chars_contain, lemma_split_nonempty, lowercase, normalize, normalized, split_path,
    split_segments, texts, to_chars, to_lowercase,
};

verus! {

/// A project and the projects nested in it.
#[derive(Debug, PartialEq, Eq)]
pub struct Project {
    pub name: String,
    pub projects: Vec<Project>,
}

/// The tree that a project stands for.
pub open spec fn tree_of(p: Project) -> Tree
    decreases p,
{
    Tree {
        name: p.name@,
        children: Seq::new(
            p.projects@.len(),
            |i: int|
                if 0 <= i < p.projects@.len() {
                    tree_of(p.projects@[i])
                } else {
                    arbitrary()
                },
        ),
    }
}

/// The trees that a sequence of projects stands for.
pub open spec fn forest_of(nodes: Seq<Project>) -> Seq<Tree> {
    nodes.map_values(|p: Project| tree_of(p))
}

impl View for Project {
    type V = Tree;

    open spec fn view(&self) -> Tree {
        tree_of(*self)
    }
}

/// The children of a project's tree are the trees of its projects.
pub proof fn lemma_children(p: Project)
    ensures
        p@.children == forest_of(p.projects@),
        p@.name == p.name@,
{
    assert(p@.children =~= forest_of(p.projects@));
}

/// Why an insertion was refused.
#[derive(Debug, PartialEq, Eq, Structural)]
pub enum Conflict {
    /// The path's last segment names a node that is already there.
    AlreadyExists,
}

/// The names of `children` in lower case, in order.
fn folded_names(children: &Vec<Project>) -> (folded: Vec<String>)
    ensures
        folded.len() == children.len(),
        forall|j: int|
            0 <= j < children.len() ==> (#[trigger] folded@[j])@ == lowercase(
                children@[j].name@,
            ),
{
    let mut folded: Vec<String> = Vec::new();
    let mut k: usize = 0;
    while k < children.len()
        invariant
            0 <= k <= children.len(),
            folded.len() == k,
            forall|j: int|
                0 <= j < k ==> (#[trigger] folded@[j])@ == lowercase(children@[j].name@),
        decreases children.len() - k,
    {
        folded.push(to_lowercase(children[k].name.as_str()));
        k += 1;
    }
    folded
}

/// The position of the first of `children` whose name matches `name`.
fn find_child(children: &Vec<Project>, name: &str) -> (i: usize)
    ensures
        i == first_match(forest_of(children@), name@),
        i <= children.len(),
{
    let folded = folded_names(children);
    let wanted = to_lowercase(name);
    proof {
        lemma_first_index_corresponds(
            forest_of(children@),
            named(name@),
            texts(folded@),
            is_text(wanted@),
        );
    }
    first_equal(&folded, wanted.as_str())
}

/// Merge-insert of `project` among `children`.
fn graft_into(children: &mut Vec<Project>, project: Project) -> (r: Result<(), Conflict>)
    ensures
        forest_of(final(children)@) == graft(forest_of(old(children)@), project@).0,
        r is Ok <==> graft(forest_of(old(children)@), project@).1,
    decreases project@,
{
    proof {
        lemma_children(project);
    }
    let i = find_child(children, project.name.as_str());
    if i >= children.len() {
        children.push(project);
        assert(forest_of(children@) =~= forest_of(old(children)@).push(project@));
        return Ok(());
    }
    if project.projects.len() == 0 {
        return Err(Conflict::AlreadyExists);
    }
    let ghost before = forest_of(children@);
    let ghost items = project@.children;
    let mut rest = project.projects;
    let mut done: usize = 0;
    let mut outcome: Result<(), Conflict> = Ok(());
    proof {
        assert(before =~= before.update(i as int, with_children(before[i as int], before[i as int].children)));
    }
    while rest.len() > 0 && outcome.is_ok()
        invariant
            forest_of(rest@) == items.subrange(done as int, items.len() as int),
            0 <= done <= items.len(),
            done + rest.len() == items.len(),
            items.len() <= usize::MAX,
            i < children.len() == before.len(),
            forest_of(children@) == before.update(
                i as int,
                with_children(
                    before[i as int],
                    graft_all(before[i as int].children, items.subrange(0, done as int)).0,
                ),
            ),
            outcome is Ok <==> graft_all(before[i as int].children, items.subrange(0, done as int)).1,
            outcome is Err ==> graft_all(before[i as int].children, items) == graft_all(
                before[i as int].children,
                items.subrange(0, done as int),
            ),
            forall|k: int| 0 <= k < items.len() ==> decreases_to!(project@ => #[trigger] items[k]),
        decreases rest.len(),
    {
        let ghost pending = rest@;
        let ghost held = children@;
        let item = rest.remove(0);
        proof {
            assert(forest_of(pending)[0] == items.subrange(done as int, items.len() as int)[0]);
            assert(item@ == items[done as int]);
            assert forall|k: int| 0 <= k < rest@.len() implies forest_of(rest@)[k] == items[done
                + 1 + k] by {
                assert(forest_of(pending)[k + 1] == items.subrange(
                    done as int,
                    items.len() as int,
                )[k + 1]);
            }
            assert(forest_of(rest@) =~= items.subrange(done + 1, items.len() as int));
            assert(items.subrange(0, done + 1).drop_last() =~= items.subrange(0, done as int));
            lemma_children(held[i as int]);
            assert(forest_of(held)[i as int] == held[i as int]@);
        }
        let target = &mut children[i];
        outcome = graft_into(&mut target.projects, item);
        proof {
            lemma_children(children@[i as int]);
            assert(forest_of(children@) =~= before.update(
                i as int,
                with_children(
                    before[i as int],
                    graft_all(before[i as int].children, items.subrange(0, done + 1)).0,
                ),
            )) by {
                assert forall|k: int| 0 <= k < children@.len() && k != i implies forest_of(
                    children@,
                )[k] == before[k] by {
                    assert(forest_of(held)[k] == before[k]);
                }
            }
            if outcome is Err {
                lemma_graft_all_stops(before[i as int].children, items, done + 1);
            }
        }
        done += 1;
    }
    proof {
        if outcome is Ok {
            assert(items.subrange(0, done as int) =~= items);
        }
    }
    outcome
}

/// Once a prefix of `items` has hit a collision, the whole of `items` ends
/// in the same state.
pub proof fn lemma_graft_all_stops(children: Seq<Tree>, items: Seq<Tree>, k: int)
    requires
        0 <= k <= items.len(),
        !graft_all(children, items.subrange(0, k)).1,
    ensures
        graft_all(children, items) == graft_all(children, items.subrange(0, k)),
    decreases items.len(),
{
    if k == items.len() {
        assert(items.subrange(0, k) =~= items);
    } else {
        assert(items.drop_last().subrange(0, k) =~= items.subrange(0, k));
        lemma_graft_all_stops(children, items.drop_last(), k);
    }
}

/// A path that left the tree.
#[derive(Debug, Clone, PartialEq, Eq)]
pub struct NotFound {
    /// The segment that no child bears.
    pub segment: String,
}

/// Removal below `children` of the node that `segments`, from position `k`
/// on, address.
fn prune_at(children: &mut Vec<Project>, segments: &Vec<String>, k: usize) -> (r: Result<
    (),
    NotFound,
>)
    requires
        k < segments.len(),
    ensures
        match prune(
            forest_of(old(children)@),
            texts(segments@).subrange(k as int, segments.len() as int),
        ) {
            Ok(pruned) => r is Ok && forest_of(final(children)@) == pruned,
            Err(segment) => r is Err && r->Err_0.segment@ == segment && forest_of(
                final(children)@,
            ) == forest_of(old(children)@),
        },
    decreases segments.len() - k,
{
    let ghost before = forest_of(children@);
    let ghost tail = texts(segments@).subrange(k as int, segments.len() as int);
    let ghost held = children@;
    assert(tail[0] == segments@[k as int]@);
    let i = find_child(children, segments[k].as_str());
    if i >= children.len() {
        return Err(NotFound { segment: segments[k].clone() });
    }
    if k + 1 == segments.len() {
        children.remove(i);
        assert(forest_of(children@) =~= before.remove(i as int));
        return Ok(());
    }
    proof {
        assert(tail.drop_first() =~= texts(segments@).subrange(k + 1, segments.len() as int));
        lemma_children(held[i as int]);
        assert(before[i as int] == held[i as int]@);
    }
    let target = &mut children[i];
    let r = prune_at(&mut target.projects, segments, k + 1);
    proof {
        lemma_children(children@[i as int]);
        if r is Ok {
            assert(forest_of(children@) =~= before.update(
                i as int,
                with_children(before[i as int], children@[i as int]@.children),
            )) by {
                assert forall|j: int| 0 <= j < children@.len() && j != i implies forest_of(
                    children@,
                )[j] == before[j] by {
                    assert(forest_of(held)[j] == before[j]);
                }
            }
        } else {
            assert(forest_of(children@) =~= before) by {
                assert forall|j: int| 0 <= j < children@.len() implies forest_of(children@)[j]
                    == before[j] by {
                    assert(forest_of(held)[j] == before[j]);
                }
            }
        }
    }
    r
}

/// The node below `children` that `segments`, from position `k` on, address.
fn resolve_at<'a>(children: &'a Vec<Project>, segments: &Vec<String>, k: usize) -> (r: Option<
    &'a Project,
>)
    requires
        k < segments.len(),
    ensures
        match resolve(
            forest_of(children@),
            texts(segments@).subrange(k as int, segments.len() as int),
        ) {
            Some(t) => r is Some && r->Some_0@ == t,
            None => r is None,
        },
    decreases segments.len() - k,
{
    let ghost tail = texts(segments@).subrange(k as int, segments.len() as int);
    assert(tail[0] == segments@[k as int]@);
    let i = find_child(children, segments[k].as_str());
    if i >= children.len() {
        return None;
    }
    assert(forest_of(children@)[i as int] == children@[i as int]@);
    if k + 1 == segments.len() {
        return Some(&children[i]);
    }
    proof {
        assert(tail.drop_first() =~= texts(segments@).subrange(k + 1, segments.len() as int));
        lemma_children(children@[i as int]);
    }
    resolve_at(&children[i].projects, segments, k + 1)
}

/// The text of an optional prefix.
pub open spec fn prefix_text(prefix: Option<&str>) -> Option<Seq<char>> {
    match prefix {
        None => None,
        Some(p) => Some(p@),
    }
}

/// The path of the node `name` below `prefix`.
fn join_path(prefix: Option<&str>, name: &str, separator: &str) -> (path: String)
    ensures
        path@ == join(prefix_text(prefix), name@, separator@),
{
    match prefix {
        None => name.to_owned(),
        Some(p) => {
            let mut path = p.to_owned();
            path.append(separator);
            path.append(name);
            path
        },
    }
}

/// Appends to `out` the paths of `node` and of everything below it.
fn collect_paths(node: &Project, prefix: Option<&str>, separator: &str, out: &mut Vec<String>)
    ensures
        texts(final(out)@) == texts(old(out)@) + tree_paths(
            node@,
            prefix_text(prefix),
            separator@,
        ),
    decreases node@,
{
    proof {
        lemma_children(*node);
    }
    let path = join_path(prefix, node.name.as_str(), separator);
    let ghost below = node@.children;
    let ghost start = texts(out@);
    out.push(path.clone());
    assert(texts(out@) =~= start + seq![path@]);
    let mut k: usize = 0;
    assert(below.subrange(0, 0) =~= Seq::<Tree>::empty());
    while k < node.projects.len()
        invariant
            0 <= k <= node.projects.len(),
            below == forest_of(node.projects@),
            below == node@.children,
            texts(out@) == start + seq![path@] + forest_paths(
                below.subrange(0, k as int),
                Some(path@),
                separator@,
            ),
        decreases node.projects.len() - k,
    {
        assert(below[k as int] == node.projects@[k as int]@);
        collect_paths(&node.projects[k], Some(path.as_str()), separator, out);
        proof {
            assert(below.subrange(0, k + 1).drop_last() =~= below.subrange(0, k as int));
            assert(texts(out@) =~= start + seq![path@] + forest_paths(
                below.subrange(0, k + 1),
                Some(path@),
                separator@,
            ));
        }
        k += 1;
    }
    assert(below.subrange(0, k as int) =~= below);
}

/// Appends to `out` the lines of the diagram for `node` and everything
/// below it.
fn render_into(node: &Project, prefix: &str, last: bool, out: &mut String)
    ensures
        final(out)@ == old(out)@ + render_tree(node@, prefix@, last),
    decreases node@,
{
    proof {
        lemma_children(*node);
    }
    let ghost start = out@;
    let ghost below = node@.children;
    out.append(prefix);
    out.append(if last { "└───" } else { "├───" });
    out.append(node.name.as_str());
    out.append("\n");
    let mut inner = prefix.to_owned();
    inner.append(if last { "    " } else { "│   " });
    let ghost head = prefix@ + (if last { corner() } else { branch() }) + node.name@ + "\n"@;
    assert(out@ =~= start + head);
    let n = node.projects.len();
    let mut k: usize = 0;
    while k < n
        invariant
            0 <= k <= n == node.projects.len(),
            below == forest_of(node.projects@),
            below == node@.children,
            inner@ == prefix@ + (if last { gap() } else { bar() }),
            out@ == start + head + render_forest(below, inner@, k as nat),
        decreases n - k,
    {
        assert(below[k as int] == node.projects@[k as int]@);
        render_into(&node.projects[k], inner.as_str(), k + 1 == n, out);
        proof {
            assert(out@ =~= start + head + render_forest(below, inner@, (k + 1) as nat));
        }
        k += 1;
    }
    assert(out@ =~= start + render_tree(node@, prefix@, last));
}

/// A query that matches no path, with what may have been meant.
#[derive(Debug, Clone, PartialEq, Eq)]
pub struct SuggestionError {
    /// The query in its normal form: lower case, every separator a colon.
    pub query: String,
    /// The lower-case paths that contain the query or are contained in it,
    /// in the order of the tree.
    pub suggestions: Vec<String>,
}

impl SuggestionError {
    /// The message for the user: that no project bears the name, and, where
    /// there are any, the paths that may have been meant, one on each line.
    pub fn message(&self) -> (text: String)
        ensures
            text@ == unknown_text(self.query@, texts(self.suggestions@)),
    {
        let mut text = "No projects with the name '".to_owned();
        text.append(self.query.as_str());
        text.append("' found!");
        if self.suggestions.len() > 0 {
            text.append("\nDid you mean:");
            let ghost head = text@;
            let ghost all = texts(self.suggestions@);
            let mut k: usize = 0;
            assert(all.subrange(0, 0) =~= Seq::<Seq<char>>::empty());
            while k < self.suggestions.len()
                invariant
                    0 <= k <= self.suggestions.len(),
                    all == texts(self.suggestions@),
                    text@ == head + listed(all.subrange(0, k as int)),
                decreases self.suggestions.len() - k,
            {
                text.append("\n");
                text.append(self.suggestions[k].as_str());
                proof {
                    assert(all.subrange(0, k + 1).drop_last() =~= all.subrange(0, k as int));
                    assert(all.subrange(0, k + 1).last() == self.suggestions@[k as int]@);
                    assert(text@ =~= head + listed(all.subrange(0, k + 1)));
                }
                k += 1;
            }
            assert(all.subrange(0, k as int) =~= all);
        }
        text
    }
}

impl Conflict {
    /// The message for the user.
    pub fn message(&self) -> (text: String)
        ensures
            text@ == "Project with that name already exists!"@,
    {
        "Project with that name already exists!".to_owned()
    }
}

impl NotFound {
    /// The message for the user.
    pub fn message(&self) -> (text: String)
        ensures
            text@ == "Failed to find project with matching name!"@,
    {
        "Failed to find project with matching name!".to_owned()
    }
}

/// Of `items`, those that contain `query` or are contained in it, in
/// their order.
pub fn close_matches(items: &Vec<String>, query: &str) -> (found: Vec<String>)
    ensures
        texts(found@) == texts(items@).filter(related(query@)),
{
    let wanted = to_chars(query);
    let mut found: Vec<String> = Vec::new();
    let ghost all = texts(items@);
    let mut j: usize = 0;
    proof {
        reveal(Seq::filter);
        assert(all.subrange(0, 0) =~= Seq::<Seq<char>>::empty());
    }
    while j < items.len()
        invariant
            0 <= j <= items.len(),
            texts(items@) == all,
            wanted@ == query@,
            texts(found@) == all.subrange(0, j as int).filter(related(query@)),
        decreases items.len() - j,
    {
        let candidate = to_chars(items[j].as_str());
        proof {
            reveal(Seq::filter);
            assert(texts(items@)[j as int] == items@[j as int]@);
            assert(all.subrange(0, j + 1).drop_last() =~= all.subrange(0, j as int));
            assert(all.subrange(0, j + 1).last() == candidate@);
        }
        if chars_contain(&candidate, &wanted) || chars_contain(&wanted, &candidate) {
            let ghost held = texts(found@);
            found.push(items[j].clone());
            assert(texts(found@) =~= held.push(candidate@));
        }
        j += 1;
    }
    assert(all.subrange(0, j as int) =~= all);
    found
}

impl Project {
    /// The project that a path describes: `"a:b:c"` is `a`, holding `b`,
    /// holding `c`. Colon, slash and backslash separate alike.
    pub fn from_str(text: &str) -> (p: Project)
        ensures
            p@ == chain(split_path(text@)),
    {
        let mut segments = split_segments(text);
        let ghost all = texts(segments@);
        proof {
            lemma_split_nonempty(text@);
        }
        let last = segments.pop().unwrap();
        let mut node = Project { name: last, projects: Vec::new() };
        proof {
            lemma_children(node);
            assert(all.subrange(all.len() - 1, all.len() as int) =~= seq![all.last()]);
            assert(node@.children =~= Seq::<Tree>::empty());
        }
        while segments.len() > 0
            invariant
                segments.len() < all.len(),
                texts(segments@) == all.subrange(0, segments.len() as int),
                node@ == chain(all.subrange(segments.len() as int, all.len() as int)),
            decreases segments.len(),
        {
            let ghost held = segments@;
            let ghost below = node@;
            let name = segments.pop().unwrap();
            let mut projects: Vec<Project> = Vec::new();
            projects.push(node);
            node = Project { name, projects };
            proof {
                let n = segments.len() as int;
                lemma_children(node);
                assert(texts(held)[n] == all.subrange(0, n + 1)[n]);
                assert(texts(segments@) =~= all.subrange(0, n));
                assert(all.subrange(n, all.len() as int).drop_first() =~= all.subrange(
                    n + 1,
                    all.len() as int,
                ));
                assert(node@.children =~= seq![below]);
            }
        }
        assert(all.subrange(0, all.len() as int) =~= all);
        node
    }

    /// Merge-insert of `project` among this project's children: a child
    /// that bears its name receives its children, a new name is appended, and
    /// a leaf whose name is taken is refused.
    pub fn add(&mut self, project: Project) -> (r: Result<(), Conflict>)
        ensures
            final(self)@ == with_children(
                old(self)@,
                graft(old(self)@.children, project@).0,
            ),
            r is Ok <==> graft(old(self)@.children, project@).1,
    {
        proof {
            lemma_children(*self);
        }
        let r = graft_into(&mut self.projects, project);
        proof {
            lemma_children(*self);
        }
        r
    }

    /// Removes the node that the path `name` addresses below this project.
    /// Only that node and what it holds leave the tree; a path that leaves
    /// the tree changes nothing and names the segment that no child bears.
    pub fn remove(&mut self, name: &str) -> (r: Result<(), NotFound>)
        ensures
            match prune(old(self)@.children, split_path(name@)) {
                Ok(pruned) => r is Ok && final(self)@ == with_children(old(self)@, pruned),
                Err(segment) => r is Err && r->Err_0.segment@ == segment && final(self)@ == old(
                    self,
                )@,
            },
    {
        let segments = split_segments(name);
        proof {
            lemma_split_nonempty(name@);
            lemma_children(*self);
            assert(texts(segments@).subrange(0, segments.len() as int) =~= texts(segments@));
        }
        let r = prune_at(&mut self.projects, &segments, 0);
        proof {
            lemma_children(*self);
        }
        r
    }

    /// The folders of this project and of everything nested in it, below the
    /// folder `base`: one path for each node, parents before children.
    pub fn folder_paths(&self, base: &str, separator: &str) -> (paths: Vec<String>)
        ensures
            texts(paths@) == tree_paths(self@, Some(base@), separator@),
    {
        let mut paths: Vec<String> = Vec::new();
        collect_paths(self, Some(base), separator, &mut paths);
        assert(texts(paths@) =~= tree_paths(self@, Some(base@), separator@));
        paths
    }

    /// The node that the path `path` addresses below this project.
    pub fn resolve(&self, path: &str) -> (r: Option<&Project>)
        ensures
            match resolve(self@.children, split_path(path@)) {
                Some(t) => r is Some && r->Some_0@ == t,
                None => r is None,
            },
    {
        let segments = split_segments(path);
        proof {
            lemma_split_nonempty(path@);
            lemma_children(*self);
            assert(texts(segments@).subrange(0, segments.len() as int) =~= texts(segments@));
        }
        resolve_at(&self.projects, &segments, 0)
    }
}

/// The projects of a workspace: the root of the hierarchy.
#[derive(Debug, PartialEq, Eq)]
pub struct ProjectList {
    pub projects: Vec<Project>,
}

impl View for ProjectList {
    type V = Seq<Tree>;

    open spec fn view(&self) -> Seq<Tree> {
        forest_of(self.projects@)
    }
}

impl ProjectList {
    /// A list without projects.
    pub fn new() -> (list: ProjectList)
        ensures
            list@ == Seq::<Tree>::empty(),
    {
        let list = ProjectList { projects: Vec::new() };
        assert(list@ =~= Seq::<Tree>::empty());
        list
    }

    /// Merge-insert of `project` at the top of the list: a project that
    /// bears its name receives its children, a new name is appended, and a
    /// leaf whose name is taken is refused.
    pub fn add(&mut self, project: Project) -> (r: Result<(), Conflict>)
        ensures
            final(self)@ == graft(old(self)@, project@).0,
            r is Ok <==> graft(old(self)@, project@).1,
    {
        graft_into(&mut self.projects, project)
    }

    /// Removes the project that the path `name` addresses. Only that node
    /// and what it holds leave the list; a path that leaves the tree changes
    /// nothing and names the segment that no project bears.
    pub fn remove_project(&mut self, name: &str) -> (r: Result<(), NotFound>)
        ensures
            match prune(old(self)@, split_path(name@)) {
                Ok(pruned) => r is Ok && final(self)@ == pruned,
                Err(segment) => r is Err && r->Err_0.segment@ == segment && final(self)@ == old(
                    self,
                )@,
            },
    {
        let segments = split_segments(name);
        proof {
            lemma_split_nonempty(name@);
            assert(texts(segments@).subrange(0, segments.len() as int) =~= texts(segments@));
        }
        prune_at(&mut self.projects, &segments, 0)
    }

    /// The project that the path `path` addresses.
    pub fn resolve(&self, path: &str) -> (r: Option<&Project>)
        ensures
            match resolve(self@, split_path(path@)) {
                Some(t) => r is Some && r->Some_0@ == t,
                None => r is None,
            },
    {
        let segments = split_segments(path);
        proof {
            lemma_split_nonempty(path@);
            assert(texts(segments@).subrange(0, segments.len() as int) =~= texts(segments@));
        }
        resolve_at(&self.projects, &segments, 0)
    }

    /// The path of every project of the list, segments joined by colons:
    /// each project before what is nested in it, siblings in stored order.
    pub fn get_project_names(&self) -> (names: Vec<String>)
        ensures
            texts(names@) == forest_paths(self@, None, ":"@),
    {
        let mut names: Vec<String> = Vec::new();
        let mut k: usize = 0;
        assert(self@.subrange(0, 0) =~= Seq::<Tree>::empty());
        while k < self.projects.len()
            invariant
                0 <= k <= self.projects.len(),
                texts(names@) == forest_paths(self@.subrange(0, k as int), None, ":"@),
            decreases self.projects.len() - k,
        {
            assert(self@[k as int] == self.projects@[k as int]@);
            collect_paths(&self.projects[k], None, ":", &mut names);
            proof {
                assert(self@.subrange(0, k + 1).drop_last() =~= self@.subrange(0, k as int));
            }
            k += 1;
        }
        assert(self@.subrange(0, k as int) =~= self@);
        names
    }

    /// Whether a project with the path `name` exists, compared in lower
    /// case with separators unified. Where none does, the error carries the
    /// normal form of the query and every lower-case path that contains it
    /// or is contained in it, in the order of the tree.
    pub fn project_exists(&self, name: &str) -> (r: Result<(), SuggestionError>)
        ensures
            match r {
                Ok(_) => lowered(forest_paths(self@, None, ":"@)).contains(normalized(name@)),
                Err(e) => {
                    &&& !lowered(forest_paths(self@, None, ":"@)).contains(normalized(name@))
                    &&& e.query@ == normalized(name@)
                    &&& texts(e.suggestions@) == suggestions(
                        forest_paths(self@, None, ":"@),
                        normalized(name@),
                    )
                },
            },
    {
        let query = normalize(name);
        let names = self.get_project_names();
        let ghost paths = forest_paths(self@, None, ":"@);
        let mut lower: Vec<String> = Vec::new();
        let mut k: usize = 0;
        while k < names.len()
            invariant
                0 <= k <= names.len(),
                texts(names@) == paths,
                texts(lower@) == lowered(paths).subrange(0, k as int),
            decreases names.len() - k,
        {
            let folded = to_lowercase(names[k].as_str());
            proof {
                assert(texts(names@)[k as int] == names@[k as int]@);
                assert(folded@ == lowered(paths)[k as int]);
            }
            let ghost held = texts(lower@);
            lower.push(folded);
            assert(texts(lower@) =~= held.push(folded@));
            assert(texts(lower@) =~= lowered(paths).subrange(0, k + 1));
            k += 1;
        }
        assert(lowered(paths).subrange(0, k as int) =~= lowered(paths));
        proof {
            lemma_first_index(texts(lower@), is_text(query@));
        }
        if first_equal(&lower, query.as_str()) < lower.len() {
            return Ok(());
        }
        let found = close_matches(&lower, query.as_str());
        Err(SuggestionError { query, suggestions: found })
    }

    /// The list as a diagram: the heading `Projects`, then one line for each
    /// project, nested projects indented below their parent and joined to
    /// it by box-drawing connectors.
    pub fn render(&self) -> (text: String)
        ensures
            text@ == render_list(self@),
    {
        let mut text = "Projects\n".to_owned();
        let ghost head = text@;
        let n = self.projects.len();
        let mut k: usize = 0;
        proof {
            assert(""@ =~= Seq::<char>::empty()) by {
                reveal_strlit("");
            }
        }
        while k < n
            invariant
                0 <= k <= n == self.projects.len(),
                ""@ == Seq::<char>::empty(),
                text@ == head + render_forest(self@, Seq::empty(), k as nat),
            decreases n - k,
        {
            assert(self@[k as int] == self.projects@[k as int]@);
            render_into(&self.projects[k], "", k + 1 == n, &mut text);
            proof {
                assert(text@ =~= head + render_forest(self@, Seq::empty(), (k + 1) as nat));
            }
            k += 1;
        }
        text
    }
}

} // verus!
