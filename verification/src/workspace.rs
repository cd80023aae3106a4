//! Workspaces and the list of the workspaces that are known.

use vstd::prelude::*;
use vstd::string::StringExecFns;
use crate::model::{graft, lowered, forest_paths, suggestions, tree_paths};
use crate::project::{Conflict, Project, ProjectList, SuggestionError};
use crate::search::{first_equal, first_index, is_text, lemma_first_index_corresponds};
use crate::text::{
    lowercase, names_match, normalized, push_char, texts, to_chars, to_lowercase,
};

verus! {

/// A workspace: a name, and the folder that holds it.
#[derive(Debug, Clone, PartialEq, Eq)]
pub struct Workspace {
    pub name: String,
    pub path: String,
}

/// The workspaces that are known, and the name of the current one (empty
/// where none is current).
#[derive(Debug, Clone, PartialEq, Eq)]
pub struct WorkspaceList {
    pub workspaces: Vec<Workspace>,
    pub current: String,
}

/// The property of a workspace that the lower-case form of its name is
/// `folded`.
pub open spec fn called(folded: Seq<char>) -> spec_fn(Workspace) -> bool {
    |w: Workspace| lowercase(w.name@) == folded
}

/// The position of the first workspace whose name in lower case is
/// `folded`, or `workspaces.len()` if there is none.
pub open spec fn position(workspaces: Seq<Workspace>, folded: Seq<char>) -> int {
    first_index(workspaces, called(folded))
}

/// The message for a name that no workspace bears.
pub open spec fn no_workspace_text(name: Seq<char>) -> Seq<char> {
    "No workspace with the name \'"@ + name + "\'!"@
}

/// The message for a name that a workspace bears already.
pub open spec fn taken_text(name: Seq<char>) -> Seq<char> {
    "Workspace with the name \'"@ + name + "\' already exists"@
}

/// `s` with every colon replaced by `separator`.
pub open spec fn replace_colons(s: Seq<char>, separator: Seq<char>) -> Seq<char>
    decreases s.len(),
{
    if s.len() == 0 {
        Seq::empty()
    } else if s.last() == ':' {
        replace_colons(s.drop_last(), separator) + separator
    } else {
        replace_colons(s.drop_last(), separator).push(s.last())
    }
}

/// The folder of a workspace's settings.
pub open spec fn preferences_folder(path: Seq<char>, separator: Seq<char>) -> Seq<char> {
    path + separator + ".workspace"@
}

/// The file of a workspace's projects.
pub open spec fn database_file(path: Seq<char>, separator: Seq<char>) -> Seq<char> {
    preferences_folder(path, separator) + separator + "projects.json"@
}

/// The folder that holds a workspace's projects.
pub open spec fn projects_folder(path: Seq<char>, separator: Seq<char>) -> Seq<char> {
    path + separator + "projects"@
}

/// The names of `workspaces` in lower case, in order.
fn folded_names(workspaces: &Vec<Workspace>) -> (folded: Vec<String>)
    ensures
        folded.len() == workspaces.len(),
        forall|j: int|
            0 <= j < workspaces.len() ==> (#[trigger] folded@[j])@ == lowercase(
                workspaces@[j].name@,
            ),
{
    let mut folded: Vec<String> = Vec::new();
    let mut k: usize = 0;
    while k < workspaces.len()
        invariant
            0 <= k <= workspaces.len(),
            folded.len() == k,
            forall|j: int|
                0 <= j < k ==> (#[trigger] folded@[j])@ == lowercase(workspaces@[j].name@),
        decreases workspaces.len() - k,
    {
        folded.push(to_lowercase(workspaces[k].name.as_str()));
        k += 1;
    }
    folded
}

/// The position of the first of `workspaces` that bears the name `name`,
/// compared without regard to case.
fn find_workspace(workspaces: &Vec<Workspace>, name: &str) -> (i: usize)
    ensures
        i == position(workspaces@, lowercase(name@)),
        i <= workspaces.len(),
{
    let folded = folded_names(workspaces);
    let wanted = to_lowercase(name);
    proof {
        lemma_first_index_corresponds(
            workspaces@,
            called(wanted@),
            texts(folded@),
            is_text(wanted@),
        );
    }
    first_equal(&folded, wanted.as_str())
}

/// `text` with `separator` in place of each colon.
pub fn replace_colons_in(text: &str, separator: &str) -> (r: String)
    ensures
        r@ == replace_colons(text@, separator@),
{
    let chars = to_chars(text);
    let mut r = String::new();
    let mut k: usize = 0;
    assert(chars@.subrange(0, 0) =~= Seq::<char>::empty());
    while k < chars.len()
        invariant
            0 <= k <= chars.len(),
            r@ == replace_colons(chars@.subrange(0, k as int), separator@),
        decreases chars.len() - k,
    {
        assert(chars@.subrange(0, k + 1).drop_last() =~= chars@.subrange(0, k as int));
        if chars[k] == ':' {
            r.append(separator);
        } else {
            push_char(&mut r, chars[k]);
        }
        k += 1;
    }
    assert(chars@.subrange(0, k as int) =~= chars@);
    r
}

impl Workspace {
    /// A workspace with the given name, in the folder `path`.
    pub fn new(name: &str, path: &str) -> (w: Workspace)
        ensures
            w.name@ == name@,
            w.path@ == path@,
    {
        Workspace { name: name.to_owned(), path: path.to_owned() }
    }

    /// A copy of this workspace.
    pub fn copy(&self) -> (w: Workspace)
        ensures
            w == *self,
    {
        Workspace { name: self.name.clone(), path: self.path.clone() }
    }

    /// Appends this workspace to `list`, unless a workspace bears its name
    /// already, compared without regard to case.
    pub fn add_to_workspace_list(&self, list: &mut WorkspaceList) -> (r: Result<(), String>)
        ensures
            final(list).current == old(list).current,
            match r {
                Ok(_) => {
                    &&& position(old(list).workspaces@, lowercase(self.name@)) == old(
                        list,
                    ).workspaces@.len()
                    &&& final(list).workspaces@ == old(list).workspaces@.push(*self)
                },
                Err(message) => {
                    &&& position(old(list).workspaces@, lowercase(self.name@)) < old(
                        list,
                    ).workspaces@.len()
                    &&& final(list).workspaces@ == old(list).workspaces@
                    &&& message@ == taken_text(self.name@)
                },
            },
    {
        let i = find_workspace(&list.workspaces, self.name.as_str());
        if i < list.workspaces.len() {
            let mut message = "Workspace with the name \'".to_owned();
            message.append(self.name.as_str());
            message.append("\' already exists");
            return Err(message);
        }
        list.workspaces.push(self.copy());
        Ok(())
    }

    /// Makes this workspace the current one of `list`.
    pub fn set_active(&self, list: &mut WorkspaceList)
        ensures
            final(list).current@ == self.name@,
            final(list).workspaces == old(list).workspaces,
    {
        list.current = self.name.clone();
    }

    /// The name of this workspace.
    pub fn name(&self) -> (r: &str)
        ensures
            r@ == self.name@,
    {
        self.name.as_str()
    }

    /// The folder of this workspace's settings.
    pub fn workspace_preferences_folder_path(&self, separator: &str) -> (r: String)
        ensures
            r@ == preferences_folder(self.path@, separator@),
    {
        let mut r = self.path.clone();
        r.append(separator);
        r.append(".workspace");
        r
    }

    /// The file of this workspace's projects.
    pub fn project_database_path(&self, separator: &str) -> (r: String)
        ensures
            r@ == database_file(self.path@, separator@),
    {
        let mut r = self.workspace_preferences_folder_path(separator);
        r.append(separator);
        r.append("projects.json");
        r
    }

    /// Adds `project` to `projects` by merge-insert, and gives the folders
    /// that it and everything nested in it occupy below this workspace's
    /// projects folder, parents before children. A refused insertion gives
    /// no folders; of a project with several children, those that were
    /// merged before the collision stay in `projects`, so that the refused
    /// insertion of a path, which has one child at each level, changes
    /// nothing.
    pub fn add_project(&self, projects: &mut ProjectList, project: Project, separator: &str) -> (r:
        Result<Vec<String>, Conflict>)
        ensures
            final(projects)@ == graft(old(projects)@, project@).0,
            match r {
                Ok(folders) => {
                    &&& graft(old(projects)@, project@).1
                    &&& texts(folders@) == tree_paths(
                        project@,
                        Some(projects_folder(self.path@, separator@)),
                        separator@,
                    )
                },
                Err(_) => !graft(old(projects)@, project@).1,
            },
    {
        let mut base = self.path.clone();
        base.append(separator);
        base.append("projects");
        let folders = project.folder_paths(base.as_str(), separator);
        match projects.add(project) {
            Ok(_) => Ok(folders),
            Err(e) => Err(e),
        }
    }

    /// The folder of the project that the path `name` addresses: below this
    /// workspace's projects folder, the path in lower case with `separator`
    /// in place of each colon. A name that matches no project of `projects`
    /// is refused with what may have been meant.
    pub fn get_project_path(&self, projects: &ProjectList, name: &str, separator: &str) -> (r:
        Result<String, SuggestionError>)
        ensures
            match r {
                Ok(path) => {
                    &&& lowered(forest_paths(projects@, None, ":"@)).contains(normalized(name@))
                    &&& path@ == projects_folder(self.path@, separator@) + separator@
                        + replace_colons(lowercase(name@), separator@)
                },
                Err(e) => {
                    &&& !lowered(forest_paths(projects@, None, ":"@)).contains(normalized(name@))
                    &&& e.query@ == normalized(name@)
                    &&& texts(e.suggestions@) == suggestions(
                        forest_paths(projects@, None, ":"@),
                        normalized(name@),
                    )
                },
            },
    {
        match projects.project_exists(name) {
            Ok(_) => {},
            Err(e) => {
                return Err(e);
            },
        }
        let mut path = self.path.clone();
        path.append(separator);
        path.append("projects");
        path.append(separator);
        let folded = to_lowercase(name);
        let below = replace_colons_in(folded.as_str(), separator);
        path.append(below.as_str());
        Ok(path)
    }
}

impl WorkspaceList {
    /// The first workspace that bears the name `name`, compared without
    /// regard to case, with its name as it is stored.
    pub fn lookup(&self, name: &str) -> (r: Result<Workspace, String>)
        ensures
            match r {
                Ok(w) => {
                    &&& 0 <= position(self.workspaces@, lowercase(name@)) < self.workspaces@.len()
                    &&& w == self.workspaces@[position(self.workspaces@, lowercase(name@))]
                },
                Err(message) => {
                    &&& position(self.workspaces@, lowercase(name@)) == self.workspaces@.len()
                    &&& message@ == no_workspace_text(name@)
                },
            },
    {
        let i = find_workspace(&self.workspaces, name);
        if i < self.workspaces.len() {
            Ok(self.workspaces[i].copy())
        } else {
            let mut message = "No workspace with the name \'".to_owned();
            message.append(name);
            message.append("\'!");
            Err(message)
        }
    }

    /// The position of the first workspace that bears the name `name`,
    /// compared without regard to case.
    pub fn lookup_index(&self, name: &str) -> (r: Result<usize, String>)
        ensures
            match r {
                Ok(i) => i < self.workspaces@.len() && i == position(
                    self.workspaces@,
                    lowercase(name@),
                ),
                Err(message) => {
                    &&& position(self.workspaces@, lowercase(name@)) == self.workspaces@.len()
                    &&& message@ == no_workspace_text(lowercase(name@))
                },
            },
    {
        let i = find_workspace(&self.workspaces, name);
        if i < self.workspaces.len() {
            Ok(i)
        } else {
            let folded = to_lowercase(name);
            let mut message = "No workspace with the name \'".to_owned();
            message.append(folded.as_str());
            message.append("\'!");
            Err(message)
        }
    }

    /// The current workspace: the first that bears the current name,
    /// compared without regard to case.
    pub fn current(&self) -> (r: Result<Workspace, String>)
        ensures
            match r {
                Ok(w) => {
                    &&& 0 <= position(self.workspaces@, lowercase(self.current@))
                        < self.workspaces@.len()
                    &&& w == self.workspaces@[position(
                        self.workspaces@,
                        lowercase(self.current@),
                    )]
                },
                Err(message) => {
                    &&& position(self.workspaces@, lowercase(self.current@))
                        == self.workspaces@.len()
                    &&& message@ == "No workspace currently selected!"@
                },
            },
    {
        match self.lookup(self.current.as_str()) {
            Ok(w) => Ok(w),
            Err(_) => Err("No workspace currently selected!".to_owned()),
        }
    }

    /// Removes the first workspace that bears the name `name`, compared
    /// without regard to case. Where the current name is that name too, no
    /// workspace is current afterwards.
    pub fn remove(&mut self, name: &str) -> (r: Result<(), String>)
        ensures
            match r {
                Ok(_) => {
                    &&& 0 <= position(old(self).workspaces@, lowercase(name@)) < old(
                        self,
                    ).workspaces@.len()
                    &&& final(self).workspaces@ == old(self).workspaces@.remove(
                        position(old(self).workspaces@, lowercase(name@)),
                    )
                    &&& final(self).current@ == if lowercase(old(self).current@) == lowercase(
                        name@,
                    ) {
                        Seq::<char>::empty()
                    } else {
                        old(self).current@
                    }
                },
                Err(message) => {
                    &&& position(old(self).workspaces@, lowercase(name@)) == old(
                        self,
                    ).workspaces@.len()
                    &&& message@ == no_workspace_text(lowercase(name@))
                    &&& *final(self) == *old(self)
                },
            },
    {
        match self.lookup_index(name) {
            Ok(index) => {
                self.workspaces.remove(index);
            },
            Err(e) => {
                return Err(e);
            },
        }
        if names_match(self.current.as_str(), name) {
            self.current = String::new();
        }
        Ok(())
    }
}

} // verus!
