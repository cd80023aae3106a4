use project_manager::project::{Conflict, Project, ProjectList};
use project_manager::workspace::{replace_colons_in, Workspace, WorkspaceList};

fn list() -> WorkspaceList {
    WorkspaceList {
        workspaces: vec![Workspace::new("Home", "/h"), Workspace::new("work", "/w"), Workspace::new("HOME", "/h2")],
        current: "work".to_string(),
    }
}

#[test]
fn new_keeps_name_and_path() {
    let w = Workspace::new("Home", "/h");
    assert_eq!(w.name(), "Home");
    assert_eq!(w.path, "/h");
    assert_eq!(w.copy(), w);
}

#[test]
fn lookup_ignores_case_and_keeps_the_stored_name() {
    let l = list();
    assert_eq!(l.lookup("home"), Ok(Workspace::new("Home", "/h")));
    assert_eq!(l.lookup("Home"), Ok(Workspace::new("Home", "/h")));
    assert_eq!(l.lookup("HOME"), Ok(Workspace::new("Home", "/h")));
    assert_eq!(l.lookup("WORK"), Ok(Workspace::new("work", "/w")));
    assert_eq!(l.lookup("None"), Err("No workspace with the name 'None'!".to_string()));
}

#[test]
fn a_workspace_made_current_is_found_again() {
    let mut l = list();
    Workspace::new("Home", "/h").set_active(&mut l);
    assert_eq!(l.current(), Ok(Workspace::new("Home", "/h")));
    l.current = "HOME".to_string();
    assert_eq!(l.current(), Ok(Workspace::new("Home", "/h")));
}

#[test]
fn replace_colons_in_puts_the_separator_for_each_colon() {
    assert_eq!(replace_colons_in("a:b:c", "/"), "a/b/c");
    assert_eq!(replace_colons_in(":a/b:", "--"), "--a/b--");
    assert_eq!(replace_colons_in("", "/"), "");
}

#[test]
fn lookup_index_ignores_case() {
    let l = list();
    assert_eq!(l.lookup_index("HOME"), Ok(0));
    assert_eq!(l.lookup_index("Work"), Ok(1));
    assert_eq!(l.lookup_index("Nope"), Err("No workspace with the name 'nope'!".to_string()));
}

#[test]
fn current_is_the_workspace_of_the_current_name() {
    let mut l = list();
    assert_eq!(l.current(), Ok(Workspace::new("work", "/w")));
    l.current = String::new();
    assert_eq!(l.current(), Err("No workspace currently selected!".to_string()));
}

#[test]
fn remove_takes_the_first_match_and_clears_a_current_name_that_matches() {
    let mut l = list();
    assert_eq!(l.remove("home"), Ok(()));
    assert_eq!(l.workspaces, vec![Workspace::new("work", "/w"), Workspace::new("HOME", "/h2")]);
    assert_eq!(l.current, "work");
    assert_eq!(l.remove("WORK"), Ok(()));
    assert_eq!(l.workspaces, vec![Workspace::new("HOME", "/h2")]);
    assert_eq!(l.current, "");
    assert_eq!(l.remove("work"), Err("No workspace with the name 'work'!".to_string()));
    assert_eq!(l.workspaces.len(), 1);
}

#[test]
fn add_to_workspace_list_refuses_a_taken_name() {
    let mut l = list();
    assert_eq!(Workspace::new("WORK", "/x").add_to_workspace_list(&mut l), Err("Workspace with the name 'WORK' already exists".to_string()));
    assert_eq!(l, list());
    assert_eq!(Workspace::new("play", "/p").add_to_workspace_list(&mut l), Ok(()));
    assert_eq!(l.workspaces.len(), 4);
    assert_eq!(l.workspaces[3], Workspace::new("play", "/p"));
    assert_eq!(l.current, "work");
}

#[test]
fn set_active_sets_the_current_name() {
    let mut l = list();
    Workspace::new("Home", "/h").set_active(&mut l);
    assert_eq!(l.current, "Home");
    assert_eq!(l.workspaces, list().workspaces);
}

#[test]
fn paths_of_a_workspace() {
    let w = Workspace::new("Home", "/h");
    assert_eq!(w.workspace_preferences_folder_path("/"), "/h/.workspace");
    assert_eq!(w.project_database_path("/"), "/h/.workspace/projects.json");
    assert_eq!(w.project_database_path("\\"), "/h\\.workspace\\projects.json");
}

#[test]
fn add_project_gives_the_folders_to_make() {
    let w = Workspace::new("Home", "/h");
    let mut projects = ProjectList::new();
    assert_eq!(w.add_project(&mut projects, Project::from_str("a:b"), "/"), Ok(vec!["/h/projects/a".to_string(), "/h/projects/a/b".to_string()]));
    assert_eq!(w.add_project(&mut projects, Project::from_str("a:b"), "/"), Err(Conflict::AlreadyExists));
    assert_eq!(projects.get_project_names(), vec!["a", "a:b"]);
}

#[test]
fn get_project_path_folds_the_name_and_replaces_colons() {
    let w = Workspace::new("Home", "/h");
    let mut projects = ProjectList::new();
    projects.add(Project::from_str("Front:Api")).unwrap();
    assert_eq!(w.get_project_path(&projects, "Front:API", "/"), Ok("/h/projects/front/api".to_string()));
    let err = w.get_project_path(&projects, "front:ap", "/").unwrap_err();
    assert_eq!(err.query, "front:ap");
    assert_eq!(err.suggestions, vec!["front", "front:api"]);
}
