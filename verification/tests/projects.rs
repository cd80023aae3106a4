use project_manager::project::{close_matches, Conflict, NotFound, Project, ProjectList, SuggestionError};
use project_manager::search::first_equal;
use project_manager::text::{
    chars_contain, confirms, line_of, names_match, normalize, split_segments, to_chars, unify,
};

fn contains(hay: &str, needle: &str) -> bool {
    chars_contain(&to_chars(hay), &to_chars(needle))
}

fn list_of(paths: &[&str]) -> ProjectList {
    let mut list = ProjectList::new();
    for p in paths {
        list.add(Project::from_str(p)).unwrap();
    }
    list
}

fn leaf(name: &str) -> Project {
    Project { name: name.to_string(), projects: vec![] }
}

#[test]
fn from_str_builds_a_chain() {
    let p = Project::from_str("a:b:c");
    assert_eq!(
        p,
        Project {
            name: "a".to_string(),
            projects: vec![Project { name: "b".to_string(), projects: vec![leaf("c")] }],
        }
    );
}

#[test]
fn from_str_takes_all_three_separators() {
    assert_eq!(Project::from_str("a/b\\c"), Project::from_str("a:b:c"));
}

#[test]
fn from_str_keeps_case_and_empty_segments() {
    assert_eq!(Project::from_str("Front"), leaf("Front"));
    assert_eq!(Project::from_str(""), leaf(""));
    let p = Project::from_str("a::b");
    assert_eq!(p.projects[0].name, "");
    assert_eq!(p.projects[0].projects[0].name, "b");
}

#[test]
fn split_segments_cuts_at_each_separator() {
    assert_eq!(split_segments("ab:cd/ef\\g"), vec!["ab", "cd", "ef", "g"]);
    assert_eq!(split_segments(""), vec![""]);
    assert_eq!(split_segments(":"), vec!["", ""]);
    assert_eq!(split_segments("äö:ü"), vec!["äö", "ü"]);
}

#[test]
fn merge_on_common_prefix() {
    let mut list = ProjectList::new();
    assert_eq!(list.add(Project::from_str("a:b")), Ok(()));
    assert_eq!(list.add(Project::from_str("a:c")), Ok(()));
    assert_eq!(list.projects.len(), 1);
    assert_eq!(list.projects[0].name, "a");
    assert_eq!(list.projects[0].projects, vec![leaf("b"), leaf("c")]);
}

#[test]
fn merge_reuses_the_first_match_without_regard_to_case() {
    let mut list = list_of(&["Team:x"]);
    assert_eq!(list.add(Project::from_str("TEAM:y")), Ok(()));
    assert_eq!(list.projects.len(), 1);
    assert_eq!(list.projects[0].name, "Team");
    assert_eq!(list.projects[0].projects, vec![leaf("x"), leaf("y")]);
}

#[test]
fn collision_is_rejected_and_changes_nothing() {
    let mut list = ProjectList::new();
    assert_eq!(list.add(Project::from_str("a")), Ok(()));
    let before = list.get_project_names();
    assert_eq!(list.add(Project::from_str("a")), Err(Conflict::AlreadyExists));
    assert_eq!(list.get_project_names(), before);
    assert_eq!(list.projects, vec![leaf("a")]);
}

#[test]
fn deep_collision_is_rejected_and_changes_nothing() {
    let mut list = list_of(&["a:b:c", "a:d"]);
    let before = list.get_project_names();
    assert_eq!(list.add(Project::from_str("A/B/C")), Err(Conflict::AlreadyExists));
    assert_eq!(list.add(Project::from_str("a:b")), Err(Conflict::AlreadyExists));
    assert_eq!(list.get_project_names(), before);
}

#[test]
fn a_tree_with_several_children_is_merged_child_by_child() {
    let mut list = list_of(&["a:x"]);
    let incoming = Project { name: "a".to_string(), projects: vec![leaf("y"), leaf("x"), leaf("z")] };
    assert_eq!(list.add(incoming), Err(Conflict::AlreadyExists));
    assert_eq!(list.get_project_names(), vec!["a", "a:x", "a:y"]);
}

#[test]
fn project_add_merges_below_the_project() {
    let mut p = Project::from_str("root");
    assert_eq!(p.add(Project::from_str("a:b")), Ok(()));
    assert_eq!(p.add(Project::from_str("a:c")), Ok(()));
    assert_eq!(p.add(Project::from_str("a:c")), Err(Conflict::AlreadyExists));
    assert_eq!(p.projects.len(), 1);
    assert_eq!(p.projects[0].projects, vec![leaf("b"), leaf("c")]);
}

#[test]
fn flatten_order_matches_insertion() {
    let list = list_of(&["x", "y:z"]);
    assert_eq!(list.get_project_names(), vec!["x", "y", "y:z"]);
}

#[test]
fn flatten_is_depth_first_in_stored_order() {
    let list = list_of(&["a:b:c", "a:d", "e", "a:b:f"]);
    assert_eq!(list.get_project_names(), vec!["a", "a:b", "a:b:c", "a:b:f", "a:d", "e"]);
    assert_eq!(ProjectList::new().get_project_names(), Vec::<String>::new());
}

#[test]
fn fuzzy_suggestion() {
    let list = list_of(&["frontend:api"]);
    let err = list.project_exists("frontend:apis").unwrap_err();
    assert_eq!(err.query, "frontend:apis");
    assert!(err.suggestions.contains(&"frontend:api".to_string()));
    assert_eq!(err.suggestions, vec!["frontend", "frontend:api"]);
}

#[test]
fn exists_compares_in_lower_case_with_separators_unified() {
    let list = list_of(&["Frontend:Api", "Back"]);
    assert_eq!(list.project_exists("frontend:api"), Ok(()));
    assert_eq!(list.project_exists("FRONTEND/API"), Ok(()));
    assert_eq!(list.project_exists("frontend\\api"), Ok(()));
    assert_eq!(list.project_exists("back"), Ok(()));
}

#[test]
fn exists_suggests_in_both_directions_and_in_tree_order() {
    let list = list_of(&["Alpha:Beta", "Gamma", "Al"]);
    let err = list.project_exists("alp").unwrap_err();
    assert_eq!(err.suggestions, vec!["alpha", "alpha:beta", "al"]);
    let err = list.project_exists("amm").unwrap_err();
    assert_eq!(err.suggestions, vec!["gamma"]);
    let err = list.project_exists("ALPHA:BETA:X").unwrap_err();
    assert_eq!(err.query, "alpha:beta:x");
    assert_eq!(err.suggestions, vec!["alpha", "alpha:beta", "al"]);
    let err = list.project_exists("zzz").unwrap_err();
    assert_eq!(err, SuggestionError { query: "zzz".to_string(), suggestions: vec![] });
}

#[test]
fn suggestion_message_lists_the_candidates() {
    let e = SuggestionError { query: "alp".to_string(), suggestions: vec!["alpha".to_string(), "alpha:beta".to_string()] };
    assert_eq!(e.message(), "No projects with the name 'alp' found!\nDid you mean:\nalpha\nalpha:beta");
    let e = SuggestionError { query: "zzz".to_string(), suggestions: vec![] };
    assert_eq!(e.message(), "No projects with the name 'zzz' found!");
}

#[test]
fn error_messages() {
    assert_eq!(Conflict::AlreadyExists.message(), "Project with that name already exists!");
    assert_eq!(NotFound { segment: "x".to_string() }.message(), "Failed to find project with matching name!");
}

#[test]
fn removal_descent() {
    let mut list = list_of(&["team:sub:leaf"]);
    assert_eq!(list.remove_project("team:sub:leaf"), Ok(()));
    assert_eq!(list.projects.len(), 1);
    assert_eq!(list.projects[0].name, "team");
    assert_eq!(list.projects[0].projects.len(), 1);
    assert_eq!(list.projects[0].projects[0].name, "sub");
    assert_eq!(list.projects[0].projects[0].projects.len(), 0);
}

#[test]
fn removal_takes_the_whole_subtree_and_keeps_the_order_of_the_rest() {
    let mut list = list_of(&["a", "b:c:d", "e", "b:f"]);
    assert_eq!(list.remove_project("B/C"), Ok(()));
    assert_eq!(list.get_project_names(), vec!["a", "b", "b:f", "e"]);
    assert_eq!(list.remove_project("a"), Ok(()));
    assert_eq!(list.get_project_names(), vec!["b", "b:f", "e"]);
}

#[test]
fn removal_of_a_missing_path_names_the_segment_and_changes_nothing() {
    let mut list = list_of(&["team:sub:leaf"]);
    let before = list.get_project_names();
    assert_eq!(list.remove_project("team:Other:leaf"), Err(NotFound { segment: "Other".to_string() }));
    assert_eq!(list.remove_project("nobody"), Err(NotFound { segment: "nobody".to_string() }));
    assert_eq!(list.remove_project("team:sub:leaf:deeper"), Err(NotFound { segment: "deeper".to_string() }));
    assert_eq!(list.get_project_names(), before);
}

#[test]
fn project_remove_works_below_the_project() {
    let mut p = Project::from_str("root");
    p.add(Project::from_str("a:b")).unwrap();
    p.add(Project::from_str("c")).unwrap();
    assert_eq!(p.remove("A:B"), Ok(()));
    assert_eq!(p.projects, vec![leaf("a"), leaf("c")]);
    assert_eq!(p.remove("a:b"), Err(NotFound { segment: "b".to_string() }));
    assert_eq!(p.remove("a"), Ok(()));
    assert_eq!(p.projects, vec![leaf("c")]);
}

#[test]
fn case_insensitive_identity_case_preserving_storage() {
    let mut list = ProjectList::new();
    list.add(Project::from_str("Frontend")).unwrap();
    let found = list.resolve("frontend").unwrap();
    assert_eq!(found.name, "Frontend");
    assert!(std::ptr::eq(found, &list.projects[0]));
    assert_eq!(list.resolve("FRONTEND").unwrap().name, "Frontend");
    assert_eq!(list.render(), "Projects\n└───Frontend\n");
    assert_eq!(list.get_project_names(), vec!["Frontend"]);
}

#[test]
fn resolve_follows_each_segment() {
    let list = list_of(&["a:b:c", "a:d"]);
    assert_eq!(list.resolve("a/b").unwrap().projects, vec![leaf("c")]);
    assert_eq!(list.resolve("A:D").unwrap().name, "d");
    assert!(list.resolve("a:x").is_none());
    assert!(list.resolve("b").is_none());
    assert!(list.resolve("a:b:c:d").is_none());
    assert!(list.resolve("").is_none());
    assert_eq!(list.projects[0].resolve("b:c").unwrap().name, "c");
}

#[test]
fn resolve_takes_the_first_of_two_matches() {
    let list = ProjectList {
        projects: vec![
            Project { name: "Dup".to_string(), projects: vec![leaf("one")] },
            Project { name: "dup".to_string(), projects: vec![leaf("two")] },
        ],
    };
    assert_eq!(list.resolve("DUP").unwrap().name, "Dup");
    assert!(list.resolve("dup:two").is_none());
}

#[test]
fn render_draws_the_tree() {
    let list = list_of(&["a:b:c", "a:d", "e:f"]);
    let expected = "Projects\n\
                    ├───a\n\
                    │   ├───b\n\
                    │   │   └───c\n\
                    │   └───d\n\
                    └───e\n\
                    \u{20}   └───f\n";
    assert_eq!(list.render(), expected);
}

#[test]
fn render_of_an_empty_list_is_the_heading() {
    assert_eq!(ProjectList::new().render(), "Projects\n");
}

#[test]
fn folder_paths_lists_each_node_below_the_base() {
    let mut p = Project::from_str("a:b");
    p.add(Project::from_str("c")).unwrap();
    assert_eq!(p.folder_paths("/ws/projects", "/"), vec!["/ws/projects/a", "/ws/projects/a/b", "/ws/projects/a/c"]);
}

#[test]
fn names_match_folds_case() {
    assert!(names_match("Frontend", "fRONTEND"));
    assert!(names_match("ÄB", "äb"));
    assert!(!names_match("front", "frontend"));
}

#[test]
fn normalize_folds_case_and_unifies_separators() {
    assert_eq!(normalize("A/b\\C:d"), "a:b:c:d");
    assert_eq!(normalize(""), "");
}

#[test]
fn contains_finds_a_part() {
    assert!(contains("frontend:api", "end:a"));
    assert!(contains("abc", ""));
    assert!(contains("abc", "abc"));
    assert!(!contains("abc", "abcd"));
    assert!(!contains("abc", "ac"));
    assert!(contains("aab", "ab"));
}

#[test]
fn confirms_takes_a_single_y_in_either_case() {
    assert!(confirms("y"));
    assert!(confirms("Y\n"));
    assert!(confirms("y\r\n"));
    assert!(!confirms("yes\n"));
    assert!(!confirms("n\n"));
    assert!(!confirms(""));
    assert!(!confirms("y\n\n"));
    assert!(!confirms("y\n\r"));
    assert!(!confirms(" y"));
}

#[test]
fn insertion_and_removal_take_the_first_of_two_matches() {
    let mut list = ProjectList {
        projects: vec![
            Project { name: "Dup".to_string(), projects: vec![] },
            Project { name: "dup".to_string(), projects: vec![leaf("two")] },
        ],
    };
    assert_eq!(list.add(Project::from_str("DUP:x")), Ok(()));
    assert_eq!(list.get_project_names(), vec!["Dup", "Dup:x", "dup", "dup:two"]);
    assert_eq!(list.remove_project("dup"), Ok(()));
    assert_eq!(list.get_project_names(), vec!["dup", "dup:two"]);
}

#[test]
fn an_inserted_path_resolves_and_cannot_be_inserted_again() {
    for path in ["a", "a:b:c", "x/y", "A:B:D", "a:b"] {
        let mut list = list_of(&["a:b:c"]);
        match list.add(Project::from_str(path)) {
            Ok(()) => {
                let last = split_segments(path).pop().unwrap();
                assert!(names_match(&list.resolve(path).unwrap().name, &last));
                let before = list.get_project_names();
                assert_eq!(list.add(Project::from_str(path)), Err(Conflict::AlreadyExists));
                assert_eq!(list.get_project_names(), before);
            }
            Err(Conflict::AlreadyExists) => {
                assert_eq!(list.get_project_names(), vec!["a", "a:b", "a:b:c"]);
            }
        }
    }
}

#[test]
fn removal_succeeds_exactly_where_the_path_resolves() {
    for path in ["a", "a:b", "a:b:c", "A/B/C", "a:c", "b", "", "a:b:c:d", "a::b"] {
        let mut list = list_of(&["a:b:c", "d"]);
        let resolves = list.resolve(path).is_some();
        assert_eq!(list.remove_project(path).is_ok(), resolves);
    }
}

#[test]
fn first_equal_gives_the_first_position_or_the_length() {
    let items = vec!["a".to_string(), "b".to_string(), "a".to_string()];
    assert_eq!(first_equal(&items, "a"), 0);
    assert_eq!(first_equal(&items, "b"), 1);
    assert_eq!(first_equal(&items, "A"), 3);
    assert_eq!(first_equal(&vec![], "a"), 0);
}

#[test]
fn close_matches_keeps_what_contains_or_is_contained() {
    let items = vec!["frontend".to_string(), "back".to_string(), "frontend:api".to_string(), "end".to_string()];
    assert_eq!(close_matches(&items, "frontend:apis"), vec!["frontend", "frontend:api", "end"]);
    assert_eq!(close_matches(&items, "ront"), vec!["frontend", "frontend:api"]);
    assert_eq!(close_matches(&items, "zzz"), Vec::<String>::new());
}

#[test]
fn unify_and_line_of_leave_case_alone() {
    assert_eq!(unify("A/b\\C:d"), "A:b:C:d");
    assert_eq!(line_of("Yes\r\n"), "Yes");
    assert_eq!(line_of("\n"), "");
    assert_eq!(line_of("a\r"), "a");
}
