use touchdir::path::{base_name_of, components_of, file_name_for, is_same_path, join_path};
use touchdir::touchdir::names_current_dir;
use touchdir::{Action, Touchdir, TouchdirError, TouchdirMode};

fn exts(list: &[&str]) -> Vec<String> {
    list.iter().map(|e| e.to_string()).collect()
}

fn plan(mode: TouchdirMode, dir: &str, list: &[&str]) -> Vec<Action> {
    Touchdir::new(mode)
        .add_extensions(dir.to_string(), exts(list))
        .unwrap()
        .run()
}

fn paths_of(actions: &[Action]) -> Vec<String> {
    actions
        .iter()
        .map(|a| match a {
            Action::Create(p) => p.clone(),
            Action::Print(p) => p.clone(),
        })
        .collect()
}

#[test]
fn mode_from_flag() {
    assert_eq!(TouchdirMode::from_dryrun_bool(true), TouchdirMode::Dryrun);
    assert_eq!(TouchdirMode::from_dryrun_bool(false), TouchdirMode::Create);
}

#[test]
fn dryrun_prints_each_file_in_order() {
    let actions = plan(TouchdirMode::Dryrun, "/work/project", &["md", "txt"]);
    assert_eq!(
        actions,
        vec![
            Action::Print("/work/project/project.md".to_string()),
            Action::Print("/work/project/project.txt".to_string()),
        ]
    );
    let names: Vec<&str> = actions
        .iter()
        .map(|a| match a {
            Action::Print(p) => p.rsplit('/').next().unwrap(),
            Action::Create(_) => panic!("dry run creates nothing"),
        })
        .collect();
    assert_eq!(names, vec!["project.md", "project.txt"]);
}

#[test]
fn create_mode_creates_each_planned_file() {
    let actions = plan(TouchdirMode::Create, "/work/project", &["md", "txt"]);
    assert_eq!(
        actions,
        vec![
            Action::Create("/work/project/project.md".to_string()),
            Action::Create("/work/project/project.txt".to_string()),
        ]
    );
}

#[test]
fn repeated_extension_is_planned_once() {
    let actions = plan(TouchdirMode::Create, "/work/project", &["a", "a"]);
    assert_eq!(actions, vec![Action::Create("/work/project/project.a".to_string())]);
}

#[test]
fn no_extensions_plan_nothing() {
    assert!(plan(TouchdirMode::Dryrun, "/work/project", &[]).is_empty());
    assert!(plan(TouchdirMode::Create, "/work/project", &[]).is_empty());
    assert!(Touchdir::new(TouchdirMode::Create).run().is_empty());
}

#[test]
fn distinct_extensions_give_one_file_each() {
    let actions = plan(TouchdirMode::Dryrun, "docs", &["md", "txt", "rs", ""]);
    assert_eq!(
        paths_of(&actions),
        vec!["docs/docs.md", "docs/docs.txt", "docs/docs.rs", "docs/docs."]
    );
}

#[test]
fn duplicates_leave_distinct_extensions_in_first_order() {
    let actions = plan(TouchdirMode::Dryrun, "docs", &["md", "txt", "md", "rs", "txt"]);
    assert_eq!(paths_of(&actions), vec!["docs/docs.md", "docs/docs.txt", "docs/docs.rs"]);
}

#[test]
fn extensions_that_name_one_path_are_planned_once() {
    let actions = plan(TouchdirMode::Dryrun, "docs", &["md", "md/", "md/.", "txt"]);
    assert_eq!(paths_of(&actions), vec!["docs/docs.md", "docs/docs.txt"]);
}

#[test]
fn planning_twice_keeps_earlier_files() {
    let actions = Touchdir::new(TouchdirMode::Dryrun)
        .add_extensions("docs".to_string(), exts(&["md"]))
        .unwrap()
        .add_extensions("docs".to_string(), exts(&["txt", "md"]))
        .unwrap()
        .run();
    assert_eq!(paths_of(&actions), vec!["docs/docs.md", "docs/docs.txt"]);
}

#[test]
fn trailing_separator_is_not_doubled() {
    let actions = plan(TouchdirMode::Dryrun, "/work/project/", &["md"]);
    assert_eq!(paths_of(&actions), vec!["/work/project/project.md"]);
}

#[test]
fn directory_without_name_is_refused() {
    for dir in ["/", "", ".", "./", "a/..", "//"] {
        let r = Touchdir::new(TouchdirMode::Create).add_extensions(dir.to_string(), exts(&["md"]));
        match r {
            Err(e) => assert_eq!(e, TouchdirError::NoBaseName(dir.to_string())),
            Ok(_) => panic!("{dir:?} has no base name"),
        }
    }
}

#[test]
fn error_messages() {
    let io = TouchdirError::Io("No such file or directory (os error 2)".to_string());
    assert_eq!(io.message(), "IO error: No such file or directory (os error 2)");
    let none = TouchdirError::NoBaseName("/".to_string());
    assert_eq!(none.message(), "no directory name in path: /");
}

#[test]
fn current_directory_spellings() {
    assert!(names_current_dir(""));
    assert!(names_current_dir("."));
    assert!(!names_current_dir("./"));
    assert!(!names_current_dir(".."));
    assert!(!names_current_dir("project"));
}

#[test]
fn path_components() {
    assert_eq!(components_of("/a//b/./c/"), vec!["a", "b", "c"]);
    assert_eq!(components_of("./a/.."), vec!["a", ".."]);
    assert!(components_of("/").is_empty());
    assert!(components_of("").is_empty());
}

#[test]
fn base_names() {
    assert_eq!(base_name_of("/work/project"), Some("project".to_string()));
    assert_eq!(base_name_of("project/."), Some("project".to_string()));
    assert_eq!(base_name_of("./project/"), Some("project".to_string()));
    assert_eq!(base_name_of("a/.."), None);
    assert_eq!(base_name_of("/"), None);
    assert_eq!(base_name_of("."), None);
}

#[test]
fn same_path_spellings() {
    assert!(is_same_path("a/b", "a//b/"));
    assert!(is_same_path("a/./b", "a/b"));
    assert!(!is_same_path("/a/b", "a/b"));
    assert!(!is_same_path("./a", "a"));
    assert!(!is_same_path("a/b", "a/c"));
}

#[test]
fn joining_and_naming() {
    assert_eq!(join_path("dir", "f.md"), "dir/f.md");
    assert_eq!(join_path("dir/", "f.md"), "dir/f.md");
    assert_eq!(join_path("", "f.md"), "f.md");
    assert_eq!(file_name_for("project", "md"), "project.md");
    assert_eq!(file_name_for("project", ""), "project.");
}
