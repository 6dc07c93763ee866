use strata_watch::scanner::{list_workspace_files, FsTree, ScanError};
use strata_watch::skip::should_skip_dir;

const QUALIFYING: &str = "---\ndoc-type: strata\n---\nbody\n";
const PLAIN: &str = "# just markdown\n";

fn file(content: &str) -> FsTree {
    FsTree::File { content: Some(content.to_string()) }
}

fn dir(entries: Vec<(&str, FsTree)>) -> FsTree {
    let mut names = Vec::new();
    let mut children = Vec::new();
    for (name, child) in entries {
        names.push(name.to_string());
        children.push(child);
    }
    FsTree::Dir { names, children }
}

#[test]
fn skip_policy_names() {
    assert!(should_skip_dir(".git"));
    assert!(should_skip_dir(".hidden"));
    assert!(should_skip_dir("node_modules"));
    assert!(should_skip_dir("target"));
    assert!(should_skip_dir("__pycache__"));
    assert!(!should_skip_dir("src"));
    assert!(!should_skip_dir("notes"));
    assert!(!should_skip_dir("Target"));
    assert!(!should_skip_dir(""));
}

#[test]
fn hidden_directory_is_not_entered() {
    let tree = dir(vec![(
        "notes",
        dir(vec![("a.md", file(QUALIFYING)), (".hidden", dir(vec![("b.md", file(QUALIFYING))]))]),
    )]);
    let listed = list_workspace_files(&tree).unwrap();
    assert_eq!(listed, vec!["notes/a.md".to_string()]);
}

#[test]
fn deny_listed_directories_are_not_entered() {
    let tree = dir(vec![
        ("node_modules", dir(vec![("x.md", file(QUALIFYING))])),
        ("target", dir(vec![("y.md", file(QUALIFYING))])),
        ("__pycache__", dir(vec![("z.md", file(QUALIFYING))])),
        ("keep.md", file(QUALIFYING)),
    ]);
    let listed = list_workspace_files(&tree).unwrap();
    assert_eq!(listed, vec!["keep.md".to_string()]);
}

#[test]
fn output_is_sorted_with_forward_slashes() {
    let tree = dir(vec![
        ("zeta", dir(vec![("m.md", file(QUALIFYING))])),
        ("alpha", dir(vec![("n.md", file(QUALIFYING))])),
        ("b.md", file(QUALIFYING)),
    ]);
    let listed = list_workspace_files(&tree).unwrap();
    assert_eq!(
        listed,
        vec!["alpha/n.md".to_string(), "b.md".to_string(), "zeta/m.md".to_string()]
    );
    for p in &listed {
        assert!(!p.contains('\\'));
    }
}

#[test]
fn non_qualifying_files_are_excluded() {
    let tree = dir(vec![
        ("plain.md", file(PLAIN)),
        ("note.txt", file(QUALIFYING)),
        (".hidden.md", file(QUALIFYING)),
        ("real.md", file(QUALIFYING)),
    ]);
    let listed = list_workspace_files(&tree).unwrap();
    assert_eq!(listed, vec!["real.md".to_string()]);
}

#[test]
fn unreadable_file_is_silently_excluded() {
    let tree = dir(vec![
        ("broken.md", FsTree::File { content: None }),
        ("ok.md", file(QUALIFYING)),
    ]);
    let listed = list_workspace_files(&tree).unwrap();
    assert_eq!(listed, vec!["ok.md".to_string()]);
}

#[test]
fn unlistable_directory_fails_the_scan() {
    let tree = dir(vec![("ok.md", file(QUALIFYING)), ("locked", FsTree::UnreadableDir)]);
    assert_eq!(list_workspace_files(&tree), Err(ScanError::UnlistableDirectory));
}

#[test]
fn unlistable_root_fails_the_scan() {
    assert_eq!(
        list_workspace_files(&FsTree::UnreadableDir),
        Err(ScanError::UnlistableDirectory)
    );
}

#[test]
fn unlistable_directory_under_skipped_directory_is_harmless() {
    let tree = dir(vec![
        (".cache", FsTree::UnreadableDir),
        ("node_modules", FsTree::UnreadableDir),
        ("a.md", file(QUALIFYING)),
    ]);
    let listed = list_workspace_files(&tree).unwrap();
    assert_eq!(listed, vec!["a.md".to_string()]);
}

#[test]
fn nested_directories_are_joined_with_slashes() {
    let tree = dir(vec![(
        "a",
        dir(vec![("b", dir(vec![("c.md", file(QUALIFYING))])), ("d.md", file(QUALIFYING))]),
    )]);
    let listed = list_workspace_files(&tree).unwrap();
    assert_eq!(listed, vec!["a/b/c.md".to_string(), "a/d.md".to_string()]);
}

#[test]
fn empty_workspace_lists_nothing() {
    let tree = dir(vec![]);
    let listed = list_workspace_files(&tree).unwrap();
    assert!(listed.is_empty());
}
