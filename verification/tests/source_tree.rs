use grab_github::{Error, GithubBranchPath, SourceTree, TreeEntry, TreeEntryType, TreeModel};

fn entry(path: &str, kind: TreeEntryType, size: u32, sha: &str) -> TreeEntry {
    TreeEntry {
        path: path.to_string(),
        mode: if kind == TreeEntryType::Tree { "040000".to_string() } else { "100644".to_string() },
        entry_type: kind,
        size,
        sha: sha.to_string(),
        url: format!("https://api.github.com/repos/githubtraining/hellogitworld/git/blobs/{}", sha),
    }
}

fn hello_git_world_model() -> TreeModel {
    TreeModel {
        sha: "root-sha".to_string(),
        url: "https://api.github.com/repos/githubtraining/hellogitworld/git/trees/master"
            .to_string(),
        tree: vec![
            entry("build.gradle", TreeEntryType::Blob, 112, "6058be211566308428ca6dcab3f08cf270cd9568"),
            entry("src", TreeEntryType::Tree, 0, "sha-src"),
            entry("src/test", TreeEntryType::Tree, 0, "sha-src-test"),
            entry("src/test/java", TreeEntryType::Tree, 0, "sha-src-test-java"),
            entry("src/test/java/com", TreeEntryType::Tree, 0, "sha-com"),
            entry("src/test/java/com/github", TreeEntryType::Tree, 0, "sha-github"),
            entry(
                "src/test/java/com/github/AppTest.java",
                TreeEntryType::Blob,
                750,
                "43767197a768385d97ce751c421ee9e7ceeda5a7",
            ),
        ],
        truncated: false,
    }
}

#[test]
pub fn assemble_and_resolve_blob() {
    let tree = SourceTree::from_model(&hello_git_world_model()).unwrap();

    let node = tree.resolve_blob("build.gradle").unwrap();
    assert_eq!(node.path, "build.gradle".to_string());
    assert_eq!(node.mode, "100644".to_string());
    assert_eq!(node.entry_type, TreeEntryType::Blob);
    assert_eq!(node.size, 112);
    assert_eq!(node.sha, "6058be211566308428ca6dcab3f08cf270cd9568".to_string());
    assert!(node.children.is_empty());

    let dir = tree.resolve_tree("src/test/java/com/github").unwrap();
    assert_eq!(dir.children.len(), 1);
    assert_eq!(dir.children[0].path, "src/test/java/com/github/AppTest.java".to_string());
    assert_eq!(dir.children[0].size, 750);
    assert_eq!(dir.children[0].sha, "43767197a768385d97ce751c421ee9e7ceeda5a7".to_string());

    // The wrong kind at an existing path resolves to nothing.
    assert!(tree.resolve_tree("build.gradle").is_none());
    assert!(tree.resolve_blob("src/test").is_none());
    assert!(tree.resolve_any("build.gradle").is_some());
    assert!(tree.resolve_any("src/test").is_some());
    assert!(tree.resolve_blob("missing.txt").is_none());
}

#[test]
pub fn assembly_rejects_orphaned_entries() {
    let model = TreeModel {
        sha: "s".to_string(),
        url: "u".to_string(),
        tree: vec![entry("lost/file.txt", TreeEntryType::Blob, 1, "sha-f")],
        truncated: false,
    };
    // `lost` never appears as a directory entry of its own: fail fast.
    match SourceTree::from_model(&model) {
        Err(Error::Other(_)) => {}
        _ => panic!("assembly accepted an orphaned entry"),
    }

    let model = TreeModel {
        sha: "s".to_string(),
        url: "u".to_string(),
        tree: vec![entry("", TreeEntryType::Blob, 1, "sha-e")],
        truncated: false,
    };
    match SourceTree::from_model(&model) {
        Err(Error::Other(_)) => {}
        _ => panic!("assembly accepted an entry with an empty path"),
    }
}

#[test]
pub fn walker_visits_every_node_parent_first() {
    let tree = SourceTree::from_model(&hello_git_world_model()).unwrap();

    let mut visited: Vec<String> = Vec::new();
    let mut it = tree.iter();
    while let Some(node) = it.next() {
        visited.push(node.path.clone());
    }

    // Root first, then every entry exactly once, parents strictly before
    // their children, children in listing order.
    assert_eq!(
        visited,
        vec![
            "".to_string(),
            "build.gradle".to_string(),
            "src".to_string(),
            "src/test".to_string(),
            "src/test/java".to_string(),
            "src/test/java/com".to_string(),
            "src/test/java/com/github".to_string(),
            "src/test/java/com/github/AppTest.java".to_string(),
        ]
    );
}

#[test]
pub fn prune_keeps_only_approved_subtrees() {
    let tree = SourceTree::from_model(&hello_git_world_model()).unwrap();

    // Drop the whole `src` subtree, keep everything else.
    let pruned = tree.prune(&|n: &SourceTree| n.path != "src");
    let mut visited: Vec<String> = Vec::new();
    let mut it = pruned.iter();
    while let Some(node) = it.next() {
        visited.push(node.path.clone());
    }
    assert_eq!(visited, vec!["".to_string(), "build.gradle".to_string()]);

    // The original tree is left whole.
    assert!(tree.resolve_tree("src").is_some());

    // A predicate that keeps everything copies the tree.
    let kept = tree.prune(&|_n: &SourceTree| true);
    assert_eq!(kept.children.len(), tree.children.len());
}

#[test]
pub fn new_node_is_empty() {
    let t = SourceTree::new(TreeEntryType::Tree);
    assert_eq!(t.path, String::new());
    assert_eq!(t.entry_type, TreeEntryType::Tree);
    assert_eq!(t.size, 0);
    assert!(t.children.is_empty());
}

#[test]
pub fn branch_path_urls() {
    let path = GithubBranchPath::new(
        "githubtraining".to_string(),
        "hellogitworld".to_string(),
        "master".to_string(),
    );
    assert_eq!(
        path.to_tree_url(),
        "https://api.github.com/repos/githubtraining/hellogitworld/git/trees/master".to_string()
    );

    let sibling = path.with_branch("deadbeef".to_string());
    assert_eq!(sibling.user, "githubtraining".to_string());
    assert_eq!(sibling.repo, "hellogitworld".to_string());
    assert_eq!(
        sibling.to_tree_url(),
        "https://api.github.com/repos/githubtraining/hellogitworld/git/trees/deadbeef".to_string()
    );
}
