use grab_github::{
    Error, FetchAction, FetchEvent, TreeEntry, TreeEntryType, TreeFetchSession, TreeModel,
};

fn entry(path: &str, kind: TreeEntryType, sha: &str) -> TreeEntry {
    TreeEntry {
        path: path.to_string(),
        mode: "100644".to_string(),
        entry_type: kind,
        size: 0,
        sha: sha.to_string(),
        url: format!("https://api.example.test/{}", sha),
    }
}

fn listing(sha: &str, truncated: bool, tree: Vec<TreeEntry>) -> TreeModel {
    TreeModel {
        sha: sha.to_string(),
        url: format!("https://api.example.test/trees/{}", sha),
        tree,
        truncated,
    }
}

#[test]
pub fn untruncated_listing_is_final() {
    let (mut session, first) = TreeFetchSession::start("master".to_string());
    match first {
        FetchAction::Request { reference, recursive } => {
            assert_eq!(reference, "master".to_string());
            assert!(recursive);
        }
        _ => panic!("expected the initial recursive request"),
    }

    let m = listing(
        "root-sha",
        false,
        vec![
            entry("a.txt", TreeEntryType::Blob, "sha-a"),
            entry("dir", TreeEntryType::Tree, "sha-dir"),
        ],
    );
    match session.on_event(FetchEvent::Listing(m)).unwrap() {
        FetchAction::Done(out) => {
            assert!(!out.truncated);
            assert_eq!(out.sha, "root-sha".to_string());
            assert_eq!(out.tree.len(), 2);
            assert_eq!(out.tree[0].path, "a.txt".to_string());
        }
        _ => panic!("an untruncated recursive listing must be the result"),
    }
}

#[test]
pub fn truncated_listing_falls_back_to_manual_walk() {
    let (mut session, _first) = TreeFetchSession::start("master".to_string());

    // The recursive call reports truncation: the session re-requests the root
    // without the recursive flag.
    let action = session
        .on_event(FetchEvent::Listing(listing("x", true, Vec::new())))
        .unwrap();
    match action {
        FetchAction::Request { reference, recursive } => {
            assert_eq!(reference, "master".to_string());
            assert!(!recursive);
        }
        _ => panic!("a truncated listing must trigger the manual walk"),
    }

    // Root level: one directory and one file.
    let initial = listing(
        "root-sha",
        false,
        vec![
            entry("sub", TreeEntryType::Tree, "sha-sub"),
            entry("top.txt", TreeEntryType::Blob, "sha-top"),
        ],
    );
    let action = session.on_event(FetchEvent::Listing(initial)).unwrap();
    match action {
        FetchAction::Request { reference, recursive } => {
            assert_eq!(reference, "sha-sub".to_string());
            assert!(!recursive);
        }
        _ => panic!("the walk must request the discovered directory"),
    }

    // `sub` level: one file and one deeper directory.
    let sub = listing(
        "sha-sub",
        false,
        vec![
            entry("a.txt", TreeEntryType::Blob, "sha-suba"),
            entry("deep", TreeEntryType::Tree, "sha-deep"),
        ],
    );
    let action = session.on_event(FetchEvent::Listing(sub)).unwrap();
    match action {
        FetchAction::Request { reference, recursive } => {
            assert_eq!(reference, "sha-deep".to_string());
            assert!(!recursive);
        }
        _ => panic!("the walk must descend depth first"),
    }

    // `sub/deep` level: one file, nothing deeper, so the walk assembles.
    let deep = listing("sha-deep", false, vec![entry("b.txt", TreeEntryType::Blob, "sha-b")]);
    let action = session.on_event(FetchEvent::Listing(deep)).unwrap();
    match action {
        FetchAction::Done(out) => {
            assert!(!out.truncated);
            assert_eq!(out.sha, "root-sha".to_string());
            let paths: Vec<String> = out.tree.iter().map(|e| e.path.clone()).collect();
            // Deepest entries first, prefixed with their parents' paths; the
            // initial root level comes last, so the result is at least as
            // large as the root listing.
            assert_eq!(
                paths,
                vec![
                    "sub/deep/b.txt".to_string(),
                    "sub/a.txt".to_string(),
                    "sub/deep".to_string(),
                    "sub".to_string(),
                    "top.txt".to_string(),
                ]
            );
            assert!(out.tree.len() >= 2);
        }
        _ => panic!("the walk must finish once every directory is listed"),
    }
}

#[test]
pub fn api_error_short_circuits_the_fetch() {
    let (mut session, _first) = TreeFetchSession::start("master".to_string());
    let r = session.on_event(FetchEvent::ApiError("API rate limit exceeded".to_string()));
    match r {
        Err(Error::GithubError(msg)) => {
            assert_eq!(msg, "API rate limit exceeded".to_string());
        }
        _ => panic!("an error payload must abort the fetch as a remote error"),
    }
}
