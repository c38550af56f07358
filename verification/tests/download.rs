use grab_github::{
    DownloadEvent, DownloadReporter, DownloadStep, Downloader, Error, Filter, NullDownloadReporter,
    SourceTree, TreeEntry, TreeEntryType, TreeModel,
};

fn entry(path: &str, kind: TreeEntryType, sha: &str) -> TreeEntry {
    TreeEntry {
        path: path.to_string(),
        mode: "100644".to_string(),
        entry_type: kind,
        size: 3,
        sha: sha.to_string(),
        url: format!("https://api.example.test/{}", sha),
    }
}

fn sample_tree() -> SourceTree {
    let model = TreeModel {
        sha: "root".to_string(),
        url: "u".to_string(),
        tree: vec![
            entry("keep.txt", TreeEntryType::Blob, "s1"),
            entry("src", TreeEntryType::Tree, "s2"),
            entry("src/app.rs", TreeEntryType::Blob, "s3"),
            entry("src/drop.bin", TreeEntryType::Blob, "s4"),
        ],
        truncated: false,
    };
    SourceTree::from_model(&model).unwrap()
}

#[test]
pub fn decode_blob_content_strips_newlines_and_decodes() {
    // "hello world", split over lines as blob payloads are.
    let content = "aGVsbG8g\nd29ybGQ=\n".as_bytes().to_vec();
    let bytes = grab_github::decode_blob_content(&content).unwrap();
    assert_eq!(bytes, "hello world".as_bytes().to_vec());

    let bad = "!!notbase64!!".as_bytes().to_vec();
    match grab_github::decode_blob_content(&bad) {
        Err(Error::Base64Error(_)) => {}
        _ => panic!("invalid base64 must be rejected as a decode error"),
    }
}

#[test]
pub fn blob_error_payload_is_a_remote_error() {
    let r = grab_github::decode_blob_event(grab_github::BlobEvent::ApiError(
        "API rate limit exceeded".to_string(),
    ));
    match r {
        Err(Error::GithubError(msg)) => assert_eq!(msg, "API rate limit exceeded".to_string()),
        _ => panic!("an error payload must abort the download as a remote error"),
    }

    let ok = grab_github::decode_blob_event(grab_github::BlobEvent::Content(
        "aGVsbG8g\nd29ybGQ=\n".as_bytes().to_vec(),
    ));
    assert_eq!(ok.unwrap(), "hello world".as_bytes().to_vec());
}

#[test]
pub fn output_paths_go_under_the_root() {
    assert_eq!(
        grab_github::output_file_path("out", "src/app.rs"),
        "out/src/app.rs".to_string()
    );
    assert_eq!(grab_github::output_file_path("", "a.txt"), "a.txt".to_string());
}

#[test]
pub fn selection_keeps_filtered_blobs_in_walk_order() {
    let tree = sample_tree();
    let filter = Filter::new(Vec::new(), vec!["**/*.bin".to_string()]);
    let files = grab_github::select_files(&tree, &filter);
    let paths: Vec<String> = files.iter().map(|f| f.path.clone()).collect();
    assert_eq!(paths, vec!["keep.txt".to_string(), "src/app.rs".to_string()]);

    let none = grab_github::select_files(&tree, &Filter::new(vec!["nothing".to_string()], Vec::new()));
    assert!(none.is_empty());
}

#[test]
pub fn scheduler_bounds_concurrency() {
    let mut d = Downloader::new(5, 2);

    // Two launches fit the bound; then the scheduler insists on waiting.
    let i0 = match d.next_step() {
        DownloadStep::Launch(i) => i,
        _ => panic!("the first file must be launched"),
    };
    assert_eq!(i0, d.launch());
    let i1 = match d.next_step() {
        DownloadStep::Launch(i) => i,
        _ => panic!("the bound of two allows a second launch"),
    };
    assert_eq!(i1, d.launch());
    assert_eq!((i0, i1), (0, 1));
    assert!(matches!(d.next_step(), DownloadStep::Wait));

    // One completion frees one slot.
    d.on_complete(i0, Ok(()));
    assert!(matches!(d.next_step(), DownloadStep::Launch(2)));
}

#[test]
pub fn scheduler_treats_zero_bound_as_one() {
    let mut d = Downloader::new(2, 0);
    assert!(matches!(d.next_step(), DownloadStep::Launch(0)));
    d.launch();
    // With the bound normalized to one, never a second in-flight download.
    assert!(matches!(d.next_step(), DownloadStep::Wait));
    d.on_complete(0, Ok(()));
    assert!(matches!(d.next_step(), DownloadStep::Launch(1)));
    d.launch();
    d.on_complete(1, Ok(()));
    assert!(matches!(d.next_step(), DownloadStep::Finished));
    assert!(d.result().is_ok());
}

#[test]
pub fn one_failure_of_five_fails_the_run_after_drain() {
    let mut d = Downloader::new(5, 2);
    // Launch and drain everything; file 2 fails, the others complete.
    loop {
        match d.next_step() {
            DownloadStep::Launch(_) => {
                let i = d.launch();
                let outcome = if i == 2 {
                    Err(Error::RequestError("connection reset".to_string()))
                } else {
                    Ok(())
                };
                d.on_complete(i, outcome);
            }
            DownloadStep::Wait => panic!("everything is completed immediately in this run"),
            DownloadStep::Finished => break,
        }
    }
    match d.result() {
        Err(Error::RequestError(msg)) => assert_eq!(msg, "connection reset".to_string()),
        _ => panic!("a failed file must fail the whole run with its error"),
    }
}

#[test]
pub fn first_of_several_failures_is_surfaced() {
    let mut d = Downloader::new(3, 3);
    let a = d.launch();
    let b = d.launch();
    let c = d.launch();
    d.on_complete(b, Err(Error::RequestError("first".to_string())));
    d.on_complete(a, Err(Error::RequestError("second".to_string())));
    d.on_complete(c, Ok(()));
    match d.result() {
        Err(Error::RequestError(msg)) => assert_eq!(msg, "first".to_string()),
        _ => panic!("the first observed failure must be the surfaced error"),
    }
}

#[test]
pub fn null_reporter_ignores_events() {
    let reporter = NullDownloadReporter {};
    reporter.on_event(&DownloadEvent::DownloadStarted { path: "a.txt".to_string() });
    reporter.on_event(&DownloadEvent::DownloadCompleted { path: "a.txt".to_string() });
    reporter.on_event(&DownloadEvent::DownloadFailed {
        path: "a.txt".to_string(),
        error: Error::Other("boom".to_string()),
    });
}
