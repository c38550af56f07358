//! Fetch the file tree of a remote GitHub repository, filter it by glob
//! rules, and plan the download of the selected files with a bounded number
//! of concurrent fetches.
mod download;
mod error;
mod fetch;
mod filter;
mod source_tree;

pub use download::decode_blob_content;
pub use download::decode_blob_event;
pub use download::BlobEvent;
pub use download::output_file_path;
pub use download::select_files;
pub use download::DownloadEvent;
pub use download::DownloadReporter;
pub use download::DownloadStep;
pub use download::Downloader;
pub use download::FileStatus;
pub use download::NullDownloadReporter;
pub use error::Error;
pub use fetch::join_path;
pub use fetch::FetchAction;
pub use fetch::FetchEvent;
pub use fetch::TreeFetchSession;
pub use filter::Filter;
pub use source_tree::parent_dir;
pub use source_tree::GithubBranchPath;
pub use source_tree::SourceTree;
pub use source_tree::SourceTreeIterator;
pub use source_tree::TreeEntry;
pub use source_tree::TreeEntryType;
pub use source_tree::TreeModel;
