//! The bounded-concurrency download pipeline: selection of the files to
//! fetch, decoding of blob payloads, and the scheduler that bounds the number
//! of in-flight downloads and accounts for every file's lifecycle events.
//!
//! The scheduler performs no I/O: a thin driver asks it what to do next
//! ([`Downloader::next_step`]), records launches and completions, and
//! performs the fetches and writes itself, so the coordination decisions are
//! checked here.
use vstd::prelude::*;

use base64::Engine as _;

use crate::error::Error;
use crate::fetch::path_join;
use crate::filter::Filter;
use crate::filter::spec_accepts;
use crate::source_tree::{preorder, tree_view, SourceTree, SourceTreeView, TreeEntryType};

verus! {

// ---------------------------------------------------------------------------
// Blob payload decoding
// ---------------------------------------------------------------------------
/// What `base64::engine::general_purpose::STANDARD.decode` returns: `Some` of
/// the decoded bytes, or `None` when the input is not valid standard base64.
/// The result depends on the input bytes alone.
pub uninterp spec fn b64_decoded(s: Seq<u8>) -> Option<Seq<u8>>;

/// Relies on base64's `STANDARD` engine `decode`: decodes standard (padded)
/// base64, rejecting invalid input; a rejection is reported as its message
/// text.
#[verifier::external_body]
fn base64_decode(input: &Vec<u8>) -> (r: Result<Vec<u8>, String>)
    ensures
        match r {
            Ok(v) => b64_decoded(input@) == Some(v@),
            Err(_) => b64_decoded(input@) is None,
        },
{
    match base64::engine::general_purpose::STANDARD.decode(input.as_slice()) {
        Ok(v) => Ok(v),
        Err(e) => Err(format!("{}", e)),
    }
}

/// The bytes of `s` with every newline (byte 10) removed.
pub open spec fn without_newlines(s: Seq<u8>) -> Seq<u8>
    decreases s.len(),
{
    if s.len() == 0 {
        s
    } else if s.last() == 10 {
        without_newlines(s.drop_last())
    } else {
        without_newlines(s.drop_last()).push(s.last())
    }
}

/// Returns `content` with every newline removed.
fn strip_newlines(content: &Vec<u8>) -> (r: Vec<u8>)
    ensures
        r@ == without_newlines(content@),
{
    let mut out: Vec<u8> = Vec::new();
    let n = content.len();
    proof {
        assert(content@.take(0) =~= Seq::<u8>::empty());
    }
    for i in 0..n
        invariant
            n == content@.len(),
            out@ == without_newlines(content@.take(i as int)),
    {
        proof {
            assert(content@.take(i as int + 1).drop_last() =~= content@.take(i as int));
            assert(content@.take(i as int + 1).last() == content@[i as int]);
        }
        let b = content[i];
        if b != 10 {
            out.push(b);
        }
    }
    proof {
        assert(content@.take(n as int) =~= content@);
    }
    out
}

/// Decodes the base64 `content` field of a blob payload — which embeds
/// newlines — into the blob's raw bytes.  Succeeds exactly when the content,
/// without its newlines, is valid standard base64.
pub fn decode_blob_content(content: &Vec<u8>) -> (r: Result<Vec<u8>, Error>)
    ensures
        match r {
            Ok(v) => b64_decoded(without_newlines(content@)) == Some(v@),
            Err(e) => b64_decoded(without_newlines(content@)) is None && e is Base64Error,
        },
{
    let stripped = strip_newlines(content);
    match base64_decode(&stripped) {
        Ok(v) => Ok(v),
        Err(msg) => Err(Error::Base64Error(msg)),
    }
}

/// The decoded payload of one blob request: either the blob's base64
/// `content` field (as bytes), or the error payload the service answered
/// with.
pub enum BlobEvent {
    Content(Vec<u8>),
    ApiError(String),
}

/// Decides what one blob response yields: an error payload aborts the
/// download as a remote error carrying the service's message verbatim, and a
/// content payload is decoded from its newline-embedding base64.
pub fn decode_blob_event(ev: BlobEvent) -> (r: Result<Vec<u8>, Error>)
    ensures
        match ev {
            BlobEvent::ApiError(msg) => (r matches Err(e) && e == Error::GithubError(msg)),
            BlobEvent::Content(content) => match r {
                Ok(v) => b64_decoded(without_newlines(content@)) == Some(v@),
                Err(e) => b64_decoded(without_newlines(content@)) is None && e is Base64Error,
            },
        },
{
    match ev {
        BlobEvent::ApiError(msg) => Err(Error::GithubError(msg)),
        BlobEvent::Content(content) => decode_blob_content(&content),
    }
}

/// Returns the local path a node is written to: the node's repository path
/// placed under the output root.
pub fn output_file_path(output_root: &str, node_path: &str) -> (r: String)
    ensures
        r@ == path_join(output_root@, node_path@),
{
    crate::fetch::join_path(output_root, node_path)
}

// ---------------------------------------------------------------------------
// Selection
// ---------------------------------------------------------------------------
/// The nodes of `vs`, in order, that are blobs and whose paths the filter
/// given by `inc`/`exc` keeps.
pub open spec fn select_from(
    vs: Seq<SourceTreeView>,
    inc: Seq<Seq<char>>,
    exc: Seq<Seq<char>>,
) -> Seq<SourceTreeView>
    decreases vs.len(),
{
    if vs.len() == 0 {
        Seq::empty()
    } else {
        let rest = select_from(vs.drop_last(), inc, exc);
        if vs.last().entry_type == TreeEntryType::Blob && spec_accepts(inc, exc, vs.last().path) {
            rest.push(vs.last())
        } else {
            rest
        }
    }
}

/// Walks `tree` in pre-order and returns copies of the blob nodes whose paths
/// `filter` keeps, in traversal order.  This selection is fixed before any
/// download starts.
pub fn select_files(tree: &SourceTree, filter: &Filter) -> (r: Vec<SourceTree>)
    ensures
        crate::source_tree::children_views(r@) == select_from(
            preorder(tree.v()),
            filter.inc(),
            filter.exc(),
        ),
{
    let mut it = tree.iter();
    let mut out: Vec<SourceTree> = Vec::new();
    let ghost mut visited: Seq<SourceTreeView> = Seq::empty();
    proof {
        crate::source_tree::lemma_children_views(out@);
        assert(select_from(visited, filter.inc(), filter.exc()) =~= Seq::<SourceTreeView>::empty());
    }
    loop
        invariant
            visited + it.remaining() == preorder(tree.v()),
            crate::source_tree::children_views(out@) == select_from(
                visited,
                filter.inc(),
                filter.exc(),
            ),
        decreases it.remaining().len(),
    {
        let ghost old_out = out@;
        let ghost old_visited = visited;
        match it.next() {
            None => {
                proof {
                    assert(visited =~= preorder(tree.v()));
                }
                return out;
            },
            Some(node) => {
                proof {
                    visited = visited.push(tree_view(*node));
                    assert(visited.drop_last() =~= old_visited);
                    assert(visited.last() == tree_view(*node));
                    assert(visited + it.remaining() =~= preorder(tree.v()));
                }
                let is_blob = node.entry_type == TreeEntryType::Blob;
                if is_blob && filter.check(node.path.as_str()) {
                    let copy = node.duplicate();
                    out.push(copy);
                    proof {
                        crate::source_tree::lemma_children_views(old_out);
                        crate::source_tree::lemma_children_views(out@);
                        assert(crate::source_tree::children_views(out@) =~= select_from(
                            visited,
                            filter.inc(),
                            filter.exc(),
                        ));
                    }
                } else {
                    proof {
                        assert(select_from(visited, filter.inc(), filter.exc()) == select_from(
                            old_visited,
                            filter.inc(),
                            filter.exc(),
                        ));
                    }
                }
            },
        }
    }
}

// ---------------------------------------------------------------------------
// Lifecycle events
// ---------------------------------------------------------------------------
/// An event that has occurred involving a single download.
#[derive(Debug)]
pub enum DownloadEvent {
    DownloadStarted { path: String },
    DownloadCompleted { path: String },
    DownloadFailed { path: String, error: Error },
}

/// Implement this trait to receive events on the status of each download.
/// The reporter may be invoked from concurrent tasks, so implementations must
/// be safe for concurrent invocation.
pub trait DownloadReporter: Sync {
    fn on_event(&self, event: &DownloadEvent);
}

/// An empty download reporter that does nothing.
pub struct NullDownloadReporter {}

impl DownloadReporter for NullDownloadReporter {
    fn on_event(&self, _event: &DownloadEvent) {
    }
}

// ---------------------------------------------------------------------------
// The bounded-concurrency scheduler
// ---------------------------------------------------------------------------
/// The lifecycle state of one selected file.
#[derive(Debug, Clone, Copy, PartialEq, Eq, Structural)]
pub enum FileStatus {
    /// Not launched yet.
    NotStarted,
    /// Launched; neither completed nor failed yet.
    InFlight,
    /// Completed or failed.
    Terminal,
}

/// What the driver should do next.
pub enum DownloadStep {
    /// Launch the download of the file with this index, reporting its
    /// `Started` event immediately before the fetch.
    Launch(usize),
    /// The concurrency bound is reached (or everything is launched): wait for
    /// any one in-flight download to finish, then record it.
    Wait,
    /// Every file has been launched and has finished.
    Finished,
}

/// One record of the observable event stream: which file was started, and
/// which terminal event it got.
pub enum DownloadRecord {
    Started(int),
    Completed(int),
    Failed(int, Error),
}

/// The file index a record speaks of.
pub open spec fn rec_file(r: DownloadRecord) -> int {
    match r {
        DownloadRecord::Started(i) => i,
        DownloadRecord::Completed(i) => i,
        DownloadRecord::Failed(i, _) => i,
    }
}

/// Whether a record is a terminal event (completed or failed).
pub open spec fn is_terminal_rec(r: DownloadRecord) -> bool {
    !(r is Started)
}

/// How many files of `s` are in flight.
pub open spec fn count_in_flight(s: Seq<FileStatus>) -> nat
    decreases s.len(),
{
    if s.len() == 0 {
        0
    } else {
        (if s.last() is InFlight {
            1nat
        } else {
            0nat
        }) + count_in_flight(s.drop_last())
    }
}

/// How many `Started` records for file `i` the log holds.
pub open spec fn started_count(log: Seq<DownloadRecord>, i: int) -> nat
    decreases log.len(),
{
    if log.len() == 0 {
        0
    } else {
        started_count(log.drop_last(), i) + (if log.last() == DownloadRecord::Started(i) {
            1nat
        } else {
            0nat
        })
    }
}

/// How many terminal records for file `i` the log holds.
pub open spec fn terminal_count(log: Seq<DownloadRecord>, i: int) -> nat
    decreases log.len(),
{
    if log.len() == 0 {
        0
    } else {
        terminal_count(log.drop_last(), i) + (if is_terminal_rec(log.last()) && rec_file(log.last())
            == i {
            1nat
        } else {
            0nat
        })
    }
}

/// The error of the first `Failed` record of the log, if any.
pub open spec fn first_failure(log: Seq<DownloadRecord>) -> Option<Error>
    decreases log.len(),
{
    if log.len() == 0 {
        None
    } else {
        match log[0] {
            DownloadRecord::Failed(_, e) => Some(e),
            _ => first_failure(log.drop_first()),
        }
    }
}

proof fn lemma_count_update(s: Seq<FileStatus>, i: int, v: FileStatus)
    requires
        0 <= i < s.len(),
    ensures
        count_in_flight(s.update(i, v)) + (if s[i] is InFlight {
            1nat
        } else {
            0nat
        }) == count_in_flight(s) + (if v is InFlight {
            1nat
        } else {
            0nat
        }),
    decreases s.len(),
{
    if i == s.len() - 1 {
        assert(s.update(i, v).drop_last() =~= s.drop_last());
        assert(s.update(i, v).last() == v);
    } else {
        lemma_count_update(s.drop_last(), i, v);
        assert(s.update(i, v).drop_last() =~= s.drop_last().update(i, v));
        assert(s.update(i, v).last() == s.last());
        assert(s.drop_last()[i] == s[i]);
    }
}

proof fn lemma_count_zero(s: Seq<FileStatus>)
    requires
        count_in_flight(s) == 0,
    ensures
        forall|i: int| 0 <= i < s.len() ==> !((#[trigger] s[i]) is InFlight),
    decreases s.len(),
{
    if s.len() > 0 {
        lemma_count_zero(s.drop_last());
        assert forall|i: int| 0 <= i < s.len() implies !((#[trigger] s[i]) is InFlight) by {
            if i < s.len() - 1 {
                assert(s.drop_last()[i] == s[i]);
            }
        }
    }
}

proof fn lemma_started_exists(log: Seq<DownloadRecord>, i: int)
    requires
        started_count(log, i) > 0,
    ensures
        exists|k: int| 0 <= k < log.len() && log[k] == DownloadRecord::Started(i),
    decreases log.len(),
{
    if log.last() != DownloadRecord::Started(i) {
        lemma_started_exists(log.drop_last(), i);
        let k = choose|k: int|
            0 <= k < log.drop_last().len() && log.drop_last()[k] == DownloadRecord::Started(i);
        assert(log[k] == DownloadRecord::Started(i));
    } else {
        assert(log[log.len() - 1] == DownloadRecord::Started(i));
    }
}

proof fn lemma_first_failure_push(log: Seq<DownloadRecord>, r: DownloadRecord)
    ensures
        first_failure(log.push(r)) == (if first_failure(log) is Some {
            first_failure(log)
        } else {
            match r {
                DownloadRecord::Failed(_, e) => Some(e),
                _ => None::<Error>,
            }
        }),
    decreases log.len(),
{
    if log.len() == 0 {
        assert(log.push(r)[0] == r);
        assert(log.push(r).drop_first() =~= Seq::<DownloadRecord>::empty());
    } else {
        assert(log.push(r)[0] == log[0]);
        assert(log.push(r).drop_first() =~= log.drop_first().push(r));
        lemma_first_failure_push(log.drop_first(), r);
    }
}

/// The planner of one `downloadAll` run over a fixed selection of files.
///
/// It decides when the next file may be launched — never letting more than
/// the configured bound be in flight at once, launching in selection order —
/// and accounts for each file's `Started` and terminal events and for the
/// first failure, which the run's overall result surfaces.
pub struct Downloader {
    max_active: usize,
    statuses: Vec<FileStatus>,
    active: usize,
    next: usize,
    first_error: Option<Error>,
    log: Ghost<Seq<DownloadRecord>>,
}

impl Downloader {
    /// The number of selected files of this run.
    pub closed spec fn total(&self) -> int {
        self.statuses@.len() as int
    }

    /// The concurrency bound; at least 1.
    pub closed spec fn max(&self) -> int {
        self.max_active as int
    }

    /// How many files have been launched so far.
    pub closed spec fn launched(&self) -> int {
        self.next as int
    }

    /// How many files are in flight right now.
    pub closed spec fn in_flight(&self) -> int {
        self.active as int
    }

    /// The lifecycle state of file `i`.
    pub closed spec fn status(&self, i: int) -> FileStatus {
        self.statuses@[i]
    }

    /// The event records of the run so far, in order.
    pub closed spec fn log(&self) -> Seq<DownloadRecord> {
        self.log@
    }

    /// The well-formedness of the scheduler: the bound holds, the counters
    /// match the statuses, files are launched in order, and the event log
    /// matches the statuses — one `Started` per launched file, one terminal
    /// record per finished file, terminal only after `Started`, and the first
    /// recorded failure is the one held for the overall result.
    pub closed spec fn inv(&self) -> bool {
        &&& self.max_active >= 1
        &&& self.active == count_in_flight(self.statuses@)
        &&& self.active <= self.max_active
        &&& self.next <= self.statuses@.len()
        &&& forall|i: int|
            0 <= i < self.statuses@.len() ==> (((#[trigger] self.statuses@[i]) is NotStarted) <==> i
                >= self.next)
        &&& forall|i: int|
            0 <= i < self.statuses@.len() ==> started_count(self.log@, i) == (
            if self.statuses@[i] is NotStarted {
                0nat
            } else {
                1nat
            })
        &&& forall|i: int|
            0 <= i < self.statuses@.len() ==> terminal_count(self.log@, i) == (
            if self.statuses@[i] is Terminal {
                1nat
            } else {
                0nat
            })
        &&& forall|k: int|
            0 <= k < self.log@.len() ==> 0 <= rec_file(#[trigger] self.log@[k])
                < self.statuses@.len()
        &&& forall|k: int|
            0 <= k < self.log@.len() && is_terminal_rec(#[trigger] self.log@[k]) ==> exists|k0: int|
                0 <= k0 < k && self.log@[k0] == DownloadRecord::Started(rec_file(self.log@[k]))
        &&& match self.first_error {
            Some(e) => first_failure(self.log@) == Some(e),
            None => first_failure(self.log@) is None,
        }
    }

    /// Creates the planner for `total` files with at most `max_simultaneous`
    /// concurrent downloads; a bound of zero is treated as one, so there is
    /// never a run with no live worker.
    pub fn new(total: usize, max_simultaneous: usize) -> (r: Downloader)
        ensures
            r.inv(),
            r.total() == total,
            r.max() == if max_simultaneous >= 1 {
                max_simultaneous as int
            } else {
                1int
            },
            r.launched() == 0,
            r.in_flight() == 0,
            r.log() == Seq::<DownloadRecord>::empty(),
    {
        let max_active = if max_simultaneous >= 1 {
            max_simultaneous
        } else {
            1
        };
        let mut statuses: Vec<FileStatus> = Vec::new();
        for k in 0..total
            invariant
                statuses@.len() == k,
                forall|i: int| 0 <= i < k ==> (#[trigger] statuses@[i]) is NotStarted,
        {
            statuses.push(FileStatus::NotStarted);
        }
        let r = Downloader {
            max_active,
            statuses,
            active: 0,
            next: 0,
            first_error: None,
            log: Ghost(Seq::empty()),
        };
        proof {
            lemma_count_nostart(r.statuses@);
        }
        r
    }

    /// Decides what the driver should do next: launch the next file when the
    /// bound allows it, wait for a completion when it does not, and report
    /// the run finished when everything launched has finished.
    pub fn next_step(&self) -> (r: DownloadStep)
        requires
            self.inv(),
        ensures
            match r {
                DownloadStep::Launch(i) => i == self.launched() && i < self.total()
                    && self.in_flight() < self.max(),
                DownloadStep::Wait => self.in_flight() > 0 && (self.launched() == self.total()
                    || self.in_flight() == self.max()),
                DownloadStep::Finished => self.launched() == self.total() && self.in_flight()
                    == 0,
            },
    {
        if self.next < self.statuses.len() && self.active < self.max_active {
            DownloadStep::Launch(self.next)
        } else if self.active > 0 {
            DownloadStep::Wait
        } else {
            DownloadStep::Finished
        }
    }

    /// Records the launch of the next file, which the driver must follow with
    /// that file's `Started` event and its fetch.  Returns the file's index.
    pub fn launch(&mut self) -> (i: usize)
        requires
            old(self).inv(),
            old(self).launched() < old(self).total(),
            old(self).in_flight() < old(self).max(),
        ensures
            final(self).inv(),
            i == old(self).launched(),
            final(self).total() == old(self).total(),
            final(self).max() == old(self).max(),
            final(self).launched() == i + 1,
            final(self).in_flight() == old(self).in_flight() + 1,
            final(self).status(i as int) is InFlight,
            forall|j: int|
                0 <= j < old(self).total() && j != i ==> final(self).status(j) == old(self).status(
                    j,
                ),
            final(self).log() == old(self).log().push(DownloadRecord::Started(i as int)),
    {
        let i = self.next;
        let total = self.statuses.len();
        proof {
            assert(i < total);
        }
        let ghost old_statuses = self.statuses@;
        let ghost old_log = self.log@;
        self.statuses.remove(i);
        self.statuses.insert(i, FileStatus::InFlight);
        self.next = i + 1;
        self.active = self.active + 1;
        self.log = Ghost(self.log@.push(DownloadRecord::Started(i as int)));
        proof {
            assert(self.statuses@ =~= old_statuses.update(i as int, FileStatus::InFlight));
            lemma_count_update(old_statuses, i as int, FileStatus::InFlight);
            self.lemma_log_push_counts(old_statuses, old_log, DownloadRecord::Started(i as int));
            lemma_first_failure_push(old_log, DownloadRecord::Started(i as int));
        }
        i
    }

    /// Records the terminal outcome of the launched file `i`, which the
    /// driver observed and must also report as the file's terminal event.
    /// The first failure recorded is the one the overall result surfaces;
    /// later failures are still recorded, never retried.
    pub fn on_complete(&mut self, i: usize, outcome: Result<(), Error>)
        requires
            old(self).inv(),
            i < old(self).total(),
            old(self).status(i as int) is InFlight,
        ensures
            final(self).inv(),
            final(self).total() == old(self).total(),
            final(self).max() == old(self).max(),
            final(self).launched() == old(self).launched(),
            final(self).in_flight() == old(self).in_flight() - 1,
            final(self).status(i as int) is Terminal,
            forall|j: int|
                0 <= j < old(self).total() && j != i ==> final(self).status(j) == old(self).status(
                    j,
                ),
            final(self).log() == old(self).log().push(
                match outcome {
                    Ok(_) => DownloadRecord::Completed(i as int),
                    Err(e) => DownloadRecord::Failed(i as int, e),
                },
            ),
    {
        let ghost old_statuses = self.statuses@;
        let ghost old_log = self.log@;
        let ghost rec = if outcome is Ok {
            DownloadRecord::Completed(i as int)
        } else {
            DownloadRecord::Failed(i as int, outcome->Err_0)
        };
        proof {
            lemma_count_pos(old_statuses, i as int);
        }
        self.statuses.remove(i);
        self.statuses.insert(i, FileStatus::Terminal);
        self.active = self.active - 1;
        self.log = Ghost(self.log@.push(rec));
        if let Err(e) = outcome {
            if self.first_error.is_none() {
                self.first_error = Some(e);
            }
        }
        proof {
            assert(self.statuses@ =~= old_statuses.update(i as int, FileStatus::Terminal));
            lemma_count_update(old_statuses, i as int, FileStatus::Terminal);
            self.lemma_log_push_counts(old_statuses, old_log, rec);
            lemma_first_failure_push(old_log, rec);
            assert(started_count(old_log, i as int) > 0);
            lemma_started_exists(old_log, i as int);
        }
    }

    /// The ties between the statuses and the log are kept when one record is
    /// appended for a file whose status changed accordingly.
    proof fn lemma_log_push_counts(
        &self,
        old_statuses: Seq<FileStatus>,
        old_log: Seq<DownloadRecord>,
        rec: DownloadRecord,
    )
        requires
            self.log@ == old_log.push(rec),
        ensures
            forall|j: int|
                started_count(self.log@, j) == started_count(old_log, j) + (
                if rec == DownloadRecord::Started(j) {
                    1nat
                } else {
                    0nat
                }),
            forall|j: int|
                terminal_count(self.log@, j) == terminal_count(old_log, j) + (
                if is_terminal_rec(rec) && rec_file(rec) == j {
                    1nat
                } else {
                    0nat
                }),
            forall|k: int| 0 <= k < old_log.len() ==> self.log@[k] == old_log[k],
            self.log@.last() == rec,
    {
        assert(self.log@.drop_last() =~= old_log);
    }

    /// The overall result of the run, once every file has been launched and
    /// has finished: the first observed failure's error, or success when no
    /// file failed.  Every file got exactly one `Started` and exactly one
    /// terminal event.
    pub fn result(&self) -> (r: Result<(), Error>)
        requires
            self.inv(),
            self.launched() == self.total(),
            self.in_flight() == 0,
        ensures
            match r {
                Ok(_) => first_failure(self.log()) is None,
                Err(e) => first_failure(self.log()) == Some(e),
            },
            forall|i: int|
                0 <= i < self.total() ==> started_count(self.log(), i) == 1 && terminal_count(
                    self.log(),
                    i,
                ) == 1,
    {
        proof {
            lemma_count_zero(self.statuses@);
        }
        match &self.first_error {
            None => Ok(()),
            Some(e) => Err(e.dup()),
        }
    }
}

proof fn lemma_count_pos(s: Seq<FileStatus>, i: int)
    requires
        0 <= i < s.len(),
        s[i] is InFlight,
    ensures
        count_in_flight(s) > 0,
    decreases s.len(),
{
    if i < s.len() - 1 {
        assert(s.drop_last()[i] == s[i]);
        lemma_count_pos(s.drop_last(), i);
    }
}

proof fn lemma_count_nostart(s: Seq<FileStatus>)
    requires
        forall|i: int| 0 <= i < s.len() ==> (#[trigger] s[i]) is NotStarted,
    ensures
        count_in_flight(s) == 0,
    decreases s.len(),
{
    if s.len() > 0 {
        assert(s[s.len() - 1] is NotStarted);
        assert forall|i: int| 0 <= i < s.drop_last().len() implies (#[trigger] s.drop_last()[i])
            is NotStarted by {
            assert(s.drop_last()[i] == s[i]);
        }
        lemma_count_nostart(s.drop_last());
    }
}

/// The bounded-concurrency invariant: in every state of a well-formed run,
/// the number of files in the started-but-not-yet-terminal state never
/// exceeds the configured bound.
pub proof fn lemma_bounded_concurrency(d: Downloader)
    requires
        d.inv(),
    ensures
        d.in_flight() <= d.max(),
        d.max() >= 1,
{
}

/// At most one terminal event per file, and only after its start: in every
/// state of a well-formed run, every file has at most one `Started` record
/// and at most as many terminal records, and every terminal record is
/// preceded by that file's `Started` record.
pub proof fn lemma_event_discipline(d: Downloader, i: int)
    requires
        d.inv(),
        0 <= i < d.total(),
    ensures
        started_count(d.log(), i) <= 1,
        terminal_count(d.log(), i) <= started_count(d.log(), i),
        forall|k: int|
            0 <= k < d.log().len() && is_terminal_rec(#[trigger] d.log()[k]) ==> exists|k0: int|
                0 <= k0 < k && d.log()[k0] == DownloadRecord::Started(rec_file(d.log()[k])),
{
}

} // verus!
