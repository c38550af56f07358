//! The truncation-aware tree-fetch protocol, as a state machine.
//!
//! The remote listing endpoint may cap a recursive listing ("truncated").
//! The session first asks for one recursive listing; if it was not truncated
//! it is the result.  Otherwise the session walks the tree manually: it
//! re-requests the root without the recursive flag, then requests every
//! discovered directory by its own content id, depth first, prefixing every
//! sub-entry's path with its parent's path, and concatenates everything into
//! one flat, non-truncated listing.
//!
//! The session itself performs no I/O: it hands out [`FetchAction`]s and is
//! fed [`FetchEvent`]s, so the decisions are checked here while a thin driver
//! performs the requests.
use vstd::prelude::*;

use crate::error::Error;
use crate::source_tree::{entry_views, TreeEntry, TreeEntryType, TreeEntryView, TreeModel};

verus! {

/// A path `s` placed under the directory `p`: `p/s`, or `s` itself under the
/// root.
pub open spec fn path_join(p: Seq<char>, s: Seq<char>) -> Seq<char> {
    if p.len() == 0 {
        s
    } else {
        p + seq!['/'] + s
    }
}

/// The entry `e` as it appears once its listing's directory prefix `p` is
/// applied to its path.
pub open spec fn prefix_entry(p: Seq<char>, e: TreeEntryView) -> TreeEntryView {
    TreeEntryView {
        path: path_join(p, e.path),
        mode: e.mode,
        entry_type: e.entry_type,
        size: e.size,
        sha: e.sha,
        url: e.url,
    }
}

/// Joins a directory path and a relative path with a `/`; under the root
/// (empty directory path) the relative path stands alone.
pub fn join_path(p: &str, s: &str) -> (r: String)
    ensures
        r@ == path_join(p@, s@),
{
    if p.unicode_len() == 0 {
        s.to_owned()
    } else {
        let mut r = p.to_owned();
        r.append("/");
        r.append(s);
        proof {
            reveal_strlit("/");
            assert("/"@ =~= seq!['/']);
            assert(r@ =~= p@ + seq!['/'] + s@);
        }
        r
    }
}

/// One sub-listing the session has consumed during the manual walk: the
/// directory prefix it was requested for, and the entries it reported (with
/// their unprefixed paths).
pub struct ConsumedListing {
    pub prefix: Seq<char>,
    pub entries: Seq<TreeEntryView>,
}

/// Whether `entries` holds a directory entry with path `p` and content id
/// `sha`.
pub open spec fn is_dir_entry_of(entries: Seq<TreeEntryView>, p: Seq<char>, sha: Seq<char>) -> bool {
    exists|j: int|
        0 <= j < entries.len() && (#[trigger] entries[j]).entry_type == TreeEntryType::Tree
            && entries[j].path == p && entries[j].sha == sha
}

/// Whether the manual walk has discovered a directory with the prefixed path
/// `p` and content id `sha`: a directory entry of the initial root listing,
/// or of a consumed sub-listing, under that listing's prefix.
pub open spec fn discovered_dir(
    initial: Seq<TreeEntryView>,
    consumed: Seq<ConsumedListing>,
    p: Seq<char>,
    sha: Seq<char>,
) -> bool {
    ||| is_dir_entry_of(initial, p, sha)
    ||| exists|k: int, j: int|
        0 <= k < consumed.len() && 0 <= j < consumed[k].entries.len()
            && (#[trigger] consumed[k].entries[j]).entry_type == TreeEntryType::Tree
            && path_join(consumed[k].prefix, consumed[k].entries[j].path) == p
            && consumed[k].entries[j].sha == sha
}

/// Whether a sub-listing was consumed at the prefixed path `p`.
pub open spec fn consumed_at(consumed: Seq<ConsumedListing>, p: Seq<char>) -> bool {
    exists|k: int| 0 <= k < consumed.len() && (#[trigger] consumed[k]).prefix == p
}

/// The walk left nothing out: every directory it discovered — in the initial
/// root listing or in any consumed sub-listing — had its own listing
/// consumed at its prefixed path.
pub open spec fn walk_exhaustive(
    initial: Seq<TreeEntryView>,
    consumed: Seq<ConsumedListing>,
) -> bool {
    forall|p: Seq<char>, sha: Seq<char>|
        #[trigger] discovered_dir(initial, consumed, p, sha) ==> consumed_at(consumed, p)
}

/// Whether `e` comes from the walk: an entry of the initial root listing, or
/// an entry of a consumed sub-listing under that listing's prefix.
pub open spec fn from_the_walk(
    e: TreeEntryView,
    initial: Seq<TreeEntryView>,
    consumed: Seq<ConsumedListing>,
) -> bool {
    ||| initial.contains(e)
    ||| exists|k: int, j: int|
        0 <= k < consumed.len() && 0 <= j < consumed[k].entries.len() && e == prefix_entry(
            consumed[k].prefix,
            #[trigger] consumed[k].entries[j],
        )
}

/// What the manually assembled result owes to the walk: it is not truncated;
/// it ends with the initial root listing's entries (so it is at least as
/// large); it holds every entry of every consumed sub-listing, under that
/// listing's prefix, and nothing that is not an initial or a consumed,
/// prefixed entry; and the walk consumed a listing for every directory it
/// discovered.
pub open spec fn fetch_result_complete(
    tree: Seq<TreeEntryView>,
    initial: Seq<TreeEntryView>,
    consumed: Seq<ConsumedListing>,
) -> bool {
    &&& tree.len() >= initial.len()
    &&& (exists|rest: Seq<TreeEntryView>| #![trigger rest.len()] tree == rest + initial)
    &&& forall|k: int, i: int|
        0 <= k < consumed.len() && 0 <= i < consumed[k].entries.len() ==> tree.contains(
            prefix_entry(consumed[k].prefix, #[trigger] consumed[k].entries[i]),
        )
    &&& forall|i: int| 0 <= i < tree.len() ==> from_the_walk(#[trigger] tree[i], initial, consumed)
    &&& walk_exhaustive(initial, consumed)
}

/// The (prefixed path, content id) pairs of the directory entries of one
/// listing level, in order.
pub open spec fn dirs_of(entries: Seq<TreeEntryView>) -> Seq<(Seq<char>, Seq<char>)>
    decreases entries.len(),
{
    if entries.len() == 0 {
        Seq::empty()
    } else {
        let rest = dirs_of(entries.drop_last());
        if entries.last().entry_type == TreeEntryType::Tree {
            rest.push((entries.last().path, entries.last().sha))
        } else {
            rest
        }
    }
}

/// `dirs_of` holds exactly the directory entries: every directory entry's
/// pair appears, and every pair is a directory entry's.
pub proof fn lemma_dirs_of(entries: Seq<TreeEntryView>)
    ensures
        forall|j: int|
            0 <= j < entries.len() && (#[trigger] entries[j]).entry_type == TreeEntryType::Tree
                ==> dirs_of(entries).contains((entries[j].path, entries[j].sha)),
        forall|m: int|
            0 <= m < dirs_of(entries).len() ==> is_dir_entry_of(
                entries,
                (#[trigger] dirs_of(entries)[m]).0,
                dirs_of(entries)[m].1,
            ),
    decreases entries.len(),
{
    if entries.len() > 0 {
        lemma_dirs_of(entries.drop_last());
        let rest = dirs_of(entries.drop_last());
        assert forall|j: int|
            0 <= j < entries.len() && (#[trigger] entries[j]).entry_type
                == TreeEntryType::Tree implies dirs_of(entries).contains(
            (entries[j].path, entries[j].sha),
        ) by {
            if j < entries.len() - 1 {
                assert(entries.drop_last()[j] == entries[j]);
                assert(rest.contains((entries[j].path, entries[j].sha)));
                let m = choose|m: int|
                    0 <= m < rest.len() && rest[m] == (entries[j].path, entries[j].sha);
                assert(dirs_of(entries)[m] == (entries[j].path, entries[j].sha));
            } else {
                assert(dirs_of(entries)[rest.len() as int] == (entries[j].path, entries[j].sha));
            }
        }
        assert forall|m: int| 0 <= m < dirs_of(entries).len() implies is_dir_entry_of(
            entries,
            (#[trigger] dirs_of(entries)[m]).0,
            dirs_of(entries)[m].1,
        ) by {
            if m < rest.len() {
                assert(dirs_of(entries)[m] == rest[m]);
                let j = choose|j: int|
                    0 <= j < entries.drop_last().len() && (#[trigger] entries.drop_last()[j]).entry_type
                        == TreeEntryType::Tree && entries.drop_last()[j].path == rest[m].0
                        && entries.drop_last()[j].sha == rest[m].1;
                assert(entries[j] == entries.drop_last()[j]);
            } else {
                assert(entries.last().entry_type == TreeEntryType::Tree);
                assert(entries[entries.len() - 1] == entries.last());
            }
        }
    }
}

/// Recording one more consumed listing loses no discovery, no consumption
/// and no walk-sourced entry.
proof fn lemma_history_push_mono(
    initial: Seq<TreeEntryView>,
    consumed: Seq<ConsumedListing>,
    c: ConsumedListing,
)
    ensures
        forall|p: Seq<char>, sha: Seq<char>|
            #[trigger] discovered_dir(initial, consumed, p, sha) ==> discovered_dir(
                initial,
                consumed.push(c),
                p,
                sha,
            ),
        forall|p: Seq<char>| #[trigger] consumed_at(consumed, p) ==> consumed_at(
            consumed.push(c),
            p,
        ),
        forall|e: TreeEntryView| #[trigger] from_the_walk(e, initial, consumed) ==> from_the_walk(
            e,
            initial,
            consumed.push(c),
        ),
{
    assert forall|p: Seq<char>, sha: Seq<char>|
        #[trigger] discovered_dir(initial, consumed, p, sha) implies discovered_dir(
        initial,
        consumed.push(c),
        p,
        sha,
    ) by {
        if !is_dir_entry_of(initial, p, sha) {
            let (k, j) = choose|k: int, j: int|
                0 <= k < consumed.len() && 0 <= j < consumed[k].entries.len()
                    && (#[trigger] consumed[k].entries[j]).entry_type == TreeEntryType::Tree
                    && path_join(consumed[k].prefix, consumed[k].entries[j].path) == p
                    && consumed[k].entries[j].sha == sha;
            assert(consumed.push(c)[k] == consumed[k]);
        }
    }
    assert forall|p: Seq<char>| #[trigger] consumed_at(consumed, p) implies consumed_at(
        consumed.push(c),
        p,
    ) by {
        let k = choose|k: int| 0 <= k < consumed.len() && (#[trigger] consumed[k]).prefix == p;
        assert(consumed.push(c)[k] == consumed[k]);
    }
    assert forall|e: TreeEntryView| #[trigger] from_the_walk(e, initial, consumed) implies
        from_the_walk(e, initial, consumed.push(c)) by {
        if !initial.contains(e) {
            let (k, j) = choose|k: int, j: int|
                0 <= k < consumed.len() && 0 <= j < consumed[k].entries.len() && e == prefix_entry(
                    consumed[k].prefix,
                    #[trigger] consumed[k].entries[j],
                );
            assert(consumed.push(c)[k] == consumed[k]);
        }
    }
}

/// A discovery under one more consumed listing is an old discovery or one
/// contributed by the new listing.
proof fn lemma_discovered_push_cases(
    initial: Seq<TreeEntryView>,
    consumed: Seq<ConsumedListing>,
    c: ConsumedListing,
    p: Seq<char>,
    sha: Seq<char>,
)
    requires
        discovered_dir(initial, consumed.push(c), p, sha),
    ensures
        discovered_dir(initial, consumed, p, sha) || (exists|j: int|
            0 <= j < c.entries.len() && (#[trigger] c.entries[j]).entry_type
                == TreeEntryType::Tree && path_join(c.prefix, c.entries[j].path) == p
                && c.entries[j].sha == sha),
{
    if !is_dir_entry_of(initial, p, sha) {
        let (k, j) = choose|k: int, j: int|
            0 <= k < consumed.push(c).len() && 0 <= j < consumed.push(c)[k].entries.len()
                && (#[trigger] consumed.push(c)[k].entries[j]).entry_type == TreeEntryType::Tree
                && path_join(consumed.push(c)[k].prefix, consumed.push(c)[k].entries[j].path) == p
                && consumed.push(c)[k].entries[j].sha == sha;
        if k < consumed.len() {
            assert(consumed.push(c)[k] == consumed[k]);
        } else {
            assert(consumed.push(c)[k] == c);
        }
    }
}

/// An instruction the session hands to its driver.
pub enum FetchAction {
    /// Request the listing of the tree addressed by `reference` (a branch
    /// name or content id), with or without the recursive flag.
    Request { reference: String, recursive: bool },
    /// The fetch is complete; this is the assembled listing.
    Done(TreeModel),
}

/// A response the driver feeds back into the session.
pub enum FetchEvent {
    /// The requested listing, decoded.
    Listing(TreeModel),
    /// The service answered with an error payload carrying this message.
    ApiError(String),
}

/// A directory discovered during the manual walk and not yet requested.
struct PendingDir {
    /// The full path this directory's entries will be prefixed with.
    prefix: String,
    /// The content id to request the directory's listing by.
    sha: String,
}

/// One level of the manual depth-first walk.
struct FetchFrame {
    /// Directories of this level still to be requested.
    pending: Vec<PendingDir>,
    /// The next index into `pending` to request.
    next: usize,
    /// This level's own entries, already prefixed; appended to the result
    /// once every pending directory below is done.
    entries: Vec<TreeEntry>,
}

/// Returns the entries of `src` with the directory prefix applied to every
/// path.
fn prefix_all(src: &Vec<TreeEntry>, prefix: &String) -> (r: Vec<TreeEntry>)
    ensures
        r@.len() == src@.len(),
        forall|i: int|
            0 <= i < src@.len() ==> entry_views(r@)[i] == prefix_entry(
                prefix@,
                #[trigger] entry_views(src@)[i],
            ),
{
    let mut out: Vec<TreeEntry> = Vec::new();
    let n = src.len();
    for i in 0..n
        invariant
            n == src@.len(),
            out@.len() == i,
            forall|k: int|
                0 <= k < i ==> entry_views(out@)[k] == prefix_entry(
                    prefix@,
                    #[trigger] entry_views(src@)[k],
                ),
    {
        let joined = join_path(prefix.as_str(), src[i].path.as_str());
        let e = TreeEntry {
            path: joined,
            mode: src[i].mode.clone(),
            entry_type: src[i].entry_type,
            size: src[i].size,
            sha: src[i].sha.clone(),
            url: src[i].url.clone(),
        };
        out.push(e);
    }
    out
}

/// The (prefix, content id) views of a pending-directory list.
spec fn pending_views(s: Seq<PendingDir>) -> Seq<(Seq<char>, Seq<char>)> {
    s.map_values(|pd: PendingDir| (pd.prefix@, pd.sha@))
}

/// Collects the directories of one (already prefixed) level, each with its
/// content id, to be requested in turn: exactly the level's directory
/// entries, in order.
fn collect_pending(entries: &Vec<TreeEntry>) -> (r: Vec<PendingDir>)
    ensures
        pending_views(r@) == dirs_of(entry_views(entries@)),
{
    let ghost evs = entry_views(entries@);
    let mut out: Vec<PendingDir> = Vec::new();
    let n = entries.len();
    proof {
        assert(evs.take(0) =~= Seq::<TreeEntryView>::empty());
        assert(pending_views(out@) =~= dirs_of(evs.take(0)));
    }
    for i in 0..n
        invariant
            n == entries@.len(),
            evs == entry_views(entries@),
            pending_views(out@) == dirs_of(evs.take(i as int)),
    {
        proof {
            assert(evs.take(i as int + 1).drop_last() =~= evs.take(i as int));
            assert(evs.take(i as int + 1).last() == evs[i as int]);
        }
        if entries[i].entry_type == TreeEntryType::Tree {
            let pd = PendingDir { prefix: entries[i].path.clone(), sha: entries[i].sha.clone() };
            out.push(pd);
            proof {
                assert(pending_views(out@) =~= dirs_of(evs.take(i as int + 1)));
            }
        }
    }
    proof {
        assert(evs.take(n as int) =~= evs);
    }
    out
}

enum FetchPhase {
    AwaitRecursive,
    AwaitInitial,
    AwaitSub,
    Finished,
}

/// The state of one tree fetch.
pub struct TreeFetchSession {
    branch: String,
    phase: FetchPhase,
    root_sha: String,
    root_url: String,
    current: Option<PendingDir>,
    stack: Vec<FetchFrame>,
    acc: Vec<TreeEntry>,
    initial: Ghost<Seq<TreeEntryView>>,
    history: Ghost<Seq<ConsumedListing>>,
}

impl TreeFetchSession {
    /// The branch (or content id) this session fetches.
    pub closed spec fn branch_view(&self) -> Seq<char> {
        self.branch@
    }

    /// Whether the session still awaits the first, recursive listing.
    pub closed spec fn awaiting_recursive(&self) -> bool {
        self.phase is AwaitRecursive
    }

    /// Whether the session awaits the non-recursive root listing of the
    /// manual walk.
    pub closed spec fn awaiting_initial(&self) -> bool {
        self.phase is AwaitInitial
    }

    /// Whether the session awaits a sub-listing of the manual walk.
    pub closed spec fn awaiting_sub(&self) -> bool {
        self.phase is AwaitSub
    }

    /// Whether the session has produced its result.
    pub closed spec fn is_finished(&self) -> bool {
        self.phase is Finished
    }

    /// The entries of the non-recursive root listing of the manual walk.
    pub closed spec fn initial_entries(&self) -> Seq<TreeEntryView> {
        self.initial@
    }

    /// The sub-listings consumed so far during the manual walk.
    pub closed spec fn consumed(&self) -> Seq<ConsumedListing> {
        self.history@
    }

    /// The root metadata recorded from the root listing.
    pub closed spec fn root_sha_view(&self) -> Seq<char> {
        self.root_sha@
    }

    pub closed spec fn root_url_view(&self) -> Seq<char> {
        self.root_url@
    }

    /// The prefix of the sub-listing the session currently awaits.
    pub closed spec fn current_prefix(&self) -> Seq<char> {
        match self.current {
            Some(pd) => pd.prefix@,
            None => Seq::empty(),
        }
    }

    /// The content id of the sub-listing the session currently awaits.
    pub closed spec fn current_sha(&self) -> Seq<char> {
        match self.current {
            Some(pd) => pd.sha@,
            None => Seq::empty(),
        }
    }

    /// Whether the directory with prefixed path `p` and content id `sha` is
    /// still queued for the walk: pending in some level of the stack, or the
    /// outstanding request itself.
    spec fn dir_outstanding(&self, p: Seq<char>, sha: Seq<char>) -> bool {
        ||| exists|fi: int, mm: int|
            0 <= fi < self.stack@.len() && self.stack@[fi].next <= mm
                < self.stack@[fi].pending@.len() && (#[trigger] self.stack@[fi].pending@[mm]).prefix@
                == p && self.stack@[fi].pending@[mm].sha@ == sha
        ||| (self.current matches Some(pd) && pd.prefix@ == p && pd.sha@ == sha)
    }

    /// Whether `e` is already recorded somewhere in the session: in the
    /// accumulated result or in some level's own entries.
    spec fn entry_in_session(&self, e: TreeEntryView) -> bool {
        ||| entry_views(self.acc@).contains(e)
        ||| exists|f: int|
            0 <= f < self.stack@.len() && entry_views(
                (#[trigger] self.stack@[f]).entries@,
            ).contains(e)
    }

    /// The invariant of the manual walk: the bottom level holds the initial
    /// root listing's entries (they are appended last), once the stack is
    /// empty the accumulated result ends with them, and every consumed
    /// sub-listing's entries are recorded, prefixed.
    spec fn walk_inv(&self) -> bool {
        &&& (self.stack@.len() > 0 ==> entry_views(self.stack@[0].entries@) == self.initial@)
        &&& (self.stack@.len() == 0 ==> (exists|rest: Seq<TreeEntryView>|
            #![trigger rest.len()]
            entry_views(self.acc@) == rest + self.initial@))
        &&& forall|k: int, i: int|
            0 <= k < self.history@.len() && 0 <= i < self.history@[k].entries.len()
                ==> self.entry_in_session(
                prefix_entry(self.history@[k].prefix, #[trigger] self.history@[k].entries[i]),
            )
        &&& forall|i: int|
            0 <= i < self.acc@.len() ==> from_the_walk(
                #[trigger] entry_views(self.acc@)[i],
                self.initial@,
                self.history@,
            )
        &&& forall|fi: int, i: int|
            0 <= fi < self.stack@.len() && 0 <= i < self.stack@[fi].entries@.len()
                ==> from_the_walk(
                #[trigger] entry_views(self.stack@[fi].entries@)[i],
                self.initial@,
                self.history@,
            )
        &&& forall|fi: int, mm: int|
            0 <= fi < self.stack@.len() && 0 <= mm < self.stack@[fi].pending@.len()
                ==> discovered_dir(
                self.initial@,
                self.history@,
                (#[trigger] self.stack@[fi].pending@[mm]).prefix@,
                self.stack@[fi].pending@[mm].sha@,
            )
        &&& forall|p: Seq<char>, sha: Seq<char>|
            #[trigger] discovered_dir(self.initial@, self.history@, p, sha) ==> consumed_at(
                self.history@,
                p,
            ) || self.dir_outstanding(p, sha)
    }

    /// The well-formedness of the session in every phase.
    pub closed spec fn inv(&self) -> bool {
        &&& (self.awaiting_sub() ==> self.current is Some && self.stack@.len() > 0
            && self.walk_inv() && discovered_dir(
            self.initial@,
            self.history@,
            self.current_prefix(),
            self.current_sha(),
        ))
        &&& ((self.awaiting_recursive() || self.awaiting_initial()) ==> self.history@.len() == 0
            && self.stack@.len() == 0 && self.acc@.len() == 0)
    }

    /// Feeds the response to the session's outstanding request into the
    /// session; the result is the next action, or the error that aborts the
    /// whole fetch.
    ///
    /// An error payload from the service aborts the fetch with
    /// [`Error::GithubError`] carrying the service's message verbatim.  A
    /// non-truncated recursive listing is the result as it stands.  A
    /// truncated one switches to the manual walk, whose assembled result owes
    /// what [`fetch_result_complete`] states.
    pub fn on_event(&mut self, ev: FetchEvent) -> (r: Result<FetchAction, Error>)
        requires
            old(self).inv(),
        ensures
            final(self).inv(),
            match ev {
                FetchEvent::ApiError(msg) => (r matches Err(e) && e == Error::GithubError(msg)),
                FetchEvent::Listing(m) => {
                    if old(self).awaiting_recursive() {
                        if !m@.truncated {
                            &&& (r matches Ok(a) && a matches FetchAction::Done(out) && out@
                                == m@)
                            &&& final(self).is_finished()
                        } else {
                            &&& (r matches Ok(a) && a matches FetchAction::Request {
                                reference,
                                recursive,
                            } && reference@ == old(self).branch_view() && recursive == false)
                            &&& final(self).awaiting_initial()
                        }
                    } else if old(self).awaiting_initial() {
                        &&& final(self).initial_entries() == m@.tree
                        &&& final(self).root_sha_view() == m@.sha
                        &&& final(self).root_url_view() == m@.url
                        &&& final(self).consumed() == old(self).consumed()
                        &&& Self::manual_step(r, *final(self))
                    } else if old(self).awaiting_sub() {
                        &&& final(self).initial_entries() == old(self).initial_entries()
                        &&& final(self).root_sha_view() == old(self).root_sha_view()
                        &&& final(self).root_url_view() == old(self).root_url_view()
                        &&& final(self).consumed() == old(self).consumed().push(
                            ConsumedListing {
                                prefix: old(self).current_prefix(),
                                entries: m@.tree,
                            },
                        )
                        &&& Self::manual_step(r, *final(self))
                    } else {
                        r is Err
                    }
                },
            },
    {
        match ev {
            FetchEvent::ApiError(msg) => Err(Error::GithubError(msg)),
            FetchEvent::Listing(m) => {
                match self.phase {
                    FetchPhase::AwaitRecursive => {
                        if !m.truncated {
                            self.phase = FetchPhase::Finished;
                            Ok(FetchAction::Done(m))
                        } else {
                            self.phase = FetchPhase::AwaitInitial;
                            Ok(
                                FetchAction::Request {
                                    reference: self.branch.clone(),
                                    recursive: false,
                                },
                            )
                        }
                    },
                    FetchPhase::AwaitInitial => {
                        let ghost tviews = entry_views(m.tree@);
                        let pending = collect_pending(&m.tree);
                        self.root_sha = m.sha;
                        self.root_url = m.url;
                        self.initial = Ghost(tviews);
                        self.stack.push(FetchFrame { pending, next: 0, entries: m.tree });
                        self.phase = FetchPhase::AwaitSub;
                        self.current = None;
                        proof {
                            lemma_dirs_of(tviews);
                            assert(entry_views(self.stack@[0].entries@) == self.initial@);
                            assert forall|fi: int, i: int|
                                0 <= fi < self.stack@.len() && 0 <= i
                                    < self.stack@[fi].entries@.len() implies from_the_walk(
                                #[trigger] entry_views(self.stack@[fi].entries@)[i],
                                self.initial@,
                                self.history@,
                            ) by {
                                assert(entry_views(self.stack@[0].entries@)[i] == tviews[i]);
                                assert(tviews.contains(tviews[i]));
                            }
                            assert forall|fi: int, mm: int|
                                0 <= fi < self.stack@.len() && 0 <= mm
                                    < self.stack@[fi].pending@.len() implies discovered_dir(
                                self.initial@,
                                self.history@,
                                (#[trigger] self.stack@[fi].pending@[mm]).prefix@,
                                self.stack@[fi].pending@[mm].sha@,
                            ) by {
                                assert(pending_views(self.stack@[0].pending@)[mm] == dirs_of(
                                    tviews,
                                )[mm]);
                                assert(is_dir_entry_of(
                                    tviews,
                                    dirs_of(tviews)[mm].0,
                                    dirs_of(tviews)[mm].1,
                                ));
                            }
                            assert forall|p: Seq<char>, sha: Seq<char>|
                                #[trigger] discovered_dir(
                                    self.initial@,
                                    self.history@,
                                    p,
                                    sha,
                                ) implies consumed_at(self.history@, p) || self.dir_outstanding(
                                p,
                                sha,
                            ) by {
                                assert(is_dir_entry_of(tviews, p, sha));
                                let j = choose|j: int|
                                    0 <= j < tviews.len() && (#[trigger] tviews[j]).entry_type
                                        == TreeEntryType::Tree && tviews[j].path == p
                                        && tviews[j].sha == sha;
                                assert(dirs_of(tviews).contains((tviews[j].path, tviews[j].sha)));
                                let mm = choose|mm: int|
                                    0 <= mm < dirs_of(tviews).len() && dirs_of(tviews)[mm] == (
                                    p,
                                    sha,
                                );
                                assert(pending_views(self.stack@[0].pending@)[mm] == (p, sha));
                                assert(self.stack@[0].pending@[mm].prefix@ == p);
                                assert(self.stack@[0].pending@[mm].sha@ == sha);
                                assert(self.dir_outstanding(p, sha));
                            }
                            assert(self.walk_inv());
                        }
                        Ok(self.advance())
                    },
                    FetchPhase::AwaitSub => {
                        let ghost prev = *self;
                        let cur_prefix = match &self.current {
                            Some(pd) => pd.prefix.clone(),
                            None => {
                                proof {
                                    assert(false);
                                }
                                String::new()
                            },
                        };
                        let prefixed = prefix_all(&m.tree, &cur_prefix);
                        let pending = collect_pending(&prefixed);
                        let ghost c = ConsumedListing {
                            prefix: cur_prefix@,
                            entries: entry_views(m.tree@),
                        };
                        self.history = Ghost(self.history@.push(c));
                        self.stack.push(FetchFrame { pending, next: 0, entries: prefixed });
                        self.current = None;
                        proof {
                            lemma_history_push_mono(prev.initial@, prev.history@, c);
                            lemma_dirs_of(entry_views(prefixed@));
                            let ghost pvs = entry_views(prefixed@);
                            let ghost newf = prev.stack@.len() as int;
                            assert(self.stack@.len() == prev.stack@.len() + 1);
                            assert(self.stack@[0] == prev.stack@[0]);
                            assert(forall|fi: int|
                                0 <= fi < prev.stack@.len() ==> #[trigger] self.stack@[fi]
                                    == prev.stack@[fi]);
                            assert(self.stack@[newf].entries@ == prefixed@);
                            assert(self.stack@[newf].next == 0);
                            assert(pending_views(self.stack@[newf].pending@) == dirs_of(pvs));
                            assert forall|k: int, i: int|
                                0 <= k < self.history@.len() && 0 <= i
                                    < self.history@[k].entries.len() implies self.entry_in_session(
                                prefix_entry(
                                    self.history@[k].prefix,
                                    #[trigger] self.history@[k].entries[i],
                                ),
                            ) by {
                                let pe = prefix_entry(
                                    self.history@[k].prefix,
                                    self.history@[k].entries[i],
                                );
                                if k < prev.history@.len() {
                                    assert(prev.entry_in_session(pe));
                                    if !entry_views(prev.acc@).contains(pe) {
                                        let f = choose|f: int|
                                            0 <= f < prev.stack@.len() && entry_views(
                                                (#[trigger] prev.stack@[f]).entries@,
                                            ).contains(pe);
                                        assert(self.stack@[f] == prev.stack@[f]);
                                        assert(entry_views(
                                            (self.stack@[f]).entries@,
                                        ).contains(pe));
                                    }
                                } else {
                                    assert(self.history@[k].prefix == cur_prefix@);
                                    assert(self.history@[k].entries[i] == entry_views(m.tree@)[i]);
                                    let f = prev.stack@.len() as int;
                                    assert(self.stack@[f].entries@ == prefixed@);
                                    assert(entry_views(prefixed@)[i] == pe);
                                    assert(entry_views(self.stack@[f].entries@).contains(pe));
                                }
                            }
                            assert forall|i: int| 0 <= i < self.acc@.len() implies from_the_walk(
                                #[trigger] entry_views(self.acc@)[i],
                                self.initial@,
                                self.history@,
                            ) by {
                                assert(from_the_walk(
                                    entry_views(prev.acc@)[i],
                                    prev.initial@,
                                    prev.history@,
                                ));
                            }
                            assert forall|fi: int, i: int|
                                0 <= fi < self.stack@.len() && 0 <= i
                                    < self.stack@[fi].entries@.len() implies from_the_walk(
                                #[trigger] entry_views(self.stack@[fi].entries@)[i],
                                self.initial@,
                                self.history@,
                            ) by {
                                if fi < prev.stack@.len() {
                                    assert(self.stack@[fi] == prev.stack@[fi]);
                                    assert(from_the_walk(
                                        entry_views(prev.stack@[fi].entries@)[i],
                                        prev.initial@,
                                        prev.history@,
                                    ));
                                } else {
                                    assert(pvs[i] == prefix_entry(
                                        cur_prefix@,
                                        entry_views(m.tree@)[i],
                                    ));
                                    assert(self.history@[prev.history@.len() as int] == c);
                                    assert(pvs[i] == prefix_entry(c.prefix, c.entries[i]));
                                }
                            }
                            assert forall|fi: int, mm: int|
                                0 <= fi < self.stack@.len() && 0 <= mm
                                    < self.stack@[fi].pending@.len() implies discovered_dir(
                                self.initial@,
                                self.history@,
                                (#[trigger] self.stack@[fi].pending@[mm]).prefix@,
                                self.stack@[fi].pending@[mm].sha@,
                            ) by {
                                if fi < prev.stack@.len() {
                                    assert(self.stack@[fi] == prev.stack@[fi]);
                                    assert(discovered_dir(
                                        prev.initial@,
                                        prev.history@,
                                        prev.stack@[fi].pending@[mm].prefix@,
                                        prev.stack@[fi].pending@[mm].sha@,
                                    ));
                                } else {
                                    let pr = self.stack@[fi].pending@[mm].prefix@;
                                    let sh = self.stack@[fi].pending@[mm].sha@;
                                    assert(pending_views(self.stack@[fi].pending@)[mm] == (
                                        pr,
                                        sh,
                                    ));
                                    assert(is_dir_entry_of(pvs, pr, sh));
                                    let j = choose|j: int|
                                        0 <= j < pvs.len() && (#[trigger] pvs[j]).entry_type
                                            == TreeEntryType::Tree && pvs[j].path == pr
                                            && pvs[j].sha == sh;
                                    assert(pvs[j] == prefix_entry(
                                        cur_prefix@,
                                        entry_views(m.tree@)[j],
                                    ));
                                    assert(self.history@[prev.history@.len() as int] == c);
                                    assert(c.entries[j].entry_type == TreeEntryType::Tree);
                                    assert(path_join(c.prefix, c.entries[j].path) == pr);
                                    assert(c.entries[j].sha == sh);
                                }
                            }
                            assert forall|p: Seq<char>, sha: Seq<char>|
                                #[trigger] discovered_dir(
                                    self.initial@,
                                    self.history@,
                                    p,
                                    sha,
                                ) implies consumed_at(self.history@, p) || self.dir_outstanding(
                                p,
                                sha,
                            ) by {
                                lemma_discovered_push_cases(
                                    prev.initial@,
                                    prev.history@,
                                    c,
                                    p,
                                    sha,
                                );
                                if discovered_dir(prev.initial@, prev.history@, p, sha) {
                                    if !consumed_at(prev.history@, p) {
                                        assert(prev.dir_outstanding(p, sha));
                                        if prev.current matches Some(pd) && pd.prefix@ == p
                                            && pd.sha@ == sha {
                                            assert(self.history@[prev.history@.len() as int].prefix
                                                == p);
                                            assert(consumed_at(self.history@, p));
                                        } else {
                                            let (fi, mm) = choose|fi: int, mm: int|
                                                0 <= fi < prev.stack@.len()
                                                    && prev.stack@[fi].next <= mm
                                                    < prev.stack@[fi].pending@.len() && (
                                                #[trigger] prev.stack@[fi].pending@[mm]).prefix@
                                                    == p && prev.stack@[fi].pending@[mm].sha@
                                                    == sha;
                                            assert(self.stack@[fi] == prev.stack@[fi]);
                                            assert(self.dir_outstanding(p, sha));
                                        }
                                    }
                                } else {
                                    let j = choose|j: int|
                                        0 <= j < c.entries.len() && (
                                        #[trigger] c.entries[j]).entry_type == TreeEntryType::Tree
                                            && path_join(c.prefix, c.entries[j].path) == p
                                            && c.entries[j].sha == sha;
                                    assert(pvs[j] == prefix_entry(cur_prefix@, c.entries[j]));
                                    assert(pvs[j].entry_type == TreeEntryType::Tree);
                                    assert(pvs[j].path == p);
                                    assert(pvs[j].sha == sha);
                                    assert(dirs_of(pvs).contains((pvs[j].path, pvs[j].sha)));
                                    let mm = choose|mm: int|
                                        0 <= mm < dirs_of(pvs).len() && dirs_of(pvs)[mm] == (
                                        p,
                                        sha,
                                    );
                                    assert(pending_views(self.stack@[newf].pending@)[mm] == (
                                        p,
                                        sha,
                                    ));
                                    assert(self.stack@[newf].pending@[mm].prefix@ == p);
                                    assert(self.stack@[newf].pending@[mm].sha@ == sha);
                                    assert(self.dir_outstanding(p, sha));
                                }
                            }
                            assert(self.walk_inv());
                        }
                        Ok(self.advance())
                    },
                    FetchPhase::Finished => {
                        Err(Error::Other(String::from_str("the fetch already finished")))
                    },
                }
            },
        }
    }

    /// What one step of the manual walk returns: either one more
    /// non-recursive request, or the finished, complete result.
    pub open spec fn manual_step(r: Result<FetchAction, Error>, s: TreeFetchSession) -> bool {
        match r {
            Ok(a) => match a {
                FetchAction::Request { reference, recursive } => !recursive && s.awaiting_sub()
                    && discovered_dir(
                    s.initial_entries(),
                    s.consumed(),
                    s.current_prefix(),
                    reference@,
                ),
                FetchAction::Done(out) => s.is_finished() && out@.truncated == false && out@.sha
                    == s.root_sha_view() && out@.url == s.root_url_view()
                    && fetch_result_complete(out@.tree, s.initial_entries(), s.consumed()),
            },
            Err(_) => false,
        }
    }

    /// Drives the manual walk until the next request is known or everything
    /// discovered has been assembled.
    fn advance(&mut self) -> (r: FetchAction)
        requires
            old(self).phase is AwaitSub,
            old(self).current is None,
            old(self).walk_inv(),
        ensures
            final(self).history@ == old(self).history@,
            final(self).initial@ == old(self).initial@,
            final(self).branch@ == old(self).branch@,
            final(self).root_sha@ == old(self).root_sha@,
            final(self).root_url@ == old(self).root_url@,
            final(self).inv(),
            Self::manual_step(Ok(r), *final(self)),
    {
        loop
            invariant
                self.phase is AwaitSub,
                self.current is None,
                self.walk_inv(),
                self.history@ == old(self).history@,
                self.initial@ == old(self).initial@,
                self.branch@ == old(self).branch@,
                self.root_sha@ == old(self).root_sha@,
                self.root_url@ == old(self).root_url@,
            decreases self.stack@.len(),
        {
            let ghost prev = *self;
            if self.stack.len() == 0 {
                self.phase = FetchPhase::Finished;
                let tree = self.acc.split_off(0);
                let out = TreeModel {
                    sha: self.root_sha.clone(),
                    url: self.root_url.clone(),
                    tree,
                    truncated: false,
                };
                proof {
                    assert(out@.tree == entry_views(prev.acc@));
                    assert forall|k: int, i: int|
                        0 <= k < self.history@.len() && 0 <= i
                            < self.history@[k].entries.len() implies out@.tree.contains(
                        prefix_entry(
                            self.history@[k].prefix,
                            #[trigger] self.history@[k].entries[i],
                        ),
                    ) by {
                        let pe = prefix_entry(self.history@[k].prefix, self.history@[k].entries[i]);
                        assert(prev.entry_in_session(pe));
                    }
                    let rest = choose|rest: Seq<TreeEntryView>|
                        #![trigger rest.len()]
                        entry_views(prev.acc@) == rest + prev.initial@;
                    assert(out@.tree.len() >= self.initial@.len());
                    assert forall|i: int| 0 <= i < out@.tree.len() implies from_the_walk(
                        #[trigger] out@.tree[i],
                        self.initial@,
                        self.history@,
                    ) by {
                        assert(out@.tree[i] == entry_views(prev.acc@)[i]);
                    }
                    assert forall|p: Seq<char>, sha: Seq<char>|
                        #[trigger] discovered_dir(
                            self.initial@,
                            self.history@,
                            p,
                            sha,
                        ) implies consumed_at(self.history@, p) by {
                        assert(!prev.dir_outstanding(p, sha));
                    }
                }
                return FetchAction::Done(out);
            }
            let mut frame = match self.stack.pop() {
                Some(f) => f,
                None => {
                    proof {
                        assert(false);
                    }
                    FetchFrame { pending: Vec::new(), next: 0, entries: Vec::new() }
                },
            };
            if frame.next < frame.pending.len() {
                let ghost nx = frame.next as int;
                let pd_prefix = frame.pending[frame.next].prefix.clone();
                let reference = frame.pending[frame.next].sha.clone();
                let pd_sha = frame.pending[frame.next].sha.clone();
                frame.next = frame.next + 1;
                self.stack.push(frame);
                self.current = Some(PendingDir { prefix: pd_prefix, sha: pd_sha });
                proof {
                    let ghost top = prev.stack@.len() - 1;
                    assert(self.stack@.len() == prev.stack@.len());
                    assert(self.stack@[top].pending@ == prev.stack@[top].pending@);
                    assert(self.stack@[top].next == nx + 1);
                    assert(self.current_prefix() == prev.stack@[top].pending@[nx].prefix@);
                    assert(self.current_sha() == prev.stack@[top].pending@[nx].sha@);
                    assert(self.stack@[prev.stack@.len() - 1].entries@ == prev.stack@[prev.stack@.len()
                        - 1].entries@);
                    assert(forall|f: int|
                        0 <= f < self.stack@.len() - 1 ==> #[trigger] self.stack@[f]
                            == prev.stack@[f]);
                    assert forall|k: int, i: int|
                        0 <= k < self.history@.len() && 0 <= i
                            < self.history@[k].entries.len() implies self.entry_in_session(
                        prefix_entry(
                            self.history@[k].prefix,
                            #[trigger] self.history@[k].entries[i],
                        ),
                    ) by {
                        let pe = prefix_entry(self.history@[k].prefix, self.history@[k].entries[i]);
                        assert(prev.entry_in_session(pe));
                        if !entry_views(prev.acc@).contains(pe) {
                            let f = choose|f: int|
                                0 <= f < prev.stack@.len() && entry_views(
                                    (#[trigger] prev.stack@[f]).entries@,
                                ).contains(pe);
                            assert(entry_views((self.stack@[f]).entries@).contains(pe));
                        }
                    }
                    assert forall|fi: int, i: int|
                        0 <= fi < self.stack@.len() && 0 <= i
                            < self.stack@[fi].entries@.len() implies from_the_walk(
                        #[trigger] entry_views(self.stack@[fi].entries@)[i],
                        self.initial@,
                        self.history@,
                    ) by {
                        assert(self.stack@[fi].entries@ == prev.stack@[fi].entries@);
                        assert(from_the_walk(
                            entry_views(prev.stack@[fi].entries@)[i],
                            prev.initial@,
                            prev.history@,
                        ));
                    }
                    assert forall|fi: int, mm: int|
                        0 <= fi < self.stack@.len() && 0 <= mm
                            < self.stack@[fi].pending@.len() implies discovered_dir(
                        self.initial@,
                        self.history@,
                        (#[trigger] self.stack@[fi].pending@[mm]).prefix@,
                        self.stack@[fi].pending@[mm].sha@,
                    ) by {
                        assert(self.stack@[fi].pending@ == prev.stack@[fi].pending@);
                        assert(discovered_dir(
                            prev.initial@,
                            prev.history@,
                            prev.stack@[fi].pending@[mm].prefix@,
                            prev.stack@[fi].pending@[mm].sha@,
                        ));
                    }
                    assert forall|p: Seq<char>, sha: Seq<char>|
                        #[trigger] discovered_dir(
                            self.initial@,
                            self.history@,
                            p,
                            sha,
                        ) implies consumed_at(self.history@, p) || self.dir_outstanding(
                        p,
                        sha,
                    ) by {
                        if !consumed_at(self.history@, p) {
                            assert(prev.dir_outstanding(p, sha));
                            let (fi, mm) = choose|fi: int, mm: int|
                                0 <= fi < prev.stack@.len() && prev.stack@[fi].next <= mm
                                    < prev.stack@[fi].pending@.len() && (
                                #[trigger] prev.stack@[fi].pending@[mm]).prefix@ == p
                                    && prev.stack@[fi].pending@[mm].sha@ == sha;
                            if fi == top && mm == nx {
                                assert(self.current_prefix() == p && self.current_sha() == sha);
                            } else {
                                if fi < top {
                                    assert(self.stack@[fi] == prev.stack@[fi]);
                                } else {
                                    assert(self.stack@[fi].pending@ == prev.stack@[fi].pending@);
                                    assert(self.stack@[fi].next <= mm);
                                }
                                assert(self.dir_outstanding(p, sha));
                            }
                        }
                    }
                    assert(discovered_dir(
                        self.initial@,
                        self.history@,
                        self.current_prefix(),
                        self.current_sha(),
                    ));
                    assert(self.walk_inv());
                }
                return FetchAction::Request { reference, recursive: false };
            } else {
                let ghost moved = frame.entries@;
                self.acc.append(&mut frame.entries);
                proof {
                    assert(self.acc@ == prev.acc@ + moved);
                    assert(entry_views(self.acc@) =~= entry_views(prev.acc@) + entry_views(moved));
                    assert(self.stack@ == prev.stack@.drop_last());
                    if self.stack@.len() == 0 {
                        assert(prev.stack@[0] == prev.stack@[prev.stack@.len() - 1]);
                        assert(entry_views(moved) == prev.initial@);
                        let rest = entry_views(prev.acc@);
                        assert(entry_views(self.acc@) == rest + self.initial@);
                    }
                    assert forall|k: int, i: int|
                        0 <= k < self.history@.len() && 0 <= i
                            < self.history@[k].entries.len() implies self.entry_in_session(
                        prefix_entry(
                            self.history@[k].prefix,
                            #[trigger] self.history@[k].entries[i],
                        ),
                    ) by {
                        let pe = prefix_entry(self.history@[k].prefix, self.history@[k].entries[i]);
                        assert(prev.entry_in_session(pe));
                        if entry_views(prev.acc@).contains(pe) {
                            let idx = choose|idx: int|
                                0 <= idx < entry_views(prev.acc@).len() && entry_views(
                                    prev.acc@,
                                )[idx] == pe;
                            assert(entry_views(self.acc@)[idx] == pe);
                            assert(entry_views(self.acc@).contains(pe));
                        } else {
                            let f = choose|f: int|
                                0 <= f < prev.stack@.len() && entry_views(
                                    (#[trigger] prev.stack@[f]).entries@,
                                ).contains(pe);
                            if f < prev.stack@.len() - 1 {
                                assert(self.stack@[f] == prev.stack@[f]);
                                assert(entry_views((self.stack@[f]).entries@).contains(pe));
                            } else {
                                let idx = choose|idx: int|
                                    0 <= idx < entry_views(moved).len() && entry_views(
                                        moved,
                                    )[idx] == pe;
                                assert(entry_views(self.acc@)[entry_views(prev.acc@).len() + idx]
                                    == pe);
                                assert(entry_views(self.acc@).contains(pe));
                            }
                        }
                    }
                    assert forall|i: int| 0 <= i < self.acc@.len() implies from_the_walk(
                        #[trigger] entry_views(self.acc@)[i],
                        self.initial@,
                        self.history@,
                    ) by {
                        if i < prev.acc@.len() {
                            assert(entry_views(self.acc@)[i] == entry_views(prev.acc@)[i]);
                        } else {
                            assert(entry_views(self.acc@)[i] == entry_views(moved)[i
                                - prev.acc@.len()]);
                            assert(entry_views(prev.stack@[prev.stack@.len() - 1].entries@)[i
                                - prev.acc@.len()] == entry_views(moved)[i - prev.acc@.len()]);
                            assert(from_the_walk(
                                entry_views(prev.stack@[prev.stack@.len() - 1].entries@)[i
                                    - prev.acc@.len()],
                                prev.initial@,
                                prev.history@,
                            ));
                        }
                    }
                    assert forall|fi: int, i: int|
                        0 <= fi < self.stack@.len() && 0 <= i
                            < self.stack@[fi].entries@.len() implies from_the_walk(
                        #[trigger] entry_views(self.stack@[fi].entries@)[i],
                        self.initial@,
                        self.history@,
                    ) by {
                        assert(self.stack@[fi] == prev.stack@[fi]);
                        assert(from_the_walk(
                            entry_views(prev.stack@[fi].entries@)[i],
                            prev.initial@,
                            prev.history@,
                        ));
                    }
                    assert forall|fi: int, mm: int|
                        0 <= fi < self.stack@.len() && 0 <= mm
                            < self.stack@[fi].pending@.len() implies discovered_dir(
                        self.initial@,
                        self.history@,
                        (#[trigger] self.stack@[fi].pending@[mm]).prefix@,
                        self.stack@[fi].pending@[mm].sha@,
                    ) by {
                        assert(self.stack@[fi] == prev.stack@[fi]);
                        assert(discovered_dir(
                            prev.initial@,
                            prev.history@,
                            prev.stack@[fi].pending@[mm].prefix@,
                            prev.stack@[fi].pending@[mm].sha@,
                        ));
                    }
                    assert forall|p: Seq<char>, sha: Seq<char>|
                        #[trigger] discovered_dir(
                            self.initial@,
                            self.history@,
                            p,
                            sha,
                        ) implies consumed_at(self.history@, p) || self.dir_outstanding(
                        p,
                        sha,
                    ) by {
                        if !consumed_at(self.history@, p) {
                            assert(prev.dir_outstanding(p, sha));
                            let (fi, mm) = choose|fi: int, mm: int|
                                0 <= fi < prev.stack@.len() && prev.stack@[fi].next <= mm
                                    < prev.stack@[fi].pending@.len() && (
                                #[trigger] prev.stack@[fi].pending@[mm]).prefix@ == p
                                    && prev.stack@[fi].pending@[mm].sha@ == sha;
                            assert(fi < prev.stack@.len() - 1);
                            assert(self.stack@[fi] == prev.stack@[fi]);
                            assert(self.dir_outstanding(p, sha));
                        }
                    }
                    assert(self.walk_inv());
                }
            }
        }
    }

    /// Starts a fetch of `branch`: the first action asks for the whole tree
    /// recursively, flattened in one call.
    pub fn start(branch: String) -> (r: (TreeFetchSession, FetchAction))
        ensures
            r.0.inv(),
            r.0.awaiting_recursive(),
            r.0.branch_view() == branch@,
            r.0.consumed().len() == 0,
            (r.1 matches FetchAction::Request { reference, recursive } && reference@ == branch@
                && recursive == true),
    {
        let reference = branch.clone();
        let session = TreeFetchSession {
            branch,
            phase: FetchPhase::AwaitRecursive,
            root_sha: String::new(),
            root_url: String::new(),
            current: None,
            stack: Vec::new(),
            acc: Vec::new(),
            initial: Ghost(Seq::empty()),
            history: Ghost(Seq::empty()),
        };
        (session, FetchAction::Request { reference, recursive: true })
    }
}

} // verus!
