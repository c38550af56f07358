//! The hierarchical tree of a repository snapshot: entry types, flat listing
//! entries, the assembled tree, path resolution, traversal and pruning.
use vstd::prelude::*;

use crate::error::Error;

verus! {

// ---------------------------------------------------------------------------
// Paths
//
// Repository paths are slash-separated relative paths such as
// `src/test/java/AppTest.java`.
// ---------------------------------------------------------------------------
/// The index of the last `/` in `p`, or `-1` when `p` has none.
pub open spec fn last_slash_pos(p: Seq<char>) -> int
    decreases p.len(),
{
    if p.len() == 0 {
        -1
    } else if p[p.len() - 1] == '/' {
        p.len() - 1
    } else {
        last_slash_pos(p.drop_last())
    }
}

/// The parent directory of `p`: everything before the last `/`, or the empty
/// path (the root) when `p` has no `/`.
pub open spec fn parent_path(p: Seq<char>) -> Seq<char> {
    if last_slash_pos(p) < 0 {
        Seq::empty()
    } else {
        p.subrange(0, last_slash_pos(p))
    }
}

/// The final path segment of `p`: everything after the last `/`.
pub open spec fn base_name(p: Seq<char>) -> Seq<char> {
    p.subrange(last_slash_pos(p) + 1, p.len() as int)
}

pub proof fn lemma_last_slash_pos_bounds(p: Seq<char>)
    ensures
        -1 <= last_slash_pos(p) < p.len(),
        last_slash_pos(p) >= 0 ==> p[last_slash_pos(p)] == '/',
    decreases p.len(),
{
    if p.len() > 0 && p[p.len() - 1] != '/' {
        lemma_last_slash_pos_bounds(p.drop_last());
        if last_slash_pos(p.drop_last()) >= 0 {
            assert(p.drop_last()[last_slash_pos(p)] == p[last_slash_pos(p)]);
        }
    }
}

/// A non-empty path is strictly longer than its parent.
pub proof fn lemma_parent_path_shorter(p: Seq<char>)
    requires
        p.len() > 0,
    ensures
        parent_path(p).len() < p.len(),
{
    lemma_last_slash_pos_bounds(p);
}

/// Returns the index of the last `/` in `p`, if any.
pub fn find_last_slash(p: &str) -> (r: Option<usize>)
    ensures
        match r {
            Some(i) => last_slash_pos(p@) == i as int,
            None => last_slash_pos(p@) == -1,
        },
{
    let n = p.unicode_len();
    let mut i: usize = n;
    proof {
        assert(p@.subrange(0, n as int) =~= p@);
    }
    while i > 0
        invariant
            i <= n,
            n == p@.len(),
            last_slash_pos(p@) == last_slash_pos(p@.subrange(0, i as int)),
        decreases i,
    {
        let c = p.get_char(i - 1);
        if c == '/' {
            proof {
                let sub = p@.subrange(0, i as int);
                assert(sub[i - 1] == p@[i - 1]);
                assert(last_slash_pos(sub) == i - 1);
            }
            return Some(i - 1);
        }
        proof {
            let sub = p@.subrange(0, i as int);
            assert(sub[i - 1] == p@[i - 1]);
            assert(sub.drop_last() =~= p@.subrange(0, i - 1));
        }
        i -= 1;
    }
    proof {
        assert(p@.subrange(0, 0) =~= Seq::<char>::empty());
    }
    None
}

/// Returns the parent directory of `p` as an owned path.
pub fn parent_dir(p: &str) -> (r: String)
    ensures
        r@ == parent_path(p@),
{
    proof {
        lemma_last_slash_pos_bounds(p@);
    }
    match find_last_slash(p) {
        None => String::new(),
        Some(i) => p.substring_char(0, i).to_owned(),
    }
}

/// Returns the final path segment of `p` as an owned string.
pub fn final_segment(p: &str) -> (r: String)
    ensures
        r@ == base_name(p@),
{
    proof {
        lemma_last_slash_pos_bounds(p@);
    }
    let n = p.unicode_len();
    match find_last_slash(p) {
        None => p.substring_char(0, n).to_owned(),
        Some(i) => p.substring_char(i + 1, n).to_owned(),
    }
}

// ---------------------------------------------------------------------------
// Branch addresses
// ---------------------------------------------------------------------------
/// A GitHub branch address.
/// The fields complete the URL `https://github.com/{user}/{repo}/tree/{branch}`.
#[derive(Debug, Clone)]
pub struct GithubBranchPath {
    /// The GitHub username of the repository owner.
    pub user: String,
    /// The repository name.
    pub repo: String,
    /// The branch or SHA1 hash of the commit tree to fetch.
    pub branch: String,
}

impl GithubBranchPath {
    /// Creates a new [`GithubBranchPath`] to the given user, repo, and
    /// branch.
    pub fn new(user: String, repo: String, branch: String) -> (r: GithubBranchPath)
        ensures
            r.user@ == user@,
            r.repo@ == repo@,
            r.branch@ == branch@,
    {
        GithubBranchPath { user, repo, branch }
    }

    /// Creates a new [`GithubBranchPath`] with the given branch and the same
    /// user and repo as this path.
    pub fn with_branch(&self, branch: String) -> (r: GithubBranchPath)
        ensures
            r.user@ == self.user@,
            r.repo@ == self.repo@,
            r.branch@ == branch@,
    {
        GithubBranchPath { user: self.user.clone(), repo: self.repo.clone(), branch }
    }

    /// Returns the URL of the tree listing API for this branch path.
    pub fn to_tree_url(&self) -> (r: String)
        ensures
            r@ == "https://api.github.com/repos/"@ + self.user@ + "/"@ + self.repo@
                + "/git/trees/"@ + self.branch@,
    {
        let mut url = "https://api.github.com/repos/".to_owned();
        url.append(self.user.as_str());
        url.append("/");
        url.append(self.repo.as_str());
        url.append("/git/trees/");
        url.append(self.branch.as_str());
        proof {
            assert(url@ =~= "https://api.github.com/repos/"@ + self.user@ + "/"@ + self.repo@
                + "/git/trees/"@ + self.branch@);
        }
        url
    }
}

// ---------------------------------------------------------------------------
// Data model
// ---------------------------------------------------------------------------
/// The type of a single entry in a [`SourceTree`].
#[derive(Debug, Clone, Copy, PartialEq, Eq, Structural)]
pub enum TreeEntryType {
    /// A blob (file) entry.
    Blob,
    /// A tree (directory) entry.
    Tree,
}

/// One entry of a flat repository listing, as the remote listing endpoint
/// reports it.
#[derive(Debug, Clone)]
pub struct TreeEntry {
    /// The path of the entry relative to the root of the repository.
    pub path: String,
    /// The unix permissions mode of the entry, in numeric notation.
    pub mode: String,
    /// The type of the entry.
    pub entry_type: TreeEntryType,
    /// The size of the entry in bytes; 0 for tree entries.
    pub size: u32,
    /// The SHA1 hash identifying this blob or tree.
    pub sha: String,
    /// The API URL to call to get more information on this object.
    pub url: String,
}

/// The mathematical value of a [`TreeEntry`].
pub struct TreeEntryView {
    pub path: Seq<char>,
    pub mode: Seq<char>,
    pub entry_type: TreeEntryType,
    pub size: u32,
    pub sha: Seq<char>,
    pub url: Seq<char>,
}

impl View for TreeEntry {
    type V = TreeEntryView;

    open spec fn view(&self) -> TreeEntryView {
        TreeEntryView {
            path: self.path@,
            mode: self.mode@,
            entry_type: self.entry_type,
            size: self.size,
            sha: self.sha@,
            url: self.url@,
        }
    }
}

/// The views of a list of entries.
pub open spec fn entry_views(entries: Seq<TreeEntry>) -> Seq<TreeEntryView> {
    entries.map_values(|e: TreeEntry| e@)
}

/// The result of one call of the remote listing endpoint: the listed entries
/// plus the root's metadata, and whether the service capped the listing
/// before reaching full depth.
#[derive(Debug, Clone)]
pub struct TreeModel {
    /// The SHA1 hash of the listed tree.
    pub sha: String,
    /// The API URL of the listed tree.
    pub url: String,
    /// The listed entries, in listing order.
    pub tree: Vec<TreeEntry>,
    /// Whether the listing was truncated by the service.
    pub truncated: bool,
}

/// The mathematical value of a [`TreeModel`].
pub struct TreeModelView {
    pub sha: Seq<char>,
    pub url: Seq<char>,
    pub tree: Seq<TreeEntryView>,
    pub truncated: bool,
}

impl View for TreeModel {
    type V = TreeModelView;

    open spec fn view(&self) -> TreeModelView {
        TreeModelView {
            sha: self.sha@,
            url: self.url@,
            tree: entry_views(self.tree@),
            truncated: self.truncated,
        }
    }
}

/// A tree representing the directories and files of a repository snapshot.
/// Directory nodes own their children; blob nodes are leaves.
#[derive(Debug)]
pub struct SourceTree {
    /// The path of the node relative to the root of the repository; the root
    /// has the empty path.
    pub path: String,
    /// The unix permissions mode of the node, in numeric notation.
    pub mode: String,
    /// The SHA1 hash identifying this blob or tree.
    pub sha: String,
    /// The type of the node.
    pub entry_type: TreeEntryType,
    /// The size of the node in bytes; 0 for tree nodes.
    pub size: u32,
    /// The API URL to call to get more information on this object.
    pub url: String,
    /// The children of this node, in listing order.
    pub children: Vec<SourceTree>,
}

/// The mathematical value of a [`SourceTree`] node and of everything below
/// it.
pub struct SourceTreeView {
    pub path: Seq<char>,
    pub mode: Seq<char>,
    pub sha: Seq<char>,
    pub entry_type: TreeEntryType,
    pub size: u32,
    pub url: Seq<char>,
    pub children: Seq<SourceTreeView>,
}

/// The view of a tree node, taken recursively over its children.
pub open spec fn tree_view(t: SourceTree) -> SourceTreeView
    decreases t,
{
    SourceTreeView {
        path: t.path@,
        mode: t.mode@,
        sha: t.sha@,
        entry_type: t.entry_type,
        size: t.size,
        url: t.url@,
        children: children_views(t.children@),
    }
}

/// The views of a sequence of tree nodes.
pub open spec fn children_views(cs: Seq<SourceTree>) -> Seq<SourceTreeView>
    decreases cs,
{
    if cs.len() == 0 {
        Seq::empty()
    } else {
        seq![tree_view(cs[0])] + children_views(cs.drop_first())
    }
}

/// `children_views` maps the view of each node pointwise.
pub proof fn lemma_children_views(cs: Seq<SourceTree>)
    ensures
        children_views(cs).len() == cs.len(),
        forall|i: int|
            0 <= i < cs.len() ==> #[trigger] children_views(cs)[i] == tree_view(cs[i]),
    decreases cs,
{
    if cs.len() > 0 {
        lemma_children_views(cs.drop_first());
        assert forall|i: int| 0 <= i < cs.len() implies #[trigger] children_views(cs)[i]
            == tree_view(cs[i]) by {
            if i > 0 {
                assert(children_views(cs)[i] == children_views(cs.drop_first())[i - 1]);
                assert(cs.drop_first()[i - 1] == cs[i]);
            }
        }
    }
}

impl SourceTree {
    /// The view of this node.
    pub open spec fn v(&self) -> SourceTreeView {
        tree_view(*self)
    }

    /// Creates a new empty [`SourceTree`] node of the given
    /// [`TreeEntryType`].
    pub fn new(entry_type: TreeEntryType) -> (r: SourceTree)
        ensures
            r.v() == (SourceTreeView {
                path: Seq::<char>::empty(),
                mode: Seq::<char>::empty(),
                sha: Seq::<char>::empty(),
                entry_type: entry_type,
                size: 0u32,
                url: Seq::<char>::empty(),
                children: Seq::<SourceTreeView>::empty(),
            }),
    {
        SourceTree {
            url: String::new(),
            sha: String::new(),
            path: String::new(),
            mode: String::new(),
            entry_type,
            size: 0,
            children: Vec::new(),
        }
    }

    /// Returns a copy of this tree with the same value.
    pub fn duplicate(&self) -> (r: SourceTree)
        ensures
            r.v() == self.v(),
        decreases *self,
    {
        let mut children: Vec<SourceTree> = Vec::new();
        let n = self.children.len();
        proof {
            lemma_children_views(self.children@);
        }
        for i in 0..n
            invariant
                n == self.children@.len(),
                children@.len() == i,
                forall|j: int|
                    0 <= j < i ==> #[trigger] tree_view(children@[j]) == tree_view(
                        self.children@[j],
                    ),
                forall|j: int|
                    0 <= j < self.children@.len() ==> #[trigger] children_views(self.children@)[j]
                        == tree_view(self.children@[j]),
        {
            children.push(self.children[i].duplicate());
        }
        let r = SourceTree {
            path: self.path.clone(),
            mode: self.mode.clone(),
            sha: self.sha.clone(),
            entry_type: self.entry_type,
            size: self.size,
            url: self.url.clone(),
            children,
        };
        proof {
            lemma_children_views(r.children@);
            assert(children_views(r.children@) =~= children_views(self.children@));
        }
        r
    }
}

// ---------------------------------------------------------------------------
// Assembly of a flat listing into a hierarchical tree
// ---------------------------------------------------------------------------
/// The entries whose immediate parent directory is `dir`, in listing order.
pub open spec fn child_entries(entries: Seq<TreeEntryView>, dir: Seq<char>) -> Seq<TreeEntryView>
    decreases entries.len(),
{
    if entries.len() == 0 {
        Seq::empty()
    } else {
        let rest = child_entries(entries.drop_last(), dir);
        if parent_path(entries.last().path) == dir {
            rest.push(entries.last())
        } else {
            rest
        }
    }
}

/// Whether the node `n` carries exactly the data of the listing entry `e`.
pub open spec fn node_matches_entry(n: SourceTreeView, e: TreeEntryView) -> bool {
    &&& n.path == e.path
    &&& n.mode == e.mode
    &&& n.sha == e.sha
    &&& n.url == e.url
    &&& n.entry_type == e.entry_type
    &&& n.size == e.size
}

/// Whether `children` are exactly the entries of `entries` whose parent
/// directory is `dir`, in listing order, each with its own subtree assembled
/// from `entries` in turn.
pub open spec fn children_assembled(
    children: Seq<SourceTreeView>,
    entries: Seq<TreeEntryView>,
    dir: Seq<char>,
) -> bool
    decreases children,
{
    let cs = child_entries(entries, dir);
    &&& children.len() == cs.len()
    &&& forall|i: int|
        0 <= i < children.len() ==> node_matches_entry(#[trigger] children[i], cs[i])
            && subtree_assembled(children[i], entries)
}

/// Whether the subtree rooted at `n` is correctly assembled from the flat
/// listing `entries`: blob nodes are leaves, and every directory node owns
/// exactly the entries whose parent directory is its path.
pub open spec fn subtree_assembled(n: SourceTreeView, entries: Seq<TreeEntryView>) -> bool
    decreases n,
{
    &&& (n.entry_type == TreeEntryType::Blob ==> n.children.len() == 0)
    &&& (n.entry_type == TreeEntryType::Tree ==> children_assembled(n.children, entries, n.path))
}

/// Whether `entries` holds a directory entry with path `p`.
pub open spec fn has_tree_entry(entries: Seq<TreeEntryView>, p: Seq<char>) -> bool {
    exists|j: int|
        0 <= j < entries.len() && (#[trigger] entries[j]).entry_type == TreeEntryType::Tree
            && entries[j].path == p
}

/// Whether one listing entry is acceptable: it names something (non-empty
/// path), and its parent directory is the root or appears in the listing as a
/// directory entry of its own.
pub open spec fn entry_ok(entries: Seq<TreeEntryView>, e: TreeEntryView) -> bool {
    &&& e.path.len() > 0
    &&& (parent_path(e.path) == Seq::<char>::empty() || has_tree_entry(entries, parent_path(e.path)))
}

/// Whether a flat listing can be assembled at all: every entry must hang off
/// the root or off a listed directory entry.  A listing that violates this is
/// rejected rather than guessed at.
pub open spec fn entries_well_formed(entries: Seq<TreeEntryView>) -> bool {
    forall|i: int| 0 <= i < entries.len() ==> entry_ok(entries, #[trigger] entries[i])
}

/// The length of the longest entry path in the listing.
pub open spec fn max_path_len(entries: Seq<TreeEntryView>) -> nat
    decreases entries.len(),
{
    if entries.len() == 0 {
        0
    } else if entries[0].path.len() > max_path_len(entries.drop_first()) {
        entries[0].path.len()
    } else {
        max_path_len(entries.drop_first())
    }
}

pub proof fn lemma_max_path_len(entries: Seq<TreeEntryView>, i: int)
    requires
        0 <= i < entries.len(),
    ensures
        entries[i].path.len() <= max_path_len(entries),
    decreases entries.len(),
{
    if i > 0 {
        lemma_max_path_len(entries.drop_first(), i - 1);
        assert(entries.drop_first()[i - 1] == entries[i]);
    }
}

/// Returns whether `entries` holds a directory entry with path `p`.
fn has_tree_entry_exec(entries: &Vec<TreeEntry>, p: &String) -> (r: bool)
    ensures
        r == has_tree_entry(entry_views(entries@), p@),
{
    let n = entries.len();
    for j in 0..n
        invariant
            n == entries@.len(),
            forall|k: int|
                0 <= k < j ==> !((#[trigger] entry_views(entries@)[k]).entry_type
                    == TreeEntryType::Tree && entry_views(entries@)[k].path == p@),
    {
        if entries[j].entry_type == TreeEntryType::Tree && entries[j].path == *p {
            proof {
                assert(entry_views(entries@)[j as int].entry_type == TreeEntryType::Tree);
                assert(entry_views(entries@)[j as int].path == p@);
            }
            return true;
        }
    }
    false
}

/// Returns whether the whole listing is well formed (see
/// [`entries_well_formed`]).
fn entries_ok(entries: &Vec<TreeEntry>) -> (ok: bool)
    ensures
        ok == entries_well_formed(entry_views(entries@)),
{
    let ghost evs = entry_views(entries@);
    let n = entries.len();
    for i in 0..n
        invariant
            n == entries@.len(),
            evs == entry_views(entries@),
            forall|k: int| 0 <= k < i ==> entry_ok(evs, #[trigger] evs[k]),
    {
        if entries[i].path.unicode_len() == 0 {
            proof {
                assert(!entry_ok(evs, evs[i as int]));
            }
            return false;
        }
        let parent = parent_dir(entries[i].path.as_str());
        if parent.unicode_len() > 0 {
            if !has_tree_entry_exec(entries, &parent) {
                proof {
                    assert(parent@.len() > 0);
                    assert(parent@ != Seq::<char>::empty());
                    assert(!entry_ok(evs, evs[i as int]));
                }
                return false;
            }
        }
        proof {
            if parent@.len() == 0 {
                assert(parent@ =~= Seq::<char>::empty());
            }
            assert(entry_ok(evs, evs[i as int]));
        }
    }
    true
}

/// Builds, in listing order, the child nodes of the directory at path `dir`
/// from the flat listing `entries`, assembling each child's own subtree
/// recursively.
fn build_children(entries: &Vec<TreeEntry>, dir: &String) -> (r: Vec<SourceTree>)
    requires
        entries_well_formed(entry_views(entries@)),
        dir@.len() == 0 || (exists|j: int|
            0 <= j < entries@.len() && (#[trigger] entry_views(entries@)[j]).path == dir@),
    ensures
        children_assembled(children_views(r@), entry_views(entries@), dir@),
    decreases max_path_len(entry_views(entries@)) + 1 - dir@.len(),
{
    let ghost evs = entry_views(entries@);
    proof {
        if dir@.len() > 0 {
            let j = choose|j: int|
                0 <= j < entries@.len() && (#[trigger] entry_views(entries@)[j]).path == dir@;
            lemma_max_path_len(evs, j);
        }
    }
    let mut out: Vec<SourceTree> = Vec::new();
    let n = entries.len();
    proof {
        assert(evs.take(0) =~= Seq::<TreeEntryView>::empty());
        assert(child_entries(evs.take(0), dir@) =~= Seq::<TreeEntryView>::empty());
    }
    for i in 0..n
        invariant
            n == entries@.len(),
            evs == entry_views(entries@),
            entries_well_formed(evs),
            dir@.len() == 0 || dir@.len() <= max_path_len(evs),
            children_views(out@).len() == child_entries(evs.take(i as int), dir@).len(),
            out@.len() == children_views(out@).len(),
            forall|k: int|
                0 <= k < out@.len() ==> node_matches_entry(
                    #[trigger] children_views(out@)[k],
                    child_entries(evs.take(i as int), dir@)[k],
                ) && subtree_assembled(children_views(out@)[k], evs),
    {
        let ghost prefix = evs.take(i as int);
        let ghost prefix1 = evs.take(i as int + 1);
        proof {
            assert(prefix1.drop_last() =~= prefix);
            assert(prefix1.last() == evs[i as int]);
        }
        let parent = parent_dir(entries[i].path.as_str());
        proof {
            assert(evs[i as int] == entries@[i as int]@);
            assert(parent@ == parent_path(evs[i as int].path));
        }
        if parent == *dir {
            proof {
                assert(parent_path(evs[i as int].path) == dir@);
            }
            let children: Vec<SourceTree> = if entries[i].entry_type == TreeEntryType::Tree {
                proof {
                    assert(entry_ok(evs, evs[i as int]));
                    lemma_parent_path_shorter(evs[i as int].path);
                    lemma_max_path_len(evs, i as int);
                }
                build_children(entries, &entries[i].path)
            } else {
                Vec::new()
            };
            let node = SourceTree {
                path: entries[i].path.clone(),
                mode: entries[i].mode.clone(),
                sha: entries[i].sha.clone(),
                entry_type: entries[i].entry_type,
                size: entries[i].size,
                url: entries[i].url.clone(),
                children,
            };
            proof {
                let ghost old_views = children_views(out@);
                assert(subtree_assembled(tree_view(node), evs)) by {
                    if node.entry_type == TreeEntryType::Blob {
                        assert(children_views(node.children@) =~= Seq::<SourceTreeView>::empty());
                    }
                }
                assert(node_matches_entry(tree_view(node), evs[i as int]));
            }
            let ghost old_out = out@;
            out.push(node);
            proof {
                lemma_children_views(old_out);
                lemma_children_views(out@);
                assert(child_entries(prefix1, dir@) =~= child_entries(prefix, dir@).push(
                    evs[i as int],
                ));
                assert forall|k: int| 0 <= k < out@.len() implies node_matches_entry(
                    #[trigger] children_views(out@)[k],
                    child_entries(prefix1, dir@)[k],
                ) && subtree_assembled(children_views(out@)[k], evs) by {
                    if k < old_out.len() {
                        assert(children_views(out@)[k] == tree_view(out@[k]));
                        assert(out@[k] == old_out[k]);
                        assert(children_views(old_out)[k] == tree_view(old_out[k]));
                    } else {
                        assert(children_views(out@)[k] == tree_view(node));
                    }
                }
            }
        } else {
            proof {
                assert(parent_path(evs[i as int].path) != dir@);
                assert(child_entries(prefix1, dir@) =~= child_entries(prefix, dir@));
            }
        }
    }
    proof {
        assert(evs.take(n as int) =~= evs);
    }
    out
}

impl SourceTree {
    /// Assembles the flat listing of `model` into a hierarchical tree rooted
    /// at a synthetic node with the empty path and the listing's metadata.
    ///
    /// Every entry must name something (an entry with an empty path is
    /// rejected) and hang off the root or off a directory entry of the
    /// listing; a listing with an orphaned entry is rejected whole rather
    /// than guessed at.
    pub fn from_model(model: &TreeModel) -> (r: Result<SourceTree, Error>)
        ensures
            match r {
                Ok(t) => {
                    &&& entries_well_formed(model@.tree)
                    &&& t.v().path == Seq::<char>::empty()
                    &&& t.v().mode == Seq::<char>::empty()
                    &&& t.v().sha == model@.sha
                    &&& t.v().url == model@.url
                    &&& t.v().size == 0
                    &&& t.v().entry_type == TreeEntryType::Tree
                    &&& subtree_assembled(t.v(), model@.tree)
                },
                Err(e) => !entries_well_formed(model@.tree) && e is Other,
            },
    {
        if !entries_ok(&model.tree) {
            return Err(
                Error::Other(String::from_str("listing has an entry without a parent directory entry")),
            );
        }
        let empty = String::new();
        let children = build_children(&model.tree, &empty);
        let t = SourceTree {
            path: String::new(),
            mode: String::new(),
            sha: model.sha.clone(),
            entry_type: TreeEntryType::Tree,
            size: 0,
            url: model.url.clone(),
            children,
        };
        Ok(t)
    }
}

// ---------------------------------------------------------------------------
// Pre-order traversal
// ---------------------------------------------------------------------------
/// The pre-order traversal of a tree: the node itself, then the traversals of
/// its children in their stored order.
pub open spec fn preorder(t: SourceTreeView) -> Seq<SourceTreeView>
    decreases t,
{
    seq![t] + preorder_all(t.children)
}

/// The concatenated pre-order traversals of a sequence of trees.
pub open spec fn preorder_all(cs: Seq<SourceTreeView>) -> Seq<SourceTreeView>
    decreases cs,
{
    if cs.len() == 0 {
        Seq::empty()
    } else {
        preorder(cs[0]) + preorder_all(cs.drop_first())
    }
}

/// The nodes still to be visited, for a stack of pending subtrees: the
/// traversal of the top of the stack first, then of the rest.
pub open spec fn stack_remaining(vs: Seq<SourceTreeView>) -> Seq<SourceTreeView>
    decreases vs.len(),
{
    if vs.len() == 0 {
        Seq::empty()
    } else {
        preorder(vs.last()) + stack_remaining(vs.drop_last())
    }
}

/// Pushing the reversed children of a node onto the pending stack queues
/// exactly the children's traversals, in order, before the rest of the stack.
pub proof fn lemma_stack_remaining_append_rev(vs: Seq<SourceTreeView>, cs: Seq<SourceTreeView>)
    ensures
        stack_remaining(vs + cs.reverse()) == preorder_all(cs) + stack_remaining(vs),
    decreases cs.len(),
{
    if cs.len() == 0 {
        assert(vs + cs.reverse() =~= vs);
        assert(preorder_all(cs) + stack_remaining(vs) =~= stack_remaining(vs));
    } else {
        let s = vs + cs.reverse();
        assert(s.last() == cs[0]);
        assert(s.drop_last() =~= vs + cs.drop_first().reverse());
        lemma_stack_remaining_append_rev(vs, cs.drop_first());
        assert(stack_remaining(s) =~= preorder_all(cs) + stack_remaining(vs));
    }
}

/// The number of nodes of a tree, the node itself included.
pub open spec fn count_nodes(t: SourceTreeView) -> nat
    decreases t,
{
    1 + count_forest(t.children)
}

/// The number of nodes of a sequence of trees.
pub open spec fn count_forest(cs: Seq<SourceTreeView>) -> nat
    decreases cs,
{
    if cs.len() == 0 {
        0
    } else {
        count_nodes(cs[0]) + count_forest(cs.drop_first())
    }
}

/// Whether `m` is a node of the tree `t`: the root itself or a node of some
/// subtree.
pub open spec fn tree_contains(t: SourceTreeView, m: SourceTreeView) -> bool
    decreases t,
{
    m == t || forest_contains(t.children, m)
}

/// Whether `m` is a node of some tree of `cs`.
pub open spec fn forest_contains(cs: Seq<SourceTreeView>, m: SourceTreeView) -> bool
    decreases cs,
{
    if cs.len() == 0 {
        false
    } else {
        tree_contains(cs[0], m) || forest_contains(cs.drop_first(), m)
    }
}

/// The pre-order traversal is complete: it has exactly as many visits as the
/// tree has nodes, it visits the root first, and it visits a value if and
/// only if that value is a node of the tree.
pub proof fn lemma_preorder_complete(t: SourceTreeView)
    ensures
        preorder(t).len() == count_nodes(t),
        preorder(t)[0] == t,
        forall|m: SourceTreeView| #[trigger] preorder(t).contains(m) <==> tree_contains(t, m),
    decreases t,
{
    lemma_preorder_all_complete(t.children);
    assert forall|m: SourceTreeView| #[trigger] preorder(t).contains(m) implies tree_contains(
        t,
        m,
    ) by {
        let i = choose|i: int| 0 <= i < preorder(t).len() && preorder(t)[i] == m;
        if i > 0 {
            assert(preorder_all(t.children)[i - 1] == m);
            assert(preorder_all(t.children).contains(m));
        }
    }
    assert forall|m: SourceTreeView| tree_contains(t, m) implies #[trigger] preorder(t).contains(
        m,
    ) by {
        if m == t {
            assert(preorder(t)[0] == m);
        } else {
            assert(preorder_all(t.children).contains(m));
            let i = choose|i: int|
                0 <= i < preorder_all(t.children).len() && preorder_all(t.children)[i] == m;
            assert(preorder(t)[i + 1] == m);
        }
    }
}

proof fn lemma_preorder_all_complete(cs: Seq<SourceTreeView>)
    ensures
        preorder_all(cs).len() == count_forest(cs),
        forall|m: SourceTreeView| #[trigger] preorder_all(cs).contains(m) <==> forest_contains(
            cs,
            m,
        ),
    decreases cs,
{
    if cs.len() > 0 {
        lemma_preorder_complete(cs[0]);
        lemma_preorder_all_complete(cs.drop_first());
        let h = preorder(cs[0]);
        let r = preorder_all(cs.drop_first());
        assert forall|m: SourceTreeView| #[trigger] preorder_all(cs).contains(m) implies
            forest_contains(cs, m) by {
            let i = choose|i: int| 0 <= i < preorder_all(cs).len() && preorder_all(cs)[i] == m;
            if i < h.len() {
                assert(h[i] == m);
                assert(h.contains(m));
            } else {
                assert(r[i - h.len()] == m);
                assert(r.contains(m));
            }
        }
        assert forall|m: SourceTreeView| forest_contains(cs, m) implies
            #[trigger] preorder_all(cs).contains(m) by {
            if tree_contains(cs[0], m) {
                assert(h.contains(m));
                let i = choose|i: int| 0 <= i < h.len() && h[i] == m;
                assert(preorder_all(cs)[i] == m);
            } else {
                assert(r.contains(m));
                let i = choose|i: int| 0 <= i < r.len() && r[i] == m;
                assert(preorder_all(cs)[h.len() + i] == m);
            }
        }
    }
}

/// Every visit's own traversal is the contiguous block of the outer traversal
/// that starts at that visit: a node is visited strictly before all of its
/// descendants, and its whole subtree is walked before any later sibling.
pub proof fn lemma_preorder_parent_first(t: SourceTreeView, i: int)
    requires
        0 <= i < preorder(t).len(),
    ensures
        i + preorder(preorder(t)[i]).len() <= preorder(t).len(),
        preorder(t).subrange(i, i + preorder(preorder(t)[i]).len() as int) == preorder(
            preorder(t)[i],
        ),
    decreases t,
{
    if i == 0 {
        assert(preorder(t)[0] == t);
        assert(preorder(t).subrange(0, preorder(t).len() as int) =~= preorder(t));
    } else {
        lemma_preorder_all_block(t.children, i - 1);
        let m = preorder_all(t.children)[i - 1];
        assert(preorder(t)[i] == m);
        let l = preorder(m).len() as int;
        assert(preorder(t).subrange(i, i + l) =~= preorder_all(t.children).subrange(
            i - 1,
            i - 1 + l,
        ));
    }
}

proof fn lemma_preorder_all_block(cs: Seq<SourceTreeView>, i: int)
    requires
        0 <= i < preorder_all(cs).len(),
    ensures
        i + preorder(preorder_all(cs)[i]).len() <= preorder_all(cs).len(),
        preorder_all(cs).subrange(i, i + preorder(preorder_all(cs)[i]).len() as int) == preorder(
            preorder_all(cs)[i],
        ),
    decreases cs,
{
    let h = preorder(cs[0]);
    let r = preorder_all(cs.drop_first());
    if i < h.len() {
        lemma_preorder_parent_first(cs[0], i);
        let m = h[i];
        let l = preorder(m).len() as int;
        assert(preorder_all(cs)[i] == m);
        assert(preorder_all(cs).subrange(i, i + l) =~= h.subrange(i, i + l));
    } else {
        lemma_preorder_all_block(cs.drop_first(), i - h.len());
        let m = r[i - h.len()];
        assert(preorder_all(cs)[i] == m);
        let l = preorder(m).len() as int;
        assert(preorder_all(cs).subrange(i, i + l) =~= r.subrange(i - h.len(), i - h.len() + l));
    }
}

/// An iterator that walks a [`SourceTree`] in pre-order, one node per call of
/// [`SourceTreeIterator::next`], using an explicit stack so that trees of
/// arbitrary depth cannot exhaust the call stack.
pub struct SourceTreeIterator<'tree> {
    stack: Vec<&'tree SourceTree>,
}

impl<'tree> SourceTreeIterator<'tree> {
    /// The views of the pending subtrees on the stack.
    pub closed spec fn stack_views(&self) -> Seq<SourceTreeView> {
        self.stack@.map_values(|n: &SourceTree| tree_view(*n))
    }

    /// The nodes this iterator has yet to return, in order.
    pub open spec fn remaining(&self) -> Seq<SourceTreeView> {
        stack_remaining(self.stack_views())
    }

    /// Returns the next node of the traversal, or `None` when every node has
    /// been visited.
    pub fn next(&mut self) -> (r: Option<&'tree SourceTree>)
        ensures
            match r {
                None => old(self).remaining().len() == 0 && final(self).remaining().len() == 0,
                Some(node) => {
                    &&& old(self).remaining().len() > 0
                    &&& tree_view(*node) == old(self).remaining()[0]
                    &&& final(self).remaining() == old(self).remaining().drop_first()
                },
            },
    {
        let ghost old_vs = self.stack_views();
        match self.stack.pop() {
            None => {
                proof {
                    assert(old_vs =~= self.stack_views());
                }
                None
            },
            Some(node) => {
                proof {
                    assert(self.stack_views() =~= old_vs.drop_last());
                    assert(old_vs.last() == tree_view(*node));
                }
                let ghost rest = self.stack_views();
                let ghost v = tree_view(*node);
                let n = node.children.len();
                let mut j = n;
                while j > 0
                    invariant
                        j <= n,
                        n == node.children@.len(),
                        self.stack_views().len() == rest.len() + (n - j),
                        forall|k: int|
                            0 <= k < rest.len() ==> #[trigger] self.stack_views()[k] == rest[k],
                        forall|k: int|
                            rest.len() <= k < rest.len() + (n - j) ==> #[trigger] self.stack_views()[k]
                                == tree_view(node.children@[n - 1 - (k - rest.len())]),
                    decreases j,
                {
                    j -= 1;
                    let child = &node.children[j];
                    let ghost prev = self.stack_views();
                    self.stack.push(child);
                    proof {
                        assert(self.stack_views().len() == prev.len() + 1);
                        assert(forall|k: int|
                            0 <= k < prev.len() ==> #[trigger] self.stack_views()[k] == prev[k]);
                        assert(self.stack_views()[prev.len() as int] == tree_view(*child));
                    }
                }
                proof {
                    lemma_children_views(node.children@);
                    let cvs = children_views(node.children@);
                    assert(cvs.reverse().len() == n);
                    assert(forall|k: int|
                        0 <= k < n ==> #[trigger] cvs.reverse()[k] == cvs[n - 1 - k]);
                    assert(self.stack_views() =~= rest + cvs.reverse());
                    lemma_stack_remaining_append_rev(rest, cvs);
                    assert(stack_remaining(old_vs) == preorder(v) + stack_remaining(rest));
                    assert(preorder(v) == seq![v] + preorder_all(cvs));
                    assert(old(self).remaining()[0] == v);
                    assert(self.remaining() =~= old(self).remaining().drop_first());
                }
                Some(node)
            },
        }
    }
}

// ---------------------------------------------------------------------------
// Path resolution and pruning
// ---------------------------------------------------------------------------
/// The segments of a slash-separated path, in order, ignoring empty segments
/// (leading, trailing or duplicate separators).
pub open spec fn path_segments(p: Seq<char>) -> Seq<Seq<char>>
    decreases p.len(),
    via path_segments_decreases
{
    if p.len() == 0 {
        Seq::empty()
    } else if last_slash_pos(p) < 0 {
        seq![p]
    } else if base_name(p).len() == 0 {
        path_segments(parent_path(p))
    } else {
        path_segments(parent_path(p)) + seq![base_name(p)]
    }
}

#[via_fn]
proof fn path_segments_decreases(p: Seq<char>) {
    if p.len() > 0 && last_slash_pos(p) >= 0 {
        lemma_parent_path_shorter(p);
    }
}

/// The views of a list of segment strings.
pub open spec fn seg_views(segs: Seq<String>) -> Seq<Seq<char>> {
    segs.map_values(|s: String| s@)
}

/// Whether a node of type `t` satisfies the wanted kind: `Some(true)` wants a
/// blob, `Some(false)` wants a directory, `None` accepts either.
pub open spec fn want_matches(want: Option<bool>, t: TreeEntryType) -> bool {
    match want {
        Some(true) => t == TreeEntryType::Blob,
        Some(false) => t == TreeEntryType::Tree,
        None => true,
    }
}

/// The node found by descending from `n` one segment at a time: at each step
/// the first child whose final path segment equals the next segment is
/// entered; the terminal node is returned only when its kind satisfies
/// `want`.
pub open spec fn spec_resolve(
    n: SourceTreeView,
    segs: Seq<Seq<char>>,
    want: Option<bool>,
) -> Option<SourceTreeView>
    decreases n,
{
    if segs.len() == 0 {
        if want_matches(want, n.entry_type) {
            Some(n)
        } else {
            None
        }
    } else {
        spec_resolve_children(n.children, segs, want)
    }
}

/// The resolution of `segs` against the first child of `cs` whose final path
/// segment equals `segs[0]`, if any.
pub open spec fn spec_resolve_children(
    cs: Seq<SourceTreeView>,
    segs: Seq<Seq<char>>,
    want: Option<bool>,
) -> Option<SourceTreeView>
    decreases cs,
{
    if segs.len() == 0 || cs.len() == 0 {
        None
    } else if base_name(cs[0].path) == segs[0] {
        spec_resolve(cs[0], segs.drop_first(), want)
    } else {
        spec_resolve_children(cs.drop_first(), segs, want)
    }
}

/// Splits a slash-separated path into its non-empty segments.
pub fn split_segments(p: &str) -> (segs: Vec<String>)
    ensures
        seg_views(segs@) == path_segments(p@),
    decreases p@.len(),
{
    let n = p.unicode_len();
    if n == 0 {
        let segs: Vec<String> = Vec::new();
        proof {
            assert(seg_views(segs@) =~= path_segments(p@));
        }
        return segs;
    }
    proof {
        lemma_last_slash_pos_bounds(p@);
    }
    match find_last_slash(p) {
        None => {
            let mut segs: Vec<String> = Vec::new();
            segs.push(p.to_owned());
            proof {
                assert(seg_views(segs@) =~= path_segments(p@));
            }
            segs
        },
        Some(i) => {
            proof {
                lemma_parent_path_shorter(p@);
            }
            let parent = p.substring_char(0, i);
            let mut segs = split_segments(parent);
            proof {
                assert(parent@ == parent_path(p@));
            }
            if i + 1 < n {
                let base = p.substring_char(i + 1, n);
                proof {
                    assert(base@ == base_name(p@));
                }
                segs.push(base.to_owned());
                proof {
                    assert(seg_views(segs@) =~= path_segments(p@));
                }
            } else {
                proof {
                    assert(base_name(p@).len() == 0);
                    assert(seg_views(segs@) =~= path_segments(p@));
                }
            }
            segs
        },
    }
}

/// Whether `r` is `orig` with some child subtrees removed: the root data is
/// kept; some strictly increasing selection `keep` of the children survives,
/// each kept child pruned by `f` in turn and approved by `f`, and every
/// dropped child was rejected by `f`.
pub open spec fn prune_keeps<F: Fn(&SourceTree) -> bool>(
    f: F,
    orig: SourceTree,
    r: SourceTree,
) -> bool
    decreases orig,
{
    &&& r.path@ == orig.path@
    &&& r.mode@ == orig.mode@
    &&& r.sha@ == orig.sha@
    &&& r.url@ == orig.url@
    &&& r.entry_type == orig.entry_type
    &&& r.size == orig.size
    &&& exists|keep: Seq<int>|
        #![trigger keep.len()]
        {
            &&& keep.len() == r.children@.len()
            &&& (forall|k: int|
                0 < k < keep.len() ==> #[trigger] keep[k - 1] < keep[k])
            &&& (forall|k: int|
                0 <= k < keep.len() ==> {
                    &&& 0 <= #[trigger] keep[k] < orig.children@.len()
                    &&& call_ensures(f, (&orig.children@[keep[k]],), true)
                    &&& prune_keeps(f, orig.children@[keep[k]], r.children@[k])
                })
            &&& (forall|j: int|
                0 <= j < orig.children@.len() && !keep.contains(j) ==> call_ensures(
                    f,
                    (&orig.children@[j],),
                    false,
                ))
        }
}

impl SourceTree {
    /// Creates a new [`SourceTree`] from this tree, keeping only the child
    /// subtrees whose nodes `predicate` approves; the root itself is always
    /// kept.
    pub fn prune<F: Fn(&SourceTree) -> bool>(&self, predicate: &F) -> (r: SourceTree)
        requires
            forall|n: &SourceTree| #[trigger] call_requires(*predicate, (n,)),
        ensures
            prune_keeps(*predicate, *self, r),
        decreases *self,
    {
        let mut new_children: Vec<SourceTree> = Vec::new();
        let ghost mut keep: Seq<int> = Seq::empty();
        let n = self.children.len();
        for i in 0..n
            invariant
                n == self.children@.len(),
                forall|m: &SourceTree| #[trigger] call_requires(*predicate, (m,)),
                keep.len() == new_children@.len(),
                forall|k: int| 0 <= k < keep.len() ==> 0 <= #[trigger] keep[k] < i,
                forall|k: int| 0 < k < keep.len() ==> #[trigger] keep[k - 1] < keep[k],
                forall|k: int|
                    0 <= k < keep.len() ==> call_ensures(
                        *predicate,
                        (&self.children@[#[trigger] keep[k]],),
                        true,
                    ) && prune_keeps(*predicate, self.children@[keep[k]], new_children@[k]),
                forall|j: int|
                    0 <= j < i && !keep.contains(j) ==> call_ensures(
                        *predicate,
                        (&self.children@[j],),
                        false,
                    ),
        {
            if predicate(&self.children[i]) {
                let pruned_child = self.children[i].prune(predicate);
                new_children.push(pruned_child);
                proof {
                    let old_keep = keep;
                    keep = keep.push(i as int);
                    assert(keep[keep.len() - 1] == i as int);
                    assert(keep.contains(i as int));
                    assert forall|j: int| 0 <= j < i + 1 && !keep.contains(j) implies call_ensures(
                        *predicate,
                        (&self.children@[j],),
                        false,
                    ) by {
                        if j < i {
                            if old_keep.contains(j) {
                                let idx = choose|idx: int|
                                    0 <= idx < old_keep.len() && old_keep[idx] == j;
                                assert(keep[idx] == j);
                            }
                        }
                    }
                }
            } else {
                proof {
                    assert forall|j: int| 0 <= j < i + 1 && !keep.contains(j) implies call_ensures(
                        *predicate,
                        (&self.children@[j],),
                        false,
                    ) by {}
                }
            }
        }
        let r = SourceTree {
            path: self.path.clone(),
            mode: self.mode.clone(),
            sha: self.sha.clone(),
            entry_type: self.entry_type,
            size: self.size,
            url: self.url.clone(),
            children: new_children,
        };
        proof {
            assert(r.children@.len() == keep.len());
            assert(prune_keeps(*predicate, *self, r));
        }
        r
    }

    /// Walks the tree to find a blob at the given path, if any.
    /// Equivalent to [`SourceTree::resolve`] with `find_blob` as `Some(true)`.
    pub fn resolve_blob(&self, path: &str) -> (r: Option<&SourceTree>)
        ensures
            match r {
                Some(node) => spec_resolve(self.v(), path_segments(path@), Some(true)) == Some(
                    tree_view(*node),
                ),
                None => spec_resolve(self.v(), path_segments(path@), Some(true)) is None,
            },
    {
        self.resolve(path, Some(true))
    }

    /// Walks the tree to find a tree (directory) at the given path, if any.
    /// Equivalent to [`SourceTree::resolve`] with `find_blob` as
    /// `Some(false)`.
    pub fn resolve_tree(&self, path: &str) -> (r: Option<&SourceTree>)
        ensures
            match r {
                Some(node) => spec_resolve(self.v(), path_segments(path@), Some(false)) == Some(
                    tree_view(*node),
                ),
                None => spec_resolve(self.v(), path_segments(path@), Some(false)) is None,
            },
    {
        self.resolve(path, Some(false))
    }

    /// Walks the tree to find a node of either kind at the given path, if
    /// any.  Equivalent to [`SourceTree::resolve`] with `find_blob` as
    /// `None`.
    pub fn resolve_any(&self, path: &str) -> (r: Option<&SourceTree>)
        ensures
            match r {
                Some(node) => spec_resolve(self.v(), path_segments(path@), None) == Some(
                    tree_view(*node),
                ),
                None => spec_resolve(self.v(), path_segments(path@), None) is None,
            },
    {
        self.resolve(path, None)
    }

    /// Walks the tree to find an entry at the given path, if any.
    ///
    /// - If `find_blob` is `Some(true)`, only a blob entry is returned.
    /// - If `find_blob` is `Some(false)`, only a tree entry is returned.
    /// - If `find_blob` is `None`, an entry of either kind is returned.
    pub fn resolve(&self, path: &str, find_blob: Option<bool>) -> (r: Option<&SourceTree>)
        ensures
            match r {
                Some(node) => spec_resolve(self.v(), path_segments(path@), find_blob) == Some(
                    tree_view(*node),
                ),
                None => spec_resolve(self.v(), path_segments(path@), find_blob) is None,
            },
    {
        let segs = split_segments(path);
        proof {
            assert(seg_views(segs@).skip(0) =~= seg_views(segs@));
        }
        self.resolve_inner(&segs, 0, find_blob)
    }

    /// Descends the tree along `segs[k..]`, entering at each step the first
    /// child whose final path segment matches.
    pub fn resolve_inner<'s>(&'s self, segs: &Vec<String>, k: usize, find_blob: Option<bool>) -> (r:
        Option<&'s SourceTree>)
        requires
            k <= segs@.len(),
        ensures
            match r {
                Some(node) => spec_resolve(self.v(), seg_views(segs@).skip(k as int), find_blob)
                    == Some(tree_view(*node)),
                None => spec_resolve(self.v(), seg_views(segs@).skip(k as int), find_blob) is None,
            },
        decreases *self,
    {
        let ghost rest = seg_views(segs@).skip(k as int);
        if k == segs.len() {
            proof {
                assert(rest.len() == 0);
            }
            let matches_kind = match find_blob {
                Some(true) => self.entry_type == TreeEntryType::Blob,
                Some(false) => self.entry_type == TreeEntryType::Tree,
                None => true,
            };
            if matches_kind {
                Some(self)
            } else {
                None
            }
        } else {
            proof {
                assert(rest.len() > 0);
                assert(rest[0] == segs@[k as int]@);
                lemma_children_views(self.children@);
            }
            let ghost cvs = children_views(self.children@);
            proof {
                assert(cvs.skip(0) =~= cvs);
            }
            let n = self.children.len();
            for i in 0..n
                invariant
                    k < segs@.len(),
                    segs@.len() <= usize::MAX,
                    n == self.children@.len(),
                    rest == seg_views(segs@).skip(k as int),
                    rest.len() > 0,
                    rest[0] == segs@[k as int]@,
                    cvs == children_views(self.children@),
                    cvs.len() == n,
                    forall|m: int| 0 <= m < n ==> #[trigger] cvs[m] == tree_view(self.children@[m]),
                    spec_resolve_children(cvs, rest, find_blob) == spec_resolve_children(
                        cvs.skip(i as int),
                        rest,
                        find_blob,
                    ),
            {
                let fname = final_segment(self.children[i].path.as_str());
                proof {
                    assert(cvs.skip(i as int)[0] == cvs[i as int]);
                    assert(fname@ == base_name(cvs[i as int].path));
                }
                if fname == segs[k] {
                    let child_result = self.children[i].resolve_inner(segs, k + 1, find_blob);
                    proof {
                        assert(seg_views(segs@).skip(k as int + 1) =~= rest.drop_first());
                        assert(spec_resolve_children(cvs.skip(i as int), rest, find_blob)
                            == spec_resolve(cvs[i as int], rest.drop_first(), find_blob));
                    }
                    return child_result;
                }
                proof {
                    assert(cvs.skip(i as int).drop_first() =~= cvs.skip(i as int + 1));
                    assert(base_name(cvs.skip(i as int)[0].path) != rest[0]);
                }
            }
            proof {
                assert(cvs.skip(n as int) =~= Seq::<SourceTreeView>::empty());
            }
            None
        }
    }

    /// Creates a [`SourceTreeIterator`] that walks this tree in pre-order and
    /// returns a reference to each node found.
    pub fn iter<'tree>(&'tree self) -> (it: SourceTreeIterator<'tree>)
        ensures
            it.remaining() == preorder(self.v()),
    {
        let mut stack: Vec<&'tree SourceTree> = Vec::new();
        stack.push(self);
        let it = SourceTreeIterator { stack };
        proof {
            let vs = it.stack_views();
            assert(vs =~= seq![tree_view(*self)]);
            assert(vs.drop_last() =~= Seq::<SourceTreeView>::empty());
            assert(stack_remaining(vs.drop_last()) == Seq::<SourceTreeView>::empty());
            assert(vs.last() == tree_view(*self));
            assert(stack_remaining(vs) == preorder(tree_view(*self)) + Seq::<
                SourceTreeView,
            >::empty());
            assert(it.remaining() =~= preorder(self.v()));
        }
        it
    }
}

} // verus!
