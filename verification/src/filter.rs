//! Include/exclude filtering of repository paths by glob patterns.
use vstd::prelude::*;

verus! {

/// What `glob_match::glob_match` returns for a pattern and a path.  Glob
/// matching is a function of the two strings alone, so the result only gets a
/// name here; the matching rules themselves live in the `glob-match` crate.
pub uninterp spec fn glob_matches(pattern: Seq<char>, path: Seq<char>) -> bool;

/// Relies on `glob_match::glob_match`: decides whether `path` matches the
/// glob `pattern` (with `*` and `**` wildcards).
#[verifier::external_body]
fn path_matches_glob(pattern: &str, path: &str) -> (r: bool)
    ensures
        r == glob_matches(pattern@, path@),
{
    glob_match::glob_match(pattern, path)
}

/// The views of a list of glob pattern strings.
pub open spec fn views_of(globs: Seq<String>) -> Seq<Seq<char>> {
    globs.map_values(|s: String| s@)
}

/// Whether `path` matches at least one pattern in `globs`.
pub open spec fn matches_any(globs: Seq<Seq<char>>, path: Seq<char>) -> bool {
    exists|i: int| 0 <= i < globs.len() && glob_matches(globs[i], path)
}

/// The filter decision for a path, given the views of the two pattern lists:
/// the path must match some `included` pattern (or `included` must be empty),
/// and must match no `excluded` pattern.
pub open spec fn spec_accepts(
    included: Seq<Seq<char>>,
    excluded: Seq<Seq<char>>,
    path: Seq<char>,
) -> bool {
    (included.len() == 0 || matches_any(included, path)) && !matches_any(excluded, path)
}

/// Specifies a set of glob patterns deciding which paths should be kept and
/// which should be dropped.
pub struct Filter {
    included: Vec<String>,
    excluded: Vec<String>,
}

impl Filter {
    /// The views of the `included` patterns.
    pub closed spec fn inc(&self) -> Seq<Seq<char>> {
        views_of(self.included@)
    }

    /// The views of the `excluded` patterns.
    pub closed spec fn exc(&self) -> Seq<Seq<char>> {
        views_of(self.excluded@)
    }

    /// The decision this filter makes for `path`.
    pub open spec fn accepts(&self, path: Seq<char>) -> bool {
        spec_accepts(self.inc(), self.exc(), path)
    }

    /// Creates a new [`Filter`] from the given lists of `included` and
    /// `excluded` glob patterns.
    ///
    /// - If both lists are given, a path is kept only if it matches some
    ///   `included` pattern and no `excluded` pattern.
    /// - If only `included` is given, it acts as a whitelist.
    /// - If only `excluded` is given, it acts as a blacklist.
    /// - If both are empty, the filter keeps every path (see [`Filter::all`]).
    pub fn new(included: Vec<String>, excluded: Vec<String>) -> (r: Filter)
        ensures
            r.inc() == views_of(included@),
            r.exc() == views_of(excluded@),
    {
        Filter { included, excluded }
    }

    /// Creates a new filter that keeps every path.
    pub fn all() -> (r: Filter)
        ensures
            r.inc().len() == 0,
            r.exc().len() == 0,
            forall|path: Seq<char>| r.accepts(path),
    {
        Filter { included: Vec::new(), excluded: Vec::new() }
    }

    /// Returns whether the given path is kept by this filter.
    pub fn check(&self, path: &str) -> (r: bool)
        ensures
            r == self.accepts(path@),
    {
        let is_included = match Self::match_path(&self.included, path) {
            None => true,
            Some(b) => b,
        };
        let is_excluded = match Self::match_path(&self.excluded, path) {
            None => false,
            Some(b) => b,
        };
        is_included && !is_excluded
    }

    /// Returns whether `path` matches any pattern of `globs`, or `None` when
    /// `globs` is empty.
    fn match_path(globs: &Vec<String>, path: &str) -> (r: Option<bool>)
        ensures
            match r {
                None => globs@.len() == 0,
                Some(b) => globs@.len() > 0 && b == matches_any(views_of(globs@), path@),
            },
    {
        if globs.len() == 0 {
            return None;
        }

        let n = globs.len();
        for i in 0..n
            invariant
                n == globs@.len(),
                forall|j: int| 0 <= j < i ==> !glob_matches(views_of(globs@)[j], path@),
        {
            if path_matches_glob(globs[i].as_str(), path) {
                assert(glob_matches(views_of(globs@)[i as int], path@));
                return Some(true);
            }
        }

        Some(false)
    }
}

/// A filter whose `included` and `excluded` lists are both empty keeps every
/// path.
pub proof fn lemma_empty_filter_accepts_all(f: Filter, path: Seq<char>)
    requires
        f.inc().len() == 0,
        f.exc().len() == 0,
    ensures
        f.accepts(path),
{
}

} // verus!
