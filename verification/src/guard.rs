//! guard — the safety rails applied before an embedded tool runs.
//!
//! Two independent guards:
//!
//! 1. **File-root scope.** A caller-supplied path is interpreted against the
//!    safe root (relative paths are joined under it), collapsed lexically, and
//!    admitted only when the resulting path lies at or below the root,
//!    compared component by component.
//! 2. **Read-only mode.** Mutating operations are refused while the gateway
//!    runs read-only.
use vstd::prelude::*;
use crate::path::{
    all_plain, components, is_absolute, lemma_components_join_sep, lemma_components_plain, lemma_components_render,
    lemma_normalize_append, lemma_normalize_clean, lemma_normalize_identity, no_parent,
    normalize, normalize_components, path_starts_with, render, render_path, is_rooted,
    split_components, starts_with, views,
};
use crate::text::{blank, is_blank};

verus! {

/// The message returned when a mutating operation is refused.
pub open spec fn read_only_denial(op: Seq<char>) -> Seq<char> {
    op + " is denied: server is running in --read-only mode"@
}

/// The message returned for a blank path.
pub open spec fn empty_path_error() -> Seq<char> {
    "path is empty"@
}

/// The message returned for a path that leaves the root.
pub open spec fn outside_root_error(raw: Seq<char>, candidate: Seq<char>, root: Seq<char>) -> Seq<
    char,
> {
    "path '"@ + raw + "' resolves to '"@ + candidate + "', which is outside the safe root '"@
        + root + "'"@
}

/// The components a request names once joined against the root: an absolute
/// request stands alone, a relative one follows the root's components.
pub open spec fn joined_components(root: Seq<char>, raw: Seq<char>) -> Seq<Seq<char>> {
    if is_absolute(raw) {
        components(raw)
    } else {
        components(root) + components(raw)
    }
}

/// Whether the joined request is anchored at the file-system root.
pub open spec fn joined_absolute(root: Seq<char>, raw: Seq<char>) -> bool {
    if is_absolute(raw) {
        true
    } else {
        is_absolute(root)
    }
}

/// The lexical target of a request: joined against the root, `.` and `..`
/// collapsed without consulting the file system.
pub open spec fn lexical_target(root: Seq<char>, raw: Seq<char>) -> Seq<char> {
    render(joined_absolute(root, raw), normalize(joined_components(root, raw)))
}

/// A path with `.` and `..` collapsed lexically, keeping its anchor.
pub open spec fn lexically_normal(path: Seq<char>) -> Seq<char> {
    render(is_absolute(path), normalize(components(path)))
}

/// Collapses `.` and `..` without consulting the file system. A leading `..`
/// that would climb above the path's anchor is dropped.
pub fn lexical_normalize(path: &str) -> (r: String)
    ensures
        r@ == lexically_normal(path@),
{
    let cs = split_components(path);
    let normal = normalize_components(&cs);
    render_path(is_rooted(path), &normal)
}

/// The verdict on a candidate path: admitted unchanged when it lies at or
/// below the root, refused with a message naming both otherwise.
pub open spec fn admission(root: Seq<char>, raw: Seq<char>, candidate: Seq<char>) -> Result<
    Seq<char>,
    Seq<char>,
> {
    if starts_with(candidate, root) {
        Ok(candidate)
    } else {
        Err(outside_root_error(raw, candidate, root))
    }
}

/// The texts held by a result of strings.
pub open spec fn result_view(r: Result<String, String>) -> Result<Seq<char>, Seq<char>> {
    match r {
        Ok(s) => Ok(s@),
        Err(e) => Err(e@),
    }
}

/// The texts held by an optional string.
pub open spec fn option_view(o: Option<String>) -> Option<Seq<char>> {
    match o {
        Some(s) => Some(s@),
        None => None,
    }
}

/// The candidate that is checked: the canonical form when one was found,
/// the lexical target otherwise.
pub open spec fn chosen_candidate(lexical: Seq<char>, canonical: Option<Seq<char>>) -> Seq<char> {
    match canonical {
        Some(c) => c,
        None => lexical,
    }
}

/// Resolved guard configuration, shared read-only across all tool calls.
#[derive(Debug)]
pub struct Guard {
    root: String,
    read_only: bool,
}

impl Guard {
    /// The safe root.
    pub closed spec fn root_text(&self) -> Seq<char> {
        self.root@
    }

    /// Whether mutations are refused.
    pub closed spec fn read_only_flag(&self) -> bool {
        self.read_only
    }

    /// Builds a guard over an already resolved root.
    pub fn new(root: String, read_only: bool) -> (g: Self)
        ensures
            g.root_text() == root@,
            g.read_only_flag() == read_only,
    {
        Guard { root, read_only }
    }

    /// The active safe root.
    pub fn root(&self) -> (r: &str)
        ensures
            r@ == self.root_text(),
    {
        self.root.as_str()
    }

    /// Whether the gateway is in read-only mode.
    pub fn is_read_only(&self) -> (r: bool)
        ensures
            r == self.read_only_flag(),
    {
        self.read_only
    }

    /// Refuses a mutating operation in read-only mode; `op` labels it in the
    /// message.
    pub fn deny_if_read_only(&self, op: &str) -> (r: Result<(), String>)
        ensures
            r is Err <==> self.read_only_flag(),
            r matches Err(e) ==> e@ == read_only_denial(op@),
    {
        if self.read_only {
            let mut msg = op.to_owned();
            msg.append(" is denied: server is running in --read-only mode");
            Err(msg)
        } else {
            Ok(())
        }
    }

    /// Joins a request against the root and collapses it lexically. A blank
    /// request is refused.
    pub fn lexical_target(&self, raw: &str) -> (r: Result<String, String>)
        ensures
            r is Err <==> blank(raw@),
            r matches Err(e) ==> e@ == empty_path_error(),
            r matches Ok(p) ==> p@ == lexical_target(self.root_text(), raw@),
    {
        if is_blank(raw) {
            return Err("path is empty".to_owned());
        }
        let absolute = is_rooted(raw);
        let mut joined: Vec<String>;
        let rooted: bool;
        if absolute {
            joined = split_components(raw);
            rooted = true;
        } else {
            joined = split_components(self.root.as_str());
            let mut tail = split_components(raw);
            let ghost before = joined@;
            let ghost t = tail@;
            joined.append(&mut tail);
            proof {
                assert(views(joined@) =~= views(before) + views(t));
            }
            rooted = is_rooted(self.root.as_str());
        }
        let normal = normalize_components(&joined);
        Ok(render_path(rooted, &normal))
    }

    /// Admits `candidate` when it lies at or below the root; `raw` is the
    /// request as the caller wrote it, for the message.
    pub fn confirm_in_root(&self, raw: &str, candidate: String) -> (r: Result<String, String>)
        ensures
            result_view(r) == admission(self.root_text(), raw@, candidate@),
            r matches Ok(p) ==> p == candidate,
    {
        if path_starts_with(candidate.as_str(), self.root.as_str()) {
            Ok(candidate)
        } else {
            let mut msg = "path '".to_owned();
            msg.append(raw);
            msg.append("' resolves to '");
            msg.append(candidate.as_str());
            msg.append("', which is outside the safe root '");
            msg.append(self.root.as_str());
            msg.append("'");
            Err(msg)
        }
    }

    /// Resolves a caller-supplied path and confirms it stays inside the safe
    /// root. `canonicalize` is consulted on the lexical target: when it finds
    /// a real path (resolving symlinks) that path is checked, otherwise the
    /// lexical target is. Whatever it answers, an admitted path lies at or
    /// below the root.
    pub fn resolve_in_root<F: Fn(String) -> Option<String>>(
        &self,
        raw: &str,
        canonicalize: F,
    ) -> (r: Result<String, String>)
        requires
            forall|s: String| call_requires(canonicalize, (s,)),
        ensures
            blank(raw@) ==> result_view(r) == Err::<Seq<char>, Seq<char>>(empty_path_error()),
            !blank(raw@) ==> exists|t: String, c: Option<String>|
                #![trigger call_ensures(canonicalize, (t,), c)]
                t@ == lexical_target(self.root_text(), raw@) && call_ensures(
                    canonicalize,
                    (t,),
                    c,
                ) && result_view(r) == admission(
                    self.root_text(),
                    raw@,
                    chosen_candidate(t@, option_view(c)),
                ),
            r matches Ok(p) ==> starts_with(p@, self.root_text()),
    {
        let target = match self.lexical_target(raw) {
            Ok(t) => t,
            Err(e) => return Err(e),
        };
        let ghost t = target;
        let found = canonicalize(target.clone());
        let candidate = match found {
            Some(c) => c,
            None => target,
        };
        let r = self.confirm_in_root(raw, candidate);
        proof {
            assert(call_ensures(canonicalize, (t,), found));
        }
        r
    }
}

impl Clone for Guard {
    fn clone(&self) -> (r: Self)
        ensures
            r.root_text() == self.root_text(),
            r.read_only_flag() == self.read_only_flag(),
    {
        Guard { root: self.root.clone(), read_only: self.read_only }
    }
}

/// A normalized request never names `..`, and it keeps the anchor of the
/// joined path: a leading `..` that would climb above the anchor is dropped.
pub proof fn lemma_lexical_target_is_clean(root: Seq<char>, raw: Seq<char>)
    ensures
        no_parent(components(lexical_target(root, raw))),
        all_plain(components(lexical_target(root, raw))),
        is_absolute(lexical_target(root, raw)) == joined_absolute(root, raw),
{
    let cs = joined_components(root, raw);
    lemma_components_plain(root);
    lemma_components_plain(raw);
    if !is_absolute(raw) {
        let a = components(root);
        let b = components(raw);
        assert forall|i: int| 0 <= i < cs.len() implies crate::path::is_plain(#[trigger] cs[i]) by {
            if i < a.len() {
                assert(cs[i] == a[i]);
            } else {
                assert(cs[i] == b[i - a.len()]);
            }
        }
    }
    lemma_normalize_clean(cs);
    lemma_components_render(joined_absolute(root, raw), normalize(cs));
}

/// A relative request free of `..`, under a root free of `..`, lands inside
/// the root: its lexical target is the root's components followed by its own.
pub proof fn lemma_plain_relative_stays_inside(root: Seq<char>, raw: Seq<char>)
    requires
        !is_absolute(raw),
        no_parent(components(root)),
        no_parent(components(raw)),
    ensures
        starts_with(lexical_target(root, raw), root),
        components(lexical_target(root, raw)) == components(root) + components(raw),
{
    let a = components(root);
    let b = components(raw);
    lemma_normalize_append(a, b);
    lemma_normalize_identity(a);
    lemma_components_plain(root);
    lemma_components_plain(raw);
    assert forall|i: int| 0 <= i < (a + b).len() implies crate::path::is_plain(
        #[trigger] (a + b)[i],
    ) by {
        if i < a.len() {
            assert((a + b)[i] == a[i]);
        } else {
            assert((a + b)[i] == b[i - a.len()]);
        }
    }
    lemma_components_render(is_absolute(root), a + b);
    assert((a + b).take(a.len() as int) =~= a);
}

/// Lexical normalization is idempotent: a normalized path normalizes to
/// itself.
pub proof fn lemma_lexically_normal_idempotent(path: Seq<char>)
    ensures
        lexically_normal(lexically_normal(path)) == lexically_normal(path),
{
    let cs = normalize(components(path));
    lemma_components_plain(path);
    lemma_normalize_clean(components(path));
    lemma_components_render(is_absolute(path), cs);
    lemma_normalize_identity(cs);
}

/// A relative request is resolved against the safe root, never against any
/// other directory: it has the same lexical target as the root joined with
/// it by a separator.
pub proof fn lemma_relative_resolves_under_root(root: Seq<char>, raw: Seq<char>)
    requires
        is_absolute(root),
        !is_absolute(raw),
    ensures
        lexical_target(root, raw) == lexical_target(root, root + seq!['/'] + raw),
        is_absolute(lexical_target(root, raw)),
{
    lemma_components_join_sep(root, raw);
    let joined = root + seq!['/'] + raw;
    assert(joined[0] == root[0]);
}

/// An admitted path keeps the root's anchor (absolute under an absolute
/// root) and has no empty or `.` component; when no real path was found for
/// the request, it is the lexical target and names no `..` either.
pub proof fn lemma_admitted_shape(root: Seq<char>, raw: Seq<char>, candidate: Seq<char>)
    requires
        admission(root, raw, candidate) is Ok,
    ensures
        is_absolute(candidate) == is_absolute(root),
        all_plain(components(candidate)),
        candidate == lexical_target(root, raw) ==> no_parent(components(candidate)),
{
    lemma_components_plain(candidate);
    if candidate == lexical_target(root, raw) {
        lemma_lexical_target_is_clean(root, raw);
    }
}

/// What the guard admits never leaves the root, whatever the canonical form
/// found for it.
pub proof fn lemma_admitted_inside(root: Seq<char>, raw: Seq<char>, candidate: Seq<char>)
    ensures
        admission(root, raw, candidate) matches Ok(p) ==> p == candidate && starts_with(p, root),
        !starts_with(candidate, root) ==> admission(root, raw, candidate) is Err,
{
}

} // verus!
