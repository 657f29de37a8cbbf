//! The path guard: decides whether a path given by a caller stays inside
//! the vault root. Paths are POSIX-like strings with `/` as separator.
//!
//! The guard is a pure decision. What it needs from the filesystem (the
//! canonical forms of the root, of the target and of its parent, and
//! whether they exist) is gathered by the caller into a [`PathProbe`].
use vstd::prelude::*;
use crate::text::{from_chars, to_chars};

verus! {

/// The ways in which a vault operation fails.
#[derive(Debug, Clone, PartialEq, Eq)]
pub enum VaultError {
    /// Malformed input: a parent traversal, an absolute or non-markdown name.
    InvalidPath,
    /// The path resolves outside the vault root.
    PathEscapesRoot,
    /// Neither the target nor its parent directory exists.
    ParentNotFound,
    /// The path to open does not exist.
    PathNotFound,
    /// The path to open is not a directory.
    NotADirectory,
    /// The file to create exists already.
    AlreadyExists,
    /// The target to delete is a directory or is missing.
    NotAFile,
    /// No vault has been opened.
    NoVaultOpen,
    /// The operating system reported a failure, with its message.
    IoError(String),
}

/// Whether a `..` segment starts at position `i` of `p`.
pub open spec fn parent_segment_at(p: Seq<char>, i: int) -> bool {
    &&& 0 <= i && i + 2 <= p.len()
    &&& p[i] == '.' && p[i + 1] == '.'
    &&& (i == 0 || p[i - 1] == '/')
    &&& (i + 2 == p.len() || p[i + 2] == '/')
}

/// Whether `p` has a parent-directory segment `..`.
pub open spec fn has_parent_segment(p: Seq<char>) -> bool {
    exists|i: int| parent_segment_at(p, i)
}

/// Whether `pre` is a prefix of `s`.
pub open spec fn is_prefix(pre: Seq<char>, s: Seq<char>) -> bool {
    pre.len() <= s.len() && s.take(pre.len() as int) == pre
}

/// Whether the canonical path `p` is `root` or lies below it, component by
/// component: `/a/bc` does not lie below `/a/b`.
pub open spec fn is_under(p: Seq<char>, root: Seq<char>) -> bool {
    ||| p == root
    ||| is_prefix(root.push('/'), p)
    ||| (root.len() > 0 && root.last() == '/' && is_prefix(root, p))
}

/// The last segment of `p`: what follows its last `/`.
pub open spec fn last_segment(p: Seq<char>) -> Seq<char>
    decreases p.len(),
{
    if p.len() == 0 || p.last() == '/' {
        Seq::empty()
    } else {
        last_segment(p.drop_last()).push(p.last())
    }
}

/// Whether `s` ends with `.md`.
pub open spec fn ends_with_md(s: Seq<char>) -> bool {
    s.len() >= 3 && s[s.len() - 3] == '.' && s[s.len() - 2] == 'm' && s[s.len() - 1] == 'd'
}

/// Whether the file name of `p` has the extension `md`: a name longer than
/// `.md` that ends with it.
pub open spec fn is_markdown(p: Seq<char>) -> bool {
    let name = last_segment(p);
    name.len() > 3 && ends_with_md(name)
}

/// Whether `p` has a parent-directory segment `..`.
pub fn has_parent_traversal(path: &str) -> (r: bool)
    ensures
        r == has_parent_segment(path@),
{
    let p = to_chars(path);
    let n = p.len();
    let mut i: usize = 0;
    while i < n
        invariant
            p@ == path@,
            n == p.len(),
            i <= n,
            forall|j: int| 0 <= j < i ==> !parent_segment_at(p@, j),
        decreases n - i,
    {
        if i + 1 < n && p[i] == '.' && p[i + 1] == '.' && (i == 0 || p[i - 1] == '/') && (i + 2 == n || p[i
            + 2] == '/') {
            assert(parent_segment_at(p@, i as int));
            return true;
        }
        i = i + 1;
    }
    assert(!has_parent_segment(path@)) by {
        if has_parent_segment(path@) {
            let w = choose|w: int| parent_segment_at(p@, w);
            assert(w < i);
        }
    }
    false
}

fn starts_with_chars(s: &Vec<char>, pre: &Vec<char>) -> (r: bool)
    ensures
        r == is_prefix(pre@, s@),
{
    if pre.len() > s.len() {
        return false;
    }
    let mut i: usize = 0;
    while i < pre.len()
        invariant
            pre.len() <= s.len(),
            i <= pre.len(),
            forall|j: int| 0 <= j < i ==> s@[j] == pre@[j],
        decreases pre.len() - i,
    {
        if s[i] != pre[i] {
            assert(s@.take(pre.len() as int)[i as int] != pre@[i as int]);
            return false;
        }
        i = i + 1;
    }
    assert(s@.take(pre.len() as int) =~= pre@);
    true
}

fn is_under_chars(p: &Vec<char>, root: &Vec<char>) -> (r: bool)
    ensures
        r == is_under(p@, root@),
{
    let mut with_sep = root.clone();
    assert(with_sep@ == root@);
    with_sep.push('/');
    assert(with_sep@ == root@.push('/'));
    let same = p.len() == root.len() && starts_with_chars(p, root);
    proof {
        assert(p@.take(p.len() as int) =~= p@);
        if p.len() == root.len() && is_prefix(root@, p@) {
            assert(p@ =~= root@);
        }
    }
    same || starts_with_chars(p, &with_sep) || (root.len() > 0 && root[root.len() - 1] == '/'
        && starts_with_chars(p, root))
}

/// Whether the canonical path `path` is the canonical `root` or lies below
/// it; an empty path or root is never accepted.
pub fn path_under_root(path: &str, root: &str) -> (r: bool)
    ensures
        r == (path@.len() > 0 && root@.len() > 0 && is_under(path@, root@)),
{
    let p = to_chars(path);
    let q = to_chars(root);
    if p.len() == 0 || q.len() == 0 {
        return false;
    }
    is_under_chars(&p, &q)
}

fn last_segment_chars(p: &Vec<char>) -> (r: Vec<char>)
    ensures
        r@ == last_segment(p@),
{
    let n = p.len();
    let mut start: usize = n;
    assert(p@.take(n as int) =~= p@);
    assert(p@.subrange(n as int, n as int) =~= Seq::<char>::empty());
    assert(last_segment(p@) =~= last_segment(p@) + Seq::<char>::empty());
    while start > 0 && p[start - 1] != '/'
        invariant
            start <= n == p.len(),
            last_segment(p@) == last_segment(p@.take(start as int)) + p@.subrange(start as int, n as int),
        decreases start,
    {
        let ghost t = p@.take(start as int);
        assert(t.drop_last() =~= p@.take(start - 1));
        assert(p@.subrange(start - 1, n as int) =~= seq![t.last()] + p@.subrange(start as int, n as int));
        assert(last_segment(t) == last_segment(t.drop_last()).push(t.last()));
        assert(last_segment(t.drop_last()).push(t.last()) + p@.subrange(start as int, n as int)
            =~= last_segment(t.drop_last()) + p@.subrange(start - 1, n as int));
        start = start - 1;
    }
    assert(last_segment(p@.take(start as int)) =~= Seq::<char>::empty());
    let mut r: Vec<char> = Vec::new();
    let mut k: usize = start;
    while k < n
        invariant
            start <= k <= n == p.len(),
            r@ == p@.subrange(start as int, k as int),
        decreases n - k,
    {
        r.push(p[k]);
        k = k + 1;
    }
    r
}

fn ends_with_md_chars(s: &Vec<char>) -> (r: bool)
    ensures
        r == ends_with_md(s@),
{
    let n = s.len();
    n >= 3 && s[n - 3] == '.' && s[n - 2] == 'm' && s[n - 1] == 'd'
}

/// Whether the file name of `path` has the extension `md`.
pub fn is_markdown_file(path: &str) -> (r: bool)
    ensures
        r == is_markdown(path@),
{
    let name = last_segment_chars(&to_chars(path));
    name.len() > 3 && ends_with_md_chars(&name)
}

/// The last segment of `path`: what follows its last `/`.
pub fn file_name(path: &str) -> (r: String)
    ensures
        r@ == last_segment(path@),
{
    from_chars(&last_segment_chars(&to_chars(path)))
}

/// What the filesystem says of a target path: the canonical vault root,
/// the canonical target when it exists (and whether it is a regular file),
/// and the canonical parent directory when it exists.
#[derive(Debug, Clone, PartialEq, Eq)]
pub struct PathProbe {
    pub root: String,
    pub target: Option<String>,
    pub target_is_file: bool,
    pub parent: Option<String>,
}

pub open spec fn opt_chars(o: Option<String>) -> Option<Seq<char>> {
    match o {
        Some(s) => Some(s@),
        None => None,
    }
}

pub open spec fn result_view(r: Result<String, VaultError>) -> Result<Seq<char>, VaultError> {
    match r {
        Ok(s) => Ok(s@),
        Err(e) => Err(e),
    }
}

/// The canonical path that `parent`/`name` would have.
pub open spec fn child_path(parent: Seq<char>, name: Seq<char>) -> Seq<char> {
    if parent.len() > 0 && parent.last() == '/' {
        parent + name
    } else {
        parent.push('/') + name
    }
}

/// The guard's decision on `path`: a parent traversal is rejected whatever
/// the filesystem holds; an existing target is accepted, in its canonical
/// form, exactly when that form lies under the canonical root; a missing
/// target is accepted when its parent exists under the root, as that
/// parent joined with the path's last segment.
pub open spec fn guard_spec(
    root: Seq<char>,
    path: Seq<char>,
    target: Option<Seq<char>>,
    parent: Option<Seq<char>>,
) -> Result<Seq<char>, VaultError> {
    if has_parent_segment(path) {
        Err(VaultError::InvalidPath)
    } else {
        match target {
            Some(t) => if t.len() > 0 && root.len() > 0 && is_under(t, root) {
                Ok(t)
            } else {
                Err(VaultError::PathEscapesRoot)
            },
            None => match parent {
                Some(d) => if d.len() > 0 && root.len() > 0 && is_under(d, root) {
                    Ok(child_path(d, last_segment(path)))
                } else {
                    Err(VaultError::PathEscapesRoot)
                },
                None => Err(VaultError::ParentNotFound),
            },
        }
    }
}

fn join_child(parent: &str, name: &str) -> (r: String)
    ensures
        r@ == child_path(parent@, name@),
{
    let mut p = to_chars(parent);
    let mut n = to_chars(name);
    if !(p.len() > 0 && p[p.len() - 1] == '/') {
        p.push('/');
    }
    p.append(&mut n);
    from_chars(&p)
}

/// Decides whether `path` stays inside the vault, as [`guard_spec`] states.
pub fn guard_path(path: &str, probe: &PathProbe) -> (r: Result<String, VaultError>)
    ensures
        result_view(r) == guard_spec(
            probe.root@,
            path@,
            opt_chars(probe.target),
            opt_chars(probe.parent),
        ),
{
    if has_parent_traversal(path) {
        return Err(VaultError::InvalidPath);
    }
    match &probe.target {
        Some(t) => {
            if path_under_root(t.as_str(), probe.root.as_str()) {
                Ok(t.clone())
            } else {
                Err(VaultError::PathEscapesRoot)
            }
        },
        None => match &probe.parent {
            Some(d) => {
                if path_under_root(d.as_str(), probe.root.as_str()) {
                    let name = file_name(path);
                    Ok(join_child(d.as_str(), name.as_str()))
                } else {
                    Err(VaultError::PathEscapesRoot)
                }
            },
            None => Err(VaultError::ParentNotFound),
        },
    }
}

/// The decision on creating `path`: the guard's, and then `AlreadyExists`
/// where the target exists.
pub open spec fn create_spec(
    root: Seq<char>,
    path: Seq<char>,
    target: Option<Seq<char>>,
    parent: Option<Seq<char>>,
) -> Result<Seq<char>, VaultError> {
    match guard_spec(root, path, target, parent) {
        Ok(p) => if target is Some {
            Err(VaultError::AlreadyExists)
        } else {
            Ok(p)
        },
        Err(e) => Err(e),
    }
}

/// Decides whether `path` may be created, as [`create_spec`] states; on
/// success the path to create.
pub fn guard_create(path: &str, probe: &PathProbe) -> (r: Result<String, VaultError>)
    ensures
        result_view(r) == create_spec(
            probe.root@,
            path@,
            opt_chars(probe.target),
            opt_chars(probe.parent),
        ),
{
    match guard_path(path, probe) {
        Ok(p) => if probe.target.is_some() {
            Err(VaultError::AlreadyExists)
        } else {
            Ok(p)
        },
        Err(e) => Err(e),
    }
}

/// The decision on deleting `path`: the guard's, and then `NotAFile` where
/// the target is missing or is not a regular file.
pub open spec fn delete_spec(
    root: Seq<char>,
    path: Seq<char>,
    target: Option<Seq<char>>,
    target_is_file: bool,
    parent: Option<Seq<char>>,
) -> Result<Seq<char>, VaultError> {
    match guard_spec(root, path, target, parent) {
        Ok(p) => if target is Some && target_is_file {
            Ok(p)
        } else {
            Err(VaultError::NotAFile)
        },
        Err(e) => Err(e),
    }
}

/// Decides whether `path` may be deleted, as [`delete_spec`] states; on
/// success the canonical path of the file.
pub fn guard_delete(path: &str, probe: &PathProbe) -> (r: Result<String, VaultError>)
    ensures
        result_view(r) == delete_spec(
            probe.root@,
            path@,
            opt_chars(probe.target),
            probe.target_is_file,
            opt_chars(probe.parent),
        ),
{
    match guard_path(path, probe) {
        Ok(p) => if probe.target.is_some() && probe.target_is_file {
            Ok(p)
        } else {
            Err(VaultError::NotAFile)
        },
        Err(e) => Err(e),
    }
}

/// Checks a file name for the creation of a note in a folder: it must end
/// with `.md`, must not be absolute and must not hold a `..` segment.
pub open spec fn filename_ok(name: Seq<char>) -> bool {
    ends_with_md(name) && !(name.len() > 0 && name[0] == '/') && !has_parent_segment(name)
}

/// Accepts a file name for a new note, as [`filename_ok`] states, or
/// rejects it with `InvalidPath`.
pub fn check_new_filename(filename: &str) -> (r: Result<(), VaultError>)
    ensures
        r is Ok <==> filename_ok(filename@),
        r matches Err(e) ==> e == VaultError::InvalidPath,
{
    let name = to_chars(filename);
    if !ends_with_md_chars(&name) {
        return Err(VaultError::InvalidPath);
    }
    if name.len() > 0 && name[0] == '/' {
        return Err(VaultError::InvalidPath);
    }
    if has_parent_traversal(filename) {
        return Err(VaultError::InvalidPath);
    }
    Ok(())
}

/// A path with a `..` segment is rejected as `InvalidPath` by every guard,
/// whatever the filesystem holds.
pub proof fn lemma_traversal_rejected(
    root: Seq<char>,
    path: Seq<char>,
    target: Option<Seq<char>>,
    target_is_file: bool,
    parent: Option<Seq<char>>,
)
    requires
        has_parent_segment(path),
    ensures
        guard_spec(root, path, target, parent) == Err::<Seq<char>, VaultError>(VaultError::InvalidPath),
        create_spec(root, path, target, parent) == Err::<Seq<char>, VaultError>(VaultError::InvalidPath),
        delete_spec(root, path, target, target_is_file, parent) == Err::<Seq<char>, VaultError>(
            VaultError::InvalidPath,
        ),
{
}

/// For an existing target, the guard accepts exactly the paths whose
/// canonical form lies under the canonical root, and returns that form.
pub proof fn lemma_existing_accepted_iff_under_root(
    root: Seq<char>,
    path: Seq<char>,
    canonical: Seq<char>,
    parent: Option<Seq<char>>,
)
    requires
        !has_parent_segment(path),
    ensures
        guard_spec(root, path, Some(canonical), parent) is Ok <==> (canonical.len() > 0 && root.len()
            > 0 && is_under(canonical, root)),
        guard_spec(root, path, Some(canonical), parent) is Ok ==> guard_spec(
            root,
            path,
            Some(canonical),
            parent,
        ) == Ok::<Seq<char>, VaultError>(canonical),
{
}

proof fn lemma_prefix_transitive(a: Seq<char>, b: Seq<char>, c: Seq<char>)
    requires
        is_prefix(a, b),
        is_prefix(b, c),
    ensures
        is_prefix(a, c),
{
    assert(c.take(a.len() as int) =~= c.take(b.len() as int).take(a.len() as int));
}

/// A child of a directory under the root lies under the root too.
pub proof fn lemma_child_under_root(dir: Seq<char>, root: Seq<char>, name: Seq<char>)
    requires
        dir.len() > 0,
        root.len() > 0,
        is_under(dir, root),
    ensures
        child_path(dir, name).len() > 0,
        is_under(child_path(dir, name), root),
{
    let child = child_path(dir, name);
    assert(is_prefix(dir, child)) by {
        if dir.last() == '/' {
            assert(child.take(dir.len() as int) =~= dir);
        } else {
            assert(child.take(dir.len() as int) =~= dir);
        }
    }
    if dir == root {
        if root.last() != '/' {
            assert(child.take(root.len() + 1 as int) =~= root.push('/'));
        }
    } else if is_prefix(root.push('/'), dir) {
        lemma_prefix_transitive(root.push('/'), dir, child);
    } else {
        lemma_prefix_transitive(root, dir, child);
    }
}

/// A path that the create guard accepts, once created where it said, is
/// accepted by the read guard and by the delete guard, which resolve it to
/// the same canonical path.
pub proof fn lemma_created_then_accepted(
    root: Seq<char>,
    path: Seq<char>,
    parent: Seq<char>,
    created: Seq<char>,
)
    requires
        create_spec(root, path, None, Some(parent)) == Ok::<Seq<char>, VaultError>(created),
    ensures
        guard_spec(root, path, Some(created), Some(parent)) == Ok::<Seq<char>, VaultError>(created),
        delete_spec(root, path, Some(created), true, Some(parent)) == Ok::<Seq<char>, VaultError>(
            created,
        ),
{
    lemma_child_under_root(parent, root, last_segment(path));
}

} // verus!
