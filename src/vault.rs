//! The vault index: the root of the open vault and the sorted set of its
//! markdown files, relative to that root.
use vstd::prelude::*;
use crate::markdown::views;
use crate::path_guard::{
    guard_path, guard_spec, has_parent_segment, has_parent_traversal, is_markdown,
    is_markdown_file, is_prefix, opt_chars, result_view, PathProbe, VaultError,
};
use crate::text::{from_chars, to_chars};

verus! {

/// Lexicographic order of strings by code point, which is the order of
/// their UTF-8 bytes.
pub open spec fn seq_lt(a: Seq<char>, b: Seq<char>) -> bool
    decreases a.len(),
{
    if a.len() == 0 {
        b.len() > 0
    } else if b.len() == 0 {
        false
    } else if a[0] != b[0] {
        (a[0] as u32) < (b[0] as u32)
    } else {
        seq_lt(a.drop_first(), b.drop_first())
    }
}

/// Each element is smaller than every later one: sorted, no duplicates.
pub open spec fn strictly_sorted(s: Seq<Seq<char>>) -> bool {
    forall|i: int, j: int| 0 <= i < j < s.len() ==> seq_lt(#[trigger] s[i], #[trigger] s[j])
}

proof fn lemma_lt_irreflexive(a: Seq<char>)
    ensures
        !seq_lt(a, a),
    decreases a.len(),
{
    if a.len() > 0 {
        lemma_lt_irreflexive(a.drop_first());
    }
}

proof fn lemma_lt_total(a: Seq<char>, b: Seq<char>)
    ensures
        a == b || seq_lt(a, b) || seq_lt(b, a),
        !(seq_lt(a, b) && seq_lt(b, a)),
    decreases a.len(),
{
    if a.len() == 0 && b.len() == 0 {
        assert(a =~= b);
    } else if a.len() > 0 && b.len() > 0 && a[0] != b[0] {
        vstd::utf8::char_u32_cast(a[0], a[0] as u32);
        vstd::utf8::char_u32_cast(b[0], b[0] as u32);
    } else if a.len() > 0 && b.len() > 0 && a[0] == b[0] {
        lemma_lt_total(a.drop_first(), b.drop_first());
        if a.drop_first() == b.drop_first() {
            assert(a =~= seq![a[0]] + a.drop_first());
            assert(b =~= seq![b[0]] + b.drop_first());
        }
    }
}

proof fn lemma_lt_transitive(a: Seq<char>, b: Seq<char>, c: Seq<char>)
    requires
        seq_lt(a, b),
        seq_lt(b, c),
    ensures
        seq_lt(a, c),
    decreases a.len(),
{
    if a.len() > 0 && b.len() > 0 && c.len() > 0 && a[0] == b[0] && b[0] == c[0] {
        lemma_lt_transitive(a.drop_first(), b.drop_first(), c.drop_first());
    }
}

/// Whether `a` sorts before `b`.
pub fn str_less(a: &str, b: &str) -> (r: bool)
    ensures
        r == seq_lt(a@, b@),
{
    let x = to_chars(a);
    let y = to_chars(b);
    let mut i: usize = 0;
    assert(x@.skip(0) =~= x@);
    assert(y@.skip(0) =~= y@);
    while i < x.len() && i < y.len() && x[i] == y[i]
        invariant
            i <= x.len(),
            i <= y.len(),
            x@ == a@,
            y@ == b@,
            seq_lt(a@, b@) == seq_lt(x@.skip(i as int), y@.skip(i as int)),
        decreases x.len() - i,
    {
        assert(x@.skip(i as int).drop_first() =~= x@.skip(i + 1));
        assert(y@.skip(i as int).drop_first() =~= y@.skip(i + 1));
        i = i + 1;
    }
    if i == x.len() {
        i < y.len()
    } else if i == y.len() {
        false
    } else {
        (x[i] as u32) < (y[i] as u32)
    }
}

/// Inserts `s` into the strictly sorted `v` unless it is there already.
fn insert_sorted(v: &mut Vec<String>, s: String)
    requires
        strictly_sorted(views(old(v)@)),
    ensures
        strictly_sorted(views(final(v)@)),
        forall|x: Seq<char>| #[trigger]
            views(final(v)@).contains(x) <==> (x == s@ || views(old(v)@).contains(x)),
{
    let ghost old_v = views(v@);
    let mut p: usize = 0;
    while p < v.len() && str_less(v[p].as_str(), s.as_str())
        invariant
            p <= v.len(),
            old_v == views(v@),
            forall|i: int| 0 <= i < p ==> seq_lt(#[trigger] old_v[i], s@),
        decreases v.len() - p,
    {
        p = p + 1;
    }
    if p < v.len() && v[p] == s {
        assert(old_v[p as int] == s@);
        return;
    }
    proof {
        assert forall|j: int| p <= j < old_v.len() implies seq_lt(s@, #[trigger] old_v[j]) by {
            lemma_lt_total(old_v[p as int], s@);
            if j > p {
                lemma_lt_transitive(s@, old_v[p as int], old_v[j]);
            }
        }
        assert(!old_v.contains(s@)) by {
            if old_v.contains(s@) {
                let q = choose|q: int| 0 <= q < old_v.len() && old_v[q] == s@;
                lemma_lt_irreflexive(s@);
                if q >= p {
                    assert(seq_lt(s@, old_v[q]));
                }
            }
        }
    }
    v.insert(p, s);
    proof {
        let nv = views(v@);
        assert(nv =~= old_v.insert(p as int, s@));
        assert forall|i: int, j: int| 0 <= i < j < nv.len() implies seq_lt(
            #[trigger] nv[i],
            #[trigger] nv[j],
        ) by {
            if j < p {
            } else if j == p {
            } else if i < p {
                lemma_lt_transitive(nv[i], s@, nv[j]);
            } else if i == p {
            } else {
                assert(nv[i] == old_v[i - 1] && nv[j] == old_v[j - 1]);
            }
        }
        assert forall|x: Seq<char>| #[trigger] nv.contains(x) <==> (x == s@ || old_v.contains(x)) by {
            if nv.contains(x) {
                let q = choose|q: int| 0 <= q < nv.len() && nv[q] == x;
                if q > p {
                    assert(old_v[q - 1] == x);
                } else if q < p {
                    assert(old_v[q] == x);
                }
            }
            if old_v.contains(x) {
                let q = choose|q: int| 0 <= q < old_v.len() && old_v[q] == x;
                if q >= p {
                    assert(nv[q + 1] == x);
                } else {
                    assert(nv[q] == x);
                }
            }
            if x == s@ {
                assert(nv[p as int] == x);
            }
        }
    }
}

/// `s` without the elements equal to `x`, in order.
pub open spec fn without(s: Seq<Seq<char>>, x: Seq<char>) -> Seq<Seq<char>>
    decreases s.len(),
{
    if s.len() == 0 {
        s
    } else {
        let w = without(s.drop_last(), x);
        if s.last() == x {
            w
        } else {
            w.push(s.last())
        }
    }
}

proof fn lemma_without(s: Seq<Seq<char>>, x: Seq<char>)
    ensures
        forall|y: Seq<char>| #[trigger] without(s, x).contains(y) <==> (s.contains(y) && y != x),
        strictly_sorted(s) ==> strictly_sorted(without(s, x)),
    decreases s.len(),
{
    if s.len() > 0 {
        let t = s.drop_last();
        lemma_without(t, x);
        let w = without(t, x);
        assert forall|y: Seq<char>| #[trigger] without(s, x).contains(y) <==> (s.contains(y) && y
            != x) by {
            if s.contains(y) && y != x {
                let q = choose|q: int| 0 <= q < s.len() && s[q] == y;
                if q < t.len() {
                    assert(t[q] == y);
                    assert(w.contains(y));
                    let k = choose|k: int| 0 <= k < w.len() && w[k] == y;
                    assert(without(s, x)[k] == y);
                } else {
                    assert(without(s, x) == w.push(y));
                    assert(without(s, x)[w.len() as int] == y);
                }
            }
            if without(s, x).contains(y) {
                let k = choose|k: int| 0 <= k < without(s, x).len() && without(s, x)[k] == y;
                if k < w.len() {
                    assert(w[k] == y);
                    assert(w.contains(y));
                    let q = choose|q: int| 0 <= q < t.len() && t[q] == y;
                    assert(s[q] == y);
                } else {
                    assert(s[s.len() - 1] == y);
                }
            }
        }
        if strictly_sorted(s) {
            assert(strictly_sorted(t)) by {
                assert forall|i: int, j: int| 0 <= i < j < t.len() implies seq_lt(
                    #[trigger] t[i],
                    #[trigger] t[j],
                ) by {
                    assert(s[i] == t[i] && s[j] == t[j]);
                }
            }
            if s.last() != x {
                let n = without(s, x);
                assert forall|i: int, j: int| 0 <= i < j < n.len() implies seq_lt(
                    #[trigger] n[i],
                    #[trigger] n[j],
                ) by {
                    if j == n.len() - 1 {
                        assert(w.contains(n[i]));
                        let q = choose|q: int| 0 <= q < t.len() && t[q] == n[i];
                        assert(s[q] == n[i]);
                    } else {
                        assert(n[i] == w[i] && n[j] == w[j]);
                    }
                }
            }
        }
    }
}

/// The state of the open vault: its canonical root, if a vault is open,
/// and its markdown files relative to that root, strictly sorted.
#[derive(Debug)]
pub struct VaultState {
    root_path: Option<String>,
    file_paths: Vec<String>,
}

impl VaultState {
    #[verifier::type_invariant]
    spec fn sorted(&self) -> bool {
        strictly_sorted(views(self.file_paths@))
    }

    /// The root of the open vault, if any.
    pub closed spec fn root_view(&self) -> Option<Seq<char>> {
        match self.root_path {
            Some(r) => Some(r@),
            None => None,
        }
    }

    /// The files of the index, in order.
    pub closed spec fn files_view(&self) -> Seq<Seq<char>> {
        views(self.file_paths@)
    }

    /// The state before any vault is opened.
    pub fn new() -> (r: VaultState)
        ensures
            r.root_view() is None,
            r.files_view() == Seq::<Seq<char>>::empty(),
    {
        let r = VaultState { root_path: None, file_paths: Vec::new() };
        assert(views(r.file_paths@) =~= Seq::<Seq<char>>::empty());
        r
    }

    /// Replaces the state with a freshly opened vault: its root and the
    /// files that `result` lists, sorted.
    pub fn open(&mut self, result: &OpenVaultResult)
        ensures
            final(self).root_view() == Some(result.root_path@),
            strictly_sorted(final(self).files_view()),
            forall|x: Seq<char>| #[trigger]
                final(self).files_view().contains(x) <==> views(result.file_paths@).contains(x),
    {
        let mut files: Vec<String> = Vec::new();
        let mut i: usize = 0;
        assert(views(files@) =~= Seq::<Seq<char>>::empty());
        while i < result.file_paths.len()
            invariant
                i <= result.file_paths.len(),
                strictly_sorted(views(files@)),
                forall|x: Seq<char>| #[trigger]
                    views(files@).contains(x) <==> views(result.file_paths@).take(i as int).contains(x),
            decreases result.file_paths.len() - i,
        {
            insert_sorted(&mut files, result.file_paths[i].clone());
            proof {
                let all = views(result.file_paths@);
                let t = all.take(i + 1);
                let u = all.take(i as int);
                assert(t =~= u.push(all[i as int]));
                assert forall|x: Seq<char>| #[trigger] views(files@).contains(x) <==> t.contains(x) by {
                    if t.contains(x) {
                        let q = choose|q: int| 0 <= q < t.len() && t[q] == x;
                        if q < i {
                            assert(u[q] == x);
                        }
                    }
                    if u.contains(x) {
                        let q = choose|q: int| 0 <= q < u.len() && u[q] == x;
                        assert(t[q] == x);
                    }
                    if x == all[i as int] {
                        assert(t[i as int] == x);
                    }
                }
            }
            i = i + 1;
        }
        assert(views(result.file_paths@).take(result.file_paths.len() as int) =~= views(
            result.file_paths@,
        ));
        *self = VaultState { root_path: Some(result.root_path.clone()), file_paths: files };
    }

    /// Records a file created at `path`: inserted unless present, the
    /// index staying sorted.
    pub fn record_created(&mut self, path: &str)
        ensures
            final(self).root_view() == old(self).root_view(),
            strictly_sorted(final(self).files_view()),
            forall|x: Seq<char>| #[trigger]
                final(self).files_view().contains(x) <==> (x == path@ || old(self).files_view().contains(
                    x,
                )),
    {
        proof {
            use_type_invariant(&*self);
        }
        let mut files: Vec<String> = Vec::new();
        std::mem::swap(&mut files, &mut self.file_paths);
        insert_sorted(&mut files, from_chars(&to_chars(path)));
        self.file_paths = files;
    }

    /// Records that the file at `path` was deleted: every entry equal to it
    /// leaves the index, the others keep their order.
    pub fn record_deleted(&mut self, path: &str)
        ensures
            final(self).root_view() == old(self).root_view(),
            strictly_sorted(final(self).files_view()),
            final(self).files_view() == without(old(self).files_view(), path@),
    {
        proof {
            use_type_invariant(&*self);
        }
        let ghost old_files = views(self.file_paths@);
        let target = from_chars(&to_chars(path));
        let mut kept: Vec<String> = Vec::new();
        let mut i: usize = 0;
        assert(old_files.take(0) =~= Seq::<Seq<char>>::empty());
        while i < self.file_paths.len()
            invariant
                i <= self.file_paths.len(),
                old_files == views(self.file_paths@),
                target@ == path@,
                views(kept@) == without(old_files.take(i as int), path@),
            decreases self.file_paths.len() - i,
        {
            assert(old_files.take(i + 1).drop_last() =~= old_files.take(i as int));
            assert(old_files.take(i + 1).last() == self.file_paths@[i as int]@);
            if !(self.file_paths[i] == target) {
                let entry = self.file_paths[i].clone();
                let ghost before = views(kept@);
                kept.push(entry);
                assert(views(kept@) =~= before.push(old_files[i as int]));
            }
            i = i + 1;
        }
        assert(old_files.take(old_files.len() as int) =~= old_files);
        proof {
            lemma_without(old_files, path@);
        }
        self.file_paths = kept;
    }

    /// The files of the index, in order.
    pub fn file_paths(&self) -> (r: Vec<String>)
        ensures
            views(r@) == self.files_view(),
            strictly_sorted(views(r@)),
    {
        proof {
            use_type_invariant(self);
        }
        let mut r: Vec<String> = Vec::new();
        let mut i: usize = 0;
        while i < self.file_paths.len()
            invariant
                i <= self.file_paths.len(),
                views(r@) == views(self.file_paths@).take(i as int),
            decreases self.file_paths.len() - i,
        {
            let ghost before = views(r@);
            r.push(self.file_paths[i].clone());
            assert(views(r@) =~= before.push(self.file_paths@[i as int]@));
            assert(views(self.file_paths@).take(i + 1) =~= views(self.file_paths@).take(
                i as int,
            ).push(self.file_paths@[i as int]@));
            i = i + 1;
        }
        assert(views(self.file_paths@).take(i as int) =~= views(self.file_paths@));
        r
    }

    /// The root of the open vault, if any.
    pub fn root_path(&self) -> (r: Option<String>)
        ensures
            match r {
                Some(s) => Some(s@),
                None => None::<Seq<char>>,
            } == self.root_view(),
    {
        match &self.root_path {
            Some(s) => Some(s.clone()),
            None => None,
        }
    }
}

/// The root of the open vault, or `NoVaultOpen`.
pub fn vault_root(state: &VaultState) -> (r: Result<String, VaultError>)
    ensures
        match r {
            Ok(s) => state.root_view() == Some(s@),
            Err(e) => state.root_view() is None && e == VaultError::NoVaultOpen,
        },
{
    match state.root_path() {
        Some(s) => Ok(s),
        None => Err(VaultError::NoVaultOpen),
    }
}

/// The decision on a path of the open vault: a parent traversal first,
/// then `NoVaultOpen` when no vault is open, then the guard.
pub open spec fn resolve_spec(
    root: Option<Seq<char>>,
    path: Seq<char>,
    probe_root: Seq<char>,
    target: Option<Seq<char>>,
    parent: Option<Seq<char>>,
) -> Result<Seq<char>, VaultError> {
    if has_parent_segment(path) {
        Err(VaultError::InvalidPath)
    } else if root is None {
        Err(VaultError::NoVaultOpen)
    } else {
        guard_spec(probe_root, path, target, parent)
    }
}

/// Resolves `path` inside the open vault, as [`resolve_spec`] states: the
/// canonical target, or where it does not exist yet its canonical parent
/// joined with its last segment.
pub fn resolve_under_vault(state: &VaultState, path: &str, probe: &PathProbe) -> (r: Result<
    String,
    VaultError,
>)
    ensures
        result_view(r) == resolve_spec(
            state.root_view(),
            path@,
            probe.root@,
            opt_chars(probe.target),
            opt_chars(probe.parent),
        ),
{
    if has_parent_traversal(path) {
        return Err(VaultError::InvalidPath);
    }
    match vault_root(state) {
        Err(e) => Err(e),
        Ok(_) => guard_path(path, probe),
    }
}

/// A snapshot of the index: the files of the open vault, in order.
pub fn list_files(state: &VaultState) -> (r: Vec<String>)
    ensures
        views(r@) == state.files_view(),
        strictly_sorted(views(r@)),
{
    state.file_paths()
}

/// The opened vault: its canonical root and its markdown files relative to
/// it.
#[derive(Debug, Clone, PartialEq, Eq)]
pub struct OpenVaultResult {
    pub root_path: String,
    pub file_paths: Vec<String>,
}

/// `p` relative to `root` when it lies below it, else `p` itself.
pub open spec fn relative_to(p: Seq<char>, root: Seq<char>) -> Seq<char> {
    if is_prefix(root.push('/'), p) {
        p.skip(root.len() + 1 as int)
    } else if root.len() > 0 && root.last() == '/' && is_prefix(root, p) {
        p.skip(root.len() as int)
    } else if p == root {
        Seq::empty()
    } else {
        p
    }
}

fn skip_chars(v: &Vec<char>, k: usize) -> (r: String)
    requires
        k <= v.len(),
    ensures
        r@ == v@.skip(k as int),
{
    let mut out: Vec<char> = Vec::new();
    let mut i: usize = k;
    while i < v.len()
        invariant
            k <= i <= v.len(),
            out@ == v@.subrange(k as int, i as int),
        decreases v.len() - i,
    {
        out.push(v[i]);
        i = i + 1;
    }
    from_chars(&out)
}

fn prefix_of(pre: &Vec<char>, s: &Vec<char>) -> (r: bool)
    ensures
        r == is_prefix(pre@, s@),
{
    if pre.len() > s.len() {
        return false;
    }
    let mut i: usize = 0;
    while i < pre.len()
        invariant
            pre.len() <= s.len(),
            i <= pre.len(),
            forall|j: int| 0 <= j < i ==> s@[j] == pre@[j],
        decreases pre.len() - i,
    {
        if s[i] != pre[i] {
            assert(s@.take(pre.len() as int)[i as int] != pre@[i as int]);
            return false;
        }
        i = i + 1;
    }
    assert(s@.take(pre.len() as int) =~= pre@);
    true
}

/// `path` relative to `root`, as [`relative_to`] states.
pub fn relative_path(path: &str, root: &str) -> (r: String)
    ensures
        r@ == relative_to(path@, root@),
{
    let p = to_chars(path);
    let q = to_chars(root);
    let mut with_sep = q.clone();
    assert(with_sep@ == q@);
    with_sep.push('/');
    if prefix_of(&with_sep, &p) {
        assert(with_sep.len() == q.len() + 1);
        return skip_chars(&p, q.len() + 1);
    }
    if q.len() > 0 && q[q.len() - 1] == '/' && prefix_of(&q, &p) {
        return skip_chars(&p, q.len());
    }
    if p.len() == q.len() && prefix_of(&q, &p) {
        assert(p@ =~= p@.take(q.len() as int));
        return from_chars(&Vec::new());
    }
    proof {
        if p@ == q@ {
            assert(p@.take(q.len() as int) =~= p@);
        }
    }
    from_chars(&p)
}

/// Whether `x` is the path, relative to `root`, of a markdown file among
/// the files that a walk of the vault found.
pub open spec fn indexed(found: Seq<String>, root: Seq<char>, x: Seq<char>) -> bool {
    exists|i: int| 0 <= i < found.len() && is_markdown(found[i]@) && relative_to(found[i]@, root) == x
}

/// Builds the index of a vault from the files that a walk of it found:
/// those whose extension is `md`, relative to the root, sorted.
pub fn index_vault(root_path: &str, found: &Vec<String>) -> (r: OpenVaultResult)
    ensures
        r.root_path@ == root_path@,
        strictly_sorted(views(r.file_paths@)),
        forall|x: Seq<char>| #[trigger]
            views(r.file_paths@).contains(x) <==> indexed(found@, root_path@, x),
{
    let mut files: Vec<String> = Vec::new();
    let mut i: usize = 0;
    assert(views(files@) =~= Seq::<Seq<char>>::empty());
    while i < found.len()
        invariant
            i <= found.len(),
            strictly_sorted(views(files@)),
            forall|x: Seq<char>| #[trigger]
                views(files@).contains(x) <==> indexed(found@.take(i as int), root_path@, x),
        decreases found.len() - i,
    {
        assert(found@.take(i + 1).drop_last() =~= found@.take(i as int));
        if is_markdown_file(found[i].as_str()) {
            let rel = relative_path(found[i].as_str(), root_path);
            insert_sorted(&mut files, rel);
            proof {
                assert forall|x: Seq<char>| #[trigger] views(files@).contains(x) <==> indexed(
                    found@.take(i + 1),
                    root_path@,
                    x,
                ) by {
                    let t = found@.take(i + 1);
                    if indexed(t, root_path@, x) {
                        let q = choose|q: int|
                            0 <= q < t.len() && is_markdown(t[q]@) && relative_to(t[q]@, root_path@)
                                == x;
                        if q < i {
                            assert(found@.take(i as int)[q] == t[q]);
                        }
                    }
                    if indexed(found@.take(i as int), root_path@, x) {
                        let q = choose|q: int|
                            0 <= q < i && is_markdown(found@.take(i as int)[q]@) && relative_to(
                                found@.take(i as int)[q]@,
                                root_path@,
                            ) == x;
                        assert(t[q] == found@.take(i as int)[q]);
                    }
                    if x == rel@ {
                        assert(t[i as int] == found@[i as int]);
                    }
                }
            }
        } else {
            proof {
                assert forall|x: Seq<char>| #[trigger] views(files@).contains(x) <==> indexed(
                    found@.take(i + 1),
                    root_path@,
                    x,
                ) by {
                    let t = found@.take(i + 1);
                    if indexed(t, root_path@, x) {
                        let q = choose|q: int|
                            0 <= q < t.len() && is_markdown(t[q]@) && relative_to(t[q]@, root_path@)
                                == x;
                        assert(q != i);
                        assert(found@.take(i as int)[q] == t[q]);
                    }
                    if indexed(found@.take(i as int), root_path@, x) {
                        let q = choose|q: int|
                            0 <= q < i && is_markdown(found@.take(i as int)[q]@) && relative_to(
                                found@.take(i as int)[q]@,
                                root_path@,
                            ) == x;
                        assert(t[q] == found@.take(i as int)[q]);
                    }
                }
            }
        }
        i = i + 1;
    }
    assert(found@.take(found.len() as int) =~= found@);
    OpenVaultResult { root_path: from_chars(&to_chars(root_path)), file_paths: files }
}

/// Deleting a file that was created removes it from the index: after
/// `record_created(p)` then `record_deleted(p)`, the index lists every file
/// it listed before but `p`, and not `p`.
pub proof fn lemma_created_then_deleted(
    before: Seq<Seq<char>>,
    created: Seq<Seq<char>>,
    deleted: Seq<Seq<char>>,
    p: Seq<char>,
)
    requires
        forall|x: Seq<char>| #[trigger] created.contains(x) <==> (x == p || before.contains(x)),
        deleted == without(created, p),
    ensures
        !deleted.contains(p),
        forall|x: Seq<char>| x != p ==> (#[trigger] deleted.contains(x) <==> before.contains(x)),
{
    lemma_without(created, p);
}

} // verus!
