//! Tag queries over the forests of many files, with an optional scope node
//! and a breadcrumb of ancestor texts for each match.
use vstd::prelude::*;
use crate::markdown::{
    forest_view, forest_wf, opt_nat, parse_list_items, parse_spec, views, NodeModel, TreeNode,
};
use crate::text::{from_chars, to_chars, trim, trim_chars};

verus! {

/// Separator between the ancestor texts of a breadcrumb: `" > "`.
pub open spec fn crumb_separator() -> Seq<char> {
    seq![' ', '>', ' ']
}

/// Every node sits at the index of its id, and its parent precedes it.
pub open spec fn parents_precede(nodes: Seq<NodeModel>) -> bool {
    forall|i: int|
        0 <= i < nodes.len() ==> (#[trigger] nodes[i]).id == i && match nodes[i].parent_id {
            Some(p) => p < i,
            None => true,
        }
}

/// The ids from the root of node `p` down to `p` itself.
pub open spec fn path_to(nodes: Seq<NodeModel>, p: nat) -> Seq<nat>
    decreases p,
{
    if p >= nodes.len() {
        Seq::empty()
    } else {
        match nodes[p as int].parent_id {
            Some(q) => if q < p {
                path_to(nodes, q).push(p)
            } else {
                seq![p]
            },
            None => seq![p],
        }
    }
}

/// The ids of the strict ancestors of `n`, root first.
pub open spec fn ancestors(nodes: Seq<NodeModel>, n: NodeModel) -> Seq<nat> {
    match n.parent_id {
        Some(p) => path_to(nodes, p),
        None => Seq::empty(),
    }
}

/// Whether node `id` lies strictly below node `anc`.
pub open spec fn descends_from(nodes: Seq<NodeModel>, id: nat, anc: nat) -> bool {
    id < nodes.len() && ancestors(nodes, nodes[id as int]).contains(anc)
}

/// `parts` joined with `sep` between each two.
pub open spec fn join(parts: Seq<Seq<char>>, sep: Seq<char>) -> Seq<char>
    decreases parts.len(),
{
    if parts.len() == 0 {
        Seq::empty()
    } else if parts.len() == 1 {
        parts[0]
    } else {
        join(parts.drop_last(), sep) + sep + parts.last()
    }
}

/// The trimmed texts of the nodes `ids`.
pub open spec fn texts_of(nodes: Seq<NodeModel>, ids: Seq<nat>) -> Seq<Seq<char>> {
    ids.map_values(|i: nat| trim(nodes[i as int].text))
}

/// The breadcrumb of `n`: its ancestors' trimmed texts, root first, or none
/// for a node without ancestors.
pub open spec fn breadcrumb(nodes: Seq<NodeModel>, n: NodeModel) -> Option<Seq<char>> {
    let a = ancestors(nodes, n);
    if a.len() == 0 {
        None
    } else {
        Some(join(texts_of(nodes, a), crumb_separator()))
    }
}

proof fn lemma_path_to_bounded(nodes: Seq<NodeModel>, p: nat)
    ensures
        forall|k: int| 0 <= k < path_to(nodes, p).len() ==> #[trigger] path_to(nodes, p)[k] < nodes.len(),
    decreases p,
{
    if p < nodes.len() {
        match nodes[p as int].parent_id {
            Some(q) => if q < p {
                lemma_path_to_bounded(nodes, q);
                let pre = path_to(nodes, q);
                assert forall|k: int| 0 <= k < path_to(nodes, p).len() implies #[trigger] path_to(
                    nodes,
                    p,
                )[k] < nodes.len() by {
                    if k < pre.len() {
                        assert(path_to(nodes, p)[k] == pre[k]);
                    }
                }
            } else {
                assert(path_to(nodes, p) =~= seq![p]);
            },
            None => {
                assert(path_to(nodes, p) =~= seq![p]);
            },
        }
    }
}

/// Whether node `node_id` lies strictly below node `ancestor_id`.
pub fn is_descendant(nodes: &Vec<TreeNode>, node_id: usize, ancestor_id: usize) -> (r: bool)
    requires
        parents_precede(forest_view(nodes@)),
    ensures
        r == descends_from(forest_view(nodes@), node_id as nat, ancestor_id as nat),
{
    let ghost fv = forest_view(nodes@);
    if node_id >= nodes.len() {
        return false;
    }
    let mut current: Option<usize> = nodes[node_id].parent_id;
    assert(fv[node_id as int].parent_id == opt_nat(current));
    let ghost target = ancestors(fv, fv[node_id as int]);
    let ghost mut above: Seq<nat> = Seq::empty();
    assert(target == above + match current {
        Some(c) => path_to(fv, c as nat),
        None => Seq::<nat>::empty(),
    });
    while current.is_some()
        invariant
            parents_precede(fv),
            fv == forest_view(nodes@),
            node_id < nodes.len(),
            target == ancestors(fv, fv[node_id as int]),
            target == (match current {
                Some(c) => path_to(fv, c as nat),
                None => Seq::<nat>::empty(),
            }) + above,
            !above.contains(ancestor_id as nat),
            current matches Some(c) ==> c < nodes.len(),
        decreases match current {
            Some(c) => c as int + 1,
            None => 0,
        },
    {
        let pid = current.unwrap();
        if pid == ancestor_id {
            proof {
                if pid < fv.len() {
                    let pre = match fv[pid as int].parent_id {
                        Some(q) => if q < pid {
                            path_to(fv, q)
                        } else {
                            Seq::<nat>::empty()
                        },
                        None => Seq::<nat>::empty(),
                    };
                    assert(path_to(fv, pid as nat) =~= pre.push(pid as nat));
                    assert(target[pre.len() as int] == pid);
                    assert(target.contains(ancestor_id as nat));
                } else {
                    assert(false);
                }
            }
            return true;
        }
        if pid >= nodes.len() {
            proof {
                assert(target == above);
            }
            return false;
        }
        let next = nodes[pid].parent_id;
        proof {
            let pre = match next {
                Some(q) => path_to(fv, q as nat),
                None => Seq::<nat>::empty(),
            };
            assert(fv[pid as int].parent_id == opt_nat(next));
            assert(path_to(fv, pid as nat) =~= pre.push(pid as nat));
            assert(target =~= pre + seq![pid as nat].add(above));
            above = seq![pid as nat].add(above);
            assert(!above.contains(ancestor_id as nat)) by {
                if above.contains(ancestor_id as nat) {
                    let w = choose|w: int| 0 <= w < above.len() && above[w] == ancestor_id as nat;
                    if w > 0 {
                        assert(above.drop_first()[w - 1] == ancestor_id as nat);
                        assert(above.drop_first() =~= seq![pid as nat].add(above).drop_first());
                    }
                }
            }
        }
        current = next;
    }
    proof {
        assert(target =~= above);
    }
    false
}


/// The ids from the root down to the node `cur` names, if any.
pub open spec fn path_from(nodes: Seq<NodeModel>, cur: Option<usize>) -> Seq<nat> {
    match cur {
        Some(c) => path_to(nodes, c as nat),
        None => Seq::empty(),
    }
}

pub open spec fn ids_view(ids: Seq<usize>) -> Seq<nat> {
    ids.map_values(|x: usize| x as nat)
}

pub open spec fn opt_view(o: Option<String>) -> Option<Seq<char>> {
    match o {
        Some(s) => Some(s@),
        None => None,
    }
}

proof fn lemma_join_step(parts: Seq<Seq<char>>, sep: Seq<char>, k: int)
    requires
        0 <= k < parts.len(),
    ensures
        join(parts.take(k + 1), sep) == if k == 0 {
            parts[0]
        } else {
            join(parts.take(k), sep) + sep + parts[k]
        },
{
    assert(parts.take(k + 1).drop_last() =~= parts.take(k));
}

/// The breadcrumb of `node` within `nodes`: the trimmed texts of its
/// ancestors, root first, joined with `" > "`; none for a node without
/// ancestors.
pub fn parent_path(nodes: &Vec<TreeNode>, node: &TreeNode) -> (r: Option<String>)
    requires
        parents_precede(forest_view(nodes@)),
    ensures
        opt_view(r) == breadcrumb(forest_view(nodes@), node@),
{
    let ghost fv = forest_view(nodes@);
    let ghost target = ancestors(fv, node@);
    let mut ids: Vec<usize> = Vec::new();
    let mut current = node.parent_id;
    assert(target =~= path_from(fv, current) + ids_view(ids@));
    while current.is_some()
        invariant
            parents_precede(fv),
            fv == forest_view(nodes@),
            target == path_from(fv, current) + ids_view(ids@),
            forall|k: int| 0 <= k < ids.len() ==> #[trigger] ids@[k] < nodes.len(),
        decreases match current {
            Some(c) => c as int + 1,
            None => 0,
        },
    {
        let pid = current.unwrap();
        if pid >= nodes.len() {
            current = None;
            assert(target =~= path_from(fv, current) + ids_view(ids@));
        } else {
            let ghost before = ids@;
            ids.insert(0, pid);
            current = nodes[pid].parent_id;
            proof {
                assert(fv[pid as int].parent_id == opt_nat(current));
                assert(path_to(fv, pid as nat) =~= path_from(fv, current).push(pid as nat));
                assert(ids_view(ids@) =~= seq![pid as nat] + ids_view(before));
                assert(target =~= path_from(fv, current) + ids_view(ids@));
                assert forall|k: int| 0 <= k < ids.len() implies #[trigger] ids@[k] < nodes.len() by {
                    if k > 0 {
                        assert(ids@[k] == before[k - 1]);
                    }
                }
            }
        }
    }
    assert(target =~= ids_view(ids@));
    let ghost parts = texts_of(fv, target);
    let mut acc: Vec<char> = Vec::new();
    let mut k: usize = 0;
    assert(parts.take(0) =~= Seq::<Seq<char>>::empty());
    while k < ids.len()
        invariant
            k <= ids.len(),
            fv == forest_view(nodes@),
            parts == texts_of(fv, ids_view(ids@)),
            forall|j: int| 0 <= j < ids.len() ==> #[trigger] ids@[j] < nodes.len(),
            acc@ == join(parts.take(k as int), crumb_separator()),
        decreases ids.len() - k,
    {
        proof {
            lemma_join_step(parts, crumb_separator(), k as int);
        }
        if k > 0 {
            acc.push(' ');
            acc.push('>');
            acc.push(' ');
        }
        let id = ids[k];
        let mut t = trim_chars(&to_chars(nodes[id].text.as_str()));
        assert(t@ == parts[k as int]);
        acc.append(&mut t);
        assert(acc@ =~= join(parts.take(k + 1), crumb_separator()));
        k = k + 1;
    }
    assert(parts.take(ids.len() as int) =~= parts);
    if ids.len() == 0 {
        None
    } else {
        Some(from_chars(&acc))
    }
}

/// One match of a tag query: the file, the breadcrumb and the node.
#[derive(Debug, Clone, PartialEq, Eq)]
pub struct QueryResultItem {
    pub file_path: String,
    pub parent_path: Option<String>,
    pub node: TreeNode,
}

/// The value of a [`QueryResultItem`].
pub struct MatchModel {
    pub file_path: Seq<char>,
    pub parent_path: Option<Seq<char>>,
    pub node: NodeModel,
}

impl View for QueryResultItem {
    type V = MatchModel;

    open spec fn view(&self) -> MatchModel {
        MatchModel {
            file_path: self.file_path@,
            parent_path: opt_view(self.parent_path),
            node: self.node@,
        }
    }
}

pub open spec fn matches_view(v: Seq<QueryResultItem>) -> Seq<MatchModel> {
    v.map_values(|m: QueryResultItem| m@)
}

/// A file of the vault as read for a scan: its path relative to the vault
/// root, and its text, or none where it could not be read.
#[derive(Debug, Clone, PartialEq, Eq)]
pub struct LoadedFile {
    pub path: String,
    pub content: Option<String>,
}

/// Whether one of the node's tags is among `tags`.
pub open spec fn has_tag(n: NodeModel, tags: Seq<Seq<char>>) -> bool {
    exists|i: int| 0 <= i < n.tags.len() && tags.contains(#[trigger] n.tags[i])
}

/// Whether the node is the scope node or lies below it; every node is in
/// scope when there is none.
pub open spec fn in_scope(nodes: Seq<NodeModel>, n: NodeModel, scope: Option<nat>) -> bool {
    match scope {
        None => true,
        Some(s) => n.id == s || descends_from(nodes, n.id, s),
    }
}

/// The matches among the first `k` nodes of one file's forest, in order.
pub open spec fn forest_matches(
    path: Seq<char>,
    nodes: Seq<NodeModel>,
    tags: Seq<Seq<char>>,
    scope: Option<nat>,
    k: nat,
) -> Seq<MatchModel>
    decreases k,
{
    if k == 0 || k > nodes.len() {
        Seq::empty()
    } else {
        let prev = forest_matches(path, nodes, tags, scope, (k - 1) as nat);
        let n = nodes[k - 1];
        if has_tag(n, tags) && in_scope(nodes, n, scope) {
            prev.push(MatchModel { file_path: path, parent_path: breadcrumb(nodes, n), node: n })
        } else {
            prev
        }
    }
}

/// The matches of a tag query over the first `k` files, in file order and
/// node order within each file; unreadable files contribute nothing.
pub open spec fn query_spec(
    files: Seq<LoadedFile>,
    tags: Seq<Seq<char>>,
    scope: Option<nat>,
    k: nat,
) -> Seq<MatchModel>
    decreases k,
{
    if k == 0 || k > files.len() {
        Seq::empty()
    } else {
        let prev = query_spec(files, tags, scope, (k - 1) as nat);
        let f = files[k - 1];
        match f.content {
            Some(c) => {
                let nodes = parse_spec(c@);
                prev + forest_matches(f.path@, nodes, tags, scope, nodes.len())
            },
            None => prev,
        }
    }
}

fn copy_strings(v: &Vec<String>) -> (r: Vec<String>)
    ensures
        views(r@) == views(v@),
{
    let mut r: Vec<String> = Vec::new();
    let mut i: usize = 0;
    while i < v.len()
        invariant
            i <= v.len(),
            views(r@) == views(v@.take(i as int)),
        decreases v.len() - i,
    {
        r.push(v[i].clone());
        assert(views(v@.take(i + 1)) =~= views(v@.take(i as int)).push(v@[i as int]@));
        assert(views(r@) =~= views(v@.take(i + 1)));
        i = i + 1;
    }
    assert(v@.take(v.len() as int) =~= v@);
    r
}

fn copy_ids(v: &Vec<usize>) -> (r: Vec<usize>)
    ensures
        r@ == v@,
{
    let mut r: Vec<usize> = Vec::new();
    let mut i: usize = 0;
    while i < v.len()
        invariant
            i <= v.len(),
            r@ == v@.take(i as int),
        decreases v.len() - i,
    {
        r.push(v[i]);
        assert(r@ =~= v@.take(i + 1));
        i = i + 1;
    }
    assert(v@.take(v.len() as int) =~= v@);
    r
}

impl TreeNode {
    /// A copy of the node with the same value.
    pub fn copy(&self) -> (r: TreeNode)
        ensures
            r@ == self@,
    {
        let r = TreeNode {
            id: self.id,
            depth: self.depth,
            text: self.text.clone(),
            tags: copy_strings(&self.tags),
            parent_id: self.parent_id,
            children_ids: copy_ids(&self.children_ids),
        };
        assert(r@.children_ids =~= self@.children_ids);
        r
    }
}

/// Whether one of the node's tags is among `tags`.
pub fn node_has_tag(node: &TreeNode, tags: &Vec<String>) -> (r: bool)
    ensures
        r == has_tag(node@, views(tags@)),
{
    let mut i: usize = 0;
    while i < node.tags.len()
        invariant
            i <= node.tags.len(),
            forall|a: int| 0 <= a < i ==> !views(tags@).contains(#[trigger] node@.tags[a]),
        decreases node.tags.len() - i,
    {
        let mut j: usize = 0;
        while j < tags.len()
            invariant
                i < node.tags.len(),
                j <= tags.len(),
                forall|b: int| 0 <= b < j ==> #[trigger] views(tags@)[b] != node@.tags[i as int],
            decreases tags.len() - j,
        {
            if node.tags[i] == tags[j] {
                assert(views(tags@)[j as int] == node@.tags[i as int]);
                return true;
            }
            j = j + 1;
        }
        i = i + 1;
    }
    false
}

/// The matches of a tag query within one file's forest: the nodes that
/// carry one of `tags` and are the scope node or lie below it, in node
/// order, each with its breadcrumb.
pub fn query_nodes(
    file_path: &str,
    nodes: &Vec<TreeNode>,
    tags: &Vec<String>,
    scope: Option<usize>,
) -> (r: Vec<QueryResultItem>)
    requires
        forest_wf(forest_view(nodes@)),
    ensures
        matches_view(r@) == forest_matches(
            file_path@,
            forest_view(nodes@),
            views(tags@),
            opt_nat(scope),
            nodes.len() as nat,
        ),
{
    let ghost fv = forest_view(nodes@);
    assert(parents_precede(fv)) by {
        assert forall|i: int| 0 <= i < fv.len() implies (#[trigger] fv[i]).id == i && match fv[i].parent_id {
            Some(p) => p < i,
            None => true,
        } by {
            assert(crate::markdown::node_wf(fv, i));
        }
    }
    let mut r: Vec<QueryResultItem> = Vec::new();
    let mut k: usize = 0;
    while k < nodes.len()
        invariant
            k <= nodes.len(),
            fv == forest_view(nodes@),
            forest_wf(fv),
            parents_precede(fv),
            matches_view(r@) == forest_matches(file_path@, fv, views(tags@), opt_nat(scope), k as nat),
        decreases nodes.len() - k,
    {
        let node = &nodes[k];
        assert(crate::markdown::node_wf(fv, k as int));
        let selected = node_has_tag(node, tags) && match scope {
            None => true,
            Some(sid) => node.id == sid || is_descendant(nodes, node.id, sid),
        };
        if selected {
            let crumb = parent_path(nodes, node);
            let item = QueryResultItem {
                file_path: crate::text::from_chars(&to_chars(file_path)),
                parent_path: crumb,
                node: node.copy(),
            };
            r.push(item);
            assert(matches_view(r@) =~= matches_view(r@.drop_last()).push(item@));
        }
        k = k + 1;
    }
    r
}

/// Runs a tag query over files already read: for each readable file in
/// order, the matches of its forest (see [`query_nodes`]).
pub fn query_by_tag(
    tag_names: &Vec<String>,
    scope: Option<usize>,
    files: &Vec<LoadedFile>,
) -> (r: Vec<QueryResultItem>)
    ensures
        matches_view(r@) == query_spec(files@, views(tag_names@), opt_nat(scope), files.len() as nat),
{
    let mut r: Vec<QueryResultItem> = Vec::new();
    let mut k: usize = 0;
    while k < files.len()
        invariant
            k <= files.len(),
            matches_view(r@) == query_spec(files@, views(tag_names@), opt_nat(scope), k as nat),
        decreases files.len() - k,
    {
        let f = &files[k];
        match &f.content {
            Some(c) => {
                let nodes = parse_list_items(c.as_str());
                let mut found = query_nodes(f.path.as_str(), &nodes, tag_names, scope);
                let ghost prev = r@;
                let ghost more = found@;
                r.append(&mut found);
                assert(matches_view(r@) =~= matches_view(prev) + matches_view(more));
            },
            None => {},
        }
        k = k + 1;
    }
    r
}

/// A query scoped to node `scope` matches exactly the tagged nodes that
/// are that node or lie below it: every match is such a node, so tagged
/// nodes outside the scope are left out, and every such node is matched.
pub proof fn lemma_scoped_query(
    path: Seq<char>,
    nodes: Seq<NodeModel>,
    tags: Seq<Seq<char>>,
    scope: nat,
    k: nat,
)
    requires
        k <= nodes.len(),
    ensures
        forall|j: int|
            0 <= j < forest_matches(path, nodes, tags, Some(scope), k).len() ==> {
                let n = #[trigger] forest_matches(path, nodes, tags, Some(scope), k)[j].node;
                &&& n.id == scope || descends_from(nodes, n.id, scope)
                &&& has_tag(n, tags)
            },
        forall|i: int|
            0 <= i < k && has_tag(#[trigger] nodes[i], tags) && in_scope(nodes, nodes[i], Some(scope))
                ==> exists|j: int|
                0 <= j < forest_matches(path, nodes, tags, Some(scope), k).len() && forest_matches(
                    path,
                    nodes,
                    tags,
                    Some(scope),
                    k,
                )[j].node == nodes[i],
    decreases k,
{
    if k > 0 {
        let prev = forest_matches(path, nodes, tags, Some(scope), (k - 1) as nat);
        let cur = forest_matches(path, nodes, tags, Some(scope), k);
        lemma_scoped_query(path, nodes, tags, scope, (k - 1) as nat);
        assert forall|i: int|
            0 <= i < k && has_tag(#[trigger] nodes[i], tags) && in_scope(nodes, nodes[i], Some(scope))
                implies exists|j: int| 0 <= j < cur.len() && cur[j].node == nodes[i] by {
            if i < k - 1 {
                let j = choose|j: int| 0 <= j < prev.len() && prev[j].node == nodes[i];
                assert(cur[j] == prev[j]);
            } else {
                assert(cur[prev.len() as int].node == nodes[i]);
            }
        }
        assert forall|j: int| 0 <= j < cur.len() implies {
            let n = #[trigger] cur[j].node;
            &&& n.id == scope || descends_from(nodes, n.id, scope)
            &&& has_tag(n, tags)
        } by {
            if j < prev.len() {
                assert(cur[j] == prev[j]);
            }
        }
    }
}

/// Whether `c` is an ASCII decimal digit.
pub open spec fn is_digit(c: char) -> bool {
    48 <= (c as u32) <= 57
}

/// The number that the decimal digits `d` write.
pub open spec fn digits_value(d: Seq<char>) -> nat
    decreases d.len(),
{
    if d.len() == 0 {
        0
    } else {
        digits_value(d.drop_last()) * 10 + ((d.last() as u32) - 48) as nat
    }
}

/// The digits of an unsigned number: `s` without one leading `+`.
pub open spec fn unsigned_digits(s: Seq<char>) -> Seq<char> {
    if s.len() > 0 && s[0] == '+' {
        s.drop_first()
    } else {
        s
    }
}

/// What `str::parse::<usize>` accepts: an optional `+` and one or more
/// decimal digits whose value fits in `usize`.
pub open spec fn parse_usize_spec(s: Seq<char>) -> Option<nat> {
    let d = unsigned_digits(s);
    if d.len() > 0 && (forall|i: int| 0 <= i < d.len() ==> is_digit(#[trigger] d[i]))
        && digits_value(d) <= usize::MAX {
        Some(digits_value(d))
    } else {
        None
    }
}

/// Reads the scope node id of a query: an unsigned decimal number; text
/// that is not one gives no scope.
pub fn parse_scope(scope: &str) -> (r: Option<usize>)
    ensures
        opt_nat(r) == parse_usize_spec(scope@),
{
    let cs = to_chars(scope);
    let n = cs.len();
    let start: usize = if n > 0 && cs[0] == '+' {
        1
    } else {
        0
    };
    let ghost d = unsigned_digits(scope@);
    assert(d =~= cs@.skip(start as int));
    if start == n {
        return None;
    }
    let mut value: usize = 0;
    let mut overflow = false;
    let mut i: usize = start;
    assert(d.take(0) =~= Seq::<char>::empty());
    while i < n
        invariant
            start <= i <= n == cs.len(),
            d == cs@.skip(start as int),
            d == unsigned_digits(scope@),
            forall|j: int| 0 <= j < i - start ==> is_digit(#[trigger] d[j]),
            !overflow ==> value == digits_value(d.take(i - start)),
            overflow ==> digits_value(d.take(i - start)) > usize::MAX,
        decreases n - i,
    {
        let c = cs[i];
        let u = c as u32;
        assert(d[i - start] == c);
        if u < 48 || u > 57 {
            assert(!is_digit(d[i - start]));
            assert(d == unsigned_digits(scope@));
            assert(parse_usize_spec(scope@) is None);
            return None;
        }
        let digit = (u - 48) as usize;
        let ghost k = i - start;
        assert(d.take(k + 1).drop_last() =~= d.take(k));
        assert(d.take(k + 1).last() == c);
        let ghost prev = digits_value(d.take(k));
        assert(digits_value(d.take(k + 1)) == prev * 10 + digit);
        if !overflow {
            if value > (usize::MAX - digit) / 10 {
                assert(prev * 10 + digit > usize::MAX) by (nonlinear_arith)
                    requires
                        prev == value,
                        value > (usize::MAX - digit) / 10,
                        digit <= 9,
                ;
                overflow = true;
            } else {
                assert(value * 10 + digit <= usize::MAX) by (nonlinear_arith)
                    requires
                        value <= (usize::MAX - digit) / 10,
                        digit <= 9,
                ;
                value = value * 10 + digit;
            }
        } else {
            assert(prev * 10 + digit >= prev) by (nonlinear_arith);
        }
        i = i + 1;
    }
    assert(d.take(n - start) =~= d);
    if overflow {
        None
    } else {
        Some(value)
    }
}

} // verus!
