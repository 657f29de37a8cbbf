//! Markdown list items as a forest of nodes.
//!
//! The markdown event stream comes from pulldown-cmark. A single pass over
//! it keeps the list depth, a stack of open ancestors and the text of the
//! item being read. An item's node is created as soon as its own text is
//! complete: when the item closes, or when a list nested in it opens. Blank
//! items yield no node and consume no id.
use vstd::prelude::*;
use crate::text::{from_chars, to_chars, trim, trim_chars};
use pulldown_cmark::{Event, Tag};

verus! {

/// The events of the markdown stream that the list parser reads.
#[derive(Debug, Clone, PartialEq, Eq)]
pub enum MdEvent {
    ListStart,
    ListEnd,
    ItemStart,
    ItemEnd,
    Text(String),
    SoftBreak,
    HardBreak,
    Other,
}

/// The events that pulldown-cmark produces for a text.
pub uninterp spec fn events_of(content: Seq<char>) -> Seq<MdEvent>;

/// Relies on `pulldown_cmark::Parser::new`: the event stream of `content`
/// with default options, which depends on the text alone.
#[verifier::external_body]
pub(crate) fn list_events(content: &str) -> (r: Vec<MdEvent>)
    ensures
        r@ == events_of(content@),
{
    let mut r = Vec::new();
    for e in pulldown_cmark::Parser::new(content) {
        r.push(match e {
            Event::Start(Tag::List(_)) => MdEvent::ListStart,
            Event::End(Tag::List(_)) => MdEvent::ListEnd,
            Event::Start(Tag::Item) => MdEvent::ItemStart,
            Event::End(Tag::Item) => MdEvent::ItemEnd,
            Event::Text(t) => MdEvent::Text(t.to_string()),
            Event::SoftBreak => MdEvent::SoftBreak,
            Event::HardBreak => MdEvent::HardBreak,
            _ => MdEvent::Other,
        });
    }
    r
}

/// The tags found in a text: the captures of `#([\w-]+)`, in order.
pub uninterp spec fn tags_of(text: Seq<char>) -> Seq<Seq<char>>;

/// The characters of each string.
pub open spec fn views(v: Seq<String>) -> Seq<Seq<char>> {
    v.map_values(|s: String| s@)
}

/// Relies on `regex::Regex::captures_iter` with the pattern `#([\w-]+)`:
/// the first group of each match, in order of appearance.
#[verifier::external_body]
pub(crate) fn extract_tags(text: &str) -> (r: Vec<String>)
    ensures
        views(r@) == tags_of(text@),
{
    let re = regex::Regex::new(r"#([\w-]+)").unwrap();
    re.captures_iter(text).map(|c| c[1].to_string()).collect()
}

/// One list item.
#[derive(Debug, Clone, PartialEq, Eq)]
pub struct TreeNode {
    pub id: usize,
    pub depth: u32,
    pub text: String,
    pub tags: Vec<String>,
    pub parent_id: Option<usize>,
    pub children_ids: Vec<usize>,
}

/// The value of a [`TreeNode`].
pub struct NodeModel {
    pub id: nat,
    pub depth: nat,
    pub text: Seq<char>,
    pub tags: Seq<Seq<char>>,
    pub parent_id: Option<nat>,
    pub children_ids: Seq<nat>,
}

/// An optional index as a natural number.
pub open spec fn opt_nat(o: Option<usize>) -> Option<nat> {
    match o {
        Some(x) => Some(x as nat),
        None => None,
    }
}

impl View for TreeNode {
    type V = NodeModel;

    open spec fn view(&self) -> NodeModel {
        NodeModel {
            id: self.id as nat,
            depth: self.depth as nat,
            text: self.text@,
            tags: views(self.tags@),
            parent_id: opt_nat(self.parent_id),
            children_ids: self.children_ids@.map_values(|c: usize| c as nat),
        }
    }
}

/// The value of each node of a forest.
pub open spec fn forest_view(v: Seq<TreeNode>) -> Seq<NodeModel> {
    v.map_values(|n: TreeNode| n@)
}

/// Node `i` is where its id says, its parent precedes it and lists it as a
/// child, its children follow it and name it as their parent, its text is
/// not blank and its tags are those of its text.
pub open spec fn node_wf(nodes: Seq<NodeModel>, i: int) -> bool {
    let n = nodes[i];
    &&& n.id == i
    &&& n.text.len() > 0
    &&& n.tags == tags_of(n.text)
    &&& match n.parent_id {
        Some(p) => p < i && nodes[p as int].children_ids.contains(i as nat),
        None => true,
    }
    &&& forall|k: int|
        0 <= k < n.children_ids.len() ==> i < #[trigger] n.children_ids[k] < nodes.len()
            && nodes[n.children_ids[k] as int].parent_id == Some(i as nat)
}

/// The parent and child links of `nodes` form a forest, indexed by id.
pub open spec fn forest_wf(nodes: Seq<NodeModel>) -> bool {
    forall|i: int| 0 <= i < nodes.len() ==> #[trigger] node_wf(nodes, i)
}

/// The state of the list parser between two events.
pub struct ParseModel {
    pub list_depth: nat,
    pub stack: Seq<nat>,
    pub text: Seq<char>,
    pub open: bool,
    pub nodes: Seq<NodeModel>,
}

pub open spec fn sat_inc(d: nat) -> nat {
    if d >= u32::MAX {
        d
    } else {
        d + 1
    }
}

pub open spec fn sat_dec(d: nat) -> nat {
    if d == 0 {
        0
    } else {
        (d - 1) as nat
    }
}

pub open spec fn initial_model() -> ParseModel {
    ParseModel {
        list_depth: 0,
        stack: Seq::empty(),
        text: Seq::empty(),
        open: false,
        nodes: Seq::empty(),
    }
}

/// Closes the text of the open item: a node when that text is not blank.
pub open spec fn flush(s: ParseModel) -> ParseModel {
    let t = trim(s.text);
    if !s.open || t.len() == 0 {
        ParseModel { text: Seq::empty(), open: false, ..s }
    } else {
        let depth = sat_dec(s.list_depth);
        let stack = if s.stack.len() > depth {
            s.stack.subrange(0, depth as int)
        } else {
            s.stack
        };
        let id = s.nodes.len();
        let parent = if stack.len() > 0 {
            Some(stack.last())
        } else {
            None
        };
        let nodes = match parent {
            Some(p) => s.nodes.update(
                p as int,
                NodeModel { children_ids: s.nodes[p as int].children_ids.push(id), ..s.nodes[p as int] },
            ),
            None => s.nodes,
        };
        let node = NodeModel {
            id,
            depth,
            text: t,
            tags: tags_of(t),
            parent_id: parent,
            children_ids: Seq::empty(),
        };
        ParseModel {
            list_depth: s.list_depth,
            stack: stack.push(id),
            text: Seq::empty(),
            open: false,
            nodes: nodes.push(node),
        }
    }
}

/// The parser's state after one more event.
pub open spec fn step(s: ParseModel, e: MdEvent) -> ParseModel {
    match e {
        MdEvent::ListStart => {
            let f = flush(s);
            ParseModel { list_depth: sat_inc(f.list_depth), ..f }
        },
        MdEvent::ListEnd => ParseModel { list_depth: sat_dec(s.list_depth), ..s },
        MdEvent::ItemStart => ParseModel { text: Seq::empty(), open: true, ..s },
        MdEvent::ItemEnd => flush(s),
        MdEvent::Text(t) => if s.open {
            ParseModel { text: s.text + t@, ..s }
        } else {
            s
        },
        MdEvent::SoftBreak => if s.open {
            ParseModel { text: s.text.push(' '), ..s }
        } else {
            s
        },
        MdEvent::HardBreak => if s.open {
            ParseModel { text: s.text.push('\n'), ..s }
        } else {
            s
        },
        MdEvent::Other => s,
    }
}

/// The parser's state after a sequence of events.
pub open spec fn run(s: ParseModel, events: Seq<MdEvent>) -> ParseModel
    decreases events.len(),
{
    if events.len() == 0 {
        s
    } else {
        step(run(s, events.drop_last()), events.last())
    }
}

/// The forest that a sequence of events yields.
pub open spec fn forest_of(events: Seq<MdEvent>) -> Seq<NodeModel> {
    run(initial_model(), events).nodes
}

/// The forest that the markdown text `content` yields.
pub open spec fn parse_spec(content: Seq<char>) -> Seq<NodeModel> {
    forest_of(events_of(content))
}

/// The parser's state invariant: a forest, and a stack of its ids.
pub open spec fn model_wf(s: ParseModel) -> bool {
    &&& forest_wf(s.nodes)
    &&& forall|k: int| 0 <= k < s.stack.len() ==> #[trigger] s.stack[k] < s.nodes.len()
}

/// The executable state of the list parser.
struct ListParser {
    list_depth: u32,
    stack: Vec<usize>,
    text: Vec<char>,
    open: bool,
    nodes: Vec<TreeNode>,
}

impl View for ListParser {
    type V = ParseModel;

    closed spec fn view(&self) -> ParseModel {
        ParseModel {
            list_depth: self.list_depth as nat,
            stack: self.stack@.map_values(|x: usize| x as nat),
            text: self.text@,
            open: self.open,
            nodes: forest_view(self.nodes@),
        }
    }
}

impl ListParser {
    fn new() -> (r: ListParser)
        ensures
            r@ == initial_model(),
    {
        let r = ListParser {
            list_depth: 0,
            stack: Vec::new(),
            text: Vec::new(),
            open: false,
            nodes: Vec::new(),
        };
        assert(r@.stack == Seq::<nat>::empty());
        assert(r@.nodes == Seq::<NodeModel>::empty());
        r
    }

    /// Closes the text of the open item, as [`flush`] states.
    fn flush(&mut self)
        requires
            model_wf(old(self)@),
        ensures
            final(self)@ == flush(old(self)@),
    {
        let ghost s = self@;
        let t = trim_chars(&self.text);
        self.text = Vec::new();
        if !self.open || t.len() == 0 {
            self.open = false;
            assert(self@ == flush(s));
            return;
        }
        self.open = false;
        let depth: u32 = if self.list_depth == 0 {
            0
        } else {
            self.list_depth - 1
        };
        if self.stack.len() > depth as usize {
            self.stack.truncate(depth as usize);
        }
        let ghost stack = self@.stack;
        assert(stack == (if s.stack.len() > depth {
            s.stack.subrange(0, depth as int)
        } else {
            s.stack
        }));
        let id = self.nodes.len();
        let parent: Option<usize> = if self.stack.len() > 0 {
            Some(self.stack[self.stack.len() - 1])
        } else {
            None
        };
        assert(stack.len() > 0 ==> stack[stack.len() - 1] == self.stack@[self.stack.len() - 1]);
        let ghost nodes0 = self.nodes@;
        assert(forest_view(nodes0) == s.nodes);
        match parent {
            Some(p) => {
                self.nodes[p].children_ids.push(id);
                assert(self.nodes@[p as int]@.children_ids =~= nodes0[p as int]@.children_ids.push(
                    id as nat,
                ));
                assert(forest_view(self.nodes@) =~= forest_view(nodes0).update(
                    p as int,
                    NodeModel {
                        children_ids: forest_view(nodes0)[p as int].children_ids.push(id as nat),
                        ..forest_view(nodes0)[p as int]
                    },
                ));
            },
            None => {},
        }
        self.stack.push(id);
        let text = from_chars(&t);
        let tags = extract_tags(text.as_str());
        self.nodes.push(
            TreeNode { id, depth, text, tags, parent_id: parent, children_ids: Vec::new() },
        );
        let ghost nodes1 = self.nodes@.drop_last();
        assert(self@.stack =~= stack.push(id as nat));
        assert(self.nodes@[id as int]@.children_ids =~= Seq::<nat>::empty());
        assert(forest_view(self.nodes@) =~= forest_view(nodes1).push(self.nodes@[id as int]@));
        assert(self@.nodes =~= flush(s).nodes);
    }

    fn into_nodes(self) -> (r: Vec<TreeNode>)
        ensures
            forest_view(r@) == self@.nodes,
    {
        self.nodes
    }

    fn append_text(&mut self, t: &str)
        ensures
            final(self)@ == (ParseModel { text: old(self)@.text + t@, ..old(self)@ }),
    {
        let mut cs = to_chars(t);
        self.text.append(&mut cs);
    }

    /// Reads one more event, as [`step`] states.
    fn step(&mut self, e: &MdEvent)
        requires
            model_wf(old(self)@),
        ensures
            final(self)@ == step(old(self)@, *e),
    {
        match e {
            MdEvent::ListStart => {
                self.flush();
                if self.list_depth < u32::MAX {
                    self.list_depth = self.list_depth + 1;
                }
            },
            MdEvent::ListEnd => {
                if self.list_depth > 0 {
                    self.list_depth = self.list_depth - 1;
                }
            },
            MdEvent::ItemStart => {
                self.text = Vec::new();
                self.open = true;
            },
            MdEvent::ItemEnd => {
                self.flush();
            },
            MdEvent::Text(t) => {
                if self.open {
                    self.append_text(t.as_str());
                }
            },
            MdEvent::SoftBreak => {
                if self.open {
                    self.text.push(' ');
                }
            },
            MdEvent::HardBreak => {
                if self.open {
                    self.text.push('\n');
                }
            },
            MdEvent::Other => {},
        }
    }
}

/// The forest that a sequence of markdown events yields.
pub fn build_forest(events: &Vec<MdEvent>) -> (r: Vec<TreeNode>)
    ensures
        forest_view(r@) == forest_of(events@),
        forest_wf(forest_view(r@)),
{
    let mut p = ListParser::new();
    let mut i: usize = 0;
    while i < events.len()
        invariant
            i <= events.len(),
            p@ == run(initial_model(), events@.subrange(0, i as int)),
        decreases events.len() - i,
    {
        proof {
            lemma_run_wf(events@.subrange(0, i as int));
            assert(events@.subrange(0, i + 1).drop_last() == events@.subrange(0, i as int));
        }
        p.step(&events[i]);
        i = i + 1;
    }
    proof {
        assert(events@.subrange(0, events.len() as int) == events@);
        lemma_forest_wf(events@);
    }
    p.into_nodes()
}

/// Parses markdown text into the forest of its list items: ids in order of
/// creation from 0, depth from list nesting, tags from the item text.
pub fn parse_list_items(content: &str) -> (r: Vec<TreeNode>)
    ensures
        forest_view(r@) == parse_spec(content@),
        forest_wf(forest_view(r@)),
{
    let events = list_events(content);
    build_forest(&events)
}

proof fn lemma_flush_wf(s: ParseModel)
    requires
        model_wf(s),
    ensures
        model_wf(flush(s)),
{
    let f = flush(s);
    let t = trim(s.text);
    if s.open && t.len() > 0 {
        let id = s.nodes.len();
        let parent = f.nodes[id as int].parent_id;
        assert(f.nodes.len() == id + 1);
        assert forall|i: int| 0 <= i < f.nodes.len() implies #[trigger] node_wf(f.nodes, i) by {
            if i < id {
                assert(node_wf(s.nodes, i));
                let n = s.nodes[i];
                let m = f.nodes[i];
                assert(m.children_ids.len() >= n.children_ids.len());
                assert forall|k: int| 0 <= k < m.children_ids.len() implies i < #[trigger] m.children_ids[k]
                    < f.nodes.len() && f.nodes[m.children_ids[k] as int].parent_id == Some(
                    i as nat,
                ) by {
                    if k < n.children_ids.len() {
                        assert(m.children_ids[k] == n.children_ids[k]);
                    }
                }
                match n.parent_id {
                    Some(p) => {
                        assert(s.nodes[p as int].children_ids.contains(i as nat));
                        let w = choose|w: int|
                            0 <= w < s.nodes[p as int].children_ids.len()
                                && s.nodes[p as int].children_ids[w] == i as nat;
                        assert(f.nodes[p as int].children_ids[w] == i as nat);
                    },
                    None => {},
                }
            } else {
                match parent {
                    Some(p) => {
                        let w = f.nodes[p as int].children_ids.len() - 1;
                        assert(f.nodes[p as int].children_ids[w] == id);
                    },
                    None => {},
                }
            }
        }
    }
}

proof fn lemma_step_wf(s: ParseModel, e: MdEvent)
    requires
        model_wf(s),
    ensures
        model_wf(step(s, e)),
{
    lemma_flush_wf(s);
}

proof fn lemma_run_wf(events: Seq<MdEvent>)
    ensures
        model_wf(run(initial_model(), events)),
    decreases events.len(),
{
    if events.len() > 0 {
        lemma_run_wf(events.drop_last());
        lemma_step_wf(run(initial_model(), events.drop_last()), events.last());
    }
}

/// Every forest that the parser yields is well formed.
pub proof fn lemma_forest_wf(events: Seq<MdEvent>)
    ensures
        forest_wf(forest_of(events)),
{
    lemma_run_wf(events);
}

/// The forest of one file, as the parse command returns it.
#[derive(Debug, Clone, PartialEq, Eq)]
pub struct ParseFileResult {
    pub nodes: Vec<TreeNode>,
}

/// Parses the content of the file at `path` into its forest; the path is
/// not read.
pub fn parse_file(path: &str, content: &str) -> (r: ParseFileResult)
    ensures
        forest_view(r.nodes@) == parse_spec(content@),
        forest_wf(forest_view(r.nodes@)),
{
    ParseFileResult { nodes: parse_list_items(content) }
}

/// Parsing is a function of the text: two parses of the same content
/// yield the same forest.
pub proof fn lemma_parse_deterministic(content: Seq<char>, first: Seq<TreeNode>, second: Seq<TreeNode>)
    requires
        forest_view(first) == parse_spec(content),
        forest_view(second) == parse_spec(content),
    ensures
        forest_view(first) == forest_view(second),
{
}

/// A blank item, whose text is empty once trimmed, consumes no id and
/// yields no node: reading it leaves the forest as it was.
pub proof fn lemma_blank_item_yields_nothing(s: ParseModel, text: String)
    requires
        trim(text@).len() == 0,
    ensures
        run(s, seq![MdEvent::ItemStart, MdEvent::Text(text), MdEvent::ItemEnd]).nodes == s.nodes,
        run(s, seq![MdEvent::ItemStart, MdEvent::ItemEnd]).nodes == s.nodes,
{
    let e3 = seq![MdEvent::ItemStart, MdEvent::Text(text), MdEvent::ItemEnd];
    let s1 = step(s, MdEvent::ItemStart);
    let s2 = step(s1, MdEvent::Text(text));
    assert(s2.text =~= text@);
    assert(run(s, Seq::<MdEvent>::empty()) == s);
    assert(e3.drop_last().drop_last().drop_last() =~= Seq::<MdEvent>::empty());
    assert(e3.drop_last().drop_last() =~= seq![MdEvent::ItemStart]);
    assert(e3.drop_last() =~= seq![MdEvent::ItemStart, MdEvent::Text(text)]);
    assert(Seq::<char>::empty() + text@ =~= text@);
    let e2 = seq![MdEvent::ItemStart, MdEvent::ItemEnd];
    assert(e2.drop_last().drop_last() =~= Seq::<MdEvent>::empty());
    assert(e2.drop_last() =~= seq![MdEvent::ItemStart]);
    assert(trim(Seq::<char>::empty()) =~= Seq::<char>::empty());
    assert(run(s, seq![MdEvent::ItemStart]) == s1);
    assert(run(s, seq![MdEvent::ItemStart, MdEvent::Text(text)]) == s2);
    assert(run(s, e3) == step(s2, MdEvent::ItemEnd));
    assert(run(s, e2) == step(s1, MdEvent::ItemEnd));
}

} // verus!
