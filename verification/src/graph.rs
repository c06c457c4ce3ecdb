//! Task graph construction, validation and drawing.

use vstd::prelude::*;
use vstd::seq_lib::seq_to_set_is_finite;
use vstd::set_lib::{lemma_int_range, lemma_len_subset, set_int_range};
use std::collections::VecDeque;
use mermaid_text::layout::{sugiyama_layout, LayoutConfig};
use mermaid_text::render::render;
use mermaid_text::{Direction, Edge, Graph, Node, NodeShape};
use vstd::string::StrSliceExecFns;
use crate::text_order::{
    insert_sorted, insert_sorted_pair, lemma_pair_order_is_strict_total, lemma_sorted_listing,
    lemma_sorted_sequences_agree, lemma_text_order_is_strict_total, pair_order, pairs_strictly_sorted,
    pairs_view, sorted_listing, strictly_sorted, text_order,
};

verus! {

#[verifier::external_type_specification]
#[verifier::external_body]
pub struct ExJsonValue(serde_json::Value);

/// Whether `c` has the Unicode `White_Space` property.
pub open spec fn is_white_space(c: char) -> bool {
    ||| '\u{9}' <= c <= '\u{d}'
    ||| c == ' ' || c == '\u{85}' || c == '\u{a0}' || c == '\u{1680}'
    ||| '\u{2000}' <= c <= '\u{200a}'
    ||| c == '\u{2028}' || c == '\u{2029}' || c == '\u{202f}' || c == '\u{205f}' || c == '\u{3000}'
}

/// Whether a name is empty once surrounding white space is trimmed.
pub open spec fn is_blank(s: Seq<char>) -> bool {
    forall|i: int| 0 <= i < s.len() ==> is_white_space(#[trigger] s[i])
}

/// Neither the identifier nor the function name of `task` is blank.
spec fn named(task: TaskDefinition) -> bool {
    !is_blank(task.id@) && !is_blank(task.function@)
}

/// Whether `c` has the Unicode `White_Space` property, as `char::is_whitespace`
/// decides it: the 25 characters of `is_white_space`.
fn char_is_whitespace(c: char) -> (result: bool)
    ensures
        result == is_white_space(c),
{
    ('\u{9}' <= c && c <= '\u{d}') || c == ' ' || c == '\u{85}' || c == '\u{a0}' || c == '\u{1680}'
        || ('\u{2000}' <= c && c <= '\u{200a}') || c == '\u{2028}' || c == '\u{2029}' || c == '\u{202f}'
        || c == '\u{205f}' || c == '\u{3000}'
}

/// Whether `s` is blank, as `s.trim().is_empty()` decides it.
fn blank(s: &String) -> (result: bool)
    ensures
        result == is_blank(s@),
{
    let text = s.as_str();
    let n = text.unicode_len();
    let mut i: usize = 0;
    while i < n
        invariant
            n == s@.len(),
            text@ == s@,
            i <= n,
            forall|k: int| 0 <= k < i ==> is_white_space(#[trigger] s@[k]),
        decreases n - i,
    {
        if !char_is_whitespace(text.get_char(i)) {
            return false;
        }
        i = i + 1;
    }
    true
}

/// What `str::escape_debug` writes for `s`.
pub uninterp spec fn escape_debug_text(s: Seq<char>) -> Seq<char>;

/// `str::escape_debug`, collected into a `String`: the text is named by
/// `escape_debug_text` and depends on `s` alone.
#[verifier::external_body]
fn escape_debug(s: &str) -> (result: String)
    ensures
        result@ == escape_debug_text(s@),
{
    s.escape_debug().to_string()
}

/// The direction in which a flowchart's arrows flow.
#[derive(PartialEq, Eq, Structural, Clone, Copy, Debug)]
pub enum FlowDirection {
    TopToBottom,
    LeftToRight,
}

/// The outline drawn around a flowchart node.
#[derive(PartialEq, Eq, Structural, Clone, Copy, Debug)]
pub enum NodeOutline {
    Rectangle,
    Rounded,
}

/// The text that mermaid-text lays out and renders for a flowchart with these
/// `(id, label)` nodes and `(from, to)` arrows, in this direction and outline,
/// with these gaps.
pub uninterp spec fn flowchart_text(
    nodes: Seq<(Seq<char>, Seq<char>)>,
    edges: Seq<(Seq<char>, Seq<char>)>,
    direction: FlowDirection,
    outline: NodeOutline,
    layer_gap: usize,
    node_gap: usize,
) -> Seq<char>;

/// Lays out a flowchart with mermaid-text's Sugiyama layout
/// (`layout::sugiyama_layout`) and renders it as text (`render::render`): one
/// node with the given outline per `(id, label)` and one arrow per
/// `(from, to)`, in the given direction, with the given gaps between layers
/// and between sibling nodes. The text is named by `flowchart_text`, as the
/// crate documents its output to be deterministic.
#[verifier::external_body]
fn render_flowchart(
    nodes: &Vec<(String, String)>,
    edges: &Vec<(String, String)>,
    direction: FlowDirection,
    outline: NodeOutline,
    layer_gap: usize,
    node_gap: usize,
) -> (text: String)
    ensures
        text@ == flowchart_text(pairs_view(nodes@), pairs_view(edges@), direction, outline, layer_gap, node_gap),
{
    let direction = match direction { FlowDirection::TopToBottom => Direction::TopToBottom, FlowDirection::LeftToRight => Direction::LeftToRight };
    let shape = match outline { NodeOutline::Rectangle => NodeShape::Rectangle, NodeOutline::Rounded => NodeShape::Rounded };
    let mut diagram = Graph::new(direction);
    for (id, label) in nodes {
        diagram.nodes.push(Node::new(id.as_str(), label.as_str(), shape));
    }
    for (from, to) in edges {
        diagram.edges.push(Edge::new(from.as_str(), to.as_str(), None));
    }
    let layout = sugiyama_layout(&diagram, &LayoutConfig { layer_gap, node_gap, ..Default::default() });
    render(&diagram, &layout.positions, &[])
}

/// Drawings flow from prerequisites down to the tasks that need them.
pub const DRAWING_DIRECTION: FlowDirection = FlowDirection::TopToBottom;

/// Drawings show each task in a rounded box.
pub const DRAWING_OUTLINE: NodeOutline = NodeOutline::Rounded;

/// Characters between the layers of a drawing.
pub const DRAWING_LAYER_GAP: usize = 3;

/// Characters between sibling nodes of a drawing.
pub const DRAWING_NODE_GAP: usize = 4;

/// The drawing of a graph with something to draw, around its rendered flowchart.
pub open spec fn framed_drawing(rendered: Seq<char>) -> Seq<char> {
    "Task graph (top to bottom)\n"@ + rendered + "\n"@
}

/// Puts the heading above a rendered flowchart and ends it with a newline.
pub fn frame_drawing(rendered: &str) -> (drawing: String)
    ensures
        drawing@ == framed_drawing(rendered@),
{
    let mut drawing = String::from_str("Task graph (top to bottom)\n");
    drawing.append(rendered);
    drawing.append("\n");
    drawing
}

/// Law: a drawing lists its nodes and its arrows in one order only. Any list
/// of the drawn names, strictly ascending and each with its label, is the
/// drawing's node list; any strictly ascending list of the drawn arrows is
/// its arrow list.
pub proof fn law_drawing_order_is_stable(
    g: GraphSpec,
    nodes: Seq<(Seq<char>, Seq<char>)>,
    edges: Seq<(Seq<char>, Seq<char>)>,
)
    ensures
        g.lists_drawing_nodes(nodes) ==> nodes == g.drawing_node_list(),
        g.lists_drawing_edges(edges) ==> edges == g.drawing_edge_list(),
{
    if g.lists_drawing_nodes(nodes) {
        let names = nodes.map_values(|p: (Seq<char>, Seq<char>)| p.0);
        let listed = g.drawn_id_list();
        seq_to_set_is_finite(names);
        lemma_text_order_is_strict_total();
        lemma_sorted_listing(g.drawn_ids(), text_order());
        assert forall|i: int, j: int| 0 <= i < j < names.len() implies text_order()(#[trigger] names[i], #[trigger] names[j]) by {}
        lemma_sorted_sequences_agree(names, listed, text_order());
        assert forall|k: int| 0 <= k < nodes.len() implies nodes[k] == g.drawing_node_list()[k] by {
            assert(names[k] == listed[k]);
        }
        assert(nodes =~= g.drawing_node_list());
    }
    if g.lists_drawing_edges(edges) {
        seq_to_set_is_finite(edges);
        lemma_pair_order_is_strict_total();
        lemma_sorted_listing(g.drawn_edges(), pair_order());
        assert forall|i: int, j: int| 0 <= i < j < edges.len() implies pair_order()(#[trigger] edges[i], #[trigger] edges[j]) by {}
        lemma_sorted_sequences_agree(edges, g.drawing_edge_list(), pair_order());
    }
}

/// Law: a drawing does not depend on the order in which the tasks and the
/// requested outputs were submitted: two graphs with the same tasks and the
/// same requested outputs draw the same text.
pub proof fn law_drawing_ignores_submission_order(g: GraphSpec, h: GraphSpec)
    requires
        g.ids().no_duplicates(),
        h.ids().no_duplicates(),
        g.tasks.to_set() == h.tasks.to_set(),
        g.outputs.to_set() == h.outputs.to_set(),
    ensures
        g.drawing_text() == h.drawing_text(),
{
    lemma_same_tasks_same_drawing(g, h);
    lemma_same_tasks_same_drawing(h, g);
    assert(g.drawn_ids() =~= h.drawn_ids());
    assert(g.drawn_edges() =~= h.drawn_edges());
    assert(g.drawing_node_list() =~= h.drawing_node_list());
}

/// What `g` draws, `h` draws too, with the same label, when both hold the
/// same tasks and the same requested outputs.
proof fn lemma_same_tasks_same_drawing(g: GraphSpec, h: GraphSpec)
    requires
        g.ids().no_duplicates(),
        h.ids().no_duplicates(),
        g.tasks.to_set() == h.tasks.to_set(),
        g.outputs.to_set() == h.outputs.to_set(),
    ensures
        forall|u: Seq<char>| g.drawn_ids().contains(u) ==> h.drawn_ids().contains(u),
        forall|e: (Seq<char>, Seq<char>)| g.drawn_edges().contains(e) ==> h.drawn_edges().contains(e),
        forall|u: Seq<char>| #[trigger] g.node_label(u) == h.node_label(u),
{
    assert forall|u: Seq<char>| g.drawn_ids().contains(u) implies h.drawn_ids().contains(u) by {
        if g.ids().to_set().contains(u) {
            let i = choose|i: int| 0 <= i < g.ids().len() && g.ids()[i] == u;
            assert(g.tasks.to_set().contains(g.tasks[i]));
            let j = choose|j: int| 0 <= j < h.tasks.len() && h.tasks[j] == g.tasks[i];
            assert(h.ids()[j] == u);
            assert(h.ids().to_set().contains(u));
        } else if exists|i: int| 0 <= i < g.tasks.len() && #[trigger] refers_to(g.tasks[i], u) {
            let i = choose|i: int| 0 <= i < g.tasks.len() && #[trigger] refers_to(g.tasks[i], u);
            assert(g.tasks.to_set().contains(g.tasks[i]));
            let j = choose|j: int| 0 <= j < h.tasks.len() && h.tasks[j] == g.tasks[i];
            assert(refers_to(h.tasks[j], u));
        } else {
            assert(g.outputs.to_set().contains(u));
        }
    }
    assert forall|e: (Seq<char>, Seq<char>)| g.drawn_edges().contains(e) implies h.drawn_edges().contains(e) by {
        let i = choose|i: int| 0 <= i < g.tasks.len() && #[trigger] g.ids()[i] == e.1 && g.deps(i).contains(e.0);
        assert(g.tasks.to_set().contains(g.tasks[i]));
        let j = choose|j: int| 0 <= j < h.tasks.len() && h.tasks[j] == g.tasks[i];
        assert(h.ids()[j] == e.1);
        assert(h.deps(j).contains(e.0));
    }
    assert forall|u: Seq<char>| #[trigger] g.node_label(u) == h.node_label(u) by {
        assert(g.outputs.contains(u) <==> h.outputs.contains(u)) by {
            if g.outputs.contains(u) {
                assert(g.outputs.to_set().contains(u));
            }
            if h.outputs.contains(u) {
                assert(h.outputs.to_set().contains(u));
            }
        }
        if g.has_task(u) {
            let i = g.ids().index_of(u);
            assert(g.tasks.to_set().contains(g.tasks[i]));
            let j = choose|j: int| 0 <= j < h.tasks.len() && h.tasks[j] == g.tasks[i];
            assert(h.ids()[j] == u);
            lemma_index_of_distinct(h.ids(), j);
        } else if h.has_task(u) {
            let j = h.ids().index_of(u);
            assert(h.tasks.to_set().contains(h.tasks[j]));
            let i = choose|i: int| 0 <= i < g.tasks.len() && g.tasks[i] == h.tasks[j];
            assert(g.ids()[i] == u);
        }
    }
}

/// One argument of a task: either a JSON literal or a reference to the
/// output of another task.
pub enum Argument {
    Value(serde_json::Value),
    FromTask(String),
}

/// A task as submitted: an identifier, the function to run and its named
/// arguments.
pub struct TaskDefinition {
    pub id: String,
    pub function: String,
    pub args: Vec<(String, Argument)>,
}

/// The task that an argument refers to, if it is a reference.
pub open spec fn upstream_of(argument: Argument) -> Option<Seq<char>> {
    match argument {
        Argument::FromTask(upstream) => Some(upstream@),
        Argument::Value(_) => None,
    }
}

/// Whether one of the task's arguments refers to the task `upstream`.
pub open spec fn refers_to(task: TaskDefinition, upstream: Seq<char>) -> bool {
    exists|k: int|
        0 <= k < task.args@.len() && #[trigger] upstream_of(task.args@[k].1) == Some(upstream)
}

/// No two arguments of `task` share a name: its arguments form a map from
/// names to arguments.
pub open spec fn has_distinct_argument_names(task: TaskDefinition) -> bool {
    task.args@.map_values(|a: (String, Argument)| a.0@).no_duplicates()
}

/// Every task of `tasks` names each of its arguments once.
pub open spec fn arguments_named_once(tasks: Seq<TaskDefinition>) -> bool {
    forall|i: int| 0 <= i < tasks.len() ==> has_distinct_argument_names(#[trigger] tasks[i])
}

/// The identifiers, in order, of the tasks among `tasks` that refer to `upstream`.
pub open spec fn referrers(tasks: Seq<TaskDefinition>, upstream: Seq<char>) -> Seq<Seq<char>> {
    tasks.filter(|t: TaskDefinition| refers_to(t, upstream)).map_values(|t: TaskDefinition| t.id@)
}

/// The mathematical content of a task graph: its tasks in submission order
/// and the requested outputs.
pub struct GraphSpec {
    pub tasks: Seq<TaskDefinition>,
    pub outputs: Seq<Seq<char>>,
}

impl GraphSpec {
    pub open spec fn ids(self) -> Seq<Seq<char>> {
        self.tasks.map_values(|t: TaskDefinition| t.id@)
    }

    pub open spec fn has_task(self, id: Seq<char>) -> bool {
        self.ids().contains(id)
    }

    /// The distinct tasks that task `i` depends on (referenced or not defined).
    pub open spec fn deps(self, i: int) -> Set<Seq<char>> {
        Set::new(|u: Seq<char>| refers_to(self.tasks[i], u))
    }

    /// The prerequisites of the task named `id`.
    pub open spec fn dependencies_of(self, id: Seq<char>) -> Set<Seq<char>> {
        self.deps(self.ids().index_of(id))
    }

    /// The tasks, in submission order, that depend on `id`.
    pub open spec fn dependents_of(self, id: Seq<char>) -> Seq<Seq<char>> {
        referrers(self.tasks, id)
    }

    /// Every name the graph mentions as a task: defined tasks and referenced ones.
    /// `order` lists every task exactly once, each after all of its prerequisites.
    pub open spec fn is_topological_order(self, order: Seq<int>) -> bool {
        &&& order.len() == self.tasks.len()
        &&& order.no_duplicates()
        &&& forall|p: int| 0 <= p < order.len() ==> 0 <= #[trigger] order[p] < self.tasks.len()
        &&& forall|p: int, u: Seq<char>|
            0 <= p < order.len() && #[trigger] self.deps(order[p]).contains(u) ==> exists|q: int|
                0 <= q < p && #[trigger] self.ids()[order[q]] == u
    }

    /// The tasks can be run one after another with every prerequisite first;
    /// that is, the dependencies contain no cycle and name no undefined task.
    pub open spec fn has_topological_order(self) -> bool {
        exists|order: Seq<int>| self.is_topological_order(order)
    }

    /// Some task has a blank identifier or a blank function name.
    pub open spec fn has_blank_name(self) -> bool {
        exists|i: int|
            0 <= i < self.tasks.len() && (is_blank(#[trigger] self.tasks[i].id@) || is_blank(
                self.tasks[i].function@,
            ))
    }

    /// Argument `k` of task `i` refers to a task that the graph does not define.
    pub open spec fn is_missing_reference(self, i: int, k: int) -> bool {
        &&& 0 <= i < self.tasks.len()
        &&& 0 <= k < self.tasks[i].args@.len()
        &&& match upstream_of(self.tasks[i].args@[k].1) {
            Some(u) => !self.has_task(u),
            None => false,
        }
    }

    /// The first dangling reference, scanning tasks and then their arguments in order.
    pub open spec fn is_first_missing_reference(self, i: int, k: int) -> bool {
        &&& self.is_missing_reference(i, k)
        &&& forall|i2: int, k2: int|
            #[trigger] self.is_missing_reference(i2, k2) ==> i < i2 || (i == i2 && k <= k2)
    }

    pub open spec fn missing_reference_message(self, i: int, k: int) -> Seq<char> {
        "Task '"@ + self.tasks[i].id@ + "', argument '"@ + self.tasks[i].args@[k].0@
            + "': referenced task '"@ + upstream_of(self.tasks[i].args@[k].1)->0
            + "' does not exist."@
    }

    /// The first requested output that names no task.
    pub open spec fn is_first_missing_output(self, o: int) -> bool {
        &&& 0 <= o < self.outputs.len()
        &&& !self.has_task(self.outputs[o])
        &&& forall|o2: int| 0 <= o2 < o ==> self.has_task(#[trigger] self.outputs[o2])
    }

    /// The message of the first rule that the graph breaks, taken in order:
    /// at least one task, at least one output, no blank names, no dangling
    /// reference, no unknown output, no cycle.
    pub open spec fn validation_error(self) -> Option<Seq<char>> {
        if self.tasks.len() == 0 {
            Some("Need at least one task"@)
        } else if self.outputs.len() == 0 {
            Some("Need at least one requested output"@)
        } else if self.has_blank_name() {
            Some("Task IDs and function names must be nonempty"@)
        } else if exists|i: int, k: int| self.is_missing_reference(i, k) {
            let (i, k) = choose|i: int, k: int| self.is_first_missing_reference(i, k);
            Some(self.missing_reference_message(i, k))
        } else if exists|o: int| 0 <= o < self.outputs.len() && !self.has_task(#[trigger] self.outputs[o]) {
            let o = choose|o: int| self.is_first_missing_output(o);
            Some("Requested output '"@ + self.outputs[o] + "' does not reference an existing task"@)
        } else if !self.has_topological_order() {
            Some("DAG cannot contain a cycle"@)
        } else {
            None
        }
    }

    /// Every name that a drawing of the graph shows: defined, referenced and
    /// requested tasks.
    pub open spec fn drawn_ids(self) -> Set<Seq<char>> {
        self.node_ids() + self.outputs.to_set()
    }

    /// The arrows of a drawing: from each prerequisite to the task that needs it.
    pub open spec fn drawn_edges(self) -> Set<(Seq<char>, Seq<char>)> {
        Set::new(
            |e: (Seq<char>, Seq<char>)|
                exists|i: int| 0 <= i < self.tasks.len() && #[trigger] self.ids()[i] == e.1 && self.deps(i).contains(e.0),
        )
    }

    /// The label of the node `id`: its escaped name, then its escaped function
    /// or a marker for an undefined task, then a marker for a requested output.
    pub open spec fn node_label(self, id: Seq<char>) -> Seq<char> {
        escape_debug_text(id) + "\n"@ + (if self.has_task(id) {
            escape_debug_text(self.tasks[self.ids().index_of(id)].function@)
        } else {
            "[undefined task]"@
        }) + (if self.outputs.contains(id) {
            "\n[output]"@
        } else {
            Seq::empty()
        })
    }

    pub open spec fn node_ids(self) -> Set<Seq<char>> {
        self.ids().to_set() + Set::new(
            |u: Seq<char>| exists|i: int| 0 <= i < self.tasks.len() && #[trigger] refers_to(self.tasks[i], u),
        )
    }

    /// `nodes` lists each drawn name once, as `(name, label)`, in ascending
    /// order of name.
    pub open spec fn lists_drawing_nodes(self, nodes: Seq<(Seq<char>, Seq<char>)>) -> bool {
        &&& strictly_sorted(nodes.map_values(|p: (Seq<char>, Seq<char>)| p.0))
        &&& nodes.map_values(|p: (Seq<char>, Seq<char>)| p.0).to_set() == self.drawn_ids()
        &&& forall|k: int| 0 <= k < nodes.len() ==> #[trigger] nodes[k].1 == self.node_label(nodes[k].0)
    }

    /// `edges` lists each arrow once, in ascending order of (prerequisite, dependent).
    pub open spec fn lists_drawing_edges(self, edges: Seq<(Seq<char>, Seq<char>)>) -> bool {
        &&& pairs_strictly_sorted(edges)
        &&& edges.to_set() == self.drawn_edges()
    }

    /// The drawn names in ascending order.
    pub open spec fn drawn_id_list(self) -> Seq<Seq<char>> {
        sorted_listing(self.drawn_ids(), text_order())
    }

    /// The nodes of the drawing, as `(name, label)`, in ascending order of name.
    pub open spec fn drawing_node_list(self) -> Seq<(Seq<char>, Seq<char>)> {
        self.drawn_id_list().map_values(|id: Seq<char>| (id, self.node_label(id)))
    }

    /// The arrows of the drawing in ascending order of (prerequisite, dependent).
    pub open spec fn drawing_edge_list(self) -> Seq<(Seq<char>, Seq<char>)> {
        sorted_listing(self.drawn_edges(), pair_order())
    }

    /// The text that draws the graph: a heading, then the rendered flowchart of
    /// its nodes and arrows, or a single line when there is nothing to draw.
    pub open spec fn drawing_text(self) -> Seq<char> {
        if self.drawn_ids() == Set::<Seq<char>>::empty() {
            "Task graph (empty)\n"@
        } else {
            framed_drawing(
                flowchart_text(
                    self.drawing_node_list(),
                    self.drawing_edge_list(),
                    DRAWING_DIRECTION,
                    DRAWING_OUTLINE,
                    DRAWING_LAYER_GAP,
                    DRAWING_NODE_GAP,
                ),
            )
        }
    }
}

/// A set of task definitions indexed both ways: each task's prerequisites and
/// each name's dependents.
pub struct TaskGraph {
    tasks: Vec<TaskDefinition>,
    dependencies: Vec<Vec<String>>,
    dependent_keys: Vec<String>,
    dependent_lists: Vec<Vec<String>>,
    outputs: Vec<String>,
}

impl View for TaskGraph {
    type V = GraphSpec;

    closed spec fn view(&self) -> GraphSpec {
        GraphSpec { tasks: self.tasks@, outputs: self.outputs.deep_view() }
    }
}

impl TaskGraph {
    #[verifier::type_invariant]
    closed spec fn wf(self) -> bool {
        let g = self@;
        &&& g.ids().no_duplicates()
        &&& arguments_named_once(g.tasks)
        &&& self.dependencies@.len() == self.tasks@.len()
        &&& forall|i: int|
            0 <= i < self.tasks@.len() ==> {
                &&& (#[trigger] self.dependencies@[i]).deep_view().no_duplicates()
                &&& self.dependencies@[i].deep_view().to_set() == g.deps(i)
            }
        &&& self.dependent_lists@.len() == self.dependent_keys@.len()
        &&& self.tasks@.len() <= self.dependent_keys@.len()
        &&& forall|k: int|
            0 <= k < self.tasks@.len() ==> #[trigger] self.dependent_keys@[k]@ == g.ids()[k]
        &&& self.dependent_keys.deep_view().no_duplicates()
        &&& self.dependent_keys.deep_view().to_set() == g.node_ids()
        &&& forall|k: int|
            0 <= k < self.dependent_keys@.len() ==> #[trigger] self.dependent_lists@[k].deep_view()
                == g.dependents_of(self.dependent_keys@[k]@)
    }
}


/// Whether `j` is the first position whose identifier already occurred earlier.
pub open spec fn first_repeat(ids: Seq<Seq<char>>, j: int) -> bool {
    &&& 0 <= j < ids.len()
    &&& ids.take(j).no_duplicates()
    &&& ids.take(j).contains(ids[j])
}

/// The position of `s` in `v`, if it occurs.
pub(crate) fn position_of(v: &Vec<String>, s: &String) -> (result: Option<usize>)
    ensures
        match result {
            Some(i) => i < v@.len() && v@[i as int]@ == s@ && forall|k: int|
                0 <= k < i ==> v@[k]@ != s@,
            None => !v.deep_view().contains(s@),
        },
{
    let mut i: usize = 0;
    while i < v.len()
        invariant
            i <= v@.len(),
            forall|k: int| 0 <= k < i ==> v@[k]@ != s@,
        decreases v@.len() - i,
    {
        if v[i] == *s {
            return Some(i);
        }
        i = i + 1;
    }
    assert(!v.deep_view().contains(s@)) by {
        if v.deep_view().contains(s@) {
            let k = choose|k: int| 0 <= k < v.deep_view().len() && v.deep_view()[k] == s@;
            assert(v@[k]@ == s@);
        }
    }
    None
}

/// The distinct tasks that `task` refers to, in the order of first reference.
fn collect_references(task: &TaskDefinition) -> (refs: Vec<String>)
    ensures
        refs.deep_view().no_duplicates(),
        refs.deep_view().to_set() == Set::new(|u: Seq<char>| refers_to(*task, u)),
{
    let mut refs: Vec<String> = Vec::new();
    let n = task.args.len();
    for k in 0..n
        invariant
            n == task.args@.len(),
            refs.deep_view().no_duplicates(),
            refs.deep_view().to_set() == Set::new(
                |u: Seq<char>|
                    exists|k2: int| 0 <= k2 < k && #[trigger] upstream_of(task.args@[k2].1) == Some(u),
            ),
    {
        let ghost before = refs.deep_view();
        match &task.args[k].1 {
            Argument::FromTask(upstream) => {
                match position_of(&refs, upstream) {
                    Some(i) => {
                        assert(before[i as int] == upstream@);
                    },
                    None => {
                        refs.push(upstream.clone());
                        assert(refs.deep_view() =~= before.push(upstream@));
                    },
                }
            },
            Argument::Value(_) => {},
        }
        assert(refs.deep_view().to_set() =~= Set::new(
            |u: Seq<char>|
                exists|k2: int| 0 <= k2 < k + 1 && #[trigger] upstream_of(task.args@[k2].1) == Some(u),
        )) by {
            assert forall|u: Seq<char>|
                (exists|k2: int| 0 <= k2 < k + 1 && #[trigger] upstream_of(task.args@[k2].1) == Some(u))
                implies refs.deep_view().to_set().contains(u) by {
                let k2 = choose|k2: int| 0 <= k2 < k + 1 && #[trigger] upstream_of(task.args@[k2].1) == Some(u);
                if k2 < k {
                    assert(before.to_set().contains(u));
                    let x = choose|x: int| 0 <= x < before.len() && before[x] == u;
                    assert(refs.deep_view()[x] == u);
                } else {
                    if !before.contains(u) {
                        assert(refs.deep_view()[before.len() as int] == u);
                    }
                }
            }
            assert forall|u: Seq<char>| refs.deep_view().to_set().contains(u) implies
                (exists|k2: int| 0 <= k2 < k + 1 && #[trigger] upstream_of(task.args@[k2].1) == Some(u)) by {
                let x = choose|x: int| 0 <= x < refs.deep_view().len() && refs.deep_view()[x] == u;
                if x < before.len() {
                    assert(before.to_set().contains(u));
                } else {
                    assert(upstream_of(task.args@[k as int].1) == Some(u));
                }
            }
        }
    }
    assert(Set::new(
        |u: Seq<char>|
            exists|k2: int| 0 <= k2 < n && #[trigger] upstream_of(task.args@[k2].1) == Some(u),
    ) =~= Set::new(|u: Seq<char>| refers_to(*task, u)));
    refs
}


impl TaskGraph {
    /// Builds the graph and both dependency indexes; rejects the first
    /// identifier that occurs twice. `validate` enforces the other rules.
    pub fn new(definitions: Vec<TaskDefinition>, outputs: Vec<String>) -> (result: Result<
        TaskGraph,
        String,
    >)
        requires
            arguments_named_once(definitions@),
        ensures
            result is Ok <==> definitions@.map_values(|t: TaskDefinition| t.id@).no_duplicates(),
            match result {
                Ok(graph) => graph@ == GraphSpec { tasks: definitions@, outputs: outputs.deep_view() },
                Err(message) => exists|j: int|
                    first_repeat(definitions@.map_values(|t: TaskDefinition| t.id@), j)
                        && message@ == "Duplicate task id: "@ + definitions@[j].id@,
            },
    {
        let ghost ids = definitions@.map_values(|t: TaskDefinition| t.id@);
        let n = definitions.len();
        let mut j: usize = 0;
        while j < n
            invariant
                n == definitions@.len(),
                ids == definitions@.map_values(|t: TaskDefinition| t.id@),
                j <= n,
                ids.take(j as int).no_duplicates(),
            decreases n - j,
        {
            let mut i: usize = 0;
            while i < j
                invariant
                    n == definitions@.len(),
                    ids == definitions@.map_values(|t: TaskDefinition| t.id@),
                    i <= j < n,
                    ids.take(j as int).no_duplicates(),
                    forall|k: int| 0 <= k < i ==> ids[k] != ids[j as int],
                decreases j - i,
            {
                if definitions[i].id == definitions[j].id {
                    let mut message = String::from_str("Duplicate task id: ");
                    message.append(definitions[j].id.as_str());
                    proof {
                        assert(ids[i as int] == definitions@[i as int].id@);
                        assert(ids[j as int] == definitions@[j as int].id@);
                        assert(ids.take(j as int)[i as int] == ids[j as int]);
                        assert(ids.take(j as int).contains(ids[j as int]));
                        assert(first_repeat(ids, j as int));
                    }
                    return Err(message);
                }
                i = i + 1;
            }
            proof {
                assert(ids.take(j + 1) =~= ids.take(j as int).push(ids[j as int]));
                assert(!ids.take(j as int).contains(ids[j as int]));
            }
            j = j + 1;
        }
        assert(ids.take(n as int) =~= ids);
        let tasks = definitions;
        let ghost g = GraphSpec { tasks: tasks@, outputs: outputs.deep_view() };
        assert(g.ids() =~= ids);

        let mut dependencies: Vec<Vec<String>> = Vec::new();
        for j in 0..n
            invariant
                n == tasks@.len(),
                g.tasks == tasks@,
                dependencies@.len() == j,
                forall|i: int|
                    0 <= i < j ==> {
                        &&& (#[trigger] dependencies@[i]).deep_view().no_duplicates()
                        &&& dependencies@[i].deep_view().to_set() == g.deps(i)
                    },
        {
            let refs = collect_references(&tasks[j]);
            dependencies.push(refs);
            assert(dependencies@[j as int].deep_view().to_set() =~= g.deps(j as int));
        }

        let mut keys: Vec<String> = Vec::new();
        let mut lists: Vec<Vec<String>> = Vec::new();
        for j in 0..n
            invariant
                n == tasks@.len(),
                g.tasks == tasks@,
                keys.deep_view() == g.ids().take(j as int),
                lists@.len() == j,
                forall|k: int| 0 <= k < j ==> (#[trigger] lists@[k])@.len() == 0,
        {
            let ghost before = keys.deep_view();
            keys.push(tasks[j].id.clone());
            lists.push(Vec::new());
            assert(keys.deep_view() =~= before.push(tasks@[j as int].id@));
            assert(keys.deep_view() =~= g.ids().take(j + 1));
        }
        assert(g.ids().take(n as int) =~= g.ids());
        proof {
            assert forall|k: int| 0 <= k < keys@.len() implies (#[trigger] lists@[k]).deep_view()
                == referrers(tasks@.take(0), keys@[k]@) by {
                assert(tasks@.take(0) =~= Seq::<TaskDefinition>::empty());
                assert(tasks@.take(0).filter(|t: TaskDefinition| refers_to(t, keys@[k]@)) =~= Seq::<TaskDefinition>::empty());
            }
            assert(keys.deep_view().to_set() =~= g.ids().to_set() + Set::new(
                |u: Seq<char>| exists|i: int| 0 <= i < 0 && #[trigger] refers_to(g.tasks[i], u),
            ));
        }

        for j in 0..n
            invariant
                n == tasks@.len(),
                g.tasks == tasks@,
                dependencies@.len() == n,
                forall|i: int|
                    0 <= i < n ==> {
                        &&& (#[trigger] dependencies@[i]).deep_view().no_duplicates()
                        &&& dependencies@[i].deep_view().to_set() == g.deps(i)
                    },
                g.ids().no_duplicates(),
                lists@.len() == keys@.len(),
                n <= keys@.len(),
                forall|k: int| 0 <= k < n ==> #[trigger] keys@[k]@ == g.ids()[k],
                keys.deep_view().no_duplicates(),
                keys.deep_view().to_set() == g.ids().to_set() + Set::new(
                    |u: Seq<char>| exists|i: int| 0 <= i < j && #[trigger] refers_to(g.tasks[i], u),
                ),
                forall|k: int|
                    0 <= k < keys@.len() ==> (#[trigger] lists@[k]).deep_view() == referrers(
                        tasks@.take(j as int),
                        keys@[k]@,
                    ),
        {
            let prereqs = &dependencies[j];
            let m = prereqs.len();
            assert(dependencies@[j as int].deep_view().to_set() == g.deps(j as int));
            let ghost base_keys = keys.deep_view().to_set();
            let ghost pre = prereqs.deep_view();
            for d in 0..m
                invariant
                    n == tasks@.len(),
                    g.tasks == tasks@,
                    j < n,
                    m == pre.len(),
                    pre == prereqs.deep_view(),
                    pre.no_duplicates(),
                    pre.to_set() == g.deps(j as int),
                    g.ids().no_duplicates(),
                    lists@.len() == keys@.len(),
                    n <= keys@.len(),
                    forall|k: int| 0 <= k < n ==> #[trigger] keys@[k]@ == g.ids()[k],
                    keys.deep_view().no_duplicates(),
                    keys.deep_view().to_set() == base_keys + pre.take(d as int).to_set(),
                    base_keys == g.ids().to_set() + Set::new(
                        |u: Seq<char>| exists|i: int| 0 <= i < j && #[trigger] refers_to(g.tasks[i], u),
                    ),
                    forall|k: int|
                        0 <= k < keys@.len() ==> (#[trigger] lists@[k]).deep_view() == referrers(
                            tasks@.take(j as int),
                            keys@[k]@,
                        ) + (if pre.take(d as int).contains(keys@[k]@) {
                            seq![g.ids()[j as int]]
                        } else {
                            Seq::empty()
                        }),
            {
                let upstream = &prereqs[d];
                let ghost old_keys = keys.deep_view();
                let ghost old_lists = lists@;
                assert(pre[d as int] == upstream@);
                let pos = match position_of(&keys, upstream) {
                    Some(p) => p,
                    None => {
                        keys.push(upstream.clone());
                        lists.push(Vec::new());
                        proof {
                            assert(keys.deep_view() =~= old_keys.push(upstream@));
                            let t = tasks@.take(j as int);
                            if t.filter(|x: TaskDefinition| refers_to(x, upstream@)).len() > 0 {
                                let x = t.filter(|x: TaskDefinition| refers_to(x, upstream@))[0];
                                assert(t.filter(|x: TaskDefinition| refers_to(x, upstream@)).contains(x));
                                t.lemma_filter_pred(|x: TaskDefinition| refers_to(x, upstream@), 0);
                                t.lemma_filter_contains_rev(|x: TaskDefinition| refers_to(x, upstream@), x);
                                let i = choose|i: int| 0 <= i < t.len() && t[i] == x;
                                assert(g.tasks[i] == x);
                                assert(refers_to(g.tasks[i], upstream@));
                                assert(base_keys.contains(upstream@));
                                assert(old_keys.to_set().contains(upstream@));
                                assert(false);
                            }
                            assert(t.filter(|x: TaskDefinition| refers_to(x, upstream@)) =~= Seq::<TaskDefinition>::empty());
                            if pre.take(d as int).contains(upstream@) {
                                let y = choose|y: int| 0 <= y < d && pre.take(d as int)[y] == upstream@;
                                assert(pre[y] == pre[d as int]);
                            }
                            assert(lists@[keys@.len() - 1].deep_view() =~= referrers(t, upstream@));
                        }
                        keys.len() - 1
                    },
                };
                let ghost mid_lists = lists@;
                let ghost mid_keys = keys.deep_view();
                assert(forall|k: int|
                    0 <= k < keys@.len() ==> (#[trigger] mid_lists[k]).deep_view() == referrers(
                        tasks@.take(j as int),
                        keys@[k]@,
                    ) + (if pre.take(d as int).contains(keys@[k]@) {
                        seq![g.ids()[j as int]]
                    } else {
                        Seq::empty()
                    })) by {
                    assert forall|k: int|
                        0 <= k < keys@.len() implies (#[trigger] mid_lists[k]).deep_view() == referrers(
                            tasks@.take(j as int),
                            keys@[k]@,
                        ) + (if pre.take(d as int).contains(keys@[k]@) {
                            seq![g.ids()[j as int]]
                        } else {
                            Seq::empty()
                        }) by {
                        if k < old_keys.len() {
                            assert(mid_lists[k] == old_lists[k]);
                            assert(keys@[k]@ == old_keys[k]);
                        }
                    }
                }
                let mut entry: Vec<String> = Vec::new();
                lists.set_and_swap(pos, &mut entry);
                entry.push(tasks[j].id.clone());
                lists.set(pos, entry);
                proof {
                    assert(pre.take(d + 1) =~= pre.take(d as int).push(upstream@));
                    assert(mid_keys[pos as int] == upstream@);
                    assert(!pre.take(d as int).contains(upstream@)) by {
                        if pre.take(d as int).contains(upstream@) {
                            let y = choose|y: int| 0 <= y < d && pre.take(d as int)[y] == upstream@;
                            assert(pre[y] == pre[d as int]);
                        }
                    }
                    assert forall|k: int|
                        0 <= k < keys@.len() implies (#[trigger] lists@[k]).deep_view() == referrers(
                            tasks@.take(j as int),
                            keys@[k]@,
                        ) + (if pre.take(d + 1).contains(keys@[k]@) {
                            seq![g.ids()[j as int]]
                        } else {
                            Seq::empty()
                        }) by {
                        if k == pos {
                            let r = referrers(tasks@.take(j as int), keys@[k]@);
                            assert(lists@[k].deep_view() =~= mid_lists[k].deep_view().push(g.ids()[j as int]));
                            assert(mid_lists[k].deep_view() =~= r);
                            assert(lists@[k].deep_view() =~= r + seq![g.ids()[j as int]]);
                            assert(pre.take(d + 1)[d as int] == upstream@);
                            assert(pre.take(d + 1).contains(keys@[k]@));
                        } else {
                            assert(mid_keys[k] != upstream@);
                            assert(lists@[k] == mid_lists[k]);
                            assert(keys@[k]@ == mid_keys[k]);
                            assert(pre.take(d + 1).contains(keys@[k]@) == pre.take(d as int).contains(keys@[k]@));
                        }
                    }
                    assert(mid_keys.to_set() =~= old_keys.to_set().insert(upstream@)) by {
                        if mid_keys.len() == old_keys.len() {
                            assert(mid_keys =~= old_keys);
                            assert(old_keys.contains(upstream@));
                        } else {
                            assert(mid_keys =~= old_keys.push(upstream@));
                            old_keys.lemma_push_to_set_commute(upstream@);
                        }
                    }
                    assert(keys.deep_view() == mid_keys);
                    pre.take(d as int).lemma_push_to_set_commute(upstream@);
                    assert(pre.take(d + 1).to_set() =~= pre.take(d as int).to_set().insert(upstream@));
                    assert(keys.deep_view().to_set() =~= base_keys + pre.take(d + 1).to_set());
                }
            }
            proof {
                assert(pre.take(m as int) =~= pre);
                assert(tasks@.take(j + 1) =~= tasks@.take(j as int).push(tasks@[j as int]));
                assert forall|k: int|
                    0 <= k < keys@.len() implies (#[trigger] lists@[k]).deep_view() == referrers(
                        tasks@.take(j + 1),
                        keys@[k]@,
                    ) by {
                    let key = keys@[k]@;
                    let pred = |t: TaskDefinition| refers_to(t, key);
                    tasks@.take(j as int).lemma_filter_push(tasks@[j as int], pred);
                    assert(pre.to_set().contains(key) == g.deps(j as int).contains(key));
                    assert(g.deps(j as int).contains(key) == refers_to(g.tasks[j as int], key));
                    assert(pre.contains(key) == refers_to(tasks@[j as int], key));
                    let f = tasks@.take(j as int).filter(pred);
                    if pred(tasks@[j as int]) {
                        assert(f.push(tasks@[j as int]).map_values(|t: TaskDefinition| t.id@)
                            =~= f.map_values(|t: TaskDefinition| t.id@).push(tasks@[j as int].id@));
                    }
                }
                assert(keys.deep_view().to_set() =~= g.ids().to_set() + Set::new(
                    |u: Seq<char>| exists|i: int| 0 <= i < j + 1 && #[trigger] refers_to(g.tasks[i], u),
                )) by {
                    assert forall|u: Seq<char>|
                        (exists|i: int| 0 <= i < j + 1 && #[trigger] refers_to(g.tasks[i], u))
                        implies keys.deep_view().to_set().contains(u) by {
                        let i = choose|i: int| 0 <= i < j + 1 && #[trigger] refers_to(g.tasks[i], u);
                        if i == j {
                            assert(g.deps(j as int).contains(u));
                        } else {
                            assert(base_keys.contains(u));
                        }
                    }
                    assert forall|u: Seq<char>| keys.deep_view().to_set().contains(u)
                        && !g.ids().to_set().contains(u)
                        implies (exists|i: int| 0 <= i < j + 1 && #[trigger] refers_to(g.tasks[i], u)) by {
                        if pre.to_set().contains(u) {
                            assert(g.deps(j as int).contains(u));
                            assert(refers_to(g.tasks[j as int], u));
                        }
                    }
                }
            }
        }
        proof {
            assert(tasks@.take(n as int) =~= tasks@);
            assert(keys.deep_view().to_set() =~= g.node_ids());
        }
        let graph = TaskGraph {
            tasks,
            dependencies,
            dependent_keys: keys,
            dependent_lists: lists,
            outputs,
        };
        Ok(graph)
    }
}


proof fn lemma_referrers_step(tasks: Seq<TaskDefinition>, u: Seq<char>)
    requires
        tasks.len() > 0,
    ensures
        referrers(tasks, u) == if refers_to(tasks.last(), u) {
            referrers(tasks.drop_last(), u).push(tasks.last().id@)
        } else {
            referrers(tasks.drop_last(), u)
        },
{
    let pred = |t: TaskDefinition| refers_to(t, u);
    let rest = tasks.drop_last();
    assert(rest.push(tasks.last()) =~= tasks);
    rest.lemma_filter_push(tasks.last(), pred);
    let f = rest.filter(pred);
    if pred(tasks.last()) {
        assert(f.push(tasks.last()).map_values(|t: TaskDefinition| t.id@) =~= f.map_values(
            |t: TaskDefinition| t.id@,
        ).push(tasks.last().id@));
    }
}

/// The dependents of `u` are exactly the identifiers of the tasks that refer to `u`.
proof fn lemma_referrers_contains(tasks: Seq<TaskDefinition>, u: Seq<char>, x: Seq<char>)
    ensures
        referrers(tasks, u).contains(x) <==> exists|i: int|
            0 <= i < tasks.len() && tasks[i].id@ == x && #[trigger] refers_to(tasks[i], u),
    decreases tasks.len(),
{
    if tasks.len() == 0 {
        assert(tasks.filter(|t: TaskDefinition| refers_to(t, u)) =~= Seq::<TaskDefinition>::empty());
    } else {
        let rest = tasks.drop_last();
        lemma_referrers_step(tasks, u);
        lemma_referrers_contains(rest, u, x);
        let r = referrers(rest, u);
        if referrers(tasks, u).contains(x) {
            if r.contains(x) {
                let i = choose|i: int| 0 <= i < rest.len() && rest[i].id@ == x && #[trigger] refers_to(rest[i], u);
                assert(tasks[i] == rest[i]);
            } else {
                assert(refers_to(tasks.last(), u));
                let y = choose|y: int| 0 <= y < referrers(tasks, u).len() && referrers(tasks, u)[y] == x;
                assert(y == r.len());
                assert(refers_to(tasks[tasks.len() - 1], u));
            }
        }
        if exists|i: int| 0 <= i < tasks.len() && tasks[i].id@ == x && #[trigger] refers_to(tasks[i], u) {
            let i = choose|i: int| 0 <= i < tasks.len() && tasks[i].id@ == x && #[trigger] refers_to(tasks[i], u);
            if i < rest.len() {
                assert(rest[i] == tasks[i]);
                assert(r.contains(x));
                let y = choose|y: int| 0 <= y < r.len() && r[y] == x;
                if refers_to(tasks.last(), u) {
                    assert(referrers(tasks, u)[y] == x);
                }
            } else {
                assert(referrers(tasks, u)[r.len() as int] == x);
            }
        }
    }
}

/// Tasks with distinct identifiers have distinct dependents.
proof fn lemma_referrers_distinct(tasks: Seq<TaskDefinition>, u: Seq<char>)
    requires
        tasks.map_values(|t: TaskDefinition| t.id@).no_duplicates(),
    ensures
        referrers(tasks, u).no_duplicates(),
    decreases tasks.len(),
{
    if tasks.len() > 0 {
        let rest = tasks.drop_last();
        let ids = tasks.map_values(|t: TaskDefinition| t.id@);
        assert(rest.map_values(|t: TaskDefinition| t.id@) =~= ids.drop_last());
        lemma_referrers_step(tasks, u);
        lemma_referrers_distinct(rest, u);
        if refers_to(tasks.last(), u) {
            lemma_referrers_contains(rest, u, tasks.last().id@);
            if referrers(rest, u).contains(tasks.last().id@) {
                let i = choose|i: int|
                    0 <= i < rest.len() && rest[i].id@ == tasks.last().id@ && #[trigger] refers_to(rest[i], u);
                assert(ids[i] == ids[tasks.len() - 1]);
            }
        }
    }
}


/// The bookkeeping of Kahn's algorithm after the tasks `proc` were taken, in
/// that order, with `done` their identifiers.
spec fn kahn_state(
    g: GraphSpec,
    remaining: Seq<usize>,
    queue: Seq<usize>,
    proc: Seq<int>,
    done: Set<Seq<char>>,
) -> bool {
    let n = g.tasks.len();
    &&& remaining.len() == n
    &&& proc.no_duplicates()
    &&& forall|p: int| 0 <= p < proc.len() ==> 0 <= #[trigger] proc[p] < n
    &&& forall|u: Seq<char>|
        done.contains(u) <==> exists|q: int| 0 <= q < proc.len() && #[trigger] g.ids()[proc[q]] == u
    &&& forall|p: int, u: Seq<char>|
        0 <= p < proc.len() && #[trigger] g.deps(proc[p]).contains(u) ==> exists|q: int|
            0 <= q < p && #[trigger] g.ids()[proc[q]] == u
    &&& queue.no_duplicates()
    &&& forall|x: int|
        0 <= x < queue.len() ==> #[trigger] queue[x] < n && !proc.contains(queue[x] as int)
    &&& forall|i: int| 0 <= i < n ==> #[trigger] remaining[i] == g.deps(i).difference(done).len()
    &&& forall|i: int|
        0 <= i < n && !proc.contains(i) ==> (queue.contains(i as usize) <==> #[trigger] remaining[i]
            == 0)
}

/// Kahn's bookkeeping while the dependents of the task just taken are released;
/// the first `d` entries of `released` have been handled.
spec fn kahn_release_state(
    g: GraphSpec,
    remaining: Seq<usize>,
    queue: Seq<usize>,
    proc: Seq<int>,
    done: Set<Seq<char>>,
    released: Seq<Seq<char>>,
    d: int,
) -> bool {
    let n = g.tasks.len();
    &&& 0 <= d <= released.len()
    &&& remaining.len() == n
    &&& proc.no_duplicates()
    &&& forall|p: int| 0 <= p < proc.len() ==> 0 <= #[trigger] proc[p] < n
    &&& forall|u: Seq<char>|
        done.contains(u) <==> exists|q: int| 0 <= q < proc.len() && #[trigger] g.ids()[proc[q]] == u
    &&& forall|p: int, u: Seq<char>|
        0 <= p < proc.len() && #[trigger] g.deps(proc[p]).contains(u) ==> exists|q: int|
            0 <= q < p && #[trigger] g.ids()[proc[q]] == u
    &&& queue.no_duplicates()
    &&& forall|x: int|
        0 <= x < queue.len() ==> #[trigger] queue[x] < n && !proc.contains(queue[x] as int)
    &&& forall|i: int|
        0 <= i < n ==> #[trigger] remaining[i] == g.deps(i).difference(done).len() + (if released.contains(
            g.ids()[i],
        ) && !released.take(d).contains(g.ids()[i]) {
            1int
        } else {
            0int
        })
    &&& forall|i: int|
        0 <= i < n && !proc.contains(i) ==> (queue.contains(i as usize) <==> #[trigger] remaining[i]
            == 0)
}

/// Taking the first queued task: it is new, its prerequisites are all done,
/// and fewer than all tasks were taken before it.
proof fn lemma_kahn_take(
    g: GraphSpec,
    remaining: Seq<usize>,
    queue: Seq<usize>,
    proc: Seq<int>,
    done: Set<Seq<char>>,
)
    requires
        g.tasks.len() <= usize::MAX,
        kahn_state(g, remaining, queue, proc, done),
        queue.len() > 0,
        g.ids().no_duplicates(),
        forall|i: int| 0 <= i < g.tasks.len() ==> #[trigger] g.deps(i).finite(),
    ensures
        queue[0] < g.tasks.len(),
        !proc.contains(queue[0] as int),
        g.deps(queue[0] as int).subset_of(done),
        !done.contains(g.ids()[queue[0] as int]),
        proc.len() < g.tasks.len(),
{
    let n = g.tasks.len();
    let t = queue[0] as int;
    assert(queue.contains(queue[0]));
    assert(remaining[t] == 0);
    let rest = g.deps(t).difference(done);
    assert(rest.finite());
    assert(rest =~= Set::empty()) by {
        if exists|u: Seq<char>| rest.contains(u) {
            let u = choose|u: Seq<char>| rest.contains(u);
            assert(rest.remove(u).len() + 1 == rest.len());
        }
    }
    assert forall|u: Seq<char>| g.deps(t).contains(u) implies done.contains(u) by {
        assert(!rest.contains(u));
    }
    if done.contains(g.ids()[t]) {
        let q = choose|q: int| 0 <= q < proc.len() && #[trigger] g.ids()[proc[q]] == g.ids()[t];
        assert(proc[q] == t);
        assert(proc.contains(t));
    }
    assert(proc.to_set().subset_of(set_int_range(0, n as int).remove(t))) by {
        assert forall|x: int| proc.to_set().contains(x) implies set_int_range(0, n as int).remove(t).contains(x) by {
            let p = choose|p: int| 0 <= p < proc.len() && proc[p] == x;
        }
    }
    lemma_int_range(0, n as int);
    lemma_len_subset(proc.to_set(), set_int_range(0, n as int).remove(t));
    proc.unique_seq_to_set();
}

/// The release phase starts from the state after taking the first queued task.
proof fn lemma_kahn_release_start(
    g: GraphSpec,
    remaining: Seq<usize>,
    q0: Seq<usize>,
    proc: Seq<int>,
    done: Set<Seq<char>>,
    released: Seq<Seq<char>>,
)
    requires
        g.tasks.len() <= usize::MAX,
        kahn_state(g, remaining, q0, proc, done),
        q0.len() > 0,
        q0[0] < g.tasks.len(),
        !proc.contains(q0[0] as int),
        g.deps(q0[0] as int).subset_of(done),
        !done.contains(g.ids()[q0[0] as int]),
        g.ids().no_duplicates(),
        forall|i: int| 0 <= i < g.tasks.len() ==> #[trigger] g.deps(i).finite(),
        released == g.dependents_of(g.ids()[q0[0] as int]),
    ensures
        kahn_release_state(
            g,
            remaining,
            q0.subrange(1, q0.len() as int),
            proc.push(q0[0] as int),
            done.insert(g.ids()[q0[0] as int]),
            released,
            0,
        ),
{
    let n = g.tasks.len();
    let t = q0[0] as int;
    let tid = g.ids()[t];
    let proc2 = proc.push(t);
    let done2 = done.insert(tid);
    let queue = q0.subrange(1, q0.len() as int);
    assert forall|u: Seq<char>|
        (exists|q: int| 0 <= q < proc2.len() && #[trigger] g.ids()[proc2[q]] == u) implies done2.contains(u) by {
        let q = choose|q: int| 0 <= q < proc2.len() && #[trigger] g.ids()[proc2[q]] == u;
        if q < proc.len() {
            assert(g.ids()[proc[q]] == u);
        }
    }
    assert forall|u: Seq<char>|
        done2.contains(u) implies exists|q: int| 0 <= q < proc2.len() && #[trigger] g.ids()[proc2[q]] == u by {
        if u == tid {
            assert(g.ids()[proc2[proc.len() as int]] == u);
        } else {
            let q = choose|q: int| 0 <= q < proc.len() && #[trigger] g.ids()[proc[q]] == u;
            assert(g.ids()[proc2[q]] == u);
        }
    }
    assert forall|p: int, u: Seq<char>|
        0 <= p < proc2.len() && #[trigger] g.deps(proc2[p]).contains(u) implies exists|q: int|
            0 <= q < p && #[trigger] g.ids()[proc2[q]] == u by {
        if p < proc.len() {
            assert(g.deps(proc[p]).contains(u));
            let q = choose|q: int| 0 <= q < p && #[trigger] g.ids()[proc[q]] == u;
            assert(g.ids()[proc2[q]] == u);
        } else {
            assert(done.contains(u));
            let q = choose|q: int| 0 <= q < proc.len() && #[trigger] g.ids()[proc[q]] == u;
            assert(g.ids()[proc2[q]] == u);
        }
    }
    assert forall|x: int| 0 <= x < queue.len() implies #[trigger] queue[x] < n && !proc2.contains(queue[x] as int) by {
        assert(queue[x] == q0[x + 1]);
        assert(q0[x + 1] != q0[0]);
        if proc2.contains(queue[x] as int) {
            let p = choose|p: int| 0 <= p < proc2.len() && proc2[p] == queue[x] as int;
            if p < proc.len() {
                assert(proc.contains(q0[x + 1] as int));
            }
        }
    }
    assert forall|i: int| 0 <= i < n implies #[trigger] remaining[i] == g.deps(i).difference(done2).len() + (if released.contains(
        g.ids()[i],
    ) && !released.take(0).contains(g.ids()[i]) {
        1int
    } else {
        0int
    }) by {
        let before = g.deps(i).difference(done);
        assert(g.deps(i).difference(done2) =~= before.remove(tid));
        assert(before.finite());
        assert(before.contains(tid) == g.deps(i).contains(tid));
        lemma_referrers_contains(g.tasks, tid, g.ids()[i]);
        if released.contains(g.ids()[i]) {
            let i2 = choose|i2: int|
                0 <= i2 < g.tasks.len() && g.tasks[i2].id@ == g.ids()[i] && #[trigger] refers_to(g.tasks[i2], tid);
            assert(g.ids()[i2] == g.ids()[i]);
        } else {
            if refers_to(g.tasks[i], tid) {
                assert(g.tasks[i].id@ == g.ids()[i]);
            }
        }
        assert(released.take(0) =~= Seq::<Seq<char>>::empty());
    }
    assert forall|i: int|
        0 <= i < n && !proc2.contains(i) implies (queue.contains(i as usize) <==> #[trigger] remaining[i] == 0) by {
        assert(proc2[proc.len() as int] == t);
        assert(i != t);
        if proc.contains(i) {
            let p = choose|p: int| 0 <= p < proc.len() && proc[p] == i;
            assert(proc2[p] == i);
        }
        assert(!proc.contains(i));
        if queue.contains(i as usize) {
            let x = choose|x: int| 0 <= x < queue.len() && queue[x] == i as usize;
            assert(q0[x + 1] == i as usize);
        }
        if q0.contains(i as usize) {
            let x = choose|x: int| 0 <= x < q0.len() && q0[x] == i as usize;
            assert(x != 0);
            assert(queue[x - 1] == i as usize);
        }
    }
}

/// Releasing the task named `released[d]`, at position `j`: its count is
/// positive, and it was neither taken nor queued.
proof fn lemma_kahn_release_step(
    g: GraphSpec,
    remaining: Seq<usize>,
    queue: Seq<usize>,
    proc: Seq<int>,
    done: Set<Seq<char>>,
    released: Seq<Seq<char>>,
    d: int,
    t: int,
    j: int,
)
    requires
        g.tasks.len() <= usize::MAX,
        kahn_release_state(g, remaining, queue, proc, done, released, d),
        d < released.len(),
        released.no_duplicates(),
        g.ids().no_duplicates(),
        0 <= t < g.tasks.len(),
        proc.len() > 0,
        proc.last() == t,
        released == g.dependents_of(g.ids()[t]),
        0 <= j < g.tasks.len(),
        g.ids()[j] == released[d],
    ensures
        remaining[j] >= 1,
        !proc.contains(j),
        !queue.contains(j as usize),
        g.deps(j).contains(g.ids()[t]),
{
    let tid = g.ids()[t];
    assert(released[d] == g.ids()[j]);
    assert(released.contains(g.ids()[j]));
    assert(!released.take(d).contains(g.ids()[j])) by {
        if released.take(d).contains(g.ids()[j]) {
            let y = choose|y: int| 0 <= y < d && released.take(d)[y] == g.ids()[j];
            assert(released[y] == released[d]);
        }
    }
    lemma_referrers_contains(g.tasks, tid, g.ids()[j]);
    let i2 = choose|i2: int|
        0 <= i2 < g.tasks.len() && g.tasks[i2].id@ == g.ids()[j] && #[trigger] refers_to(g.tasks[i2], tid);
    assert(g.ids()[i2] == g.ids()[j]);
    assert(g.deps(j).contains(tid));
    if proc.contains(j) {
        let p = choose|p: int| 0 <= p < proc.len() && proc[p] == j;
        assert(g.deps(proc[p]).contains(tid));
        let q = choose|q: int| 0 <= q < p && #[trigger] g.ids()[proc[q]] == tid;
        assert(proc[q] == t);
        assert(proc[proc.len() - 1] == t);
    }
    assert(remaining[j] == g.deps(j).difference(done).len() + 1);
    assert(queue.contains(j as usize) <==> remaining[j] == 0);
}

/// After decrementing the count of the task at `j` and queueing it when the
/// count reached zero, `d + 1` entries are handled.
proof fn lemma_kahn_release_step_after(
    g: GraphSpec,
    r0: Seq<usize>,
    q0: Seq<usize>,
    remaining: Seq<usize>,
    queue: Seq<usize>,
    proc: Seq<int>,
    done: Set<Seq<char>>,
    released: Seq<Seq<char>>,
    d: int,
    j: int,
)
    requires
        g.tasks.len() <= usize::MAX,
        kahn_release_state(g, r0, q0, proc, done, released, d),
        d < released.len(),
        released.no_duplicates(),
        g.ids().no_duplicates(),
        0 <= j < g.tasks.len(),
        g.ids()[j] == released[d],
        r0[j] >= 1,
        !proc.contains(j),
        !q0.contains(j as usize),
        remaining == r0.update(j, (r0[j] - 1) as usize),
        queue == if r0[j] == 1 { q0.push(j as usize) } else { q0 },
    ensures
        kahn_release_state(g, remaining, queue, proc, done, released, d + 1),
{
    let n = g.tasks.len();
    assert(released.take(d + 1) =~= released.take(d).push(released[d]));
    assert(!released.take(d).contains(g.ids()[j])) by {
        if released.take(d).contains(g.ids()[j]) {
            let y = choose|y: int| 0 <= y < d && released.take(d)[y] == g.ids()[j];
            assert(released[y] == released[d]);
        }
    }
    assert(released.take(d + 1)[d] == g.ids()[j]);
    assert forall|i: int| 0 <= i < n implies #[trigger] remaining[i] == g.deps(i).difference(done).len() + (if released.contains(
        g.ids()[i],
    ) && !released.take(d + 1).contains(g.ids()[i]) {
        1int
    } else {
        0int
    }) by {
        if i != j {
            assert(remaining[i] == r0[i]);
            assert(g.ids()[i] != g.ids()[j]);
            assert(released.take(d + 1).contains(g.ids()[i]) == released.take(d).contains(g.ids()[i]));
        }
    }
    assert forall|x: int| 0 <= x < queue.len() implies #[trigger] queue[x] < n && !proc.contains(queue[x] as int) by {
        if r0[j] == 1 {
            if x < q0.len() {
                assert(queue[x] == q0[x]);
            } else {
                assert(queue[x] == j as usize);
            }
        } else {
            assert(queue[x] == q0[x]);
        }
    }
    if r0[j] == 1 {
        assert forall|x: int, y: int| 0 <= x < y < queue.len() implies queue[x] != queue[y] by {
            if y == q0.len() {
                assert(q0[x] == queue[x]);
                assert(q0.contains(queue[x]));
            } else {
                assert(q0[x] == queue[x] && q0[y] == queue[y]);
            }
        }
    }
    assert forall|i: int|
        0 <= i < n && !proc.contains(i) implies (queue.contains(i as usize) <==> #[trigger] remaining[i] == 0) by {
        if i != j {
            assert(remaining[i] == r0[i]);
            if queue.contains(i as usize) {
                let x = choose|x: int| 0 <= x < queue.len() && queue[x] == i as usize;
                if x < q0.len() {
                    assert(q0[x] == i as usize);
                } else {
                    assert(queue[x] == j as usize);
                }
            }
            if q0.contains(i as usize) {
                let x = choose|x: int| 0 <= x < q0.len() && q0[x] == i as usize;
                assert(queue[x] == i as usize);
            }
        } else {
            if r0[j] == 1 {
                assert(queue[q0.len() as int] == j as usize);
            } else {
                assert(queue == q0);
            }
        }
    }
}

/// When every dependent is released, the bookkeeping is Kahn's state again.
proof fn lemma_kahn_release_finish(
    g: GraphSpec,
    remaining: Seq<usize>,
    queue: Seq<usize>,
    proc: Seq<int>,
    done: Set<Seq<char>>,
    released: Seq<Seq<char>>,
)
    requires
        kahn_release_state(g, remaining, queue, proc, done, released, released.len() as int),
    ensures
        kahn_state(g, remaining, queue, proc, done),
{
    assert(released.take(released.len() as int) =~= released);
}

/// When the queue runs dry, all tasks were taken exactly when a topological order exists.
proof fn lemma_kahn_conclusion(g: GraphSpec, remaining: Seq<usize>, proc: Seq<int>, done: Set<Seq<char>>)
    requires
        g.tasks.len() <= usize::MAX,
        kahn_state(g, remaining, Seq::empty(), proc, done),
        g.ids().no_duplicates(),
        forall|i: int| 0 <= i < g.tasks.len() ==> #[trigger] g.deps(i).finite(),
    ensures
        (proc.len() < g.tasks.len()) == !g.has_topological_order(),
{
    let n = g.tasks.len();
    assert(proc.len() <= n) by {
        assert(proc.to_set().subset_of(set_int_range(0, n as int))) by {
            assert forall|x: int| proc.to_set().contains(x) implies set_int_range(0, n as int).contains(x) by {
                let p = choose|p: int| 0 <= p < proc.len() && proc[p] == x;
            }
        }
        lemma_int_range(0, n as int);
        lemma_len_subset(proc.to_set(), set_int_range(0, n as int));
        proc.unique_seq_to_set();
    }
    if proc.len() == n {
        assert(g.is_topological_order(proc));
    } else {
        assert forall|i: int| 0 <= i < n && !proc.contains(i) implies exists|u: Seq<char>|
            #[trigger] g.deps(i).contains(u) && !done.contains(u) by {
            assert(!Seq::<usize>::empty().contains(i as usize));
            assert(remaining[i] != 0);
            let rest = g.deps(i).difference(done);
            if rest =~= Set::empty() {
                assert(rest.len() == 0);
            }
            let u = choose|u: Seq<char>| rest.contains(u);
            assert(g.deps(i).contains(u) && !done.contains(u));
        }
        if g.has_topological_order() {
            let order = choose|order: Seq<int>| g.is_topological_order(order);
            assert forall|p: int| 0 <= p < order.len() implies proc.contains(#[trigger] order[p]) by {
                lemma_leftover_blocks_order(g, proc, done, order, p);
            }
            assert(order.to_set().subset_of(proc.to_set()));
            order.unique_seq_to_set();
            proc.unique_seq_to_set();
            lemma_len_subset(order.to_set(), proc.to_set());
        }
    }
}

/// If Kahn's algorithm stops with tasks left over, no topological order exists.
proof fn lemma_leftover_blocks_order(g: GraphSpec, proc: Seq<int>, done: Set<Seq<char>>, order: Seq<int>, p: int)
    requires
        g.is_topological_order(order),
        0 <= p < order.len(),
        forall|u: Seq<char>|
            done.contains(u) <==> exists|q: int| 0 <= q < proc.len() && #[trigger] g.ids()[proc[q]] == u,
        forall|i: int|
            0 <= i < g.tasks.len() && !proc.contains(i) ==> exists|u: Seq<char>|
                #[trigger] g.deps(i).contains(u) && !done.contains(u),
    ensures
        proc.contains(order[p]),
    decreases p,
{
    if !proc.contains(order[p]) {
        let i = order[p];
        let u = choose|u: Seq<char>| #[trigger] g.deps(i).contains(u) && !done.contains(u);
        let q = choose|q: int| 0 <= q < p && #[trigger] g.ids()[order[q]] == u;
        lemma_leftover_blocks_order(g, proc, done, order, q);
        let x = choose|x: int| 0 <= x < proc.len() && proc[x] == order[q];
        assert(g.ids()[proc[x]] == u);
    }
}

impl TaskGraph {
    /// The position of the task named `id`.
    fn task_position(&self, id: &String) -> (result: Option<usize>)
        ensures
            match result {
                Some(i) => i < self@.tasks.len() && self@.ids()[i as int] == id@,
                None => !self@.has_task(id@),
            },
    {
        let n = self.tasks.len();
        let mut i: usize = 0;
        while i < n
            invariant
                n == self@.tasks.len(),
                i <= n,
                forall|k: int| 0 <= k < i ==> self@.ids()[k] != id@,
            decreases n - i,
        {
            if self.tasks[i].id == *id {
                return Some(i);
            }
            i = i + 1;
        }
        None
    }

    /// The definitions in submission order.
    pub fn tasks(&self) -> (result: &Vec<TaskDefinition>)
        ensures
            result@ == self@.tasks,
            self@.ids().no_duplicates(),
            arguments_named_once(self@.tasks),
    {
        proof {
            use_type_invariant(self);
        }
        &self.tasks
    }

    /// The requested outputs in submission order.
    pub fn outputs(&self) -> (result: &Vec<String>)
        ensures
            result.deep_view() == self@.outputs,
    {
        &self.outputs
    }

    /// The distinct prerequisites of the task `task_id`, or `None` for an undefined task.
    pub fn dependencies(&self, task_id: &str) -> (result: Option<&Vec<String>>)
        ensures
            self@.ids().no_duplicates(),
            match result {
                Some(prerequisites) => {
                    &&& self@.has_task(task_id@)
                    &&& prerequisites.deep_view().no_duplicates()
                    &&& prerequisites.deep_view().to_set() == self@.dependencies_of(task_id@)
                },
                None => !self@.has_task(task_id@),
            },
    {
        proof {
            use_type_invariant(self);
        }
        let key = task_id.to_owned();
        match self.task_position(&key) {
            Some(i) => {
                assert(self.dependencies@[i as int].deep_view().to_set() == self@.deps(i as int));
                assert(self@.ids().index_of(task_id@) == i);
                Some(&self.dependencies[i])
            },
            None => None,
        }
    }

    /// The tasks that depend on `task_id`, in submission order, or `None` for
    /// a name that the graph neither defines nor references.
    pub fn dependents(&self, task_id: &str) -> (result: Option<&Vec<String>>)
        ensures
            self@.ids().no_duplicates(),
            match result {
                Some(dependents) => {
                    &&& self@.node_ids().contains(task_id@)
                    &&& dependents.deep_view() == self@.dependents_of(task_id@)
                },
                None => !self@.node_ids().contains(task_id@),
            },
    {
        proof {
            use_type_invariant(self);
        }
        let key = task_id.to_owned();
        match position_of(&self.dependent_keys, &key) {
            Some(k) => {
                assert(self.dependent_keys.deep_view()[k as int] == task_id@);
                Some(&self.dependent_lists[k])
            },
            None => None,
        }
    }

    /// Whether the graph is safe to accept; the error names the first rule broken.
    pub fn validate(&self) -> (result: Result<(), String>)
        ensures
            result is Ok <==> self@.validation_error() is None,
            result matches Err(message) ==> self@.validation_error() == Some(message@),
    {
        proof {
            use_type_invariant(self);
        }
        let ghost g = self@;
        let n = self.tasks.len();
        if n == 0 {
            return Err(String::from_str("Need at least one task"));
        }
        if self.outputs.len() == 0 {
            return Err(String::from_str("Need at least one requested output"));
        }
        for i in 0..n
            invariant
                n == g.tasks.len(),
                n > 0,
                g.outputs.len() > 0,
                g == self@,
                forall|k: int| 0 <= k < i ==> #[trigger] named(g.tasks[k]),
        {
            if blank(&self.tasks[i].id) || blank(&self.tasks[i].function) {
                assert(is_blank(g.tasks[i as int].id@) || is_blank(g.tasks[i as int].function@));
                assert(g.has_blank_name());
                return Err(String::from_str("Task IDs and function names must be nonempty"));
            }
            assert(named(g.tasks[i as int]));
        }
        assert(!g.has_blank_name()) by {
            if g.has_blank_name() {
                let i = choose|i: int|
                    0 <= i < g.tasks.len() && (is_blank(#[trigger] g.tasks[i].id@) || is_blank(g.tasks[i].function@));
                assert(named(g.tasks[i]));
            }
        }
        for i in 0..n
            invariant
                n == g.tasks.len(),
                n > 0,
                g.outputs.len() > 0,
                g == self@,
                !g.has_blank_name(),
                forall|i2: int, k2: int| 0 <= i2 < i ==> !#[trigger] g.is_missing_reference(i2, k2),
        {
            let task = &self.tasks[i];
            let m = task.args.len();
            for k in 0..m
                invariant
                    n == g.tasks.len(),
                    n > 0,
                    g.outputs.len() > 0,
                    !g.has_blank_name(),
                    g == self@,
                    i < n,
                    task == g.tasks[i as int],
                    m == task.args@.len(),
                    forall|i2: int, k2: int| 0 <= i2 < i ==> !#[trigger] g.is_missing_reference(i2, k2),
                    forall|k2: int| 0 <= k2 < k ==> !#[trigger] g.is_missing_reference(i as int, k2),
            {
                match &task.args[k].1 {
                    Argument::FromTask(upstream) => {
                        match self.task_position(upstream) {
                            Some(_) => {},
                            None => {
                                let mut message = String::from_str("Task '");
                                message.append(task.id.as_str());
                                message.append("', argument '");
                                message.append(task.args[k].0.as_str());
                                message.append("': referenced task '");
                                message.append(upstream.as_str());
                                message.append("' does not exist.");
                                proof {
                                    assert(g.is_missing_reference(i as int, k as int));
                                    assert(g.is_first_missing_reference(i as int, k as int));
                                    let (i3, k3) = choose|i3: int, k3: int| g.is_first_missing_reference(i3, k3);
                                    assert(i3 == i && k3 == k);
                                    assert(message@ =~= g.missing_reference_message(i as int, k as int));
                                }
                                return Err(message);
                            },
                        }
                    },
                    Argument::Value(_) => {},
                }
            }
        }
        assert(!exists|i: int, k: int| g.is_missing_reference(i, k));
        let m = self.outputs.len();
        for o in 0..m
            invariant
                n == g.tasks.len(),
                g == self@,
                n > 0,
                m == g.outputs.len(),
                m > 0,
                self.outputs.deep_view() == g.outputs,
                !g.has_blank_name(),
                !exists|i: int, k: int| g.is_missing_reference(i, k),
                forall|o2: int| 0 <= o2 < o ==> g.has_task(#[trigger] g.outputs[o2]),
        {
            if self.task_position(&self.outputs[o]).is_none() {
                let mut message = String::from_str("Requested output '");
                message.append(self.outputs[o].as_str());
                message.append("' does not reference an existing task");
                proof {
                    assert(g.outputs[o as int] == self.outputs@[o as int]@);
                    assert(g.is_first_missing_output(o as int));
                    assert(exists|o4: int| 0 <= o4 < g.outputs.len() && !g.has_task(#[trigger] g.outputs[o4]));
                    let o3 = choose|o3: int| g.is_first_missing_output(o3);
                    assert(o3 == o);
                    assert(message@ =~= "Requested output '"@ + g.outputs[o as int]
                        + "' does not reference an existing task"@);
                }
                return Err(message);
            }
        }
        if self.detect_cycle() {
            return Err(String::from_str("DAG cannot contain a cycle"));
        }
        Ok(())
    }

    /// The nodes of the drawing in ascending order of name, each with its label.
    pub fn drawing_nodes(&self) -> (nodes: Vec<(String, String)>)
        ensures
            strictly_sorted(nodes@.map_values(|p: (String, String)| p.0@)),
            nodes@.map_values(|p: (String, String)| p.0@).to_set() == self@.drawn_ids(),
            forall|k: int| 0 <= k < nodes@.len() ==> #[trigger] nodes@[k].1@ == self@.node_label(nodes@[k].0@),
            pairs_view(nodes@) == self@.drawing_node_list(),
    {
        proof {
            use_type_invariant(self);
        }
        let ghost g = self@;
        let mut ids: Vec<String> = Vec::new();
        let nk = self.dependent_keys.len();
        for k in 0..nk
            invariant
                nk == self.dependent_keys@.len(),
                strictly_sorted(ids.deep_view()),
                ids.deep_view().to_set() == self.dependent_keys.deep_view().take(k as int).to_set(),
        {
            insert_sorted(&mut ids, self.dependent_keys[k].clone());
            proof {
                let keys = self.dependent_keys.deep_view();
                assert(keys.take(k + 1) =~= keys.take(k as int).push(keys[k as int]));
                keys.take(k as int).lemma_push_to_set_commute(keys[k as int]);
            }
        }
        assert(self.dependent_keys.deep_view().take(nk as int) =~= self.dependent_keys.deep_view());
        let no = self.outputs.len();
        for o in 0..no
            invariant
                no == g.outputs.len(),
                g == self@,
                self.outputs.deep_view() == g.outputs,
                strictly_sorted(ids.deep_view()),
                ids.deep_view().to_set() == g.node_ids() + g.outputs.take(o as int).to_set(),
        {
            insert_sorted(&mut ids, self.outputs[o].clone());
            proof {
                assert(g.outputs.take(o + 1) =~= g.outputs.take(o as int).push(g.outputs[o as int]));
                g.outputs.take(o as int).lemma_push_to_set_commute(g.outputs[o as int]);
                assert(ids.deep_view().to_set() =~= g.node_ids() + g.outputs.take(o + 1).to_set());
            }
        }
        assert(g.outputs.take(no as int) =~= g.outputs);
        let mut nodes: Vec<(String, String)> = Vec::new();
        let m = ids.len();
        for k in 0..m
            invariant
                m == ids@.len(),
                g == self@,
                g.ids().no_duplicates(),
                self.outputs.deep_view() == g.outputs,
                nodes@.len() == k,
                forall|x: int| 0 <= x < k ==> (#[trigger] nodes@[x]).0@ == ids@[x]@,
                forall|x: int| 0 <= x < k ==> #[trigger] nodes@[x].1@ == g.node_label(nodes@[x].0@),
        {
            let id = &ids[k];
            let mut label = escape_debug(id.as_str());
            label.append("\n");
            match self.task_position(id) {
                Some(i) => {
                    let function = escape_debug(self.tasks[i].function.as_str());
                    label.append(function.as_str());
                    assert(g.has_task(id@));
                    assert(g.ids().index_of(id@) == i);
                },
                None => {
                    label.append("[undefined task]");
                },
            }
            match position_of(&self.outputs, id) {
                Some(x) => {
                    label.append("\n[output]");
                    assert(g.outputs[x as int] == id@);
                    assert(g.outputs.contains(id@));
                },
                None => {},
            }
            assert(label@ =~= g.node_label(id@));
            nodes.push((id.clone(), label));
        }
        assert(nodes@.map_values(|p: (String, String)| p.0@) =~= ids.deep_view());
        proof {
            let listed = pairs_view(nodes@);
            assert(listed.map_values(|p: (Seq<char>, Seq<char>)| p.0) =~= ids.deep_view());
            assert(g.lists_drawing_nodes(listed));
            law_drawing_order_is_stable(g, listed, Seq::empty());
        }
        nodes
    }

    /// The arrows of the drawing in ascending order of (prerequisite, dependent).
    pub fn drawing_edges(&self) -> (edges: Vec<(String, String)>)
        ensures
            pairs_strictly_sorted(pairs_view(edges@)),
            pairs_view(edges@).to_set() == self@.drawn_edges(),
            pairs_view(edges@) == self@.drawing_edge_list(),
    {
        proof {
            use_type_invariant(self);
        }
        let ghost g = self@;
        let n = self.tasks.len();
        let mut edges: Vec<(String, String)> = Vec::new();
        for t in 0..n
            invariant
                n == g.tasks.len(),
                g == self@,
                self.dependencies@.len() == n,
                forall|i: int|
                    0 <= i < n ==> (#[trigger] self.dependencies@[i]).deep_view().to_set() == g.deps(i),
                pairs_strictly_sorted(pairs_view(edges@)),
                pairs_view(edges@).to_set() == Set::new(
                    |e: (Seq<char>, Seq<char>)|
                        exists|i: int| 0 <= i < t && #[trigger] g.ids()[i] == e.1 && g.deps(i).contains(e.0),
                ),
        {
            let prerequisites = &self.dependencies[t];
            let m = prerequisites.len();
            let ghost base = pairs_view(edges@).to_set();
            let ghost pre = prerequisites.deep_view();
            assert(pre.to_set() == g.deps(t as int));
            for d in 0..m
                invariant
                    m == pre.len(),
                    pre == prerequisites.deep_view(),
                    t < n,
                    n == g.tasks.len(),
                    g == self@,
                    pairs_strictly_sorted(pairs_view(edges@)),
                    pairs_view(edges@).to_set() == base + pre.take(d as int).to_set().map(
                        |u: Seq<char>| (u, g.ids()[t as int]),
                    ),
            {
                insert_sorted_pair(&mut edges, (prerequisites[d].clone(), self.tasks[t].id.clone()));
                proof {
                    let f = |u: Seq<char>| (u, g.ids()[t as int]);
                    assert(pre.take(d + 1) =~= pre.take(d as int).push(pre[d as int]));
                    pre.take(d as int).lemma_push_to_set_commute(pre[d as int]);
                    assert(pre.take(d + 1).to_set().map(f) =~= pre.take(d as int).to_set().map(f).insert(f(pre[d as int]))) by {
                        assert forall|e: (Seq<char>, Seq<char>)| #[trigger] pre.take(d + 1).to_set().map(f).contains(e) implies
                            pre.take(d as int).to_set().map(f).insert(f(pre[d as int])).contains(e) by {
                            let u = choose|u: Seq<char>| #[trigger] pre.take(d + 1).to_set().contains(u) && f(u) == e;
                            if u != pre[d as int] {
                                assert(pre.take(d as int).to_set().contains(u));
                            }
                        }
                        assert forall|e: (Seq<char>, Seq<char>)| #[trigger] pre.take(d as int).to_set().map(f).insert(f(pre[d as int])).contains(e)
                            implies pre.take(d + 1).to_set().map(f).contains(e) by {
                            if e == f(pre[d as int]) {
                                assert(pre.take(d + 1).to_set().contains(pre[d as int]));
                            } else {
                                let u = choose|u: Seq<char>| #[trigger] pre.take(d as int).to_set().contains(u) && f(u) == e;
                                assert(pre.take(d + 1).to_set().contains(u));
                            }
                        }
                    }
                    assert(pairs_view(edges@).to_set() =~= base + pre.take(d + 1).to_set().map(f));
                }
            }
            proof {
                let f = |u: Seq<char>| (u, g.ids()[t as int]);
                assert(pre.take(m as int) =~= pre);
                assert(pairs_view(edges@).to_set() =~= Set::new(
                    |e: (Seq<char>, Seq<char>)|
                        exists|i: int| 0 <= i < t + 1 && #[trigger] g.ids()[i] == e.1 && g.deps(i).contains(e.0),
                )) by {
                    assert forall|e: (Seq<char>, Seq<char>)| #[trigger] pairs_view(edges@).to_set().contains(e) implies
                        exists|i: int| 0 <= i < t + 1 && #[trigger] g.ids()[i] == e.1 && g.deps(i).contains(e.0) by {
                        if !base.contains(e) {
                            let u = choose|u: Seq<char>| #[trigger] pre.to_set().contains(u) && f(u) == e;
                            assert(g.ids()[t as int] == e.1 && g.deps(t as int).contains(e.0));
                        }
                    }
                    assert forall|e: (Seq<char>, Seq<char>)|
                        (exists|i: int| 0 <= i < t + 1 && #[trigger] g.ids()[i] == e.1 && g.deps(i).contains(e.0))
                        implies pairs_view(edges@).to_set().contains(e) by {
                        let i = choose|i: int| 0 <= i < t + 1 && #[trigger] g.ids()[i] == e.1 && g.deps(i).contains(e.0);
                        if i == t {
                            assert(pre.to_set().contains(e.0));
                            assert(f(e.0) == e);
                        } else {
                            assert(base.contains(e));
                        }
                    }
                }
            }
        }
        proof {
            assert(g.lists_drawing_edges(pairs_view(edges@)));
            law_drawing_order_is_stable(g, Seq::empty(), pairs_view(edges@));
        }
        edges
    }

    /// Draws each name once, with dependency arrows flowing top to bottom.
    pub fn draw_graph(&self) -> (drawing: String)
        ensures
            drawing@ == self@.drawing_text(),
    {
        let nodes = self.drawing_nodes();
        if nodes.len() == 0 {
            assert(nodes@.map_values(|p: (String, String)| p.0@) =~= Seq::<Seq<char>>::empty());
            assert(self@.drawn_ids() =~= Set::<Seq<char>>::empty());
            return String::from_str("Task graph (empty)\n");
        }
        proof {
            let ids = nodes@.map_values(|p: (String, String)| p.0@);
            assert(ids.to_set().contains(ids[0]));
        }
        let edges = self.drawing_edges();
        let rendered = render_flowchart(&nodes, &edges, DRAWING_DIRECTION, DRAWING_OUTLINE, DRAWING_LAYER_GAP, DRAWING_NODE_GAP);
        frame_drawing(rendered.as_str())
    }

    /// Returns true when Kahn's algorithm cannot take every task, that is,
    /// when no order runs each task after all of its prerequisites.
    pub fn detect_cycle(&self) -> (result: bool)
        ensures
            result == !self@.has_topological_order(),
    {
        proof {
            use_type_invariant(self);
        }
        let ghost g = self@;
        let n = self.tasks.len();
        proof {
            assert forall|i: int| 0 <= i < n implies #[trigger] g.deps(i).finite() by {
                assert(self.dependencies@[i].deep_view().to_set() == g.deps(i));
                seq_to_set_is_finite(self.dependencies@[i].deep_view());
            }
        }
        let mut remaining: Vec<usize> = Vec::new();
        for i in 0..n
            invariant
                n == g.tasks.len(),
                g == self@,
                self.dependencies@.len() == n,
                forall|k: int|
                    0 <= k < n ==> {
                        &&& (#[trigger] self.dependencies@[k]).deep_view().no_duplicates()
                        &&& self.dependencies@[k].deep_view().to_set() == g.deps(k)
                    },
                remaining@.len() == i,
                forall|k: int| 0 <= k < i ==> #[trigger] remaining@[k] == g.deps(k).len(),
        {
            let count = self.dependencies[i].len();
            proof {
                assert(self.dependencies@[i as int].deep_view().to_set() == g.deps(i as int));
                self.dependencies@[i as int].deep_view().unique_seq_to_set();
            }
            remaining.push(count);
        }
        let mut queue: VecDeque<usize> = VecDeque::new();
        for i in 0..n
            invariant
                n == g.tasks.len(),
                remaining@.len() == n,
                queue@.no_duplicates(),
                forall|x: int| 0 <= x < queue@.len() ==> #[trigger] queue@[x] < i,
                forall|k: int| 0 <= k < i ==> (queue@.contains(k as usize) <==> #[trigger] remaining@[k] == 0),
        {
            let ghost q_before = queue@;
            if remaining[i] == 0 {
                queue.push_back(i);
                proof {
                    assert forall|x: int, y: int| 0 <= x < y < queue@.len() implies queue@[x] != queue@[y] by {
                        if y == q_before.len() {
                            assert(q_before[x] < i);
                        } else {
                            assert(q_before[x] == queue@[x] && q_before[y] == queue@[y]);
                        }
                    }
                    assert(queue@[q_before.len() as int] == i);
                }
            }
            proof {
                assert forall|k: int| 0 <= k < i + 1 implies (queue@.contains(k as usize) <==> #[trigger] remaining@[k] == 0) by {
                    if queue@.contains(k as usize) {
                        let x = choose|x: int| 0 <= x < queue@.len() && queue@[x] == k as usize;
                        if x < q_before.len() {
                            assert(q_before[x] == k as usize);
                        }
                    }
                    if q_before.contains(k as usize) {
                        let x = choose|x: int| 0 <= x < q_before.len() && q_before[x] == k as usize;
                        assert(queue@[x] == k as usize);
                    }
                    if k == i && remaining@[k] == 0 {
                        assert(queue@[q_before.len() as int] == k as usize);
                    }
                    if k == i && q_before.contains(k as usize) {
                        let x = choose|x: int| 0 <= x < q_before.len() && q_before[x] == k as usize;
                        assert(q_before[x] < i);
                    }
                }
            }
        }
        let ghost mut proc: Seq<int> = Seq::empty();
        let ghost mut done: Set<Seq<char>> = Set::empty();
        proof {
            assert forall|i: int| 0 <= i < n implies #[trigger] remaining@[i] == g.deps(i).difference(done).len() by {
                assert(g.deps(i).difference(done) =~= g.deps(i));
            }
        }
        let mut processed: usize = 0;
        loop
            invariant
                n == g.tasks.len(),
                g == self@,
                g.ids().no_duplicates(),
                forall|i: int| 0 <= i < n ==> #[trigger] g.deps(i).finite(),
                self.dependent_lists@.len() >= n,
                forall|k: int|
                    0 <= k < n ==> #[trigger] self.dependent_lists@[k].deep_view() == g.dependents_of(
                        g.ids()[k],
                    ),
                kahn_state(g, remaining@, queue@, proc, done),
                processed == proc.len(),
                processed <= n,
            ensures
                kahn_state(g, remaining@, queue@, proc, done),
                processed == proc.len(),
                queue@.len() == 0,
            decreases n - processed,
        {
            let ghost q0 = queue@;
            let next = queue.pop_front();
            let t = match next {
                Some(t) => t,
                None => break,
            };
            proof {
                lemma_kahn_take(g, remaining@, q0, proc, done);
            }
            processed = processed + 1;
            let list = &self.dependent_lists[t];
            let m = list.len();
            let ghost lv = list.deep_view();
            proof {
                lemma_referrers_distinct(g.tasks, g.ids()[t as int]);
                lemma_kahn_release_start(g, remaining@, q0, proc, done, lv);
                proc = proc.push(t as int);
                done = done.insert(g.ids()[t as int]);
            }
            for d in 0..m
                invariant
                    n == g.tasks.len(),
                    g == self@,
                    g.ids().no_duplicates(),
                    forall|i: int| 0 <= i < n ==> #[trigger] g.deps(i).finite(),
                    t < n,
                    proc.len() > 0,
                    proc.last() == t,
                    done.contains(g.ids()[t as int]),
                    m == lv.len(),
                    lv == list.deep_view(),
                    lv == g.dependents_of(g.ids()[t as int]),
                    lv.no_duplicates(),
                    kahn_release_state(g, remaining@, queue@, proc, done, lv, d as int),
                    processed == proc.len(),
                    processed <= n,
            {
                let ghost r0 = remaining@;
                let ghost q1 = queue@;
                let name = &list[d];
                proof {
                    assert(lv[d as int] == name@);
                    assert(lv.contains(name@));
                    lemma_referrers_contains(g.tasks, g.ids()[t as int], name@);
                    let i2 = choose|i2: int|
                        0 <= i2 < g.tasks.len() && g.tasks[i2].id@ == name@ && #[trigger] refers_to(
                            g.tasks[i2],
                            g.ids()[t as int],
                        );
                    assert(g.ids()[i2] == name@);
                    assert(g.has_task(name@));
                }
                let j = match self.task_position(name) {
                    Some(j) => j,
                    None => {
                        assert(false);
                        0
                    },
                };
                proof {
                    lemma_kahn_release_step(g, r0, q1, proc, done, lv, d as int, t as int, j as int);
                }
                let count = remaining[j] - 1;
                remaining.set(j, count);
                if count == 0 {
                    queue.push_back(j);
                }
                proof {
                    lemma_kahn_release_step_after(g, r0, q1, remaining@, queue@, proc, done, lv, d as int, j as int);
                }
            }
            proof {
                lemma_kahn_release_finish(g, remaining@, queue@, proc, done, lv);
            }
        }
        proof {
            lemma_kahn_conclusion(g, remaining@, proc, done);
        }
        processed < n
    }
}


/// Law: the two indexes agree. The dependents of a name are exactly the
/// tasks that list it among their prerequisites, each named once.
pub proof fn law_dependency_indexes_agree(g: GraphSpec, u: Seq<char>, x: Seq<char>)
    requires
        g.ids().no_duplicates(),
    ensures
        g.dependents_of(u).no_duplicates(),
        g.dependents_of(u).contains(x) <==> (g.has_task(x) && g.dependencies_of(x).contains(u)),
{
    lemma_referrers_distinct(g.tasks, u);
    lemma_referrers_contains(g.tasks, u, x);
    if g.dependents_of(u).contains(x) {
        let i = choose|i: int| 0 <= i < g.tasks.len() && g.tasks[i].id@ == x && #[trigger] refers_to(g.tasks[i], u);
        assert(g.ids()[i] == x);
        lemma_index_of_distinct(g.ids(), i);
        assert(g.deps(i).contains(u));
    }
    if g.has_task(x) && g.dependencies_of(x).contains(u) {
        let i = g.ids().index_of(x);
        assert(0 <= i < g.ids().len() && g.ids()[i] == x);
        assert(refers_to(g.tasks[i], u));
        assert(g.tasks[i].id@ == x);
    }
}

/// In a sequence without repetitions, the position of the element at `i` is `i`.
pub proof fn lemma_index_of_distinct<A>(s: Seq<A>, i: int)
    requires
        s.no_duplicates(),
        0 <= i < s.len(),
    ensures
        s.index_of(s[i]) == i,
{
    assert(s[i] == s[i]);
    let k = s.index_of(s[i]);
    assert(0 <= k < s.len() && s[k] == s[i]);
}


/// `cycle` is a closed walk through tasks: each task in it depends on the next,
/// and the last depends on the first.
pub open spec fn is_dependency_cycle(g: GraphSpec, cycle: Seq<int>) -> bool {
    &&& cycle.len() > 0
    &&& forall|k: int| 0 <= k < cycle.len() ==> 0 <= #[trigger] cycle[k] < g.tasks.len()
    &&& forall|k: int|
        0 <= k < cycle.len() ==> #[trigger] g.deps(cycle[k]).contains(g.ids()[cycle[(k + 1) % (cycle.len() as int)]])
}

/// Law: a graph with a dependency cycle (a task depending on itself included)
/// has no topological order, so `detect_cycle` reports it and `validate`
/// refuses it.
pub proof fn law_cycles_rule_out_every_order(g: GraphSpec, cycle: Seq<int>)
    requires
        g.ids().no_duplicates(),
        is_dependency_cycle(g, cycle),
    ensures
        !g.has_topological_order(),
{
    if g.has_topological_order() {
        let order = choose|order: Seq<int>| g.is_topological_order(order);
        let len = cycle.len() as int;
        let p0 = lemma_position_in_order(g, order, cycle[0]);
        lemma_positions_fall_along_cycle(g, order, cycle, len, p0);
        let pl = lemma_position_in_order(g, order, cycle[len % len]);
        assert(len % len == 0);
    }
}

/// Law: a graph whose references all name defined tasks and that has no
/// dependency cycle has a topological order, so `detect_cycle` does not
/// report it. With `law_cycles_rule_out_every_order`, a graph without
/// dangling references has a topological order exactly when it has no
/// dependency cycle.
pub proof fn law_acyclic_graphs_have_an_order(g: GraphSpec)
    requires
        forall|i: int, k: int| !#[trigger] g.is_missing_reference(i, k),
        forall|cycle: Seq<int>| !#[trigger] is_dependency_cycle(g, cycle),
    ensures
        g.has_topological_order(),
{
    lemma_order_from_prefix(g, Seq::empty());
}

/// The name `u` belongs to one of the tasks of `proc`.
spec fn taken(g: GraphSpec, proc: Seq<int>, u: Seq<char>) -> bool {
    exists|q: int| 0 <= q < proc.len() && #[trigger] g.ids()[proc[q]] == u
}

/// `proc` lists distinct tasks, each after all of its prerequisites.
spec fn is_run_prefix(g: GraphSpec, proc: Seq<int>) -> bool {
    &&& proc.no_duplicates()
    &&& forall|p: int| 0 <= p < proc.len() ==> 0 <= #[trigger] proc[p] < g.tasks.len()
    &&& forall|p: int, u: Seq<char>|
        0 <= p < proc.len() && #[trigger] g.deps(proc[p]).contains(u) ==> exists|q: int|
            0 <= q < p && #[trigger] g.ids()[proc[q]] == u
}

/// A task outside `proc` that task `i` waits for.
spec fn blocker(g: GraphSpec, proc: Seq<int>, i: int) -> int {
    g.ids().index_of(choose|u: Seq<char>| #[trigger] g.deps(i).contains(u) && !taken(g, proc, u))
}

/// From `start`, `len` steps each to a task that the previous one waits for.
spec fn blocked_walk(g: GraphSpec, proc: Seq<int>, start: int, len: nat) -> Seq<int>
    decreases len,
{
    if len == 0 {
        seq![start]
    } else {
        let w = blocked_walk(g, proc, start, (len - 1) as nat);
        w.push(blocker(g, proc, w.last()))
    }
}

/// A run prefix holds at most every task once, and leaves a task out when it
/// is shorter than the task list.
proof fn lemma_prefix_len(g: GraphSpec, proc: Seq<int>) -> (left: int)
    requires
        is_run_prefix(g, proc),
    ensures
        proc.len() <= g.tasks.len(),
        proc.len() < g.tasks.len() ==> 0 <= left < g.tasks.len() && !proc.contains(left),
{
    let n = g.tasks.len() as int;
    let range = set_int_range(0, n);
    lemma_int_range(0, n);
    proc.unique_seq_to_set();
    assert(proc.to_set().subset_of(range)) by {
        assert forall|x: int| proc.to_set().contains(x) implies range.contains(x) by {
            let p = choose|p: int| 0 <= p < proc.len() && proc[p] == x;
        }
    }
    lemma_len_subset(proc.to_set(), range);
    if proc.len() < n && range.subset_of(proc.to_set()) {
        lemma_len_subset(range, proc.to_set());
    }
    if proc.len() < n {
        let left = choose|x: int| range.contains(x) && !proc.to_set().contains(x);
        left
    } else {
        0
    }
}

/// When every task outside `proc` waits for another task outside it, a walk
/// along those waits stays outside `proc`, each step a prerequisite of the
/// step before.
proof fn lemma_blocked_walk(g: GraphSpec, proc: Seq<int>, start: int, len: nat)
    requires
        forall|i: int, k: int| !#[trigger] g.is_missing_reference(i, k),
        forall|i: int|
            0 <= i < g.tasks.len() && !proc.contains(i) ==> exists|u: Seq<char>|
                #[trigger] g.deps(i).contains(u) && !taken(g, proc, u),
        0 <= start < g.tasks.len(),
        !proc.contains(start),
    ensures
        blocked_walk(g, proc, start, len).len() == len + 1,
        forall|k: int|
            0 <= k <= len ==> 0 <= #[trigger] blocked_walk(g, proc, start, len)[k] < g.tasks.len()
                && !proc.contains(blocked_walk(g, proc, start, len)[k]),
        forall|k: int|
            0 <= k < len ==> #[trigger] g.deps(blocked_walk(g, proc, start, len)[k]).contains(
                g.ids()[blocked_walk(g, proc, start, len)[k + 1]],
            ),
    decreases len,
{
    if len > 0 {
        lemma_blocked_walk(g, proc, start, (len - 1) as nat);
        let w = blocked_walk(g, proc, start, (len - 1) as nat);
        let last = w.last();
        assert(w[len - 1] == last);
        let u = choose|u: Seq<char>| #[trigger] g.deps(last).contains(u) && !taken(g, proc, u);
        assert(g.deps(last).contains(u));
        let k = choose|k: int|
            0 <= k < g.tasks[last].args@.len() && #[trigger] upstream_of(g.tasks[last].args@[k].1) == Some(u);
        assert(!g.is_missing_reference(last, k));
        assert(g.has_task(u));
        let j = g.ids().index_of(u);
        assert(blocker(g, proc, last) == j);
        if proc.contains(j) {
            let q = choose|q: int| 0 <= q < proc.len() && proc[q] == j;
            assert(g.ids()[proc[q]] == u);
        }
        let w2 = blocked_walk(g, proc, start, len);
        assert(w2 == w.push(j));
        assert forall|x: int| 0 <= x <= len implies 0 <= #[trigger] w2[x] < g.tasks.len() && !proc.contains(w2[x]) by {
            if x < len {
                assert(w2[x] == w[x]);
            }
        }
        assert forall|x: int| 0 <= x < len implies #[trigger] g.deps(w2[x]).contains(g.ids()[w2[x + 1]]) by {
            if x < len - 1 {
                assert(w2[x] == w[x]);
                assert(w2[x + 1] == w[x + 1]);
            } else {
                assert(w2[x] == last);
            }
        }
    }
}

/// A run prefix extends to a topological order, unless some dependency
/// cycle stops it.
proof fn lemma_order_from_prefix(g: GraphSpec, proc: Seq<int>)
    requires
        forall|i: int, k: int| !#[trigger] g.is_missing_reference(i, k),
        forall|cycle: Seq<int>| !#[trigger] is_dependency_cycle(g, cycle),
        is_run_prefix(g, proc),
    ensures
        g.has_topological_order(),
    decreases g.tasks.len() - proc.len(),
{
    let n = g.tasks.len() as int;
    let left = lemma_prefix_len(g, proc);
    if proc.len() == n {
        assert(g.is_topological_order(proc));
    } else if exists|i: int|
        0 <= i < n && !proc.contains(i) && forall|u: Seq<char>| #[trigger] g.deps(i).contains(u) ==> taken(g, proc, u) {
        let i = choose|i: int|
            0 <= i < n && !proc.contains(i) && forall|u: Seq<char>| #[trigger] g.deps(i).contains(u) ==> taken(g, proc, u);
        let proc2 = proc.push(i);
        assert forall|p: int, u: Seq<char>|
            0 <= p < proc2.len() && #[trigger] g.deps(proc2[p]).contains(u) implies exists|q: int|
                0 <= q < p && #[trigger] g.ids()[proc2[q]] == u by {
            if p < proc.len() {
                assert(proc2[p] == proc[p]);
                let q = choose|q: int| 0 <= q < p && #[trigger] g.ids()[proc[q]] == u;
                assert(proc2[q] == proc[q]);
            } else {
                assert(taken(g, proc, u));
                let q = choose|q: int| 0 <= q < proc.len() && #[trigger] g.ids()[proc[q]] == u;
                assert(proc2[q] == proc[q]);
            }
        }
        assert forall|p: int| 0 <= p < proc2.len() implies 0 <= #[trigger] proc2[p] < n by {
            if p < proc.len() {
                assert(proc2[p] == proc[p]);
            }
        }
        assert(proc2.no_duplicates()) by {
            assert forall|a: int, b: int| 0 <= a < proc2.len() && 0 <= b < proc2.len() && a != b implies proc2[a] != proc2[b] by {
                if a < proc.len() && b < proc.len() {
                    assert(proc2[a] == proc[a] && proc2[b] == proc[b]);
                } else if a < proc.len() {
                    assert(proc2[a] == proc[a]);
                } else if b < proc.len() {
                    assert(proc2[b] == proc[b]);
                }
            }
        }
        lemma_order_from_prefix(g, proc2);
    } else {
        assert forall|i: int| 0 <= i < n && !proc.contains(i) implies exists|u: Seq<char>|
            #[trigger] g.deps(i).contains(u) && !taken(g, proc, u) by {
            assert(!forall|u: Seq<char>| #[trigger] g.deps(i).contains(u) ==> taken(g, proc, u));
        }
        lemma_blocked_walk(g, proc, left, n as nat);
        let w = blocked_walk(g, proc, left, n as nat);
        let range = set_int_range(0, n);
        lemma_int_range(0, n);
        assert(w.to_set().subset_of(range)) by {
            assert forall|x: int| w.to_set().contains(x) implies range.contains(x) by {
                let p = choose|p: int| 0 <= p < w.len() && w[p] == x;
                assert(0 <= w[p] < n);
            }
        }
        lemma_len_subset(w.to_set(), range);
        if w.no_duplicates() {
            w.unique_seq_to_set();
        }
        let (a0, b0) = choose|a: int, b: int| 0 <= a < w.len() && 0 <= b < w.len() && a != b && w[a] == w[b];
        let a = if a0 < b0 { a0 } else { b0 };
        let b = if a0 < b0 { b0 } else { a0 };
        let cycle = w.subrange(a, b);
        let len = b - a;
        assert(is_dependency_cycle(g, cycle)) by {
            assert forall|k: int| 0 <= k < cycle.len() implies 0 <= #[trigger] cycle[k] < n by {
                assert(cycle[k] == w[a + k]);
                assert(0 <= w[a + k] < n);
            }
            assert forall|k: int| 0 <= k < cycle.len() implies #[trigger] g.deps(cycle[k]).contains(
                g.ids()[cycle[(k + 1) % (cycle.len() as int)]],
            ) by {
                assert(cycle[k] == w[a + k]);
                assert(g.deps(w[a + k]).contains(g.ids()[w[a + k + 1]]));
                if k + 1 < len {
                    vstd::arithmetic::div_mod::lemma_small_mod((k + 1) as nat, len as nat);
                    assert(cycle[k + 1] == w[a + k + 1]);
                } else {
                    vstd::arithmetic::div_mod::lemma_mod_self_0(len);
                    assert(cycle[0] == w[a]);
                }
            }
        }
    }
}

/// Every task has a position in a topological order.
proof fn lemma_position_in_order(g: GraphSpec, order: Seq<int>, i: int) -> (p: int)
    requires
        g.is_topological_order(order),
        0 <= i < g.tasks.len(),
    ensures
        0 <= p < order.len(),
        order[p] == i,
{
    let n = g.tasks.len();
    if !order.contains(i) {
        assert(order.to_set().subset_of(set_int_range(0, n as int).remove(i))) by {
            assert forall|y: int| order.to_set().contains(y) implies set_int_range(0, n as int).remove(i).contains(y) by {
                let p = choose|p: int| 0 <= p < order.len() && order[p] == y;
            }
        }
        lemma_int_range(0, n as int);
        lemma_len_subset(order.to_set(), set_int_range(0, n as int).remove(i));
        order.unique_seq_to_set();
    }
    choose|p: int| 0 <= p < order.len() && order[p] == i
}

/// Along a dependency cycle, positions in a topological order strictly fall.
proof fn lemma_positions_fall_along_cycle(g: GraphSpec, order: Seq<int>, cycle: Seq<int>, k: int, p0: int)
    requires
        g.ids().no_duplicates(),
        g.is_topological_order(order),
        is_dependency_cycle(g, cycle),
        0 <= k <= cycle.len(),
        0 <= p0 < order.len(),
        order[p0] == cycle[0],
    ensures
        forall|p: int| 0 <= p < order.len() && order[p] == cycle[k % (cycle.len() as int)] ==> p <= p0 - k,
    decreases k,
{
    let len = cycle.len() as int;
    assert forall|p: int| 0 <= p < order.len() && order[p] == cycle[k % len] implies p <= p0 - k by {
        if k == 0 {
            assert(0int % len == 0);
            assert(order[p] == order[p0]);
        } else {
            lemma_positions_fall_along_cycle(g, order, cycle, k - 1, p0);
            let prev = cycle[(k - 1) % len];
            assert(((k - 1) % len + 1) % len == k % len) by {
                vstd::arithmetic::div_mod::lemma_add_mod_noop_right(1, k - 1, len);
            }
            assert(g.deps(prev).contains(g.ids()[cycle[k % len]]));
            let pp = lemma_position_in_order(g, order, prev);
            assert(pp <= p0 - (k - 1));
            assert(g.deps(order[pp]).contains(g.ids()[cycle[k % len]]));
            let q = choose|q: int| 0 <= q < pp && #[trigger] g.ids()[order[q]] == g.ids()[cycle[k % len]];
            assert(order[q] == cycle[k % len]);
            assert(order[q] == order[p]);
        }
    }
}


/// Law: a literal argument never adds a prerequisite, whatever JSON it holds,
/// even an object that looks like a reference.
pub proof fn law_literals_add_no_dependencies(
    task: TaskDefinition,
    extended: TaskDefinition,
    name: String,
    value: serde_json::Value,
    u: Seq<char>,
)
    requires
        extended.args@ == task.args@.push((name, Argument::Value(value))),
    ensures
        refers_to(extended, u) == refers_to(task, u),
{
    if refers_to(extended, u) {
        let k = choose|k: int| 0 <= k < extended.args@.len() && #[trigger] upstream_of(extended.args@[k].1) == Some(u);
        assert(k < task.args@.len());
        assert(upstream_of(task.args@[k].1) == Some(u));
    }
    if refers_to(task, u) {
        let k = choose|k: int| 0 <= k < task.args@.len() && #[trigger] upstream_of(task.args@[k].1) == Some(u);
        assert(upstream_of(extended.args@[k].1) == Some(u));
    }
}

/// Law: an accepted graph has a task and a requested output, no blank name,
/// every reference and requested output names a defined task, and its tasks
/// can run one after another with every prerequisite first.
pub proof fn law_accepted_graphs_can_run(g: GraphSpec)
    requires
        g.validation_error() is None,
    ensures
        g.tasks.len() > 0,
        g.outputs.len() > 0,
        !g.has_blank_name(),
        forall|i: int|
            0 <= i < g.tasks.len() ==> !is_blank(#[trigger] g.tasks[i].id@) && !is_blank(g.tasks[i].function@),
        forall|i: int, k: int| !#[trigger] g.is_missing_reference(i, k),
        forall|o: int| 0 <= o < g.outputs.len() ==> g.has_task(#[trigger] g.outputs[o]),
        g.has_topological_order(),
{
    assert forall|i: int|
        0 <= i < g.tasks.len() implies !is_blank(#[trigger] g.tasks[i].id@) && !is_blank(g.tasks[i].function@) by {
        if is_blank(g.tasks[i].id@) || is_blank(g.tasks[i].function@) {
            lemma_blank_name_is_refused(g, i);
        }
    }
}

/// Law: what validation answers, rule by rule. A graph without tasks is
/// refused for that; then one without requested outputs; a graph that keeps
/// every other rule but whose tasks cannot all run in some order is refused
/// as cyclic; and a graph that keeps every rule is accepted.
pub proof fn law_validation_answers(g: GraphSpec)
    ensures
        g.tasks.len() == 0 ==> g.validation_error() == Some("Need at least one task"@),
        g.tasks.len() > 0 && g.outputs.len() == 0 ==> g.validation_error() == Some(
            "Need at least one requested output"@,
        ),
        ({
            &&& g.tasks.len() > 0
            &&& g.outputs.len() > 0
            &&& forall|i: int|
                0 <= i < g.tasks.len() ==> !is_blank(#[trigger] g.tasks[i].id@) && !is_blank(g.tasks[i].function@)
            &&& forall|i: int, k: int| !#[trigger] g.is_missing_reference(i, k)
            &&& forall|o: int| 0 <= o < g.outputs.len() ==> g.has_task(#[trigger] g.outputs[o])
        }) ==> g.validation_error() == if g.has_topological_order() {
            None::<Seq<char>>
        } else {
            Some("DAG cannot contain a cycle"@)
        },
{
    if g.has_blank_name() {
        let i = choose|i: int|
            0 <= i < g.tasks.len() && (is_blank(#[trigger] g.tasks[i].id@) || is_blank(g.tasks[i].function@));
        assert(!is_blank(g.tasks[i].id@) && !is_blank(g.tasks[i].function@) ==> false);
    }
}

/// Law: a task at any position whose identifier or function name is blank
/// gets the graph refused; once the graph has a task and a requested output,
/// the refusal names the blank rule.
pub proof fn law_blank_names_are_refused(g: GraphSpec, i: int)
    requires
        0 <= i < g.tasks.len(),
        is_blank(g.tasks[i].id@) || is_blank(g.tasks[i].function@),
    ensures
        g.validation_error() is Some,
        g.outputs.len() > 0 ==> g.validation_error() == Some("Task IDs and function names must be nonempty"@),
{
    lemma_blank_name_is_refused(g, i);
}

proof fn lemma_blank_name_is_refused(g: GraphSpec, i: int)
    requires
        0 <= i < g.tasks.len(),
        is_blank(g.tasks[i].id@) || is_blank(g.tasks[i].function@),
    ensures
        g.has_blank_name(),
        g.validation_error() is Some,
        g.outputs.len() > 0 ==> g.validation_error() == Some("Task IDs and function names must be nonempty"@),
{
    let task = g.tasks[i];
    assert(is_blank(task.id@) || is_blank(task.function@));
    assert(exists|j: int|
        0 <= j < g.tasks.len() && (is_blank(#[trigger] g.tasks[j].id@) || is_blank(g.tasks[j].function@)));
}

} // verus!
