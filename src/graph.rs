//! The graph: registration of nodes, wiring with its validation, settings,
//! and the depth-first walk that orders the processing of one block.
use vstd::prelude::*;
use crate::error::{Error, ErrorCodes};
use crate::model::{GraphView, children_order, subtree_order};
use crate::node::{AudioNodeType, OutputNode};
use crate::params::{AudioRuntimeParameters, params_error};
use crate::laws::{
    lemma_ancestor_add, lemma_ancestor_in_range, lemma_connected_forest, lemma_depth_bound,
    lemma_initial_wf, lemma_prepared_wf, lemma_registered_forest, lemma_root_ancestor_none,
};

verus! {

/// What the graph keeps of a node: its category and its input ports.
struct NodePorts {
    node_type: AudioNodeType,
    num_inputs: usize,
    next_available_input: usize,
}

/// The place of one node in the tree: the node it feeds, if any, and the
/// sources that feed it, in the order they were connected.
pub struct MapNode {
    pub parent: Option<usize>,
    pub children: Vec<usize>,
}

impl MapNode {
    /// A node that feeds nothing and is fed by nothing.
    pub fn new() -> (r: MapNode)
        ensures
            r.parent is None,
            r.children@ == Seq::<usize>::empty(),
    {
        MapNode { parent: None, children: Vec::new() }
    }
}

/// The tree of connections, one entry per node id.
struct NodeTree {
    nodes: Vec<MapNode>,
}

/// The entries of the walk's stack, bottom first, give the nodes still to be
/// visited: for the entry `(id, n, i)` at depth `k`, the subtrees of the
/// sources of `id` after the `i`-th, then `id`; the top entry comes first.
/// `cap` bounds the depth of the stack.
pub open spec fn stack_order(children: Seq<Seq<usize>>, s: Seq<(usize, usize, usize)>, cap: nat) -> Seq<usize>
    decreases s.len(),
{
    if s.len() == 0 {
        Seq::empty()
    } else {
        let k = s.len() - 1;
        let e = s[k];
        children_order(children, e.0, (e.2 + 1) as nat, (cap - k - 1) as nat).push(e.0) + stack_order(
            children,
            s.drop_last(),
            cap,
        )
    }
}

/// The entries `s`, bottom first, form a path down the tree of `children`:
/// each names an existing node and its number of sources, and each but the
/// top records which source of its node the entry above it is.
pub open spec fn stack_path(children: Seq<Seq<usize>>, s: Seq<(usize, usize, usize)>) -> bool {
    &&& forall|k: int|
        0 <= k < s.len() ==> {
            &&& (#[trigger] s[k]).0 < children.len()
            &&& s[k].1 == children[s[k].0 as int].len()
        }
    &&& forall|k: int|
        0 <= k && k + 1 < s.len() ==> {
            &&& (#[trigger] s[k]).2 < s[k].1
            &&& s[k + 1].0 == children[s[k].0 as int][s[k].2 as int]
        }
}

proof fn lemma_stack_path_push(children: Seq<Seq<usize>>, s: Seq<(usize, usize, usize)>, e: (usize, usize, usize))
    requires
        stack_path(children, s),
        e.0 < children.len(),
        e.1 == children[e.0 as int].len(),
        s.len() > 0 ==> s.last().2 < s.last().1 && e.0 == children[s.last().0 as int][s.last().2 as int],
    ensures
        stack_path(children, s.push(e)),
{
    let t = s.push(e);
    assert forall|k: int| 0 <= k && k + 1 < t.len() implies {
        &&& (#[trigger] t[k]).2 < t[k].1
        &&& t[k + 1].0 == children[t[k].0 as int][t[k].2 as int]
    } by {
        if k + 1 < s.len() {
            assert(t[k] == s[k] && t[k + 1] == s[k + 1]);
        } else {
            assert(t[k] == s.last());
        }
    }
    assert forall|k: int| 0 <= k < t.len() implies {
        &&& (#[trigger] t[k]).0 < children.len()
        &&& t[k].1 == children[t[k].0 as int].len()
    } by {
        if k < s.len() {
            assert(t[k] == s[k]);
        }
    }
}

proof fn lemma_push_keeps_prefix(s: Seq<(usize, usize, usize)>, e: (usize, usize, usize), k: int)
    requires
        0 <= k <= s.len(),
    ensures
        s.push(e).subrange(0, k) == s.subrange(0, k),
{
    assert(s.push(e).subrange(0, k) =~= s.subrange(0, k));
}

proof fn lemma_stack_path_pop(children: Seq<Seq<usize>>, s: Seq<(usize, usize, usize)>)
    requires
        stack_path(children, s),
        s.len() > 0,
    ensures
        stack_path(children, s.drop_last()),
{
    let t = s.drop_last();
    assert forall|k: int| 0 <= k && k + 1 < t.len() implies {
        &&& (#[trigger] t[k]).2 < t[k].1
        &&& t[k + 1].0 == children[t[k].0 as int][t[k].2 as int]
    } by {
        assert(t[k] == s[k] && t[k + 1] == s[k + 1]);
    }
    assert forall|k: int| 0 <= k < t.len() implies {
        &&& (#[trigger] t[k]).0 < children.len()
        &&& t[k].1 == children[t[k].0 as int].len()
    } by {
        assert(t[k] == s[k]);
    }
}

/// With no depth left, no source is visited.
proof fn lemma_children_order_no_fuel(children: Seq<Seq<usize>>, x: usize, i: nat)
    ensures
        children_order(children, x, i, 0) == Seq::<usize>::empty(),
    decreases children[x as int].len() - i,
{
    if i < children[x as int].len() {
        lemma_children_order_no_fuel(children, x, i + 1);
    }
}

/// Pushing an entry puts what it has left to visit in front.
proof fn lemma_stack_order_push(
    children: Seq<Seq<usize>>,
    s: Seq<(usize, usize, usize)>,
    e: (usize, usize, usize),
    cap: nat,
)
    ensures
        stack_order(children, s.push(e), cap) == children_order(
            children,
            e.0,
            (e.2 + 1) as nat,
            (cap - s.len() - 1) as nat,
        ).push(e.0) + stack_order(children, s, cap),
{
    assert(s.push(e).drop_last() =~= s);
}

/// A walk of the sources of `x` from the `i`-th on starts with the subtree
/// of the `i`-th.
proof fn lemma_children_order_unfold(children: Seq<Seq<usize>>, x: usize, i: nat, fuel: nat)
    requires
        i < children[x as int].len(),
    ensures
        children_order(children, x, i, fuel) == subtree_order(
            children,
            children[x as int][i as int],
            fuel,
        ) + children_order(children, x, i + 1, fuel),
{
}

/// A graph of audio nodes whose single sink is node 0.
///
/// Nodes are registered by category and number of inputs and get the ids
/// 1, 2, ... in turn; sources are then wired into the nodes they feed. Each
/// block the graph is walked depth-first from the sink with a stack sized
/// once per node, so that every source comes before the node it feeds.
pub struct AudioGraph {
    nodes: Vec<NodePorts>,
    graph_map: NodeTree,
    iter_stack: Vec<(usize, usize, usize)>,
    iter_stack_size: usize,
    audio_runtime_params: AudioRuntimeParameters,
}

impl View for AudioGraph {
    type V = GraphView;

    closed spec fn view(&self) -> GraphView {
        GraphView {
            node_types: Seq::new(self.nodes@.len(), |i: int| self.nodes@[i].node_type),
            num_inputs: Seq::new(self.nodes@.len(), |i: int| self.nodes@[i].num_inputs as nat),
            parents: Seq::new(self.graph_map.nodes@.len(), |i: int| self.graph_map.nodes@[i].parent),
            children: Seq::new(
                self.graph_map.nodes@.len(),
                |i: int| self.graph_map.nodes@[i].children@,
            ),
            params: self.audio_runtime_params,
        }
    }
}

impl AudioGraph {
    /// The nodes still to be visited in the walk under way, in order; empty
    /// when no walk is under way.
    pub closed spec fn pending(&self) -> Seq<usize> {
        stack_order(
            self@.children,
            self.iter_stack@.subrange(0, self.iter_stack_size as int),
            self.iter_stack@.len() as nat,
        )
    }

    closed spec fn stack_wf(&self) -> bool {
        &&& self.iter_stack_size <= self.iter_stack@.len()
        &&& stack_path(self@.children, self.iter_stack@.subrange(0, self.iter_stack_size as int))
    }

    /// The graph's invariant: its picture keeps the structural rules, the
    /// tree and the stack have one entry per node, and the stack describes a
    /// path down from a node.
    pub closed spec fn wf(&self) -> bool {
        &&& self@.wf()
        &&& self.graph_map.nodes@.len() == self.nodes@.len()
        &&& self.iter_stack@.len() == self.nodes@.len()
        &&& forall|i: int|
            0 <= i < self.nodes@.len() ==> (#[trigger] self.nodes@[i]).next_available_input
                == self.graph_map.nodes@[i].children@.len()
        &&& self.stack_wf()
    }

    /// A graph's picture keeps the structural rules.
    pub proof fn lemma_view_wf(&self)
        requires
            self.wf(),
        ensures
            self@.wf(),
    {
    }

    /// A graph that holds only its output sink, with the default settings.
    pub fn new() -> (r: AudioGraph)
        ensures
            r.wf(),
            r@ == GraphView::initial(),
            r.pending() == Seq::<usize>::empty(),
    {
        let sink = OutputNode::new();
        let mut nodes: Vec<NodePorts> = Vec::new();
        nodes.push(
            NodePorts {
                node_type: sink.get_node_type(),
                num_inputs: sink.get_number_of_inputs(),
                next_available_input: 0,
            },
        );
        let mut tree: Vec<MapNode> = Vec::new();
        tree.push(MapNode::new());
        let mut stack: Vec<(usize, usize, usize)> = Vec::new();
        stack.push((0, 0, 0));
        let r = AudioGraph {
            nodes,
            graph_map: NodeTree { nodes: tree },
            iter_stack: stack,
            iter_stack_size: 0,
            audio_runtime_params: AudioRuntimeParameters::new(),
        };
        assert(r@.node_types =~= GraphView::initial().node_types);
        assert(r@.num_inputs =~= GraphView::initial().num_inputs);
        assert(r@.parents =~= GraphView::initial().parents);
        assert(r@.children =~= GraphView::initial().children);
        proof {
            assert(r@ == GraphView::initial());
            lemma_initial_wf();
        }
        r
    }

    /// Adds a node of category `node_type` with `num_inputs` input ports and
    /// returns its id, the number of nodes the graph held before. An output
    /// node is refused and the graph left as it was: there is one sink.
    /// Adding a node abandons any walk under way.
    pub fn add_new_node(&mut self, node_type: AudioNodeType, num_inputs: usize) -> (r: Result<usize, Error>)
        requires
            old(self).wf(),
        ensures
            final(self).wf(),
            node_type == AudioNodeType::Output ==> {
                &&& r matches Err(e) && e.code == ErrorCodes::CannotAddOutputTypeNode
                &&& *final(self) == *old(self)
            },
            node_type != AudioNodeType::Output ==> {
                &&& r matches Ok(i) && i as nat == old(self)@.len() && i >= 1
                &&& final(self)@ == old(self)@.registered(node_type, num_inputs as nat)
                &&& final(self).pending() == Seq::<usize>::empty()
            },
    {
        if node_type == AudioNodeType::Output {
            return Err(Error::new(ErrorCodes::CannotAddOutputTypeNode));
        }
        let ghost g0 = self@;
        self.nodes.push(NodePorts { node_type, num_inputs, next_available_input: 0 });
        self.graph_map.nodes.push(MapNode::new());
        self.iter_stack.push((0, 0, 0));
        self.iter_stack_size = 0;
        proof {
            let g1 = g0.registered(node_type, num_inputs as nat);
            lemma_registered_forest(g0, node_type, num_inputs as nat);
            assert(self@.node_types =~= g1.node_types);
            assert(self@.num_inputs =~= g1.num_inputs);
            assert(self@.parents =~= g1.parents);
            assert(self@.children =~= g1.children);
            assert(self@.children[g0.len() as int] =~= Seq::<usize>::empty());
            let n = g0.len();
            assert forall|c: usize, p: usize|
                c < self@.len() && p < self@.len() implies (self@.parents[c as int] == Some(p)
                    <==> #[trigger] self@.children[p as int].contains(c)) by {
                if c < n && p < n {
                    assert(g0.parents[c as int] == Some(p) <==> g0.children[p as int].contains(c));
                } else if p == n {
                    assert(!self@.children[p as int].contains(c));
                } else {
                    assert(self@.parents[c as int] is None);
                    if g0.children[p as int].contains(c) {
                        let j = g0.children[p as int].index_of(c);
                        assert(g0.children[p as int][j] < g0.len());
                    }
                }
            }
            assert forall|i: int| 0 <= i < self.nodes@.len() implies (#[trigger] self.nodes@[i]).next_available_input
                == self.graph_map.nodes@[i].children@.len() by {
                if i < n {
                    assert(self.nodes@[i] == old(self).nodes@[i]);
                    assert(self.graph_map.nodes@[i] == old(self).graph_map.nodes@[i]);
                }
            }
            assert forall|i: int, j: int|
                0 <= i < self@.len() && 0 <= j < self@.children[i].len() implies #[trigger] self@.children[i][j]
                    < self@.len() by {
                if i < n {
                    assert(self@.children[i] == g0.children[i]);
                }
            }
            assert forall|i: int| 0 <= i < self@.len() implies (#[trigger] self@.children[i]).no_duplicates() by {
                if i < n {
                    assert(self@.children[i] == g0.children[i]);
                }
            }
            assert forall|i: int| 0 <= i < self@.len() implies #[trigger] self@.used_inputs(i) <= self@.num_inputs[i] by {
                if i < n {
                    assert(g0.used_inputs(i) <= g0.num_inputs[i]);
                }
            }
            assert forall|i: int| 0 <= i < self@.len() && #[trigger] self@.parents[i] is Some implies {
                &&& self@.parents[i].unwrap() < self@.len()
                &&& self@.parents[i].unwrap() != i
            } by {
                assert(i < n);
                assert(g0.parents[i] is Some);
            }
            assert forall|i: int| 1 <= i < self@.len() implies self@.node_types[i] != AudioNodeType::Output by {
                if i < n {
                    assert(self@.node_types[i] == g0.node_types[i]);
                }
            }
        }
        Ok(self.nodes.len() - 1)
    }

    /// Checks the first five rules of a connection, in order.
    fn validate_node_inputs(&self, node_out_id: usize, node_in_id: usize, node_in_input_port: usize) -> (r: Result<(), Error>)
        requires
            self.wf(),
        ensures
            match r {
                Ok(()) => match self@.connect_result(node_out_id, node_in_id, node_in_input_port) {
                    Ok(()) => true,
                    Err(c) => c == ErrorCodes::NodeParentAlreadyExists || c == ErrorCodes::ConnectionCreatesCycle,
                },
                Err(e) => self@.connect_result(node_out_id, node_in_id, node_in_input_port) == Err::<(), ErrorCodes>(e.code)
                    && e.code != ErrorCodes::NodeParentAlreadyExists && e.code != ErrorCodes::ConnectionCreatesCycle,
            },
    {
        if node_in_id >= self.nodes.len() || node_out_id >= self.nodes.len() {
            return Err(Error::new(ErrorCodes::NodeIDNonExistent));
        }
        if node_in_input_port >= self.nodes[node_in_id].num_inputs {
            return Err(Error::new(ErrorCodes::NodeInputPortInvalid));
        }
        if self.nodes[node_in_id].next_available_input >= self.nodes[node_in_id].num_inputs {
            return Err(Error::new(ErrorCodes::NodeNoMoreInputs));
        }
        if node_out_id == node_in_id {
            return Err(Error::new(ErrorCodes::NodeConnectingToItself));
        }
        let children = &self.graph_map.nodes[node_in_id].children;
        let mut i: usize = 0;
        while i < children.len()
            invariant
                self.wf(),
                node_in_id < self.nodes@.len(),
                node_out_id < self.nodes@.len(),
                node_out_id != node_in_id,
                node_in_input_port < self@.num_inputs[node_in_id as int],
                self@.used_inputs(node_in_id as int) < self@.num_inputs[node_in_id as int],
                children@ == self@.children[node_in_id as int],
                0 <= i <= children.len(),
                forall|j: int| 0 <= j < i ==> children@[j] != node_out_id,
            decreases children.len() - i,
        {
            if children[i] == node_out_id {
                assert(self@.children[node_in_id as int][i as int] == node_out_id);
                return Err(Error::new(ErrorCodes::ConnectionAlreadyExists));
            }
            i = i + 1;
        }
        Ok(())
    }

    /// Whether `from` feeds `to`, however far removed, or is `to`: follows
    /// parents from `from`, which in a forest ends within as many steps as
    /// there are nodes.
    fn feeds_into(&self, from: usize, to: usize) -> (r: bool)
        requires
            self.wf(),
            from < self@.len(),
            to < self@.len(),
        ensures
            r == self@.reaches(from, to),
    {
        let n = self.graph_map.nodes.len();
        let mut cur = from;
        let mut steps: usize = 0;
        proof {
            assert(self@.ancestor(from, 0) == Some(from));
        }
        while steps < n
            invariant
                self.wf(),
                from < self@.len(),
                to < self@.len(),
                n == self@.len(),
                cur < n,
                steps <= n,
                self@.ancestor(from, steps as nat) == Some(cur),
                forall|j: nat| j < steps ==> #[trigger] self@.ancestor(from, j) != Some(to),
            decreases n - steps,
        {
            if cur == to {
                return true;
            }
            match self.graph_map.nodes[cur].parent {
                None => {
                    proof {
                        assert forall|k: nat| #[trigger] self@.ancestor(from, k) != Some(to) by {
                            if k > steps {
                                lemma_ancestor_add(self@, from, steps as nat, (k - steps) as nat);
                                lemma_root_ancestor_none(self@, cur, (k - steps) as nat);
                            }
                        }
                    }
                    return false;
                },
                Some(p) => {
                    proof {
                        assert(self@.parents[cur as int] == Some(p));
                        assert(self@.ancestor(from, (steps + 1) as nat) == Some(p));
                    }
                    cur = p;
                    steps = steps + 1;
                },
            }
        }
        proof {
            lemma_depth_bound(self@, from, cur, steps as nat);
        }
        false
    }

    /// Makes `node_out_id` a source of `node_in_id`, on the input port
    /// `node_in_input_port`. Each rule of `connect_result` is checked in turn
    /// and the first that fails is returned, with the graph left as it was.
    /// A connection from the sink, or from a node that the consumer already
    /// feeds, is refused with `ConnectionCreatesCycle`: the connections stay
    /// a forest whose sink feeds nothing. On success the consumer lists the source last and has used one more
    /// port, the source's parent is the consumer, and any walk under way is
    /// abandoned.
    pub fn connect_node(&mut self, node_out_id: usize, node_in_id: usize, node_in_input_port: usize) -> (r: Result<(), Error>)
        requires
            old(self).wf(),
        ensures
            final(self).wf(),
            match old(self)@.connect_result(node_out_id, node_in_id, node_in_input_port) {
                Ok(()) => {
                    &&& r is Ok
                    &&& final(self)@ == old(self)@.connected(node_out_id, node_in_id)
                    &&& final(self).pending() == Seq::<usize>::empty()
                },
                Err(c) => {
                    &&& r matches Err(e) && e.code == c
                    &&& *final(self) == *old(self)
                },
            },
    {
        match self.validate_node_inputs(node_out_id, node_in_id, node_in_input_port) {
            Err(e) => {
                return Err(e);
            },
            Ok(()) => {},
        }
        if self.graph_map.nodes[node_out_id].parent.is_some() {
            return Err(Error::new(ErrorCodes::NodeParentAlreadyExists));
        }
        if node_out_id == 0 || self.feeds_into(node_in_id, node_out_id) {
            return Err(Error::new(ErrorCodes::ConnectionCreatesCycle));
        }
        let ghost g0 = self@;
        self.graph_map.nodes[node_in_id].children.push(node_out_id);
        let used = self.nodes[node_in_id].next_available_input;
        self.nodes[node_in_id].next_available_input = used + 1;
        self.graph_map.nodes[node_out_id].parent = Some(node_in_id);
        self.iter_stack_size = 0;
        proof {
            let g1 = g0.connected(node_out_id, node_in_id);
            lemma_connected_forest(g0, node_out_id, node_in_id);
            assert(self@.node_types =~= g1.node_types);
            assert(self@.num_inputs =~= g1.num_inputs);
            assert(self@.parents =~= g1.parents);
            assert(self@.children =~= g1.children);
            let o = node_out_id as int;
            let n = node_in_id as int;
            assert forall|i: int| 0 <= i < self@.len() implies (#[trigger] self@.children[i]).no_duplicates() by {
                if i != n {
                    assert(self@.children[i] == g0.children[i]);
                }
            }
            assert forall|i: int, j: int|
                0 <= i < self@.len() && 0 <= j < self@.children[i].len() implies #[trigger] self@.children[i][j] < self@.len() by {
                if i == n && j == g0.children[n].len() {
                } else if i == n {
                    assert(self@.children[i][j] == g0.children[i][j]);
                }
            }
            assert forall|c: usize, p: usize|
                c < self@.len() && p < self@.len() implies (self@.parents[c as int] == Some(p)
                    <==> #[trigger] self@.children[p as int].contains(c)) by {
                assert(g0.parents[c as int] == Some(p) <==> g0.children[p as int].contains(c));
                if c as int != o {
                    assert(self@.parents[c as int] == g0.parents[c as int]);
                }
                if p as int != n {
                    assert(self@.children[p as int] == g0.children[p as int]);
                }
                if p as int == n {
                    assert(self@.children[p as int] == g0.children[p as int].push(node_out_id));
                    if g0.children[p as int].contains(c) {
                        let j = g0.children[p as int].index_of(c);
                        assert(self@.children[p as int][j] == c);
                    }
                    if c as int != o && self@.children[p as int].contains(c) {
                        let j = self@.children[p as int].index_of(c);
                        assert(j < g0.children[p as int].len());
                        assert(g0.children[p as int][j] == c);
                    }
                    assert(self@.children[p as int][g0.children[p as int].len() as int] == node_out_id);
                }
                if c as int == o && p as int != n {
                    assert(g0.parents[c as int] is None);
                }
            }
            assert forall|i: int| 0 <= i < self@.len() implies #[trigger] self@.used_inputs(i) <= self@.num_inputs[i] by {
                assert(g0.used_inputs(i) <= g0.num_inputs[i]);
            }
        }
        Ok(())
    }

    /// Makes `node_out_id` a source of the sink, on the sink's next free
    /// port. The sink has one port, so this succeeds at most once per graph;
    /// after that it answers `NodeNoMoreInputs`.
    pub fn connect_node_to_output(&mut self, node_out_id: usize) -> (r: Result<(), Error>)
        requires
            old(self).wf(),
        ensures
            final(self).wf(),
            match old(self)@.output_result(node_out_id) {
                Ok(()) => {
                    &&& r is Ok
                    &&& final(self)@ == old(self)@.connected(node_out_id, 0)
                    &&& final(self).pending() == Seq::<usize>::empty()
                },
                Err(c) => {
                    &&& r matches Err(e) && e.code == c
                    &&& *final(self) == *old(self)
                },
            },
    {
        if self.nodes[0].next_available_input < self.nodes[0].num_inputs {
            let port = self.nodes[0].next_available_input;
            self.connect_node(node_out_id, 0, port)
        } else {
            Err(Error::new(ErrorCodes::NodeNoMoreInputs))
        }
    }

    /// Replaces the settings. A block of no samples is refused with
    /// `InvalidBufferSize`, then a sampling frequency that does not compare
    /// `> 0.0` (zero, negative or NaN) with `InvalidSamplingFrequency`; either way the graph is left as it
    /// was. Nothing but the settings changes.
    pub fn prepare(&mut self, audio_parameters: AudioRuntimeParameters) -> (r: Result<(), Error>)
        requires
            old(self).wf(),
        ensures
            final(self).wf(),
            match params_error(audio_parameters) {
                None => {
                    &&& r is Ok
                    &&& final(self)@ == old(self)@.prepared(audio_parameters)
                    &&& final(self).pending() == old(self).pending()
                },
                Some(c) => {
                    &&& r matches Err(e) && e.code == c
                    &&& *final(self) == *old(self)
                },
            },
    {
        match audio_parameters.check() {
            Some(c) => Err(Error::new(c)),
            None => {
                self.audio_runtime_params = audio_parameters;
                proof {
                    assert(self@ =~= old(self)@.prepared(audio_parameters));
                    lemma_prepared_wf(old(self)@, audio_parameters);
                    assert(self@.children == old(self)@.children);
                }
                Ok(())
            },
        }
    }

    /// The settings in force.
    pub fn runtime_parameters(&self) -> (r: AudioRuntimeParameters)
        ensures
            r == self@.params,
    {
        self.audio_runtime_params
    }

    /// The number of nodes, the sink included.
    pub fn node_count(&self) -> (r: usize)
        requires
            self.wf(),
        ensures
            r == self@.len(),
    {
        self.nodes.len()
    }

    /// The node that `node_id` feeds, if any.
    pub fn parent_of(&self, node_id: usize) -> (r: Option<usize>)
        requires
            self.wf(),
            node_id < self@.len(),
        ensures
            r == self@.parents[node_id as int],
    {
        self.graph_map.nodes[node_id].parent
    }

    /// The number of sources that feed `node_id`.
    pub fn source_count(&self, node_id: usize) -> (r: usize)
        requires
            self.wf(),
            node_id < self@.len(),
        ensures
            r == self@.children[node_id as int].len(),
    {
        self.graph_map.nodes[node_id].children.len()
    }


    /// The live entries of the walk's stack, bottom first.
    closed spec fn live(&self) -> Seq<(usize, usize, usize)> {
        self.iter_stack@.subrange(0, self.iter_stack_size as int)
    }

    /// Pushes `node_id` and then, while there is room, the first source of
    /// each pushed node, down to a node with no sources: what the stack has
    /// left to visit grows by the subtree of `node_id`, cut at the stack's
    /// depth.
    fn go_to_branch_end(&mut self, node_id: usize)
        requires
            old(self).wf(),
            node_id < old(self)@.len(),
            old(self).iter_stack_size > 0 ==> {
                let t = old(self).live().last();
                &&& t.2 < t.1
                &&& node_id == old(self)@.children[t.0 as int][t.2 as int]
            },
        ensures
            final(self).wf(),
            final(self)@ == old(self)@,
            final(self).iter_stack@.len() == old(self).iter_stack@.len(),
            final(self).iter_stack_size >= old(self).iter_stack_size,
            final(self).live().subrange(0, old(self).iter_stack_size as int) == old(self).live(),
            final(self).pending() == subtree_order(
                old(self)@.children,
                node_id,
                (old(self).iter_stack@.len() - old(self).iter_stack_size) as nat,
            ) + old(self).pending(),
            final(self).iter_stack_size == final(self).iter_stack@.len() || (
            final(self).iter_stack_size > old(self).iter_stack_size
                && final(self).live().last().1 == 0),
    {
        let ghost ch = self@.children;
        let ghost cap = self.iter_stack@.len();
        let ghost m0 = self.iter_stack_size as int;
        let ghost live0 = self.live();
        let ghost p0 = self.pending();
        let ghost g0 = self@;
        let ghost target = subtree_order(ch, node_id, (cap - m0) as nat) + p0;
        let mut current_id = node_id;
        loop
            invariant_except_break
                current_id < self@.len(),
                self.iter_stack_size > 0 ==> {
                    let t = self.live().last();
                    &&& t.2 < t.1
                    &&& current_id == ch[t.0 as int][t.2 as int]
                },
                target == subtree_order(ch, current_id, (cap - self.iter_stack_size) as nat)
                    + self.pending(),
            invariant
                self.wf(),
                self@ == g0,
                ch == g0.children,
                self.iter_stack@.len() == cap,
                0 <= m0 <= self.iter_stack_size <= cap,
                self.live().subrange(0, m0) == live0,
            ensures
                self.wf(),
                self@ == g0,
                self.iter_stack@.len() == cap,
                m0 <= self.iter_stack_size <= cap,
                self.live().subrange(0, m0) == live0,
                target == self.pending(),
                self.iter_stack_size == cap || (self.iter_stack_size > m0
                    && self.live().last().1 == 0),
            decreases cap - self.iter_stack_size,
        {
            if self.iter_stack_size >= self.iter_stack.len() {
                proof {
                    assert(subtree_order(ch, current_id, 0) =~= Seq::<usize>::empty());
                    assert(target =~= self.pending());
                }
                break;
            }
            let nc = self.graph_map.nodes[current_id].children.len();
            let m = self.iter_stack_size;
            let ghost before = self.live();
            let ghost whole = self.iter_stack@;
            self.iter_stack.set(m, (current_id, nc, 0));
            self.iter_stack_size = m + 1;
            proof {
                let e = (current_id, nc, 0usize);
                assert(self.iter_stack@.subrange(0, m as int) =~= whole.subrange(0, m as int));
                assert(self.live() =~= before.push(e));
                lemma_push_keeps_prefix(before, e, m0);
                lemma_stack_path_push(ch, before, e);
                lemma_stack_order_push(ch, before, e, cap);
                let g = (cap - m - 1) as nat;
                if nc > 0 {
                    lemma_children_order_unfold(ch, current_id, 0, g);
                    let c0 = ch[current_id as int][0];
                    assert((subtree_order(ch, c0, g) + children_order(ch, current_id, 1, g)).push(current_id)
                        =~= subtree_order(ch, c0, g) + children_order(ch, current_id, 1, g).push(current_id));
                    assert(target =~= subtree_order(ch, c0, g) + self.pending());
                } else {
                    assert(subtree_order(ch, current_id, (cap - m) as nat) =~= children_order(ch, current_id, 1, g).push(current_id));
                    assert(target =~= self.pending());
                }
            }
            if nc > 0 {
                current_id = self.graph_map.nodes[current_id].children[0];
            } else {
                break;
            }
        }
    }

    /// The node on top of the stack has a source after the one last walked:
    /// records it on the top entry and descends into it. What is left to
    /// visit does not change.
    fn descend_next_source(&mut self)
        requires
            old(self).wf(),
            old(self).iter_stack_size > 0,
            old(self).live().last().2 + 1 < old(self).live().last().1,
        ensures
            final(self).wf(),
            final(self)@ == old(self)@,
            final(self).iter_stack@.len() == old(self).iter_stack@.len(),
            final(self).pending() == old(self).pending(),
            final(self).iter_stack_size >= old(self).iter_stack_size,
            final(self).iter_stack_size == final(self).iter_stack@.len() || final(self).live().last().1 == 0,
    {
        let ghost ch = self@.children;
        let ghost cap = self.iter_stack@.len();
        let top = self.iter_stack_size - 1;
        let (node_id, num_children, child_index) = self.iter_stack[top];
        let ghost before = self.live();
        let ghost p0 = self.pending();
        proof {
            assert(before.last() == self.iter_stack@[top as int]);
            lemma_stack_order_push(ch, before.drop_last(), before.last(), cap);
            assert(before =~= before.drop_last().push(before.last()));
        }
        self.iter_stack.set(top, (node_id, num_children, child_index + 1));
        let child_node_id = self.graph_map.nodes[node_id].children[child_index + 1];
        proof {
            let below = before.drop_last();
            let e = (node_id, num_children, (child_index + 1) as usize);
            let g = (cap - top - 1) as nat;
            assert(self.live() =~= below.push(e));
            lemma_stack_path_pop(ch, before);
            if below.len() > 0 {
                assert(before[below.len() - 1] == below.last());
            }
            lemma_stack_path_push(ch, below, e);
            lemma_stack_order_push(ch, below, e, cap);
            lemma_children_order_unfold(ch, node_id, (child_index + 1) as nat, g);
            let rest = children_order(ch, node_id, (child_index + 2) as nat, g);
            assert((subtree_order(ch, child_node_id, g) + rest).push(node_id) =~= subtree_order(ch, child_node_id, g) + rest.push(node_id));
            assert(p0 =~= subtree_order(ch, child_node_id, g) + self.pending());
        }
        self.go_to_branch_end(child_node_id);
    }

    /// Starts the walk of one block from the sink: what is left to visit is
    /// the schedule of the graph.
    pub fn start_traversal(&mut self)
        requires
            old(self).wf(),
        ensures
            final(self).wf(),
            final(self)@ == old(self)@,
            final(self).pending() == old(self)@.schedule(),
    {
        self.iter_stack_size = 0;
        proof {
            assert(self.live() =~= Seq::<(usize, usize, usize)>::empty());
        }
        self.go_to_branch_end(0);
        proof {
            assert(self.pending() =~= old(self)@.schedule());
        }
    }

    /// The next node of the walk under way, or `None` once it is done. Each
    /// call takes the first of the nodes left to visit.
    ///
    /// A node with several sources has them visited in the order in which
    /// they were connected: when one is done, the walk records the next on
    /// the node's own entry, at the top of the stack, before descending into it.
    pub fn next(&mut self) -> (r: Option<usize>)
        requires
            old(self).wf(),
        ensures
            final(self).wf(),
            final(self)@ == old(self)@,
            old(self).pending().len() == 0 ==> r is None && final(self).pending() == old(self).pending(),
            old(self).pending().len() > 0 ==> r == Some(old(self).pending()[0]) && final(self).pending()
                == old(self).pending().drop_first(),
    {
        let ghost ch = self@.children;
        let ghost cap = self.iter_stack@.len();
        if self.iter_stack_size == 0 {
            proof {
                assert(self.live() =~= Seq::<(usize, usize, usize)>::empty());
            }
            return None;
        }
        let top = self.iter_stack_size - 1;
        let (_, num_children, child_index) = self.iter_stack[top];
        if num_children > 0 && child_index < num_children - 1 {
            self.descend_next_source();
        }
        let t = self.iter_stack_size - 1;
        let next_node_id = self.iter_stack[t].0;
        let ghost l = self.live();
        proof {
            let e = l.last();
            assert(l =~= l.drop_last().push(e));
            lemma_stack_order_push(ch, l.drop_last(), e, cap);
            let g = (cap - t - 1) as nat;
            if self.iter_stack_size == cap {
                lemma_children_order_no_fuel(ch, e.0, (e.2 + 1) as nat);
            }
            assert(children_order(ch, e.0, (e.2 + 1) as nat, g) =~= Seq::<usize>::empty());
            assert(children_order(ch, e.0, (e.2 + 1) as nat, g).push(e.0) =~= seq![e.0]);
            lemma_stack_path_pop(ch, l);
        }
        self.iter_stack_size = t;
        proof {
            assert(self.live() =~= l.drop_last());
        }
        Some(next_node_id)
    }
}

} // verus!
