//! The mathematical picture of a graph: node categories, input counts, the
//! parent of each node and its ordered sources, and the settings in force.
use vstd::prelude::*;
use crate::error::ErrorCodes;
use crate::node::AudioNodeType;
use crate::params::AudioRuntimeParameters;

verus! {

/// A graph as a value. Node `i` has category `node_types[i]` and
/// `num_inputs[i]` input ports; `children[i]` lists, in the order they were
/// connected, the sources that feed it, and `parents[i]` is the node it feeds.
/// The number of ports a node has used is the number of its sources.
pub struct GraphView {
    pub node_types: Seq<AudioNodeType>,
    pub num_inputs: Seq<nat>,
    pub parents: Seq<Option<usize>>,
    pub children: Seq<Seq<usize>>,
    pub params: AudioRuntimeParameters,
}

impl GraphView {
    /// A graph that holds only its sink, with one free port, and the default
    /// settings.
    pub open spec fn initial() -> GraphView {
        GraphView {
            node_types: seq![AudioNodeType::Output],
            num_inputs: seq![1nat],
            parents: seq![None::<usize>],
            children: seq![Seq::<usize>::empty()],
            params: AudioRuntimeParameters::new_spec(),
        }
    }

    pub open spec fn len(self) -> nat {
        self.node_types.len()
    }

    /// The number of input ports that node `i` has used.
    pub open spec fn used_inputs(self, i: int) -> nat {
        self.children[i].len()
    }

    /// The structural rules every graph keeps: node 0 is the one output sink
    /// with one port, and feeds nothing; each node feeds at most one other and
    /// never itself; a source is listed once, under its parent and nowhere
    /// else; no node uses more ports than it has; and no chain of parents
    /// comes back to where it started, so the connections form a forest.
    pub open spec fn wf(self) -> bool {
        &&& self.len() >= 1
        &&& self.num_inputs.len() == self.len()
        &&& self.parents.len() == self.len()
        &&& self.children.len() == self.len()
        &&& self.node_types[0] == AudioNodeType::Output
        &&& self.num_inputs[0] == 1
        &&& forall|i: int| 1 <= i < self.len() ==> self.node_types[i] != AudioNodeType::Output
        &&& forall|i: int|
            0 <= i < self.len() && #[trigger] self.parents[i] is Some ==> {
                &&& self.parents[i].unwrap() < self.len()
                &&& self.parents[i].unwrap() != i
            }
        &&& forall|i: int, j: int|
            0 <= i < self.len() && 0 <= j < self.children[i].len() ==> #[trigger] self.children[i][j]
                < self.len()
        &&& forall|i: int| 0 <= i < self.len() ==> (#[trigger] self.children[i]).no_duplicates()
        &&& forall|c: usize, p: usize|
            c < self.len() && p < self.len() ==> (self.parents[c as int] == Some(p)
                <==> #[trigger] self.children[p as int].contains(c))
        &&& forall|i: int| 0 <= i < self.len() ==> (#[trigger] self.children[i]).len() <= self.num_inputs[i]
        &&& self.parents[0] is None
        &&& self.is_forest()
    }

    /// What `connect_node(out, inp, port)` answers, the first broken rule
    /// winning: unknown id, port out of range, no free port, a node fed by
    /// itself, an edge that is already there, a source that already feeds
    /// another node, and a connection that would close a loop (from the sink,
    /// or from a node that the consumer already feeds).
    pub open spec fn connect_result(self, out: usize, inp: usize, port: usize) -> Result<(), ErrorCodes> {
        if out >= self.len() || inp >= self.len() {
            Err(ErrorCodes::NodeIDNonExistent)
        } else if port >= self.num_inputs[inp as int] {
            Err(ErrorCodes::NodeInputPortInvalid)
        } else if self.used_inputs(inp as int) >= self.num_inputs[inp as int] {
            Err(ErrorCodes::NodeNoMoreInputs)
        } else if out == inp {
            Err(ErrorCodes::NodeConnectingToItself)
        } else if self.children[inp as int].contains(out) {
            Err(ErrorCodes::ConnectionAlreadyExists)
        } else if self.parents[out as int] is Some {
            Err(ErrorCodes::NodeParentAlreadyExists)
        } else if out == 0 || self.reaches(inp, out) {
            Err(ErrorCodes::ConnectionCreatesCycle)
        } else {
            Ok(())
        }
    }

    /// The graph after `out` is made a source of `inp`.
    pub open spec fn connected(self, out: usize, inp: usize) -> GraphView {
        GraphView {
            parents: self.parents.update(out as int, Some(inp)),
            children: self.children.update(inp as int, self.children[inp as int].push(out)),
            ..self
        }
    }

    /// What `connect_node_to_output(out)` answers: no free port on the sink,
    /// or else what connecting `out` to the sink's next free port answers.
    pub open spec fn output_result(self, out: usize) -> Result<(), ErrorCodes> {
        if self.used_inputs(0) >= self.num_inputs[0] {
            Err(ErrorCodes::NodeNoMoreInputs)
        } else {
            self.connect_result(out, 0, self.used_inputs(0) as usize)
        }
    }

    /// The graph after a node of category `t` with `k` inputs is added.
    pub open spec fn registered(self, t: AudioNodeType, k: nat) -> GraphView {
        GraphView {
            node_types: self.node_types.push(t),
            num_inputs: self.num_inputs.push(k),
            parents: self.parents.push(None),
            children: self.children.push(Seq::empty()),
            ..self
        }
    }

    /// The graph after nodes of the categories and input counts `ts` are
    /// added, in order.
    pub open spec fn registered_all(self, ts: Seq<(AudioNodeType, nat)>) -> GraphView
        decreases ts.len(),
    {
        if ts.len() == 0 {
            self
        } else {
            self.registered_all(ts.drop_last()).registered(ts.last().0, ts.last().1)
        }
    }

    /// The graph with the settings `p` in force.
    pub open spec fn prepared(self, p: AudioRuntimeParameters) -> GraphView {
        GraphView { params: p, ..self }
    }

    /// The node that `y` reaches by following parents `k` times.
    pub open spec fn ancestor(self, y: usize, k: nat) -> Option<usize>
        decreases k,
    {
        if k == 0 {
            Some(y)
        } else {
            match self.ancestor(y, (k - 1) as nat) {
                Some(z) => if z < self.len() {
                    self.parents[z as int]
                } else {
                    None
                },
                None => None,
            }
        }
    }

    /// `y` feeds `x`, however far removed, or is `x`.
    pub open spec fn reaches(self, y: usize, x: usize) -> bool {
        exists|k: nat| #[trigger] self.ancestor(y, k) == Some(x)
    }

    /// No node is its own downstream consumer, however far removed.
    pub open spec fn is_forest(self) -> bool {
        forall|y: usize, k: nat| y < self.len() && k > 0 ==> #[trigger] self.ancestor(y, k) != Some(y)
    }

    /// The order in which one block visits the graph: the sink's tree, sources
    /// first, no deeper than there are nodes.
    pub open spec fn schedule(self) -> Seq<usize> {
        subtree_order(self.children, 0, self.len())
    }
}

/// The sources of `x` from the `i`-th on, each followed through its own
/// sources, `fuel` levels deep, in a graph whose nodes have the sources
/// `children`: the order in which the walk visits them, sources first.
pub open spec fn children_order(children: Seq<Seq<usize>>, x: usize, i: nat, fuel: nat) -> Seq<usize>
    decreases fuel, children[x as int].len() - i,
{
    if i >= children[x as int].len() {
        Seq::empty()
    } else {
        let c = children[x as int][i as int];
        let first = if fuel == 0 {
            Seq::empty()
        } else {
            children_order(children, c, 0, (fuel - 1) as nat).push(c)
        };
        first + children_order(children, x, i + 1, fuel)
    }
}

/// The nodes that feed `x`, directly or not, then `x` itself, at most
/// `fuel` levels deep, in the order in which they are processed.
pub open spec fn subtree_order(children: Seq<Seq<usize>>, x: usize, fuel: nat) -> Seq<usize> {
    if fuel == 0 {
        Seq::empty()
    } else {
        children_order(children, x, 0, (fuel - 1) as nat).push(x)
    }
}

} // verus!
