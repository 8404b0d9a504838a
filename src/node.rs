//! Node categories and the float-free model nodes: the output sink and the
//! nodes used to exercise the graph's wiring rules.
use vstd::prelude::*;

verus! {

/// The category of a node.
#[derive(PartialEq, Eq, Structural, Clone, Copy, Debug)]
pub enum AudioNodeType {
    Test,
    Generator,
    Effect,
    Mixer,
    Output,
    Unknown,
}

/// The output sink: one input port, passes the block through. The graph
/// holds exactly one, under id 0.
pub struct OutputNode {
    node_type: AudioNodeType,
    num_inputs: usize,
    next_available_input: usize,
}

impl OutputNode {
    pub closed spec fn used_inputs(&self) -> nat {
        self.next_available_input as nat
    }

    pub fn new() -> (r: OutputNode)
        ensures
            r.get_node_type_spec() == AudioNodeType::Output,
            r.num_inputs_spec() == 1,
            r.used_inputs() == 0,
    {
        OutputNode { node_type: AudioNodeType::Output, num_inputs: 1, next_available_input: 0 }
    }

    pub closed spec fn get_node_type_spec(&self) -> AudioNodeType {
        self.node_type
    }

    pub closed spec fn num_inputs_spec(&self) -> nat {
        self.num_inputs as nat
    }

    pub fn get_node_type(&self) -> (r: AudioNodeType)
        ensures
            r == self.get_node_type_spec(),
    {
        self.node_type
    }

    pub fn get_number_of_inputs(&self) -> (r: usize)
        ensures
            r == self.num_inputs_spec(),
    {
        self.num_inputs
    }

    /// The first free input port, if one is left.
    pub fn get_next_available_input(&self) -> (r: Option<usize>)
        ensures
            r == (if self.used_inputs() < self.num_inputs_spec() {
                Some(self.used_inputs() as usize)
            } else {
                None::<usize>
            }),
    {
        if self.next_available_input < self.num_inputs {
            Some(self.next_available_input)
        } else {
            None
        }
    }

    /// Takes one input port; does nothing once all are taken.
    pub fn connect_input(&mut self)
        ensures
            final(self).get_node_type_spec() == old(self).get_node_type_spec(),
            final(self).num_inputs_spec() == old(self).num_inputs_spec(),
            final(self).used_inputs() as int == (if old(self).used_inputs() < old(self).num_inputs_spec() {
                old(self).used_inputs() + 1
            } else {
                old(self).used_inputs() + 0
            }),
    {
        if self.next_available_input < self.num_inputs {
            self.next_available_input = self.next_available_input + 1;
        }
    }
}

/// A plain node with one input port that does nothing to the block: the
/// least a node has to keep, its category and its ports.
pub struct TestNode {
    node_type: AudioNodeType,
    num_inputs: usize,
    next_available_input: usize,
}

impl TestNode {
    pub closed spec fn used_inputs(&self) -> nat {
        self.next_available_input as nat
    }

    pub closed spec fn get_node_type_spec(&self) -> AudioNodeType {
        self.node_type
    }

    pub closed spec fn num_inputs_spec(&self) -> nat {
        self.num_inputs as nat
    }

    pub fn new() -> (r: TestNode)
        ensures
            r.get_node_type_spec() == AudioNodeType::Test,
            r.num_inputs_spec() == 1,
            r.used_inputs() == 0,
    {
        TestNode { node_type: AudioNodeType::Test, num_inputs: 1, next_available_input: 0 }
    }

    pub fn get_node_type(&self) -> (r: AudioNodeType)
        ensures
            r == self.get_node_type_spec(),
    {
        self.node_type
    }

    pub fn get_number_of_inputs(&self) -> (r: usize)
        ensures
            r == self.num_inputs_spec(),
    {
        self.num_inputs
    }

    /// The first free input port, if one is left.
    pub fn get_next_available_input(&self) -> (r: Option<usize>)
        ensures
            r == (if self.used_inputs() < self.num_inputs_spec() {
                Some(self.used_inputs() as usize)
            } else {
                None::<usize>
            }),
    {
        if self.next_available_input >= self.num_inputs {
            return None;
        }
        Some(self.next_available_input)
    }

    /// Takes one input port; does nothing once all are taken.
    pub fn connect_input(&mut self)
        ensures
            final(self).get_node_type_spec() == old(self).get_node_type_spec(),
            final(self).num_inputs_spec() == old(self).num_inputs_spec(),
            final(self).used_inputs() as int == (if old(self).used_inputs() < old(self).num_inputs_spec() {
                old(self).used_inputs() + 1
            } else {
                old(self).used_inputs() + 0
            }),
    {
        if self.next_available_input < self.num_inputs {
            self.next_available_input = self.next_available_input + 1;
        }
    }
}

/// A node that claims to be an output sink, with no inputs. A graph refuses
/// it: it has its own sink.
pub struct TestOutputNode {
    node_type: AudioNodeType,
}

impl TestOutputNode {
    pub closed spec fn get_node_type_spec(&self) -> AudioNodeType {
        self.node_type
    }

    pub fn new() -> (r: TestOutputNode)
        ensures
            r.get_node_type_spec() == AudioNodeType::Output,
    {
        TestOutputNode { node_type: AudioNodeType::Output }
    }

    pub fn get_node_type(&self) -> (r: AudioNodeType)
        ensures
            r == self.get_node_type_spec(),
    {
        self.node_type
    }

    pub fn get_number_of_inputs(&self) -> (r: usize)
        ensures
            r == 0,
    {
        0
    }

    pub fn get_next_available_input(&self) -> (r: Option<usize>)
        ensures
            r is None,
    {
        None
    }
}

} // verus!
