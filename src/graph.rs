//! A directed acyclic multigraph of processing nodes with identified ports,
//! and its compilation into a flat schedule of tasks with buffer reuse.
use vstd::prelude::*;
use crate::audio_graph::{
    count_below, distinct_keys, lemma_count_below_all, lemma_distinct_keys_count_below, replacement, rewrite_opt_input,
    rewrite_opt_output, rewrite_sum, BufferIndex, OutputBufferIndex, ProcessTask,
};

verus! {

/// Identifies an input port on a node.
#[derive(PartialEq, Eq, Structural, Clone, Copy, Debug, Hash)]
pub struct InputID(pub u32);

/// Identifies a node of an [`AudioGraph`].
#[derive(PartialEq, Eq, Structural, Clone, Copy, Debug, Hash)]
pub struct NodeID(pub u32);

/// Identifies an output port on a node.
#[derive(PartialEq, Eq, Structural, Clone, Copy, Debug, Hash)]
pub struct OutputID(pub u32);

/// The connections arriving at one input port: each names an output port of some node.
#[derive(Clone, Debug)]
pub struct Input {
    sources: Vec<(NodeID, OutputID)>,
}

impl View for Input {
    type V = Seq<(NodeID, OutputID)>;

    closed spec fn view(&self) -> Seq<(NodeID, OutputID)> {
        self.sources@
    }
}

impl Default for Input {
    fn default() -> (r: Input)
        ensures
            r@.len() == 0,
    {
        Input { sources: Vec::new() }
    }
}

impl Input {
    fn contains_source(&self, from: (NodeID, OutputID)) -> (r: bool)
        ensures
            r == self@.contains(from),
    {
        let mut i: usize = 0;
        while i < self.sources.len()
            invariant
                i <= self.sources@.len(),
                forall|j: int| 0 <= j < i ==> self.sources@[j] != from,
            decreases self.sources@.len() - i,
        {
            if self.sources[i].0 == from.0 && self.sources[i].1 == from.1 {
                return true;
            }
            i = i + 1;
        }
        false
    }

    /// The output ports connected to this input, each listed once.
    pub fn connections(&self) -> (r: &Vec<(NodeID, OutputID)>)
        ensures
            r@ == self@,
    {
        &self.sources
    }

    /// Adds a connection from `from`; returns whether it was not there before.
    fn insert_output(&mut self, from: (NodeID, OutputID)) -> (r: bool)
        ensures
            r == !old(self)@.contains(from),
            r ==> final(self)@ == old(self)@.push(from),
            !r ==> final(self)@ == old(self)@,
    {
        let mut i: usize = 0;
        while i < self.sources.len()
            invariant
                i <= self.sources@.len(),
                forall|j: int| 0 <= j < i ==> self.sources@[j] != from,
            decreases self.sources@.len() - i,
        {
            if self.sources[i].0 == from.0 && self.sources[i].1 == from.1 {
                return false;
            }
            i = i + 1;
        }
        self.sources.push(from);
        true
    }

    /// Removes every connection from node `node`.
    fn remove_node_sources(&mut self, node: NodeID)
        ensures
            forall|x: (NodeID, OutputID)| #[trigger] final(self)@.contains(x) <==> (old(self)@.contains(x) && x.0 != node),
            old(self)@.no_duplicates() ==> final(self)@.no_duplicates(),
    {
        let mut kept: Vec<(NodeID, OutputID)> = Vec::new();
        let mut i: usize = 0;
        while i < self.sources.len()
            invariant
                i <= self.sources@.len(),
                self.sources@ == old(self)@,
                forall|x: (NodeID, OutputID)| #[trigger] kept@.contains(x) <==> (self.sources@.subrange(0, i as int).contains(x) && x.0 != node),
                self.sources@.no_duplicates() ==> kept@.no_duplicates(),
            decreases self.sources@.len() - i,
        {
            let x = self.sources[i];
            let ghost k0 = kept@;
            let ghost sub0 = self.sources@.subrange(0, i as int);
            assert(self.sources@.subrange(0, i + 1) =~= sub0.push(x));
            if x.0 != node {
                kept.push(x);
                proof {
                    assert forall|y: (NodeID, OutputID)| #[trigger] kept@.contains(y) <==> (self.sources@.subrange(0, i + 1).contains(y) && y.0 != node) by {
                        assert(k0.contains(y) == (sub0.contains(y) && y.0 != node));
                        if kept@.contains(y) && y != x {
                            let j = choose|j: int| 0 <= j < kept@.len() && kept@[j] == y;
                            assert(k0[j] == y);
                        }
                        if k0.contains(y) {
                            let j = choose|j: int| 0 <= j < k0.len() && k0[j] == y;
                            assert(kept@[j] == y);
                        }
                        if y == x {
                            assert(kept@[k0.len() as int] == y);
                            assert(sub0.push(x)[sub0.len() as int] == x);
                        }
                        if sub0.push(x).contains(y) && y != x {
                            let j = choose|j: int| 0 <= j < sub0.len() + 1 && sub0.push(x)[j] == y;
                            assert(sub0[j] == y);
                        }
                        if sub0.contains(y) {
                            let j = choose|j: int| 0 <= j < sub0.len() && sub0[j] == y;
                            assert(sub0.push(x)[j] == y);
                        }
                    }
                    if self.sources@.no_duplicates() {
                        assert(!sub0.contains(x)) by {
                            if sub0.contains(x) {
                                let j = choose|j: int| 0 <= j < sub0.len() && sub0[j] == x;
                                assert(self.sources@[j] == self.sources@[i as int]);
                            }
                        }
                        assert(!k0.contains(x));
                        assert forall|a: int, b: int| 0 <= a < b < kept@.len() implies kept@[a] != kept@[b] by {
                            if b == k0.len() {
                                assert(kept@[a] == k0[a]);
                                assert(k0.contains(k0[a]));
                            } else {
                                assert(kept@[a] == k0[a] && kept@[b] == k0[b]);
                            }
                        }
                    }
                }
            } else {
                proof {
                    assert forall|y: (NodeID, OutputID)| #[trigger] kept@.contains(y) <==> (self.sources@.subrange(0, i + 1).contains(y) && y.0 != node) by {
                        assert(k0.contains(y) == (sub0.contains(y) && y.0 != node));
                        if sub0.push(x).contains(y) && y != x {
                            let j = choose|j: int| 0 <= j < sub0.len() + 1 && sub0.push(x)[j] == y;
                            assert(sub0[j] == y);
                        }
                        if sub0.contains(y) {
                            let j = choose|j: int| 0 <= j < sub0.len() && sub0[j] == y;
                            assert(sub0.push(x)[j] == y);
                        }
                    }
                }
            }
            i = i + 1;
        }
        proof {
            assert(self.sources@.subrange(0, i as int) =~= self.sources@);
        }
        self.sources = kept;
    }

    /// Removes the connection from `from`; returns whether it was there.
    pub fn remove_port(&mut self, from: (NodeID, OutputID)) -> (r: bool)
        ensures
            r == old(self)@.contains(from),
            old(self)@.no_duplicates() ==> final(self)@.no_duplicates() && final(self)@.to_set()
                == old(self)@.to_set().remove(from),
    {
        let mut i: usize = 0;
        while i < self.sources.len()
            invariant
                i <= self.sources@.len(),
                forall|j: int| 0 <= j < i ==> self.sources@[j] != from,
                self.sources@ == old(self)@,
            decreases self.sources@.len() - i,
        {
            if self.sources[i].0 == from.0 && self.sources[i].1 == from.1 {
                let ghost before = self.sources@;
                self.sources.remove(i);
                proof {
                    if before.no_duplicates() {
                        assert forall|x| #[trigger] self.sources@.to_set().contains(x)
                            <==> before.to_set().remove(from).contains(x) by {
                            if self.sources@.contains(x) {
                                let k = choose|k: int| 0 <= k < self.sources@.len() && self.sources@[k] == x;
                                let k2 = if k < i { k } else { k + 1 };
                                assert(before[k2] == x);
                                assert(before[i as int] == from);
                            }
                            if before.to_set().remove(from).contains(x) {
                                let k = choose|k: int| 0 <= k < before.len() && before[k] == x;
                                if k < i {
                                    assert(self.sources@[k] == x);
                                } else if k > i {
                                    assert(self.sources@[k - 1] == x);
                                }
                            }
                        }
                        assert(self.sources@.to_set() =~= before.to_set().remove(from));
                        assert forall|a: int, b: int|
                            0 <= a < b < self.sources@.len() implies self.sources@[a]
                            != self.sources@[b] by {
                            let a2 = if a < i { a } else { a + 1 };
                            let b2 = if b < i { b } else { b + 1 };
                            assert(self.sources@[a] == before[a2]);
                            assert(self.sources@[b] == before[b2]);
                        }
                    }
                }
                return true;
            }
            i = i + 1;
        }
        proof {
            assert(!self.sources@.contains(from));
            assert(self.sources@.to_set() =~= self.sources@.to_set().remove(from));
        }
        false
    }
}

/// A node: a latency, a set of output ports and a set of input ports with their connections.
#[derive(Clone, Debug)]
pub struct Node {
    pub latency: u64,
    outputs: Vec<bool>,
    inputs: Vec<Option<Input>>,
}

impl Default for Node {
    fn default() -> (r: Node)
        ensures
            r.lat() == 0,
            forall|i: u32| !r.has_input(i),
            forall|o: u32| !r.has_output(o),
            r.input_slots() == 0,
            r.output_slots() == 0,
    {
        Node { latency: 0, outputs: Vec::new(), inputs: Vec::new() }
    }
}

impl Node {
    /// The node's latency in samples.
    pub closed spec fn lat(&self) -> u64 {
        self.latency
    }

    /// Whether input port `i` exists on this node.
    pub closed spec fn has_input(&self, i: u32) -> bool {
        (i as int) < self.inputs@.len() && self.inputs@[i as int].is_some()
    }

    /// Whether output port `o` exists on this node.
    pub closed spec fn has_output(&self, o: u32) -> bool {
        (o as int) < self.outputs@.len() && self.outputs@[o as int]
    }

    /// The output ports connected to input port `i`.
    pub closed spec fn sources(&self, i: u32) -> Seq<(NodeID, OutputID)> {
        self.inputs@[i as int].unwrap()@
    }

    /// How many input ids have been handed out at most.
    pub closed spec fn input_slots(&self) -> nat {
        self.inputs@.len()
    }

    /// How many output ids have been handed out at most.
    pub closed spec fn output_slots(&self) -> nat {
        self.outputs@.len()
    }

    /// Port ids fit in `u32`.
    pub open spec fn wf(&self) -> bool {
        self.input_slots() <= u32::MAX && self.output_slots() <= u32::MAX
    }

    /// No input port of this node has a connection.
    pub open spec fn is_detached(&self) -> bool {
        forall|i: u32| self.has_input(i) ==> #[trigger] self.sources(i).len() == 0
    }

    pub open spec fn input_set(&self) -> Set<u32> {
        Set::new(|i: u32| self.has_input(i))
    }

    pub open spec fn output_set(&self) -> Set<u32> {
        Set::new(|o: u32| self.has_output(o))
    }

    /// The input port `id`, if it exists.
    pub fn get_input(&self, id: &InputID) -> (r: Option<&Input>)
        ensures
            r.is_some() == self.has_input(id.0),
            r.is_some() ==> r.unwrap()@ == self.sources(id.0),
    {
        let i = id.0 as usize;
        if i < self.inputs.len() {
            match &self.inputs[i] {
                Some(input) => Some(input),
                None => None,
            }
        } else {
            None
        }
    }

    /// Removes every connection from node `from` to this node's inputs.
    fn remove_node_sources(&mut self, from: NodeID)
        ensures
            final(self).inputs@.len() == old(self).inputs@.len(),
            final(self).outputs@ == old(self).outputs@,
            final(self).latency == old(self).latency,
            forall|i: int| 0 <= i < final(self).inputs@.len() ==> (#[trigger] final(self).inputs@[i]).is_some() == old(self).inputs@[i].is_some(),
            forall|i: u32| #[trigger] final(self).has_input(i) ==> forall|x: (NodeID, OutputID)| #[trigger] final(self).sources(i).contains(x) <==> (old(self).sources(i).contains(x) && x.0 != from),
            forall|i: u32| #[trigger] final(self).has_input(i) && old(self).sources(i).no_duplicates() ==> final(self).sources(i).no_duplicates(),
    {
        let mut k: usize = 0;
        while k < self.inputs.len()
            invariant
                k <= self.inputs@.len(),
                self.inputs@.len() == old(self).inputs@.len(),
                self.outputs@ == old(self).outputs@,
                self.latency == old(self).latency,
                forall|i: int| 0 <= i < self.inputs@.len() ==> (#[trigger] self.inputs@[i]).is_some() == old(self).inputs@[i].is_some(),
                forall|i: int| k <= i < self.inputs@.len() ==> #[trigger] self.inputs@[i] == old(self).inputs@[i],
                forall|i: int| 0 <= i < k && self.inputs@[i].is_some() ==> forall|x: (NodeID, OutputID)| #[trigger] self.inputs@[i].unwrap()@.contains(x) <==> (old(self).inputs@[i].unwrap()@.contains(x) && x.0 != from),
                forall|i: int| 0 <= i < k && self.inputs@[i].is_some() && old(self).inputs@[i].unwrap()@.no_duplicates() ==> (#[trigger] self.inputs@[i]).unwrap()@.no_duplicates(),
            decreases self.inputs@.len() - k,
        {
            let mut slot: Option<Input> = None;
            self.inputs.set_and_swap(k, &mut slot);
            match slot {
                Some(mut input) => {
                    input.remove_node_sources(from);
                    self.inputs.set(k, Some(input));
                },
                None => {},
            }
        k = k + 1;
        }
    }

    /// Adds an input port under the smallest id not in use, and returns that id.
    pub fn add_input(&mut self) -> (r: InputID)
        requires
            old(self).input_slots() < u32::MAX,
        ensures
            !old(self).has_input(r.0),
            forall|j: u32| j < r.0 ==> old(self).has_input(j),
            final(self).input_set() == old(self).input_set().insert(r.0),
            forall|i: u32| #[trigger] final(self).has_input(i) == (old(self).has_input(i) || i == r.0),
            forall|o: u32| #[trigger] final(self).has_output(o) == old(self).has_output(o),
            final(self).sources(r.0).len() == 0,
            forall|i: u32| i != r.0 && old(self).has_input(i) ==> final(self).sources(i) == old(
                self,
            ).sources(i),
            final(self).output_set() == old(self).output_set(),
            final(self).output_slots() == old(self).output_slots(),
            final(self).input_slots() <= old(self).input_slots() + 1,
            final(self).lat() == old(self).lat(),
    {
        let mut i: usize = 0;
        while i < self.inputs.len()
            invariant
                i <= self.inputs@.len(),
                self.inputs@.len() < u32::MAX,
                *self == *old(self),
                forall|j: int| 0 <= j < i ==> self.inputs@[j].is_some(),
            decreases self.inputs@.len() - i,
        {
            if self.inputs[i].is_none() {
                self.inputs.set(i, Some(Input::default()));
                proof {
                    assert(self.input_set() =~= old(self).input_set().insert(i as u32));
                    assert(self.output_set() =~= old(self).output_set());
                }
                return InputID(i as u32);
            }
            i = i + 1;
        }
        self.inputs.push(Some(Input::default()));
        proof {
            assert(self.input_set() =~= old(self).input_set().insert(i as u32));
            assert(self.output_set() =~= old(self).output_set());
        }
        InputID(i as u32)
    }

    /// Removes input port `id` with its connections, and returns it.
    pub fn remove_input(&mut self, id: &InputID) -> (r: Option<Input>)
        ensures
            r.is_some() == old(self).has_input(id.0),
            r.is_some() ==> r.unwrap()@ == old(self).sources(id.0),
            final(self).input_set() == old(self).input_set().remove(id.0),
            forall|i: u32| i != id.0 && old(self).has_input(i) ==> final(self).sources(i) == old(
                self,
            ).sources(i),
            final(self).output_set() == old(self).output_set(),
            final(self).output_slots() == old(self).output_slots(),
            final(self).input_slots() == old(self).input_slots(),
            final(self).lat() == old(self).lat(),
    {
        let i = id.0 as usize;
        if i < self.inputs.len() {
            let mut slot = None;
            self.inputs.set_and_swap(i, &mut slot);
            proof {
                assert(self.input_set() =~= old(self).input_set().remove(id.0));
                assert(self.output_set() =~= old(self).output_set());
            }
            slot
        } else {
            proof {
                assert(self.input_set() =~= old(self).input_set().remove(id.0));
            }
            None
        }
    }

    /// Adds an output port under the smallest id not in use, and returns that id.
    pub fn add_output(&mut self) -> (r: OutputID)
        requires
            old(self).output_slots() < u32::MAX,
        ensures
            !old(self).has_output(r.0),
            forall|j: u32| j < r.0 ==> old(self).has_output(j),
            final(self).output_set() == old(self).output_set().insert(r.0),
            forall|o: u32| #[trigger] final(self).has_output(o) == (old(self).has_output(o) || o == r.0),
            final(self).input_set() == old(self).input_set(),
            forall|i: u32| #[trigger] final(self).has_input(i) == old(self).has_input(i),
            forall|i: u32| old(self).has_input(i) ==> final(self).sources(i) == old(self).sources(i),
            final(self).input_slots() == old(self).input_slots(),
            final(self).output_slots() <= old(self).output_slots() + 1,
            final(self).lat() == old(self).lat(),
    {
        let mut i: usize = 0;
        while i < self.outputs.len()
            invariant
                i <= self.outputs@.len(),
                self.outputs@.len() < u32::MAX,
                *self == *old(self),
                forall|j: int| 0 <= j < i ==> self.outputs@[j],
            decreases self.outputs@.len() - i,
        {
            if !self.outputs[i] {
                self.outputs.set(i, true);
                proof {
                    assert(self.output_set() =~= old(self).output_set().insert(i as u32));
                    assert(self.input_set() =~= old(self).input_set());
                }
                return OutputID(i as u32);
            }
            i = i + 1;
        }
        self.outputs.push(true);
        proof {
            assert(self.output_set() =~= old(self).output_set().insert(i as u32));
            assert(self.input_set() =~= old(self).input_set());
        }
        OutputID(i as u32)
    }
}

/// A directed acyclic graph of nodes whose edges run from output ports to input ports.
///
/// Edges are stored at their destination: each input port lists the output ports feeding it.
#[derive(Clone)]
pub struct AudioGraph {
    nodes: Vec<Option<Node>>,
    /// A ranking of the nodes that every edge strictly increases, which witnesses acyclicity.
    rank: Ghost<spec_fn(u32) -> nat>,
}

impl Default for AudioGraph {
    fn default() -> (r: AudioGraph)
        ensures
            r.wf(),
            r.node_ids() == Set::<u32>::empty(),
            r.edges() == Set::<(u32, u32, u32, u32)>::empty(),
            r.node_slots() == 0,
    {
        let r = AudioGraph { nodes: Vec::new(), rank: Ghost(|n: u32| 0nat) };
        proof {
            assert(r.node_ids() =~= Set::<u32>::empty());
            assert(r.edges() =~= Set::<(u32, u32, u32, u32)>::empty());
        }
        r
    }
}

impl AudioGraph {
    pub closed spec fn has_node(&self, n: u32) -> bool {
        (n as int) < self.nodes@.len() && self.nodes@[n as int].is_some()
    }

    /// The node under id `n` (meaningful where `has_node(n)`).
    pub closed spec fn node(&self, n: u32) -> Node {
        self.nodes@[n as int].unwrap()
    }

    /// How many node ids have been handed out at most.
    pub closed spec fn node_slots(&self) -> nat {
        self.nodes@.len()
    }

    pub open spec fn has_input(&self, n: u32, i: u32) -> bool {
        self.has_node(n) && self.node(n).has_input(i)
    }

    pub open spec fn has_output(&self, n: u32, o: u32) -> bool {
        self.has_node(n) && self.node(n).has_output(o)
    }

    /// Output `o` of node `n` is connected to input `i` of node `m`.
    pub open spec fn has_edge(&self, n: u32, o: u32, m: u32, i: u32) -> bool {
        self.has_input(m, i) && self.node(m).sources(i).contains((NodeID(n), OutputID(o)))
    }

    /// Some output of node `a` is connected to some input of node `b`.
    pub open spec fn feeds(&self, a: u32, b: u32) -> bool {
        exists|o: u32, i: u32| self.has_edge(a, o, b, i)
    }

    /// `p` is a walk along edges: each node in it feeds the next one.
    pub open spec fn is_path(&self, p: Seq<u32>) -> bool {
        &&& p.len() >= 1
        &&& forall|j: int| 0 <= j < p.len() - 1 ==> self.feeds(#[trigger] p[j], p[j + 1])
    }

    /// There is a path (possibly empty) from node `a` to node `b`.
    pub open spec fn reaches(&self, a: u32, b: u32) -> bool {
        exists|p: Seq<u32>| self.is_path(p) && p[0] == a && p.last() == b
    }

    pub open spec fn node_ids(&self) -> Set<u32> {
        Set::new(|n: u32| self.has_node(n))
    }

    pub open spec fn input_ports(&self) -> Set<(u32, u32)> {
        Set::new(|p: (u32, u32)| self.has_input(p.0, p.1))
    }

    pub open spec fn output_ports(&self) -> Set<(u32, u32)> {
        Set::new(|p: (u32, u32)| self.has_output(p.0, p.1))
    }

    /// The edges, as `(from_node, from_output, to_node, to_input)`.
    pub open spec fn edges(&self) -> Set<(u32, u32, u32, u32)> {
        Set::new(|e: (u32, u32, u32, u32)| self.has_edge(e.0, e.1, e.2, e.3))
    }

    /// Both graphs have the same nodes and the same ports.
    pub open spec fn same_ports(&self, other: &AudioGraph) -> bool {
        &&& self.node_ids() == other.node_ids()
        &&& self.input_ports() == other.input_ports()
        &&& self.output_ports() == other.output_ports()
    }

    /// The graph is well formed: every edge starts at an existing output port, no input lists
    /// a connection twice, and there is no cycle.
    pub closed spec fn wf(&self) -> bool {
        &&& self.nodes@.len() <= u32::MAX
        &&& forall|n: u32| #[trigger] self.has_node(n) ==> self.node(n).wf()
        &&& forall|n: u32, i: u32| #[trigger]
            self.has_input(n, i) ==> self.node(n).sources(i).no_duplicates()
        &&& forall|a: u32, o: u32, b: u32, i: u32| #[trigger]
            self.has_edge(a, o, b, i) ==> self.has_output(a, o) && (self.rank@)(a) < (
            self.rank@)(b)
    }

    proof fn lemma_path_rank(&self, p: Seq<u32>, j: int)
        requires
            self.wf(),
            self.is_path(p),
            0 <= j < p.len(),
        ensures
            (self.rank@)(p[0]) + j <= (self.rank@)(p[j]),
        decreases j,
    {
        if j > 0 {
            self.lemma_path_rank(p, j - 1);
            assert(self.feeds(p[j - 1], p[j]));
            let (o, i) = choose|o: u32, i: u32| #[trigger] self.has_edge(p[j - 1], o, p[j], i);
            assert(self.has_edge(p[j - 1], o, p[j], i));
        }
    }

    /// A graph without a cycle: every path from a node back to itself is empty.
    pub proof fn lemma_acyclic(&self, p: Seq<u32>)
        requires
            self.wf(),
            self.is_path(p),
            p[0] == p.last(),
        ensures
            p.len() == 1,
    {
        self.lemma_path_rank(p, p.len() - 1);
    }

    proof fn lemma_reaches_rank(&self, a: u32, b: u32)
        requires
            self.wf(),
            self.reaches(a, b),
        ensures
            (self.rank@)(a) <= (self.rank@)(b),
            a != b ==> (self.rank@)(a) < (self.rank@)(b),
    {
        let p = choose|p: Seq<u32>| self.is_path(p) && p[0] == a && p.last() == b;
        self.lemma_path_rank(p, p.len() - 1);
    }

    proof fn lemma_extend(&self, a: u32, c: u32, b: u32)
        requires
            self.reaches(a, c),
            self.feeds(c, b),
        ensures
            self.reaches(a, b),
    {
        let p = choose|p: Seq<u32>| self.is_path(p) && p[0] == a && p.last() == c;
        let q = p.push(b);
        assert forall|j: int| 0 <= j < q.len() - 1 implies self.feeds(#[trigger] q[j], q[j + 1]) by {
            if j < p.len() - 1 {
                assert(q[j] == p[j] && q[j + 1] == p[j + 1]);
            }
        }
        assert(self.is_path(q) && q[0] == a && q.last() == b);
    }

    proof fn lemma_reaches_self(&self, a: u32)
        ensures
            self.reaches(a, a),
    {
        let p = seq![a];
        assert(self.is_path(p) && p[0] == a && p.last() == a);
    }

    /// The last step of a non-empty path.
    proof fn lemma_last_step(&self, a: u32, b: u32) -> (c: u32)
        requires
            self.reaches(a, b),
            a != b,
        ensures
            self.reaches(a, c),
            self.feeds(c, b),
    {
        let p = choose|p: Seq<u32>| self.is_path(p) && p[0] == a && p.last() == b;
        let q = p.drop_last();
        assert(p.len() >= 2);
        assert(self.feeds(p[p.len() - 2], p[p.len() - 1]));
        assert forall|j: int| 0 <= j < q.len() - 1 implies self.feeds(#[trigger] q[j], q[j + 1]) by {
            assert(q[j] == p[j] && q[j + 1] == p[j + 1]);
        }
        assert(self.is_path(q) && q[0] == a && q.last() == p[p.len() - 2]);
        p[p.len() - 2]
    }

    /// The node under `index`, if any.
    pub fn get_node(&self, index: &NodeID) -> (r: Option<&Node>)
        ensures
            r.is_some() == self.has_node(index.0),
            r.is_some() ==> *r.unwrap() == self.node(index.0),
    {
        let n = index.0 as usize;
        if n < self.nodes.len() {
            match &self.nodes[n] {
                Some(node) => Some(node),
                None => None,
            }
        } else {
            None
        }
    }

    fn has_input_exec(&self, n: u32, i: u32) -> (r: bool)
        ensures
            r == self.has_input(n, i),
    {
        match self.get_node(&NodeID(n)) {
            Some(node) => node.get_input(&InputID(i)).is_some(),
            None => false,
        }
    }

    fn has_output_exec(&self, n: u32, o: u32) -> (r: bool)
        ensures
            r == self.has_output(n, o),
    {
        match self.get_node(&NodeID(n)) {
            Some(node) => (o as usize) < node.outputs.len() && node.outputs[o as usize],
            None => false,
        }
    }

    /// Whether there is a path from node `to` to node `from` (true when they are equal), that is
    /// whether an edge `from -> to` would close a cycle.
    fn is_connected(&self, from: u32, to: u32) -> (r: bool)
        requires
            self.wf(),
            self.has_node(from),
        ensures
            r == self.reaches(to, from),
        decreases (self.rank@)(from),
    {
        if from == to {
            proof {
                self.lemma_reaches_self(to);
            }
            return true;
        }
        let node = match &self.nodes[from as usize] {
            Some(node) => node,
            None => { return false; },
        };
        assert(*node == self.node(from));
        let mut i: usize = 0;
        while i < node.inputs.len()
            invariant
                self.wf(),
                self.has_node(from),
                from != to,
                *node == self.node(from),
                node.wf(),
                i <= node.inputs@.len(),
                forall|i2: u32, k: int|
                    i2 < i && node.has_input(i2) && 0 <= k < node.sources(i2).len() ==> !self.reaches(
                        to,
                        (#[trigger] node.sources(i2)[k]).0.0,
                    ),
            decreases node.inputs@.len() - i,
        {
            match &node.inputs[i] {
                Some(input) => {
                    assert(node.has_input(i as u32));
                    let mut j: usize = 0;
                    while j < input.sources.len()
                        invariant
                            self.wf(),
                            self.has_node(from),
                            from != to,
                            *node == self.node(from),
                            node.wf(),
                            i < node.inputs@.len(),
                            node.has_input(i as u32),
                            input@ == node.sources(i as u32),
                            j <= input@.len(),
                            forall|k: int|
                                0 <= k < j ==> !self.reaches(to, (#[trigger] input@[k]).0.0),
                        decreases input@.len() - j,
                    {
                        let (s, o) = input.sources[j];
                        assert(input@[j as int] == (s, o));
                        assert(self.has_edge(s.0, o.0, from, i as u32));
                        if self.is_connected(s.0, to) {
                            proof {
                                self.lemma_extend(to, s.0, from);
                            }
                            return true;
                        }
                        j = j + 1;
                    }
                },
                None => {},
            }
            i = i + 1;
        }
        proof {
            if self.reaches(to, from) {
                let c = self.lemma_last_step(to, from);
                let (o, i2) = choose|o: u32, i2: u32| self.has_edge(c, o, from, i2);
                assert(self.has_edge(c, o, from, i2));
                let kk = choose|kk: int| 0 <= kk < node.sources(i2).len() && node.sources(i2)[kk] == (NodeID(c), OutputID(o));
                assert(!self.reaches(to, node.sources(i2)[kk].0.0));
            }
        }
        false
    }

    /// The same node without any connection on its input ports.
    fn detach(node: Node) -> (r: Node)
        requires
            node.wf(),
        ensures
            r.wf(),
            r.is_detached(),
            forall|i: u32| #[trigger] r.has_input(i) == node.has_input(i),
            forall|o: u32| #[trigger] r.has_output(o) == node.has_output(o),
            r.input_set() == node.input_set(),
            r.output_set() == node.output_set(),
            r.input_slots() == node.input_slots(),
            r.output_slots() == node.output_slots(),
            r.lat() == node.lat(),
    {
        let mut r = node;
        let mut i: usize = 0;
        while i < r.inputs.len()
            invariant
                i <= r.inputs@.len(),
                r.inputs@.len() == node.inputs@.len(),
                r.outputs@ == node.outputs@,
                r.latency == node.latency,
                forall|j: int| 0 <= j < r.inputs@.len() ==> r.inputs@[j].is_some() == node.inputs@[j].is_some(),
                forall|j: int| 0 <= j < i && r.inputs@[j].is_some() ==> r.inputs@[j].unwrap()@.len() == 0,
            decreases r.inputs@.len() - i,
        {
            if r.inputs[i].is_some() {
                r.inputs.set(i, Some(Input::default()));
            }
            i = i + 1;
        }
        proof {
            assert(r.input_set() =~= node.input_set());
            assert(r.output_set() =~= node.output_set());
        }
        r
    }

    /// Inserts `node` under the smallest free id, without any connection on its input ports,
    /// and returns that id.
    pub fn insert_node(&mut self, node: Node) -> (r: NodeID)
        requires
            old(self).wf(),
            old(self).node_slots() < u32::MAX,
            node.wf(),
        ensures
            final(self).wf(),
            !old(self).has_node(r.0),
            forall|j: u32| j < r.0 ==> old(self).has_node(j),
            final(self).node_ids() == old(self).node_ids().insert(r.0),
            forall|m: u32| #[trigger] final(self).has_node(m) == (old(self).has_node(m) || m == r.0),
            forall|i: u32| #[trigger] final(self).node(r.0).has_input(i) == node.has_input(i),
            forall|o: u32| #[trigger] final(self).node(r.0).has_output(o) == node.has_output(o),
            final(self).node(r.0).input_set() == node.input_set(),
            final(self).node(r.0).output_set() == node.output_set(),
            final(self).node(r.0).is_detached(),
            forall|m: u32| m != r.0 && old(self).has_node(m) ==> final(self).node(m) == old(self).node(m),
            final(self).edges() == old(self).edges(),
            final(self).node_slots() <= old(self).node_slots() + 1,
    {
        let node = Self::detach(node);
        let mut n: usize = 0;
        while n < self.nodes.len() && self.nodes[n].is_some()
            invariant
                n <= self.nodes@.len(),
                *self == *old(self),
                forall|j: int| 0 <= j < n ==> self.nodes@[j].is_some(),
            decreases self.nodes@.len() - n,
        {
            n = n + 1;
        }
        let ghost g = *self;
        if n < self.nodes.len() {
            self.nodes.set(n, Some(node));
        } else {
            self.nodes.push(Some(node));
        }
        proof {
            let id = n as u32;
            assert(self.has_node(id) && self.node(id) == node);
            assert forall|m: u32| m != id implies self.has_node(m) == g.has_node(m) && (g.has_node(m) ==> self.node(m) == g.node(m)) by {}
            assert(self.node_ids() =~= g.node_ids().insert(id));
            assert forall|m: u32| #[trigger] self.has_node(m) implies self.node(m).wf() by {
                if m != id {
                    assert(g.has_node(m));
                }
            }
            assert forall|a: u32, o: u32, b: u32, i: u32| self.has_edge(a, o, b, i) <==> g.has_edge(a, o, b, i) by {
                if b == id {
                    if self.has_input(b, i) {
                        assert(self.node(b).sources(i).len() == 0);
                    }
                } else if g.has_node(b) {
                    assert(self.node(b) == g.node(b));
                }
            }
            assert(self.edges() =~= g.edges());
            assert forall|a: u32, o: u32, b: u32, i: u32| #[trigger]
                self.has_edge(a, o, b, i) implies self.has_output(a, o) && (self.rank@)(a) < (self.rank@)(b) by {
                assert(g.has_edge(a, o, b, i));
                assert(g.has_output(a, o));
                assert(self.node(a) == g.node(a));
            }
            assert forall|m: u32, i: u32| #[trigger] self.has_input(m, i) implies self.node(m).sources(i).no_duplicates() by {
                if m == id {
                    assert(self.node(m).sources(i).len() == 0);
                } else {
                    assert(g.has_input(m, i));
                }
            }
        }
        NodeID(n as u32)
    }

    /// Adds an input port to node `node` under its smallest free input id; `None` if there is
    /// no such node or its input ids are used up.
    pub fn add_input_port(&mut self, node: NodeID) -> (r: Option<InputID>)
        requires
            old(self).wf(),
        ensures
            final(self).wf(),
            r.is_none() ==> *final(self) == *old(self),
            r.is_none() && old(self).has_node(node.0) ==> old(self).node(node.0).input_slots() >= u32::MAX,
            r.is_some() ==> {
                &&& old(self).has_node(node.0)
                &&& !old(self).has_input(node.0, r.unwrap().0)
                &&& forall|j: u32| j < r.unwrap().0 ==> old(self).has_input(node.0, j)
                &&& final(self).node_ids() == old(self).node_ids()
                &&& final(self).input_ports() == old(self).input_ports().insert((node.0, r.unwrap().0))
                &&& final(self).output_ports() == old(self).output_ports()
                &&& final(self).edges() == old(self).edges()
            },
    {
        let n = node.0 as usize;
        if n >= self.nodes.len() || self.nodes[n].is_none() {
            return None;
        }
        match &self.nodes[n] {
            Some(nd) => {
                if nd.inputs.len() >= u32::MAX as usize {
                    return None;
                }
            },
            None => { return None; },
        }
        let ghost g = *self;
        let mut slot: Option<Node> = None;
        self.nodes.set_and_swap(n, &mut slot);
        let mut nd = slot.unwrap();
        let id = nd.add_input();
        self.nodes.set(n, Some(nd));
        proof {
            let m0 = node.0;
            assert forall|m: u32| #[trigger] self.has_node(m) == g.has_node(m) && (m != m0 && g.has_node(m) ==> self.node(m) == g.node(m)) by {}
            assert forall|m: u32, i: u32| #[trigger] self.has_input(m, i) == (g.has_input(m, i) || (m, i) == (m0, id.0)) by {
                if m == m0 {
                    assert(self.node(m).has_input(i) == (g.node(m).has_input(i) || i == id.0));
                }
            }
            assert forall|m: u32, o: u32| #[trigger] self.has_output(m, o) == g.has_output(m, o) by {
                if m == m0 {
                    assert(self.node(m).has_output(o) == g.node(m).has_output(o));
                }
            }
            assert forall|a: u32, o: u32, b: u32, i: u32| #[trigger] self.has_edge(a, o, b, i) == g.has_edge(a, o, b, i) by {
                if b == m0 && self.has_input(b, i) {
                    if i == id.0 {
                        assert(self.node(b).sources(i).len() == 0);
                    } else {
                        assert(self.node(b).sources(i) == g.node(b).sources(i));
                    }
                }
            }
            assert forall|m: u32| #[trigger] self.has_node(m) implies self.node(m).wf() by {
                if m != m0 {
                    assert(g.node(m).wf());
                }
            }
            assert forall|m: u32, i: u32| #[trigger] self.has_input(m, i) implies self.node(m).sources(i).no_duplicates() by {
                if m == m0 && i == id.0 {
                    assert(self.node(m).sources(i).len() == 0);
                } else if m == m0 {
                    assert(self.node(m).sources(i) == g.node(m).sources(i));
                    assert(g.has_input(m, i));
                } else {
                    assert(g.has_input(m, i));
                }
            }
            assert forall|a: u32, o: u32, b: u32, i: u32| #[trigger] self.has_edge(a, o, b, i) implies self.has_output(a, o) && (self.rank@)(a) < (self.rank@)(b) by {
                assert(g.has_edge(a, o, b, i));
            }
            assert(self.node_ids() =~= g.node_ids());
            assert(self.input_ports() =~= g.input_ports().insert((m0, id.0)));
            assert(self.output_ports() =~= g.output_ports());
            assert(self.edges() =~= g.edges());
        }
        Some(id)
    }

    /// Adds an output port to node `node` under its smallest free output id; `None` if there
    /// is no such node or its output ids are used up.
    pub fn add_output_port(&mut self, node: NodeID) -> (r: Option<OutputID>)
        requires
            old(self).wf(),
        ensures
            final(self).wf(),
            r.is_none() ==> *final(self) == *old(self),
            r.is_none() && old(self).has_node(node.0) ==> old(self).node(node.0).output_slots() >= u32::MAX,
            r.is_some() ==> {
                &&& old(self).has_node(node.0)
                &&& !old(self).has_output(node.0, r.unwrap().0)
                &&& forall|j: u32| j < r.unwrap().0 ==> old(self).has_output(node.0, j)
                &&& final(self).node_ids() == old(self).node_ids()
                &&& final(self).input_ports() == old(self).input_ports()
                &&& final(self).output_ports() == old(self).output_ports().insert((node.0, r.unwrap().0))
                &&& final(self).edges() == old(self).edges()
            },
    {
        let n = node.0 as usize;
        if n >= self.nodes.len() || self.nodes[n].is_none() {
            return None;
        }
        match &self.nodes[n] {
            Some(nd) => {
                if nd.outputs.len() >= u32::MAX as usize {
                    return None;
                }
            },
            None => { return None; },
        }
        let ghost g = *self;
        let mut slot: Option<Node> = None;
        self.nodes.set_and_swap(n, &mut slot);
        let mut nd = slot.unwrap();
        let id = nd.add_output();
        self.nodes.set(n, Some(nd));
        proof {
            let m0 = node.0;
            assert forall|m: u32| #[trigger] self.has_node(m) == g.has_node(m) && (m != m0 && g.has_node(m) ==> self.node(m) == g.node(m)) by {}
            assert forall|m: u32, i: u32| #[trigger] self.has_input(m, i) == g.has_input(m, i) by {
                if m == m0 {
                    assert(self.node(m).has_input(i) == g.node(m).has_input(i));
                }
            }
            assert forall|m: u32, o: u32| #[trigger] self.has_output(m, o) == (g.has_output(m, o) || (m, o) == (m0, id.0)) by {
                if m == m0 {
                    assert(self.node(m).has_output(o) == (g.node(m).has_output(o) || o == id.0));
                }
            }
            assert forall|a: u32, o: u32, b: u32, i: u32| #[trigger] self.has_edge(a, o, b, i) == g.has_edge(a, o, b, i) by {
                if b == m0 && self.has_input(b, i) {
                    assert(self.node(b).sources(i) == g.node(b).sources(i));
                }
            }
            assert forall|m: u32| #[trigger] self.has_node(m) implies self.node(m).wf() by {
                if m != m0 {
                    assert(g.node(m).wf());
                }
            }
            assert forall|m: u32, i: u32| #[trigger] self.has_input(m, i) implies self.node(m).sources(i).no_duplicates() by {
                assert(g.has_input(m, i));
                if m == m0 {
                    assert(self.node(m).sources(i) == g.node(m).sources(i));
                }
            }
            assert forall|a: u32, o: u32, b: u32, i: u32| #[trigger] self.has_edge(a, o, b, i) implies self.has_output(a, o) && (self.rank@)(a) < (self.rank@)(b) by {
                assert(g.has_edge(a, o, b, i));
            }
            assert(self.node_ids() =~= g.node_ids());
            assert(self.input_ports() =~= g.input_ports());
            assert(self.output_ports() =~= g.output_ports().insert((m0, id.0)));
            assert(self.edges() =~= g.edges());
        }
        Some(id)
    }

    /// Removes node `id` with every edge from or to it, and returns it; `None` if there is no
    /// such node.
    pub fn remove_node(&mut self, id: NodeID) -> (r: Option<Node>)
        requires
            old(self).wf(),
        ensures
            final(self).wf(),
            r.is_some() == old(self).has_node(id.0),
            r.is_some() ==> r.unwrap() == old(self).node(id.0),
            r.is_none() ==> *final(self) == *old(self),
            final(self).node_ids() == old(self).node_ids().remove(id.0),
            final(self).input_ports() == old(self).input_ports().filter(|p: (u32, u32)| p.0 != id.0),
            final(self).output_ports() == old(self).output_ports().filter(|p: (u32, u32)| p.0 != id.0),
            final(self).edges() == old(self).edges().filter(|e: (u32, u32, u32, u32)| e.0 != id.0 && e.2 != id.0),
    {
        let n = id.0 as usize;
        if n >= self.nodes.len() || self.nodes[n].is_none() {
            proof {
                assert(old(self).node_ids().remove(id.0) =~= old(self).node_ids());
                assert(old(self).input_ports().filter(|p: (u32, u32)| p.0 != id.0) =~= old(self).input_ports());
                assert(old(self).output_ports().filter(|p: (u32, u32)| p.0 != id.0) =~= old(self).output_ports());
                assert(old(self).edges().filter(|e: (u32, u32, u32, u32)| e.0 != id.0 && e.2 != id.0) =~= old(self).edges());
            }
            return None;
        }
        let ghost g = *self;
        let mut removed: Option<Node> = None;
        self.nodes.set_and_swap(n, &mut removed);
        let mut m: usize = 0;
        while m < self.nodes.len()
            invariant
                g.wf(),
                n < g.nodes@.len(),
                m <= self.nodes@.len(),
                self.nodes@.len() == g.nodes@.len(),
                self.rank == g.rank,
                self.nodes@[n as int].is_none(),
                forall|j: int| 0 <= j < self.nodes@.len() && j != n ==> (#[trigger] self.nodes@[j]).is_some() == g.nodes@[j].is_some(),
                forall|j: int| m <= j < self.nodes@.len() && j != n ==> #[trigger] self.nodes@[j] == g.nodes@[j],
                forall|j: int| 0 <= j < m && j != n && #[trigger] self.nodes@[j].is_some() ==> {
                    let a = self.nodes@[j].unwrap();
                    let b = g.nodes@[j].unwrap();
                    &&& a.inputs@.len() == b.inputs@.len()
                    &&& a.outputs@ == b.outputs@
                    &&& forall|i: int| 0 <= i < a.inputs@.len() ==> (#[trigger] a.inputs@[i]).is_some() == b.inputs@[i].is_some()
                    &&& forall|i: u32| #[trigger] a.has_input(i) ==> forall|x: (NodeID, OutputID)| #[trigger] a.sources(i).contains(x) <==> (b.sources(i).contains(x) && x.0 != id)
                    &&& forall|i: u32| #[trigger] a.has_input(i) && b.sources(i).no_duplicates() ==> a.sources(i).no_duplicates()
                },
            decreases self.nodes@.len() - m,
        {
            let mut slot: Option<Node> = None;
            self.nodes.set_and_swap(m, &mut slot);
            match slot {
                Some(mut nd) => {
                    nd.remove_node_sources(id);
                    self.nodes.set(m, Some(nd));
                },
                None => {},
            }
            m = m + 1;
        }
        proof {
            let k = id.0;
            assert forall|j: u32| #[trigger] self.has_node(j) == (g.has_node(j) && j != k) by {}
            assert forall|j: u32, i: u32| #[trigger] self.has_input(j, i) == (g.has_input(j, i) && j != k) by {
                if j != k && (j as int) < self.nodes@.len() && self.nodes@[j as int].is_some() {
                    assert(self.node(j).has_input(i) == g.node(j).has_input(i));
                }
            }
            assert forall|j: u32, o: u32| #[trigger] self.has_output(j, o) == (g.has_output(j, o) && j != k) by {
                if j != k && (j as int) < self.nodes@.len() && self.nodes@[j as int].is_some() {
                    assert(self.node(j).outputs@ == g.node(j).outputs@);
                }
            }
            assert forall|a: u32, o: u32, b: u32, i: u32| #[trigger] self.has_edge(a, o, b, i) == (g.has_edge(a, o, b, i) && a != k && b != k) by {
                if self.has_input(b, i) {
                    assert(self.node(b).sources(i).contains((NodeID(a), OutputID(o))) == (g.node(b).sources(i).contains((NodeID(a), OutputID(o))) && a != k));
                }
            }
            assert forall|j: u32| #[trigger] self.has_node(j) implies self.node(j).wf() by {
                assert(g.node(j).wf());
                assert(self.node(j).inputs@.len() == g.node(j).inputs@.len());
            }
            assert forall|j: u32, i: u32| #[trigger] self.has_input(j, i) implies self.node(j).sources(i).no_duplicates() by {
                assert(g.has_input(j, i));
            }
            assert forall|a: u32, o: u32, b: u32, i: u32| #[trigger] self.has_edge(a, o, b, i) implies self.has_output(a, o) && (self.rank@)(a) < (self.rank@)(b) by {
                assert(g.has_edge(a, o, b, i));
                assert(g.has_output(a, o));
            }
            assert(self.node_ids() =~= g.node_ids().remove(k));
            assert(self.input_ports() =~= g.input_ports().filter(|p: (u32, u32)| p.0 != k));
            assert(self.output_ports() =~= g.output_ports().filter(|p: (u32, u32)| p.0 != k));
            assert(self.edges() =~= g.edges().filter(|e: (u32, u32, u32, u32)| e.0 != k && e.2 != k));
        }
        removed
    }

    /// Connects output `from` to input `to`.
    ///
    /// Returns `Ok(true)` if the edge is new, `Ok(false)` if it was there already,
    /// `Err(false)` if either port does not exist, and `Err(true)` if the edge would close a
    /// cycle (a path from `to`'s node to `from`'s node exists, or they are the same node).
    /// On an error the graph is left as it was.
    pub fn try_insert_edge(&mut self, from: (NodeID, OutputID), to: (NodeID, InputID)) -> (r: Result<bool, bool>)
        requires
            old(self).wf(),
        ensures
            final(self).wf(),
            r == insert_edge_result(*old(self), from, to),
            r is Err ==> *final(self) == *old(self),
            r is Ok ==> final(self).same_ports(old(self)) && final(self).edges() == old(self).edges().insert(
                (from.0.0, from.1.0, to.0.0, to.1.0),
            ),
    {
        if !self.has_input_exec(to.0.0, to.1.0) || !self.has_output_exec(from.0.0, from.1.0) {
            return Err(false);
        }
        if self.is_connected(from.0.0, to.0.0) {
            return Err(true);
        }
        let ghost g = *self;
        let ghost e = (from.0.0, from.1.0, to.0.0, to.1.0);
        let n = to.0.0 as usize;
        let i = to.1.0 as usize;
        let mut slot: Option<Node> = None;
        self.nodes.set_and_swap(n, &mut slot);
        let mut node = slot.unwrap();
        let mut islot: Option<Input> = None;
        node.inputs.set_and_swap(i, &mut islot);
        let mut input = islot.unwrap();
        let added = input.insert_output(from);
        node.inputs.set(i, Some(input));
        self.nodes.set(n, Some(node));
        self.rank = Ghost(
            |v: u32|
                (g.rank@)(v) + if g.reaches(to.0.0, v) {
                    (g.rank@)(from.0.0) + 1
                } else {
                    0nat
                },
        );
        proof {
            let (fnode, tnode, tin) = (from.0.0, to.0.0, to.1.0);
            assert(g.edges().contains(e) == g.node(tnode).sources(tin).contains(from));
            assert forall|m: u32| #[trigger] self.has_node(m) == g.has_node(m) by {}
            assert forall|m: u32, k: u32| #[trigger] self.has_input(m, k) == g.has_input(m, k) && (self.has_input(m, k) && (m, k) != (tnode, tin) ==> self.node(m).sources(k) == g.node(m).sources(k)) by {
                if m == tnode {
                    assert(self.node(m).inputs@.len() == g.node(m).inputs@.len());
                }
            }
            assert forall|m: u32, k: u32| #[trigger] self.has_output(m, k) == g.has_output(m, k) by {
                if m == tnode {
                    assert(self.node(m).outputs@ == g.node(m).outputs@);
                }
            }
            assert forall|m: u32| #[trigger] self.has_node(m) implies self.node(m).wf() by {
                assert(g.node(m).wf());
            }
            assert(self.node_ids() =~= g.node_ids());
            assert(self.input_ports() =~= g.input_ports());
            assert(self.output_ports() =~= g.output_ports());
            assert forall|a: u32, o: u32, b: u32, k: u32| self.has_edge(a, o, b, k) <==> (g.has_edge(a, o, b, k) || (a, o, b, k) == e) by {
                if (b, k) == (tnode, tin) {
                    if added {
                        assert(self.node(b).sources(k) == g.node(b).sources(k).push(from));
                        if self.node(b).sources(k).contains((NodeID(a), OutputID(o))) {
                            let x = choose|x: int| 0 <= x < self.node(b).sources(k).len() && self.node(b).sources(k)[x] == (NodeID(a), OutputID(o));
                            if x < g.node(b).sources(k).len() {
                                assert(g.node(b).sources(k)[x] == (NodeID(a), OutputID(o)));
                            }
                        }
                        if g.node(b).sources(k).contains((NodeID(a), OutputID(o))) {
                            let x = choose|x: int| 0 <= x < g.node(b).sources(k).len() && g.node(b).sources(k)[x] == (NodeID(a), OutputID(o));
                            assert(self.node(b).sources(k)[x] == (NodeID(a), OutputID(o)));
                        }
                        assert(self.node(b).sources(k)[g.node(b).sources(k).len() as int] == from);
                    }
                }
            }
            assert(self.edges() =~= g.edges().insert(e));
            assert forall|m: u32, k: u32| #[trigger] self.has_input(m, k) implies self.node(m).sources(k).no_duplicates() by {
                assert(g.has_input(m, k));
                if (m, k) == (tnode, tin) && added {
                    let s0 = g.node(m).sources(k);
                    assert(s0.no_duplicates());
                    assert(self.node(m).sources(k) == s0.push(from));
                    assert forall|x: int, y: int| 0 <= x < y < s0.len() + 1 implies s0.push(from)[x] != s0.push(from)[y] by {
                        if y == s0.len() {
                            assert(s0.push(from)[x] == s0[x]);
                        }
                    }
                }
            }
            g.lemma_reaches_self(tnode);
            assert forall|a: u32, o: u32, b: u32, k: u32| #[trigger]
                self.has_edge(a, o, b, k) implies self.has_output(a, o) && (self.rank@)(a) < (self.rank@)(b) by {
                if g.has_edge(a, o, b, k) {
                    assert(g.has_output(a, o));
                    assert(g.feeds(a, b));
                    if g.reaches(tnode, a) {
                        g.lemma_extend(tnode, a, b);
                    }
                } else {
                    assert((a, o, b, k) == e);
                }
            }
        }
        Ok(added)
    }

    /// Disconnects output `from` from input `to`.
    ///
    /// Returns `Ok(true)` if the edge was there, `Ok(false)` if it was not, and `Err(false)` if
    /// either port does not exist, leaving the graph as it was.
    pub fn remove_edge(&mut self, from: (NodeID, OutputID), to: (NodeID, InputID)) -> (r: Result<bool, bool>)
        requires
            old(self).wf(),
        ensures
            final(self).wf(),
            !(old(self).has_output(from.0.0, from.1.0) && old(self).has_input(to.0.0, to.1.0)) ==> r
                == Err::<bool, bool>(false) && *final(self) == *old(self),
            old(self).has_output(from.0.0, from.1.0) && old(self).has_input(to.0.0, to.1.0) ==> r
                == Ok::<bool, bool>(old(self).edges().contains((from.0.0, from.1.0, to.0.0, to.1.0)))
                && final(self).same_ports(old(self)) && final(self).edges() == old(self).edges().remove(
                (from.0.0, from.1.0, to.0.0, to.1.0),
            ),
    {
        if !self.has_input_exec(to.0.0, to.1.0) || !self.has_output_exec(from.0.0, from.1.0) {
            return Err(false);
        }
        let ghost g = *self;
        let ghost e = (from.0.0, from.1.0, to.0.0, to.1.0);
        let n = to.0.0 as usize;
        let i = to.1.0 as usize;
        let mut slot: Option<Node> = None;
        self.nodes.set_and_swap(n, &mut slot);
        let mut node = slot.unwrap();
        let mut islot: Option<Input> = None;
        node.inputs.set_and_swap(i, &mut islot);
        let mut input = islot.unwrap();
        let removed = input.remove_port(from);
        node.inputs.set(i, Some(input));
        self.nodes.set(n, Some(node));
        proof {
            let (tnode, tin) = (to.0.0, to.1.0);
            assert(g.has_input(tnode, tin));
            assert(g.node(tnode).sources(tin).no_duplicates());
            assert(g.edges().contains(e) == g.node(tnode).sources(tin).contains(from));
            assert forall|m: u32| #[trigger] self.has_node(m) == g.has_node(m) by {}
            assert forall|m: u32, k: u32| #[trigger] self.has_input(m, k) == g.has_input(m, k) && (self.has_input(m, k) && (m, k) != (tnode, tin) ==> self.node(m).sources(k) == g.node(m).sources(k)) by {
                if m == tnode {
                    assert(self.node(m).inputs@.len() == g.node(m).inputs@.len());
                }
            }
            assert forall|m: u32, k: u32| #[trigger] self.has_output(m, k) == g.has_output(m, k) by {
                if m == tnode {
                    assert(self.node(m).outputs@ == g.node(m).outputs@);
                }
            }
            assert forall|m: u32| #[trigger] self.has_node(m) implies self.node(m).wf() by {
                assert(g.node(m).wf());
            }
            assert(self.node_ids() =~= g.node_ids());
            assert(self.input_ports() =~= g.input_ports());
            assert(self.output_ports() =~= g.output_ports());
            assert forall|a: u32, o: u32, b: u32, k: u32| self.has_edge(a, o, b, k) <==> (g.has_edge(a, o, b, k) && (a, o, b, k) != e) by {
                if (b, k) == (tnode, tin) {
                    let x = (NodeID(a), OutputID(o));
                    assert(self.node(b).sources(k).to_set() == g.node(b).sources(k).to_set().remove(from));
                    assert(self.node(b).sources(k).contains(x) == self.node(b).sources(k).to_set().contains(x));
                    assert(g.node(b).sources(k).contains(x) == g.node(b).sources(k).to_set().contains(x));
                }
            }
            assert(self.edges() =~= g.edges().remove(e));
            assert forall|m: u32, k: u32| #[trigger] self.has_input(m, k) implies self.node(m).sources(k).no_duplicates() by {
                assert(g.has_input(m, k));
            }
            assert forall|a: u32, o: u32, b: u32, k: u32| #[trigger]
                self.has_edge(a, o, b, k) implies self.has_output(a, o) && (self.rank@)(a) < (self.rank@)(b) by {
                assert(g.has_edge(a, o, b, k));
            }
        }
        Ok(removed)
    }

    /// The output ports, as `(node, output)`, connected to input `i` of node `m`.
    pub open spec fn srcset(&self, m: u32, i: u32) -> Set<(u32, u32)> {
        Set::new(|p: (u32, u32)| self.has_edge(p.0, p.1, m, i))
    }

    /// The output ports feeding input `i` of node `m` that have been accounted for so far.
    spec fn counted(&self, m: u32, i: u32, order: Seq<u32>, k: int, n: u32, outs: Seq<(OutputID, usize)>, x: int, sinks: Seq<(u32, u32)>, y: int) -> Set<(u32, u32)> {
        Set::new(|p: (u32, u32)| self.has_edge(p.0, p.1, m, i) && (placed_before(order, k, p.0) || handled(n, outs, x, sinks, y, m, i, p)))
    }

    /// Every claim's buffer holds what has been accounted for its input, every claim belongs
    /// to an input of a node at position `lo` or later, and such an input without a claim has
    /// nothing accounted for.
    spec fn claims_ok(&self, alloc: BufferAllocator, val: Map<usize, Set<(u32, u32)>>, order: Seq<u32>, k: int, lo: int, n: u32, outs: Seq<(OutputID, usize)>, x: int, sinks: Seq<(u32, u32)>, y: int) -> bool {
        &&& alloc.wf()
        &&& alloc.unique()
        &&& forall|c: int| 0 <= c < alloc.claims@.len() ==> {
            &&& read(val, (#[trigger] alloc.claims@[c]).2) == self.counted(alloc.claims@[c].0, alloc.claims@[c].1, order, k, n, outs, x, sinks, y)
            &&& self.has_input(alloc.claims@[c].0, alloc.claims@[c].1)
            &&& placed_from(order, lo, alloc.claims@[c].0)
            &&& self.counted(alloc.claims@[c].0, alloc.claims@[c].1, order, k, n, outs, x, sinks, y) != Set::<(u32, u32)>::empty()
        }
        &&& forall|m: u32, i: u32|
            placed_from(order, lo, m) && self.has_input(m, i) && !alloc.claimed(m, i) ==> #[trigger] self.counted(m, i, order, k, n, outs, x, sinks, y) == Set::<(u32, u32)>::empty()
    }

    /// Takes the claims of the inputs of node `n`, at position `k` of `order`: each input reads
    /// the buffer claimed for it, which holds all its sources, or no buffer when it has none.
    fn schedule_inputs(&self, node: &Node, n: u32, alloc: &mut BufferAllocator, Ghost(order): Ghost<Seq<u32>>, Ghost(k): Ghost<int>, Ghost(val): Ghost<Map<usize, Set<(u32, u32)>>>) -> (inputs: Vec<(InputID, usize)>)
        requires
            self.wf(),
            self.is_topological(order),
            0 <= k < order.len(),
            order[k] == n,
            self.has_node(n),
            *node == self.node(n),
            self.claims_ok(*old(alloc), val, order, k, k, n, Seq::empty(), 0, Seq::empty(), 0),
        ensures
            self.claims_ok(*final(alloc), val, order, k, k + 1, n, Seq::empty(), 0, Seq::empty(), 0),
            final(alloc).held@ == old(alloc).held@,
            forall|c: usize| holds_claim(old(alloc).claims@, c) ==> holds_claim(final(alloc).claims@, c) || exists|x: int| 0 <= x < inputs@.len() && (#[trigger] inputs@[x]).1 == c,
            forall|c: usize| holds_claim(final(alloc).claims@, c) ==> holds_claim(old(alloc).claims@, c),
            forall|x: int, y: int| 0 <= x < y < inputs@.len() ==> (#[trigger] inputs@[x]).0.0 < (#[trigger] inputs@[y]).0.0,
            forall|i: u32| self.has_input(n, i) <==> exists|x: int| 0 <= x < inputs@.len() && (#[trigger] inputs@[x]).0.0 == i,
            forall|x: int| 0 <= x < inputs@.len() ==> buf_ok((#[trigger] inputs@[x]).1, final(alloc).held.len()),
            forall|x: int| 0 <= x < inputs@.len() ==> if (#[trigger] inputs@[x]).1 == UNUSED {
                self.srcset(n, inputs@[x].0.0) == Set::<(u32, u32)>::empty()
            } else {
                read(val, inputs@[x].1) == self.srcset(n, inputs@[x].0.0) && self.srcset(n, inputs@[x].0.0) != Set::<(u32, u32)>::empty()
            },
    {
        let ghost e = Seq::<(OutputID, usize)>::empty();
        let ghost es = Seq::<(u32, u32)>::empty();
        assert(node.wf());
        let mut inputs: Vec<(InputID, usize)> = Vec::new();
        let mut i: usize = 0;
        while i < node.inputs.len()
            invariant
                self.wf(),
                self.is_topological(order),
                0 <= k < order.len(),
                order[k] == n,
                self.has_node(n),
                *node == self.node(n),
                node.wf(),
                i <= node.inputs@.len(),
                alloc.wf(),
                alloc.unique(),
                alloc.held@ == old(alloc).held@,
                forall|c: usize| holds_claim(old(alloc).claims@, c) ==> holds_claim(alloc.claims@, c) || exists|x: int| 0 <= x < inputs@.len() && (#[trigger] inputs@[x]).1 == c,
                forall|c: usize| holds_claim(alloc.claims@, c) ==> holds_claim(old(alloc).claims@, c),
                forall|c: int| 0 <= c < alloc.claims@.len() ==> {
                    &&& read(val, (#[trigger] alloc.claims@[c]).2) == self.counted(alloc.claims@[c].0, alloc.claims@[c].1, order, k, n, e, 0, es, 0)
                    &&& self.has_input(alloc.claims@[c].0, alloc.claims@[c].1)
                    &&& (placed_from(order, k + 1, alloc.claims@[c].0) || (alloc.claims@[c].0 == n && alloc.claims@[c].1 >= i))
                    &&& self.counted(alloc.claims@[c].0, alloc.claims@[c].1, order, k, n, e, 0, es, 0) != Set::<(u32, u32)>::empty()
                },
                forall|m: u32, i2: u32|
                    placed_from(order, k + 1, m) && self.has_input(m, i2) && !alloc.claimed(m, i2) ==> #[trigger] self.counted(m, i2, order, k, n, e, 0, es, 0) == Set::<(u32, u32)>::empty(),
                forall|i2: u32|
                    i2 >= i && self.has_input(n, i2) && !alloc.claimed(n, i2) ==> #[trigger] self.counted(n, i2, order, k, n, e, 0, es, 0) == Set::<(u32, u32)>::empty(),
                forall|x: int| 0 <= x < inputs@.len() ==> buf_ok((#[trigger] inputs@[x]).1, alloc.held.len()),
                forall|x: int, y: int| 0 <= x < y < inputs@.len() ==> (#[trigger] inputs@[x]).0.0 < (#[trigger] inputs@[y]).0.0,
                forall|x: int| 0 <= x < inputs@.len() ==> (#[trigger] inputs@[x]).0.0 < i && self.has_input(n, inputs@[x].0.0),
                forall|i2: u32| i2 < i && self.has_input(n, i2) ==> exists|x: int| 0 <= x < inputs@.len() && (#[trigger] inputs@[x]).0.0 == i2,
                forall|x: int| 0 <= x < inputs@.len() ==> if (#[trigger] inputs@[x]).1 == UNUSED {
                    self.srcset(n, inputs@[x].0.0) == Set::<(u32, u32)>::empty()
                } else {
                    read(val, inputs@[x].1) == self.srcset(n, inputs@[x].0.0) && self.srcset(n, inputs@[x].0.0) != Set::<(u32, u32)>::empty()
                },
            decreases node.inputs@.len() - i,
        {
            let ghost in0 = inputs@;
            if node.inputs[i].is_some() {
                let ghost a0 = *alloc;
                assert(self.has_input(n, i as u32));
                proof {
                    assert(self.counted(n, i as u32, order, k, n, e, 0, es, 0) =~= self.srcset(n, i as u32)) by {
                        assert forall|p: (u32, u32)| self.srcset(n, i as u32).contains(p) implies placed_before(order, k, p.0) by {
                            assert(self.has_edge(p.0, p.1, n, i as u32));
                            assert(self.feeds(p.0, order[k]));
                            let q = choose|q: int| 0 <= q < k && order[q] == p.0;
                        }
                    }
                }
                let b = alloc.take_claim(n, i as u32);
                proof {
                    if b != UNUSED {
                        let c = choose|c: int| 0 <= c < a0.claims@.len() && a0.claims@[c] == (n, i as u32, b);
                        assert(read(val, a0.claims@[c].2) == self.counted(n, i as u32, order, k, n, e, 0, es, 0));
                        assert(self.counted(n, i as u32, order, k, n, e, 0, es, 0) != Set::<(u32, u32)>::empty());
                    }
                    assert forall|c: int| 0 <= c < alloc.claims@.len() implies {
                        &&& read(val, (#[trigger] alloc.claims@[c]).2) == self.counted(alloc.claims@[c].0, alloc.claims@[c].1, order, k, n, e, 0, es, 0)
                        &&& self.has_input(alloc.claims@[c].0, alloc.claims@[c].1)
                        &&& (placed_from(order, k + 1, alloc.claims@[c].0) || (alloc.claims@[c].0 == n && alloc.claims@[c].1 >= i + 1))
                        &&& self.counted(alloc.claims@[c].0, alloc.claims@[c].1, order, k, n, e, 0, es, 0) != Set::<(u32, u32)>::empty()
                    } by {
                        assert(alloc.claims@.contains(alloc.claims@[c]));
                        assert(a0.claims@.contains(alloc.claims@[c]));
                        let c0 = choose|c0: int| 0 <= c0 < a0.claims@.len() && a0.claims@[c0] == alloc.claims@[c];
                    }
                    assert forall|m: u32, i2: u32| placed_from(order, k + 1, m) && self.has_input(m, i2) && !alloc.claimed(m, i2) implies #[trigger] self.counted(m, i2, order, k, n, e, 0, es, 0) == Set::<(u32, u32)>::empty() by {
                        if a0.claimed(m, i2) {
                            let bb = choose|bb: usize| a0.claims@.contains((m, i2, bb));
                            let q = choose|q: int| k + 1 <= q < order.len() && order[q] == m;
                            assert(order[q] != order[k]);
                            assert(alloc.claims@.contains((m, i2, bb)));
                        }
                    }
                    assert forall|i2: u32| i2 >= i + 1 && self.has_input(n, i2) && !alloc.claimed(n, i2) implies #[trigger] self.counted(n, i2, order, k, n, e, 0, es, 0) == Set::<(u32, u32)>::empty() by {
                        if a0.claimed(n, i2) {
                            let bb = choose|bb: usize| a0.claims@.contains((n, i2, bb));
                            assert(alloc.claims@.contains((n, i2, bb)));
                        }
                    }
                }
                let ghost in_before = inputs@;
                inputs.push((InputID(i as u32), b));
                proof {
                    assert forall|c: usize| holds_claim(old(alloc).claims@, c) implies holds_claim(alloc.claims@, c) || exists|x: int| 0 <= x < inputs@.len() && (#[trigger] inputs@[x]).1 == c by {
                        if holds_claim(a0.claims@, c) {
                            let kk = choose|kk: int| 0 <= kk < a0.claims@.len() && (#[trigger] a0.claims@[kk]).2 == c;
                            let cl = a0.claims@[kk];
                            assert(a0.claims@.contains(cl));
                            if cl.0 == n && cl.1 == i as u32 {
                                assert(b != UNUSED);
                                assert(a0.claims@.contains((n, i as u32, b)));
                                let kb = choose|kb: int| 0 <= kb < a0.claims@.len() && a0.claims@[kb] == (n, i as u32, b);
                                if kb != kk {
                                    assert(a0.claims@[kb].0 != a0.claims@[kk].0 || a0.claims@[kb].1 != a0.claims@[kk].1);
                                }
                                assert(inputs@[in_before.len() as int].1 == c);
                            } else {
                                assert(alloc.claims@.contains(cl));
                                let k2 = choose|k2: int| 0 <= k2 < alloc.claims@.len() && alloc.claims@[k2] == cl;
                                assert(alloc.claims@[k2].2 == c);
                            }
                        } else {
                            let x = choose|x: int| 0 <= x < in_before.len() && (#[trigger] in_before[x]).1 == c;
                            assert(inputs@[x] == in_before[x]);
                        }
                    }
                    assert forall|c: usize| holds_claim(alloc.claims@, c) implies holds_claim(old(alloc).claims@, c) by {
                        let k2 = choose|k2: int| 0 <= k2 < alloc.claims@.len() && (#[trigger] alloc.claims@[k2]).2 == c;
                        assert(alloc.claims@.contains(alloc.claims@[k2]));
                        assert(a0.claims@.contains(alloc.claims@[k2]));
                        let k3 = choose|k3: int| 0 <= k3 < a0.claims@.len() && a0.claims@[k3] == alloc.claims@[k2];
                        assert(a0.claims@[k3].2 == c);
                    }
                }
                proof {
                    assert forall|x: int, y: int| 0 <= x < y < inputs@.len() implies (#[trigger] inputs@[x]).0.0 < (#[trigger] inputs@[y]).0.0 by {
                        assert(inputs@[x] == in0[x]);
                        if y < in0.len() {
                            assert(inputs@[y] == in0[y]);
                        }
                    }
                    assert forall|x: int| 0 <= x < inputs@.len() implies (#[trigger] inputs@[x]).0.0 < i + 1 && self.has_input(n, inputs@[x].0.0) by {
                        if x < in0.len() {
                            assert(inputs@[x] == in0[x]);
                        }
                    }
                    assert forall|i2: u32| i2 < i + 1 && self.has_input(n, i2) implies exists|x: int| 0 <= x < inputs@.len() && (#[trigger] inputs@[x]).0.0 == i2 by {
                        if i2 < i {
                            let x = choose|x: int| 0 <= x < in0.len() && (#[trigger] in0[x]).0.0 == i2;
                            assert(inputs@[x] == in0[x]);
                        } else {
                            assert(inputs@[in0.len() as int].0.0 == i2);
                        }
                    }
                    assert forall|x: int| 0 <= x < inputs@.len() implies buf_ok((#[trigger] inputs@[x]).1, alloc.held.len()) by {
                        if x < in0.len() {
                            assert(inputs@[x] == in0[x]);
                        }
                    }
                    assert forall|x: int| 0 <= x < inputs@.len() implies if (#[trigger] inputs@[x]).1 == UNUSED {
                        self.srcset(n, inputs@[x].0.0) == Set::<(u32, u32)>::empty()
                    } else {
                        read(val, inputs@[x].1) == self.srcset(n, inputs@[x].0.0) && self.srcset(n, inputs@[x].0.0) != Set::<(u32, u32)>::empty()
                    } by {
                        if x < in0.len() {
                            assert(inputs@[x] == in0[x]);
                        }
                    }
                }
            } else {
                proof {
                    assert forall|c: int| 0 <= c < alloc.claims@.len() implies (placed_from(order, k + 1, (#[trigger] alloc.claims@[c]).0) || (alloc.claims@[c].0 == n && alloc.claims@[c].1 >= i + 1)) by {
                        if alloc.claims@[c].0 == n && alloc.claims@[c].1 == i {
                            assert(self.has_input(n, i as u32));
                        }
                    }
                    assert forall|i2: u32| i2 < i + 1 && self.has_input(n, i2) implies exists|x: int| 0 <= x < inputs@.len() && (#[trigger] inputs@[x]).0.0 == i2 by {
                        if i2 == i {
                            assert(!node.has_input(i2));
                        }
                    }
                }
            }
            i = i + 1;
        }
        proof {
            assert forall|c: int| 0 <= c < alloc.claims@.len() implies placed_from(order, k + 1, (#[trigger] alloc.claims@[c]).0) by {
                if alloc.claims@[c].0 == n && alloc.claims@[c].1 >= i {
                    assert(self.has_input(n, alloc.claims@[c].1));
                    assert(!node.has_input(alloc.claims@[c].1));
                }
            }
            assert forall|i2: u32| self.has_input(n, i2) implies exists|x: int| 0 <= x < inputs@.len() && (#[trigger] inputs@[x]).0.0 == i2 by {
                assert(i2 < i);
            }
        }
        inputs
    }

    /// Gives each output of node `n` that feeds a node of `order` a buffer that is neither
    /// claimed nor held, and holds it; the other outputs get [`UNUSED`].
    fn assign_outputs(&self, node: &Node, n: u32, order: &Vec<u32>, alloc: &mut BufferAllocator) -> (outs: Vec<(OutputID, usize)>)
        requires
            self.wf(),
            self.is_topological(order@),
            self.has_node(n),
            *node == self.node(n),
            old(alloc).wf(),
            old(alloc).unique(),
            forall|b: int| 0 <= b < old(alloc).held@.len() ==> !old(alloc).held@[b],
        ensures
            final(alloc).claims@ == old(alloc).claims@,
            final(alloc).wf(),
            final(alloc).unique(),
            final(alloc).held@.len() >= old(alloc).held@.len(),
            forall|x: int, y: int| 0 <= x < y < outs@.len() ==> (#[trigger] outs@[x]).0.0 < (#[trigger] outs@[y]).0.0,
            forall|x: int| 0 <= x < outs@.len() ==> self.has_output(n, (#[trigger] outs@[x]).0.0),
            forall|o: u32| self.has_output(n, o) ==> exists|x: int| 0 <= x < outs@.len() && (#[trigger] outs@[x]).0.0 == o,
            forall|x: int| 0 <= x < outs@.len() ==> buf_ok((#[trigger] outs@[x]).1, final(alloc).held.len()),
            forall|x: int, y: int| 0 <= x < y < outs@.len() && outs@[x].1 != UNUSED ==> #[trigger] outs@[x].1 != #[trigger] outs@[y].1,
            forall|x: int, c: int| 0 <= x < outs@.len() && 0 <= c < old(alloc).claims@.len() && (#[trigger] outs@[x]).1 != UNUSED ==> (#[trigger] old(alloc).claims@[c]).2 != outs@[x].1,
            forall|b: int| 0 <= b < final(alloc).held@.len() ==> (#[trigger] final(alloc).held@[b] <==> exists|x: int| 0 <= x < outs@.len() && (#[trigger] outs@[x]).1 == b),
            forall|b: int| old(alloc).held@.len() <= b < final(alloc).held@.len() ==> #[trigger] final(alloc).held@[b],
            forall|x: int| 0 <= x < outs@.len() && (#[trigger] outs@[x]).1 != UNUSED ==> forall|c: usize| c < outs@[x].1 ==> earlier_output(outs@, x, c) || #[trigger] holds_claim(old(alloc).claims@, c),
            forall|x: int, m: u32, i: u32| 0 <= x < outs@.len() && outs@[x].1 == UNUSED && order@.contains(m) ==> !#[trigger] self.has_edge(n, outs@[x].0.0, m, i),
            forall|x: int| 0 <= x < outs@.len() && (#[trigger] outs@[x]).1 != UNUSED ==> exists|m: u32, i: u32| order@.contains(m) && self.has_edge(n, outs@[x].0.0, m, i),
    {
        assert(node.wf());
        let mut outs: Vec<(OutputID, usize)> = Vec::new();
        let mut o: usize = 0;
        while o < node.outputs.len()
            invariant
                self.wf(),
                self.is_topological(order@),
                self.has_node(n),
                *node == self.node(n),
                node.wf(),
                o <= node.outputs@.len(),
                alloc.claims@ == old(alloc).claims@,
                alloc.wf(),
                alloc.unique(),
                alloc.held@.len() >= old(alloc).held@.len(),
                forall|x: int, y: int| 0 <= x < y < outs@.len() ==> (#[trigger] outs@[x]).0.0 < (#[trigger] outs@[y]).0.0,
                forall|x: int| 0 <= x < outs@.len() ==> (#[trigger] outs@[x]).0.0 < o,
                forall|x: int| 0 <= x < outs@.len() ==> self.has_output(n, (#[trigger] outs@[x]).0.0),
                forall|o2: u32| o2 < o && self.has_output(n, o2) ==> exists|x: int| 0 <= x < outs@.len() && (#[trigger] outs@[x]).0.0 == o2,
                forall|x: int| 0 <= x < outs@.len() ==> buf_ok((#[trigger] outs@[x]).1, alloc.held.len()),
                forall|x: int, y: int| 0 <= x < y < outs@.len() && outs@[x].1 != UNUSED ==> #[trigger] outs@[x].1 != #[trigger] outs@[y].1,
                forall|x: int, c: int| 0 <= x < outs@.len() && 0 <= c < old(alloc).claims@.len() && (#[trigger] outs@[x]).1 != UNUSED ==> (#[trigger] old(alloc).claims@[c]).2 != outs@[x].1,
                forall|b: int| 0 <= b < alloc.held@.len() ==> (#[trigger] alloc.held@[b] <==> exists|x: int| 0 <= x < outs@.len() && (#[trigger] outs@[x]).1 == b),
                forall|b: int| old(alloc).held@.len() <= b < alloc.held@.len() ==> #[trigger] alloc.held@[b],
                forall|x: int| 0 <= x < outs@.len() && (#[trigger] outs@[x]).1 != UNUSED ==> forall|c: usize| c < outs@[x].1 ==> earlier_output(outs@, x, c) || #[trigger] holds_claim(old(alloc).claims@, c),
                forall|x: int, m: u32, i: u32| 0 <= x < outs@.len() && outs@[x].1 == UNUSED && order@.contains(m) ==> !#[trigger] self.has_edge(n, outs@[x].0.0, m, i),
                forall|x: int| 0 <= x < outs@.len() && (#[trigger] outs@[x]).1 != UNUSED ==> exists|m: u32, i: u32| order@.contains(m) && self.has_edge(n, outs@[x].0.0, m, i),
            decreases node.outputs@.len() - o,
        {
            if node.outputs[o] {
                assert(self.has_output(n, o as u32));
                let sinks = self.sinks(order, n, o as u32);
                let ghost outs0 = outs@;
                if sinks.len() == 0 {
                    outs.push((OutputID(o as u32), UNUSED));
                    proof {
                        assert forall|b: int| 0 <= b < alloc.held@.len() implies (#[trigger] alloc.held@[b] <==> exists|x: int| 0 <= x < outs@.len() && (#[trigger] outs@[x]).1 == b) by {
                            if alloc.held@[b] {
                                let x = choose|x: int| 0 <= x < outs0.len() && (#[trigger] outs0[x]).1 == b;
                                assert(outs@[x] == outs0[x]);
                            }
                            if exists|x: int| 0 <= x < outs@.len() && (#[trigger] outs@[x]).1 == b {
                                let x = choose|x: int| 0 <= x < outs@.len() && (#[trigger] outs@[x]).1 == b;
                                if x < outs0.len() {
                                    assert(outs0[x] == outs@[x]);
                                } else {
                                    assert(alloc.held.len() == alloc.held@.len());
                                }
                            }
                        }
                        assert forall|x: int, m: u32, i: u32| 0 <= x < outs@.len() && outs@[x].1 == UNUSED && order@.contains(m) implies !#[trigger] self.has_edge(n, outs@[x].0.0, m, i) by {
                            if x < outs0.len() {
                                assert(outs0[x] == outs@[x]);
                            } else if self.has_edge(n, outs@[x].0.0, m, i) {
                                assert(sinks@.contains((m, i)));
                            }
                        }
                        assert forall|x: int| 0 <= x < outs@.len() && (#[trigger] outs@[x]).1 != UNUSED implies exists|m: u32, i: u32| order@.contains(m) && self.has_edge(n, outs@[x].0.0, m, i) by {
                            assert(x < outs0.len());
                            assert(outs0[x] == outs@[x]);
                        }
                        assert forall|x: int| 0 <= x < outs@.len() && (#[trigger] outs@[x]).1 != UNUSED implies forall|c: usize| c < outs@[x].1 ==> earlier_output(outs@, x, c) || #[trigger] holds_claim(old(alloc).claims@, c) by {
                            assert(x < outs0.len());
                            assert(outs0[x] == outs@[x]);
                            assert forall|c: usize| c < outs@[x].1 implies earlier_output(outs@, x, c) || #[trigger] holds_claim(old(alloc).claims@, c) by {
                                if earlier_output(outs0, x, c) {
                                    let y = choose|y: int| 0 <= y < x && (#[trigger] outs0[y]).1 == c;
                                    assert(outs@[y] == outs0[y]);
                                }
                            }
                        }
                    }
                } else {
                    let ghost held0 = alloc.held@;
                    let ghost claims0 = alloc.claims@;
                    let b = alloc.get_free();
                    proof {
                        assert forall|x: int| 0 <= x < outs0.len() && outs0[x].1 != UNUSED implies outs0[x].1 != b by {
                            if outs0[x].1 == b {
                                assert(held0[b as int]);
                            }
                        }
                    }
                    alloc.held.set(b, true);
                    outs.push((OutputID(o as u32), b));
                    proof {
                        assert forall|x: int, y: int| 0 <= x < y < outs@.len() && outs@[x].1 != UNUSED implies #[trigger] outs@[x].1 != #[trigger] outs@[y].1 by {
                            if y == outs0.len() {
                                assert(outs@[x] == outs0[x]);
                            } else {
                                assert(outs@[x] == outs0[x] && outs@[y] == outs0[y]);
                            }
                        }
                        assert forall|x: int, c: int| 0 <= x < outs@.len() && 0 <= c < old(alloc).claims@.len() && (#[trigger] outs@[x]).1 != UNUSED implies (#[trigger] old(alloc).claims@[c]).2 != outs@[x].1 by {
                            if x < outs0.len() {
                                assert(outs@[x] == outs0[x]);
                            }
                        }
                        assert forall|b2: int| 0 <= b2 < alloc.held@.len() implies (#[trigger] alloc.held@[b2] <==> exists|x: int| 0 <= x < outs@.len() && (#[trigger] outs@[x]).1 == b2) by {
                            if b2 == b {
                                assert(outs@[outs0.len() as int].1 == b2);
                            } else {
                                if alloc.held@[b2] {
                                    assert(b2 < held0.len());
                                    assert(held0[b2]);
                                    let x = choose|x: int| 0 <= x < outs0.len() && (#[trigger] outs0[x]).1 == b2;
                                    assert(outs@[x] == outs0[x]);
                                }
                                if exists|x: int| 0 <= x < outs@.len() && (#[trigger] outs@[x]).1 == b2 {
                                    let x = choose|x: int| 0 <= x < outs@.len() && (#[trigger] outs@[x]).1 == b2;
                                    assert(x < outs0.len());
                                    assert(outs0[x] == outs@[x]);
                                    assert(b2 < held0.len());
                                }
                            }
                        }
                        assert forall|x: int, m: u32, i: u32| 0 <= x < outs@.len() && outs@[x].1 == UNUSED && order@.contains(m) implies !#[trigger] self.has_edge(n, outs@[x].0.0, m, i) by {
                            if x < outs0.len() {
                                assert(outs0[x] == outs@[x]);
                            } else {
                                assert(alloc.held.len() == alloc.held@.len());
                                assert(b != UNUSED);
                            }
                        }
                        assert(claims0 == old(alloc).claims@);
                        assert forall|x: int| 0 <= x < outs@.len() && (#[trigger] outs@[x]).1 != UNUSED implies forall|c: usize| c < outs@[x].1 ==> earlier_output(outs@, x, c) || #[trigger] holds_claim(old(alloc).claims@, c) by {
                            if x < outs0.len() {
                                assert(outs0[x] == outs@[x]);
                                assert forall|c: usize| c < outs@[x].1 implies earlier_output(outs@, x, c) || #[trigger] holds_claim(old(alloc).claims@, c) by {
                                    if earlier_output(outs0, x, c) {
                                        let y = choose|y: int| 0 <= y < x && (#[trigger] outs0[y]).1 == c;
                                        assert(outs@[y] == outs0[y]);
                                    }
                                }
                            } else {
                                assert forall|c: usize| c < outs@[x].1 implies earlier_output(outs@, x, c) || #[trigger] holds_claim(old(alloc).claims@, c) by {
                                    assert(outs@[x].1 == b);
                                    if !holds_claim(claims0, c) {
                                        assert(held0[c as int]);
                                        let y = choose|y: int| 0 <= y < outs0.len() && (#[trigger] outs0[y]).1 == c as int;
                                        assert(outs@[y] == outs0[y]);
                                        assert(earlier_output(outs@, x, c));
                                    }
                                }
                            }
                        }
                        assert forall|x: int| 0 <= x < outs@.len() && (#[trigger] outs@[x]).1 != UNUSED implies exists|m: u32, i: u32| order@.contains(m) && self.has_edge(n, outs@[x].0.0, m, i) by {
                            if x < outs0.len() {
                                assert(outs0[x] == outs@[x]);
                            } else {
                                assert(sinks@.len() > 0);
                                let sk = sinks@[0];
                                assert(self.has_edge(n, o as u32, sk.0, sk.1) && order@.contains(sk.0));
                                assert(outs@[x].0.0 == o as u32);
                                assert(order@.contains(sk.0) && self.has_edge(n, outs@[x].0.0, sk.0, sk.1));
                            }
                        }
                    }
                }
                proof {
                    assert forall|x: int, y: int| 0 <= x < y < outs@.len() implies (#[trigger] outs@[x]).0.0 < (#[trigger] outs@[y]).0.0 by {
                        if y < outs0.len() {
                            assert(outs@[x] == outs0[x] && outs@[y] == outs0[y]);
                        } else {
                            assert(outs@[x] == outs0[x]);
                        }
                    }
                    assert forall|x: int| 0 <= x < outs@.len() implies (#[trigger] outs@[x]).0.0 < o + 1 && self.has_output(n, outs@[x].0.0) by {
                        if x < outs0.len() {
                            assert(outs@[x] == outs0[x]);
                        }
                    }
                    assert forall|o2: u32| o2 < o + 1 && self.has_output(n, o2) implies exists|x: int| 0 <= x < outs@.len() && (#[trigger] outs@[x]).0.0 == o2 by {
                        if o2 < o {
                            let x = choose|x: int| 0 <= x < outs0.len() && (#[trigger] outs0[x]).0.0 == o2;
                            assert(outs@[x] == outs0[x]);
                        } else {
                            assert(outs@[outs0.len() as int].0.0 == o2);
                        }
                    }
                    assert forall|x: int| 0 <= x < outs@.len() implies buf_ok((#[trigger] outs@[x]).1, alloc.held.len()) by {
                        if x < outs0.len() {
                            assert(outs@[x] == outs0[x]);
                        }
                    }
                }
            } else {
                proof {
                    assert forall|o2: u32| o2 < o + 1 && self.has_output(n, o2) implies exists|x: int| 0 <= x < outs@.len() && (#[trigger] outs@[x]).0.0 == o2 by {
                        if o2 == o {
                            assert(!node.has_output(o2));
                        }
                    }
                }
            }
            o = o + 1;
        }
        proof {
            assert forall|o2: u32| self.has_output(n, o2) implies exists|x: int| 0 <= x < outs@.len() && (#[trigger] outs@[x]).0.0 == o2 by {
                assert(o2 < o);
            }
        }
        outs
    }

    /// Once output `x` of node `n` is done with (its sinks in `sinks`, all of them seen),
    /// what is accounted for the inputs of nodes of `order` is the same as when counting
    /// outputs up to `x + 1`.
    proof fn lemma_counted_next_output(&self, order: Seq<u32>, k: int, n: u32, outs: Seq<(OutputID, usize)>, x: int, sinks: Seq<(u32, u32)>, m: u32, i: u32)
        requires
            0 <= x < outs.len(),
            order.contains(m),
            forall|x1: int, x2: int| 0 <= x1 < x2 < outs.len() ==> (#[trigger] outs[x1]).0.0 < (#[trigger] outs[x2]).0.0,
            self.has_edge(n, outs[x].0.0, m, i) ==> sinks.contains((m, i)),
        ensures
            self.counted(m, i, order, k, n, outs, x, sinks, sinks.len() as int) == self.counted(m, i, order, k, n, outs, x + 1, Seq::empty(), 0),
    {
        let a = self.counted(m, i, order, k, n, outs, x, sinks, sinks.len() as int);
        let b = self.counted(m, i, order, k, n, outs, x + 1, Seq::empty(), 0);
        assert(sinks.subrange(0, sinks.len() as int) =~= sinks);
        assert forall|p: (u32, u32)| a.contains(p) <==> b.contains(p) by {
            if a.contains(p) && !placed_before(order, k, p.0) {
                if p.0 == n && 0 <= x < outs.len() && p.1 == outs[x].0.0 && sinks.contains((m, i)) {
                    assert(outs[x].0.0 == p.1);
                }
            }
            if b.contains(p) && !placed_before(order, k, p.0) {
                let x2 = choose|x2: int| 0 <= x2 < x + 1 && x2 < outs.len() && #[trigger] outs[x2].0.0 == p.1;
                if x2 == x {
                    assert(sinks.contains((m, i)));
                } else {
                    assert(handled(n, outs, x, sinks, sinks.len() as int, m, i, p));
                }
            }
        }
        assert(a =~= b);
    }

    /// `claims_ok` carries over to other counting arguments that agree on every claimed input
    /// and on every input of a node at position `lo` or later.
    proof fn lemma_claims_ok_transfer(&self, alloc: BufferAllocator, val: Map<usize, Set<(u32, u32)>>, order: Seq<u32>, k: int, lo: int, n: u32,
        outs: Seq<(OutputID, usize)>, x: int, sinks: Seq<(u32, u32)>, y: int,
        k2: int, n2: u32, outs2: Seq<(OutputID, usize)>, x2: int, sinks2: Seq<(u32, u32)>, y2: int)
        requires
            self.claims_ok(alloc, val, order, k, lo, n, outs, x, sinks, y),
            forall|m: u32, i: u32| placed_from(order, lo, m) ==> #[trigger] self.counted(m, i, order, k, n, outs, x, sinks, y) == self.counted(m, i, order, k2, n2, outs2, x2, sinks2, y2),
        ensures
            self.claims_ok(alloc, val, order, k2, lo, n2, outs2, x2, sinks2, y2),
    {
        assert forall|c: int| 0 <= c < alloc.claims@.len() implies read(val, (#[trigger] alloc.claims@[c]).2) == self.counted(alloc.claims@[c].0, alloc.claims@[c].1, order, k2, n2, outs2, x2, sinks2, y2)
            && self.counted(alloc.claims@[c].0, alloc.claims@[c].1, order, k2, n2, outs2, x2, sinks2, y2) != Set::<(u32, u32)>::empty() by {
            assert(self.counted(alloc.claims@[c].0, alloc.claims@[c].1, order, k, n, outs, x, sinks, y) == self.counted(alloc.claims@[c].0, alloc.claims@[c].1, order, k2, n2, outs2, x2, sinks2, y2));
        }
        assert forall|m: u32, i: u32| placed_from(order, lo, m) && self.has_input(m, i) && !alloc.claimed(m, i) implies #[trigger] self.counted(m, i, order, k2, n2, outs2, x2, sinks2, y2) == Set::<(u32, u32)>::empty() by {
            assert(self.counted(m, i, order, k, n, outs, x, sinks, y) == self.counted(m, i, order, k2, n2, outs2, x2, sinks2, y2));
        }
    }

    /// The schedule so far stays within `nbuf` buffers, writes distinct buffers from each node,
    /// reads what it should at every step, and runs the first `done` nodes of `order`.
    spec fn schedule_ok(&self, s: Seq<Task>, nbuf: usize, order: Seq<u32>, done: int) -> bool {
        &&& forall|t: int| 0 <= t < s.len() ==> task_in_bounds(#[trigger] s[t], nbuf)
        &&& forall|t: int| 0 <= t < s.len() ==> outputs_distinct(#[trigger] s[t])
        &&& forall|t: int| 0 <= t < s.len() ==> ports_listed(*self, #[trigger] s[t])
        &&& forall|t: int| 0 <= t < s.len() ==> outputs_used(*self, order, #[trigger] s[t])
        &&& forall|t: int| 0 <= t < s.len() ==> #[trigger] step_reads_sources(*self, s, t)
        &&& node_task_ids(s) == order.subrange(0, done)
        &&& forall|c: usize| c < nbuf ==> #[trigger] written_in(s, c)
    }

    /// Claims the sinks of output `x` of node `n` for its buffer; where a sink is claimed
    /// already, adds the two into a free buffer and claims that instead.
    fn claim_output(&self, order: &Vec<u32>, Ghost(k): Ghost<int>, n: u32, outs: &Vec<(OutputID, usize)>, x: usize, alloc: &mut BufferAllocator, schedule: &mut Vec<Task>, Ghost(np): Ghost<int>)
        requires
            all_take_lowest(old(schedule)@, old(alloc).claims@),
            0 <= np < old(schedule)@.len(),
            writes_outputs(old(schedule)@[np], outs@),
            forall|r: int| np < r < old(schedule)@.len() ==> #[trigger] old(schedule)@[r] is Sum,
            self.wf(),
            self.is_topological(order@),
            0 <= k < order@.len(),
            order@[k] == n,
            self.has_node(n),
            x < outs@.len(),
            outs@[x as int].1 != UNUSED,
            forall|x1: int, x2: int| 0 <= x1 < x2 < outs@.len() ==> (#[trigger] outs@[x1]).0.0 < (#[trigger] outs@[x2]).0.0,
            forall|x1: int| 0 <= x1 < outs@.len() ==> buf_ok((#[trigger] outs@[x1]).1, old(alloc).held.len()),
            forall|b: int| 0 <= b < old(alloc).held@.len() ==> (#[trigger] old(alloc).held@[b] <==> exists|x1: int| 0 <= x1 < outs@.len() && (#[trigger] outs@[x1]).1 == b),
            forall|x1: int| 0 <= x1 < outs@.len() && (#[trigger] outs@[x1]).1 != UNUSED ==> read(run(old(schedule)@), outs@[x1].1) == set![(n, outs@[x1].0.0)],
            self.claims_ok(*old(alloc), run(old(schedule)@), order@, k, k + 1, n, outs@, x as int, Seq::empty(), 0),
            self.schedule_ok(old(schedule)@, old(alloc).held.len(), order@, k + 1),
        ensures
            all_take_lowest(final(schedule)@, final(alloc).claims@),
            np < final(schedule)@.len(),
            final(schedule)@[np] == old(schedule)@[np],
            forall|r: int| np < r < final(schedule)@.len() ==> #[trigger] final(schedule)@[r] is Sum,
            self.claims_ok(*final(alloc), run(final(schedule)@), order@, k, k + 1, n, outs@, x + 1, Seq::empty(), 0),
            self.schedule_ok(final(schedule)@, final(alloc).held.len(), order@, k + 1),
            final(alloc).held@.len() >= old(alloc).held@.len(),
            forall|b: int| 0 <= b < final(alloc).held@.len() ==> (#[trigger] final(alloc).held@[b] <==> exists|x1: int| 0 <= x1 < outs@.len() && (#[trigger] outs@[x1]).1 == b),
            forall|x1: int| 0 <= x1 < outs@.len() && (#[trigger] outs@[x1]).1 != UNUSED ==> read(run(final(schedule)@), outs@[x1].1) == set![(n, outs@[x1].0.0)],
    {
        let o = outs[x].0;
        let b = outs[x].1;
        assert(order@.no_duplicates());
        let sinks = self.sinks(order, n, o.0);
        proof {
            assert(sinks@.subrange(0, 0) =~= Seq::<(u32, u32)>::empty());
            assert forall|m: u32, i: u32| placed_from(order@, k + 1, m) implies #[trigger] self.counted(m, i, order@, k, n, outs@, x as int, Seq::empty(), 0) == self.counted(m, i, order@, k, n, outs@, x as int, sinks@, 0) by {
                assert(self.counted(m, i, order@, k, n, outs@, x as int, Seq::empty(), 0) =~= self.counted(m, i, order@, k, n, outs@, x as int, sinks@, 0));
            }
            self.lemma_claims_ok_transfer(*alloc, run(schedule@), order@, k, k + 1, n, outs@, x as int, Seq::empty(), 0, k, n, outs@, x as int, sinks@, 0);
        }
        let mut y: usize = 0;
        while y < sinks.len()
            invariant
                self.wf(),
                self.is_topological(order@),
                0 <= k < order@.len(),
                order@[k] == n,
                self.has_node(n),
                x < outs@.len(),
                outs@[x as int] == (o, b),
                b != UNUSED,
                b < alloc.held@.len(),
                forall|x1: int, x2: int| 0 <= x1 < x2 < outs@.len() ==> (#[trigger] outs@[x1]).0.0 < (#[trigger] outs@[x2]).0.0,
                forall|x1: int| 0 <= x1 < outs@.len() ==> buf_ok((#[trigger] outs@[x1]).1, alloc.held.len()),
                alloc.held@.len() >= old(alloc).held@.len(),
                forall|b2: int| 0 <= b2 < alloc.held@.len() ==> (#[trigger] alloc.held@[b2] <==> exists|x1: int| 0 <= x1 < outs@.len() && (#[trigger] outs@[x1]).1 == b2),
                forall|x1: int| 0 <= x1 < outs@.len() && (#[trigger] outs@[x1]).1 != UNUSED ==> read(run(schedule@), outs@[x1].1) == set![(n, outs@[x1].0.0)],
                forall|j: int| 0 <= j < sinks@.len() ==> self.has_edge(n, o.0, (#[trigger] sinks@[j]).0, sinks@[j].1) && order@.contains(sinks@[j].0),
                forall|m: u32, i: u32| order@.contains(m) && self.has_edge(n, o.0, m, i) ==> sinks@.contains((m, i)),
                sinks@.no_duplicates(),
                y <= sinks@.len(),
                self.claims_ok(*alloc, run(schedule@), order@, k, k + 1, n, outs@, x as int, sinks@, y as int),
                all_take_lowest(schedule@, alloc.claims@),
                0 <= np < schedule@.len(),
                schedule@[np] == old(schedule)@[np],
                writes_outputs(schedule@[np], outs@),
                forall|r: int| np < r < schedule@.len() ==> #[trigger] schedule@[r] is Sum,
                self.schedule_ok(schedule@, alloc.held.len(), order@, k + 1),
            decreases sinks@.len() - y,
        {
            let (m, i) = sinks[y];
            let ghost a0 = *alloc;
            let ghost s0 = schedule@;
            let ghost val = run(schedule@);
            let ghost y0 = y as int;
            proof {
                assert(sinks@[y0] == (m, i));
                assert(self.has_edge(n, o.0, m, i));
                assert(self.feeds(n, m));
                let qm = choose|qm: int| 0 <= qm < order@.len() && order@[qm] == m;
                let qn = choose|qn: int| 0 <= qn < qm && order@[qn] == n;
                assert(qn == k);
                assert(placed_from(order@, k + 1, m));
            }
            let prev = alloc.take_claim(m, i);
            let ghost a1 = *alloc;
            let ghost mut buf: usize = b;
            if prev == UNUSED {
                alloc.claim(m, i, b);
            } else {
                let fresh = alloc.get_free();
                proof {
                    buf = fresh;
                }
                alloc.claim(m, i, fresh);
                schedule.push(Task::Sum { left: b, right: prev, output: fresh });
            }
            proof {
                let cnt_old = self.counted(m, i, order@, k, n, outs@, x as int, sinks@, y0);
                let cnt_new = self.counted(m, i, order@, k, n, outs@, x as int, sinks@, y0 + 1);
                let val2 = run(schedule@);
                // what is accounted for: only (m, i) gains output `x` of `n`
                assert(sinks@.subrange(0, y0 + 1) =~= sinks@.subrange(0, y0).push((m, i)));
                assert(!sinks@.subrange(0, y0).contains((m, i))) by {
                    if sinks@.subrange(0, y0).contains((m, i)) {
                        let j = choose|j: int| 0 <= j < y0 && #[trigger] sinks@.subrange(0, y0)[j] == (m, i);
                        assert(sinks@[j] == sinks@[y0]);
                    }
                }
                assert(!cnt_old.contains((n, o.0))) by {
                    if placed_before(order@, k, n) {
                        let q = choose|q: int| 0 <= q < k && order@[q] == n;
                        assert(order@[q] == order@[k]);
                    }
                    if exists|x2: int| 0 <= x2 < x && x2 < outs@.len() && #[trigger] outs@[x2].0.0 == o.0 {
                        let x2 = choose|x2: int| 0 <= x2 < x && x2 < outs@.len() && #[trigger] outs@[x2].0.0 == o.0;
                        assert(outs@[x2].0.0 < outs@[x as int].0.0);
                    }
                }
                assert(outs@[x as int].0.0 == o.0);
                assert(sinks@.subrange(0, y0 + 1).contains((m, i))) by {
                    assert(sinks@.subrange(0, y0 + 1)[y0] == (m, i));
                }
                assert forall|p: (u32, u32)| cnt_new.contains(p) <==> cnt_old.insert((n, o.0)).contains(p) by {
                    if p == (n, o.0) {
                        assert(handled(n, outs@, x as int, sinks@, y0 + 1, m, i, p));
                    } else if cnt_new.contains(p) && !placed_before(order@, k, p.0) {
                        assert(handled(n, outs@, x as int, sinks@, y0 + 1, m, i, p));
                        if !(exists|x2: int| 0 <= x2 < x && x2 < outs@.len() && #[trigger] outs@[x2].0.0 == p.1) {
                            assert(p.1 == outs@[x as int].0.0);
                        }
                    } else if cnt_old.contains(p) && !placed_before(order@, k, p.0) {
                        assert(handled(n, outs@, x as int, sinks@, y0, m, i, p));
                        if !(exists|x2: int| 0 <= x2 < x && x2 < outs@.len() && #[trigger] outs@[x2].0.0 == p.1) {
                            assert(sinks@.subrange(0, y0).contains((m, i)));
                        }
                    }
                }
                assert(cnt_new =~= cnt_old.insert((n, o.0)));
                assert forall|m2: u32, i2: u32| (m2, i2) != (m, i) implies #[trigger] self.counted(m2, i2, order@, k, n, outs@, x as int, sinks@, y0 + 1) == self.counted(m2, i2, order@, k, n, outs@, x as int, sinks@, y0) by {
                    assert(sinks@.subrange(0, y0 + 1).contains((m2, i2)) == sinks@.subrange(0, y0).contains((m2, i2))) by {
                        if sinks@.subrange(0, y0 + 1).contains((m2, i2)) {
                            let j = choose|j: int| 0 <= j < y0 + 1 && #[trigger] sinks@.subrange(0, y0 + 1)[j] == (m2, i2);
                            assert(j != y0);
                            assert(sinks@.subrange(0, y0)[j] == (m2, i2));
                        }
                        if sinks@.subrange(0, y0).contains((m2, i2)) {
                            let j = choose|j: int| 0 <= j < y0 && #[trigger] sinks@.subrange(0, y0)[j] == (m2, i2);
                            assert(sinks@.subrange(0, y0 + 1)[j] == (m2, i2));
                        }
                    }
                    assert(self.counted(m2, i2, order@, k, n, outs@, x as int, sinks@, y0 + 1) =~= self.counted(m2, i2, order@, k, n, outs@, x as int, sinks@, y0));
                }
                // what the buffers hold
                if prev == UNUSED {
                    assert(!a0.claimed(m, i));
                    assert(self.has_input(m, i));
                    assert(cnt_old == Set::<(u32, u32)>::empty());
                    assert(val2 == val);
                    assert(cnt_new =~= set![(n, o.0)]);
                } else {
                    let c0 = choose|c0: int| 0 <= c0 < a0.claims@.len() && a0.claims@[c0] == (m, i, prev);
                    assert(read(val, prev) == cnt_old);
                    let fresh = schedule@.last()->Sum_output;
                    lemma_run_push(s0, schedule@.last());
                    assert(schedule@ == s0.push(Task::Sum { left: b, right: prev, output: fresh }));
                    assert(val2 == val.insert(fresh, read(val, b).union(read(val, prev))));
                    assert(read(val, b) == set![(n, o.0)]);
                    assert(read(val2, fresh) =~= cnt_new);
                    // the sum reads disjoint sets
                    assert(read(val, b).disjoint(read(val, prev)));
                    assert(read(val, b).contains((n, o.0)));
                    assert(cnt_old != Set::<(u32, u32)>::empty());
                    assert(step_reads_sources(*self, schedule@, s0.len() as int)) by {
                        assert(schedule@.subrange(0, s0.len() as int) == s0);
                    }
                    assert forall|t: int| 0 <= t < s0.len() implies #[trigger] step_reads_sources(*self, schedule@, t) by {
                        assert(step_reads_sources(*self, s0, t));
                        assert(schedule@.subrange(0, t) == s0.subrange(0, t));
                        assert(schedule@[t] == s0[t]);
                    }
                    lemma_node_task_ids_push(s0, schedule@.last());
                    lemma_tasks_grow(s0, a0.held.len(), alloc.held.len());
                    // fresh is neither claimed (but by (m, i)) nor an output buffer
                    assert forall|x1: int| 0 <= x1 < outs@.len() && (#[trigger] outs@[x1]).1 != UNUSED implies outs@[x1].1 != fresh by {
                        if outs@[x1].1 == fresh {
                            assert(alloc.held@[fresh as int]);
                        }
                    }
                }
                assert forall|x1: int| 0 <= x1 < outs@.len() && (#[trigger] outs@[x1]).1 != UNUSED implies read(val2, outs@[x1].1) == set![(n, outs@[x1].0.0)] by {
                    assert(read(val, outs@[x1].1) == set![(n, outs@[x1].0.0)]);
                }
                // the claims after this sink
                assert(read(val2, buf) == cnt_new);
                assert forall|c: int| 0 <= c < alloc.claims@.len() implies {
                    &&& read(val2, (#[trigger] alloc.claims@[c]).2) == self.counted(alloc.claims@[c].0, alloc.claims@[c].1, order@, k, n, outs@, x as int, sinks@, y0 + 1)
                    &&& self.has_input(alloc.claims@[c].0, alloc.claims@[c].1)
                    &&& placed_from(order@, k + 1, alloc.claims@[c].0)
                    &&& self.counted(alloc.claims@[c].0, alloc.claims@[c].1, order@, k, n, outs@, x as int, sinks@, y0 + 1) != Set::<(u32, u32)>::empty()
                } by {
                    assert(cnt_new.contains((n, o.0)));
                    let cl = alloc.claims@[c];
                    assert(alloc.claims@.contains(cl));
                    if cl != (m, i, buf) {
                        assert(a1.claims@.contains(cl));
                        assert(a0.claims@.contains(cl));
                        let c0 = choose|c0: int| 0 <= c0 < a0.claims@.len() && a0.claims@[c0] == cl;
                        assert(read(val, cl.2) == self.counted(cl.0, cl.1, order@, k, n, outs@, x as int, sinks@, y0));
                        assert(cl.0 != m || cl.1 != i);
                        assert(self.counted(cl.0, cl.1, order@, k, n, outs@, x as int, sinks@, y0 + 1) == self.counted(cl.0, cl.1, order@, k, n, outs@, x as int, sinks@, y0));
                        if prev != UNUSED {
                            let c1 = choose|c1: int| 0 <= c1 < a1.claims@.len() && a1.claims@[c1] == cl;
                            assert(cl.2 != buf);
                        }
                    }
                }
                assert forall|m2: u32, i2: u32| placed_from(order@, k + 1, m2) && self.has_input(m2, i2) && !alloc.claimed(m2, i2) implies #[trigger] self.counted(m2, i2, order@, k, n, outs@, x as int, sinks@, y0 + 1) == Set::<(u32, u32)>::empty() by {
                    assert(alloc.claims@.contains((m, i, buf)));
                    assert((m2, i2) != (m, i));
                    if a0.claimed(m2, i2) {
                        let bb = choose|bb: usize| a0.claims@.contains((m2, i2, bb));
                        assert(a1.claims@.contains((m2, i2, bb)));
                        assert(alloc.claims@.contains((m2, i2, bb)));
                    }
                    assert(self.counted(m2, i2, order@, k, n, outs@, x as int, sinks@, y0 + 1) == self.counted(m2, i2, order@, k, n, outs@, x as int, sinks@, y0));
                }
                assert forall|c: usize| c < alloc.held.len() implies #[trigger] written_in(schedule@, c) by {
                    if c < a0.held.len() {
                        assert(written_in(s0, c));
                        let t = choose|t: int| 0 <= t < s0.len() && #[trigger] writes(s0[t], c);
                        assert(schedule@[t] == s0[t]);
                    } else {
                        assert(prev != UNUSED);
                        assert(schedule@[s0.len() as int] == schedule@.last());
                        assert(writes(schedule@[s0.len() as int], c));
                    }
                }
                // every step still took the lowest free buffer
                assert forall|c: usize| holds_claim(a0.claims@, c) implies reads(schedule@.last(), c) && prev == c && prev != UNUSED || holds_claim(alloc.claims@, c) && (prev == UNUSED || !writes(schedule@.last(), c)) by {
                    let kk = choose|kk: int| 0 <= kk < a0.claims@.len() && (#[trigger] a0.claims@[kk]).2 == c;
                    let cl = a0.claims@[kk];
                    assert(a0.claims@.contains(cl));
                    if cl.0 == m && cl.1 == i {
                        assert(a0.claimed(m, i));
                        assert(prev != UNUSED);
                        assert(a0.claims@.contains((m, i, prev)));
                        let kb = choose|kb: int| 0 <= kb < a0.claims@.len() && a0.claims@[kb] == (m, i, prev);
                        if kb != kk {
                            assert(a0.claims@[kb].0 != a0.claims@[kk].0 || a0.claims@[kb].1 != a0.claims@[kk].1);
                        }
                        assert(c == prev);
                    } else {
                        assert(a1.claims@.contains(cl));
                        assert(alloc.claims@.contains(cl));
                        let k2 = choose|k2: int| 0 <= k2 < alloc.claims@.len() && alloc.claims@[k2] == cl;
                        assert(alloc.claims@[k2].2 == c);
                        if prev != UNUSED {
                            let k1 = choose|k1: int| 0 <= k1 < a1.claims@.len() && a1.claims@[k1] == cl;
                            assert(a1.claims@[k1].2 != buf);
                        }
                    }
                }
                if prev == UNUSED {
                    lemma_all_take_lowest_more_claims(s0, a0.claims@, alloc.claims@);
                } else {
                    lemma_all_take_lowest_push(s0, schedule@.last(), a0.claims@, alloc.claims@);
                    assert(schedule@ == s0.push(schedule@.last()));
                    let fresh = buf;
                    assert(schedule@.last() == (Task::Sum { left: b, right: prev, output: fresh }));
                    assert forall|c: usize| c < fresh implies block_output(schedule@, s0.len() as int, c) || #[trigger] busy(schedule@, s0.len() as int, c, alloc.claims@) by {
                        if holds_claim(a1.claims@, c) {
                            let k1 = choose|k1: int| 0 <= k1 < a1.claims@.len() && (#[trigger] a1.claims@[k1]).2 == c;
                            assert(a1.claims@.contains(a1.claims@[k1]));
                            assert(alloc.claims@.contains(a1.claims@[k1]));
                            let k2 = choose|k2: int| 0 <= k2 < alloc.claims@.len() && alloc.claims@[k2] == a1.claims@[k1];
                            assert(alloc.claims@[k2].2 == c);
                            assert(pending(schedule@, s0.len() as int, c, alloc.claims@));
                        } else {
                            assert(a1.held@[c as int]);
                            let x1 = choose|x1: int| 0 <= x1 < outs@.len() && (#[trigger] outs@[x1]).1 == c as int;
                            assert(writes(schedule@[np], c)) by {
                                lemma_writes_outputs(schedule@[np], outs@, x1);
                            }
                            assert forall|r: int| np < r < s0.len() implies #[trigger] schedule@[r] is Sum by {
                                assert(schedule@[r] == s0[r]);
                            }
                            assert(schedule@[np] is Node);
                        }
                    }
                    assert(takes_lowest_with(schedule@, s0.len() as int, alloc.claims@));
                    assert forall|p: int| 0 <= p < schedule@.len() implies #[trigger] takes_lowest_with(schedule@, p, alloc.claims@) by {
                        if p < s0.len() {
                            assert(takes_lowest_with(s0.push(schedule@.last()), p, alloc.claims@));
                        }
                    }
                    assert forall|r: int| np < r < schedule@.len() implies #[trigger] schedule@[r] is Sum by {
                        if r < s0.len() {
                            assert(schedule@[r] == s0[r]);
                        }
                    }
                    assert(schedule@[np] == s0[np]);
                }
            }
            y = y + 1;
        }
        proof {
            assert forall|m: u32, i: u32| placed_from(order@, k + 1, m) implies #[trigger] self.counted(m, i, order@, k, n, outs@, x as int, sinks@, sinks@.len() as int) == self.counted(m, i, order@, k, n, outs@, x + 1, Seq::empty(), 0) by {
                let q = choose|q: int| k + 1 <= q < order@.len() && order@[q] == m;
                assert(order@.contains(m));
                self.lemma_counted_next_output(order@, k, n, outs@, x as int, sinks@, m, i);
            }
            self.lemma_claims_ok_transfer(*alloc, run(schedule@), order@, k, k + 1, n, outs@, x as int, sinks@, sinks@.len() as int, k, n, outs@, x + 1, Seq::empty(), 0);
        }
    }

    /// `s` lists existing nodes, each once, every node after all the nodes feeding it.
    pub open spec fn is_topological(&self, s: Seq<u32>) -> bool {
        &&& s.no_duplicates()
        &&& forall|p: int| 0 <= p < s.len() ==> self.has_node(#[trigger] s[p])
        &&& forall|p: int, a: u32|
            0 <= p < s.len() && #[trigger] self.feeds(a, s[p]) ==> exists|q: int| 0 <= q < p && s[q] == a
    }

    /// Appends to `order`, in topological order, node `n` and every node upstream of it that
    /// `order` does not hold yet.
    fn fill_order(&self, n: u32, order: &mut Vec<u32>)
        requires
            self.wf(),
            self.has_node(n),
            self.is_topological(old(order)@),
        ensures
            self.is_topological(final(order)@),
            is_prefix(old(order)@, final(order)@),
            final(order)@.contains(n),
            forall|k: int| old(order)@.len() <= k < final(order)@.len() ==> self.reaches(#[trigger] final(order)@[k], n),
        decreases (self.rank@)(n),
    {
        if contains_u32(order, n) {
            return;
        }
        let ghost start = order@;
        let node = match &self.nodes[n as usize] {
            Some(node) => node,
            None => { return; },
        };
        assert(*node == self.node(n));
        let mut i: usize = 0;
        while i < node.inputs.len()
            invariant
                self.wf(),
                self.has_node(n),
                *node == self.node(n),
                node.wf(),
                i <= node.inputs@.len(),
                self.is_topological(order@),
                is_prefix(start, order@),
                !start.contains(n),
                forall|k: int| start.len() <= k < order@.len() ==> self.reaches(#[trigger] order@[k], n) && order@[k] != n,
                forall|i2: u32, k: int|
                    i2 < i && node.has_input(i2) && 0 <= k < node.sources(i2).len() ==> order@.contains(
                        (#[trigger] node.sources(i2)[k]).0.0,
                    ),
            decreases node.inputs@.len() - i,
        {
            match &node.inputs[i] {
                Some(input) => {
                    assert(node.has_input(i as u32));
                    let mut j: usize = 0;
                    while j < input.sources.len()
                        invariant
                            self.wf(),
                            self.has_node(n),
                            *node == self.node(n),
                            node.wf(),
                            i < node.inputs@.len(),
                            node.has_input(i as u32),
                            input@ == node.sources(i as u32),
                            j <= input@.len(),
                            self.is_topological(order@),
                            is_prefix(start, order@),
                            !start.contains(n),
                            forall|k: int| start.len() <= k < order@.len() ==> self.reaches(#[trigger] order@[k], n) && order@[k] != n,
                            forall|i2: u32, k: int|
                                i2 < i && node.has_input(i2) && 0 <= k < node.sources(i2).len() ==> order@.contains(
                                    (#[trigger] node.sources(i2)[k]).0.0,
                                ),
                            forall|k: int| 0 <= k < j ==> order@.contains((#[trigger] input@[k]).0.0),
                        decreases input@.len() - j,
                    {
                        let (src, o) = input.sources[j];
                        assert(input@[j as int] == (src, o));
                        assert(self.has_edge(src.0, o.0, n, i as u32));
                        let ghost before = order@;
                        self.fill_order(src.0, order);
                        proof {
                            lemma_prefix_contains(before, order@);
                            lemma_prefix_trans(start, before, order@);
                            assert forall|k: int| start.len() <= k < order@.len() implies self.reaches(#[trigger] order@[k], n) && order@[k] != n by {
                                if k >= before.len() {
                                    self.lemma_extend(order@[k], src.0, n);
                                    self.lemma_reaches_rank(order@[k], src.0);
                                } else {
                                    assert(order@[k] == before[k]);
                                }
                            }
                        }
                        j = j + 1;
                    }
                },
                None => {},
            }
            i = i + 1;
        }
        let ghost before = order@;
        order.push(n);
        proof {
            assert(!before.contains(n)) by {
                if before.contains(n) {
                    let k = choose|k: int| 0 <= k < before.len() && before[k] == n;
                    if k < start.len() {
                        assert(start[k] == n);
                    }
                }
            }
            let s2 = order@;
            assert(s2[before.len() as int] == n);
            assert forall|a: int, b: int| 0 <= a < b < s2.len() implies s2[a] != s2[b] by {
                if b == before.len() {
                    assert(before[a] == s2[a]);
                } else {
                    assert(before[a] == s2[a] && before[b] == s2[b]);
                }
            }
            assert forall|p: int| 0 <= p < s2.len() implies self.has_node(#[trigger] s2[p]) by {
                if p < before.len() {
                    assert(before[p] == s2[p]);
                }
            }
            assert forall|p: int, a: u32|
                0 <= p < s2.len() && #[trigger] self.feeds(a, s2[p]) implies exists|q: int| 0 <= q < p && s2[q] == a by {
                if p < before.len() {
                    assert(before[p] == s2[p]);
                    let q = choose|q: int| 0 <= q < p && before[q] == a;
                    assert(s2[q] == a);
                } else {
                    let (o, i2) = choose|o: u32, i2: u32| #[trigger] self.has_edge(a, o, n, i2);
                    assert(self.has_edge(a, o, n, i2));
                    let kk = choose|kk: int| 0 <= kk < node.sources(i2).len() && node.sources(i2)[kk] == (NodeID(a), OutputID(o));
                    assert(before.contains(node.sources(i2)[kk].0.0));
                    let q = choose|q: int| 0 <= q < before.len() && before[q] == a;
                    assert(s2[q] == a);
                }
            }
            assert(s2.contains(n));
            assert forall|k: int| start.len() <= k < s2.len() implies self.reaches(#[trigger] s2[k], n) by {
                if k == before.len() {
                    self.lemma_reaches_self(n);
                } else {
                    assert(s2[k] == before[k]);
                }
            }
            assert forall|k: int| 0 <= k < start.len() implies s2[k] == start[k] by {
                assert(s2[k] == before[k]);
            }
        }
    }

    /// The nodes upstream of the existing nodes among `roots`, in topological order.
    fn process_order(&self, roots: &Vec<NodeID>) -> (order: Vec<u32>)
        requires
            self.wf(),
        ensures
            self.is_topological(order@),
            forall|k: int| 0 <= k < order@.len() ==> self.upstream_of(roots@, #[trigger] order@[k], roots@.len() as int),
            forall|r: int| 0 <= r < roots@.len() && self.has_node(#[trigger] roots@[r].0) ==> order@.contains(roots@[r].0),
    {
        let mut order: Vec<u32> = Vec::new();
        let mut r: usize = 0;
        while r < roots.len()
            invariant
                self.wf(),
                r <= roots@.len(),
                self.is_topological(order@),
                forall|k: int| 0 <= k < order@.len() ==> self.upstream_of(roots@, #[trigger] order@[k], r as int),
                forall|r2: int| 0 <= r2 < r && self.has_node(#[trigger] roots@[r2].0) ==> order@.contains(roots@[r2].0),
            decreases roots@.len() - r,
        {
            let root = roots[r].0;
            if self.get_node(&NodeID(root)).is_some() {
                let ghost before = order@;
                self.fill_order(root, &mut order);
                proof {
                    lemma_prefix_contains(before, order@);
                    assert forall|k: int| 0 <= k < order@.len() implies self.upstream_of(roots@, #[trigger] order@[k], r + 1) by {
                        if k < before.len() {
                            assert(order@[k] == before[k]);
                            assert(self.upstream_of(roots@, before[k], r as int));
                            self.lemma_upstream_grow(roots@, before[k], r as int);
                        } else {
                            assert(self.has_node(roots@[r as int].0) && self.reaches(order@[k], roots@[r as int].0));
                        }
                    }
                }
            } else {
                proof {
                    assert forall|k: int| 0 <= k < order@.len() implies self.upstream_of(roots@, #[trigger] order@[k], r + 1) by {
                        self.lemma_upstream_grow(roots@, order@[k], r as int);
                    }
                }
            }
            r = r + 1;
        }
        order
    }

    /// Node `v` is upstream of one of the existing nodes among the first `bound` of `roots`.
    pub open spec fn upstream_of(&self, roots: Seq<NodeID>, v: u32, bound: int) -> bool {
        exists|r: int| 0 <= r < bound && r < roots.len() && self.has_node(roots[r].0) && self.reaches(v, roots[r].0)
    }

    proof fn lemma_upstream_grow(&self, roots: Seq<NodeID>, v: u32, bound: int)
        requires
            self.upstream_of(roots, v, bound),
        ensures
            self.upstream_of(roots, v, bound + 1),
    {
        let r = choose|r: int| 0 <= r < bound && r < roots.len() && self.has_node(roots[r].0) && self.reaches(v, roots[r].0);
    }

    /// Every node upstream of a node of a topological list is in the list.
    pub proof fn lemma_upstream_listed(&self, order: Seq<u32>, a: u32, b: u32)
        requires
            self.is_topological(order),
            order.contains(b),
            self.reaches(a, b),
        ensures
            order.contains(a),
    {
        let p = choose|p: Seq<u32>| self.is_path(p) && p[0] == a && p.last() == b;
        self.lemma_path_listed(order, p, 0);
    }

    proof fn lemma_path_listed(&self, order: Seq<u32>, p: Seq<u32>, j: int)
        requires
            self.is_topological(order),
            self.is_path(p),
            order.contains(p.last()),
            0 <= j < p.len(),
        ensures
            order.contains(p[j]),
        decreases p.len() - j,
    {
        if j < p.len() - 1 {
            self.lemma_path_listed(order, p, j + 1);
            let q = choose|q: int| 0 <= q < order.len() && order[q] == p[j + 1];
            assert(self.feeds(p[j], order[q]));
            let q2 = choose|q2: int| 0 <= q2 < q && order[q2] == p[j];
        }
    }

    /// The reached sinks of output `o` of node `n`: the input ports, on nodes listed in
    /// `order`, that the output is connected to, each once.
    fn sinks(&self, order: &Vec<u32>, n: u32, o: u32) -> (r: Vec<(u32, u32)>)
        requires
            self.wf(),
            order@.no_duplicates(),
            forall|k: int| 0 <= k < order@.len() ==> self.has_node(#[trigger] order@[k]),
        ensures
            forall|k: int| 0 <= k < r@.len() ==> self.has_edge(n, o, (#[trigger] r@[k]).0, r@[k].1) && order@.contains(r@[k].0),
            forall|m: u32, i: u32| order@.contains(m) && self.has_edge(n, o, m, i) ==> r@.contains((m, i)),
            r@.no_duplicates(),
    {
        let mut r: Vec<(u32, u32)> = Vec::new();
        let mut p: usize = 0;
        while p < order.len()
            invariant
                self.wf(),
                p <= order@.len(),
                order@.no_duplicates(),
                forall|k: int| 0 <= k < order@.len() ==> self.has_node(#[trigger] order@[k]),
                forall|k: int| 0 <= k < r@.len() ==> self.has_edge(n, o, (#[trigger] r@[k]).0, r@[k].1) && order@.contains(r@[k].0),
                forall|k: int| 0 <= k < r@.len() ==> order@.subrange(0, p as int).contains((#[trigger] r@[k]).0),
                forall|q: int, i: u32| 0 <= q < p && self.has_edge(n, o, order@[q], i) ==> r@.contains((order@[q], i)),
                r@.no_duplicates(),
            decreases order@.len() - p,
        {
            let m = order[p];
            assert(self.has_node(order@[p as int]));
            let node = match &self.nodes[m as usize] {
                Some(node) => node,
                None => { p = p + 1; continue; },
            };
            assert(*node == self.node(m));
            assert(node.wf());
            let ghost r0 = r@;
            let mut i: usize = 0;
            while i < node.inputs.len()
                invariant
                    self.wf(),
                    p < order@.len(),
                    m == order@[p as int],
                    order@.no_duplicates(),
                    self.has_node(m),
                    *node == self.node(m),
                    node.wf(),
                    i <= node.inputs@.len(),
                    forall|k: int| 0 <= k < order@.len() ==> self.has_node(#[trigger] order@[k]),
                    forall|k: int| 0 <= k < r@.len() ==> self.has_edge(n, o, (#[trigger] r@[k]).0, r@[k].1) && order@.contains(r@[k].0),
                    r@.len() >= r0.len(),
                    forall|k: int| 0 <= k < r0.len() ==> r@[k] == r0[k],
                    forall|k: int| 0 <= k < r0.len() ==> order@.subrange(0, p as int).contains((#[trigger] r0[k]).0),
                    forall|k: int| r0.len() <= k < r@.len() ==> (#[trigger] r@[k]).0 == m && r@[k].1 < i,
                    forall|q: int, i2: u32| 0 <= q < p && self.has_edge(n, o, order@[q], i2) ==> r0.contains((order@[q], i2)),
                    forall|i2: u32| i2 < i && self.has_edge(n, o, m, i2) ==> r@.contains((m, i2)),
                    r@.no_duplicates(),
                decreases node.inputs@.len() - i,
            {
                match &node.inputs[i] {
                    Some(input) => {
                        assert(node.has_input(i as u32));
                        if input.contains_source((NodeID(n), OutputID(o))) {
                            let ghost before = r@;
                            r.push((m, i as u32));
                            proof {
                                assert(order@.contains(m));
                                assert forall|k: int| 0 <= k < r@.len() implies self.has_edge(n, o, (#[trigger] r@[k]).0, r@[k].1) && order@.contains(r@[k].0) by {
                                    if k < before.len() {
                                        assert(r@[k] == before[k]);
                                    }
                                }
                                assert forall|k: int| r0.len() <= k < r@.len() implies (#[trigger] r@[k]).0 == m && r@[k].1 < i + 1 by {
                                    if k < before.len() {
                                        assert(r@[k] == before[k]);
                                    }
                                }
                                assert forall|a: int, b: int| 0 <= a < b < r@.len() implies r@[a] != r@[b] by {
                                    if b == before.len() {
                                        if a < r0.len() {
                                            assert(r@[a] == r0[a]);
                                            assert(order@.subrange(0, p as int).contains(r0[a].0));
                                            if r0[a].0 == m {
                                                let q = choose|q: int| 0 <= q < p && order@.subrange(0, p as int)[q] == m;
                                                assert(order@[q] == order@[p as int]);
                                            }
                                        } else {
                                            assert(r@[a] == before[a]);
                                        }
                                    } else {
                                        assert(r@[a] == before[a] && r@[b] == before[b]);
                                    }
                                }
                                assert forall|i2: u32| i2 < i + 1 && self.has_edge(n, o, m, i2) implies r@.contains((m, i2)) by {
                                    if i2 < i {
                                        let k = choose|k: int| 0 <= k < before.len() && before[k] == (m, i2);
                                        assert(r@[k] == (m, i2));
                                    } else {
                                        assert(r@[before.len() as int] == (m, i2));
                                    }
                                }
                                assert forall|q: int, i2: u32| 0 <= q < p && self.has_edge(n, o, order@[q], i2) implies r0.contains((order@[q], i2)) by {}
                            }
                        } else {
                            proof {
                                assert forall|i2: u32| i2 < i + 1 && self.has_edge(n, o, m, i2) implies r@.contains((m, i2)) by {
                                    if i2 == i {
                                        assert(input@ == node.sources(i as u32));
                                    }
                                }
                            }
                        }
                    },
                    None => {
                        proof {
                            assert forall|i2: u32| i2 < i + 1 && self.has_edge(n, o, m, i2) implies r@.contains((m, i2)) by {
                                if i2 == i {
                                    assert(!node.has_input(i2));
                                }
                            }
                        }
                    },
                }
                i = i + 1;
            }
            proof {
                assert forall|k: int| 0 <= k < r@.len() implies order@.subrange(0, p + 1).contains((#[trigger] r@[k]).0) by {
                    if k < r0.len() {
                        assert(r@[k] == r0[k]);
                        let q = choose|q: int| 0 <= q < p && order@.subrange(0, p as int)[q] == r0[k].0;
                        assert(order@.subrange(0, p + 1)[q] == r0[k].0);
                    } else {
                        assert(order@.subrange(0, p + 1)[p as int] == m);
                    }
                }
                assert forall|q: int, i2: u32| 0 <= q < p + 1 && self.has_edge(n, o, order@[q], i2) implies r@.contains((order@[q], i2)) by {
                    if q < p {
                        assert(r0.contains((order@[q], i2)));
                        let k = choose|k: int| 0 <= k < r0.len() && r0[k] == (order@[q], i2);
                        assert(r@[k] == r0[k]);
                    } else {
                        if i2 as int >= node.inputs@.len() {
                            assert(!node.has_input(i2));
                        }
                    }
                }
            }
            p = p + 1;
        }
        proof {
            assert forall|m: u32, i: u32| order@.contains(m) && self.has_edge(n, o, m, i) implies r@.contains((m, i)) by {
                let q = choose|q: int| 0 <= q < order@.len() && order@[q] == m;
            }
        }
        r
    }

    /// Compiles the part of the graph upstream of `root_nodes` into a schedule, and returns
    /// the number of intermediate buffers it needs along with it.
    ///
    /// Every node upstream of an existing root is processed once, after all the nodes that feed
    /// it. Each output port gets a free buffer, or [`UNUSED`] when it feeds no processed input;
    /// each input port reads the buffer it was given, or [`UNUSED`] when nothing feeds it.
    /// Where an input is fed by several outputs, a [`Task::Sum`] adds the new output to what the
    /// input had so far, into a free buffer. Run in order, the schedule hands every input
    /// exactly the outputs connected to it.
    pub fn compile(&self, root_nodes: Vec<NodeID>) -> (r: (usize, Vec<Task>))
        requires
            self.wf(),
        ensures
            forall|k: int| 0 <= k < r.1@.len() ==> task_in_bounds(#[trigger] r.1@[k], r.0),
            forall|k: int| 0 <= k < r.1@.len() ==> outputs_distinct(#[trigger] r.1@[k]),
            forall|k: int| 0 <= k < r.1@.len() ==> ports_listed(*self, #[trigger] r.1@[k]),
            forall|k: int| 0 <= k < r.1@.len() ==> outputs_used(*self, node_task_ids(r.1@), #[trigger] r.1@[k]),
            forall|k: int| 0 <= k < r.1@.len() ==> #[trigger] step_reads_sources(*self, r.1@, k),
            self.is_topological(node_task_ids(r.1@)),
            forall|v: u32| node_task_ids(r.1@).contains(v) <==> self.upstream_of(root_nodes@, v, root_nodes@.len() as int),
            (forall|j: int| 0 <= j < root_nodes@.len() ==> !self.has_node(#[trigger] root_nodes@[j].0)) ==> r.0 == 0 && r.1@.len() == 0,
            forall|c: usize| c < r.0 ==> #[trigger] written_in(r.1@, c),
            forall|p: int| 0 <= p < r.1@.len() ==> #[trigger] takes_lowest(r.1@, p),
    {
        let order = self.process_order(&root_nodes);
        proof {
            if forall|j: int| 0 <= j < root_nodes@.len() ==> !self.has_node(#[trigger] root_nodes@[j].0) {
                if order@.len() > 0 {
                    assert(self.upstream_of(root_nodes@, order@[0], root_nodes@.len() as int));
                    let j = choose|j: int| 0 <= j < root_nodes@.len() as int && j < root_nodes@.len() && self.has_node(root_nodes@[j].0) && self.reaches(order@[0], root_nodes@[j].0);
                }
            }
        }
        let mut alloc = BufferAllocator { claims: Vec::new(), held: Vec::new() };
        let mut schedule: Vec<Task> = Vec::new();
        let ghost e = Seq::<(OutputID, usize)>::empty();
        let ghost es = Seq::<(u32, u32)>::empty();
        proof {
            assert(order@.subrange(0, 0) =~= Seq::<u32>::empty());
            assert forall|m: u32, i: u32| #[trigger] self.counted(m, i, order@, 0, 0, e, 0, es, 0) == Set::<(u32, u32)>::empty() by {
                assert(self.counted(m, i, order@, 0, 0, e, 0, es, 0) =~= Set::<(u32, u32)>::empty());
            }
        }
        let mut k: usize = 0;
        while k < order.len()
            invariant
                self.wf(),
                self.is_topological(order@),
                k <= order@.len(),
                e == Seq::<(OutputID, usize)>::empty(),
                es == Seq::<(u32, u32)>::empty(),
                forall|b: int| 0 <= b < alloc.held@.len() ==> !alloc.held@[b],
                self.claims_ok(alloc, run(schedule@), order@, k as int, k as int, 0, e, 0, es, 0),
                self.schedule_ok(schedule@, alloc.held.len(), order@, k as int),
                order@.len() == 0 ==> schedule@.len() == 0 && alloc.held@.len() == 0,
                all_take_lowest(schedule@, alloc.claims@),
            decreases order@.len() - k,
        {
            let n = order[k];
            assert(self.has_node(order@[k as int]));
            let node = match &self.nodes[n as usize] {
                Some(node) => node,
                None => { k = k + 1; continue; },
            };
            assert(*node == self.node(n));
            let ghost ki = k as int;
            let ghost val = run(schedule@);
            let ghost s0 = schedule@;
            let ghost held0 = alloc.held.len();
            proof {
                assert forall|m: u32, i: u32| placed_from(order@, ki, m) implies #[trigger] self.counted(m, i, order@, ki, 0, e, 0, es, 0) == self.counted(m, i, order@, ki, n, e, 0, es, 0) by {
                    assert(self.counted(m, i, order@, ki, 0, e, 0, es, 0) =~= self.counted(m, i, order@, ki, n, e, 0, es, 0));
                }
                self.lemma_claims_ok_transfer(alloc, val, order@, ki, ki, 0, e, 0, es, 0, ki, n, e, 0, es, 0);
            }
            let ghost claims0 = alloc.claims@;
            let inputs = self.schedule_inputs(node, n, &mut alloc, Ghost(order@), Ghost(ki), Ghost(val));
            let ghost claims1 = alloc.claims@;
            let ghost inputs_v = inputs@;
            let outs = self.assign_outputs(node, n, &order, &mut alloc);
            let task_outs = copy_outputs(&outs);
            schedule.push(Task::Node { id: NodeID(n), inputs, outputs: task_outs });
            proof {
                let t = schedule@.last();
                lemma_run_push(s0, t);
                assert(schedule@ == s0.push(t));
                let val1 = run(schedule@);
                assert(val1 == write_outputs(val, n, outs@));
                lemma_write_outputs(val, n, outs@);
                // claims keep their contents; counting with the outputs listed changes nothing yet
                assert forall|m: u32, i: u32| placed_from(order@, ki + 1, m) implies #[trigger] self.counted(m, i, order@, ki, n, e, 0, es, 0) == self.counted(m, i, order@, ki, n, outs@, 0, es, 0) by {
                    assert(es.subrange(0, 0) =~= es);
                    assert(self.counted(m, i, order@, ki, n, e, 0, es, 0) =~= self.counted(m, i, order@, ki, n, outs@, 0, es, 0));
                }
                assert forall|c: int| 0 <= c < alloc.claims@.len() implies read(val1, (#[trigger] alloc.claims@[c]).2) == read(val, alloc.claims@[c].2) by {
                    assert forall|x: int| 0 <= x < outs@.len() implies #[trigger] outs@[x].1 != alloc.claims@[c].2 by {
                        if outs@[x].1 == alloc.claims@[c].2 {
                            assert(outs@[x].1 != UNUSED) by {
                                assert(alloc.claims@[c].2 < alloc.held@.len());
                                assert(alloc.held.len() == alloc.held@.len());
                            }
                            assert(claims1[c].2 != outs@[x].1);
                        }
                    }
                }
                assert(self.claims_ok(alloc, val1, order@, ki, ki + 1, n, e, 0, es, 0));
                self.lemma_claims_ok_transfer(alloc, val1, order@, ki, ki + 1, n, e, 0, es, 0, ki, n, outs@, 0, es, 0);
                // the schedule with the new node step
                lemma_node_task_ids_push(s0, t);
                assert(order@.subrange(0, ki + 1) =~= order@.subrange(0, ki).push(n));
                lemma_tasks_grow(s0, held0, alloc.held.len());
                assert(task_in_bounds(t, alloc.held.len()));
                assert(outputs_distinct(t));
                assert(outputs_used(*self, order@, t)) by {
                    let to = t->Node_outputs;
                    assert(to@ == outs@);
                    assert forall|x: int| 0 <= x < to@.len() implies ((#[trigger] to@[x]).1 == UNUSED <==> !exists|m: u32, i: u32| order@.contains(m) && self.has_edge(n, to@[x].0.0, m, i)) by {
                        assert(to@[x] == outs@[x]);
                        if outs@[x].1 == UNUSED {
                            assert forall|m: u32, i: u32| !(order@.contains(m) && #[trigger] self.has_edge(n, outs@[x].0.0, m, i)) by {}
                        }
                    }
                }
                assert(ports_listed(*self, t)) by {
                    let ti = t->Node_inputs;
                    let to = t->Node_outputs;
                    assert(to@ == outs@);
                    assert forall|o: u32| self.has_output(n, o) <==> exists|x: int| 0 <= x < to@.len() && (#[trigger] to@[x]).0.0 == o by {
                        if self.has_output(n, o) {
                            let x = choose|x: int| 0 <= x < outs@.len() && (#[trigger] outs@[x]).0.0 == o;
                            assert(to@[x].0.0 == o);
                        }
                    }
                    assert forall|i: u32| self.has_input(n, i) <==> exists|x: int| 0 <= x < ti@.len() && (#[trigger] ti@[x]).0.0 == i by {}
                }
                assert(step_reads_sources(*self, schedule@, s0.len() as int)) by {
                    assert(schedule@.subrange(0, s0.len() as int) == s0);
                }
                assert forall|p: int| 0 <= p < s0.len() implies #[trigger] step_reads_sources(*self, schedule@, p) by {
                    assert(step_reads_sources(*self, s0, p));
                    assert(schedule@.subrange(0, p) == s0.subrange(0, p));
                    assert(schedule@[p] == s0[p]);
                }
                assert forall|tt: int| 0 <= tt < schedule@.len() implies task_in_bounds(#[trigger] schedule@[tt], alloc.held.len()) && outputs_distinct(schedule@[tt]) && ports_listed(*self, schedule@[tt]) && outputs_used(*self, order@, schedule@[tt]) by {
                    if tt < s0.len() {
                        assert(schedule@[tt] == s0[tt]);
                    }
                }
                assert forall|x: int| 0 <= x < outs@.len() && (#[trigger] outs@[x]).1 != UNUSED implies read(val1, outs@[x].1) == set![(n, outs@[x].0.0)] by {}
                // the node took the lowest free buffers; earlier steps keep their account
                assert forall|c: usize| holds_claim(claims0, c) implies reads(t, c) || (holds_claim(alloc.claims@, c) && !writes(t, c)) by {
                    if holds_claim(alloc.claims@, c) {
                        let kk = choose|kk: int| 0 <= kk < alloc.claims@.len() && (#[trigger] alloc.claims@[kk]).2 == c;
                        assert(alloc.claims@[kk].2 < alloc.held@.len());
                        assert(alloc.held.len() == alloc.held@.len());
                        if writes(t, c) {
                            let to = t->Node_outputs;
                            let x = choose|x: int| 0 <= x < to@.len() && (#[trigger] to@[x]).1 == c;
                            assert(to@ == outs@);
                            assert(outs@[x].1 == c);
                            assert(claims1[kk].2 != outs@[x].1);
                        }
                    } else {
                        let x = choose|x: int| 0 <= x < inputs_v.len() && (#[trigger] inputs_v[x]).1 == c;
                        let ti = t->Node_inputs;
                        assert(ti@ == inputs_v);
                        assert(ti@[x].1 == c);
                    }
                }
                lemma_all_take_lowest_push(s0, t, claims0, alloc.claims@);
                assert(takes_lowest_with(schedule@, s0.len() as int, alloc.claims@)) by {
                    let to = t->Node_outputs;
                    assert(to@ == outs@);
                    assert(schedule@[s0.len() as int] == t);
                    assert forall|x: int| 0 <= x < to@.len() && (#[trigger] to@[x]).1 != UNUSED implies
                        forall|c: usize| c < to@[x].1 ==> earlier_output(to@, x, c) || #[trigger] busy(schedule@, s0.len() as int, c, alloc.claims@) by {
                        assert(outs@[x] == to@[x]);
                        assert forall|c: usize| c < to@[x].1 implies earlier_output(to@, x, c) || #[trigger] busy(schedule@, s0.len() as int, c, alloc.claims@) by {
                            if !earlier_output(outs@, x, c) {
                                assert(holds_claim(claims1, c));
                                assert(pending(schedule@, s0.len() as int, c, alloc.claims@));
                            }
                        }
                    }
                }
                assert forall|p: int| 0 <= p < schedule@.len() implies #[trigger] takes_lowest_with(schedule@, p, alloc.claims@) by {
                    if p < s0.len() {
                        assert(takes_lowest_with(s0.push(t), p, alloc.claims@));
                    }
                }
                assert forall|c: usize| c < alloc.held.len() implies #[trigger] written_in(schedule@, c) by {
                    if c < held0 {
                        assert(written_in(s0, c));
                        let tt = choose|tt: int| 0 <= tt < s0.len() && #[trigger] writes(s0[tt], c);
                        assert(schedule@[tt] == s0[tt]);
                    } else {
                        assert(alloc.held@[c as int]);
                        let x = choose|x: int| 0 <= x < outs@.len() && (#[trigger] outs@[x]).1 == c as int;
                        let to = t->Node_outputs;
                        assert(to@ == outs@);
                        assert(to@[x].1 == c);
                        assert(writes(t, c));
                        assert(schedule@[s0.len() as int] == t);
                    }
                }
            }
            let ghost np = s0.len() as int;
            proof {
                assert(schedule@[np] == schedule@.last());
                let to = schedule@.last()->Node_outputs;
                assert(to@ == outs@);
            }
            let mut x: usize = 0;
            while x < outs.len()
                invariant
                    all_take_lowest(schedule@, alloc.claims@),
                    0 <= np < schedule@.len(),
                    writes_outputs(schedule@[np], outs@),
                    forall|r: int| np < r < schedule@.len() ==> #[trigger] schedule@[r] is Sum,
                    self.wf(),
                    self.is_topological(order@),
                    ki == k as int,
                    e == Seq::<(OutputID, usize)>::empty(),
                    es == Seq::<(u32, u32)>::empty(),
                    0 <= ki < order@.len(),
                    order@[ki] == n,
                    self.has_node(n),
                    x <= outs@.len(),
                    forall|x1: int, x2: int| 0 <= x1 < x2 < outs@.len() ==> (#[trigger] outs@[x1]).0.0 < (#[trigger] outs@[x2]).0.0,
                    forall|x1: int| 0 <= x1 < outs@.len() ==> self.has_output(n, (#[trigger] outs@[x1]).0.0),
                    forall|o: u32| self.has_output(n, o) ==> exists|x1: int| 0 <= x1 < outs@.len() && (#[trigger] outs@[x1]).0.0 == o,
                    forall|x1: int| 0 <= x1 < outs@.len() ==> buf_ok((#[trigger] outs@[x1]).1, alloc.held.len()),
                    forall|b: int| 0 <= b < alloc.held@.len() ==> (#[trigger] alloc.held@[b] <==> exists|x1: int| 0 <= x1 < outs@.len() && (#[trigger] outs@[x1]).1 == b),
                    forall|x1: int, m: u32, i: u32| 0 <= x1 < outs@.len() && outs@[x1].1 == UNUSED && order@.contains(m) ==> !#[trigger] self.has_edge(n, outs@[x1].0.0, m, i),
                    forall|x1: int| 0 <= x1 < outs@.len() && (#[trigger] outs@[x1]).1 != UNUSED ==> read(run(schedule@), outs@[x1].1) == set![(n, outs@[x1].0.0)],
                    self.claims_ok(alloc, run(schedule@), order@, ki, ki + 1, n, outs@, x as int, es, 0),
                    self.schedule_ok(schedule@, alloc.held.len(), order@, ki + 1),
                decreases outs@.len() - x,
            {
                if outs[x].1 != UNUSED {
                    self.claim_output(&order, Ghost(ki), n, &outs, x, &mut alloc, &mut schedule, Ghost(np));
                } else {
                    proof {
                        assert forall|m: u32, i: u32| placed_from(order@, ki + 1, m) implies #[trigger] self.counted(m, i, order@, ki, n, outs@, x as int, es, 0) == self.counted(m, i, order@, ki, n, outs@, x + 1, es, 0) by {
                            let q = choose|q: int| ki + 1 <= q < order@.len() && order@[q] == m;
                            assert(order@.contains(m));
                            assert(!self.has_edge(n, outs@[x as int].0.0, m, i));
                            self.lemma_counted_next_output(order@, ki, n, outs@, x as int, es, m, i);
                        }
                        self.lemma_claims_ok_transfer(alloc, run(schedule@), order@, ki, ki + 1, n, outs@, x as int, es, 0, ki, n, outs@, x + 1, es, 0);
                    }
                }
                x = x + 1;
            }
            proof {
                // accounting moves on to the next node
                assert forall|m: u32, i: u32| placed_from(order@, ki + 1, m) implies #[trigger] self.counted(m, i, order@, ki, n, outs@, outs@.len() as int, es, 0) == self.counted(m, i, order@, ki + 1, 0, e, 0, es, 0) by {
                    let a1 = self.counted(m, i, order@, ki, n, outs@, outs@.len() as int, es, 0);
                    let a2 = self.counted(m, i, order@, ki + 1, 0, e, 0, es, 0);
                    assert forall|p: (u32, u32)| a1.contains(p) <==> a2.contains(p) by {
                        if a1.contains(p) {
                            if placed_before(order@, ki, p.0) {
                                let q = choose|q: int| 0 <= q < ki && order@[q] == p.0;
                                assert(placed_before(order@, ki + 1, p.0));
                            } else {
                                assert(order@[ki] == p.0);
                                assert(placed_before(order@, ki + 1, p.0));
                            }
                        }
                        if a2.contains(p) {
                            let q = choose|q: int| 0 <= q < ki + 1 && order@[q] == p.0;
                            if q < ki {
                                assert(placed_before(order@, ki, p.0));
                            } else {
                                assert(self.has_edge(p.0, p.1, m, i));
                                assert(self.has_output(n, p.1));
                                let x1 = choose|x1: int| 0 <= x1 < outs@.len() && (#[trigger] outs@[x1]).0.0 == p.1;
                                assert(handled(n, outs@, outs@.len() as int, es, 0, m, i, p));
                            }
                        }
                    }
                    assert(a1 =~= a2);
                }
                self.lemma_claims_ok_transfer(alloc, run(schedule@), order@, ki, ki + 1, n, outs@, outs@.len() as int, es, 0, ki + 1, 0, e, 0, es, 0);
            }
            // The node is done: its output buffers are free once their claims are gone.
            let ghost ar = alloc;
            let mut x: usize = 0;
            while x < outs.len()
                invariant
                    x <= outs@.len(),
                    alloc.wf(),
                    alloc.unique(),
                    alloc.claims@ == ar.claims@,
                    alloc.held@.len() == ar.held@.len(),
                    forall|x1: int| 0 <= x1 < outs@.len() ==> buf_ok((#[trigger] outs@[x1]).1, alloc.held.len()),
                    forall|b: int| 0 <= b < alloc.held@.len() && #[trigger] alloc.held@[b] ==> exists|x1: int| x <= x1 < outs@.len() && (#[trigger] outs@[x1]).1 == b,
                decreases outs@.len() - x,
            {
                let b = outs[x].1;
                if b != UNUSED {
                    alloc.held.set(b, false);
                }
                x = x + 1;
            }
            proof {
                assert forall|b: int| 0 <= b < alloc.held@.len() implies !alloc.held@[b] by {
                    if alloc.held@[b] {
                        let x1 = choose|x1: int| x <= x1 < outs@.len() && (#[trigger] outs@[x1]).1 == b;
                    }
                }
                assert(alloc.held.len() == ar.held.len());
                assert forall|m: u32, i: u32| alloc.claimed(m, i) == ar.claimed(m, i) by {}
                assert(self.claims_ok(alloc, run(schedule@), order@, ki + 1, ki + 1, 0, e, 0, es, 0));
            }
            k = k + 1;
        }
        proof {
            assert(order@.subrange(0, order@.len() as int) =~= order@);
            assert forall|v: u32| node_task_ids(schedule@).contains(v) <==> self.upstream_of(root_nodes@, v, root_nodes@.len() as int) by {
                if self.upstream_of(root_nodes@, v, root_nodes@.len() as int) {
                    let r = choose|r: int| 0 <= r < root_nodes@.len() as int && r < root_nodes@.len() && self.has_node(root_nodes@[r].0) && self.reaches(v, root_nodes@[r].0);
                    assert(order@.contains(root_nodes@[r].0));
                    self.lemma_upstream_listed(order@, v, root_nodes@[r].0);
                }
                if order@.contains(v) {
                    let q = choose|q: int| 0 <= q < order@.len() && order@[q] == v;
                }
            }
        }
        proof {
            if forall|j: int| 0 <= j < root_nodes@.len() ==> !self.has_node(#[trigger] root_nodes@[j].0) {
                assert(order@.len() == 0);
                assert(alloc.held.len() == alloc.held@.len());
            }
            if alloc.claims@.len() > 0 {
                assert(placed_from(order@, k as int, alloc.claims@[0].0));
            }
            assert(alloc.claims@ =~= Seq::<(u32, u32, usize)>::empty());
            assert forall|p: int| 0 <= p < schedule@.len() implies #[trigger] takes_lowest(schedule@, p) by {
                assert(takes_lowest_with(schedule@, p, alloc.claims@));
            }
        }
        (alloc.held.len(), schedule)
    }
}

/// What [`AudioGraph::try_insert_edge`] returns on graph `g`.
pub open spec fn insert_edge_result(g: AudioGraph, from: (NodeID, OutputID), to: (NodeID, InputID)) -> Result<bool, bool> {
    if !(g.has_output(from.0.0, from.1.0) && g.has_input(to.0.0, to.1.0)) {
        Err(false)
    } else if g.reaches(to.0.0, from.0.0) {
        Err(true)
    } else {
        Ok(!g.edges().contains((from.0.0, from.1.0, to.0.0, to.1.0)))
    }
}

/// Inserting an edge twice: when the first insertion succeeds, the second one finds the edge
/// already there and reports it as not new. The first reports it as new exactly when the graph
/// did not hold it.
pub proof fn lemma_insert_edge_twice(g0: AudioGraph, g1: AudioGraph, from: (NodeID, OutputID), to: (NodeID, InputID))
    requires
        g0.wf(),
        g1.wf(),
        insert_edge_result(g0, from, to) is Ok,
        g1.same_ports(&g0),
        g1.edges() == g0.edges().insert((from.0.0, from.1.0, to.0.0, to.1.0)),
    ensures
        insert_edge_result(g0, from, to) == Ok::<bool, bool>(!g0.edges().contains((from.0.0, from.1.0, to.0.0, to.1.0))),
        insert_edge_result(g1, from, to) == Ok::<bool, bool>(false),
        g1.edges().insert((from.0.0, from.1.0, to.0.0, to.1.0)) == g1.edges(),
{
    let e = (from.0.0, from.1.0, to.0.0, to.1.0);
    assert(g1.edges().contains(e));
    assert(g1.has_edge(e.0, e.1, e.2, e.3));
    assert(g0.output_ports().contains((e.0, e.1)));
    assert(g1.output_ports().contains((e.0, e.1)));
    assert(g0.input_ports().contains((e.2, e.3)));
    assert(g1.input_ports().contains((e.2, e.3)));
    if g1.reaches(to.0.0, from.0.0) {
        let p = choose|p: Seq<u32>| g1.is_path(p) && p[0] == to.0.0 && p.last() == from.0.0;
        let q = p.push(to.0.0);
        assert(g1.feeds(from.0.0, to.0.0));
        assert forall|j: int| 0 <= j < q.len() - 1 implies g1.feeds(#[trigger] q[j], q[j + 1]) by {
            if j < p.len() - 1 {
                assert(q[j] == p[j] && q[j + 1] == p[j + 1]);
            }
        }
        g1.lemma_acyclic(q);
    }
    assert(g1.edges().insert(e) =~= g1.edges());
}

fn copy_outputs(v: &Vec<(OutputID, usize)>) -> (r: Vec<(OutputID, usize)>)
    ensures
        r@ == v@,
{
    let mut r: Vec<(OutputID, usize)> = Vec::new();
    let mut i: usize = 0;
    while i < v.len()
        invariant
            i <= v@.len(),
            r@ == v@.subrange(0, i as int),
        decreases v@.len() - i,
    {
        r.push(v[i]);
        proof {
            assert(r@ =~= v@.subrange(0, i + 1));
        }
        i = i + 1;
    }
    proof {
        assert(r@ =~= v@);
    }
    r
}

/// The buffer an input reads, as seen from the caller: an intermediate buffer, or none.
pub open spec fn local_input(b: usize) -> Option<BufferIndex> {
    if b == UNUSED {
        None
    } else {
        Some(BufferIndex::Output(OutputBufferIndex::Local(b)))
    }
}

/// The buffer an output writes, as seen from the caller: an intermediate buffer, or none.
pub open spec fn local_output(b: usize) -> Option<OutputBufferIndex> {
    if b == UNUSED {
        None
    } else {
        Some(OutputBufferIndex::Local(b))
    }
}

/// The plan for the master outputs fed by `feeds` (master output, buffer), in order: the first
/// master output that reads a buffer takes that buffer's place, `(buffer, output)`; each later
/// one that reads it is a copy of the first, `(first output, output)`.
pub open spec fn master_plan(feeds: Seq<(InputID, usize)>) -> (Seq<(usize, usize)>, Seq<(usize, usize)>)
    decreases feeds.len(),
{
    if feeds.len() == 0 {
        (Seq::empty(), Seq::empty())
    } else {
        let (r, c) = master_plan(feeds.drop_last());
        let (j, b) = feeds.last();
        if b == UNUSED {
            (r, c)
        } else {
            match replacement(r, b) {
                Some(j0) => (r, c.push((j0, j.0 as usize))),
                None => (r.push((b, j.0 as usize)), c),
            }
        }
    }
}

/// The position of the step that runs node `id` in `s`, if any (the last such step).
pub open spec fn node_step(s: Seq<Task>, id: NodeID) -> Option<int>
    decreases s.len(),
{
    if s.len() == 0 {
        None
    } else {
        match s.last() {
            Task::Node { id: i, .. } => if i == id { Some(s.len() - 1) } else { node_step(s.drop_last(), id) },
            Task::Sum { .. } => node_step(s.drop_last(), id),
        }
    }
}

/// What feeds the master outputs: the inputs of the step of node `master`, if any.
pub open spec fn master_feeds(s: Seq<Task>, master: NodeID) -> Seq<(InputID, usize)> {
    match node_step(s, master) {
        Some(p) => match s[p] {
            Task::Node { inputs, .. } => inputs@,
            Task::Sum { .. } => Seq::empty(),
        },
        None => Seq::empty(),
    }
}

/// `p` is step `t` moved into the caller's buffers, with the replaced buffers renamed.
pub open spec fn routed(t: Task, p: ProcessTask, replaced: Seq<(usize, usize)>) -> bool {
    match t {
        Task::Sum { left, right, output } => p == rewrite_sum(
            BufferIndex::Output(OutputBufferIndex::Local(left)),
            BufferIndex::Output(OutputBufferIndex::Local(right)),
            OutputBufferIndex::Local(output),
            replaced,
        ),
        Task::Node { id, inputs, outputs } => match p {
            ProcessTask::Process { index, inputs: pi, outputs: po } => {
                &&& index == id.0
                &&& pi@.len() == inputs@.len()
                &&& po@.len() == outputs@.len()
                &&& forall|x: int| 0 <= x < pi@.len() ==> #[trigger] pi@[x] == rewrite_opt_input(local_input(inputs@[x].1), replaced)
                &&& forall|x: int| 0 <= x < po@.len() ==> #[trigger] po@[x] == rewrite_opt_output(local_output(outputs@[x].1), replaced)
            },
            _ => false,
        },
    }
}

fn find_replacement(r: &Vec<(usize, usize)>, b: usize) -> (res: Option<usize>)
    ensures
        res == replacement(r@, b),
        res.is_none() ==> forall|a: int| 0 <= a < r@.len() ==> (#[trigger] r@[a]).0 != b,
{
    let mut found: Option<usize> = None;
    let mut k: usize = 0;
    while k < r.len()
        invariant
            k <= r@.len(),
            found == replacement(r@.subrange(0, k as int), b),
            found.is_none() ==> forall|a: int| 0 <= a < k ==> (#[trigger] r@[a]).0 != b,
        decreases r@.len() - k,
    {
        proof {
            assert(r@.subrange(0, k + 1).drop_last() =~= r@.subrange(0, k as int));
        }
        if found.is_none() && r[k].0 == b {
            found = Some(r[k].1);
        }
        k = k + 1;
    }
    proof {
        assert(r@.subrange(0, k as int) =~= r@);
    }
    found
}

/// Plans the master outputs fed by `feeds`; see [`master_plan`].
pub fn plan_master_outputs(feeds: &Vec<(InputID, usize)>) -> (r: (Vec<(usize, usize)>, Vec<(usize, usize)>))
    ensures
        (r.0@, r.1@) == master_plan(feeds@),
        distinct_keys(r.0@),
        forall|a: int| 0 <= a < r.0@.len() ==> exists|x: int| 0 <= x < feeds@.len() && #[trigger] feeds@[x].1 == (#[trigger] r.0@[a]).0 && feeds@[x].1 != UNUSED,
{
    let mut rep: Vec<(usize, usize)> = Vec::new();
    let mut copies: Vec<(usize, usize)> = Vec::new();
    let mut k: usize = 0;
    while k < feeds.len()
        invariant
            k <= feeds@.len(),
            (rep@, copies@) == master_plan(feeds@.subrange(0, k as int)),
            distinct_keys(rep@),
            forall|a: int| 0 <= a < rep@.len() ==> exists|x: int| 0 <= x < k && #[trigger] feeds@[x].1 == (#[trigger] rep@[a]).0 && feeds@[x].1 != UNUSED,
        decreases feeds@.len() - k,
    {
        proof {
            assert(feeds@.subrange(0, k + 1).drop_last() =~= feeds@.subrange(0, k as int));
        }
        let (j, b) = feeds[k];
        if b != UNUSED {
            match find_replacement(&rep, b) {
                Some(j0) => {
                    copies.push((j0, j.0 as usize));
                },
                None => {
                    let ghost r0 = rep@;
                    rep.push((b, j.0 as usize));
                    proof {
                        assert forall|x: int, y: int| 0 <= x < y < rep@.len() implies (#[trigger] rep@[x]).0 != (#[trigger] rep@[y]).0 by {
                            assert(rep@[x] == r0[x]);
                            if y < r0.len() {
                                assert(rep@[y] == r0[y]);
                            }
                        }
                        assert forall|a: int| 0 <= a < rep@.len() implies exists|x: int| 0 <= x < k + 1 && #[trigger] feeds@[x].1 == (#[trigger] rep@[a]).0 && feeds@[x].1 != UNUSED by {
                            if a < r0.len() {
                                assert(rep@[a] == r0[a]);
                                let x = choose|x: int| 0 <= x < k && #[trigger] feeds@[x].1 == (#[trigger] r0[a]).0 && feeds@[x].1 != UNUSED;
                            } else {
                                assert(feeds@[k as int].1 == rep@[a].0);
                            }
                        }
                    }
                },
            }
        }
        k = k + 1;
    }
    proof {
        assert(feeds@.subrange(0, k as int) =~= feeds@);
    }
    (rep, copies)
}

/// A buffer an output writes is a master output, or an intermediate buffer below `n`.
pub open spec fn out_below(o: OutputBufferIndex, n: usize) -> bool {
    match o {
        OutputBufferIndex::Local(i) => i < n,
        OutputBufferIndex::Master(_) => true,
    }
}

/// A buffer an input reads is a caller's buffer, or an intermediate buffer below `n`.
pub open spec fn in_below(b: BufferIndex, n: usize) -> bool {
    match b {
        BufferIndex::Output(o) => out_below(o, n),
        BufferIndex::SuperInput(_) => true,
    }
}

/// Every intermediate buffer that step `p` names is below `n`.
pub open spec fn locals_below(p: ProcessTask, n: usize) -> bool {
    match p {
        ProcessTask::Sum { left_input, right_input, output } => in_below(left_input, n) && in_below(right_input, n) && out_below(output, n),
        ProcessTask::CopyToMasterOutput { input, .. } => in_below(input, n),
        ProcessTask::Process { inputs, outputs, .. } => {
            &&& forall|x: int| 0 <= x < inputs@.len() && (#[trigger] inputs@[x]) is Some ==> in_below(inputs@[x].unwrap(), n)
            &&& forall|x: int| 0 <= x < outputs@.len() && (#[trigger] outputs@[x]) is Some ==> out_below(outputs@[x].unwrap(), n)
        },
    }
}

proof fn lemma_rewrite_local_below(b: usize, rep: Seq<(usize, usize)>, nb: usize)
    requires
        b < nb,
        distinct_keys(rep),
        forall|a: int| 0 <= a < rep.len() ==> (#[trigger] rep[a]).0 < nb,
    ensures
        rep.len() <= nb,
        out_below(crate::audio_graph::rewrite_output(OutputBufferIndex::Local(b), rep), (nb - rep.len()) as usize),
{
    lemma_count_below_all(rep, nb);
    lemma_distinct_keys_count_below(rep, nb);
    if replacement(rep, b).is_none() {
        crate::audio_graph::lemma_rewrite_in_bounds(rep, b, nb);
    }
}

proof fn lemma_routed_below(t: Task, p: ProcessTask, rep: Seq<(usize, usize)>, nb: usize)
    requires
        routed(t, p, rep),
        task_in_bounds(t, nb),
        distinct_keys(rep),
        forall|a: int| 0 <= a < rep.len() ==> (#[trigger] rep[a]).0 < nb,
    ensures
        locals_below(p, (nb - rep.len()) as usize),
{
    lemma_count_below_all(rep, nb);
    lemma_distinct_keys_count_below(rep, nb);
    let n2 = (nb - rep.len()) as usize;
    match t {
        Task::Sum { left, right, output } => {
            lemma_rewrite_local_below(left, rep, nb);
            lemma_rewrite_local_below(right, rep, nb);
            lemma_rewrite_local_below(output, rep, nb);
        },
        Task::Node { id, inputs, outputs } => {
            match p {
                ProcessTask::Process { inputs: pi, outputs: po, .. } => {
                    assert forall|x: int| 0 <= x < pi@.len() && (#[trigger] pi@[x]) is Some implies in_below(pi@[x].unwrap(), n2) by {
                        let b = inputs@[x].1;
                        assert(buf_ok(inputs@[x].1, nb));
                        if b != UNUSED {
                            lemma_rewrite_local_below(b, rep, nb);
                        }
                    }
                    assert forall|x: int| 0 <= x < po@.len() && (#[trigger] po@[x]) is Some implies out_below(po@[x].unwrap(), n2) by {
                        let b = outputs@[x].1;
                        assert(buf_ok(outputs@[x].1, nb));
                        if b != UNUSED {
                            lemma_rewrite_local_below(b, rep, nb);
                        }
                    }
                },
                _ => {},
            }
        },
    }
}

/// `p` copies master output `c.0` into master output `c.1`.
pub open spec fn is_copy(p: ProcessTask, c: (usize, usize)) -> bool {
    match p {
        ProcessTask::CopyToMasterOutput { input, outputs } => input == BufferIndex::Output(OutputBufferIndex::Master(c.0)) && outputs@ == seq![c.1],
        _ => false,
    }
}

fn find_node_step(s: &Vec<Task>, id: NodeID) -> (r: Option<usize>)
    ensures
        match r {
            Some(p) => node_step(s@, id) == Some(p as int),
            None => node_step(s@, id) == None::<int>,
        },
        r.is_some() ==> r.unwrap() < s@.len(),
{
    let mut found: Option<usize> = None;
    let mut k: usize = 0;
    while k < s.len()
        invariant
            k <= s@.len(),
            match found {
                Some(p) => node_step(s@.subrange(0, k as int), id) == Some(p as int) && p < k,
                None => node_step(s@.subrange(0, k as int), id) == None::<int>,
            },
        decreases s@.len() - k,
    {
        proof {
            assert(s@.subrange(0, k + 1).drop_last() =~= s@.subrange(0, k as int));
        }
        match &s[k] {
            Task::Node { id: i, .. } => {
                if i.0 == id.0 {
                    found = Some(k);
                }
            },
            Task::Sum { .. } => {},
        }
        k = k + 1;
    }
    proof {
        assert(s@.subrange(0, k as int) =~= s@);
    }
    found
}

fn to_process_task(t: &Task, replaced: &Vec<(usize, usize)>) -> (p: ProcessTask)
    requires
        forall|i: usize| count_below(replaced@, i) <= i,
    ensures
        routed(*t, p, replaced@),
{
    match t {
        Task::Sum { left, right, output } => {
            let mut p = ProcessTask::Sum {
                left_input: BufferIndex::Output(OutputBufferIndex::Local(*left)),
                right_input: BufferIndex::Output(OutputBufferIndex::Local(*right)),
                output: OutputBufferIndex::Local(*output),
            };
            p.replace_and_shift_output_buffers(replaced);
            p
        },
        Task::Node { id, inputs, outputs } => {
            let mut pi: Vec<Option<BufferIndex>> = Vec::new();
            let mut x: usize = 0;
            while x < inputs.len()
                invariant
                    x <= inputs@.len(),
                    pi@.len() == x,
                    forall|y: int| 0 <= y < x ==> #[trigger] pi@[y] == local_input(inputs@[y].1),
                decreases inputs@.len() - x,
            {
                let b = inputs[x].1;
                pi.push(if b == UNUSED { None } else { Some(BufferIndex::Output(OutputBufferIndex::Local(b))) });
                x = x + 1;
            }
            let mut po: Vec<Option<OutputBufferIndex>> = Vec::new();
            let mut x: usize = 0;
            while x < outputs.len()
                invariant
                    x <= outputs@.len(),
                    po@.len() == x,
                    forall|y: int| 0 <= y < x ==> #[trigger] po@[y] == local_output(outputs@[y].1),
                decreases outputs@.len() - x,
            {
                let b = outputs[x].1;
                po.push(if b == UNUSED { None } else { Some(OutputBufferIndex::Local(b)) });
                x = x + 1;
            }
            let mut p = ProcessTask::Process { index: id.0 as usize, inputs: pi, outputs: po };
            p.replace_and_shift_output_buffers(replaced);
            p
        },
    }
}

/// Moves a compiled schedule into the caller's buffers, with node `master` standing for the
/// caller's master outputs: its input `j` becomes master output `j`. The step of `master` is
/// dropped; following [`master_plan`], the first master output fed by a buffer takes that
/// buffer's place in every step (the intermediate buffers above it move down by one), and each
/// later master output fed by the same buffer is copied from the first at the end. Returns the
/// steps and the number of intermediate buffers left.
pub fn route_to_masters(schedule: &Vec<Task>, num_buffers: usize, master: NodeID) -> (r: (Vec<ProcessTask>, usize))
    requires
        forall|t: int| 0 <= t < schedule@.len() ==> task_in_bounds(#[trigger] schedule@[t], num_buffers),
    ensures
        ({
            let (rep, copies) = master_plan(master_feeds(schedule@, master));
            let skip = match node_step(schedule@, master) {
                Some(p) => p,
                None => schedule@.len() as int,
            };
            let kept = if skip < schedule@.len() { schedule@.len() - 1 } else { schedule@.len() as int };
            &&& r.1 == num_buffers - rep.len()
            &&& r.0@.len() == kept + copies.len()
            &&& forall|k: int| 0 <= k < schedule@.len() && k != skip ==> routed(#[trigger] schedule@[k], r.0@[if k < skip { k } else { k - 1 }], rep)
            &&& forall|c: int| 0 <= c < copies.len() ==> is_copy(#[trigger] r.0@[kept + c], copies[c])
        }),
        forall|k: int| 0 <= k < r.0@.len() ==> locals_below(#[trigger] r.0@[k], r.1),
{
    let pm = find_node_step(schedule, master);
    let mut feeds: Vec<(InputID, usize)> = Vec::new();
    match pm {
        Some(p) => {
            match &schedule[p] {
                Task::Node { inputs, .. } => {
                    let mut x: usize = 0;
                    while x < inputs.len()
                        invariant
                            x <= inputs@.len(),
                            feeds@ == inputs@.subrange(0, x as int),
                        decreases inputs@.len() - x,
                    {
                        feeds.push(inputs[x]);
                        proof {
                            assert(feeds@ =~= inputs@.subrange(0, x + 1));
                        }
                        x = x + 1;
                    }
                    proof {
                        assert(feeds@ =~= inputs@);
                    }
                },
                Task::Sum { .. } => {},
            }
        },
        None => {},
    }
    assert(feeds@ == master_feeds(schedule@, master));
    let (rep, copies) = plan_master_outputs(&feeds);
    proof {
        assert forall|i: usize| count_below(rep@, i) <= i by {
            lemma_distinct_keys_count_below(rep@, i);
        }
        if pm.is_some() {
            let p = pm.unwrap() as int;
            assert(task_in_bounds(schedule@[p], num_buffers));
        }
        assert forall|a: int| 0 <= a < rep@.len() implies (#[trigger] rep@[a]).0 < num_buffers by {
            let x = choose|x: int| 0 <= x < feeds@.len() && #[trigger] feeds@[x].1 == (#[trigger] rep@[a]).0 && feeds@[x].1 != UNUSED;
            let p = pm.unwrap() as int;
            assert(buf_ok(feeds@[x].1, num_buffers));
        }
        lemma_count_below_all(rep@, num_buffers);
        lemma_distinct_keys_count_below(rep@, num_buffers);
    }
    let skip: usize = match pm {
        Some(p) => p,
        None => schedule.len(),
    };
    let mut out: Vec<ProcessTask> = Vec::new();
    let mut k: usize = 0;
    while k < schedule.len()
        invariant
            k <= schedule@.len(),
            skip <= schedule@.len(),
            forall|i: usize| count_below(rep@, i) <= i,
            out@.len() == if k <= skip { k as int } else { k - 1 },
            forall|k2: int| 0 <= k2 < k && k2 != skip ==> routed(#[trigger] schedule@[k2], out@[if k2 < skip { k2 } else { k2 - 1 }], rep@),
        decreases schedule@.len() - k,
    {
        if k != skip {
            let p = to_process_task(&schedule[k], &rep);
            out.push(p);
        }
        k = k + 1;
    }
    let ghost base = out@.len();
    assert(base == if skip < schedule@.len() { schedule@.len() - 1 } else { schedule@.len() as int });
    let mut c: usize = 0;
    while c < copies.len()
        invariant
            c <= copies@.len(),
            skip <= schedule@.len(),
            base == if skip < schedule@.len() { schedule@.len() - 1 } else { schedule@.len() as int },
            out@.len() == base + c,
            forall|k2: int| 0 <= k2 < schedule@.len() && k2 != skip ==> routed(#[trigger] schedule@[k2], out@[if k2 < skip { k2 } else { k2 - 1 }], rep@),
            forall|c2: int| 0 <= c2 < c ==> is_copy(#[trigger] out@[base + c2], copies@[c2]),
        decreases copies@.len() - c,
    {
        let (from, to) = copies[c];
        let ghost o0 = out@;
        let mut outputs: Vec<usize> = Vec::new();
        outputs.push(to);
        assert(outputs@ =~= seq![to]);
        out.push(ProcessTask::CopyToMasterOutput { input: BufferIndex::Output(OutputBufferIndex::Master(from)), outputs });
        proof {
            assert forall|k2: int| 0 <= k2 < schedule@.len() && k2 != skip implies routed(#[trigger] schedule@[k2], out@[if k2 < skip { k2 } else { k2 - 1 }], rep@) by {
                assert(out@[if k2 < skip { k2 } else { k2 - 1 }] == o0[if k2 < skip { k2 } else { k2 - 1 }]);
            }
            assert forall|c2: int| 0 <= c2 < c + 1 implies is_copy(#[trigger] out@[base + c2], copies@[c2]) by {
                if c2 < c {
                    assert(out@[base + c2] == o0[base + c2]);
                } else {
                    assert(copies@[c2] == (from, to));
                }
            }
        }
        c = c + 1;
    }
    proof {
        let n2 = (num_buffers - rep@.len()) as usize;
        assert forall|k2: int| 0 <= k2 < out@.len() implies locals_below(#[trigger] out@[k2], n2) by {
            if k2 < base {
                let k1 = if k2 < skip { k2 } else { k2 + 1 };
                assert(k1 != skip && 0 <= k1 < schedule@.len());
                assert(routed(schedule@[k1], out@[if k1 < skip { k1 } else { k1 - 1 }], rep@));
                assert(task_in_bounds(schedule@[k1], num_buffers));
                lemma_routed_below(schedule@[k1], out@[k2], rep@, num_buffers);
            } else {
                assert(is_copy(out@[base + (k2 - base)], copies@[k2 - base]));
            }
        }
    }
    (out, num_buffers - rep.len())
}

/// Step `t` reads buffer `c`.
pub open spec fn reads(t: Task, c: usize) -> bool {
    match t {
        Task::Node { inputs, .. } => exists|x: int| 0 <= x < inputs@.len() && (#[trigger] inputs@[x]).1 == c,
        Task::Sum { left, right, .. } => left == c || right == c,
    }
}

/// Some step of `s` from position `p` on reads buffer `c` before any step writes it: what `c`
/// holds is still to be used.
pub open spec fn read_before_written(s: Seq<Task>, p: int, c: usize) -> bool {
    exists|q: int| p <= q < s.len() && #[trigger] reads(s[q], c) && forall|r: int| p <= r < q ==> !#[trigger] writes(s[r], c)
}

/// Buffer `c` is an output of the node step that the sums up to step `p` follow.
pub open spec fn block_output(s: Seq<Task>, p: int, c: usize) -> bool {
    exists|q: int| 0 <= q < p && s[q] is Node && #[trigger] writes(s[q], c) && forall|r: int| q < r < p ==> #[trigger] s[r] is Sum
}

/// Buffer `c` is claimed in `cl` and no step after `p` writes it.
pub open spec fn pending(s: Seq<Task>, p: int, c: usize, cl: Seq<(u32, u32, usize)>) -> bool {
    holds_claim(cl, c) && forall|r: int| p < r < s.len() ==> !#[trigger] writes(s[r], c)
}

/// Buffer `c` was busy at step `p`: still to be read, or claimed in `cl` and untouched since.
pub open spec fn busy(s: Seq<Task>, p: int, c: usize, cl: Seq<(u32, u32, usize)>) -> bool {
    read_before_written(s, p + 1, c) || pending(s, p, c, cl)
}

/// Output `x` of a node step: buffer `c` went to an earlier output of the same step.
pub open spec fn earlier_output(outputs: Seq<(OutputID, usize)>, x: int, c: usize) -> bool {
    exists|y: int| 0 <= y < x && (#[trigger] outputs[y]).1 == c
}

/// Every buffer below one that step `p` writes was busy then (or, claims `cl` aside, is still
/// to be read), or taken by the same node: step `p` took the lowest free buffer.
pub open spec fn takes_lowest_with(s: Seq<Task>, p: int, cl: Seq<(u32, u32, usize)>) -> bool {
    match s[p] {
        Task::Node { outputs, .. } => forall|x: int| 0 <= x < outputs@.len() && (#[trigger] outputs@[x]).1 != UNUSED ==>
            forall|c: usize| c < outputs@[x].1 ==> earlier_output(outputs@, x, c) || #[trigger] busy(s, p, c, cl),
        Task::Sum { output, .. } => forall|c: usize| c < output ==> block_output(s, p, c) || #[trigger] busy(s, p, c, cl),
    }
}

/// Step `p` of `s` took the lowest free buffer for each buffer it writes: every lower buffer was
/// still to be read by a later step before being written again, or was written by the same
/// node step (a sum may not take the outputs of the node it follows).
pub open spec fn takes_lowest(s: Seq<Task>, p: int) -> bool {
    takes_lowest_with(s, p, Seq::empty())
}

proof fn lemma_busy_push(s: Seq<Task>, t: Task, p: int, c: usize, cl0: Seq<(u32, u32, usize)>, cl1: Seq<(u32, u32, usize)>)
    requires
        0 <= p < s.len(),
        busy(s, p, c, cl0),
        holds_claim(cl0, c) ==> reads(t, c) || (holds_claim(cl1, c) && !writes(t, c)),
    ensures
        busy(s.push(t), p, c, cl1),
{
    let s2 = s.push(t);
    if read_before_written(s, p + 1, c) {
        let q = choose|q: int| p + 1 <= q < s.len() && #[trigger] reads(s[q], c) && forall|r: int| p + 1 <= r < q ==> !#[trigger] writes(s[r], c);
        assert(s2[q] == s[q]);
        assert forall|r: int| p + 1 <= r < q implies !#[trigger] writes(s2[r], c) by {
            assert(s2[r] == s[r]);
        }
        assert(reads(s2[q], c));
    } else {
        assert(pending(s, p, c, cl0));
        if reads(t, c) {
            let q = s.len() as int;
            assert(s2[q] == t);
            assert forall|r: int| p + 1 <= r < q implies !#[trigger] writes(s2[r], c) by {
                assert(s2[r] == s[r]);
            }
            assert(reads(s2[q], c));
        } else {
            assert forall|r: int| p < r < s2.len() implies !#[trigger] writes(s2[r], c) by {
                if r < s.len() {
                    assert(s2[r] == s[r]);
                } else {
                    assert(s2[r] == t);
                }
            }
        }
    }
}

proof fn lemma_takes_lowest_push(s: Seq<Task>, t: Task, p: int, cl0: Seq<(u32, u32, usize)>, cl1: Seq<(u32, u32, usize)>)
    requires
        0 <= p < s.len(),
        takes_lowest_with(s, p, cl0),
        forall|c: usize| holds_claim(cl0, c) ==> reads(t, c) || (holds_claim(cl1, c) && !writes(t, c)),
    ensures
        takes_lowest_with(s.push(t), p, cl1),
{
    let s2 = s.push(t);
    assert(s2[p] == s[p]);
    match s[p] {
        Task::Node { outputs, .. } => {
            assert forall|x: int| 0 <= x < outputs@.len() && (#[trigger] outputs@[x]).1 != UNUSED implies
                forall|c: usize| c < outputs@[x].1 ==> earlier_output(outputs@, x, c) || #[trigger] busy(s2, p, c, cl1) by {
                assert forall|c: usize| c < outputs@[x].1 implies earlier_output(outputs@, x, c) || #[trigger] busy(s2, p, c, cl1) by {
                    if !earlier_output(outputs@, x, c) {
                        assert(busy(s, p, c, cl0));
                        lemma_busy_push(s, t, p, c, cl0, cl1);
                    }
                }
            }
        },
        Task::Sum { output, .. } => {
            assert forall|c: usize| c < output implies block_output(s2, p, c) || #[trigger] busy(s2, p, c, cl1) by {
                if block_output(s, p, c) {
                    let q = choose|q: int| 0 <= q < p && s[q] is Node && #[trigger] writes(s[q], c) && forall|r: int| q < r < p ==> #[trigger] s[r] is Sum;
                    assert(s2[q] == s[q]);
                    assert forall|r: int| q < r < p implies #[trigger] s2[r] is Sum by {
                        assert(s2[r] == s[r]);
                    }
                    assert(writes(s2[q], c));
                } else {
                    assert(busy(s, p, c, cl0));
                    lemma_busy_push(s, t, p, c, cl0, cl1);
                }
            }
        },
    }
}

/// Every step of `s` took the lowest free buffer, with the claims `cl` still outstanding.
pub open spec fn all_take_lowest(s: Seq<Task>, cl: Seq<(u32, u32, usize)>) -> bool {
    forall|p: int| 0 <= p < s.len() ==> #[trigger] takes_lowest_with(s, p, cl)
}

proof fn lemma_all_take_lowest_push(s: Seq<Task>, t: Task, cl0: Seq<(u32, u32, usize)>, cl1: Seq<(u32, u32, usize)>)
    requires
        all_take_lowest(s, cl0),
        forall|c: usize| holds_claim(cl0, c) ==> reads(t, c) || (holds_claim(cl1, c) && !writes(t, c)),
    ensures
        forall|p: int| 0 <= p < s.len() ==> #[trigger] takes_lowest_with(s.push(t), p, cl1),
{
    assert forall|p: int| 0 <= p < s.len() implies #[trigger] takes_lowest_with(s.push(t), p, cl1) by {
        assert(takes_lowest_with(s, p, cl0));
        lemma_takes_lowest_push(s, t, p, cl0, cl1);
    }
}

proof fn lemma_all_take_lowest_more_claims(s: Seq<Task>, cl0: Seq<(u32, u32, usize)>, cl1: Seq<(u32, u32, usize)>)
    requires
        all_take_lowest(s, cl0),
        forall|c: usize| holds_claim(cl0, c) ==> holds_claim(cl1, c),
    ensures
        all_take_lowest(s, cl1),
{
    assert forall|p: int| 0 <= p < s.len() implies #[trigger] takes_lowest_with(s, p, cl1) by {
        assert(takes_lowest_with(s, p, cl0));
        match s[p] {
            Task::Node { outputs, .. } => {
                assert forall|x: int| 0 <= x < outputs@.len() && (#[trigger] outputs@[x]).1 != UNUSED implies
                    forall|c: usize| c < outputs@[x].1 ==> earlier_output(outputs@, x, c) || #[trigger] busy(s, p, c, cl1) by {
                    assert forall|c: usize| c < outputs@[x].1 implies earlier_output(outputs@, x, c) || #[trigger] busy(s, p, c, cl1) by {
                        if !earlier_output(outputs@, x, c) {
                            assert(busy(s, p, c, cl0));
                        }
                    }
                }
            },
            Task::Sum { output, .. } => {
                assert forall|c: usize| c < output implies block_output(s, p, c) || #[trigger] busy(s, p, c, cl1) by {
                    if !block_output(s, p, c) {
                        assert(busy(s, p, c, cl0));
                    }
                }
            },
        }
    }
}

/// `t` is a node step whose outputs are `outs`.
pub open spec fn writes_outputs(t: Task, outs: Seq<(OutputID, usize)>) -> bool {
    match t {
        Task::Node { outputs, .. } => outputs@ == outs,
        Task::Sum { .. } => false,
    }
}

proof fn lemma_writes_outputs(t: Task, outs: Seq<(OutputID, usize)>, x: int)
    requires
        writes_outputs(t, outs),
        0 <= x < outs.len(),
    ensures
        writes(t, outs[x].1),
        t is Node,
{
    match t {
        Task::Node { outputs, .. } => {
            assert(outputs@[x].1 == outs[x].1);
        },
        Task::Sum { .. } => {},
    }
}

/// Some claim in `cl` is on buffer `c`.
pub open spec fn holds_claim(cl: Seq<(u32, u32, usize)>, c: usize) -> bool {
    exists|k: int| 0 <= k < cl.len() && (#[trigger] cl[k]).2 == c
}

/// `a` is a prefix of `b`.
pub open spec fn is_prefix(a: Seq<u32>, b: Seq<u32>) -> bool {
    a.len() <= b.len() && forall|k: int| 0 <= k < a.len() ==> #[trigger] b[k] == a[k]
}

proof fn lemma_prefix_contains(a: Seq<u32>, b: Seq<u32>)
    requires
        is_prefix(a, b),
    ensures
        forall|x: u32| a.contains(x) ==> b.contains(x),
{
    assert forall|x: u32| a.contains(x) implies b.contains(x) by {
        let k = choose|k: int| 0 <= k < a.len() && a[k] == x;
        assert(b[k] == x);
    }
}

proof fn lemma_prefix_trans(a: Seq<u32>, b: Seq<u32>, c: Seq<u32>)
    requires
        is_prefix(a, b),
        is_prefix(b, c),
    ensures
        is_prefix(a, c),
{
    assert forall|k: int| 0 <= k < a.len() implies #[trigger] c[k] == a[k] by {
        assert(c[k] == b[k]);
    }
}

fn contains_u32(v: &Vec<u32>, x: u32) -> (r: bool)
    ensures
        r == v@.contains(x),
{
    let mut i: usize = 0;
    while i < v.len()
        invariant
            i <= v@.len(),
            forall|k: int| 0 <= k < i ==> v@[k] != x,
        decreases v@.len() - i,
    {
        if v[i] == x {
            return true;
        }
        i = i + 1;
    }
    false
}

/// What buffer `b` holds in `val`: the output ports, as `(node, output)`, summed into it.
pub open spec fn read(val: Map<usize, Set<(u32, u32)>>, b: usize) -> Set<(u32, u32)> {
    if val.dom().contains(b) {
        val[b]
    } else {
        Set::empty()
    }
}

/// `val` after node `n` wrote each of its outputs `outs` into its buffer.
pub open spec fn write_outputs(val: Map<usize, Set<(u32, u32)>>, n: u32, outs: Seq<(OutputID, usize)>) -> Map<usize, Set<(u32, u32)>>
    decreases outs.len(),
{
    if outs.len() == 0 {
        val
    } else {
        let v = write_outputs(val, n, outs.drop_last());
        if outs.last().1 == UNUSED {
            v
        } else {
            v.insert(outs.last().1, set![(n, outs.last().0.0)])
        }
    }
}

/// `val` after step `t`: a node writes its own output port into each output buffer, a sum
/// writes the union of its two inputs.
pub open spec fn run_task(val: Map<usize, Set<(u32, u32)>>, t: Task) -> Map<usize, Set<(u32, u32)>> {
    match t {
        Task::Node { id, outputs, .. } => write_outputs(val, id.0, outputs@),
        Task::Sum { left, right, output } => val.insert(output, read(val, left).union(read(val, right))),
    }
}

/// What every buffer holds after running the steps of `s` in order.
pub open spec fn run(s: Seq<Task>) -> Map<usize, Set<(u32, u32)>>
    decreases s.len(),
{
    if s.len() == 0 {
        Map::empty()
    } else {
        run_task(run(s.drop_last()), s.last())
    }
}

/// Step `p` of `s`, run after the steps before it, reads what it should: each input of a node
/// step holds exactly the output ports connected to it, and has no buffer exactly when nothing
/// is connected, and the two buffers a sum adds each hold some output port, none in common: a sum
/// only joins a new output to what an input already had.
pub open spec fn step_reads_sources(g: AudioGraph, s: Seq<Task>, p: int) -> bool {
    let val = run(s.subrange(0, p));
    match s[p] {
        Task::Node { id, inputs, .. } => forall|x: int|
            0 <= x < inputs@.len() ==> if (#[trigger] inputs@[x]).1 == UNUSED {
                g.srcset(id.0, inputs@[x].0.0) == Set::<(u32, u32)>::empty()
            } else {
                read(val, inputs@[x].1) == g.srcset(id.0, inputs@[x].0.0) && g.srcset(id.0, inputs@[x].0.0) != Set::<(u32, u32)>::empty()
            },
        Task::Sum { left, right, .. } => {
            &&& read(val, left).disjoint(read(val, right))
            &&& read(val, left) != Set::<(u32, u32)>::empty()
            &&& read(val, right) != Set::<(u32, u32)>::empty()
        },
    }
}

/// Node `m` stands at position `lo` or later in `order`.
pub open spec fn placed_from(order: Seq<u32>, lo: int, m: u32) -> bool {
    exists|q: int| lo <= q < order.len() && order[q] == m
}

/// Node `s` stands before position `k` in `order`.
pub open spec fn placed_before(order: Seq<u32>, k: int, s: u32) -> bool {
    exists|q: int| 0 <= q < k && order[q] == s
}

/// Output port `p` of node `n`, whose outputs `outs` are being claimed, already counts towards
/// input `i` of node `m`: its output came before output `x`, or it is output `x` and `(m, i)`
/// is among the first `y` of its sinks.
pub open spec fn handled(n: u32, outs: Seq<(OutputID, usize)>, x: int, sinks: Seq<(u32, u32)>, y: int, m: u32, i: u32, p: (u32, u32)) -> bool {
    p.0 == n && ((exists|x2: int| 0 <= x2 < x && x2 < outs.len() && #[trigger] outs[x2].0.0 == p.1)
        || (0 <= x < outs.len() && p.1 == outs[x].0.0 && sinks.subrange(0, y).contains((m, i))))
}

proof fn lemma_write_outputs(val: Map<usize, Set<(u32, u32)>>, n: u32, outs: Seq<(OutputID, usize)>)
    requires
        forall|x: int, y: int| 0 <= x < y < outs.len() && outs[x].1 != UNUSED ==> #[trigger] outs[x].1 != #[trigger] outs[y].1,
    ensures
        forall|b: usize| (forall|x: int| 0 <= x < outs.len() ==> #[trigger] outs[x].1 != b) ==> #[trigger] read(write_outputs(val, n, outs), b) == read(val, b),
        forall|x: int| 0 <= x < outs.len() && (#[trigger] outs[x]).1 != UNUSED ==> read(write_outputs(val, n, outs), outs[x].1) == set![(n, outs[x].0.0)],
    decreases outs.len(),
{
    if outs.len() > 0 {
        let init = outs.drop_last();
        lemma_write_outputs(val, n, init);
        let w = write_outputs(val, n, outs);
        assert forall|b: usize| (forall|x: int| 0 <= x < outs.len() ==> #[trigger] outs[x].1 != b) implies #[trigger] read(w, b) == read(val, b) by {
            assert forall|x: int| 0 <= x < init.len() implies #[trigger] init[x].1 != b by {
                assert(init[x] == outs[x]);
            }
            assert(outs[outs.len() - 1].1 != b);
            assert(read(write_outputs(val, n, init), b) == read(val, b));
        }
        assert forall|x: int| 0 <= x < outs.len() && (#[trigger] outs[x]).1 != UNUSED implies read(w, outs[x].1) == set![(n, outs[x].0.0)] by {
            if x < outs.len() - 1 {
                assert(init[x] == outs[x]);
                assert(outs[x].1 != outs[outs.len() - 1].1);
            }
        }
    }
}

proof fn lemma_run_push(s: Seq<Task>, t: Task)
    ensures
        run(s.push(t)) == run_task(run(s), t),
        forall|p: int| 0 <= p <= s.len() ==> #[trigger] s.push(t).subrange(0, p) == s.subrange(0, p),
{
    assert(s.push(t).drop_last() =~= s);
    assert forall|p: int| 0 <= p <= s.len() implies #[trigger] s.push(t).subrange(0, p) == s.subrange(0, p) by {
        assert(s.push(t).subrange(0, p) =~= s.subrange(0, p));
    }
}

/// Marks a port that has no buffer: an output nothing reads, or an input nothing feeds.
pub const UNUSED: usize = usize::MAX;

/// One step of a compiled schedule.
#[derive(Clone, Debug, PartialEq, Eq)]
pub enum Task {
    /// Run node `id`, reading each input port from its buffer and writing each output port
    /// to its buffer.
    Node { id: NodeID, inputs: Vec<(InputID, usize)>, outputs: Vec<(OutputID, usize)> },
    /// Write the sum of buffers `left` and `right` into buffer `output`.
    Sum { left: usize, right: usize, output: usize },
}

impl Task {
    pub fn node(index: NodeID, inputs: Vec<(InputID, usize)>, outputs: Vec<(OutputID, usize)>) -> (r: Self)
        ensures
            r == (Task::Node { id: index, inputs, outputs }),
    {
        Task::Node { id: index, inputs, outputs }
    }

    pub fn sum(left: usize, right: usize, output: usize) -> (r: Self)
        ensures
            r == (Task::Sum { left, right, output }),
    {
        Task::Sum { left, right, output }
    }
}

/// `b` names one of `n` buffers, or no buffer.
pub open spec fn buf_ok(b: usize, n: usize) -> bool {
    b < n || b == UNUSED
}

/// Every buffer that `t` names is one of `n` buffers; a sum names no [`UNUSED`] buffer.
pub open spec fn task_in_bounds(t: Task, n: usize) -> bool {
    match t {
        Task::Node { inputs, outputs, .. } => {
            &&& forall|x: int| 0 <= x < inputs@.len() ==> buf_ok((#[trigger] inputs@[x]).1, n)
            &&& forall|x: int| 0 <= x < outputs@.len() ==> buf_ok((#[trigger] outputs@[x]).1, n)
        },
        Task::Sum { left, right, output } => left < n && right < n && output < n,
    }
}

/// The output ports of a [`Task::Node`] step write pairwise different buffers.
pub open spec fn outputs_distinct(t: Task) -> bool {
    match t {
        Task::Node { outputs, .. } => forall|x: int, y: int|
            0 <= x < y < outputs@.len() && outputs@[x].1 != UNUSED ==> #[trigger] outputs@[x].1 != #[trigger] outputs@[y].1,
        Task::Sum { .. } => true,
    }
}

/// A [`Task::Node`] step lists each input and each output port of its node once, in
/// increasing order of id.
pub open spec fn ports_listed(g: AudioGraph, t: Task) -> bool {
    match t {
        Task::Node { id, inputs, outputs } => {
            &&& forall|x: int, y: int| 0 <= x < y < inputs@.len() ==> (#[trigger] inputs@[x]).0.0 < (#[trigger] inputs@[y]).0.0
            &&& forall|i: u32| g.has_input(id.0, i) <==> exists|x: int| 0 <= x < inputs@.len() && (#[trigger] inputs@[x]).0.0 == i
            &&& forall|x: int, y: int| 0 <= x < y < outputs@.len() ==> (#[trigger] outputs@[x]).0.0 < (#[trigger] outputs@[y]).0.0
            &&& forall|o: u32| g.has_output(id.0, o) <==> exists|x: int| 0 <= x < outputs@.len() && (#[trigger] outputs@[x]).0.0 == o
        },
        Task::Sum { .. } => true,
    }
}

/// Each output port of a [`Task::Node`] step has no buffer exactly when it feeds no input of a
/// node of `nodes`.
pub open spec fn outputs_used(g: AudioGraph, nodes: Seq<u32>, t: Task) -> bool {
    match t {
        Task::Node { id, outputs, .. } => forall|x: int| 0 <= x < outputs@.len() ==> ((#[trigger] outputs@[x]).1 == UNUSED <==> !exists|m: u32, i: u32| nodes.contains(m) && g.has_edge(id.0, outputs@[x].0.0, m, i)),
        Task::Sum { .. } => true,
    }
}

/// Step `t` writes buffer `c`.
pub open spec fn writes(t: Task, c: usize) -> bool {
    match t {
        Task::Node { outputs, .. } => exists|x: int| 0 <= x < outputs@.len() && (#[trigger] outputs@[x]).1 == c,
        Task::Sum { output, .. } => output == c,
    }
}

/// Some step of `s` writes buffer `c`.
pub open spec fn written_in(s: Seq<Task>, c: usize) -> bool {
    exists|t: int| 0 <= t < s.len() && #[trigger] writes(s[t], c)
}

/// The nodes that the [`Task::Node`] steps of `s` run, in order.
pub open spec fn node_task_ids(s: Seq<Task>) -> Seq<u32>
    decreases s.len(),
{
    if s.len() == 0 {
        Seq::empty()
    } else {
        let rest = node_task_ids(s.drop_last());
        match s.last() {
            Task::Node { id, .. } => rest.push(id.0),
            Task::Sum { .. } => rest,
        }
    }
}

proof fn lemma_node_task_ids_push(s: Seq<Task>, t: Task)
    ensures
        node_task_ids(s.push(t)) == match t {
            Task::Node { id, .. } => node_task_ids(s).push(id.0),
            Task::Sum { .. } => node_task_ids(s),
        },
{
    assert(s.push(t).drop_last() =~= s);
}

proof fn lemma_tasks_grow(s: Seq<Task>, n1: usize, n2: usize)
    requires
        n1 <= n2,
        forall|t: int| 0 <= t < s.len() ==> task_in_bounds(#[trigger] s[t], n1),
    ensures
        forall|t: int| 0 <= t < s.len() ==> task_in_bounds(#[trigger] s[t], n2),
{
    assert forall|t: int| 0 <= t < s.len() implies task_in_bounds(#[trigger] s[t], n2) by {
        assert(task_in_bounds(s[t], n1));
    }
}

/// The buffers of a schedule being compiled: which input ports have claimed which buffer,
/// and which buffers hold the outputs of the node being scheduled.
struct BufferAllocator {
    claims: Vec<(u32, u32, usize)>,
    held: Vec<bool>,
}

impl BufferAllocator {
    spec fn wf(&self) -> bool {
        forall|k: int| 0 <= k < self.claims@.len() ==> (#[trigger] self.claims@[k]).2 < self.held@.len()
    }

    spec fn is_free(&self, b: int) -> bool {
        &&& 0 <= b < self.held@.len()
        &&& !self.held@[b]
        &&& forall|k: int| 0 <= k < self.claims@.len() ==> (#[trigger] self.claims@[k]).2 != b
    }

    /// No input port has two claims.
    spec fn unique(&self) -> bool {
        forall|a: int, b: int|
            0 <= a < self.claims@.len() && 0 <= b < self.claims@.len() && a != b ==> (#[trigger] self.claims@[a]).0 != (#[trigger] self.claims@[b]).0
                || self.claims@[a].1 != self.claims@[b].1
    }

    /// Input `i` of node `n` has a claim.
    spec fn claimed(&self, n: u32, i: u32) -> bool {
        exists|b: usize| #[trigger] self.claims@.contains((n, i, b))
    }

    /// Removes the claim of input `i` of node `n`, returning its buffer, or [`UNUSED`] if it
    /// had none.
    fn take_claim(&mut self, n: u32, i: u32) -> (b: usize)
        requires
            old(self).wf(),
            old(self).unique(),
        ensures
            final(self).wf(),
            final(self).unique(),
            final(self).held@ == old(self).held@,
            b == UNUSED || b < old(self).held@.len(),
            (b == UNUSED) == !old(self).claimed(n, i),
            b != UNUSED ==> old(self).claims@.contains((n, i, b)),
            !final(self).claimed(n, i),
            forall|c: (u32, u32, usize)| #[trigger] final(self).claims@.contains(c) <==> (old(self).claims@.contains(c) && (c.0 != n || c.1 != i)),
    {
        let mut k: usize = 0;
        while k < self.claims.len()
            invariant
                *self == *old(self),
                self.wf(),
                self.unique(),
                k <= self.claims@.len(),
                forall|j: int| 0 <= j < k ==> (#[trigger] self.claims@[j]).0 != n || self.claims@[j].1 != i,
            decreases self.claims@.len() - k,
        {
            if self.claims[k].0 == n && self.claims[k].1 == i {
                let ghost before = self.claims@;
                let c = self.claims.remove(k);
                assert(before[k as int] == c);
                assert(c.2 < old(self).held@.len());
                assert(self.held.len() == self.held@.len());
                assert(old(self).claims@.contains((n, i, c.2)));
                assert(old(self).claimed(n, i));
                proof {
                    assert forall|j: int| 0 <= j < self.claims@.len() implies (#[trigger] self.claims@[j]).2 < self.held@.len() by {
                        if j < k {
                            assert(self.claims@[j] == before[j]);
                        } else {
                            assert(self.claims@[j] == before[j + 1]);
                        }
                    }
                    assert forall|a: int, b: int|
                        0 <= a < self.claims@.len() && 0 <= b < self.claims@.len() && a != b implies (#[trigger] self.claims@[a]).0 != (#[trigger] self.claims@[b]).0
                            || self.claims@[a].1 != self.claims@[b].1 by {
                        let a2 = if a < k { a } else { a + 1 };
                        let b2 = if b < k { b } else { b + 1 };
                        assert(self.claims@[a] == before[a2]);
                        assert(self.claims@[b] == before[b2]);
                    }
                    assert forall|j: int| 0 <= j < self.claims@.len() implies (#[trigger] self.claims@[j]).0 != n || self.claims@[j].1 != i by {
                        let j2 = if j < k { j } else { j + 1 };
                        assert(self.claims@[j] == before[j2]);
                    }
                    assert forall|x: (u32, u32, usize)| #[trigger] self.claims@.contains(x) <==> (before.contains(x) && (x.0 != n || x.1 != i)) by {
                        if self.claims@.contains(x) {
                            let j = choose|j: int| 0 <= j < self.claims@.len() && self.claims@[j] == x;
                            let j2 = if j < k { j } else { j + 1 };
                            assert(before[j2] == x);
                        }
                        if before.contains(x) && (x.0 != n || x.1 != i) {
                            let j = choose|j: int| 0 <= j < before.len() && before[j] == x;
                            if j < k {
                                assert(self.claims@[j] == x);
                            } else {
                                assert(j != k);
                                assert(self.claims@[j - 1] == x);
                            }
                        }
                    }
                    assert(before.contains((n, i, c.2)));
                    assert forall|b: usize| !#[trigger] self.claims@.contains((n, i, b)) by {}
                }
                return c.2;
            }
            k = k + 1;
        }
        proof {
            assert forall|x: (u32, u32, usize)| #[trigger] self.claims@.contains(x) <==> (old(self).claims@.contains(x) && (x.0 != n || x.1 != i)) by {
                if self.claims@.contains(x) {
                    let j = choose|j: int| 0 <= j < self.claims@.len() && self.claims@[j] == x;
                }
            }
            assert forall|b: usize| !#[trigger] self.claims@.contains((n, i, b)) by {
                if self.claims@.contains((n, i, b)) {
                    let j = choose|j: int| 0 <= j < self.claims@.len() && self.claims@[j] == (n, i, b);
                }
            }
        }
        UNUSED
    }

    /// Records that input `i` of node `n` will read buffer `b`.
    fn claim(&mut self, n: u32, i: u32, b: usize)
        requires
            old(self).wf(),
            old(self).unique(),
            !old(self).claimed(n, i),
            b < old(self).held@.len(),
        ensures
            final(self).wf(),
            final(self).unique(),
            final(self).held@ == old(self).held@,
            final(self).claims@ == old(self).claims@.push((n, i, b)),
            forall|c: (u32, u32, usize)| #[trigger] final(self).claims@.contains(c) <==> (old(self).claims@.contains(c) || c == (n, i, b)),
    {
        let ghost before = self.claims@;
        self.claims.push((n, i, b));
        proof {
            assert forall|j: int| 0 <= j < self.claims@.len() implies (#[trigger] self.claims@[j]).2 < self.held@.len() by {
                if j < before.len() {
                    assert(self.claims@[j] == before[j]);
                }
            }
            assert forall|a: int, c: int|
                0 <= a < self.claims@.len() && 0 <= c < self.claims@.len() && a != c implies (#[trigger] self.claims@[a]).0 != (#[trigger] self.claims@[c]).0
                    || self.claims@[a].1 != self.claims@[c].1 by {
                if a < before.len() && c < before.len() {
                    assert(self.claims@[a] == before[a] && self.claims@[c] == before[c]);
                } else if a < before.len() {
                    assert(self.claims@[a] == before[a]);
                    assert(before.contains(before[a]));
                    assert(before.contains((before[a].0, before[a].1, before[a].2)));
                } else {
                    assert(self.claims@[c] == before[c]);
                    assert(before.contains((before[c].0, before[c].1, before[c].2)));
                }
            }
            assert forall|x: (u32, u32, usize)| #[trigger] self.claims@.contains(x) <==> (before.contains(x) || x == (n, i, b)) by {
                if self.claims@.contains(x) {
                    let j = choose|j: int| 0 <= j < self.claims@.len() && self.claims@[j] == x;
                    if j < before.len() {
                        assert(before[j] == x);
                    }
                }
                if before.contains(x) {
                    let j = choose|j: int| 0 <= j < before.len() && before[j] == x;
                    assert(self.claims@[j] == x);
                }
                if x == (n, i, b) {
                    assert(self.claims@[before.len() as int] == x);
                }
            }
        }
    }

    /// The lowest buffer that is neither claimed nor held, adding a buffer if there is none.
    fn get_free(&mut self) -> (b: usize)
        requires
            old(self).wf(),
        ensures
            final(self).wf(),
            final(self).claims@ == old(self).claims@,
            final(self).held@.len() >= old(self).held@.len(),
            final(self).is_free(b as int),
            forall|x: int| 0 <= x < old(self).held@.len() ==> final(self).held@[x] == old(self).held@[x],
            b < old(self).held@.len() ==> final(self).held@.len() == old(self).held@.len(),
            b >= old(self).held@.len() ==> b == old(self).held@.len() && final(self).held@.len() == old(self).held@.len() + 1,
            forall|c: usize| c < b ==> old(self).held@[c as int] || #[trigger] holds_claim(old(self).claims@, c),
    {
        let mut b: usize = 0;
        while b < self.held.len()
            invariant
                *self == *old(self),
                self.wf(),
                b <= self.held@.len(),
                forall|c: usize| c < b ==> old(self).held@[c as int] || #[trigger] holds_claim(old(self).claims@, c),
            decreases self.held@.len() - b,
        {
            if !self.held[b] {
                let mut k: usize = 0;
                let mut claimed = false;
                while k < self.claims.len()
                    invariant
                        *self == *old(self),
                        self.wf(),
                        b < self.held@.len(),
                        k <= self.claims@.len(),
                        !claimed ==> forall|j: int| 0 <= j < k ==> (#[trigger] self.claims@[j]).2 != b,
                        claimed ==> holds_claim(self.claims@, b),
                    decreases self.claims@.len() - k,
                {
                    if self.claims[k].2 == b {
                        claimed = true;
                        assert(self.claims@[k as int].2 == b);
                    }
                    k = k + 1;
                }
                if !claimed {
                    return b;
                }
            }
            b = b + 1;
        }
        self.held.push(false);
        proof {
            assert forall|j: int| 0 <= j < self.claims@.len() implies (#[trigger] self.claims@[j]).2 != b as int by {
                assert(old(self).claims@[j].2 < old(self).held@.len());
            }
        }
        b
    }
}

} // verus!
