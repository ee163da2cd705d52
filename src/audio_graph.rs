//! Port-indexed graph vocabulary: node and port indices, buffer indices, the three kinds of
//! scheduled task, and the errors of editing edges.
use vstd::prelude::*;

verus! {

/// A node of a graph: the graph's own master ports, or a processor by index.
#[derive(PartialEq, Eq, Structural, Clone, Copy, Debug, Hash)]
pub enum NodeIndex {
    Global,
    Processor(usize),
}

impl NodeIndex {
    pub fn is_global(&self) -> (r: bool)
        ensures
            r == (*self == NodeIndex::Global),
    {
        match self {
            NodeIndex::Global => true,
            NodeIndex::Processor(_) => false,
        }
    }
}

/// Port `index` of node `node_index`.
#[derive(PartialEq, Eq, Structural, Clone, Copy, Debug, Hash)]
pub struct Port {
    pub index: usize,
    pub node_index: NodeIndex,
}

impl Port {
    pub fn new(index: usize, node_index: NodeIndex) -> (r: Self)
        ensures
            r.index == index,
            r.node_index == node_index,
    {
        Port { index, node_index }
    }
}

/// A buffer that an output writes: one of the schedule's own intermediate buffers, or a
/// master output buffer of the enclosing context.
#[derive(PartialEq, Eq, Structural, Clone, Copy, Debug, Hash)]
pub enum OutputBufferIndex {
    Local(usize),
    Master(usize),
}

/// A buffer that an input reads: a master input of the enclosing context, or a buffer that
/// some output writes.
#[derive(PartialEq, Eq, Structural, Clone, Copy, Debug, Hash)]
pub enum BufferIndex {
    SuperInput(usize),
    Output(OutputBufferIndex),
}

/// One step of a schedule over port-indexed nodes.
#[derive(Debug, PartialEq, Eq, Clone, Hash)]
pub enum ProcessTask {
    /// Write the sum of two buffers into a third.
    Sum { left_input: BufferIndex, right_input: BufferIndex, output: OutputBufferIndex },
    /// Copy one buffer into several master outputs.
    CopyToMasterOutput { input: BufferIndex, outputs: Vec<usize> },
    /// Run processor `index`; each port names its buffer, or `None` when unconnected.
    Process { index: usize, inputs: Vec<Option<BufferIndex>>, outputs: Vec<Option<OutputBufferIndex>> },
}

/// How many of the replaced buffers have a lower index than `idx`.
pub open spec fn count_below(replaced: Seq<(usize, usize)>, idx: usize) -> nat
    decreases replaced.len(),
{
    if replaced.len() == 0 {
        0
    } else {
        count_below(replaced.drop_last(), idx) + if replaced.last().0 < idx { 1nat } else { 0nat }
    }
}

/// The master output that replaces local buffer `idx`, if any (the first entry for it).
pub open spec fn replacement(replaced: Seq<(usize, usize)>, idx: usize) -> Option<usize>
    decreases replaced.len(),
{
    if replaced.len() == 0 {
        None
    } else {
        match replacement(replaced.drop_last(), idx) {
            Some(m) => Some(m),
            None => if replaced.last().0 == idx { Some(replaced.last().1) } else { None },
        }
    }
}

/// An output buffer after local buffers listed in `replaced` became master outputs: a replaced
/// buffer becomes its master output, and every other local buffer moves down by the number of
/// replaced buffers below it.
pub open spec fn rewrite_output(b: OutputBufferIndex, replaced: Seq<(usize, usize)>) -> OutputBufferIndex {
    match b {
        OutputBufferIndex::Local(idx) => match replacement(replaced, idx) {
            Some(m) => OutputBufferIndex::Master(m),
            None => OutputBufferIndex::Local((idx - count_below(replaced, idx)) as usize),
        },
        OutputBufferIndex::Master(m) => b,
    }
}

pub open spec fn rewrite_input(b: BufferIndex, replaced: Seq<(usize, usize)>) -> BufferIndex {
    match b {
        BufferIndex::Output(o) => BufferIndex::Output(rewrite_output(o, replaced)),
        BufferIndex::SuperInput(_) => b,
    }
}

/// How many entries of `replaced` have key `v`.
pub open spec fn count_key(replaced: Seq<(usize, usize)>, v: usize) -> nat
    decreases replaced.len(),
{
    if replaced.len() == 0 {
        0
    } else {
        count_key(replaced.drop_last(), v) + if replaced.last().0 == v { 1nat } else { 0nat }
    }
}

/// The keys of `replaced` are pairwise different.
pub open spec fn distinct_keys(replaced: Seq<(usize, usize)>) -> bool {
    forall|a: int, b: int| 0 <= a < b < replaced.len() ==> (#[trigger] replaced[a]).0 != (#[trigger] replaced[b]).0
}

proof fn lemma_count_key_at_most_one(replaced: Seq<(usize, usize)>, v: usize)
    requires
        distinct_keys(replaced),
    ensures
        count_key(replaced, v) <= 1,
        (forall|a: int| 0 <= a < replaced.len() ==> (#[trigger] replaced[a]).0 != v) ==> count_key(replaced, v) == 0,
    decreases replaced.len(),
{
    if replaced.len() > 0 {
        let init = replaced.drop_last();
        assert forall|a: int, b: int| 0 <= a < b < init.len() implies (#[trigger] init[a]).0 != (#[trigger] init[b]).0 by {
            assert(init[a] == replaced[a] && init[b] == replaced[b]);
        }
        lemma_count_key_at_most_one(init, v);
        if replaced.last().0 == v {
            assert forall|a: int| 0 <= a < init.len() implies (#[trigger] init[a]).0 != v by {
                assert(init[a] == replaced[a]);
                assert(replaced[a].0 != replaced[replaced.len() - 1].0);
            }
        }
        if forall|a: int| 0 <= a < replaced.len() ==> (#[trigger] replaced[a]).0 != v {
            assert forall|a: int| 0 <= a < init.len() implies (#[trigger] init[a]).0 != v by {
                assert(init[a] == replaced[a]);
            }
            assert(replaced[replaced.len() - 1].0 != v);
        }
    }
}

proof fn lemma_count_below_step(replaced: Seq<(usize, usize)>, i: usize)
    requires
        i > 0,
    ensures
        count_below(replaced, i) == count_below(replaced, (i - 1) as usize) + count_key(replaced, (i - 1) as usize),
    decreases replaced.len(),
{
    if replaced.len() > 0 {
        lemma_count_below_step(replaced.drop_last(), i);
    }
}

/// Distinct keys leave no index with more replaced buffers below it than its own value.
pub proof fn lemma_distinct_keys_count_below(replaced: Seq<(usize, usize)>, i: usize)
    requires
        distinct_keys(replaced),
    ensures
        count_below(replaced, i) <= i,
    decreases i,
{
    if i == 0 {
        lemma_count_below_zero(replaced);
    } else {
        lemma_distinct_keys_count_below(replaced, (i - 1) as usize);
        lemma_count_below_step(replaced, i);
        lemma_count_key_at_most_one(replaced, (i - 1) as usize);
    }
}

proof fn lemma_count_below_zero(replaced: Seq<(usize, usize)>)
    ensures
        count_below(replaced, 0) == 0,
    decreases replaced.len(),
{
    if replaced.len() > 0 {
        lemma_count_below_zero(replaced.drop_last());
    }
}

/// With every key below `n`, all entries count below `n`.
pub(crate) proof fn lemma_count_below_all(replaced: Seq<(usize, usize)>, n: usize)
    requires
        forall|a: int| 0 <= a < replaced.len() ==> (#[trigger] replaced[a]).0 < n,
    ensures
        count_below(replaced, n) == replaced.len(),
    decreases replaced.len(),
{
    if replaced.len() > 0 {
        let init = replaced.drop_last();
        assert forall|a: int| 0 <= a < init.len() implies (#[trigger] init[a]).0 < n by {
            assert(init[a] == replaced[a]);
        }
        lemma_count_below_all(init, n);
        assert(replaced[replaced.len() - 1].0 < n);
    }
}

proof fn lemma_replacement_none(replaced: Seq<(usize, usize)>, v: usize)
    requires
        replacement(replaced, v).is_none(),
    ensures
        forall|a: int| 0 <= a < replaced.len() ==> (#[trigger] replaced[a]).0 != v,
    decreases replaced.len(),
{
    if replaced.len() > 0 {
        let init = replaced.drop_last();
        lemma_replacement_none(init, v);
        assert forall|a: int| 0 <= a < replaced.len() implies (#[trigger] replaced[a]).0 != v by {
            if a < init.len() {
                assert(init[a] == replaced[a]);
            }
        }
    }
}

proof fn lemma_count_between(replaced: Seq<(usize, usize)>, i: usize, j: usize)
    requires
        distinct_keys(replaced),
        i <= j,
    ensures
        count_below(replaced, j) <= count_below(replaced, i) + (j - i),
    decreases j - i,
{
    if j > i {
        lemma_count_between(replaced, i, (j - 1) as usize);
        lemma_count_below_step(replaced, j);
        lemma_count_key_at_most_one(replaced, (j - 1) as usize);
    }
}

/// With distinct keys all below `n`, a local buffer below `n` that is not replaced lands below
/// `n` minus the number of replaced buffers.
pub proof fn lemma_rewrite_in_bounds(replaced: Seq<(usize, usize)>, b: usize, n: usize)
    requires
        distinct_keys(replaced),
        forall|a: int| 0 <= a < replaced.len() ==> (#[trigger] replaced[a]).0 < n,
        b < n,
        replacement(replaced, b).is_none(),
    ensures
        count_below(replaced, b) <= b,
        b - count_below(replaced, b) < n - replaced.len(),
{
    lemma_distinct_keys_count_below(replaced, b);
    lemma_replacement_none(replaced, b);
    lemma_count_key_at_most_one(replaced, b);
    lemma_count_below_step(replaced, (b + 1) as usize);
    lemma_count_between(replaced, (b + 1) as usize, n);
    lemma_count_below_all(replaced, n);
}

fn rewrite_output_exec(b: OutputBufferIndex, replaced: &Vec<(usize, usize)>) -> (r: OutputBufferIndex)
    requires
        forall|i: usize| count_below(replaced@, i) <= i,
    ensures
        r == rewrite_output(b, replaced@),
{
    match b {
        OutputBufferIndex::Local(idx) => {
            let mut found: Option<usize> = None;
            let mut below: usize = 0;
            let mut k: usize = 0;
            while k < replaced.len()
                invariant
                    k <= replaced@.len(),
                    found == replacement(replaced@.subrange(0, k as int), idx),
                    below == count_below(replaced@.subrange(0, k as int), idx),
                    below <= k,
                decreases replaced@.len() - k,
            {
                proof {
                    assert(replaced@.subrange(0, k + 1).drop_last() =~= replaced@.subrange(0, k as int));
                }
                if found.is_none() && replaced[k].0 == idx {
                    found = Some(replaced[k].1);
                }
                if replaced[k].0 < idx {
                    below = below + 1;
                }
                k = k + 1;
            }
            proof {
                assert(replaced@.subrange(0, k as int) =~= replaced@);
            }
            match found {
                Some(m) => OutputBufferIndex::Master(m),
                None => {
                    assert(count_below(replaced@, idx) <= idx);
                    OutputBufferIndex::Local(idx - below)
                },
            }
        },
        OutputBufferIndex::Master(_) => b,
    }
}

fn rewrite_input_exec(b: BufferIndex, replaced: &Vec<(usize, usize)>) -> (r: BufferIndex)
    requires
        forall|i: usize| count_below(replaced@, i) <= i,
    ensures
        r == rewrite_input(b, replaced@),
{
    match b {
        BufferIndex::Output(o) => BufferIndex::Output(rewrite_output_exec(o, replaced)),
        BufferIndex::SuperInput(_) => b,
    }
}

pub open spec fn rewrite_opt_input(b: Option<BufferIndex>, replaced: Seq<(usize, usize)>) -> Option<BufferIndex> {
    match b {
        Some(x) => Some(rewrite_input(x, replaced)),
        None => None,
    }
}

pub open spec fn rewrite_opt_output(b: Option<OutputBufferIndex>, replaced: Seq<(usize, usize)>) -> Option<OutputBufferIndex> {
    match b {
        Some(x) => Some(rewrite_output(x, replaced)),
        None => None,
    }
}

/// A sum step after the local buffers listed in `replaced` became master outputs.
pub open spec fn rewrite_sum(left: BufferIndex, right: BufferIndex, output: OutputBufferIndex, replaced: Seq<(usize, usize)>) -> ProcessTask {
    ProcessTask::Sum {
        left_input: rewrite_input(left, replaced),
        right_input: rewrite_input(right, replaced),
        output: rewrite_output(output, replaced),
    }
}

impl ProcessTask {
    /// Updates the buffers of this step after the local buffers listed in `replaced` (local
    /// index, master output) became master outputs: a replaced buffer becomes its master
    /// output, and every other local buffer moves down by the number of replaced ones below it.
    /// No index may have more replaced buffers below it than its own value, which holds
    /// whenever the replaced local indices are distinct.
    pub fn replace_and_shift_output_buffers(&mut self, replaced: &Vec<(usize, usize)>)
        requires
            forall|i: usize| count_below(replaced@, i) <= i,
        ensures
            match *old(self) {
                ProcessTask::Process { index, inputs, outputs } => match *final(self) {
                    ProcessTask::Process { index: i2, inputs: in2, outputs: out2 } => {
                        &&& i2 == index
                        &&& in2@ == inputs@.map_values(|b: Option<BufferIndex>| rewrite_opt_input(b, replaced@))
                        &&& out2@ == outputs@.map_values(|b: Option<OutputBufferIndex>| rewrite_opt_output(b, replaced@))
                    },
                    _ => false,
                },
                ProcessTask::Sum { left_input, right_input, output } => *final(self) == rewrite_sum(left_input, right_input, output, replaced@),
                ProcessTask::CopyToMasterOutput { .. } => *final(self) == *old(self),
            },
    {
        match self {
            ProcessTask::Sum { left_input, right_input, output } => {
                *left_input = rewrite_input_exec(*left_input, replaced);
                *right_input = rewrite_input_exec(*right_input, replaced);
                *output = rewrite_output_exec(*output, replaced);
            },
            ProcessTask::CopyToMasterOutput { .. } => {},
            ProcessTask::Process { inputs, outputs, .. } => {
                let ghost in0 = inputs@;
                let mut k: usize = 0;
                while k < inputs.len()
                    invariant
                        forall|i: usize| count_below(replaced@, i) <= i,
                        k <= inputs@.len(),
                        inputs@.len() == in0.len(),
                        forall|j: int| 0 <= j < k ==> inputs@[j] == rewrite_opt_input(in0[j], replaced@),
                        forall|j: int| k <= j < in0.len() ==> inputs@[j] == in0[j],
                    decreases inputs@.len() - k,
                {
                    let b = inputs[k];
                    let nb = match b {
                        Some(x) => Some(rewrite_input_exec(x, replaced)),
                        None => None,
                    };
                    inputs.set(k, nb);
                    k = k + 1;
                }
                assert(inputs@ =~= in0.map_values(|b: Option<BufferIndex>| rewrite_opt_input(b, replaced@)));
                let ghost out0 = outputs@;
                let mut k: usize = 0;
                while k < outputs.len()
                    invariant
                        forall|i: usize| count_below(replaced@, i) <= i,
                        k <= outputs@.len(),
                        outputs@.len() == out0.len(),
                        forall|j: int| 0 <= j < k ==> outputs@[j] == rewrite_opt_output(out0[j], replaced@),
                        forall|j: int| k <= j < out0.len() ==> outputs@[j] == out0[j],
                    decreases outputs@.len() - k,
                {
                    let b = outputs[k];
                    let nb = match b {
                        Some(x) => Some(rewrite_output_exec(x, replaced)),
                        None => None,
                    };
                    outputs.set(k, nb);
                    k = k + 1;
                }
                assert(outputs@ =~= out0.map_values(|b: Option<OutputBufferIndex>| rewrite_opt_output(b, replaced@)));
            },
        }
    }
}

/// An edge was refused because it would close a cycle.
#[derive(Debug, Clone, Copy, PartialEq, Eq, Structural)]
pub struct CycleFound;

/// An edge names a port that does not exist. Each field is `None` when the node is missing,
/// and otherwise says whether the port on it exists.
#[derive(Debug, Clone, Copy, PartialEq, Eq, Structural)]
pub struct EdgeNotFound {
    pub from_port: Option<bool>,
    pub to_port: Option<bool>,
}

impl EdgeNotFound {
    /// Both nodes and both ports exist.
    pub fn is_not_error(&self) -> (r: bool)
        ensures
            r == (self.from_port == Some(true) && self.to_port == Some(true)),
    {
        match (self.from_port, self.to_port) {
            (Some(true), Some(true)) => true,
            _ => false,
        }
    }
}

/// Why an edge could not be inserted.
#[derive(Debug, Clone, Copy, PartialEq, Eq, Structural)]
pub enum EdgeInsertError {
    NotFound(EdgeNotFound),
    CycleFound(CycleFound),
}

} // verus!
