//! Buffers handed to a node while it processes: a pool of equally long sample buffers, each
//! with a state mask, a window into them, and the dispatch of a node's port indices to them.
use vstd::prelude::*;
use crate::audio_graph::{BufferIndex, OutputBufferIndex};

verus! {

/// A pool of equally long sample buffers, each paired with a state value.
pub struct BufferList<T, U> {
    buffers: Vec<(Vec<T>, U)>,
    buf_len: usize,
}

impl<T: Copy, U: Copy> BufferList<T, U> {
    /// `num_buffers` buffers of `buf_len` samples, every sample `sample` and every state `state`.
    pub fn new_with(num_buffers: usize, buf_len: usize, sample: T, state: U) -> (r: Self)
        ensures
            r.wf(),
            r.buf_len() == buf_len,
            r.view().len() == num_buffers,
            forall|i: int| 0 <= i < num_buffers ==> (#[trigger] r.view()[i]).0 == Seq::new(buf_len as nat, |k: int| sample) && r.view()[i].1 == state,
    {
        let mut buffers: Vec<(Vec<T>, U)> = Vec::new();
        let mut i: usize = 0;
        while i < num_buffers
            invariant
                i <= num_buffers,
                buffers@.len() == i,
                forall|j: int| 0 <= j < i ==> (#[trigger] buffers@[j]).0@ == Seq::new(buf_len as nat, |k: int| sample) && buffers@[j].1 == state,
            decreases num_buffers - i,
        {
            let mut buf: Vec<T> = Vec::new();
            let mut k: usize = 0;
            while k < buf_len
                invariant
                    k <= buf_len,
                    buf@ == Seq::new(k as nat, |x: int| sample),
                decreases buf_len - k,
            {
                buf.push(sample);
                proof {
                    assert(buf@ =~= Seq::new((k + 1) as nat, |x: int| sample));
                }
                k = k + 1;
            }
            buffers.push((buf, state));
            i = i + 1;
        }
        let r = BufferList { buffers, buf_len };
        proof {
            assert forall|i: int| 0 <= i < num_buffers implies (#[trigger] r.view()[i]).0 == Seq::new(buf_len as nat, |k: int| sample) && r.view()[i].1 == state by {
                assert(r.view()[i] == (r.buffers@[i].0@, r.buffers@[i].1));
            }
        }
        r
    }
}

impl<T: Copy + Default, U: Copy + Default> BufferList<T, U> {
    /// `num_bufs` buffers of `samples_per_buf` default samples, each with the default state.
    pub fn new(samples_per_buf: usize, num_bufs: usize) -> (r: Self)
        requires
            samples_per_buf * num_bufs <= usize::MAX,
        ensures
            r.wf(),
            r.buf_len() == samples_per_buf,
            r.view().len() == num_bufs,
            exists|d: T, e: U| call_ensures(T::default, (), d) && call_ensures(U::default, (), e) && forall|i: int| 0 <= i < num_bufs ==> (#[trigger] r.view()[i]).0 == Seq::new(samples_per_buf as nat, |k: int| d) && r.view()[i].1 == e,
    {
        let d = T::default();
        let e = U::default();
        let r = Self::new_with(num_bufs, samples_per_buf, d, e);
        assert(call_ensures(T::default, (), d) && call_ensures(U::default, (), e) && forall|i: int| 0 <= i < num_bufs ==> (#[trigger] r.view()[i]).0 == Seq::new(samples_per_buf as nat, |k: int| d) && r.view()[i].1 == e);
        r
    }

    /// `num_bufs` buffers of `samples_per_buf` zero (default) samples.
    pub fn new_zeroed(samples_per_buf: usize, num_bufs: usize) -> (r: Self)
        requires
            samples_per_buf * num_bufs <= usize::MAX,
        ensures
            r.wf(),
            r.buf_len() == samples_per_buf,
            r.view().len() == num_bufs,
            exists|d: T, e: U| call_ensures(T::default, (), d) && call_ensures(U::default, (), e) && forall|i: int| 0 <= i < num_bufs ==> (#[trigger] r.view()[i]).0 == Seq::new(samples_per_buf as nat, |k: int| d) && r.view()[i].1 == e,
    {
        Self::new(samples_per_buf, num_bufs)
    }

    /// `num_bufs` buffers of `samples_per_buf` samples, whose contents the caller must write
    /// before reading.
    pub fn new_uninit(samples_per_buf: usize, num_bufs: usize) -> (r: Self)
        requires
            samples_per_buf * num_bufs <= usize::MAX,
        ensures
            r.wf(),
            r.buf_len() == samples_per_buf,
            r.view().len() == num_bufs,
    {
        Self::new(samples_per_buf, num_bufs)
    }
}

impl<T, U> BufferList<T, U> {
    /// The buffers, each with its state value.
    pub closed spec fn view(&self) -> Seq<(Seq<T>, U)> {
        self.buffers@.map_values(|b: (Vec<T>, U)| (b.0@, b.1))
    }

    /// The length of every buffer.
    pub closed spec fn buf_len(&self) -> usize {
        self.buf_len
    }

    pub closed spec fn wf(&self) -> bool {
        forall|i: int| 0 <= i < self.buffers@.len() ==> (#[trigger] self.buffers@[i]).0@.len() == self.buf_len
    }

    /// No buffer at all.
    pub fn empty() -> (r: Self)
        ensures
            r.wf(),
            r.view().len() == 0,
            r.buf_len() == 0,
    {
        let r = BufferList { buffers: Vec::new(), buf_len: 0 };
        assert(r.view() =~= Seq::<(Seq<T>, U)>::empty());
        r
    }

    /// A window of `len` samples from `start` into every buffer, if it fits in them.
    pub fn range_mut(&mut self, start: usize, len: usize) -> (r: Option<BufferListRefMut<'_, T, U>>)
        requires
            old(self).wf(),
            len > 0,
        ensures
            r.is_some() == (start + len <= old(self).buf_len()),
            r.is_some() ==> {
                let w = r.unwrap();
                &&& w.wf()
                &&& w.window_len() == len
                &&& w.view().len() == old(self).view().len()
                &&& forall|i: int| 0 <= i < w.view().len() ==> (#[trigger] w.view()[i]).0 == old(self).view()[i].0.subrange(start as int, start + len) && w.view()[i].1 == old(self).view()[i].1
            },
    {
        if start <= self.buf_len && len <= self.buf_len - start {
            proof {
                assert forall|i: int| 0 <= i < self.buffers@.len() implies (#[trigger] self.buffers@[i]).0@.len() >= start + len by {
                    assert(self.buffers@[i].0@.len() == self.buf_len);
                }
            }
            let w = BufferListRefMut { buffers: &mut self.buffers, start, len };
            Some(w)
        } else {
            None
        }
    }

    /// Buffer `index` with its state value, if there is such a buffer.
    pub fn get(&self, index: usize) -> (r: Option<(&[T], &U)>)
        ensures
            r.is_some() == (index < self.view().len()),
            r.is_some() ==> r.unwrap().0@ == self.view()[index as int].0 && *r.unwrap().1 == self.view()[index as int].1,
    {
        if index < self.buffers.len() {
            let b = &self.buffers[index];
            Some((b.0.as_slice(), &b.1))
        } else {
            None
        }
    }

    /// Buffer `index` with its state value, both writable, if there is such a buffer.
    pub fn get_mut(&mut self, index: usize) -> (r: Option<(&mut [T], &mut U)>)
        ensures
            r.is_some() == (index < old(self).view().len()),
            r.is_none() ==> *final(self) == *old(self),
            r.is_some() ==> {
                let (buf, state) = r.unwrap();
                &&& buf@ == old(self).view()[index as int].0
                &&& *state == old(self).view()[index as int].1
                &&& final(self).view() == old(self).view().update(index as int, (final(buf)@, *final(state)))
                &&& final(self).buf_len() == old(self).buf_len()
            },
    {
        if index < self.buffers.len() {
            let b = &mut self.buffers[index];
            Some((b.0.as_mut_slice(), &mut b.1))
        } else {
            None
        }
    }
}

/// A window of `len` samples starting at `start` into every buffer of a [`BufferList`].
pub struct BufferListRefMut<'a, T, U> {
    buffers: &'a mut Vec<(Vec<T>, U)>,
    start: usize,
    len: usize,
}

impl<'a, T, U> BufferListRefMut<'a, T, U> {
    /// The windowed buffers, each with its state value.
    pub closed spec fn view(&self) -> Seq<(Seq<T>, U)> {
        self.buffers@.map_values(|b: (Vec<T>, U)| (b.0@.subrange(self.start as int, self.start + self.len), b.1))
    }

    pub closed spec fn window_len(&self) -> usize {
        self.len
    }

    pub closed spec fn wf(&self) -> bool {
        &&& self.len > 0
        &&& self.start + self.len <= usize::MAX
        &&& forall|i: int| 0 <= i < self.buffers@.len() ==> (#[trigger] self.buffers@[i]).0@.len() >= self.start + self.len
    }

    /// The number of samples in the window.
    pub fn len(&self) -> (r: usize)
        ensures
            r == self.window_len(),
    {
        self.len
    }

    /// The window into buffer `index`, with its state value, if there is such a buffer.
    pub fn get(&self, index: usize) -> (r: Option<(&[T], &U)>)
        requires
            self.wf(),
        ensures
            r.is_some() == (index < self.view().len()),
            r.is_some() ==> r.unwrap().0@ == self.view()[index as int].0 && *r.unwrap().1 == self.view()[index as int].1,
    {
        if index < self.buffers.len() {
            let b = &self.buffers[index];
            assert(b.0@.len() >= self.start + self.len);
            Some((&b.0.as_slice()[self.start..self.start + self.len], &b.1))
        } else {
            None
        }
    }

    /// The window into buffer `index`, with its state value, both writable, if there is such
    /// a buffer.
    pub fn get_mut(&mut self, index: usize) -> (r: Option<(&mut [T], &mut U)>)
        requires
            old(self).wf(),
        ensures
            r.is_some() == (index < old(self).view().len()),
            r.is_some() ==> r.unwrap().0@ == old(self).view()[index as int].0 && *r.unwrap().1 == old(self).view()[index as int].1,
            r.is_none() ==> *final(self) == *old(self),
    {
        if index < self.buffers.len() {
            let start = self.start;
            let len = self.len;
            let b = &mut self.buffers[index];
            assert(b.0@.len() >= start + len);
            let ghost bv = b.0@;
            let (_, rest) = b.0.as_mut_slice().split_at_mut(start);
            let (window, _) = rest.split_at_mut(len);
            proof {
                assert(window@ =~= bv.subrange(start as int, start + len));
            }
            Some((window, &mut b.1))
        } else {
            None
        }
    }

    /// A second handle on the same window, for the time it is borrowed.
    pub fn reborrow(&mut self) -> (r: BufferListRefMut<'_, T, U>)
        requires
            old(self).wf(),
        ensures
            r.view() == old(self).view(),
            r.window_len() == old(self).window_len(),
            r.wf(),
    {
        let ghost v = self.buffers@;
        let r = BufferListRefMut { buffers: &mut *self.buffers, start: self.start, len: self.len };
        assert(r.buffers@ == v);
        r
    }
}

/// Why a port's buffer could not be handed out.
#[derive(PartialEq, Eq, Structural, Clone, Copy, Debug)]
pub enum GetBufferError {
    /// There is no port under that index.
    OOB,
    /// The port is not connected: it has no buffer.
    Empty,
}

/// The buffers of one node while it processes: its input and output ports, by index, each
/// name a buffer of the window, or [`UNUSED`](crate::graph::UNUSED).
pub struct Buffers<'a, T, U> {
    buffers: BufferListRefMut<'a, T, U>,
    inputs: &'a [usize],
    outputs: &'a [usize],
}

/// Where port `index` of a port table leads.
pub open spec fn port_lookup(ports: Seq<usize>, index: usize) -> Result<usize, GetBufferError> {
    if index >= ports.len() {
        Err(GetBufferError::OOB)
    } else if ports[index as int] == crate::graph::UNUSED {
        Err(GetBufferError::Empty)
    } else {
        Ok(ports[index as int])
    }
}

impl<'a, T, U> Buffers<'a, T, U> {
    pub closed spec fn window(&self) -> Seq<(Seq<T>, U)> {
        self.buffers.view()
    }

    pub closed spec fn input_ports(&self) -> Seq<usize> {
        self.inputs@
    }

    /// The number of samples in each buffer.
    pub closed spec fn window_len(&self) -> usize {
        self.buffers.window_len()
    }

    pub closed spec fn output_ports(&self) -> Seq<usize> {
        self.outputs@
    }

    pub closed spec fn wf(&self) -> bool {
        &&& self.buffers.wf()
        &&& forall|i: int| 0 <= i < self.inputs@.len() && self.inputs@[i] != crate::graph::UNUSED ==> #[trigger] self.inputs@[i] < self.buffers.view().len()
        &&& forall|i: int| 0 <= i < self.outputs@.len() && self.outputs@[i] != crate::graph::UNUSED ==> #[trigger] self.outputs@[i] < self.buffers.view().len()
    }

    /// Hands `buffers` to a node whose input and output ports lead to the buffers named by
    /// `inputs` and `outputs`; `None` if one of them names no buffer of the window.
    pub fn new(buffers: BufferListRefMut<'a, T, U>, inputs: &'a [usize], outputs: &'a [usize]) -> (r: Option<Self>)
        requires
            buffers.wf(),
        ensures
            r.is_some() == ((forall|i: int| 0 <= i < inputs@.len() && inputs@[i] != crate::graph::UNUSED ==> #[trigger] inputs@[i] < buffers.view().len())
                && (forall|i: int| 0 <= i < outputs@.len() && outputs@[i] != crate::graph::UNUSED ==> #[trigger] outputs@[i] < buffers.view().len())),
            r.is_some() ==> r.unwrap().wf() && r.unwrap().window() == buffers.view() && r.unwrap().input_ports() == inputs@ && r.unwrap().output_ports() == outputs@,
    {
        let n = buffers.buffers.len();
        let mut i: usize = 0;
        while i < inputs.len()
            invariant
                n == buffers.view().len(),
                i <= inputs@.len(),
                forall|j: int| 0 <= j < i && inputs@[j] != crate::graph::UNUSED ==> #[trigger] inputs@[j] < n,
            decreases inputs@.len() - i,
        {
            if inputs[i] != crate::graph::UNUSED && inputs[i] >= n {
                return None;
            }
            i = i + 1;
        }
        let mut i: usize = 0;
        while i < outputs.len()
            invariant
                n == buffers.view().len(),
                i <= outputs@.len(),
                forall|j: int| 0 <= j < i && outputs@[j] != crate::graph::UNUSED ==> #[trigger] outputs@[j] < n,
            decreases outputs@.len() - i,
        {
            if outputs[i] != crate::graph::UNUSED && outputs[i] >= n {
                return None;
            }
            i = i + 1;
        }
        Some(Buffers { buffers, inputs, outputs })
    }

    /// The number of samples in each buffer.
    pub fn len(&self) -> (r: usize)
        ensures
            r == self.window_len(),
    {
        self.buffers.len()
    }

    fn lookup(ports: &[usize], index: usize) -> (r: Result<usize, GetBufferError>)
        ensures
            r == port_lookup(ports@, index),
    {
        if index >= ports.len() {
            Err(GetBufferError::OOB)
        } else if ports[index] == crate::graph::UNUSED {
            Err(GetBufferError::Empty)
        } else {
            Ok(ports[index])
        }
    }

    /// The buffer and state value that input port `index` reads.
    pub fn input(&mut self, index: usize) -> (r: Result<(&[T], &U), GetBufferError>)
        requires
            old(self).wf(),
        ensures
            r is Err <==> port_lookup(old(self).input_ports(), index) is Err,
            r is Err ==> r->Err_0 == port_lookup(old(self).input_ports(), index)->Err_0,
            r is Ok ==> {
                let b = port_lookup(old(self).input_ports(), index)->Ok_0;
                r->Ok_0.0@ == old(self).window()[b as int].0 && *r->Ok_0.1 == old(self).window()[b as int].1
            },
    {
        self.input_shared(index)
    }

    /// The buffer and state value that input port `index` reads.
    pub fn input_shared(&self, index: usize) -> (r: Result<(&[T], &U), GetBufferError>)
        requires
            self.wf(),
        ensures
            r is Err <==> port_lookup(self.input_ports(), index) is Err,
            r is Err ==> r->Err_0 == port_lookup(self.input_ports(), index)->Err_0,
            r is Ok ==> {
                let b = port_lookup(self.input_ports(), index)->Ok_0;
                r->Ok_0.0@ == self.window()[b as int].0 && *r->Ok_0.1 == self.window()[b as int].1
            },
    {
        match Self::lookup(self.inputs, index) {
            Err(e) => Err(e),
            Ok(b) => {
                match self.buffers.get(b) {
                    Some(pair) => Ok(pair),
                    None => Err(GetBufferError::OOB),
                }
            },
        }
    }

    /// The buffer that output port `index` writes.
    pub fn output(&mut self, index: usize) -> (r: Result<&mut [T], GetBufferError>)
        requires
            old(self).wf(),
        ensures
            r is Err <==> port_lookup(old(self).output_ports(), index) is Err,
            r is Err ==> r->Err_0 == port_lookup(old(self).output_ports(), index)->Err_0,
            r is Ok ==> r->Ok_0@ == old(self).window()[port_lookup(old(self).output_ports(), index)->Ok_0 as int].0,
            r is Err ==> *final(self) == *old(self),
    {
        match Self::lookup(self.outputs, index) {
            Err(e) => Err(e),
            Ok(b) => {
                match self.buffers.get_mut(b) {
                    Some(pair) => Ok(pair.0),
                    None => Err(GetBufferError::OOB),
                }
            },
        }
    }

    /// The buffer that output port `index` writes, to read.
    pub fn output_shared(&self, index: usize) -> (r: Result<&[T], GetBufferError>)
        requires
            self.wf(),
        ensures
            r is Err <==> port_lookup(self.output_ports(), index) is Err,
            r is Err ==> r->Err_0 == port_lookup(self.output_ports(), index)->Err_0,
            r is Ok ==> r->Ok_0@ == self.window()[port_lookup(self.output_ports(), index)->Ok_0 as int].0,
    {
        match Self::lookup(self.outputs, index) {
            Err(e) => Err(e),
            Ok(b) => {
                match self.buffers.get(b) {
                    Some(pair) => Ok(pair.0),
                    None => Err(GetBufferError::OOB),
                }
            },
        }
    }
}

/// A value that can be read and never written.
pub struct ReadOnly<T>(T);

impl<T> ReadOnly<T> {
    pub closed spec fn view(&self) -> T {
        self.0
    }

    pub fn from_cell(cell: T) -> (r: Self)
        ensures
            r.view() == cell,
    {
        ReadOnly(cell)
    }

    pub fn get(&self) -> (r: T)
        where
            T: Copy,
        ensures
            r == self.view(),
    {
        self.0
    }
}

impl<T: Copy> ReadOnly<[T; 4]> {
    /// The vector as its stereo pairs: pair `i` holds lanes `2i` and `2i+1`.
    pub fn split_stereo(&self) -> (r: ReadOnly<[[T; 2]; 2]>)
        ensures
            forall|i: int, j: int| 0 <= i < 2 && 0 <= j < 2 ==> #[trigger] r.view()[i][j] == self.view()[2 * i + j],
    {
        let v = self.0;
        ReadOnly([[v[0], v[1]], [v[2], v[3]]])
    }
}

/// How one level of nested handles maps its node's ports into its caller's buffers: each port
/// names a buffer of this level's pool (`Local`), or a port of the enclosing level
/// (`SuperInput`, `Master`), or nothing.
pub struct PortMap {
    pub inputs: Vec<Option<BufferIndex>>,
    pub outputs: Vec<Option<OutputBufferIndex>>,
}

/// An input or an output port, by index.
#[derive(PartialEq, Eq, Structural, Clone, Copy, Debug)]
pub enum PortRef {
    Input(usize),
    Output(usize),
}

/// The port maps of a chain of nested levels, outermost first.
pub open spec fn chain_view(chain: Seq<PortMap>) -> Seq<(Seq<Option<BufferIndex>>, Seq<Option<OutputBufferIndex>>)> {
    chain.map_values(|m: PortMap| (m.inputs@, m.outputs@))
}

/// Where `port` of level `level` leads: a (level, buffer) of some level's pool, going up through
/// the enclosing levels for ports that name their caller's ports. A port past the end of its map
/// is `OOB`, as is a reference above the outermost level; an unconnected port is `Empty`.
pub open spec fn resolve(chain: Seq<(Seq<Option<BufferIndex>>, Seq<Option<OutputBufferIndex>>)>, level: int, port: PortRef) -> Result<(int, usize), GetBufferError>
    decreases level,
{
    if level < 0 || level >= chain.len() {
        Err(GetBufferError::OOB)
    } else {
        let next: Option<PortRef> = match port {
            PortRef::Input(k) => if k >= chain[level].0.len() {
                None
            } else {
                match chain[level].0[k as int] {
                    Some(BufferIndex::SuperInput(i)) => Some(PortRef::Input(i)),
                    Some(BufferIndex::Output(OutputBufferIndex::Master(i))) => Some(PortRef::Output(i)),
                    _ => None,
                }
            },
            PortRef::Output(k) => if k >= chain[level].1.len() {
                None
            } else {
                match chain[level].1[k as int] {
                    Some(OutputBufferIndex::Master(i)) => Some(PortRef::Output(i)),
                    _ => None,
                }
            },
        };
        match next {
            Some(up) => if level == 0 { Err(GetBufferError::OOB) } else { resolve(chain, level - 1, up) },
            None => match port {
                PortRef::Input(k) => if k >= chain[level].0.len() {
                    Err(GetBufferError::OOB)
                } else {
                    match chain[level].0[k as int] {
                        Some(BufferIndex::Output(OutputBufferIndex::Local(i))) => Ok((level, i)),
                        _ => Err(GetBufferError::Empty),
                    }
                },
                PortRef::Output(k) => if k >= chain[level].1.len() {
                    Err(GetBufferError::OOB)
                } else {
                    match chain[level].1[k as int] {
                        Some(OutputBufferIndex::Local(i)) => Ok((level, i)),
                        _ => Err(GetBufferError::Empty),
                    }
                },
            },
        }
    }
}

/// One step of the lookup at level `level`: the buffer of this level's pool that `port` names,
/// or the port of the enclosing level it names, or why it names neither.
fn lookup_level(map: &PortMap, port: PortRef) -> (r: Result<Result<usize, PortRef>, GetBufferError>)
    ensures
        match port {
            PortRef::Input(k) => if k >= map.inputs@.len() {
                r == Err::<Result<usize, PortRef>, GetBufferError>(GetBufferError::OOB)
            } else {
                match map.inputs@[k as int] {
                    Some(BufferIndex::SuperInput(i)) => r == Ok::<Result<usize, PortRef>, GetBufferError>(Err(PortRef::Input(i))),
                    Some(BufferIndex::Output(OutputBufferIndex::Master(i))) => r == Ok::<Result<usize, PortRef>, GetBufferError>(Err(PortRef::Output(i))),
                    Some(BufferIndex::Output(OutputBufferIndex::Local(i))) => r == Ok::<Result<usize, PortRef>, GetBufferError>(Ok(i)),
                    None => r == Err::<Result<usize, PortRef>, GetBufferError>(GetBufferError::Empty),
                }
            },
            PortRef::Output(k) => if k >= map.outputs@.len() {
                r == Err::<Result<usize, PortRef>, GetBufferError>(GetBufferError::OOB)
            } else {
                match map.outputs@[k as int] {
                    Some(OutputBufferIndex::Master(i)) => r == Ok::<Result<usize, PortRef>, GetBufferError>(Err(PortRef::Output(i))),
                    Some(OutputBufferIndex::Local(i)) => r == Ok::<Result<usize, PortRef>, GetBufferError>(Ok(i)),
                    None => r == Err::<Result<usize, PortRef>, GetBufferError>(GetBufferError::Empty),
                }
            },
        },
{
    match port {
        PortRef::Input(k) => {
            if k >= map.inputs.len() {
                Err(GetBufferError::OOB)
            } else {
                match map.inputs[k] {
                    Some(BufferIndex::SuperInput(i)) => Ok(Err(PortRef::Input(i))),
                    Some(BufferIndex::Output(OutputBufferIndex::Master(i))) => Ok(Err(PortRef::Output(i))),
                    Some(BufferIndex::Output(OutputBufferIndex::Local(i))) => Ok(Ok(i)),
                    None => Err(GetBufferError::Empty),
                }
            }
        },
        PortRef::Output(k) => {
            if k >= map.outputs.len() {
                Err(GetBufferError::OOB)
            } else {
                match map.outputs[k] {
                    Some(OutputBufferIndex::Master(i)) => Ok(Err(PortRef::Output(i))),
                    Some(OutputBufferIndex::Local(i)) => Ok(Ok(i)),
                    None => Err(GetBufferError::Empty),
                }
            }
        },
    }
}

/// Finds the buffer that `port` of the innermost level of `chain` (outermost first) leads to:
/// the level whose pool holds it, and its index in that pool.
pub fn resolve_port(chain: &Vec<PortMap>, port: PortRef) -> (r: Result<(usize, usize), GetBufferError>)
    ensures
        match r {
            Ok((level, b)) => resolve(chain_view(chain@), chain@.len() - 1, port) == Ok::<(int, usize), GetBufferError>((level as int, b)),
            Err(e) => resolve(chain_view(chain@), chain@.len() - 1, port) == Err::<(int, usize), GetBufferError>(e),
        },
{
    if chain.len() == 0 {
        return Err(GetBufferError::OOB);
    }
    let mut level: usize = chain.len() - 1;
    let mut cur = port;
    loop
        invariant
            level < chain@.len(),
            resolve(chain_view(chain@), chain@.len() - 1, port) == resolve(chain_view(chain@), level as int, cur),
        decreases level,
    {
        let ghost cv = chain_view(chain@);
        assert(cv[level as int] == (chain@[level as int].inputs@, chain@[level as int].outputs@));
        match lookup_level(&chain[level], cur) {
            Err(e) => {
                return Err(e);
            },
            Ok(Ok(b)) => {
                return Ok((level, b));
            },
            Ok(Err(up)) => {
                if level == 0 {
                    return Err(GetBufferError::OOB);
                }
                level = level - 1;
                cur = up;
            },
        }
    }
}

} // verus!
