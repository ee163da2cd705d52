//! A fixed-length delay line.
use vstd::prelude::*;

verus! {

/// A delay line of a fixed, non-zero number of samples: each sample that goes in comes out
/// that many samples later.
#[derive(Clone, Debug)]
pub struct Delay<T> {
    buf: Vec<T>,
    current: usize,
}

/// One sample through a delay line with contents `buf` and position `cur`: the stored sample at
/// `cur` comes out, the new one takes its place, and the position advances, wrapping around.
pub open spec fn delay_step<T>(buf: Seq<T>, cur: int, x: T) -> (Seq<T>, int, T) {
    (buf.update(cur, x), if cur + 1 == buf.len() { 0 } else { cur + 1 }, buf[cur])
}

/// `xs` through a delay line with contents `buf` and position `cur`: the final contents and
/// position, and what came out.
pub open spec fn delay_run<T>(buf: Seq<T>, cur: int, xs: Seq<T>) -> (Seq<T>, int, Seq<T>)
    decreases xs.len(),
{
    if xs.len() == 0 {
        (buf, cur, Seq::empty())
    } else {
        let (b, c, ys) = delay_run(buf, cur, xs.drop_last());
        let (b2, c2, y) = delay_step(b, c, xs.last());
        (b2, c2, ys.push(y))
    }
}

impl<T> Delay<T> {
    /// The stored samples.
    pub closed spec fn contents(&self) -> Seq<T> {
        self.buf@
    }

    /// The position of the next sample to come out.
    pub closed spec fn position(&self) -> int {
        self.current as int
    }

    pub closed spec fn wf(&self) -> bool {
        0 <= self.current < self.buf@.len()
    }

    /// A well-formed delay line has a position inside its contents.
    pub proof fn lemma_position(&self)
        requires
            self.wf(),
        ensures
            0 <= self.position() < self.contents().len(),
    {
    }

    /// The sample that comes out next.
    pub fn get_current(&self) -> (r: &T)
        requires
            self.wf(),
        ensures
            *r == self.contents()[self.position()],
    {
        &self.buf[self.current]
    }

    /// The number of samples of delay.
    pub fn len(&self) -> (r: usize)
        ensures
            r == self.contents().len(),
    {
        self.buf.len()
    }

    /// Puts `sample` in and takes out the sample stored `len()` samples ago.
    pub fn process_sample(&mut self, sample: T) -> (r: T)
        requires
            old(self).wf(),
        ensures
            final(self).wf(),
            (final(self).contents(), final(self).position(), r) == delay_step(old(self).contents(), old(self).position(), sample),
    {
        let mut s = sample;
        self.process_sample_in_place(&mut s);
        s
    }

    /// Swaps `sample` with the sample stored `len()` samples ago.
    pub fn process_sample_in_place(&mut self, sample: &mut T)
        requires
            old(self).wf(),
        ensures
            final(self).wf(),
            (final(self).contents(), final(self).position(), *final(sample)) == delay_step(old(self).contents(), old(self).position(), *old(sample)),
    {
        let cur = self.current;
        std::mem::swap(&mut self.buf[cur], sample);
        if cur == self.buf.len() - 1 {
            self.current = 0;
        } else {
            self.current = cur + 1;
        }
    }

    /// Runs every sample of `buf` through the delay line, in place.
    pub fn process_buffer(&mut self, buf: &mut [T])
        requires
            old(self).wf(),
        ensures
            final(self).wf(),
            (final(self).contents(), final(self).position(), final(buf)@) == delay_run(old(self).contents(), old(self).position(), old(buf)@),
    {
        let mut i: usize = 0;
        while i < buf.len()
            invariant
                self.wf(),
                i <= buf@.len(),
                buf@.len() == old(buf)@.len(),
                buf@.subrange(i as int, buf@.len() as int) == old(buf)@.subrange(i as int, old(buf)@.len() as int),
                (self.contents(), self.position(), buf@.subrange(0, i as int)) == delay_run(old(self).contents(), old(self).position(), old(buf)@.subrange(0, i as int)),
            decreases buf@.len() - i,
        {
            let ghost b0 = buf@;
            let ghost s0 = (self.contents(), self.position());
            let cur = self.current;
            std::mem::swap(&mut self.buf[cur], &mut buf[i]);
            if cur == self.buf.len() - 1 {
                self.current = 0;
            } else {
                self.current = cur + 1;
            }
            proof {
                let xs = old(buf)@.subrange(0, i + 1);
                assert(xs.drop_last() =~= old(buf)@.subrange(0, i as int));
                assert(b0[i as int] == old(buf)@[i as int]) by {
                    assert(b0.subrange(i as int, b0.len() as int)[0] == old(buf)@.subrange(i as int, old(buf)@.len() as int)[0]);
                }
                assert(xs.last() == old(buf)@[i as int]);
                assert(buf@ == b0.update(i as int, s0.0[s0.1]));
                assert(buf@.subrange(0, i + 1) =~= b0.subrange(0, i as int).push(s0.0[s0.1]));
                assert(buf@.subrange(i + 1, buf@.len() as int) =~= b0.subrange(i + 1, b0.len() as int));
                assert(b0.subrange(i + 1, b0.len() as int) =~= b0.subrange(i as int, b0.len() as int).subrange(1, b0.len() - i));
                assert(old(buf)@.subrange(i + 1, old(buf)@.len() as int) =~= old(buf)@.subrange(i as int, old(buf)@.len() as int).subrange(1, old(buf)@.len() - i));
            }
            i = i + 1;
        }
        proof {
            assert(buf@.subrange(0, i as int) =~= buf@);
            assert(old(buf)@.subrange(0, i as int) =~= old(buf)@);
        }
    }

    /// Runs every sample of `buf` through the delay line, in place.
    pub fn process(&mut self, buf: &mut [T])
        requires
            old(self).wf(),
        ensures
            final(self).wf(),
            (final(self).contents(), final(self).position(), final(buf)@) == delay_run(old(self).contents(), old(self).position(), old(buf)@),
    {
        self.process_buffer(buf)
    }
}

impl<T: Copy> Delay<T> {
    /// A delay line of `num_samples` samples, all `fill`, that starts at position 0.
    pub fn new_filled(num_samples: usize, fill: T) -> (r: Self)
        requires
            num_samples > 0,
        ensures
            r.wf(),
            r.position() == 0,
            r.contents() == Seq::new(num_samples as nat, |k: int| fill),
    {
        let mut buf: Vec<T> = Vec::new();
        let mut k: usize = 0;
        while k < num_samples
            invariant
                k <= num_samples,
                buf@ == Seq::new(k as nat, |x: int| fill),
            decreases num_samples - k,
        {
            buf.push(fill);
            proof {
                assert(buf@ =~= Seq::new((k + 1) as nat, |x: int| fill));
            }
            k = k + 1;
        }
        Delay { buf, current: 0 }
    }

    /// Sets every stored sample to `fill`, keeping the position.
    pub fn clear_to(&mut self, fill: T)
        requires
            old(self).wf(),
        ensures
            final(self).wf(),
            final(self).position() == old(self).position(),
            final(self).contents() == Seq::new(old(self).contents().len(), |k: int| fill),
    {
        let mut k: usize = 0;
        while k < self.buf.len()
            invariant
                self.wf(),
                self.current == old(self).current,
                k <= self.buf@.len(),
                self.buf@.len() == old(self).buf@.len(),
                forall|j: int| 0 <= j < k ==> self.buf@[j] == fill,
            decreases self.buf@.len() - k,
        {
            self.buf.set(k, fill);
            k = k + 1;
        }
        proof {
            assert(self.buf@ =~= Seq::new(old(self).contents().len(), |k: int| fill));
        }
    }
}

impl<T: Copy + Default> Delay<T> {
    /// A delay line of `num_samples` default samples, that starts at position 0.
    pub fn new(num_samples: usize) -> (r: Self)
        requires
            num_samples > 0,
        ensures
            r.wf(),
            r.position() == 0,
            exists|d: T| call_ensures(T::default, (), d) && r.contents() == Seq::new(num_samples as nat, |k: int| d),
    {
        let d = T::default();
        let r = Self::new_filled(num_samples, d);
        assert(call_ensures(T::default, (), d) && r.contents() == Seq::new(num_samples as nat, |k: int| d));
        r
    }

    /// Sets every stored sample to the default value, keeping the position.
    pub fn clear(&mut self)
        requires
            old(self).wf(),
        ensures
            final(self).wf(),
            final(self).position() == old(self).position(),
            exists|d: T| call_ensures(T::default, (), d) && final(self).contents() == Seq::new(old(self).contents().len(), |k: int| d),
    {
        let d = T::default();
        self.clear_to(d);
        assert(call_ensures(T::default, (), d) && self.contents() == Seq::new(old(self).contents().len(), |k: int| d));
    }
}

} // verus!
