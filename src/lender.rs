//! Hands shared, immutable assets from one producer to many consumers without locking: each
//! consumer has its own single-producer, single-consumer ring buffer, and the producer keeps a
//! copy of every asset it lent until no consumer holds it anymore.
use vstd::prelude::*;
use std::sync::Arc;
use rtrb::{Consumer, Producer};

verus! {

#[verifier::external_type_specification]
#[verifier::external_body]
#[verifier::reject_recursive_types(T)]
pub struct ExProducer<T>(Producer<T>);

#[verifier::external_type_specification]
#[verifier::external_body]
#[verifier::reject_recursive_types(T)]
pub struct ExConsumer<T>(Consumer<T>);

/// Relies on `rtrb::RingBuffer::new`: a producer and a consumer connected through a new ring
/// buffer of `capacity` slots (it allocates them, so the capacity is kept small).
#[verifier::external_body]
fn new_channel<T>(capacity: usize) -> (Producer<Arc<T>>, Consumer<Arc<T>>)
    requires
        capacity <= 4096,
{
    rtrb::RingBuffer::new(capacity)
}

/// Relies on `rtrb::Producer::push`: stores `item` unless the ring buffer is full; returns
/// whether it did.
#[verifier::external_body]
fn push_item<T>(producer: &mut Producer<Arc<T>>, item: Arc<T>) -> bool {
    producer.push(item).is_ok()
}

/// Relies on `rtrb::Consumer::pop`: the oldest stored item, if the ring buffer holds one.
#[verifier::external_body]
fn pop_item<T>(consumer: &mut Consumer<Arc<T>>) -> Option<Arc<T>> {
    consumer.pop().ok()
}

/// Relies on `rtrb::Producer::is_abandoned`: whether the consumer has been dropped.
#[verifier::external_body]
fn consumer_gone<T>(producer: &Producer<Arc<T>>) -> bool {
    producer.is_abandoned()
}

/// Relies on `Arc::strong_count`: how many `Arc`s share the asset, at least the one given.
#[verifier::external_body]
fn strong_count<T>(asset: &Arc<T>) -> (r: usize)
    ensures
        r >= 1,
{
    Arc::strong_count(asset)
}

/// Relies on `Arc::clone`: another `Arc` to the same asset.
#[verifier::external_body]
fn share<T>(asset: &Arc<T>) -> (r: Arc<T>)
    ensures
        r == *asset,
{
    Arc::clone(asset)
}

/// The number of assets a consumer's ring buffer holds at most.
pub const LENDEE_CAPACITY: usize = 256;

/// The items of `s` whose flag in `keep` is set, in order.
pub open spec fn filter_flags<X>(s: Seq<X>, keep: Seq<bool>) -> Seq<X>
    decreases s.len(),
{
    if s.len() == 0 {
        Seq::empty()
    } else {
        let r = filter_flags(s.drop_last(), keep.drop_last());
        if keep.last() {
            r.push(s.last())
        } else {
            r
        }
    }
}

/// How many of `flags` are set.
pub open spec fn count_set(flags: Seq<bool>) -> nat
    decreases flags.len(),
{
    if flags.len() == 0 {
        0
    } else {
        count_set(flags.drop_last()) + if flags.last() { 1nat } else { 0nat }
    }
}

proof fn lemma_filter_flags_len<X, Y>(a: Seq<X>, b: Seq<Y>, keep: Seq<bool>)
    requires
        a.len() == b.len(),
    ensures
        filter_flags(a, keep).len() == filter_flags(b, keep).len(),
    decreases a.len(),
{
    if a.len() > 0 {
        lemma_filter_flags_len(a.drop_last(), b.drop_last(), keep.drop_last());
    }
}

/// Keeps the items of `items` whose flag in `keep` is set, in order.
pub fn retain_flagged<X>(items: Vec<X>, keep: &Vec<bool>) -> (r: Vec<X>)
    requires
        keep@.len() == items@.len(),
    ensures
        r@ == filter_flags(items@, keep@),
{
    let ghost orig = items@;
    let n = items.len();
    let mut items = items;
    let mut out: Vec<X> = Vec::new();
    let mut idx: usize = 0;
    while items.len() > 0
        invariant
            idx <= orig.len(),
            orig.len() == n,
            keep@.len() == orig.len(),
            items@ == orig.subrange(idx as int, orig.len() as int),
            out@ == filter_flags(orig.subrange(0, idx as int), keep@.subrange(0, idx as int)),
        decreases items@.len(),
    {
        assert(idx < orig.len());
        let x = items.remove(0);
        proof {
            assert(orig.subrange(0, idx + 1).drop_last() =~= orig.subrange(0, idx as int));
            assert(keep@.subrange(0, idx + 1).drop_last() =~= keep@.subrange(0, idx as int));
            assert(x == orig[idx as int]);
        }
        if keep[idx] {
            out.push(x);
        }
        proof {
            assert(items@ =~= orig.subrange(idx + 1, orig.len() as int));
        }
        idx = idx + 1;
    }
    proof {
        assert(orig.subrange(0, idx as int) =~= orig);
        assert(keep@.subrange(0, idx as int) =~= keep@);
    }
    out
}

/// Which kept assets stay, by their observed strong counts: those some consumer still holds.
pub open spec fn keep_rule(counts: Seq<usize>) -> Seq<bool> {
    counts.map_values(|c: usize| c != 1)
}

/// Which consumers stay, by whether each was observed gone.
pub open spec fn live_rule(gone: Seq<bool>) -> Seq<bool> {
    gone.map_values(|g: bool| !g)
}

/// For each strong count, whether its asset stays: iff the count is not 1.
pub fn keep_flags(counts: &Vec<usize>) -> (keep: Vec<bool>)
    ensures
        keep@ == keep_rule(counts@),
{
    let mut keep: Vec<bool> = Vec::new();
    let mut i: usize = 0;
    while i < counts.len()
        invariant
            i <= counts@.len(),
            keep@ == keep_rule(counts@.subrange(0, i as int)),
        decreases counts@.len() - i,
    {
        keep.push(counts[i] != 1);
        proof {
            assert(keep@ =~= keep_rule(counts@.subrange(0, i + 1)));
        }
        i = i + 1;
    }
    proof {
        assert(counts@.subrange(0, i as int) =~= counts@);
    }
    keep
}

/// For each consumer, whether it stays: iff it is not gone.
pub fn live_flags(gone: &Vec<bool>) -> (live: Vec<bool>)
    ensures
        live@ == live_rule(gone@),
{
    let mut live: Vec<bool> = Vec::new();
    let mut i: usize = 0;
    while i < gone.len()
        invariant
            i <= gone@.len(),
            live@ == live_rule(gone@.subrange(0, i as int)),
        decreases gone@.len() - i,
    {
        live.push(!gone[i]);
        proof {
            assert(live@ =~= live_rule(gone@.subrange(0, i + 1)));
        }
        i = i + 1;
    }
    proof {
        assert(gone@.subrange(0, i as int) =~= gone@);
    }
    live
}

/// The newest of an item received so far and one just popped: `(popped, true)` if an item was
/// popped, else `(acc, false)`.
pub fn newest<X>(acc: Option<X>, popped: Option<X>) -> (r: (Option<X>, bool))
    ensures
        popped is Some ==> r == (popped, true),
        popped is None ==> r == (acc, false),
{
    match popped {
        Some(x) => (Some(x), true),
        None => (acc, false),
    }
}

/// The producing side: lends every asset to every consumer.
#[verifier::reject_recursive_types(T)]
pub struct Lender<T> {
    ring_buffers: Vec<Producer<Arc<T>>>,
    drop_queue: Vec<Arc<T>>,
    /// For each consumer, the assets pushed into its ring buffer, in order.
    offered: Ghost<Seq<Seq<Arc<T>>>>,
}

/// One consuming side.
#[verifier::reject_recursive_types(T)]
pub struct Lendee<T> {
    ring_buffer: Consumer<Arc<T>>,
}

impl<T> Lender<T> {
    /// The number of consumers.
    pub closed spec fn lendees(&self) -> nat {
        self.ring_buffers@.len()
    }

    /// The assets lent and kept until no consumer holds them.
    pub closed spec fn kept(&self) -> Seq<Arc<T>> {
        self.drop_queue@
    }

    /// For each consumer, the assets pushed into its ring buffer, in order.
    pub closed spec fn offered(&self) -> Seq<Seq<Arc<T>>> {
        self.offered@
    }

    pub closed spec fn wf(&self) -> bool {
        self.offered@.len() == self.ring_buffers@.len()
    }

    pub fn new() -> (r: Self)
        ensures
            r.wf(),
            r.lendees() == 0,
            r.kept().len() == 0,
            r.offered().len() == 0,
    {
        Lender { ring_buffers: Vec::new(), drop_queue: Vec::new(), offered: Ghost(Seq::empty()) }
    }

    /// Offers `asset` to every consumer and keeps it. Returns how many consumers had a full
    /// ring buffer and did not get it.
    pub fn lend(&mut self, asset: Arc<T>) -> (r: usize)
        requires
            old(self).wf(),
        ensures
            final(self).wf(),
            final(self).kept() == old(self).kept().push(asset),
            final(self).lendees() == old(self).lendees(),
            exists|failed: Seq<bool>| {
                &&& failed.len() == old(self).lendees()
                &&& r == count_set(failed)
                &&& forall|k: int| 0 <= k < failed.len() ==> #[trigger] final(self).offered()[k] == if failed[k] {
                    old(self).offered()[k]
                } else {
                    old(self).offered()[k].push(asset)
                }
            },
    {
        let ghost mut failed: Seq<bool> = Seq::empty();
        let mut missed: usize = 0;
        let mut i: usize = 0;
        while i < self.ring_buffers.len()
            invariant
                i <= self.ring_buffers@.len(),
                self.ring_buffers@.len() == old(self).ring_buffers@.len(),
                self.offered@.len() == old(self).offered@.len(),
                old(self).offered@.len() == old(self).ring_buffers@.len(),
                self.drop_queue@ == old(self).drop_queue@,
                failed.len() == i,
                missed == count_set(failed),
                missed <= i,
                forall|k: int| 0 <= k < i ==> #[trigger] self.offered@[k] == if failed[k] {
                    old(self).offered@[k]
                } else {
                    old(self).offered@[k].push(asset)
                },
                forall|k: int| i <= k < self.offered@.len() ==> #[trigger] self.offered@[k] == old(self).offered@[k],
            decreases self.ring_buffers@.len() - i,
        {
            let copy = share(&asset);
            let pushed = push_item(&mut self.ring_buffers[i], copy);
            proof {
                assert(failed.push(!pushed).drop_last() =~= failed);
                if pushed {
                    self.offered@ = self.offered@.update(i as int, self.offered@[i as int].push(asset));
                }
                failed = failed.push(!pushed);
            }
            if !pushed {
                missed = missed + 1;
            }
            i = i + 1;
        }
        self.drop_queue.push(asset);
        proof {
            assert(failed.len() == old(self).lendees());
        }
        missed
    }

    /// Drops the kept assets that no consumer holds anymore, and forgets the consumers that
    /// have been dropped, both in order: given the strong counts `counts` observed for the kept
    /// assets and the flags `gone` observed for the consumers, an asset stays iff its count is
    /// not 1 ([`keep_flags`]) and a consumer stays iff it is not gone ([`live_flags`]).
    pub fn cleanup(&mut self)
        requires
            old(self).wf(),
        ensures
            final(self).wf(),
            exists|counts: Seq<usize>| {
                &&& counts.len() == old(self).kept().len()
                &&& forall|i: int| 0 <= i < counts.len() ==> #[trigger] counts[i] >= 1
                &&& final(self).kept() == filter_flags(old(self).kept(), keep_rule(counts))
            },
            exists|gone: Seq<bool>| {
                &&& gone.len() == old(self).lendees()
                &&& final(self).lendees() == filter_flags(old(self).offered(), live_rule(gone)).len()
                &&& final(self).offered() == filter_flags(old(self).offered(), live_rule(gone))
            },
    {
        let mut counts: Vec<usize> = Vec::new();
        let mut i: usize = 0;
        while i < self.drop_queue.len()
            invariant
                i <= self.drop_queue@.len(),
                counts@.len() == i,
                forall|j: int| 0 <= j < i ==> #[trigger] counts@[j] >= 1,
            decreases self.drop_queue@.len() - i,
        {
            counts.push(strong_count(&self.drop_queue[i]));
            i = i + 1;
        }
        let keep = keep_flags(&counts);
        let mut items: Vec<Arc<T>> = Vec::new();
        std::mem::swap(&mut items, &mut self.drop_queue);
        self.drop_queue = retain_flagged(items, &keep);
        let mut gone: Vec<bool> = Vec::new();
        let mut i: usize = 0;
        while i < self.ring_buffers.len()
            invariant
                i <= self.ring_buffers@.len(),
                gone@.len() == i,
            decreases self.ring_buffers@.len() - i,
        {
            gone.push(consumer_gone(&self.ring_buffers[i]));
            i = i + 1;
        }
        let live = live_flags(&gone);
        let ghost old_ring = self.ring_buffers@;
        let mut producers: Vec<Producer<Arc<T>>> = Vec::new();
        std::mem::swap(&mut producers, &mut self.ring_buffers);
        self.ring_buffers = retain_flagged(producers, &live);
        proof {
            lemma_filter_flags_len(old_ring, self.offered@, live@);
            self.offered@ = filter_flags(self.offered@, live@);
            assert(counts@.len() == old(self).kept().len() && self.kept() == filter_flags(old(self).kept(), keep_rule(counts@)));
            assert(gone@.len() == old(self).lendees() && self.offered() == filter_flags(old(self).offered(), live_rule(gone@)));
        }
    }

    /// Adds a consumer with its own ring buffer of `LENDEE_CAPACITY` slots, offered nothing yet.
    pub fn create_lendee(&mut self) -> (r: Lendee<T>)
        requires
            old(self).wf(),
        ensures
            final(self).wf(),
            final(self).lendees() == old(self).lendees() + 1,
            final(self).kept() == old(self).kept(),
            final(self).offered() == old(self).offered().push(Seq::empty()),
    {
        let (producer, consumer) = new_channel(LENDEE_CAPACITY);
        self.ring_buffers.push(producer);
        proof {
            self.offered@ = self.offered@.push(Seq::empty());
        }
        Lendee { ring_buffer: consumer }
    }
}

impl<T> Lendee<T> {
    /// The oldest asset lent to this consumer and not yet received, if any.
    pub fn recv_next(&mut self) -> Option<Arc<T>> {
        pop_item(&mut self.ring_buffer)
    }

    /// Receives every waiting asset and returns the newest, if any.
    pub fn recv_latest(&mut self) -> Option<Arc<T>> {
        let mut output: Option<Arc<T>> = None;
        let mut k: usize = 0;
        while k < usize::MAX
            decreases usize::MAX - k,
        {
            let (newer, more) = newest(output, self.recv_next());
            output = newer;
            if !more {
                return output;
            }
            k = k + 1;
        }
        output
    }
}

} // verus!
