//! Per-node instance buffers: which node has a buffer, how many records it
//! can hold, how many records are in use, and whether new data is written in
//! place or needs a fresh buffer.
use vstd::prelude::*;
use std::collections::HashMap;
use crate::scene::NodeHandle;

verus! {

broadcast use vstd::std_specs::hash::group_hash_axioms;

/// The buffer of one node, with the number of records it was created for.
pub struct InstanceBuffer<B> {
    pub buffer: B,
    pub capacity: usize,
}

/// `data` followed by copies of `filler` up to `capacity` records; `data`
/// alone when it is at least that long.
pub open spec fn padded<R>(data: Seq<R>, capacity: nat, filler: R) -> Seq<R> {
    if data.len() >= capacity {
        data
    } else {
        data + Seq::new((capacity - data.len()) as nat, |i: int| filler)
    }
}

/// Copies `data` and pads it with `filler` to at least `capacity` records, so
/// that no slot of a buffer made from it holds garbage.
pub fn pad_instance_data<R: Copy>(data: &Vec<R>, capacity: usize, filler: R) -> (r: Vec<R>)
    ensures
        r@ == padded(data@, capacity as nat, filler),
{
    let mut r: Vec<R> = Vec::new();
    let mut i: usize = 0;
    while i < data.len()
        invariant
            0 <= i <= data@.len(),
            r@ == data@.take(i as int),
        decreases data@.len() - i,
    {
        r.push(data[i]);
        proof {
            assert(data@.take(i + 1) =~= data@.take(i as int).push(data@[i as int]));
        }
        i += 1;
    }
    proof {
        assert(data@.take(i as int) =~= data@);
    }
    while r.len() < capacity
        invariant
            data@.len() <= r@.len(),
            r@.take(data@.len() as int) == data@,
            forall|k: int| data@.len() <= k < r@.len() ==> r@[k] == filler,
            data@.len() < capacity ==> r@.len() <= capacity,
            data@.len() >= capacity ==> r@.len() == data@.len(),
        decreases capacity - r@.len(),
    {
        let ghost prev = r@;
        r.push(filler);
        proof {
            assert(r@.take(data@.len() as int) =~= prev.take(data@.len() as int));
        }
    }
    proof {
        if data@.len() < capacity {
            let tail = Seq::new((capacity - data@.len()) as nat, |i: int| filler);
            assert(r@ =~= data@ + tail) by {
                assert forall|k: int| 0 <= k < r@.len() implies r@[k] == (data@ + tail)[k] by {
                    if k < data@.len() {
                        assert(r@.take(data@.len() as int)[k] == r@[k]);
                    }
                }
            }
        } else {
            assert(r@ =~= r@.take(data@.len() as int));
        }
    }
    r
}

/// Owns one buffer per node and decides, for each new list of instance
/// records, whether to rewrite the existing buffer or make a new one.
pub struct InstanceManager<B> {
    instance_buffers: HashMap<usize, InstanceBuffer<B>>,
    instance_counts: HashMap<usize, u32>,
    max_instances_per_buffer: usize,
}

/// Whether an update with `count` records needs a new buffer: when the node
/// has none yet, or when the records exceed the per-buffer maximum. A list
/// within the maximum is written into the existing buffer, which holds at
/// least that many records.
pub open spec fn needs_new_buffer(has_buffer: bool, max_per_buffer: nat, count: nat) -> bool {
    !has_buffer || count > max_per_buffer
}

/// Capacity of a buffer made for `count` records.
pub open spec fn new_capacity(max_per_buffer: nat, count: nat) -> nat {
    if count > max_per_buffer {
        count
    } else {
        max_per_buffer
    }
}

/// Capacity of a node's buffer after an update with `count` records, from
/// `capacity` before it (`None`: no buffer).
pub open spec fn capacity_after(capacity: Option<nat>, max_per_buffer: nat, count: nat) -> Option<nat> {
    if needs_new_buffer(capacity is Some, max_per_buffer, count) {
        Some(new_capacity(max_per_buffer, count))
    } else {
        capacity
    }
}

/// Number of buffers made by successive updates of one node with the record
/// counts `counts`, starting with or without a buffer.
pub open spec fn buffers_made(has_buffer: bool, max_per_buffer: nat, counts: Seq<nat>) -> nat
    decreases counts.len(),
{
    if counts.len() == 0 {
        0
    } else {
        let made: nat = if needs_new_buffer(has_buffer, max_per_buffer, counts[0]) { 1 } else { 0 };
        made + buffers_made(true, max_per_buffer, counts.drop_first())
    }
}

/// Updates of a node that has a buffer, with record counts within the
/// maximum, are all written in place: no buffer is made.
pub proof fn lemma_buffer_is_kept(max_per_buffer: nat, counts: Seq<nat>)
    requires
        forall|i: int| 0 <= i < counts.len() ==> #[trigger] counts[i] <= max_per_buffer,
    ensures
        buffers_made(true, max_per_buffer, counts) == 0,
    decreases counts.len(),
{
    if counts.len() > 0 {
        assert forall|i: int| 0 <= i < counts.drop_first().len() implies #[trigger] counts.drop_first()[i] <= max_per_buffer by {
            assert(counts.drop_first()[i] == counts[i + 1]);
        }
        lemma_buffer_is_kept(max_per_buffer, counts.drop_first());
    }
}

/// Successive updates of a node without buffer, whose record counts never
/// exceed the per-buffer maximum, make exactly one buffer: the first update
/// creates it and every later one writes in place.
pub proof fn lemma_capacity_is_sticky(max_per_buffer: nat, counts: Seq<nat>)
    requires
        counts.len() > 0,
        forall|i: int| 0 <= i < counts.len() ==> #[trigger] counts[i] <= max_per_buffer,
    ensures
        buffers_made(false, max_per_buffer, counts) == 1,
{
    assert forall|i: int| 0 <= i < counts.drop_first().len() implies #[trigger] counts.drop_first()[i] <= max_per_buffer by {
        assert(counts.drop_first()[i] == counts[i + 1]);
    }
    lemma_buffer_is_kept(max_per_buffer, counts.drop_first());
}

impl<B> InstanceManager<B> {
    /// The buffers by raw node handle.
    pub closed spec fn buffers(&self) -> Map<usize, InstanceBuffer<B>> {
        self.instance_buffers@
    }

    /// The number of records in use, by raw node handle, as set by the last
    /// update of each node.
    pub closed spec fn counts(&self) -> Map<usize, u32> {
        self.instance_counts@
    }

    /// The per-buffer maximum: every new buffer is padded to it, and lists
    /// within it are written in place.
    pub closed spec fn max_per_buffer(&self) -> nat {
        self.max_instances_per_buffer as nat
    }

    /// Every buffer holds at least the per-buffer maximum of records.
    pub open spec fn wf(&self) -> bool {
        forall|k: usize| #[trigger] self.buffers().contains_key(k) ==> self.max_per_buffer() <= self.buffers()[k].capacity
    }

    /// Capacity of the buffer of `h`, if it has one.
    pub open spec fn capacity_of(&self, h: NodeHandle) -> Option<nat> {
        if self.buffers().contains_key(h.0) {
            Some(self.buffers()[h.0].capacity as nat)
        } else {
            None
        }
    }

    /// A manager without buffers or counts, whose new buffers hold at least
    /// `max_instances_per_buffer` records.
    pub fn new(max_instances_per_buffer: usize) -> (m: Self)
        ensures
            m.wf(),
            m.buffers() == Map::<usize, InstanceBuffer<B>>::empty(),
            m.counts() == Map::<usize, u32>::empty(),
            m.max_per_buffer() == max_instances_per_buffer,
    {
        InstanceManager { instance_buffers: HashMap::new(), instance_counts: HashMap::new(), max_instances_per_buffer }
    }

    /// The buffer of `h`, if it has one.
    pub fn get_buffer(&self, h: NodeHandle) -> (r: Option<&B>)
        ensures
            r is Some <==> self.buffers().contains_key(h.0),
            r matches Some(b) ==> *b == self.buffers()[h.0].buffer,
    {
        match self.instance_buffers.get(&h.0) {
            Some(e) => Some(&e.buffer),
            None => None,
        }
    }

    /// How many records of the buffer of `h` are in use: the length given to
    /// the last update of `h`, or zero when there is none.
    pub fn get_instance_count(&self, h: NodeHandle) -> (r: u32)
        ensures
            self.counts().contains_key(h.0) ==> r == self.counts()[h.0],
            !self.counts().contains_key(h.0) ==> r == 0,
    {
        match self.instance_counts.get(&h.0) {
            Some(c) => *c,
            None => 0,
        }
    }

    /// Makes a new buffer for `h` from `data` padded with `filler` to the
    /// larger of its length and the per-buffer maximum, replacing any buffer
    /// `h` had. `create` receives the padded records and returns the buffer.
    /// Counts are left as they are.
    pub fn create_instance_buffer<R: Copy, C: FnOnce(Vec<R>) -> B>(
        &mut self,
        h: NodeHandle,
        data: &Vec<R>,
        filler: R,
        create: C,
    )
        requires
            old(self).wf(),
            forall|v: Vec<R>| #[trigger] create.requires((v,)),
        ensures
            final(self).wf(),
            final(self).max_per_buffer() == old(self).max_per_buffer(),
            final(self).counts() == old(self).counts(),
            final(self).buffers().dom() == old(self).buffers().dom().insert(h.0),
            forall|k: usize| k != h.0 && #[trigger] old(self).buffers().contains_key(k)
                ==> final(self).buffers()[k] == old(self).buffers()[k],
            final(self).buffers()[h.0].capacity == new_capacity(old(self).max_per_buffer(), data@.len()),
            exists|v: Vec<R>| v@ == padded(data@, new_capacity(old(self).max_per_buffer(), data@.len()), filler)
                && #[trigger] create.ensures((v,), final(self).buffers()[h.0].buffer),
    {
        let capacity = if data.len() > self.max_instances_per_buffer {
            data.len()
        } else {
            self.max_instances_per_buffer
        };
        let contents = pad_instance_data(data, capacity, filler);
        let ghost sent = contents;
        let buffer = create(contents);
        self.instance_buffers.insert(h.0, InstanceBuffer { buffer, capacity });
        proof {
            assert(create.ensures((sent,), self.buffers()[h.0].buffer));
            assert(self.buffers().dom() =~= old(self).buffers().dom().insert(h.0));
        }
    }

    /// Reflects a new list of instance records for `h`. When `h` has a buffer
    /// and the list is within the per-buffer maximum, `write` receives that
    /// buffer and `data`, and the buffer is kept (every buffer holds at least
    /// the maximum). Otherwise a new buffer is made as by
    /// [`Self::create_instance_buffer`], large enough for the list. Either way
    /// the count of `h` becomes the length of `data`, and other nodes are
    /// untouched.
    pub fn update_instances<R: Copy, C: FnOnce(Vec<R>) -> B, W: FnOnce(&B, &Vec<R>)>(
        &mut self,
        h: NodeHandle,
        data: &Vec<R>,
        filler: R,
        create: C,
        write: W,
    )
        requires
            old(self).wf(),
            data@.len() <= u32::MAX,
            forall|v: Vec<R>| #[trigger] create.requires((v,)),
            forall|b: &B, d: &Vec<R>| #[trigger] write.requires((b, d)),
        ensures
            final(self).wf(),
            final(self).max_per_buffer() == old(self).max_per_buffer(),
            final(self).counts() == old(self).counts().insert(h.0, data@.len() as u32),
            final(self).buffers().dom() == old(self).buffers().dom().insert(h.0),
            forall|k: usize| k != h.0 && #[trigger] old(self).buffers().contains_key(k)
                ==> final(self).buffers()[k] == old(self).buffers()[k],
            data@.len() <= final(self).buffers()[h.0].capacity,
            final(self).capacity_of(h) == capacity_after(old(self).capacity_of(h), old(self).max_per_buffer(), data@.len()),
            !needs_new_buffer(old(self).buffers().contains_key(h.0), old(self).max_per_buffer(), data@.len()) ==> {
                &&& final(self).buffers()[h.0].buffer == old(self).buffers()[h.0].buffer
                &&& final(self).buffers()[h.0].capacity == old(self).buffers()[h.0].capacity
                &&& write.ensures((&old(self).buffers()[h.0].buffer, data), ())
            },
            needs_new_buffer(old(self).buffers().contains_key(h.0), old(self).max_per_buffer(), data@.len()) ==> {
                &&& final(self).buffers()[h.0].capacity == new_capacity(old(self).max_per_buffer(), data@.len())
                &&& exists|v: Vec<R>| v@ == padded(data@, new_capacity(old(self).max_per_buffer(), data@.len()), filler)
                    && #[trigger] create.ensures((v,), final(self).buffers()[h.0].buffer)
            },
    {
        let fits = self.instance_buffers.contains_key(&h.0) && data.len() <= self.max_instances_per_buffer;
        if fits {
            let e = self.instance_buffers.remove(&h.0).unwrap();
            write(&e.buffer, data);
            self.instance_buffers.insert(h.0, e);
            proof {
                assert(self.buffers().dom() =~= old(self).buffers().dom().insert(h.0));
            }
        } else {
            self.create_instance_buffer(h, data, filler, create);
        }
        self.instance_counts.insert(h.0, data.len() as u32);
    }

    /// Drops the buffer and the count of `h`.
    pub fn remove_node(&mut self, h: NodeHandle)
        requires
            old(self).wf(),
        ensures
            final(self).wf(),
            final(self).buffers() == old(self).buffers().remove(h.0),
            final(self).counts() == old(self).counts().remove(h.0),
            final(self).max_per_buffer() == old(self).max_per_buffer(),
    {
        self.instance_buffers.remove(&h.0);
        self.instance_counts.remove(&h.0);
        proof {
            assert forall|k: usize| #[trigger] self.buffers().contains_key(k) implies
                old(self).buffers().contains_key(k) && self.buffers()[k] == old(self).buffers()[k] by {}
        }
    }
}

} // verus!
