use vstd::prelude::*;

verus! {

/// `n` is a power of two: it is non-zero and has a single bit set.
pub open spec fn is_power_of_two(n: usize) -> bool {
    n != 0 && n & ((n - 1) as usize) == 0
}

proof fn lemma_power_of_two_widen(n: usize)
    by (bit_vector)
    requires
        n != 0,
        n & ((n - 1) as usize) == 0,
    ensures
        (n as u64) != 0,
        (n as u64) & (((n as u64) - 1) as u64) == 0,
{
}

proof fn lemma_mask_distinct(t: u64, i: u64, j: u64, cap: u64)
    by (bit_vector)
    requires
        cap != 0,
        cap & ((cap - 1) as u64) == 0,
        i < j,
        j < cap,
    ensures
        (t.wrapping_add(i) & ((cap - 1) as u64)) != (t.wrapping_add(j) & ((cap - 1) as u64)),
{
}

proof fn lemma_mask_bound(x: u64, cap: u64)
    by (bit_vector)
    requires
        cap != 0,
    ensures
        x & ((cap - 1) as u64) < cap,
{
}

proof fn lemma_head_position(t: u64, h: u64)
    by (bit_vector)
    ensures
        t.wrapping_add(h.wrapping_sub(t)) == h,
        t.wrapping_add(0) == t,
{
}

proof fn lemma_count_after_push(t: u64, h: u64)
    by (bit_vector)
    requires
        h.wrapping_sub(t) < u64::MAX,
    ensures
        h.wrapping_add(1).wrapping_sub(t) == h.wrapping_sub(t) + 1,
{
}

proof fn lemma_count_after_pop(t: u64, h: u64)
    by (bit_vector)
    requires
        h.wrapping_sub(t) >= 1,
    ensures
        h.wrapping_sub(t.wrapping_add(1)) == h.wrapping_sub(t) - 1,
{
}

proof fn lemma_shift(t: u64, j: u64)
    by (bit_vector)
    requires
        j < u64::MAX,
    ensures
        t.wrapping_add(1).wrapping_add(j) == t.wrapping_add((j + 1) as u64),
{
}

/// The queue held by a ring of capacity `capacity` after `item` is offered
/// to it while it holds `queue`: the item goes to the back unless the ring is
/// full.
pub open spec fn queue_after_push<T>(queue: Seq<T>, capacity: nat, item: T) -> Seq<T> {
    if queue.len() < capacity {
        queue.push(item)
    } else {
        queue
    }
}

/// What a pop takes from a ring that holds `queue`: the oldest command, if any.
pub open spec fn popped<T>(queue: Seq<T>) -> Option<T> {
    if queue.len() == 0 {
        None
    } else {
        Some(queue[0])
    }
}

/// The queue held by a ring after a pop while it held `queue`.
pub open spec fn queue_after_pop<T>(queue: Seq<T>) -> Seq<T> {
    if queue.len() == 0 {
        queue
    } else {
        queue.drop_first()
    }
}

/// The queue after each item of `items` is offered in turn.
pub open spec fn queue_after_pushes<T>(queue: Seq<T>, capacity: nat, items: Seq<T>) -> Seq<T>
    decreases items.len(),
{
    if items.len() == 0 {
        queue
    } else {
        queue_after_pushes(queue_after_push(queue, capacity, items[0]), capacity, items.drop_first())
    }
}

/// The commands that `n` pops in a row take from a ring holding `queue`, in
/// the order they come out.
pub open spec fn taken_by_pops<T>(queue: Seq<T>, n: nat) -> Seq<T>
    decreases n,
{
    if n == 0 {
        Seq::empty()
    } else {
        match popped(queue) {
            Some(x) => seq![x] + taken_by_pops(queue_after_pop(queue), (n - 1) as nat),
            None => taken_by_pops(queue_after_pop(queue), (n - 1) as nat),
        }
    }
}

/// Every one of `items` is accepted when offered in turn to a ring of
/// capacity `capacity` that starts out holding `queue`.
pub open spec fn pushes_accepted<T>(queue: Seq<T>, capacity: nat, items: Seq<T>) -> bool
    decreases items.len(),
{
    items.len() == 0 || (queue.len() < capacity && pushes_accepted(
        queue_after_push(queue, capacity, items[0]),
        capacity,
        items.drop_first(),
    ))
}

/// The queue left after `n` pops in a row from a ring holding `queue`.
pub open spec fn queue_after_pops<T>(queue: Seq<T>, n: nat) -> Seq<T>
    decreases n,
{
    if n == 0 {
        queue
    } else {
        queue_after_pops(queue_after_pop(queue), (n - 1) as nat)
    }
}

/// A ring is first in, first out. When `items` are pushed one after another
/// into an empty ring that has room for all of them, every push is accepted,
/// the next `items.len()` pops give back `items` in the order they were
/// pushed, and the pop after them finds the ring empty.
pub proof fn lemma_ring_fifo<T>(capacity: nat, items: Seq<T>)
    requires
        items.len() <= capacity,
    ensures
        pushes_accepted(Seq::empty(), capacity, items),
        queue_after_pushes(Seq::empty(), capacity, items) == items,
        taken_by_pops(queue_after_pushes(Seq::empty(), capacity, items), items.len()) == items,
        popped(queue_after_pops(queue_after_pushes(Seq::empty(), capacity, items), items.len()))
            is None,
{
    lemma_pushes_append(Seq::<T>::empty(), capacity, items);
    assert(Seq::<T>::empty() + items =~= items);
    lemma_pops_take_all(items);
    lemma_pops_drain(items);
}

proof fn lemma_pops_drain<T>(queue: Seq<T>)
    ensures
        queue_after_pops(queue, queue.len()).len() == 0,
    decreases queue.len(),
{
    if queue.len() > 0 {
        lemma_pops_drain(queue.drop_first());
    }
}

proof fn lemma_pushes_append<T>(queue: Seq<T>, capacity: nat, items: Seq<T>)
    requires
        queue.len() + items.len() <= capacity,
    ensures
        pushes_accepted(queue, capacity, items),
        queue_after_pushes(queue, capacity, items) == queue + items,
    decreases items.len(),
{
    if items.len() > 0 {
        lemma_pushes_append(queue.push(items[0]), capacity, items.drop_first());
        assert(queue.push(items[0]) + items.drop_first() =~= queue + items);
    } else {
        assert(queue + items =~= queue);
    }
}

proof fn lemma_pops_take_all<T>(queue: Seq<T>)
    ensures
        taken_by_pops(queue, queue.len()) == queue,
    decreases queue.len(),
{
    if queue.len() > 0 {
        lemma_pops_take_all(queue.drop_first());
        assert(seq![queue[0]] + queue.drop_first() =~= queue);
    }
}

/// A single-producer single-consumer command ring with a power-of-two
/// capacity. The producer position `head` and the consumer position `tail`
/// are free-running counters; the slot of a position is its low bits.
pub struct CommandRingBuffer<T> {
    slots: Vec<Option<T>>,
    capacity: usize,
    head: u64,
    tail: u64,
}

impl<T> CommandRingBuffer<T> {
    /// The number of commands that the ring can hold at once.
    pub closed spec fn spec_capacity(&self) -> nat {
        self.capacity as nat
    }

    spec fn mask(&self) -> u64 {
        ((self.capacity as u64) - 1) as u64
    }

    spec fn count(&self) -> u64 {
        self.head.wrapping_sub(self.tail)
    }

    /// The slot that holds the `j`-th queued command.
    spec fn slot(&self, j: int) -> int {
        (self.tail.wrapping_add(j as u64) & self.mask()) as int
    }

    /// The ring's internal invariant.
    pub closed spec fn wf(&self) -> bool {
        &&& is_power_of_two(self.capacity)
        &&& self.slots@.len() == self.capacity
        &&& self.count() <= self.capacity
        &&& forall|j: int| 0 <= j < self.count() ==> (#[trigger] self.slots@[self.slot(j)]) is Some
    }

    /// The queued commands, oldest first.
    pub closed spec fn queued(&self) -> Seq<T> {
        Seq::new(self.count() as nat, |j: int| self.slots@[self.slot(j)]->0)
    }

    proof fn lemma_slot_facts(&self)
        requires
            is_power_of_two(self.capacity),
        ensures
            (self.capacity as u64) != 0,
            (self.capacity as u64) & self.mask() == 0,
            forall|j: int| #![trigger self.slot(j)] 0 <= self.slot(j) < self.capacity,
    {
        lemma_power_of_two_widen(self.capacity);
        assert forall|j: int| #![trigger self.slot(j)] 0 <= self.slot(j) < self.capacity by {
            lemma_mask_bound(self.tail.wrapping_add(j as u64), self.capacity as u64);
        }
    }

    /// Creates an empty ring that holds up to `capacity` commands.
    pub fn new(capacity: usize) -> (ring: Self)
        requires
            is_power_of_two(capacity),
        ensures
            ring.wf(),
            ring.spec_capacity() == capacity,
            ring@ == Seq::<T>::empty(),
    {
        let mut slots: Vec<Option<T>> = Vec::new();
        let mut i: usize = 0;
        while i < capacity
            invariant
                i <= capacity,
                slots@.len() == i,
            decreases capacity - i,
        {
            slots.push(None);
            i = i + 1;
        }
        let ring = CommandRingBuffer { slots, capacity, head: 0, tail: 0 };
        assert(ring@ =~= Seq::<T>::empty());
        ring
    }

    /// Appends `item` behind the queued commands. When the ring is full the
    /// item is handed back in `Err` and the ring is unchanged.
    pub fn push(&mut self, item: T) -> (res: Result<(), T>)
        requires
            old(self).wf(),
        ensures
            final(self).wf(),
            final(self).spec_capacity() == old(self).spec_capacity(),
            final(self)@ == queue_after_push(old(self)@, old(self).spec_capacity(), item),
            old(self)@.len() < old(self).spec_capacity() ==> res == Ok::<(), T>(()),
            old(self)@.len() >= old(self).spec_capacity() ==> res == Err::<(), T>(item),
    {
        let head = self.head;
        let tail = self.tail;
        if head.wrapping_sub(tail) >= self.capacity as u64 {
            return Err(item);
        }
        proof {
            self.lemma_slot_facts();
            lemma_head_position(tail, head);
        }
        let ghost old_self = *self;
        let ghost count = self.count();
        let mask: u64 = (self.capacity as u64) - 1;
        let idx = (head & mask) as usize;
        assert(idx == self.slot(count as int));
        self.slots.set(idx, Some(item));
        self.head = head.wrapping_add(1);
        proof {
            lemma_count_after_push(tail, head);
            assert forall|j: int| 0 <= j < count implies #[trigger] self.slots@[self.slot(j)]
                == old_self.slots@[old_self.slot(j)] by {
                lemma_mask_distinct(tail, j as u64, count, self.capacity as u64);
            }
            assert(self@ =~= old_self@.push(item));
        }
        Ok(())
    }

    /// Takes the oldest queued command, or returns `None` when the ring is
    /// empty (and leaves it unchanged).
    pub fn pop(&mut self) -> (res: Option<T>)
        requires
            old(self).wf(),
        ensures
            final(self).wf(),
            final(self).spec_capacity() == old(self).spec_capacity(),
            res == popped(old(self)@),
            final(self)@ == queue_after_pop(old(self)@),
    {
        let tail = self.tail;
        let head = self.head;
        if head == tail {
            proof {
                lemma_head_position(tail, head);
            }
            return None;
        }
        proof {
            self.lemma_slot_facts();
            lemma_head_position(tail, head);
        }
        let ghost old_self = *self;
        let ghost count = self.count();
        let mask: u64 = (self.capacity as u64) - 1;
        let idx = (tail & mask) as usize;
        assert(idx == self.slot(0));
        let item = self.slots[idx].take();
        self.tail = tail.wrapping_add(1);
        proof {
            lemma_count_after_pop(tail, head);
            assert forall|j: int| 0 <= j < count - 1 implies #[trigger] self.slots@[self.slot(j)]
                == old_self.slots@[old_self.slot(j + 1)] by {
                lemma_shift(tail, j as u64);
                lemma_mask_distinct(tail, 0, (j + 1) as u64, self.capacity as u64);
            }
            assert(self@ =~= old_self@.drop_first());
        }
        item
    }
}

/// A ring never holds more commands than its capacity.
pub proof fn lemma_ring_bounded<T>(ring: &CommandRingBuffer<T>)
    requires
        ring.wf(),
    ensures
        ring@.len() <= ring.spec_capacity(),
{
}

impl<T> View for CommandRingBuffer<T> {
    type V = Seq<T>;

    closed spec fn view(&self) -> Seq<T> {
        self.queued()
    }
}


/// Drains commands from a ring in batches.
pub struct BatchExecutor<'a, T> {
    /// The ring whose commands are executed.
    pub ring: &'a mut CommandRingBuffer<T>,
}

impl<'a, T> BatchExecutor<'a, T> {
    /// Wraps `ring` so that its commands can be run in batches.
    pub fn new(ring: &'a mut CommandRingBuffer<T>) -> (ex: Self)
        ensures
            *ex.ring == *old(ring),
            *final(ex.ring) == *final(ring),
    {
        BatchExecutor { ring }
    }

    /// Takes up to `batch_size` commands from the ring, oldest first, and
    /// hands each to `f`; stops early when the ring runs empty. Returns how
    /// many commands were executed.
    pub fn execute_batch<F: FnMut(T)>(&mut self, batch_size: usize, f: F) -> (count: usize)
        requires
            old(self).ring.wf(),
            forall|t: T| call_requires(f, (t,)),
        ensures
            final(self).ring.wf(),
            final(self).ring.spec_capacity() == old(self).ring.spec_capacity(),
            count == if batch_size <= old(self).ring@.len() { batch_size as int } else { old(self).ring@.len() as int },
            final(self).ring@ == old(self).ring@.skip(count as int),
            forall|k: int| 0 <= k < count ==> call_ensures(f, (#[trigger] old(self).ring@[k],), ()),
    {
        let ghost f0 = f;
        let mut f = f;
        let mut count: usize = 0;
        let ghost start = self.ring@;
        while count < batch_size
            invariant
                self.ring.wf(),
                self.ring.spec_capacity() == old(self).ring.spec_capacity(),
                start == old(self).ring@,
                count <= batch_size,
                count <= start.len(),
                self.ring@ == start.skip(count as int),
                forall|t: T| call_requires(f0, (t,)),
                f == f0,
                forall|k: int| 0 <= k < count ==> call_ensures(f0, (#[trigger] start[k],), ()),
            ensures
                forall|k: int| 0 <= k < count ==> call_ensures(f0, (#[trigger] start[k],), ()),
                self.ring.wf(),
                self.ring.spec_capacity() == old(self).ring.spec_capacity(),
                count == if batch_size <= start.len() { batch_size as int } else { start.len() as int },
                self.ring@ == start.skip(count as int),
            decreases batch_size - count,
        {
            match self.ring.pop() {
                Some(cmd) => {
                    assert(cmd == start[count as int]);
                    f(cmd);
                    count = count + 1;
                    assert(self.ring@ =~= start.skip(count as int));
                }
                None => {
                    break;
                }
            }
        }
        count
    }
}


} // verus!
