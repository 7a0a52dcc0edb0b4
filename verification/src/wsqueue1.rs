//! A work-stealing queue kept in a ring of slots.
//!
//! The queue has two ends. Its owner pushes and pops at one of them, so the
//! owner takes the newest item first. Thieves steal at the other, so a thief
//! takes the oldest item first. No operation blocks and none is safe to call
//! from two threads at once: a queue that is shared sits behind a lock.
//!
//! The contents of a queue are modelled as the sequence of its items in the
//! order in which they were pushed, oldest first.

use vstd::prelude::*;

verus! {

/// The contents after `elem` is pushed onto `items`.
pub open spec fn pushed<T>(items: Seq<T>, elem: T) -> Seq<T> {
    items.push(elem)
}

/// What a pop hands out of `items`, and the contents it leaves: the newest
/// item, or nothing where there is none.
pub open spec fn popped<T>(items: Seq<T>) -> (Option<T>, Seq<T>) {
    if items.len() == 0 {
        (None, items)
    } else {
        (Some(items.last()), items.drop_last())
    }
}

/// What a steal hands out of `items`, and the contents it leaves: the oldest
/// item, or nothing where there is none.
pub open spec fn stolen<T>(items: Seq<T>) -> (Option<T>, Seq<T>) {
    if items.len() == 0 {
        (None, items)
    } else {
        (Some(items.first()), items.drop_first())
    }
}

/// The slot that lies `offset` places after `start` in a ring of `cap` slots.
spec fn ring_index(start: int, offset: int, cap: int) -> int {
    if start + offset < cap {
        start + offset
    } else {
        start + offset - cap
    }
}

fn slot_index(start: usize, offset: usize, cap: usize) -> (idx: usize)
    requires
        start < cap,
        offset < cap,
    ensures
        idx == ring_index(start as int, offset as int, cap as int),
        idx < cap,
{
    if offset < cap - start {
        start + offset
    } else {
        offset - (cap - start)
    }
}

const MIN_SLOTS: usize = 4;

#[derive(Debug)]
struct Ring<T> {
    slots: Vec<Option<T>>,
    start: usize,
    length: usize,
}

impl<T> Ring<T> {
    spec fn cap(&self) -> int {
        self.slots@.len() as int
    }

    spec fn slot(&self, offset: int) -> Option<T> {
        self.slots@[ring_index(self.start as int, offset, self.cap())]
    }

    spec fn wf(&self) -> bool {
        &&& self.length <= self.cap()
        &&& (self.cap() == 0 ==> self.start == 0)
        &&& (self.cap() > 0 ==> self.start < self.cap())
        &&& forall|i: int| 0 <= i < self.cap() ==> ((#[trigger] self.slot(i)) is Some <==> i < self.length)
    }

    spec fn view(&self) -> Seq<T> {
        Seq::new(self.length as nat, |i: int| self.slot(i).unwrap())
    }

    fn new() -> (r: Self)
        ensures
            r.wf(),
            r@ == Seq::<T>::empty(),
    {
        let r = Ring { slots: Vec::new(), start: 0, length: 0 };
        assert(r@ =~= Seq::<T>::empty());
        r
    }

    fn pop_back(&mut self) -> (r: Option<T>)
        requires
            old(self).wf(),
        ensures
            final(self).wf(),
            (r, final(self)@) == popped(old(self)@),
    {
        if self.length == 0 {
            return None;
        }
        let last = self.length - 1;
        let idx = slot_index(self.start, last, self.slots.len());
        let r = self.slots[idx].take();
        self.length = last;
        assert(forall|i: int| 0 <= i < self.cap() ==> (i != last ==> self.slot(i) == old(self).slot(i)));
        assert(self@ =~= old(self)@.drop_last());
        r
    }

    fn pop_front(&mut self) -> (r: Option<T>)
        requires
            old(self).wf(),
        ensures
            final(self).wf(),
            (r, final(self)@) == stolen(old(self)@),
    {
        if self.length == 0 {
            return None;
        }
        let cap = self.slots.len();
        let first = self.start;
        let r = self.slots[first].take();
        self.start = if first == cap - 1 {
            0
        } else {
            first + 1
        };
        self.length = self.length - 1;
        assert(old(self).slot(0) == r);
        assert(forall|i: int| 0 <= i < cap - 1 ==> self.slot(i) == old(self).slot(i + 1));
        assert(self.slot(cap - 1) is None);
        assert(self@ =~= old(self)@.drop_first());
        r
    }

    fn grow(&mut self)
        requires
            old(self).wf(),
            old(self).length == old(self).cap(),
        ensures
            final(self).wf(),
            final(self)@ == old(self)@,
            final(self).length < final(self).cap(),
    {
        let n = self.length;
        let mut fresh: Vec<Option<T>> = Vec::new();
        let mut i: usize = 0;
        while i < n
            invariant
                old(self).wf(),
                old(self).length == n,
                self.length == n,
                i <= n,
                n == self.slots@.len(),
                self.start == old(self).start,
                n > 0 ==> self.start < n,
                fresh@.len() == i,
                forall|k: int| 0 <= k < i ==> fresh@[k] == old(self).slot(k),
                forall|k: int| i <= k < n ==> self.slot(k) == old(self).slot(k),
            decreases n - i,
        {
            let idx = slot_index(self.start, i, n);
            let moved = self.slots[idx].take();
            fresh.push(moved);
            i = i + 1;
        }
        let spare: usize = if n == 0 {
            MIN_SLOTS
        } else {
            n
        };
        let mut j: usize = 0;
        while j < spare
            invariant
                old(self).wf(),
                old(self).length == n,
                self.length == n,
                j <= spare,
                fresh@.len() == n + j,
                forall|k: int| 0 <= k < n ==> fresh@[k] == old(self).slot(k),
                forall|k: int| n <= k < n + j ==> fresh@[k] is None,
            decreases spare - j,
        {
            fresh.push(None);
            j = j + 1;
        }
        self.slots = fresh;
        self.start = 0;
        assert forall|k: int| 0 <= k < self.cap() implies ((#[trigger] self.slot(k)) is Some <==> k
            < self.length) by {
            assert(self.slot(k) == self.slots@[k]);
            if k < n {
                assert(old(self).slot(k) is Some);
            }
        }
        assert(self@ =~= old(self)@);
    }

    fn push_back(&mut self, elem: T)
        requires
            old(self).wf(),
        ensures
            final(self).wf(),
            final(self)@ == pushed(old(self)@, elem),
    {
        if self.length == self.slots.len() {
            self.grow();
        }
        let ghost before = *self;
        let idx = slot_index(self.start, self.length, self.slots.len());
        self.slots[idx] = Some(elem);
        self.length = self.length + 1;
        assert forall|i: int| 0 <= i < self.cap() implies ((#[trigger] self.slot(i)) is Some <==> i
            < self.length) by {
            if i != before.length {
                assert(self.slot(i) == before.slot(i));
            }
        }
        assert(self@ =~= old(self)@.push(elem));
    }
}

/// A double-ended queue of tasks with one end for its owner and one for thieves.
#[derive(Debug)]
pub struct WsQueue<T> {
    ring: Ring<T>,
}

impl<T> WsQueue<T> {
    /// The queued items in the order in which they were pushed, oldest first.
    pub closed spec fn view(&self) -> Seq<T> {
        self.ring@
    }

    #[verifier::type_invariant]
    spec fn inv(self) -> bool {
        self.ring.wf()
    }

    /// Creates an empty queue.
    pub fn new() -> (q: Self)
        ensures
            q@ == Seq::<T>::empty(),
    {
        WsQueue { ring: Ring::new() }
    }

    /// Enqueues an element at the owner's end.
    pub fn push(&mut self, elem: T)
        ensures
            final(self)@ == pushed(old(self)@, elem),
    {
        proof {
            use_type_invariant(&*self);
        }
        let mut ring = Ring::new();
        core::mem::swap(&mut ring, &mut self.ring);
        ring.push_back(elem);
        self.ring = ring;
    }

    /// Removes the oldest element, from the thieves' end.
    pub fn steal(&mut self) -> (taken: Option<T>)
        ensures
            (taken, final(self)@) == stolen(old(self)@),
    {
        proof {
            use_type_invariant(&*self);
        }
        let mut ring = Ring::new();
        core::mem::swap(&mut ring, &mut self.ring);
        let taken = ring.pop_front();
        self.ring = ring;
        taken
    }

    /// Removes the newest element, from the owner's end.
    pub fn pop(&mut self) -> (taken: Option<T>)
        ensures
            (taken, final(self)@) == popped(old(self)@),
    {
        proof {
            use_type_invariant(&*self);
        }
        let mut ring = Ring::new();
        core::mem::swap(&mut ring, &mut self.ring);
        let taken = ring.pop_back();
        self.ring = ring;
        taken
    }

    /// Returns the number of enqueued elements.
    pub fn len(&self) -> (n: usize)
        ensures
            n == self@.len(),
    {
        proof {
            use_type_invariant(self);
        }
        self.ring.length
    }
}

/// One call that reaches a queue.
pub ghost enum QueueOp<T> {
    /// A push of the given item.
    Push(T),
    /// A pop.
    Pop,
    /// A steal.
    Steal,
}

impl<T> QueueOp<T> {
    /// The contents that the call leaves of `items`.
    pub open spec fn leaves(self, items: Seq<T>) -> Seq<T> {
        match self {
            QueueOp::Push(elem) => pushed(items, elem),
            QueueOp::Pop => popped(items).1,
            QueueOp::Steal => stolen(items).1,
        }
    }

    /// Whether the call is a push.
    pub open spec fn puts(self) -> bool {
        self is Push
    }

    /// Whether the call hands an item out of `items`.
    pub open spec fn takes(self, items: Seq<T>) -> bool {
        match self {
            QueueOp::Push(_) => false,
            QueueOp::Pop => popped(items).0 is Some,
            QueueOp::Steal => stolen(items).0 is Some,
        }
    }
}

/// The contents of a queue that was empty before the calls `ops` reached
/// it, one after the other.
pub open spec fn contents_after<T>(ops: Seq<QueueOp<T>>) -> Seq<T>
    decreases ops.len(),
{
    if ops.len() == 0 {
        Seq::empty()
    } else {
        ops.last().leaves(contents_after(ops.drop_last()))
    }
}

/// The number of pushes among `ops`.
pub open spec fn push_count<T>(ops: Seq<QueueOp<T>>) -> nat
    decreases ops.len(),
{
    if ops.len() == 0 {
        0
    } else {
        push_count(ops.drop_last()) + if ops.last().puts() {
            1nat
        } else {
            0nat
        }
    }
}

/// The number of pops and steals among `ops` that handed out an item, on a
/// queue that was empty before `ops`.
pub open spec fn take_count<T>(ops: Seq<QueueOp<T>>) -> nat
    decreases ops.len(),
{
    if ops.len() == 0 {
        0
    } else {
        take_count(ops.drop_last()) + if ops.last().takes(contents_after(ops.drop_last())) {
            1nat
        } else {
            0nat
        }
    }
}

/// Whatever calls reach a queue, one at a time and in whatever order, the
/// pops and steals that handed out an item never outnumber the pushes, and
/// the queue holds exactly the items that were pushed and not yet handed
/// out.
pub proof fn lemma_takes_never_exceed_pushes<T>(ops: Seq<QueueOp<T>>)
    ensures
        take_count(ops) <= push_count(ops),
        contents_after(ops).len() == push_count(ops) - take_count(ops),
    decreases ops.len(),
{
    if ops.len() > 0 {
        lemma_takes_never_exceed_pushes(ops.drop_last());
    }
}

/// A pop right after a push hands out the item that was pushed and leaves
/// the queue as it was before the push.
pub proof fn lemma_pop_undoes_push<T>(items: Seq<T>, elem: T)
    ensures
        popped(pushed(items, elem)) == (Some(elem), items),
{
    assert(items.push(elem).drop_last() =~= items);
}

/// On an empty queue, a push and then a pop hand the item back and leave
/// the queue empty: the next pop and the next steal both find nothing.
pub proof fn lemma_push_pop_round_trip<T>(elem: T)
    ensures
        popped(pushed(Seq::empty(), elem)) == (Some(elem), Seq::<T>::empty()),
        popped(Seq::<T>::empty()).0 is None,
        stolen(Seq::<T>::empty()).0 is None,
{
    lemma_pop_undoes_push(Seq::empty(), elem);
}

/// On an empty queue, a push and then a steal hand the item back and leave
/// the queue empty: the next pop and the next steal both find nothing.
pub proof fn lemma_push_steal_round_trip<T>(elem: T)
    ensures
        stolen(pushed(Seq::empty(), elem)) == (Some(elem), Seq::<T>::empty()),
        popped(Seq::<T>::empty()).0 is None,
        stolen(Seq::<T>::empty()).0 is None,
{
    assert(Seq::<T>::empty().push(elem).drop_first() =~= Seq::<T>::empty());
}

/// The calls that push the items of `items` in turn.
pub open spec fn pushes_of<T>(items: Seq<T>) -> Seq<QueueOp<T>> {
    Seq::new(items.len(), |i: int| QueueOp::Push(items[i]))
}

/// The items that pops hand out of `items` until none is left, in the order
/// in which they come.
pub open spec fn popped_in_turn<T>(items: Seq<T>) -> Seq<T>
    decreases items.len(),
{
    if items.len() == 0 {
        Seq::empty()
    } else {
        seq![popped(items).0.unwrap()] + popped_in_turn(popped(items).1)
    }
}

/// The items that steals hand out of `items` until none is left, in the
/// order in which they come.
pub open spec fn stolen_in_turn<T>(items: Seq<T>) -> Seq<T>
    decreases items.len(),
{
    if items.len() == 0 {
        Seq::empty()
    } else {
        seq![stolen(items).0.unwrap()] + stolen_in_turn(stolen(items).1)
    }
}

/// A queue that was empty holds, after pushes alone, the items in the order
/// in which they were pushed.
pub proof fn lemma_pushes_keep_order<T>(items: Seq<T>)
    ensures
        contents_after(pushes_of(items)) == items,
    decreases items.len(),
{
    if items.len() == 0 {
        assert(contents_after(pushes_of(items)) =~= items);
    } else {
        lemma_pushes_keep_order(items.drop_last());
        assert(pushes_of(items).drop_last() =~= pushes_of(items.drop_last()));
        assert(items.drop_last().push(items.last()) =~= items);
    }
}

/// Pops hand the items out newest first: in the reverse of the order in
/// which they were pushed.
pub proof fn lemma_pops_come_newest_first<T>(items: Seq<T>)
    ensures
        popped_in_turn(items) == items.reverse(),
    decreases items.len(),
{
    if items.len() > 0 {
        lemma_pops_come_newest_first(items.drop_last());
        assert(seq![items.last()] + items.drop_last().reverse() =~= items.reverse());
    }
}

/// Steals hand the items out oldest first: in the order in which they were
/// pushed.
pub proof fn lemma_steals_come_oldest_first<T>(items: Seq<T>)
    ensures
        stolen_in_turn(items) == items,
    decreases items.len(),
{
    if items.len() > 0 {
        lemma_steals_come_oldest_first(items.drop_first());
        assert(seq![items.first()] + items.drop_first() =~= items);
    }
}

} // verus!
