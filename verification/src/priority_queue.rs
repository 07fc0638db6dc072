use vstd::prelude::*;
use crate::data_model::PiecePosition;

verus! {

/// A `priority_queue::PriorityQueue` whose items and priorities are pairs of
/// integers; Verus sees nothing inside it.
#[verifier::external_body]
pub struct Heap {
    inner: priority_queue::PriorityQueue<(usize, usize), (usize, usize)>,
}

/// The items of a `Heap` with the priority of each.
pub uninterp spec fn heap_contents(q: Heap) -> Map<
    (usize, usize),
    (usize, usize),
>;

/// The order of tuples: by the first field, then by the second.
pub open spec fn lex_le(a: (usize, usize), b: (usize, usize)) -> bool {
    a.0 < b.0 || (a.0 == b.0 && a.1 <= b.1)
}

/// `PriorityQueue::new`: an empty queue.
#[verifier::external_body]
fn heap_new() -> (r: Heap)
    ensures
        heap_contents(r) =~= Map::empty(),
{
    Heap { inner: priority_queue::PriorityQueue::new() }
}

/// `PriorityQueue::push`: inserts the item, or gives it the new priority if it
/// is there already, and returns its former priority.
#[verifier::external_body]
fn heap_push(
    q: &mut Heap,
    item: (usize, usize),
    priority: (usize, usize),
) -> (r: Option<(usize, usize)>)
    ensures
        heap_contents(*final(q)) == heap_contents(*old(q)).insert(item, priority),
        r == (if heap_contents(*old(q)).dom().contains(item) {
            Some(heap_contents(*old(q))[item])
        } else {
            None
        }),
{
    q.inner.push(item, priority)
}

/// `PriorityQueue::peek`: an item of greatest priority, with that priority;
/// which of several such items is left open.
#[verifier::external_body]
fn heap_peek(q: &Heap) -> (r: Option<
    ((usize, usize), (usize, usize)),
>)
    ensures
        r is None <==> heap_contents(*q).dom() =~= Set::empty(),
        r matches Some((item, priority)) ==> {
            &&& heap_contents(*q).dom().contains(item)
            &&& heap_contents(*q)[item] == priority
            &&& forall|other: (usize, usize)|
                #[trigger] heap_contents(*q).dom().contains(other) ==> lex_le(
                    heap_contents(*q)[other],
                    priority,
                )
        },
{
    match q.inner.peek() {
        Some((item, priority)) => Some((*item, *priority)),
        None => None,
    }
}

/// `PriorityQueue::pop`: removes and returns an item of greatest priority, with
/// that priority; which of several such items is left open.
#[verifier::external_body]
fn heap_pop(q: &mut Heap) -> (r: Option<
    ((usize, usize), (usize, usize)),
>)
    ensures
        r is None <==> heap_contents(*old(q)).dom() =~= Set::empty(),
        r is None ==> heap_contents(*final(q)) == heap_contents(*old(q)),
        r matches Some((item, priority)) ==> {
            &&& heap_contents(*old(q)).dom().contains(item)
            &&& heap_contents(*old(q))[item] == priority
            &&& heap_contents(*final(q)) == heap_contents(*old(q)).remove(item)
            &&& forall|other: (usize, usize)|
                #[trigger] heap_contents(*old(q)).dom().contains(other) ==> lex_le(
                    heap_contents(*old(q))[other],
                    priority,
                )
        },
{
    q.inner.pop()
}

/// `PriorityQueue::contains`.
#[verifier::external_body]
fn heap_contains(q: &Heap, item: (usize, usize)) -> (r:
    bool)
    ensures
        r == heap_contents(*q).dom().contains(item),
{
    q.inner.contains(&item)
}

/// `PriorityQueue::remove`: takes the item out, if it is there.
#[verifier::external_body]
fn heap_remove(q: &mut Heap, item: (usize, usize))
    ensures
        heap_contents(*final(q)) == heap_contents(*old(q)).remove(item),
{
    q.inner.remove(&item);
}


/// `PriorityQueue::clone`: a queue with the same items and priorities.
#[verifier::external_body]
fn heap_clone(q: &Heap) -> (r: Heap)
    ensures
        heap_contents(r) == heap_contents(*q),
{
    Heap { inner: q.inner.clone() }
}

/// The heap priority that stands for key `k`: the heap pops its greatest
/// priority first, the queue its least key.
pub open spec fn flip(k: (usize, usize)) -> (usize, usize) {
    ((usize::MAX - k.0) as usize, (usize::MAX - k.1) as usize)
}

/// The pair by which the queue holds a position.
pub open spec fn item_of(p: PiecePosition) -> (usize, usize) {
    (p.x, p.y)
}

/// A queue of board positions, each with a key; `pop` and `peek` give a position
/// of least key, keys ordered by `lex_le`.
pub struct PriorityQueue {
    pq: Heap,
}

impl Clone for PriorityQueue {
    fn clone(&self) -> (r: Self)
        ensures
            r@ == self@,
    {
        proof { use_type_invariant(&*self); }
        PriorityQueue { pq: heap_clone(&self.pq) }
    }
}

impl View for PriorityQueue {
    type V = Map<(usize, usize), (usize, usize)>;

    /// Each queued position, as `(x, y)`, with its key.
    closed spec fn view(&self) -> Map<(usize, usize), (usize, usize)> {
        heap_contents(self.pq).map_values(|v: (usize, usize)| flip(v))
    }
}

impl PriorityQueue {
    #[verifier::type_invariant]
    closed spec fn finite(self) -> bool {
        heap_contents(self.pq).dom().finite()
    }

    fn to_priority(k: (usize, usize)) -> (r: (usize, usize))
        ensures
            r == flip(k),
            flip(r) == k,
    {
        (usize::MAX - k.0, usize::MAX - k.1)
    }

    proof fn lemma_view(self)
        requires
            heap_contents(self.pq).dom().finite(),
        ensures
            self@.dom() == heap_contents(self.pq).dom(),
            forall|i: (usize, usize)| #[trigger] self@.dom().contains(i) ==> self@[i] == flip(heap_contents(self.pq)[i]),
            self@.dom().finite(),
    {
        assert(self@.dom() =~= heap_contents(self.pq).dom());
    }

    pub fn new() -> (q: Self)
        ensures
            q@ == Map::<(usize, usize), (usize, usize)>::empty(),
            q@.dom().finite(),
    {
        let q = PriorityQueue { pq: heap_new() };
        assert(q@ =~= Map::<(usize, usize), (usize, usize)>::empty());
        q
    }

    /// A position of least key, with its key.
    pub fn peek(&self) -> (r: Option<((usize, usize), PiecePosition)>)
        ensures
            r is None <==> self@.dom() =~= Set::empty(),
            self@.dom().finite(),
            r matches Some((k, t)) ==> {
                &&& self@.dom().contains(item_of(t))
                &&& self@[item_of(t)] == k
                &&& forall|other: (usize, usize)| #[trigger] self@.dom().contains(other) ==> lex_le(k, self@[other])
            },
    {
        proof { use_type_invariant(&*self); self.lemma_view(); }
        match heap_peek(&self.pq) {
            Some((item, priority)) => {
                let k = Self::to_priority(priority);
                proof {
                    assert forall|other: (usize, usize)| #[trigger] self@.dom().contains(other) implies lex_le(k, self@[other]) by {
                        assert(lex_le(heap_contents(self.pq)[other], priority));
                    }
                }
                Some((k, PiecePosition::new(item.0, item.1)))
            },
            None => None,
        }
    }

    /// Removes a position of least key and returns it with its key.
    pub fn pop(&mut self) -> (r: Option<((usize, usize), PiecePosition)>)
        ensures
            r is None <==> old(self)@.dom() =~= Set::empty(),
            old(self)@.dom().finite(),
            final(self)@.dom().finite(),
            r is None ==> final(self)@ == old(self)@,
            r matches Some((k, t)) ==> {
                &&& old(self)@.dom().contains(item_of(t))
                &&& old(self)@[item_of(t)] == k
                &&& final(self)@ == old(self)@.remove(item_of(t))
                &&& forall|other: (usize, usize)| #[trigger] old(self)@.dom().contains(other) ==> lex_le(k, old(self)@[other])
            },
    {
        proof { use_type_invariant(&*self); self.lemma_view(); }
        let ghost before = heap_contents(self.pq);
        let mut heap = heap_new();
        std::mem::swap(&mut heap, &mut self.pq);
        let popped = heap_pop(&mut heap);
        self.pq = heap;
        proof { assert(heap_contents(self.pq).dom().finite()); self.lemma_view(); }
        match popped {
            Some((item, priority)) => {
                let k = Self::to_priority(priority);
                proof {
                    assert forall|other: (usize, usize)| #[trigger] old(self)@.dom().contains(other) implies lex_le(k, old(self)@[other]) by {
                        assert(before.dom().contains(other));
                        assert(lex_le(before[other], priority));
                    }
                    assert(self@ =~= old(self)@.remove(item));
                }
                Some((k, PiecePosition::new(item.0, item.1)))
            },
            None => {
                proof { assert(self@ =~= old(self)@); }
                None
            },
        }
    }

    /// Queues `t` with key `k`, or gives it key `k` if it is queued already;
    /// returns whether it was queued already.
    pub fn insert(&mut self, k: (usize, usize), t: PiecePosition) -> (r: bool)
        ensures
            final(self)@ == old(self)@.insert(item_of(t), k),
            old(self)@.dom().finite(),
            final(self)@.dom().finite(),
            r == old(self)@.dom().contains(item_of(t)),
    {
        proof { use_type_invariant(&*self); self.lemma_view(); }
        let priority = Self::to_priority(k);
        let mut heap = heap_new();
        std::mem::swap(&mut heap, &mut self.pq);
        let r = heap_push(&mut heap, (t.x, t.y), priority);
        self.pq = heap;
        proof {
            use_type_invariant(&*self);
            self.lemma_view();
            assert(self@ =~= old(self)@.insert(item_of(t), k));
        }
        r.is_some()
    }

    pub fn contains(&self, t: &PiecePosition) -> (r: bool)
        ensures
            r == self@.dom().contains(item_of(*t)),
            self@.dom().finite(),
    {
        proof { use_type_invariant(&*self); self.lemma_view(); }
        heap_contains(&self.pq, (t.x, t.y))
    }

    /// Takes `t` out of the queue, if it is queued.
    pub fn remove(&mut self, t: &PiecePosition)
        ensures
            final(self)@ == old(self)@.remove(item_of(*t)),
            old(self)@.dom().finite(),
            final(self)@.dom().finite(),
    {
        proof { use_type_invariant(&*self); self.lemma_view(); }
        let mut heap = heap_new();
        std::mem::swap(&mut heap, &mut self.pq);
        heap_remove(&mut heap, (t.x, t.y));
        self.pq = heap;
        proof {
            use_type_invariant(&*self);
            self.lemma_view();
            assert(self@ =~= old(self)@.remove(item_of(*t)));
        }
    }
}

} // verus!
