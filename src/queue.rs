use vstd::prelude::*;

verus! {

/// Which pending callback of a queue is delivered next.
#[derive(Clone, Copy, Debug, PartialEq, Eq, Structural)]
pub enum DrainPolicy {
    /// The most recently submitted callback first.
    Lifo,
    /// The earliest submitted callback first.
    Fifo,
}

/// The position in `q` of the callback that `policy` delivers next.
pub open spec fn take_index<C>(q: Seq<C>, policy: DrainPolicy) -> int {
    match policy {
        DrainPolicy::Lifo => q.len() - 1,
        DrainPolicy::Fifo => 0,
    }
}

/// The callback that `policy` delivers next out of a non-empty queue.
pub open spec fn taken_item<C>(q: Seq<C>, policy: DrainPolicy) -> C {
    q[take_index(q, policy)]
}

/// What stays in a non-empty queue once `policy` has delivered from it.
pub open spec fn after_take<C>(q: Seq<C>, policy: DrainPolicy) -> Seq<C> {
    q.remove(take_index(q, policy))
}

/// The ordered callbacks that one extension has submitted and the host has
/// not yet delivered.
pub struct PendingQueue<C> {
    items: Vec<C>,
}

impl<C> View for PendingQueue<C> {
    type V = Seq<C>;

    closed spec fn view(&self) -> Seq<C> {
        self.items@
    }
}

impl<C> PendingQueue<C> {
    pub fn new() -> (r: Self)
        ensures
            r@ == Seq::<C>::empty(),
    {
        PendingQueue { items: Vec::new() }
    }

    /// Appends a submitted callback; the queue becomes its owner.
    pub fn push(&mut self, callback: C)
        ensures
            final(self)@ == old(self)@.push(callback),
    {
        self.items.push(callback);
    }

    pub fn len(&self) -> (r: usize)
        ensures
            r == self@.len(),
    {
        self.items.len()
    }

    /// Removes and returns the callback that `policy` delivers next, if any.
    pub fn take(&mut self, policy: DrainPolicy) -> (r: Option<C>)
        ensures
            old(self)@.len() == 0 ==> r is None && final(self)@ == old(self)@,
            old(self)@.len() > 0 ==> r == Some(taken_item(old(self)@, policy)) && final(self)@
                == after_take(old(self)@, policy),
    {
        if self.items.len() == 0 {
            return None;
        }
        match policy {
            DrainPolicy::Lifo => {
                let r = self.items.pop();
                assert(old(self)@.remove(old(self)@.len() - 1) =~= self.items@);
                r
            },
            DrainPolicy::Fifo => Some(self.items.remove(0)),
        }
    }
}

} // verus!
