//! Persistent values kept in state slots: plain mutable cells, and stores
//! that fold queued messages into their state.
use std::collections::VecDeque;
use vstd::prelude::*;

verus! {

/// `out` is what folding `msgs`, oldest first, into `init` through
/// `reducer` can give.
pub open spec fn folds_to<T, M, F: Fn(&T, M) -> T>(reducer: F, init: T, msgs: Seq<M>, out: T) -> bool
    decreases msgs.len(),
{
    if msgs.len() == 0 {
        out == init
    } else {
        exists|mid: T|
            folds_to(reducer, init, msgs.drop_last(), mid) && #[trigger] reducer.ensures(
                (&mid, msgs.last()),
                out,
            )
    }
}

/// Messages waiting to be folded into a store's state, oldest first.
pub struct MsgQueue<M> {
    pub queue: VecDeque<M>,
}

impl<M> MsgQueue<M> {
    pub open spec fn view(&self) -> Seq<M> {
        self.queue@
    }

    pub fn new() -> (r: Self)
        ensures
            r.view() == Seq::<M>::empty(),
    {
        MsgQueue { queue: VecDeque::new() }
    }

    /// Queues `msg` behind those already waiting.
    pub fn push(&mut self, msg: M)
        ensures
            final(self).view() == old(self).view().push(msg),
    {
        self.queue.push_back(msg);
    }

    pub fn len(&self) -> (r: usize)
        ensures
            r == self.view().len(),
    {
        self.queue.len()
    }
}

/// A state value together with the messages queued for it.
pub struct StoreObject<T, M> {
    pub state: T,
    pub msg: MsgQueue<M>,
}

impl<T, M> StoreObject<T, M> {
    /// A store holding `state` with nothing queued.
    pub fn new(state: T) -> (r: Self)
        ensures
            r.state == state,
            r.msg.view() == Seq::<M>::empty(),
    {
        StoreObject { state, msg: MsgQueue::new() }
    }

    /// Folds every queued message, oldest first, into the state through
    /// `reducer`, and empties the queue.
    pub fn apply_pending<F: Fn(&T, M) -> T>(&mut self, reducer: &F)
        requires
            forall|s: &T, m: M| #[trigger] reducer.requires((s, m)),
        ensures
            folds_to(*reducer, old(self).state, old(self).msg.view(), final(self).state),
            final(self).msg.view() == Seq::<M>::empty(),
    {
        let ghost init = self.state;
        let ghost msgs = self.msg.view();
        let ghost mut done: int = 0;
        while self.msg.queue.len() > 0
            invariant
                0 <= done <= msgs.len(),
                self.msg.view() == msgs.skip(done),
                folds_to(*reducer, init, msgs.take(done), self.state),
                forall|s: &T, m: M| #[trigger] reducer.requires((s, m)),
            decreases self.msg.view().len(),
        {
            let m = self.msg.queue.pop_front().unwrap();
            let ghost before = self.state;
            let next = reducer(&self.state, m);
            self.state = next;
            proof {
                let t = msgs.take(done + 1);
                assert(t.drop_last() =~= msgs.take(done));
                assert(t.last() == m);
                assert(reducer.ensures((&before, t.last()), self.state));
                assert(folds_to(*reducer, init, t, self.state));
                done = done + 1;
                assert(self.msg.view() =~= msgs.skip(done));
            }
        }
        proof {
            assert(msgs.take(done) =~= msgs);
        }
    }
}

/// What a description sees of a store during a pass: the state as it was
/// when the pass reached it, and the queue to push messages onto.
pub struct Store<'a, T, M> {
    pub state: &'a T,
    pub msg: &'a mut MsgQueue<M>,
}

impl<'a, T, M> Store<'a, T, M> {
    pub fn new(object: &'a mut StoreObject<T, M>) -> (r: Self)
        ensures
            *r.state == old(object).state,
            *r.msg == old(object).msg,
            final(object).state == old(object).state,
            final(object).msg == *final(r.msg),
    {
        Store { state: &object.state, msg: &mut object.msg }
    }
}

/// A plain mutable cell, created from `init` the first time its slot is
/// asked for.
pub struct Mutable<T> {
    pub init: T,
}

impl<T: Default> Mutable<T> {
    /// A cell that starts from the type's default value.
    pub fn new() -> (r: Self)
        ensures
            call_ensures(T::default, (), r.init),
    {
        Mutable { init: T::default() }
    }
}

impl<T> Mutable<T> {
    /// A cell that starts from `init`.
    pub fn with(init: T) -> (r: Self)
        ensures
            r.init == init,
    {
        Mutable { init }
    }
}

/// The value a state slot keeps.
pub enum Hook<T, M> {
    Cell(T),
    Store(StoreObject<T, M>),
}

impl<T, M> Hook<T, M> {
    pub fn is_store(&self) -> (r: bool)
        ensures
            r == self is Store,
    {
        match self {
            Hook::Store(_) => true,
            Hook::Cell(_) => false,
        }
    }
}

/// Deterministic reducers fold in the order the messages were pushed:
/// two messages pushed onto an empty queue during one pass leave the state
/// as it was, and folding them at the next pass gives
/// `reduce(reduce(initial, a), b)`.
pub proof fn lemma_store_fifo<T, M, F: Fn(&T, M) -> T>(
    reducer: F,
    reduce: spec_fn(T, M) -> T,
    before: StoreObject<T, M>,
    after_pushes: StoreObject<T, M>,
    a: M,
    b: M,
    out: T,
)
    requires
        forall|s: &T, m: M, r: T| #[trigger] reducer.ensures((s, m), r) ==> r == reduce(*s, m),
        before.msg.view() == Seq::<M>::empty(),
        after_pushes.state == before.state,
        after_pushes.msg.view() == before.msg.view().push(a).push(b),
        folds_to(reducer, after_pushes.state, after_pushes.msg.view(), out),
    ensures
        out == reduce(reduce(before.state, a), b),
{
    let msgs = after_pushes.msg.view();
    assert(msgs =~= seq![a, b]);
    let mid = choose|mid: T|
        folds_to(reducer, before.state, msgs.drop_last(), mid) && #[trigger] reducer.ensures(
            (&mid, msgs.last()),
            out,
        );
    let first = msgs.drop_last();
    assert(first =~= seq![a]);
    let m0 = choose|m0: T|
        folds_to(reducer, before.state, first.drop_last(), m0) && #[trigger] reducer.ensures(
            (&m0, first.last()),
            mid,
        );
    assert(first.drop_last().len() == 0);
    assert(m0 == before.state);
}

} // verus!
