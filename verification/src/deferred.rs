//! The queue of parked requests.
//!
//! A request that the channel scheme cannot serve yet is parked here and
//! asked again whenever the state may have changed. The newest request
//! stands at the front. A sweep takes all parked requests, asks each of them
//! again from the front to the back, and keeps those that still would block.
//! The caller does the asking and the answering; what to do with each
//! request is decided here.

use std::collections::VecDeque;
use vstd::prelude::*;
use crate::error::{Error, EAGAIN, EWOULDBLOCK};

verus! {

/// A parked request, and whether its caller has given up on it.
pub struct Slot<R> {
    pub req: R,
    pub canceling: bool,
}

/// What to do with a parked request after it has been asked again.
#[derive(Clone, Copy, Debug, PartialEq, Eq, Structural)]
pub enum Verdict {
    /// Send the answer that the scheme gave.
    Answer,
    /// Send this error in place of an answer.
    Fail(Error),
    /// Keep the request parked.
    Park,
}

/// The verdict on a request: an answer is sent whether or not the request
/// was cancelled; without an answer, a cancelled request is interrupted and
/// any other stays parked.
pub open spec fn verdict(completed: bool, canceling: bool) -> Verdict {
    if completed {
        Verdict::Answer
    } else if canceling {
        Verdict::Fail(Error::Interrupted)
    } else {
        Verdict::Park
    }
}

/// Decides what to do with a request that has been asked again: `completed`
/// tells whether the scheme gave an answer.
pub fn settle(completed: bool, canceling: bool) -> (v: Verdict)
    ensures
        v == verdict(completed, canceling),
{
    if completed {
        Verdict::Answer
    } else if canceling {
        Verdict::Fail(Error::Interrupted)
    } else {
        Verdict::Park
    }
}

/// What a parked request is answered with when the scheme is unmounted.
pub open spec fn leftover(canceling: bool) -> Error {
    if canceling {
        Error::Interrupted
    } else {
        Error::NoDevice
    }
}

/// The error that ends a request that is still parked when the scheme is
/// unmounted.
pub fn unmount_error(canceling: bool) -> (e: Error)
    ensures
        e == leftover(canceling),
{
    if canceling {
        Error::Interrupted
    } else {
        Error::NoDevice
    }
}

/// Whether an error number on reading the next request only says that no
/// request is there yet.
pub fn would_block(errno: i32) -> (b: bool)
    ensures
        b == (errno == EAGAIN || errno == EWOULDBLOCK),
{
    errno == EAGAIN || errno == EWOULDBLOCK
}

/// A request that a sweep is done with, and what to send for it.
pub enum Outcome<R> {
    /// Send the answer that the scheme gave to this request.
    Answer(R),
    /// Send this error as the answer to this request.
    Fail(R, Error),
    /// The request stays parked.
    Parked,
}

/// The slot at position `k` marked as cancelled.
pub open spec fn marked<R>(slots: Seq<Slot<R>>, k: int) -> Seq<Slot<R>> {
    slots.update(k, Slot { req: slots[k].req, canceling: true })
}

/// The slots that a sweep keeps: those whose request was not completed and
/// not cancelled, in their order. `completed[i]` tells whether slot `i` got
/// an answer.
pub open spec fn kept<R>(slots: Seq<Slot<R>>, completed: Seq<bool>) -> Seq<Slot<R>>
    decreases slots.len(),
{
    if slots.len() == 0 {
        Seq::empty()
    } else {
        let before = kept(slots.drop_last(), completed);
        if verdict(completed[slots.len() - 1], slots.last().canceling) is Park {
            before.push(slots.last())
        } else {
            before
        }
    }
}

/// The parked requests, the newest first.
pub struct Deferred<R> {
    slots: VecDeque<Slot<R>>,
}

impl<R> View for Deferred<R> {
    type V = Seq<Slot<R>>;

    closed spec fn view(&self) -> Seq<Slot<R>> {
        self.slots@
    }
}

impl<R> Deferred<R> {
    /// An empty queue.
    pub fn new() -> (q: Self)
        ensures
            q@ == Seq::<Slot<R>>::empty(),
    {
        Deferred { slots: VecDeque::new() }
    }

    /// How many requests are parked.
    pub fn len(&self) -> (n: usize)
        ensures
            n == self@.len(),
    {
        self.slots.len()
    }

    /// Whether no request is parked.
    pub fn is_empty(&self) -> (b: bool)
        ensures
            b == (self@.len() == 0),
    {
        self.slots.len() == 0
    }

    /// The parked request at position `i`, counted from the front.
    pub fn get(&self, i: usize) -> (slot: Option<&Slot<R>>)
        ensures
            slot == (if i < self@.len() {
                Some(&self@[i as int])
            } else {
                None
            }),
    {
        if i < self.slots.len() {
            Some(&self.slots[i])
        } else {
            None
        }
    }

    /// Parks a new request at the front, so that it is asked before the
    /// older ones.
    pub fn push(&mut self, req: R)
        ensures
            final(self)@ == seq![Slot { req, canceling: false }] + old(self)@,
    {
        self.slots.push_front(Slot { req, canceling: false });
    }

    /// Marks as cancelled the first parked request, from the front, that
    /// `is_target` picks, and tells its position. Changes nothing if
    /// `is_target` picks none.
    pub fn cancel<F: Fn(&R) -> bool>(&mut self, is_target: F) -> (hit: Option<usize>)
        requires
            forall|i: int|
                0 <= i < old(self)@.len() ==> call_requires(
                    is_target,
                    (&(#[trigger] old(self)@[i]).req,),
                ),
        ensures
            match hit {
                Some(k) => {
                    &&& k < old(self)@.len()
                    &&& call_ensures(is_target, (&old(self)@[k as int].req,), true)
                    &&& forall|i: int|
                        0 <= i < k ==> call_ensures(
                            is_target,
                            (&(#[trigger] old(self)@[i]).req,),
                            false,
                        )
                    &&& final(self)@ == marked(old(self)@, k as int)
                },
                None => {
                    &&& forall|i: int|
                        0 <= i < old(self)@.len() ==> call_ensures(
                            is_target,
                            (&(#[trigger] old(self)@[i]).req,),
                            false,
                        )
                    &&& final(self)@ == old(self)@
                },
            },
    {
        let mut i: usize = 0;
        assert forall|j: int| 0 <= j < self.slots@.len() implies call_requires(
            is_target,
            (&(#[trigger] self.slots@[j]).req,),
        ) by {
            assert(self.slots@[j] == old(self)@[j]);
        }
        while i < self.slots.len()
            invariant
                i <= self.slots@.len(),
                self.slots@ == old(self)@,
                forall|j: int|
                    0 <= j < self.slots@.len() ==> call_requires(
                        is_target,
                        (&(#[trigger] self.slots@[j]).req,),
                    ),
                forall|j: int|
                    0 <= j < i ==> call_ensures(
                        is_target,
                        (&(#[trigger] self.slots@[j]).req,),
                        false,
                    ),
            decreases self.slots@.len() - i,
        {
            if is_target(&self.slots[i].req) {
                match self.slots.remove(i) {
                    Some(slot) => {
                        self.slots.insert(i, Slot { req: slot.req, canceling: true });
                        assert(self.slots@ =~= marked(old(self)@, i as int));
                    },
                    None => {
                        // Cannot happen: the position lies within the queue.
                        assert(false);
                    },
                }
                return Some(i);
            }
            i += 1;
        }
        None
    }

    /// Takes all parked requests out for a sweep, the front first.
    pub fn take(&mut self) -> (slots: VecDeque<Slot<R>>)
        ensures
            slots@ == old(self)@,
            final(self)@ == Seq::<Slot<R>>::empty(),
    {
        let mut slots: VecDeque<Slot<R>> = VecDeque::new();
        core::mem::swap(&mut slots, &mut self.slots);
        slots
    }

    /// Settles a request that was taken out for a sweep and asked again:
    /// hands it back with what to send, or keeps it parked behind those
    /// already kept.
    pub fn resolve(&mut self, slot: Slot<R>, completed: bool) -> (out: Outcome<R>)
        ensures
            match verdict(completed, slot.canceling) {
                Verdict::Answer => out == Outcome::Answer(slot.req) && final(self)@ == old(self)@,
                Verdict::Fail(e) => out == Outcome::Fail(slot.req, e) && final(self)@ == old(
                    self,
                )@,
                Verdict::Park => out == Outcome::<R>::Parked && final(self)@ == old(self)@.push(
                    slot,
                ),
            },
    {
        match settle(completed, slot.canceling) {
            Verdict::Answer => Outcome::Answer(slot.req),
            Verdict::Fail(e) => Outcome::Fail(slot.req, e),
            Verdict::Park => {
                self.slots.push_back(slot);
                Outcome::Parked
            },
        }
    }

    /// Empties the queue when the scheme is unmounted: every parked request,
    /// the front first, with the error that ends it.
    pub fn drain(&mut self) -> (out: Vec<(R, Error)>)
        ensures
            final(self)@ == Seq::<Slot<R>>::empty(),
            out@.len() == old(self)@.len(),
            forall|i: int|
                0 <= i < out@.len() ==> out@[i] == (
                    old(self)@[i].req,
                    leftover(old(self)@[i].canceling),
                ),
    {
        let mut out: Vec<(R, Error)> = Vec::new();
        let ghost all = self.slots@;
        loop
            invariant
                all == old(self)@,
                out@.len() + self.slots@.len() == all.len(),
                self.slots@ == all.skip(out@.len() as int),
                forall|i: int|
                    0 <= i < out@.len() ==> out@[i] == (all[i].req, leftover(all[i].canceling)),
            decreases self.slots@.len(),
        {
            match self.slots.pop_front() {
                Some(slot) => {
                    assert(all.skip(out@.len() as int)[0] == all[out@.len() as int]);
                    assert(all.skip(out@.len() as int).skip(1) =~= all.skip(out@.len() as int + 1));
                    out.push((slot.req, unmount_error(slot.canceling)));
                },
                None => {
                    return out;
                },
            }
        }
    }
}

/// A sweep keeps the parked requests in their order: settling the slots one
/// after the other, from the front, leaves in the queue the slots that
/// `kept` names, whatever the answers are.
pub proof fn lemma_sweep_step<R>(slots: Seq<Slot<R>>, completed: Seq<bool>, n: int)
    requires
        0 <= n < slots.len(),
        completed.len() == slots.len(),
    ensures
        kept(slots.take(n + 1), completed) == if verdict(completed[n], slots[n].canceling)
            is Park {
            kept(slots.take(n), completed).push(slots[n])
        } else {
            kept(slots.take(n), completed)
        },
{
    assert(slots.take(n + 1).drop_last() =~= slots.take(n));
}

/// Nothing that a sweep keeps was answered or cancelled, and everything it
/// keeps was parked before.
pub proof fn lemma_kept_were_parked<R>(slots: Seq<Slot<R>>, completed: Seq<bool>, i: int)
    requires
        completed.len() >= slots.len(),
        0 <= i < kept(slots, completed).len(),
    ensures
        !kept(slots, completed)[i].canceling,
        exists|j: int|
            0 <= j < slots.len() && slots[j] == kept(slots, completed)[i] && !completed[j],
    decreases slots.len(),
{
    if slots.len() > 0 {
        let before = kept(slots.drop_last(), completed);
        if i < before.len() {
            lemma_kept_were_parked(slots.drop_last(), completed, i);
            let j = choose|j: int|
                0 <= j < slots.drop_last().len() && slots.drop_last()[j] == before[i]
                    && !completed[j];
            assert(slots[j] == kept(slots, completed)[i]);
        } else {
            assert(slots[slots.len() - 1] == kept(slots, completed)[i]);
        }
    }
}

} // verus!
