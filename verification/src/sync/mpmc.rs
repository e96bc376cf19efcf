//! A rendezvous channel for many senders and many receivers.
//!
//! Each send and each receive is an operation that is polled until it is
//! ready. A send that finds no receiver waits in the queue of senders with
//! its value; a receive takes the value of the first waiting send, or waits
//! in the queue of receivers. Whoever waits leaves a waker, of type `W`, that
//! the other side hands back for waking. Driving the operations (the polling
//! and the waking) is left to the caller: each step here returns what is to
//! be woken.
//!
//! Sends and receives are numbered. The number of a dropped operation is
//! kept spare and given to the next new one. A handle carries its number
//! and the identity its buffer was made with, so that a buffer can tell its
//! own live operations from others.
use vstd::prelude::*;

use crate::linked_list::{LinkedList, pushed_back, without};

verus! {

/// The state of a send: the value not yet taken, the waker it left, and
/// whether it is live (made and not yet dropped).
pub struct SendState<T, W> {
    pub value: Option<T>,
    pub waker: Option<W>,
    pub live: bool,
}

/// The state of a receive: the waker it left, and whether it is live (made
/// and not yet dropped).
pub struct ReceiveState<W> {
    pub waker: Option<W>,
    pub live: bool,
}

/// A value that could not be sent.
#[derive(Copy, Clone, Debug)]
pub struct SendError<T>(T);

/// A pending send on a buffer.
pub struct Send {
    buffer: u64,
    node: usize,
}

impl View for Send {
    type V = usize;

    /// The number of the send.
    closed spec fn view(&self) -> usize {
        self.node
    }
}

impl Send {
    /// The identity of the buffer the send was made on.
    pub closed spec fn buffer_identity(&self) -> u64 {
        self.buffer
    }
}

/// A pending receive on a buffer.
pub struct Receive {
    buffer: u64,
    node: usize,
}

impl View for Receive {
    type V = usize;

    /// The number of the receive.
    closed spec fn view(&self) -> usize {
        self.node
    }
}

impl Receive {
    /// The identity of the buffer the receive was made on.
    pub closed spec fn buffer_identity(&self) -> u64 {
        self.buffer
    }
}

/// What polling a send gives.
pub enum SendPoll<W> {
    /// The value was taken: the send is complete.
    Ready,
    /// The send waits; the waker of a receiver to wake, if there was one.
    Pending(Option<W>),
}

/// What polling a receive gives.
pub enum ReceivePoll<T, W> {
    /// The value received, and the waker of the send it came from, to wake.
    Ready(T, W),
    /// No send was waiting: the receive waits.
    Pending,
}

impl<T, W> Default for Buffer<T, W> {
    fn default() -> (b: Self)
        ensures
            b.wf(),
            b.identity() == 0,
            b.senders() == Seq::<usize>::empty(),
            b.sends() == Seq::<SendState<T, W>>::empty(),
            b.receivers() == Seq::<usize>::empty(),
            b.receives() == Seq::<ReceiveState<W>>::empty(),
            b.spare_sends() == Seq::<usize>::empty(),
            b.spare_receives() == Seq::<usize>::empty(),
    {
        Self::with_identity(0)
    }
}

/// The queues of waiting sends and waiting receives of a channel.
pub struct Buffer<T, W> {
    identity: u64,
    senders: LinkedList<SendState<T, W>>,
    receivers: LinkedList<ReceiveState<W>>,
    spare_sends: Vec<usize>,
    spare_receives: Vec<usize>,
}

impl<T, W> Buffer<T, W> {
    /// The identity the buffer was made with.
    pub closed spec fn identity(&self) -> u64 {
        self.identity
    }

    /// The waiting sends, first to last.
    pub closed spec fn senders(&self) -> Seq<usize> {
        self.senders.queue()
    }

    /// The states of all sends made on this buffer, by number.
    pub closed spec fn sends(&self) -> Seq<SendState<T, W>> {
        self.senders.items()
    }

    /// The waiting receives, first to last.
    pub closed spec fn receivers(&self) -> Seq<usize> {
        self.receivers.queue()
    }

    /// The states of all receives made on this buffer, by number.
    pub closed spec fn receives(&self) -> Seq<ReceiveState<W>> {
        self.receivers.items()
    }

    /// The numbers of dropped sends, to be given to new sends, last first.
    pub closed spec fn spare_sends(&self) -> Seq<usize> {
        self.spare_sends@
    }

    /// The numbers of dropped receives, to be given to new receives, last first.
    pub closed spec fn spare_receives(&self) -> Seq<usize> {
        self.spare_receives@
    }

    /// `send` is a live send of this buffer.
    pub open spec fn holds_send(&self, send: &Send) -> bool {
        &&& send.buffer_identity() == self.identity()
        &&& send@ < self.sends().len()
        &&& self.sends()[send@ as int].live
    }

    /// `receive` is a live receive of this buffer.
    pub open spec fn holds_receive(&self, receive: &Receive) -> bool {
        &&& receive.buffer_identity() == self.identity()
        &&& receive@ < self.receives().len()
        &&& self.receives()[receive@ as int].live
    }

    /// A new send can be given a number.
    pub open spec fn has_room_for_send(&self) -> bool {
        self.spare_sends().len() > 0 || self.sends().len() < usize::MAX
    }

    /// A new receive can be given a number.
    pub open spec fn has_room_for_receive(&self) -> bool {
        self.spare_receives().len() > 0 || self.receives().len() < usize::MAX
    }

    /// A buffer has room for a new send whenever it has a spare send number
    /// or fewer than `usize::MAX` sends, and likewise for receives; in
    /// particular a buffer with no operation yet has room for both.
    pub proof fn law_room_for_new_operations(&self)
        ensures
            self.spare_sends().len() > 0 ==> self.has_room_for_send(),
            self.sends().len() < usize::MAX ==> self.has_room_for_send(),
            self.spare_receives().len() > 0 ==> self.has_room_for_receive(),
            self.receives().len() < usize::MAX ==> self.has_room_for_receive(),
            self.sends().len() == 0 ==> self.has_room_for_send(),
            self.receives().len() == 0 ==> self.has_room_for_receive(),
    {
    }

    /// Every waiting send is live and holds its value and a waker.
    closed spec fn waiting_sends_ok(&self) -> bool {
        forall|i: int|
            0 <= i < self.senders.queue().len() ==> {
                let s = #[trigger] self.senders.items()[self.senders.queue()[i] as int];
                s.value is Some && s.waker is Some && s.live
            }
    }

    /// Every waiting receive is live.
    closed spec fn waiting_receives_ok(&self) -> bool {
        forall|i: int|
            0 <= i < self.receivers.queue().len() ==> (#[trigger] self.receivers.items()[self.receivers.queue()[i] as int]).live
    }

    /// The spare send numbers are distinct sends that were dropped.
    closed spec fn spare_sends_ok(&self) -> bool {
        &&& self.spare_sends@.no_duplicates()
        &&& forall|k: int|
            0 <= k < self.spare_sends@.len() ==> {
                &&& #[trigger] self.spare_sends@[k] < self.senders.items().len()
                &&& self.senders.items()[self.spare_sends@[k] as int].value is None
                &&& self.senders.items()[self.spare_sends@[k] as int].waker is None
                &&& !self.senders.items()[self.spare_sends@[k] as int].live
            }
    }

    /// The spare receive numbers are distinct receives that were dropped.
    closed spec fn spare_receives_ok(&self) -> bool {
        &&& self.spare_receives@.no_duplicates()
        &&& forall|k: int|
            0 <= k < self.spare_receives@.len() ==> {
                &&& #[trigger] self.spare_receives@[k] < self.receivers.items().len()
                &&& self.receivers.items()[self.spare_receives@[k] as int].waker is None
                &&& !self.receivers.items()[self.spare_receives@[k] as int].live
            }
    }

    /// Well-formedness: both queues are well formed; every waiting send is
    /// live and holds its value and a waker; every waiting receive is live;
    /// the spare numbers are distinct operations that were dropped.
    pub closed spec fn wf(&self) -> bool {
        &&& self.senders.wf()
        &&& self.receivers.wf()
        &&& self.waiting_sends_ok()
        &&& self.waiting_receives_ok()
        &&& self.spare_sends_ok()
        &&& self.spare_receives_ok()
    }

    /// What a well-formed buffer holds: no operation waits twice, waiting
    /// operations are live operations of the buffer, every waiting send
    /// holds its value and a waker, and every spare number names a distinct
    /// dropped operation that does not wait and holds nothing.
    pub proof fn law_buffer_invariant(&self)
        requires
            self.wf(),
        ensures
            self.senders().no_duplicates(),
            self.receivers().no_duplicates(),
            forall|i: int|
                0 <= i < self.senders().len() ==> {
                    &&& self.senders()[i] < self.sends().len()
                    &&& (#[trigger] self.sends()[self.senders()[i] as int]).value is Some
                    &&& self.sends()[self.senders()[i] as int].waker is Some
                    &&& self.sends()[self.senders()[i] as int].live
                },
            forall|i: int|
                0 <= i < self.receivers().len() ==> {
                    &&& self.receivers()[i] < self.receives().len()
                    &&& (#[trigger] self.receives()[self.receivers()[i] as int]).live
                },
            self.spare_sends().no_duplicates(),
            self.spare_receives().no_duplicates(),
            forall|k: int|
                0 <= k < self.spare_sends().len() ==> {
                    &&& #[trigger] self.spare_sends()[k] < self.sends().len()
                    &&& !self.senders().contains(self.spare_sends()[k])
                    &&& self.sends()[self.spare_sends()[k] as int].value is None
                    &&& self.sends()[self.spare_sends()[k] as int].waker is None
                    &&& !self.sends()[self.spare_sends()[k] as int].live
                },
            forall|k: int|
                0 <= k < self.spare_receives().len() ==> {
                    &&& #[trigger] self.spare_receives()[k] < self.receives().len()
                    &&& !self.receivers().contains(self.spare_receives()[k])
                    &&& self.receives()[self.spare_receives()[k] as int].waker is None
                    &&& !self.receives()[self.spare_receives()[k] as int].live
                },
    {
        self.senders.lemma_queue_wf();
        self.receivers.lemma_queue_wf();
        assert forall|k: int| 0 <= k < self.spare_sends().len() implies !self.senders().contains(
            #[trigger] self.spare_sends()[k],
        ) by {
            if self.senders().contains(self.spare_sends()[k]) {
                let i = choose|i: int|
                    0 <= i < self.senders().len() && self.senders()[i] == self.spare_sends()[k];
                assert(self.senders.items()[self.senders.queue()[i] as int].live);
            }
        }
        assert forall|k: int| 0 <= k < self.spare_receives().len() implies !self.receivers().contains(
            #[trigger] self.spare_receives()[k],
        ) by {
            if self.receivers().contains(self.spare_receives()[k]) {
                let i = choose|i: int|
                    0 <= i < self.receivers().len() && self.receivers()[i] == self.spare_receives()[k];
                assert(self.receivers.items()[self.receivers.queue()[i] as int].live);
            }
        }
    }

    /// The waiting sends of `self` are fine when each waited in `before` in
    /// the same state, or is live and holds a value and a waker.
    proof fn lemma_waiting_sends(&self, before: Self)
        requires
            before.waiting_sends_ok(),
            forall|i: int|
                0 <= i < self.senders.queue().len() ==> {
                    let m = #[trigger] self.senders.queue()[i];
                    let s = self.senders.items()[m as int];
                    ||| before.senders.queue().contains(m) && s == before.senders.items()[m as int]
                    ||| s.value is Some && s.waker is Some && s.live
                },
        ensures
            self.waiting_sends_ok(),
    {
        assert forall|i: int| 0 <= i < self.senders.queue().len() implies {
            let s = #[trigger] self.senders.items()[self.senders.queue()[i] as int];
            s.value is Some && s.waker is Some && s.live
        } by {
            let m = self.senders.queue()[i];
            if before.senders.queue().contains(m) && self.senders.items()[m as int]
                == before.senders.items()[m as int] {
                let j = choose|j: int|
                    0 <= j < before.senders.queue().len() && before.senders.queue()[j] == m;
                assert(before.senders.items()[before.senders.queue()[j] as int].live);
            }
        }
    }

    /// The waiting receives of `self` are live when each waited in `before`
    /// in the same state, or is live.
    proof fn lemma_waiting_receives(&self, before: Self)
        requires
            before.waiting_receives_ok(),
            forall|i: int|
                0 <= i < self.receivers.queue().len() ==> {
                    let m = #[trigger] self.receivers.queue()[i];
                    let s = self.receivers.items()[m as int];
                    ||| before.receivers.queue().contains(m) && s == before.receivers.items()[m as int]
                    ||| s.live
                },
        ensures
            self.waiting_receives_ok(),
    {
        assert forall|i: int| 0 <= i < self.receivers.queue().len() implies (#[trigger] self.receivers.items()[self.receivers.queue()[i] as int]).live by {
            let m = self.receivers.queue()[i];
            if before.receivers.queue().contains(m) && self.receivers.items()[m as int]
                == before.receivers.items()[m as int] {
                let j = choose|j: int|
                    0 <= j < before.receivers.queue().len() && before.receivers.queue()[j] == m;
                assert(before.receivers.items()[before.receivers.queue()[j] as int].live);
            }
        }
    }

    /// The spare sends of `self` are fine when they are those of `before`,
    /// none of them changed state, and no send was forgotten.
    proof fn lemma_spare_sends(&self, before: Self)
        requires
            before.spare_sends_ok(),
            self.spare_sends@ == before.spare_sends@,
            self.senders.items().len() >= before.senders.items().len(),
            forall|k: int|
                0 <= k < before.spare_sends@.len() ==> self.senders.items()[#[trigger] before.spare_sends@[k] as int]
                    == before.senders.items()[before.spare_sends@[k] as int],
        ensures
            self.spare_sends_ok(),
    {
        assert forall|k: int| 0 <= k < self.spare_sends@.len() implies {
            &&& #[trigger] self.spare_sends@[k] < self.senders.items().len()
            &&& self.senders.items()[self.spare_sends@[k] as int].value is None
            &&& self.senders.items()[self.spare_sends@[k] as int].waker is None
            &&& !self.senders.items()[self.spare_sends@[k] as int].live
        } by {
            assert(before.spare_sends@[k] < before.senders.items().len());
        }
    }

    /// The spare receives of `self` are fine when they are those of
    /// `before`, none of them changed state, and no receive was forgotten.
    proof fn lemma_spare_receives(&self, before: Self)
        requires
            before.spare_receives_ok(),
            self.spare_receives@ == before.spare_receives@,
            self.receivers.items().len() >= before.receivers.items().len(),
            forall|k: int|
                0 <= k < before.spare_receives@.len() ==> self.receivers.items()[#[trigger] before.spare_receives@[k] as int]
                    == before.receivers.items()[before.spare_receives@[k] as int],
        ensures
            self.spare_receives_ok(),
    {
        assert forall|k: int| 0 <= k < self.spare_receives@.len() implies {
            &&& #[trigger] self.spare_receives@[k] < self.receivers.items().len()
            &&& self.receivers.items()[self.spare_receives@[k] as int].waker is None
            &&& !self.receivers.items()[self.spare_receives@[k] as int].live
        } by {
            assert(before.spare_receives@[k] < before.receivers.items().len());
        }
    }

    /// An empty buffer, of identity 0.
    pub fn new() -> (b: Self)
        ensures
            b.wf(),
            b.has_room_for_send(),
            b.has_room_for_receive(),
            b.identity() == 0,
            b.senders() == Seq::<usize>::empty(),
            b.sends() == Seq::<SendState<T, W>>::empty(),
            b.receivers() == Seq::<usize>::empty(),
            b.receives() == Seq::<ReceiveState<W>>::empty(),
            b.spare_sends() == Seq::<usize>::empty(),
            b.spare_receives() == Seq::<usize>::empty(),
    {
        Self::default()
    }

    /// An empty buffer of identity `identity`. Handles are told apart by
    /// the identity of their buffer, so buffers whose handles may meet should
    /// be given distinct identities.
    pub fn with_identity(identity: u64) -> (b: Self)
        ensures
            b.wf(),
            b.has_room_for_send(),
            b.has_room_for_receive(),
            b.identity() == identity,
            b.senders() == Seq::<usize>::empty(),
            b.sends() == Seq::<SendState<T, W>>::empty(),
            b.receivers() == Seq::<usize>::empty(),
            b.receives() == Seq::<ReceiveState<W>>::empty(),
            b.spare_sends() == Seq::<usize>::empty(),
            b.spare_receives() == Seq::<usize>::empty(),
    {
        Buffer {
            identity,
            senders: LinkedList::new(),
            receivers: LinkedList::new(),
            spare_sends: Vec::new(),
            spare_receives: Vec::new(),
        }
    }

    /// The number of sends made on this buffer, dropped ones included.
    pub fn send_count(&self) -> (r: usize)
        ensures
            r == self.sends().len(),
    {
        self.senders.len()
    }

    /// The number of receives made on this buffer, dropped ones included.
    pub fn receive_count(&self) -> (r: usize)
        ensures
            r == self.receives().len(),
    {
        self.receivers.len()
    }

    /// Whether a new send can be given a number.
    pub fn can_send(&self) -> (r: bool)
        ensures
            r == self.has_room_for_send(),
            r == (self.spare_sends().len() > 0 || self.sends().len() < usize::MAX),
    {
        self.spare_sends.len() > 0 || self.senders.len() < usize::MAX
    }

    /// Whether a new receive can be given a number.
    pub fn can_receive(&self) -> (r: bool)
        ensures
            r == self.has_room_for_receive(),
            r == (self.spare_receives().len() > 0 || self.receives().len() < usize::MAX),
    {
        self.spare_receives.len() > 0 || self.receivers.len() < usize::MAX
    }

    /// Whether `send` is a live send of this buffer: made on a buffer of this
    /// identity, with a number of this buffer, and not dropped.
    pub fn owns_send(&self, send: &Send) -> (r: bool)
        ensures
            r == self.holds_send(send),
    {
        send.buffer == self.identity && send.node < self.senders.len()
            && self.senders.item(send.node).live
    }

    /// Whether `receive` is a live receive of this buffer: made on a buffer
    /// of this identity, with a number of this buffer, and not dropped.
    pub fn owns_receive(&self, receive: &Receive) -> (r: bool)
        ensures
            r == self.holds_receive(receive),
    {
        receive.buffer == self.identity && receive.node < self.receivers.len()
            && self.receivers.item(receive.node).live
    }

    /// Polls `send`; `make_waker` makes the waker to leave, and is called
    /// only if the send is to wait.
    ///
    /// A send whose value was taken is complete and leaves the queue. Any
    /// other send waits at the back of the queue (if it does not wait there
    /// already) with the new waker in place of the waker it left, and hands
    /// back the waker of the first waiting receive, which is taken from it.
    pub fn poll_send<F>(&mut self, send: &Send, make_waker: F) -> (r: SendPoll<W>) where
        F: FnOnce() -> W,
        requires
            old(self).wf(),
            old(self).holds_send(send),
            make_waker.requires(()),
        ensures
            final(self).wf(),
            forall|s: Send| #[trigger] old(self).holds_send(&s) ==> final(self).holds_send(&s),
            forall|r: Receive| #[trigger] old(self).holds_receive(&r) ==> final(self).holds_receive(&r),
            final(self).identity() == old(self).identity(),
            final(self).spare_sends() == old(self).spare_sends(),
            final(self).spare_receives() == old(self).spare_receives(),
            final(self).receivers() == old(self).receivers(),
            old(self).sends()[send@ as int].value is None ==> {
                &&& r is Ready
                &&& final(self).senders() == without(old(self).senders(), send@)
                &&& final(self).sends() == old(self).sends()
                &&& final(self).receives() == old(self).receives()
            },
            old(self).sends()[send@ as int].value is Some ==> {
                &&& final(self).senders() == pushed_back(old(self).senders(), send@)
                &&& final(self).sends() == old(self).sends().update(
                    send@ as int,
                    (SendState {
                        value: old(self).sends()[send@ as int].value,
                        waker: final(self).sends()[send@ as int].waker,
                        live: true,
                    }),
                )
                &&& final(self).sends()[send@ as int].waker matches Some(w) && make_waker.ensures(
                    (),
                    w,
                )
                &&& if old(self).receivers().len() > 0 {
                    let first = old(self).receivers()[0] as int;
                    &&& r == SendPoll::Pending(old(self).receives()[first].waker)
                    &&& final(self).receives() == old(self).receives().update(
                        first,
                        (ReceiveState { waker: None, live: true }),
                    )
                } else {
                    &&& r == SendPoll::<W>::Pending(None)
                    &&& final(self).receives() == old(self).receives()
                }
            },
    {
        let node = send.node;
        proof {
            old(self).senders.lemma_queue_wf();
            old(self).receivers.lemma_queue_wf();
            old(self).law_buffer_invariant();
            crate::linked_list::law_without(old(self).senders.queue(), node);
        }
        if self.senders.item(node).value.is_none() {
            self.senders.remove(node);
            proof {
                let q = self.senders.queue();
                assert forall|i: int| 0 <= i < q.len() implies old(self).senders.queue().contains(
                    #[trigger] q[i],
                ) by {
                    assert(q.contains(q[i]));
                }
                self.lemma_waiting_sends(*old(self));
                self.lemma_waiting_receives(*old(self));
                self.lemma_spare_sends(*old(self));
                self.lemma_spare_receives(*old(self));
            }
            return SendPoll::Ready;
        }
        self.senders.insert_back(node);
        let waker = make_waker();
        let state = self.senders.replace_item(
            node,
            SendState { value: None, waker: None, live: true },
        );
        self.senders.replace_item(node, SendState { value: state.value, waker: Some(waker), live: true });
        proof {
            let q = self.senders.queue();
            let oq = old(self).senders.queue();
            assert forall|i: int| 0 <= i < q.len() implies {
                let m = #[trigger] q[i];
                let s = self.senders.items()[m as int];
                ||| oq.contains(m) && s == old(self).senders.items()[m as int]
                ||| s.value is Some && s.waker is Some && s.live
            } by {
                if q[i] != node {
                    if !oq.contains(node) && i == oq.len() {
                        assert(q[i] == node);
                    } else {
                        assert(q[i] == oq[i]);
                    }
                }
            }
            assert(self.senders.items() =~= old(self).senders.items().update(
                node as int,
                (SendState { value: old(self).sends()[node as int].value, waker: Some(waker), live: true }),
            ));
            assert forall|k: int| 0 <= k < old(self).spare_sends@.len() implies self.senders.items()[
                #[trigger] old(self).spare_sends@[k] as int] == old(self).senders.items()[old(self).spare_sends@[k] as int] by {
                assert(old(self).spare_sends()[k] != node);
            }
            self.lemma_waiting_sends(*old(self));
            self.lemma_spare_sends(*old(self));
        }
        let ghost mid = *self;
        let wake = match self.receivers.get_first() {
            Some(first) => {
                proof {
                    assert(old(self).receivers.items()[old(self).receivers.queue()[0] as int].live);
                }
                let state = self.receivers.replace_item(first.node(), ReceiveState { waker: None, live: true });
                state.waker
            },
            None => None,
        };
        proof {
            let rq = self.receivers.queue();
            if rq.len() > 0 {
                assert forall|k: int| 0 <= k < old(self).spare_receives@.len() implies self.receivers.items()[
                    #[trigger] old(self).spare_receives@[k] as int] == old(self).receivers.items()[old(self).spare_receives@[k] as int] by {
                    assert(old(self).spare_receives()[k] != rq[0]);
                }
            }
            assert forall|i: int| 0 <= i < rq.len() implies {
                let m = #[trigger] rq[i];
                let s = self.receivers.items()[m as int];
                ||| old(self).receivers.queue().contains(m) && s == old(self).receivers.items()[m as int]
                ||| s.live
            } by {
                assert(old(self).receivers.queue().contains(rq[i]));
                assert(old(self).receives()[rq[i] as int].live);
            }
            self.lemma_waiting_receives(*old(self));
            self.lemma_spare_receives(*old(self));
        }
        SendPoll::Pending(wake)
    }

    /// Polls `receive`; `make_waker` makes the waker to leave, and is called
    /// only if the receive is to wait.
    ///
    /// If a send waits, the first one is taken out of the queue, its value
    /// and its waker are taken from it, and the receive is complete: it
    /// leaves the queue and hands back the value and the waker to wake.
    /// Otherwise the receive waits at the back of the queue (if it does not
    /// wait there already) with the new waker in place of the waker it left.
    pub fn poll_receive<F>(&mut self, receive: &Receive, make_waker: F) -> (r: ReceivePoll<T, W>) where
        F: FnOnce() -> W,
        requires
            old(self).wf(),
            old(self).holds_receive(receive),
            make_waker.requires(()),
        ensures
            final(self).wf(),
            forall|s: Send| #[trigger] old(self).holds_send(&s) ==> final(self).holds_send(&s),
            forall|r: Receive| #[trigger] old(self).holds_receive(&r) ==> final(self).holds_receive(&r),
            final(self).identity() == old(self).identity(),
            final(self).spare_sends() == old(self).spare_sends(),
            final(self).spare_receives() == old(self).spare_receives(),
            old(self).senders().len() > 0 ==> {
                let first = old(self).senders()[0];
                &&& old(self).sends()[first as int].value is Some
                &&& old(self).sends()[first as int].waker is Some
                &&& r == ReceivePoll::Ready(
                    old(self).sends()[first as int].value->0,
                    old(self).sends()[first as int].waker->0,
                )
                &&& final(self).senders() == old(self).senders().drop_first()
                &&& final(self).sends() == old(self).sends().update(
                    first as int,
                    (SendState { value: None, waker: None, live: true }),
                )
                &&& final(self).receivers() == without(old(self).receivers(), receive@)
                &&& final(self).receives() == old(self).receives()
            },
            old(self).senders().len() == 0 ==> {
                &&& r is Pending
                &&& final(self).senders() == old(self).senders()
                &&& final(self).sends() == old(self).sends()
                &&& final(self).receivers() == pushed_back(old(self).receivers(), receive@)
                &&& final(self).receives() == old(self).receives().update(
                    receive@ as int,
                    (ReceiveState { waker: final(self).receives()[receive@ as int].waker, live: true }),
                )
                &&& final(self).receives()[receive@ as int].waker matches Some(w)
                    && make_waker.ensures((), w)
            },
    {
        let node = receive.node;
        proof {
            old(self).senders.lemma_queue_wf();
            old(self).receivers.lemma_queue_wf();
            old(self).law_buffer_invariant();
            crate::linked_list::law_without(old(self).receivers.queue(), node);
        }
        match self.senders.get_first() {
            Some(first) => {
                let sender = first.node();
                proof {
                    let oq = old(self).senders.queue();
                    crate::linked_list::law_without(oq, sender);
                    crate::linked_list::lemma_index_of_unique(oq, 0);
                    assert(oq.remove(0) =~= oq.drop_first());
                    assert(old(self).senders.items()[oq[0] as int].value is Some);
                }
                self.senders.remove(sender);
                let state = self.senders.replace_item(
                    sender,
                    SendState { value: None, waker: None, live: true },
                );
                self.receivers.remove(node);
                proof {
                    let q = self.senders.queue();
                    let oq = old(self).senders.queue();
                    assert forall|i: int| 0 <= i < q.len() implies {
                        let m = #[trigger] q[i];
                        let s = self.senders.items()[m as int];
                        ||| oq.contains(m) && s == old(self).senders.items()[m as int]
                        ||| s.value is Some && s.waker is Some && s.live
                    } by {
                        assert(q[i] == oq[i + 1]);
                        assert(oq.contains(oq[i + 1]));
                    }
                    assert forall|k: int| 0 <= k < old(self).spare_sends@.len() implies self.senders.items()[
                        #[trigger] old(self).spare_sends@[k] as int] == old(self).senders.items()[old(self).spare_sends@[k] as int] by {
                        assert(old(self).spare_sends()[k] != sender);
                    }
                    let rq = self.receivers.queue();
                    assert forall|i: int| 0 <= i < rq.len() implies {
                        let m = #[trigger] rq[i];
                        let s = self.receivers.items()[m as int];
                        ||| old(self).receivers.queue().contains(m) && s == old(self).receivers.items()[m as int]
                        ||| s.live
                    } by {
                        assert(rq.contains(rq[i]));
                    }
                    self.lemma_waiting_sends(*old(self));
                    self.lemma_spare_sends(*old(self));
                    self.lemma_waiting_receives(*old(self));
                    self.lemma_spare_receives(*old(self));
                }
                match (state.value, state.waker) {
                    (Some(value), Some(sender_waker)) => ReceivePoll::Ready(value, sender_waker),
                    _ => {
                        proof {
                            assert(false);
                        }
                        ReceivePoll::Pending
                    },
                }
            },
            None => {
                self.receivers.insert_back(node);
                let waker = make_waker();
                self.receivers.replace_item(node, ReceiveState { waker: Some(waker), live: true });
                proof {
                    let rq = self.receivers.queue();
                    let oq = old(self).receivers.queue();
                    assert forall|i: int| 0 <= i < rq.len() implies {
                        let m = #[trigger] rq[i];
                        let s = self.receivers.items()[m as int];
                        ||| oq.contains(m) && s == old(self).receivers.items()[m as int]
                        ||| s.live
                    } by {
                        if rq[i] != node {
                            if !oq.contains(node) && i == oq.len() {
                                assert(rq[i] == node);
                            } else {
                                assert(rq[i] == oq[i]);
                            }
                        }
                    }
                    assert forall|k: int| 0 <= k < old(self).spare_receives@.len() implies self.receivers.items()[
                        #[trigger] old(self).spare_receives@[k] as int] == old(self).receivers.items()[old(self).spare_receives@[k] as int] by {
                        assert(old(self).spare_receives()[k] != node);
                    }
                    assert(self.receivers.items() =~= old(self).receivers.items().update(
                        node as int,
                        (ReceiveState { waker: Some(waker), live: true }),
                    ));
                    self.lemma_waiting_receives(*old(self));
                    self.lemma_spare_receives(*old(self));
                }
                ReceivePoll::Pending
            },
        }
    }

    /// Drops `send`: it leaves the queue, its value, if not taken, and its
    /// waker are dropped, and its number becomes spare.
    pub fn drop_send(&mut self, send: Send)
        requires
            old(self).wf(),
            old(self).holds_send(&send),
        ensures
            final(self).wf(),
            forall|s: Send|
                #[trigger] old(self).holds_send(&s) && s@ != send@ ==> final(self).holds_send(&s),
            !final(self).holds_send(&send),
            forall|r: Receive| #[trigger] old(self).holds_receive(&r) ==> final(self).holds_receive(&r),
            final(self).identity() == old(self).identity(),
            final(self).senders() == without(old(self).senders(), send@),
            final(self).sends() == old(self).sends().update(
                send@ as int,
                (SendState { value: None, waker: None, live: false }),
            ),
            final(self).spare_sends() == old(self).spare_sends().push(send@),
            final(self).spare_receives() == old(self).spare_receives(),
            final(self).receivers() == old(self).receivers(),
            final(self).receives() == old(self).receives(),
    {
        let node = send.node;
        proof {
            old(self).senders.lemma_queue_wf();
            old(self).law_buffer_invariant();
            crate::linked_list::law_without(old(self).senders.queue(), node);
        }
        self.senders.remove(node);
        self.senders.replace_item(node, SendState { value: None, waker: None, live: false });
        self.spare_sends.push(node);
        proof {
            let q = self.senders.queue();
            assert forall|i: int| 0 <= i < q.len() implies {
                let m = #[trigger] q[i];
                let s = self.senders.items()[m as int];
                ||| old(self).senders.queue().contains(m) && s == old(self).senders.items()[m as int]
                ||| s.value is Some && s.waker is Some && s.live
            } by {
                assert(q.contains(q[i]));
                assert(q[i] != node);
            }
            self.lemma_waiting_sends(*old(self));
            let sp = self.spare_sends@;
            let osp = old(self).spare_sends@;
            assert forall|a: int, b: int| 0 <= a < sp.len() && 0 <= b < sp.len() && a != b implies sp[a] != sp[b] by {
                if a < osp.len() && b < osp.len() {
                    assert(sp[a] == osp[a] && sp[b] == osp[b]);
                } else if a < osp.len() {
                    assert(osp[a] != node);
                } else if b < osp.len() {
                    assert(osp[b] != node);
                }
            }
            assert forall|k: int| 0 <= k < sp.len() implies {
                &&& #[trigger] sp[k] < self.senders.items().len()
                &&& self.senders.items()[sp[k] as int].value is None
                &&& self.senders.items()[sp[k] as int].waker is None
                &&& !self.senders.items()[sp[k] as int].live
            } by {
                if k < osp.len() {
                    assert(sp[k] == osp[k]);
                    assert(osp[k] != node);
                    assert(old(self).spare_sends()[k] < old(self).sends().len());
                }
            }
        }
    }

    /// Drops `receive`: it leaves the queue, its waker is dropped, and its
    /// number becomes spare.
    pub fn drop_receive(&mut self, receive: Receive)
        requires
            old(self).wf(),
            old(self).holds_receive(&receive),
        ensures
            final(self).wf(),
            forall|s: Send| #[trigger] old(self).holds_send(&s) ==> final(self).holds_send(&s),
            forall|r: Receive|
                #[trigger] old(self).holds_receive(&r) && r@ != receive@ ==> final(self).holds_receive(&r),
            !final(self).holds_receive(&receive),
            final(self).identity() == old(self).identity(),
            final(self).receivers() == without(old(self).receivers(), receive@),
            final(self).receives() == old(self).receives().update(
                receive@ as int,
                (ReceiveState { waker: None, live: false }),
            ),
            final(self).spare_receives() == old(self).spare_receives().push(receive@),
            final(self).spare_sends() == old(self).spare_sends(),
            final(self).senders() == old(self).senders(),
            final(self).sends() == old(self).sends(),
    {
        let node = receive.node;
        proof {
            old(self).receivers.lemma_queue_wf();
            old(self).law_buffer_invariant();
            crate::linked_list::law_without(old(self).receivers.queue(), node);
        }
        self.receivers.remove(node);
        self.receivers.replace_item(node, ReceiveState { waker: None, live: false });
        self.spare_receives.push(node);
        proof {
            let q = self.receivers.queue();
            assert forall|i: int| 0 <= i < q.len() implies {
                let m = #[trigger] q[i];
                let s = self.receivers.items()[m as int];
                ||| old(self).receivers.queue().contains(m) && s == old(self).receivers.items()[m as int]
                ||| s.live
            } by {
                assert(q.contains(q[i]));
                assert(q[i] != node);
            }
            self.lemma_waiting_receives(*old(self));
            let sp = self.spare_receives@;
            let osp = old(self).spare_receives@;
            assert forall|a: int, b: int| 0 <= a < sp.len() && 0 <= b < sp.len() && a != b implies sp[a] != sp[b] by {
                if a < osp.len() && b < osp.len() {
                    assert(sp[a] == osp[a] && sp[b] == osp[b]);
                } else if a < osp.len() {
                    assert(osp[a] != node);
                } else if b < osp.len() {
                    assert(osp[b] != node);
                }
            }
            assert forall|k: int| 0 <= k < sp.len() implies {
                &&& #[trigger] sp[k] < self.receivers.items().len()
                &&& self.receivers.items()[sp[k] as int].waker is None
                &&& !self.receivers.items()[sp[k] as int].live
            } by {
                if k < osp.len() {
                    assert(sp[k] == osp[k]);
                    assert(osp[k] != node);
                    assert(old(self).spare_receives()[k] < old(self).receives().len());
                }
            }
        }
    }

    /// Starts sending `value`: the send holds it until a receive takes it.
    /// It takes the number of the last dropped send if there is one, and a
    /// new number otherwise. Neither queue changes: the send does not wait
    /// before it is first polled.
    pub fn send(&mut self, value: T) -> (send: Send)
        requires
            old(self).wf(),
            old(self).has_room_for_send(),
        ensures
            final(self).wf(),
            forall|s: Send| #[trigger] old(self).holds_send(&s) ==> final(self).holds_send(&s),
            forall|r: Receive| #[trigger] old(self).holds_receive(&r) ==> final(self).holds_receive(&r),
            final(self).identity() == old(self).identity(),
            final(self).holds_send(&send),
            !final(self).senders().contains(send@),
            final(self).senders() == old(self).senders(),
            final(self).receivers() == old(self).receivers(),
            final(self).receives() == old(self).receives(),
            final(self).spare_receives() == old(self).spare_receives(),
            old(self).spare_sends().len() > 0 ==> {
                &&& send@ == old(self).spare_sends().last()
                &&& final(self).spare_sends() == old(self).spare_sends().drop_last()
                &&& final(self).sends() == old(self).sends().update(
                    send@ as int,
                    (SendState { value: Some(value), waker: None, live: true }),
                )
            },
            old(self).spare_sends().len() == 0 ==> {
                &&& send@ == old(self).sends().len()
                &&& final(self).spare_sends() == old(self).spare_sends()
                &&& final(self).sends() == old(self).sends().push(
                    (SendState { value: Some(value), waker: None, live: true }),
                )
            },
    {
        proof {
            old(self).senders.lemma_queue_wf();
            old(self).law_buffer_invariant();
        }
        match self.spare_sends.pop() {
            Some(node) => {
                proof {
                    let osp = old(self).spare_sends@;
                    assert(osp[osp.len() - 1] == node);
                    assert(old(self).spare_sends()[osp.len() - 1] == node);
                }
                self.senders.replace_item(node, SendState { value: Some(value), waker: None, live: true });
                proof {
                    let q = self.senders.queue();
                    assert forall|i: int| 0 <= i < q.len() implies {
                        let m = #[trigger] q[i];
                        let s = self.senders.items()[m as int];
                        ||| old(self).senders.queue().contains(m) && s == old(self).senders.items()[m as int]
                        ||| s.value is Some && s.waker is Some && s.live
                    } by {
                        assert(q.contains(q[i]));
                    }
                    self.lemma_waiting_sends(*old(self));
                    let sp = self.spare_sends@;
                    let osp = old(self).spare_sends@;
                    assert forall|a: int, b: int| 0 <= a < sp.len() && 0 <= b < sp.len() && a != b implies sp[a] != sp[b] by {
                        assert(sp[a] == osp[a] && sp[b] == osp[b]);
                    }
                    assert forall|k: int| 0 <= k < sp.len() implies {
                        &&& #[trigger] sp[k] < self.senders.items().len()
                        &&& self.senders.items()[sp[k] as int].value is None
                        &&& self.senders.items()[sp[k] as int].waker is None
                        &&& !self.senders.items()[sp[k] as int].live
                    } by {
                        assert(sp[k] == osp[k]);
                        assert(osp[k] != node);
                        assert(old(self).spare_sends()[k] < old(self).sends().len());
                    }
                }
                Send { buffer: self.identity, node }
            },
            None => {
                let node = self.senders.add(SendState { value: Some(value), waker: None, live: true });
                proof {
                    assert forall|k: int| 0 <= k < old(self).spare_sends@.len() implies self.senders.items()[
                        #[trigger] old(self).spare_sends@[k] as int] == old(self).senders.items()[old(self).spare_sends@[k] as int] by {
                        assert(old(self).spare_sends()[k] < old(self).sends().len());
                    }
                    self.lemma_waiting_sends(*old(self));
                    self.lemma_spare_sends(*old(self));
                    assert(self.senders.queue() == old(self).senders.queue());
                    if self.senders.queue().contains(node) {
                        let i = choose|i: int| 0 <= i < self.senders.queue().len() && self.senders.queue()[i] == node;
                        assert(old(self).senders()[i] < old(self).sends().len());
                    }
                }
                Send { buffer: self.identity, node }
            },
        }
    }

    /// Starts a receive. It takes the number of the last dropped receive if
    /// there is one, and a new number otherwise. Neither queue changes: the
    /// receive does not wait before it is first polled.
    pub fn receive(&mut self) -> (receive: Receive)
        requires
            old(self).wf(),
            old(self).has_room_for_receive(),
        ensures
            final(self).wf(),
            forall|s: Send| #[trigger] old(self).holds_send(&s) ==> final(self).holds_send(&s),
            forall|r: Receive| #[trigger] old(self).holds_receive(&r) ==> final(self).holds_receive(&r),
            final(self).identity() == old(self).identity(),
            final(self).holds_receive(&receive),
            !final(self).receivers().contains(receive@),
            final(self).receivers() == old(self).receivers(),
            final(self).senders() == old(self).senders(),
            final(self).sends() == old(self).sends(),
            final(self).spare_sends() == old(self).spare_sends(),
            old(self).spare_receives().len() > 0 ==> {
                &&& receive@ == old(self).spare_receives().last()
                &&& final(self).spare_receives() == old(self).spare_receives().drop_last()
                &&& final(self).receives() == old(self).receives().update(
                    receive@ as int,
                    (ReceiveState { waker: None, live: true }),
                )
            },
            old(self).spare_receives().len() == 0 ==> {
                &&& receive@ == old(self).receives().len()
                &&& final(self).spare_receives() == old(self).spare_receives()
                &&& final(self).receives() == old(self).receives().push(
                    (ReceiveState { waker: None, live: true }),
                )
            },
    {
        proof {
            old(self).receivers.lemma_queue_wf();
            old(self).law_buffer_invariant();
        }
        match self.spare_receives.pop() {
            Some(node) => {
                proof {
                    let osp = old(self).spare_receives@;
                    assert(osp[osp.len() - 1] == node);
                    assert(old(self).spare_receives()[osp.len() - 1] == node);
                }
                self.receivers.replace_item(node, ReceiveState { waker: None, live: true });
                proof {
                    let q = self.receivers.queue();
                    assert forall|i: int| 0 <= i < q.len() implies {
                        let m = #[trigger] q[i];
                        let s = self.receivers.items()[m as int];
                        ||| old(self).receivers.queue().contains(m) && s == old(self).receivers.items()[m as int]
                        ||| s.live
                    } by {
                        assert(q.contains(q[i]));
                    }
                    self.lemma_waiting_receives(*old(self));
                    let sp = self.spare_receives@;
                    let osp = old(self).spare_receives@;
                    assert forall|a: int, b: int| 0 <= a < sp.len() && 0 <= b < sp.len() && a != b implies sp[a] != sp[b] by {
                        assert(sp[a] == osp[a] && sp[b] == osp[b]);
                    }
                    assert forall|k: int| 0 <= k < sp.len() implies {
                        &&& #[trigger] sp[k] < self.receivers.items().len()
                        &&& self.receivers.items()[sp[k] as int].waker is None
                        &&& !self.receivers.items()[sp[k] as int].live
                    } by {
                        assert(sp[k] == osp[k]);
                        assert(osp[k] != node);
                        assert(old(self).spare_receives()[k] < old(self).receives().len());
                    }
                }
                Receive { buffer: self.identity, node }
            },
            None => {
                let node = self.receivers.add(ReceiveState { waker: None, live: true });
                proof {
                    assert forall|k: int| 0 <= k < old(self).spare_receives@.len() implies self.receivers.items()[
                        #[trigger] old(self).spare_receives@[k] as int] == old(self).receivers.items()[old(self).spare_receives@[k] as int] by {
                        assert(old(self).spare_receives()[k] < old(self).receives().len());
                    }
                    self.lemma_waiting_receives(*old(self));
                    self.lemma_spare_receives(*old(self));
                    if self.receivers.queue().contains(node) {
                        let i = choose|i: int| 0 <= i < self.receivers.queue().len() && self.receivers.queue()[i] == node;
                        assert(old(self).receivers()[i] < old(self).receives().len());
                    }
                }
                Receive { buffer: self.identity, node }
            },
        }
    }
}

} // verus!
