use vstd::prelude::*;

use crate::engine::{LoopState, OverflowPolicy, RelayModel, StepModel, SubmitModel};
use crate::message::{MessageModel, RelayError};

verus! {

/// One thing that can happen to the relay.
pub ghost enum Event {
    Submit(MessageModel),
    Open,
    /// A forwarding loop reports its write, successful or not.
    Finish(u64, bool),
    Disconnect(u64),
    Close,
}

impl RelayModel {
    /// The relay after `e`. A report from a loop that is not forwarding
    /// changes nothing.
    pub open spec fn step(self, e: Event) -> RelayModel {
        match e {
            Event::Submit(m) => self.submit_next(m).0,
            Event::Open => self.open_next().0,
            Event::Finish(c, ok) => if self.state_of(c) == LoopState::Forwarding {
                self.finish_next(c, ok).0
            } else {
                self
            },
            Event::Disconnect(c) => self.disconnect_next(c),
            Event::Close => self.close_next(),
        }
    }

    /// The messages that `e` lets into the channel.
    pub open spec fn admitted(self, e: Event) -> Seq<MessageModel> {
        match e {
            Event::Submit(m) => match self.submit_next(m).1 {
                SubmitModel::Rejected(_) => Seq::empty(),
                _ => seq![m],
            },
            _ => Seq::empty(),
        }
    }

    /// The messages that leave the channel during `e`: claimed by a loop, or
    /// evicted.
    pub open spec fn departed(self, e: Event) -> Seq<MessageModel> {
        match e {
            Event::Submit(m) => match self.submit_next(m).1 {
                SubmitModel::Claimed(_, x) => seq![x],
                SubmitModel::Queued(Some(x)) => seq![x],
                _ => Seq::empty(),
            },
            Event::Open => match self.open_next().1 {
                Some((_, StepModel::Claimed(x))) => seq![x],
                _ => Seq::empty(),
            },
            Event::Finish(c, ok) => if self.state_of(c) == LoopState::Forwarding {
                match self.finish_next(c, ok).1 {
                    StepModel::Claimed(x) => seq![x],
                    _ => Seq::empty(),
                }
            } else {
                Seq::empty()
            },
            _ => Seq::empty(),
        }
    }

    /// The relay after every event of `es`, in order.
    pub open spec fn run(self, es: Seq<Event>) -> RelayModel
        decreases es.len(),
    {
        if es.len() == 0 {
            self
        } else {
            self.run(es.drop_last()).step(es.last())
        }
    }

    /// Every message that entered the channel during `es`, in order.
    pub open spec fn arrivals(self, es: Seq<Event>) -> Seq<MessageModel>
        decreases es.len(),
    {
        if es.len() == 0 {
            Seq::empty()
        } else {
            self.arrivals(es.drop_last()) + self.run(es.drop_last()).admitted(es.last())
        }
    }

    /// Every message that left the channel during `es`, in order.
    pub open spec fn departures(self, es: Seq<Event>) -> Seq<MessageModel>
        decreases es.len(),
    {
        if es.len() == 0 {
            Seq::empty()
        } else {
            self.departures(es.drop_last()) + self.run(es.drop_last()).departed(es.last())
        }
    }
}

/// Every event keeps the relay well formed.
pub proof fn lemma_step_wf(v: RelayModel, e: Event)
    requires
        v.wf(),
    ensures
        v.step(e).wf(),
{
    match e {
        Event::Submit(m) => v.lemma_submit_wf(m),
        Event::Open => v.lemma_open_wf(),
        Event::Finish(c, ok) => if v.state_of(c) == LoopState::Forwarding {
            v.lemma_finish_wf(c, ok);
        },
        Event::Disconnect(c) => v.lemma_disconnect_wf(c),
        Event::Close => v.lemma_close_wf(),
    }
}

/// Within one event the channel is a FIFO: what was pending, followed by what
/// was admitted, is what departed from the front followed by what is pending.
pub proof fn lemma_step_fifo(v: RelayModel, e: Event)
    requires
        v.wf(),
    ensures
        v.pending + v.admitted(e) == v.departed(e) + v.step(e).pending,
{
    let w = v.step(e);
    match e {
        Event::Submit(m) => {
            if !v.closed && v.waiters.len() > 0 {
                assert(v.pending.len() == 0);
            }
            if !v.closed && v.waiters.len() == 0 && v.pending.len() >= v.capacity && v.policy
                == OverflowPolicy::DropOldest {
                assert(v.pending.len() > 0);
            }
        },
        _ => {},
    }
    assert(v.pending + v.admitted(e) =~= v.departed(e) + w.pending);
}

/// Capacity, and the rest of the relay's invariant, hold in every state
/// reachable from a well-formed one: in particular no more than `capacity`
/// messages are ever pending.
pub proof fn lemma_run_wf(v: RelayModel, es: Seq<Event>)
    requires
        v.wf(),
    ensures
        v.run(es).wf(),
        v.run(es).pending.len() <= v.capacity,
        v.run(es).capacity == v.capacity,
        v.run(es).policy == v.policy,
    decreases es.len(),
{
    if es.len() > 0 {
        lemma_run_wf(v, es.drop_last());
        lemma_step_wf(v.run(es.drop_last()), es.last());
    }
}

/// Exactly-once, first-in first-out delivery over any sequence of events:
/// the messages that leave the channel, claimed or evicted, are a prefix of
/// what was pending followed by every message admitted, in that order, and
/// the rest is what is still pending. No message leaves twice, and none
/// leaves before one admitted earlier.
pub proof fn lemma_fifo_exactly_once(v: RelayModel, es: Seq<Event>)
    requires
        v.wf(),
    ensures
        v.pending + v.arrivals(es) == v.departures(es) + v.run(es).pending,
    decreases es.len(),
{
    if es.len() > 0 {
        let es0 = es.drop_last();
        let u = v.run(es0);
        lemma_fifo_exactly_once(v, es0);
        lemma_run_wf(v, es0);
        lemma_step_fifo(u, es.last());
        assert(v.pending + v.arrivals(es) =~= (v.pending + v.arrivals(es0)) + u.admitted(es.last()));
        assert(v.departures(es) + v.run(es).pending =~= v.departures(es0) + (u.departed(es.last())
            + u.step(es.last()).pending));
    } else {
        assert(v.pending + v.arrivals(es) =~= v.departures(es) + v.run(es).pending);
    }
}

/// A message submitted while some loop waits is claimed at once by exactly
/// one loop, the one that has waited longest; every other loop stays as it
/// was, and the message is not kept in the channel.
pub proof fn lemma_exactly_one_claim(v: RelayModel, m: MessageModel)
    requires
        v.wf(),
        !v.closed,
        v.waiters.len() > 0,
    ensures
        v.submit_next(m).1 == SubmitModel::Claimed(v.waiters[0], m),
        v.submit_next(m).0.state_of(v.waiters[0]) == LoopState::Forwarding,
        forall|c: u64|
            c != v.waiters[0] ==> #[trigger] v.submit_next(m).0.state_of(c) == v.state_of(c),
        v.submit_next(m).0.pending == v.pending,
        v.pending.len() == 0,
{
    let w = v.submit_next(m).0;
    let first = v.waiters[0];
    crate::engine::lemma_drop_first(v.waiters);
    crate::engine::lemma_push_contains(v.forwarding, first);
    assert(v.waiters.contains(first));
    assert forall|c: u64| c != first implies #[trigger] w.state_of(c) == v.state_of(c) by {
        assert(w.waiters.contains(c) == v.waiters.contains(c));
        assert(w.forwarding.contains(c) == v.forwarding.contains(c));
    }
}

/// Under block-on-full a full channel refuses and stays as it is; under
/// drop-oldest it evicts its oldest message for the new one and stays full.
pub proof fn lemma_capacity_policy(v: RelayModel, m: MessageModel)
    requires
        v.wf(),
        !v.closed,
        v.pending.len() == v.capacity,
    ensures
        v.policy == OverflowPolicy::Block ==> v.submit_next(m) == (v, SubmitModel::Rejected(
            RelayError::Full,
        )),
        v.policy == OverflowPolicy::DropOldest ==> {
            &&& v.submit_next(m).1 == SubmitModel::Queued(Some(v.pending[0]))
            &&& v.submit_next(m).0.pending == v.pending.drop_first().push(m)
            &&& v.submit_next(m).0.pending.len() == v.capacity
        },
{
    assert(v.waiters.len() == 0);
}

/// A loop that fails while forwarding, by a failed write or by its peer
/// closing, leaves the other loops and the channel as they were: the next
/// submission has the same outcome as it would have had without the failure.
pub proof fn lemma_failure_isolated(v: RelayModel, c: u64, m: MessageModel)
    requires
        v.wf(),
        v.state_of(c) == LoopState::Forwarding,
    ensures
        v.finish_next(c, false).0.waiters == v.waiters,
        v.finish_next(c, false).0.pending == v.pending,
        v.finish_next(c, false).0.submit_next(m).1 == v.submit_next(m).1,
        v.disconnect_next(c).waiters == v.waiters,
        v.disconnect_next(c).pending == v.pending,
        v.disconnect_next(c).submit_next(m).1 == v.submit_next(m).1,
{
    crate::engine::lemma_without(v.waiters, c);
}

/// Closing wakes every waiting loop at once and ends it; the channel then
/// refuses every submission, and a loop that starts afterwards on a drained
/// channel ends at once.
pub proof fn lemma_shutdown_wakes_all(v: RelayModel, m: MessageModel)
    requires
        v.wf(),
    ensures
        forall|c: u64|
            v.state_of(c) == LoopState::Waiting ==> #[trigger] v.close_next().state_of(c)
                == LoopState::Closed,
        v.close_next().waiters.len() == 0,
        v.close_next().submit_next(m) == (v.close_next(), SubmitModel::Rejected(
            RelayError::ChannelClosed,
        )),
        v.pending.len() == 0 && v.next_conn < u64::MAX ==> v.close_next().open_next().1 == Some(
            (v.next_conn as u64, StepModel::Closed),
        ),
{
    assert forall|c: u64| v.state_of(c) == LoopState::Waiting implies #[trigger] v.close_next().state_of(
        c,
    ) == LoopState::Closed by {
        assert(!v.forwarding.contains(c));
    }
}

} // verus!
