use std::collections::VecDeque;
use vstd::prelude::*;

use crate::message::{Message, MessageModel, RelayError};

verus! {

broadcast use vstd::seq_lib::group_seq_properties;

/// What `submit` does when the channel already holds `capacity` messages.
#[derive(Clone, Copy, Debug, PartialEq, Eq, Structural)]
pub enum OverflowPolicy {
    /// Refuse for now; the producer waits until a claim frees a slot.
    Block,
    /// Evict the oldest unclaimed message to make room.
    DropOldest,
}

/// Where a consumer loop stands.
#[derive(Clone, Copy, Debug, PartialEq, Eq, Structural)]
pub enum LoopState {
    /// Registered and queued for the next message.
    Waiting,
    /// Holds a claimed message and is writing it to its connection.
    Forwarding,
    /// Terminal: not registered (never was, or deregistered).
    Closed,
}

/// The relay as a mathematical value.
pub ghost struct RelayModel {
    /// Unclaimed messages, oldest first.
    pub pending: Seq<MessageModel>,
    /// Waiting consumer loops, in their order of arrival.
    pub waiters: Seq<u64>,
    /// Consumer loops that hold a claimed message.
    pub forwarding: Seq<u64>,
    pub capacity: nat,
    pub policy: OverflowPolicy,
    pub closed: bool,
    /// The identifier that the next connection gets.
    pub next_conn: nat,
}

/// The outcome of a submission, as a value.
pub ghost enum SubmitModel {
    /// Handed at once to the waiting loop `conn`.
    Claimed(u64, MessageModel),
    /// Stored; under drop-oldest, with the message that was evicted for it.
    Queued(Option<MessageModel>),
    Rejected(RelayError),
}

/// What a consumer loop does next, as a value.
pub ghost enum StepModel {
    Claimed(MessageModel),
    Waiting,
    Closed,
}

/// `s` with every occurrence of `c` taken out.
pub open spec fn without(s: Seq<u64>, c: u64) -> Seq<u64>
    decreases s.len(),
{
    if s.len() == 0 {
        s
    } else if s.last() == c {
        without(s.drop_last(), c)
    } else {
        without(s.drop_last(), c).push(s.last())
    }
}

/// The state that a loop is left in by a step.
pub open spec fn step_state(s: StepModel) -> LoopState {
    match s {
        StepModel::Claimed(_) => LoopState::Forwarding,
        StepModel::Waiting => LoopState::Waiting,
        StepModel::Closed => LoopState::Closed,
    }
}

impl RelayModel {
    /// The relay's invariant: the channel holds at most `capacity` messages,
    /// loops wait only while nothing is pending and never on a closed channel,
    /// and each connection is waiting or forwarding at most once, not both.
    pub open spec fn wf(self) -> bool {
        &&& self.capacity > 0
        &&& self.pending.len() <= self.capacity
        &&& self.waiters.len() > 0 ==> self.pending.len() == 0
        &&& self.closed ==> self.waiters.len() == 0
        &&& self.waiters.no_duplicates()
        &&& self.forwarding.no_duplicates()
        &&& forall|c: u64| self.waiters.contains(c) ==> !self.forwarding.contains(c)
        &&& forall|c: u64| self.waiters.contains(c) ==> c < self.next_conn
        &&& forall|c: u64| self.forwarding.contains(c) ==> c < self.next_conn
        &&& self.next_conn <= u64::MAX
    }

    pub open spec fn state_of(self, c: u64) -> LoopState {
        if self.waiters.contains(c) {
            LoopState::Waiting
        } else if self.forwarding.contains(c) {
            LoopState::Forwarding
        } else {
            LoopState::Closed
        }
    }

    /// An empty, open relay.
    pub open spec fn initial(capacity: nat, policy: OverflowPolicy) -> RelayModel {
        RelayModel {
            pending: Seq::empty(),
            waiters: Seq::empty(),
            forwarding: Seq::empty(),
            capacity,
            policy,
            closed: false,
            next_conn: 0,
        }
    }

    /// Enqueue `m`: the oldest waiting loop claims it, else it is stored
    /// under the overflow policy.
    pub open spec fn submit_next(self, m: MessageModel) -> (RelayModel, SubmitModel) {
        if self.closed {
            (self, SubmitModel::Rejected(RelayError::ChannelClosed))
        } else if self.waiters.len() > 0 {
            (
                RelayModel {
                    waiters: self.waiters.drop_first(),
                    forwarding: self.forwarding.push(self.waiters[0]),
                    ..self
                },
                SubmitModel::Claimed(self.waiters[0], m),
            )
        } else if self.pending.len() < self.capacity {
            (RelayModel { pending: self.pending.push(m), ..self }, SubmitModel::Queued(None))
        } else if self.policy == OverflowPolicy::Block {
            (self, SubmitModel::Rejected(RelayError::Full))
        } else {
            (
                RelayModel { pending: self.pending.drop_first().push(m), ..self },
                SubmitModel::Queued(Some(self.pending[0])),
            )
        }
    }

    /// A new connection: its loop claims the oldest pending message if there is
    /// one, ends at once on a closed channel, and waits otherwise.
    pub open spec fn open_next(self) -> (RelayModel, Option<(u64, StepModel)>) {
        if self.next_conn >= u64::MAX {
            (self, None)
        } else {
            let c = self.next_conn as u64;
            let v = RelayModel { next_conn: self.next_conn + 1, ..self };
            if self.pending.len() > 0 {
                (
                    RelayModel {
                        pending: self.pending.drop_first(),
                        forwarding: self.forwarding.push(c),
                        ..v
                    },
                    Some((c, StepModel::Claimed(self.pending[0]))),
                )
            } else if self.closed {
                (v, Some((c, StepModel::Closed)))
            } else {
                (RelayModel { waiters: self.waiters.push(c), ..v }, Some((c, StepModel::Waiting)))
            }
        }
    }

    /// The forwarding loop `c` finished its write, with success or not.
    pub open spec fn finish_next(self, c: u64, written: bool) -> (RelayModel, StepModel) {
        if !written {
            (RelayModel { forwarding: without(self.forwarding, c), ..self }, StepModel::Closed)
        } else if self.pending.len() > 0 {
            (
                RelayModel { pending: self.pending.drop_first(), ..self },
                StepModel::Claimed(self.pending[0]),
            )
        } else if self.closed {
            (RelayModel { forwarding: without(self.forwarding, c), ..self }, StepModel::Closed)
        } else {
            (
                RelayModel {
                    forwarding: without(self.forwarding, c),
                    waiters: self.waiters.push(c),
                    ..self
                },
                StepModel::Waiting,
            )
        }
    }

    /// The peer closed connection `c`: its loop is deregistered wherever it was.
    pub open spec fn disconnect_next(self, c: u64) -> RelayModel {
        RelayModel {
            waiters: without(self.waiters, c),
            forwarding: without(self.forwarding, c),
            ..self
        }
    }

    /// Shut the channel: every waiting loop is woken and ends.
    pub open spec fn close_next(self) -> RelayModel {
        RelayModel { closed: true, waiters: Seq::empty(), ..self }
    }
}


/// Taking `c` out keeps every other element, and no duplicates.
pub proof fn lemma_without(s: Seq<u64>, c: u64)
    ensures
        forall|x: u64| #[trigger] without(s, c).contains(x) <==> (s.contains(x) && x != c),
        s.no_duplicates() ==> without(s, c).no_duplicates(),
        !s.contains(c) ==> without(s, c) == s,
    decreases s.len(),
{
    if s.len() > 0 {
        if !s.contains(c) {
            assert(!s.drop_last().contains(c)) by {
                if s.drop_last().contains(c) {
                    let i = choose|i: int| 0 <= i < s.len() - 1 && s.drop_last()[i] == c;
                    assert(s[i] == c);
                }
            }
            assert(s.last() != c) by {
                assert(s[s.len() - 1] == s.last());
            }
        }
        let d = s.drop_last();
        let l = s.last();
        lemma_without(d, c);
        assert(s =~= d.push(l));
        lemma_push_contains(d, l);
        lemma_push_contains(without(d, c), l);
        assert forall|x: u64| #[trigger] without(s, c).contains(x) <==> (s.contains(x) && x != c) by {
            assert(d.push(l).contains(x) <==> (d.contains(x) || x == l));
            if l != c {
                assert(without(s, c) == without(d, c).push(l));
                assert(without(d, c).push(l).contains(x) <==> (without(d, c).contains(x) || x == l));
            }
        }
        if s.no_duplicates() {
            assert(d.no_duplicates());
            if l != c {
                assert(!d.contains(l)) by {
                    if d.contains(l) {
                        let i = choose|i: int| 0 <= i < d.len() && d[i] == l;
                        assert(s[i] == s[s.len() - 1]);
                    }
                }
                lemma_push_contains(without(d, c), l);
            }
        }
        if !s.contains(c) {
            assert(without(s, c) =~= s);
        }
    }
}

/// Appending `c` adds exactly `c`; with `c` absent, no duplicates arise.
pub proof fn lemma_push_contains(s: Seq<u64>, c: u64)
    ensures
        forall|x: u64| #[trigger] s.push(c).contains(x) <==> (s.contains(x) || x == c),
        s.no_duplicates() && !s.contains(c) ==> s.push(c).no_duplicates(),
{
    assert forall|x: u64| #[trigger] s.push(c).contains(x) <==> (s.contains(x) || x == c) by {
        if s.push(c).contains(x) && x != c {
            let i = choose|i: int| 0 <= i < s.push(c).len() && s.push(c)[i] == x;
            assert(s[i] == x);
        }
        if s.contains(x) {
            let i = choose|i: int| 0 <= i < s.len() && s[i] == x;
            assert(s.push(c)[i] == x);
        }
        if x == c {
            assert(s.push(c)[s.len() as int] == x);
        }
    }
    if s.no_duplicates() && !s.contains(c) {
        assert forall|i: int, j: int| 0 <= i < j < s.push(c).len() implies s.push(c)[i] != s.push(c)[j] by {
            if j == s.len() {
                assert(s[i] == s.push(c)[i]);
            }
        }
    }
}

/// Dropping the first element keeps the rest, and no duplicates.
pub proof fn lemma_drop_first(s: Seq<u64>)
    requires
        s.len() > 0,
        s.no_duplicates(),
    ensures
        forall|x: u64| #[trigger] s.drop_first().contains(x) <==> (s.contains(x) && x != s[0]),
        s.drop_first().no_duplicates(),
{
    assert forall|x: u64| #[trigger] s.drop_first().contains(x) <==> (s.contains(x) && x != s[0]) by {
        if s.contains(x) && x != s[0] {
            let i = choose|i: int| 0 <= i < s.len() && s[i] == x;
            assert(s.drop_first()[i - 1] == x);
        }
        if s.drop_first().contains(x) {
            let i = choose|i: int| 0 <= i < s.len() - 1 && s.drop_first()[i] == x;
            assert(s[i + 1] == x);
        }
    }
}

impl RelayModel {
    /// A submission keeps the invariant; a loop that claims is forwarding.
    pub proof fn lemma_submit_wf(self, m: MessageModel)
        requires
            self.wf(),
        ensures
            self.submit_next(m).0.wf(),
            match self.submit_next(m).1 {
                SubmitModel::Claimed(c, _) => self.submit_next(m).0.state_of(c)
                    == LoopState::Forwarding,
                _ => true,
            },
    {
        if !self.closed && self.waiters.len() > 0 {
            let w = self.waiters[0];
            lemma_drop_first(self.waiters);
            assert(self.waiters.contains(w));
            let v = self.submit_next(m).0;
            assert forall|c: u64| v.forwarding.contains(c) <==> (self.forwarding.contains(c) || c == w) by {
                if v.forwarding.contains(c) && c != w {
                    let i = choose|i: int| 0 <= i < v.forwarding.len() && v.forwarding[i] == c;
                    assert(self.forwarding[i] == c);
                }
                if self.forwarding.contains(c) {
                    let i = choose|i: int| 0 <= i < self.forwarding.len() && self.forwarding[i] == c;
                    assert(v.forwarding[i] == c);
                }
                if c == w {
                    assert(v.forwarding[self.forwarding.len() as int] == c);
                }
            }
        }
    }

    /// A new connection keeps the invariant and is left in the state its step names.
    pub proof fn lemma_open_wf(self)
        requires
            self.wf(),
        ensures
            self.open_next().0.wf(),
            match self.open_next().1 {
                Some((c, step)) => self.open_next().0.state_of(c) == step_state(step),
                None => true,
            },
    {
        if self.next_conn < u64::MAX {
            let c = self.next_conn as u64;
            lemma_push_contains(self.waiters, c);
            lemma_push_contains(self.forwarding, c);
            assert(!self.waiters.contains(c));
            assert(!self.forwarding.contains(c));
            if self.pending.len() > 0 {
                assert(self.waiters.len() == 0);
            }
        }
    }

    /// A finished write keeps the invariant and leaves the loop in the state its step names.
    pub proof fn lemma_finish_wf(self, c: u64, written: bool)
        requires
            self.wf(),
            self.forwarding.contains(c),
        ensures
            self.finish_next(c, written).0.wf(),
            self.finish_next(c, written).0.state_of(c) == step_state(self.finish_next(c, written).1),
    {
        lemma_without(self.forwarding, c);
        lemma_push_contains(self.waiters, c);
    }

    /// A disconnection keeps the invariant.
    pub proof fn lemma_disconnect_wf(self, c: u64)
        requires
            self.wf(),
        ensures
            self.disconnect_next(c).wf(),
    {
        lemma_without(self.forwarding, c);
        lemma_without(self.waiters, c);
    }

    /// Closing keeps the invariant.
    pub proof fn lemma_close_wf(self)
        requires
            self.wf(),
        ensures
            self.close_next().wf(),
    {
    }
}

/// The models of a sequence of messages.
pub open spec fn models(ms: Seq<Message>) -> Seq<MessageModel> {
    ms.map_values(|m: Message| m@)
}

/// A copy of `q` with every occurrence of `c` taken out.
fn remove_conn(q: &VecDeque<u64>, c: u64) -> (r: VecDeque<u64>)
    ensures
        r@ == without(q@, c),
{
    let mut out: VecDeque<u64> = VecDeque::new();
    let mut i: usize = 0;
    while i < q.len()
        invariant
            i <= q@.len(),
            out@ == without(q@.subrange(0, i as int), c),
        decreases q@.len() - i,
    {
        let x = q[i];
        assert(q@.subrange(0, i + 1).drop_last() =~= q@.subrange(0, i as int));
        if x != c {
            out.push_back(x);
        }
        i = i + 1;
    }
    assert(q@.subrange(0, q@.len() as int) =~= q@);
    out
}

/// What `submit` hands back when it accepted the message.
#[derive(Debug)]
pub enum Accepted {
    /// The waiting loop `conn` claimed the message and now forwards it.
    Claimed { conn: u64, message: Message },
    /// The message was stored; `evicted` is the one dropped to make room.
    Queued { evicted: Option<Message> },
}

/// What `submit` hands back when it refused: the reason, and the message.
#[derive(Debug)]
pub struct Rejected {
    pub error: RelayError,
    pub message: Message,
}

/// What a consumer loop does next.
#[derive(Debug)]
pub enum LoopStep {
    /// Forward this message, then report with `finish_forward`.
    Claimed(Message),
    /// Wait: a later `submit` hands this loop its message.
    Waiting,
    /// End the loop; its connection is no longer registered.
    Closed,
}

pub open spec fn submit_model(r: Result<Accepted, Rejected>) -> SubmitModel {
    match r {
        Ok(Accepted::Claimed { conn, message }) => SubmitModel::Claimed(conn, message@),
        Ok(Accepted::Queued { evicted }) => SubmitModel::Queued(
            match evicted {
                Some(e) => Some(e@),
                None => None,
            },
        ),
        Err(rej) => SubmitModel::Rejected(rej.error),
    }
}

pub open spec fn step_model(s: LoopStep) -> StepModel {
    match s {
        LoopStep::Claimed(m) => StepModel::Claimed(m@),
        LoopStep::Waiting => StepModel::Waiting,
        LoopStep::Closed => StepModel::Closed,
    }
}

/// The distribution engine: a bounded FIFO whose every message is claimed by
/// exactly one consumer loop, the longest-waiting one first.
pub struct Relay {
    pending: VecDeque<Message>,
    waiters: VecDeque<u64>,
    forwarding: VecDeque<u64>,
    capacity: usize,
    policy: OverflowPolicy,
    closed: bool,
    next_conn: u64,
}

impl View for Relay {
    type V = RelayModel;

    closed spec fn view(&self) -> RelayModel {
        RelayModel {
            pending: models(self.pending@),
            waiters: self.waiters@,
            forwarding: self.forwarding@,
            capacity: self.capacity as nat,
            policy: self.policy,
            closed: self.closed,
            next_conn: self.next_conn as nat,
        }
    }
}

impl Relay {
    pub fn new(capacity: usize, policy: OverflowPolicy) -> (r: Relay)
        requires
            capacity > 0,
        ensures
            r@ == RelayModel::initial(capacity as nat, policy),
            r@.wf(),
    {
        let r = Relay {
            pending: VecDeque::new(),
            waiters: VecDeque::new(),
            forwarding: VecDeque::new(),
            capacity,
            policy,
            closed: false,
            next_conn: 0,
        };
        assert(r@.pending =~= Seq::empty());
        r
    }

    /// Enqueue a message. The oldest waiting loop claims it at once; with no
    /// loop waiting it is stored, and at capacity the overflow policy decides.
    pub fn submit(&mut self, message: Message) -> (r: Result<Accepted, Rejected>)
        requires
            old(self)@.wf(),
        ensures
            final(self)@.wf(),
            final(self)@ == old(self)@.submit_next(message@).0,
            submit_model(r) == old(self)@.submit_next(message@).1,
            match r {
                Ok(Accepted::Claimed { conn, .. }) => final(self)@.state_of(conn)
                    == LoopState::Forwarding,
                _ => true,
            },
            match r {
                Err(rej) => rej.message@ == message@,
                Ok(_) => true,
            },
    {
        proof {
            old(self)@.lemma_submit_wf(message@);
        }
        if self.closed {
            return Err(Rejected { error: RelayError::ChannelClosed, message });
        }
        match self.waiters.pop_front() {
            Some(conn) => {
                self.forwarding.push_back(conn);
                assert(self@.waiters =~= old(self)@.waiters.drop_first());
                return Ok(Accepted::Claimed { conn, message });
            },
            None => {},
        }
        if self.pending.len() < self.capacity {
            self.pending.push_back(message);
            assert(self@.pending =~= old(self)@.pending.push(message@));
            return Ok(Accepted::Queued { evicted: None });
        }
        match self.policy {
            OverflowPolicy::Block => Err(Rejected { error: RelayError::Full, message }),
            OverflowPolicy::DropOldest => {
                let oldest = self.pending.pop_front();
                self.pending.push_back(message);
                assert(self@.pending =~= old(self)@.pending.drop_first().push(message@));
                match oldest {
                    Some(e) => Ok(Accepted::Queued { evicted: Some(e) }),
                    None => Ok(Accepted::Queued { evicted: None }),
                }
            },
        }
    }

    /// Register a new connection and start its consumer loop. Gives `None`
    /// only when every connection identifier has been handed out.
    pub fn open_connection(&mut self) -> (r: Option<(u64, LoopStep)>)
        requires
            old(self)@.wf(),
        ensures
            final(self)@.wf(),
            final(self)@ == old(self)@.open_next().0,
            match r {
                Some((c, step)) => {
                    &&& old(self)@.open_next().1 == Some((c, step_model(step)))
                    &&& final(self)@.state_of(c) == step_state(step_model(step))
                },
                None => old(self)@.open_next().1 is None,
            },
    {
        proof {
            old(self)@.lemma_open_wf();
        }
        if self.next_conn == u64::MAX {
            return None;
        }
        let c = self.next_conn;
        self.next_conn = self.next_conn + 1;
        match self.pending.pop_front() {
            Some(m) => {
                self.forwarding.push_back(c);
                assert(self@.pending =~= old(self)@.pending.drop_first());
                Some((c, LoopStep::Claimed(m)))
            },
            None => {
                if self.closed {
                    Some((c, LoopStep::Closed))
                } else {
                    self.waiters.push_back(c);
                    Some((c, LoopStep::Waiting))
                }
            },
        }
    }

    /// The forwarding loop `conn` reports its write. On success it claims the
    /// oldest pending message, or waits, or ends if the channel is closed and
    /// drained; on failure it ends, and the message it held is gone.
    pub fn finish_forward(&mut self, conn: u64, written: bool) -> (r: LoopStep)
        requires
            old(self)@.wf(),
            old(self)@.state_of(conn) == LoopState::Forwarding,
        ensures
            final(self)@.wf(),
            final(self)@ == old(self)@.finish_next(conn, written).0,
            step_model(r) == old(self)@.finish_next(conn, written).1,
            final(self)@.state_of(conn) == step_state(step_model(r)),
    {
        proof {
            old(self)@.lemma_finish_wf(conn, written);
        }
        if written {
            match self.pending.pop_front() {
                Some(m) => {
                    assert(self@.pending =~= old(self)@.pending.drop_first());
                    return LoopStep::Claimed(m);
                },
                None => {},
            }
        }
        self.forwarding = remove_conn(&self.forwarding, conn);
        if written && !self.closed {
            self.waiters.push_back(conn);
            LoopStep::Waiting
        } else {
            LoopStep::Closed
        }
    }

    /// The peer closed connection `conn`: deregister its loop, wherever it
    /// stands. A message it was forwarding is not put back.
    pub fn disconnect(&mut self, conn: u64)
        requires
            old(self)@.wf(),
        ensures
            final(self)@.wf(),
            final(self)@ == old(self)@.disconnect_next(conn),
    {
        proof {
            old(self)@.lemma_disconnect_wf(conn);
        }
        self.waiters = remove_conn(&self.waiters, conn);
        self.forwarding = remove_conn(&self.forwarding, conn);
    }

    /// Close the channel for good. Every waiting loop is woken, in order of
    /// arrival, and ends; later submissions are refused.
    pub fn close(&mut self) -> (woken: Vec<u64>)
        requires
            old(self)@.wf(),
        ensures
            final(self)@.wf(),
            final(self)@ == old(self)@.close_next(),
            woken@ == old(self)@.waiters,
    {
        let mut woken: Vec<u64> = Vec::new();
        while self.waiters.len() > 0
            invariant
                self.pending == old(self).pending,
                self.forwarding == old(self).forwarding,
                self.capacity == old(self).capacity,
                self.policy == old(self).policy,
                self.closed == old(self).closed,
                self.next_conn == old(self).next_conn,
                woken@ + self.waiters@ == old(self).waiters@,
            decreases self.waiters@.len(),
        {
            match self.waiters.pop_front() {
                Some(c) => {
                    woken.push(c);
                },
                None => {},
            }
        }
        self.closed = true;
        assert(woken@ =~= old(self)@.waiters);
        assert(self@.waiters =~= Seq::<u64>::empty());
        woken
    }

    pub fn state_of(&self, conn: u64) -> (r: LoopState)
        requires
            self@.wf(),
        ensures
            r == self@.state_of(conn),
    {
        let mut i: usize = 0;
        while i < self.waiters.len()
            invariant
                i <= self@.waiters.len(),
                forall|j: int| 0 <= j < i ==> self@.waiters[j] != conn,
            decreases self@.waiters.len() - i,
        {
            if self.waiters[i] == conn {
                assert(self@.waiters[i as int] == conn);
                return LoopState::Waiting;
            }
            i = i + 1;
        }
        let mut k: usize = 0;
        while k < self.forwarding.len()
            invariant
                k <= self@.forwarding.len(),
                !self@.waiters.contains(conn),
                forall|j: int| 0 <= j < k ==> self@.forwarding[j] != conn,
            decreases self@.forwarding.len() - k,
        {
            if self.forwarding[k] == conn {
                assert(self@.forwarding[k as int] == conn);
                return LoopState::Forwarding;
            }
            k = k + 1;
        }
        LoopState::Closed
    }

    /// The unclaimed messages, oldest first.
    pub fn pending(&self) -> (r: &VecDeque<Message>)
        ensures
            models(r@) == self@.pending,
    {
        &self.pending
    }

    pub fn pending_len(&self) -> (r: usize)
        ensures
            r == self@.pending.len(),
    {
        self.pending.len()
    }

    /// The waiting loops, in their order of arrival.
    pub fn waiting(&self) -> (r: &VecDeque<u64>)
        ensures
            r@ == self@.waiters,
    {
        &self.waiters
    }

    pub fn capacity(&self) -> (r: usize)
        ensures
            r == self@.capacity,
    {
        self.capacity
    }

    pub fn policy(&self) -> (r: OverflowPolicy)
        ensures
            r == self@.policy,
    {
        self.policy
    }

    pub fn is_closed(&self) -> (r: bool)
        ensures
            r == self@.closed,
    {
        self.closed
    }
}

} // verus!
