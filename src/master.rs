use vstd::prelude::*;

use crate::proto::{ProtoTerm, ProtoValue};
use crate::resp::{error_reply, error_value, is_write_term, RespTerm, RespValue};

verus! {

/// What the master knows of a replica's connection.
#[derive(Debug, Clone, Copy, PartialEq, Eq, Structural)]
pub enum Status {
    Offline,
    Online,
    Recover,
}

/// What the coordinator is waiting for; at most one message is in flight.
#[derive(Debug)]
pub enum Phase {
    /// No request in hand.
    Idle,
    /// A read was sent to this replica; its reply is awaited.
    Reading(usize),
    /// A write is collecting votes: the write, the replica whose vote is
    /// awaited, and whether every vote so far was yes.
    Voting(RespValue, usize, bool),
    /// The decision is being delivered: the decision, the replica whose
    /// answer is awaited, how many replicas take part, and the last reply
    /// of a commit.
    Deciding(bool, usize, usize, Option<RespValue>),
}

pub enum PhaseTerm {
    Idle,
    Reading(nat),
    Voting(RespTerm, nat, bool),
    Deciding(bool, nat, nat, Option<RespTerm>),
}

/// What the caller of the coordinator does next.
#[derive(Debug)]
pub enum Action {
    /// Send a message to the replica of this index and hand its answer back.
    Send(usize, ProtoValue),
    /// Answer the client.
    Reply(RespValue),
}

pub enum ActionTerm {
    Send(nat, ProtoTerm),
    Reply(RespTerm),
}

/// Why a handshake failed.
#[derive(Debug, Clone, Copy, PartialEq, Eq, Structural)]
pub enum HandshakeError {
    /// The replica answered with another replica's identity.
    WrongId,
    /// The replica answered with something other than a handshake.
    NotHandshake,
}

/// The coordinator: the replicas' states, the round-robin cursor, whether a
/// write was ever committed, and the request in hand.
pub struct Master {
    statuses: Vec<Status>,
    next_sched: usize,
    written: bool,
    phase: Phase,
}

pub struct MasterTerm {
    pub statuses: Seq<Status>,
    pub next_sched: nat,
    pub written: bool,
    pub phase: PhaseTerm,
}

impl View for Action {
    type V = ActionTerm;

    open spec fn view(&self) -> ActionTerm {
        match self {
            Action::Send(i, p) => ActionTerm::Send(*i as nat, p@),
            Action::Reply(v) => ActionTerm::Reply(v@),
        }
    }
}

impl View for Master {
    type V = MasterTerm;

    closed spec fn view(&self) -> MasterTerm {
        MasterTerm {
            statuses: self.statuses@,
            next_sched: self.next_sched as nat,
            written: self.written,
            phase: match &self.phase {
                Phase::Idle => PhaseTerm::Idle,
                Phase::Reading(j) => PhaseTerm::Reading(*j as nat),
                Phase::Voting(v, next, yes) => PhaseTerm::Voting(v@, *next as nat, *yes),
                Phase::Deciding(d, next, end, rep) => PhaseTerm::Deciding(
                    *d,
                    *next as nat,
                    *end as nat,
                    match rep {
                        Some(v) => Some(v@),
                        None => None,
                    },
                ),
            },
        }
    }
}

/// The coordinator's invariant: at least one replica, identities that fit
/// below the sentinel, a cursor in range, and an in-flight message to a
/// replica that exists.
pub open spec fn master_ok(m: MasterTerm) -> bool {
    let n = m.statuses.len();
    &&& 1 <= n < u32::MAX
    &&& m.next_sched < n
    &&& match m.phase {
        PhaseTerm::Idle => true,
        PhaseTerm::Reading(j) => j < n,
        PhaseTerm::Voting(_, next, _) => next < n,
        PhaseTerm::Deciding(_, next, end, _) => next < end <= n,
    }
}

/// The replica whose answer is awaited, if any.
pub open spec fn awaiting(p: PhaseTerm) -> Option<nat> {
    match p {
        PhaseTerm::Idle => None,
        PhaseTerm::Reading(j) => Some(j),
        PhaseTerm::Voting(_, next, _) => Some(next),
        PhaseTerm::Deciding(_, next, _, _) => Some(next),
    }
}

/// The first Online replica at or after `from`.
pub open spec fn first_online(st: Seq<Status>, from: nat) -> Option<nat>
    decreases st.len() - from,
{
    if from >= st.len() {
        None
    } else if st[from as int] == Status::Online {
        Some(from)
    } else {
        first_online(st, from + 1)
    }
}

/// Round-robin scheduling: the replica picked and the next cursor.
pub open spec fn schedule(st: Seq<Status>, cursor: nat) -> (Option<nat>, nat) {
    match first_online(st, cursor) {
        Some(j) => (Some(j), ((j + 1) as int % (st.len() as int)) as nat),
        None => (None, 0),
    }
}

/// A client request arrives while idle.
pub open spec fn request_step(m: MasterTerm, v: RespTerm) -> (MasterTerm, ActionTerm) {
    if is_write_term(v) {
        (
            MasterTerm { phase: PhaseTerm::Voting(v, 0, true), ..m },
            ActionTerm::Send(0, ProtoTerm::Resp(v)),
        )
    } else {
        match schedule(m.statuses, m.next_sched) {
            (Some(j), c) => (
                MasterTerm { phase: PhaseTerm::Reading(j), next_sched: c, ..m },
                ActionTerm::Send(j, ProtoTerm::Resp(v)),
            ),
            (None, c) => (MasterTerm { next_sched: c, ..m }, ActionTerm::Reply(error_reply())),
        }
    }
}

/// The decision reached replica `next`: go on to the next one, or answer
/// the client once all `end` have it.
pub open spec fn decide_step(
    m: MasterTerm,
    d: bool,
    next: nat,
    end: nat,
    rep: Option<RespTerm>,
) -> (MasterTerm, ActionTerm) {
    if next + 1 < end {
        (
            MasterTerm { phase: PhaseTerm::Deciding(d, next + 1, end, rep), ..m },
            ActionTerm::Send(next + 1, ProtoTerm::Decision(d)),
        )
    } else {
        (
            MasterTerm { phase: PhaseTerm::Idle, written: m.written || d, ..m },
            ActionTerm::Reply(
                if d && rep is Some {
                    rep->Some_0
                } else {
                    error_reply()
                },
            ),
        )
    }
}

/// The awaited replica was lost, or broke the protocol: it goes Offline, a
/// read fails, a vote counts as no, and a decision skips it.
pub open spec fn lost_step(m: MasterTerm, from: nat) -> (MasterTerm, ActionTerm) {
    let m1 = MasterTerm { statuses: m.statuses.update(from as int, Status::Offline), ..m };
    match m.phase {
        PhaseTerm::Voting(_, next, _) => if next == 0 {
            (MasterTerm { phase: PhaseTerm::Idle, ..m1 }, ActionTerm::Reply(error_reply()))
        } else {
            (
                MasterTerm { phase: PhaseTerm::Deciding(false, 0, next, None), ..m1 },
                ActionTerm::Send(0, ProtoTerm::Decision(false)),
            )
        },
        PhaseTerm::Deciding(d, next, end, rep) => decide_step(m1, d, next, end, rep),
        _ => (MasterTerm { phase: PhaseTerm::Idle, ..m1 }, ActionTerm::Reply(error_reply())),
    }
}

/// The awaited replica answered `msg`.
pub open spec fn reply_step(m: MasterTerm, from: nat, msg: ProtoTerm) -> (MasterTerm, ActionTerm) {
    match m.phase {
        PhaseTerm::Reading(_) => match msg {
            ProtoTerm::Resp(t) => (MasterTerm { phase: PhaseTerm::Idle, ..m }, ActionTerm::Reply(t)),
            _ => lost_step(m, from),
        },
        PhaseTerm::Voting(req, next, yes) => match msg {
            ProtoTerm::Vote(b) => if next + 1 < m.statuses.len() {
                (
                    MasterTerm { phase: PhaseTerm::Voting(req, next + 1, yes && b), ..m },
                    ActionTerm::Send(next + 1, ProtoTerm::Resp(req)),
                )
            } else {
                (
                    MasterTerm {
                        phase: PhaseTerm::Deciding(yes && b, 0, m.statuses.len(), None),
                        ..m
                    },
                    ActionTerm::Send(0, ProtoTerm::Decision(yes && b)),
                )
            },
            _ => lost_step(m, from),
        },
        PhaseTerm::Deciding(d, next, end, rep) => match msg {
            ProtoTerm::Resp(t) => if d {
                decide_step(m, d, next, end, Some(t))
            } else {
                lost_step(m, from)
            },
            ProtoTerm::Decision(false) => if !d {
                decide_step(m, d, next, end, rep)
            } else {
                lost_step(m, from)
            },
            _ => lost_step(m, from),
        },
        PhaseTerm::Idle => lost_step(m, from),
    }
}

/// The replica of index `i` answered the handshake with `reply`.
pub open spec fn handshake_step(m: MasterTerm, i: nat, reply: ProtoTerm) -> (MasterTerm, Result<(), HandshakeError>) {
    match reply {
        ProtoTerm::Handshake(id) => if id == u32::MAX {
            (
                MasterTerm {
                    statuses: m.statuses.update(
                        i as int,
                        if m.written {
                            Status::Recover
                        } else {
                            Status::Online
                        },
                    ),
                    ..m
                },
                Ok(()),
            )
        } else if id == i {
            (MasterTerm { statuses: m.statuses.update(i as int, Status::Online), ..m }, Ok(()))
        } else {
            (
                MasterTerm { statuses: m.statuses.update(i as int, Status::Offline), ..m },
                Err(HandshakeError::WrongId),
            )
        },
        _ => (
            MasterTerm { statuses: m.statuses.update(i as int, Status::Offline), ..m },
            Err(HandshakeError::NotHandshake),
        ),
    }
}

impl Master {
    /// A coordinator for `n` replicas, all Offline, with the cursor at the
    /// first one.
    pub fn new(n: usize) -> (r: Master)
        requires
            1 <= n < u32::MAX,
        ensures
            master_ok(r@),
            r@.statuses == Seq::new(n as nat, |i: int| Status::Offline),
            r@.next_sched == 0,
            !r@.written,
            r@.phase == PhaseTerm::Idle,
    {
        let mut statuses: Vec<Status> = Vec::new();
        let mut i: usize = 0;
        while i < n
            invariant
                0 <= i <= n,
                statuses@ == Seq::new(i as nat, |j: int| Status::Offline),
            decreases n - i,
        {
            statuses.push(Status::Offline);
            i = i + 1;
            assert(statuses@ =~= Seq::new(i as nat, |j: int| Status::Offline));
        }
        Master { statuses, next_sched: 0, written: false, phase: Phase::Idle }
    }

    /// How many replicas there are.
    pub fn replica_count(&self) -> (r: usize)
        ensures
            r == self@.statuses.len(),
    {
        self.statuses.len()
    }

    /// The state of replica `i`.
    pub fn status(&self, i: usize) -> (r: Status)
        requires
            i < self@.statuses.len(),
        ensures
            r == self@.statuses[i as int],
    {
        self.statuses[i]
    }

    /// Whether no request is in hand.
    pub fn is_idle(&self) -> (r: bool)
        ensures
            r == (self@.phase is Idle),
    {
        match self.phase {
            Phase::Idle => true,
            _ => false,
        }
    }

    /// Whether a write was ever committed.
    pub fn written(&self) -> (r: bool)
        ensures
            r == self@.written,
    {
        self.written
    }

    /// The handshake that opens the connection to replica `i`: its identity.
    pub fn handshake(&self, i: usize) -> (r: ProtoValue)
        requires
            master_ok(self@),
            i < self@.statuses.len(),
        ensures
            r@ == ProtoTerm::Handshake(i as u32),
    {
        ProtoValue::Handshake(i as u32)
    }

    /// Records replica `i`'s answer to the handshake.
    pub fn on_handshake(&mut self, i: usize, reply: ProtoValue) -> (r: Result<(), HandshakeError>)
        requires
            master_ok(old(self)@),
            i < old(self)@.statuses.len(),
        ensures
            master_ok(final(self)@),
            (final(self)@, r) == handshake_step(old(self)@, i as nat, reply@),
    {
        match reply {
            ProtoValue::Handshake(id) => {
                if id == 4294967295 {
                    let s = if self.written {
                        Status::Recover
                    } else {
                        Status::Online
                    };
                    self.statuses.set(i, s);
                    Ok(())
                } else if id as usize == i {
                    self.statuses.set(i, Status::Online);
                    Ok(())
                } else {
                    self.statuses.set(i, Status::Offline);
                    Err(HandshakeError::WrongId)
                }
            },
            _ => {
                self.statuses.set(i, Status::Offline);
                Err(HandshakeError::NotHandshake)
            },
        }
    }

    /// Records that the connection to replica `i` is gone.
    pub fn mark_offline(&mut self, i: usize)
        requires
            master_ok(old(self)@),
            i < old(self)@.statuses.len(),
        ensures
            master_ok(final(self)@),
            final(self)@ == (MasterTerm { statuses: old(self)@.statuses.update(i as int, Status::Offline), ..old(self)@ }),
    {
        self.statuses.set(i, Status::Offline);
    }

    /// Picks the first Online replica at or after the cursor and moves the
    /// cursor past it; with none, resets the cursor.
    pub fn schedule_next(&mut self) -> (r: Option<usize>)
        requires
            master_ok(old(self)@),
        ensures
            master_ok(final(self)@),
            (match r {
                Some(j) => Some(j as nat),
                None => None,
            }, final(self)@.next_sched) == schedule(old(self)@.statuses, old(self)@.next_sched),
            final(self)@ == (MasterTerm { next_sched: final(self)@.next_sched, ..old(self)@ }),
            r matches Some(j) ==> j < old(self)@.statuses.len(),
    {
        let n = self.statuses.len();
        let mut j = self.next_sched;
        while j < n
            invariant
                self@ == old(self)@,
                master_ok(self@),
                n == self@.statuses.len(),
                self.next_sched <= j <= n,
                first_online(self@.statuses, self.next_sched as nat) == first_online(self@.statuses, j as nat),
            decreases n - j,
        {
            if self.statuses[j] == Status::Online {
                self.next_sched = (j + 1) % n;
                return Some(j);
            }
            j = j + 1;
        }
        self.next_sched = 0;
        None
    }

    /// A client request arrives: a write starts collecting votes at the
    /// first replica; a read goes to the scheduled replica, or fails.
    pub fn on_request(&mut self, v: RespValue) -> (a: Action)
        requires
            master_ok(old(self)@),
            old(self)@.phase is Idle,
        ensures
            master_ok(final(self)@),
            (final(self)@, a@) == request_step(old(self)@, v@),
    {
        if v.is_write() {
            let forward = v.duplicate();
            self.phase = Phase::Voting(v, 0, true);
            Action::Send(0, ProtoValue::Resp(forward))
        } else {
            match self.schedule_next() {
                Some(j) => {
                    self.phase = Phase::Reading(j);
                    Action::Send(j, ProtoValue::Resp(v))
                },
                None => Action::Reply(error_value()),
            }
        }
    }

    /// Hands the decision to the next replica, or answers the client.
    fn decide(&mut self, d: bool, next: usize, end: usize, rep: Option<RespValue>) -> (a: Action)
        requires
            next < end <= old(self)@.statuses.len() < u32::MAX,
            old(self)@.next_sched < old(self)@.statuses.len(),
        ensures
            master_ok(final(self)@),
            (final(self)@, a@) == decide_step(
                old(self)@,
                d,
                next as nat,
                end as nat,
                match rep {
                    Some(v) => Some(v@),
                    None => None,
                },
            ),
    {
        if next + 1 < end {
            self.phase = Phase::Deciding(d, next + 1, end, rep);
            Action::Send(next + 1, ProtoValue::Decision(d))
        } else {
            self.written = self.written || d;
            self.phase = Phase::Idle;
            let reply = if d {
                match rep {
                    Some(v) => v,
                    None => error_value(),
                }
            } else {
                error_value()
            };
            Action::Reply(reply)
        }
    }

    /// The awaited replica was lost, or broke the protocol.
    pub fn on_lost(&mut self, from: usize) -> (a: Action)
        requires
            master_ok(old(self)@),
            awaiting(old(self)@.phase) == Some(from as nat),
        ensures
            master_ok(final(self)@),
            (final(self)@, a@) == lost_step(old(self)@, from as nat),
    {
        self.statuses.set(from, Status::Offline);
        let mut phase = Phase::Idle;
        std::mem::swap(&mut self.phase, &mut phase);
        match phase {
            Phase::Voting(_, next, _) => {
                if next == 0 {
                    Action::Reply(error_value())
                } else {
                    self.phase = Phase::Deciding(false, 0, next, None);
                    Action::Send(0, ProtoValue::Decision(false))
                }
            },
            Phase::Deciding(d, next, end, rep) => self.decide(d, next, end, rep),
            _ => Action::Reply(error_value()),
        }
    }

    /// The awaited replica answered `msg`.
    pub fn on_reply(&mut self, from: usize, msg: ProtoValue) -> (a: Action)
        requires
            master_ok(old(self)@),
            awaiting(old(self)@.phase) == Some(from as nat),
        ensures
            master_ok(final(self)@),
            (final(self)@, a@) == reply_step(old(self)@, from as nat, msg@),
    {
        let mut phase = Phase::Idle;
        std::mem::swap(&mut self.phase, &mut phase);
        match phase {
            Phase::Reading(j) => match msg {
                ProtoValue::Resp(t) => Action::Reply(t),
                _ => {
                    self.phase = Phase::Reading(j);
                    self.on_lost(from)
                },
            },
            Phase::Voting(req, next, yes) => match msg {
                ProtoValue::Vote(b) => {
                    let all_yes = yes && b;
                    if next + 1 < self.statuses.len() {
                        let forward = req.duplicate();
                        self.phase = Phase::Voting(req, next + 1, all_yes);
                        Action::Send(next + 1, ProtoValue::Resp(forward))
                    } else {
                        self.phase = Phase::Deciding(all_yes, 0, self.statuses.len(), None);
                        Action::Send(0, ProtoValue::Decision(all_yes))
                    }
                },
                _ => {
                    self.phase = Phase::Voting(req, next, yes);
                    self.on_lost(from)
                },
            },
            Phase::Deciding(d, next, end, rep) => match msg {
                ProtoValue::Resp(t) => {
                    if d {
                        self.decide(d, next, end, Some(t))
                    } else {
                        self.phase = Phase::Deciding(d, next, end, rep);
                        self.on_lost(from)
                    }
                },
                ProtoValue::Decision(b) => {
                    if !d && !b {
                        self.decide(d, next, end, rep)
                    } else {
                        self.phase = Phase::Deciding(d, next, end, rep);
                        self.on_lost(from)
                    }
                },
                _ => {
                    self.phase = Phase::Deciding(d, next, end, rep);
                    self.on_lost(from)
                },
            },
            Phase::Idle => self.on_lost(from),
        }
    }
}

/// What `k` consecutive schedules from `cursor` pick, and the cursor after them.
pub open spec fn picks(st: Seq<Status>, cursor: nat, k: nat) -> (Seq<Option<nat>>, nat)
    decreases k,
{
    if k == 0 {
        (seq![], cursor)
    } else {
        let (ps, c) = picks(st, cursor, (k - 1) as nat);
        let (r, c2) = schedule(st, c);
        (ps.push(r), c2)
    }
}

/// How many times `j` was picked.
pub open spec fn times_picked(ps: Seq<Option<nat>>, j: nat) -> nat
    decreases ps.len(),
{
    if ps.len() == 0 {
        0
    } else {
        times_picked(ps.drop_last(), j) + if ps.last() == Some(j) {
            1nat
        } else {
            0nat
        }
    }
}

pub open spec fn all_online(st: Seq<Status>) -> bool {
    forall|i: int| 0 <= i < st.len() ==> st[i] == Status::Online
}

proof fn lemma_picks_online(st: Seq<Status>, cursor: nat, k: nat)
    requires
        st.len() >= 1,
        cursor < st.len(),
        all_online(st),
    ensures
        picks(st, cursor, k).1 == ((cursor + k) as int % st.len() as int) as nat,
        picks(st, cursor, k).0.len() == k,
        k > 0 ==> picks(st, cursor, k).0.last() == Some(((cursor + k - 1) as int % st.len() as int) as nat),
        k > 0 ==> picks(st, cursor, k).0.drop_last() == picks(st, cursor, (k - 1) as nat).0,
    decreases k,
{
    let n = st.len() as int;
    if k == 0 {
        vstd::arithmetic::div_mod::lemma_small_mod(cursor, n as nat);
    } else {
        lemma_picks_online(st, cursor, (k - 1) as nat);
        let c = picks(st, cursor, (k - 1) as nat).1;
        assert(c < n);
        assert(first_online(st, c) == Some(c));
        vstd::arithmetic::div_mod::lemma_add_mod_noop_right(1, (cursor + k - 1) as int, n);
        assert(picks(st, cursor, k).0.drop_last() =~= picks(st, cursor, (k - 1) as nat).0);
    }
}

proof fn lemma_times_monotone(st: Seq<Status>, cursor: nat, a: nat, b: nat, j: nat)
    requires
        st.len() >= 1,
        cursor < st.len(),
        all_online(st),
        a <= b,
    ensures
        times_picked(picks(st, cursor, a).0, j) <= times_picked(picks(st, cursor, b).0, j),
    decreases b - a,
{
    if a < b {
        lemma_times_monotone(st, cursor, a, (b - 1) as nat, j);
        lemma_picks_online(st, cursor, b);
    }
}

proof fn lemma_times_window(st: Seq<Status>, cursor: nat, m: nat, j: nat)
    requires
        st.len() >= 1,
        cursor < st.len(),
        all_online(st),
        j < st.len(),
    ensures
        times_picked(picks(st, cursor, m + st.len()).0, j) >= times_picked(picks(st, cursor, m).0, j) + 1,
{
    let n = st.len() as int;
    let t = (j - cursor - m) % n;
    let i = (m + t) as nat;
    vstd::arithmetic::div_mod::lemma_add_mod_noop_right((cursor + m) as int, j - cursor - m, n);
    vstd::arithmetic::div_mod::lemma_small_mod(j, n as nat);
    assert((cursor + i) as int % n == j);
    lemma_picks_online(st, cursor, i + 1);
    lemma_times_monotone(st, cursor, m, i, j);
    lemma_times_monotone(st, cursor, i + 1, m + st.len(), j);
}

/// With every replica Online, among `m >= n` consecutive reads every one of
/// the `n` replicas is picked at least `m / n` times.
pub proof fn lemma_fair_schedule(st: Seq<Status>, cursor: nat, m: nat, j: nat)
    requires
        st.len() >= 1,
        cursor < st.len(),
        all_online(st),
        m >= st.len(),
        j < st.len(),
    ensures
        times_picked(picks(st, cursor, m).0, j) >= m as int / (st.len() as int),
    decreases m,
{
    let n = st.len() as int;
    let prev = (m - n) as nat;
    lemma_times_window(st, cursor, prev, j);
    vstd::arithmetic::div_mod::lemma_hoist_over_denominator(prev as int, 1, n as nat);
    if prev >= n {
        lemma_fair_schedule(st, cursor, prev, j);
    } else {
        vstd::arithmetic::div_mod::lemma_basic_div(prev as int, n);
    }
}

/// While a decision is delivered, each replica's acknowledgement (the
/// write's reply on a commit, `Decision(false)` on an abort) sends the same
/// decision to the next replica, so every taking part receives it.
pub proof fn lemma_same_decision_for_all(m: MasterTerm, d: bool, j: nat, end: nat, rep: Option<RespTerm>, ack: ProtoTerm)
    requires
        master_ok(m),
        m.phase == PhaseTerm::Deciding(d, j, end, rep),
        j + 1 < end,
        if d {
            ack is Resp
        } else {
            ack == ProtoTerm::Decision(false)
        },
    ensures
        reply_step(m, j, ack).1 == ActionTerm::Send(j + 1, ProtoTerm::Decision(d)),
        reply_step(m, j, ack).0.phase is Deciding,
        reply_step(m, j, ack).0.statuses == m.statuses,
{
}

/// After a step, a message is in flight to exactly the replica that the
/// coordinator awaits, and an answer to the client leaves it idle.
pub open spec fn one_in_flight(step: (MasterTerm, ActionTerm)) -> bool {
    match step.1 {
        ActionTerm::Send(j, _) => awaiting(step.0.phase) == Some(j),
        ActionTerm::Reply(_) => step.0.phase is Idle,
    }
}

/// At most one command is in flight between the coordinator and the
/// replicas: a request is taken only when idle, an answer only from the
/// replica awaited, and every step sends to the replica it then awaits or
/// answers the client and goes idle.
pub proof fn lemma_single_in_flight(m: MasterTerm, v: RespTerm, from: nat, msg: ProtoTerm)
    requires
        master_ok(m),
    ensures
        m.phase is Idle ==> one_in_flight(request_step(m, v)),
        awaiting(m.phase) == Some(from) ==> one_in_flight(reply_step(m, from, msg)),
        awaiting(m.phase) == Some(from) ==> one_in_flight(lost_step(m, from)),
{
}

} // verus!
