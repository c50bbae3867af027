use vstd::prelude::*;

use crate::backend::{apply, reply, Backend};
use crate::command::{command_of, countable, Command};
use crate::map::KvStore;
use crate::master::{master_ok, reply_step, request_step, ActionTerm, MasterTerm, PhaseTerm};
use crate::proto::{ProtoTerm, ProtoValue};
use crate::resp::{
    set_verb,
    error_reply, error_value, invalid_command_reply, invalid_command_value, is_write_term, RespTerm,
    RespValue,
};

verus! {

/// The store and the reply after executing a value: a command is applied;
/// anything else is answered with `Invalid Command` and changes nothing.
pub open spec fn execute(m: Map<Seq<u8>, Seq<u8>>, t: RespTerm) -> (Map<Seq<u8>, Seq<u8>>, RespTerm) {
    match command_of(t) {
        Some(c) => (apply(m, c), reply(m, c)),
        None => (m, invalid_command_reply()),
    }
}

/// Executes `resp_value` on `backend` and wraps the reply for the master.
pub fn process_resp<T: KvStore>(resp_value: RespValue, backend: &mut Backend<T>) -> (r: ProtoValue)
    requires
        old(backend).store.well_formed(),
    ensures
        final(backend).store.well_formed(),
        final(backend).id == old(backend).id,
        (final(backend).store.contents(), r@) == ({
            let (m, t) = execute(old(backend).store.contents(), resp_value@);
            (m, ProtoTerm::Resp(t))
        }),
{
    let ghost t = resp_value@;
    let response = match Command::from_resp(resp_value) {
        Ok(cmd) => {
            assert(countable(cmd@));
            backend.process_command(cmd)
        },
        Err(_) => invalid_command_value(),
    };
    ProtoValue::Resp(response)
}

/// What the replica does after a frame from the master.
#[derive(Debug)]
pub enum Outcome {
    /// Send this frame back.
    Reply(ProtoValue),
    /// The master broke the protocol: close the connection.
    Close,
}

pub enum OutcomeTerm {
    Reply(ProtoTerm),
    Close,
}

impl View for Outcome {
    type V = OutcomeTerm;

    open spec fn view(&self) -> OutcomeTerm {
        match self {
            Outcome::Reply(p) => OutcomeTerm::Reply(p@),
            Outcome::Close => OutcomeTerm::Close,
        }
    }
}

/// A replica's state: its identity, its store, and the write that awaits
/// the master's decision, if any.
pub struct ParticipantTerm {
    pub id: u32,
    pub store: Map<Seq<u8>, Seq<u8>>,
    pub pending: Option<RespTerm>,
}

/// A replica's answer to one frame, and its next state.
pub open spec fn frame_step(p: ParticipantTerm, f: ProtoTerm) -> (ParticipantTerm, OutcomeTerm) {
    match p.pending {
        None => match f {
            ProtoTerm::Handshake(peer) => (
                ParticipantTerm { id: peer, ..p },
                OutcomeTerm::Reply(ProtoTerm::Handshake(p.id)),
            ),
            ProtoTerm::Resp(t) => if is_write_term(t) {
                (ParticipantTerm { pending: Some(t), ..p }, OutcomeTerm::Reply(ProtoTerm::Vote(true)))
            } else {
                (
                    ParticipantTerm { store: execute(p.store, t).0, ..p },
                    OutcomeTerm::Reply(ProtoTerm::Resp(execute(p.store, t).1)),
                )
            },
            _ => (p, OutcomeTerm::Reply(ProtoTerm::Resp(error_reply()))),
        },
        Some(w) => match f {
            ProtoTerm::Decision(true) => (
                ParticipantTerm { store: execute(p.store, w).0, pending: None, ..p },
                OutcomeTerm::Reply(ProtoTerm::Resp(execute(p.store, w).1)),
            ),
            ProtoTerm::Decision(false) => (
                ParticipantTerm { pending: None, ..p },
                OutcomeTerm::Reply(ProtoTerm::Decision(false)),
            ),
            _ => (ParticipantTerm { pending: None, ..p }, OutcomeTerm::Close),
        },
    }
}

/// A replica: its executor and the write in its commit protocol, if any.
pub struct Participant<T: KvStore> {
    pub backend: Backend<T>,
    pub pending: Option<RespValue>,
}

impl<T: KvStore> Participant<T> {
    /// The write that awaits a decision.
    pub open spec fn pending_view(&self) -> Option<RespTerm> {
        match self.pending {
            Some(v) => Some(v@),
            None => None,
        }
    }

    pub open spec fn model(&self) -> ParticipantTerm {
        ParticipantTerm {
            id: self.backend.id,
            store: self.backend.store.contents(),
            pending: self.pending_view(),
        }
    }

    /// A replica with no identity yet, holding `store`.
    pub fn new(store: T) -> (r: Participant<T>)
        requires
            store.well_formed(),
        ensures
            r.backend.store == store,
            r.model() == (ParticipantTerm { id: u32::MAX, store: store.contents(), pending: None }),
    {
        Participant { backend: Backend { id: 4294967295, store }, pending: None }
    }

    /// Answers one frame from the master.
    pub fn on_frame(&mut self, frame: ProtoValue) -> (r: Outcome)
        requires
            old(self).backend.store.well_formed(),
        ensures
            final(self).backend.store.well_formed(),
            (final(self).model(), r@) == frame_step(old(self).model(), frame@),
    {
        if self.pending.is_some() {
            return self.handle_write(frame);
        }
        match frame {
            ProtoValue::Handshake(peer) => {
                let previous = self.backend.id;
                self.backend.id = peer;
                Outcome::Reply(ProtoValue::Handshake(previous))
            },
            ProtoValue::Resp(value) => {
                if value.is_write() {
                    self.pending = Some(value);
                    Outcome::Reply(ProtoValue::Vote(true))
                } else {
                    Outcome::Reply(process_resp(value, &mut self.backend))
                }
            },
            _ => Outcome::Reply(ProtoValue::Resp(error_value())),
        }
    }

    /// The write in hand awaits the master's decision.
    fn handle_write(&mut self, decision: ProtoValue) -> (r: Outcome)
        requires
            old(self).backend.store.well_formed(),
            old(self).pending_view() is Some,
        ensures
            final(self).backend.store.well_formed(),
            (final(self).model(), r@) == frame_step(old(self).model(), decision@),
    {
        let mut pending: Option<RespValue> = None;
        std::mem::swap(&mut self.pending, &mut pending);
        let write = match pending {
            Some(w) => w,
            None => return Outcome::Close,
        };
        match decision {
            ProtoValue::Decision(commit) => {
                if commit {
                    Outcome::Reply(process_resp(write, &mut self.backend))
                } else {
                    Outcome::Reply(ProtoValue::Decision(false))
                }
            },
            _ => Outcome::Close,
        }
    }
}

/// A replica holding write `w` applies it on `Decision(true)` and answers
/// with the write's reply; on `Decision(false)` it keeps its store and
/// acknowledges. Either way it then holds no write and keeps its identity.
pub proof fn lemma_decision_applies(p: ParticipantTerm, w: RespTerm, d: bool)
    requires
        p.pending == Some(w),
    ensures
        ({
            let (q, o) = frame_step(p, ProtoTerm::Decision(d));
            &&& q.pending is None
            &&& q.id == p.id
            &&& d ==> q.store == execute(p.store, w).0 && o == OutcomeTerm::Reply(ProtoTerm::Resp(execute(p.store, w).1))
            &&& !d ==> q.store == p.store && o == OutcomeTerm::Reply(ProtoTerm::Decision(false))
        }),
{
}

/// Executing `SET k v` stores `v` under `k` and answers `OK`.
pub proof fn lemma_execute_set(m: Map<Seq<u8>, Seq<u8>>, k: Seq<u8>, v: Seq<u8>)
    ensures
        execute(m, RespTerm::Array(seq![RespTerm::BulkString(set_verb()), RespTerm::BulkString(k), RespTerm::BulkString(v)]))
            == (m.insert(k, v), RespTerm::SimpleString(seq![79u8, 75u8])),
{
    let a = seq![RespTerm::BulkString(set_verb()), RespTerm::BulkString(k), RespTerm::BulkString(v)];
    assert(a.drop_first() =~= seq![RespTerm::BulkString(k), RespTerm::BulkString(v)]);
    assert(set_verb() != crate::resp::get_verb());
}

/// The coordinator after taking write `w` and then the first `k` votes.
pub open spec fn vote_run(m: MasterTerm, w: RespTerm, votes: Seq<bool>, k: nat) -> (MasterTerm, ActionTerm)
    decreases k,
{
    if k == 0 {
        request_step(m, w)
    } else {
        reply_step(vote_run(m, w, votes, (k - 1) as nat).0, (k - 1) as nat, ProtoTerm::Vote(votes[k - 1]))
    }
}

proof fn lemma_vote_run(m: MasterTerm, w: RespTerm, votes: Seq<bool>, k: nat)
    requires
        master_ok(m),
        m.phase is Idle,
        is_write_term(w),
        votes.len() == m.statuses.len(),
        k < votes.len(),
    ensures
        vote_run(m, w, votes, k).0.statuses == m.statuses,
        vote_run(m, w, votes, k).0.phase == PhaseTerm::Voting(w, k, forall|i: int| 0 <= i < k ==> votes[i]),
        vote_run(m, w, votes, k).1 == ActionTerm::Send(k, ProtoTerm::Resp(w)),
    decreases k,
{
    if k > 0 {
        lemma_vote_run(m, w, votes, (k - 1) as nat);
        let before = forall|i: int| 0 <= i < k - 1 ==> votes[i];
        let after = forall|i: int| 0 <= i < k ==> votes[i];
        assert((before && votes[k - 1]) == after);
    }
}

/// Two-phase commit is all or nothing: once every replica has voted on
/// write `w`, the coordinator decides to commit exactly when all voted yes,
/// and each replica holding `w` applies it on that decision exactly then,
/// keeping its store otherwise.
pub proof fn lemma_commit_all_or_nothing(
    m: MasterTerm,
    w: RespTerm,
    votes: Seq<bool>,
    replicas: Seq<ParticipantTerm>,
)
    requires
        master_ok(m),
        m.phase is Idle,
        is_write_term(w),
        votes.len() == m.statuses.len(),
        replicas.len() == votes.len(),
        forall|i: int| 0 <= i < replicas.len() ==> (#[trigger] replicas[i]).pending == Some(w),
    ensures
        ({
            let all_yes = forall|i: int| 0 <= i < votes.len() ==> votes[i];
            let (m2, a) = vote_run(m, w, votes, votes.len());
            &&& forall|k: nat| k < votes.len() ==> (#[trigger] vote_run(m, w, votes, k)).1 == ActionTerm::Send(
                k,
                ProtoTerm::Resp(w),
            )
            &&& m2.phase == PhaseTerm::Deciding(all_yes, 0, votes.len(), None)
            &&& a == ActionTerm::Send(0, ProtoTerm::Decision(all_yes))
            &&& forall|i: int| 0 <= i < replicas.len() ==> (#[trigger] frame_step(replicas[i], ProtoTerm::Decision(all_yes))).0.store
                == if all_yes {
                execute(replicas[i].store, w).0
            } else {
                replicas[i].store
            }
        }),
{
    let n = votes.len();
    assert forall|k: nat| k < n implies (#[trigger] vote_run(m, w, votes, k)).1 == ActionTerm::Send(
        k,
        ProtoTerm::Resp(w),
    ) by {
        lemma_vote_run(m, w, votes, k);
    }
    lemma_vote_run(m, w, votes, (n - 1) as nat);
    let before = forall|i: int| 0 <= i < n - 1 ==> votes[i];
    let all_yes = forall|i: int| 0 <= i < n ==> votes[i];
    assert((before && votes[n - 1]) == all_yes);
}

} // verus!
