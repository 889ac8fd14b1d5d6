//! The relay context owned by the dispatch loop: the connection table, the
//! record of live poller registrations, and the next fresh connection id.

use vstd::prelude::*;
use crate::conn::{
    Connection, ConnectionId, DecodeOutcome, DispatchResult, HandshakeOutcome, Phase, ReadAction,
    LISTENER_ID, spec_handshake_result, spec_read_result,
};
use crate::table::{
    established_count, has_conn, ids_of, ids_unique, is_awaiting, is_established, spec_accept,
    spec_close, spec_close_all, spec_deregister, spec_establish, spec_targets,
    lemma_filter_ids_unique, lemma_filter_membership, lemma_has_conn_push, lemma_ids_of_close,
    lemma_ids_of_membership,
};

verus! {

broadcast use Seq::lemma_filter_push, Seq::lemma_push_map_commute, Seq::lemma_filter_len_push,
    Seq::lemma_take_succ_push;

/// The abstract state of the relay: what the contracts speak of.
pub struct RelayModel {
    /// The connection table, keyed by the `id` field of each entry.
    pub table: Seq<Connection>,
    /// The ids currently registered with the poller, as directed by the relay.
    pub registered: Seq<ConnectionId>,
    /// The next connection id to hand out.
    pub next_id: ConnectionId,
}

/// Well-formedness of the relay state: ids are unique, lie strictly between
/// the listener token and the allocation cursor, and the poller registration
/// record mirrors the table entry for entry — the lock-step invariant.
pub open spec fn inv(m: RelayModel) -> bool {
    &&& ids_unique(m.table)
    &&& forall|i: int|
        0 <= i < m.table.len() ==> LISTENER_ID < #[trigger] m.table[i].id < m.next_id
    &&& m.registered == ids_of(m.table)
    &&& m.next_id > LISTENER_ID
}

/// The relay context: the single owner of the connection table. Only the
/// dispatch loop mutates it, through the methods below.
pub struct Relay {
    conns: Vec<Connection>,
    registered: Vec<ConnectionId>,
    next_id: ConnectionId,
}

impl View for Relay {
    type V = RelayModel;

    closed spec fn view(&self) -> RelayModel {
        RelayModel { table: self.conns@, registered: self.registered@, next_id: self.next_id }
    }
}

impl Relay {
    /// A fresh relay: empty table, nothing registered, ids start just past
    /// the listener token.
    pub fn new() -> (r: Relay)
        ensures
            inv(r@),
            r@.table.len() == 0,
            r@.registered.len() == 0,
            r@.next_id == LISTENER_ID + 1,
    {
        let r = Relay { conns: Vec::new(), registered: Vec::new(), next_id: LISTENER_ID + 1 };
        proof {
            assert(r@.registered =~= ids_of(r@.table));
        }
        r
    }

    /// An accepted socket enters the table awaiting its handshake, under a
    /// fresh id that the caller must register with the poller.
    pub fn accept_connection(&mut self) -> (id: ConnectionId)
        requires
            inv(old(self)@),
            old(self)@.next_id < ConnectionId::MAX,
        ensures
            inv(final(self)@),
            id == old(self)@.next_id,
            !has_conn(old(self)@.table, id),
            final(self)@.table == spec_accept(old(self)@.table, id),
            final(self)@.registered == old(self)@.registered.push(id),
            final(self)@.next_id == old(self)@.next_id + 1,
    {
        let id = self.next_id;
        self.next_id = self.next_id + 1;
        self.conns.push(Connection { id, phase: Phase::AwaitingHandshake });
        self.registered.push(id);
        proof {
            assert(ids_of(self.conns@) =~= ids_of(old(self).conns@).push(id));
        }
        id
    }

    /// The phase of the entry with this id; `None` when the id is not in the
    /// table (for instance already removed).
    pub fn phase_of(&self, id: ConnectionId) -> (r: Option<Phase>)
        requires
            inv(self@),
        ensures
            r is Some <==> has_conn(self@.table, id),
            r == Some(Phase::Established) <==> is_established(self@.table, id),
            r == Some(Phase::AwaitingHandshake) <==> is_awaiting(self@.table, id),
    {
        let n = self.conns.len();
        let mut i: usize = 0;
        while i < n
            invariant
                inv(self@),
                n == self@.table.len(),
                0 <= i <= n,
                forall|j: int| 0 <= j < i ==> self@.table[j].id != id,
            decreases n - i,
        {
            if self.conns[i].id == id {
                return Some(self.conns[i].phase);
            }
            i = i + 1;
        }
        None
    }

    /// Which read handling a readable event on this id calls for: the event
    /// router of the dispatch loop. An event for an unknown id (a race
    /// between delivery and removal) is tolerated, not an error.
    pub fn read_action(&self, id: ConnectionId) -> (r: ReadAction)
        requires
            inv(self@),
        ensures
            r is TryHandshake <==> is_awaiting(self@.table, id),
            r is DecodeMessage <==> is_established(self@.table, id),
            r is Ignore <==> !has_conn(self@.table, id),
    {
        match self.phase_of(id) {
            Some(Phase::AwaitingHandshake) => ReadAction::TryHandshake,
            Some(Phase::Established) => ReadAction::DecodeMessage,
            None => ReadAction::Ignore,
        }
    }

    /// What the handshake collaborator reported for this connection decides
    /// its next phase: `Done` establishes it, `NeedMore` keeps its buffered
    /// bytes for the next readable event, `Reject` asks for its closure.
    pub fn on_handshake_outcome(&mut self, id: ConnectionId, outcome: HandshakeOutcome) -> (r:
        DispatchResult)
        requires
            inv(old(self)@),
        ensures
            inv(final(self)@),
            r == spec_handshake_result(is_awaiting(old(self)@.table, id), outcome),
            final(self)@.next_id == old(self)@.next_id,
            final(self)@.registered == old(self)@.registered,
            final(self)@.table == if is_awaiting(old(self)@.table, id)
                && outcome is Done { spec_establish(old(self)@.table, id) } else {
                old(self)@.table
            },
    {
        let awaiting = match self.phase_of(id) {
            Some(Phase::AwaitingHandshake) => true,
            _ => false,
        };
        if !awaiting {
            return DispatchResult::Noop;
        }
        match outcome {
            HandshakeOutcome::NeedMore => DispatchResult::Noop,
            HandshakeOutcome::Reject => DispatchResult::Closed,
            HandshakeOutcome::Done => {
                self.establish(id);
                DispatchResult::HandshakeCompleted
            },
        }
    }

    /// What the codec session reported for this established connection
    /// decides the dispatch: a non-empty text is broadcast, an empty text is
    /// a close request, errors and protocol close ask for closure, and a
    /// would-block waits. The table itself does not change here.
    pub fn on_established_read(&self, id: ConnectionId, outcome: DecodeOutcome) -> (r:
        DispatchResult)
        requires
            inv(self@),
        ensures
            r == spec_read_result(is_established(self@.table, id), outcome),
    {
        let established = match self.phase_of(id) {
            Some(Phase::Established) => true,
            _ => false,
        };
        if !established {
            return DispatchResult::Noop;
        }
        match outcome {
            DecodeOutcome::NeedMore => DispatchResult::Noop,
            DecodeOutcome::Text(s) => {
                if s.as_str().is_empty() {
                    DispatchResult::Closed
                } else {
                    DispatchResult::Message(s)
                }
            },
            DecodeOutcome::Close => DispatchResult::Closed,
            DecodeOutcome::Error => DispatchResult::Closed,
        }
    }

    /// The broadcast plan for one decoded message: the ids of every
    /// connection established at this moment, each exactly once, in table
    /// order. Computed in full before any send, so a failure on one target
    /// cannot disturb the plan for the others.
    pub fn broadcast_targets(&self) -> (targets: Vec<ConnectionId>)
        requires
            inv(self@),
        ensures
            targets@ == spec_targets(self@.table),
    {
        let n = self.conns.len();
        let mut targets: Vec<ConnectionId> = Vec::new();
        let mut i: usize = 0;
        while i < n
            invariant
                inv(self@),
                n == self@.table.len(),
                0 <= i <= n,
                targets@ == spec_targets(self@.table.take(i as int)),
            decreases n - i,
        {
            let c = self.conns[i];
            if matches!(c.phase, Phase::Established) {
                targets.push(c.id);
            }
            proof {
                assert(self@.table.take(i + 1) =~= self@.table.take(i as int).push(
                    self@.table[i as int],
                ));
                assert(targets@ =~= spec_targets(self@.table.take(i + 1)));
            }
            i = i + 1;
        }
        proof {
            assert(self@.table.take(n as int) =~= self@.table);
        }
        targets
    }

    /// Close one connection: deregister its id, then remove its entry.
    /// Closing an id that is not in the table is a no-op, so a second close
    /// of the same id, or a racing event after removal, is harmless.
    pub fn close_connection(&mut self, id: ConnectionId) -> (was_present: bool)
        requires
            inv(old(self)@),
        ensures
            inv(final(self)@),
            was_present == has_conn(old(self)@.table, id),
            final(self)@.table == spec_close(old(self)@.table, id),
            final(self)@.registered == spec_deregister(old(self)@.registered, id),
            final(self)@.next_id == old(self)@.next_id,
            !has_conn(final(self)@.table, id),
            !final(self)@.registered.contains(id),
    {
        let n = self.conns.len();
        let mut kept: Vec<Connection> = Vec::new();
        let mut kept_reg: Vec<ConnectionId> = Vec::new();
        let mut found = false;
        let mut i: usize = 0;
        while i < n
            invariant
                inv(self@),
                self@ == old(self)@,
                n == self@.table.len(),
                0 <= i <= n,
                kept@ == spec_close(self@.table.take(i as int), id),
                kept_reg@ == ids_of(kept@),
                found == has_conn(self@.table.take(i as int), id),
            decreases n - i,
        {
            let c = self.conns[i];
            proof {
                assert(self@.table.take(i + 1) =~= self@.table.take(i as int).push(
                    self@.table[i as int],
                ));
            }
            proof {
                lemma_has_conn_push(self@.table.take(i as int), self@.table[i as int], id);
            }
            if c.id == id {
                found = true;
            } else {
                kept.push(c);
                kept_reg.push(c.id);
                proof {
                    assert(kept_reg@ =~= ids_of(kept@));
                }
            }
            i = i + 1;
        }
        proof {
            assert(self@.table.take(n as int) =~= self@.table);
            lemma_filter_ids_unique(self@.table, |c: Connection| c.id != id);
            lemma_filter_membership(self@.table, |c: Connection| c.id != id);
            lemma_ids_of_close(self@.table, id);
            lemma_ids_of_membership(kept@);
            let t2 = spec_close(self@.table, id);
            assert forall|k: int| 0 <= k < t2.len() implies LISTENER_ID < #[trigger] t2[k].id
                < self@.next_id by {
                assert(t2.contains(t2[k]));
                assert(self@.table.contains(t2[k]));
                let m = choose|m: int| 0 <= m < self@.table.len() && self@.table[m] == t2[k];
            }
            assert(!has_conn(t2, id)) by {
                if has_conn(t2, id) {
                    let j = choose|j: int| 0 <= j < t2.len() && t2[j].id == id;
                    assert(t2.contains(t2[j]));
                }
            }
        }
        self.conns = kept;
        self.registered = kept_reg;
        found
    }

    /// The removal pass after a broadcast: close every connection whose send
    /// failed. Run only after the full broadcast pass has completed.
    pub fn remove_failed(&mut self, failed: &Vec<ConnectionId>)
        requires
            inv(old(self)@),
        ensures
            inv(final(self)@),
            final(self)@.table == spec_close_all(old(self)@.table, failed@),
            final(self)@.next_id == old(self)@.next_id,
    {
        let n = self.conns.len();
        let mut kept: Vec<Connection> = Vec::new();
        let mut kept_reg: Vec<ConnectionId> = Vec::new();
        let mut i: usize = 0;
        while i < n
            invariant
                inv(self@),
                self@ == old(self)@,
                n == self@.table.len(),
                0 <= i <= n,
                kept@ == spec_close_all(self@.table.take(i as int), failed@),
                kept_reg@ == ids_of(kept@),
            decreases n - i,
        {
            let c = self.conns[i];
            proof {
                assert(self@.table.take(i + 1) =~= self@.table.take(i as int).push(
                    self@.table[i as int],
                ));
            }
            if !contains_id(failed, c.id) {
                kept.push(c);
                kept_reg.push(c.id);
                proof {
                    assert(kept_reg@ =~= ids_of(kept@));
                }
            }
            i = i + 1;
        }
        proof {
            assert(self@.table.take(n as int) =~= self@.table);
            lemma_filter_ids_unique(self@.table, |c: Connection| !failed@.contains(c.id));
            lemma_filter_membership(self@.table, |c: Connection| !failed@.contains(c.id));
            let t2 = spec_close_all(self@.table, failed@);
            assert forall|k: int| 0 <= k < t2.len() implies LISTENER_ID < #[trigger] t2[k].id
                < self@.next_id by {
                assert(t2.contains(t2[k]));
                assert(self@.table.contains(t2[k]));
                let m = choose|m: int| 0 <= m < self@.table.len() && self@.table[m] == t2[k];
            }
        }
        self.conns = kept;
        self.registered = kept_reg;
    }

    /// Whether another connection can still be accepted: the id space is not
    /// exhausted. Callers test this before `accept_connection`.
    pub fn can_accept(&self) -> (r: bool)
        ensures
            r == (self@.next_id < ConnectionId::MAX),
    {
        self.next_id < ConnectionId::MAX
    }

    /// How many connections the table holds, whatever their phase.
    pub fn connection_count(&self) -> (n: usize)
        ensures
            n == self@.table.len(),
    {
        self.conns.len()
    }

    /// How many ids the relay holds registered with the poller.
    pub fn registration_count(&self) -> (n: usize)
        ensures
            n == self@.registered.len(),
    {
        self.registered.len()
    }

    /// Whether this id is currently registered with the poller.
    pub fn is_registered(&self, id: ConnectionId) -> (r: bool)
        ensures
            r == self@.registered.contains(id),
    {
        let n = self.registered.len();
        let mut i: usize = 0;
        while i < n
            invariant
                n == self@.registered.len(),
                0 <= i <= n,
                forall|j: int| 0 <= j < i ==> self@.registered[j] != id,
            decreases n - i,
        {
            if self.registered[i] == id {
                return true;
            }
            i = i + 1;
        }
        false
    }

    /// How many connections are established.
    pub fn established_connections(&self) -> (n: usize)
        ensures
            n == established_count(self@.table),
    {
        let total = self.conns.len();
        let mut n: usize = 0;
        let mut i: usize = 0;
        while i < total
            invariant
                total == self@.table.len(),
                0 <= i <= total,
                n == established_count(self@.table.take(i as int)),
                n <= i,
            decreases total - i,
        {
            proof {
                assert(self@.table.take(i + 1) =~= self@.table.take(i as int).push(
                    self@.table[i as int],
                ));
            }
            if matches!(self.conns[i].phase, Phase::Established) {
                n = n + 1;
            }
            i = i + 1;
        }
        proof {
            assert(self@.table.take(total as int) =~= self@.table);
        }
        n
    }

    /// Flip the entry with this id to `Established`; every other entry, the
    /// registration record and the id cursor stay as they are.
    fn establish(&mut self, id: ConnectionId)
        requires
            inv(old(self)@),
        ensures
            inv(final(self)@),
            final(self)@.table == spec_establish(old(self)@.table, id),
            final(self)@.registered == old(self)@.registered,
            final(self)@.next_id == old(self)@.next_id,
    {
        let n = self.conns.len();
        let mut updated: Vec<Connection> = Vec::new();
        let mut i: usize = 0;
        while i < n
            invariant
                inv(self@),
                self@ == old(self)@,
                n == self@.table.len(),
                0 <= i <= n,
                updated@ == spec_establish(self@.table, id).take(i as int),
            decreases n - i,
        {
            let c = self.conns[i];
            if c.id == id {
                updated.push(Connection { id: c.id, phase: Phase::Established });
            } else {
                updated.push(c);
            }
            proof {
                assert(updated@ =~= spec_establish(self@.table, id).take(i + 1));
            }
            i = i + 1;
        }
        proof {
            let t2 = spec_establish(self@.table, id);
            assert(t2.take(n as int) =~= t2);
            assert(forall|k: int| 0 <= k < self@.table.len() ==> #[trigger] t2[k].id
                == self@.table[k].id);
            assert(ids_of(t2) =~= ids_of(self@.table));
        }
        self.conns = updated;
    }
}

/// Whether this id is among the recorded failures.
fn contains_id(v: &Vec<ConnectionId>, id: ConnectionId) -> (r: bool)
    ensures
        r == v@.contains(id),
{
    let n = v.len();
    let mut i: usize = 0;
    while i < n
        invariant
            n == v@.len(),
            0 <= i <= n,
            forall|j: int| 0 <= j < i ==> v@[j] != id,
        decreases n - i,
    {
        if v[i] == id {
            return true;
        }
        i = i + 1;
    }
    false
}

} // verus!
