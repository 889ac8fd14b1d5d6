//! The guarantees of the relay, stated over the abstract model and proved
//! from the same transitions the relay's methods ensure.

use vstd::prelude::*;
use crate::conn::{Connection, ConnectionId, DecodeOutcome, Phase, spec_read_result};
use crate::relay::{RelayModel, inv};
use crate::table::{
    established_count, has_conn, ids_of, ids_unique, is_established, spec_accept, spec_close,
    spec_close_all, spec_deregister, spec_establish, spec_targets, lemma_close_twice,
    lemma_deregister_twice, lemma_filter_by_id, lemma_filter_ids_unique, lemma_filter_membership,
    lemma_ids_of_membership,
};

verus! {

broadcast use Seq::lemma_filter_len_push, Seq::lemma_filter_len;

/// One client connecting and completing its handshake: its socket is accepted
/// under the next fresh id, registered with the poller, and the handshake
/// then establishes that id.
pub open spec fn step_connect(m: RelayModel) -> RelayModel {
    RelayModel {
        table: spec_establish(spec_accept(m.table, m.next_id), m.next_id),
        registered: m.registered.push(m.next_id),
        next_id: (m.next_id + 1) as ConnectionId,
    }
}

/// N clients connecting in sequence, each completing its handshake.
pub open spec fn connect_n(m: RelayModel, n: nat) -> RelayModel
    decreases n,
{
    if n == 0 {
        m
    } else {
        step_connect(connect_n(m, (n - 1) as nat))
    }
}

/// Closing one connection: its id is deregistered from the poller and its
/// entry leaves the table.
pub open spec fn step_close(m: RelayModel, id: ConnectionId) -> RelayModel {
    RelayModel {
        table: spec_close(m.table, id),
        registered: spec_deregister(m.registered, id),
        next_id: m.next_id,
    }
}

/// One connection and handshake: the table gains exactly one established
/// entry and the poller exactly one registration.
proof fn lemma_step_connect(m: RelayModel)
    requires
        inv(m),
        m.next_id < ConnectionId::MAX,
    ensures
        inv(step_connect(m)),
        step_connect(m).table.len() == m.table.len() + 1,
        established_count(step_connect(m).table) == established_count(m.table) + 1,
        step_connect(m).registered.len() == m.registered.len() + 1,
        step_connect(m).next_id == m.next_id + 1,
{
    let id = m.next_id;
    let fresh = Connection { id, phase: Phase::Established };
    let t2 = step_connect(m).table;
    assert(t2 =~= m.table.push(fresh)) by {
        assert forall|k: int| 0 <= k < t2.len() implies t2[k] == m.table.push(fresh)[k] by {
            if k < m.table.len() {
                assert(spec_accept(m.table, id)[k] == m.table[k]);
                assert(m.table[k].id < id);
            } else {
                assert(spec_accept(m.table, id)[k] == Connection {
                    id,
                    phase: Phase::AwaitingHandshake,
                });
            }
        }
    }
    assert(established_count(m.table.push(fresh)) == established_count(m.table) + 1);
    assert(ids_of(t2) =~= ids_of(m.table).push(id));
    assert(ids_unique(m.table.push(fresh))) by {
        assert forall|i: int, j: int|
            0 <= i < m.table.push(fresh).len() && 0 <= j < m.table.push(fresh).len()
                && m.table.push(fresh)[i].id == m.table.push(fresh)[j].id implies i == j by {
            if i < m.table.len() && j == m.table.len() {
                assert(m.table[i].id < id);
            }
            if j < m.table.len() && i == m.table.len() {
                assert(m.table[j].id < id);
            }
        }
    }
}

/// Law: N clients connecting from a fresh relay, each completing its
/// handshake, leave the table with exactly N established entries and the
/// poller with exactly N registrations.
pub proof fn lemma_n_connections_n_established(m: RelayModel, n: nat)
    requires
        inv(m),
        m.table.len() == 0,
        m.next_id + n <= ConnectionId::MAX,
    ensures
        inv(connect_n(m, n)),
        connect_n(m, n).table.len() == n,
        established_count(connect_n(m, n).table) == n,
        connect_n(m, n).registered.len() == n,
        connect_n(m, n).next_id == m.next_id + n,
    decreases n,
{
    if n == 0 {
        assert(m.table.filter(|c: Connection| c.phase is Established).len() == 0);
        assert(m.registered.len() == ids_of(m.table).len());
    } else {
        lemma_n_connections_n_established(m, (n - 1) as nat);
        lemma_step_connect(connect_n(m, (n - 1) as nat));
    }
}

/// Law: the poller registrations and the connection table are in lock-step —
/// an id is registered exactly when it names a live table entry, no id is
/// registered twice, and the counts agree.
pub proof fn lemma_registrations_mirror_table(m: RelayModel)
    requires
        inv(m),
    ensures
        forall|id: ConnectionId| #[trigger] m.registered.contains(id) <==> has_conn(m.table, id),
        m.registered.no_duplicates(),
        m.registered.len() == m.table.len(),
{
    lemma_ids_of_membership(m.table);
    assert forall|i: int, j: int|
        0 <= i < m.registered.len() && 0 <= j < m.registered.len() && i != j
        implies m.registered[i] != m.registered[j] by {
        assert(m.registered[i] == m.table[i].id);
        assert(m.registered[j] == m.table[j].id);
    }
}

/// Law: one broadcast reaches every connection established at the moment it
/// is issued exactly once — the plan lists each such id once and lists no
/// other id.
pub proof fn lemma_broadcast_exactly_once(t: Seq<Connection>, id: ConnectionId)
    requires
        ids_unique(t),
    ensures
        spec_targets(t).no_duplicates(),
        spec_targets(t).contains(id) <==> is_established(t, id),
{
    let p = |c: Connection| c.phase is Established;
    let f = t.filter(p);
    lemma_filter_ids_unique(t, p);
    lemma_filter_membership(t, p);
    lemma_ids_of_membership(f);
    assert(spec_targets(t).no_duplicates()) by {
        assert forall|i: int, j: int|
            0 <= i < spec_targets(t).len() && 0 <= j < spec_targets(t).len() && i != j
            implies spec_targets(t)[i] != spec_targets(t)[j] by {
            assert(spec_targets(t)[i] == f[i].id);
            assert(spec_targets(t)[j] == f[j].id);
        }
    }
    if spec_targets(t).contains(id) {
        assert(has_conn(f, id));
        let k = choose|k: int| 0 <= k < f.len() && #[trigger] f[k].id == id;
        assert(f.contains(f[k]));
        assert(t.contains(f[k]));
        let i = choose|i: int| 0 <= i < t.len() && t[i] == f[k];
        assert(is_established(t, id));
    }
    if is_established(t, id) {
        let i = choose|i: int|
            0 <= i < t.len() && #[trigger] t[i].id == id && t[i].phase is Established;
        assert(t.contains(t[i]));
        assert(f.contains(t[i]));
        let k = choose|k: int| 0 <= k < f.len() && f[k] == t[i];
        assert(has_conn(f, id));
    }
}

/// Law: an empty text payload from an established connection is answered by
/// closure and never broadcast, and the close removes exactly that
/// connection and its registration — every other connection keeps its phase.
pub proof fn lemma_empty_payload_closes(m: RelayModel, id: ConnectionId, s: String)
    requires
        inv(m),
        is_established(m.table, id),
        s@.len() == 0,
    ensures
        spec_read_result(is_established(m.table, id), DecodeOutcome::Text(s)) is Closed,
        !has_conn(step_close(m, id).table, id),
        !step_close(m, id).registered.contains(id),
        forall|x: ConnectionId|
            x != id ==> (is_established(step_close(m, id).table, x) <==> is_established(
                m.table,
                x,
            )),
{
    let pred = |c: Connection| c.id != id;
    let keep = |x: ConnectionId| x != id;
    lemma_filter_by_id(m.table, pred, keep);
    assert(!spec_deregister(m.registered, id).contains(id)) by {
        if spec_deregister(m.registered, id).contains(id) {
            let j = choose|j: int|
                0 <= j < spec_deregister(m.registered, id).len() && spec_deregister(
                    m.registered,
                    id,
                )[j] == id;
        }
    }
}

/// Law: when some sends of a broadcast fail, removing the failed connections
/// afterwards leaves every other connection exactly as the broadcast found
/// it — one peer lost mid-broadcast cannot disturb delivery to the rest.
pub proof fn lemma_failed_sends_isolated(t: Seq<Connection>, failed: Seq<ConnectionId>)
    requires
        ids_unique(t),
    ensures
        ids_unique(spec_close_all(t, failed)),
        forall|x: ConnectionId| failed.contains(x) ==> !has_conn(spec_close_all(t, failed), x),
        forall|x: ConnectionId|
            !failed.contains(x) ==> (has_conn(spec_close_all(t, failed), x) <==> has_conn(t, x)),
        forall|x: ConnectionId|
            !failed.contains(x) ==> (is_established(spec_close_all(t, failed), x)
                <==> is_established(t, x)),
{
    let pred = |c: Connection| !failed.contains(c.id);
    let keep = |x: ConnectionId| !failed.contains(x);
    lemma_filter_ids_unique(t, pred);
    lemma_filter_by_id(t, pred, keep);
}

/// Law: closing an already-removed connection is a no-op — the close
/// transition is idempotent, and on an id absent from a well-formed relay it
/// changes nothing at all.
pub proof fn lemma_close_idempotent(m: RelayModel, id: ConnectionId)
    ensures
        step_close(step_close(m, id), id) == step_close(m, id),
        inv(m) && !has_conn(m.table, id) ==> step_close(m, id) == m,
{
    lemma_close_twice(m.table, id);
    lemma_deregister_twice(m.registered, id);
    if inv(m) && !has_conn(m.table, id) {
        lemma_ids_of_membership(m.table);
        assert(!m.registered.contains(id));
    }
}

} // verus!
