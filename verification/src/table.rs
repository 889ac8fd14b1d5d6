//! The mathematical model of the connection table: a sequence of entries with
//! unique ids, the transitions the dispatch loop performs on it, and lemmas
//! about them.

use vstd::prelude::*;
use crate::conn::{Connection, ConnectionId, Phase};

verus! {

/// No two entries share an id.
pub open spec fn ids_unique(t: Seq<Connection>) -> bool {
    forall|i: int, j: int|
        0 <= i < t.len() && 0 <= j < t.len() && t[i].id == t[j].id ==> i == j
}

/// Some entry has this id.
pub open spec fn has_conn(t: Seq<Connection>, id: ConnectionId) -> bool {
    exists|i: int| 0 <= i < t.len() && t[i].id == id
}

/// Some entry has this id and is established.
pub open spec fn is_established(t: Seq<Connection>, id: ConnectionId) -> bool {
    exists|i: int| 0 <= i < t.len() && t[i].id == id && t[i].phase is Established
}

/// Some entry has this id and still awaits its handshake.
pub open spec fn is_awaiting(t: Seq<Connection>, id: ConnectionId) -> bool {
    exists|i: int| 0 <= i < t.len() && t[i].id == id && t[i].phase is AwaitingHandshake
}

/// The ids of the entries, in table order.
pub open spec fn ids_of(t: Seq<Connection>) -> Seq<ConnectionId> {
    t.map_values(|c: Connection| c.id)
}

/// How many entries are established.
pub open spec fn established_count(t: Seq<Connection>) -> nat {
    t.filter(|c: Connection| c.phase is Established).len()
}

/// Accepting a socket appends a fresh entry in `AwaitingHandshake` phase.
pub open spec fn spec_accept(t: Seq<Connection>, id: ConnectionId) -> Seq<Connection> {
    t.push(Connection { id, phase: Phase::AwaitingHandshake })
}

/// A completed handshake flips the entry with this id to `Established` and
/// touches nothing else.
pub open spec fn spec_establish(t: Seq<Connection>, id: ConnectionId) -> Seq<Connection> {
    t.map_values(
        |c: Connection|
            if c.id == id {
                Connection { id: c.id, phase: Phase::Established }
            } else {
                c
            },
    )
}

/// Closing a connection removes the entry with this id, if any.
pub open spec fn spec_close(t: Seq<Connection>, id: ConnectionId) -> Seq<Connection> {
    t.filter(|c: Connection| c.id != id)
}

/// Removing every connection whose send failed during a broadcast.
pub open spec fn spec_close_all(t: Seq<Connection>, failed: Seq<ConnectionId>) -> Seq<Connection> {
    t.filter(|c: Connection| !failed.contains(c.id))
}

/// Deregistering one id from the poller registration record.
pub open spec fn spec_deregister(reg: Seq<ConnectionId>, id: ConnectionId) -> Seq<ConnectionId> {
    reg.filter(|x: ConnectionId| x != id)
}

/// The broadcast plan: the ids of the established entries, in table order.
pub open spec fn spec_targets(t: Seq<Connection>) -> Seq<ConnectionId> {
    ids_of(t.filter(|c: Connection| c.phase is Established))
}

/// Appending an entry extends id membership by exactly that entry's id.
pub proof fn lemma_has_conn_push(t: Seq<Connection>, c: Connection, id: ConnectionId)
    ensures
        has_conn(t.push(c), id) == (has_conn(t, id) || c.id == id),
{
    if has_conn(t, id) {
        let j = choose|j: int| 0 <= j < t.len() && #[trigger] t[j].id == id;
        assert(t.push(c)[j].id == id);
    }
    if c.id == id {
        assert(t.push(c)[t.len() as int].id == id);
    }
    if has_conn(t.push(c), id) && !has_conn(t, id) && c.id != id {
        let j = choose|j: int| 0 <= j < t.push(c).len() && #[trigger] t.push(c)[j].id == id;
        if j < t.len() {
            assert(t[j].id == id);
        }
        assert(false);
    }
}

/// Membership in a filtered table, id by id: the entry survives exactly when
/// it was there and satisfies the predicate.
pub proof fn lemma_filter_membership(t: Seq<Connection>, pred: spec_fn(Connection) -> bool)
    ensures
        forall|x: Connection| #[trigger] t.filter(pred).contains(x) <==> t.contains(x) && pred(x),
    decreases t.len(),
{
    reveal(Seq::filter);
    if t.len() > 0 {
        let rest = t.drop_last();
        lemma_filter_membership(rest, pred);
        assert forall|x: Connection| #[trigger] t.filter(pred).contains(x)
            implies t.contains(x) && pred(x) by {
            if x == t.last() {
                assert(t.contains(x)) by {
                    assert(t[t.len() - 1] == x);
                }
            } else {
                assert(t.filter(pred) == if pred(t.last()) {
                    rest.filter(pred).push(t.last())
                } else {
                    rest.filter(pred)
                });
                assert(rest.filter(pred).contains(x));
                assert(rest.contains(x));
                let i = choose|i: int| 0 <= i < rest.len() && rest[i] == x;
                assert(t[i] == x);
            }
        }
        assert forall|x: Connection| t.contains(x) && pred(x)
            implies #[trigger] t.filter(pred).contains(x) by {
            let i = choose|i: int| 0 <= i < t.len() && t[i] == x;
            if i < t.len() - 1 {
                assert(rest[i] == x);
                assert(rest.filter(pred).contains(x));
                let j = choose|j: int| 0 <= j < rest.filter(pred).len() && rest.filter(pred)[j] == x;
                if pred(t.last()) {
                    assert(t.filter(pred)[j] == x);
                } else {
                    assert(t.filter(pred)[j] == x);
                }
            } else {
                assert(x == t.last());
                assert(t.filter(pred) == rest.filter(pred).push(t.last()));
                assert(t.filter(pred)[t.filter(pred).len() - 1] == x);
            }
        }
    } else {
        assert(t.filter(pred) =~= t);
    }
}

/// Filtering keeps ids unique.
pub proof fn lemma_filter_ids_unique(t: Seq<Connection>, pred: spec_fn(Connection) -> bool)
    requires
        ids_unique(t),
    ensures
        ids_unique(t.filter(pred)),
    decreases t.len(),
{
    reveal(Seq::filter);
    if t.len() > 0 {
        let rest = t.drop_last();
        assert(ids_unique(rest)) by {
            assert(forall|i: int| 0 <= i < rest.len() ==> rest[i] == t[i]);
        }
        lemma_filter_ids_unique(rest, pred);
        if pred(t.last()) {
            let f = rest.filter(pred);
            assert forall|i: int, j: int|
                0 <= i < f.push(t.last()).len() && 0 <= j < f.push(t.last()).len()
                    && f.push(t.last())[i].id == f.push(t.last())[j].id implies i == j by {
                if i != j {
                    if i == f.len() || j == f.len() {
                        let k = if i == f.len() { j } else { i };
                        assert(f[k] == f.push(t.last())[k]);
                        assert(f.contains(f[k]));
                        lemma_filter_membership(rest, pred);
                        assert(rest.contains(f[k]));
                        let m = choose|m: int| 0 <= m < rest.len() && rest[m] == f[k];
                        assert(t[m] == f[k]);
                        assert(t[t.len() - 1] == t.last());
                        assert(false);
                    }
                }
            }
        }
    }
}

/// When a filter predicate reads nothing but the id, filtering decides
/// membership, establishment and handshake status id by id: ids the predicate
/// rejects vanish, ids it keeps are exactly as they were.
pub proof fn lemma_filter_by_id(
    t: Seq<Connection>,
    pred: spec_fn(Connection) -> bool,
    keep: spec_fn(ConnectionId) -> bool,
)
    requires
        forall|c: Connection| #[trigger] pred(c) == keep(c.id),
    ensures
        forall|x: ConnectionId| !keep(x) ==> !has_conn(t.filter(pred), x),
        forall|x: ConnectionId|
            keep(x) ==> (has_conn(t.filter(pred), x) <==> has_conn(t, x)),
        forall|x: ConnectionId|
            keep(x) ==> (is_established(t.filter(pred), x) <==> is_established(t, x)),
        forall|x: ConnectionId|
            keep(x) ==> (is_awaiting(t.filter(pred), x) <==> is_awaiting(t, x)),
{
    lemma_filter_membership(t, pred);
    let f = t.filter(pred);
    assert forall|x: ConnectionId| !keep(x) implies !has_conn(f, x) by {
        if has_conn(f, x) {
            let j = choose|j: int| 0 <= j < f.len() && #[trigger] f[j].id == x;
            assert(f.contains(f[j]));
            assert(pred(f[j]));
        }
    }
    assert forall|x: ConnectionId| keep(x) implies (has_conn(f, x) <==> has_conn(t, x))
        && (is_established(f, x) <==> is_established(t, x)) && (is_awaiting(f, x)
        <==> is_awaiting(t, x)) by {
        if has_conn(f, x) {
            let j = choose|j: int| 0 <= j < f.len() && #[trigger] f[j].id == x;
            assert(f.contains(f[j]));
            assert(t.contains(f[j]));
            let i = choose|i: int| 0 <= i < t.len() && t[i] == f[j];
            assert(has_conn(t, x));
        }
        if has_conn(t, x) {
            let i = choose|i: int| 0 <= i < t.len() && #[trigger] t[i].id == x;
            assert(t.contains(t[i]));
            assert(f.contains(t[i]));
            let j = choose|j: int| 0 <= j < f.len() && f[j] == t[i];
            assert(has_conn(f, x));
        }
        if is_established(f, x) {
            let j = choose|j: int|
                0 <= j < f.len() && #[trigger] f[j].id == x && f[j].phase is Established;
            assert(f.contains(f[j]));
            assert(t.contains(f[j]));
            let i = choose|i: int| 0 <= i < t.len() && t[i] == f[j];
            assert(is_established(t, x));
        }
        if is_established(t, x) {
            let i = choose|i: int|
                0 <= i < t.len() && #[trigger] t[i].id == x && t[i].phase is Established;
            assert(t.contains(t[i]));
            assert(f.contains(t[i]));
            let j = choose|j: int| 0 <= j < f.len() && f[j] == t[i];
            assert(is_established(f, x));
        }
        if is_awaiting(f, x) {
            let j = choose|j: int|
                0 <= j < f.len() && #[trigger] f[j].id == x && f[j].phase is AwaitingHandshake;
            assert(f.contains(f[j]));
            assert(t.contains(f[j]));
            let i = choose|i: int| 0 <= i < t.len() && t[i] == f[j];
            assert(is_awaiting(t, x));
        }
        if is_awaiting(t, x) {
            let i = choose|i: int|
                0 <= i < t.len() && #[trigger] t[i].id == x && t[i].phase is AwaitingHandshake;
            assert(t.contains(t[i]));
            assert(f.contains(t[i]));
            let j = choose|j: int| 0 <= j < f.len() && f[j] == t[i];
            assert(is_awaiting(f, x));
        }
    }
}

/// Closing is idempotent on the table: a second close of the same id finds
/// nothing, and a close of an absent id changes nothing.
pub proof fn lemma_close_twice(t: Seq<Connection>, id: ConnectionId)
    ensures
        spec_close(spec_close(t, id), id) == spec_close(t, id),
        !has_conn(t, id) ==> spec_close(t, id) == t,
    decreases t.len(),
{
    broadcast use Seq::lemma_filter_push;

    if t.len() == 0 {
        assert(spec_close(t, id) =~= t);
        assert(spec_close(spec_close(t, id), id) =~= spec_close(t, id));
    } else {
        let rest = t.drop_last();
        let last = t.last();
        lemma_close_twice(rest, id);
        assert(rest.push(last) =~= t);
        if last.id == id {
            assert(spec_close(t, id) == spec_close(rest, id));
        } else {
            assert(spec_close(t, id) == spec_close(rest, id).push(last));
            assert(spec_close(spec_close(rest, id).push(last), id) == spec_close(
                spec_close(rest, id),
                id,
            ).push(last));
        }
        if !has_conn(t, id) {
            assert(!has_conn(rest, id)) by {
                if has_conn(rest, id) {
                    let j = choose|j: int| 0 <= j < rest.len() && #[trigger] rest[j].id == id;
                    assert(t[j].id == id);
                }
            }
            assert(last.id != id) by {
                assert(t[t.len() - 1] == last);
            }
        }
    }
}

/// Deregistering is idempotent on the registration record, and deregistering
/// an id that is not recorded changes nothing.
pub proof fn lemma_deregister_twice(reg: Seq<ConnectionId>, id: ConnectionId)
    ensures
        spec_deregister(spec_deregister(reg, id), id) == spec_deregister(reg, id),
        !reg.contains(id) ==> spec_deregister(reg, id) == reg,
    decreases reg.len(),
{
    broadcast use Seq::lemma_filter_push;

    if reg.len() == 0 {
        assert(spec_deregister(reg, id) =~= reg);
        assert(spec_deregister(spec_deregister(reg, id), id) =~= spec_deregister(reg, id));
    } else {
        let rest = reg.drop_last();
        let last = reg.last();
        lemma_deregister_twice(rest, id);
        assert(rest.push(last) =~= reg);
        if last == id {
            assert(spec_deregister(reg, id) == spec_deregister(rest, id));
        } else {
            assert(spec_deregister(reg, id) == spec_deregister(rest, id).push(last));
            assert(spec_deregister(spec_deregister(rest, id).push(last), id) == spec_deregister(
                spec_deregister(rest, id),
                id,
            ).push(last));
        }
        if !reg.contains(id) {
            assert(!rest.contains(id)) by {
                if rest.contains(id) {
                    let j = choose|j: int| 0 <= j < rest.len() && rest[j] == id;
                    assert(reg[j] == id);
                }
            }
            assert(last != id) by {
                assert(reg[reg.len() - 1] == last);
            }
        }
    }
}

/// Membership of an id in the id record mirrors membership in the table.
pub proof fn lemma_ids_of_membership(t: Seq<Connection>)
    ensures
        forall|id: ConnectionId| #[trigger] ids_of(t).contains(id) <==> has_conn(t, id),
{
    assert forall|id: ConnectionId| #[trigger] ids_of(t).contains(id) implies has_conn(t, id) by {
        let i = choose|i: int| 0 <= i < ids_of(t).len() && ids_of(t)[i] == id;
        assert(t[i].id == id);
    }
    assert forall|id: ConnectionId| has_conn(t, id) implies #[trigger] ids_of(t).contains(id) by {
        let i = choose|i: int| 0 <= i < t.len() && t[i].id == id;
        assert(ids_of(t)[i] == id);
    }
}

/// Removing an entry removes exactly its id from the id record.
pub proof fn lemma_ids_of_close(t: Seq<Connection>, id: ConnectionId)
    ensures
        ids_of(spec_close(t, id)) == spec_deregister(ids_of(t), id),
    decreases t.len(),
{
    reveal(Seq::filter);
    if t.len() > 0 {
        let rest = t.drop_last();
        lemma_ids_of_close(rest, id);
        assert(ids_of(t).drop_last() =~= ids_of(rest));
        assert(ids_of(t).last() == t.last().id);
        if t.last().id != id {
            assert(spec_close(t, id) == spec_close(rest, id).push(t.last()));
            assert(ids_of(spec_close(rest, id).push(t.last())) =~= ids_of(
                spec_close(rest, id),
            ).push(t.last().id));
            assert(spec_deregister(ids_of(t), id) == spec_deregister(ids_of(rest), id).push(
                t.last().id,
            ));
        } else {
            assert(spec_close(t, id) == spec_close(rest, id));
            assert(spec_deregister(ids_of(t), id) == spec_deregister(ids_of(rest), id));
        }
    } else {
        assert(ids_of(spec_close(t, id)) =~= spec_deregister(ids_of(t), id));
    }
}

} // verus!
