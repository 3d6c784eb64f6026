//! The relay as a whole: the accept loop, the pool and every session it has
//! launched, taking steps in any order.
//!
//! Nothing here runs. This is the model in which the steps of the server
//! and of the sessions, which run side by side, are put one after the other,
//! and in which what must hold at every moment is stated and proved.

use crate::client::Client;
use crate::handler::{step_of, EventView, HandlerState, HandlerView};
use crate::pool::{ids_in_order, lemma_request_yields_empty, stream_at, theorem_snapshot_members};
use crate::server::{server_step, ServerActionView, ServerEvent, ServerState, ServerView};
use vstd::prelude::*;

verus! {

/// A relay at one moment: the server, the slots of the pool and every
/// session launched so far, ended or not, in the order of their launch.
pub struct RelayView {
    pub server: ServerView,
    pub slots: Seq<Client>,
    pub sessions: Seq<HandlerView>,
}

/// One step of a relay: the server hears of an event, or the session at
/// some position does.
pub enum RelayStep {
    Server(ServerEvent),
    Session(int, EventView),
}

/// Whether a session has not ended yet.
pub open spec fn live(session: HandlerView) -> bool {
    session.state != HandlerState::Closed
}

/// The relay after one step. The server and the sessions share the slots;
/// a session that the server launches joins the others.
pub open spec fn relay_next(relay: RelayView, step: RelayStep) -> RelayView {
    match step {
        RelayStep::Server(event) => {
            let (state, slots, action) = server_step(relay.server, relay.slots, event);
            RelayView {
                server: ServerView { state, ..relay.server },
                slots,
                sessions: match action {
                    ServerActionView::Launch { handler, .. } => relay.sessions.push(handler),
                    _ => relay.sessions,
                },
            }
        },
        RelayStep::Session(i, event) => {
            if 0 <= i < relay.sessions.len() {
                let (state, slots, _) = step_of(relay.sessions[i], relay.slots, event);
                RelayView {
                    server: relay.server,
                    slots,
                    sessions: relay.sessions.update(i, HandlerView { state, ..relay.sessions[i] }),
                }
            } else {
                relay
            }
        },
    }
}

/// What holds of a relay at every moment.
///
/// Every slot carries its position as identity. Every session that has not
/// ended serves a slot that holds a connection, no two such sessions serve
/// the same slot, and no session counts itself among its peers. Every slot
/// that holds a connection is served by a session that has not ended.
pub open spec fn relay_inv(relay: RelayView) -> bool {
    &&& ids_in_order(relay.slots)
    &&& relay.slots.len() <= usize::MAX
    &&& forall|i: int|
        0 <= i < relay.sessions.len() && live(#[trigger] relay.sessions[i]) ==> stream_at(
            relay.slots,
            relay.sessions[i].id,
        ) is Some
    &&& forall|i: int, j: int|
        0 <= i < j < relay.sessions.len() && live(#[trigger] relay.sessions[i]) && live(
            #[trigger] relay.sessions[j],
        ) ==> relay.sessions[i].id != relay.sessions[j].id
    &&& forall|i: int|
        0 <= i < relay.sessions.len() ==> !(#[trigger] relay.sessions[i]).peers.contains(
            relay.sessions[i].id,
        )
    &&& forall|k: int|
        0 <= k < relay.slots.len() && (#[trigger] relay.slots[k]).occupied() ==> served(relay, k)
}

/// Whether some session that has not ended serves slot `k`.
pub open spec fn served(relay: RelayView, k: int) -> bool {
    exists|i: int|
        0 <= i < relay.sessions.len() && live(#[trigger] relay.sessions[i]) && relay.sessions[i].id
            == k
}

/// A relay that has launched no session, over a pool in which no slot
/// holds a connection, is in order.
pub proof fn theorem_relay_starts_in_order(relay: RelayView)
    requires
        ids_in_order(relay.slots),
        relay.slots.len() <= usize::MAX,
        forall|k: int| 0 <= k < relay.slots.len() ==> !(#[trigger] relay.slots[k]).occupied(),
        relay.sessions.len() == 0,
    ensures
        relay_inv(relay),
{
}

/// A relay that is in order stays in order, whichever step is taken: by the
/// server or by any session, on whatever event. So at every moment each
/// client that is connected has a slot and a session of its own, however
/// the connections, messages and departures of the clients interleave.
pub proof fn theorem_relay_stays_in_order(relay: RelayView, step: RelayStep)
    requires
        relay_inv(relay),
        relay_next(relay, step).slots.len() <= usize::MAX,
    ensures
        relay_inv(relay_next(relay, step)),
{
    let after = relay_next(relay, step);
    lemma_request_yields_empty(relay.slots);
    match step {
        RelayStep::Server(event) => {
            let (state, slots, action) = server_step(relay.server, relay.slots, event);
            match action {
                ServerActionView::Launch { handler, .. } => {
                    let n = relay.sessions.len() as int;
                    assert(relay.server.state == ServerState::Accepting);
                    assert(event is Accepted);
                    theorem_snapshot_members(slots, handler.id, handler.id);
                    assert(after.sessions[n] == handler);
                    assert forall|i: int|
                        0 <= i < after.sessions.len() && live(
                            #[trigger] after.sessions[i],
                        ) implies stream_at(after.slots, after.sessions[i].id) is Some by {
                        if i < n {
                            assert(after.sessions[i] == relay.sessions[i]);
                            let k = relay.sessions[i].id as int;
                            assert(relay.slots[k].occupied());
                        }
                    }
                    assert forall|i: int, j: int|
                        0 <= i < j < after.sessions.len() && live(#[trigger] after.sessions[i])
                            && live(#[trigger] after.sessions[j]) implies after.sessions[i].id
                        != after.sessions[j].id by {
                        assert(after.sessions[i] == relay.sessions[i]);
                        let k = relay.sessions[i].id as int;
                        assert(relay.slots[k].occupied());
                        if j < n {
                            assert(after.sessions[j] == relay.sessions[j]);
                        }
                    }
                    assert forall|k: int|
                        0 <= k < after.slots.len() && (#[trigger] after.slots[k]).occupied() implies served(
                        after,
                        k,
                    ) by {
                        if k == handler.id {
                            assert(live(after.sessions[n]) && after.sessions[n].id == k);
                        } else {
                            assert(relay.slots[k].occupied());
                            let i = choose|i: int|
                                0 <= i < relay.sessions.len() && live(#[trigger] relay.sessions[i])
                                    && relay.sessions[i].id == k;
                            assert(after.sessions[i] == relay.sessions[i]);
                        }
                    }
                },
                _ => {
                    assert(after.sessions == relay.sessions);
                    assert forall|i: int|
                        0 <= i < after.sessions.len() && live(
                            #[trigger] after.sessions[i],
                        ) implies stream_at(after.slots, after.sessions[i].id) is Some by {
                        let k = relay.sessions[i].id as int;
                        assert(relay.slots[k].occupied());
                    }
                    assert forall|k: int|
                        0 <= k < after.slots.len() && (#[trigger] after.slots[k]).occupied() implies served(
                        after,
                        k,
                    ) by {
                        assert(relay.slots[k].occupied());
                    }
                },
            }
        },
        RelayStep::Session(s, event) => {
            if 0 <= s < relay.sessions.len() {
                let before = relay.sessions[s];
                let (state, slots, _) = step_of(before, relay.slots, event);
                assert forall|i: int|
                    0 <= i < after.sessions.len() && live(
                        #[trigger] after.sessions[i],
                    ) implies stream_at(after.slots, after.sessions[i].id) is Some by {
                    if i != s {
                        assert(after.sessions[i] == relay.sessions[i]);
                        assert(live(relay.sessions[i]));
                        if live(before) {
                            if i < s {
                                assert(relay.sessions[i].id != relay.sessions[s].id);
                            } else {
                                assert(relay.sessions[s].id != relay.sessions[i].id);
                            }
                        }
                    }
                }
                assert forall|i: int, j: int|
                    0 <= i < j < after.sessions.len() && live(#[trigger] after.sessions[i]) && live(
                        #[trigger] after.sessions[j],
                    ) implies after.sessions[i].id != after.sessions[j].id by {
                    assert(live(relay.sessions[i]));
                    assert(live(relay.sessions[j]));
                }
                assert forall|k: int|
                    0 <= k < after.slots.len() && (#[trigger] after.slots[k]).occupied() implies served(
                    after,
                    k,
                ) by {
                    assert(relay.slots[k].occupied());
                    let i = choose|i: int|
                        0 <= i < relay.sessions.len() && live(#[trigger] relay.sessions[i])
                            && relay.sessions[i].id == k;
                    if i == s {
                        assert(live(after.sessions[s]) && after.sessions[s].id == k);
                    } else {
                        assert(after.sessions[i] == relay.sessions[i]);
                    }
                }
            }
        },
    }
}

/// The step of one session is nothing to the others. Whatever happens to a
/// session, be it that its stream breaks, every other session that has not
/// ended stands where it stood, and the slot it serves holds what it held.
pub proof fn theorem_sessions_are_isolated(relay: RelayView, s: int, event: EventView, other: int)
    requires
        relay_inv(relay),
        0 <= s < relay.sessions.len(),
        0 <= other < relay.sessions.len(),
        other != s,
        live(relay.sessions[other]),
    ensures
        ({
            let after = relay_next(relay, RelayStep::Session(s, event));
            let k = relay.sessions[other].id as int;
            &&& after.sessions[other] == relay.sessions[other]
            &&& after.slots.len() == relay.slots.len()
            &&& after.slots[k] == relay.slots[k]
            &&& after.server == relay.server
        }),
{
    let k = relay.sessions[other].id as int;
    assert(relay.slots[k].occupied());
    if live(relay.sessions[s]) {
        if other < s {
            assert(relay.sessions[other].id != relay.sessions[s].id);
        } else {
            assert(relay.sessions[s].id != relay.sessions[other].id);
        }
    }
}

} // verus!
