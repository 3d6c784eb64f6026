//! The accept loop: bring the listener up, then give every connection a
//! slot, its peers and a session, for as long as the listener lives.
//!
//! Like a session, the server decides and the caller acts: each event is
//! answered with the next action.

use crate::client::Client;
use crate::handler::{
    step_of, ActionView, EventView, Handler, HandlerAction, HandlerState, HandlerView,
    OutgoingView,
};
use crate::message::greeting_bytes;
use crate::pool::{
    after_occupy, after_request, has_empty, ids_in_order, lemma_len_fits,
    lemma_request_yields_empty, next_slot, occupied_others, stream_at, theorem_slot_reuse,
    theorem_snapshot_members, ClientPool, DEFAULT_MAX_CLIENTS,
};
use vstd::prelude::*;

verus! {

/// The TCP port a relay listens on unless told otherwise.
pub const PORT: u16 = 7000;

/// Where the server stands.
#[derive(Clone, Copy, Debug, PartialEq, Eq, Structural)]
pub enum ServerState {
    /// The transport is being initialised.
    Starting,
    /// The listening socket is being made and bound.
    Binding,
    /// The socket is being put to listening.
    Listening,
    /// The server waits for the next connection.
    Accepting,
    /// Startup or listening failed. Nothing follows.
    Stopped,
}

/// What happened to the action the server asked for.
#[derive(Clone, Copy, Debug, PartialEq, Eq)]
pub enum ServerEvent {
    /// The startup step that was asked for has ended; `true` if it
    /// succeeded.
    Completed(bool),
    /// A connection came in and was accepted: the octets of the peer's
    /// address and the handle of its stream.
    Accepted { addr: [u8; 4], socket: u64 },
    /// A connection came in and could not be accepted. The listener is
    /// still good.
    AcceptFailed,
    /// The listener itself failed.
    ListenFailed,
}

/// What the caller is to do next for the server.
#[derive(Clone, Debug, PartialEq, Eq)]
pub enum ServerAction {
    /// Initialise the transport and report `Completed`.
    Startup,
    /// Make the listening socket, bind it to `port` on every local address
    /// and report `Completed`.
    Bind { port: u16 },
    /// Put the socket to listening and report `Completed`.
    Listen,
    /// Wait for a connection and accept it; report `Accepted`,
    /// `AcceptFailed` or `ListenFailed`.
    Accept,
    /// Run the session `handler` on its own, beginning with the action
    /// `first`, without waiting for it; then go on as for `Accept`.
    Launch { handler: Handler, first: HandlerAction },
    /// Give up: the relay cannot serve.
    Exit,
}

/// The mathematical content of a `ServerAction`.
pub enum ServerActionView {
    Startup,
    Bind { port: u16 },
    Listen,
    Accept,
    Launch { handler: HandlerView, first: ActionView },
    Exit,
}

impl View for ServerAction {
    type V = ServerActionView;

    open spec fn view(&self) -> ServerActionView {
        match *self {
            ServerAction::Startup => ServerActionView::Startup,
            ServerAction::Bind { port } => ServerActionView::Bind { port },
            ServerAction::Listen => ServerActionView::Listen,
            ServerAction::Accept => ServerActionView::Accept,
            ServerAction::Launch { handler, first } => ServerActionView::Launch {
                handler: handler@,
                first: first@,
            },
            ServerAction::Exit => ServerActionView::Exit,
        }
    }
}

/// The accept loop of a relay: where it stands, the port it listens on and
/// the text it greets with.
pub struct Server {
    state: ServerState,
    port: u16,
    greeting: String,
}

/// The mathematical content of a `Server`.
pub struct ServerView {
    pub state: ServerState,
    pub port: u16,
    pub greeting: Seq<char>,
}

impl View for Server {
    type V = ServerView;

    closed spec fn view(&self) -> ServerView {
        ServerView { state: self.state, port: self.port, greeting: self.greeting@ }
    }
}

/// The action that a server in state `state` is waiting to hear of.
pub open spec fn awaited(state: ServerState, port: u16) -> ServerActionView {
    match state {
        ServerState::Starting => ServerActionView::Startup,
        ServerState::Binding => ServerActionView::Bind { port },
        ServerState::Listening => ServerActionView::Listen,
        ServerState::Accepting => ServerActionView::Accept,
        ServerState::Stopped => ServerActionView::Exit,
    }
}

/// The slots once a connection from `addr` with stream `socket` has been
/// taken in: a slot is requested, and the connection is put into it.
pub open spec fn slots_after_accept(slots: Seq<Client>, addr: [u8; 4], socket: u64) -> Seq<Client> {
    after_occupy(after_request(slots), next_slot(slots) as usize, addr, socket)
}

/// The session that is launched for the connection in slot `slot` of
/// `slots`: bound to the slots occupied then, itself left out, and about to
/// greet.
pub open spec fn session_for(slots: Seq<Client>, slot: usize) -> HandlerView {
    HandlerView { id: slot, peers: occupied_others(slots, slot), state: HandlerState::Greeting }
}

/// The first action of a session: the greeting, to its own client alone.
pub open spec fn greeting_for(slot: usize, socket: u64, greeting: Seq<char>) -> ActionView {
    ActionView::Deliver(seq![OutgoingView { to: slot, socket, bytes: greeting_bytes(greeting) }])
}

/// One step of the server: the state, the slots and the action that follow
/// `event`.
///
/// Any startup step that fails stops the server, and so does a failure of
/// the listener. For a connection that comes in a slot is requested first:
/// the first empty one, or a new one where none is empty. If the connection
/// was accepted it is put into that slot and gets a session bound to the
/// slots occupied at that moment; if not, the slot stays empty and the
/// server accepts again. An event that the state does not wait for changes
/// nothing.
pub open spec fn server_step(server: ServerView, slots: Seq<Client>, event: ServerEvent) -> (
    ServerState,
    Seq<Client>,
    ServerActionView,
) {
    let stop = (ServerState::Stopped, slots, ServerActionView::Exit);
    match (server.state, event) {
        (ServerState::Stopped, _) => stop,
        (ServerState::Starting, ServerEvent::Completed(ok)) => if ok {
            (ServerState::Binding, slots, ServerActionView::Bind { port: server.port })
        } else {
            stop
        },
        (ServerState::Binding, ServerEvent::Completed(ok)) => if ok {
            (ServerState::Listening, slots, ServerActionView::Listen)
        } else {
            stop
        },
        (ServerState::Listening, ServerEvent::Completed(ok)) => if ok {
            (ServerState::Accepting, slots, ServerActionView::Accept)
        } else {
            stop
        },
        (ServerState::Accepting, ServerEvent::Accepted { addr, socket }) => {
            let slot = next_slot(slots) as usize;
            let filled = slots_after_accept(slots, addr, socket);
            (
                ServerState::Accepting,
                filled,
                ServerActionView::Launch {
                    handler: session_for(filled, slot),
                    first: greeting_for(slot, socket, server.greeting),
                },
            )
        },
        (ServerState::Accepting, ServerEvent::AcceptFailed) => (
            ServerState::Accepting,
            after_request(slots),
            ServerActionView::Accept,
        ),
        (ServerState::Accepting, ServerEvent::ListenFailed) => stop,
        (state, _) => (state, slots, awaited(state, server.port)),
    }
}

impl Server {
    /// A server that has not started yet, for `port` and the welcome text
    /// `greeting`.
    pub fn new(port: u16, greeting: String) -> (server: Server)
        ensures
            server@ == (ServerView { state: ServerState::Starting, port, greeting: greeting@ }),
    {
        Server { state: ServerState::Starting, port, greeting }
    }

    /// Where the server stands.
    pub fn state(&self) -> (state: ServerState)
        ensures
            state == self@.state,
    {
        self.state
    }

    /// The port the server listens on.
    pub fn port(&self) -> (port: u16)
        ensures
            port == self@.port,
    {
        self.port
    }

    /// The action that the server is waiting to hear of. For a server that
    /// has not started yet this is the first thing to do.
    pub fn pending(&self) -> (action: ServerAction)
        ensures
            action@ == awaited(self@.state, self@.port),
    {
        match self.state {
            ServerState::Starting => ServerAction::Startup,
            ServerState::Binding => ServerAction::Bind { port: self.port },
            ServerState::Listening => ServerAction::Listen,
            ServerState::Accepting => ServerAction::Accept,
            ServerState::Stopped => ServerAction::Exit,
        }
    }

    /// Takes the server one step on: `event` tells what became of the last
    /// action, the result is the action to perform next.
    ///
    /// The step is `server_step`, applied to the server, the pool and the
    /// event. Port and greeting stay as they are.
    pub fn step(&mut self, event: ServerEvent, pool: &mut ClientPool) -> (action: ServerAction)
        ensures
            (final(self)@.state, final(pool)@, action@) == server_step(
                old(self)@,
                old(pool)@,
                event,
            ),
            final(self)@.port == old(self)@.port,
            final(self)@.greeting == old(self)@.greeting,
            final(pool).wf(),
    {
        proof {
            use_type_invariant(&*pool);
        }
        match (self.state, event) {
            (ServerState::Stopped, _) => ServerAction::Exit,
            (ServerState::Starting, ServerEvent::Completed(true)) => {
                self.state = ServerState::Binding;
                ServerAction::Bind { port: self.port }
            },
            (ServerState::Binding, ServerEvent::Completed(true)) => {
                self.state = ServerState::Listening;
                ServerAction::Listen
            },
            (ServerState::Listening, ServerEvent::Completed(true)) => {
                self.state = ServerState::Accepting;
                ServerAction::Accept
            },
            (ServerState::Starting, ServerEvent::Completed(false))
            | (ServerState::Binding, ServerEvent::Completed(false))
            | (ServerState::Listening, ServerEvent::Completed(false))
            | (ServerState::Accepting, ServerEvent::ListenFailed) => {
                self.state = ServerState::Stopped;
                ServerAction::Exit
            },
            (ServerState::Accepting, ServerEvent::Accepted { addr, socket }) => {
                let slot = pool.find_empty_client();
                pool.occupy(slot, addr, socket);
                let peers = pool.snapshot_others(slot);
                let (handler, first) = pool.start_messaging(slot, self.greeting.clone(), peers);
                ServerAction::Launch { handler, first }
            },
            (ServerState::Accepting, ServerEvent::AcceptFailed) => {
                pool.find_empty_client();
                ServerAction::Accept
            },
            _ => self.pending(),
        }
    }
}

/// A relay as it stands before it starts: the server, for port `PORT` and
/// the greeting `Hello`, and a pool of `DEFAULT_MAX_CLIENTS` empty slots.
/// `Server::pending` tells what to do first.
pub fn unit_05() -> (relay: (Server, ClientPool))
    ensures
        relay.0@ == (ServerView { state: ServerState::Starting, port: PORT, greeting: "Hello"@ }),
        relay.1.wf(),
        relay.1@ == Seq::new(DEFAULT_MAX_CLIENTS as nat, |i: int| Client::vacant(i as usize)),
{
    (Server::new(PORT, "Hello".to_string()), ClientPool::new(DEFAULT_MAX_CLIENTS))
}

/// An accepted connection gets a slot of its own. The slot it lands in held
/// no connection before and holds this one after; every other slot is what
/// it was, so no client that is connected shares the new one's identity.
/// The slot is the first that was empty, and a new one only where none was.
/// The session that is launched serves that slot, does not list itself among
/// its peers, and greets on the new stream.
pub proof fn theorem_accept_lands_fresh(
    server: ServerView,
    pool: ClientPool,
    addr: [u8; 4],
    socket: u64,
)
    requires
        pool.wf(),
        server.state == ServerState::Accepting,
    ensures
        ({
            let landed = next_slot(pool@) as usize;
            let (state, slots, action) = server_step(
                server,
                pool@,
                ServerEvent::Accepted { addr, socket },
            );
            &&& landed == next_slot(pool@)
            &&& landed < pool@.len() ==> !pool@[landed as int].occupied()
            &&& has_empty(pool@) ==> slots.len() == pool@.len()
            &&& !has_empty(pool@) ==> landed == pool@.len() && slots.len() == pool@.len() + 1
            &&& landed < slots.len()
            &&& slots[landed as int] == (Client { id: landed, addr, socket: Some(socket) })
            &&& forall|j: int|
                0 <= j < pool@.len() && j != landed ==> #[trigger] slots[j] == pool@[j]
            &&& ids_in_order(slots)
            &&& state == ServerState::Accepting
            &&& action == (ServerActionView::Launch {
                handler: session_for(slots, landed),
                first: greeting_for(landed, socket, server.greeting),
            })
            &&& !session_for(slots, landed).peers.contains(landed)
        }),
{
    lemma_len_fits(pool);
    lemma_request_yields_empty(pool@);
    let landed = next_slot(pool@) as usize;
    let filled = slots_after_accept(pool@, addr, socket);
    assert(filled[landed as int] == (Client { id: landed, addr, socket: Some(socket) }));
    assert(ids_in_order(filled));
    theorem_snapshot_members(filled, landed, landed);
}

/// The slots in which a run of connections lands, accepted one after the
/// other while no client leaves. A connection is an address and a stream.
pub open spec fn landing_slots(slots: Seq<Client>, arrivals: Seq<([u8; 4], u64)>) -> Seq<usize>
    decreases arrivals.len(),
{
    if arrivals.len() == 0 {
        Seq::empty()
    } else {
        seq![next_slot(slots) as usize] + landing_slots(
            slots_after_accept(slots, arrivals[0].0, arrivals[0].1),
            arrivals.drop_first(),
        )
    }
}

/// The slots once a run of connections has been accepted.
pub open spec fn slots_after_arrivals(slots: Seq<Client>, arrivals: Seq<([u8; 4], u64)>) -> Seq<
    Client,
>
    decreases arrivals.len(),
{
    if arrivals.len() == 0 {
        slots
    } else {
        slots_after_arrivals(
            slots_after_accept(slots, arrivals[0].0, arrivals[0].1),
            arrivals.drop_first(),
        )
    }
}

/// What holds of a run of accepted connections, for any list of slots that
/// carry their positions as identities.
proof fn lemma_arrivals(slots: Seq<Client>, arrivals: Seq<([u8; 4], u64)>)
    requires
        ids_in_order(slots),
        slots.len() + arrivals.len() <= usize::MAX,
    ensures
        landing_slots(slots, arrivals).len() == arrivals.len(),
        ids_in_order(slots_after_arrivals(slots, arrivals)),
        slots.len() <= slots_after_arrivals(slots, arrivals).len() <= slots.len() + arrivals.len(),
        forall|k: int|
            0 <= k < slots.len() && (#[trigger] slots[k]).occupied() ==> slots_after_arrivals(
                slots,
                arrivals,
            )[k] == slots[k],
        forall|i: int|
            0 <= i < arrivals.len() ==> {
                let slot = #[trigger] landing_slots(slots, arrivals)[i];
                &&& slot < slots_after_arrivals(slots, arrivals).len()
                &&& !(slot < slots.len() && slots[slot as int].occupied())
                &&& slots_after_arrivals(slots, arrivals)[slot as int] == (Client {
                    id: slot,
                    addr: arrivals[i].0,
                    socket: Some(arrivals[i].1),
                })
            },
        forall|i: int, j: int|
            0 <= i < j < arrivals.len() ==> #[trigger] landing_slots(slots, arrivals)[i]
                != #[trigger] landing_slots(slots, arrivals)[j],
    decreases arrivals.len(),
{
    if arrivals.len() > 0 {
        let first = next_slot(slots) as usize;
        let filled = slots_after_accept(slots, arrivals[0].0, arrivals[0].1);
        let rest = arrivals.drop_first();
        let landing = landing_slots(slots, arrivals);
        let later = landing_slots(filled, rest);
        let end = slots_after_arrivals(slots, arrivals);
        lemma_request_yields_empty(slots);
        assert(filled[first as int] == (Client {
            id: first,
            addr: arrivals[0].0,
            socket: Some(arrivals[0].1),
        }));
        assert(ids_in_order(filled));
        lemma_arrivals(filled, rest);
        assert(end == slots_after_arrivals(filled, rest));
        assert(landing =~= seq![first] + later);
        assert(filled[first as int].occupied());
        assert forall|k: int|
            0 <= k < slots.len() && (#[trigger] slots[k]).occupied() implies end[k] == slots[k] by {
            assert(filled[k] == slots[k]);
            assert(filled[k].occupied());
        }
        assert forall|i: int| 0 <= i < arrivals.len() implies {
            let slot = #[trigger] landing[i];
            &&& slot < end.len()
            &&& !(slot < slots.len() && slots[slot as int].occupied())
            &&& end[slot as int] == (Client {
                id: slot,
                addr: arrivals[i].0,
                socket: Some(arrivals[i].1),
            })
        } by {
            if i > 0 {
                let slot = later[i - 1];
                assert(landing[i] == slot);
                assert(rest[i - 1] == arrivals[i]);
                if slot < slots.len() && slots[slot as int].occupied() {
                    assert(filled[slot as int] == slots[slot as int]);
                }
            }
        }
        assert forall|i: int, j: int| 0 <= i < j < arrivals.len() implies #[trigger] landing[i]
            != #[trigger] landing[j] by {
            assert(landing[j] == later[j - 1]);
            if i > 0 {
                assert(landing[i] == later[i - 1]);
            }
        }
    }
}

/// However many connections are accepted in a row, each lands in a slot of
/// its own: no two of them share an identity, none takes the slot of a
/// client that was connected before, and each slot holds the address and
/// the stream of its own connection.
pub proof fn theorem_arrivals_get_slots_of_their_own(
    pool: ClientPool,
    arrivals: Seq<([u8; 4], u64)>,
)
    requires
        pool.wf(),
        pool@.len() + arrivals.len() <= usize::MAX,
    ensures
        landing_slots(pool@, arrivals).len() == arrivals.len(),
        forall|i: int, j: int|
            0 <= i < j < arrivals.len() ==> #[trigger] landing_slots(pool@, arrivals)[i]
                != #[trigger] landing_slots(pool@, arrivals)[j],
        forall|i: int|
            0 <= i < arrivals.len() ==> {
                let slot = #[trigger] landing_slots(pool@, arrivals)[i];
                &&& slot < slots_after_arrivals(pool@, arrivals).len()
                &&& !(slot < pool@.len() && pool@[slot as int].occupied())
                &&& slots_after_arrivals(pool@, arrivals)[slot as int] == (Client {
                    id: slot,
                    addr: arrivals[i].0,
                    socket: Some(arrivals[i].1),
                })
            },
        forall|k: int|
            0 <= k < pool@.len() && (#[trigger] pool@[k]).occupied() ==> slots_after_arrivals(
                pool@,
                arrivals,
            )[k] == pool@[k],
{
    lemma_arrivals(pool@, arrivals);
}

/// The slot of a client that has left is the next to be filled. Once a
/// closing session has heard that its stream is closed, and no slot before
/// its own is empty, the next connection that is accepted lands in that very
/// slot, and the pool does not grow.
pub proof fn theorem_left_slot_is_filled_next(
    server: ServerView,
    pool: ClientPool,
    handler: HandlerView,
    clean: bool,
    addr: [u8; 4],
    socket: u64,
)
    requires
        pool.wf(),
        server.state == ServerState::Accepting,
        handler.state == HandlerState::Closing,
        stream_at(pool@, handler.id) is Some,
        forall|j: int| 0 <= j < handler.id ==> (#[trigger] pool@[j]).occupied(),
    ensures
        ({
            let (ended, freed, _) = step_of(handler, pool@, EventView::StreamClosed(clean));
            let (_, slots, action) = server_step(
                server,
                freed,
                ServerEvent::Accepted { addr, socket },
            );
            &&& ended == HandlerState::Closed
            &&& !freed[handler.id as int].occupied()
            &&& slots.len() == pool@.len()
            &&& slots[handler.id as int] == (Client { id: handler.id, addr, socket: Some(socket) })
            &&& action matches ServerActionView::Launch { handler: session, .. }
            &&& session.id == handler.id
        }),
{
    theorem_slot_reuse(pool, handler.id);
}

/// A connection that could not be accepted fills no slot: every slot that
/// was there is what it was, and a slot that was added for the attempt is
/// empty and waits for the next one.
pub proof fn theorem_failed_accept_fills_nothing(server: ServerView, pool: ClientPool)
    requires
        pool.wf(),
        server.state == ServerState::Accepting,
    ensures
        ({
            let (state, slots, action) = server_step(server, pool@, ServerEvent::AcceptFailed);
            &&& slots.len() >= pool@.len()
            &&& forall|j: int| 0 <= j < pool@.len() ==> #[trigger] slots[j] == pool@[j]
            &&& forall|j: int| pool@.len() <= j < slots.len() ==> !(#[trigger] slots[j]).occupied()
            &&& ids_in_order(slots)
            &&& state == ServerState::Accepting
            &&& action == ServerActionView::Accept
        }),
{
    lemma_len_fits(pool);
    lemma_request_yields_empty(pool@);
}

/// A server that has stopped stays stopped, and a failure during startup or
/// of the listener stops it, whatever the pool holds.
pub proof fn theorem_failure_is_fatal(server: ServerView, slots: Seq<Client>, event: ServerEvent)
    requires
        server.state == ServerState::Stopped || event == ServerEvent::Completed(false) && (
        server.state == ServerState::Starting || server.state == ServerState::Binding
            || server.state == ServerState::Listening) || event == ServerEvent::ListenFailed
            && server.state == ServerState::Accepting,
    ensures
        server_step(server, slots, event) == (ServerState::Stopped, slots, ServerActionView::Exit),
{
}

/// The server never takes a slot away and never changes one that is
/// occupied: whatever the event, the clients that are connected stay in
/// their slots.
pub proof fn theorem_server_keeps_clients(
    server: ServerView,
    pool: ClientPool,
    event: ServerEvent,
    other: int,
)
    requires
        pool.wf(),
        0 <= other < pool@.len(),
        pool@[other].occupied(),
    ensures
        server_step(server, pool@, event).1.len() >= pool@.len(),
        server_step(server, pool@, event).1[other] == pool@[other],
{
    lemma_len_fits(pool);
    lemma_request_yields_empty(pool@);
}

} // verus!
