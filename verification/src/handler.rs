//! The session of one connection: greet, relay until the client leaves or
//! fails, close, and give the slot back.
//!
//! A handler never touches a stream. It answers each event with the action
//! to perform next, and the caller reports the outcome as the next event.

use crate::client::Client;
use crate::message::{
    clip, clipped, decode_lossy, farewell, farewell_bytes, greeting, greeting_bytes,
    is_ascii_bytes, is_end_command, lemma_ascii_is_valid_utf8, lossy_text, starts_with_end,
    BUFFER_SIZE,
};
use crate::pool::{after_release, stream_at, ClientPool};
use vstd::prelude::*;
use vstd::utf8::valid_utf8;

verus! {

/// Where a session stands.
#[derive(Clone, Copy, Debug, PartialEq, Eq, Structural)]
pub enum HandlerState {
    /// The greeting is on its way to the client.
    Greeting,
    /// The client has been greeted; its messages are relayed.
    Relaying,
    /// The session is over and the stream is being closed.
    Closing,
    /// The stream is closed and the slot is free. Nothing follows.
    Closed,
}

/// One payload for one stream.
#[derive(Clone, Debug, PartialEq, Eq)]
pub struct Outgoing {
    /// The slot of the receiver.
    pub to: usize,
    /// The stream to write to.
    pub socket: u64,
    /// What to write.
    pub bytes: Vec<u8>,
}

/// The mathematical content of an `Outgoing`.
pub struct OutgoingView {
    pub to: usize,
    pub socket: u64,
    pub bytes: Seq<u8>,
}

impl View for Outgoing {
    type V = OutgoingView;

    open spec fn view(&self) -> OutgoingView {
        OutgoingView { to: self.to, socket: self.socket, bytes: self.bytes@ }
    }
}

/// What the caller is to do next for a session.
#[derive(Clone, Debug, PartialEq, Eq)]
pub enum HandlerAction {
    /// Write each payload to its stream, in the order given, and report
    /// `Delivered` with one outcome per payload. The first payload is always
    /// the one for the session's own client.
    Deliver(Vec<Outgoing>),
    /// Read once from `socket`, at most `capacity` bytes, and report
    /// `Received` or `Disconnected`.
    Receive { socket: u64, capacity: usize },
    /// Close `socket` and report `StreamClosed`.
    Close { socket: u64 },
    /// The session has ended: there is nothing left to do.
    Stop,
}

/// The mathematical content of a `HandlerAction`.
pub enum ActionView {
    Deliver(Seq<OutgoingView>),
    Receive { socket: u64, capacity: usize },
    Close { socket: u64 },
    Stop,
}

impl View for HandlerAction {
    type V = ActionView;

    open spec fn view(&self) -> ActionView {
        match *self {
            HandlerAction::Deliver(sends) => ActionView::Deliver(
                sends@.map_values(|o: Outgoing| o@),
            ),
            HandlerAction::Receive { socket, capacity } => ActionView::Receive { socket, capacity },
            HandlerAction::Close { socket } => ActionView::Close { socket },
            HandlerAction::Stop => ActionView::Stop,
        }
    }
}

/// What happened to the action a session asked for.
#[derive(Clone, Debug, PartialEq, Eq)]
pub enum HandlerEvent {
    /// The payloads of a `Deliver` were written: one flag per payload, in
    /// order, `true` where the write succeeded.
    Delivered(Vec<bool>),
    /// A read returned these bytes. No bytes at all mean that the client has
    /// gone.
    Received(Vec<u8>),
    /// A read failed.
    Disconnected,
    /// The stream was closed; the flag tells whether cleanly.
    StreamClosed(bool),
}

/// The mathematical content of a `HandlerEvent`.
pub enum EventView {
    Delivered(Seq<bool>),
    Received(Seq<u8>),
    Disconnected,
    StreamClosed(bool),
}

impl View for HandlerEvent {
    type V = EventView;

    open spec fn view(&self) -> EventView {
        match *self {
            HandlerEvent::Delivered(results) => EventView::Delivered(results@),
            HandlerEvent::Received(chunk) => EventView::Received(chunk@),
            HandlerEvent::Disconnected => EventView::Disconnected,
            HandlerEvent::StreamClosed(clean) => EventView::StreamClosed(clean),
        }
    }
}

/// The session of one connection: its slot, the peers it was given when it
/// began, and where it stands.
#[derive(Clone, Debug, PartialEq, Eq)]
pub struct Handler {
    id: usize,
    peers: Vec<usize>,
    state: HandlerState,
}

/// The mathematical content of a `Handler`.
pub struct HandlerView {
    pub id: usize,
    pub peers: Seq<usize>,
    pub state: HandlerState,
}

impl View for Handler {
    type V = HandlerView;

    closed spec fn view(&self) -> HandlerView {
        HandlerView { id: self.id, peers: self.peers@, state: self.state }
    }
}

/// Whether the write to the session's own client, the first of a batch,
/// succeeded.
pub open spec fn own_sent(results: Seq<bool>) -> bool {
    results.len() > 0 && results[0]
}

/// The test a peer passes to get a message from slot `from`: it is another
/// slot and holds a connection now.
pub open spec fn reachable_from(slots: Seq<Client>, from: usize) -> spec_fn(usize) -> bool {
    |p: usize| p != from && stream_at(slots, p) is Some
}

/// The copy of `text` that goes to a peer, on the stream its slot holds now.
pub open spec fn forward_to(slots: Seq<Client>, text: Seq<u8>) -> spec_fn(usize) -> OutgoingView {
    |p: usize| OutgoingView { to: p, socket: stream_at(slots, p).unwrap(), bytes: text }
}

/// The copies of `text` that go to the peers of slot `from`: one for each
/// peer that is occupied now, in the order of `peers`.
pub open spec fn forwards(peers: Seq<usize>, slots: Seq<Client>, from: usize, text: Seq<u8>) -> Seq<
    OutgoingView,
> {
    peers.filter(reachable_from(slots, from)).map_values(forward_to(slots, text))
}

/// What is sent for a message that is no command: the echo to the sender
/// first, then the copies for the peers.
pub open spec fn relay_sends(
    id: usize,
    socket: u64,
    peers: Seq<usize>,
    slots: Seq<Client>,
    text: Seq<u8>,
) -> Seq<OutgoingView> {
    seq![OutgoingView { to: id, socket, bytes: text }] + forwards(peers, slots, id, text)
}

/// The answer to a decoded message `text` from the client of slot `id`:
/// the farewell and the end of the session for the disconnect command, the
/// echo and the copies for the peers for anything else.
pub open spec fn answer_to(
    id: usize,
    socket: u64,
    peers: Seq<usize>,
    slots: Seq<Client>,
    text: Seq<u8>,
) -> (HandlerState, ActionView) {
    if is_end_command(text) {
        (
            HandlerState::Closing,
            ActionView::Deliver(seq![OutgoingView { to: id, socket, bytes: farewell_bytes() }]),
        )
    } else {
        (HandlerState::Relaying, ActionView::Deliver(relay_sends(id, socket, peers, slots, text)))
    }
}

/// What follows a write to the session's own client: the next read where it
/// succeeded, the end of the session where it failed.
pub open spec fn after_delivery(socket: u64, results: Seq<bool>) -> (HandlerState, ActionView) {
    if own_sent(results) {
        (HandlerState::Relaying, ActionView::Receive { socket, capacity: BUFFER_SIZE })
    } else {
        (HandlerState::Closing, ActionView::Close { socket })
    }
}

/// The state and the action that follow `event` for a session `handler`
/// whose slot holds `socket`, beside the slots `slots`.
pub open spec fn next_move(
    handler: HandlerView,
    socket: u64,
    slots: Seq<Client>,
    event: EventView,
) -> (HandlerState, ActionView) {
    match (handler.state, event) {
        (HandlerState::Closed, _) => (HandlerState::Closed, ActionView::Stop),
        (HandlerState::Closing, EventView::StreamClosed(_)) => (
            HandlerState::Closed,
            ActionView::Stop,
        ),
        (HandlerState::Closing, _) => (HandlerState::Closing, ActionView::Close { socket }),
        (_, EventView::Delivered(results)) => after_delivery(socket, results),
        (HandlerState::Relaying, EventView::Received(chunk)) => if clipped(chunk).len() == 0 {
            (HandlerState::Closing, ActionView::Close { socket })
        } else {
            answer_to(handler.id, socket, handler.peers, slots, lossy_text(clipped(chunk)))
        },
        _ => (HandlerState::Closing, ActionView::Close { socket }),
    }
}

/// Whether `event` brings a relaying session a message of well-formed
/// UTF-8. Such a message is answered as it was sent: decoding changes no
/// byte of it.
pub open spec fn relays_as_sent(
    handler: HandlerView,
    slots: Seq<Client>,
    event: EventView,
) -> bool {
    &&& handler.state == HandlerState::Relaying
    &&& stream_at(slots, handler.id) is Some
    &&& event matches EventView::Received(chunk)
    &&& clipped(chunk).len() > 0
    &&& valid_utf8(clipped(chunk))
}

/// One step of a session: the state, the slots and the action that follow
/// `event`.
///
/// A session that has ended stays ended, and so does one whose slot holds no
/// stream any more. A closing session that learns that its stream is closed
/// gives its slot back; no other step changes a slot.
pub open spec fn step_of(handler: HandlerView, slots: Seq<Client>, event: EventView) -> (
    HandlerState,
    Seq<Client>,
    ActionView,
) {
    match stream_at(slots, handler.id) {
        None => (HandlerState::Closed, slots, ActionView::Stop),
        Some(socket) => {
            let (state, action) = next_move(handler, socket, slots, event);
            if handler.state == HandlerState::Closing && state == HandlerState::Closed {
                (state, after_release(slots, handler.id), action)
            } else {
                (state, slots, action)
            }
        },
    }
}

/// Copies are gathered peer by peer: one more peer adds its copy where it
/// can be reached, and nothing else.
pub proof fn lemma_forwards_push(
    peers: Seq<usize>,
    peer: usize,
    slots: Seq<Client>,
    from: usize,
    text: Seq<u8>,
)
    ensures
        forwards(peers.push(peer), slots, from, text) == if peer != from && stream_at(slots, peer)
            is Some {
            forwards(peers, slots, from, text).push(
                OutgoingView { to: peer, socket: stream_at(slots, peer).unwrap(), bytes: text },
            )
        } else {
            forwards(peers, slots, from, text)
        },
{
    peers.lemma_filter_push(peer, reachable_from(slots, from));
    let kept = peers.filter(reachable_from(slots, from));
    if peer != from && stream_at(slots, peer) is Some {
        assert(kept.push(peer).map_values(forward_to(slots, text)) =~= kept.map_values(
            forward_to(slots, text),
        ).push(forward_to(slots, text)(peer)));
    }
}

/// A copy of `bytes`.
fn copy_of(bytes: &Vec<u8>) -> (copy: Vec<u8>)
    ensures
        copy@ == bytes@,
{
    let mut copy: Vec<u8> = Vec::new();
    let mut i: usize = 0;
    while i < bytes.len()
        invariant
            i <= bytes.len(),
            copy@ == bytes@.take(i as int),
        decreases bytes.len() - i,
    {
        copy.push(bytes[i]);
        i = i + 1;
        assert(copy@ =~= bytes@.take(i as int));
    }
    assert(bytes@.take(bytes.len() as int) =~= bytes@);
    copy
}

impl Handler {
    /// The slot whose connection this session serves.
    pub fn id(&self) -> (id: usize)
        ensures
            id == self@.id,
    {
        self.id
    }

    /// Where the session stands.
    pub fn state(&self) -> (state: HandlerState)
        ensures
            state == self@.state,
    {
        self.state
    }

    /// The peers the session was given when it began.
    pub fn peers(&self) -> (peers: &Vec<usize>)
        ensures
            peers@ == self@.peers,
    {
        &self.peers
    }

    /// Whether the session has ended.
    pub fn is_closed(&self) -> (closed: bool)
        ensures
            closed == (self@.state == HandlerState::Closed),
    {
        match self.state {
            HandlerState::Closed => true,
            _ => false,
        }
    }

    /// Answers the decoded message `text` of this session's client, whose
    /// stream is `socket`.
    ///
    /// For the disconnect command the answer is the farewell, to the sender
    /// alone, and the session goes on to close. For any other text it is the
    /// echo to the sender followed by one copy for each peer whose slot is
    /// occupied in `pool` now, every one with the bytes of `text`, and the
    /// session goes on relaying.
    pub fn answer(&self, socket: u64, text: Vec<u8>, pool: &ClientPool) -> (answer: (
        HandlerState,
        HandlerAction,
    ))
        ensures
            (answer.0, answer.1@) == answer_to(self@.id, socket, self@.peers, pool@, text@),
    {
        if starts_with_end(&text) {
            let mut sends: Vec<Outgoing> = Vec::new();
            sends.push(Outgoing { to: self.id, socket, bytes: farewell() });
            assert(sends@.map_values(|o: Outgoing| o@) =~= seq![
                OutgoingView { to: self.id, socket, bytes: farewell_bytes() },
            ]);
            return (HandlerState::Closing, HandlerAction::Deliver(sends));
        }
        let mut sends: Vec<Outgoing> = Vec::new();
        sends.push(Outgoing { to: self.id, socket, bytes: copy_of(&text) });
        let ghost echo = seq![OutgoingView { to: self.id, socket, bytes: text@ }];
        let n = self.peers.len();
        let mut i: usize = 0;
        proof {
            reveal(Seq::filter);
            assert(self.peers@.take(0).len() == 0);
            assert(forwards(self.peers@.take(0), pool@, self.id, text@) =~= Seq::<
                OutgoingView,
            >::empty());
            assert(sends@.map_values(|o: Outgoing| o@) =~= echo);
        }
        while i < n
            invariant
                i <= n,
                n == self.peers@.len(),
                echo == seq![OutgoingView { to: self.id, socket, bytes: text@ }],
                sends@.map_values(|o: Outgoing| o@) == echo + forwards(
                    self.peers@.take(i as int),
                    pool@,
                    self.id,
                    text@,
                ),
            decreases n - i,
        {
            let peer = self.peers[i];
            let ghost before = sends@;
            let ghost sent = forwards(self.peers@.take(i as int), pool@, self.id, text@);
            proof {
                lemma_forwards_push(self.peers@.take(i as int), peer, pool@, self.id, text@);
                assert(self.peers@.take(i as int).push(peer) =~= self.peers@.take(i + 1));
            }
            if peer != self.id {
                match pool.stream(peer) {
                    Some(peer_socket) => {
                        let bytes = copy_of(&text);
                        let copy = Outgoing { to: peer, socket: peer_socket, bytes };
                        sends.push(copy);
                        assert(sends@.map_values(|o: Outgoing| o@) =~= before.map_values(
                            |o: Outgoing| o@,
                        ).push(copy@));
                        assert((echo + sent).push(copy@) =~= echo + sent.push(copy@));
                    },
                    None => {},
                }
            }
            i = i + 1;
        }
        proof {
            assert(self.peers@.take(n as int) =~= self.peers@);
        }
        (HandlerState::Relaying, HandlerAction::Deliver(sends))
    }

    /// Takes the session one step on: `event` tells what became of the last
    /// action, the result is the action to perform next.
    ///
    /// The step is `step_of`, applied to the session, the pool and the event.
    /// A chunk that was read is first cut to the size of the receive buffer
    /// and decoded as text. The session keeps its slot and its peers, and the
    /// pool keeps every slot: at most this session's own slot changes.
    pub fn step(&mut self, event: HandlerEvent, pool: &mut ClientPool) -> (action: HandlerAction)
        ensures
            (final(self)@.state, final(pool)@, action@) == step_of(old(self)@, old(pool)@, event@),
            final(self)@.id == old(self)@.id,
            final(self)@.peers == old(self)@.peers,
            final(pool).wf(),
            relays_as_sent(old(self)@, old(pool)@, event@) ==> (final(self)@.state, action@)
                == answer_to(
                old(self)@.id,
                stream_at(old(pool)@, old(self)@.id).unwrap(),
                old(self)@.peers,
                old(pool)@,
                clipped(event@->Received_0),
            ),
    {
        proof {
            use_type_invariant(&*pool);
        }
        let socket = match pool.stream(self.id) {
            Some(socket) => socket,
            None => {
                self.state = HandlerState::Closed;
                return HandlerAction::Stop;
            },
        };
        match self.state {
            HandlerState::Closed => HandlerAction::Stop,
            HandlerState::Closing => match event {
                HandlerEvent::StreamClosed(_) => {
                    pool.release(self.id);
                    self.state = HandlerState::Closed;
                    HandlerAction::Stop
                },
                _ => HandlerAction::Close { socket },
            },
            state => match event {
                HandlerEvent::Delivered(results) => {
                    if results.len() > 0 && results[0] {
                        self.state = HandlerState::Relaying;
                        HandlerAction::Receive { socket, capacity: BUFFER_SIZE }
                    } else {
                        self.state = HandlerState::Closing;
                        HandlerAction::Close { socket }
                    }
                },
                HandlerEvent::Received(chunk) => {
                    let message = clip(chunk);
                    let relaying = match state {
                        HandlerState::Relaying => true,
                        _ => false,
                    };
                    if relaying && message.len() > 0 {
                        let text = decode_lossy(&message);
                        let (next, action) = self.answer(socket, text, pool);
                        self.state = next;
                        action
                    } else {
                        self.state = HandlerState::Closing;
                        HandlerAction::Close { socket }
                    }
                },
                _ => {
                    self.state = HandlerState::Closing;
                    HandlerAction::Close { socket }
                },
            },
        }
    }
}

impl ClientPool {
    /// Begins the session of the connection in slot `socket_client`, with
    /// `other_clients` as the peers that its messages are forwarded to.
    ///
    /// The first action greets the client: it delivers the bytes of
    /// `server_msg` followed by a NUL, to that client alone. Where the slot
    /// holds no stream there is nobody to greet: the session is over before
    /// it begins, and the action is `Stop`.
    pub fn start_messaging(
        &self,
        socket_client: usize,
        server_msg: String,
        other_clients: Vec<usize>,
    ) -> (started: (Handler, HandlerAction))
        ensures
            started.0@.id == socket_client,
            started.0@.peers == other_clients@,
            stream_at(self@, socket_client) matches Some(socket) ==> started.0@.state
                == HandlerState::Greeting && started.1@ == ActionView::Deliver(
                seq![
                    OutgoingView {
                        to: socket_client,
                        socket,
                        bytes: greeting_bytes(server_msg@),
                    },
                ],
            ),
            stream_at(self@, socket_client) is None ==> started.0@.state == HandlerState::Closed
                && started.1@ == ActionView::Stop,
    {
        match self.stream(socket_client) {
            Some(socket) => {
                let mut sends: Vec<Outgoing> = Vec::new();
                let hello = Outgoing {
                    to: socket_client,
                    socket,
                    bytes: greeting(server_msg.as_str()),
                };
                sends.push(hello);
                assert(sends@.map_values(|o: Outgoing| o@) =~= seq![hello@]);
                (
                    Handler {
                        id: socket_client,
                        peers: other_clients,
                        state: HandlerState::Greeting,
                    },
                    HandlerAction::Deliver(sends),
                )
            },
            None => (
                Handler { id: socket_client, peers: other_clients, state: HandlerState::Closed },
                HandlerAction::Stop,
            ),
        }
    }
}

/// What the copies for the peers are made of: each goes to a peer of the
/// sender that is occupied, on the stream that peer holds, with the bytes of
/// the message; and every such peer gets one.
pub proof fn lemma_forwards_members(
    peers: Seq<usize>,
    slots: Seq<Client>,
    from: usize,
    text: Seq<u8>,
)
    ensures
        forall|k: int|
            0 <= k < forwards(peers, slots, from, text).len() ==> {
                let copy = #[trigger] forwards(peers, slots, from, text)[k];
                &&& copy.bytes == text
                &&& copy.to != from
                &&& peers.contains(copy.to)
                &&& stream_at(slots, copy.to) == Some(copy.socket)
            },
        forall|p: usize|
            #[trigger] peers.contains(p) && p != from && stream_at(slots, p) is Some ==> exists|
                k: int,
            |
                0 <= k < forwards(peers, slots, from, text).len() && (#[trigger] forwards(
                    peers,
                    slots,
                    from,
                    text,
                )[k]).to == p,
{
    broadcast use vstd::seq_lib::group_filter_ensures;

    let test = reachable_from(slots, from);
    let kept = peers.filter(test);
    let copies = forwards(peers, slots, from, text);
    assert forall|k: int| 0 <= k < copies.len() implies {
        let copy = #[trigger] copies[k];
        &&& copy.bytes == text
        &&& copy.to != from
        &&& peers.contains(copy.to)
        &&& stream_at(slots, copy.to) == Some(copy.socket)
    } by {
        assert(test(kept[k]));
        assert(kept.contains(kept[k]));
        peers.lemma_filter_contains_rev(test, kept[k]);
    }
    assert forall|p: usize|
        #[trigger] peers.contains(p) && p != from && stream_at(slots, p) is Some implies exists|
        k: int,
    |
        0 <= k < copies.len() && (#[trigger] copies[k]).to == p by {
        let i = choose|i: int| 0 <= i < peers.len() && peers[i] == p;
        assert(test(peers[i]));
        assert(kept.contains(peers[i]));
        let k = choose|k: int| 0 <= k < kept.len() && kept[k] == p;
        assert(copies[k].to == p);
    }
}

/// A message that is no command is echoed before it is passed on: the first
/// payload goes back to the sender, every further one goes to a peer that is
/// occupied at that moment, each peer that is occupied gets one, and all of
/// them carry the bytes of the message. A peer that has gone gets nothing,
/// and the session goes on relaying all the same.
pub proof fn theorem_echo_before_broadcast(
    id: usize,
    socket: u64,
    peers: Seq<usize>,
    slots: Seq<Client>,
    text: Seq<u8>,
)
    requires
        !is_end_command(text),
    ensures
        answer_to(id, socket, peers, slots, text) == (
            HandlerState::Relaying,
            ActionView::Deliver(relay_sends(id, socket, peers, slots, text)),
        ),
        relay_sends(id, socket, peers, slots, text).len() >= 1,
        relay_sends(id, socket, peers, slots, text)[0] == (OutgoingView {
            to: id,
            socket,
            bytes: text,
        }),
        forall|k: int|
            0 <= k < relay_sends(id, socket, peers, slots, text).len() ==> (#[trigger] relay_sends(
                id,
                socket,
                peers,
                slots,
                text,
            )[k]).bytes == text,
        forall|k: int|
            1 <= k < relay_sends(id, socket, peers, slots, text).len() ==> {
                let copy = #[trigger] relay_sends(id, socket, peers, slots, text)[k];
                &&& copy.to != id
                &&& peers.contains(copy.to)
                &&& stream_at(slots, copy.to) == Some(copy.socket)
            },
        forall|p: usize|
            #[trigger] peers.contains(p) && p != id && stream_at(slots, p) is Some ==> exists|
                k: int,
            |
                1 <= k < relay_sends(id, socket, peers, slots, text).len()
                    && (#[trigger] relay_sends(id, socket, peers, slots, text)[k]).to == p,
{
    lemma_forwards_members(peers, slots, id, text);
    let copies = forwards(peers, slots, id, text);
    let sends = relay_sends(id, socket, peers, slots, text);
    assert forall|k: int| 1 <= k < sends.len() implies (#[trigger] sends[k]) == copies[k - 1] by {}
    assert forall|p: usize|
        #[trigger] peers.contains(p) && p != id && stream_at(slots, p) is Some implies exists|
        k: int,
    |
        1 <= k < sends.len() && (#[trigger] sends[k]).to == p by {
        let j = choose|j: int| 0 <= j < copies.len() && (#[trigger] copies[j]).to == p;
        assert(sends[j + 1] == copies[j]);
    }
}

/// The disconnect command ends the session and nothing else: the one
/// payload it causes is the farewell, to the sender; no peer gets anything;
/// whatever becomes of the farewell, the stream is closed next; and once it
/// is closed, cleanly or not, the sender's slot is empty.
pub proof fn theorem_end_command(
    handler: HandlerView,
    slots: Seq<Client>,
    socket: u64,
    text: Seq<u8>,
)
    requires
        stream_at(slots, handler.id) == Some(socket),
        is_end_command(text),
    ensures
        answer_to(handler.id, socket, handler.peers, slots, text) == (
            HandlerState::Closing,
            ActionView::Deliver(
                seq![OutgoingView { to: handler.id, socket, bytes: farewell_bytes() }],
            ),
        ),
        forall|results: Seq<bool>|
            #[trigger] step_of(
                HandlerView { state: HandlerState::Closing, ..handler },
                slots,
                EventView::Delivered(results),
            ) == (HandlerState::Closing, slots, ActionView::Close { socket }),
        forall|clean: bool|
            #[trigger] step_of(
                HandlerView { state: HandlerState::Closing, ..handler },
                slots,
                EventView::StreamClosed(clean),
            ) == (HandlerState::Closed, after_release(slots, handler.id), ActionView::Stop),
        !after_release(slots, handler.id)[handler.id as int].occupied(),
        stream_at(after_release(slots, handler.id), handler.id) is None,
{
}

/// A message of plain ASCII that fits the receive buffer is answered as it
/// was sent: cutting and decoding change no byte of it.
pub proof fn theorem_ascii_relays_as_sent(handler: HandlerView, slots: Seq<Client>, chunk: Seq<u8>)
    requires
        handler.state == HandlerState::Relaying,
        stream_at(slots, handler.id) is Some,
        0 < chunk.len() <= BUFFER_SIZE,
        is_ascii_bytes(chunk),
    ensures
        clipped(chunk) == chunk,
        relays_as_sent(handler, slots, EventView::Received(chunk)),
{
    lemma_ascii_is_valid_utf8(chunk);
}

/// The test a peer passes to be another slot than `gone`.
pub open spec fn other_than(gone: usize) -> spec_fn(usize) -> bool {
    |p: usize| p != gone
}

/// The end of one session leaves the others as they were. Once slot `gone`
/// is empty, a message from slot `from` reaches the very peers it would
/// have reached before, `gone` left out, on the same streams and with the
/// same bytes.
pub proof fn theorem_isolation(
    peers: Seq<usize>,
    slots: Seq<Client>,
    gone: usize,
    from: usize,
    text: Seq<u8>,
)
    ensures
        forwards(peers, after_release(slots, gone), from, text) == forwards(
            peers.filter(other_than(gone)),
            slots,
            from,
            text,
        ),
    decreases peers.len(),
{
    reveal(Seq::filter);
    let freed = after_release(slots, gone);
    if peers.len() == 0 {
        assert(forwards(peers, freed, from, text) =~= Seq::<OutgoingView>::empty());
        assert(forwards(peers.filter(other_than(gone)), slots, from, text) =~= Seq::<
            OutgoingView,
        >::empty());
    } else {
        let front = peers.drop_last();
        let peer = peers.last();
        assert(front.push(peer) =~= peers);
        theorem_isolation(front, slots, gone, from, text);
        lemma_forwards_push(front, peer, freed, from, text);
        front.lemma_filter_push(peer, other_than(gone));
        if peer != gone {
            lemma_forwards_push(front.filter(other_than(gone)), peer, slots, from, text);
            assert(stream_at(freed, peer) == stream_at(slots, peer));
        } else {
            assert(stream_at(freed, peer) is None);
        }
    }
}

/// A session touches no slot but its own: whatever the event, the pool keeps
/// its length, and every other slot is after the step what it was before.
pub proof fn theorem_own_slot_only(
    handler: HandlerView,
    slots: Seq<Client>,
    event: EventView,
    other: int,
)
    requires
        0 <= other < slots.len(),
        other != handler.id,
    ensures
        step_of(handler, slots, event).1.len() == slots.len(),
        step_of(handler, slots, event).1[other] == slots[other],
{
}

/// A session that has ended stays ended: it asks for nothing more and
/// leaves every slot alone, its former own included.
pub proof fn theorem_closed_is_final(handler: HandlerView, slots: Seq<Client>, event: EventView)
    requires
        handler.state == HandlerState::Closed,
    ensures
        step_of(handler, slots, event) == (HandlerState::Closed, slots, ActionView::Stop),
{
}

} // verus!
