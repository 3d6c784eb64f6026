//! The pool of slots: which one a new connection gets, and who its peers are.

use crate::client::Client;
use vstd::prelude::*;

verus! {

/// Number of slots a relay starts with unless told otherwise.
pub const DEFAULT_MAX_CLIENTS: usize = 10;

/// Whether some slot of `slots` is empty.
pub open spec fn has_empty(slots: Seq<Client>) -> bool {
    exists|i: int| 0 <= i < slots.len() && !(#[trigger] slots[i]).occupied()
}

/// Whether `i` is the first empty slot of `slots`.
pub open spec fn is_first_empty(slots: Seq<Client>, i: int) -> bool {
    &&& 0 <= i < slots.len()
    &&& !slots[i].occupied()
    &&& forall|j: int| 0 <= j < i ==> (#[trigger] slots[j]).occupied()
}

/// The first empty slot of `slots`, where there is one.
pub open spec fn first_empty(slots: Seq<Client>) -> int {
    choose|i: int| is_first_empty(slots, i)
}

/// The slot that a request for a free slot yields: the first empty one, or
/// the position just past the end where every slot is occupied.
pub open spec fn next_slot(slots: Seq<Client>) -> int {
    if has_empty(slots) {
        first_empty(slots)
    } else {
        slots.len() as int
    }
}

/// The slots after a request for a free slot: unchanged where one is empty,
/// else longer by one empty slot whose identity is its position.
pub open spec fn after_request(slots: Seq<Client>) -> Seq<Client> {
    if has_empty(slots) {
        slots
    } else {
        slots.push(Client::vacant(slots.len() as usize))
    }
}

/// The slots after a connection from `addr` with stream `socket` is put
/// into slot `slot`. Nothing changes unless that slot exists and is empty.
pub open spec fn after_occupy(slots: Seq<Client>, slot: usize, addr: [u8; 4], socket: u64) -> Seq<
    Client,
> {
    if slot < slots.len() && !slots[slot as int].occupied() {
        slots.update(slot as int, Client { id: slots[slot as int].id, addr, socket: Some(socket) })
    } else {
        slots
    }
}

/// The slots after slot `slot` is marked empty. Identity and address stay.
pub open spec fn after_release(slots: Seq<Client>, slot: usize) -> Seq<Client> {
    if slot < slots.len() {
        slots.update(
            slot as int,
            Client { id: slots[slot as int].id, addr: slots[slot as int].addr, socket: None },
        )
    } else {
        slots
    }
}

/// Whether every slot of `slots` carries its position as identity.
pub open spec fn ids_in_order(slots: Seq<Client>) -> bool {
    forall|i: int| 0 <= i < slots.len() ==> (#[trigger] slots[i]).id == i
}

/// The first empty slot is the only one that is first.
pub proof fn lemma_first_empty_unique(slots: Seq<Client>, i: int)
    requires
        is_first_empty(slots, i),
    ensures
        has_empty(slots),
        first_empty(slots) == i,
        next_slot(slots) == i,
{
    let k = first_empty(slots);
    assert(is_first_empty(slots, k));
    if k < i {
        assert(slots[k].occupied());
    }
    if i < k {
        assert(slots[i].occupied());
    }
}

/// Where a slot is empty, some slot is the first such.
pub proof fn lemma_has_first_empty(slots: Seq<Client>, k: int)
    requires
        0 <= k < slots.len(),
        !slots[k].occupied(),
    ensures
        exists|i: int| is_first_empty(slots, i),
        is_first_empty(slots, first_empty(slots)),
        first_empty(slots) <= k,
    decreases k,
{
    if forall|j: int| 0 <= j < k ==> (#[trigger] slots[j]).occupied() {
        assert(is_first_empty(slots, k));
    } else {
        let j = choose|j: int| 0 <= j < k && !(#[trigger] slots[j]).occupied();
        lemma_has_first_empty(slots, j);
    }
    let f = first_empty(slots);
    assert(is_first_empty(slots, f));
    if k < f {
        assert(slots[k].occupied());
    }
}

/// The slot that a request yields exists afterwards, is empty, and carries
/// its position as identity.
pub proof fn lemma_request_yields_empty(slots: Seq<Client>)
    requires
        ids_in_order(slots),
        slots.len() <= usize::MAX,
    ensures
        0 <= next_slot(slots) < after_request(slots).len(),
        next_slot(slots) <= slots.len(),
        !after_request(slots)[next_slot(slots)].occupied(),
        after_request(slots)[next_slot(slots)].id == next_slot(slots),
        ids_in_order(after_request(slots)),
{
    if has_empty(slots) {
        let k = choose|i: int| 0 <= i < slots.len() && !(#[trigger] slots[i]).occupied();
        lemma_has_first_empty(slots, k);
        assert(is_first_empty(slots, first_empty(slots)));
    }
}

/// The test a slot passes to be a peer of slot `exclude`: it holds a
/// connection and is another slot.
pub open spec fn is_peer_of(exclude: usize) -> spec_fn(Client) -> bool {
    |c: Client| c.occupied() && c.id != exclude
}

/// The identities of the occupied slots other than `exclude`, in pool order.
pub open spec fn occupied_others(slots: Seq<Client>, exclude: usize) -> Seq<usize> {
    slots.filter(is_peer_of(exclude)).map_values(|c: Client| c.id)
}

/// Peers are gathered slot by slot: one more slot adds its identity where
/// it passes the test, and nothing else.
pub proof fn lemma_occupied_others_push(slots: Seq<Client>, client: Client, exclude: usize)
    ensures
        occupied_others(slots.push(client), exclude) == if client.occupied() && client.id
            != exclude {
            occupied_others(slots, exclude).push(client.id)
        } else {
            occupied_others(slots, exclude)
        },
{
    slots.lemma_filter_push(client, is_peer_of(exclude));
    let kept = slots.filter(is_peer_of(exclude));
    if client.occupied() && client.id != exclude {
        assert(kept.push(client).map_values(|c: Client| c.id) =~= kept.map_values(
            |c: Client| c.id,
        ).push(client.id));
    }
}

/// The stream held by slot `slot`, if the slot exists and is occupied.
pub open spec fn stream_at(slots: Seq<Client>, slot: usize) -> Option<u64> {
    if slot < slots.len() {
        slots[slot as int].socket
    } else {
        None
    }
}

/// An ordered, growable collection of slots. Slots are made empty, are never
/// removed, and keep their identity: the slot at position `i` is slot `i`.
pub struct ClientPool {
    socket_clients: Vec<Client>,
}

impl View for ClientPool {
    type V = Seq<Client>;

    closed spec fn view(&self) -> Seq<Client> {
        self.socket_clients@
    }
}

impl ClientPool {
    /// Every slot carries its own position as identity.
    #[verifier::type_invariant]
    pub open spec fn wf(&self) -> bool {
        ids_in_order(self@)
    }

    /// A pool of `pool_size` empty slots with the identities `0..pool_size`.
    pub fn new(pool_size: usize) -> (pool: ClientPool)
        ensures
            pool.wf(),
            pool@ == Seq::new(pool_size as nat, |i: int| Client::vacant(i as usize)),
    {
        let mut client_vec: Vec<Client> = Vec::new();
        let mut id: usize = 0;
        while id < pool_size
            invariant
                id <= pool_size,
                client_vec@ == Seq::new(id as nat, |i: int| Client::vacant(i as usize)),
            decreases pool_size - id,
        {
            client_vec.push(Client::empty(id));
            id = id + 1;
            assert(client_vec@ =~= Seq::new(id as nat, |i: int| Client::vacant(i as usize)));
        }
        ClientPool { socket_clients: client_vec }
    }

    /// Takes the list of slots out of the pool, which is left without any.
    /// The list is changed outside the pool and put back whole, so that the
    /// pool keeps its rule at every moment.
    fn take_slots(&mut self) -> (slots: Vec<Client>)
        ensures
            slots@ == old(self)@,
            final(self)@.len() == 0,
    {
        let mut slots: Vec<Client> = Vec::new();
        core::mem::swap(&mut self.socket_clients, &mut slots);
        slots
    }

    /// The number of slots.
    pub fn len(&self) -> (n: usize)
        ensures
            n == self@.len(),
    {
        self.socket_clients.len()
    }

    /// Finds the first empty slot, or appends one where every slot is
    /// occupied, and returns its identity. The slot is still empty on return.
    pub fn find_empty_client(&mut self) -> (slot: usize)
        ensures
            final(self).wf(),
            slot == next_slot(old(self)@),
            final(self)@ == after_request(old(self)@),
            has_empty(old(self)@) ==> is_first_empty(old(self)@, slot as int),
            slot < final(self)@.len(),
            !final(self)@[slot as int].occupied(),
            final(self)@[slot as int].id == slot,
    {
        proof {
            use_type_invariant(&*self);
        }
        let n = self.socket_clients.len();
        let mut i: usize = 0;
        while i < n
            invariant
                i <= n,
                n == self.socket_clients@.len(),
                *self == *old(self),
                self.wf(),
                forall|j: int| 0 <= j < i ==> (#[trigger] self.socket_clients@[j]).occupied(),
            decreases n - i,
        {
            if !self.socket_clients[i].is_occupied() {
                proof {
                    lemma_first_empty_unique(self@, i as int);
                }
                return i;
            }
            i = i + 1;
        }
        let mut slots = self.take_slots();
        slots.push(Client::empty(n));
        self.socket_clients = slots;
        n
    }

    /// A copy of slot `slot`, if the pool has such a slot.
    pub fn client(&self, slot: usize) -> (client: Option<Client>)
        ensures
            slot < self@.len() ==> client == Some(self@[slot as int]),
            slot >= self@.len() ==> client is None,
    {
        if slot < self.socket_clients.len() {
            Some(self.socket_clients[slot])
        } else {
            None
        }
    }

    /// The stream that slot `slot` holds, if the slot exists and is occupied.
    pub fn stream(&self, slot: usize) -> (socket: Option<u64>)
        ensures
            socket == stream_at(self@, slot),
    {
        if slot < self.socket_clients.len() {
            self.socket_clients[slot].socket
        } else {
            None
        }
    }

    /// The peers of slot `exclude_id` as of this call: the identity of every
    /// occupied slot but `exclude_id` itself, in pool order.
    pub fn snapshot_others(&self, exclude_id: usize) -> (peers: Vec<usize>)
        ensures
            peers@ == occupied_others(self@, exclude_id),
    {
        let n = self.socket_clients.len();
        let mut peers: Vec<usize> = Vec::new();
        let mut i: usize = 0;
        proof {
            reveal(Seq::filter);
            assert(self@.take(0).len() == 0);
            assert(occupied_others(self@.take(0), exclude_id) =~= Seq::<usize>::empty());
        }
        while i < n
            invariant
                i <= n,
                n == self@.len(),
                peers@ == occupied_others(self@.take(i as int), exclude_id),
            decreases n - i,
        {
            let client = self.socket_clients[i];
            proof {
                lemma_occupied_others_push(self@.take(i as int), client, exclude_id);
                assert(self@.take(i as int).push(client) =~= self@.take(i + 1));
            }
            if client.is_occupied() && client.id != exclude_id {
                peers.push(client.id);
            }
            i = i + 1;
        }
        proof {
            assert(self@.take(n as int) =~= self@);
        }
        peers
    }

    /// Puts an accepted connection into slot `slot`. It returns `true` and
    /// fills the slot exactly when the slot exists and is empty; otherwise
    /// the pool stays as it is.
    pub fn occupy(&mut self, slot: usize, addr: [u8; 4], socket: u64) -> (done: bool)
        ensures
            final(self).wf(),
            done == (slot < old(self)@.len() && !old(self)@[slot as int].occupied()),
            final(self)@ == after_occupy(old(self)@, slot, addr, socket),
    {
        proof {
            use_type_invariant(&*self);
        }
        if slot < self.socket_clients.len() && !self.socket_clients[slot].is_occupied() {
            let mut slots = self.take_slots();
            slots[slot] = Client { id: slot, addr, socket: Some(socket) };
            self.socket_clients = slots;
            true
        } else {
            false
        }
    }

    /// Marks slot `slot` empty, so that it can be given out again. The slot
    /// keeps its identity; a slot that the pool does not have is ignored.
    pub fn release(&mut self, slot: usize)
        ensures
            final(self).wf(),
            final(self)@ == after_release(old(self)@, slot),
    {
        proof {
            use_type_invariant(&*self);
        }
        if slot < self.socket_clients.len() {
            let addr = self.socket_clients[slot].addr;
            let mut slots = self.take_slots();
            slots[slot] = Client { id: slot, addr, socket: None };
            self.socket_clients = slots;
        }
    }
}

/// A pool has no more slots than a machine can count.
pub proof fn lemma_len_fits(pool: ClientPool)
    ensures
        pool@.len() <= usize::MAX,
{
    assert(pool.socket_clients.len() == pool@.len());
}

/// A slot that was given back is the next to be given out, unless a slot
/// before it is empty too; and the pool does not grow for it.
pub proof fn theorem_slot_reuse(pool: ClientPool, id: usize)
    requires
        pool.wf(),
        id < pool@.len(),
        forall|j: int| 0 <= j < id ==> (#[trigger] pool@[j]).occupied(),
    ensures
        next_slot(after_release(pool@, id)) == id,
        after_request(after_release(pool@, id)) == after_release(pool@, id),
{
    let freed = after_release(pool@, id);
    assert(!freed[id as int].occupied());
    assert forall|j: int| 0 <= j < id implies (#[trigger] freed[j]).occupied() by {
        assert(pool@[j].occupied());
    }
    assert(is_first_empty(freed, id as int));
    lemma_first_empty_unique(freed, id as int);
}

/// Where every slot is occupied, a request for a slot appends exactly one
/// slot: the slots that were there stay as they are, and the new one is
/// empty and has an identity that none of them has, the greatest so far
/// plus one.
pub proof fn theorem_pool_growth(pool: ClientPool)
    requires
        pool.wf(),
        !has_empty(pool@),
    ensures
        next_slot(pool@) == pool@.len(),
        after_request(pool@).len() == pool@.len() + 1,
        after_request(pool@).take(pool@.len() as int) == pool@,
        !after_request(pool@).last().occupied(),
        after_request(pool@).last().id == pool@.len(),
        ids_in_order(after_request(pool@)),
        forall|i: int|
            0 <= i < pool@.len() ==> (#[trigger] pool@[i]).id < after_request(pool@).last().id,
        pool@.len() > 0 ==> after_request(pool@).last().id == pool@.last().id + 1,
{
    lemma_len_fits(pool);
    assert(after_request(pool@).take(pool@.len() as int) =~= pool@);
}

/// A pool never shrinks, and a slot never changes its identity: whatever is
/// asked of the pool, each slot that was there is still there, under the
/// identity it had.
pub proof fn theorem_slots_persist(pool: ClientPool, slot: usize, addr: [u8; 4], socket: u64)
    requires
        pool.wf(),
    ensures
        after_request(pool@).len() >= pool@.len(),
        after_occupy(pool@, slot, addr, socket).len() == pool@.len(),
        after_release(pool@, slot).len() == pool@.len(),
        ids_in_order(after_request(pool@)),
        ids_in_order(after_occupy(pool@, slot, addr, socket)),
        ids_in_order(after_release(pool@, slot)),
{
    lemma_len_fits(pool);
}

/// The slot that is given out holds no connection: its identity is that of
/// no client that is connected.
pub proof fn theorem_fresh_slot(pool: ClientPool, other: int)
    requires
        pool.wf(),
        0 <= other < pool@.len(),
        pool@[other].occupied(),
    ensures
        next_slot(pool@) != other,
        next_slot(pool@) != pool@[other].id,
        0 <= next_slot(pool@) < after_request(pool@).len(),
        !after_request(pool@)[next_slot(pool@)].occupied(),
        after_request(pool@)[next_slot(pool@)].id == next_slot(pool@),
{
    lemma_len_fits(pool);
    lemma_request_yields_empty(pool@);
}

/// The peers that a snapshot lists for a slot are exactly the slots that
/// are occupied at that moment, the slot itself left out: every one of them
/// is listed, and nothing else.
pub proof fn theorem_snapshot_members(slots: Seq<Client>, exclude: usize, id: usize)
    requires
        ids_in_order(slots),
    ensures
        occupied_others(slots, exclude).contains(id) <==> (id < slots.len()
            && slots[id as int].occupied() && id != exclude),
{
    broadcast use vstd::seq_lib::group_filter_ensures;

    let test = is_peer_of(exclude);
    let kept = slots.filter(test);
    let ids = occupied_others(slots, exclude);
    if ids.contains(id) {
        let k = choose|k: int| 0 <= k < ids.len() && ids[k] == id;
        assert(kept[k].id == id);
        assert(test(kept[k]));
        assert(kept.contains(kept[k]));
        slots.lemma_filter_contains_rev(test, kept[k]);
        let i = choose|i: int| 0 <= i < slots.len() && slots[i] == kept[k];
        assert(slots[i].id == i);
    }
    if id < slots.len() && slots[id as int].occupied() && id != exclude {
        assert(test(slots[id as int]));
        assert(kept.contains(slots[id as int]));
        let k = choose|k: int| 0 <= k < kept.len() && kept[k] == slots[id as int];
        assert(ids[k] == id);
    }
}

} // verus!
