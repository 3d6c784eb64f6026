use chat_relay::client::Client;
use chat_relay::pool::{ClientPool, DEFAULT_MAX_CLIENTS};

const LOOPBACK: [u8; 4] = [127, 0, 0, 1];

fn full_pool(size: usize) -> ClientPool {
    let mut pool = ClientPool::new(size);
    for slot in 0..size {
        assert!(pool.occupy(slot, LOOPBACK, 100 + slot as u64));
    }
    pool
}

#[test]
fn default_client_is_the_empty_slot_zero() {
    let client = Client::default();
    assert_eq!(client, Client { id: 0, addr: [0, 0, 0, 0], socket: None });
    assert!(!client.is_occupied());
}

#[test]
fn empty_client_keeps_the_identity_it_is_given() {
    assert_eq!(Client::empty(7), Client { id: 7, addr: [0, 0, 0, 0], socket: None });
}

#[test]
fn client_is_occupied_exactly_when_it_holds_a_stream() {
    assert!(Client { id: 3, addr: LOOPBACK, socket: Some(9) }.is_occupied());
    assert!(!Client { id: 3, addr: LOOPBACK, socket: None }.is_occupied());
}

#[test]
fn default_pool_size_is_ten() {
    assert_eq!(DEFAULT_MAX_CLIENTS, 10);
}

#[test]
fn new_makes_empty_slots_numbered_in_order() {
    let pool = ClientPool::new(4);
    assert_eq!(pool.len(), 4);
    for slot in 0..4 {
        assert_eq!(pool.client(slot), Some(Client { id: slot, addr: [0, 0, 0, 0], socket: None }));
    }
    assert_eq!(pool.client(4), None);
}

#[test]
fn new_with_no_slots_is_empty_and_grows_from_zero() {
    let mut pool = ClientPool::new(0);
    assert_eq!(pool.len(), 0);
    assert_eq!(pool.find_empty_client(), 0);
    assert_eq!(pool.len(), 1);
    assert_eq!(pool.client(0), Some(Client { id: 0, addr: [0, 0, 0, 0], socket: None }));
}

#[test]
fn find_empty_client_yields_the_first_empty_slot() {
    let mut pool = ClientPool::new(4);
    assert_eq!(pool.find_empty_client(), 0);
    assert!(pool.occupy(0, LOOPBACK, 10));
    assert_eq!(pool.find_empty_client(), 1);
    assert!(pool.occupy(2, LOOPBACK, 12));
    assert_eq!(pool.find_empty_client(), 1);
    assert!(pool.occupy(1, LOOPBACK, 11));
    assert_eq!(pool.find_empty_client(), 3);
    assert_eq!(pool.len(), 4);
}

#[test]
fn find_empty_client_does_not_fill_the_slot() {
    let mut pool = ClientPool::new(2);
    assert_eq!(pool.find_empty_client(), 0);
    assert_eq!(pool.find_empty_client(), 0);
    assert_eq!(pool.client(0), Some(Client { id: 0, addr: [0, 0, 0, 0], socket: None }));
}

#[test]
fn full_pool_grows_by_exactly_one_fresh_slot() {
    let mut pool = full_pool(3);
    let before: Vec<Option<Client>> = (0..3).map(|slot| pool.client(slot)).collect();
    assert_eq!(pool.find_empty_client(), 3);
    assert_eq!(pool.len(), 4);
    assert_eq!(pool.client(3), Some(Client { id: 3, addr: [0, 0, 0, 0], socket: None }));
    let after: Vec<Option<Client>> = (0..3).map(|slot| pool.client(slot)).collect();
    assert_eq!(before, after);
    // The new slot is empty, so asking again neither grows nor moves on.
    assert_eq!(pool.find_empty_client(), 3);
    assert_eq!(pool.len(), 4);
}

#[test]
fn grown_slots_get_max_identity_plus_one_each_time() {
    let mut pool = full_pool(2);
    for expected in 2..6 {
        let slot = pool.find_empty_client();
        assert_eq!(slot, expected);
        assert_eq!(pool.client(slot).unwrap().id, expected);
        assert!(pool.occupy(slot, LOOPBACK, 500 + slot as u64));
    }
    assert_eq!(pool.len(), 6);
}

#[test]
fn released_slot_is_reused_before_the_pool_grows() {
    let mut pool = full_pool(3);
    pool.release(1);
    assert_eq!(pool.find_empty_client(), 1);
    assert_eq!(pool.len(), 3);
    assert!(pool.occupy(1, [10, 0, 0, 2], 77));
    assert_eq!(pool.client(1), Some(Client { id: 1, addr: [10, 0, 0, 2], socket: Some(77) }));
    assert_eq!(pool.find_empty_client(), 3);
    assert_eq!(pool.len(), 4);
}

#[test]
fn lowest_released_slot_is_reused_first() {
    let mut pool = full_pool(4);
    pool.release(2);
    pool.release(0);
    assert_eq!(pool.find_empty_client(), 0);
    assert!(pool.occupy(0, LOOPBACK, 1));
    assert_eq!(pool.find_empty_client(), 2);
    assert_eq!(pool.len(), 4);
}

#[test]
fn pool_never_shrinks_when_slots_are_released() {
    let mut pool = full_pool(2);
    pool.find_empty_client();
    assert_eq!(pool.len(), 3);
    pool.release(0);
    pool.release(1);
    pool.release(2);
    assert_eq!(pool.len(), 3);
    for slot in 0..3 {
        assert_eq!(pool.client(slot).unwrap().id, slot);
    }
}

#[test]
fn occupy_fills_an_empty_slot() {
    let mut pool = ClientPool::new(2);
    assert!(pool.occupy(1, [192, 168, 0, 5], 42));
    assert_eq!(pool.client(1), Some(Client { id: 1, addr: [192, 168, 0, 5], socket: Some(42) }));
    assert_eq!(pool.client(0), Some(Client { id: 0, addr: [0, 0, 0, 0], socket: None }));
    assert_eq!(pool.stream(1), Some(42));
}

#[test]
fn occupy_refuses_an_occupied_slot() {
    let mut pool = ClientPool::new(2);
    assert!(pool.occupy(0, LOOPBACK, 1));
    assert!(!pool.occupy(0, [10, 0, 0, 1], 2));
    assert_eq!(pool.client(0), Some(Client { id: 0, addr: LOOPBACK, socket: Some(1) }));
}

#[test]
fn occupy_refuses_a_slot_the_pool_does_not_have() {
    let mut pool = ClientPool::new(2);
    assert!(!pool.occupy(2, LOOPBACK, 1));
    assert_eq!(pool.len(), 2);
    assert_eq!(pool.stream(2), None);
}

#[test]
fn release_empties_the_slot_and_keeps_identity_and_address() {
    let mut pool = ClientPool::new(3);
    assert!(pool.occupy(2, [8, 8, 4, 4], 5));
    pool.release(2);
    assert_eq!(pool.client(2), Some(Client { id: 2, addr: [8, 8, 4, 4], socket: None }));
    assert_eq!(pool.stream(2), None);
}

#[test]
fn release_of_a_missing_slot_changes_nothing() {
    let mut pool = full_pool(2);
    pool.release(5);
    assert_eq!(pool.len(), 2);
    assert_eq!(pool.stream(0), Some(100));
    assert_eq!(pool.stream(1), Some(101));
}

#[test]
fn stream_is_none_for_empty_and_missing_slots() {
    let mut pool = ClientPool::new(2);
    assert!(pool.occupy(0, LOOPBACK, 9));
    assert_eq!(pool.stream(0), Some(9));
    assert_eq!(pool.stream(1), None);
    assert_eq!(pool.stream(2), None);
    assert_eq!(pool.stream(usize::MAX), None);
}

#[test]
fn snapshot_lists_occupied_slots_but_the_excluded_one() {
    let mut pool = ClientPool::new(5);
    assert!(pool.occupy(0, LOOPBACK, 10));
    assert!(pool.occupy(2, LOOPBACK, 12));
    assert!(pool.occupy(3, LOOPBACK, 13));
    assert_eq!(pool.snapshot_others(2), vec![0, 3]);
    assert_eq!(pool.snapshot_others(0), vec![2, 3]);
    assert_eq!(pool.snapshot_others(1), vec![0, 2, 3]);
    assert_eq!(pool.snapshot_others(9), vec![0, 2, 3]);
}

#[test]
fn snapshot_of_an_idle_pool_is_empty() {
    let pool = ClientPool::new(3);
    assert_eq!(pool.snapshot_others(0), Vec::<usize>::new());
    assert_eq!(ClientPool::new(0).snapshot_others(0), Vec::<usize>::new());
}

#[test]
fn snapshot_is_taken_at_call_time() {
    let mut pool = full_pool(3);
    let early = pool.snapshot_others(0);
    pool.release(1);
    let late = pool.snapshot_others(0);
    assert_eq!(early, vec![1, 2]);
    assert_eq!(late, vec![2]);
}

#[test]
fn many_connections_get_identities_that_do_not_collide() {
    let mut pool = ClientPool::new(3);
    let mut given: Vec<usize> = Vec::new();
    for n in 0..25u64 {
        let slot = pool.find_empty_client();
        assert!(!given.contains(&slot));
        assert!(pool.occupy(slot, LOOPBACK, 1000 + n));
        assert_eq!(pool.client(slot).unwrap().id, slot);
        given.push(slot);
    }
    assert_eq!(given, (0..25).collect::<Vec<usize>>());
    assert_eq!(pool.len(), 25);
}
