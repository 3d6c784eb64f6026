use chat_relay::handler::{Handler, HandlerAction, HandlerEvent, HandlerState, Outgoing};
use chat_relay::message::{clip, farewell, greeting, starts_with_end, BUFFER_SIZE};
use chat_relay::pool::ClientPool;

const LOOPBACK: [u8; 4] = [127, 0, 0, 1];

fn out(to: usize, socket: u64, bytes: &[u8]) -> Outgoing {
    Outgoing { to, socket, bytes: bytes.to_vec() }
}

/// A pool whose first `n` slots hold the streams 100, 101, ...
fn pool_with(n: usize) -> ClientPool {
    let mut pool = ClientPool::new(10);
    for slot in 0..n {
        assert!(pool.occupy(slot, LOOPBACK, 100 + slot as u64));
    }
    pool
}

/// A session for `slot` that has been greeted and is relaying.
fn relaying(pool: &mut ClientPool, slot: usize, peers: Vec<usize>) -> Handler {
    let (mut handler, _) = pool.start_messaging(slot, "Hello".to_string(), peers);
    handler.step(HandlerEvent::Delivered(vec![true]), pool);
    assert_eq!(handler.state(), HandlerState::Relaying);
    handler
}

#[test]
fn buffer_holds_2048_bytes() {
    assert_eq!(BUFFER_SIZE, 2048);
}

#[test]
fn greeting_is_the_text_with_a_trailing_nul() {
    assert_eq!(greeting("Hello"), b"Hello\0".to_vec());
    assert_eq!(greeting(""), vec![0u8]);
    assert_eq!(greeting("h\u{e9}"), vec![0x68, 0xc3, 0xa9, 0]);
}

#[test]
fn farewell_is_bye_with_a_trailing_nul() {
    assert_eq!(farewell(), b"Bye!\0".to_vec());
}

#[test]
fn end_command_is_matched_as_a_prefix() {
    assert!(starts_with_end(&b":end".to_vec()));
    assert!(starts_with_end(&b":end\n".to_vec()));
    assert!(starts_with_end(&b":ending".to_vec()));
    assert!(starts_with_end(&b":end of story".to_vec()));
}

#[test]
fn end_command_must_stand_at_the_start_and_in_lower_case() {
    assert!(!starts_with_end(&b"".to_vec()));
    assert!(!starts_with_end(&b":en".to_vec()));
    assert!(!starts_with_end(&b" :end".to_vec()));
    assert!(!starts_with_end(&b":END".to_vec()));
    assert!(!starts_with_end(&b":End".to_vec()));
    assert!(!starts_with_end(&b"end:".to_vec()));
    assert!(!starts_with_end(&b"hi :end".to_vec()));
}

#[test]
fn clip_keeps_short_chunks_and_cuts_long_ones() {
    assert_eq!(clip(Vec::new()), Vec::<u8>::new());
    assert_eq!(clip(b"hi".to_vec()), b"hi".to_vec());
    assert_eq!(clip(vec![7u8; 2048]), vec![7u8; 2048]);
    let mut long = vec![1u8; 2048];
    long.extend_from_slice(&[2u8; 10]);
    assert_eq!(clip(long), vec![1u8; 2048]);
}

#[test]
fn start_messaging_greets_the_new_client_alone() {
    let pool = pool_with(3);
    let (handler, first) = pool.start_messaging(2, "Hello".to_string(), vec![0, 1]);
    assert_eq!(handler.id(), 2);
    assert_eq!(handler.peers(), &vec![0, 1]);
    assert_eq!(handler.state(), HandlerState::Greeting);
    assert!(!handler.is_closed());
    assert_eq!(first, HandlerAction::Deliver(vec![out(2, 102, b"Hello\0")]));
}

#[test]
fn start_messaging_on_an_empty_slot_is_over_at_once() {
    let pool = pool_with(1);
    let (handler, first) = pool.start_messaging(4, "Hello".to_string(), vec![0]);
    assert_eq!(handler.id(), 4);
    assert_eq!(handler.state(), HandlerState::Closed);
    assert!(handler.is_closed());
    assert_eq!(first, HandlerAction::Stop);
    let (handler, first) = pool.start_messaging(40, "Hello".to_string(), vec![]);
    assert_eq!(handler.state(), HandlerState::Closed);
    assert_eq!(first, HandlerAction::Stop);
}

#[test]
fn delivered_greeting_leads_to_the_first_read() {
    let mut pool = pool_with(1);
    let (mut handler, _) = pool.start_messaging(0, "Hello".to_string(), vec![]);
    let action = handler.step(HandlerEvent::Delivered(vec![true]), &mut pool);
    assert_eq!(action, HandlerAction::Receive { socket: 100, capacity: 2048 });
    assert_eq!(handler.state(), HandlerState::Relaying);
}

#[test]
fn failed_greeting_closes_the_session() {
    let mut pool = pool_with(1);
    let (mut handler, _) = pool.start_messaging(0, "Hello".to_string(), vec![]);
    let action = handler.step(HandlerEvent::Delivered(vec![false]), &mut pool);
    assert_eq!(action, HandlerAction::Close { socket: 100 });
    assert_eq!(handler.state(), HandlerState::Closing);
    let action = handler.step(HandlerEvent::StreamClosed(true), &mut pool);
    assert_eq!(action, HandlerAction::Stop);
    assert_eq!(handler.state(), HandlerState::Closed);
    assert_eq!(pool.stream(0), None);
}

#[test]
fn delivery_without_any_outcome_counts_as_failed() {
    let mut pool = pool_with(1);
    let (mut handler, _) = pool.start_messaging(0, "Hello".to_string(), vec![]);
    let action = handler.step(HandlerEvent::Delivered(vec![]), &mut pool);
    assert_eq!(action, HandlerAction::Close { socket: 100 });
    assert_eq!(handler.state(), HandlerState::Closing);
}

#[test]
fn message_is_echoed_first_and_then_forwarded_to_every_peer() {
    let mut pool = pool_with(4);
    let mut handler = relaying(&mut pool, 1, vec![0, 2, 3]);
    let action = handler.step(HandlerEvent::Received(b"hi".to_vec()), &mut pool);
    assert_eq!(
        action,
        HandlerAction::Deliver(vec![
            out(1, 101, b"hi"),
            out(0, 100, b"hi"),
            out(2, 102, b"hi"),
            out(3, 103, b"hi"),
        ])
    );
    assert_eq!(handler.state(), HandlerState::Relaying);
    let action = handler.step(HandlerEvent::Delivered(vec![true, true, true, true]), &mut pool);
    assert_eq!(action, HandlerAction::Receive { socket: 101, capacity: 2048 });
    assert_eq!(handler.state(), HandlerState::Relaying);
}

#[test]
fn forwards_follow_the_order_of_the_snapshot() {
    let mut pool = pool_with(4);
    let mut handler = relaying(&mut pool, 0, vec![3, 1, 2]);
    let action = handler.step(HandlerEvent::Received(b"x".to_vec()), &mut pool);
    assert_eq!(
        action,
        HandlerAction::Deliver(vec![
            out(0, 100, b"x"),
            out(3, 103, b"x"),
            out(1, 101, b"x"),
            out(2, 102, b"x"),
        ])
    );
}

#[test]
fn message_with_no_peers_is_only_echoed() {
    let mut pool = pool_with(3);
    let mut handler = relaying(&mut pool, 0, vec![]);
    let action = handler.step(HandlerEvent::Received(b"anyone?".to_vec()), &mut pool);
    assert_eq!(action, HandlerAction::Deliver(vec![out(0, 100, b"anyone?")]));
}

#[test]
fn peer_that_has_gone_is_skipped_without_error() {
    let mut pool = pool_with(3);
    let mut handler = relaying(&mut pool, 0, vec![1, 2]);
    pool.release(1);
    let action = handler.step(HandlerEvent::Received(b"hi".to_vec()), &mut pool);
    assert_eq!(action, HandlerAction::Deliver(vec![out(0, 100, b"hi"), out(2, 102, b"hi")]));
    assert_eq!(handler.state(), HandlerState::Relaying);
    // The peer stays in the snapshot: it is skipped, not removed.
    assert_eq!(handler.peers(), &vec![1, 2]);
}

#[test]
fn peer_slot_that_was_given_out_again_receives_on_its_new_stream() {
    let mut pool = pool_with(2);
    let mut handler = relaying(&mut pool, 0, vec![1]);
    pool.release(1);
    assert!(pool.occupy(1, [10, 0, 0, 9], 555));
    let action = handler.step(HandlerEvent::Received(b"hi".to_vec()), &mut pool);
    assert_eq!(action, HandlerAction::Deliver(vec![out(0, 100, b"hi"), out(1, 555, b"hi")]));
}

#[test]
fn peers_that_are_unknown_or_the_sender_itself_get_nothing() {
    let mut pool = pool_with(2);
    let mut handler = relaying(&mut pool, 0, vec![0, 1, 7, 99]);
    let action = handler.step(HandlerEvent::Received(b"hi".to_vec()), &mut pool);
    assert_eq!(action, HandlerAction::Deliver(vec![out(0, 100, b"hi"), out(1, 101, b"hi")]));
}

#[test]
fn failed_forward_does_not_end_the_session() {
    let mut pool = pool_with(3);
    let mut handler = relaying(&mut pool, 0, vec![1, 2]);
    handler.step(HandlerEvent::Received(b"hi".to_vec()), &mut pool);
    let action = handler.step(HandlerEvent::Delivered(vec![true, false, false]), &mut pool);
    assert_eq!(action, HandlerAction::Receive { socket: 100, capacity: 2048 });
    assert_eq!(handler.state(), HandlerState::Relaying);
}

#[test]
fn failed_echo_ends_the_session() {
    let mut pool = pool_with(3);
    let mut handler = relaying(&mut pool, 0, vec![1, 2]);
    handler.step(HandlerEvent::Received(b"hi".to_vec()), &mut pool);
    let action = handler.step(HandlerEvent::Delivered(vec![false, true, true]), &mut pool);
    assert_eq!(action, HandlerAction::Close { socket: 100 });
    assert_eq!(handler.state(), HandlerState::Closing);
}

#[test]
fn end_command_is_answered_with_one_farewell_and_no_forward() {
    let mut pool = pool_with(3);
    let mut handler = relaying(&mut pool, 1, vec![0, 2]);
    let action = handler.step(HandlerEvent::Received(b":end".to_vec()), &mut pool);
    assert_eq!(action, HandlerAction::Deliver(vec![out(1, 101, b"Bye!\0")]));
    assert_eq!(handler.state(), HandlerState::Closing);
    // The slot is still held until the stream is closed.
    assert_eq!(pool.stream(1), Some(101));
    let action = handler.step(HandlerEvent::Delivered(vec![true]), &mut pool);
    assert_eq!(action, HandlerAction::Close { socket: 101 });
    let action = handler.step(HandlerEvent::StreamClosed(true), &mut pool);
    assert_eq!(action, HandlerAction::Stop);
    assert_eq!(handler.state(), HandlerState::Closed);
    assert_eq!(pool.stream(1), None);
    assert_eq!(pool.stream(0), Some(100));
    assert_eq!(pool.stream(2), Some(102));
}

#[test]
fn ending_counts_as_the_end_command_too() {
    let mut pool = pool_with(2);
    let mut handler = relaying(&mut pool, 0, vec![1]);
    let action = handler.step(HandlerEvent::Received(b":ending".to_vec()), &mut pool);
    assert_eq!(action, HandlerAction::Deliver(vec![out(0, 100, b"Bye!\0")]));
    assert_eq!(handler.state(), HandlerState::Closing);
}

#[test]
fn end_inside_a_message_is_relayed_as_chat() {
    let mut pool = pool_with(2);
    let mut handler = relaying(&mut pool, 0, vec![1]);
    let action = handler.step(HandlerEvent::Received(b"the :end".to_vec()), &mut pool);
    assert_eq!(
        action,
        HandlerAction::Deliver(vec![out(0, 100, b"the :end"), out(1, 101, b"the :end")])
    );
    assert_eq!(handler.state(), HandlerState::Relaying);
    handler.step(HandlerEvent::Delivered(vec![true, true]), &mut pool);
    let action = handler.step(HandlerEvent::Received(b":END".to_vec()), &mut pool);
    assert_eq!(action, HandlerAction::Deliver(vec![out(0, 100, b":END"), out(1, 101, b":END")]));
}

#[test]
fn failed_farewell_does_not_keep_the_slot() {
    let mut pool = pool_with(2);
    let mut handler = relaying(&mut pool, 0, vec![1]);
    handler.step(HandlerEvent::Received(b":end".to_vec()), &mut pool);
    let action = handler.step(HandlerEvent::Delivered(vec![false]), &mut pool);
    assert_eq!(action, HandlerAction::Close { socket: 100 });
    let action = handler.step(HandlerEvent::StreamClosed(false), &mut pool);
    assert_eq!(action, HandlerAction::Stop);
    assert_eq!(handler.state(), HandlerState::Closed);
    assert_eq!(pool.stream(0), None);
}

#[test]
fn read_of_no_bytes_closes_the_session() {
    let mut pool = pool_with(2);
    let mut handler = relaying(&mut pool, 0, vec![1]);
    let action = handler.step(HandlerEvent::Received(Vec::new()), &mut pool);
    assert_eq!(action, HandlerAction::Close { socket: 100 });
    assert_eq!(handler.state(), HandlerState::Closing);
}

#[test]
fn failed_read_closes_the_session() {
    let mut pool = pool_with(2);
    let mut handler = relaying(&mut pool, 0, vec![1]);
    let action = handler.step(HandlerEvent::Disconnected, &mut pool);
    assert_eq!(action, HandlerAction::Close { socket: 100 });
    assert_eq!(handler.state(), HandlerState::Closing);
    let action = handler.step(HandlerEvent::StreamClosed(true), &mut pool);
    assert_eq!(action, HandlerAction::Stop);
    assert_eq!(pool.stream(0), None);
    assert_eq!(pool.client(0).unwrap().id, 0);
}

#[test]
fn unclean_close_still_frees_the_slot() {
    let mut pool = pool_with(1);
    let mut handler = relaying(&mut pool, 0, vec![]);
    handler.step(HandlerEvent::Disconnected, &mut pool);
    let action = handler.step(HandlerEvent::StreamClosed(false), &mut pool);
    assert_eq!(action, HandlerAction::Stop);
    assert_eq!(handler.state(), HandlerState::Closed);
    assert_eq!(pool.stream(0), None);
    assert_eq!(pool.find_empty_client(), 0);
}

#[test]
fn closing_session_asks_for_the_close_until_it_hears_of_it() {
    let mut pool = pool_with(1);
    let mut handler = relaying(&mut pool, 0, vec![]);
    handler.step(HandlerEvent::Disconnected, &mut pool);
    for event in [
        HandlerEvent::Received(b"late".to_vec()),
        HandlerEvent::Disconnected,
        HandlerEvent::Delivered(vec![true]),
    ] {
        let action = handler.step(event, &mut pool);
        assert_eq!(action, HandlerAction::Close { socket: 100 });
        assert_eq!(handler.state(), HandlerState::Closing);
        assert_eq!(pool.stream(0), Some(100));
    }
}

#[test]
fn event_out_of_turn_closes_the_session() {
    let mut pool = pool_with(2);
    let (mut greeting, _) = pool.start_messaging(0, "Hello".to_string(), vec![]);
    let action = greeting.step(HandlerEvent::Received(b"hi".to_vec()), &mut pool);
    assert_eq!(action, HandlerAction::Close { socket: 100 });
    assert_eq!(greeting.state(), HandlerState::Closing);
    let mut relay = relaying(&mut pool, 1, vec![]);
    let action = relay.step(HandlerEvent::StreamClosed(true), &mut pool);
    assert_eq!(action, HandlerAction::Close { socket: 101 });
    assert_eq!(relay.state(), HandlerState::Closing);
    assert_eq!(pool.stream(1), Some(101));
}

#[test]
fn closed_session_stays_closed_and_leaves_its_old_slot_alone() {
    let mut pool = pool_with(2);
    let mut handler = relaying(&mut pool, 0, vec![1]);
    handler.step(HandlerEvent::Disconnected, &mut pool);
    handler.step(HandlerEvent::StreamClosed(true), &mut pool);
    assert!(handler.is_closed());
    // The slot goes to a new connection.
    assert!(pool.occupy(0, [10, 1, 1, 1], 900));
    for event in [
        HandlerEvent::Received(b"ghost".to_vec()),
        HandlerEvent::Delivered(vec![true]),
        HandlerEvent::Disconnected,
        HandlerEvent::StreamClosed(true),
    ] {
        assert_eq!(handler.step(event, &mut pool), HandlerAction::Stop);
        assert!(handler.is_closed());
        assert_eq!(pool.stream(0), Some(900));
    }
}

#[test]
fn session_whose_slot_was_emptied_stops() {
    let mut pool = pool_with(2);
    let mut handler = relaying(&mut pool, 0, vec![1]);
    pool.release(0);
    let action = handler.step(HandlerEvent::Received(b"hi".to_vec()), &mut pool);
    assert_eq!(action, HandlerAction::Stop);
    assert_eq!(handler.state(), HandlerState::Closed);
}

#[test]
fn invalid_utf8_is_replaced_before_it_is_relayed() {
    let mut pool = pool_with(2);
    let mut handler = relaying(&mut pool, 0, vec![1]);
    let action = handler.step(HandlerEvent::Received(vec![0x68, 0xff, 0x69]), &mut pool);
    let text = "h\u{fffd}i".as_bytes();
    assert_eq!(text, &[0x68, 0xef, 0xbf, 0xbd, 0x69]);
    assert_eq!(action, HandlerAction::Deliver(vec![out(0, 100, text), out(1, 101, text)]));
}

#[test]
fn valid_utf8_is_relayed_byte_for_byte() {
    let mut pool = pool_with(2);
    let mut handler = relaying(&mut pool, 0, vec![1]);
    let text = "gr\u{fc}\u{df} dich \u{1f600}\n".as_bytes();
    let action = handler.step(HandlerEvent::Received(text.to_vec()), &mut pool);
    assert_eq!(action, HandlerAction::Deliver(vec![out(0, 100, text), out(1, 101, text)]));
}

#[test]
fn invalid_byte_before_the_command_makes_it_chat() {
    let mut pool = pool_with(1);
    let mut handler = relaying(&mut pool, 0, vec![]);
    let chunk = vec![0xff, b':', b'e', b'n', b'd'];
    let action = handler.step(HandlerEvent::Received(chunk), &mut pool);
    assert_eq!(action, HandlerAction::Deliver(vec![out(0, 100, "\u{fffd}:end".as_bytes())]));
    assert_eq!(handler.state(), HandlerState::Relaying);
}

#[test]
fn chunk_longer_than_the_buffer_is_cut_to_its_size() {
    let mut pool = pool_with(2);
    let mut handler = relaying(&mut pool, 0, vec![1]);
    let mut chunk = vec![b'a'; 2048];
    chunk.extend_from_slice(b"tail");
    let action = handler.step(HandlerEvent::Received(chunk), &mut pool);
    let kept = vec![b'a'; 2048];
    assert_eq!(action, HandlerAction::Deliver(vec![out(0, 100, &kept), out(1, 101, &kept)]));
}

#[test]
fn answer_gives_the_relay_for_chat_and_the_farewell_for_the_command() {
    let mut pool = pool_with(3);
    let handler = relaying(&mut pool, 2, vec![0, 1]);
    let (state, action) = handler.answer(102, b"hello all".to_vec(), &pool);
    assert_eq!(state, HandlerState::Relaying);
    assert_eq!(
        action,
        HandlerAction::Deliver(vec![
            out(2, 102, b"hello all"),
            out(0, 100, b"hello all"),
            out(1, 101, b"hello all"),
        ])
    );
    let (state, action) = handler.answer(102, b":end now".to_vec(), &pool);
    assert_eq!(state, HandlerState::Closing);
    assert_eq!(action, HandlerAction::Deliver(vec![out(2, 102, b"Bye!\0")]));
    // Answering decides; it does not move the session.
    assert_eq!(handler.state(), HandlerState::Relaying);
}

#[test]
fn end_of_one_session_leaves_delivery_among_the_others_as_it_was() {
    let mut pool = pool_with(4);
    let mut a = relaying(&mut pool, 0, vec![1, 2, 3]);
    let mut b = relaying(&mut pool, 1, vec![0, 2, 3]);
    let mut c = relaying(&mut pool, 2, vec![0, 1, 3]);
    // The stream of b breaks.
    assert_eq!(b.step(HandlerEvent::Disconnected, &mut pool), HandlerAction::Close { socket: 101 });
    assert_eq!(b.step(HandlerEvent::StreamClosed(false), &mut pool), HandlerAction::Stop);
    assert_eq!(pool.stream(0), Some(100));
    assert_eq!(pool.stream(2), Some(102));
    assert_eq!(pool.stream(3), Some(103));
    let action = a.step(HandlerEvent::Received(b"still here".to_vec()), &mut pool);
    assert_eq!(
        action,
        HandlerAction::Deliver(vec![
            out(0, 100, b"still here"),
            out(2, 102, b"still here"),
            out(3, 103, b"still here"),
        ])
    );
    let action = c.step(HandlerEvent::Received(b"me too".to_vec()), &mut pool);
    assert_eq!(
        action,
        HandlerAction::Deliver(vec![
            out(2, 102, b"me too"),
            out(0, 100, b"me too"),
            out(3, 103, b"me too"),
        ])
    );
    assert_eq!(a.state(), HandlerState::Relaying);
    assert_eq!(c.state(), HandlerState::Relaying);
}

#[test]
fn three_clients_bound_to_every_other_slot_chat_and_one_leaves() {
    // Sessions that list every other slot as a peer, whoever joined first.
    let mut pool = pool_with(3);
    let mut a = relaying(&mut pool, 0, vec![1, 2]);
    let mut b = relaying(&mut pool, 1, vec![0, 2]);
    let _c = relaying(&mut pool, 2, vec![0, 1]);
    let action = a.step(HandlerEvent::Received(b"hi".to_vec()), &mut pool);
    assert_eq!(
        action,
        HandlerAction::Deliver(vec![out(0, 100, b"hi"), out(1, 101, b"hi"), out(2, 102, b"hi")])
    );
    a.step(HandlerEvent::Delivered(vec![true, true, true]), &mut pool);
    let action = b.step(HandlerEvent::Received(b":end".to_vec()), &mut pool);
    assert_eq!(action, HandlerAction::Deliver(vec![out(1, 101, b"Bye!\0")]));
    b.step(HandlerEvent::Delivered(vec![true]), &mut pool);
    assert_eq!(b.step(HandlerEvent::StreamClosed(true), &mut pool), HandlerAction::Stop);
    let action = a.step(HandlerEvent::Received(b"hi2".to_vec()), &mut pool);
    assert_eq!(action, HandlerAction::Deliver(vec![out(0, 100, b"hi2"), out(2, 102, b"hi2")]));
}
