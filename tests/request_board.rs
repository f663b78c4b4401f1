use rclrs::{Client, ClientRequestBoard, RclrsError};

#[test]
fn response_after_request_resolves_once() {
    let mut board: ClientRequestBoard<&str, i32> = ClientRequestBoard::new();
    assert_eq!(board.new_request(7, "caller"), None);
    assert!(board.is_pending(7));
    assert_eq!(board.response_arrived(7, 42), Some(("caller", 42)));
    assert!(!board.is_pending(7));
    assert!(!board.has_loose_response(7));
    // A duplicate response finds no sender and is kept, not delivered twice.
    assert_eq!(board.response_arrived(7, 43), None);
    assert!(board.has_loose_response(7));
}

#[test]
fn response_before_request_resolves_on_registration() {
    // The response for sequence 1 (a request with order=5) races ahead of the
    // bookkeeping: the later registration delivers it at once.
    let mut board: ClientRequestBoard<String, String> = ClientRequestBoard::new();
    assert_eq!(board.response_arrived(1, "sequence of order=5".to_string()), None);
    assert!(board.has_loose_response(1));
    assert!(!board.is_pending(1));
    let delivered = board.new_request(1, "order=5".to_string());
    assert_eq!(delivered, Some(("order=5".to_string(), "sequence of order=5".to_string())));
    assert!(!board.is_pending(1));
    assert!(!board.has_loose_response(1));
}

#[test]
fn two_calls_resolve_with_their_own_responses_in_reverse_order() {
    let mut board: ClientRequestBoard<&str, &str> = ClientRequestBoard::new();
    assert_eq!(board.request_sent(Ok(1), "A"), Ok(None));
    assert_eq!(board.request_sent(Ok(2), "B"), Ok(None));
    assert_eq!(board.execute(Ok(("response B", 2))), Ok(Some(("B", "response B"))));
    assert_eq!(board.execute(Ok(("response A", 1))), Ok(Some(("A", "response A"))));
    assert!(!board.is_pending(1));
    assert!(!board.is_pending(2));
}

#[test]
fn transient_take_changes_nothing() {
    let mut board: ClientRequestBoard<&str, i32> = ClientRequestBoard::new();
    assert_eq!(board.new_request(3, "waiting"), None);
    assert_eq!(board.execute(Err(RclrsError::TakeFailed)), Ok(None));
    assert!(board.is_pending(3));
    assert!(!board.has_loose_response(3));
    assert_eq!(board.response_arrived(3, 9), Some(("waiting", 9)));
}

#[test]
fn other_take_error_is_reported() {
    let mut board: ClientRequestBoard<&str, i32> = ClientRequestBoard::new();
    assert_eq!(board.new_request(3, "waiting"), None);
    let err = RclrsError::Middleware { code: 1 };
    assert_eq!(board.execute(Err(err.clone())), Err(err));
    assert!(board.is_pending(3));
}

#[test]
fn failed_send_hands_sender_back() {
    let mut board: ClientRequestBoard<&str, i32> = ClientRequestBoard::new();
    let err = RclrsError::Middleware { code: 2 };
    assert_eq!(board.request_sent(Err(err.clone()), "caller"), Err(("caller", err)));
    assert!(!board.is_pending(-1));
}

#[test]
fn abandoning_and_pruning() {
    let mut board: ClientRequestBoard<&str, i32> = ClientRequestBoard::new();
    assert_eq!(board.new_request(1, "a"), None);
    assert_eq!(board.new_request(2, "b"), None);
    assert_eq!(board.new_request(3, "c"), None);
    assert_eq!(board.remove_pending_request(2), Some("b"));
    assert_eq!(board.remove_pending_request(2), None);
    assert_eq!(board.response_arrived(9, 99), None);
    assert_eq!(board.remove_loose_response(9), Some(99));
    assert_eq!(board.remove_loose_response(9), None);
    assert_eq!(board.prune_pending_requests(), 2);
    assert_eq!(board.prune_pending_requests(), 0);
    assert!(!board.is_pending(1));
}

#[test]
fn client_promises_resolve_with_their_own_responses() {
    let mut client: Client<u32, String> = Client::new();
    let mut promise_a = client.call(5);
    let mut promise_b = client.call(6);
    let requests = client.take_requests();
    assert_eq!(requests.len(), 2);
    assert!(client.take_requests().is_empty());
    let mut seq: i64 = 10;
    for (request, sender) in requests {
        assert_eq!(request as i64 + 5, seq);
        assert_eq!(client.request_sent(Ok(seq), sender), Ok(()));
        seq += 1;
    }
    assert_eq!(promise_a.try_recv(), Ok(None));
    assert_eq!(client.response_taken(Ok(("for six".to_string(), 11))), Ok(()));
    assert_eq!(promise_b.try_recv(), Ok(Some("for six".to_string())));
    assert_eq!(promise_a.try_recv(), Ok(None));
    assert_eq!(client.response_taken(Err(RclrsError::TakeFailed)), Ok(()));
    assert_eq!(client.response_taken(Ok(("for five".to_string(), 10))), Ok(()));
    assert_eq!(promise_a.try_recv(), Ok(Some("for five".to_string())));
}

#[test]
fn client_early_response_and_failed_send() {
    let mut client: Client<u32, i32> = Client::new();
    let mut early = client.call(1);
    let mut failing = client.call(2);
    assert_eq!(client.response_taken(Ok((77, 4))), Ok(()));
    let mut requests = client.take_requests();
    let (_, failing_sender) = requests.pop().unwrap();
    let (_, early_sender) = requests.pop().unwrap();
    assert_eq!(client.request_sent(Ok(4), early_sender), Ok(()));
    assert_eq!(early.try_recv(), Ok(Some(77)));
    let err = RclrsError::Middleware { code: 5 };
    assert_eq!(client.request_sent(Err(err.clone()), failing_sender), Err(err));
    assert!(failing.try_recv().is_err());
}

fn assert_send<T: Send>() {}

fn assert_sync<T: Sync>() {}

#[test]
fn traits() {
    assert_send::<Client<Vec<u8>, Vec<u8>>>();
    assert_sync::<Client<Vec<u8>, Vec<u8>>>();
}

#[test]
fn interleaved_calls_on_several_sequences_resolve_each_once() {
    let mut board: ClientRequestBoard<char, u32> = ClientRequestBoard::new();
    let mut delivered = Vec::new();
    delivered.extend(board.new_request(1, 'a'));
    delivered.extend(board.response_arrived(2, 20));
    delivered.extend(board.new_request(3, 'c'));
    delivered.extend(board.response_arrived(1, 10));
    delivered.extend(board.response_arrived(3, 30));
    delivered.extend(board.new_request(2, 'b'));
    assert_eq!(delivered, vec![('a', 10), ('c', 30), ('b', 20)]);
    for seq in 1..=3 {
        assert!(!board.is_pending(seq));
        assert!(!board.has_loose_response(seq));
    }
}

#[test]
fn oldest_loose_responses_are_evicted_first() {
    let mut board: ClientRequestBoard<&str, u32> = ClientRequestBoard::new();
    assert_eq!(board.response_arrived(30, 3), None);
    assert_eq!(board.response_arrived(10, 1), None);
    assert_eq!(board.response_arrived(20, 2), None);
    assert_eq!(board.new_request(5, "waiting"), None);
    // A second response for the same number does not move it in the order.
    assert_eq!(board.response_arrived(30, 4), None);
    assert_eq!(board.evict_loose_responses(5), 0);
    assert_eq!(board.evict_loose_responses(1), 2);
    assert!(!board.has_loose_response(30));
    assert!(!board.has_loose_response(10));
    assert!(board.has_loose_response(20));
    assert!(board.is_pending(5));
    assert_eq!(board.new_request(20, "late"), Some(("late", 2)));
    assert_eq!(board.response_arrived(40, 4), None);
    assert_eq!(board.remove_loose_response(40), Some(4));
    assert_eq!(board.evict_loose_responses(0), 0);
    assert_eq!(board.new_request(30, "lost"), None);
    assert!(board.is_pending(30));
}

#[test]
fn eviction_to_zero_drops_every_loose_response() {
    let mut board: ClientRequestBoard<&str, u32> = ClientRequestBoard::new();
    for seq in 0..4 {
        assert_eq!(board.response_arrived(seq, seq as u32), None);
    }
    assert_eq!(board.evict_loose_responses(0), 4);
    for seq in 0..4 {
        assert!(!board.has_loose_response(seq));
    }
}
