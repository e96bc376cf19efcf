use nostd_async::sync::mpmc::{Buffer, ReceivePoll, SendPoll};

#[test]
fn a_waiting_send_hands_its_value_to_a_receive() {
    let mut buffer: Buffer<&str, u32> = Buffer::new();
    let send = buffer.send("hello");
    let receive = buffer.receive();

    match buffer.poll_send(&send, || 1) {
        SendPoll::Pending(None) => {}
        _ => panic!("the send should wait, with no receive to wake"),
    }
    match buffer.poll_receive(&receive, || 2) {
        ReceivePoll::Ready(value, waker) => {
            assert_eq!(value, "hello");
            assert_eq!(waker, 1);
        }
        ReceivePoll::Pending => panic!("the receive should take the waiting value"),
    }
    assert!(matches!(buffer.poll_send(&send, || 3), SendPoll::Ready));
}

#[test]
fn a_waiting_receive_is_woken_by_a_send() {
    let mut buffer: Buffer<u64, u32> = Buffer::new();
    let receive = buffer.receive();
    assert!(matches!(buffer.poll_receive(&receive, || 10), ReceivePoll::Pending));

    let send = buffer.send(42);
    match buffer.poll_send(&send, || 20) {
        SendPoll::Pending(Some(waker)) => assert_eq!(waker, 10),
        _ => panic!("the send should wait and hand back the receive's waker"),
    }
    // The waker of the receive was taken: a second send poll wakes nobody.
    assert!(matches!(buffer.poll_send(&send, || 21), SendPoll::Pending(None)));

    match buffer.poll_receive(&receive, || 11) {
        ReceivePoll::Ready(value, waker) => {
            assert_eq!(value, 42);
            assert_eq!(waker, 21);
        }
        ReceivePoll::Pending => panic!("the value should be there"),
    }
    assert!(matches!(buffer.poll_send(&send, || 22), SendPoll::Ready));
}

#[test]
fn sends_are_received_in_the_order_they_waited() {
    let mut buffer: Buffer<u8, u8> = Buffer::new();
    let first = buffer.send(1);
    let second = buffer.send(2);
    let third = buffer.send(3);
    buffer.poll_send(&second, || 0);
    buffer.poll_send(&first, || 0);
    buffer.poll_send(&third, || 0);
    buffer.poll_send(&second, || 0);

    let receive = buffer.receive();
    let mut got = Vec::new();
    for _ in 0..3 {
        match buffer.poll_receive(&receive, || 9) {
            ReceivePoll::Ready(value, _) => got.push(value),
            ReceivePoll::Pending => panic!("a send waits"),
        }
    }
    assert_eq!(got, vec![2, 1, 3]);
    assert!(matches!(buffer.poll_receive(&receive, || 9), ReceivePoll::Pending));
}

#[test]
fn a_dropped_send_leaves_the_queue() {
    let mut buffer: Buffer<u8, u8> = Buffer::new();
    let send = buffer.send(5);
    buffer.poll_send(&send, || 1);
    buffer.drop_send(send);
    let receive = buffer.receive();
    assert!(matches!(buffer.poll_receive(&receive, || 2), ReceivePoll::Pending));
}

#[test]
fn a_dropped_receive_is_not_woken() {
    let mut buffer: Buffer<u8, u8> = Buffer::new();
    let gone = buffer.receive();
    assert!(matches!(buffer.poll_receive(&gone, || 1), ReceivePoll::Pending));
    let waiting = buffer.receive();
    assert!(matches!(buffer.poll_receive(&waiting, || 2), ReceivePoll::Pending));
    buffer.drop_receive(gone);

    let send = buffer.send(9);
    match buffer.poll_send(&send, || 3) {
        SendPoll::Pending(Some(waker)) => assert_eq!(waker, 2),
        _ => panic!("the waiting receive should be woken"),
    }
}

#[test]
fn an_unpolled_send_is_not_received() {
    let mut buffer: Buffer<u8, u8> = Buffer::new();
    let _send = buffer.send(1);
    let receive = buffer.receive();
    assert!(matches!(buffer.poll_receive(&receive, || 0), ReceivePoll::Pending));
}

#[test]
fn handles_belong_to_their_buffer() {
    let mut one: Buffer<u8, u8> = Buffer::with_identity(1);
    let mut other: Buffer<u8, u8> = Buffer::with_identity(2);
    let send = one.send(1);
    let receive = one.receive();
    assert!(one.owns_send(&send));
    assert!(one.owns_receive(&receive));
    assert!(!other.owns_send(&send));
    assert!(!other.owns_receive(&receive));
    // The other buffer gets a send and a receive of the same numbers; the
    // handles of the first buffer are still not its own.
    let other_send = other.send(2);
    let other_receive = other.receive();
    assert!(!other.owns_send(&send));
    assert!(!other.owns_receive(&receive));
    assert!(other.owns_send(&other_send));
    assert!(other.owns_receive(&other_receive));
}

#[test]
fn a_dropped_handle_is_no_longer_owned() {
    let mut buffer: Buffer<u8, u8> = Buffer::default();
    let send = buffer.send(1);
    let receive = buffer.receive();
    let send_twin = buffer.send(2);
    buffer.drop_send(send);
    buffer.drop_receive(receive);
    assert!(buffer.owns_send(&send_twin));
    let again = buffer.send(3);
    assert!(buffer.owns_send(&again));
    assert!(buffer.can_send());
    assert!(buffer.can_receive());
}

#[test]
fn the_number_of_a_dropped_send_is_given_again() {
    let mut buffer: Buffer<u8, u8> = Buffer::new();
    let first = buffer.send(1);
    let second = buffer.send(2);
    assert_eq!(buffer.send_count(), 2);
    buffer.poll_send(&first, || 0);
    buffer.poll_send(&second, || 0);
    buffer.drop_send(first);

    let third = buffer.send(3);
    assert_eq!(buffer.send_count(), 2);
    assert!(buffer.owns_send(&third));
    buffer.poll_send(&third, || 0);

    let receive = buffer.receive();
    let mut got = Vec::new();
    for _ in 0..2 {
        match buffer.poll_receive(&receive, || 9) {
            ReceivePoll::Ready(value, _) => got.push(value),
            ReceivePoll::Pending => panic!("a send waits"),
        }
    }
    assert_eq!(got, vec![2, 3]);
}

#[test]
fn the_number_of_a_dropped_receive_is_given_again() {
    let mut buffer: Buffer<u8, u8> = Buffer::new();
    let first = buffer.receive();
    assert!(matches!(buffer.poll_receive(&first, || 1), ReceivePoll::Pending));
    buffer.drop_receive(first);
    assert_eq!(buffer.receive_count(), 1);
    let again = buffer.receive();
    assert_eq!(buffer.receive_count(), 1);

    // The reused receive does not wait until it is polled.
    let send = buffer.send(4);
    assert!(matches!(buffer.poll_send(&send, || 2), SendPoll::Pending(None)));
    match buffer.poll_receive(&again, || 3) {
        ReceivePoll::Ready(value, waker) => {
            assert_eq!(value, 4);
            assert_eq!(waker, 2);
        }
        ReceivePoll::Pending => panic!("the send waits"),
    }
}

#[test]
fn a_waker_is_made_only_for_waiting() {
    let mut buffer: Buffer<u8, u8> = Buffer::new();
    let send = buffer.send(6);
    buffer.poll_send(&send, || 1);
    let receive = buffer.receive();
    let made_waker = || -> u8 { panic!("no waker is needed when the value is there") };
    match buffer.poll_receive(&receive, made_waker) {
        ReceivePoll::Ready(value, _) => assert_eq!(value, 6),
        ReceivePoll::Pending => panic!("a send waits"),
    }
    let done_waker = || -> u8 { panic!("no waker is needed for a completed send") };
    assert!(matches!(buffer.poll_send(&send, done_waker), SendPoll::Ready));
}

#[test]
fn a_receive_polled_twice_waits_once() {
    let mut buffer: Buffer<u8, u8> = Buffer::new();
    let receive = buffer.receive();
    assert!(matches!(buffer.poll_receive(&receive, || 1), ReceivePoll::Pending));
    assert!(matches!(buffer.poll_receive(&receive, || 2), ReceivePoll::Pending));

    let send = buffer.send(8);
    match buffer.poll_send(&send, || 3) {
        SendPoll::Pending(Some(waker)) => assert_eq!(waker, 2),
        _ => panic!("the receive waits with its latest waker"),
    }
    match buffer.poll_receive(&receive, || 4) {
        ReceivePoll::Ready(value, _) => assert_eq!(value, 8),
        ReceivePoll::Pending => panic!("the send waits"),
    }
    // The receive left the queue once and for all.
    let later = buffer.send(9);
    assert!(matches!(buffer.poll_send(&later, || 5), SendPoll::Pending(None)));
}
