use command_relay::protocol::Command;
use command_relay::registry::Registry;
use command_relay::session::ReceiverSession;
use command_relay::session::SenderEvent;
use command_relay::session::SenderSession;
use command_relay::session::receiver_handshake;

#[test]
fn handshake_accepts_bind() {
    let r = receiver_handshake(Some("{\"EstablishConnection\":\"abc123\"}"));
    assert_eq!(r, Some(String::from("abc123")));
}

#[test]
fn handshake_rejects_fire() {
    assert_eq!(receiver_handshake(Some("\"Fire\"")), None);
}

#[test]
fn handshake_rejects_malformed() {
    assert_eq!(receiver_handshake(Some("hello")), None);
}

#[test]
fn handshake_rejects_missing_frame() {
    assert_eq!(receiver_handshake(None), None);
}

#[test]
fn fire_routes_to_registered_receiver() {
    // Receiver connects and binds "abc123"; sender binds the same key and
    // fires; the receiver's queue holds exactly one fire.
    let mut reg = Registry::new();
    let key = receiver_handshake(Some("{\"EstablishConnection\":\"abc123\"}")).unwrap();
    let (_session, mut rx) = ReceiverSession::open(&mut reg, key, 1);
    let mut sender = SenderSession::new();
    assert_eq!(
        sender.handle_message(&reg, "{\"EstablishConnection\":\"abc123\"}"),
        SenderEvent::Bound
    );
    assert_eq!(sender.handle_message(&reg, "\"Fire\""), SenderEvent::Delivered(1));
    assert_eq!(rx.try_recv(), Ok(Command::Fire));
    assert!(rx.try_recv().is_err());
}

#[test]
fn fire_without_bind_is_noop() {
    // A fire with no prior bind: no delivery, no error, the session goes on.
    let mut reg = Registry::new();
    let (_session, mut rx) = ReceiverSession::open(&mut reg, String::from("abc123"), 1);
    let mut sender = SenderSession::new();
    assert_eq!(sender.handle_message(&reg, "\"Fire\""), SenderEvent::NoReceiver);
    assert!(rx.try_recv().is_err());
}

#[test]
fn fire_with_no_receiver_is_noop() {
    let reg = Registry::new();
    let mut sender = SenderSession::new();
    assert_eq!(
        sender.handle_message(&reg, "{\"EstablishConnection\":\"k\"}"),
        SenderEvent::Bound
    );
    assert_eq!(sender.handle_message(&reg, "\"Fire\""), SenderEvent::NoReceiver);
}

#[test]
fn replaced_receiver_survives_stale_cleanup() {
    // R1 binds "k" and disconnects after R2 re-bound "k": R1's teardown must
    // not erase R2's registration, and the fire must reach R2 alone.
    let mut reg = Registry::new();
    let (r1, mut rx1) = ReceiverSession::open(&mut reg, String::from("k"), 1);
    let (_r2, mut rx2) = ReceiverSession::open(&mut reg, String::from("k"), 2);
    r1.close(&mut reg);
    let mut sender = SenderSession::new();
    sender.handle_message(&reg, "{\"EstablishConnection\":\"k\"}");
    assert_eq!(sender.handle_message(&reg, "\"Fire\""), SenderEvent::Delivered(2));
    assert_eq!(rx2.try_recv(), Ok(Command::Fire));
    assert!(rx1.try_recv().is_err());
}

#[test]
fn disconnected_receiver_then_fresh_one() {
    // R1 binds "k" and disconnects; R2 then binds "k"; the fire reaches R2.
    let mut reg = Registry::new();
    let (r1, _rx1) = ReceiverSession::open(&mut reg, String::from("k"), 1);
    r1.close(&mut reg);
    let (_r2, mut rx2) = ReceiverSession::open(&mut reg, String::from("k"), 2);
    let mut sender = SenderSession::new();
    sender.handle_message(&reg, "{\"EstablishConnection\":\"k\"}");
    assert_eq!(sender.handle_message(&reg, "\"Fire\""), SenderEvent::Delivered(2));
    assert_eq!(rx2.try_recv(), Ok(Command::Fire));
}

#[test]
fn malformed_message_keeps_session_open() {
    // A malformed message mid-session is discarded; a later well-formed
    // fire still routes correctly.
    let mut reg = Registry::new();
    let (_session, mut rx) = ReceiverSession::open(&mut reg, String::from("k"), 1);
    let mut sender = SenderSession::new();
    sender.handle_message(&reg, "{\"EstablishConnection\":\"k\"}");
    assert_eq!(sender.handle_message(&reg, "{oops"), SenderEvent::BadMessage);
    assert_eq!(sender.handle_message(&reg, "\"Fire\""), SenderEvent::Delivered(1));
    assert_eq!(rx.try_recv(), Ok(Command::Fire));
}

#[test]
fn rebind_targets_latest_key_only() {
    // Only the most recent bind before a fire determines its target.
    let mut reg = Registry::new();
    let (_ra, mut rx_a) = ReceiverSession::open(&mut reg, String::from("a"), 1);
    let (_rb, mut rx_b) = ReceiverSession::open(&mut reg, String::from("b"), 2);
    let mut sender = SenderSession::new();
    sender.handle_message(&reg, "{\"EstablishConnection\":\"a\"}");
    sender.handle_message(&reg, "{\"EstablishConnection\":\"b\"}");
    assert_eq!(sender.handle_message(&reg, "\"Fire\""), SenderEvent::Delivered(2));
    assert_eq!(rx_b.try_recv(), Ok(Command::Fire));
    assert!(rx_a.try_recv().is_err());
}

#[test]
fn delivery_failure_when_receiver_queue_gone() {
    let mut reg = Registry::new();
    let (_session, rx) = ReceiverSession::open(&mut reg, String::from("k"), 1);
    drop(rx);
    let mut sender = SenderSession::new();
    sender.handle_message(&reg, "{\"EstablishConnection\":\"k\"}");
    assert_eq!(sender.handle_message(&reg, "\"Fire\""), SenderEvent::DeliveryFailed(1));
}

#[test]
fn receiver_close_removes_registration() {
    let mut reg = Registry::new();
    let (session, _rx) = ReceiverSession::open(&mut reg, String::from("k"), 1);
    session.close(&mut reg);
    assert!(reg.lookup(&String::from("k")).is_none());
}
