use terminus::ipc::{
    Ipc, MessageHeader, SelfTestAction, SelfTestEvent, SelfTestResult, MAX_MESSAGE_LEN, MSG_TYPE_DATA, MSG_TYPE_PING,
    MSG_TYPE_PONG,
};

#[test]
fn header_new_keeps_fields() {
    let h = MessageHeader::new(7, MSG_TYPE_PONG);
    assert_eq!(h.sender_pid, 7);
    assert_eq!(h.msg_type, 2);
}

#[test]
fn header_to_bytes_is_little_endian() {
    let h = MessageHeader::new(0x0102_0304, 0xFF);
    assert_eq!(h.to_bytes(), [0x04, 0x03, 0x02, 0x01, 0xFF, 0x00, 0x00, 0x00]);
}

#[test]
fn header_from_bytes_reads_first_eight() {
    let data = [0x10, 0x00, 0x00, 0x00, 0x03, 0x00, 0x00, 0x00, 0xAA, 0xBB];
    let h = MessageHeader::from_bytes(&data);
    assert_eq!(h, MessageHeader::new(16, MSG_TYPE_DATA));
}

#[test]
fn header_roundtrip() {
    for (pid, ty) in [(0u32, 0u32), (1, 1), (u32::MAX, 0xFF), (0xDEAD_BEEF, 0x1234_5678)] {
        let h = MessageHeader::new(pid, ty);
        assert_eq!(MessageHeader::from_bytes(&h.to_bytes()), h);
    }
}

#[test]
fn header_bytes_roundtrip() {
    let bytes = [9u8, 8, 7, 6, 5, 4, 3, 2];
    assert_eq!(MessageHeader::from_bytes(&bytes).to_bytes(), bytes);
}

#[test]
fn frame_ping_message() {
    let m = Ipc::frame_message(5, MSG_TYPE_PING, b"Ping").unwrap();
    assert_eq!(m, vec![5, 0, 0, 0, 1, 0, 0, 0, b'P', b'i', b'n', b'g']);
}

#[test]
fn frame_largest_message() {
    let payload = vec![0xAB; MAX_MESSAGE_LEN - 8];
    let m = Ipc::frame_message(1, MSG_TYPE_DATA, &payload).unwrap();
    assert_eq!(m.len(), MAX_MESSAGE_LEN);
    assert_eq!(&m[8..], &payload[..]);
}

#[test]
fn frame_too_large_message() {
    let payload = vec![0u8; MAX_MESSAGE_LEN - 7];
    assert_eq!(Ipc::frame_message(1, MSG_TYPE_DATA, &payload), None);
}

#[test]
fn frame_empty_payload() {
    let m = Ipc::frame_message(2, MSG_TYPE_PONG, &[]).unwrap();
    assert_eq!(m, vec![2, 0, 0, 0, 2, 0, 0, 0]);
}

#[test]
fn unpack_short_message_is_nothing() {
    let mut buf = [1u8, 2, 3, 4, 5, 6, 7, 8, 9];
    assert_eq!(Ipc::unpack_received(&mut buf, 7), None);
    assert_eq!(buf, [1, 2, 3, 4, 5, 6, 7, 8, 9]);
}

#[test]
fn unpack_moves_payload_to_front() {
    let mut buf = [3u8, 0, 0, 0, 3, 0, 0, 0, b'a', b'b', b'c', 0xEE, 0xEE];
    let r = Ipc::unpack_received(&mut buf, 11);
    assert_eq!(r, Some((MessageHeader::new(3, MSG_TYPE_DATA), 3)));
    assert_eq!(buf, [b'a', b'b', b'c', 0, 3, 0, 0, 0, b'a', b'b', b'c', 0xEE, 0xEE]);
}

#[test]
fn unpack_header_only() {
    let mut buf = [4u8, 0, 0, 0, 2, 0, 0, 0];
    assert_eq!(Ipc::unpack_received(&mut buf, 8), Some((MessageHeader::new(4, MSG_TYPE_PONG), 0)));
    assert_eq!(buf, [4, 0, 0, 0, 2, 0, 0, 0]);
}

#[test]
fn frame_then_unpack_gives_message_back() {
    let payload = b"hello, kernel";
    let m = Ipc::frame_message(42, MSG_TYPE_DATA, payload).unwrap();
    let mut buf = [0u8; MAX_MESSAGE_LEN];
    buf[..m.len()].copy_from_slice(&m);
    let (h, n) = Ipc::unpack_received(&mut buf, m.len() as u32).unwrap();
    assert_eq!(h, MessageHeader::new(42, MSG_TYPE_DATA));
    assert_eq!(&buf[..n], &payload[..]);
}

#[test]
fn self_test_starts_by_sending_ping() {
    match Ipc::self_test(SelfTestEvent::Start) {
        SelfTestAction::Send { target_pid, sender_pid, msg_type, payload } => {
            assert_eq!(target_pid, 0);
            assert_eq!(sender_pid, 0);
            assert_eq!(msg_type, MSG_TYPE_PING);
            assert_eq!(payload, b"Ping".to_vec());
        },
        _ => panic!("the self-test must send first"),
    }
}

#[test]
fn self_test_fails_when_send_fails() {
    assert!(matches!(
        Ipc::self_test(SelfTestEvent::SendDone { delivered: false }),
        SelfTestAction::Finish(SelfTestResult::SendFailed)
    ));
}

#[test]
fn self_test_receives_after_send() {
    assert!(matches!(
        Ipc::self_test(SelfTestEvent::SendDone { delivered: true }),
        SelfTestAction::Receive { pid: 0, buf_len: 256 }
    ));
}

#[test]
fn self_test_no_message() {
    assert!(matches!(
        Ipc::self_test(SelfTestEvent::ReceiveDone { reply: None, buf: vec![0; 256] }),
        SelfTestAction::Finish(SelfTestResult::NoMessage)
    ));
}

#[test]
fn self_test_passes_on_loopback() {
    let m = Ipc::frame_message(0, MSG_TYPE_PING, b"Ping").unwrap();
    let mut buf = vec![0u8; 256];
    buf[..m.len()].copy_from_slice(&m);
    let reply = Ipc::unpack_received(&mut buf, m.len() as u32);
    assert!(matches!(
        Ipc::self_test(SelfTestEvent::ReceiveDone { reply, buf }),
        SelfTestAction::Finish(SelfTestResult::Passed)
    ));
}

#[test]
fn self_test_rejects_wrong_type() {
    let mut buf = b"Ping".to_vec();
    buf.resize(256, 0);
    let reply = Some((MessageHeader::new(0, MSG_TYPE_PONG), 4));
    assert!(matches!(
        Ipc::self_test(SelfTestEvent::ReceiveDone { reply, buf }),
        SelfTestAction::Finish(SelfTestResult::UnexpectedContent)
    ));
}

#[test]
fn self_test_rejects_wrong_payload() {
    let mut buf = b"Pong".to_vec();
    buf.resize(256, 0);
    let reply = Some((MessageHeader::new(0, MSG_TYPE_PING), 4));
    assert!(matches!(
        Ipc::self_test(SelfTestEvent::ReceiveDone { reply, buf }),
        SelfTestAction::Finish(SelfTestResult::UnexpectedContent)
    ));
}

#[test]
fn self_test_rejects_longer_payload() {
    let mut buf = b"Ping!".to_vec();
    buf.resize(256, 0);
    let reply = Some((MessageHeader::new(0, MSG_TYPE_PING), 5));
    assert!(matches!(
        Ipc::self_test(SelfTestEvent::ReceiveDone { reply, buf }),
        SelfTestAction::Finish(SelfTestResult::UnexpectedContent)
    ));
}
