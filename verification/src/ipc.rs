//! Inter-process messages.
//!
//! A message is an eight-byte header followed by its payload:
//! bytes `0..4` hold the sender's process id and bytes `4..8` the message
//! type, both little-endian; the payload follows from byte 8 on. A message
//! is at most [`MAX_MESSAGE_LEN`] bytes long. The host moves the bytes from
//! process to process; this module frames them and reads them back.
use vstd::prelude::*;
use crate::bytes::{le_u32_at, u32_le, u32_to_le, u32_from_le, lemma_u32_le_roundtrip, lemma_le_u32_bytes};

verus! {

/// A ping request.
pub const MSG_TYPE_PING: u32 = 1;
/// The answer to a ping.
pub const MSG_TYPE_PONG: u32 = 2;
/// A message that carries data.
pub const MSG_TYPE_DATA: u32 = 3;
/// A request to exit.
pub const MSG_TYPE_EXIT: u32 = 0xFF;

/// The length of a message header in bytes.
pub const HEADER_LEN: usize = 8;
/// The largest message, header included, in bytes.
pub const MAX_MESSAGE_LEN: usize = 256;

/// The header of a message.
#[derive(Clone, Copy, Debug, PartialEq, Eq, Structural)]
pub struct MessageHeader {
    pub sender_pid: u32,
    pub msg_type: u32,
}

/// The eight bytes that encode `h`.
pub open spec fn header_bytes(h: MessageHeader) -> Seq<u8> {
    u32_le(h.sender_pid) + u32_le(h.msg_type)
}

/// The header that the first eight bytes of `b` encode.
pub open spec fn header_of(b: Seq<u8>) -> MessageHeader {
    MessageHeader { sender_pid: le_u32_at(b, 0), msg_type: le_u32_at(b, 4) }
}

impl MessageHeader {
    /// A header from its two fields.
    pub fn new(sender_pid: u32, msg_type: u32) -> (h: Self)
        ensures
            h.sender_pid == sender_pid,
            h.msg_type == msg_type,
    {
        Self { sender_pid, msg_type }
    }

    /// The eight bytes of this header.
    pub fn to_bytes(&self) -> (buf: [u8; 8])
        ensures
            buf@ == header_bytes(*self),
    {
        let s = u32_to_le(self.sender_pid);
        let t = u32_to_le(self.msg_type);
        let buf = [s[0], s[1], s[2], s[3], t[0], t[1], t[2], t[3]];
        assert(buf@ =~= header_bytes(*self));
        buf
    }

    /// The header encoded by the first eight bytes of `data`.
    pub fn from_bytes(data: &[u8]) -> (h: Self)
        requires
            data@.len() >= 8,
        ensures
            h == header_of(data@),
    {
        Self { sender_pid: u32_from_le(data, 0), msg_type: u32_from_le(data, 4) }
    }
}

/// Decoding the bytes of a header gives the header back.
pub proof fn lemma_header_roundtrip(h: MessageHeader)
    ensures
        header_bytes(h).len() == HEADER_LEN,
        header_of(header_bytes(h)) == h,
{
    lemma_u32_le_roundtrip(h.sender_pid);
    lemma_u32_le_roundtrip(h.msg_type);
    let b = header_bytes(h);
    assert(b.subrange(0, 4) =~= u32_le(h.sender_pid));
    assert(b.subrange(4, 8) =~= u32_le(h.msg_type));
    assert(le_u32_at(b, 0) == le_u32_at(u32_le(h.sender_pid), 0));
    assert(le_u32_at(b, 4) == le_u32_at(u32_le(h.msg_type), 0));
}

/// Encoding the header read from eight bytes gives those bytes back.
pub proof fn lemma_header_bytes_roundtrip(b: Seq<u8>)
    requires
        b.len() >= HEADER_LEN,
    ensures
        header_bytes(header_of(b)) == b.take(8),
{
    lemma_le_u32_bytes(b[0], b[1], b[2], b[3]);
    lemma_le_u32_bytes(b[4], b[5], b[6], b[7]);
    assert(le_u32_at(b, 0) == le_u32_at(seq![b[0], b[1], b[2], b[3]], 0));
    assert(le_u32_at(b, 4) == le_u32_at(seq![b[4], b[5], b[6], b[7]], 0));
    assert(header_bytes(header_of(b)) =~= b.take(8));
}

/// The message that `sender_pid` sends with type `msg_type` and `payload`:
/// `None` when header and payload together exceed [`MAX_MESSAGE_LEN`].
pub open spec fn message_frame(sender_pid: u32, msg_type: u32, payload: Seq<u8>) -> Option<Seq<u8>> {
    if HEADER_LEN + payload.len() > MAX_MESSAGE_LEN {
        None
    } else {
        Some(header_bytes(MessageHeader { sender_pid, msg_type }) + payload)
    }
}

/// What a receiver learns from `buf` after the host has put `n` bytes
/// in it: nothing when `n` is shorter than a header, else the header and
/// the payload's length.
pub open spec fn received(buf: Seq<u8>, n: nat) -> Option<(MessageHeader, nat)> {
    if n < HEADER_LEN {
        None
    } else {
        Some((header_of(buf), (n - HEADER_LEN) as nat))
    }
}

/// The receive buffer once the payload of an `n`-byte message has been
/// moved to its front; the bytes after the payload stay as they were.
pub open spec fn received_buffer(buf: Seq<u8>, n: nat) -> Seq<u8> {
    if n < HEADER_LEN {
        buf
    } else {
        buf.subrange(HEADER_LEN as int, n as int) + buf.skip(n - HEADER_LEN)
    }
}

/// The payload of the self-test: the bytes of `"Ping"`.
pub open spec fn ping_payload() -> Seq<u8> {
    seq![0x50u8, 0x69u8, 0x6eu8, 0x67u8]
}

/// The unit that groups the message operations.
pub struct Ipc;

/// What the driver of the self-test reports back to [`Ipc::self_test`].
pub enum SelfTestEvent {
    /// The test begins.
    Start,
    /// The ping was handed to the host, which accepted it or not.
    SendDone { delivered: bool },
    /// A receive returned: `reply` is what [`Ipc::unpack_received`] made of
    /// the buffer, and `buf` the buffer afterwards.
    ReceiveDone { reply: Option<(MessageHeader, usize)>, buf: Vec<u8> },
}

/// What the self-test asks its driver to do next.
pub enum SelfTestAction {
    /// Send `payload` as a message of type `msg_type` from `sender_pid` to `target_pid`.
    Send { target_pid: u32, sender_pid: u32, msg_type: u32, payload: Vec<u8> },
    /// Receive a message for `pid` into a buffer of `buf_len` bytes.
    Receive { pid: u32, buf_len: usize },
    /// The test is over.
    Finish(SelfTestResult),
}

/// How the self-test ended.
#[derive(Clone, Copy, Debug, PartialEq, Eq, Structural)]
pub enum SelfTestResult {
    /// The host refused the ping.
    SendFailed,
    /// The ping came back as sent.
    Passed,
    /// A message came back, but not the ping.
    UnexpectedContent,
    /// No message came back.
    NoMessage,
}

/// The bytes of `"Ping"`.
fn ping_bytes() -> (v: Vec<u8>)
    ensures
        v@ == ping_payload(),
{
    let v = vec![0x50u8, 0x69u8, 0x6eu8, 0x67u8];
    assert(v@ =~= ping_payload());
    v
}

impl Ipc {
    /// The bytes of the message that `sender_pid` sends with type
    /// `msg_type` and `payload`, or `None` when it would be longer than
    /// [`MAX_MESSAGE_LEN`] bytes.
    pub fn frame_message(sender_pid: u32, msg_type: u32, payload: &[u8]) -> (r: Option<Vec<u8>>)
        ensures
            r matches Some(m) ==> message_frame(sender_pid, msg_type, payload@) == Some(m@),
            r is None <==> message_frame(sender_pid, msg_type, payload@) is None,
    {
        let header = MessageHeader::new(sender_pid, msg_type);
        let header_bytes = header.to_bytes();
        if payload.len() > MAX_MESSAGE_LEN - HEADER_LEN {
            return None;
        }
        let mut msg: Vec<u8> = Vec::new();
        let mut i: usize = 0;
        while i < HEADER_LEN
            invariant
                i <= HEADER_LEN,
                header_bytes@.len() == HEADER_LEN,
                msg@ == header_bytes@.take(i as int),
            decreases HEADER_LEN - i,
        {
            msg.push(header_bytes[i]);
            i = i + 1;
            assert(msg@ =~= header_bytes@.take(i as int));
        }
        let mut j: usize = 0;
        while j < payload.len()
            invariant
                j <= payload@.len(),
                header_bytes@.len() == HEADER_LEN,
                msg@ == header_bytes@ + payload@.take(j as int),
            decreases payload@.len() - j,
        {
            msg.push(payload[j]);
            j = j + 1;
            assert(msg@ =~= header_bytes@ + payload@.take(j as int));
        }
        assert(payload@.take(j as int) =~= payload@);
        Some(msg)
    }

    /// Reads a message that the host put in `buf`, `bytes_read` bytes
    /// long: `None` when it is shorter than a header; else its header and
    /// the length of its payload, which is moved to the front of `buf`.
    pub fn unpack_received(buf: &mut [u8], bytes_read: u32) -> (r: Option<(MessageHeader, usize)>)
        requires
            bytes_read < HEADER_LEN || bytes_read <= old(buf)@.len(),
        ensures
            r matches Some((h, n)) ==> received(old(buf)@, bytes_read as nat) == Some((h, n as nat)),
            r is None <==> received(old(buf)@, bytes_read as nat) is None,
            final(buf)@ == received_buffer(old(buf)@, bytes_read as nat),
    {
        if bytes_read < 8 {
            return None;
        }
        let header = MessageHeader::from_bytes(buf);
        let payload_len: usize = bytes_read as usize - HEADER_LEN;
        let ghost old_buf = buf@;
        let mut i: usize = 0;
        while i < payload_len
            invariant
                i <= payload_len,
                payload_len + HEADER_LEN == bytes_read,
                bytes_read <= old_buf.len(),
                buf@.len() == old_buf.len(),
                forall|k: int| 0 <= k < i ==> buf@[k] == old_buf[k + HEADER_LEN],
                forall|k: int| i <= k < buf@.len() ==> buf@[k] == old_buf[k],
            decreases payload_len - i,
        {
            let b = buf[i + HEADER_LEN];
            buf[i] = b;
            i = i + 1;
        }
        assert(buf@ =~= received_buffer(old_buf, bytes_read as nat));
        Some((header, payload_len))
    }

    /// One step of the loopback self-test: given what just happened, what
    /// to do next. The test sends `"Ping"` as a [`MSG_TYPE_PING`] message
    /// from process 0 to process 0, receives into a buffer of
    /// [`MAX_MESSAGE_LEN`] bytes, and passes when a ping with that payload
    /// comes back.
    pub fn self_test(event: SelfTestEvent) -> (action: SelfTestAction)
        requires
            event matches SelfTestEvent::ReceiveDone { reply: Some((h, n)), buf } ==> n <= buf@.len(),
        ensures
            event is Start ==> (action matches SelfTestAction::Send { target_pid, sender_pid, msg_type, payload }
                && target_pid == 0 && sender_pid == 0 && msg_type == MSG_TYPE_PING && payload@ == ping_payload()),
            event matches SelfTestEvent::SendDone { delivered } ==> (if delivered {
                action matches SelfTestAction::Receive { pid, buf_len } && pid == 0 && buf_len == MAX_MESSAGE_LEN
            } else {
                action == SelfTestAction::Finish(SelfTestResult::SendFailed)
            }),
            event matches SelfTestEvent::ReceiveDone { reply: None, buf } ==> action
                == SelfTestAction::Finish(SelfTestResult::NoMessage),
            event matches SelfTestEvent::ReceiveDone { reply: Some((h, n)), buf } ==> action
                == SelfTestAction::Finish(
                if h.msg_type == MSG_TYPE_PING && buf@.take(n as int) == ping_payload() {
                    SelfTestResult::Passed
                } else {
                    SelfTestResult::UnexpectedContent
                },
            ),
    {
        match event {
            SelfTestEvent::Start => SelfTestAction::Send {
                target_pid: 0,
                sender_pid: 0,
                msg_type: MSG_TYPE_PING,
                payload: ping_bytes(),
            },
            SelfTestEvent::SendDone { delivered } => {
                if delivered {
                    SelfTestAction::Receive { pid: 0, buf_len: MAX_MESSAGE_LEN }
                } else {
                    SelfTestAction::Finish(SelfTestResult::SendFailed)
                }
            },
            SelfTestEvent::ReceiveDone { reply, buf } => match reply {
                None => SelfTestAction::Finish(SelfTestResult::NoMessage),
                Some((h, n)) => {
                    let ping = ping_bytes();
                    let same = Self::bytes_equal(&buf, n, &ping);
                    if h.msg_type == MSG_TYPE_PING && same {
                        SelfTestAction::Finish(SelfTestResult::Passed)
                    } else {
                        SelfTestAction::Finish(SelfTestResult::UnexpectedContent)
                    }
                },
            },
        }
    }

    /// Whether the first `n` bytes of `a` are exactly `b`.
    fn bytes_equal(a: &Vec<u8>, n: usize, b: &Vec<u8>) -> (eq: bool)
        requires
            n <= a@.len(),
        ensures
            eq == (a@.take(n as int) == b@),
    {
        if n != b.len() {
            proof {
                assert(a@.take(n as int).len() != b@.len());
            }
            return false;
        }
        let mut i: usize = 0;
        while i < n
            invariant
                i <= n,
                n <= a@.len(),
                n == b@.len(),
                forall|k: int| 0 <= k < i ==> a@[k] == b@[k],
            decreases n - i,
        {
            if a[i] != b[i] {
                assert(a@.take(n as int)[i as int] != b@[i as int]);
                return false;
            }
            i = i + 1;
        }
        assert(a@.take(n as int) =~= b@);
        true
    }
}

/// A message framed for sending and put unchanged into a receive buffer
/// reads back as the header and payload it was framed from.
pub proof fn lemma_frame_then_receive(sender_pid: u32, msg_type: u32, payload: Seq<u8>, buf: Seq<u8>)
    requires
        message_frame(sender_pid, msg_type, payload) is Some,
        buf.len() >= message_frame(sender_pid, msg_type, payload)->0.len(),
        buf.take(message_frame(sender_pid, msg_type, payload)->0.len() as int)
            == message_frame(sender_pid, msg_type, payload)->0,
    ensures
        ({
            let m = message_frame(sender_pid, msg_type, payload)->0;
            &&& received(buf, m.len()) == Some((MessageHeader { sender_pid, msg_type }, payload.len()))
            &&& received_buffer(buf, m.len()).take(payload.len() as int) == payload
        }),
{
    let h = MessageHeader { sender_pid, msg_type };
    let m = message_frame(sender_pid, msg_type, payload)->0;
    lemma_header_roundtrip(h);
    assert(m.len() == HEADER_LEN + payload.len());
    assert(le_u32_at(buf, 0) == le_u32_at(m, 0));
    assert(le_u32_at(buf, 4) == le_u32_at(m, 4));
    assert(le_u32_at(m, 0) == le_u32_at(header_bytes(h), 0));
    assert(le_u32_at(m, 4) == le_u32_at(header_bytes(h), 4));
    assert forall|k: int| 0 <= k < payload.len() implies buf[k + HEADER_LEN] == payload[k] by {
        assert(buf.take(m.len() as int)[k + HEADER_LEN] == m[k + HEADER_LEN]);
    }
    assert(received_buffer(buf, m.len()).take(payload.len() as int) =~= payload);
}

/// When the host hands the self-test's ping back unchanged, the reply
/// reads as a ping from process 0 that carries `"Ping"`: the case in which
/// [`Ipc::self_test`] reports [`SelfTestResult::Passed`].
pub proof fn lemma_ping_loopback(buf: Seq<u8>)
    requires
        message_frame(0, MSG_TYPE_PING, ping_payload()) is Some,
        buf.len() >= HEADER_LEN + 4,
        buf.take(HEADER_LEN + 4) == message_frame(0, MSG_TYPE_PING, ping_payload())->0,
    ensures
        received(buf, (HEADER_LEN + 4) as nat) == Some((MessageHeader { sender_pid: 0, msg_type: MSG_TYPE_PING }, 4nat)),
        received_buffer(buf, (HEADER_LEN + 4) as nat).take(4) == ping_payload(),
{
    lemma_frame_then_receive(0, MSG_TYPE_PING, ping_payload(), buf);
}

/// What a receiver makes of the bytes the host wrote: nothing, and the
/// buffer untouched, when fewer than eight bytes arrived; otherwise the
/// sender and type read little-endian from bytes 0..4 and 4..8, a payload
/// of all the bytes after the header, moved to the front of the buffer
/// with the bytes after it left as they were.
pub proof fn lemma_received_cases(buf: Seq<u8>, n: nat)
    ensures
        n < 8 ==> received(buf, n) is None && received_buffer(buf, n) == buf,
        n >= 8 ==> received(buf, n) == Some(
            (
                MessageHeader {
                    sender_pid: (buf[0] + 256 * buf[1] + 65536 * buf[2] + 16777216 * buf[3]) as u32,
                    msg_type: (buf[4] + 256 * buf[5] + 65536 * buf[6] + 16777216 * buf[7]) as u32,
                },
                (n - 8) as nat,
            ),
        ),
        8 <= n <= buf.len() ==> received_buffer(buf, n).len() == buf.len(),
        8 <= n <= buf.len() ==> forall|k: int| 0 <= k < n - 8 ==> #[trigger] received_buffer(buf, n)[k] == buf[k + 8],
        8 <= n <= buf.len() ==> forall|k: int| n - 8 <= k < buf.len() ==> #[trigger] received_buffer(buf, n)[k] == buf[k],
{
}

/// Any sender and any message type can be framed; a message is refused
/// exactly when its payload is longer than 248 bytes. A framed message is
/// the sender's id and the type, each as four little-endian bytes,
/// followed by the payload.
pub proof fn lemma_frame_cases(sender_pid: u32, msg_type: u32, payload: Seq<u8>)
    ensures
        (message_frame(sender_pid, msg_type, payload) is Some) <==> payload.len() <= 248,
        payload.len() <= 248 ==> ({
            let m = message_frame(sender_pid, msg_type, payload)->0;
            &&& m.len() == 8 + payload.len()
            &&& m[0] + 256 * m[1] + 65536 * m[2] + 16777216 * m[3] == sender_pid
            &&& m[4] + 256 * m[5] + 65536 * m[6] + 16777216 * m[7] == msg_type
            &&& forall|k: int| 0 <= k < payload.len() ==> #[trigger] m[8 + k] == payload[k]
        }),
{
    if payload.len() <= 248 {
        let m = message_frame(sender_pid, msg_type, payload)->0;
        lemma_u32_le_roundtrip(sender_pid);
        lemma_u32_le_roundtrip(msg_type);
        let a = u32_le(sender_pid);
        let t = u32_le(msg_type);
        assert(m[0] == a[0] && m[1] == a[1] && m[2] == a[2] && m[3] == a[3]);
        assert(m[4] == t[0] && m[5] == t[1] && m[6] == t[2] && m[7] == t[3]);
        assert forall|k: int| 0 <= k < payload.len() implies #[trigger] m[8 + k] == payload[k] by {}
    }
}

} // verus!
