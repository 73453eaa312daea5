//! What peers and the signaling server say to each other.

use crate::peer::PeerId;
use axum::extract::ws::Message;
use matchbox_protocol::JsonPeerEvent;
use matchbox_signaling::common_logic;
use uuid::Uuid;
use vstd::arithmetic::div_mod::lemma_div_denominator;
use vstd::arithmetic::power::{lemma_pow_positive, pow};
use vstd::prelude::*;

verus! {

/// A JSON value, carried through unread.
#[verifier::external_type_specification]
#[verifier::external_body]
pub struct ExValue(serde_json::Value);

/// What the server tells a peer.
pub enum PeerEvent {
    /// Another peer has come into the room.
    NewPeer(PeerId),
    /// Another peer has left.
    PeerLeft(PeerId),
    /// Another peer sends this.
    Signal { sender: PeerId, data: serde_json::Value },
}

/// What a peer asks of the server.
pub enum PeerRequest {
    /// Pass this on to another peer.
    Signal { receiver: PeerId, data: serde_json::Value },
    /// Nothing, but do not take the connection for dead.
    KeepAlive,
}

/// Why a request could not be read.
#[derive(Clone, Copy, Debug, PartialEq, Eq, Structural)]
pub enum ClientRequestError {
    /// The connection has failed.
    Axum,
    /// The peer has closed the connection.
    Close,
    /// The text is no request.
    Json,
    /// It is no text.
    UnsupportedType,
}

/// What comes over the websocket of a peer.
pub enum SocketFrame {
    Text(String),
    /// Bytes, or a sign of life of the websocket itself.
    Other,
    Close,
    /// The connection has failed.
    Failed,
}

/// The hexadecimal digit `d`.
pub open spec fn hex_digit(d: nat) -> char {
    if d < 10 {
        (('0' as u32) + d) as char
    } else {
        (('a' as u32) + d - 10) as char
    }
}

/// The `len` low hexadecimal digits of `n`, most significant first.
pub open spec fn hex(n: nat, len: nat) -> Seq<char>
    decreases len,
{
    if len == 0 {
        Seq::empty()
    } else {
        hex(n / 16, (len - 1) as nat).push(hex_digit(n % 16))
    }
}

/// A UUID in its usual form: 8, 4, 4, 4 and 12 hexadecimal digits with hyphens between them.
pub open spec fn uuid_text(id: PeerId) -> Seq<char> {
    let digits = hex(id as nat, 32);
    digits.subrange(0, 8) + seq!['-'] + digits.subrange(8, 12) + seq!['-'] + digits.subrange(12, 16)
        + seq!['-'] + digits.subrange(16, 20) + seq!['-'] + digits.subrange(20, 32)
}

/// The text that `serde_json` writes for a JSON value.
pub uninterp spec fn json_text(data: serde_json::Value) -> Seq<char>;

/// The text of an event; `data_text` is that of the data of a signal.
pub open spec fn event_wording(event: PeerEvent, data_text: Seq<char>) -> Seq<char> {
    match event {
        PeerEvent::NewPeer(peer) => "{\"NewPeer\":\""@ + uuid_text(peer) + "\"}"@,
        PeerEvent::PeerLeft(peer) => "{\"PeerLeft\":\""@ + uuid_text(peer) + "\"}"@,
        PeerEvent::Signal { sender, .. } => "{\"Signal\":{\"sender\":\""@ + uuid_text(sender)
            + "\",\"data\":"@ + data_text + "}}"@,
    }
}

/// The request that a text makes, if it makes one.
pub uninterp spec fn request_in(text: Seq<char>) -> Option<PeerRequest>;

/// Calls `to_string` of `matchbox_protocol::JsonPeerEvent`, which writes JSON without spaces.
/// Claimed: an event is an object of one entry, named after its kind; peers are written as
/// hyphenated lower-case UUIDs, and the data of a signal as `serde_json` writes it.
#[verifier::external_body]
pub(crate) fn event_text(event: PeerEvent) -> (text: String)
    ensures
        match event {
            PeerEvent::Signal { data, .. } => text@ == event_wording(event, json_text(data)),
            _ => text@ == event_wording(event, Seq::empty()),
        },
{
    match event {
        PeerEvent::NewPeer(peer) => JsonPeerEvent::NewPeer(Uuid::from_u128(peer).into()),
        PeerEvent::PeerLeft(peer) => JsonPeerEvent::PeerLeft(Uuid::from_u128(peer).into()),
        PeerEvent::Signal { sender, data } => {
            JsonPeerEvent::Signal { sender: Uuid::from_u128(sender).into(), data }
        },
    }.to_string()
}

/// Calls `matchbox_signaling::common_logic::parse_request` on a text message. Claimed: the request
/// depends on the text alone; where the text is no request in JSON, none comes out.
#[verifier::external_body]
fn parse_text(text: &str) -> (request: Option<PeerRequest>)
    ensures
        request == request_in(text@),
{
    match common_logic::parse_request(Ok(Message::Text(text.into()))) {
        Ok(matchbox_protocol::PeerRequest::Signal { receiver, data }) => {
            Some(PeerRequest::Signal { receiver: receiver.0.as_u128(), data })
        },
        Ok(matchbox_protocol::PeerRequest::KeepAlive) => Some(PeerRequest::KeepAlive),
        Err(_) => None,
    }
}

/// What reading a frame gives, if `request` is what its text makes.
pub open spec fn request_of(
    frame: SocketFrame,
    request: Option<PeerRequest>,
) -> Result<PeerRequest, ClientRequestError> {
    match frame {
        SocketFrame::Text(_) => match request {
            Some(request) => Ok(request),
            None => Err(ClientRequestError::Json),
        },
        SocketFrame::Other => Err(ClientRequestError::UnsupportedType),
        SocketFrame::Close => Err(ClientRequestError::Close),
        SocketFrame::Failed => Err(ClientRequestError::Axum),
    }
}

/// The request that the text of a frame makes; frames of another kind make none.
pub open spec fn frame_request(frame: SocketFrame) -> Option<PeerRequest> {
    match frame {
        SocketFrame::Text(text) => request_in(text@),
        _ => None,
    }
}

/// Says what a frame gives, where `request` is what its text makes.
pub fn classify(frame: &SocketFrame, request: Option<PeerRequest>) -> (out: Result<
    PeerRequest,
    ClientRequestError,
>)
    ensures
        out == request_of(*frame, request),
        *frame is Close ==> out == Err::<PeerRequest, _>(ClientRequestError::Close),
        *frame is Failed ==> out == Err::<PeerRequest, _>(ClientRequestError::Axum),
        *frame is Other ==> out == Err::<PeerRequest, _>(ClientRequestError::UnsupportedType),
        *frame is Text ==> match request {
            Some(request) => out == Ok::<_, ClientRequestError>(request),
            None => out == Err::<PeerRequest, _>(ClientRequestError::Json),
        },
{
    match frame {
        SocketFrame::Text(_) => match request {
            Some(request) => Ok(request),
            None => Err(ClientRequestError::Json),
        },
        SocketFrame::Other => Err(ClientRequestError::UnsupportedType),
        SocketFrame::Close => Err(ClientRequestError::Close),
        SocketFrame::Failed => Err(ClientRequestError::Axum),
    }
}

/// Reads a request; only texts in JSON are requests.
pub fn parse_request(frame: &SocketFrame) -> (request: Result<PeerRequest, ClientRequestError>)
    ensures
        request == request_of(*frame, frame_request(*frame)),
        *frame is Close ==> request == Err::<PeerRequest, _>(ClientRequestError::Close),
        *frame is Failed ==> request == Err::<PeerRequest, _>(ClientRequestError::Axum),
        *frame is Other ==> request == Err::<PeerRequest, _>(ClientRequestError::UnsupportedType),
        *frame matches SocketFrame::Text(text) ==> match request_in(text@) {
            Some(made) => request == Ok::<_, ClientRequestError>(made),
            None => request == Err::<PeerRequest, _>(ClientRequestError::Json),
        },
{
    let request = match frame {
        SocketFrame::Text(text) => parse_text(text.as_str()),
        _ => None,
    };
    classify(frame, request)
}

/// The kind of a frame decides what it gives: only a text can be a request, and a text that makes
/// one is that request.
pub proof fn law_only_texts_are_requests(frame: SocketFrame, request: Option<PeerRequest>)
    ensures
        request_of(frame, request) is Ok <==> frame is Text && request is Some,
        request_of(frame, request) is Ok ==> request_of(frame, request)->Ok_0 == request->0,
        frame is Text && request is None ==> request_of(frame, request) == Err::<PeerRequest, _>(
            ClientRequestError::Json,
        ),
        frame is Other ==> request_of(frame, request) == Err::<PeerRequest, _>(
            ClientRequestError::UnsupportedType,
        ),
        frame is Close ==> request_of(frame, request) == Err::<PeerRequest, _>(
            ClientRequestError::Close,
        ),
        frame is Failed ==> request_of(frame, request) == Err::<PeerRequest, _>(
            ClientRequestError::Axum,
        ),
        frame matches SocketFrame::Text(text) ==> frame_request(frame) == request_in(text@),
{
}

proof fn lemma_hex_len(n: nat, len: nat)
    ensures
        hex(n, len).len() == len,
    decreases len,
{
    if len > 0 {
        lemma_hex_len(n / 16, (len - 1) as nat);
    }
}

/// Each hexadecimal digit of a number is the digit of its place.
pub proof fn law_hex_digits(n: nat, len: nat, i: int)
    requires
        0 <= i < len,
    ensures
        hex(n, len).len() == len,
        ({
            let d = (n as int / pow(16, (len - 1 - i) as nat)) % 16;
            let c = hex(n, len)[i] as int;
            c == (if d < 10 {
                '0' as int + d
            } else {
                'a' as int + d - 10
            })
        }),
    decreases len,
{
    lemma_hex_len(n, len);
    lemma_hex_len(n / 16, (len - 1) as nat);
    reveal(pow);
    if i < len - 1 {
        law_hex_digits(n / 16, (len - 1) as nat, i);
        let e = (len - 2 - i) as nat;
        lemma_pow_positive(16, e);
        lemma_div_denominator(n as int, 16, pow(16, e));
        assert(pow(16, (len - 1 - i) as nat) == 16 * pow(16, e));
    }
}

proof fn lemma_hex_injective(a: nat, b: nat, len: nat)
    requires
        a < pow(16, len),
        b < pow(16, len),
        hex(a, len) == hex(b, len),
    ensures
        a == b,
    decreases len,
{
    reveal(pow);
    if len > 0 {
        let x = hex(a / 16, (len - 1) as nat);
        let y = hex(b / 16, (len - 1) as nat);
        assert(hex(a, len).drop_last() =~= x);
        assert(hex(b, len).drop_last() =~= y);
        assert(hex(a, len).last() == hex_digit(a % 16));
        assert(hex(b, len).last() == hex_digit(b % 16));
        assert(hex_digit(a % 16) as int == hex_digit(b % 16) as int);
        assert(a % 16 == b % 16);
        lemma_hex_injective(a / 16, b / 16, (len - 1) as nat);
    }
}

/// A peer is written in 32 hexadecimal digits with hyphens at their places, and no two peers are
/// written alike.
pub proof fn law_peers_are_told_apart(a: PeerId, b: PeerId)
    ensures
        uuid_text(a).len() == 36,
        uuid_text(a)[8] == '-',
        uuid_text(a)[13] == '-',
        uuid_text(a)[18] == '-',
        uuid_text(a)[23] == '-',
        uuid_text(a).subrange(0, 8) + uuid_text(a).subrange(9, 13) + uuid_text(a).subrange(14, 18)
            + uuid_text(a).subrange(19, 23) + uuid_text(a).subrange(24, 36) == hex(a as nat, 32),
        uuid_text(a) == uuid_text(b) ==> a == b,
{
    lemma_hex_len(a as nat, 32);
    lemma_hex_len(b as nat, 32);
    assert(uuid_text(a).subrange(0, 8) + uuid_text(a).subrange(9, 13) + uuid_text(a).subrange(
        14,
        18,
    ) + uuid_text(a).subrange(19, 23) + uuid_text(a).subrange(24, 36) =~= hex(a as nat, 32));
    assert(uuid_text(b).subrange(0, 8) + uuid_text(b).subrange(9, 13) + uuid_text(b).subrange(
        14,
        18,
    ) + uuid_text(b).subrange(19, 23) + uuid_text(b).subrange(24, 36) =~= hex(b as nat, 32));
    if uuid_text(a) == uuid_text(b) {
        assert(pow(16, 32) == 0x1_0000_0000_0000_0000 * 0x1_0000_0000_0000_0000) by {
            reveal_with_fuel(pow, 33);
        }
        lemma_hex_injective(a as nat, b as nat, 32);
    }
}

proof fn lemma_middle_injective(x: Seq<char>, a: PeerId, b: PeerId, y: Seq<char>, z: Seq<char>)
    requires
        x + uuid_text(a) + y == x + uuid_text(b) + z,
    ensures
        a == b,
{
    law_peers_are_told_apart(a, b);
    law_peers_are_told_apart(b, a);
    let s = x + uuid_text(a) + y;
    let t = x + uuid_text(b) + z;
    let n = x.len() as int;
    assert(s.subrange(n, n + 36) =~= uuid_text(a));
    assert(t.subrange(n, n + 36) =~= uuid_text(b));
}

/// An event tells which peer it is about: that of another peer reads otherwise.
pub proof fn law_event_tells_who(a: PeerId, b: PeerId, data: serde_json::Value, text: Seq<char>)
    ensures
        event_wording(PeerEvent::NewPeer(a), text) == event_wording(PeerEvent::NewPeer(b), text)
            ==> a == b,
        event_wording(PeerEvent::PeerLeft(a), text) == event_wording(PeerEvent::PeerLeft(b), text)
            ==> a == b,
        event_wording(PeerEvent::Signal { sender: a, data }, text) == event_wording(
            PeerEvent::Signal { sender: b, data },
            text,
        ) ==> a == b,
{
    if event_wording(PeerEvent::NewPeer(a), text) == event_wording(PeerEvent::NewPeer(b), text) {
        lemma_middle_injective("{\"NewPeer\":\""@, a, b, "\"}"@, "\"}"@);
    }
    if event_wording(PeerEvent::PeerLeft(a), text) == event_wording(PeerEvent::PeerLeft(b), text) {
        lemma_middle_injective("{\"PeerLeft\":\""@, a, b, "\"}"@, "\"}"@);
    }
    let head = "{\"Signal\":{\"sender\":\""@;
    let tail = "\",\"data\":"@ + text + "}}"@;
    let x = event_wording(PeerEvent::Signal { sender: a, data }, text);
    let y = event_wording(PeerEvent::Signal { sender: b, data }, text);
    assert(x =~= head + uuid_text(a) + tail);
    assert(y =~= head + uuid_text(b) + tail);
    if x == y {
        lemma_middle_injective(head, a, b, tail, tail);
    }
}

/// A signal carries its data: it is what stands between the name of the sender and the end.
pub proof fn law_signal_carries_data(sender: PeerId, data: serde_json::Value, text: Seq<char>)
    ensures
        ({
            let whole = event_wording(PeerEvent::Signal { sender, data }, text);
            let head = "{\"Signal\":{\"sender\":\""@.len() + 36 + "\",\"data\":"@.len();
            whole.len() == head + text.len() + "}}"@.len() && whole.subrange(
                head as int,
                (head + text.len()) as int,
            ) == text
        }),
{
    law_peers_are_told_apart(sender, sender);
    let whole = event_wording(PeerEvent::Signal { sender, data }, text);
    let head = "{\"Signal\":{\"sender\":\""@.len() + 36 + "\",\"data\":"@.len();
    assert(whole.subrange(head as int, (head + text.len()) as int) =~= text);
}

/// The three events are worded apart: none reads like one of another kind.
pub proof fn law_events_are_told_apart(
    a: PeerId,
    b: PeerId,
    c: PeerId,
    data: serde_json::Value,
    text: Seq<char>,
)
    ensures
        ({
            let came = event_wording(PeerEvent::NewPeer(a), text);
            let left = event_wording(PeerEvent::PeerLeft(b), text);
            let signal = event_wording(PeerEvent::Signal { sender: c, data }, text);
            &&& came.len() > 2 && came[2] == 'N'
            &&& left.len() > 2 && left[2] == 'P'
            &&& signal.len() > 2 && signal[2] == 'S'
        }),
{
    reveal_strlit("{\"NewPeer\":\"");
    reveal_strlit("{\"PeerLeft\":\"");
    reveal_strlit("{\"Signal\":{\"sender\":\"");
}

} // verus!
