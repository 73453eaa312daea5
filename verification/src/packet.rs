//! Session packets on the unreliable channel, and the count of the bytes that pass through it.

use vstd::prelude::*;

verus! {

/// A message of a GGRS session, carried through unread.
#[verifier::external_type_specification]
#[verifier::external_body]
pub struct ExMessage(ggrs::Message);

/// The bytes that `postcard::to_stdvec` writes for a session message.
pub uninterp spec fn packet_bytes(message: ggrs::Message) -> Seq<u8>;

/// The session message that `postcard::from_bytes` reads from a packet, if it can.
pub uninterp spec fn packet_message(packet: Seq<u8>) -> Option<ggrs::Message>;

/// Calls `postcard::to_stdvec` on a session message, whose serialization is derived and never
/// fails. Claimed: the bytes depend on the message alone, and reading them gives it back.
#[verifier::external_body]
fn encode_packet(message: &ggrs::Message) -> (encoded: Vec<u8>)
    ensures
        encoded@ == packet_bytes(*message),
        packet_message(encoded@) == Some(*message),
{
    postcard::to_stdvec(message).expect("serialization failed")
}

/// Calls `postcard::from_bytes` for a session message. Claimed: what comes out depends on the
/// bytes alone.
#[verifier::external_body]
fn decode_packet(packet: &Vec<u8>) -> (decoded: Option<ggrs::Message>)
    ensures
        decoded == packet_message(packet@),
{
    postcard::from_bytes::<ggrs::Message>(packet).ok()
}

/// Those of the messages that are there, each with its sender, in their order.
pub open spec fn present<P, M>(decoded: Seq<(P, Option<M>)>) -> Seq<(P, M)>
    decreases decoded.len(),
{
    if decoded.len() == 0 {
        Seq::empty()
    } else {
        let before = present(decoded.drop_last());
        match decoded.last().1 {
            Some(message) => before.push((decoded.last().0, message)),
            None => before,
        }
    }
}

/// What reading each packet gives.
pub open spec fn decoded<P>(received: Seq<(P, Vec<u8>)>) -> Seq<(P, Option<ggrs::Message>)> {
    received.map_values(|p: (P, Vec<u8>)| (p.0, packet_message(p.1@)))
}

/// The messages of those packets that can be read, each with its sender, in the order of arrival.
pub open spec fn readable<P>(received: Seq<(P, Vec<u8>)>) -> Seq<(P, ggrs::Message)> {
    present(decoded(received))
}

/// Messages that were encoded for sending all come out of the packets that carry them, in order
/// and with their senders.
pub proof fn law_packets_arrive<P>(received: Seq<(P, Vec<u8>)>, messages: Seq<ggrs::Message>)
    requires
        received.len() == messages.len(),
        forall|i: int|
            0 <= i < received.len() ==> packet_message((#[trigger] received[i]).1@) == Some(
                messages[i],
            ),
    ensures
        readable(received) == Seq::new(
            received.len(),
            |i: int| (received[i].0, messages[i]),
        ),
    decreases received.len(),
{
    let all = decoded(received);
    if received.len() > 0 {
        let last = received.len() - 1;
        let before = received.drop_last();
        assert forall|i: int| 0 <= i < before.len() implies packet_message(
            (#[trigger] before[i]).1@,
        ) == Some(messages.drop_last()[i]) by {
            assert(before[i] == received[i]);
        }
        law_packets_arrive(before, messages.drop_last());
        assert(all.drop_last() =~= decoded(before));
        assert(received[last] == received.last());
    }
    assert(readable(received) =~= Seq::new(received.len(), |i: int| (received[i].0, messages[i])));
}

/// Leaves out those who sent no message.
pub fn keep_present<P, M>(decoded: Vec<(P, Option<M>)>) -> (out: Vec<(P, M)>)
    ensures
        out@ == present(decoded@),
        out@ == decoded@.filter(|e: (P, Option<M>)| e.1 is Some).map_values(
            |e: (P, Option<M>)| (e.0, e.1->0),
        ),
{
    proof {
        law_present_are_kept(decoded@);
    }
    let mut out: Vec<(P, M)> = Vec::with_capacity(decoded.len());
    assert(decoded@.take(0) =~= Seq::empty());
    for entry in it: decoded
        invariant
            out@ == present(it.seq().take(it.index() as int)),
    {
        assert(it.seq().take(it.index() + 1).drop_last() =~= it.seq().take(it.index() as int));
        if let (peer, Some(message)) = entry {
            out.push((peer, message));
        }
    }
    assert(decoded@.take(decoded@.len() as int) =~= decoded@);
    out
}

/// The number of bytes in all packets together.
pub open spec fn byte_total<P>(received: Seq<(P, Vec<u8>)>) -> nat
    decreases received.len(),
{
    if received.len() == 0 {
        0
    } else {
        byte_total(received.drop_last()) + received.last().1@.len()
    }
}

/// The byte counters of the channel that carries the session's input traffic. They run on at
/// zero after the largest 64-bit number.
pub struct MatchboxChannel {
    pub bytes_sent: u64,
    pub bytes_recv: u64,
}

impl MatchboxChannel {
    /// A channel over which nothing has passed yet.
    pub fn new() -> (channel: MatchboxChannel)
        ensures
            channel.bytes_sent == 0,
            channel.bytes_recv == 0,
    {
        MatchboxChannel { bytes_sent: 0, bytes_recv: 0 }
    }

    /// Encodes a session message for sending and counts its bytes.
    pub fn send_to(&mut self, message: &ggrs::Message) -> (encoded: Vec<u8>)
        ensures
            encoded@ == packet_bytes(*message),
            packet_message(encoded@) == Some(*message),
            final(self).bytes_sent == (old(self).bytes_sent + encoded@.len())
                % 0x1_0000_0000_0000_0000,
            final(self).bytes_recv == old(self).bytes_recv,
    {
        let encoded = encode_packet(message);
        self.bytes_sent = self.bytes_sent.wrapping_add(encoded.len() as u64);
        encoded
    }

    /// Counts the bytes of every packet and hands out the messages of those that can be read.
    pub fn receive_all_messages<P: Copy>(&mut self, received: &Vec<(P, Vec<u8>)>) -> (out: Vec<
        (P, ggrs::Message),
    >)
        ensures
            out@ == readable(received@),
            final(self).bytes_recv == (old(self).bytes_recv + byte_total(received@))
                % 0x1_0000_0000_0000_0000,
            final(self).bytes_sent == old(self).bytes_sent,
    {
        let mut read: Vec<(P, Option<ggrs::Message>)> = Vec::with_capacity(received.len());
        let mut i: usize = 0;
        assert(received@.take(0) =~= Seq::<(P, Vec<u8>)>::empty());
        while i < received.len()
            invariant
                i <= received@.len(),
                read@ == decoded(received@.take(i as int)),
                self.bytes_recv == (old(self).bytes_recv + byte_total(received@.take(i as int)))
                    % 0x1_0000_0000_0000_0000,
                self.bytes_sent == old(self).bytes_sent,
            decreases received@.len() - i,
        {
            assert(received@.take(i + 1).drop_last() =~= received@.take(i as int));
            let packet = &received[i].1;
            self.bytes_recv = self.bytes_recv.wrapping_add(packet.len() as u64);
            read.push((received[i].0, decode_packet(packet)));
            i = i + 1;
            assert(read@ =~= decoded(received@.take(i as int)));
        }
        assert(received@.take(i as int) =~= received@);
        keep_present(read)
    }
}

/// Of the senders those with a message are kept, all of them, each with its message, in order.
pub proof fn law_present_are_kept<P, M>(decoded: Seq<(P, Option<M>)>)
    ensures
        present(decoded) == decoded.filter(|e: (P, Option<M>)| e.1 is Some).map_values(
            |e: (P, Option<M>)| (e.0, e.1->0),
        ),
    decreases decoded.len(),
{
    reveal(Seq::filter);
    if decoded.len() > 0 {
        law_present_are_kept(decoded.drop_last());
    }
    assert(present(decoded) =~= decoded.filter(|e: (P, Option<M>)| e.1 is Some).map_values(
        |e: (P, Option<M>)| (e.0, e.1->0),
    ));
}

/// Every packet is read, and keeps its sender.
pub proof fn law_every_packet_is_read<P>(received: Seq<(P, Vec<u8>)>)
    ensures
        decoded(received).len() == received.len(),
        forall|i: int|
            0 <= i < received.len() ==> #[trigger] decoded(received)[i] == (
                received[i].0,
                packet_message(received[i].1@),
            ),
        readable(received) == decoded(received).filter(
            |e: (P, Option<ggrs::Message>)| e.1 is Some,
        ).map_values(|e: (P, Option<ggrs::Message>)| (e.0, e.1->0)),
{
    law_present_are_kept(decoded(received));
}

/// All bytes are counted, whether the packet can be read or not: packets in two goes count as they
/// do in one, and one packet counts as its length.
pub proof fn law_every_byte_is_counted<P>(
    first: Seq<(P, Vec<u8>)>,
    second: Seq<(P, Vec<u8>)>,
    one: (P, Vec<u8>),
)
    ensures
        byte_total(Seq::<(P, Vec<u8>)>::empty()) == 0,
        byte_total(seq![one]) == one.1@.len(),
        byte_total(first + second) == byte_total(first) + byte_total(second),
    decreases second.len(),
{
    reveal_with_fuel(byte_total, 2);
    assert(seq![one].drop_last() =~= Seq::<(P, Vec<u8>)>::empty());
    if second.len() == 0 {
        assert(first + second =~= first);
    } else {
        law_every_byte_is_counted(first, second.drop_last(), one);
        assert((first + second).drop_last() =~= first + second.drop_last());
    }
}

} // verus!
