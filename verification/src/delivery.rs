//! What a message that is sent leads to where it arrives.

use crate::bytes::{
    be_bytes, be_value, joined, law_big_endian_round_trip, law_piece_sizes, law_pieces_join,
    lemma_pow256_values, twos_complement,
};
use crate::mailbox::{
    be_usize, chunk_taken, delay_effects, delivered, law_delay_is_set_for_all, lemma_delivered_stops,
    message_taken, waiting, without, Delivery,
    Effect, Mailbox, ReceiveStep,
};
use crate::notice::Notice;
use crate::outbox::{addressed, message_pieces, outgoing, sent, CHUNK_SIZE};
use crate::peer::PeerId;
use crate::wire::{
    law_incomplete_message_unreadable, law_message_round_trip, message_bytes,
};
use vstd::prelude::*;
use vstd::utf8::encode_utf8;

verus! {

/// The byte strings of the packets for one peer, in the order in which they are sent.
pub open spec fn arriving(packets: Seq<(PeerId, Seq<u8>)>, peer: PeerId) -> Seq<Seq<u8>>
    decreases packets.len(),
{
    if packets.len() == 0 {
        Seq::empty()
    } else {
        let before = arriving(packets.drop_last(), peer);
        if packets.last().0 == peer {
            before.push(packets.last().1)
        } else {
            before
        }
    }
}

/// A message that a machine can hold.
pub open spec fn holdable(name: Seq<char>, data: Seq<u8>) -> bool {
    &&& encode_utf8(name).len() <= usize::MAX
    &&& data.len() <= usize::MAX
}

/// A mailbox between two calls: nothing in it waits to be followed.
pub open spec fn settled(m: Mailbox) -> bool {
    &&& !m.messages.contains_key("input_delay"@)
    &&& !m.disconnected ==> !m.messages.contains_key("disconnect"@)
}

proof fn lemma_arriving_append(
    a: Seq<(PeerId, Seq<u8>)>,
    b: Seq<(PeerId, Seq<u8>)>,
    peer: PeerId,
)
    ensures
        arriving(a + b, peer) == arriving(a, peer) + arriving(b, peer),
    decreases b.len(),
{
    if b.len() == 0 {
        assert(a + b =~= a);
        assert(arriving(a, peer) + arriving(b, peer) =~= arriving(a, peer));
    } else {
        lemma_arriving_append(a, b.drop_last(), peer);
        assert((a + b).drop_last() =~= a + b.drop_last());
        assert(arriving(a + b, peer) =~= arriving(a, peer) + arriving(b, peer));
    }
}

proof fn lemma_arriving_addressed(to: PeerId, chunks: Seq<Seq<u8>>, peer: PeerId)
    ensures
        arriving(addressed(to, chunks), peer) == (if to == peer {
            chunks
        } else {
            Seq::empty()
        }),
    decreases chunks.len(),
{
    let all = addressed(to, chunks);
    if chunks.len() > 0 {
        lemma_arriving_addressed(to, chunks.drop_last(), peer);
        assert(all.drop_last() =~= addressed(to, chunks.drop_last()));
        assert(chunks =~= chunks.drop_last().push(chunks.last()));
    } else {
        assert(all =~= Seq::empty());
        assert(chunks =~= Seq::empty());
    }
}

/// A peer that stands once in the list gets every byte string once and in order; one that does
/// not stand in it gets nothing.
pub proof fn law_every_peer_gets_all(peers: Seq<PeerId>, chunks: Seq<Seq<u8>>, peer: PeerId)
    requires
        peers.no_duplicates(),
    ensures
        arriving(outgoing(peers, chunks), peer) == (if peers.contains(peer) {
            chunks
        } else {
            Seq::empty()
        }),
    decreases peers.len(),
{
    if peers.len() > 0 {
        let before = peers.drop_last();
        law_every_peer_gets_all(before, chunks, peer);
        lemma_arriving_append(outgoing(before, chunks), addressed(peers.last(), chunks), peer);
        lemma_arriving_addressed(peers.last(), chunks, peer);
        assert(peers =~= before.push(peers.last()));
        if peers.last() == peer {
            assert(!before.contains(peer)) by {
                if before.contains(peer) {
                    let i = choose|i: int| 0 <= i < before.len() && before[i] == peer;
                    assert(peers[i] == peers[peers.len() - 1]);
                }
            }
            assert(peers[peers.len() - 1] == peer);
            assert(Seq::<Seq<u8>>::empty() + chunks =~= chunks);
        } else {
            if peers.contains(peer) {
                let i = choose|i: int| 0 <= i < peers.len() && peers[i] == peer;
                assert(before[i] == peer);
            }
            if before.contains(peer) {
                let i = choose|i: int| 0 <= i < before.len() && before[i] == peer;
                assert(peers[i] == peer);
            }
            assert(arriving(outgoing(before, chunks), peer) + Seq::<Seq<u8>>::empty() =~= arriving(
                outgoing(before, chunks),
                peer,
            ));
        }
    }
}

/// The bytes of the first pieces are the first bytes of them all.
proof fn lemma_joined_split(parts: Seq<Seq<u8>>, k: int)
    requires
        0 <= k <= parts.len(),
    ensures
        joined(parts) == joined(parts.take(k)) + joined(parts.skip(k)),
    decreases parts.len(),
{
    if k == parts.len() {
        assert(parts.take(k) =~= parts);
        assert(parts.skip(k) =~= Seq::empty());
        assert(joined(parts) + joined(parts.skip(k)) =~= joined(parts));
    } else {
        let front = parts.drop_last();
        lemma_joined_split(front, k);
        assert(front.take(k) =~= parts.take(k));
        assert(parts.skip(k).drop_last() =~= front.skip(k));
        assert(parts.skip(k).last() == parts.last());
        assert(joined(parts) =~= joined(parts.take(k)) + joined(parts.skip(k)));
    }
}

/// While pieces of a message are missing, those that have come wait, and nothing else changes.
proof fn lemma_pieces_wait(
    m: Mailbox,
    name: Seq<char>,
    data: Seq<u8>,
    parts: Seq<Seq<u8>>,
    handles: Seq<usize>,
    k: int,
)
    requires
        m.incoming.len() == 0,
        holdable(name, data),
        joined(parts) == message_bytes(name, data),
        0 <= k < parts.len(),
        parts.last().len() > 0,
    ensures
        delivered(m, parts.take(k), handles) == (Delivery {
            mailbox: Mailbox { incoming: joined(parts.take(k)), ..m },
            effects: Seq::empty(),
            malformed: false,
            taken: k as nat,
        }),
    decreases k,
{
    let bytes = message_bytes(name, data);
    if k == 0 {
        assert(parts.take(0) =~= Seq::empty());
        assert(m.incoming =~= Seq::empty());
    } else {
        lemma_pieces_wait(m, name, data, parts, handles, k - 1);
        let now = parts.take(k);
        assert(now.drop_last() =~= parts.take(k - 1));
        assert(now.last() == parts[k - 1]);
        lemma_joined_split(parts, k);
        let rest = parts.skip(k);
        assert(rest.last() == parts.last());
        assert(joined(rest).len() > 0);
        assert(joined(now) =~= bytes.take(joined(now).len() as int));
        law_incomplete_message_unreadable(name, data, joined(now).len() as int);
        assert(joined(now) == joined(parts.take(k - 1)) + parts[k - 1]);
        assert(delivered(m, now, handles).effects =~= Seq::empty());
    }
}

/// A message is taken, whole and once, in whatever pieces its bytes come, one after another, to a
/// machine that holds no part of another message. Empty pieces after it change nothing; after a
/// malformed message they are not looked at.
pub proof fn law_any_pieces_deliver(
    m: Mailbox,
    name: Seq<char>,
    data: Seq<u8>,
    parts: Seq<Seq<u8>>,
    handles: Seq<usize>,
)
    requires
        m.incoming.len() == 0,
        holdable(name, data),
        joined(parts) == message_bytes(name, data),
    ensures
        ({
            let d = delivered(m, parts, handles);
            let message = message_taken(m, name, data, handles);
            &&& d == (Delivery { taken: d.taken, ..message })
            &&& !message.malformed ==> d.taken == parts.len()
            &&& message.malformed ==> {
                &&& 0 < d.taken <= parts.len()
                &&& parts[d.taken - 1].len() > 0
                &&& forall|i: int| d.taken <= i < parts.len() ==> (#[trigger] parts[i]).len() == 0
            }
        }),
    decreases parts.len(),
{
    let bytes = message_bytes(name, data);
    assert(bytes.len() > 0);
    let k = parts.len() - 1;
    let front = parts.drop_last();
    if parts.last().len() > 0 {
        lemma_pieces_wait(m, name, data, parts, handles, k);
        assert(front =~= parts.take(k));
        assert(joined(parts.take(k)) + parts.last() == bytes);
        law_message_round_trip(name, data, Seq::empty());
        assert(bytes + Seq::<u8>::empty() =~= bytes);
        let before = Mailbox { incoming: joined(front), ..m };
        let now = chunk_taken(before, parts.last(), handles);
        assert(now == message_taken(m, name, data, handles));
        assert(Seq::<Effect>::empty() + now.effects =~= now.effects);
    } else {
        assert(joined(parts) =~= joined(front));
        law_any_pieces_deliver(m, name, data, front, handles);
        let before = delivered(m, front, handles);
        if before.malformed {
            assert forall|i: int| before.taken <= i < parts.len() implies (
            #[trigger] parts[i]).len() == 0 by {
                if i < front.len() {
                    assert(front[i].len() == 0);
                }
            }
            assert(parts[before.taken - 1] == front[before.taken - 1]);
        } else {
            law_incomplete_message_unreadable(name, data, 0);
            let none = Seq::<u8>::empty();
            assert(bytes.take(0) =~= none);
            assert(before.mailbox.incoming + parts.last() =~= none);
            let now = chunk_taken(before.mailbox, parts.last(), handles);
            assert(now.mailbox =~= before.mailbox);
            assert(before.effects + now.effects =~= before.effects);
        }
    }
}

/// When all pieces of a message as it is sent have come, one after another, to a machine that holds
/// no part of another message, the message is taken, whole and once.
pub proof fn law_message_delivered(
    m: Mailbox,
    name: Seq<char>,
    data: Seq<u8>,
    handles: Seq<usize>,
)
    requires
        m.incoming.len() == 0,
        holdable(name, data),
    ensures
        delivered(m, message_pieces(name, data), handles) == (Delivery {
            taken: message_pieces(name, data).len(),
            ..message_taken(m, name, data, handles)
        }),
{
    let bytes = message_bytes(name, data);
    assert(bytes.len() > 0);
    law_piece_sizes(bytes, CHUNK_SIZE as nat);
    law_pieces_join(bytes, CHUNK_SIZE as nat);
    law_any_pieces_deliver(m, name, data, message_pieces(name, data), handles);
}

/// Pieces that come in two goes lead to what they lead to in one.
pub proof fn law_delivery_in_two_goes(
    m: Mailbox,
    first: Seq<Seq<u8>>,
    second: Seq<Seq<u8>>,
    handles: Seq<usize>,
)
    requires
        !delivered(m, first, handles).malformed,
    ensures
        ({
            let a = delivered(m, first, handles);
            let b = delivered(a.mailbox, second, handles);
            delivered(m, first + second, handles) == (Delivery {
                mailbox: b.mailbox,
                effects: a.effects + b.effects,
                malformed: b.malformed,
                taken: a.taken + b.taken,
            })
        }),
    decreases second.len(),
{
    let a = delivered(m, first, handles);
    if second.len() == 0 {
        assert(first + second =~= first);
        assert(a.effects + Seq::<Effect>::empty() =~= a.effects);
    } else {
        law_delivery_in_two_goes(m, first, second.drop_last(), handles);
        assert((first + second).drop_last() =~= first + second.drop_last());
        let b = delivered(a.mailbox, second.drop_last(), handles);
        if !b.malformed {
            let now = chunk_taken(b.mailbox, second.last(), handles);
            assert(a.effects + b.effects + now.effects =~= a.effects + (b.effects + now.effects));
        }
    }
}

/// The pieces of messages sent one after another.
pub open spec fn all_pieces(messages: Seq<(Seq<char>, Seq<u8>)>) -> Seq<Seq<u8>>
    decreases messages.len(),
{
    if messages.len() == 0 {
        Seq::empty()
    } else {
        all_pieces(messages.drop_last()) + message_pieces(messages.last().0, messages.last().1)
    }
}

/// The mailbox after these messages have been taken one after another, as long as none of them
/// is malformed.
pub open spec fn all_taken(m: Mailbox, messages: Seq<(Seq<char>, Seq<u8>)>, handles: Seq<usize>) -> Option<
    Mailbox,
>
    decreases messages.len(),
{
    if messages.len() == 0 {
        Some(m)
    } else {
        match all_taken(m, messages.drop_last(), handles) {
            None => None,
            Some(before) => {
                let now = message_taken(before, messages.last().0, messages.last().1, handles);
                if now.malformed {
                    None
                } else {
                    Some(now.mailbox)
                }
            },
        }
    }
}

/// Messages sent one after another are taken one after another, each whole and once.
pub proof fn law_messages_delivered_in_order(
    m: Mailbox,
    messages: Seq<(Seq<char>, Seq<u8>)>,
    handles: Seq<usize>,
)
    requires
        m.incoming.len() == 0,
        forall|i: int|
            0 <= i < messages.len() ==> holdable((#[trigger] messages[i]).0, messages[i].1),
        all_taken(m, messages, handles) is Some,
    ensures
        !delivered(m, all_pieces(messages), handles).malformed,
        delivered(m, all_pieces(messages), handles).mailbox == all_taken(m, messages, handles)->0,
        all_taken(m, messages, handles)->0.incoming.len() == 0,
    decreases messages.len(),
{
    if messages.len() > 0 {
        let before = messages.drop_last();
        assert forall|i: int| 0 <= i < before.len() implies holdable(
            (#[trigger] before[i]).0,
            before[i].1,
        ) by {
            assert(before[i] == messages[i]);
        }
        law_messages_delivered_in_order(m, before, handles);
        let mid = all_taken(m, before, handles)->0;
        let (name, data) = (messages.last().0, messages.last().1);
        assert(messages.last() == messages[messages.len() - 1]);
        law_message_delivered(mid, name, data, handles);
        law_delivery_in_two_goes(m, all_pieces(before), message_pieces(name, data), handles);
    }
}

/// Messages leave a settled mailbox settled, unless a malformed one stops them.
pub proof fn law_mailbox_stays_settled(m: Mailbox, chunks: Seq<Seq<u8>>, handles: Seq<usize>)
    requires
        settled(m),
    ensures
        !delivered(m, chunks, handles).malformed ==> settled(delivered(m, chunks, handles).mailbox),
    decreases chunks.len(),
{
    if chunks.len() > 0 {
        law_mailbox_stays_settled(m, chunks.drop_last(), handles);
    }
}

/// A session that has ended does not begin again, whatever comes.
pub proof fn law_disconnected_stays(m: Mailbox, chunks: Seq<Seq<u8>>, handles: Seq<usize>)
    requires
        m.disconnected,
    ensures
        delivered(m, chunks, handles).mailbox.disconnected,
        !delivered(m, chunks, handles).effects.contains(Effect::Show(Notice::SessionEnded)),
    decreases chunks.len(),
{
    if chunks.len() > 0 {
        let before = delivered(m, chunks.drop_last(), handles);
        law_disconnected_stays(m, chunks.drop_last(), handles);
        if !before.malformed {
            let now = chunk_taken(before.mailbox, chunks.last(), handles);
            let all = before.effects + now.effects;
            assert(!now.effects.contains(Effect::Show(Notice::SessionEnded)));
            assert forall|i: int| 0 <= i < all.len() implies all[i] != Effect::Show(
                Notice::SessionEnded,
            ) by {
                if i < before.effects.len() {
                    assert(before.effects.contains(all[i]));
                } else {
                    assert(now.effects.contains(all[i]));
                }
            }
        }
    }
}

/// What one machine sends under a name that is neither an input delay nor a farewell, every
/// other machine finds in its store under that name; nothing else of its mailbox changes, and
/// the player sees nothing of it.
pub proof fn law_sent_message_is_stored(
    peers: Seq<PeerId>,
    peer: PeerId,
    m: Mailbox,
    name: Seq<char>,
    data: Seq<u8>,
    handles: Seq<usize>,
)
    requires
        peers.no_duplicates(),
        peers.contains(peer),
        m.incoming.len() == 0,
        settled(m),
        holdable(name, data),
        name != "input_delay"@,
        name != "disconnect"@,
    ensures
        ({
            let d = delivered(m, arriving(sent(peers, name, data), peer), handles);
            &&& !d.malformed
            &&& d.effects.len() == 0
            &&& d.mailbox == (Mailbox { messages: m.messages.insert(name, data), ..m })
        }),
{
    law_every_peer_gets_all(peers, message_pieces(name, data), peer);
    law_message_delivered(m, name, data, handles);
    assert(m.incoming =~= Seq::empty());
}

/// Eight big-endian bytes of a number that fits into 64 bits are read as that number.
pub proof fn lemma_eight_bytes(n: nat)
    requires
        n < 0x1_0000_0000_0000_0000,
    ensures
        be_bytes(n, 8).len() == 8,
        be_value(be_bytes(n, 8)) == n,
{
    lemma_pow256_values();
    law_big_endian_round_trip(n, 8);
}

/// What is left of a mailbox once a message has come and has been taken out again is what was
/// there before, but for an older message of that name.
proof fn lemma_taken_again(m: Mailbox, name: Seq<char>, data: Seq<u8>)
    ensures
        without(Mailbox { messages: m.messages.insert(name, data), ..m }, name) == without(m, name),
{
    assert(m.messages.insert(name, data).remove(name) =~= m.messages.remove(name));
}

/// The clock that the host sends is ready on every other machine as soon as all of it has
/// arrived, and it is read there as the time that the host sent.
pub proof fn law_clock_arrives(
    peers: Seq<PeerId>,
    peer: PeerId,
    m: Mailbox,
    handles: Seq<usize>,
    rtc: i64,
    read: i64,
    elapsed_nanos: u128,
)
    requires
        peers.no_duplicates(),
        peers.contains(peer),
        m.incoming.len() == 0,
        settled(m),
    ensures
        ({
            let bytes = be_bytes(twos_complement(rtc), 8);
            let d = delivered(m, arriving(sent(peers, "rtc"@, bytes), peer), handles);
            &&& !d.malformed
            &&& waiting(d.mailbox.messages, "rtc"@, elapsed_nanos) == ReceiveStep::Ready(bytes)
            &&& bytes.len() == 8
            &&& twos_complement(read) == be_value(bytes) <==> read == rtc
            &&& without(d.mailbox, "rtc"@) == without(m, "rtc"@)
        }),
{
    let bytes = be_bytes(twos_complement(rtc), 8);
    lemma_eight_bytes(twos_complement(rtc));
    lemma_data_names();
    law_sent_message_is_stored(peers, peer, m, "rtc"@, bytes, handles);
    lemma_taken_again(m, "rtc"@, bytes);
}

/// The seed that the host sends is ready on every other machine as soon as all of it has arrived,
/// and it is read there as the number that the host sent.
pub proof fn law_seed_arrives(
    peers: Seq<PeerId>,
    peer: PeerId,
    m: Mailbox,
    handles: Seq<usize>,
    seed: u64,
    elapsed_nanos: u128,
)
    requires
        peers.no_duplicates(),
        peers.contains(peer),
        m.incoming.len() == 0,
        settled(m),
    ensures
        ({
            let bytes = be_bytes(seed as nat, 8);
            let d = delivered(m, arriving(sent(peers, "rng"@, bytes), peer), handles);
            &&& !d.malformed
            &&& waiting(d.mailbox.messages, "rng"@, elapsed_nanos) == ReceiveStep::Ready(bytes)
            &&& bytes.len() == 8
            &&& be_value(bytes) == seed
            &&& without(d.mailbox, "rng"@) == without(m, "rng"@)
        }),
{
    let bytes = be_bytes(seed as nat, 8);
    lemma_eight_bytes(seed as nat);
    lemma_data_names();
    law_sent_message_is_stored(peers, peer, m, "rng"@, bytes, handles);
    lemma_taken_again(m, "rng"@, bytes);
}

/// The save that the host sends, of whatever length, is ready on every other machine as soon as
/// all of it has arrived, and it is the save that the host sent.
pub proof fn law_save_arrives(
    peers: Seq<PeerId>,
    peer: PeerId,
    m: Mailbox,
    handles: Seq<usize>,
    save_type: Seq<char>,
    save_data: Seq<u8>,
    elapsed_nanos: u128,
)
    requires
        peers.no_duplicates(),
        peers.contains(peer),
        m.incoming.len() == 0,
        settled(m),
        holdable(save_type, save_data),
        save_type != "input_delay"@,
        save_type != "disconnect"@,
    ensures
        ({
            let d = delivered(m, arriving(sent(peers, save_type, save_data), peer), handles);
            &&& !d.malformed
            &&& waiting(d.mailbox.messages, save_type, elapsed_nanos) == ReceiveStep::Ready(
                save_data,
            )
            &&& without(d.mailbox, save_type) == without(m, save_type)
        }),
{
    law_sent_message_is_stored(peers, peer, m, save_type, save_data, handles);
    lemma_taken_again(m, save_type, save_data);
}

proof fn lemma_data_names()
    ensures
        "rtc"@ != "input_delay"@,
        "rtc"@ != "disconnect"@,
        "rng"@ != "input_delay"@,
        "rng"@ != "disconnect"@,
        encode_utf8("rtc"@).len() <= usize::MAX,
        encode_utf8("rng"@).len() <= usize::MAX,
{
    reveal_strlit("rtc");
    reveal_strlit("rng");
    reveal_strlit("input_delay");
    reveal_strlit("disconnect");
    assert("rtc"@.len() == 3 && "rng"@.len() == 3);
    assert("input_delay"@.len() == 11 && "disconnect"@.len() == 10);
    vstd::utf8::is_ascii_chars_encode_utf8("rtc"@);
    vstd::utf8::is_ascii_chars_encode_utf8("rng"@);
}

proof fn lemma_control_names()
    ensures
        "input_delay"@ != "disconnect"@,
        encode_utf8("input_delay"@).len() <= usize::MAX,
        encode_utf8("disconnect"@).len() <= usize::MAX,
{
    reveal_strlit("input_delay");
    reveal_strlit("disconnect");
    assert("input_delay"@.len() == 11);
    assert("disconnect"@.len() == 10);
    vstd::utf8::is_ascii_chars_encode_utf8("input_delay"@);
    vstd::utf8::is_ascii_chars_encode_utf8("disconnect"@);
}

/// An input delay that one machine sends is the input delay of every other machine once it has
/// arrived; if it is a new one there, it is set for every local player, and only then.
pub proof fn law_sent_delay_is_set(
    peers: Seq<PeerId>,
    peer: PeerId,
    m: Mailbox,
    delay: usize,
    handles: Seq<usize>,
)
    requires
        peers.no_duplicates(),
        peers.contains(peer),
        m.incoming.len() == 0,
        settled(m),
    ensures
        ({
            let d = delivered(
                m,
                arriving(sent(peers, "input_delay"@, be_bytes(delay as nat, 8)), peer),
                handles,
            );
            &&& !d.malformed
            &&& d.mailbox == (Mailbox { input_delay: delay, ..m })
            &&& d.effects == (if delay == m.input_delay {
                Seq::empty()
            } else {
                delay_effects(handles, delay)
            })
            &&& delay != m.input_delay ==> d.effects.len() == handles.len() && forall|i: int|
                0 <= i < handles.len() ==> #[trigger] d.effects[i] == (Effect::SetInputDelay {
                    handle: handles[i],
                    delay,
                })
        }),
{
    law_delay_is_set_for_all(handles, delay);
    let name = "input_delay"@;
    let data = be_bytes(delay as nat, 8);
    lemma_control_names();
    lemma_eight_bytes(delay as nat);
    law_every_peer_gets_all(peers, message_pieces(name, data), peer);
    law_message_delivered(m, name, data, handles);
    assert(be_usize(data) == delay);
    let stored = Mailbox { incoming: Seq::empty(), messages: m.messages.insert(name, data), ..m };
    assert(m.incoming =~= Seq::empty());
    assert(stored.messages.remove(name) =~= m.messages);
    let d = message_taken(m, name, data, handles);
    assert(d.effects =~= (if delay == m.input_delay {
        Seq::empty()
    } else {
        delay_effects(handles, delay)
    }));
}

/// A farewell that one machine sends ends the session on every other machine; the player there
/// is told, if the session had not ended before.
pub proof fn law_farewell_ends_session(
    peers: Seq<PeerId>,
    peer: PeerId,
    m: Mailbox,
    handles: Seq<usize>,
)
    requires
        peers.no_duplicates(),
        peers.contains(peer),
        m.incoming.len() == 0,
        settled(m),
    ensures
        ({
            let d = delivered(m, arriving(sent(peers, "disconnect"@, Seq::empty()), peer), handles);
            &&& !d.malformed
            &&& d.mailbox.disconnected
            &&& d.mailbox.input_delay == m.input_delay
            &&& !m.disconnected ==> d.mailbox == (Mailbox { disconnected: true, ..m })
            &&& m.disconnected ==> d.mailbox == (Mailbox {
                messages: m.messages.insert("disconnect"@, Seq::empty()),
                ..m
            })
            &&& d.effects == (if m.disconnected {
                Seq::empty()
            } else {
                seq![Effect::Show(Notice::SessionEnded)]
            })
        }),
{
    let name = "disconnect"@;
    lemma_control_names();
    law_every_peer_gets_all(peers, message_pieces(name, Seq::empty()), peer);
    law_message_delivered(m, name, Seq::empty(), handles);
    let stored = Mailbox {
        incoming: Seq::empty(),
        messages: m.messages.insert(name, Seq::empty()),
        ..m
    };
    assert(m.incoming =~= Seq::empty());
    assert(!m.disconnected ==> stored.messages.remove(name) =~= m.messages);
    let d = message_taken(m, name, Seq::empty(), handles);
    assert(d.effects =~= (if m.disconnected {
        Seq::empty()
    } else {
        seq![Effect::Show(Notice::SessionEnded)]
    }));
}

/// What arrives at a peer is what was sent to it, in the order in which it was sent.
pub proof fn law_arriving_is_addressed(packets: Seq<(PeerId, Seq<u8>)>, peer: PeerId)
    ensures
        arriving(packets, peer) == packets.filter(|p: (PeerId, Seq<u8>)| p.0 == peer).map_values(
            |p: (PeerId, Seq<u8>)| p.1,
        ),
    decreases packets.len(),
{
    reveal(Seq::filter);
    if packets.len() > 0 {
        law_arriving_is_addressed(packets.drop_last(), peer);
    }
    assert(arriving(packets, peer) =~= packets.filter(
        |p: (PeerId, Seq<u8>)| p.0 == peer,
    ).map_values(|p: (PeerId, Seq<u8>)| p.1));
}

/// Nothing comes of nothing, and one piece leads to what that piece leads to; with the law on two
/// goes this says what any pieces lead to.
pub proof fn law_one_piece(m: Mailbox, chunk: Seq<u8>, handles: Seq<usize>)
    ensures
        delivered(m, Seq::empty(), handles) == (Delivery {
            mailbox: m,
            effects: Seq::empty(),
            malformed: false,
            taken: 0,
        }),
        delivered(m, seq![chunk], handles) == (Delivery {
            taken: 1,
            ..chunk_taken(m, chunk, handles)
        }),
{
    reveal_with_fuel(delivered, 2);
    assert(seq![chunk].drop_last() =~= Seq::<Seq<u8>>::empty());
    let now = chunk_taken(m, chunk, handles);
    assert(Seq::<Effect>::empty() + now.effects =~= now.effects);
}

/// After a malformed message nothing more is taken, whatever comes.
pub proof fn law_malformed_stops(
    m: Mailbox,
    first: Seq<Seq<u8>>,
    second: Seq<Seq<u8>>,
    handles: Seq<usize>,
)
    requires
        delivered(m, first, handles).malformed,
    ensures
        delivered(m, first + second, handles) == delivered(m, first, handles),
{
    assert((first + second).take(first.len() as int) =~= first);
    lemma_delivered_stops(m, first + second, handles, first.len() as int);
}

} // verus!
