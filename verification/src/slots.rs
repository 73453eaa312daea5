//! Which machine owns which player slot.

use crate::bytes::{be_bytes, be_to_u64, be_value, lemma_be_bytes_len, slice_of, u64_to_be};
use crate::delivery::lemma_eight_bytes;
use crate::mailbox::be_usize;
use crate::outbox::{addressed, outgoing, packets};
use crate::peer::{contains_peer, PeerId};
use crate::wire::{law_message_round_trip, message_bytes, read_message, NetplayMessage};
use std::collections::BTreeMap;
use vstd::prelude::*;

verus! {

/// The owners of the slots known so far: a peer, or nobody but this machine.
pub type PlayerNumbers = BTreeMap<usize, Option<PeerId>>;

/// Slot numbers in eight big-endian bytes each.
pub open spec fn slot_bytes(slots: Seq<usize>) -> Seq<u8>
    decreases slots.len(),
{
    if slots.len() == 0 {
        Seq::empty()
    } else {
        slot_bytes(slots.drop_last()) + be_bytes(slots.last() as nat, 8)
    }
}

/// The slot numbers that a payload lists; bytes at the end that are too few for a slot are left
/// out.
pub open spec fn listed_slots(data: Seq<u8>) -> Seq<usize> {
    Seq::new(data.len() / 8, |i: int| be_usize(data.subrange(8 * i, 8 * i + 8)))
}

/// The bytes that announce the slots of a machine.
pub open spec fn announcement(local_players: Seq<usize>) -> Seq<u8> {
    message_bytes("player_number"@, slot_bytes(local_players))
}

/// What is known of the owners once a peer has listed its slots.
pub open spec fn claimed(
    owners: Map<usize, Option<PeerId>>,
    peer: PeerId,
    slots: Seq<usize>,
) -> Map<usize, Option<PeerId>>
    decreases slots.len(),
{
    if slots.len() == 0 {
        owners
    } else {
        claimed(owners, peer, slots.drop_last()).insert(slots.last(), Some(peer))
    }
}

/// What is known of the owners once these packets have come.
pub open spec fn heard(
    owners: Map<usize, Option<PeerId>>,
    received: Seq<(PeerId, Seq<u8>)>,
) -> Map<usize, Option<PeerId>>
    decreases received.len(),
{
    if received.len() == 0 {
        owners
    } else {
        let before = heard(owners, received.drop_last());
        match read_message(received.last().1) {
            Some((name, data)) if name == "player_number"@ => claimed(
                before,
                received.last().0,
                listed_slots(data),
            ),
            _ => before,
        }
    }
}

/// Whether every packet begins with a whole message.
pub open spec fn all_readable(received: Seq<(PeerId, Seq<u8>)>) -> bool {
    forall|i: int| 0 <= i < received.len() ==> read_message((#[trigger] received[i]).1) is Some
}

/// This machine as the owner of its own slots.
pub open spec fn own(local_players: Seq<usize>) -> Map<usize, Option<PeerId>> {
    Map::new(|slot: usize| local_players.contains(slot), |slot: usize| None)
}

/// What is left of the owners when every peer is forgotten.
pub open spec fn own_part(owners: Map<usize, Option<PeerId>>) -> Map<usize, Option<PeerId>> {
    Map::new(
        |slot: usize| owners.contains_key(slot) && owners[slot] is None,
        |slot: usize| None,
    )
}

/// Whether every slot that a peer owns is owned by one of these peers.
pub open spec fn owners_among(owners: Map<usize, Option<PeerId>>, peers: Seq<PeerId>) -> bool {
    forall|slot: usize| #[trigger]
        owners.contains_key(slot) ==> match owners[slot] {
            Some(peer) => peers.contains(peer),
            None => true,
        }
}

/// Whether every slot that has an owner is one of the slots of that many players.
pub open spec fn all_below(owners: Map<usize, Option<PeerId>>, number_of_players: usize) -> bool {
    forall|slot: usize| #[trigger] owners.contains_key(slot) ==> slot < number_of_players
}

/// Notes this machine as the owner of its own slots.
pub fn own_slots(local_players: &Vec<usize>) -> (owners: PlayerNumbers)
    ensures
        owners@ == own(local_players@),
        forall|slot: usize| #[trigger]
            owners@.contains_key(slot) <==> local_players@.contains(slot),
        forall|slot: usize| #[trigger] owners@.contains_key(slot) ==> owners@[slot] is None,
{
    let mut owners: PlayerNumbers = BTreeMap::new();
    let mut i: usize = 0;
    assert(owners@ =~= own(local_players@.take(0)));
    while i < local_players.len()
        invariant
            i <= local_players@.len(),
            owners@ == own(local_players@.take(i as int)),
        decreases local_players@.len() - i,
    {
        let ghost before = local_players@.take(i as int);
        owners.insert(local_players[i], None);
        i = i + 1;
        let ghost after = local_players@.take(i as int);
        assert(after =~= before.push(local_players@[i - 1]));
        assert forall|slot: usize|
            after.contains(slot) == (before.contains(slot) || slot == local_players@[i - 1]) by {
            if before.contains(slot) {
                let j = choose|j: int| 0 <= j < before.len() && before[j] == slot;
                assert(after[j] == slot);
            }
            assert(after[i - 1] == local_players@[i - 1]);
        }
        assert(owners@ =~= own(after));
    }
    assert(local_players@.take(i as int) =~= local_players@);
    owners
}

/// Packs the announcement of the local slots for every peer.
pub fn send_player_number(peers: &Vec<PeerId>, local_players: &Vec<usize>) -> (out: Vec<
    (PeerId, Vec<u8>),
>)
    ensures
        packets(out@) == outgoing(peers@, seq![announcement(local_players@)]),
{
    let mut data: Vec<u8> = Vec::new();
    let mut i: usize = 0;
    assert(data@ =~= slot_bytes(local_players@.take(0)));
    while i < local_players.len()
        invariant
            i <= local_players@.len(),
            data@ == slot_bytes(local_players@.take(i as int)),
        decreases local_players@.len() - i,
    {
        let mut slot = u64_to_be(local_players[i] as u64);
        data.append(&mut slot);
        i = i + 1;
        assert(local_players@.take(i as int).drop_last() =~= local_players@.take(i - 1));
    }
    assert(local_players@.take(i as int) =~= local_players@);
    let message = NetplayMessage { name: "player_number".to_string(), data };
    let encoded = message.encode();
    let ghost chunks = seq![announcement(local_players@)];
    let mut out: Vec<(PeerId, Vec<u8>)> = Vec::new();
    let mut j: usize = 0;
    assert(packets(out@) =~= outgoing(peers@.take(0), chunks));
    while j < peers.len()
        invariant
            j <= peers@.len(),
            encoded@ == announcement(local_players@),
            chunks == seq![announcement(local_players@)],
            packets(out@) == outgoing(peers@.take(j as int), chunks),
        decreases peers@.len() - j,
    {
        let ghost was = out@;
        let copy = encoded.clone();
        assert(copy@ =~= encoded@);
        out.push((peers[j], copy));
        j = j + 1;
        assert(peers@.take(j as int).drop_last() =~= peers@.take(j - 1));
        assert(addressed(peers@[j - 1], chunks) =~= seq![(peers@[j - 1], encoded@)]);
        assert(packets(out@) =~= packets(was) + addressed(peers@[j - 1], chunks));
    }
    assert(peers@.take(j as int) =~= peers@);
    out
}

/// Notes the slots that a peer lists as owned by it.
fn claim_slots(owners: &mut PlayerNumbers, peer: PeerId, data: &Vec<u8>)
    ensures
        final(owners)@ == claimed(old(owners)@, peer, listed_slots(data@)),
{
    let ghost slots = listed_slots(data@);
    let mut i: usize = 0;
    let len: usize = data.len();
    let count: usize = len / 8;
    assert(slots.take(0) =~= Seq::empty());
    while i < count
        invariant
            i <= count,
            len == data@.len(),
            count == len / 8,
            slots == listed_slots(data@),
            owners@ == claimed(old(owners)@, peer, slots.take(i as int)),
        decreases count - i,
    {
        assert(8 * i + 8 <= len);
        let bytes = slice_of(data, 8 * i, 8 * i + 8);
        let slot: usize = be_to_u64(bytes.as_slice()) as usize;
        assert(slot == slots[i as int]);
        owners.insert(slot, Some(peer));
        i = i + 1;
        assert(slots.take(i as int).drop_last() =~= slots.take(i - 1));
    }
    assert(slots.take(i as int) =~= slots);
}

/// Notes the owners that peers have announced; messages of another name are passed over.
pub fn get_player_numbers(received: &Vec<(PeerId, Vec<u8>)>, owners: &mut PlayerNumbers)
    requires
        all_readable(packets(received@)),
    ensures
        final(owners)@ == heard(old(owners)@, packets(received@)),
{
    let ghost all = packets(received@);
    let mut i: usize = 0;
    assert(all.take(0) =~= Seq::empty());
    while i < received.len()
        invariant
            i <= received@.len(),
            all == packets(received@),
            all_readable(all),
            owners@ == heard(old(owners)@, all.take(i as int)),
        decreases received@.len() - i,
    {
        assert(all.take(i + 1).drop_last() =~= all.take(i as int));
        assert(all[i as int].1 == received@[i as int].1@);
        if let Some(message) = NetplayMessage::decode(&received[i].1) {
            if message.name == "player_number".to_string() {
                claim_slots(owners, received[i].0, &message.data);
            }
        }
        i = i + 1;
    }
    assert(all.take(i as int) =~= all);
}

/// Whether `entries` lists the owners in the order of the slots.
pub open spec fn lists(
    entries: Seq<(usize, Option<PeerId>)>,
    owners: Map<usize, Option<PeerId>>,
) -> bool {
    &&& forall|i: int, j: int|
        0 <= i < j < entries.len() ==> (#[trigger] entries[i]).0 < (#[trigger] entries[j]).0
    &&& forall|i: int|
        0 <= i < entries.len() ==> owners.contains_key((#[trigger] entries[i]).0)
            && owners[entries[i].0] == entries[i].1
    &&& forall|slot: usize| #[trigger]
        owners.contains_key(slot) ==> exists|i: int|
            0 <= i < entries.len() && (#[trigger] entries[i]).0 == slot
}

/// The owners in the order of the slots.
pub fn entries(owners: &PlayerNumbers) -> (out: Vec<(usize, Option<PeerId>)>)
    ensures
        lists(out@, owners@),
        out@.len() == owners@.len(),
        forall|i: int, j: int|
            0 <= i < j < out@.len() ==> (#[trigger] out@[i]).0 < (#[trigger] out@[j]).0,
        forall|slot: usize, owner: Option<PeerId>| #[trigger]
            out@.contains((slot, owner)) <==> owners@.contains_key(slot) && owners@[slot] == owner,
{
    let mut out: Vec<(usize, Option<PeerId>)> = Vec::new();
    let iter = owners.iter();
    let ghost all = vstd::std_specs::iter::IteratorSpec::remaining(&iter);
    for entry in it: iter
        invariant
            it.seq() == all,
            out@.len() == it.index(),
            forall|i: int|
                0 <= i < out@.len() ==> (#[trigger] out@[i]) == (*all[i].0, *all[i].1),
    {
        out.push((*entry.0, *entry.1));
    }
    proof {
        let keys = all.map_values(|kv: (&usize, &Option<PeerId>)| *kv.0);
        assert(vstd::std_specs::btree::key_obeys_cmp_spec::<usize>());
        assert(vstd::std_specs::btree::increasing_seq(keys));
        assert forall|i: int, j: int| 0 <= i < j < out@.len() implies (#[trigger] out@[i]).0 < (
        #[trigger] out@[j]).0 by {
            assert(vstd::std_specs::cmp::OrdSpec::cmp_spec(&keys[i], &keys[j]) is Less);
            assert(keys[i] < keys[j]);
        }
        assert forall|i: int| 0 <= i < out@.len() implies owners@.contains_key(
            (#[trigger] out@[i]).0,
        ) && owners@[out@[i].0] == out@[i].1 by {
            assert(owners@.contains_key(*all[i].0));
        }
        assert forall|slot: usize| #[trigger] owners@.contains_key(slot) implies exists|i: int|
            0 <= i < out@.len() && (#[trigger] out@[i]).0 == slot by {
            assert(all.contains((&slot, &owners@[slot])));
            let i = choose|i: int| 0 <= i < all.len() && all[i] == (&slot, &owners@[slot]);
            assert(out@[i].0 == slot);
        }
        law_listing(out@, owners@);
    }
    out
}

/// Whether every peer that owns a slot is one of `peers`.
pub fn verify_peers(peers: &Vec<PeerId>, owners: &PlayerNumbers) -> (known: bool)
    ensures
        known == owners_among(owners@, peers@),
        known <==> forall|slot: usize, peer: PeerId| #[trigger]
            owners@.contains_key(slot) && owners@[slot] == Some(peer) ==> #[trigger] peers@.contains(
                peer,
            ),
{
    let all = entries(owners);
    let mut i: usize = 0;
    while i < all.len()
        invariant
            i <= all@.len(),
            lists(all@, owners@),
            forall|j: int|
                0 <= j < i ==> match (#[trigger] all@[j]).1 {
                    Some(peer) => peers@.contains(peer),
                    None => true,
                },
        decreases all@.len() - i,
    {
        if let Some(peer) = all[i].1 {
            if !contains_peer(peers, peer) {
                assert(owners@.contains_key(all@[i as int].0));
                return false;
            }
        }
        i = i + 1;
    }
    assert forall|slot: usize| #[trigger] owners@.contains_key(slot) implies match owners@[slot] {
        Some(peer) => peers@.contains(peer),
        None => true,
    } by {
        let j = choose|j: int| 0 <= j < all@.len() && (#[trigger] all@[j]).0 == slot;
        assert(owners@[slot] == all@[j].1);
    }
    true
}

/// Whether no slot has an owner but those of that many players.
pub fn slots_below(owners: &PlayerNumbers, number_of_players: usize) -> (below: bool)
    ensures
        below == all_below(owners@, number_of_players),
        below <==> forall|slot: usize| #[trigger]
            owners@.contains_key(slot) ==> slot < number_of_players,
{
    let all = entries(owners);
    let mut i: usize = 0;
    while i < all.len()
        invariant
            i <= all@.len(),
            lists(all@, owners@),
            forall|j: int| 0 <= j < i ==> (#[trigger] all@[j]).0 < number_of_players,
        decreases all@.len() - i,
    {
        if all[i].0 >= number_of_players {
            assert(owners@.contains_key(all@[i as int].0));
            return false;
        }
        i = i + 1;
    }
    assert forall|slot: usize| #[trigger] owners@.contains_key(slot) implies slot
        < number_of_players by {
        let j = choose|j: int| 0 <= j < all@.len() && (#[trigger] all@[j]).0 == slot;
        assert(all@[j].0 < number_of_players);
    }
    true
}

/// The slots that belong to no peer.
pub fn forget_peers(owners: &PlayerNumbers) -> (kept: PlayerNumbers)
    ensures
        kept@ == own_part(owners@),
        forall|slot: usize| #[trigger]
            kept@.contains_key(slot) <==> owners@.contains_key(slot) && owners@[slot] is None,
        forall|slot: usize| #[trigger] kept@.contains_key(slot) ==> kept@[slot] is None,
{
    let all = entries(owners);
    let mut kept: PlayerNumbers = BTreeMap::new();
    let mut i: usize = 0;
    while i < all.len()
        invariant
            i <= all@.len(),
            lists(all@, owners@),
            forall|slot: usize| #[trigger]
                kept@.contains_key(slot) <==> exists|j: int|
                    0 <= j < i && (#[trigger] all@[j]).0 == slot && all@[j].1 is None,
            forall|slot: usize| #[trigger] kept@.contains_key(slot) ==> kept@[slot] is None,
        decreases all@.len() - i,
    {
        let ghost before = kept@;
        if all[i].1.is_none() {
            kept.insert(all[i].0, None);
        }
        assert forall|slot: usize| #[trigger] kept@.contains_key(slot) <==> exists|j: int|
            0 <= j < i + 1 && (#[trigger] all@[j]).0 == slot && all@[j].1 is None by {
            if kept@.contains_key(slot) && before.contains_key(slot) {
                let j = choose|j: int|
                    0 <= j < i && (#[trigger] all@[j]).0 == slot && all@[j].1 is None;
                assert(0 <= j < i + 1 && all@[j].0 == slot);
            }
        }
        i = i + 1;
    }
    assert forall|slot: usize| #[trigger] kept@.contains_key(slot) == own_part(
        owners@,
    ).contains_key(slot) by {
        if owners@.contains_key(slot) && owners@[slot] is None {
            let j = choose|j: int| 0 <= j < all@.len() && (#[trigger] all@[j]).0 == slot;
            assert(all@[j].1 is None);
        }
    }
    assert(kept@ =~= own_part(owners@));
    kept
}

proof fn lemma_slot_bytes_len(slots: Seq<usize>)
    ensures
        slot_bytes(slots).len() == 8 * slots.len(),
    decreases slots.len(),
{
    if slots.len() > 0 {
        lemma_slot_bytes_len(slots.drop_last());
        lemma_be_bytes_len(slots.last() as nat, 8);
    }
}

/// The slots that a machine writes are the slots that its peers read.
pub proof fn law_slots_round_trip(slots: Seq<usize>)
    ensures
        listed_slots(slot_bytes(slots)) == slots,
    decreases slots.len(),
{
    lemma_slot_bytes_len(slots);
    let data = slot_bytes(slots);
    let listed = listed_slots(data);
    if slots.len() > 0 {
        let before = slots.drop_last();
        let last = slots.len() - 1;
        law_slots_round_trip(before);
        lemma_slot_bytes_len(before);
        lemma_be_bytes_len(slots.last() as nat, 8);
        lemma_eight_bytes(slots.last() as nat);
        assert forall|i: int| 0 <= i < slots.len() implies listed[i] == slots[i] by {
            if i < last {
                assert(data.subrange(8 * i, 8 * i + 8) =~= slot_bytes(before).subrange(
                    8 * i,
                    8 * i + 8,
                ));
                assert(listed_slots(slot_bytes(before))[i] == before[i]);
            } else {
                assert(data.subrange(8 * i, 8 * i + 8) =~= be_bytes(slots.last() as nat, 8));
            }
        }
    }
    assert(listed =~= slots);
}

/// After a peer has listed its slots, it owns those, and the owners of all other slots are what
/// they were.
pub proof fn law_claim(
    owners: Map<usize, Option<PeerId>>,
    peer: PeerId,
    slots: Seq<usize>,
    slot: usize,
)
    ensures
        claimed(owners, peer, slots).contains_key(slot) <==> owners.contains_key(slot)
            || slots.contains(slot),
        slots.contains(slot) ==> claimed(owners, peer, slots)[slot] == Some(peer),
        !slots.contains(slot) && owners.contains_key(slot) ==> claimed(owners, peer, slots)[slot]
            == owners[slot],
    decreases slots.len(),
{
    if slots.len() > 0 {
        let before = slots.drop_last();
        law_claim(owners, peer, before, slot);
        if before.contains(slot) {
            let i = choose|i: int| 0 <= i < before.len() && before[i] == slot;
            assert(slots[i] == slot);
        }
        if slots.contains(slot) && slot != slots.last() {
            let i = choose|i: int| 0 <= i < slots.len() && slots[i] == slot;
            assert(before[i] == slot);
        }
        assert(slots[slots.len() - 1] == slots.last());
    }
}

/// An announcement is read as the slots that it was made of.
proof fn lemma_announcement_read(slots: Seq<usize>)
    requires
        8 * slots.len() <= usize::MAX,
    ensures
        read_message(announcement(slots)) == Some(("player_number"@, slot_bytes(slots))),
        listed_slots(slot_bytes(slots)) == slots,
{
    let name = "player_number"@;
    reveal_strlit("player_number");
    assert(name.len() == 13);
    vstd::utf8::is_ascii_chars_encode_utf8(name);
    lemma_slot_bytes_len(slots);
    law_message_round_trip(name, slot_bytes(slots), Seq::empty());
    assert(announcement(slots) + Seq::<u8>::empty() =~= announcement(slots));
    law_slots_round_trip(slots);
}

/// One announcement is enough: a peer that hears it knows the announcing machine as the owner of
/// every slot that the machine owns.
pub proof fn law_announcement_is_heard(
    owners: Map<usize, Option<PeerId>>,
    peer: PeerId,
    local_players: Seq<usize>,
)
    requires
        8 * local_players.len() <= usize::MAX,
    ensures
        all_readable(seq![(peer, announcement(local_players))]),
        heard(owners, seq![(peer, announcement(local_players))]) == claimed(
            owners,
            peer,
            local_players,
        ),
{
    let received = seq![(peer, announcement(local_players))];
    lemma_announcement_read(local_players);
    assert(received.drop_last() =~= Seq::empty());
    reveal_with_fuel(heard, 2);
}

/// Announcements never take a slot out of the map, and never make a slot this machine's own.
pub proof fn law_heard_keeps_slots(
    owners: Map<usize, Option<PeerId>>,
    received: Seq<(PeerId, Seq<u8>)>,
    slot: usize,
)
    ensures
        owners.contains_key(slot) ==> heard(owners, received).contains_key(slot),
        heard(owners, received).contains_key(slot) && heard(owners, received)[slot] is None
            ==> owners.contains_key(slot) && owners[slot] is None,
    decreases received.len(),
{
    if received.len() > 0 {
        let before = heard(owners, received.drop_last());
        law_heard_keeps_slots(owners, received.drop_last(), slot);
        match read_message(received.last().1) {
            Some((name, data)) => {
                law_claim(before, received.last().0, listed_slots(data), slot);
            },
            None => {},
        }
    }
}

/// Packets that come in two rounds tell what they tell in one.
pub proof fn law_heard_in_two_rounds(
    owners: Map<usize, Option<PeerId>>,
    first: Seq<(PeerId, Seq<u8>)>,
    second: Seq<(PeerId, Seq<u8>)>,
)
    ensures
        heard(owners, first + second) == heard(heard(owners, first), second),
    decreases second.len(),
{
    if second.len() == 0 {
        assert(first + second =~= first);
    } else {
        law_heard_in_two_rounds(owners, first, second.drop_last());
        assert((first + second).drop_last() =~= first + second.drop_last());
    }
}

/// A machine that starts the search again, and whose own slots no peer has claimed, knows again
/// exactly what it knew at first: its own slots.
pub proof fn law_restart_forgets_peers(
    local_players: Seq<usize>,
    received: Seq<(PeerId, Seq<u8>)>,
)
    requires
        forall|slot: usize| #[trigger]
            local_players.contains(slot) ==> heard(own(local_players), received)[slot] is None,
    ensures
        own_part(heard(own(local_players), received)) == own(local_players),
{
    let known = heard(own(local_players), received);
    assert forall|slot: usize| #[trigger] own_part(known).contains_key(slot) == own(
        local_players,
    ).contains_key(slot) by {
        law_heard_keeps_slots(own(local_players), received, slot);
        assert(own(local_players).contains_key(slot) == local_players.contains(slot));
    }
    assert(own_part(known) =~= own(local_players));
}

/// Whether no slot belongs to two of these machines, each given by its identifier and its slots.
pub open spec fn disjoint(machines: Seq<(PeerId, Seq<usize>)>) -> bool {
    forall|i: int, j: int, slot: usize|
        0 <= i < machines.len() && 0 <= j < machines.len() && #[trigger] machines[i].1.contains(
            slot,
        ) && #[trigger] machines[j].1.contains(slot) ==> i == j
}

/// Whether a slot belongs to one of these machines.
pub open spec fn has_owner(machines: Seq<(PeerId, Seq<usize>)>, slot: usize) -> bool {
    exists|j: int| 0 <= j < machines.len() && (#[trigger] machines[j]).1.contains(slot)
}

/// Whether a packet is the announcement of machine `j`.
pub open spec fn announces(
    packet: (PeerId, Seq<u8>),
    machines: Seq<(PeerId, Seq<usize>)>,
    j: int,
) -> bool {
    packet == (machines[j].0, announcement(machines[j].1))
}

/// Whether a packet is the announcement of one of these machines but `me`.
pub open spec fn from_another(
    packet: (PeerId, Seq<u8>),
    machines: Seq<(PeerId, Seq<usize>)>,
    me: int,
) -> bool {
    exists|j: int| 0 <= j < machines.len() && j != me && #[trigger] announces(packet, machines, j)
}

/// Whether one of the packets is the announcement of machine `j`.
pub open spec fn heard_from(
    received: Seq<(PeerId, Seq<u8>)>,
    machines: Seq<(PeerId, Seq<usize>)>,
    j: int,
) -> bool {
    exists|k: int| 0 <= k < received.len() && announces(#[trigger] received[k], machines, j)
}

/// How machine `me` notes machine `j` as an owner.
pub open spec fn owner_seen(machines: Seq<(PeerId, Seq<usize>)>, me: int, j: int) -> Option<PeerId> {
    if j == me {
        None
    } else {
        Some(machines[j].0)
    }
}

proof fn lemma_owners_right(
    machines: Seq<(PeerId, Seq<usize>)>,
    me: int,
    received: Seq<(PeerId, Seq<u8>)>,
    j: int,
    slot: usize,
)
    requires
        0 <= me < machines.len(),
        0 <= j < machines.len(),
        disjoint(machines),
        forall|k: int|
            0 <= k < machines.len() ==> 8 * (#[trigger] machines[k]).1.len() <= usize::MAX,
        forall|k: int|
            0 <= k < received.len() ==> from_another(#[trigger] received[k], machines, me),
        machines[j].1.contains(slot),
    ensures
        ({
            let known = heard(own(machines[me].1), received);
            &&& known.contains_key(slot) <==> j == me || heard_from(received, machines, j)
            &&& known.contains_key(slot) ==> known[slot] == owner_seen(machines, me, j)
        }),
    decreases received.len(),
{
    let start = own(machines[me].1);
    let known = heard(start, received);
    if received.len() == 0 {
        assert(start.contains_key(slot) == machines[me].1.contains(slot));
    } else {
        let last = received.len() - 1;
        let front = received.drop_last();
        let before = heard(start, front);
        assert forall|k: int| 0 <= k < front.len() implies from_another(
            #[trigger] front[k],
            machines,
            me,
        ) by {
            assert(front[k] == received[k]);
        }
        lemma_owners_right(machines, me, front, j, slot);
        assert(from_another(received[last], machines, me));
        let from = choose|i: int|
            0 <= i < machines.len() && i != me && #[trigger] announces(
                received[last],
                machines,
                i,
            );
        let slots = machines[from].1;
        lemma_announcement_read(slots);
        assert(known == claimed(before, machines[from].0, slots));
        law_claim(before, machines[from].0, slots, slot);
        if slots.contains(slot) {
            assert(from == j);
            assert(announces(received[last], machines, j));
        } else if announces(received[last], machines, j) {
            lemma_announcement_read(machines[j].1);
            assert(slots == machines[j].1);
        }
        if heard_from(front, machines, j) {
            let k = choose|k: int|
                0 <= k < front.len() && announces(#[trigger] front[k], machines, j);
            assert(announces(received[k], machines, j));
        }
        if heard_from(received, machines, j) {
            let k = choose|k: int|
                0 <= k < received.len() && announces(#[trigger] received[k], machines, j);
            if k < last {
                assert(announces(front[k], machines, j));
            }
        }
    }
}

/// Once a machine has heard from every other, in whatever order and however often, it knows of
/// every slot that any machine owns, and knows the right owner; so all machines agree on who owns
/// what.
pub proof fn law_all_machines_agree(
    machines: Seq<(PeerId, Seq<usize>)>,
    me: int,
    received: Seq<(PeerId, Seq<u8>)>,
    slot: usize,
)
    requires
        0 <= me < machines.len(),
        disjoint(machines),
        forall|k: int|
            0 <= k < machines.len() ==> 8 * (#[trigger] machines[k]).1.len() <= usize::MAX,
        forall|k: int|
            0 <= k < received.len() ==> from_another(#[trigger] received[k], machines, me),
        forall|j: int|
            0 <= j < machines.len() && j != me ==> #[trigger] heard_from(received, machines, j),
    ensures
        ({
            let known = heard(own(machines[me].1), received);
            &&& known.contains_key(slot) <==> has_owner(machines, slot)
            &&& forall|j: int|
                0 <= j < machines.len() && (#[trigger] machines[j]).1.contains(slot) ==> known[slot]
                    == owner_seen(machines, me, j)
        }),
{
    let known = heard(own(machines[me].1), received);
    assert forall|j: int|
        0 <= j < machines.len() && (#[trigger] machines[j]).1.contains(
            slot,
        ) implies known.contains_key(slot) && known[slot] == owner_seen(machines, me, j) by {
        lemma_owners_right(machines, me, received, j, slot);
        assert(j != me ==> heard_from(received, machines, j));
    }
    if known.contains_key(slot) {
        lemma_known_is_owned(machines, me, received, slot);
    }
}

proof fn lemma_known_is_owned(
    machines: Seq<(PeerId, Seq<usize>)>,
    me: int,
    received: Seq<(PeerId, Seq<u8>)>,
    slot: usize,
)
    requires
        0 <= me < machines.len(),
        forall|k: int|
            0 <= k < machines.len() ==> 8 * (#[trigger] machines[k]).1.len() <= usize::MAX,
        forall|k: int|
            0 <= k < received.len() ==> from_another(#[trigger] received[k], machines, me),
        heard(own(machines[me].1), received).contains_key(slot),
    ensures
        has_owner(machines, slot),
    decreases received.len(),
{
    if received.len() == 0 {
        assert(machines[me].1.contains(slot));
    } else {
        let last = received.len() - 1;
        let front = received.drop_last();
        let before = heard(own(machines[me].1), front);
        assert(from_another(received[last], machines, me));
        let from = choose|i: int|
            0 <= i < machines.len() && i != me && #[trigger] announces(
                received[last],
                machines,
                i,
            );
        lemma_announcement_read(machines[from].1);
        law_claim(before, machines[from].0, machines[from].1, slot);
        if !machines[from].1.contains(slot) {
            assert forall|k: int| 0 <= k < front.len() implies from_another(
                #[trigger] front[k],
                machines,
                me,
            ) by {
                assert(front[k] == received[k]);
            }
            lemma_known_is_owned(machines, me, front, slot);
        }
    }
}

/// A listing of the owners holds every slot with its owner, once, and nothing else.
pub proof fn law_listing(
    entries: Seq<(usize, Option<PeerId>)>,
    owners: Map<usize, Option<PeerId>>,
)
    requires
        lists(entries, owners),
    ensures
        entries.len() == owners.len(),
        forall|i: int, j: int|
            0 <= i < j < entries.len() ==> (#[trigger] entries[i]).0 < (#[trigger] entries[j]).0,
        forall|slot: usize, owner: Option<PeerId>| #[trigger]
            entries.contains((slot, owner)) <==> owners.contains_key(slot) && owners[slot] == owner,
{
    let keys = entries.map_values(|e: (usize, Option<PeerId>)| e.0);
    assert forall|i: int, j: int|
        0 <= i < keys.len() && 0 <= j < keys.len() && i != j implies keys[i] != keys[j] by {
        if i < j {
            assert(entries[i].0 < entries[j].0);
        } else {
            assert(entries[j].0 < entries[i].0);
        }
    }
    assert forall|slot: usize| keys.to_set().contains(slot) == owners.dom().contains(slot) by {
        if keys.contains(slot) {
            let i = choose|i: int| 0 <= i < keys.len() && keys[i] == slot;
            assert(owners.contains_key(entries[i].0));
        }
        if owners.contains_key(slot) {
            let i = choose|i: int| 0 <= i < entries.len() && (#[trigger] entries[i]).0 == slot;
            assert(keys[i] == slot);
        }
    }
    assert(keys.to_set() =~= owners.dom());
    keys.unique_seq_to_set();
    assert forall|slot: usize, owner: Option<PeerId>| #[trigger]
        entries.contains((slot, owner)) <==> owners.contains_key(slot) && owners[slot]
            == owner by {
        if entries.contains((slot, owner)) {
            let i = choose|i: int| 0 <= i < entries.len() && entries[i] == (slot, owner);
            assert(owners.contains_key(entries[i].0));
        }
        if owners.contains_key(slot) && owners[slot] == owner {
            let i = choose|i: int| 0 <= i < entries.len() && (#[trigger] entries[i]).0 == slot;
            assert(entries[i] == (slot, owner));
        }
    }
}

/// Every slot is written in its own eight bytes, and nothing else is written.
pub proof fn law_every_slot_is_written(slots: Seq<usize>)
    ensures
        slot_bytes(slots).len() == 8 * slots.len(),
        forall|i: int|
            0 <= i < slots.len() ==> slot_bytes(slots).subrange(8 * i, 8 * i + 8) == be_bytes(
                (#[trigger] slots[i]) as nat,
                8,
            ),
    decreases slots.len(),
{
    let all = slot_bytes(slots);
    lemma_slot_bytes_len(slots);
    if slots.len() > 0 {
        let before = slots.drop_last();
        law_every_slot_is_written(before);
        lemma_be_bytes_len(slots.last() as nat, 8);
        assert forall|i: int| 0 <= i < slots.len() implies all.subrange(8 * i, 8 * i + 8)
            == be_bytes((#[trigger] slots[i]) as nat, 8) by {
            if i < before.len() {
                assert(all.subrange(8 * i, 8 * i + 8) =~= slot_bytes(before).subrange(
                    8 * i,
                    8 * i + 8,
                ));
                assert(before[i] == slots[i]);
            } else {
                assert(all.subrange(8 * i, 8 * i + 8) =~= be_bytes(slots.last() as nat, 8));
            }
        }
    }
}

/// Every eight bytes of a payload are read as one slot.
pub proof fn law_every_slot_is_read(data: Seq<u8>)
    ensures
        listed_slots(data).len() == data.len() / 8,
        forall|i: int|
            0 <= i < data.len() / 8 && be_value(data.subrange(8 * i, 8 * i + 8)) <= usize::MAX
                ==> #[trigger] listed_slots(data)[i] == be_value(
                data.subrange(8 * i, 8 * i + 8),
            ),
{
}

/// An announcement is a message of its own name whose payload is the slots.
pub proof fn law_announcement_is_a_message(local_players: Seq<usize>)
    requires
        8 * local_players.len() <= usize::MAX,
    ensures
        read_message(announcement(local_players)) == Some(
            ("player_number"@, slot_bytes(local_players)),
        ),
        announcement(local_players) == message_bytes("player_number"@, slot_bytes(local_players)),
{
    lemma_announcement_read(local_players);
}

/// One packet tells the slots that its payload lists, if it is an announcement, and nothing
/// otherwise.
pub proof fn law_one_packet(
    owners: Map<usize, Option<PeerId>>,
    peer: PeerId,
    bytes: Seq<u8>,
    slot: usize,
)
    ensures
        ({
            let after = heard(owners, seq![(peer, bytes)]);
            let read = read_message(bytes);
            let announced = read is Some && (read->0).0 == "player_number"@ && listed_slots(
                (read->0).1,
            ).contains(slot);
            &&& after.contains_key(slot) <==> owners.contains_key(slot) || announced
            &&& announced ==> after[slot] == Some(peer)
            &&& !announced && owners.contains_key(slot) ==> after[slot] == owners[slot]
        }),
{
    let received = seq![(peer, bytes)];
    assert(received.drop_last() =~= Seq::empty());
    reveal_with_fuel(heard, 2);
    match read_message(bytes) {
        Some((name, data)) => {
            law_claim(owners, peer, listed_slots(data), slot);
        },
        None => {},
    }
}

/// Nothing is heard where nothing comes, and all packets are readable exactly if each of them is.
pub proof fn law_nothing_heard(
    owners: Map<usize, Option<PeerId>>,
    received: Seq<(PeerId, Seq<u8>)>,
)
    ensures
        heard(owners, Seq::empty()) == owners,
        all_readable(received) <==> forall|i: int|
            0 <= i < received.len() ==> read_message((#[trigger] received[i]).1) is Some,
{
}

/// At first a machine knows its own slots, as its own; what it keeps when it starts again is what
/// it knows as its own.
pub proof fn law_own_slots(
    local_players: Seq<usize>,
    owners: Map<usize, Option<PeerId>>,
    slot: usize,
)
    ensures
        own(local_players).contains_key(slot) <==> local_players.contains(slot),
        own(local_players).contains_key(slot) ==> own(local_players)[slot] is None,
        own_part(owners).contains_key(slot) <==> owners.contains_key(slot) && owners[slot] is None,
        own_part(owners).contains_key(slot) ==> own_part(owners)[slot] is None,
{
}

/// The owners are among some peers exactly if every peer that owns a slot is one of them, and they
/// are below a number exactly if every slot is.
pub proof fn law_owners_among(
    owners: Map<usize, Option<PeerId>>,
    peers: Seq<PeerId>,
    number_of_players: usize,
)
    ensures
        owners_among(owners, peers) <==> forall|slot: usize, peer: PeerId| #[trigger]
            owners.contains_key(slot) && owners[slot] == Some(peer) ==> #[trigger] peers.contains(
                peer,
            ),
        all_below(owners, number_of_players) <==> forall|slot: usize| #[trigger]
            owners.contains_key(slot) ==> slot < number_of_players,
{
}

} // verus!
