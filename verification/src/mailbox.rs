//! Messages between the machines of a session, over the reliable channel.

use crate::bytes::{be_to_i64, be_to_u64, be_value, byte_strings, twos_complement};
use crate::netplay::Netplay;
use crate::notice::Notice;
use crate::wire::{read_message, NetplayMessage};
use vstd::prelude::*;

verus! {

/// Nanoseconds after which a message that has not come is given up.
pub const RECEIVE_TIMEOUT_NANOS: u128 = 10_000_000_000;

/// What has to be done outside the session's own state.
#[derive(Clone, Copy, Debug, PartialEq, Eq, Structural)]
pub enum Effect {
    /// Tell the player.
    Show(Notice),
    /// Set the input delay of a local player; where that succeeds, tell the player.
    SetInputDelay { handle: usize, delay: usize },
}

/// The part of a session's state that messages change.
#[verifier::ext_equal]
pub struct Mailbox {
    pub incoming: Seq<u8>,
    pub messages: Map<Seq<char>, Seq<u8>>,
    pub input_delay: usize,
    pub disconnected: bool,
}

/// What the arrival of pieces of messages leads to. `malformed` says that an input delay came
/// that is not eight bytes long, after which nothing more is taken; `taken` is the number of
/// pieces taken.
#[verifier::ext_equal]
pub struct Delivery {
    pub mailbox: Mailbox,
    pub effects: Seq<Effect>,
    pub malformed: bool,
    pub taken: nat,
}

impl<I, C> Netplay<I, C> {
    /// The part of the state that messages change.
    pub open spec fn mailbox(self) -> Mailbox {
        Mailbox {
            incoming: self.incoming_message@,
            messages: self.messages@.map_values(|data: Vec<u8>| data@),
            input_delay: self.input_delay,
            disconnected: self.disconnected,
        }
    }

    /// Whether the two agree in all but the mailbox and the pieces not yet looked at.
    pub open spec fn same_outside_mailbox(self, other: Netplay<I, C>) -> bool {
        &&& self.peers == other.peers
        &&& self.local_players == other.local_players
        &&& self.connected == other.connected
        &&& self.inputs == other.inputs
        &&& self.requests == other.requests
        &&& self.ice_config_path == other.ice_config_path
        &&& self.number_of_players == other.number_of_players
        &&& self.last_bytes_sent == other.last_bytes_sent
        &&& self.last_bytes_recv == other.last_bytes_recv
    }
}

/// The settings of an input delay, one for each local player.
pub open spec fn delay_effects(handles: Seq<usize>, delay: usize) -> Seq<Effect> {
    handles.map_values(|handle: usize| Effect::SetInputDelay { handle, delay })
}

/// Whether an input delay, if one has come, is eight bytes long.
pub open spec fn delay_wellformed(m: Mailbox) -> bool {
    m.messages.contains_key("input_delay"@) ==> m.messages["input_delay"@].len() == 8
}

/// A number of slots or frames in eight big-endian bytes.
pub open spec fn be_usize(data: Seq<u8>) -> usize {
    (be_value(data) as u64) as usize
}

/// What the arrival of an input delay leads to: it is taken out, and if it is a new one, it is
/// set for every local player.
pub open spec fn delay_checked(m: Mailbox, handles: Seq<usize>) -> (Mailbox, Seq<Effect>) {
    if m.messages.contains_key("input_delay"@) {
        let delay = be_usize(m.messages["input_delay"@]);
        let taken = Mailbox { messages: m.messages.remove("input_delay"@), ..m };
        if delay != m.input_delay {
            (Mailbox { input_delay: delay, ..taken }, delay_effects(handles, delay))
        } else {
            (taken, Seq::empty())
        }
    } else {
        (m, Seq::empty())
    }
}

/// What the arrival of a farewell leads to: the session ends, and the player is told once.
pub open spec fn disconnect_checked(m: Mailbox) -> (Mailbox, Seq<Effect>) {
    if !m.disconnected && m.messages.contains_key("disconnect"@) {
        (
            Mailbox { messages: m.messages.remove("disconnect"@), disconnected: true, ..m },
            seq![Effect::Show(Notice::SessionEnded)],
        )
    } else {
        (m, Seq::empty())
    }
}

/// What a message that is complete leads to.
pub open spec fn message_taken(
    m: Mailbox,
    name: Seq<char>,
    data: Seq<u8>,
    handles: Seq<usize>,
) -> Delivery {
    let stored = Mailbox { incoming: Seq::empty(), messages: m.messages.insert(name, data), ..m };
    if !delay_wellformed(stored) {
        Delivery { mailbox: stored, effects: Seq::empty(), malformed: true, taken: 1 }
    } else {
        let (delayed, delay) = delay_checked(stored, handles);
        let (parted, farewell) = disconnect_checked(delayed);
        Delivery { mailbox: parted, effects: delay + farewell, malformed: false, taken: 1 }
    }
}

/// What one more piece of a message leads to.
pub open spec fn chunk_taken(m: Mailbox, chunk: Seq<u8>, handles: Seq<usize>) -> Delivery {
    let buffer = m.incoming + chunk;
    match read_message(buffer) {
        None => Delivery {
            mailbox: Mailbox { incoming: buffer, ..m },
            effects: Seq::empty(),
            malformed: false,
            taken: 1,
        },
        Some((name, data)) => message_taken(m, name, data, handles),
    }
}

/// What the arrival of these pieces, one after another, leads to.
pub open spec fn delivered(m: Mailbox, chunks: Seq<Seq<u8>>, handles: Seq<usize>) -> Delivery
    decreases chunks.len(),
{
    if chunks.len() == 0 {
        Delivery { mailbox: m, effects: Seq::empty(), malformed: false, taken: 0 }
    } else {
        let before = delivered(m, chunks.drop_last(), handles);
        if before.malformed {
            before
        } else {
            let now = chunk_taken(before.mailbox, chunks.last(), handles);
            Delivery {
                mailbox: now.mailbox,
                effects: before.effects + now.effects,
                malformed: now.malformed,
                taken: before.taken + 1,
            }
        }
    }
}

/// What `process_reliable_messages` hands back: what has to be done, and whether it stopped at an
/// input delay that is not eight bytes long.
pub struct Reliable {
    pub effects: Vec<Effect>,
    pub malformed: bool,
}

/// Takes the message of that name out of the store.
fn take_message<I, C>(netplay: &mut Netplay<I, C>, name: &str) -> (taken: Option<Vec<u8>>)
    ensures
        match taken {
            Some(data) => old(netplay).mailbox().messages.contains_key(name@)
                && old(netplay).mailbox().messages[name@] == data@,
            None => !old(netplay).mailbox().messages.contains_key(name@),
        },
        final(netplay).mailbox() == (Mailbox {
            messages: old(netplay).mailbox().messages.remove(name@),
            ..old(netplay).mailbox()
        }),
        final(netplay).received_data == old(netplay).received_data,
        final(netplay).same_outside_mailbox(*old(netplay)),
{
    let taken = match netplay.messages.get(name) {
        Some(data) => Some(data.clone()),
        None => None,
    };
    netplay.messages.remove(name);
    proof {
        let was = old(netplay).messages@;
        assert(netplay.messages@.map_values(|data: Vec<u8>| data@) =~= was.map_values(
            |data: Vec<u8>| data@,
        ).remove(name@));
        assert(taken is Some ==> taken->0@ =~= was[name@]@);
    }
    taken
}

/// Changes the input delay and says what has to be set for the local players.
pub fn change_input_delay<I, C>(
    netplay: &mut Netplay<I, C>,
    input_delay: usize,
    local_handles: &Vec<usize>,
) -> (effects: Vec<Effect>)
    ensures
        effects@ == delay_effects(local_handles@, input_delay),
        effects@.len() == local_handles@.len(),
        forall|i: int|
            0 <= i < local_handles@.len() ==> #[trigger] effects@[i] == (Effect::SetInputDelay {
                handle: local_handles@[i],
                delay: input_delay,
            }),
        final(netplay).input_delay == input_delay,
        final(netplay).mailbox() == (Mailbox { input_delay, ..old(netplay).mailbox() }),
        final(netplay).received_data == old(netplay).received_data,
        final(netplay).same_outside_mailbox(*old(netplay)),
{
    netplay.input_delay = input_delay;
    let mut effects: Vec<Effect> = Vec::new();
    let mut i: usize = 0;
    while i < local_handles.len()
        invariant
            i <= local_handles@.len(),
            effects@ == delay_effects(local_handles@.take(i as int), input_delay),
        decreases local_handles@.len() - i,
    {
        effects.push(Effect::SetInputDelay { handle: local_handles[i], delay: input_delay });
        i = i + 1;
        assert(effects@ =~= delay_effects(local_handles@.take(i as int), input_delay));
    }
    assert(local_handles@.take(i as int) =~= local_handles@);
    effects
}

/// Takes an input delay that has come out of the store and changes to it if it is a new one.
pub fn check_input_delay<I, C>(netplay: &mut Netplay<I, C>, local_handles: &Vec<usize>) -> (effects:
    Vec<Effect>)
    requires
        delay_wellformed(old(netplay).mailbox()),
    ensures
        (final(netplay).mailbox(), effects@) == delay_checked(
            old(netplay).mailbox(),
            local_handles@,
        ),
        final(netplay).received_data == old(netplay).received_data,
        final(netplay).same_outside_mailbox(*old(netplay)),
{
    if let Some(data) = take_message(netplay, "input_delay") {
        let input_delay: usize = be_to_u64(data.as_slice()) as usize;
        if input_delay != netplay.input_delay {
            return change_input_delay(netplay, input_delay, local_handles);
        }
    } else {
        assert(netplay.mailbox() =~= old(netplay).mailbox());
    }
    Vec::new()
}

/// Ends the session if a farewell has come.
pub fn check_disconnect<I, C>(netplay: &mut Netplay<I, C>) -> (effects: Vec<Effect>)
    ensures
        (final(netplay).mailbox(), effects@) == disconnect_checked(old(netplay).mailbox()),
        final(netplay).disconnected == (old(netplay).disconnected
            || old(netplay).messages@.contains_key("disconnect"@)),
        effects@.len() == 1 && effects@[0] == Effect::Show(Notice::SessionEnded) || effects@.len()
            == 0,
        effects@.len() == 1 <==> !old(netplay).disconnected && final(netplay).disconnected,
        final(netplay).received_data == old(netplay).received_data,
        final(netplay).same_outside_mailbox(*old(netplay)),
{
    let mut effects: Vec<Effect> = Vec::new();
    if !netplay.disconnected {
        if let Some(_) = take_message(netplay, "disconnect") {
            netplay.disconnected = true;
            effects.push(Effect::Show(Notice::SessionEnded));
        } else {
            assert(netplay.mailbox() =~= old(netplay).mailbox());
        }
    }
    effects
}

/// Takes in one more piece of a message.
fn take_chunk<I, C>(netplay: &mut Netplay<I, C>, chunk: Vec<u8>, local_handles: &Vec<usize>) -> (out:
    Reliable)
    ensures
        ({
            let now = chunk_taken(old(netplay).mailbox(), chunk@, local_handles@);
            &&& final(netplay).mailbox() == now.mailbox
            &&& out.effects@ == now.effects
            &&& out.malformed == now.malformed
        }),
        final(netplay).received_data == old(netplay).received_data,
        final(netplay).same_outside_mailbox(*old(netplay)),
{
    let mut chunk = chunk;
    netplay.incoming_message.append(&mut chunk);
    match NetplayMessage::decode(&netplay.incoming_message) {
        None => Reliable { effects: Vec::new(), malformed: false },
        Some(message) => {
            let ghost name = message.name@;
            let ghost data = message.data@;
            netplay.messages.insert(message.name, message.data);
            netplay.incoming_message.clear();
            assert(netplay.mailbox().messages =~= old(netplay).mailbox().messages.insert(
                name,
                data,
            ));
            assert(netplay.mailbox() =~= (Mailbox {
                incoming: Seq::empty(),
                messages: old(netplay).mailbox().messages.insert(name, data),
                ..old(netplay).mailbox()
            }));
            let malformed = match netplay.messages.get("input_delay") {
                Some(delay) => delay.len() != 8,
                None => false,
            };
            if malformed {
                Reliable { effects: Vec::new(), malformed: true }
            } else {
                let mut effects = check_input_delay(netplay, local_handles);
                let mut farewell = check_disconnect(netplay);
                effects.append(&mut farewell);
                Reliable { effects, malformed: false }
            }
        },
    }
}

/// Puts pieces of messages behind those that wait to be looked at.
fn queue_chunks<I, C>(netplay: &mut Netplay<I, C>, received: Vec<Vec<u8>>)
    ensures
        final(netplay).received_data@ == old(netplay).received_data@ + received@,
        final(netplay).mailbox() == old(netplay).mailbox(),
        final(netplay).same_outside_mailbox(*old(netplay)),
{
    let ghost begun = *netplay;
    for chunk in it: received
        invariant
            netplay.received_data@ == begun.received_data@ + it.seq().take(it.index() as int),
            netplay.mailbox() == begun.mailbox(),
            netplay.same_outside_mailbox(begun),
    {
        netplay.received_data.push_back(chunk);
        assert(it.seq().take(it.index() + 1) =~= it.seq().take(it.index() as int).push(chunk));
    }
    assert(received@.take(received@.len() as int) =~= received@);
}

/// Once delivery has stopped, more pieces change nothing.
pub proof fn lemma_delivered_stops(
    m: Mailbox,
    chunks: Seq<Seq<u8>>,
    handles: Seq<usize>,
    k: int,
)
    requires
        0 <= k <= chunks.len(),
        delivered(m, chunks.take(k), handles).malformed,
    ensures
        delivered(m, chunks, handles) == delivered(m, chunks.take(k), handles),
    decreases chunks.len() - k,
{
    if k == chunks.len() {
        assert(chunks.take(k) =~= chunks);
    } else {
        assert(chunks.take(k + 1).drop_last() =~= chunks.take(k));
        lemma_delivered_stops(m, chunks, handles, k + 1);
    }
}

/// Takes in what has come over the reliable channel: joins the pieces to messages, stores the
/// messages, and follows those that change the input delay or end the session.
pub fn process_reliable_messages<I, C>(
    netplay: &mut Netplay<I, C>,
    received: Vec<Vec<u8>>,
    local_handles: &Vec<usize>,
) -> (out: Reliable)
    ensures
        ({
            let all = old(netplay).received_data@ + received@;
            let d = delivered(old(netplay).mailbox(), byte_strings(all), local_handles@);
            &&& final(netplay).mailbox() == d.mailbox
            &&& out.effects@ == d.effects
            &&& out.malformed == d.malformed
            &&& final(netplay).received_data@ == all.skip(d.taken as int)
            &&& !d.malformed ==> final(netplay).received_data@.len() == 0
        }),
        final(netplay).same_outside_mailbox(*old(netplay)),
{
    let ghost all = netplay.received_data@ + received@;
    let ghost begun = *netplay;
    queue_chunks(netplay, received);
    let mut effects: Vec<Effect> = Vec::new();
    let ghost mut i: int = 0;
    assert(all.skip(0) =~= all);
    assert(byte_strings(all.take(0)) =~= Seq::<Seq<u8>>::empty());
    loop
        invariant
            begun == *old(netplay),
            all == begun.received_data@ + received@,
            0 <= i <= all.len(),
            netplay.received_data@ == all.skip(i),
            netplay.same_outside_mailbox(begun),
            delivered(begun.mailbox(), byte_strings(all.take(i)), local_handles@) == (Delivery {
                mailbox: netplay.mailbox(),
                effects: effects@,
                malformed: false,
                taken: i as nat,
            }),
        decreases all.len() - i,
    {
        match netplay.received_data.pop_front() {
            Some(chunk) => {
                proof {
                    let before = byte_strings(all.take(i));
                    let after = byte_strings(all.take(i + 1));
                    assert(all.skip(i)[0] == all[i]);
                    assert(all.skip(i).drop_first() =~= all.skip(i + 1));
                    assert(after.drop_last() =~= before);
                    assert(after.last() == chunk@);
                    i = i + 1;
                }
                let mut now = take_chunk(netplay, chunk, local_handles);
                effects.append(&mut now.effects);
                if now.malformed {
                    proof {
                        assert(byte_strings(all).take(i) =~= byte_strings(all.take(i)));
                        lemma_delivered_stops(
                            begun.mailbox(),
                            byte_strings(all),
                            local_handles@,
                            i,
                        );
                    }
                    return Reliable { effects, malformed: true };
                }
            },
            None => {
                assert(all.take(i) =~= all);
                return Reliable { effects, malformed: false };
            },
        }
    }
}

/// How the wait for a message goes on.
pub enum ReceiveStep<T> {
    /// The message has come.
    Ready(T),
    /// It has not come; look again in a millisecond.
    Retry,
    /// It has not come in time.
    TimedOut,
}

/// How the wait for the message of that name goes on after that time.
pub open spec fn waiting(
    messages: Map<Seq<char>, Seq<u8>>,
    name: Seq<char>,
    elapsed_nanos: u128,
) -> ReceiveStep<Seq<u8>> {
    if messages.contains_key(name) {
        ReceiveStep::Ready(messages[name])
    } else if elapsed_nanos > RECEIVE_TIMEOUT_NANOS {
        ReceiveStep::TimedOut
    } else {
        ReceiveStep::Retry
    }
}

/// The mailbox without the message of that name.
pub open spec fn without(m: Mailbox, name: Seq<char>) -> Mailbox {
    Mailbox { messages: m.messages.remove(name), ..m }
}

/// Looks for a message in the store, `elapsed_nanos` after the wait for it began.
pub fn receive_message<I, C>(netplay: &mut Netplay<I, C>, name: &str, elapsed_nanos: u128) -> (step:
    ReceiveStep<Vec<u8>>)
    ensures
        waiting(old(netplay).mailbox().messages, name@, elapsed_nanos) == (match step {
            ReceiveStep::Ready(data) => ReceiveStep::Ready(data@),
            ReceiveStep::Retry => ReceiveStep::Retry,
            ReceiveStep::TimedOut => ReceiveStep::TimedOut,
        }),
        match step {
            ReceiveStep::Ready(data) => old(netplay).messages@.contains_key(name@) && data@
                == old(netplay).messages@[name@]@,
            ReceiveStep::Retry => !old(netplay).messages@.contains_key(name@) && elapsed_nanos
                <= 10_000_000_000,
            ReceiveStep::TimedOut => !old(netplay).messages@.contains_key(name@) && elapsed_nanos
                > 10_000_000_000,
        },
        !final(netplay).messages@.contains_key(name@),
        final(netplay).mailbox() == without(old(netplay).mailbox(), name@),
        final(netplay).received_data == old(netplay).received_data,
        final(netplay).same_outside_mailbox(*old(netplay)),
{
    proof {
        law_mailbox_holds_the_state(*netplay);
    }
    let taken = take_message(netplay, name);
    proof {
        law_mailbox_holds_the_state(*netplay);
        assert(!netplay.mailbox().messages.dom().contains(name@));
    }
    if let Some(data) = taken {
        ReceiveStep::Ready(data)
    } else if elapsed_nanos > RECEIVE_TIMEOUT_NANOS {
        ReceiveStep::TimedOut
    } else {
        ReceiveStep::Retry
    }
}

/// Looks for the host's clock in the store.
pub fn receive_rtc<I, C>(netplay: &mut Netplay<I, C>, elapsed_nanos: u128) -> (step: ReceiveStep<
    i64,
>)
    requires
        old(netplay).mailbox().messages.contains_key("rtc"@) ==> old(
            netplay,
        ).mailbox().messages["rtc"@].len() == 8,
    ensures
        match waiting(old(netplay).mailbox().messages, "rtc"@, elapsed_nanos) {
            ReceiveStep::Ready(data) => step is Ready && twos_complement(step->0) == be_value(data),
            ReceiveStep::Retry => step is Retry,
            ReceiveStep::TimedOut => step is TimedOut,
        },
        final(netplay).mailbox() == without(old(netplay).mailbox(), "rtc"@),
        final(netplay).received_data == old(netplay).received_data,
        final(netplay).same_outside_mailbox(*old(netplay)),
{
    match receive_message(netplay, "rtc", elapsed_nanos) {
        ReceiveStep::Ready(data) => ReceiveStep::Ready(be_to_i64(data.as_slice())),
        ReceiveStep::Retry => ReceiveStep::Retry,
        ReceiveStep::TimedOut => ReceiveStep::TimedOut,
    }
}

/// Looks for the host's random seed in the store.
pub fn receive_rng<I, C>(netplay: &mut Netplay<I, C>, elapsed_nanos: u128) -> (step: ReceiveStep<
    u64,
>)
    requires
        old(netplay).mailbox().messages.contains_key("rng"@) ==> old(
            netplay,
        ).mailbox().messages["rng"@].len() == 8,
    ensures
        match waiting(old(netplay).mailbox().messages, "rng"@, elapsed_nanos) {
            ReceiveStep::Ready(data) => step is Ready && step->0 == be_value(data),
            ReceiveStep::Retry => step is Retry,
            ReceiveStep::TimedOut => step is TimedOut,
        },
        final(netplay).mailbox() == without(old(netplay).mailbox(), "rng"@),
        final(netplay).received_data == old(netplay).received_data,
        final(netplay).same_outside_mailbox(*old(netplay)),
{
    match receive_message(netplay, "rng", elapsed_nanos) {
        ReceiveStep::Ready(data) => ReceiveStep::Ready(be_to_u64(data.as_slice())),
        ReceiveStep::Retry => ReceiveStep::Retry,
        ReceiveStep::TimedOut => ReceiveStep::TimedOut,
    }
}

/// Looks for the host's save of that type in the store and, if it is there, puts it in the place
/// of `save_data`.
pub fn receive_save<I, C>(
    netplay: &mut Netplay<I, C>,
    save_type: &str,
    save_data: &mut Vec<u8>,
    elapsed_nanos: u128,
) -> (step: ReceiveStep<()>)
    ensures
        match waiting(old(netplay).mailbox().messages, save_type@, elapsed_nanos) {
            ReceiveStep::Ready(data) => step is Ready && final(save_data)@ == data,
            ReceiveStep::Retry => step is Retry && *final(save_data) == *old(save_data),
            ReceiveStep::TimedOut => step is TimedOut && *final(save_data) == *old(save_data),
        },
        final(netplay).mailbox() == without(old(netplay).mailbox(), save_type@),
        final(netplay).received_data == old(netplay).received_data,
        final(netplay).same_outside_mailbox(*old(netplay)),
{
    match receive_message(netplay, save_type, elapsed_nanos) {
        ReceiveStep::Ready(data) => {
            *save_data = data;
            ReceiveStep::Ready(())
        },
        ReceiveStep::Retry => ReceiveStep::Retry,
        ReceiveStep::TimedOut => ReceiveStep::TimedOut,
    }
}

/// Setting an input delay is setting it for every local player, in their order, to exactly that
/// delay.
pub proof fn law_delay_is_set_for_all(handles: Seq<usize>, delay: usize)
    ensures
        delay_effects(handles, delay).len() == handles.len(),
        forall|i: int|
            0 <= i < handles.len() ==> #[trigger] delay_effects(handles, delay)[i] == (
            Effect::SetInputDelay { handle: handles[i], delay }),
{
}

/// The mailbox is the part of the state that it is named after, field by field.
pub proof fn law_mailbox_holds_the_state<I, C>(netplay: Netplay<I, C>)
    ensures
        netplay.mailbox().incoming == netplay.incoming_message@,
        netplay.mailbox().input_delay == netplay.input_delay,
        netplay.mailbox().disconnected == netplay.disconnected,
        netplay.mailbox().messages.dom() == netplay.messages@.dom(),
        forall|name: Seq<char>|
            netplay.messages@.contains_key(name) ==> #[trigger] netplay.mailbox().messages[name]
                == netplay.messages@[name]@,
{
    assert(netplay.mailbox().messages.dom() =~= netplay.messages@.dom());
}

/// What is outside the mailbox is everything else, field by field.
pub proof fn law_outside_the_mailbox<I, C>(a: Netplay<I, C>, b: Netplay<I, C>)
    requires
        a.same_outside_mailbox(b),
    ensures
        a == (Netplay {
            disconnected: a.disconnected,
            input_delay: a.input_delay,
            messages: a.messages,
            received_data: a.received_data,
            incoming_message: a.incoming_message,
            ..b
        }),
{
}

/// Eight bytes are read as the number that they write, wherever it fits.
pub proof fn law_number_is_read(data: Seq<u8>)
    ensures
        be_value(data) <= usize::MAX ==> be_usize(data) == be_value(data),
{
}

/// An input delay that waits is well formed exactly if it is eight bytes long.
pub proof fn law_wellformed_delay(m: Mailbox)
    ensures
        delay_wellformed(m) <==> !m.messages.contains_key("input_delay"@)
            || m.messages["input_delay"@].len() == 8,
{
}

/// Following an input delay takes it out, makes it the delay of this machine, and sets it for every
/// local player exactly if it is a new one; everything else stays.
pub proof fn law_delay_is_followed(m: Mailbox, handles: Seq<usize>, name: Seq<char>)
    ensures
        ({
            let (after, effects) = delay_checked(m, handles);
            let came = m.messages.contains_key("input_delay"@);
            let delay = be_usize(m.messages["input_delay"@]);
            &&& !after.messages.contains_key("input_delay"@)
            &&& name != "input_delay"@ ==> after.messages.contains_key(name)
                == m.messages.contains_key(name) && (m.messages.contains_key(name)
                ==> after.messages[name] == m.messages[name])
            &&& after.incoming == m.incoming
            &&& after.disconnected == m.disconnected
            &&& came ==> after.input_delay == delay
            &&& !came ==> after.input_delay == m.input_delay
            &&& effects.len() == (if after.input_delay != m.input_delay {
                handles.len()
            } else {
                0
            })
            &&& forall|i: int|
                0 <= i < effects.len() ==> #[trigger] effects[i] == (Effect::SetInputDelay {
                    handle: handles[i],
                    delay: after.input_delay,
                })
        }),
{
}

/// Following a farewell ends the session and tells the player, once; a session that has ended
/// leaves it where it is; everything else stays.
pub proof fn law_farewell_is_followed(m: Mailbox, name: Seq<char>)
    ensures
        ({
            let (after, effects) = disconnect_checked(m);
            let came = m.messages.contains_key("disconnect"@);
            &&& after.disconnected == (m.disconnected || came)
            &&& after.messages.contains_key("disconnect"@) == (m.disconnected && came)
            &&& name != "disconnect"@ || m.disconnected ==> after.messages.contains_key(name)
                == m.messages.contains_key(name) && (m.messages.contains_key(name)
                ==> after.messages[name] == m.messages[name])
            &&& after.incoming == m.incoming
            &&& after.input_delay == m.input_delay
            &&& effects.len() == (if !m.disconnected && came {
                1int
            } else {
                0int
            })
            &&& effects.len() == 1 ==> effects[0] == Effect::Show(Notice::SessionEnded)
        }),
{
}

/// Bytes that make no whole message yet wait, all of them, and nothing else happens.
pub proof fn law_unreadable_bytes_wait(m: Mailbox, chunk: Seq<u8>, handles: Seq<usize>)
    requires
        read_message(m.incoming + chunk) is None,
    ensures
        ({
            let d = chunk_taken(m, chunk, handles);
            &&& d.mailbox.incoming == m.incoming + chunk
            &&& d.mailbox.messages == m.messages
            &&& d.mailbox.input_delay == m.input_delay
            &&& d.mailbox.disconnected == m.disconnected
            &&& d.effects.len() == 0
            &&& !d.malformed
        }),
{
}

/// Bytes that make a whole message are used up, with whatever follows them, and the message is
/// stored under its name, or followed, or stops the delivery: it stops it exactly if an input delay
/// then waits that is not eight bytes long.
pub proof fn law_readable_bytes_are_used_up(
    m: Mailbox,
    chunk: Seq<u8>,
    handles: Seq<usize>,
    name: Seq<char>,
    data: Seq<u8>,
    other: Seq<char>,
)
    requires
        read_message(m.incoming + chunk) == Some((name, data)),
    ensures
        ({
            let d = chunk_taken(m, chunk, handles);
            let control = other == "input_delay"@ || other == "disconnect"@;
            &&& d.mailbox.incoming.len() == 0
            &&& d.malformed <==> (if name == "input_delay"@ {
                data.len() != 8
            } else {
                m.messages.contains_key("input_delay"@) && m.messages["input_delay"@].len() != 8
            })
            &&& other == name && !control ==> d.mailbox.messages.contains_key(other)
                && d.mailbox.messages[other] == data
            &&& other != name && !control ==> d.mailbox.messages.contains_key(other)
                == m.messages.contains_key(other) && (m.messages.contains_key(other)
                ==> d.mailbox.messages[other] == m.messages[other])
            &&& m.disconnected ==> d.mailbox.disconnected
            &&& name == "disconnect"@ && !d.malformed ==> d.mailbox.disconnected
            &&& name == "input_delay"@ && !d.malformed ==> d.mailbox.input_delay == be_usize(data)
            &&& !m.messages.contains_key("input_delay"@) && name != "input_delay"@
                ==> d.mailbox.input_delay == m.input_delay
            &&& !m.messages.contains_key("disconnect"@) && name != "disconnect"@
                ==> d.mailbox.disconnected == m.disconnected
        }),
{
    reveal_strlit("input_delay");
    reveal_strlit("disconnect");
    assert("input_delay"@.len() == 11 && "disconnect"@.len() == 10);
    let stored = Mailbox { incoming: Seq::empty(), messages: m.messages.insert(name, data), ..m };
    law_wellformed_delay(stored);
    let delayed = delay_checked(stored, handles).0;
    law_delay_is_followed(stored, handles, other);
    law_delay_is_followed(stored, handles, "disconnect"@);
    law_farewell_is_followed(delayed, other);
    law_farewell_is_followed(delayed, "input_delay"@);
}

/// A wait ends with the message as soon as it is there, and without it after ten seconds; it goes
/// on otherwise.
pub proof fn law_wait_ends(
    messages: Map<Seq<char>, Seq<u8>>,
    name: Seq<char>,
    elapsed_nanos: u128,
)
    ensures
        waiting(messages, name, elapsed_nanos) is Ready <==> messages.contains_key(name),
        waiting(messages, name, elapsed_nanos) is Ready ==> waiting(
            messages,
            name,
            elapsed_nanos,
        )->0 == messages[name],
        waiting(messages, name, elapsed_nanos) is TimedOut <==> !messages.contains_key(name)
            && elapsed_nanos > 10_000_000_000,
        waiting(messages, name, elapsed_nanos) is Retry <==> !messages.contains_key(name)
            && elapsed_nanos <= 10_000_000_000,
{
}

/// Taking a message out takes out that message and nothing else.
pub proof fn law_one_message_is_taken_out(m: Mailbox, name: Seq<char>, other: Seq<char>)
    ensures
        !without(m, name).messages.contains_key(name),
        other != name ==> without(m, name).messages.contains_key(other)
            == m.messages.contains_key(other),
        other != name && m.messages.contains_key(other) ==> without(m, name).messages[other]
            == m.messages[other],
        without(m, name).incoming == m.incoming,
        without(m, name).input_delay == m.input_delay,
        without(m, name).disconnected == m.disconnected,
{
}

} // verus!
