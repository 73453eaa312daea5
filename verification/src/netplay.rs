//! A running netplay session.

use crate::peer::PeerId;
use std::collections::VecDeque;
use vstd::hash_map::StringHashMap;
use vstd::prelude::*;

verus! {

/// Whether the input of a player in a frame is the real one.
#[derive(Clone, Copy, Debug, PartialEq, Eq, Structural)]
pub enum InputStatus {
    /// It is the input that the player gave.
    Confirmed,
    /// It is a guess.
    Predicted,
    /// The player is gone; it stands for no input.
    Disconnected,
}

/// What the session asks of the emulator. `I` is the input of one player, `C` the cell that a
/// saved state goes into.
pub enum GgrsRequest<I, C> {
    /// Save the state of the game, at that frame, in the cell.
    SaveGameState { cell: C, frame: i32 },
    /// Load the state of the game from the cell.
    LoadGameState { cell: C, frame: i32 },
    /// Run one frame with these inputs.
    AdvanceFrame { inputs: Vec<(I, InputStatus)> },
}

/// The state of a netplay session on this machine.
pub struct Netplay<I, C> {
    /// Whether the session has ended. It does not begin again.
    pub disconnected: bool,
    /// The other machines of the session.
    pub peers: Vec<PeerId>,
    /// The player slots that this machine owns.
    pub local_players: Vec<usize>,
    /// Which of the four controller ports have a player.
    pub connected: [bool; 4],
    /// The input delay in frames.
    pub input_delay: usize,
    /// Messages that have come and wait to be taken, by name.
    pub messages: StringHashMap<Vec<u8>>,
    /// Pieces of messages that have come and have not been looked at.
    pub received_data: VecDeque<Vec<u8>>,
    /// The inputs of the current frame.
    pub inputs: Vec<(I, InputStatus)>,
    /// What the session asks of the emulator, oldest first.
    pub requests: VecDeque<GgrsRequest<I, C>>,
    /// The part of a message that has come so far.
    pub incoming_message: Vec<u8>,
    /// Where the login of the ICE server lies.
    pub ice_config_path: std::path::PathBuf,
    /// The number of players on all machines together.
    pub number_of_players: usize,
    /// The counters of the channel at the last sample of the throughput.
    pub last_bytes_sent: u64,
    pub last_bytes_recv: u64,
}

/// Whether `slot` stands in `slots`.
pub fn contains_slot(slots: &Vec<usize>, slot: usize) -> (found: bool)
    ensures
        found == slots@.contains(slot),
{
    let mut i: usize = 0;
    while i < slots.len()
        invariant
            i <= slots@.len(),
            forall|j: int| 0 <= j < i ==> slots@[j] != slot,
        decreases slots@.len() - i,
    {
        if slots[i] == slot {
            return true;
        }
        i = i + 1;
    }
    false
}

/// Whether a machine that owns these slots is the host.
pub open spec fn hosts(local_players: Seq<usize>) -> bool {
    local_players.contains(0)
}

/// If every slot belongs to one machine, and slot zero to some machine, exactly one machine is
/// the host.
pub proof fn law_one_host(machines: Seq<Seq<usize>>)
    requires
        exists|m: int| 0 <= m < machines.len() && (#[trigger] machines[m]).contains(0),
        forall|m: int, n: int, slot: usize|
            0 <= m < machines.len() && 0 <= n < machines.len() && (
            #[trigger] machines[m].contains(slot)) && (#[trigger] machines[n].contains(slot)) ==> m
                == n,
    ensures
        exists|m: int| 0 <= m < machines.len() && hosts(#[trigger] machines[m]),
        forall|m: int, n: int|
            0 <= m < machines.len() && 0 <= n < machines.len() && hosts(#[trigger] machines[m])
                && hosts(#[trigger] machines[n]) ==> m == n,
{
    let m = choose|m: int| 0 <= m < machines.len() && (#[trigger] machines[m]).contains(0);
    assert(hosts(machines[m]));
}

impl<I, C> Netplay<I, C> {
    /// Whether a controller on this machine drives the player slot.
    pub fn owns_slot(&self, slot: usize) -> (owned: bool)
        ensures
            owned == self.local_players@.contains(slot),
    {
        contains_slot(&self.local_players, slot)
    }

    /// Whether this machine owns slot zero, and so decides what one machine has to decide for all.
    pub fn is_host(&self) -> (host: bool)
        ensures
            host == hosts(self.local_players@),
            host == self.local_players@.contains(0),
    {
        self.owns_slot(0)
    }
}

/// The host is a machine that owns slot zero, whatever else it owns.
pub proof fn law_host_owns_slot_zero(local_players: Seq<usize>)
    ensures
        hosts(local_players) <==> local_players.contains(0),
{
}

} // verus!
