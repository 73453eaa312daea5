//! What a netplay session is started with.

use vstd::prelude::*;

verus! {

/// A path of the file system, carried through unread.
#[verifier::external_type_specification]
#[verifier::external_body]
pub struct ExPathBuf(std::path::PathBuf);

/// Specifies `std::path::PathBuf::clone`. Claimed: the copy is the same path.
pub assume_specification[ <std::path::PathBuf as Clone>::clone ](
    path: &std::path::PathBuf,
) -> (copy: std::path::PathBuf)
    ensures
        copy == *path,
;

/// A server that helps peers find a way to each other, with the login it asks for.
pub struct RtcIceServerConfig {
    pub urls: Vec<String>,
    pub username: Option<String>,
    pub credential: Option<String>,
}

/// What the player asked for.
pub struct NetplayConfig {
    /// The URL of the room on the signaling server.
    pub server_addr: String,
    /// The player slots, counted from zero, that this machine owns. Each slot is driven by the
    /// controller of the same index; remote peers see all of them as belonging to this machine.
    pub local_players: Vec<usize>,
    /// The number of players on all machines together.
    pub number_of_players: usize,
    /// The input delay in frames.
    pub input_delay: usize,
    /// Where the login of the ICE server lies.
    pub ice_config_path: std::path::PathBuf,
}

} // verus!
