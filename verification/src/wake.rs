//! Waking a registered host: look it up, parse its stored hardware
//! address, and build the magic packet to broadcast.
//!
//! The store does not validate hardware addresses when records are written,
//! so a malformed address surfaces here, at wake time. Actually sending the
//! packet is the caller's step: it is fire-and-forget, independent per
//! call, and says nothing about whether the target woke.

use crate::net::{spec_magic_packet, spec_parse_mac, MacAddress, MagicPacket, ParseError};
use crate::store::{spec_get, HostStore, StoreV};
use vstd::prelude::*;

verus! {

/// Why a wake request failed.
#[derive(Clone, Copy, PartialEq, Eq, Structural, Debug)]
pub enum WakeError {
    /// No host carries the requested id.
    NotFound,
    /// The stored hardware address does not parse.
    Parse(ParseError),
    /// The packet could not be handed to the network.
    Network,
}

/// The payload a wake of `id` must broadcast, given the store's state: the
/// magic packet for the host's parsed hardware address, or the first error
/// on the way there.
pub open spec fn spec_prepare_wake(v: StoreV, id: int) -> Result<Seq<u8>, WakeError> {
    match spec_get(v, id) {
        Err(_) => Err(WakeError::NotFound),
        Ok(h) => match spec_parse_mac(h.mac_address) {
            Err(e) => Err(WakeError::Parse(e)),
            Ok(b) => Ok(spec_magic_packet(b)),
        },
    }
}

/// Looks up the host with this id and builds the magic packet for its
/// hardware address. Nothing is produced — and nothing need be sent — if
/// the lookup or the parse fails.
pub fn prepare_wake(store: &HostStore, id: i32) -> (r: Result<MagicPacket, WakeError>)
    ensures
        match r {
            Ok(p) => spec_prepare_wake(store@, id as int) == Ok::<Seq<u8>, WakeError>(p@),
            Err(e) => spec_prepare_wake(store@, id as int) == Err::<Seq<u8>, WakeError>(e),
        },
{
    let host = match store.get(id) {
        Ok(h) => h,
        Err(_) => {
            return Err(WakeError::NotFound);
        },
    };
    let mac = match MacAddress::parse(host.mac_address.as_str()) {
        Ok(m) => m,
        Err(e) => {
            return Err(WakeError::Parse(e));
        },
    };
    Ok(MagicPacket::for_mac_address(&mac))
}

} // verus!
