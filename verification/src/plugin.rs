//! The plugin shell: what the plugin tells its host about itself, and how a
//! host event becomes a plain value that can be logged or published.

use vstd::prelude::*;
use crate::codec::{Record, IDENTITY_SIZE};

verus! {

/// The plugin.  It keeps no state of its own.
#[derive(Debug, Default)]
pub struct SimplePlugin {}

/// Why a notification was turned down.
#[derive(Clone, Copy, Debug, PartialEq, Eq, Structural)]
pub enum PluginError {
    /// The node's contact info gave no gossip socket.
    GossipSocketUnavailable,
}

/// An account update, reduced to what the plugin reports of it.
#[derive(Clone, Copy, Debug, PartialEq, Eq)]
pub struct AccountUpdate {
    /// The account's 32-byte public key.
    pub pubkey: [u8; IDENTITY_SIZE],
    /// The slot in which the account changed.
    pub slot: u64,
}

/// The 32 bytes of `bytes` as a fixed-width identity.
pub fn identity_from(bytes: &[u8]) -> (identity: [u8; IDENTITY_SIZE])
    requires
        bytes@.len() == IDENTITY_SIZE,
    ensures
        identity@ == bytes@,
{
    let mut identity: [u8; IDENTITY_SIZE] = [0u8; IDENTITY_SIZE];
    let mut i: usize = 0;
    while i < IDENTITY_SIZE
        invariant
            i <= IDENTITY_SIZE == bytes@.len(),
            forall|k: int| 0 <= k < i ==> identity@[k] == bytes@[k],
        decreases IDENTITY_SIZE - i,
    {
        identity[i] = bytes[i];
        i = i + 1;
    }
    proof {
        assert(identity@ =~= bytes@);
    }
    identity
}

impl PluginError {
    /// The text under which the host is told of the error.
    pub fn message(&self) -> (text: &'static str)
        ensures
            text@ == "greg: failed to get gossip socket"@,
    {
        match self {
            PluginError::GossipSocketUnavailable => "greg: failed to get gossip socket",
        }
    }
}

impl SimplePlugin {
    /// The name under which the host lists the plugin.
    pub fn name(&self) -> (name: &'static str)
        ensures
            name@ == "simple-geyser"@,
    {
        "simple-geyser"
    }

    /// Account updates are not asked for.
    pub fn account_data_notifications_enabled(&self) -> (enabled: bool)
        ensures
            !enabled,
    {
        false
    }

    /// Transactions are not asked for.
    pub fn transaction_notifications_enabled(&self) -> (enabled: bool)
        ensures
            !enabled,
    {
        false
    }

    /// Node updates are asked for: they are what the ring carries.
    pub fn node_update_notifications_enabled(&self) -> (enabled: bool)
        ensures
            enabled,
    {
        true
    }

    /// Takes an account update in: the account's key, which must be 32
    /// bytes, and the slot.
    pub fn update_account(&self, pubkey: &[u8], slot: u64, _is_startup: bool) -> (update:
        AccountUpdate)
        requires
            pubkey@.len() == IDENTITY_SIZE,
        ensures
            update.pubkey@ == pubkey@,
            update.slot == slot,
    {
        AccountUpdate { pubkey: identity_from(pubkey), slot }
    }

    /// Takes a node's contact info in and turns it into the record to be
    /// published: identity, wallclock and shred version as they came.  A
    /// node whose contact info gave no gossip socket is turned down.
    pub fn notify_node_update(
        &self,
        pubkey: [u8; IDENTITY_SIZE],
        wallclock: u64,
        shred_version: u16,
        gossip_found: bool,
    ) -> (outcome: Result<Record, PluginError>)
        ensures
            outcome == if gossip_found {
                Ok::<Record, PluginError>(
                    Record { identity: pubkey, wallclock, version: shred_version },
                )
            } else {
                Err::<Record, PluginError>(PluginError::GossipSocketUnavailable)
            },
    {
        if !gossip_found {
            return Err(PluginError::GossipSocketUnavailable);
        }
        Ok(Record { identity: pubkey, wallclock, version: shred_version })
    }
}

} // verus!
