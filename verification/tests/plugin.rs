use simple_geyser::plugin::identity_from;
use simple_geyser::{AccountUpdate, PluginError, Record, Segment, SimplePlugin};

#[test]
fn plugin_names_itself() {
    assert_eq!(SimplePlugin::default().name(), "simple-geyser");
    assert_eq!(SimplePlugin {}.name(), "simple-geyser");
}

#[test]
fn plugin_asks_for_node_updates_only() {
    let plugin = SimplePlugin::default();
    assert!(!plugin.account_data_notifications_enabled());
    assert!(!plugin.transaction_notifications_enabled());
    assert!(plugin.node_update_notifications_enabled());
}

#[test]
fn node_update_becomes_a_record() {
    let plugin = SimplePlugin::default();
    let outcome = plugin.notify_node_update([9; 32], 1_722_000_000_000, 50_093, true);
    assert_eq!(
        outcome,
        Ok(Record { identity: [9; 32], wallclock: 1_722_000_000_000, version: 50_093 })
    );
}

#[test]
fn node_update_without_gossip_socket_is_turned_down() {
    let plugin = SimplePlugin::default();
    let outcome = plugin.notify_node_update([9; 32], 1, 2, false);
    assert_eq!(outcome, Err(PluginError::GossipSocketUnavailable));
}

#[test]
fn gossip_error_carries_its_text() {
    assert_eq!(
        PluginError::GossipSocketUnavailable.message(),
        "greg: failed to get gossip socket"
    );
}

#[test]
fn account_update_keeps_key_and_slot() {
    let plugin = SimplePlugin::default();
    let key: Vec<u8> = (100u8..132).collect();
    let update = plugin.update_account(&key, 314_159, false);
    let mut expected = [0u8; 32];
    expected.copy_from_slice(&key);
    assert_eq!(update, AccountUpdate { pubkey: expected, slot: 314_159 });
    assert_eq!(plugin.update_account(&key, 0, true).slot, 0);
}

#[test]
fn identity_from_copies_thirty_two_bytes() {
    let bytes: Vec<u8> = (0u8..32).rev().collect();
    let identity = identity_from(&bytes);
    assert_eq!(identity.to_vec(), bytes);
}

#[test]
fn node_updates_flow_into_the_ring() {
    let plugin = SimplePlugin::default();
    let mut segment = Segment::open_or_create(Vec::new(), 2).unwrap();
    for n in 1..=3u8 {
        if let Ok(record) = plugin.notify_node_update([n; 32], n as u64, 1, n != 2) {
            segment.publish(record);
        }
    }
    assert_eq!(segment.head(), 2);
    assert_eq!(segment.tail(), 0);
    assert_eq!(
        segment.snapshot(),
        vec![
            Record { identity: [1; 32], wallclock: 1, version: 1 },
            Record { identity: [3; 32], wallclock: 3, version: 1 },
        ]
    );
}
