use mcrs::block::{BlockBlueprint, Blueprints};
use mcrs::hotbar::{atlas_index, hand_choices, hotbar_slots, slot_digit, HotbarSlot, PlayerHand, ATLAS_COLUMNS, HOTBAR_SLOTS};
use mcrs::net::NetworkMode;
use mcrs::settings::{Args, McrsSettings, DEFAULT_TICKS_PER_SECOND};

#[test]
fn default_settings() {
    let s = McrsSettings::defaults(256);
    assert_eq!(s.ticks_per_second, 64);
    assert_eq!(DEFAULT_TICKS_PER_SECOND, 64);
    assert_eq!(s.view_distance_blocks, 256);
    assert_eq!(s.server_address, "127.0.0.1");
    assert_eq!(s.network_mode, NetworkMode::ClientAndServer);
}

#[test]
fn settings_from_the_command_line() {
    let none = Args { network_mode: None, address_server: None, view_distance: None };
    let s = McrsSettings::from_args(none, 200).unwrap();
    assert_eq!(s.network_mode, NetworkMode::ClientAndServer);
    assert_eq!(s.view_distance_blocks, 200);
    assert_eq!(s.server_address, "127.0.0.1");
    let all = Args {
        network_mode: Some("client".to_string()),
        address_server: Some("10.0.0.2".to_string()),
        view_distance: Some(96),
    };
    let s = McrsSettings::from_args(all, 200).unwrap();
    assert_eq!(s.network_mode, NetworkMode::Client);
    assert_eq!(s.view_distance_blocks, 96);
    assert_eq!(s.server_address, "10.0.0.2");
    assert_eq!(s.render_settings().view_distance_blocks, 96);
    let net = s.net_settings();
    assert_eq!(net.replication_distance, 96);
    assert_eq!(net.network_mode, NetworkMode::Client);
    assert_eq!(net.server_address, "10.0.0.2");
    let bad = Args { network_mode: Some("peer".to_string()), address_server: None, view_distance: None };
    assert!(McrsSettings::from_args(bad, 200).is_none());
}

fn slots() -> Vec<HotbarSlot> {
    (0..9).map(|i| HotbarSlot { index: i, block_id: if i < 5 { Some(i as u8 + 1) } else { None } }).collect()
}

#[test]
fn scrolling_wraps_around_the_hotbar() {
    assert_eq!(HOTBAR_SLOTS, 9);
    let slots = slots();
    let mut hand = PlayerHand { hotbar_index: 0, block_id: Some(1) };
    hand.scroll(false, &slots);
    assert_eq!(hand.hotbar_index, 8);
    assert_eq!(hand.block_id, None);
    hand.scroll(true, &slots);
    assert_eq!(hand.hotbar_index, 0);
    assert_eq!(hand.block_id, Some(1));
    hand.scroll(true, &slots);
    assert_eq!(hand.hotbar_index, 1);
    assert_eq!(hand.block_id, Some(2));
    let mut lost = PlayerHand { hotbar_index: 3, block_id: Some(7) };
    lost.scroll(true, &vec![]);
    assert_eq!(lost.hotbar_index, 4);
    assert_eq!(lost.block_id, Some(7));
}

#[test]
fn selecting_a_slot() {
    let slots = slots();
    let mut hand = PlayerHand::default();
    hand.select(&slots[3]);
    assert_eq!(hand, PlayerHand { hotbar_index: 3, block_id: Some(4) });
    assert!(hand.is_on(&slots[3]));
    assert!(!hand.is_on(&slots[4]));
}

#[test]
fn slot_keys_and_atlas() {
    assert_eq!(slot_digit(0), Some(1));
    assert_eq!(slot_digit(8), Some(9));
    assert_eq!(slot_digit(9), Some(0));
    assert_eq!(slot_digit(10), None);
    assert_eq!(slot_digit(-1), None);
    assert_eq!(ATLAS_COLUMNS, 16);
    assert_eq!(atlas_index(3, 2), 35);
    assert_eq!(atlas_index(0, 0), 0);
}

#[test]
fn hotbar_offers_known_blocks() {
    let named = |id: u8, name: &str| BlockBlueprint { id, name: name.to_string(), light_level: 0, flags: vec![] };
    let bp = Blueprints { blocks: vec![named(0, "Air"), named(1, "Stone"), named(2, "Dirt"), named(3, "Grass"), named(4, "Dirt")] };
    let slots = hotbar_slots(&bp);
    assert_eq!(slots.len(), 9);
    assert_eq!(slots[0], HotbarSlot { index: 0, block_id: Some(1) });
    assert_eq!(slots[1], HotbarSlot { index: 1, block_id: None });
    assert_eq!(slots[3], HotbarSlot { index: 3, block_id: Some(2) });
    assert_eq!(slots[6], HotbarSlot { index: 6, block_id: Some(3) });
    assert_eq!(slots[8], HotbarSlot { index: 8, block_id: None });
    assert_eq!(bp.get_named_checked("Dirt").map(|b| b.id), Some(2));
    assert!(bp.get_named_checked("Brick").is_none());
}

#[test]
fn every_block_but_air_can_be_picked() {
    let named = |id: u8, name: &str| BlockBlueprint { id, name: name.to_string(), light_level: 0, flags: vec![] };
    let bp = Blueprints { blocks: vec![named(0, "Air"), named(1, "Stone"), named(2, "Air"), named(3, "Grass")] };
    assert_eq!(hand_choices(&bp), vec![1, 3]);
    assert!(hand_choices(&Blueprints { blocks: vec![] }).is_empty());
}
