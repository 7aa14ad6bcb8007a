use shardmesh::codec::{decode_update, encode_update, receive_positions};
use shardmesh::membership::PositionUpdate;
use shardmesh::registry::{Player, PlayerRegister, SessionStruct};
use shardmesh::relay::send_positions;

fn join(s: &mut SessionStruct, id: u128, address: &str) -> u128 {
    let reg = PlayerRegister { player: Player { id: 0 }, address: address.to_string() };
    s.register_with_id(reg, id)
}

#[test]
fn registry_join_list_count_leave() {
    let mut s = SessionStruct::new();
    assert_eq!(s.count(), 0);
    assert_eq!(join(&mut s, 7, "127.0.0.1:4000"), 7);
    join(&mut s, 9, "127.0.0.1:4001");
    assert_eq!(s.count(), 2);
    let ids: Vec<u128> = s.get_players().iter().map(|p| p.id).collect();
    assert_eq!(ids, vec![7, 9]);
    s.unregister_player(7);
    assert_eq!(s.count(), 1);
    assert_eq!(s.addresses(), vec!["127.0.0.1:4001".to_string()]);
}

#[test]
fn leave_of_absent_player_is_a_no_op() {
    let mut s = SessionStruct::new();
    join(&mut s, 1, "a");
    s.unregister_player(2);
    s.unregister_player(2);
    assert_eq!(s.count(), 1);
}

#[test]
fn rejoin_replaces_the_address() {
    let mut s = SessionStruct::new();
    join(&mut s, 1, "a");
    join(&mut s, 1, "b");
    assert_eq!(s.count(), 1);
    assert_eq!(s.addresses(), vec!["b".to_string()]);
}

#[test]
fn register_mints_fresh_identifiers() {
    let mut s = SessionStruct::new();
    let reg = PlayerRegister { player: Player { id: 5 }, address: "a".to_string() };
    let first = s.register_player(reg);
    let reg = PlayerRegister { player: Player { id: 5 }, address: "b".to_string() };
    let second = s.register_player(reg);
    assert_ne!(first, second);
    assert_ne!(first, 5);
    assert_eq!(s.count(), 2);
    let ids: Vec<u128> = s.get_players().iter().map(|p| p.id).collect();
    assert_eq!(ids, vec![first, second]);
}

#[test]
fn relay_forwards_each_datagram_to_every_address_in_order() {
    let mut s = SessionStruct::new();
    join(&mut s, 1, "a");
    join(&mut s, 2, "b");
    join(&mut s, 3, "c");
    let updates = vec![vec![1u8, 2, 3], vec![9u8]];
    let out = send_positions(&s, &updates);
    let got: Vec<(String, Vec<u8>)> = out.into_iter().map(|d| (d.address, d.payload)).collect();
    let want: Vec<(String, Vec<u8>)> = vec![
        ("a".to_string(), vec![1, 2, 3]),
        ("b".to_string(), vec![1, 2, 3]),
        ("c".to_string(), vec![1, 2, 3]),
        ("a".to_string(), vec![9]),
        ("b".to_string(), vec![9]),
        ("c".to_string(), vec![9]),
    ];
    assert_eq!(got, want);
}

#[test]
fn relay_with_empty_roster_sends_nothing() {
    let s = SessionStruct::new();
    assert_eq!(send_positions(&s, &vec![vec![1u8]]).len(), 0);
}

#[test]
fn datagram_layout_is_exact() {
    let u = PositionUpdate { player_id: 0x0102030405060708090a0b0c0d0e0f10, x: 0x11223344, y: 1, z: 0xffffffff };
    let b = encode_update(&u);
    let mut want = vec![16u8, 0, 0, 0, 0, 0, 0, 0];
    want.extend_from_slice(&[1, 2, 3, 4, 5, 6, 7, 8, 9, 10, 11, 12, 13, 14, 15, 16]);
    want.extend_from_slice(&[0x44, 0x33, 0x22, 0x11, 1, 0, 0, 0, 0xff, 0xff, 0xff, 0xff]);
    assert_eq!(b, want);
    assert_eq!(decode_update(&b), Some(u));
}

#[test]
fn datagram_round_trip_with_float_bits() {
    let u = PositionUpdate { player_id: 77, x: 1.5f32.to_bits(), y: (-2.25f32).to_bits(), z: 0.0f32.to_bits() };
    let d = decode_update(&encode_update(&u)).unwrap();
    assert_eq!(f32::from_bits(d.x), 1.5);
    assert_eq!(f32::from_bits(d.y), -2.25);
    assert_eq!(d.player_id, 77);
}

#[test]
fn malformed_datagrams_are_dropped() {
    let u = PositionUpdate { player_id: 3, x: 1, y: 2, z: 3 };
    let good = encode_update(&u);
    let mut short = good.clone();
    short.pop();
    assert_eq!(decode_update(&short), None);
    let mut bad_prefix = good.clone();
    bad_prefix[0] = 15;
    assert_eq!(decode_update(&bad_prefix), None);
    assert_eq!(receive_positions(&bad_prefix), None);
    assert_eq!(receive_positions(&vec![]), None);
    assert_eq!(receive_positions(&good), Some(good.clone()));
}

#[test]
fn register_then_unregister_restores_the_roster() {
    let mut s = SessionStruct::new();
    join(&mut s, 4, "a");
    let reg = PlayerRegister { player: Player { id: 4 }, address: "b".to_string() };
    let id = s.register_player(reg);
    assert_ne!(id, 4);
    assert_eq!(s.count(), 2);
    s.unregister_player(id);
    assert_eq!(s.count(), 1);
    assert_eq!(s.addresses(), vec!["a".to_string()]);
}
