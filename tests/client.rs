use shardmesh::membership::{sync_positions, sync_players, PositionUpdate, Server};
use shardmesh::tree::{get_server, Config, Position, Server as Tree};

#[test]
fn crossing_the_midline_leaves_then_joins() {
    let mut m = Server::new(vec![0]);
    let change = m.sync_servers(&vec![1]);
    assert_eq!(change.leave, vec![0]);
    assert_eq!(change.join, vec![1]);
    assert_eq!(m.position_targets(), vec![1]);
}

#[test]
fn unchanged_membership_issues_no_calls() {
    let mut m = Server::new(vec![0, 1]);
    let change = m.sync_servers(&vec![1, 0]);
    assert!(change.leave.is_empty());
    assert!(change.join.is_empty());
}

#[test]
fn entering_the_border_joins_a_second_shard() {
    let mut m = Server::new(vec![0]);
    let change = m.sync_servers(&vec![0, 1]);
    assert!(change.leave.is_empty());
    assert_eq!(change.join, vec![1]);
    assert_eq!(m.position_targets(), vec![0, 1]);
}

#[test]
fn drain_keeps_last_update_per_player_and_skips_self() {
    let ups = vec![
        PositionUpdate { player_id: 1, x: 10, y: 0, z: 0 },
        PositionUpdate { player_id: 2, x: 20, y: 0, z: 0 },
        PositionUpdate { player_id: 1, x: 11, y: 0, z: 0 },
        PositionUpdate { player_id: 9, x: 90, y: 0, z: 0 },
    ];
    let out = sync_positions(&ups, 9);
    assert_eq!(out.len(), 2);
    assert_eq!(out[0], PositionUpdate { player_id: 1, x: 11, y: 0, z: 0 });
    assert_eq!(out[1], PositionUpdate { player_id: 2, x: 20, y: 0, z: 0 });
}

#[test]
fn roster_reconciliation_spawns_and_despawns() {
    let known = vec![1u128, 2, 3];
    let present = vec![2u128, 4, 9, 4, 3];
    let (spawn, despawn) = sync_players(&known, &present, 9);
    assert_eq!(spawn, vec![4]);
    assert_eq!(despawn, vec![1]);
}

#[test]
fn midline_crossing_through_the_coordinator() {
    let mut ch = Vec::new();
    for k in 0..8 {
        ch.push(Tree::Num(if k < 4 { 0 } else { 1 }, 0));
    }
    let tree = Tree::Octree(ch);
    let config = Config { world_size: 1024, max_players: 100, border_num: 1, border_den: 10 };
    let mut m = Server::new(get_server(&tree, Position { x: -200, y: 0, z: -300 }, &config));
    assert_eq!(m.position_targets(), vec![0]);
    let now = get_server(&tree, Position { x: 200, y: 0, z: -300 }, &config);
    assert_eq!(now, vec![1]);
    let change = m.sync_servers(&now);
    assert_eq!(change.leave, vec![0]);
    assert_eq!(change.join, vec![1]);
    assert_eq!(m.position_targets(), vec![1]);
}
