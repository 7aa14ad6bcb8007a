use shardmesh::restructure::{restructure_servers, split_leaf};
use shardmesh::tree::{get_server, Config, Position, Server};

fn leaves(indices: [usize; 8], pops: [usize; 8]) -> Server {
    let mut ch = Vec::new();
    for k in 0..8 {
        ch.push(Server::Num(indices[k], pops[k]));
    }
    Server::Octree(ch)
}

fn config(max_players: usize) -> Config {
    Config { world_size: 1024, max_players, border_num: 1, border_den: 10 }
}

fn sorted(mut v: Vec<usize>) -> Vec<usize> {
    v.sort();
    v
}

fn leaf(s: &Server) -> (usize, usize) {
    match s {
        Server::Num(i, p) => (*i, *p),
        Server::Octree(_) => panic!("expected a leaf"),
    }
}

fn children(s: &Server) -> &Vec<Server> {
    match s {
        Server::Octree(ch) => ch,
        Server::Num(_, _) => panic!("expected a node"),
    }
}

#[test]
fn single_leaf_covers_everything() {
    let t = Server::Num(3, 0);
    let p = Position { x: 512, y: 512, z: 512 };
    assert_eq!(t.query(p, 1024, 1, 10), vec![3]);
}

#[test]
fn interior_point_gets_one_shard() {
    let t = leaves([0, 1, 2, 3, 4, 5, 6, 7], [0; 8]);
    // Octant (1, 0, 1): x and z in the upper half, y in the lower half.
    let p = Position { x: 800, y: 200, z: 900 };
    assert_eq!(t.query(p, 1024, 1, 10), vec![5]);
}

#[test]
fn point_near_one_plane_gets_two_shards() {
    let t = leaves([0, 1, 2, 3, 4, 5, 6, 7], [0; 8]);
    // x = 520 is within a tenth of the half size (51.2) of the plane at 512.
    let p = Position { x: 520, y: 100, z: 100 };
    assert_eq!(sorted(t.query(p, 1024, 1, 10)), vec![0, 4]);
}

#[test]
fn point_near_two_planes_gets_three_shards() {
    let t = leaves([0, 1, 2, 3, 4, 5, 6, 7], [0; 8]);
    let p = Position { x: 500, y: 530, z: 100 };
    assert_eq!(sorted(t.query(p, 1024, 1, 10)), vec![0, 2, 6]);
}

#[test]
fn query_deduplicates_shared_shards() {
    let t = leaves([0, 1, 2, 3, 0, 5, 6, 7], [0; 8]);
    let p = Position { x: 520, y: 100, z: 100 };
    assert_eq!(t.query(p, 1024, 1, 10), vec![0]);
}

#[test]
fn query_descends_with_node_relative_coordinates() {
    let inner = leaves([8, 9, 10, 11, 12, 13, 14, 15], [0; 8]);
    let mut ch = Vec::new();
    ch.push(Server::Num(0, 0));
    ch.push(Server::Num(1, 0));
    ch.push(Server::Num(2, 0));
    ch.push(Server::Num(3, 0));
    ch.push(Server::Num(4, 0));
    ch.push(Server::Num(5, 0));
    ch.push(Server::Num(6, 0));
    ch.push(inner);
    let t = Server::Octree(ch);
    // In octant (1, 1, 1); inside it, at (900-512, 600-512, 1000-512) = (388, 88, 488): octant (1, 0, 1).
    let p = Position { x: 900, y: 600, z: 1000 };
    assert_eq!(t.query(p, 1024, 1, 10), vec![13]);
}

#[test]
fn get_server_recentres_the_position() {
    let t = leaves([0, 1, 2, 3, 4, 5, 6, 7], [0; 8]);
    let config = Config { world_size: 1024, max_players: 100, border_num: 1, border_den: 10 };
    // (-300, -300, 300) moves to (212, 212, 812): octant (0, 0, 1).
    assert_eq!(get_server(&t, Position { x: -300, y: -300, z: 300 }, &config), vec![1]);
    // The origin sits on all three planes: the owner and one neighbour across each.
    assert_eq!(sorted(get_server(&t, Position { x: 0, y: 0, z: 0 }, &config)), vec![3, 5, 6, 7]);
}

#[test]
fn overfull_single_leaf_splits_with_small_pool() {
    let mut t = Server::Num(0, 101);
    let mut free = vec![false, true];
    restructure_servers(&mut t, &mut free, &vec![None, None], &config(100));
    let ch = children(&t);
    assert_eq!(ch.len(), 8);
    assert_eq!(leaf(&ch[0]), (0, 0));
    assert_eq!(leaf(&ch[1]), (1, 0));
    for k in 2..8 {
        assert_eq!(leaf(&ch[k]), (0, 0));
    }
    assert_eq!(free, vec![false, false]);
}

#[test]
fn split_draws_lowest_free_shards_in_turn() {
    let mut free = vec![true, false, true, true, false, true, true, true, true, true];
    let t = split_leaf(1, &mut free);
    let got: Vec<usize> = children(&t).iter().map(|c| leaf(c).0).collect();
    assert_eq!(got, vec![1, 0, 2, 3, 5, 6, 7, 8]);
    assert_eq!(free, vec![false, false, false, false, false, false, false, false, false, true]);
}

#[test]
fn population_refresh_takes_reported_counts() {
    let mut t = leaves([0, 1, 2, 3, 4, 5, 6, 7], [5; 8]);
    let mut counts = vec![None; 8];
    counts[3] = Some(42);
    t.update_population(&counts);
    let ch = children(&t);
    assert_eq!(leaf(&ch[3]), (3, 42));
    assert_eq!(leaf(&ch[2]), (2, 5));
}

#[test]
fn adjacent_siblings_merge_and_free_a_shard() {
    let mut t = leaves([0, 1, 2, 3, 4, 5, 6, 7], [10, 100, 100, 100, 20, 100, 100, 100]);
    let mut free = vec![false; 8];
    t.restructure_free(&mut free, 100);
    let ch = children(&t);
    assert_eq!(leaf(&ch[0]), (0, 30));
    assert_eq!(leaf(&ch[4]), (0, 30));
    assert_eq!(leaf(&ch[1]), (1, 100));
    assert_eq!(free, vec![false, false, false, false, true, false, false, false]);
}

#[test]
fn merge_needs_combined_population_below_threshold() {
    let mut t = leaves([0, 1, 2, 3, 4, 5, 6, 7], [40, 100, 100, 100, 60, 100, 100, 100]);
    let mut free = vec![false; 8];
    t.restructure_free(&mut free, 100);
    let ch = children(&t);
    assert_eq!(leaf(&ch[0]), (0, 40));
    assert_eq!(leaf(&ch[4]), (4, 60));
    assert_eq!(free, vec![false; 8]);
}

#[test]
fn freed_shard_is_drawn_by_a_later_split() {
    let mut t = leaves([0, 1, 2, 3, 4, 5, 6, 7], [10, 150, 100, 100, 20, 100, 100, 100]);
    let mut free = vec![false; 8];
    restructure_servers(&mut t, &mut free, &vec![None; 8], &config(100));
    let ch = children(&t);
    assert_eq!(leaf(&ch[0]), (0, 30));
    assert_eq!(leaf(&ch[4]), (0, 30));
    let split = children(&ch[1]);
    assert_eq!(leaf(&split[0]), (1, 0));
    assert_eq!(leaf(&split[1]), (4, 0));
    assert_eq!(leaf(&split[2]), (1, 0));
    assert_eq!(free, vec![false; 8]);
}

#[test]
fn node_of_one_shard_collapses() {
    let mut t = leaves([0; 8], [30; 8]);
    let mut free = vec![false; 8];
    t.restructure_free(&mut free, 100);
    assert_eq!(leaf(&t), (0, 30));
}

#[test]
fn node_of_one_overfull_shard_collapses() {
    let mut t = leaves([0; 8], [150; 8]);
    let mut free = vec![false; 8];
    t.restructure_free(&mut free, 100);
    assert_eq!(leaf(&t), (0, 150));
}

#[test]
fn collapse_runs_bottom_up_in_one_call() {
    let mut ch = Vec::new();
    ch.push(leaves([0; 8], [50; 8]));
    for _ in 1..8 {
        ch.push(Server::Num(0, 150));
    }
    let mut t = Server::Octree(ch);
    let mut free = vec![false; 8];
    t.restructure_free(&mut free, 100);
    assert_eq!(leaf(&t), (0, 50));
}

#[test]
fn overfull_shard_with_empty_pool_keeps_its_shape() {
    let mut t = leaves([0; 8], [0; 8]);
    let mut free = vec![false];
    let counts = vec![Some(150)];
    for _ in 0..3 {
        restructure_servers(&mut t, &mut free, &counts, &config(100));
        let ch = children(&t);
        assert_eq!(ch.len(), 8);
        for k in 0..8 {
            assert_eq!(leaf(&ch[k]), (0, 0));
        }
    }
}

#[test]
fn collapse_counts_each_shard_once() {
    let mut t = leaves([0, 0, 0, 0, 4, 0, 0, 0], [45; 8]);
    let mut free = vec![false; 8];
    t.restructure_free(&mut free, 100);
    assert_eq!(leaf(&t), (0, 90));
    assert_eq!(free, vec![false, false, false, false, true, false, false, false]);
}

#[test]
fn collapsed_leaf_is_not_split_in_the_same_pass() {
    let mut t = leaves([0, 0, 0, 0, 1, 0, 0, 0], [45; 8]);
    let mut free = vec![false, false];
    restructure_servers(&mut t, &mut free, &vec![None, None], &config(100));
    assert_eq!(leaf(&t), (0, 90));
    assert_eq!(free, vec![false, true]);
}

#[test]
fn underpopulated_node_merges_into_one_leaf() {
    let mut t = leaves([0, 1, 2, 3, 4, 5, 6, 7], [10; 8]);
    let mut free = vec![false; 8];
    t.restructure_free(&mut free, 100);
    assert_eq!(leaf(&t), (0, 80));
    assert_eq!(free, vec![false, true, true, true, true, true, true, true]);
}

#[test]
fn merge_moves_all_siblings_of_the_merged_shard() {
    let mut t = leaves([0, 9, 2, 3, 4, 9, 6, 7], [10, 20, 100, 100, 100, 20, 100, 100]);
    let mut free = vec![false; 10];
    t.restructure_free(&mut free, 100);
    let ch = children(&t);
    assert_eq!(leaf(&ch[0]), (0, 30));
    assert_eq!(leaf(&ch[1]), (0, 30));
    assert_eq!(leaf(&ch[5]), (0, 30));
    assert!(free[9]);
}

#[test]
fn shard_still_owned_elsewhere_stays_out_of_the_pool() {
    let inner = leaves([9, 10, 11, 12, 13, 14, 15, 16], [100; 8]);
    let mut ch = Vec::new();
    ch.push(Server::Num(0, 10));
    ch.push(Server::Num(9, 20));
    ch.push(Server::Num(2, 100));
    ch.push(Server::Num(3, 100));
    ch.push(inner);
    ch.push(Server::Num(5, 100));
    ch.push(Server::Num(6, 100));
    ch.push(Server::Num(7, 100));
    let mut t = Server::Octree(ch);
    let mut free = vec![false; 17];
    t.restructure_free(&mut free, 100);
    assert_eq!(leaf(&children(&t)[1]), (0, 30));
    assert_eq!(free, vec![false; 17]);
}

#[test]
fn stable_tree_is_unchanged_by_repeated_passes() {
    let mut t = leaves([0, 1, 2, 3, 4, 5, 6, 7], [60; 8]);
    let mut free = vec![false; 8];
    let counts: Vec<Option<usize>> = (0..8).map(|_| Some(60)).collect();
    for _ in 0..3 {
        restructure_servers(&mut t, &mut free, &counts, &config(100));
        let ch = children(&t);
        for k in 0..8 {
            assert_eq!(leaf(&ch[k]), (k, 60));
        }
        assert_eq!(free, vec![false; 8]);
    }
}

#[test]
fn leaf_accessors_and_update() {
    let mut t = Server::Num(2, 7);
    assert_eq!(t.get_index(), Some(2));
    assert_eq!(t.get_population(), Some(7));
    assert!(!t.is_octree());
    t.try_update(4, 9);
    assert_eq!(leaf(&t), (4, 9));
    let mut n = leaves([0, 1, 2, 3, 4, 5, 6, 7], [0; 8]);
    assert!(n.is_octree());
    assert_eq!(n.get_index(), None);
    assert_eq!(n.get_population(), None);
    n.try_update(1, 1);
    assert_eq!(leaf(&children(&n)[0]), (0, 0));
}
