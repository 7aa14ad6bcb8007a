use vstd::prelude::*;

verus! {

/// The shards a client believes it is joined to.
#[derive(Debug)]
pub struct Server {
    pub shards: Vec<usize>,
}

/// The calls a membership cycle issues: `leave` on each shard left, then `join` on
/// each shard entered.
#[derive(Debug)]
pub struct MembershipChange {
    pub leave: Vec<usize>,
    pub join: Vec<usize>,
}

/// The elements of `a` that `b` lacks, in the order of `a`.
pub open spec fn minus(a: Seq<usize>, b: Seq<usize>) -> Seq<usize> {
    a.filter(|e: usize| !b.contains(e))
}

fn contains(v: &Vec<usize>, e: usize) -> (r: bool)
    ensures
        r == v@.contains(e),
{
    let mut i: usize = 0;
    while i < v.len()
        invariant
            i <= v@.len(),
            forall|t: int| 0 <= t < i ==> v@[t] != e,
        decreases v@.len() - i,
    {
        if v[i] == e {
            return true;
        }
        i = i + 1;
    }
    false
}

fn difference(a: &Vec<usize>, b: &Vec<usize>) -> (r: Vec<usize>)
    ensures
        r@ == minus(a@, b@),
{
    let mut r: Vec<usize> = Vec::new();
    let mut i: usize = 0;
    while i < a.len()
        invariant
            i <= a@.len(),
            r@ == minus(a@.subrange(0, i as int), b@),
        decreases a@.len() - i,
    {
        proof {
            assert(a@.subrange(0, i + 1).drop_last() =~= a@.subrange(0, i as int));
            reveal(Seq::filter);
        }
        if !contains(b, a[i]) {
            r.push(a[i]);
        }
        i = i + 1;
    }
    proof {
        assert(a@.subrange(0, a@.len() as int) =~= a@);
    }
    r
}

impl Server {
    /// The shards are distinct.
    pub open spec fn wf(&self) -> bool {
        self.shards@.no_duplicates()
    }

    /// A client joined to the shards of `shards`, which are distinct.
    pub fn new(shards: Vec<usize>) -> (r: Server)
        requires
            shards@.no_duplicates(),
        ensures
            r.shards@ == shards@,
            r.wf(),
    {
        Server { shards }
    }

    /// The membership cycle: given the distinct shards that now cover the client, the shards to
    /// leave (held before, not now) and to join (held now, not before); the membership
    /// becomes `new_servers`.
    pub fn sync_servers(&mut self, new_servers: &Vec<usize>) -> (r: MembershipChange)
        requires
            new_servers@.no_duplicates(),
        ensures
            final(self).wf(),
            r.leave@ == minus(old(self).shards@, new_servers@),
            r.join@ == minus(new_servers@, old(self).shards@),
            final(self).shards@ == new_servers@,
    {
        let leave = difference(&self.shards, new_servers);
        let join = difference(new_servers, &self.shards);
        self.shards = new_servers.clone();
        MembershipChange { leave, join }
    }

    /// The shards that the client's own position datagrams go to.
    pub fn position_targets(&self) -> (r: Vec<usize>)
        requires
            self.wf(),
        ensures
            r@ == self.shards@,
            r@.no_duplicates(),
    {
        self.shards.clone()
    }
}

/// A position update as the transport carries it: the player and the bit patterns
/// of the three coordinates.
#[derive(Clone, Copy, Debug, PartialEq, Eq)]
pub struct PositionUpdate {
    pub player_id: u128,
    pub x: u32,
    pub y: u32,
    pub z: u32,
}

/// The last update of player `id` among `s`.
pub open spec fn last_for(s: Seq<PositionUpdate>, id: u128) -> Option<PositionUpdate>
    decreases s.len(),
{
    if s.len() == 0 {
        None
    } else if s.last().player_id == id {
        Some(s.last())
    } else {
        last_for(s.drop_last(), id)
    }
}

fn find_player(r: &Vec<PositionUpdate>, id: u128) -> (res: Option<usize>)
    ensures
        match res {
            Some(i) => i < r@.len() && r@[i as int].player_id == id,
            None => forall|t: int| 0 <= t < r@.len() ==> (#[trigger] r@[t]).player_id != id,
        },
{
    let mut i: usize = 0;
    while i < r.len()
        invariant
            i <= r@.len(),
            forall|t: int| 0 <= t < i ==> (#[trigger] r@[t]).player_id != id,
        decreases r@.len() - i,
    {
        if r[i].player_id == id {
            return Some(i);
        }
        i = i + 1;
    }
    None
}

/// Some entry of `r` is an update of player `id`.
pub open spec fn has_player(r: Seq<PositionUpdate>, id: u128) -> bool {
    exists|i: int| 0 <= i < r.len() && r[i].player_id == id
}

/// Drains a batch of updates: one per player other than `own_id`, the last one received.
pub fn sync_positions(updates: &Vec<PositionUpdate>, own_id: u128) -> (r: Vec<PositionUpdate>)
    ensures
        forall|i: int, j: int| 0 <= i < j < r@.len() ==> r@[i].player_id != r@[j].player_id,
        forall|i: int| 0 <= i < r@.len() ==> (#[trigger] r@[i]).player_id != own_id
            && last_for(updates@, r@[i].player_id) == Some(r@[i]),
        forall|id: u128| id != own_id && (#[trigger] last_for(updates@, id)) is Some ==> has_player(r@, id),
{
    let mut r: Vec<PositionUpdate> = Vec::new();
    let mut k: usize = 0;
    while k < updates.len()
        invariant
            k <= updates@.len(),
            forall|i: int, j: int| 0 <= i < j < r@.len() ==> r@[i].player_id != r@[j].player_id,
            forall|i: int| 0 <= i < r@.len() ==> (#[trigger] r@[i]).player_id != own_id
                && last_for(updates@.subrange(0, k as int), r@[i].player_id) == Some(r@[i]),
            forall|id: u128| id != own_id && (#[trigger] last_for(updates@.subrange(0, k as int), id)) is Some ==> has_player(r@, id),
        decreases updates@.len() - k,
    {
        let u = updates[k];
        let ghost pre = updates@.subrange(0, k as int);
        let ghost post = updates@.subrange(0, k + 1);
        let ghost before = r@;
        proof {
            assert(post.drop_last() =~= pre);
            assert(post.last() == u);
            assert forall|id: u128| id != u.player_id implies #[trigger] last_for(post, id) == last_for(pre, id) by {}
            assert(last_for(post, u.player_id) == Some(u));
        }
        if u.player_id != own_id {
            match find_player(&r, u.player_id) {
                Some(i) => {
                    r.set(i, u);
                    proof {
                        assert(r@[i as int] == u);
                        assert forall|x: int| 0 <= x < r@.len() && x != i implies (#[trigger] r@[x]) == before[x] by {}
                    }
                },
                None => {
                    r.push(u);
                    proof {
                        assert(r@[r@.len() - 1] == u);
                        assert forall|x: int| 0 <= x < before.len() implies (#[trigger] r@[x]) == before[x] by {}
                    }
                },
            }
        }
        proof {
            assert forall|id: u128| id != own_id && (#[trigger] last_for(post, id)) is Some implies has_player(r@, id) by {
                if id != u.player_id {
                    assert(last_for(pre, id) is Some);
                    assert(has_player(before, id));
                    let i = choose|i: int| 0 <= i < before.len() && before[i].player_id == id;
                    assert(r@[i].player_id == id);
                } else {
                    assert(has_player(r@, u.player_id));
                }
            }
            assert forall|i: int| 0 <= i < r@.len() implies (#[trigger] r@[i]).player_id != own_id
                && last_for(post, r@[i].player_id) == Some(r@[i]) by {
                if r@[i] != u {
                    assert(r@[i] == before[i]);
                    assert(r@[i].player_id != u.player_id);
                }
            }
        }
        k = k + 1;
    }
    proof {
        assert(updates@.subrange(0, updates@.len() as int) =~= updates@);
    }
    r
}

/// The roster reconciliation of a client: given the identifiers on the rosters of its
/// shards (`present`), the players other than itself not yet known (to spawn), and the
/// known players absent from every roster (to despawn).
pub fn sync_players(known: &Vec<u128>, present: &Vec<u128>, own_id: u128) -> (r: (Vec<u128>, Vec<u128>))
    ensures
        forall|id: u128| r.0@.contains(id) <==> (id != own_id && !known@.contains(id) && present@.contains(id)),
        r.0@.no_duplicates(),
        forall|id: u128| r.1@.contains(id) <==> (known@.contains(id) && !present@.contains(id)),
{
    let mut spawn: Vec<u128> = Vec::new();
    let mut i: usize = 0;
    while i < present.len()
        invariant
            i <= present@.len(),
            spawn@.no_duplicates(),
            forall|id: u128| spawn@.contains(id) <==> (id != own_id && !known@.contains(id)
                && present@.subrange(0, i as int).contains(id)),
        decreases present@.len() - i,
    {
        let id = present[i];
        let ghost before = spawn@;
        proof {
            assert(present@.subrange(0, i + 1) =~= present@.subrange(0, i as int).push(id));
        }
        if id != own_id && !contains_id(known, id) && !contains_id(&spawn, id) {
            spawn.push(id);
            proof {
                assert(spawn@[before.len() as int] == id);
                assert forall|a: int, b: int| 0 <= a < b < spawn@.len() implies spawn@[a] != spawn@[b] by {
                    if b == before.len() {
                        assert(before[a] == spawn@[a]);
                        assert(before.contains(spawn@[a]));
                    }
                }
            }
        }
        proof {
            assert forall|x: u128| spawn@.contains(x) <==> (x != own_id && !known@.contains(x)
                && present@.subrange(0, i + 1).contains(x)) by {
                if spawn@.contains(x) {
                    let w = choose|w: int| 0 <= w < spawn@.len() && spawn@[w] == x;
                    if w < before.len() {
                        assert(before[w] == x);
                        assert(before.contains(x));
                    }
                }
                if before.contains(x) {
                    let w = choose|w: int| 0 <= w < before.len() && before[w] == x;
                    assert(spawn@[w] == x);
                }
                if present@.subrange(0, i + 1).contains(x) && x != id {
                    let ghost sp = present@.subrange(0, i + 1);
                    let w = choose|w: int| 0 <= w < sp.len() && sp[w] == x;
                    assert(present@.subrange(0, i as int)[w] == x);
                }
                if x == id {
                    assert(present@.subrange(0, i + 1)[i as int] == x);
                }
            }
        }
        i = i + 1;
    }
    proof {
        assert(present@.subrange(0, present@.len() as int) =~= present@);
    }
    let mut despawn: Vec<u128> = Vec::new();
    let mut j: usize = 0;
    while j < known.len()
        invariant
            j <= known@.len(),
            forall|id: u128| despawn@.contains(id) <==> (known@.subrange(0, j as int).contains(id) && !present@.contains(id)),
        decreases known@.len() - j,
    {
        let id = known[j];
        let ghost before = despawn@;
        if !contains_id(present, id) {
            despawn.push(id);
            proof {
                assert(despawn@[before.len() as int] == id);
            }
        }
        proof {
            assert forall|x: u128| despawn@.contains(x) <==> (known@.subrange(0, j + 1).contains(x) && !present@.contains(x)) by {
                if despawn@.contains(x) {
                    let w = choose|w: int| 0 <= w < despawn@.len() && despawn@[w] == x;
                    if w < before.len() {
                        assert(before[w] == x);
                        assert(before.contains(x));
                    }
                }
                if before.contains(x) {
                    let w = choose|w: int| 0 <= w < before.len() && before[w] == x;
                    assert(despawn@[w] == x);
                }
                if known@.subrange(0, j + 1).contains(x) && x != id {
                    let ghost sk = known@.subrange(0, j + 1);
                    let w = choose|w: int| 0 <= w < sk.len() && sk[w] == x;
                    assert(known@.subrange(0, j as int)[w] == x);
                }
                if known@.subrange(0, j as int).contains(x) {
                    let ghost sk = known@.subrange(0, j as int);
                    let w = choose|w: int| 0 <= w < sk.len() && sk[w] == x;
                    assert(known@.subrange(0, j + 1)[w] == x);
                }
                if x == id {
                    assert(known@.subrange(0, j + 1)[j as int] == x);
                }
            }
        }
        j = j + 1;
    }
    proof {
        assert(known@.subrange(0, known@.len() as int) =~= known@);
    }
    (spawn, despawn)
}

fn contains_id(v: &Vec<u128>, e: u128) -> (r: bool)
    ensures
        r == v@.contains(e),
{
    let mut i: usize = 0;
    while i < v.len()
        invariant
            i <= v@.len(),
            forall|t: int| 0 <= t < i ==> v@[t] != e,
        decreases v@.len() - i,
    {
        if v[i] == e {
            return true;
        }
        i = i + 1;
    }
    false
}

} // verus!
