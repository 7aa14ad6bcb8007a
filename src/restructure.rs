use vstd::prelude::*;
use crate::tree::{Config, Server, Tree, octant};

verus! {

/// The trees of a sequence of nodes.
pub open spec fn models(ch: Seq<Server>) -> Seq<Tree> {
    ch.map_values(|s: Server| s@)
}

/// The tree after a population refresh: a leaf whose shard reported a count takes it,
/// any other leaf keeps its cached population.
pub open spec fn refreshed(t: Tree, counts: Seq<Option<usize>>) -> Tree
    decreases t,
{
    match t {
        Tree::Leaf { index, population } => Tree::Leaf {
            index,
            population: if index < counts.len() && counts[index as int] is Some {
                counts[index as int]->0
            } else {
                population
            },
        },
        Tree::Node { children } => Tree::Node {
            children: Seq::new(children.len(), |k: int| if 0 <= k < children.len() { refreshed(children[k], counts) } else { Tree::Leaf { index: 0, population: 0 } }),
        },
    }
}

/// The sibling of octant `k` across the split plane of `axis` (0 for x, 1 for y, 2 for z).
pub open spec fn axis_neighbour(k: int, axis: int) -> int {
    let (x, y, z) = (k / 4, (k / 2) % 2, k % 2);
    if axis == 0 {
        octant(1 - x, y, z)
    } else if axis == 1 {
        octant(x, 1 - y, z)
    } else {
        octant(x, y, 1 - z)
    }
}

/// Whether siblings `a` and `b` are two leaves of different shards whose combined
/// population stays below `max`.
pub open spec fn mergeable(ch: Seq<Tree>, a: int, b: int, max: int) -> bool {
    &&& ch[a] is Leaf
    &&& ch[b] is Leaf
    &&& ch[a]->index != ch[b]->index
    &&& ch[a]->population + ch[b]->population < max
}

/// Merging sibling `b` into sibling `a`: every sibling leaf on `a`'s shard or on `b`'s
/// shard moves to `a`'s shard and takes the combined population of the two shards.
pub open spec fn merge_pair(ch: Seq<Tree>, a: int, b: int, max: int) -> Seq<Tree> {
    if mergeable(ch, a, b, max) {
        let (i, j) = (ch[a]->index, ch[b]->index);
        let t = Tree::Leaf { index: i, population: (ch[a]->population + ch[b]->population) as usize };
        Seq::new(ch.len(), |k: int| if ch[k] is Leaf && (ch[k]->index == i || ch[k]->index == j) { t } else { ch[k] })
    } else {
        ch
    }
}

/// The merges of leaf `k` with its neighbours along x, then y, then z.
pub open spec fn merge_around(ch: Seq<Tree>, k: int, max: int) -> Seq<Tree> {
    let r1 = merge_pair(ch, k, axis_neighbour(k, 0), max);
    let r2 = merge_pair(r1, k, axis_neighbour(k, 1), max);
    merge_pair(r2, k, axis_neighbour(k, 2), max)
}

/// The children of a node after the first `k` of them have been visited by the free pass.
pub open spec fn free_children(orig: Seq<Tree>, k: nat, max: int) -> Seq<Tree>
    decreases orig, k,
{
    if k == 0 || k > orig.len() {
        orig
    } else {
        let prev = free_children(orig, (k - 1) as nat, max);
        let j = k - 1;
        if orig[j] is Node {
            prev.update(j, free_pass(orig[j], max))
        } else {
            merge_around(prev, j, max)
        }
    }
}

/// All children are leaves of the same shard.
pub open spec fn one_shard(cs: Seq<Tree>) -> bool {
    forall|i: int| 0 <= i < cs.len() ==> (#[trigger] cs[i]) is Leaf && cs[i]->index == cs[0]->index
}

/// The free pass: bottom-up merges of axis-adjacent sibling leaves, and the collapse of a
/// node whose eight children ended on one shard into a leaf of that shard, with the
/// shard's population.
pub open spec fn free_pass(t: Tree, max: int) -> Tree
    decreases t, 0nat,
{
    match t {
        Tree::Leaf { .. } => t,
        Tree::Node { children } => {
            if children.len() != 8 {
                t
            } else {
                let cs = free_children(children, 8, max);
                if one_shard(cs) {
                    Tree::Leaf { index: cs[0]->index, population: cs[0]->population }
                } else {
                    Tree::Node { children: cs }
                }
            }
        },
    }
}

/// No leaf of `t` is on shard `j`.
pub open spec fn vacant(t: Tree, j: int) -> bool
    decreases t,
{
    match t {
        Tree::Leaf { index, .. } => index != j,
        Tree::Node { children } => forall|k: int| 0 <= k < children.len() ==> vacant(#[trigger] children[k], j),
    }
}

/// The pool after a pass turned `before` into `after`: a shard that a leaf owned before
/// and no leaf owns after goes back to the pool.
pub open spec fn released(free: Seq<bool>, before: Tree, after: Tree) -> Seq<bool> {
    Seq::new(free.len(), |j: int| free[j] || (!vacant(before, j) && vacant(after, j)))
}

impl Server {
    /// Refreshes the cached populations: `counts[i]`, where present, is the player
    /// count that shard `i` reported; a leaf whose shard did not report keeps its value.
    pub fn update_population(&mut self, counts: &Vec<Option<usize>>)
        ensures
            final(self)@ == refreshed(old(self)@, counts@),
        decreases old(self)@,
    {
        match self {
            Server::Num(i, pop) => {
                if *i < counts.len() {
                    match counts[*i] {
                        Some(c) => {
                            *pop = c;
                        },
                        None => {},
                    }
                }
            },
            Server::Octree(ch) => {
                let ghost orig = ch@;
                let ghost ov: Vec<Server> = *ch;
                assert(*old(self) == Server::Octree(ov));
                let mut k: usize = 0;
                while k < ch.len()
                    invariant
                        k <= ch@.len(),
                        ch@.len() == orig.len(),
                        forall|i: int| 0 <= i < k ==> (#[trigger] ch@[i])@ == refreshed(orig[i]@, counts@),
                        forall|i: int| k <= i < ch@.len() ==> (#[trigger] ch@[i]) == orig[i],
                        orig == ov@,
                        *old(self) == Server::Octree(ov),
                    decreases ch@.len() - k,
                {
                    proof {
                        old(self).lemma_view_children();
                        assert(ch@[k as int] == ov[k as int]);
                        assert(old(self)@->children[k as int] == ch@[k as int]@);
                        assert(decreases_to!(old(self)@ => old(self)@->children));
                        assert(decreases_to!(old(self)@ => ch@[k as int]@));
                    }
                    ch[k].update_population(counts);
                    k = k + 1;
                }
            },
        }
        proof {
            old(self).lemma_view_children();
            self.lemma_view_children();
            if *self is Octree {
                assert(self@->children =~= refreshed(old(self)@, counts@)->children);
            }
        }
    }
}


/// Every leaf among `ch` names a shard below `n`.
pub open spec fn all_below(ch: Seq<Server>, n: int) -> bool {
    forall|i: int| 0 <= i < ch.len() ==> (#[trigger] ch[i])@.indices_below(n)
}

/// Merges sibling `b` into sibling `a` where both are leaves of different shards whose
/// combined population stays below `max_players`: every sibling leaf on either shard moves
/// to `a`'s shard with the combined population.
pub fn try_merge(ch: &mut Vec<Server>, a: usize, b: usize, max_players: usize)
    requires
        a < old(ch)@.len(),
        b < old(ch)@.len(),
    ensures
        models(final(ch)@) == merge_pair(models(old(ch)@), a as int, b as int, max_players as int),
        final(ch)@.len() == old(ch)@.len(),
        forall|i: int| 0 <= i < final(ch)@.len() ==> (#[trigger] final(ch)@[i]) == old(ch)@[i]
            || (old(ch)@[i] is Num && final(ch)@[i] is Num && old(ch)@[a as int] is Num
                && final(ch)@[i]@->index == old(ch)@[a as int]@->index),
{
    let (i, p) = match &ch[a] {
        Server::Num(i, p) => (*i, *p),
        Server::Octree(_) => {
            return;
        },
    };
    let (j, q) = match &ch[b] {
        Server::Num(j, q) => (*j, *q),
        Server::Octree(_) => {
            return;
        },
    };
    proof {
        assert(models(ch@)[a as int] == ch@[a as int]@);
        assert(models(ch@)[b as int] == ch@[b as int]@);
    }
    if i != j && q < max_players && p < max_players - q {
        let ghost old_ch = ch@;
        let s = p + q;
        let mut k: usize = 0;
        while k < ch.len()
            invariant
                ch@.len() == old_ch.len(),
                k <= ch@.len(),
                old_ch[a as int] == Server::Num(i, p),
                forall|t: int| 0 <= t < k ==> (#[trigger] ch@[t])@ == (if old_ch[t]@ is Leaf && (old_ch[t]@->index == i || old_ch[t]@->index == j) {
                    Tree::Leaf { index: i, population: s }
                } else {
                    old_ch[t]@
                }),
                forall|t: int| k <= t < ch@.len() ==> #[trigger] ch@[t] == old_ch[t],
                forall|t: int| 0 <= t < ch@.len() ==> #[trigger] ch@[t] == old_ch[t] || (old_ch[t] is Num && ch@[t] == Server::Num(i, s)),
            decreases ch@.len() - k,
        {
            let hit = match &ch[k] {
                Server::Num(x, _) => *x == i || *x == j,
                Server::Octree(_) => false,
            };
            if hit {
                ch.set(k, Server::Num(i, s));
            }
            k = k + 1;
        }
        proof {
            assert(models(ch@) =~= merge_pair(models(old_ch), a as int, b as int, max_players as int));
        }
    }
}

fn neighbour_exec(k: usize, axis: usize) -> (r: usize)
    requires
        k < 8,
        axis < 3,
    ensures
        r == axis_neighbour(k as int, axis as int),
        r < 8,
{
    let (x, y, z) = (k / 4, (k / 2) % 2, k % 2);
    if axis == 0 {
        4 * (1 - x) + 2 * y + z
    } else if axis == 1 {
        4 * x + 2 * (1 - y) + z
    } else {
        4 * x + 2 * y + (1 - z)
    }
}

impl Server {
    /// The cached population of a leaf; `None` for an internal node.
    pub fn get_population(&self) -> (r: Option<usize>)
        ensures
            r == (match *self {
                Server::Num(_, p) => Some(p),
                Server::Octree(_) => None,
            }),
    {
        match self {
            Server::Octree(_) => None,
            Server::Num(_, pop) => Some(*pop),
        }
    }

    /// The shard of a leaf; `None` for an internal node.
    pub fn get_index(&self) -> (r: Option<usize>)
        ensures
            r == (match *self {
                Server::Num(i, _) => Some(i),
                Server::Octree(_) => None,
            }),
    {
        match self {
            Server::Octree(_) => None,
            Server::Num(i, _) => Some(*i),
        }
    }

    /// Sets the shard and population of a leaf; an internal node stays as it is.
    pub fn try_update(&mut self, new_index: usize, new_pop: usize)
        ensures
            *final(self) == (match *old(self) {
                Server::Num(_, _) => Server::Num(new_index, new_pop),
                Server::Octree(ch) => Server::Octree(ch),
            }),
    {
        match self {
            Server::Octree(_) => {},
            Server::Num(i, pop) => {
                *i = new_index;
                *pop = new_pop;
            },
        }
    }

    pub fn is_octree(&self) -> (r: bool)
        ensures
            r == (*self is Octree),
    {
        match self {
            Server::Octree(_) => true,
            Server::Num(_, _) => false,
        }
    }

    /// The free pass on this subtree, without the pool (see `restructure_free`).
    fn free_rec(&mut self, max_players: usize, Ghost(n): Ghost<int>)
        requires
            old(self).wf(),
            old(self)@.indices_below(n),
        ensures
            final(self).wf(),
            final(self)@.indices_below(n),
            final(self)@ == free_pass(old(self)@, max_players as int),
        decreases old(self)@,
    {
        let mut collapse = false;
        let mut first: usize = 0;
        let mut pop0: usize = 0;
        match self {
            Server::Num(_, _) => {},
            Server::Octree(ch) => {
                let ghost ov: Vec<Server> = *ch;
                proof {
                    old(self).lemma_view_children();
                    assert forall|i: int| 0 <= i < 8 implies (#[trigger] ch@[i])@.wf() && ch@[i]@.indices_below(n) by {
                        assert(old(self)@->children[i] == ch@[i]@);
                    }
                    assert(models(ch@) =~= old(self)@->children);
                }
                let ghost orig = models(ch@);
                let mut k: usize = 0;
                while k < 8
                    invariant
                        k <= 8,
                        ch@.len() == 8,
                        orig.len() == 8,
                        *old(self) == Server::Octree(ov),
                        orig == old(self)@->children,
                        models(ch@) == free_children(orig, k as nat, max_players as int),
                        forall|i: int| 0 <= i < 8 ==> (#[trigger] ch@[i])@.wf() && ch@[i]@.indices_below(n),
                        forall|i: int| k <= i < 8 ==> (orig[i] is Node ==> (#[trigger] ch@[i])@ == orig[i]) && (orig[i] is Node <==> ch@[i]@ is Node),
                    decreases 8 - k,
                {
                    let ghost prev = free_children(orig, k as nat, max_players as int);
                    proof {
                        assert(models(ch@)[k as int] == ch@[k as int]@);
                        assert(ch@[k as int] is Octree <==> ch@[k as int]@ is Node);
                    }
                    if ch[k].is_octree() {
                        proof {
                            assert(decreases_to!(old(self)@ => old(self)@->children));
                            assert(decreases_to!(old(self)@ => ch@[k as int]@));
                        }
                        let ghost before = ch@;
                        ch[k].free_rec(max_players, Ghost(n));
                        proof {
                            assert(models(ch@) =~= prev.update(k as int, ch@[k as int]@));
                        }
                    } else {
                        let ghost c0 = ch@;
                        let nx = neighbour_exec(k, 0);
                        try_merge(ch, k, nx, max_players);
                        let ghost c1 = ch@;
                        let ny = neighbour_exec(k, 1);
                        proof {
                            assert forall|i: int| 0 <= i < 8 implies (#[trigger] ch@[i])@.indices_below(n) by {
                                assert(ch@[i] == c0[i] || (ch@[i] is Num && ch@[i]@->index == c0[k as int]@->index));
                            }
                        }
                        try_merge(ch, k, ny, max_players);
                        let ghost c2 = ch@;
                        let nz = neighbour_exec(k, 2);
                        proof {
                            assert forall|i: int| 0 <= i < 8 implies (#[trigger] ch@[i])@.indices_below(n) by {
                                assert(ch@[i] == c1[i] || (ch@[i] is Num && ch@[i]@->index == c1[k as int]@->index));
                            }
                        }
                        try_merge(ch, k, nz, max_players);
                        proof {
                            assert forall|i: int| 0 <= i < 8 implies (#[trigger] ch@[i])@.wf() && ch@[i]@.indices_below(n)
                                && (k < i ==> (orig[i] is Node ==> ch@[i]@ == orig[i]) && (orig[i] is Node <==> ch@[i]@ is Node)) by {
                                assert(c1[i] == c0[i] || (c0[i] is Num && c1[i] is Num));
                                assert(c2[i] == c1[i] || (c1[i] is Num && c2[i] is Num));
                                assert(ch@[i] == c2[i] || (c2[i] is Num && ch@[i] is Num));
                            }
                        }
                    }
                    k = k + 1;
                }
                let ghost fin = models(ch@);
                let mut i: usize = 0;
                let mut same = match &ch[0] {
                    Server::Num(f, p) => {
                        first = *f;
                        pop0 = *p;
                        true
                    },
                    Server::Octree(_) => false,
                };
                proof {
                    assert(fin[0] == ch@[0]@);
                }
                while i < 8
                    invariant
                        i <= 8,
                        ch@.len() == 8,
                        fin == models(ch@),
                        fin[0] is Leaf ==> first == fin[0]->index && pop0 == fin[0]->population,
                        same == (fin[0] is Leaf && forall|t: int| 0 <= t < i ==> (#[trigger] fin[t]) is Leaf && fin[t]->index == fin[0]->index),
                    decreases 8 - i,
                {
                    proof {
                        assert(fin[i as int] == ch@[i as int]@);
                        assert(fin[0] == ch@[0]@);
                    }
                    match &ch[i] {
                        Server::Num(f, _) => {
                            if *f != first {
                                same = false;
                            }
                        },
                        Server::Octree(_) => {
                            same = false;
                        },
                    }
                    i = i + 1;
                }
                proof {
                    assert(fin[0] == ch@[0]@);
                    assert(same == one_shard(fin));
                }
                collapse = same;
            },
        }
        if collapse {
            *self = Server::Num(first, pop0);
        }
        proof {
            old(self).lemma_view_children();
            self.lemma_view_children();
            if !collapse && *self is Octree {
                assert(self@->children =~= free_pass(old(self)@, max_players as int)->children);
                assert forall|i: int| 0 <= i < 8 implies (#[trigger] self@->children[i]).wf() && self@->children[i].indices_below(n) by {
                    assert(self@->children[i] == (*self)->Octree_0@[i]@);
                }
            }
        }
    }

    /// Whether some leaf of this subtree is on shard `j`.
    pub fn owns_shard(&self, j: usize) -> (r: bool)
        ensures
            r == !vacant(self@, j as int),
        decreases self@,
    {
        proof {
            self.lemma_view_children();
        }
        match self {
            Server::Num(i, _) => *i == j,
            Server::Octree(ch) => {
                let mut k: usize = 0;
                while k < ch.len()
                    invariant
                        k <= ch@.len(),
                        *self == Server::Octree(*ch),
                        self@ is Node,
                        self@->children.len() == ch@.len(),
                        forall|t: int| 0 <= t < ch@.len() ==> #[trigger] self@->children[t] == ch@[t]@,
                        forall|t: int| 0 <= t < k ==> vacant(#[trigger] self@->children[t], j as int),
                    decreases ch@.len() - k,
                {
                    proof {
                        assert(self@->children[k as int] == ch@[k as int]@);
                        assert(decreases_to!(self@ => self@->children));
                        assert(decreases_to!(self@ => ch@[k as int]@));
                    }
                    if ch[k].owns_shard(j) {
                        proof {
                            assert(!vacant(self@->children[k as int], j as int));
                        }
                        return true;
                    }
                    k = k + 1;
                }
                false
            },
        }
    }

    /// The free pass: merges axis-adjacent sibling leaves of different shards whose
    /// combined population is below `max_players`, bottom-up, moving the merged-away
    /// shard's sibling leaves along, and collapses each node whose eight children end on
    /// one shard into a leaf of that shard. A shard that a leaf owned
    /// before and no leaf owns after goes back to the pool.
    pub fn restructure_free(&mut self, free_servers: &mut Vec<bool>, max_players: usize)
        requires
            old(self).wf(),
            old(self)@.indices_below(old(free_servers)@.len() as int),
        ensures
            final(self).wf(),
            final(self)@.indices_below(final(free_servers)@.len() as int),
            final(free_servers)@.len() == old(free_servers)@.len(),
            final(self)@ == free_pass(old(self)@, max_players as int),
            final(free_servers)@ == released(old(free_servers)@, old(self)@, final(self)@),
            (forall|j: int| 0 <= j < old(free_servers)@.len() && #[trigger] old(free_servers)@[j] ==> vacant(old(self)@, j))
                ==> (forall|j: int| 0 <= j < final(free_servers)@.len() && #[trigger] final(free_servers)@[j] ==> vacant(final(self)@, j)),
    {
        let ghost n = free_servers@.len() as int;
        let mut owned_before: Vec<bool> = Vec::new();
        let mut j: usize = 0;
        while j < free_servers.len()
            invariant
                j <= free_servers@.len(),
                owned_before@.len() == j,
                forall|t: int| 0 <= t < j ==> #[trigger] owned_before@[t] == !vacant(self@, t),
            decreases free_servers@.len() - j,
        {
            owned_before.push(self.owns_shard(j));
            j = j + 1;
        }
        self.free_rec(max_players, Ghost(n));
        let ghost free0 = free_servers@;
        let mut j: usize = 0;
        while j < free_servers.len()
            invariant
                j <= free_servers@.len(),
                free_servers@.len() == free0.len(),
                owned_before@.len() == free0.len(),
                forall|t: int| 0 <= t < free0.len() ==> #[trigger] owned_before@[t] == !vacant(old(self)@, t),
                forall|t: int| 0 <= t < j ==> #[trigger] free_servers@[t] == released(free0, old(self)@, self@)[t],
                forall|t: int| j <= t < free0.len() ==> #[trigger] free_servers@[t] == free0[t],
            decreases free_servers@.len() - j,
        {
            if !free_servers[j] && owned_before[j] && !self.owns_shard(j) {
                free_servers.set(j, true);
            }
            j = j + 1;
        }
        proof {
            assert(free_servers@ =~= released(free0, old(self)@, self@));
            lemma_free_vacant(old(self)@, max_players as int);
        }
    }
}

/// No tree of `cs` has a leaf on shard `j`.
pub open spec fn seq_vacant(cs: Seq<Tree>, j: int) -> bool {
    forall|k: int| 0 <= k < cs.len() ==> #[trigger] vacant(cs[k], j)
}

proof fn lemma_merge_vacant(ch: Seq<Tree>, a: int, b: int, max: int)
    requires
        0 <= a < ch.len(),
        0 <= b < ch.len(),
    ensures
        merge_pair(ch, a, b, max).len() == ch.len(),
        forall|j: int| #[trigger] seq_vacant(ch, j) ==> seq_vacant(merge_pair(ch, a, b, max), j),
{
    let m = merge_pair(ch, a, b, max);
    assert forall|j: int| #[trigger] seq_vacant(ch, j) implies seq_vacant(m, j) by {
        assert(vacant(ch[a], j));
        assert forall|k: int| 0 <= k < m.len() implies #[trigger] vacant(m[k], j) by {
            assert(vacant(ch[k], j));
        }
    }
}

proof fn lemma_merge_around_vacant(ch: Seq<Tree>, k: int, max: int)
    requires
        ch.len() == 8,
        0 <= k < 8,
    ensures
        merge_around(ch, k, max).len() == 8,
        forall|j: int| #[trigger] seq_vacant(ch, j) ==> seq_vacant(merge_around(ch, k, max), j),
{
    let r1 = merge_pair(ch, k, axis_neighbour(k, 0), max);
    lemma_merge_vacant(ch, k, axis_neighbour(k, 0), max);
    let r2 = merge_pair(r1, k, axis_neighbour(k, 1), max);
    lemma_merge_vacant(r1, k, axis_neighbour(k, 1), max);
    lemma_merge_vacant(r2, k, axis_neighbour(k, 2), max);
    assert forall|j: int| #[trigger] seq_vacant(ch, j) implies seq_vacant(merge_around(ch, k, max), j) by {
        assert(seq_vacant(r1, j));
        assert(seq_vacant(r2, j));
    }
}

/// The free pass moves leaves only onto shards that the subtree already owned.
pub proof fn lemma_free_vacant(t: Tree, max: int)
    ensures
        forall|j: int| #[trigger] vacant(t, j) ==> vacant(free_pass(t, max), j),
    decreases t, 0nat,
{
    match t {
        Tree::Leaf { .. } => {},
        Tree::Node { children } => {
            if children.len() == 8 {
                lemma_free_children_vacant(children, 8, max);
                let cs = free_children(children, 8, max);
                assert forall|j: int| #[trigger] vacant(t, j) implies vacant(free_pass(t, max), j) by {
                    assert(seq_vacant(children, j));
                    assert(seq_vacant(cs, j));
                    assert(vacant(cs[0], j));
                    if one_shard(cs) {
                        assert(cs[0] is Leaf);
                    } else {
                        let n = Tree::Node { children: cs };
                        assert(free_pass(t, max) == n);
                        assert forall|w: int| 0 <= w < cs.len() implies vacant(#[trigger] cs[w], j) by {}
                        assert(vacant(n, j));
                    }
                }
            }
        },
    }
}

proof fn lemma_free_children_vacant(orig: Seq<Tree>, k: nat, max: int)
    requires
        orig.len() == 8,
        k <= 8,
    ensures
        free_children(orig, k, max).len() == 8,
        forall|j: int| #[trigger] seq_vacant(orig, j) ==> seq_vacant(free_children(orig, k, max), j),
    decreases orig, k,
{
    if k > 0 {
        lemma_free_children_vacant(orig, (k - 1) as nat, max);
        let prev = free_children(orig, (k - 1) as nat, max);
        let i = k - 1;
        if orig[i] is Node {
            lemma_free_vacant(orig[i], max);
            let cur = prev.update(i, free_pass(orig[i], max));
            assert forall|j: int| #[trigger] seq_vacant(orig, j) implies seq_vacant(cur, j) by {
                assert(seq_vacant(prev, j));
                assert(vacant(orig[i], j));
                assert forall|w: int| 0 <= w < cur.len() implies #[trigger] vacant(cur[w], j) by {
                    if w != i {
                        assert(vacant(prev[w], j));
                    }
                }
            }
        } else {
            lemma_merge_around_vacant(prev, i, max);
            assert forall|j: int| #[trigger] seq_vacant(orig, j) implies seq_vacant(free_children(orig, k, max), j) by {
                assert(seq_vacant(prev, j));
            }
        }
    }
}

/// Every leaf of `after` that a pair merge changed (a leaf of `before` that is not
/// unchanged) holds at most `max` players.
pub open spec fn within(before: Tree, after: Tree, max: int) -> bool
    decreases after,
{
    match after {
        Tree::Leaf { population, .. } => before is Leaf && after != before ==> population <= max,
        Tree::Node { children: ca } => {
            &&& before is Node
            &&& ca.len() == before->children.len()
            &&& forall|k: int| 0 <= k < ca.len() ==> within(before->children[k], #[trigger] ca[k], max)
        },
    }
}

/// Every leaf that a pair merge of the free pass changed (turning `before` into `mid`) is a
/// leaf, unchanged, of `after`: no pair of leaves is merged and split in the same pass.
pub open spec fn merged_not_split(before: Tree, mid: Tree, after: Tree) -> bool
    decreases mid,
{
    match mid {
        Tree::Leaf { .. } => before is Leaf && mid != before ==> after == mid,
        Tree::Node { children: cm } => {
            &&& before is Node
            &&& after is Node
            &&& cm.len() == before->children.len()
            &&& cm.len() == after->children.len()
            &&& forall|k: int| 0 <= k < cm.len() ==> merged_not_split(before->children[k], #[trigger] cm[k], after->children[k])
        },
    }
}

proof fn lemma_within_refl(t: Tree, max: int)
    ensures
        within(t, t, max),
    decreases t,
{
    match t {
        Tree::Leaf { .. } => {},
        Tree::Node { children } => {
            assert forall|k: int| 0 <= k < children.len() implies within(t->children[k], #[trigger] children[k], max) by {
                lemma_within_refl(children[k], max);
            }
        },
    }
}

proof fn lemma_merge_within(orig: Seq<Tree>, ch: Seq<Tree>, a: int, b: int, max: int)
    requires
        orig.len() == 8,
        ch.len() == 8,
        0 <= a < 8,
        0 <= b < 8,
        max <= usize::MAX,
        forall|i: int| 0 <= i < 8 ==> within(orig[i], #[trigger] ch[i], max),
    ensures
        merge_pair(ch, a, b, max).len() == 8,
        forall|i: int| 0 <= i < 8 ==> within(orig[i], #[trigger] merge_pair(ch, a, b, max)[i], max),
{
}

proof fn lemma_merge_around_within(orig: Seq<Tree>, ch: Seq<Tree>, k: int, max: int)
    requires
        orig.len() == 8,
        ch.len() == 8,
        0 <= k < 8,
        max <= usize::MAX,
        forall|i: int| 0 <= i < 8 ==> within(orig[i], #[trigger] ch[i], max),
    ensures
        merge_around(ch, k, max).len() == 8,
        forall|i: int| 0 <= i < 8 ==> within(orig[i], #[trigger] merge_around(ch, k, max)[i], max),
{
    let r1 = merge_pair(ch, k, axis_neighbour(k, 0), max);
    lemma_merge_within(orig, ch, k, axis_neighbour(k, 0), max);
    let r2 = merge_pair(r1, k, axis_neighbour(k, 1), max);
    lemma_merge_within(orig, r1, k, axis_neighbour(k, 1), max);
    lemma_merge_within(orig, r2, k, axis_neighbour(k, 2), max);
}

/// Every leaf that a pair merge of the free pass changes holds at most `max` players.
pub proof fn lemma_free_within(t: Tree, max: int)
    requires
        max <= usize::MAX,
    ensures
        within(t, free_pass(t, max), max),
    decreases t, 0nat,
{
    match t {
        Tree::Leaf { .. } => {},
        Tree::Node { children } => {
            if children.len() == 8 {
                lemma_free_children_within(children, 8, max);
            } else {
                lemma_within_refl(t, max);
            }
        },
    }
}

proof fn lemma_free_children_within(orig: Seq<Tree>, k: nat, max: int)
    requires
        orig.len() == 8,
        k <= 8,
        max <= usize::MAX,
    ensures
        free_children(orig, k, max).len() == 8,
        forall|i: int| 0 <= i < 8 ==> within(orig[i], #[trigger] free_children(orig, k, max)[i], max),
    decreases orig, k,
{
    if k == 0 {
        assert forall|i: int| 0 <= i < 8 implies within(orig[i], #[trigger] free_children(orig, k, max)[i], max) by {
            lemma_within_refl(orig[i], max);
        }
    } else {
        lemma_free_children_within(orig, (k - 1) as nat, max);
        let prev = free_children(orig, (k - 1) as nat, max);
        let j = k - 1;
        if orig[j] is Node {
            lemma_free_within(orig[j], max);
        } else {
            lemma_merge_around_within(orig, prev, j, max);
        }
    }
}

/// Inside a node, the allocate pass treats each child as a tree of its own, with the pool
/// that the earlier children left: a leaf over the threshold at any depth is split as
/// `split_spec` says, drawing from that pool.
pub proof fn lemma_alloc_children_elems(orig: Seq<Tree>, k: nat, free: Seq<bool>, max: int)
    requires
        k <= orig.len(),
    ensures
        alloc_children(orig, k, free, max).0.len() == k,
        forall|i: int| 0 <= i < k ==> #[trigger] alloc_children(orig, k, free, max).0[i]
            == alloc_pass(orig[i], alloc_children(orig, i as nat, free, max).1, max).0,
    decreases k,
{
    if k > 0 {
        lemma_alloc_children_elems(orig, (k - 1) as nat, free, max);
        let prev = alloc_children(orig, (k - 1) as nat, free, max);
        let r = alloc_children(orig, k, free, max);
        assert forall|i: int| 0 <= i < k implies #[trigger] alloc_children(orig, k, free, max).0[i]
            == alloc_pass(orig[i], alloc_children(orig, i as nat, free, max).1, max).0 by {
            if i < k - 1 {
                assert(r.0[i] == prev.0[i]);
            }
        }
    }
}

/// A leaf that a pair merge changed holds at most `max` players, so the
/// allocate pass that follows leaves it as it is.
pub proof fn lemma_within_not_split(before: Tree, mid: Tree, free: Seq<bool>, max: int)
    requires
        within(before, mid, max),
    ensures
        merged_not_split(before, mid, alloc_pass(mid, free, max).0),
    decreases mid,
{
    match mid {
        Tree::Leaf { .. } => {},
        Tree::Node { children: cm } => {
            lemma_alloc_children_elems(cm, cm.len(), free, max);
            let after = alloc_pass(mid, free, max).0;
            assert forall|k: int| 0 <= k < cm.len() implies merged_not_split(before->children[k], #[trigger] cm[k], after->children[k]) by {
                let g = alloc_children(cm, k as nat, free, max).1;
                assert(alloc_children(cm, cm.len(), free, max).0[k] == alloc_pass(cm[k], g, max).0);
                lemma_within_not_split(before->children[k], cm[k], g, max);
            }
        },
    }
}

/// No shard of the pool is owned by a leaf of `t`.
pub open spec fn pool_ok(t: Tree, free: Seq<bool>) -> bool {
    forall|j: int| 0 <= j < free.len() && #[trigger] free[j] ==> vacant(t, j)
}

proof fn lemma_alloc_pool(t: Tree, f: Seq<bool>, max: int)
    requires
        f.len() <= usize::MAX,
        t.indices_below(f.len() as int),
        pool_ok(t, f),
    ensures
        alloc_pass(t, f, max).1.len() == f.len(),
        forall|j: int| 0 <= j < f.len() && #[trigger] alloc_pass(t, f, max).1[j] ==> f[j],
        pool_ok(alloc_pass(t, f, max).0, alloc_pass(t, f, max).1),
    decreases t, 0nat,
{
    match t {
        Tree::Leaf { index, population } => {
            if population > max {
                assert(!f[index as int]);
                lemma_split(index, f);
                let (n, g) = split_spec(index, f);
                let c = n->children;
                assert forall|j: int| 0 <= j < g.len() && #[trigger] g[j] implies vacant(n, j) by {
                    assert(f[j]);
                    assert(vacant(t, j));
                    assert forall|k: int| 0 <= k < c.len() implies vacant(#[trigger] c[k], j) by {
                        if k == 0 {
                            assert(c[0]->index == index);
                        } else {
                            assert(c[k]->index != j);
                        }
                    }
                }
            }
        },
        Tree::Node { children } => {
            lemma_alloc_children_pool(children, children.len(), f, max);
            let r = alloc_children(children, children.len(), f, max);
            assert forall|j: int| 0 <= j < r.1.len() && #[trigger] r.1[j] implies vacant(Tree::Node { children: r.0 }, j) by {
                assert forall|i: int| 0 <= i < r.0.len() implies vacant(#[trigger] r.0[i], j) by {}
            }
        },
    }
}

proof fn lemma_alloc_children_pool(orig: Seq<Tree>, k: nat, f: Seq<bool>, max: int)
    requires
        k <= orig.len(),
        f.len() <= usize::MAX,
        forall|i: int| 0 <= i < orig.len() ==> (#[trigger] orig[i]).indices_below(f.len() as int),
        forall|j: int, i: int| 0 <= j < f.len() && f[j] && 0 <= i < orig.len() ==> #[trigger] vacant(orig[i], j),
    ensures
        alloc_children(orig, k, f, max).0.len() == k,
        alloc_children(orig, k, f, max).1.len() == f.len(),
        forall|j: int| 0 <= j < f.len() && #[trigger] alloc_children(orig, k, f, max).1[j] ==> f[j],
        forall|j: int, i: int| 0 <= j < f.len() && alloc_children(orig, k, f, max).1[j] && 0 <= i < k
            ==> #[trigger] vacant(alloc_children(orig, k, f, max).0[i], j),
    decreases orig, k,
{
    if k > 0 {
        lemma_alloc_children_pool(orig, (k - 1) as nat, f, max);
        let prev = alloc_children(orig, (k - 1) as nat, f, max);
        let o = orig[k - 1];
        assert forall|j: int| 0 <= j < prev.1.len() && #[trigger] prev.1[j] implies vacant(o, j) by {
            assert(f[j]);
        }
        lemma_alloc_pool(o, prev.1, max);
        let r = alloc_children(orig, k, f, max);
        assert forall|j: int| 0 <= j < f.len() && #[trigger] r.1[j] implies f[j] by {
            assert(prev.1[j]);
        }
        assert forall|j: int, i: int| 0 <= j < f.len() && r.1[j] && 0 <= i < k implies #[trigger] vacant(r.0[i], j) by {
            assert(prev.1[j]);
            if i < k - 1 {
                assert(r.0[i] == prev.0[i]);
            }
        }
    }
}

/// A refresh changes populations only, so which shards a leaf owns stays the same.
pub proof fn lemma_refreshed_vacant(t: Tree, counts: Seq<Option<usize>>, j: int)
    ensures
        vacant(refreshed(t, counts), j) == vacant(t, j),
    decreases t,
{
    match t {
        Tree::Leaf { .. } => {},
        Tree::Node { children } => {
            let r = refreshed(t, counts);
            assert forall|k: int| 0 <= k < children.len() implies vacant(#[trigger] r->children[k], j) == vacant(children[k], j) by {
                lemma_refreshed_vacant(children[k], counts, j);
            }
            if vacant(t, j) {
                assert forall|k: int| 0 <= k < r->children.len() implies vacant(#[trigger] r->children[k], j) by {
                    assert(vacant(children[k], j));
                }
            }
            if vacant(r, j) {
                assert forall|k: int| 0 <= k < children.len() implies vacant(#[trigger] children[k], j) by {
                    assert(vacant(r->children[k], j));
                }
            }
        },
    }
}

/// `j` is the lowest free shard of the pool.
pub open spec fn is_first_free(free: Seq<bool>, j: int) -> bool {
    0 <= j < free.len() && free[j] && forall|t: int| 0 <= t < j ==> !(#[trigger] free[t])
}

/// The lowest free shard of the pool, or -1 when the pool is exhausted.
pub open spec fn first_free(free: Seq<bool>) -> int {
    if exists|j: int| is_first_free(free, j) {
        choose|j: int| is_first_free(free, j)
    } else {
        -1
    }
}

/// The first `k` children of a split of shard `index`: child 0 keeps the shard,
/// each later child draws the lowest free shard, or keeps `index` once none is left.
pub open spec fn split_children(index: usize, free: Seq<bool>, k: nat) -> (Seq<Tree>, Seq<bool>)
    decreases k,
{
    if k == 0 {
        (Seq::empty(), free)
    } else {
        let prev = split_children(index, free, (k - 1) as nat);
        let j = first_free(prev.1);
        if k == 1 || j < 0 {
            (prev.0.push(Tree::Leaf { index, population: 0 }), prev.1)
        } else {
            (prev.0.push(Tree::Leaf { index: j as usize, population: 0 }), prev.1.update(j, false))
        }
    }
}

/// The node that a split of the leaf of shard `index` makes, and the pool after it.
pub open spec fn split_spec(index: usize, free: Seq<bool>) -> (Tree, Seq<bool>) {
    let r = split_children(index, free, 8);
    (Tree::Node { children: r.0 }, r.1)
}

/// The allocate pass: every leaf whose population exceeds `max` is split.
pub open spec fn alloc_pass(t: Tree, free: Seq<bool>, max: int) -> (Tree, Seq<bool>)
    decreases t, 0nat,
{
    match t {
        Tree::Leaf { index, population } => if population > max {
            split_spec(index, free)
        } else {
            (t, free)
        },
        Tree::Node { children } => {
            let r = alloc_children(children, children.len(), free, max);
            (Tree::Node { children: r.0 }, r.1)
        },
    }
}

/// The first `k` children of a node after the allocate pass, and the pool after them.
pub open spec fn alloc_children(orig: Seq<Tree>, k: nat, free: Seq<bool>, max: int) -> (Seq<Tree>, Seq<bool>)
    decreases orig, k,
{
    if k == 0 || k > orig.len() {
        (Seq::empty(), free)
    } else {
        let prev = alloc_children(orig, (k - 1) as nat, free, max);
        let r = alloc_pass(orig[k - 1], prev.1, max);
        (prev.0.push(r.0), r.1)
    }
}

/// Finds the lowest free shard of the pool.
fn find_free(free_servers: &Vec<bool>) -> (r: Option<usize>)
    ensures
        match r {
            Some(j) => is_first_free(free_servers@, j as int) && first_free(free_servers@) == j,
            None => first_free(free_servers@) == -1,
        },
{
    let mut i: usize = 0;
    while i < free_servers.len()
        invariant
            i <= free_servers@.len(),
            forall|t: int| 0 <= t < i ==> !(#[trigger] free_servers@[t]),
        decreases free_servers@.len() - i,
    {
        if free_servers[i] {
            proof {
                assert(is_first_free(free_servers@, i as int));
                let c = choose|j: int| is_first_free(free_servers@, j);
                assert(c == i) by {
                    if c < i {
                        assert(!free_servers@[c]);
                    } else if c > i {
                        assert(!free_servers@[i as int]);
                    }
                }
            }
            return Some(i);
        }
        i = i + 1;
    }
    proof {
        assert(!exists|j: int| is_first_free(free_servers@, j));
    }
    None
}

/// Splits the leaf of shard `index` into eight leaves of population 0: child `(0, 0, 0)`
/// keeps `index`, the others draw the lowest free shards in turn, and keep `index`
/// once the pool is exhausted.
pub fn split_leaf(index: usize, free_servers: &mut Vec<bool>) -> (r: Server)
    requires
        index < old(free_servers)@.len(),
    ensures
        (r@, final(free_servers)@) == split_spec(index, old(free_servers)@),
        r.wf(),
        r@.indices_below(final(free_servers)@.len() as int),
        final(free_servers)@.len() == old(free_servers)@.len(),
{
    let ghost free0 = free_servers@;
    let mut ch: Vec<Server> = Vec::new();
    let mut k: usize = 0;
    while k < 8
        invariant
            k <= 8,
            ch@.len() == k,
            index < free0.len(),
            free_servers@.len() == free0.len(),
            (models(ch@), free_servers@) == split_children(index, free0, k as nat),
            forall|i: int| 0 <= i < k ==> (#[trigger] ch@[i]) is Num && ch@[i]@.indices_below(free0.len() as int),
        decreases 8 - k,
    {
        let ghost prev = ch@;
        if k == 0 {
            ch.push(Server::Num(index, 0));
        } else {
            match find_free(free_servers) {
                Some(j) => {
                    free_servers.set(j, false);
                    ch.push(Server::Num(j, 0));
                },
                None => {
                    ch.push(Server::Num(index, 0));
                },
            }
        }
        proof {
            assert(models(ch@) =~= models(prev).push(ch@[k as int]@));
        }
        k = k + 1;
    }
    let r = Server::Octree(ch);
    proof {
        r.lemma_view_children();
        assert(r@->children =~= models(ch@));
        assert forall|i: int| 0 <= i < 8 implies (#[trigger] r@->children[i]).wf() && r@->children[i].indices_below(free0.len() as int) by {
            assert(r@->children[i] == ch@[i]@);
        }
    }
    r
}


impl Server {
    /// The allocate pass: splits every leaf whose population exceeds `max_players`
    /// (see `split_leaf`), visiting children in octant order.
    pub fn restructure_allocate(&mut self, free_servers: &mut Vec<bool>, max_players: usize)
        requires
            old(self).wf(),
            old(self)@.indices_below(old(free_servers)@.len() as int),
        ensures
            final(self).wf(),
            final(self)@.indices_below(final(free_servers)@.len() as int),
            final(free_servers)@.len() == old(free_servers)@.len(),
            (final(self)@, final(free_servers)@) == alloc_pass(old(self)@, old(free_servers)@, max_players as int),
        decreases old(self)@,
    {
        let ghost free0 = free_servers@;
        let mut split_index: Option<usize> = None;
        match self {
            Server::Num(i, pop) => {
                if *pop > max_players {
                    split_index = Some(*i);
                }
            },
            Server::Octree(ch) => {
                let ghost ov: Vec<Server> = *ch;
                proof {
                    old(self).lemma_view_children();
                    assert forall|i: int| 0 <= i < 8 implies (#[trigger] ch@[i])@.wf() && ch@[i]@.indices_below(free0.len() as int) by {
                        assert(old(self)@->children[i] == ch@[i]@);
                    }
                    assert(models(ch@) =~= old(self)@->children);
                }
                let ghost orig = models(ch@);
                let mut k: usize = 0;
                while k < 8
                    invariant
                        k <= 8,
                        ch@.len() == 8,
                        orig.len() == 8,
                        orig == old(self)@->children,
                        *old(self) == Server::Octree(ov),
                        free_servers@.len() == free0.len(),
                        alloc_children(orig, k as nat, free0, max_players as int).0.len() == k,
                        free_servers@ == alloc_children(orig, k as nat, free0, max_players as int).1,
                        forall|i: int| 0 <= i < k ==> (#[trigger] ch@[i])@ == alloc_children(orig, k as nat, free0, max_players as int).0[i],
                        forall|i: int| k <= i < 8 ==> (#[trigger] ch@[i])@ == orig[i],
                        forall|i: int| 0 <= i < 8 ==> (#[trigger] ch@[i])@.wf() && ch@[i]@.indices_below(free0.len() as int),
                    decreases 8 - k,
                {
                    proof {
                        assert(decreases_to!(old(self)@ => old(self)@->children));
                        assert(decreases_to!(old(self)@ => ch@[k as int]@));
                    }
                    let ghost before = ch@;
                    ch[k].restructure_allocate(free_servers, max_players);
                    proof {
                        let prev = alloc_children(orig, k as nat, free0, max_players as int);
                        let next = alloc_children(orig, (k + 1) as nat, free0, max_players as int);
                        assert(next.0 == prev.0.push(ch@[k as int]@));
                        assert forall|i: int| 0 <= i < k + 1 implies (#[trigger] ch@[i])@ == next.0[i] by {
                            if i < k {
                                assert(ch@[i] == before[i]);
                            }
                        }
                        assert forall|i: int| 0 <= i < 8 implies (#[trigger] ch@[i])@.wf() && ch@[i]@.indices_below(free0.len() as int) by {
                            if i != k {
                                assert(ch@[i] == before[i]);
                            }
                        }
                    }
                    k = k + 1;
                }
                proof {
                    assert(models(ch@) =~= alloc_children(orig, 8, free0, max_players as int).0);
                }
            },
        }
        match split_index {
            Some(i) => {
                *self = split_leaf(i, free_servers);
            },
            None => {},
        }
        proof {
            old(self).lemma_view_children();
            self.lemma_view_children();
            if split_index is None && *self is Octree {
                assert(self@->children =~= alloc_pass(old(self)@, free0, max_players as int).0->children);
                assert forall|i: int| 0 <= i < 8 implies (#[trigger] self@->children[i]).wf() && self@->children[i].indices_below(free0.len() as int) by {
                    assert(self@->children[i] == (*self)->Octree_0@[i]@);
                }
            }
        }
    }
}


/// A refresh keeps the shape of the tree and its shard indices.
pub proof fn lemma_refreshed_shape(t: Tree, counts: Seq<Option<usize>>, n: int)
    ensures
        t.wf() ==> refreshed(t, counts).wf(),
        t.indices_below(n) ==> refreshed(t, counts).indices_below(n),
    decreases t,
{
    match t {
        Tree::Leaf { .. } => {},
        Tree::Node { children } => {
            assert forall|i: int| 0 <= i < children.len() implies
                (children[i].wf() ==> (#[trigger] refreshed(t, counts)->children[i]).wf())
                && (children[i].indices_below(n) ==> refreshed(t, counts)->children[i].indices_below(n)) by {
                lemma_refreshed_shape(children[i], counts, n);
            }
        },
    }
}

/// One restructure pass over a population snapshot.
pub open spec fn pass_spec(t: Tree, free: Seq<bool>, counts: Seq<Option<usize>>, max: int) -> (Tree, Seq<bool>) {
    let r = refreshed(t, counts);
    let m = free_pass(r, max);
    alloc_pass(m, released(free, r, m), max)
}

/// One restructure pass: refreshes the populations from `counts` (the count each shard
/// reported, `None` where it did not answer), runs the free pass, then the allocate pass,
/// both with the threshold `config.max_players`.
pub fn restructure_servers(server: &mut Server, free_servers: &mut Vec<bool>, counts: &Vec<Option<usize>>, config: &Config)
    requires
        old(server).wf(),
        old(server)@.indices_below(old(free_servers)@.len() as int),
    ensures
        final(server).wf(),
        final(server)@.indices_below(final(free_servers)@.len() as int),
        final(free_servers)@.len() == old(free_servers)@.len(),
        (final(server)@, final(free_servers)@) == pass_spec(old(server)@, old(free_servers)@, counts@, config.max_players as int),
        merged_not_split(
            refreshed(old(server)@, counts@),
            free_pass(refreshed(old(server)@, counts@), config.max_players as int),
            final(server)@,
        ),
        pool_ok(old(server)@, old(free_servers)@) ==> pool_ok(final(server)@, final(free_servers)@),
{
    server.update_population(counts);
    proof {
        lemma_refreshed_shape(old(server)@, counts@, old(free_servers)@.len() as int);
    }
    let ghost r = server@;
    server.restructure_free(free_servers, config.max_players);
    let ghost f = free_servers@;
    let pool_len = free_servers.len();
    server.restructure_allocate(free_servers, config.max_players);
    proof {
        if pool_ok(old(server)@, old(free_servers)@) {
            assert forall|j: int| 0 <= j < old(free_servers)@.len() && #[trigger] old(free_servers)@[j] implies vacant(r, j) by {
                lemma_refreshed_vacant(old(server)@, counts@, j);
            }
            assert(f.len() == pool_len);
            lemma_alloc_pool(free_pass(r, config.max_players as int), f, config.max_players as int);
        }
        lemma_free_within(r, config.max_players as int);
        lemma_within_not_split(r, free_pass(r, config.max_players as int), f, config.max_players as int);
    }
}


proof fn lemma_first_exists(free: Seq<bool>, t: int)
    requires
        0 <= t < free.len(),
        free[t],
    ensures
        exists|j: int| is_first_free(free, j),
    decreases t,
{
    if exists|u: int| 0 <= u < t && free[u] {
        let u = choose|u: int| 0 <= u < t && free[u];
        lemma_first_exists(free, u);
    } else {
        assert(is_first_free(free, t));
    }
}

/// The lowest free shard is free; there is none exactly when no shard is free.
pub proof fn lemma_first_free(free: Seq<bool>)
    ensures
        first_free(free) >= 0 ==> is_first_free(free, first_free(free)),
        first_free(free) == -1 <==> (forall|t: int| 0 <= t < free.len() ==> !(#[trigger] free[t])),
{
    if exists|t: int| 0 <= t < free.len() && free[t] {
        let t = choose|t: int| 0 <= t < free.len() && free[t];
        lemma_first_exists(free, t);
    }
}

/// What holds of the first `k` children of a split.
pub open spec fn split_prefix_ok(index: usize, free: Seq<bool>, cs: Seq<Tree>, f: Seq<bool>, k: int) -> bool {
    &&& cs.len() == k
    &&& f.len() == free.len()
    &&& forall|a: int| 0 <= a < k ==> (#[trigger] cs[a]) is Leaf && cs[a]->population == 0
    &&& k > 0 ==> cs[0]->index == index
    &&& forall|t: int| 0 <= t < free.len() ==> (#[trigger] f[t]) == (free[t] && forall|a: int| 1 <= a < k ==> (#[trigger] cs[a])->index != t)
    &&& forall|a: int| 1 <= a < k && (#[trigger] cs[a])->index != index ==> cs[a]->index < free.len() && free[cs[a]->index as int]
    &&& forall|a: int| 1 <= a < k && (#[trigger] cs[a])->index == index ==> forall|t: int| 0 <= t < f.len() ==> !(#[trigger] f[t])
    &&& forall|a: int, b: int| 1 <= a < b < k && (#[trigger] cs[a])->index != index ==> cs[a]->index != (#[trigger] cs[b])->index
}

proof fn lemma_split_prefix(index: usize, free: Seq<bool>, k: nat)
    requires
        index < free.len(),
        free.len() <= usize::MAX,
        !free[index as int],
        k <= 8,
    ensures
        split_prefix_ok(index, free, split_children(index, free, k).0, split_children(index, free, k).1, k as int),
    decreases k,
{
    if k > 0 {
        lemma_split_prefix(index, free, (k - 1) as nat);
        let prev = split_children(index, free, (k - 1) as nat);
        let (cs, f) = (prev.0, prev.1);
        let j = first_free(f);
        lemma_first_free(f);
        let next = split_children(index, free, k);
        let nc = next.0;
        let nf = next.1;
        assert(!f[index as int]);
        assert forall|a: int| 0 <= a < k - 1 implies #[trigger] nc[a] == cs[a] by {}
        if k == 1 || j < 0 {
            assert(nc == cs.push(Tree::Leaf { index, population: 0 }));
            assert(nf == f);
            assert(nc[k - 1]->index == index);
            assert forall|t: int| 0 <= t < free.len() implies (#[trigger] nf[t]) == (free[t] && forall|a: int| 1 <= a < k ==> (#[trigger] nc[a])->index != t) by {
                if t == index as int {
                    assert(!free[t]);
                } else {
                    if forall|a: int| 1 <= a < k - 1 ==> (#[trigger] cs[a])->index != t {
                        assert forall|a: int| 1 <= a < k implies (#[trigger] nc[a])->index != t by {
                            if a < k - 1 {
                                assert(nc[a] == cs[a]);
                            }
                        }
                    }
                    if forall|a: int| 1 <= a < k ==> (#[trigger] nc[a])->index != t {
                        assert forall|a: int| 1 <= a < k - 1 implies (#[trigger] cs[a])->index != t by {
                            assert(nc[a] == cs[a]);
                        }
                    }
                }
            }
            if k > 1 {
                assert(forall|u: int| 0 <= u < f.len() ==> !(#[trigger] f[u]));
            }
        } else {
            let n = Tree::Leaf { index: j as usize, population: 0 };
            assert(nc == cs.push(n));
            assert(nf == f.update(j, false));
            assert(f[j]);
            assert(nc[k - 1]->index == j);
            assert(free[j] && forall|a: int| 1 <= a < k - 1 ==> (#[trigger] cs[a])->index != j);
            assert forall|a: int| 1 <= a < k - 1 implies (#[trigger] cs[a])->index != index by {
                if cs[a]->index == index {
                    assert(!f[j]);
                }
            }
            assert forall|t: int| 0 <= t < free.len() implies (#[trigger] nf[t]) == (free[t] && forall|a: int| 1 <= a < k ==> (#[trigger] nc[a])->index != t) by {
                if t == j {
                    assert(nc[k - 1]->index == t);
                } else {
                    if forall|a: int| 1 <= a < k - 1 ==> (#[trigger] cs[a])->index != t {
                        assert forall|a: int| 1 <= a < k implies (#[trigger] nc[a])->index != t by {
                            if a < k - 1 {
                                assert(nc[a] == cs[a]);
                            }
                        }
                    }
                    if forall|a: int| 1 <= a < k ==> (#[trigger] nc[a])->index != t {
                        assert forall|a: int| 1 <= a < k - 1 implies (#[trigger] cs[a])->index != t by {
                            assert(nc[a] == cs[a]);
                        }
                    }
                }
            }
            assert forall|a: int, b: int| 1 <= a < b < k && (#[trigger] nc[a])->index != index implies nc[a]->index != (#[trigger] nc[b])->index by {
                if b == k - 1 {
                    assert(cs[a]->index != j);
                }
            }
        }
    }
}

/// A split gives eight leaves of population 0; child `(0, 0, 0)` keeps the shard;
/// each other child either takes a shard that was free and leaves the pool, distinct
/// from the shards the other children took, or keeps the original shard, and then the
/// pool is exhausted; the pool loses exactly the shards taken.
pub proof fn lemma_split(index: usize, free: Seq<bool>)
    requires
        index < free.len(),
        free.len() <= usize::MAX,
        !free[index as int],
    ensures
        ({
            let (t, f) = split_spec(index, free);
            let c = t->children;
            &&& c.len() == 8
            &&& forall|k: int| 0 <= k < 8 ==> (#[trigger] c[k]) is Leaf && c[k]->population == 0
            &&& c[0]->index == index
            &&& forall|k: int| 1 <= k < 8 && (#[trigger] c[k])->index != index ==> free[c[k]->index as int] && !f[c[k]->index as int]
            &&& forall|k: int| 1 <= k < 8 && (#[trigger] c[k])->index == index ==> forall|u: int| 0 <= u < f.len() ==> !(#[trigger] f[u])
            &&& forall|a: int, b: int| 1 <= a < b < 8 && (#[trigger] c[a])->index != index ==> c[a]->index != (#[trigger] c[b])->index
            &&& f.len() == free.len()
            &&& forall|u: int| 0 <= u < free.len() ==> (#[trigger] f[u]) == (free[u] && forall|k: int| 1 <= k < 8 ==> (#[trigger] c[k])->index != u)
        }),
{
    lemma_split_prefix(index, free, 8);
    let (t, f) = split_spec(index, free);
    let c = t->children;
    assert forall|k: int| 1 <= k < 8 && (#[trigger] c[k])->index != index implies free[c[k]->index as int] && !f[c[k]->index as int] by {
        let u = c[k]->index as int;
        assert(!(forall|a: int| 1 <= a < 8 ==> (#[trigger] c[a])->index != u));
    }
}

/// Two axis-adjacent sibling leaves of different shards whose combined population is
/// below `max` end on the first one's shard with the combined population; no sibling
/// leaf is left on the second shard, and siblings on neither shard are untouched.
pub proof fn lemma_merge(ch: Seq<Tree>, a: int, axis: int, max: int)
    requires
        ch.len() == 8,
        0 <= a < 8,
        0 <= axis < 3,
        ch[a] is Leaf,
        ch[axis_neighbour(a, axis)] is Leaf,
        ch[a]->index != ch[axis_neighbour(a, axis)]->index,
        ch[a]->population + ch[axis_neighbour(a, axis)]->population < max,
    ensures
        ({
            let b = axis_neighbour(a, axis);
            let m = merge_pair(ch, a, b, max);
            &&& m.len() == 8
            &&& m[a] == m[b]
            &&& m[a] == (Tree::Leaf { index: ch[a]->index, population: (ch[a]->population + ch[b]->population) as usize })
            &&& forall|k: int| 0 <= k < 8 && (#[trigger] m[k]) is Leaf ==> m[k]->index != ch[b]->index
            &&& forall|k: int| 0 <= k < 8 && !(ch[k] is Leaf && (ch[k]->index == ch[a]->index || ch[k]->index == ch[b]->index))
                ==> #[trigger] m[k] == ch[k]
        }),
{
}

/// A tree at rest: no leaf over `max`, no pair of axis-adjacent sibling leaves of
/// different shards that could merge, and no node whose children are all one shard.
pub open spec fn stable(t: Tree, max: int) -> bool
    decreases t,
{
    match t {
        Tree::Leaf { population, .. } => population <= max,
        Tree::Node { children: ch } => {
            &&& ch.len() == 8
            &&& forall|k: int| 0 <= k < 8 ==> stable(#[trigger] ch[k], max)
            &&& forall|k: int, axis: int| 0 <= k < 8 && 0 <= axis < 3 ==> !mergeable(ch, k, #[trigger] axis_neighbour(k, axis), max)
            &&& !one_shard(ch)
        },
    }
}

/// The free pass leaves a tree at rest as it is.
pub proof fn lemma_free_stable(t: Tree, max: int)
    requires
        stable(t, max),
    ensures
        free_pass(t, max) == t,
    decreases t, 0nat,
{
    match t {
        Tree::Leaf { .. } => {},
        Tree::Node { children } => {
            lemma_free_children_stable(children, 8, max);
        },
    }
}

proof fn lemma_free_children_stable(orig: Seq<Tree>, k: nat, max: int)
    requires
        orig.len() == 8,
        k <= 8,
        forall|i: int| 0 <= i < 8 ==> stable(#[trigger] orig[i], max),
        forall|i: int, axis: int| 0 <= i < 8 && 0 <= axis < 3 ==> !mergeable(orig, i, #[trigger] axis_neighbour(i, axis), max),
    ensures
        free_children(orig, k, max) == orig,
    decreases orig, k,
{
    if k > 0 {
        lemma_free_children_stable(orig, (k - 1) as nat, max);
        let j = k - 1;
        if orig[j] is Node {
            lemma_free_stable(orig[j], max);
            assert(orig.update(j, orig[j]) =~= orig);
        } else {
            assert(!mergeable(orig, j, axis_neighbour(j, 0), max));
            assert(!mergeable(orig, j, axis_neighbour(j, 1), max));
            assert(!mergeable(orig, j, axis_neighbour(j, 2), max));
        }
    }
}

/// The allocate pass leaves a tree at rest, and the pool, as they are.
pub proof fn lemma_alloc_stable(t: Tree, free: Seq<bool>, max: int)
    requires
        stable(t, max),
    ensures
        alloc_pass(t, free, max) == (t, free),
    decreases t, 0nat,
{
    match t {
        Tree::Leaf { .. } => {},
        Tree::Node { children } => {
            lemma_alloc_children_stable(children, 8, free, max);
            assert(children.subrange(0, 8) =~= children);
        },
    }
}

proof fn lemma_alloc_children_stable(orig: Seq<Tree>, k: nat, free: Seq<bool>, max: int)
    requires
        orig.len() == 8,
        k <= 8,
        forall|i: int| 0 <= i < 8 ==> stable(#[trigger] orig[i], max),
    ensures
        alloc_children(orig, k, free, max) == (orig.subrange(0, k as int), free),
    decreases orig, k,
{
    if k > 0 {
        lemma_alloc_children_stable(orig, (k - 1) as nat, free, max);
        lemma_alloc_stable(orig[k - 1], free, max);
        assert(orig.subrange(0, k - 1).push(orig[k - 1]) =~= orig.subrange(0, k as int));
    }
}

/// A tree at rest whose populations are unchanged comes out of a restructure pass
/// as it went in, with the same pool: repeating the pass never oscillates.
pub proof fn lemma_pass_stable(t: Tree, free: Seq<bool>, counts: Seq<Option<usize>>, max: int)
    requires
        stable(t, max),
        refreshed(t, counts) == t,
    ensures
        pass_spec(t, free, counts, max) == (t, free),
{
    lemma_free_stable(t, max);
    assert(released(free, t, t) =~= free);
    lemma_alloc_stable(t, free, max);
}

} // verus!
