use vstd::prelude::*;

verus! {

/// A point of world space in fixed-point units.
#[derive(Clone, Copy, Debug, PartialEq, Eq)]
pub struct Position {
    pub x: i64,
    pub y: i64,
    pub z: i64,
}

/// Parameters of the spatial partition.
#[derive(Clone, Copy, Debug, PartialEq, Eq)]
pub struct Config {
    /// Side length of the world cube, in position units.
    pub world_size: u64,
    /// Population above which a leaf is split; merges need a combined population below it.
    pub max_players: usize,
    /// Relative width of the border buffer, as the fraction `border_num / border_den`.
    pub border_num: u32,
    pub border_den: u32,
}

/// The shard tree: a leaf holds a shard index and its cached population; an
/// internal node holds eight children, the child of octant `(x, y, z)` at `4 * x + 2 * y + z`.
#[derive(Debug)]
pub enum Server {
    Octree(Vec<Server>),
    Num(usize, usize),
}

/// The mathematical shard tree.
pub enum Tree {
    Leaf { index: usize, population: usize },
    Node { children: Seq<Tree> },
}

/// The tree that a `Server` value stands for.
pub open spec fn tree_of(s: Server) -> Tree
    decreases s,
{
    match s {
        Server::Num(i, p) => Tree::Leaf { index: i, population: p },
        Server::Octree(ch) => Tree::Node {
            children: Seq::new(ch@.len(), |k: int| if 0 <= k < ch@.len() { tree_of(ch@[k]) } else { Tree::Leaf { index: 0, population: 0 } }),
        },
    }
}

impl View for Server {
    type V = Tree;

    open spec fn view(&self) -> Tree {
        tree_of(*self)
    }
}

pub open spec fn octant(x: int, y: int, z: int) -> int {
    4 * x + 2 * y + z
}

/// Which half of a node of half size `half` the coordinate `c` falls into.
pub open spec fn side(c: int, half: int) -> int {
    if c >= half { 1 } else { 0 }
}

/// `c` lies within the relative distance `num / den` of the split plane at `half`.
pub open spec fn near(c: int, half: int, num: int, den: int) -> bool {
    let d = if c >= half { c - half } else { half - c };
    d * den < num * half
}

impl Tree {
    pub open spec fn wf(self) -> bool
        decreases self,
    {
        match self {
            Tree::Leaf { .. } => true,
            Tree::Node { children } => children.len() == 8 && forall|i: int|
                0 <= i < 8 ==> (#[trigger] children[i]).wf(),
        }
    }

    /// Every shard index of a leaf is below `n`.
    pub open spec fn indices_below(self, n: int) -> bool
        decreases self,
    {
        match self {
            Tree::Leaf { index, .. } => index < n,
            Tree::Node { children } => forall|i: int|
                0 <= i < children.len() ==> (#[trigger] children[i]).indices_below(n),
        }
    }

    /// Shard indices returned for the node-relative coordinates `(x, y, z)` in a node of side `size`.
    pub open spec fn query_set(self, x: int, y: int, z: int, size: int, num: int, den: int) -> Set<usize>
        decreases self,
    {
        match self {
            Tree::Leaf { index, .. } => set![index],
            Tree::Node { children: ch } => {
                if ch.len() != 8 {
                    Set::empty()
                } else {
                    let h = size / 2;
                    let (sx, sy, sz) = (side(x, h), side(y, h), side(z, h));
                    let main = ch[octant(sx, sy, sz)].query_set(x - sx * h, y - sy * h, z - sz * h, h, num, den);
                    let ex = if near(x, h, num, den) {
                        ch[octant(1 - sx, sy, sz)].query_set(x - (1 - sx) * h, y - sy * h, z - sz * h, h, num, den)
                    } else {
                        Set::empty()
                    };
                    let ey = if near(y, h, num, den) {
                        ch[octant(sx, 1 - sy, sz)].query_set(x - sx * h, y - (1 - sy) * h, z - sz * h, h, num, den)
                    } else {
                        Set::empty()
                    };
                    let ez = if near(z, h, num, den) {
                        ch[octant(sx, sy, 1 - sz)].query_set(x - sx * h, y - sy * h, z - (1 - sz) * h, h, num, den)
                    } else {
                        Set::empty()
                    };
                    main + ex + ey + ez
                }
            },
        }
    }
}

impl Tree {
    /// The shard of the leaf reached by descending into the octant that holds the point.
    pub open spec fn owner(self, x: int, y: int, z: int, size: int) -> usize
        decreases self,
    {
        match self {
            Tree::Leaf { index, .. } => index,
            Tree::Node { children: ch } => {
                if ch.len() != 8 {
                    0
                } else {
                    let h = size / 2;
                    let (sx, sy, sz) = (side(x, h), side(y, h), side(z, h));
                    ch[octant(sx, sy, sz)].owner(x - sx * h, y - sy * h, z - sz * h, h)
                }
            },
        }
    }

    /// On the way down to its leaf, the point is never within the border buffer of a split plane.
    pub open spec fn interior(self, x: int, y: int, z: int, size: int, num: int, den: int) -> bool
        decreases self,
    {
        match self {
            Tree::Leaf { .. } => true,
            Tree::Node { children: ch } => {
                let h = size / 2;
                let (sx, sy, sz) = (side(x, h), side(y, h), side(z, h));
                &&& ch.len() == 8
                &&& !near(x, h, num, den)
                &&& !near(y, h, num, den)
                &&& !near(z, h, num, den)
                &&& ch[octant(sx, sy, sz)].interior(x - sx * h, y - sy * h, z - sz * h, h, num, den)
            },
        }
    }
}

/// A point that is never within the border buffer of a split plane on the way down
/// to its leaf is covered by that leaf's shard alone.
pub proof fn lemma_query_interior(t: Tree, x: int, y: int, z: int, size: int, num: int, den: int)
    requires
        t.wf(),
        t.interior(x, y, z, size, num, den),
    ensures
        t.query_set(x, y, z, size, num, den) == set![t.owner(x, y, z, size)],
    decreases t,
{
    match t {
        Tree::Leaf { .. } => {},
        Tree::Node { children: ch } => {
            let h = size / 2;
            let (sx, sy, sz) = (side(x, h), side(y, h), side(z, h));
            let c = ch[octant(sx, sy, sz)];
            lemma_query_interior(c, x - sx * h, y - sy * h, z - sz * h, h, num, den);
            let main = c.query_set(x - sx * h, y - sy * h, z - sz * h, h, num, den);
            assert(main + Set::empty() + Set::empty() + Set::empty() =~= main);
        },
    }
}

/// A point that is within the border buffer of no split plane of a node is covered
/// exactly as in the child whose octant holds it, in that child's coordinates.
pub proof fn lemma_query_descend(t: Tree, x: int, y: int, z: int, size: int, num: int, den: int)
    requires
        t.wf(),
        t is Node,
        !near(x, size / 2, num, den),
        !near(y, size / 2, num, den),
        !near(z, size / 2, num, den),
    ensures
        ({
            let h = size / 2;
            let (sx, sy, sz) = (side(x, h), side(y, h), side(z, h));
            t.query_set(x, y, z, size, num, den)
                == t->children[octant(sx, sy, sz)].query_set(x - sx * h, y - sy * h, z - sz * h, h, num, den)
        }),
{
    let h = size / 2;
    let (sx, sy, sz) = (side(x, h), side(y, h), side(z, h));
    let main = t->children[octant(sx, sy, sz)].query_set(x - sx * h, y - sy * h, z - sz * h, h, num, den);
    assert(main + Set::empty() + Set::empty() + Set::empty() =~= main);
}

/// A point within the border buffer of exactly one of the three split planes of a
/// node whose two children on either side of that plane are leaves is covered by
/// exactly those two leaves' shards.
pub proof fn lemma_query_one_plane(t: Tree, x: int, y: int, z: int, size: int, num: int, den: int)
    requires
        t.wf(),
        t is Node,
        ({
            let h = size / 2;
            let (nx, ny, nz) = (near(x, h, num, den), near(y, h, num, den), near(z, h, num, den));
            let (sx, sy, sz) = (side(x, h), side(y, h), side(z, h));
            let (fx, fy, fz) = (if nx { 1 - sx } else { sx }, if ny { 1 - sy } else { sy }, if nz { 1 - sz } else { sz });
            &&& (if nx { 1int } else { 0 }) + (if ny { 1int } else { 0 }) + (if nz { 1int } else { 0 }) == 1
            &&& t->children[octant(sx, sy, sz)] is Leaf
            &&& t->children[octant(fx, fy, fz)] is Leaf
        }),
    ensures
        ({
            let h = size / 2;
            let (nx, ny, nz) = (near(x, h, num, den), near(y, h, num, den), near(z, h, num, den));
            let (sx, sy, sz) = (side(x, h), side(y, h), side(z, h));
            let (fx, fy, fz) = (if nx { 1 - sx } else { sx }, if ny { 1 - sy } else { sy }, if nz { 1 - sz } else { sz });
            t.query_set(x, y, z, size, num, den)
                == set![t->children[octant(sx, sy, sz)]->index, t->children[octant(fx, fy, fz)]->index]
        }),
{
    let h = size / 2;
    let (sx, sy, sz) = (side(x, h), side(y, h), side(z, h));
    let (nx, ny, nz) = (near(x, h, num, den), near(y, h, num, den), near(z, h, num, den));
    let (fx, fy, fz) = (if nx { 1 - sx } else { sx }, if ny { 1 - sy } else { sy }, if nz { 1 - sz } else { sz });
    let ch = t->children;
    let a = ch[octant(sx, sy, sz)]->index;
    let b = ch[octant(fx, fy, fz)]->index;
    let pa = ch[octant(sx, sy, sz)];
    let pb = ch[octant(fx, fy, fz)];
    assert(pa.query_set(x - sx * h, y - sy * h, z - sz * h, h, num, den) == set![a]);
    if nx {
        assert(pb.query_set(x - (1 - sx) * h, y - sy * h, z - sz * h, h, num, den) == set![b]);
    } else if ny {
        assert(pb.query_set(x - sx * h, y - (1 - sy) * h, z - sz * h, h, num, den) == set![b]);
    } else {
        assert(pb.query_set(x - sx * h, y - sy * h, z - (1 - sz) * h, h, num, den) == set![b]);
    }
    assert(t.query_set(x, y, z, size, num, den) =~= set![a, b]);
}

impl Server {
    pub open spec fn wf(self) -> bool {
        self@.wf()
    }

    pub proof fn lemma_view_children(&self)
        ensures
            match *self {
                Server::Num(i, p) => self@ == (Tree::Leaf { index: i, population: p }),
                Server::Octree(ch) => self@ is Node && self@->children.len() == ch@.len()
                    && forall|k: int| 0 <= k < ch@.len() ==> (#[trigger] self@->children[k]) == ch@[k]@,
            },
    {
    }
}

/// Bound on node-relative coordinates during a descent.
pub open spec fn coord_bound() -> int {
    0x40_0000_0000_0000_0000
}

pub open spec fn in_range(c: int, size: int) -> bool {
    -(coord_bound() - size) <= c <= coord_bound() - size
}

/// Adds to `acc` each element of `more` that it does not yet hold.
pub fn union_into(acc: &mut Vec<usize>, more: &Vec<usize>)
    requires
        old(acc)@.no_duplicates(),
    ensures
        final(acc)@.no_duplicates(),
        final(acc)@.to_set() == old(acc)@.to_set() + more@.to_set(),
{
    let mut j: usize = 0;
    while j < more.len()
        invariant
            j <= more@.len(),
            acc@.no_duplicates(),
            acc@.to_set() == old(acc)@.to_set() + more@.subrange(0, j as int).to_set(),
        decreases more@.len() - j,
    {
        let e = more[j];
        let mut k: usize = 0;
        let mut found = false;
        while k < acc.len()
            invariant
                k <= acc@.len(),
                found == (exists|t: int| 0 <= t < k && acc@[t] == e),
            decreases acc@.len() - k,
        {
            if acc[k] == e {
                found = true;
            }
            k = k + 1;
        }
        proof {
            assert(more@.subrange(0, j + 1) == more@.subrange(0, j as int).push(e));
            more@.subrange(0, j as int).lemma_push_to_set_commute(e);
        }
        if !found {
            let ghost before = acc@;
            acc.push(e);
            proof {
                before.lemma_push_to_set_commute(e);
                assert forall|a: int, b: int| 0 <= a < b < acc@.len() implies acc@[a] != acc@[b] by {
                    if b == before.len() {
                        assert(acc@[a] == before[a]);
                    }
                }
            }
        } else {
            proof {
                let t = choose|t: int| 0 <= t < k && acc@[t] == e;
                assert(acc@.to_set().contains(acc@[t]));
                assert(acc@.to_set().insert(e) =~= acc@.to_set());
            }
        }
        proof {
            assert(old(acc)@.to_set() + more@.subrange(0, j + 1).to_set() =~= acc@.to_set());
        }
        j = j + 1;
    }
    proof {
        assert(more@.subrange(0, more@.len() as int) == more@);
    }
}

fn side_exec(c: i128, half: i128) -> (r: i128)
    ensures
        r == side(c as int, half as int),
{
    if c >= half { 1 } else { 0 }
}

fn near_exec(c: i128, half: i128, num: u32, den: u32) -> (r: bool)
    requires
        -coord_bound() <= c <= coord_bound(),
        0 <= half <= u64::MAX,
    ensures
        r == near(c as int, half as int, num as int, den as int),
{
    let d: i128 = if c >= half { c - half } else { half - c };
    proof {
        assert(0 <= d <= 2 * coord_bound());
        assert(d * (den as int) <= 2 * coord_bound() * 0x1_0000_0000) by (nonlinear_arith)
            requires 0 <= d <= 2 * coord_bound(), 0 <= den <= 0xffff_ffff;
        assert((num as int) * half <= 0x1_0000_0000 * 0x1_0000_0000_0000_0000) by (nonlinear_arith)
            requires 0 <= half <= u64::MAX, 0 <= num <= 0xffff_ffff;
    }
    d * (den as i128) < (num as i128) * half
}

impl Server {
    #[verifier::rlimit(60)]
    fn query_rec(&self, x: i128, y: i128, z: i128, size: u64, num: u32, den: u32) -> (r: Vec<usize>)
        requires
            self.wf(),
            in_range(x as int, size as int),
            in_range(y as int, size as int),
            in_range(z as int, size as int),
        ensures
            r@.no_duplicates(),
            r@.to_set() == self@.query_set(x as int, y as int, z as int, size as int, num as int, den as int),
        decreases self,
    {
        match self {
            Server::Num(i, _) => {
                let r = vec![*i];
                proof {
                    assert(r@.to_set() =~= set![*i]) by {
                        assert(r@[0] == *i);
                    }
                }
                r
            },
            Server::Octree(ch) => {
                proof {
                    self.lemma_view_children();
                }
                let h: u64 = size / 2;
                let hh = h as i128;
                let sx = side_exec(x, hh);
                let sy = side_exec(y, hh);
                let sz = side_exec(z, hh);
                let ox = x - sx * hh;
                let oy = y - sy * hh;
                let oz = z - sz * hh;
                let main = (4 * sx + 2 * sy + sz) as usize;
                proof {
                    assert(self@->children[main as int] == ch@[main as int]@);
                    assert(ch@[main as int]@.wf());
                }
                proof {
                    assert((1 - sx) * hh == if sx == 0 { hh } else { 0 });
                    assert((1 - sy) * hh == if sy == 0 { hh } else { 0 });
                    assert((1 - sz) * hh == if sz == 0 { hh } else { 0 });
                    assert(sx * hh == if sx == 1 { hh } else { 0 });
                    assert(sy * hh == if sy == 1 { hh } else { 0 });
                    assert(sz * hh == if sz == 1 { hh } else { 0 });
                }
                let ghost (gx, gy, gz, gs, gn, gd) = (x as int, y as int, z as int, size as int, num as int, den as int);
                let mut acc = ch[main].query_rec(ox, oy, oz, h, num, den);
                let ghost s0 = acc@.to_set();
                if near_exec(x, hh, num, den) {
                    let k = (4 * (1 - sx) + 2 * sy + sz) as usize;
                    proof {
                        assert(self@->children[k as int] == ch@[k as int]@);
                        assert(ch@[k as int]@.wf());
                    }
                    let more = ch[k].query_rec(if sx == 0 { x - hh } else { x }, oy, oz, h, num, den);
                    union_into(&mut acc, &more);
                }
                let ghost s1 = acc@.to_set();
                if near_exec(y, hh, num, den) {
                    let k = (4 * sx + 2 * (1 - sy) + sz) as usize;
                    proof {
                        assert(self@->children[k as int] == ch@[k as int]@);
                        assert(ch@[k as int]@.wf());
                    }
                    let more = ch[k].query_rec(ox, if sy == 0 { y - hh } else { y }, oz, h, num, den);
                    union_into(&mut acc, &more);
                }
                let ghost s2 = acc@.to_set();
                if near_exec(z, hh, num, den) {
                    let k = (4 * sx + 2 * sy + (1 - sz)) as usize;
                    proof {
                        assert(self@->children[k as int] == ch@[k as int]@);
                        assert(ch@[k as int]@.wf());
                    }
                    let more = ch[k].query_rec(ox, oy, if sz == 0 { z - hh } else { z }, h, num, den);
                    union_into(&mut acc, &more);
                }
                proof {
                    let hi = h as int;
                    assert(hi == gs / 2);
                    let (tx, ty, tz) = (side(gx, hi), side(gy, hi), side(gz, hi));
                    let ch = self@->children;
                    assert(s0 == ch[octant(tx, ty, tz)].query_set(gx - tx * hi, gy - ty * hi, gz - tz * hi, hi, gn, gd));
                    let ex = if near(gx, hi, gn, gd) {
                        ch[octant(1 - tx, ty, tz)].query_set(gx - (1 - tx) * hi, gy - ty * hi, gz - tz * hi, hi, gn, gd)
                    } else {
                        Set::empty()
                    };
                    let ey = if near(gy, hi, gn, gd) {
                        ch[octant(tx, 1 - ty, tz)].query_set(gx - tx * hi, gy - (1 - ty) * hi, gz - tz * hi, hi, gn, gd)
                    } else {
                        Set::empty()
                    };
                    let ez = if near(gz, hi, gn, gd) {
                        ch[octant(tx, ty, 1 - tz)].query_set(gx - tx * hi, gy - ty * hi, gz - (1 - tz) * hi, hi, gn, gd)
                    } else {
                        Set::empty()
                    };
                    assert(s1 =~= s0 + ex);
                    assert(s2 =~= s0 + ex + ey);
                    assert(acc@.to_set() =~= s0 + ex + ey + ez);
                }
                acc
            },
        }
    }

    /// Shard indices covering `position`, given in the coordinates of a node of
    /// side `size` whose corner is the origin: the leaf holding it, plus the leaves
    /// across each split plane within the border buffer `border_num / border_den`.
    pub fn query(&self, position: Position, size: u64, border_num: u32, border_den: u32) -> (r: Vec<usize>)
        requires
            self.wf(),
        ensures
            r@.no_duplicates(),
            r@.to_set() == self@.query_set(position.x as int, position.y as int, position.z as int,
                size as int, border_num as int, border_den as int),
    {
        self.query_rec(position.x as i128, position.y as i128, position.z as i128, size, border_num, border_den)
    }
}

/// The shards covering a world position: the position is moved by half the world size
/// on each axis, into the cube `[0, world_size)^3` that the tree partitions, and queried.
pub fn get_server(server: &Server, position: Position, config: &Config) -> (r: Vec<usize>)
    requires
        server.wf(),
    ensures
        r@.no_duplicates(),
        r@.to_set() == server@.query_set(
            position.x + config.world_size / 2,
            position.y + config.world_size / 2,
            position.z + config.world_size / 2,
            config.world_size as int,
            config.border_num as int,
            config.border_den as int,
        ),
{
    let half = (config.world_size / 2) as i128;
    server.query_rec(
        position.x as i128 + half,
        position.y as i128 + half,
        position.z as i128 + half,
        config.world_size,
        config.border_num,
        config.border_den,
    )
}

} // verus!
