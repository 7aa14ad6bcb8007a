use vstd::prelude::*;

verus! {

/// A player as a shard knows it: its identifier.
#[derive(Clone, Copy, Debug, PartialEq, Eq)]
pub struct Player {
    pub id: u128,
}

/// A join request: the player and the address that its position stream goes to.
#[derive(Debug)]
pub struct PlayerRegister {
    pub player: Player,
    pub address: String,
}

/// One roster entry of a shard.
#[derive(Debug)]
pub struct Member {
    pub id: u128,
    pub address: String,
}

/// What one roster entry stands for.
pub open spec fn entry(m: Member) -> (u128, Seq<char>) {
    (m.id, m.address@)
}

/// The entries of `s` with another identifier than `id`, in order.
pub open spec fn without(s: Seq<(u128, Seq<char>)>, id: u128) -> Seq<(u128, Seq<char>)>
    decreases s.len(),
{
    if s.len() == 0 {
        s
    } else {
        let w = without(s.drop_last(), id);
        if s.last().0 == id { w } else { w.push(s.last()) }
    }
}

/// No two entries share an identifier.
pub open spec fn ids_unique(s: Seq<(u128, Seq<char>)>) -> bool {
    forall|i: int, j: int| 0 <= i < j < s.len() ==> s[i].0 != s[j].0
}

/// Removing `id` leaves entries of `s` only, none with identifier `id`, and keeps
/// identifiers unique.
pub proof fn lemma_without(s: Seq<(u128, Seq<char>)>, id: u128)
    ensures
        forall|i: int| 0 <= i < without(s, id).len() ==> (#[trigger] without(s, id)[i]).0 != id && s.contains(without(s, id)[i]),
        ids_unique(s) ==> ids_unique(without(s, id)),
    decreases s.len(),
{
    if s.len() > 0 {
        let d = s.drop_last();
        lemma_without(d, id);
        let w = without(d, id);
        assert forall|i: int| 0 <= i < w.len() implies s.contains(#[trigger] w[i]) by {
            let k = choose|k: int| 0 <= k < d.len() && d[k] == w[i];
            assert(s[k] == w[i]);
        }
        if s.last().0 != id {
            assert(s.contains(s.last())) by {
                assert(s[s.len() - 1] == s.last());
            }
            if ids_unique(s) {
                assert(ids_unique(d));
                assert forall|i: int| 0 <= i < w.len() implies (#[trigger] w[i]).0 != s.last().0 by {
                    let k = choose|k: int| 0 <= k < d.len() && d[k] == w[i];
                    assert(s[k] == d[k]);
                }
            }
        } else {
            if ids_unique(s) {
                assert(ids_unique(d));
            }
        }
    }
}

/// Removing an identifier that no entry has leaves the entries as they are.
pub proof fn lemma_without_absent(s: Seq<(u128, Seq<char>)>, id: u128)
    requires
        forall|i: int| 0 <= i < s.len() ==> (#[trigger] s[i]).0 != id,
    ensures
        without(s, id) == s,
    decreases s.len(),
{
    if s.len() > 0 {
        let d = s.drop_last();
        assert forall|i: int| 0 <= i < d.len() implies (#[trigger] d[i]).0 != id by {
            assert(d[i] == s[i]);
        }
        lemma_without_absent(d, id);
        assert(s.last().0 != id);
        assert(d.push(s.last()) =~= s);
    }
}

/// Joining a player under an identifier new to the roster and then removing it gives the
/// roster back.
pub proof fn lemma_register_unregister(s: Seq<(u128, Seq<char>)>, id: u128, address: Seq<char>)
    requires
        forall|i: int| 0 <= i < s.len() ==> (#[trigger] s[i]).0 != id,
    ensures
        without(s.push((id, address)), id) == s,
{
    assert(s.push((id, address)).drop_last() =~= s);
    lemma_without_absent(s, id);
}

/// The roster of one shard: who is connected, and where its positions are relayed.
#[derive(Debug)]
pub struct SessionStruct {
    pub roster: Vec<Member>,
}

impl View for SessionStruct {
    type V = Seq<(u128, Seq<char>)>;

    open spec fn view(&self) -> Seq<(u128, Seq<char>)> {
        self.roster@.map_values(|m: Member| entry(m))
    }
}

/// Relies on uuid::Uuid::new_v4 and Uuid::as_u128: a fresh random identifier as an
/// integer. Nothing is promised of its value. (new_v4 panics only where the platform
/// cannot supply random bytes.)
#[verifier::external_body]
fn fresh_id() -> (r: u128) {
    uuid::Uuid::new_v4().as_u128()
}

fn copy_member(m: &Member) -> (r: Member)
    ensures
        entry(r) == entry(*m),
{
    Member { id: m.id, address: m.address.clone() }
}

impl SessionStruct {
    /// Identifiers on the roster are unique.
    pub open spec fn wf(&self) -> bool {
        ids_unique(self@)
    }

    /// An empty roster.
    pub fn new() -> (r: SessionStruct)
        ensures
            r@ == Seq::<(u128, Seq<char>)>::empty(),
            r.wf(),
    {
        let r = SessionStruct { roster: Vec::new() };
        proof {
            assert(r@ =~= Seq::<(u128, Seq<char>)>::empty());
        }
        r
    }

    /// Removes the player `player_id`; a roster without it stays as it is.
    pub fn unregister_player(&mut self, player_id: u128)
        ensures
            final(self)@ == without(old(self)@, player_id),
            old(self).wf() ==> final(self).wf(),
    {
        let mut kept: Vec<Member> = Vec::new();
        let mut i: usize = 0;
        while i < self.roster.len()
            invariant
                i <= self.roster@.len(),
                self@ == old(self)@,
                kept@.map_values(|m: Member| entry(m)) == without(old(self)@.subrange(0, i as int), player_id),
            decreases self.roster@.len() - i,
        {
            proof {
                assert(old(self)@.subrange(0, i + 1).drop_last() =~= old(self)@.subrange(0, i as int));
                assert(old(self)@[i as int] == entry(self.roster@[i as int]));
            }
            if self.roster[i].id != player_id {
                let ghost before = kept@;
                kept.push(copy_member(&self.roster[i]));
                proof {
                    assert(kept@.map_values(|m: Member| entry(m)) =~= before.map_values(|m: Member| entry(m)).push(old(self)@[i as int]));
                }
            }
            i = i + 1;
        }
        proof {
            assert(old(self)@.subrange(0, old(self)@.len() as int) =~= old(self)@);
            lemma_without(old(self)@, player_id);
        }
        self.roster = kept;
    }

    /// Adds the player `id` with the address of `player_register`; an earlier entry
    /// with the same identifier is replaced. Returns `id`.
    pub fn register_with_id(&mut self, player_register: PlayerRegister, id: u128) -> (r: u128)
        ensures
            r == id,
            final(self)@ == without(old(self)@, id).push((id, player_register.address@)),
            old(self).wf() ==> final(self).wf(),
    {
        self.unregister_player(id);
        let ghost before = self@;
        self.roster.push(Member { id, address: player_register.address });
        proof {
            assert(self@ =~= before.push((id, player_register.address@)));
            lemma_without(old(self)@, id);
        }
        id
    }

    /// Whether some entry has the identifier `id`.
    pub fn has_id(&self, id: u128) -> (r: bool)
        ensures
            r == exists|i: int| 0 <= i < self@.len() && (#[trigger] self@[i]).0 == id,
    {
        let mut i: usize = 0;
        while i < self.roster.len()
            invariant
                i <= self.roster@.len(),
                forall|t: int| 0 <= t < i ==> (#[trigger] self@[t]).0 != id,
            decreases self.roster@.len() - i,
        {
            if self.roster[i].id == id {
                proof {
                    assert(self@[i as int].0 == id);
                }
                return true;
            }
            i = i + 1;
        }
        false
    }

    /// Joins a player under a freshly minted identifier that no entry has, ignoring the one
    /// it proposed, and returns that identifier. Where the random draw is taken, the lowest
    /// identifier not on the roster is used instead.
    pub fn register_player(&mut self, player_register: PlayerRegister) -> (r: u128)
        requires
            old(self).wf(),
        ensures
            forall|i: int| 0 <= i < old(self)@.len() ==> (#[trigger] old(self)@[i]).0 != r,
            final(self)@ == old(self)@.push((r, player_register.address@)),
            final(self).wf(),
    {
        let drawn = fresh_id();
        let id = if !self.has_id(drawn) {
            drawn
        } else {
            self.lowest_free_id()
        };
        proof {
            lemma_without_absent(self@, id);
        }
        self.register_with_id(player_register, id)
    }

    /// The lowest identifier that no entry has.
    fn lowest_free_id(&self) -> (r: u128)
        ensures
            forall|i: int| 0 <= i < self@.len() ==> (#[trigger] self@[i]).0 != r,
    {
        let n = self.roster.len() as u128;
        let ghost ids = self@.map_values(|e: (u128, Seq<char>)| e.0);
        let mut k: u128 = 0;
        while k <= n
            invariant
                k <= n + 1,
                n == self@.len(),
                n <= usize::MAX,
                ids == self@.map_values(|e: (u128, Seq<char>)| e.0),
                forall|t: int| 0 <= t < k ==> #[trigger] ids.contains(t as u128),
            decreases n + 1 - k,
        {
            if !self.has_id(k) {
                return k;
            }
            proof {
                let i = choose|i: int| 0 <= i < self@.len() && (#[trigger] self@[i]).0 == k;
                assert(ids[i] == k);
            }
            k = k + 1;
        }
        proof {
            let tried = Seq::new((n + 1) as nat, |t: int| t as u128);
            assert forall|a: int, b: int| 0 <= a < b < tried.len() implies tried[a] != tried[b] by {}
            tried.unique_seq_to_set();
            ids.lemma_cardinality_of_set();
            assert forall|x: u128| tried.to_set().contains(x) implies ids.to_set().contains(x) by {
                let t = choose|t: int| 0 <= t < tried.len() && tried[t] == x;
                assert(ids.contains(t as u128));
            }
            vstd::set_lib::lemma_len_subset(tried.to_set(), ids.to_set());
        }
        0
    }

    /// The players on the roster, in roster order.
    pub fn get_players(&self) -> (r: Vec<Player>)
        ensures
            r@.len() == self@.len(),
            forall|i: int| 0 <= i < r@.len() ==> (#[trigger] r@[i]).id == self@[i].0,
    {
        let mut r: Vec<Player> = Vec::new();
        let mut i: usize = 0;
        while i < self.roster.len()
            invariant
                i <= self.roster@.len(),
                r@.len() == i,
                forall|t: int| 0 <= t < i ==> (#[trigger] r@[t]).id == self@[t].0,
            decreases self.roster@.len() - i,
        {
            r.push(Player { id: self.roster[i].id });
            i = i + 1;
        }
        r
    }

    /// The number of players on the roster.
    pub fn count(&self) -> (r: usize)
        ensures
            r == self@.len(),
    {
        self.roster.len()
    }

    /// The addresses on the roster, in roster order.
    pub fn addresses(&self) -> (r: Vec<String>)
        ensures
            r@.len() == self@.len(),
            forall|i: int| 0 <= i < r@.len() ==> (#[trigger] r@[i])@ == self@[i].1,
    {
        let mut r: Vec<String> = Vec::new();
        let mut i: usize = 0;
        while i < self.roster.len()
            invariant
                i <= self.roster@.len(),
                r@.len() == i,
                forall|t: int| 0 <= t < i ==> (#[trigger] r@[t])@ == self@[t].1,
            decreases self.roster@.len() - i,
        {
            r.push(self.roster[i].address.clone());
            i = i + 1;
        }
        r
    }
}

} // verus!
