use vstd::prelude::*;

use crate::entity::{Player, PlayerView, Team, TeamView};

verus! {

/// A value that a [`Store`] files under an identifier.
pub trait Keyed {
    spec fn key(&self) -> Seq<char>;
}

impl Keyed for TeamView {
    open spec fn key(&self) -> Seq<char> {
        self.id
    }
}

impl Keyed for PlayerView {
    open spec fn key(&self) -> Seq<char> {
        self.id
    }
}

/// The map reached from `m` by inserting each of `rows`, in order, under its
/// key: a later row overwrites an earlier one with the same key.
pub open spec fn merged<V: Keyed>(m: Map<Seq<char>, V>, rows: Seq<V>) -> Map<Seq<char>, V>
    decreases rows.len(),
{
    if rows.len() == 0 {
        m
    } else {
        merged(m, rows.drop_last()).insert(rows.last().key(), rows.last())
    }
}

/// The identifiers of `rows`.
pub open spec fn keys_of<V: Keyed>(rows: Seq<V>) -> Set<Seq<char>> {
    Set::new(|k: Seq<char>| exists|i: int| 0 <= i < rows.len() && rows[i].key() == k)
}

/// No two of `rows` share an identifier.
pub open spec fn keys_distinct<V: Keyed>(rows: Seq<V>) -> bool {
    forall|i: int, j: int| 0 <= i < j < rows.len() ==> rows[i].key() != rows[j].key()
}

pub open spec fn team_views(s: Seq<Team>) -> Seq<TeamView> {
    s.map_values(|t: Team| t@)
}

pub open spec fn player_views(s: Seq<Player>) -> Seq<PlayerView> {
    s.map_values(|p: Player| p@)
}

/// What `merged(m, rows)` holds under the key `k`: the last row with that key
/// if there is one, else what `m` holds there.
pub proof fn lemma_merged_at<V: Keyed>(m: Map<Seq<char>, V>, rows: Seq<V>, k: Seq<char>)
    ensures
        merged(m, rows).contains_key(k) <==> (m.contains_key(k) || keys_of(rows).contains(k)),
        keys_of(rows).contains(k) ==> exists|i: int|
            0 <= i < rows.len() && rows[i].key() == k && merged(m, rows)[k] == rows[i] && forall|
                j: int,
            |
                i < j < rows.len() ==> rows[j].key() != k,
        !keys_of(rows).contains(k) ==> merged(m, rows)[k] == m[k],
    decreases rows.len(),
{
    if rows.len() > 0 {
        let init = rows.drop_last();
        let last = rows.last();
        lemma_merged_at(m, init, k);
        if last.key() == k {
            let i = rows.len() - 1;
            assert(0 <= i < rows.len() && rows[i].key() == k);
        } else {
            if keys_of(rows).contains(k) {
                let i = choose|i: int| 0 <= i < rows.len() && rows[i].key() == k;
                assert(init[i].key() == k);
                assert(keys_of(init).contains(k));
                let w = choose|w: int|
                    0 <= w < init.len() && init[w].key() == k && merged(m, init)[k] == init[w]
                        && forall|j: int| w < j < init.len() ==> init[j].key() != k;
                assert(rows[w] == init[w]);
                assert forall|j: int| w < j < rows.len() implies rows[j].key() != k by {
                    if j < init.len() {
                        assert(rows[j] == init[j]);
                    }
                }
            }
            if keys_of(init).contains(k) {
                let i = choose|i: int| 0 <= i < init.len() && init[i].key() == k;
                assert(rows[i] == init[i]);
            }
        }
    }
}

/// After merging `rows` into `m`, the identifiers present are exactly those
/// of `m` and those of the rows; each row's identifier holds the last row
/// that carries it, and every other identifier keeps what `m` held.
pub proof fn lemma_merge_keys<V: Keyed>(m: Map<Seq<char>, V>, rows: Seq<V>)
    ensures
        merged(m, rows).dom() == m.dom().union(keys_of(rows)),
        forall|i: int|
            0 <= i < rows.len() && (forall|j: int| i < j < rows.len() ==> rows[j].key() != rows[i].key())
                ==> #[trigger] merged(m, rows)[rows[i].key()] == rows[i],
        forall|k: Seq<char>|
            m.contains_key(k) && !keys_of(rows).contains(k) ==> #[trigger] merged(m, rows)[k]
                == m[k],
{
    assert forall|k: Seq<char>| #[trigger] merged(m, rows).dom().contains(k) == m.dom().union(
        keys_of(rows),
    ).contains(k) by {
        lemma_merged_at(m, rows, k);
    }
    assert(merged(m, rows).dom() =~= m.dom().union(keys_of(rows)));
    assert forall|i: int|
        0 <= i < rows.len() && (forall|j: int| i < j < rows.len() ==> rows[j].key() != rows[i].key())
            implies #[trigger] merged(m, rows)[rows[i].key()] == rows[i] by {
        let k = rows[i].key();
        lemma_merged_at(m, rows, k);
        assert(keys_of(rows).contains(k));
        let w = choose|w: int|
            0 <= w < rows.len() && rows[w].key() == k && merged(m, rows)[k] == rows[w] && forall|
                j: int,
            |
                w < j < rows.len() ==> rows[j].key() != k;
        if w < i {
            assert(rows[i].key() != k);
        } else if w > i {
            assert(rows[w].key() != k);
        }
    }
    assert forall|k: Seq<char>|
        m.contains_key(k) && !keys_of(rows).contains(k) implies #[trigger] merged(m, rows)[k]
            == m[k] by {
        lemma_merged_at(m, rows, k);
    }
}

/// Merging the same rows a second time changes nothing: an entity merged
/// twice is held once.
pub proof fn lemma_merge_twice<V: Keyed>(m: Map<Seq<char>, V>, rows: Seq<V>)
    ensures
        merged(merged(m, rows), rows) == merged(m, rows),
{
    let once = merged(m, rows);
    let twice = merged(once, rows);
    lemma_merge_keys(m, rows);
    lemma_merge_keys(once, rows);
    assert forall|k: Seq<char>| #[trigger] twice.contains_key(k) implies twice[k] == once[k] by {
        lemma_merged_at(once, rows, k);
        lemma_merged_at(m, rows, k);
        if keys_of(rows).contains(k) {
            let a = choose|w: int|
                0 <= w < rows.len() && rows[w].key() == k && twice[k] == rows[w] && forall|j: int|
                    w < j < rows.len() ==> rows[j].key() != k;
            let b = choose|w: int|
                0 <= w < rows.len() && rows[w].key() == k && once[k] == rows[w] && forall|j: int|
                    w < j < rows.len() ==> rows[j].key() != k;
            if a < b {
                assert(rows[b].key() != k);
            } else if b < a {
                assert(rows[a].key() != k);
            }
        }
    }
    assert(twice =~= once);
}

/// Merging `first` and then `second` is merging the two one after the
/// other in a single sequence.
pub proof fn lemma_merge_in_sequence<V: Keyed>(m: Map<Seq<char>, V>, first: Seq<V>, second: Seq<V>)
    ensures
        merged(merged(m, first), second) == merged(m, first + second),
    decreases second.len(),
{
    if second.len() == 0 {
        assert(first + second =~= first);
    } else {
        lemma_merge_in_sequence(m, first, second.drop_last());
        assert((first + second).drop_last() =~= first + second.drop_last());
        assert((first + second).last() == second.last());
    }
}

/// Replacing the row at `i` by one with the same key, in rows whose keys are
/// distinct, overwrites that key in the merged map.
proof fn lemma_merged_update<V: Keyed>(m: Map<Seq<char>, V>, rows: Seq<V>, i: int, v: V)
    requires
        keys_distinct(rows),
        0 <= i < rows.len(),
        v.key() == rows[i].key(),
    ensures
        merged(m, rows.update(i, v)) == merged(m, rows).insert(v.key(), v),
    decreases rows.len(),
{
    let upd = rows.update(i, v);
    let init = rows.drop_last();
    if i == rows.len() - 1 {
        assert(upd.drop_last() =~= init);
        assert(merged(m, upd) =~= merged(m, rows).insert(v.key(), v));
    } else {
        assert(upd.drop_last() =~= init.update(i, v));
        assert(keys_distinct(init));
        lemma_merged_update(m, init, i, v);
        assert(rows.last().key() != v.key());
        assert(merged(m, upd) =~= merged(m, rows).insert(v.key(), v));
    }
}

/// Rows whose keys are distinct each stand, under their own key, in the map
/// they are merged into, and that map holds nothing else that `m` did not.
proof fn lemma_merged_distinct<V: Keyed>(m: Map<Seq<char>, V>, rows: Seq<V>)
    requires
        keys_distinct(rows),
    ensures
        forall|i: int|
            0 <= i < rows.len() ==> #[trigger] merged(m, rows).contains_key(rows[i].key())
                && merged(m, rows)[rows[i].key()] == rows[i],
        forall|k: Seq<char>|
            #[trigger] merged(m, rows).contains_key(k) ==> m.contains_key(k) || keys_of(
                rows,
            ).contains(k),
{
    assert forall|i: int| 0 <= i < rows.len() implies #[trigger] merged(m, rows).contains_key(
        rows[i].key(),
    ) && merged(m, rows)[rows[i].key()] == rows[i] by {
        let k = rows[i].key();
        lemma_merged_at(m, rows, k);
        assert(keys_of(rows).contains(k));
        let w = choose|w: int|
            0 <= w < rows.len() && rows[w].key() == k && merged(m, rows)[k] == rows[w] && forall|
                j: int,
            |
                w < j < rows.len() ==> rows[j].key() != k;
        if w != i {
            assert(rows[w].key() == rows[i].key());
        }
    }
    assert forall|k: Seq<char>| #[trigger] merged(m, rows).contains_key(k) implies m.contains_key(
        k,
    ) || keys_of(rows).contains(k) by {
        lemma_merged_at(m, rows, k);
    }
}

/// Overwrites the team with `team`'s identifier in `teams`, or appends `team`
/// where there is none.
fn file_team(teams: &mut Vec<Team>, team: Team)
    requires
        keys_distinct(team_views(old(teams)@)),
    ensures
        keys_distinct(team_views(final(teams)@)),
        merged(Map::empty(), team_views(final(teams)@)) == merged(
            Map::empty(),
            team_views(old(teams)@),
        ).insert(team@.id, team@),
{
    let ghost before = team_views(teams@);
    let mut i: usize = 0;
    while i < teams.len()
        invariant
            i <= teams.len(),
            team_views(teams@) == before,
            before == team_views(old(teams)@),
            keys_distinct(before),
            forall|j: int| 0 <= j < i ==> before[j].id != team@.id,
        decreases teams.len() - i,
    {
        if teams[i].id == team.id {
            let ghost v = team@;
            proof {
                assert(before[i as int] == teams@[i as int]@);
            }
            teams.set(i, team);
            proof {
                assert(team_views(teams@) =~= before.update(i as int, v));
                assert(keys_distinct(before.update(i as int, v)));
                lemma_merged_update(Map::empty(), before, i as int, v);
            }
            return;
        }
        i += 1;
    }
    let ghost v = team@;
    teams.push(team);
    proof {
        assert(team_views(teams@) =~= before.push(v));
        assert(before.push(v).drop_last() =~= before);
    }
}

/// Overwrites the player with `player`'s identifier in `players`, or appends
/// `player` where there is none.
fn file_player(players: &mut Vec<Player>, player: Player)
    requires
        keys_distinct(player_views(old(players)@)),
    ensures
        keys_distinct(player_views(final(players)@)),
        merged(Map::empty(), player_views(final(players)@)) == merged(
            Map::empty(),
            player_views(old(players)@),
        ).insert(player@.id, player@),
{
    let ghost before = player_views(players@);
    let mut i: usize = 0;
    while i < players.len()
        invariant
            i <= players.len(),
            player_views(players@) == before,
            before == player_views(old(players)@),
            keys_distinct(before),
            forall|j: int| 0 <= j < i ==> before[j].id != player@.id,
        decreases players.len() - i,
    {
        if players[i].id == player.id {
            let ghost v = player@;
            proof {
                assert(before[i as int] == players@[i as int]@);
            }
            players.set(i, player);
            proof {
                assert(player_views(players@) =~= before.update(i as int, v));
                assert(keys_distinct(before.update(i as int, v)));
                lemma_merged_update(Map::empty(), before, i as int, v);
            }
            return;
        }
        i += 1;
    }
    let ghost v = player@;
    players.push(player);
    proof {
        assert(player_views(players@) =~= before.push(v));
        assert(before.push(v).drop_last() =~= before);
    }
}

/// Every team and every player that has been fetched, each filed under its
/// own identifier.
pub struct Store {
    teams: Vec<Team>,
    players: Vec<Player>,
}

/// The mathematical value of a [`Store`]: one map per kind of entity, from
/// identifier to entity.
pub ghost struct StoreView {
    pub teams: Map<Seq<char>, TeamView>,
    pub players: Map<Seq<char>, PlayerView>,
}

impl StoreView {
    pub open spec fn empty() -> StoreView {
        StoreView { teams: Map::empty(), players: Map::empty() }
    }

    /// Each entity is filed under its own identifier.
    pub open spec fn keys_match(self) -> bool {
        &&& forall|k: Seq<char>| #[trigger] self.teams.contains_key(k) ==> self.teams[k].id == k
        &&& forall|k: Seq<char>| #[trigger] self.players.contains_key(k) ==> self.players[k].id == k
    }
}

impl View for Store {
    type V = StoreView;

    closed spec fn view(&self) -> StoreView {
        StoreView {
            teams: merged(Map::empty(), team_views(self.teams@)),
            players: merged(Map::empty(), player_views(self.players@)),
        }
    }
}

impl Store {
    #[verifier::type_invariant]
    spec fn inv(self) -> bool {
        &&& keys_distinct(team_views(self.teams@))
        &&& keys_distinct(player_views(self.players@))
    }

    /// A store with no team and no player.
    pub fn new() -> (r: Store)
        ensures
            r@ == StoreView::empty(),
    {
        let r = Store { teams: Vec::new(), players: Vec::new() };
        assert(team_views(r.teams@) =~= Seq::empty());
        assert(player_views(r.players@) =~= Seq::empty());
        r
    }
}

/// Every entity of a map built by merging rows into an empty map stands under
/// its own key.
proof fn lemma_merged_keys_match<V: Keyed>(rows: Seq<V>)
    ensures
        forall|k: Seq<char>| #[trigger]
            merged(Map::<Seq<char>, V>::empty(), rows).contains_key(k) ==> merged(
                Map::<Seq<char>, V>::empty(),
                rows,
            )[k].key() == k,
{
    assert forall|k: Seq<char>| #[trigger]
        merged(Map::<Seq<char>, V>::empty(), rows).contains_key(k) implies merged(
        Map::<Seq<char>, V>::empty(),
        rows,
    )[k].key() == k by {
        lemma_merged_at(Map::<Seq<char>, V>::empty(), rows, k);
    }
}

impl Store {
    /// A store never files an entity under an identifier other than its own.
    pub proof fn lemma_keys_match(&self)
        ensures
            self@.keys_match(),
    {
        lemma_merged_keys_match(team_views(self.teams@));
        lemma_merged_keys_match(player_views(self.players@));
    }

    /// Files `team` under its identifier, replacing a team already filed
    /// there.
    pub fn merge_team(&mut self, team: Team)
        ensures
            final(self)@.teams == old(self)@.teams.insert(team@.id, team@),
            final(self)@.players == old(self)@.players,
    {
        proof {
            use_type_invariant(&*self);
        }
        let mut teams: Vec<Team> = Vec::new();
        std::mem::swap(&mut teams, &mut self.teams);
        file_team(&mut teams, team);
        self.teams = teams;
    }

    /// Files `player` under its identifier, replacing a player already filed
    /// there.
    pub fn merge_player(&mut self, player: Player)
        ensures
            final(self)@.players == old(self)@.players.insert(player@.id, player@),
            final(self)@.teams == old(self)@.teams,
    {
        proof {
            use_type_invariant(&*self);
        }
        let mut players: Vec<Player> = Vec::new();
        std::mem::swap(&mut players, &mut self.players);
        file_player(&mut players, player);
        self.players = players;
    }

    /// Files each of `rows` in turn, as [`Store::merge_team`] does: a later
    /// row overwrites an earlier one with the same identifier.
    pub fn merge_teams(&mut self, rows: Vec<Team>)
        ensures
            final(self)@.teams == merged(old(self)@.teams, team_views(rows@)),
            final(self)@.players == old(self)@.players,
    {
        let ghost start = self@;
        let ghost all = team_views(rows@);
        let mut i: usize = 0;
        while i < rows.len()
            invariant
                i <= rows.len(),
                all == team_views(rows@),
                self@.teams == merged(start.teams, all.take(i as int)),
                self@.players == start.players,
            decreases rows.len() - i,
        {
            let team = rows[i].duplicate();
            self.merge_team(team);
            proof {
                assert(all.take(i + 1).drop_last() =~= all.take(i as int));
            }
            i += 1;
        }
        proof {
            assert(all.take(i as int) =~= all);
        }
    }

    /// Files each of `rows` in turn, as [`Store::merge_player`] does: a later
    /// row overwrites an earlier one with the same identifier.
    pub fn merge_players(&mut self, rows: Vec<Player>)
        ensures
            final(self)@.players == merged(old(self)@.players, player_views(rows@)),
            final(self)@.teams == old(self)@.teams,
    {
        let ghost start = self@;
        let ghost all = player_views(rows@);
        let mut i: usize = 0;
        while i < rows.len()
            invariant
                i <= rows.len(),
                all == player_views(rows@),
                self@.players == merged(start.players, all.take(i as int)),
                self@.teams == start.teams,
            decreases rows.len() - i,
        {
            let player = rows[i].duplicate();
            self.merge_player(player);
            proof {
                assert(all.take(i + 1).drop_last() =~= all.take(i as int));
            }
            i += 1;
        }
        proof {
            assert(all.take(i as int) =~= all);
        }
    }

    /// Copies of the filed teams, in no particular order: each filed team
    /// once, and nothing else.
    pub fn team_list(&self) -> (r: Vec<Team>)
        ensures
            keys_distinct(team_views(r@)),
            forall|i: int|
                0 <= i < r.len() ==> #[trigger] self@.teams.contains_key(r@[i]@.id)
                    && self@.teams[r@[i]@.id] == r@[i]@,
            forall|k: Seq<char>| #[trigger]
                self@.teams.contains_key(k) ==> exists|i: int| 0 <= i < r.len() && r@[i]@.id == k,
    {
        proof {
            use_type_invariant(self);
            lemma_merged_distinct(Map::empty(), team_views(self.teams@));
        }
        let mut r: Vec<Team> = Vec::new();
        let mut i: usize = 0;
        while i < self.teams.len()
            invariant
                i <= self.teams.len(),
                r.len() == i,
                forall|j: int| 0 <= j < i ==> #[trigger] r@[j]@ == self.teams@[j]@,
            decreases self.teams.len() - i,
        {
            r.push(self.teams[i].duplicate());
            i += 1;
        }
        proof {
            assert(team_views(r@) =~= team_views(self.teams@));
            assert forall|k: Seq<char>| #[trigger] self@.teams.contains_key(k) implies exists|
                i: int,
            |
                0 <= i < r.len() && r@[i]@.id == k by {
                let i = choose|i: int|
                    0 <= i < self.teams.len() && team_views(self.teams@)[i].key() == k;
                assert(r@[i]@ == team_views(r@)[i]);
            }
            assert forall|i: int| 0 <= i < r.len() implies #[trigger] self@.teams.contains_key(
                r@[i]@.id,
            ) && self@.teams[r@[i]@.id] == r@[i]@ by {
                assert(r@[i]@ == team_views(self.teams@)[i]);
                assert(merged(Map::empty(), team_views(self.teams@)).contains_key(
                    team_views(self.teams@)[i].key(),
                ));
            }
        }
        r
    }

    /// Copies of the filed players, in no particular order: each filed
    /// player once, and nothing else.
    pub fn player_list(&self) -> (r: Vec<Player>)
        ensures
            keys_distinct(player_views(r@)),
            forall|i: int|
                0 <= i < r.len() ==> #[trigger] self@.players.contains_key(r@[i]@.id)
                    && self@.players[r@[i]@.id] == r@[i]@,
            forall|k: Seq<char>| #[trigger]
                self@.players.contains_key(k) ==> exists|i: int| 0 <= i < r.len() && r@[i]@.id == k,
    {
        proof {
            use_type_invariant(self);
            lemma_merged_distinct(Map::empty(), player_views(self.players@));
        }
        let mut r: Vec<Player> = Vec::new();
        let mut i: usize = 0;
        while i < self.players.len()
            invariant
                i <= self.players.len(),
                r.len() == i,
                forall|j: int| 0 <= j < i ==> #[trigger] r@[j]@ == self.players@[j]@,
            decreases self.players.len() - i,
        {
            r.push(self.players[i].duplicate());
            i += 1;
        }
        proof {
            assert(player_views(r@) =~= player_views(self.players@));
            assert forall|k: Seq<char>| #[trigger] self@.players.contains_key(k) implies exists|
                i: int,
            |
                0 <= i < r.len() && r@[i]@.id == k by {
                let i = choose|i: int|
                    0 <= i < self.players.len() && player_views(self.players@)[i].key() == k;
                assert(r@[i]@ == player_views(r@)[i]);
            }
            assert forall|i: int| 0 <= i < r.len() implies #[trigger] self@.players.contains_key(
                r@[i]@.id,
            ) && self@.players[r@[i]@.id] == r@[i]@ by {
                assert(r@[i]@ == player_views(self.players@)[i]);
                assert(merged(Map::empty(), player_views(self.players@)).contains_key(
                    player_views(self.players@)[i].key(),
                ));
            }
        }
        r
    }

    /// A copy of the team filed under `id`, if there is one.
    pub fn team(&self, id: &String) -> (r: Option<Team>)
        ensures
            match r {
                Some(t) => self@.teams.contains_key(id@) && t@ == self@.teams[id@],
                None => !self@.teams.contains_key(id@),
            },
    {
        proof {
            use_type_invariant(self);
            lemma_merged_distinct(Map::empty(), team_views(self.teams@));
        }
        let mut i: usize = 0;
        while i < self.teams.len()
            invariant
                i <= self.teams.len(),
                forall|j: int| 0 <= j < i ==> self.teams@[j].id@ != id@,
            decreases self.teams.len() - i,
        {
            if self.teams[i].id == *id {
                proof {
                    use_type_invariant(self);
                    lemma_merged_distinct(Map::empty(), team_views(self.teams@));
                    assert(team_views(self.teams@)[i as int] == self.teams@[i as int]@);
                    assert(merged(Map::empty(), team_views(self.teams@)).contains_key(
                        team_views(self.teams@)[i as int].key(),
                    ));
                }
                return Some(self.teams[i].duplicate());
            }
            i += 1;
        }
        proof {
            if self@.teams.contains_key(id@) {
                let j = choose|j: int|
                    0 <= j < self.teams.len() && team_views(self.teams@)[j].key() == id@;
                assert(team_views(self.teams@)[j] == self.teams@[j]@);
            }
        }
        None
    }

    /// A copy of the player filed under `id`, if there is one.
    pub fn player(&self, id: &String) -> (r: Option<Player>)
        ensures
            match r {
                Some(p) => self@.players.contains_key(id@) && p@ == self@.players[id@],
                None => !self@.players.contains_key(id@),
            },
    {
        proof {
            use_type_invariant(self);
            lemma_merged_distinct(Map::empty(), player_views(self.players@));
        }
        let mut i: usize = 0;
        while i < self.players.len()
            invariant
                i <= self.players.len(),
                forall|j: int| 0 <= j < i ==> self.players@[j].id@ != id@,
            decreases self.players.len() - i,
        {
            if self.players[i].id == *id {
                proof {
                    use_type_invariant(self);
                    lemma_merged_distinct(Map::empty(), player_views(self.players@));
                    assert(player_views(self.players@)[i as int] == self.players@[i as int]@);
                    assert(merged(Map::empty(), player_views(self.players@)).contains_key(
                        player_views(self.players@)[i as int].key(),
                    ));
                }
                return Some(self.players[i].duplicate());
            }
            i += 1;
        }
        proof {
            if self@.players.contains_key(id@) {
                let j = choose|j: int|
                    0 <= j < self.players.len() && player_views(self.players@)[j].key() == id@;
                assert(player_views(self.players@)[j] == self.players@[j]@);
            }
        }
        None
    }
}

impl Default for Store {
    /// An empty store.
    fn default() -> (r: Store)
        ensures
            r@ == StoreView::empty(),
    {
        Store::new()
    }
}

} // verus!
