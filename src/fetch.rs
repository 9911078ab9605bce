use vstd::prelude::*;

use crate::entity::{Player, PlayerView, Team, TeamView};
use crate::store::{merged, player_views, team_views, Store, StoreView};

verus! {

/// The kind of entity that a query of the fetch protocol reads.
#[derive(Clone, Copy, Debug, PartialEq, Eq, Structural)]
pub enum Entity {
    Teams,
    Players,
}

/// The mathematical value of a [`Fetch`].
pub ghost struct FetchView {
    /// What has been merged so far.
    pub store: StoreView,
    /// The query whose rows the protocol waits for; `None` once it is done.
    pub awaiting: Option<Entity>,
    /// Whether the fetch now running will cross over to the other entity.
    pub cross: bool,
    /// How deep the fetch now running stands below the one that was called.
    pub depth: nat,
}

/// The store handed to an entry point, or an empty one.
pub open spec fn store_or_empty(store: Option<Store>) -> StoreView {
    match store {
        Some(s) => s@,
        None => StoreView::empty(),
    }
}

/// An entry point was called: it waits for the rows of its own entity.
pub open spec fn started(store: StoreView, first: Entity, cross: bool) -> FetchView {
    FetchView { store, awaiting: Some(first), cross, depth: 0 }
}

/// The teams' rows came: they are merged, and the players are fetched next
/// only where the fetch now running crosses over, one level down and without
/// crossing again.
pub open spec fn after_teams(f: FetchView, rows: Seq<TeamView>) -> FetchView {
    FetchView {
        store: StoreView { teams: merged(f.store.teams, rows), players: f.store.players },
        awaiting: if f.cross {
            Some(Entity::Players)
        } else {
            None
        },
        cross: false,
        depth: if f.cross {
            f.depth + 1
        } else {
            f.depth
        },
    }
}

/// The players' rows came: the mirror image of [`after_teams`].
pub open spec fn after_players(f: FetchView, rows: Seq<PlayerView>) -> FetchView {
    FetchView {
        store: StoreView { teams: f.store.teams, players: merged(f.store.players, rows) },
        awaiting: if f.cross {
            Some(Entity::Teams)
        } else {
            None
        },
        cross: false,
        depth: if f.cross {
            f.depth + 1
        } else {
            f.depth
        },
    }
}

/// The awaited query was answered, with `teams` or with `players` as it
/// asked; a finished fetch stays as it is.
pub open spec fn answered(f: FetchView, teams: Seq<TeamView>, players: Seq<PlayerView>) -> FetchView {
    match f.awaiting {
        Some(Entity::Teams) => after_teams(f, teams),
        Some(Entity::Players) => after_players(f, players),
        None => f,
    }
}

/// A fetch of the teams that crosses over to the players, with both queries
/// answered, merges the teams' rows and then the players' rows, and is done
/// one level below where it started.
pub proof fn lemma_teams_with_players(
    store: StoreView,
    teams: Seq<TeamView>,
    players: Seq<PlayerView>,
)
    ensures
        after_teams(started(store, Entity::Teams, true), teams).awaiting == Some(Entity::Players),
        after_players(after_teams(started(store, Entity::Teams, true), teams), players) == (
        FetchView {
            store: StoreView {
                teams: merged(store.teams, teams),
                players: merged(store.players, players),
            },
            awaiting: None,
            cross: false,
            depth: 1,
        }),
{
}

/// A fetch of the teams that does not cross over is done after the teams'
/// query, and leaves the players as they were: none, from an empty store.
pub proof fn lemma_teams_alone(store: StoreView, teams: Seq<TeamView>)
    ensures
        after_teams(started(store, Entity::Teams, false), teams) == (FetchView {
            store: StoreView { teams: merged(store.teams, teams), players: store.players },
            awaiting: None,
            cross: false,
            depth: 0,
        }),
        store == StoreView::empty() ==> after_teams(
            started(store, Entity::Teams, false),
            teams,
        ).store.players.is_empty(),
{
}

/// Whichever entry point starts the fetch, and whether or not it crosses
/// over, no step runs more than one level below it, a step one level down
/// never crosses again, and the fetch is done after at most two queries.
pub proof fn lemma_depth_bounded(
    store: StoreView,
    first: Entity,
    cross: bool,
    teams1: Seq<TeamView>,
    players1: Seq<PlayerView>,
    teams2: Seq<TeamView>,
    players2: Seq<PlayerView>,
)
    ensures
        ({
            let f1 = answered(started(store, first, cross), teams1, players1);
            let f2 = answered(f1, teams2, players2);
            &&& f1.depth <= 1
            &&& f2.depth <= 1
            &&& f1.depth == 1 ==> !f1.cross
            &&& f1.awaiting is Some ==> f1.depth == 1 && f1.awaiting != Some(first)
            &&& f2.awaiting is None
        }),
{
}

/// One run of the fetch protocol: a fetch of teams or of players that may
/// cross over once to the other entity. The caller runs each query that
/// [`Fetch::awaiting`] names and hands its outcome back; a failed query ends
/// the run and its store is dropped.
pub struct Fetch {
    store: Store,
    awaiting: Option<Entity>,
    cross: bool,
    depth: u8,
}

impl View for Fetch {
    type V = FetchView;

    closed spec fn view(&self) -> FetchView {
        FetchView {
            store: self.store@,
            awaiting: self.awaiting,
            cross: self.cross,
            depth: self.depth as nat,
        }
    }
}

impl Fetch {
    #[verifier::type_invariant]
    spec fn inv(self) -> bool {
        &&& self.depth <= 1
        &&& self.depth == 1 ==> !self.cross
    }

    /// Starts a fetch of the teams into `store`, or into an empty store; it
    /// then fetches the players too when `also_fetch_players` is set.
    pub fn fetch_teams(store: Option<Store>, also_fetch_players: bool) -> (r: Fetch)
        ensures
            r@ == started(store_or_empty(store), Entity::Teams, also_fetch_players),
    {
        let store = match store {
            Some(s) => s,
            None => Store::new(),
        };
        Fetch { store, awaiting: Some(Entity::Teams), cross: also_fetch_players, depth: 0 }
    }

    /// Starts a fetch of the players into `store`, or into an empty store; it
    /// then fetches the teams too when `also_fetch_teams` is set.
    pub fn fetch_players(store: Option<Store>, also_fetch_teams: bool) -> (r: Fetch)
        ensures
            r@ == started(store_or_empty(store), Entity::Players, also_fetch_teams),
    {
        let store = match store {
            Some(s) => s,
            None => Store::new(),
        };
        Fetch { store, awaiting: Some(Entity::Players), cross: also_fetch_teams, depth: 0 }
    }

    /// The query to run next, or `None` once the fetch is done.
    pub fn awaiting(&self) -> (r: Option<Entity>)
        ensures
            r == self@.awaiting,
    {
        self.awaiting
    }

    /// How far below the call that started it the fetch now runs: never more
    /// than one level, and a fetch one level down never crosses over again.
    pub fn depth(&self) -> (r: u8)
        ensures
            r as nat == self@.depth,
            r <= 1,
            r == 1 ==> !self@.cross,
    {
        proof {
            use_type_invariant(self);
        }
        self.depth
    }

    /// Takes the outcome of the teams' query: merges its rows and goes on, or
    /// hands its error back and drops what was merged.
    pub fn on_teams<E>(self, rows: Result<Vec<Team>, E>) -> (r: Result<Fetch, E>)
        requires
            self@.awaiting == Some(Entity::Teams),
        ensures
            match rows {
                Ok(v) => r matches Ok(f) && f@ == after_teams(self@, team_views(v@)),
                Err(e) => r == Err::<Fetch, E>(e),
            },
    {
        proof {
            use_type_invariant(&self);
        }
        match rows {
            Err(e) => Err(e),
            Ok(v) => {
                let Fetch { mut store, awaiting: _, cross, depth } = self;
                store.merge_teams(v);
                if cross {
                    Ok(Fetch { store, awaiting: Some(Entity::Players), cross: false, depth: depth + 1 })
                } else {
                    Ok(Fetch { store, awaiting: None, cross: false, depth })
                }
            },
        }
    }

    /// Takes the outcome of the players' query: merges its rows and goes on,
    /// or hands its error back and drops what was merged.
    pub fn on_players<E>(self, rows: Result<Vec<Player>, E>) -> (r: Result<Fetch, E>)
        requires
            self@.awaiting == Some(Entity::Players),
        ensures
            match rows {
                Ok(v) => r matches Ok(f) && f@ == after_players(self@, player_views(v@)),
                Err(e) => r == Err::<Fetch, E>(e),
            },
    {
        proof {
            use_type_invariant(&self);
        }
        match rows {
            Err(e) => Err(e),
            Ok(v) => {
                let Fetch { mut store, awaiting: _, cross, depth } = self;
                store.merge_players(v);
                if cross {
                    Ok(Fetch { store, awaiting: Some(Entity::Teams), cross: false, depth: depth + 1 })
                } else {
                    Ok(Fetch { store, awaiting: None, cross: false, depth })
                }
            },
        }
    }

    /// The store of a finished fetch.
    pub fn into_store(self) -> (r: Store)
        requires
            self@.awaiting is None,
        ensures
            r@ == self@.store,
    {
        self.store
    }
}

} // verus!
