//! In-memory assembly of teams and their players, and the protocol that
//! fetches them from a datastore while bounding the mutual recursion between
//! the two fetches to a single level.

mod entity;
mod fetch;
mod store;

pub use entity::{Player, PlayerView, Team, TeamView};
pub use fetch::{
    after_players, after_teams, answered, lemma_depth_bounded, lemma_teams_alone,
    lemma_teams_with_players, started, store_or_empty, Entity, Fetch, FetchView,
};
pub use store::{
    keys_distinct, keys_of, lemma_merge_in_sequence, lemma_merge_keys, lemma_merge_twice, merged,
    player_views, team_views, Keyed, Store, StoreView,
};
