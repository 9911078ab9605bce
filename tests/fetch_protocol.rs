use team_repo::{Entity, Fetch, Player, Store, Team};

fn team(id: &str, name: &str) -> Team {
    Team::new(id.to_string(), name.to_string())
}

fn player(id: &str, name: &str, team_id: &str) -> Player {
    Player::new(id.to_string(), name.to_string(), team_id.to_string())
}

fn datastore_teams() -> Vec<Team> {
    vec![team("1", "One"), team("2", "Two")]
}

fn datastore_players() -> Vec<Player> {
    vec![player("1", "Bob", "1"), player("2", "John", "2")]
}

fn sorted_teams(store: &Store) -> Vec<(String, String)> {
    let mut v: Vec<(String, String)> =
        store.team_list().into_iter().map(|t| (t.id, t.name)).collect();
    v.sort();
    v
}

fn sorted_players(store: &Store) -> Vec<(String, String, String)> {
    let mut v: Vec<(String, String, String)> =
        store.player_list().into_iter().map(|p| (p.id, p.name, p.team_id)).collect();
    v.sort();
    v
}

#[test]
fn fetch_teams_with_players_fills_both_maps() {
    let fetch = Fetch::fetch_teams(None, true);
    assert_eq!(fetch.awaiting(), Some(Entity::Teams));
    assert_eq!(fetch.depth(), 0);
    let fetch = fetch.on_teams::<String>(Ok(datastore_teams())).unwrap();
    assert_eq!(fetch.awaiting(), Some(Entity::Players));
    assert_eq!(fetch.depth(), 1);
    let fetch = fetch.on_players::<String>(Ok(datastore_players())).unwrap();
    assert_eq!(fetch.awaiting(), None);
    assert_eq!(fetch.depth(), 1);
    let store = fetch.into_store();
    assert_eq!(
        sorted_teams(&store),
        vec![("1".to_string(), "One".to_string()), ("2".to_string(), "Two".to_string())]
    );
    assert_eq!(
        sorted_players(&store),
        vec![
            ("1".to_string(), "Bob".to_string(), "1".to_string()),
            ("2".to_string(), "John".to_string(), "2".to_string()),
        ]
    );
}

#[test]
fn fetch_teams_alone_leaves_players_out() {
    let fetch = Fetch::fetch_teams(None, false);
    let fetch = fetch.on_teams::<String>(Ok(datastore_teams())).unwrap();
    assert_eq!(fetch.awaiting(), None);
    assert_eq!(fetch.depth(), 0);
    let store = fetch.into_store();
    assert_eq!(store.team_list().len(), 2);
    assert!(store.player_list().is_empty());
}

#[test]
fn fetch_players_with_teams_crosses_once() {
    let fetch = Fetch::fetch_players(None, true);
    assert_eq!(fetch.awaiting(), Some(Entity::Players));
    let fetch = fetch.on_players::<String>(Ok(datastore_players())).unwrap();
    assert_eq!(fetch.awaiting(), Some(Entity::Teams));
    assert_eq!(fetch.depth(), 1);
    let fetch = fetch.on_teams::<String>(Ok(datastore_teams())).unwrap();
    assert_eq!(fetch.awaiting(), None);
    let store = fetch.into_store();
    assert_eq!(store.team_list().len(), 2);
    assert_eq!(store.player_list().len(), 2);
}

#[test]
fn fetch_players_alone_leaves_teams_out() {
    let fetch = Fetch::fetch_players(None, false);
    let fetch = fetch.on_players::<String>(Ok(datastore_players())).unwrap();
    assert_eq!(fetch.awaiting(), None);
    let store = fetch.into_store();
    assert!(store.team_list().is_empty());
    assert_eq!(store.player_list().len(), 2);
}

#[test]
fn fetch_merges_into_given_store() {
    let mut store = Store::new();
    store.merge_team(team("9", "Nine"));
    store.merge_team(team("1", "Old"));
    let fetch = Fetch::fetch_teams(Some(store), false);
    let store = fetch.on_teams::<String>(Ok(datastore_teams())).unwrap().into_store();
    assert_eq!(
        sorted_teams(&store),
        vec![
            ("1".to_string(), "One".to_string()),
            ("2".to_string(), "Two".to_string()),
            ("9".to_string(), "Nine".to_string()),
        ]
    );
}

#[test]
fn team_query_failure_is_returned() {
    let fetch = Fetch::fetch_teams(None, true);
    let r = fetch.on_teams::<String>(Err("connection dropped".to_string()));
    match r {
        Err(e) => assert_eq!(e, "connection dropped"),
        Ok(_) => panic!("a failed query must end the fetch"),
    }
}

#[test]
fn player_query_failure_after_teams_is_returned() {
    let fetch = Fetch::fetch_teams(None, true);
    let fetch = fetch.on_teams::<String>(Ok(datastore_teams())).unwrap();
    let r = fetch.on_players::<String>(Err("connection dropped".to_string()));
    assert!(matches!(r, Err(ref e) if e == "connection dropped"));
}

#[test]
fn empty_answers_finish_with_empty_store() {
    let fetch = Fetch::fetch_teams(None, true);
    let fetch = fetch.on_teams::<String>(Ok(Vec::new())).unwrap();
    let store = fetch.on_players::<String>(Ok(Vec::new())).unwrap().into_store();
    assert!(store.team_list().is_empty());
    assert!(store.player_list().is_empty());
}
