use team_repo::{Player, Store, Team};

fn team(id: &str, name: &str) -> Team {
    Team::new(id.to_string(), name.to_string())
}

fn player(id: &str, name: &str, team_id: &str) -> Player {
    Player::new(id.to_string(), name.to_string(), team_id.to_string())
}

fn sorted_teams(store: &Store) -> Vec<(String, String)> {
    let mut v: Vec<(String, String)> =
        store.team_list().into_iter().map(|t| (t.id, t.name)).collect();
    v.sort();
    v
}

fn sorted_players(store: &Store) -> Vec<(String, String, String)> {
    let mut v: Vec<(String, String, String)> =
        store.player_list().into_iter().map(|p| (p.id, p.name, p.team_id)).collect();
    v.sort();
    v
}

#[test]
fn new_store_is_empty() {
    let store = Store::new();
    assert!(store.team_list().is_empty());
    assert!(store.player_list().is_empty());
    let store = Store::default();
    assert!(store.team_list().is_empty());
    assert!(store.team(&"1".to_string()).is_none());
    assert!(store.player(&"1".to_string()).is_none());
}

#[test]
fn merge_files_each_identifier_once() {
    let mut store = Store::new();
    store.merge_team(team("1", "One"));
    store.merge_team(team("2", "Two"));
    assert_eq!(
        sorted_teams(&store),
        vec![("1".to_string(), "One".to_string()), ("2".to_string(), "Two".to_string())]
    );
    assert!(store.player_list().is_empty());
}

#[test]
fn later_merge_overwrites_same_identifier() {
    let mut store = Store::new();
    store.merge_team(team("1", "One"));
    store.merge_team(team("1", "Uno"));
    assert_eq!(sorted_teams(&store), vec![("1".to_string(), "Uno".to_string())]);
    assert_eq!(store.team(&"1".to_string()).unwrap().name, "Uno");
}

#[test]
fn merging_same_entity_twice_keeps_one_entry() {
    let mut store = Store::new();
    store.merge_player(player("7", "Bob", "1"));
    store.merge_player(player("7", "Bob", "1"));
    assert_eq!(
        sorted_players(&store),
        vec![("7".to_string(), "Bob".to_string(), "1".to_string())]
    );
}

#[test]
fn merge_rows_in_order_last_wins() {
    let mut store = Store::new();
    store.merge_teams(vec![team("1", "One"), team("2", "Two"), team("1", "First")]);
    assert_eq!(
        sorted_teams(&store),
        vec![("1".to_string(), "First".to_string()), ("2".to_string(), "Two".to_string())]
    );
    store.merge_players(vec![player("1", "Bob", "1"), player("1", "Rob", "2")]);
    assert_eq!(
        sorted_players(&store),
        vec![("1".to_string(), "Rob".to_string(), "2".to_string())]
    );
}

#[test]
fn merging_rows_twice_changes_nothing() {
    let rows = vec![team("a", "A"), team("b", "B"), team("a", "A2")];
    let mut once = Store::new();
    once.merge_teams(rows.clone());
    let mut twice = Store::new();
    twice.merge_teams(rows.clone());
    twice.merge_teams(rows);
    assert_eq!(sorted_teams(&once), sorted_teams(&twice));
}

#[test]
fn merges_into_existing_store_keep_other_entries() {
    let mut store = Store::new();
    store.merge_teams(vec![team("1", "One")]);
    store.merge_teams(vec![team("2", "Two")]);
    store.merge_players(vec![player("5", "Ann", "2")]);
    assert_eq!(
        sorted_teams(&store),
        vec![("1".to_string(), "One".to_string()), ("2".to_string(), "Two".to_string())]
    );
    let p = store.player(&"5".to_string()).unwrap();
    assert_eq!((p.id, p.name, p.team_id), ("5".to_string(), "Ann".to_string(), "2".to_string()));
}

#[test]
fn duplicate_copies_fields() {
    let t = team("3", "Three");
    let c = t.duplicate();
    assert_eq!((c.id, c.name), ("3".to_string(), "Three".to_string()));
    let p = player("4", "Eve", "3");
    let c = p.duplicate();
    assert_eq!((c.id, c.name, c.team_id), ("4".to_string(), "Eve".to_string(), "3".to_string()));
}
