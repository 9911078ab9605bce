use vstd::prelude::*;

verus! {

/// A team as read from the datastore.
#[derive(Debug, Clone, Default)]
pub struct Team {
    pub id: String,
    pub name: String,
}

/// A player as read from the datastore; `team_id` refers to a team's
/// identifier, which is not enforced.
#[derive(Debug, Clone, Default)]
pub struct Player {
    pub id: String,
    pub name: String,
    pub team_id: String,
}

/// The mathematical value of a [`Team`].
pub ghost struct TeamView {
    pub id: Seq<char>,
    pub name: Seq<char>,
}

/// The mathematical value of a [`Player`].
pub ghost struct PlayerView {
    pub id: Seq<char>,
    pub name: Seq<char>,
    pub team_id: Seq<char>,
}

impl View for Team {
    type V = TeamView;

    open spec fn view(&self) -> TeamView {
        TeamView { id: self.id@, name: self.name@ }
    }
}

impl View for Player {
    type V = PlayerView;

    open spec fn view(&self) -> PlayerView {
        PlayerView { id: self.id@, name: self.name@, team_id: self.team_id@ }
    }
}

impl Team {
    /// Builds a team from its identifier and display name.
    pub fn new(id: String, name: String) -> (r: Team)
        ensures
            r@ == (TeamView { id: id@, name: name@ }),
    {
        Team { id, name }
    }

    /// A copy of this team, field by field.
    pub fn duplicate(&self) -> (r: Team)
        ensures
            r@ == self@,
    {
        Team { id: self.id.clone(), name: self.name.clone() }
    }
}

impl Player {
    /// Builds a player from its identifier, display name and team identifier.
    pub fn new(id: String, name: String, team_id: String) -> (r: Player)
        ensures
            r@ == (PlayerView { id: id@, name: name@, team_id: team_id@ }),
    {
        Player { id, name, team_id }
    }

    /// A copy of this player, field by field.
    pub fn duplicate(&self) -> (r: Player)
        ensures
            r@ == self@,
    {
        Player { id: self.id.clone(), name: self.name.clone(), team_id: self.team_id.clone() }
    }
}

} // verus!
