use vstd::prelude::*;

verus! {

/// Titles awarded by the federation.
#[derive(Clone, Copy, Debug, PartialEq, Eq, Structural)]
pub enum Title {
    GM,
    IM,
    FM,
    CM,
    WGM,
    WIM,
    WFM,
    WCM,
}

/// The colour of the pieces a player had in one game.
#[derive(Clone, Copy, Debug, PartialEq, Eq, Structural)]
pub enum Color {
    White,
    Black,
}

impl Color {
    pub open spec fn opposite_spec(self) -> Color {
        match self {
            Color::White => Color::Black,
            Color::Black => Color::White,
        }
    }

    pub fn opposite(self) -> (r: Color)
        ensures
            r == self.opposite_spec(),
    {
        match self {
            Color::White => Color::Black,
            Color::Black => Color::White,
        }
    }
}

/// A participant of a tournament. A rating of 0 means "unrated"; a
/// federation id of 0 means "unknown".
#[derive(Clone, Debug)]
pub struct Player {
    pub starting_rank: u32,
    pub title: Option<Title>,
    pub name: String,
    pub rating: u32,
    pub national_rating: u32,
    pub player_id: u64,
    pub birth_date: String,
    pub federation: String,
    pub origin: String,
    pub sex: String,
}

impl Player {
    /// A player known by name and rating only; the starting rank is given
    /// when the player joins a tournament.
    pub fn new(name: String, rating: u32) -> (r: Player)
        ensures
            r.name@ == name@,
            r.rating == rating,
            r.starting_rank == 0,
            r.title.is_none(),
            r.national_rating == 0,
    {
        Player {
            starting_rank: 0,
            title: None,
            name,
            rating,
            national_rating: 0,
            player_id: 0,
            birth_date: String::new(),
            federation: String::new(),
            origin: String::new(),
            sex: String::new(),
        }
    }

    pub open spec fn is_rated_spec(&self) -> bool {
        self.rating > 0
    }

    pub fn is_rated(&self) -> (r: bool)
        ensures
            r == self.is_rated_spec(),
    {
        self.rating > 0
    }
}

} // verus!
