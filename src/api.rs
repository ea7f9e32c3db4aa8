//! The messages exchanged between game clients and the server.

use vstd::prelude::*;

use crate::map::{Direction, ObjectType, Point};

verus! {

/// One game, as listed in the lobby.
pub struct GameInfo {
    pub id: u64,
    pub name: String,
    pub maze_name: String,
    pub players: Vec<String>,
    pub finished: bool,
}

pub struct GetGamesResponse {
    pub games: Vec<GameInfo>,
}

/// A new game: on the named maze, or on a generated `width` by `height`
/// rectangle when `maze_name` is empty.
pub struct CreateGameRequest {
    pub name: String,
    pub maze_name: String,
    pub width: usize,
    pub height: usize,
    pub mob_cnt: usize,
    pub candy_cnt: usize,
}

pub struct CreateGameResponse {
    pub game_id: u64,
}

pub struct JoinGameRequest {
    pub game_id: u64,
    pub player_name: String,
}

/// The new player's id, and the game's template as text to draw under the entities.
pub struct JoinGameResponse {
    pub player_id: u64,
    pub maze_name: String,
    pub width: usize,
    pub height: usize,
    pub map: String,
}

/// What a player does: shoot ahead, or move one cell.
#[derive(Clone, Copy, Debug, PartialEq, Eq, Structural)]
pub enum PlayerAction {
    Shoot,
    Move(Direction),
}

pub struct ActionRequest {
    pub game_id: u64,
    pub player_id: u64,
    pub action: PlayerAction,
}

pub struct GetStateRequest {
    pub game_id: u64,
    pub player_id: u64,
}

/// The world as one player sees it.
pub struct GetStateResponse {
    pub objects: Vec<(ObjectType, Point)>,
    pub is_finished: bool,
    pub player_winner: bool,
    pub player_dead: bool,
    pub logs: Vec<String>,
}

/// Whether `name` is among `names`.
pub fn name_taken(names: &Vec<String>, name: &String) -> (b: bool)
    ensures
        b == exists|i: int| 0 <= i < names@.len() && (#[trigger] names@[i])@ == name@,
{
    let mut i: usize = 0;
    while i < names.len()
        invariant
            i <= names@.len(),
            forall|j: int| 0 <= j < i ==> (#[trigger] names@[j])@ != name@,
        decreases names@.len() - i,
    {
        if names[i].eq(name) {
            return true;
        }
        i = i + 1;
    }
    false
}

} // verus!
