//! Messages and game data exchanged with the arena server.

use vstd::prelude::*;
use std::collections::HashMap;

verus! {

/// The version of the protocol this client speaks.
pub const PROTOCOL_VERSION: i32 = 1;

/// Kind of a message, in either direction.
#[derive(Clone, Copy, Debug, PartialEq, Eq, Structural)]
pub enum Command {
    Hello,
    Login,
    Error,
    Ready,
    Challenge,
    Practice,
    StartMatch,
    StartTurn,
    Move,
    Shoot,
    EndMatch,
    Other,
}

/// A player of a match and the heroes it starts with.
#[derive(Clone, Debug)]
pub struct Player {
    pub id: i32,
    pub name: String,
    pub heroes: Vec<PlayerHeroSpawn>,
}

/// Where a hero of a player enters the map.
#[derive(Clone, Debug)]
pub struct PlayerHeroSpawn {
    pub id: i32,
    pub x: i32,
    pub y: i32,
    pub type_: String,
}

/// The characteristics of one kind of hero.
#[derive(Clone, Copy, Debug)]
pub struct HeroTypeConfig {
    pub shoot_cooldown: i32,
    pub projectile_ttl: i32,
    pub projectile_speed: i32,
    pub max_hp: i32,
    pub projectile_damage: i32,
}

/// The settings of a match.
#[derive(Clone, Debug)]
pub struct GameConfig {
    pub width: i32,
    pub height: i32,
    pub turns: i32,
    pub vision_range: i32,
    pub seed: u32,
    pub players: Vec<Player>,
    pub hero_types: HashMap<String, HeroTypeConfig>,
}

/// A hero on the map.
#[derive(Clone, Debug)]
pub struct Hero {
    pub id: i32,
    pub owner_id: i32,
    pub type_: String,
    pub x: i32,
    pub y: i32,
    pub hp: i32,
    pub cooldown: i32,
}

/// A projectile in flight.
#[derive(Clone, Debug)]
pub struct Projectile {
    pub owner_id: i32,
    pub type_: String,
    pub origin_x: i32,
    pub origin_y: i32,
    pub x: i32,
    pub y: i32,
    pub ttl: i32,
}

/// A wall cell of the map.
#[derive(Clone, Copy, Debug, PartialEq, Eq, Structural)]
pub struct Wall {
    pub x: i32,
    pub y: i32,
}

/// What a player sees of the map at a turn.
#[derive(Clone, Debug)]
pub struct GameState {
    pub heroes: Vec<Hero>,
    pub projectiles: Vec<Projectile>,
    pub walls: Vec<Wall>,
}

/// Arguments of the message that starts a match.
#[derive(Clone, Debug)]
pub struct StartMatchArgs {
    pub config: GameConfig,
    pub state: GameState,
    pub match_id: String,
    pub your_player_id: i32,
}

/// Arguments of the message that starts a turn.
#[derive(Clone, Debug)]
pub struct StartTurnArgs {
    pub turn: i32,
    pub state: GameState,
}

/// Arguments of an error message from the server.
#[derive(Clone, Debug)]
pub struct ErrorArgs {
    pub code: String,
    pub message: String,
    pub fatal: bool,
}

} // verus!
