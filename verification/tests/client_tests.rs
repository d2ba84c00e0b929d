use arena_bot::client::{error_ends_session, practice_seat, reaction_to, wants_challenge, ClientState, HeroOrder, Reaction};
use arena_bot::protocol::{Command, ErrorArgs, GameConfig, GameState, Hero, StartMatchArgs, StartTurnArgs, Wall};
use std::collections::HashMap;

fn hero(id: i32, owner_id: i32, x: i32, y: i32, cooldown: i32) -> Hero {
    Hero { id, owner_id, type_: "archer".to_string(), x, y, hp: 100, cooldown }
}

fn match_args(me: i32, width: i32, height: i32, walls: Vec<(i32, i32)>) -> StartMatchArgs {
    StartMatchArgs {
        config: GameConfig {
            width,
            height,
            turns: 100,
            vision_range: 10,
            seed: 7,
            players: vec![],
            hero_types: HashMap::new(),
        },
        state: GameState {
            heroes: vec![],
            projectiles: vec![],
            walls: walls.into_iter().map(|(x, y)| Wall { x, y }).collect(),
        },
        match_id: "m1".to_string(),
        your_player_id: me,
    }
}

fn turn(heroes: Vec<Hero>) -> StartTurnArgs {
    StartTurnArgs { turn: 1, state: GameState { heroes, projectiles: vec![], walls: vec![] } }
}

#[test]
fn challenge_choice() {
    assert!(wants_challenge("challenge"));
    assert!(wants_challenge("C"));
    assert!(!wants_challenge("practice"));
    assert!(!wants_challenge(""));
}

#[test]
fn seat_choice() {
    assert_eq!(practice_seat("0"), Some(0));
    assert_eq!(practice_seat("1"), Some(1));
    assert_eq!(practice_seat(""), None);
    assert_eq!(practice_seat("2"), None);
    assert_eq!(practice_seat("01"), None);
}

#[test]
fn no_orders_before_a_match() {
    let mut st = ClientState::new();
    let orders = st.plan_turn(&turn(vec![hero(1, 0, 10, 10, 0), hero(2, 1, 15, 15, 0)]));
    assert!(orders.is_empty());
    assert!(st.last_known_enemies.is_empty());
}

#[test]
fn start_match_records_the_map() {
    let mut st = ClientState::new();
    st.start_match(&match_args(3, 40, 20, vec![(1, 2), (5, 6)]));
    assert_eq!(st.my_player_id, 3);
    assert_eq!(st.map_width, 40);
    assert_eq!(st.map_height, 20);
    assert_eq!(st.walls_cache, vec![(1, 2), (5, 6)]);
}

#[test]
fn ready_hero_shoots_visible_enemy() {
    let mut st = ClientState::new();
    st.start_match(&match_args(0, 30, 30, vec![]));
    let orders = st.plan_turn(&turn(vec![hero(1, 0, 10, 10, 0), hero(2, 1, 15, 15, 0)]));
    assert_eq!(orders, vec![HeroOrder::Shoot { hero_id: 1, x: 15, y: 15 }]);
    assert_eq!(st.last_known_enemies.get(&2), Some(&(15, 15)));
}

#[test]
fn blocked_shot_becomes_best_move() {
    let mut st = ClientState::new();
    st.start_match(&match_args(0, 30, 30, vec![(12, 12)]));
    let orders = st.plan_turn(&turn(vec![hero(1, 0, 10, 10, 0), hero(2, 1, 15, 15, 0)]));
    assert_eq!(orders, vec![HeroOrder::Move { hero_id: 1, x: 10, y: 13 }]);
    assert_eq!(st.hero_history_1.get(&1), Some(&(10, 13)));
    assert!(st.hero_history_2.is_empty());
}

#[test]
fn heroes_do_not_share_a_cell() {
    let mut st = ClientState::new();
    st.start_match(&match_args(0, 30, 30, vec![]));
    let orders = st.plan_turn(&turn(vec![
        hero(1, 0, 10, 10, 1),
        hero(3, 0, 10, 10, 1),
        hero(2, 1, 15, 15, 0),
    ]));
    assert_eq!(
        orders,
        vec![
            HeroOrder::Move { hero_id: 1, x: 13, y: 13 },
            HeroOrder::Move { hero_id: 3, x: 10, y: 13 },
        ]
    );
}

#[test]
fn history_shifts_on_second_move() {
    let mut st = ClientState::new();
    st.start_match(&match_args(0, 30, 30, vec![]));
    st.plan_turn(&turn(vec![hero(1, 0, 10, 10, 1), hero(2, 1, 15, 15, 0)]));
    assert_eq!(st.hero_history_1.get(&1), Some(&(13, 13)));
    st.plan_turn(&turn(vec![hero(1, 0, 13, 13, 1), hero(2, 1, 15, 15, 0)]));
    assert_eq!(st.hero_history_2.get(&1), Some(&(13, 13)));
    assert_eq!(st.hero_history_1.len(), 1);
}

#[test]
fn without_enemies_heroes_walk_to_the_centre() {
    let mut st = ClientState::new();
    st.start_match(&match_args(0, 30, 30, vec![]));
    let turn_args = turn(vec![hero(1, 0, 10, 10, 0)]);
    assert!(st.can_plan_turn(&turn_args));
    let orders = st.plan_turn(&turn_args);
    assert_eq!(orders, vec![HeroOrder::Move { hero_id: 1, x: 13, y: 13 }]);
    assert!(st.hero_history_1.is_empty());
}

#[test]
fn hero_off_the_map_cannot_walk() {
    let mut st = ClientState::new();
    st.start_match(&match_args(0, 30, 30, vec![]));
    assert!(!st.can_plan_turn(&turn(vec![hero(1, 0, 40, 40, 0)])));
    assert!(st.can_plan_turn(&turn(vec![hero(1, 0, 40, 40, 0), hero(2, 1, 15, 15, 0)])));
}

#[test]
fn enemies_are_remembered() {
    let mut st = ClientState::new();
    st.start_match(&match_args(0, 30, 30, vec![]));
    st.plan_turn(&turn(vec![hero(1, 0, 10, 10, 0), hero(2, 1, 15, 15, 0)]));
    st.plan_turn(&turn(vec![hero(1, 0, 10, 10, 0), hero(4, 1, 20, 3, 0)]));
    assert_eq!(st.last_known_enemies.get(&2), Some(&(15, 15)));
    assert_eq!(st.last_known_enemies.get(&4), Some(&(20, 3)));
}

#[test]
fn nearest_enemy_is_targeted() {
    let mut st = ClientState::new();
    st.start_match(&match_args(0, 40, 40, vec![]));
    let orders = st.plan_turn(&turn(vec![
        hero(1, 0, 10, 10, 0),
        hero(2, 1, 30, 30, 0),
        hero(4, 1, 12, 16, 0),
    ]));
    assert_eq!(orders, vec![HeroOrder::Shoot { hero_id: 1, x: 12, y: 16 }]);
}

#[test]
fn reactions_to_server_messages() {
    assert_eq!(reaction_to(Command::Hello), Reaction::Login);
    assert_eq!(reaction_to(Command::Login), Reaction::Refuse);
    assert_eq!(reaction_to(Command::Ready), Reaction::ChooseGame);
    assert_eq!(reaction_to(Command::StartMatch), Reaction::StartMatch);
    assert_eq!(reaction_to(Command::StartTurn), Reaction::PlayTurn);
    assert_eq!(reaction_to(Command::EndMatch), Reaction::EndSession);
    assert_eq!(reaction_to(Command::Error), Reaction::ReportError);
    assert_eq!(reaction_to(Command::Move), Reaction::Ignore);
    assert_eq!(reaction_to(Command::Other), Reaction::Ignore);
}

#[test]
fn errors_that_end_the_session() {
    let err = |fatal: bool| ErrorArgs { code: "E1".to_string(), message: "bad".to_string(), fatal };
    assert!(error_ends_session(Some(&err(true))));
    assert!(!error_ends_session(Some(&err(false))));
    assert!(error_ends_session(None));
}

#[test]
fn begin_turn_lists_own_heroes_and_target() {
    let mut st = ClientState::new();
    st.start_match(&match_args(0, 40, 40, vec![]));
    let args = turn(vec![hero(2, 1, 30, 30, 0), hero(1, 0, 10, 10, 0), hero(5, 0, 20, 20, 1)]);
    let start = st.begin_turn(&args);
    assert_eq!(start.mine, vec![1, 2]);
    assert_eq!(start.target, Some((30, 30)));
    assert_eq!(st.last_known_enemies.get(&2), Some(&(30, 30)));
}

#[test]
fn begin_turn_before_a_match_does_nothing() {
    let mut st = ClientState::new();
    let start = st.begin_turn(&turn(vec![hero(1, 0, 10, 10, 0), hero(2, 1, 15, 15, 0)]));
    assert!(start.mine.is_empty());
    assert_eq!(start.target, None);
    assert!(st.last_known_enemies.is_empty());
}

#[test]
fn walking_needs_a_hero_on_the_map() {
    let mut st = ClientState::new();
    st.start_match(&match_args(0, 30, 30, vec![]));
    assert!(st.can_walk(&hero(1, 0, 10, 10, 0)));
    assert!(!st.can_walk(&hero(1, 0, 40, 40, 0)));
    assert!(!st.can_walk(&hero(1, 0, -1, 0, 0)));
}

#[test]
fn deciding_hero_by_hero_matches_the_planned_turn() {
    let mut a = ClientState::new();
    a.start_match(&match_args(0, 30, 30, vec![]));
    let mut b = ClientState::new();
    b.start_match(&match_args(0, 30, 30, vec![]));
    let args = turn(vec![hero(1, 0, 10, 10, 1), hero(3, 0, 10, 10, 1), hero(2, 1, 15, 15, 0)]);
    let planned = a.plan_turn(&args);
    let start = b.begin_turn(&args);
    let mut claimed = Vec::new();
    let mut decided = Vec::new();
    for &k in &start.mine {
        if let Some(o) = b.decide(&args.state.heroes[k], start.target, &mut claimed) {
            decided.push(o);
        }
    }
    assert_eq!(planned, decided);
    assert_eq!(a.hero_history_1, b.hero_history_1);
}
