use minesweeper::logic::board::{CellInfo, CellState, ConfigError};
use minesweeper::logic::game::{
    ApplicationError, GameAction, GameConfig, InvalidRequest, Player, RequestModel, ResponseModel,
    ServiceError,
};
use minesweeper::logic::registry::Registry;
use minesweeper::logic::room::{OpResponse, RoomState};
use minesweeper::logic::session::{Effect, Session, Step};

fn player(id: &str) -> Player {
    Player { id: id.to_string(), name: id.to_uppercase(), icon: "pic".to_string(), is_ready: false }
}

fn config(n_player: usize) -> GameConfig {
    GameConfig { cols: 5, rows: 4, mines: 3, n_player }
}

fn create(id: &str, n_player: usize) -> Result<RequestModel, String> {
    Ok(RequestModel::RoomCreate { player: player(id), config: config(n_player) })
}

fn join(room: &str, id: &str) -> Result<RequestModel, String> {
    Ok(RequestModel::RoomJoin { room_id: room.to_string(), player: player(id) })
}

fn ready(is_ready: bool) -> Result<RequestModel, String> {
    Ok(RequestModel::PlayerStatusSet { is_ready })
}

fn act(x: usize, y: usize, f: bool) -> Result<RequestModel, String> {
    Ok(RequestModel::PlayerOperation { action: GameAction { x, y, f } })
}

fn room() -> String {
    "66666".to_string()
}

fn reply(message: ResponseModel) -> Effect {
    Effect::Reply { message }
}

fn broadcast(message: ResponseModel) -> Effect {
    Effect::Broadcast { room_id: room(), message }
}

fn refusal(error: &str) -> Effect {
    reply(ResponseModel::InvalidRequest { error: error.to_string() })
}

fn fails(e: ApplicationError, effects: Vec<Effect>) -> Step {
    Step { effects, result: Err(e) }
}

fn two_in_a_room() -> (Registry, Session, Session) {
    let mut reg = Registry::new();
    let mut a = Session::new();
    let mut b = Session::new();
    assert!(a.handle_message(&mut reg, create("a", 2), 0).result.is_ok());
    assert!(b.handle_message(&mut reg, join("66666", "b"), 0).result.is_ok());
    (reg, a, b)
}

#[test]
fn new_session_holds_its_sender() {
    let s = Session::new();
    assert!(s.has_sender);
    assert_eq!(s.player, None);
    assert_eq!(s.room_id, None);
}

#[test]
fn creating_a_room_enters_it() {
    let mut reg = Registry::new();
    let mut s = Session::new();
    let step = s.handle_message(&mut reg, create("a", 2), 0);
    assert_eq!(
        step,
        Step {
            effects: vec![
                Effect::OpenChannel { room_id: room() },
                reply(ResponseModel::JoinSuccess { players: vec![], room_id: room() }),
                broadcast(ResponseModel::PlayerJoin { player: player("a") }),
                Effect::Subscribe { room_id: room() },
            ],
            result: Ok(()),
        }
    );
    assert!(!s.has_sender);
    assert_eq!(s.player, Some(player("a")));
    assert_eq!(s.room_id, Some(room()));
    assert_eq!(reg.rooms.len(), 1);
    assert_eq!(reg.rooms[0].players, vec![player("a")]);
    assert_eq!(reg.rooms[0].gconfig, config(2));
}

#[test]
fn creating_a_room_with_bad_settings_is_refused() {
    let mut reg = Registry::new();
    let mut s = Session::new();
    let bad = GameConfig { cols: 2, rows: 2, mines: 9, n_player: 2 };
    let step = s.handle_message(
        &mut reg,
        Ok(RequestModel::RoomCreate { player: player("a"), config: bad }),
        0,
    );
    assert_eq!(
        step,
        fails(
            ApplicationError::ConfigError(ConfigError::TooManyMines),
            vec![
                refusal("ConfigError: The grid has no room for that many mines"),
                Effect::Close
            ],
        )
    );
    assert!(reg.rooms.is_empty());
    assert!(!s.has_sender);
    assert_eq!(s.player, None);
    assert_eq!(s.room_id, None);
}

#[test]
fn creating_a_room_for_nobody_leaves_it_empty() {
    let mut reg = Registry::new();
    let mut s = Session::new();
    let step = s.handle_message(&mut reg, create("a", 0), 0);
    assert_eq!(
        step,
        fails(
            ApplicationError::InvalidRequest(InvalidRequest::RoomIsFulled),
            vec![
                Effect::OpenChannel { room_id: room() },
                refusal("Room 66666 is already full,Player { id: a, name: A, is_ready:false }"),
                Effect::Close,
            ],
        )
    );
    assert_eq!(reg.rooms.len(), 1);
    assert!(reg.rooms[0].players.is_empty());
}

#[test]
fn entering_a_room_tells_everyone() {
    let mut reg = Registry::new();
    let mut a = Session::new();
    let mut b = Session::new();
    a.handle_message(&mut reg, create("a", 2), 0);
    let step = b.handle_message(&mut reg, join("66666", "b"), 0);
    assert_eq!(
        step,
        Step {
            effects: vec![
                reply(ResponseModel::JoinSuccess { players: vec![player("a")], room_id: room() }),
                broadcast(ResponseModel::PlayerJoin { player: player("b") }),
                Effect::Subscribe { room_id: room() },
            ],
            result: Ok(()),
        }
    );
    assert!(!b.has_sender);
    assert_eq!(b.player, Some(player("b")));
    assert_eq!(b.room_id, Some(room()));
    assert_eq!(reg.rooms[0].players, vec![player("a"), player("b")]);
}

#[test]
fn entering_a_full_room_is_refused() {
    let (mut reg, _a, _b) = two_in_a_room();
    let mut c = Session::new();
    let mut who = player("c");
    who.is_ready = true;
    let step = c.handle_message(
        &mut reg,
        Ok(RequestModel::RoomJoin { room_id: room(), player: who }),
        0,
    );
    assert_eq!(
        step,
        fails(
            ApplicationError::InvalidRequest(InvalidRequest::RoomIsFulled),
            vec![
                refusal("Room 66666 is already full,Player { id: c, name: C, is_ready:true }"),
                Effect::Close
            ],
        )
    );
    assert_eq!(reg.rooms[0].players.len(), 2);
    assert!(!c.has_sender);
}

#[test]
fn entering_a_missing_room_is_refused() {
    let mut reg = Registry::new();
    let mut s = Session::new();
    let step = s.handle_message(&mut reg, join("abc", "a"), 0);
    assert_eq!(
        step,
        fails(
            ApplicationError::InvalidRequest(InvalidRequest::RoomNotExist),
            vec![
                refusal("Room abc does not exist,Player { id: a, name: A, is_ready:false }"),
                Effect::Close
            ],
        )
    );
    assert!(reg.rooms.is_empty());
}

#[test]
fn a_second_room_request_is_refused() {
    let (mut reg, mut a, _b) = two_in_a_room();
    let step = a.handle_message(&mut reg, join("66666", "a"), 0);
    assert_eq!(
        step,
        fails(ApplicationError::ServiceError(ServiceError::AbnormalDisconnection), vec![])
    );
    let mut s = Session::new();
    s.player = Some(player("x"));
    let step = s.handle_message(&mut reg, create("x", 2), 0);
    assert_eq!(
        step,
        fails(ApplicationError::ServiceError(ServiceError::RoomStillExists), vec![Effect::Close])
    );
    assert!(!s.has_sender);
    let mut t = Session::new();
    t.room_id = Some(room());
    let step = t.handle_message(&mut reg, join("66666", "x"), 0);
    assert_eq!(
        step,
        fails(ApplicationError::ServiceError(ServiceError::RoomStillExists), vec![Effect::Close])
    );
    assert_eq!(reg.rooms[0].players.len(), 2);
}

#[test]
fn ready_flags_are_announced_and_start_the_round() {
    let (mut reg, mut a, mut b) = two_in_a_room();
    let step = a.handle_message(&mut reg, ready(true), 100);
    assert_eq!(
        step,
        Step {
            effects: vec![broadcast(ResponseModel::PlayerStatusSet {
                player_id: "a".to_string(),
                is_ready: true
            })],
            result: Ok(()),
        }
    );
    assert_eq!(reg.rooms[0].room_state, RoomState::Waiting);
    let step = b.handle_message(&mut reg, ready(true), 200);
    assert_eq!(
        step,
        Step {
            effects: vec![
                broadcast(ResponseModel::PlayerStatusSet {
                    player_id: "b".to_string(),
                    is_ready: true
                }),
                broadcast(ResponseModel::GameStart { config: config(2) }),
            ],
            result: Ok(()),
        }
    );
    assert_eq!(reg.rooms[0].room_state, RoomState::Gameing);
    assert_eq!(reg.rooms[0].start_time, 200);
}

#[test]
fn a_room_for_one_starts_without_announcing_the_flag() {
    let mut reg = Registry::new();
    let mut a = Session::new();
    a.handle_message(&mut reg, create("a", 1), 0);
    let step = a.handle_message(&mut reg, ready(true), 9);
    assert_eq!(
        step,
        Step {
            effects: vec![broadcast(ResponseModel::GameStart { config: config(1) })],
            result: Ok(()),
        }
    );
}

#[test]
fn actions_are_told_to_the_room() {
    let (mut reg, mut a, _b) = two_in_a_room();
    let step = a.handle_message(&mut reg, act(1, 1, true), 5);
    assert_eq!(
        step,
        Step {
            effects: vec![broadcast(ResponseModel::GameOpRes {
                player_id: "a".to_string(),
                op_res: OpResponse::OpSuccess {
                    cells: vec![CellInfo { x: 1, y: 1, status: CellState::Flagged }]
                },
            })],
            result: Ok(()),
        }
    );
    assert_eq!(reg.rooms[0].game_board.cell_states[1][1], CellState::Flagged);
}

#[test]
fn actions_and_flags_need_a_room() {
    let mut reg = Registry::new();
    let mut s = Session::new();
    let lost = || fails(ApplicationError::ServiceError(ServiceError::RoomOrPlayerLost), vec![]);
    assert_eq!(s.handle_message(&mut reg, act(0, 0, false), 0), lost());
    assert_eq!(s.handle_message(&mut reg, ready(true), 0), lost());
    assert!(s.has_sender);

    let (mut reg, mut a, _b) = two_in_a_room();
    reg.rooms.clear();
    assert_eq!(a.handle_message(&mut reg, act(0, 0, false), 0), lost());
    assert_eq!(a.handle_message(&mut reg, ready(true), 0), lost());
}

#[test]
fn an_unreadable_request_ends_the_session() {
    let (mut reg, mut a, mut b) = two_in_a_room();
    let step = a.handle_message(&mut reg, Err("expected value at line 1".to_string()), 0);
    assert_eq!(
        step,
        fails(
            ApplicationError::InvalidRequest(InvalidRequest::InvalidMessage),
            vec![broadcast(ResponseModel::PlayerLeft { player_id: "a".to_string() })],
        )
    );
    assert_eq!(reg.rooms[0].players, vec![player("b")]);
    let step = b.handle_message(&mut reg, Err("bad".to_string()), 0);
    assert_eq!(
        step,
        fails(
            ApplicationError::InvalidRequest(InvalidRequest::InvalidMessage),
            vec![Effect::CloseChannel { room_id: room() }],
        )
    );
    assert!(reg.rooms.is_empty());

    let mut fresh = Session::new();
    let step = fresh.handle_message(&mut reg, Err("bad".to_string()), 0);
    assert_eq!(
        step,
        fails(
            ApplicationError::InvalidRequest(InvalidRequest::InvalidMessage),
            vec![refusal("bad"), Effect::Close],
        )
    );
    assert!(!fresh.has_sender);
}

#[test]
fn leaving_tells_those_who_stay() {
    let (mut reg, a, b) = two_in_a_room();
    reg.rooms[0].players[1].is_ready = true;
    assert_eq!(
        a.leave(&mut reg),
        vec![broadcast(ResponseModel::PlayerLeft { player_id: "a".to_string() })]
    );
    assert_eq!(reg.rooms[0].players, vec![player("b")]);
    assert_eq!(a.leave(&mut reg), vec![]);
    assert_eq!(b.leave(&mut reg), vec![Effect::CloseChannel { room_id: room() }]);
    assert!(reg.rooms.is_empty());
    assert_eq!(Session::new().leave(&mut reg), vec![]);
}
