//! A room: one board, the players around it, and the life of the room from waiting to
//! playing and back.

use crate::logic::board::{CellInfo, CellState, ConfigError, GameBoard, OpResult};
use crate::logic::game::{GameAction, GameConfig, InvalidRequest, Player};
use crate::logic::rules::{
    board_step, config_error, lemma_first_open_is_safe, BoardView, Outcome,
};
use crate::utils::Point;
use vstd::prelude::*;

verus! {

/// Where a room stands in its life.
#[derive(Debug, Clone, Copy, PartialEq, Eq, Structural)]
pub enum RoomState {
    /// Players join and get ready.
    Waiting,
    /// A round is being played.
    Gameing,
    /// The last player has left; the room is closed.
    Logout,
}

/// What one player has done in the round so far.
#[derive(Debug, PartialEq, Eq)]
pub struct PlayerStats {
    pub id: String,
    /// Actions taken.
    pub steps: u32,
    /// Flags set, less flags taken.
    pub flags: u32,
    /// Cells opened.
    pub opens: u32,
}

impl Clone for PlayerStats {
    fn clone(&self) -> (copy: Self)
        ensures
            copy == *self,
    {
        PlayerStats { id: self.id.clone(), steps: self.steps, flags: self.flags, opens: self.opens }
    }
}

/// A room.
pub struct Room {
    pub room_id: String,
    /// The players in the order in which they joined. No two have the same id.
    pub players: Vec<Player>,
    pub room_state: RoomState,
    pub game_board: GameBoard,
    pub gconfig: GameConfig,
    /// When the round started, in seconds on the caller's clock.
    pub start_time: u64,
    /// Actions taken in the round by all players together.
    pub all_steps: usize,
    /// One entry for each player who has acted in the round. No two have the same id.
    pub stats: Vec<PlayerStats>,
}

/// The account of a round that was won.
#[derive(Debug, PartialEq, Eq)]
pub struct WinInfo {
    pub stats: Vec<PlayerStats>,
    /// The seconds that the round took.
    pub all_times: u64,
    pub all_steps: usize,
    pub all_mines: Vec<Point>,
}

/// What an action of a player came to, as the players are told.
#[derive(Debug, PartialEq, Eq)]
pub enum OpResponse {
    /// The round goes on; `cells` are the cells that changed.
    OpSuccess { cells: Vec<CellInfo> },
    /// The round is lost.
    GameOver { all_mines: Vec<Point>, err_mine: Point, wrong_flags: Vec<Point> },
    /// The round is won.
    GameWin { win_info: WinInfo },
}

/// The ids of the players, in order.
pub open spec fn player_ids(players: Seq<Player>) -> Seq<Seq<char>> {
    players.map_values(|p: Player| p.id@)
}

/// The ids of the entries, in order.
pub open spec fn stat_ids(stats: Seq<PlayerStats>) -> Seq<Seq<char>> {
    stats.map_values(|s: PlayerStats| s.id@)
}

/// The players with the ready flag of the player `id` set to `ready`.
pub open spec fn with_ready(players: Seq<Player>, id: Seq<char>, ready: bool) -> Seq<Player> {
    players.map_values(
        |p: Player|
            if p.id@ == id {
                Player { is_ready: ready, ..p }
            } else {
                p
            },
    )
}

/// The players with no ready flag set.
pub open spec fn unready(players: Seq<Player>) -> Seq<Player> {
    players.map_values(|p: Player| Player { is_ready: false, ..p })
}

/// Every player is ready.
pub open spec fn all_ready(players: Seq<Player>) -> bool {
    forall|i: int| 0 <= i < players.len() ==> (#[trigger] players[i]).is_ready
}

/// `v` held to the range of a counter.
pub open spec fn counter(v: int) -> u32 {
    if v < 0 {
        0
    } else if v > u32::MAX {
        u32::MAX
    } else {
        v as u32
    }
}

/// What an outcome does to the number of flags of the player who acted: one more for a
/// flag set, one less for a flag taken.
pub open spec fn flag_change(outcome: Outcome) -> int {
    match outcome {
        Outcome::Success { cells } => if cells.len() == 1 && cells[0].status
            == CellState::Flagged {
            1
        } else if cells.len() == 1 && cells[0].status == CellState::Closed {
            -1
        } else {
            0
        },
        _ => 0,
    }
}

/// The counters after one more action of the player `id`, which changed the player's flags
/// by `flags` and opened `opened` cells. A player without an entry gets one, at the end.
pub open spec fn recorded(stats: Seq<PlayerStats>, id: String, flags: int, opened: int) -> Seq<
    PlayerStats,
> {
    if stat_ids(stats).contains(id@) {
        let i = stat_ids(stats).index_of(id@);
        stats.update(
            i,
            PlayerStats {
                id: stats[i].id,
                steps: counter(stats[i].steps + 1),
                flags: counter(stats[i].flags + flags),
                opens: counter(stats[i].opens + opened),
            },
        )
    } else {
        stats.push(PlayerStats { id, steps: 1, flags: counter(flags), opens: counter(opened) })
    }
}

/// After a round that was lost or won, the room waits with a new board: every cell
/// closed, no mine placed, nobody ready, nothing counted. The first opening of the next
/// round places the mines anew, none on the opened cell or around it, and does not lose
/// the round.
pub proof fn lemma_next_round_starts_anew(
    before: Room,
    id: String,
    outcome: Outcome,
    opened: int,
    now: u64,
    after: Room,
    res: OpResponse,
    x: int,
    y: int,
    next: BoardView,
    first: Outcome,
)
    requires
        before.wf(),
        !(outcome is Success),
        before.settles_to(id, outcome, opened, now, after, res),
        after.game_board@.inside(x, y),
        board_step(after.game_board@, x, y, false, next, first),
    ensures
        after.room_state == RoomState::Waiting,
        after.players@ == unready(before.players@),
        after.stats@.len() == 0,
        after.all_steps == 0,
        after.game_board@ == BoardView::fresh(
            before.gconfig.rows as int,
            before.gconfig.cols as int,
            before.gconfig.mines as int,
        ),
        !(first is Over),
        forall|r: int, c: int| BoardView::in_safe_zone(x, y, r, c) ==> !next.has_mine(r, c),
{
    let board = after.game_board@;
    assert(board.cell[x][y] == CellState::Closed);
    lemma_first_open_is_safe(board, x, y, next, first);
}

/// In a list without repeats, an entry is found where it stands.
pub proof fn lemma_index_of(ids: Seq<Seq<char>>, i: int)
    requires
        ids.no_duplicates(),
        0 <= i < ids.len(),
    ensures
        ids.contains(ids[i]),
        ids.index_of(ids[i]) == i,
{
    assert(ids.contains(ids[i]));
    let j = ids.index_of(ids[i]);
    assert(0 <= j < ids.len() && ids[j] == ids[i]);
}

impl Room {
    /// The board is well-formed and has the measures of the settings, and no id occurs
    /// twice among the players or among the counters.
    pub open spec fn coherent(&self) -> bool {
        &&& self.game_board.wf()
        &&& self.game_board.rows == self.gconfig.rows
        &&& self.game_board.cols == self.gconfig.cols
        &&& self.game_board.mines == self.gconfig.mines
        &&& player_ids(self.players@).no_duplicates()
        &&& stat_ids(self.stats@).no_duplicates()
        &&& self.players@.len() <= self.gconfig.n_player
    }

    /// The room is coherent, a round is played only by a full room, and a closed room is
    /// empty.
    pub open spec fn wf(&self) -> bool {
        &&& self.coherent()
        &&& self.room_state == RoomState::Gameing ==> self.players@.len() == self.gconfig.n_player
        &&& self.room_state == RoomState::Logout ==> self.players@.len() == 0
    }

    /// The player `id` is in the room.
    pub open spec fn has_player(&self, id: Seq<char>) -> bool {
        player_ids(self.players@).contains(id)
    }

    /// `after` is `self` set back to the start of a round: the same room, players and
    /// settings, waiting, nobody ready, a new board without mines, and no counters.
    pub open spec fn is_reset_to(&self, after: Room) -> bool {
        &&& self.restarts_as(after)
        &&& after.players@ == unready(self.players@)
    }

    /// `after` is the room of `self` at the start of a round, whoever is in it: the same
    /// room and settings, waiting, a new board without mines, and no counters.
    pub open spec fn restarts_as(&self, after: Room) -> bool {
        &&& after.room_id == self.room_id
        &&& after.gconfig == self.gconfig
        &&& after.start_time == self.start_time
        &&& after.room_state == RoomState::Waiting
        &&& after.game_board.wf()
        &&& after.game_board@ == BoardView::fresh(
            self.gconfig.rows as int,
            self.gconfig.cols as int,
            self.gconfig.mines as int,
        )
        &&& after.all_steps == 0
        &&& after.stats@ == Seq::<PlayerStats>::empty()
    }

    /// `self` is the empty, waiting room that is made for the id and the settings.
    pub open spec fn is_new(&self, room_id: String, gconfig: GameConfig) -> bool {
        self.is_new_with(room_id, gconfig, Seq::<Player>::empty())
    }

    /// `self` is a room in which nothing has happened but that `players` have entered.
    pub open spec fn is_new_with(
        &self,
        room_id: String,
        gconfig: GameConfig,
        players: Seq<Player>,
    ) -> bool {
        &&& self.wf()
        &&& self.room_id == room_id
        &&& self.gconfig == gconfig
        &&& self.players@ == players
        &&& self.room_state == RoomState::Waiting
        &&& self.game_board@ == BoardView::fresh(
            gconfig.rows as int,
            gconfig.cols as int,
            gconfig.mines as int,
        )
        &&& self.start_time == 0
        &&& self.all_steps == 0
        &&& self.stats@ == Seq::<PlayerStats>::empty()
    }

    /// `after` is `self` after the ready flag of the player `id` was set to `ready`: the
    /// round starts if the player is in the room, the room is full and everyone is ready.
    pub open spec fn readies(&self, id: Seq<char>, ready: bool, after: Room) -> bool {
        &&& self.differs_in_roster(after)
        &&& after.players@ == with_ready(self.players@, id, ready)
        &&& after.room_state == (if self.has_player(id) && self.players@.len()
            == self.gconfig.n_player && all_ready(after.players@) {
            RoomState::Gameing
        } else {
            self.room_state
        })
    }

    /// `after` is `self` after `player` was let in: at the end of the players, or in
    /// the place of the player who had the same id.
    pub open spec fn admits(&self, player: Player, after: Room) -> bool {
        &&& self.differs_in_roster(after)
        &&& after.room_state == self.room_state
        &&& after.players@ == (if self.has_player(player.id@) {
            self.players@.update(player_ids(self.players@).index_of(player.id@), player)
        } else {
            self.players@.push(player)
        })
    }

    /// The players of `self` without the player `id`.
    pub open spec fn others(&self, id: Seq<char>) -> Seq<Player> {
        self.players@.remove(player_ids(self.players@).index_of(id))
    }

    /// `after` is `self` after the player `id`, who is in the room, has left: closed if
    /// nobody is left, set back to the start of a round otherwise.
    pub open spec fn parts_with(&self, id: Seq<char>, after: Room) -> bool {
        if self.others(id).len() == 0 {
            &&& self.differs_in_roster(after)
            &&& after.players@ == self.others(id)
            &&& after.room_state == RoomState::Logout
        } else {
            &&& self.restarts_as(after)
            &&& after.players@ == unready(self.others(id))
        }
    }

    /// `after` and `res` are what the action of the player `id` at the time `now` can
    /// make of `self`: the board takes the action, and what it came to is settled.
    pub open spec fn acts_to(
        &self,
        id: String,
        action: GameAction,
        now: u64,
        after: Room,
        res: OpResponse,
    ) -> bool {
        exists|moved: Room, outcome: Outcome|
            {
                &&& #[trigger] self.moves_to(action, moved, outcome)
                &&& moved.settles_to(
                    id,
                    outcome,
                    moved.game_board.n_open - self.game_board.n_open,
                    now,
                    after,
                    res,
                )
            }
    }

    /// `after` is `self` but for the players and the state of the room.
    pub open spec fn differs_in_roster(&self, after: Room) -> bool {
        &&& after.room_id == self.room_id
        &&& after.gconfig == self.gconfig
        &&& after.start_time == self.start_time
        &&& after.game_board == self.game_board
        &&& after.all_steps == self.all_steps
        &&& after.stats == self.stats
    }

    /// Makes an empty, waiting room with a new board.
    ///
    /// Fails where the board cannot be made.
    pub fn new(room_id: String, gconfig: GameConfig) -> (res: Result<Room, ConfigError>)
        ensures
            match res {
                Ok(room) => config_error(
                    gconfig.rows as int,
                    gconfig.cols as int,
                    gconfig.mines as int,
                ).is_none() && room.is_new(room_id, gconfig),
                Err(e) => config_error(
                    gconfig.rows as int,
                    gconfig.cols as int,
                    gconfig.mines as int,
                ) == Some(e),
            },
    {
        let game_board = match GameBoard::new(gconfig.cols, gconfig.rows, gconfig.mines) {
            Ok(board) => board,
            Err(e) => {
                return Err(e);
            },
        };
        let room = Room {
            room_id,
            players: Vec::new(),
            room_state: RoomState::Waiting,
            game_board,
            gconfig,
            start_time: 0,
            all_steps: 0,
            stats: Vec::new(),
        };
        assert(player_ids(room.players@) =~= Seq::<Seq<char>>::empty());
        assert(stat_ids(room.stats@) =~= Seq::<Seq<char>>::empty());
        Ok(room)
    }

    /// Whether the room has as many players as a round is played with.
    pub fn is_full(&self) -> (full: bool)
        ensures
            full == (self.players@.len() == self.gconfig.n_player),
    {
        self.players.len() == self.gconfig.n_player
    }

    /// Whether the player `player_id` is in the room.
    pub fn is_member(&self, player_id: &String) -> (found: bool)
        ensures
            found == self.has_player(player_id@),
    {
        match find_player(&self.players, player_id) {
            Some(i) => {
                assert(player_ids(self.players@)[i as int] == player_id@);
                true
            },
            None => false,
        }
    }

    /// Notes the time at which the round starts.
    pub fn start_game(&mut self, now: u64)
        ensures
            final(self).start_time == now,
            final(self).room_id == old(self).room_id,
            final(self).players == old(self).players,
            final(self).room_state == old(self).room_state,
            final(self).game_board == old(self).game_board,
            final(self).gconfig == old(self).gconfig,
            final(self).all_steps == old(self).all_steps,
            final(self).stats == old(self).stats,
    {
        self.start_time = now;
    }

    /// Sets the room back to the start of a round.
    pub fn reset(&mut self)
        requires
            old(self).coherent(),
        ensures
            old(self).is_reset_to(*final(self)),
            final(self).wf(),
    {
        let mut i: usize = 0;
        while i < self.players.len()
            invariant
                i <= self.players@.len(),
                self.players@.len() == old(self).players@.len(),
                forall|j: int|
                    0 <= j < i ==> #[trigger] self.players@[j] == (Player {
                        is_ready: false,
                        ..old(self).players@[j]
                    }),
                forall|j: int|
                    i <= j < self.players@.len() ==> #[trigger] self.players@[j] == old(
                        self,
                    ).players@[j],
                self.room_id == old(self).room_id,
                self.gconfig == old(self).gconfig,
                self.start_time == old(self).start_time,
                self.game_board == old(self).game_board,
            decreases self.players@.len() - i,
        {
            let mut player = self.players[i].clone();
            player.is_ready = false;
            self.players.set(i, player);
            i += 1;
        }
        assert(self.players@ =~= unready(old(self).players@));
        assert(player_ids(self.players@) =~= player_ids(old(self).players@));
        self.room_state = RoomState::Waiting;
        self.game_board = GameBoard::new(
            self.gconfig.cols,
            self.gconfig.rows,
            self.gconfig.mines,
        ).unwrap();
        self.all_steps = 0;
        self.stats = Vec::new();
        assert(stat_ids(self.stats@) =~= Seq::<Seq<char>>::empty());
    }

    /// Sets or clears the ready flag of a player, and starts the round once the room is
    /// full and everyone in it is ready. Returns the state of the room afterwards.
    /// For a player who is not in the room nothing changes.
    pub fn set_player_status(&mut self, player_id: &String, is_ready: bool) -> (state: RoomState)
        requires
            old(self).wf(),
        ensures
            final(self).wf(),
            state == final(self).room_state,
            old(self).readies(player_id@, is_ready, *final(self)),
    {
        match find_player(&self.players, player_id) {
            Some(i) => {
                let mut player = self.players[i].clone();
                player.is_ready = is_ready;
                self.players.set(i, player);
                proof {
                    let ids = player_ids(old(self).players@);
                    assert forall|j: int| 0 <= j < ids.len() && j != i implies old(
                        self,
                    ).players@[j].id@ != player_id@ by {
                        assert(ids[j] != ids[i as int]);
                    }
                    assert(self.players@ =~= with_ready(old(self).players@, player_id@, is_ready));
                    assert(player_ids(self.players@) =~= ids);
                }
                if self.players.len() == self.gconfig.n_player && everyone_ready(&self.players) {
                    self.room_state = RoomState::Gameing;
                }
                assert(old(self).has_player(player_id@)) by {
                    assert(player_ids(old(self).players@)[i as int] == player_id@);
                }
            },
            None => {
                proof {
                    let ids = player_ids(old(self).players@);
                    assert forall|j: int| 0 <= j < ids.len() implies old(self).players@[j].id@
                        != player_id@ by {
                        assert(ids[j] == old(self).players@[j].id@);
                    }
                    assert(self.players@ =~= with_ready(old(self).players@, player_id@, is_ready));
                }
            },
        }
        self.room_state
    }

    /// Lets a player into the room. A player whose id is already in the room takes the
    /// place of the one who had it.
    ///
    /// Fails with `RoomNotExist` if the room is closed, else with `RoomIsFulled` if it is
    /// full; the room is then left as it was.
    pub fn add_player(&mut self, player: Player) -> (res: Result<(), InvalidRequest>)
        requires
            old(self).wf(),
        ensures
            final(self).wf(),
            res == (if old(self).room_state == RoomState::Logout {
                Err::<(), InvalidRequest>(InvalidRequest::RoomNotExist)
            } else if old(self).players@.len() >= old(self).gconfig.n_player {
                Err::<(), InvalidRequest>(InvalidRequest::RoomIsFulled)
            } else {
                Ok::<(), InvalidRequest>(())
            }),
            res is Err ==> *final(self) == *old(self),
            res is Ok ==> old(self).admits(player, *final(self)),
    {
        if self.room_state == RoomState::Logout {
            return Err(InvalidRequest::RoomNotExist);
        }
        if self.players.len() >= self.gconfig.n_player {
            return Err(InvalidRequest::RoomIsFulled);
        }
        let ghost ids = player_ids(self.players@);
        match find_player(&self.players, &player.id) {
            Some(i) => {
                proof {
                    lemma_index_of(ids, i as int);
                }
                self.players.set(i, player);
                assert(player_ids(self.players@) =~= ids);
            },
            None => {
                self.players.push(player);
                assert(player_ids(self.players@) =~= ids.push(player.id@));
            },
        }
        Ok(())
    }

    /// Takes a player out of the room. If that leaves the room empty, the room is closed;
    /// otherwise it is set back to the start of a round. Returns the state of the room
    /// afterwards. For a player who is not in the room nothing changes.
    pub fn pop_player(&mut self, player_id: &String) -> (state: RoomState)
        requires
            old(self).wf(),
        ensures
            final(self).wf(),
            state == final(self).room_state,
            !old(self).has_player(player_id@) ==> *final(self) == *old(self),
            old(self).has_player(player_id@) ==> old(self).parts_with(player_id@, *final(self)),
    {
        let ghost ids = player_ids(self.players@);
        match find_player(&self.players, player_id) {
            None => {},
            Some(i) => {
                proof {
                    lemma_index_of(ids, i as int);
                }
                self.players.remove(i);
                assert(player_ids(self.players@) =~= ids.remove(i as int));
                assert(ids.remove(i as int).no_duplicates()) by {
                    let rest = ids.remove(i as int);
                    assert forall|a: int, b: int|
                        0 <= a < rest.len() && 0 <= b < rest.len() && a != b implies rest[a]
                        != rest[b] by {
                        let a0 = if a < i {
                            a
                        } else {
                            a + 1
                        };
                        let b0 = if b < i {
                            b
                        } else {
                            b + 1
                        };
                        assert(rest[a] == ids[a0] && rest[b] == ids[b0]);
                    }
                }
                if self.players.len() == 0 {
                    self.room_state = RoomState::Logout;
                } else {
                    self.reset();
                }
            },
        }
        self.room_state
    }

    /// Applies one action of a player to the board of the room and settles what it came
    /// to. `now` is the time of the action, in seconds on the caller's clock.
    pub fn op(&mut self, player_id: &String, action: &GameAction, now: u64) -> (res: OpResponse)
        requires
            old(self).wf(),
        ensures
            final(self).wf(),
            old(self).acts_to(*player_id, *action, now, *final(self), res),
    {
        let before = self.game_board.n_open;
        let result = self.game_board.handle_operation(action.x, action.y, action.f);
        let opened = self.game_board.n_open - before;
        let ghost moved = *self;
        let ghost outcome = result@;
        assert(old(self).moves_to(*action, moved, outcome));
        self.settle(player_id, result, opened, now)
    }

    /// Settles what an action of the player `player_id` came to: counts the action, the
    /// `opened` cells and the flag for the player, and answers the players. A round that
    /// is lost or won ends here: the room is set back to the start of a round, and the
    /// answer to a round that is won holds the counters and the time the round took.
    pub fn settle(&mut self, player_id: &String, result: OpResult, opened: usize, now: u64) -> (res:
        OpResponse)
        requires
            old(self).wf(),
        ensures
            final(self).wf(),
            old(self).settles_to(*player_id, result@, opened as int, now, *final(self), res),
    {
        let change: i8 = match &result {
            OpResult::Success { cells } => {
                if cells.len() == 1 {
                    match cells[0].status {
                        CellState::Flagged => 1,
                        CellState::Closed => -1,
                        _ => 0,
                    }
                } else {
                    0
                }
            },
            _ => 0,
        };
        assert(change == flag_change(result@));
        self.all_steps = self.all_steps.saturating_add(1);
        self.record(player_id, change, opened);
        match result {
            OpResult::Success { cells } => OpResponse::OpSuccess { cells },
            OpResult::Over { mines, mine, wrong_flags } => {
                self.reset();
                OpResponse::GameOver { all_mines: mines, err_mine: mine, wrong_flags }
            },
            OpResult::Win { mines } => {
                let mut stats: Vec<PlayerStats> = Vec::new();
                std::mem::swap(&mut self.stats, &mut stats);
                assert(stat_ids(self.stats@) =~= Seq::<Seq<char>>::empty());
                let win_info = WinInfo {
                    stats,
                    all_times: now.saturating_sub(self.start_time),
                    all_steps: self.all_steps,
                    all_mines: mines,
                };
                self.reset();
                OpResponse::GameWin { win_info }
            },
        }
    }

    /// Counts one more action for the player `player_id`.
    fn record(&mut self, player_id: &String, flags: i8, opened: usize)
        requires
            old(self).wf(),
            -1 <= flags <= 1,
        ensures
            final(self).wf(),
            final(self).stats@ == recorded(
                old(self).stats@,
                *player_id,
                flags as int,
                opened as int,
            ),
            final(self).room_id == old(self).room_id,
            final(self).players == old(self).players,
            final(self).room_state == old(self).room_state,
            final(self).game_board == old(self).game_board,
            final(self).gconfig == old(self).gconfig,
            final(self).start_time == old(self).start_time,
            final(self).all_steps == old(self).all_steps,
    {
        let opened: u32 = if opened > u32::MAX as usize {
            u32::MAX
        } else {
            opened as u32
        };
        let ghost ids = stat_ids(self.stats@);
        match find_stats(&self.stats, player_id) {
            Some(i) => {
                proof {
                    lemma_index_of(ids, i as int);
                }
                let entry = &self.stats[i];
                let flagged = if flags > 0 {
                    entry.flags.saturating_add(1)
                } else if flags < 0 {
                    entry.flags.saturating_sub(1)
                } else {
                    entry.flags
                };
                let next = PlayerStats {
                    id: entry.id.clone(),
                    steps: entry.steps.saturating_add(1),
                    flags: flagged,
                    opens: entry.opens.saturating_add(opened),
                };
                self.stats.set(i, next);
                assert(stat_ids(self.stats@) =~= ids);
            },
            None => {
                let entry = PlayerStats {
                    id: player_id.clone(),
                    steps: 1,
                    flags: if flags > 0 {
                        1
                    } else {
                        0
                    },
                    opens: opened,
                };
                self.stats.push(entry);
                assert(stat_ids(self.stats@) =~= ids.push(player_id@));
            },
        }
    }

    /// Whether the room is well-formed, found out by looking at all of it.
    pub fn check(&self) -> (ok: bool)
        ensures
            ok == self.wf(),
    {
        if !self.game_board.check() {
            return false;
        }
        if self.game_board.rows != self.gconfig.rows || self.game_board.cols != self.gconfig.cols
            || self.game_board.mines != self.gconfig.mines {
            return false;
        }
        let mut ids: Vec<&String> = Vec::new();
        let mut i: usize = 0;
        while i < self.players.len()
            invariant
                i <= self.players@.len(),
                ids@.len() == i,
                forall|j: int| 0 <= j < i ==> (#[trigger] ids@[j])@ == self.players@[j].id@,
            decreases self.players@.len() - i,
        {
            ids.push(&self.players[i].id);
            i += 1;
        }
        assert(texts(ids@) =~= player_ids(self.players@));
        if !all_differ(&ids) {
            return false;
        }
        let mut ids: Vec<&String> = Vec::new();
        let mut i: usize = 0;
        while i < self.stats.len()
            invariant
                i <= self.stats@.len(),
                ids@.len() == i,
                forall|j: int| 0 <= j < i ==> (#[trigger] ids@[j])@ == self.stats@[j].id@,
            decreases self.stats@.len() - i,
        {
            ids.push(&self.stats[i].id);
            i += 1;
        }
        assert(texts(ids@) =~= stat_ids(self.stats@));
        if !all_differ(&ids) {
            return false;
        }
        if self.players.len() > self.gconfig.n_player {
            return false;
        }
        match self.room_state {
            RoomState::Gameing => self.players.len() == self.gconfig.n_player,
            RoomState::Logout => self.players.len() == 0,
            RoomState::Waiting => true,
        }
    }

    /// `moved` is `self` after the action was applied to its board, with `outcome`.
    pub open spec fn moves_to(&self, action: GameAction, moved: Room, outcome: Outcome) -> bool {
        &&& moved.wf()
        &&& moved.room_id == self.room_id
        &&& moved.players == self.players
        &&& moved.room_state == self.room_state
        &&& moved.gconfig == self.gconfig
        &&& moved.start_time == self.start_time
        &&& moved.all_steps == self.all_steps
        &&& moved.stats == self.stats
        &&& board_step(
            self.game_board@,
            action.x as int,
            action.y as int,
            action.f,
            moved.game_board@,
            outcome,
        )
    }

    /// `after` and `res` are what settling `outcome` for the player `id` makes of `self`.
    pub open spec fn settles_to(
        &self,
        id: String,
        outcome: Outcome,
        opened: int,
        now: u64,
        after: Room,
        res: OpResponse,
    ) -> bool {
        let steps = if self.all_steps < usize::MAX {
            (self.all_steps + 1) as usize
        } else {
            self.all_steps
        };
        let stats = recorded(self.stats@, id, flag_change(outcome), opened);
        match outcome {
            Outcome::Success { cells } => {
                &&& res matches OpResponse::OpSuccess { cells: told }
                &&& told@ == cells
                &&& after.all_steps == steps
                &&& after.stats@ == stats
                &&& after.room_id == self.room_id
                &&& after.players == self.players
                &&& after.room_state == self.room_state
                &&& after.game_board == self.game_board
                &&& after.gconfig == self.gconfig
                &&& after.start_time == self.start_time
            },
            Outcome::Over { mines, mine, wrong_flags } => {
                &&& res matches OpResponse::GameOver { all_mines, err_mine, wrong_flags: wrong }
                &&& all_mines@ == mines
                &&& err_mine == mine
                &&& wrong@ == wrong_flags
                &&& self.is_reset_to(after)
            },
            Outcome::Win { mines } => {
                &&& res matches OpResponse::GameWin { win_info }
                &&& win_info.stats@ == stats
                &&& win_info.all_times == (if now >= self.start_time {
                    (now - self.start_time) as u64
                } else {
                    0
                })
                &&& win_info.all_steps == steps
                &&& win_info.all_mines@ == mines
                &&& self.is_reset_to(after)
            },
        }
    }
}

/// Whether every player is ready.
fn everyone_ready(players: &Vec<Player>) -> (res: bool)
    ensures
        res == all_ready(players@),
{
    let mut i: usize = 0;
    while i < players.len()
        invariant
            i <= players.len(),
            forall|j: int| 0 <= j < i ==> (#[trigger] players@[j]).is_ready,
        decreases players.len() - i,
    {
        if !players[i].is_ready {
            return false;
        }
        i += 1;
    }
    true
}

/// Where the player `id` stands among `players`, if anywhere.
fn find_player(players: &Vec<Player>, id: &String) -> (res: Option<usize>)
    ensures
        match res {
            Some(i) => i < players@.len() && players@[i as int].id@ == id@,
            None => !player_ids(players@).contains(id@),
        },
{
    let mut i: usize = 0;
    while i < players.len()
        invariant
            i <= players.len(),
            forall|j: int| 0 <= j < i ==> (#[trigger] players@[j]).id@ != id@,
        decreases players.len() - i,
    {
        if players[i].id == *id {
            return Some(i);
        }
        i += 1;
    }
    proof {
        let ids = player_ids(players@);
        if ids.contains(id@) {
            let j = choose|j: int| 0 <= j < ids.len() && ids[j] == id@;
            assert(players@[j].id@ == id@);
        }
    }
    None
}

/// Where the entry of the player `id` stands among `stats`, if anywhere.
fn find_stats(stats: &Vec<PlayerStats>, id: &String) -> (res: Option<usize>)
    ensures
        match res {
            Some(i) => i < stats@.len() && stats@[i as int].id@ == id@,
            None => !stat_ids(stats@).contains(id@),
        },
{
    let mut i: usize = 0;
    while i < stats.len()
        invariant
            i <= stats.len(),
            forall|j: int| 0 <= j < i ==> (#[trigger] stats@[j]).id@ != id@,
        decreases stats.len() - i,
    {
        if stats[i].id == *id {
            return Some(i);
        }
        i += 1;
    }
    proof {
        let ids = stat_ids(stats@);
        if ids.contains(id@) {
            let j = choose|j: int| 0 <= j < ids.len() && ids[j] == id@;
            assert(stats@[j].id@ == id@);
        }
    }
    None
}

/// What the strings hold, in order.
pub open spec fn texts(ids: Seq<&String>) -> Seq<Seq<char>> {
    ids.map_values(|s: &String| s@)
}

/// Whether no two of the strings hold the same.
pub fn all_differ(ids: &Vec<&String>) -> (ok: bool)
    ensures
        ok == texts(ids@).no_duplicates(),
{
    let mut i: usize = 0;
    while i < ids.len()
        invariant
            i <= ids@.len(),
            forall|a: int, b: int| 0 <= a < b < i ==> #[trigger] ids@[a]@ != #[trigger] ids@[b]@,
        decreases ids@.len() - i,
    {
        let mut j: usize = 0;
        while j < i
            invariant
                j <= i < ids@.len(),
                forall|a: int| 0 <= a < j ==> (#[trigger] ids@[a])@ != ids@[i as int]@,
            decreases i - j,
        {
            if *ids[j] == *ids[i] {
                assert(texts(ids@)[j as int] == texts(ids@)[i as int]);
                return false;
            }
            j += 1;
        }
        i += 1;
    }
    proof {
        let t = texts(ids@);
        assert forall|a: int, b: int| 0 <= a < t.len() && 0 <= b < t.len() && a != b implies t[a]
            != t[b] by {
            if a < b {
                assert(ids@[a]@ != ids@[b]@);
            } else {
                assert(ids@[b]@ != ids@[a]@);
            }
        }
    }
    true
}

} // verus!
