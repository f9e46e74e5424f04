//! The rooms of the server, found by their id.

use crate::logic::board::ConfigError;
use crate::logic::game::{GameAction, GameConfig, InvalidRequest, Player, ServiceError};
use crate::logic::room::{all_differ, lemma_index_of, texts, OpResponse, Room, RoomState};
use crate::logic::rules::{config_error, Outcome};
use crate::utils::{generate_room_id, room_id_text};
use vstd::prelude::*;

verus! {

/// All open rooms. No two have the same id, and none is closed.
pub struct Registry {
    pub rooms: Vec<Room>,
}

/// What became of a room when a player left it.
#[derive(Debug, Clone, Copy, PartialEq, Eq, Structural)]
pub enum Departure {
    /// There was no such room, or no such player in it: nothing changed.
    Nothing,
    /// The player left; others remain, and the room waits for a new round.
    Left,
    /// The last player left; the room is gone.
    Closed,
}

/// What the players of a room are to be told after a ready flag was set.
#[derive(Debug, Clone, Copy, PartialEq, Eq, Structural)]
pub struct Readied {
    /// Whether the flag itself is announced. It is not in a room for one player.
    pub announce: bool,
    /// The settings of the round, if this started it.
    pub started: Option<GameConfig>,
}

/// The ids of the rooms, in order.
pub open spec fn room_ids(rooms: Seq<Room>) -> Seq<Seq<char>> {
    rooms.map_values(|r: Room| r.room_id@)
}

impl Registry {
    /// No two rooms have the same id, every room is well-formed, and none is closed.
    pub open spec fn wf(&self) -> bool {
        &&& room_ids(self.rooms@).no_duplicates()
        &&& forall|i: int|
            0 <= i < self.rooms@.len() ==> (#[trigger] self.rooms@[i]).wf()
                && self.rooms@[i].room_state != RoomState::Logout
    }

    /// There is a room `id`.
    pub open spec fn has_room(&self, id: Seq<char>) -> bool {
        room_ids(self.rooms@).contains(id)
    }

    /// Where the room `id` stands.
    pub open spec fn position(&self, id: Seq<char>) -> int {
        room_ids(self.rooms@).index_of(id)
    }

    /// The room `id`.
    pub open spec fn room(&self, id: Seq<char>) -> Room {
        self.rooms@[self.position(id)]
    }

    /// The room `id` holds the player `player_id`.
    pub open spec fn has_member(&self, id: Seq<char>, player_id: Seq<char>) -> bool {
        self.has_room(id) && self.room(id).has_player(player_id)
    }

    /// `after` holds the rooms of `self`, of which at most the room `id` has changed.
    pub open spec fn differs_in_room(&self, id: Seq<char>, after: Registry) -> bool {
        &&& after.rooms@.len() == self.rooms@.len()
        &&& after.rooms@[self.position(id)].room_id@ == self.rooms@[self.position(id)].room_id@
        &&& forall|j: int|
            0 <= j < self.rooms@.len() && j != self.position(id) ==> #[trigger] after.rooms@[j]
                == self.rooms@[j]
    }

    /// A registry without rooms.
    pub fn new() -> (registry: Registry)
        ensures
            registry.wf(),
            registry.rooms@.len() == 0,
    {
        let registry = Registry { rooms: Vec::new() };
        assert(room_ids(registry.rooms@) =~= Seq::<Seq<char>>::empty());
        registry
    }

    /// Whether the registry is well-formed, found out by looking at all of it.
    pub fn check(&self) -> (ok: bool)
        ensures
            ok == self.wf(),
    {
        let mut ids: Vec<&String> = Vec::new();
        let mut i: usize = 0;
        while i < self.rooms.len()
            invariant
                i <= self.rooms@.len(),
                ids@.len() == i,
                forall|j: int| 0 <= j < i ==> (#[trigger] ids@[j])@ == self.rooms@[j].room_id@,
                forall|j: int|
                    0 <= j < i ==> (#[trigger] self.rooms@[j]).wf() && self.rooms@[j].room_state
                        != RoomState::Logout,
            decreases self.rooms@.len() - i,
        {
            if !self.rooms[i].check() || self.rooms[i].room_state == RoomState::Logout {
                return false;
            }
            ids.push(&self.rooms[i].room_id);
            i += 1;
        }
        assert(texts(ids@) =~= room_ids(self.rooms@));
        all_differ(&ids)
    }

    /// Where the room `id` stands, if there is one.
    fn find_room(&self, id: &String) -> (res: Option<usize>)
        requires
            self.wf(),
        ensures
            match res {
                Some(i) => self.has_room(id@) && i == self.position(id@) && i < self.rooms@.len(),
                None => !self.has_room(id@),
            },
    {
        let ghost ids = room_ids(self.rooms@);
        let mut i: usize = 0;
        while i < self.rooms.len()
            invariant
                self.wf(),
                ids == room_ids(self.rooms@),
                i <= self.rooms@.len(),
                forall|j: int| 0 <= j < i ==> (#[trigger] self.rooms@[j]).room_id@ != id@,
            decreases self.rooms@.len() - i,
        {
            if self.rooms[i].room_id == *id {
                proof {
                    assert(ids[i as int] == id@);
                    lemma_index_of(ids, i as int);
                }
                return Some(i);
            }
            i += 1;
        }
        proof {
            if ids.contains(id@) {
                let j = choose|j: int| 0 <= j < ids.len() && ids[j] == id@;
                assert(self.rooms@[j].room_id@ == id@);
            }
        }
        None
    }

    /// Makes a room with the given settings and returns its id. A room that had the same id
    /// gives way to the new one.
    ///
    /// Fails where the board cannot be made; the rooms are then left as they were.
    pub fn init_room(&mut self, config: &GameConfig) -> (res: Result<String, ConfigError>)
        requires
            old(self).wf(),
        ensures
            final(self).wf(),
            match res {
                Err(e) => config_error(
                    config.rows as int,
                    config.cols as int,
                    config.mines as int,
                ) == Some(e) && *final(self) == *old(self),
                Ok(id) => {
                    &&& config_error(
                        config.rows as int,
                        config.cols as int,
                        config.mines as int,
                    ).is_none()
                    &&& id@ == room_id_text()
                    &&& final(self).has_room(id@)
                    &&& final(self).room(id@).is_new(id, *config)
                    &&& if old(self).has_room(id@) {
                        old(self).differs_in_room(id@, *final(self))
                    } else {
                        final(self).rooms@.drop_last() == old(self).rooms@
                    }
                },
            },
    {
        let room_id = generate_room_id();
        let room = match Room::new(room_id.clone(), *config) {
            Ok(room) => room,
            Err(e) => {
                return Err(e);
            },
        };
        let ghost ids = room_ids(self.rooms@);
        match self.find_room(&room_id) {
            Some(i) => {
                self.rooms.set(i, room);
                proof {
                    assert(room_ids(self.rooms@) =~= ids);
                    lemma_index_of(ids, i as int);
                    assert(self.rooms@[i as int] == room);
                    assert forall|j: int| 0 <= j < self.rooms@.len() implies (
                    #[trigger] self.rooms@[j]).wf() && self.rooms@[j].room_state
                        != RoomState::Logout by {
                        if j != i {
                            assert(self.rooms@[j] == old(self).rooms@[j]);
                        }
                    }
                }
            },
            None => {
                self.rooms.push(room);
                proof {
                    let now = room_ids(self.rooms@);
                    assert(now =~= ids.push(room_id@));
                    assert(now.no_duplicates()) by {
                        assert forall|a: int, b: int|
                            0 <= a < now.len() && 0 <= b < now.len() && a != b implies now[a]
                            != now[b] by {
                            if a < ids.len() && b < ids.len() {
                                assert(ids[a] != ids[b]);
                            } else if a < ids.len() {
                                assert(ids.contains(ids[a]));
                            } else {
                                assert(ids.contains(ids[b]));
                            }
                        }
                    }
                    lemma_index_of(now, now.len() - 1);
                    assert(self.rooms@[now.len() - 1] == room);
                    assert(self.rooms@.drop_last() =~= old(self).rooms@);
                    assert forall|j: int| 0 <= j < self.rooms@.len() implies (
                    #[trigger] self.rooms@[j]).wf() && self.rooms@[j].room_state
                        != RoomState::Logout by {
                        if j < ids.len() {
                            assert(self.rooms@[j] == old(self).rooms@[j]);
                        }
                    }
                }
            },
        }
        Ok(room_id)
    }

    /// Lets a player into a room and returns the players who were in it before.
    ///
    /// Fails with `RoomNotExist` if there is no such room, and with `RoomIsFulled` if the
    /// room is full; the rooms are then left as they were.
    pub fn join_room(&mut self, room_id: &String, player: &Player) -> (res: Result<
        Vec<Player>,
        InvalidRequest,
    >)
        requires
            old(self).wf(),
        ensures
            final(self).wf(),
            match res {
                Err(e) => {
                    &&& *final(self) == *old(self)
                    &&& e == (if !old(self).has_room(room_id@) {
                        InvalidRequest::RoomNotExist
                    } else {
                        InvalidRequest::RoomIsFulled
                    })
                    &&& !old(self).has_room(room_id@) || old(self).room(room_id@).players@.len()
                        == old(self).room(room_id@).gconfig.n_player
                },
                Ok(present) => {
                    &&& old(self).has_room(room_id@)
                    &&& old(self).room(room_id@).players@.len() < old(self).room(
                        room_id@,
                    ).gconfig.n_player
                    &&& present@ == old(self).room(room_id@).players@
                    &&& old(self).differs_in_room(room_id@, *final(self))
                    &&& old(self).room(room_id@).admits(*player, final(self).room(room_id@))
                },
            },
    {
        let ghost ids = room_ids(self.rooms@);
        let i = match self.find_room(room_id) {
            Some(i) => i,
            None => {
                return Err(InvalidRequest::RoomNotExist);
            },
        };
        if self.rooms[i].is_full() {
            return Err(InvalidRequest::RoomIsFulled);
        }
        let present = self.rooms[i].players.clone();
        assert(present@ =~= self.rooms@[i as int].players@);
        let _ = self.rooms[i].add_player(player.clone());
        proof {
            assert(room_ids(self.rooms@) =~= ids);
        }
        Ok(present)
    }

    /// Takes a player out of a room, and the room out of the registry if that leaves
    /// it empty.
    pub fn leave_room(&mut self, room_id: &String, player_id: &String) -> (res: Departure)
        requires
            old(self).wf(),
        ensures
            final(self).wf(),
            if !old(self).has_member(room_id@, player_id@) {
                res == Departure::Nothing && *final(self) == *old(self)
            } else if old(self).room(room_id@).others(player_id@).len() == 0 {
                res == Departure::Closed && final(self).rooms@ == old(self).rooms@.remove(
                    old(self).position(room_id@),
                )
            } else {
                &&& res == Departure::Left
                &&& old(self).differs_in_room(room_id@, *final(self))
                &&& old(self).room(room_id@).parts_with(player_id@, final(self).room(room_id@))
            },
    {
        let ghost ids = room_ids(self.rooms@);
        let i = match self.find_room(room_id) {
            Some(i) => i,
            None => {
                return Departure::Nothing;
            },
        };
        if !self.rooms[i].is_member(player_id) {
            return Departure::Nothing;
        }
        let state = self.rooms[i].pop_player(player_id);
        match state {
            RoomState::Logout => {
                self.rooms.remove(i);
                proof {
                    let rest = ids.remove(i as int);
                    assert(room_ids(self.rooms@) =~= rest);
                    assert forall|a: int, b: int|
                        0 <= a < rest.len() && 0 <= b < rest.len() && a != b implies rest[a]
                        != rest[b] by {
                        let a0 = if a < i {
                            a
                        } else {
                            a + 1
                        };
                        let b0 = if b < i {
                            b
                        } else {
                            b + 1
                        };
                        assert(rest[a] == ids[a0] && rest[b] == ids[b0]);
                    }
                    assert forall|j: int| 0 <= j < self.rooms@.len() implies (
                    #[trigger] self.rooms@[j]).wf() && self.rooms@[j].room_state
                        != RoomState::Logout by {
                        let j0 = if j < i {
                            j
                        } else {
                            j + 1
                        };
                        assert(self.rooms@[j] == old(self).rooms@[j0]);
                    }
                    assert(self.rooms@ =~= old(self).rooms@.remove(i as int));
                }
                Departure::Closed
            },
            _ => {
                proof {
                    assert(room_ids(self.rooms@) =~= ids);
                }
                Departure::Left
            },
        }
    }

    /// Sets or clears the ready flag of a player, and starts the round at the time `now`
    /// once the room is full and everyone in it is ready.
    ///
    /// Fails with `RoomOrPlayerLost` if there is no such room or no such player in it; the
    /// rooms are then left as they were.
    pub fn set_player_status(
        &mut self,
        room_id: &String,
        player_id: &String,
        is_ready: bool,
        now: u64,
    ) -> (res: Result<Readied, ServiceError>)
        requires
            old(self).wf(),
        ensures
            final(self).wf(),
            match res {
                Err(e) => {
                    &&& e == ServiceError::RoomOrPlayerLost
                    &&& !old(self).has_member(room_id@, player_id@)
                    &&& *final(self) == *old(self)
                },
                Ok(told) => {
                    let before = old(self).room(room_id@);
                    let after = final(self).room(room_id@);
                    let started = before.room_state != RoomState::Gameing && after.room_state
                        == RoomState::Gameing;
                    &&& old(self).has_member(room_id@, player_id@)
                    &&& old(self).differs_in_room(room_id@, *final(self))
                    &&& before.readies(
                        player_id@,
                        is_ready,
                        Room { start_time: before.start_time, ..after },
                    )
                    &&& after.start_time == (if started {
                        now
                    } else {
                        before.start_time
                    })
                    &&& told.announce == (before.gconfig.n_player != 1)
                    &&& told.started == (if started {
                        Some(before.gconfig)
                    } else {
                        None
                    })
                },
            },
    {
        let ghost ids = room_ids(self.rooms@);
        let i = match self.find_room(room_id) {
            Some(i) => i,
            None => {
                return Err(ServiceError::RoomOrPlayerLost);
            },
        };
        if !self.rooms[i].is_member(player_id) {
            return Err(ServiceError::RoomOrPlayerLost);
        }
        let was = self.rooms[i].room_state;
        let state = self.rooms[i].set_player_status(player_id, is_ready);
        let started = was != RoomState::Gameing && state == RoomState::Gameing;
        if started {
            self.rooms[i].start_game(now);
        }
        proof {
            assert(room_ids(self.rooms@) =~= ids);
        }
        let config = self.rooms[i].gconfig;
        Ok(
            Readied {
                announce: config.n_player != 1,
                started: if started {
                    Some(config)
                } else {
                    None
                },
            },
        )
    }

    /// Applies one action of a player to the board of the player's room, at the time `now`.
    ///
    /// Fails with `RoomOrPlayerLost` if there is no such room or no such player in it; the
    /// rooms are then left as they were.
    pub fn handle_action(
        &mut self,
        room_id: &String,
        player_id: &String,
        action: &GameAction,
        now: u64,
    ) -> (res: Result<OpResponse, ServiceError>)
        requires
            old(self).wf(),
        ensures
            final(self).wf(),
            match res {
                Err(e) => {
                    &&& e == ServiceError::RoomOrPlayerLost
                    &&& !old(self).has_member(room_id@, player_id@)
                    &&& *final(self) == *old(self)
                },
                Ok(told) => {
                    &&& old(self).has_member(room_id@, player_id@)
                    &&& old(self).differs_in_room(room_id@, *final(self))
                    &&& old(self).room(room_id@).acts_to(
                        *player_id,
                        *action,
                        now,
                        final(self).room(room_id@),
                        told,
                    )
                },
            },
    {
        let ghost ids = room_ids(self.rooms@);
        let i = match self.find_room(room_id) {
            Some(i) => i,
            None => {
                return Err(ServiceError::RoomOrPlayerLost);
            },
        };
        if !self.rooms[i].is_member(player_id) {
            return Err(ServiceError::RoomOrPlayerLost);
        }
        let ghost before = self.rooms@[i as int];
        let told = self.rooms[i].op(player_id, action, now);
        proof {
            let after = self.rooms@[i as int];
            let (moved, outcome) = choose|moved: Room, outcome: Outcome|
                {
                    &&& #[trigger] before.moves_to(*action, moved, outcome)
                    &&& moved.settles_to(
                        *player_id,
                        outcome,
                        moved.game_board.n_open - before.game_board.n_open,
                        now,
                        after,
                        told,
                    )
                };
            assert(after.room_id == before.room_id);
            assert(after.room_state != RoomState::Logout);
            assert(room_ids(self.rooms@) =~= ids);
        }
        Ok(told)
    }
}

} // verus!
