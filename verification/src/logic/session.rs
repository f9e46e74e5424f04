//! The rules of one connection: what each request does to the rooms, and what is to be
//! sent to whom. The caller reads requests from the connection and carries out the effects.

use crate::logic::game::{
    joined, ApplicationError, GameConfig, InvalidRequest, Player, RequestModel, ResponseModel,
    ServiceError,
};
use crate::logic::registry::{room_ids, Departure, Registry};
use crate::logic::room::{Room, RoomState};
use crate::logic::rules::{config_error, one_if};
use crate::utils::room_id_text;
use vstd::prelude::*;

verus! {

/// What one connection knows of itself.
pub struct Session {
    /// The sending half of the connection has not been handed to a room yet.
    pub has_sender: bool,
    /// The player of this connection, once it has asked to enter a room.
    pub player: Option<Player>,
    /// The room that this connection has asked to enter.
    pub room_id: Option<String>,
}

/// One thing for the caller to do.
#[derive(Debug, PartialEq, Eq)]
pub enum Effect {
    /// Make the broadcast channel of a room.
    OpenChannel { room_id: String },
    /// Drop the broadcast channel of a room.
    CloseChannel { room_id: String },
    /// Send a message to this connection only.
    Reply { message: ResponseModel },
    /// Send a message to every connection that has entered the room.
    Broadcast { room_id: String, message: ResponseModel },
    /// Hand the sending half of this connection to the room: from now on it gets what is
    /// broadcast there.
    Subscribe { room_id: String },
    /// Close this connection.
    Close,
}

/// What handling a request came to: the effects, in order, and whether the session goes on.
#[derive(Debug, PartialEq, Eq)]
pub struct Step {
    pub effects: Vec<Effect>,
    pub result: Result<(), ApplicationError>,
}

/// The words sent to a player who asks to enter a full room.
pub open spec fn full_text(room_id: Seq<char>, player: Player) -> Seq<char> {
    "Room "@ + room_id + " is already full,"@ + player.text()
}

/// The words sent to a player who asks to enter a room that is not there.
pub open spec fn missing_text(room_id: Seq<char>, player: Player) -> Seq<char> {
    "Room "@ + room_id + " does not exist,"@ + player.text()
}

/// `e` tells this connection that its request was refused, in the words `text`.
pub open spec fn is_refusal(e: Effect, text: Seq<char>) -> bool {
    e matches Effect::Reply { message: ResponseModel::InvalidRequest { error } } && error@ == text
}

/// `e` tells this connection that it has entered the room, and who was there.
pub open spec fn is_welcome(e: Effect, room_id: Seq<char>, present: Seq<Player>) -> bool {
    e matches Effect::Reply { message: ResponseModel::JoinSuccess { players, room_id: id } }
        && players@ == present && id@ == room_id
}

/// `e` tells the room that the player has entered.
pub open spec fn is_arrival(e: Effect, room_id: Seq<char>, who: Player) -> bool {
    e matches Effect::Broadcast { room_id: id, message: ResponseModel::PlayerJoin { player } }
        && id@ == room_id && player == who
}

/// `e` tells the room that the player has left.
pub open spec fn is_farewell(e: Effect, room_id: Seq<char>, who: Seq<char>) -> bool {
    e matches Effect::Broadcast { room_id: id, message: ResponseModel::PlayerLeft { player_id } }
        && id@ == room_id && player_id@ == who
}

/// `e` tells the room that the player has set or cleared the ready flag.
pub open spec fn is_ready_notice(e: Effect, room_id: Seq<char>, who: Seq<char>, ready: bool) -> bool {
    e matches Effect::Broadcast {
        room_id: id,
        message: ResponseModel::PlayerStatusSet { player_id, is_ready },
    } && id@ == room_id && player_id@ == who && is_ready == ready
}

/// `e` tells the room that the round has started.
pub open spec fn is_start_notice(e: Effect, room_id: Seq<char>, settings: GameConfig) -> bool {
    e matches Effect::Broadcast { room_id: id, message: ResponseModel::GameStart { config } }
        && id@ == room_id && config == settings
}

/// `e` hands this connection to the room.
pub open spec fn is_subscription(e: Effect, room_id: Seq<char>) -> bool {
    e matches Effect::Subscribe { room_id: id } && id@ == room_id
}

/// `e` makes the channel of the room.
pub open spec fn is_opening(e: Effect, room_id: Seq<char>) -> bool {
    e matches Effect::OpenChannel { room_id: id } && id@ == room_id
}

/// `e` drops the channel of the room.
pub open spec fn is_closing(e: Effect, room_id: Seq<char>) -> bool {
    e matches Effect::CloseChannel { room_id: id } && id@ == room_id
}

impl Session {
    /// The session of a connection that has just been made.
    pub fn new() -> (session: Session)
        ensures
            session.has_sender,
            session.player.is_none(),
            session.room_id.is_none(),
    {
        Session { has_sender: true, player: None, room_id: None }
    }

    /// The session has asked to enter a room, as the player `player_id` of the room
    /// `room_id`.
    pub open spec fn is_bound_to(&self, room_id: Seq<char>, player_id: Seq<char>) -> bool {
        &&& self.room_id matches Some(id)
        &&& id@ == room_id
        &&& self.player matches Some(p)
        &&& p.id@ == player_id
    }

    /// The session has asked to enter a room.
    pub open spec fn is_bound(&self) -> bool {
        self.room_id.is_some() && self.player.is_some()
    }

    /// `effects` are what is to be done when the player of this session leaves its room:
    /// nothing if the session has no room or the player is not in it, else a word to the
    /// players who stay, or the end of the room's channel if nobody stays.
    pub open spec fn leaves(&self, before: Registry, after: Registry, effects: Seq<Effect>) -> bool {
        if self.is_bound() {
            let room_id = self.room_id.unwrap()@;
            let player_id = self.player.unwrap().id@;
            if !before.has_member(room_id, player_id) {
                after == before && effects.len() == 0
            } else if before.room(room_id).others(player_id).len() == 0 {
                &&& after.rooms@ == before.rooms@.remove(before.position(room_id))
                &&& effects.len() == 1
                &&& is_closing(effects[0], room_id)
            } else {
                &&& before.differs_in_room(room_id, after)
                &&& before.room(room_id).parts_with(player_id, after.room(room_id))
                &&& effects.len() == 1
                &&& is_farewell(effects[0], room_id, player_id)
            }
        } else {
            after == before && effects.len() == 0
        }
    }

    /// Takes the player of this session out of its room, when the connection ends.
    pub fn leave(&self, registry: &mut Registry) -> (effects: Vec<Effect>)
        requires
            old(registry).wf(),
        ensures
            final(registry).wf(),
            self.leaves(*old(registry), *final(registry), effects@),
    {
        let mut effects: Vec<Effect> = Vec::new();
        match (&self.room_id, &self.player) {
            (Some(room_id), Some(player)) => {
                match registry.leave_room(room_id, &player.id) {
                    Departure::Nothing => {},
                    Departure::Closed => {
                        effects.push(Effect::CloseChannel { room_id: room_id.clone() });
                    },
                    Departure::Left => {
                        effects.push(
                            Effect::Broadcast {
                                room_id: room_id.clone(),
                                message: ResponseModel::PlayerLeft { player_id: player.id.clone() },
                            },
                        );
                    },
                }
            },
            _ => {},
        }
        effects
    }

    /// What a request to enter the room `room_id` as `player` comes to.
    ///
    /// Where the room is not there or is full, the player is told so and the connection is
    /// closed. Otherwise the player is in the room, is told who was there, the room is
    /// told who came, and the connection is handed to the room.
    pub open spec fn enters(
        before: Registry,
        room_id: Seq<char>,
        player: Player,
        after: Registry,
        effects: Seq<Effect>,
        result: Result<(), ApplicationError>,
    ) -> bool {
        if !before.has_room(room_id) {
            &&& after == before
            &&& result == Err::<(), ApplicationError>(
                ApplicationError::InvalidRequest(InvalidRequest::RoomNotExist),
            )
            &&& effects.len() == 2
            &&& is_refusal(effects[0], missing_text(room_id, player))
            &&& effects[1] is Close
        } else if before.room(room_id).players@.len() == before.room(room_id).gconfig.n_player {
            &&& after == before
            &&& result == Err::<(), ApplicationError>(
                ApplicationError::InvalidRequest(InvalidRequest::RoomIsFulled),
            )
            &&& effects.len() == 2
            &&& is_refusal(effects[0], full_text(room_id, player))
            &&& effects[1] is Close
        } else {
            &&& before.differs_in_room(room_id, after)
            &&& before.room(room_id).admits(player, after.room(room_id))
            &&& result is Ok
            &&& effects.len() == 3
            &&& is_welcome(effects[0], room_id, before.room(room_id).players@)
            &&& is_arrival(effects[1], room_id, player)
            &&& is_subscription(effects[2], room_id)
        }
    }

    /// What a request to make a room with the settings `config` and to enter it as `player`
    /// comes to.
    ///
    /// Where the board cannot be made, the player is told so and the connection is closed.
    /// Otherwise the room is made, in the place of a room that had the same id if there was
    /// one, and its channel with it; then the player enters it.
    pub open spec fn creates(
        before: Registry,
        player: Player,
        config: GameConfig,
        after: Registry,
        effects: Seq<Effect>,
        result: Result<(), ApplicationError>,
    ) -> bool {
        let id = room_id_text();
        match config_error(config.rows as int, config.cols as int, config.mines as int) {
            Some(e) => {
                &&& after == before
                &&& result == Err::<(), ApplicationError>(ApplicationError::ConfigError(e))
                &&& effects.len() == 2
                &&& is_refusal(effects[0], e.text())
                &&& effects[1] is Close
            },
            None => {
                &&& after.has_room(id)
                &&& if before.has_room(id) {
                    before.differs_in_room(id, after)
                } else {
                    after.rooms@.drop_last() == before.rooms@
                }
                &&& effects.len() >= 1
                &&& is_opening(effects[0], id)
                &&& if config.n_player == 0 {
                    &&& after.room(id).is_new_with(
                        after.room(id).room_id,
                        config,
                        Seq::<Player>::empty(),
                    )
                    &&& result == Err::<(), ApplicationError>(
                        ApplicationError::InvalidRequest(InvalidRequest::RoomIsFulled),
                    )
                    &&& effects.len() == 3
                    &&& is_refusal(effects[1], full_text(id, player))
                    &&& effects[2] is Close
                } else {
                    &&& after.room(id).is_new_with(after.room(id).room_id, config, seq![player])
                    &&& result is Ok
                    &&& effects.len() == 4
                    &&& is_welcome(effects[1], id, Seq::<Player>::empty())
                    &&& is_arrival(effects[2], id, player)
                    &&& is_subscription(effects[3], id)
                }
            },
        }
    }

    /// What handling a request comes to: the session and the rooms afterwards, the effects
    /// and the result.
    ///
    /// A request that could not be read is answered with the reader's words, the connection
    /// is closed and the player leaves the room. A request to make or to enter a room needs
    /// the sending half of the connection, which is then used up, and a session that has
    /// asked for no room yet. An action or a ready flag needs a session that has asked for
    /// a room; its outcome is told to the room.
    pub open spec fn handles(
        &self,
        before: Registry,
        request: Result<RequestModel, String>,
        now: u64,
        session: Session,
        after: Registry,
        step: Step,
    ) -> bool {
        let effects = step.effects@;
        let result = step.result;
        match request {
            Err(words) => {
                &&& !session.has_sender
                &&& session.player == self.player
                &&& session.room_id == self.room_id
                &&& result == Err::<(), ApplicationError>(
                    ApplicationError::InvalidRequest(InvalidRequest::InvalidMessage),
                )
                &&& if self.has_sender {
                    &&& effects.len() >= 2
                    &&& is_refusal(effects[0], words@)
                    &&& effects[1] is Close
                    &&& self.leaves(before, after, effects.skip(2))
                } else {
                    self.leaves(before, after, effects)
                }
            },
            Ok(RequestModel::RoomCreate { player, config }) => {
                if !self.has_sender {
                    &&& session == *self
                    &&& after == before
                    &&& effects.len() == 0
                    &&& result == Err::<(), ApplicationError>(
                        ApplicationError::ServiceError(ServiceError::AbnormalDisconnection),
                    )
                } else if self.player.is_some() || self.room_id.is_some() {
                    &&& !session.has_sender
                    &&& session.player == self.player
                    &&& session.room_id == self.room_id
                    &&& after == before
                    &&& effects.len() == 1
                    &&& effects[0] is Close
                    &&& result == Err::<(), ApplicationError>(
                        ApplicationError::ServiceError(ServiceError::RoomStillExists),
                    )
                } else {
                    &&& !session.has_sender
                    &&& Self::creates(before, player, config, after, effects, result)
                    &&& if config_error(
                        config.rows as int,
                        config.cols as int,
                        config.mines as int,
                    ).is_some() {
                        session.player.is_none() && session.room_id.is_none()
                    } else {
                        session.player == Some(player) && session.is_bound_to(
                            room_id_text(),
                            player.id@,
                        )
                    }
                }
            },
            Ok(RequestModel::RoomJoin { room_id, player }) => {
                if !self.has_sender {
                    &&& session == *self
                    &&& after == before
                    &&& effects.len() == 0
                    &&& result == Err::<(), ApplicationError>(
                        ApplicationError::ServiceError(ServiceError::AbnormalDisconnection),
                    )
                } else if self.player.is_some() || self.room_id.is_some() {
                    &&& !session.has_sender
                    &&& session.player == self.player
                    &&& session.room_id == self.room_id
                    &&& after == before
                    &&& effects.len() == 1
                    &&& effects[0] is Close
                    &&& result == Err::<(), ApplicationError>(
                        ApplicationError::ServiceError(ServiceError::RoomStillExists),
                    )
                } else {
                    &&& !session.has_sender
                    &&& session.player == Some(player)
                    &&& session.room_id == Some(room_id)
                    &&& Self::enters(before, room_id@, player, after, effects, result)
                }
            },
            Ok(RequestModel::PlayerOperation { action }) => {
                &&& session == *self
                &&& if !self.is_bound() || !before.has_member(
                    self.room_id.unwrap()@,
                    self.player.unwrap().id@,
                ) {
                    &&& after == before
                    &&& effects.len() == 0
                    &&& result == Err::<(), ApplicationError>(
                        ApplicationError::ServiceError(ServiceError::RoomOrPlayerLost),
                    )
                } else {
                    let room_id = self.room_id.unwrap()@;
                    &&& result is Ok
                    &&& before.differs_in_room(room_id, after)
                    &&& effects.len() == 1
                    &&& effects[0] matches Effect::Broadcast {
                        room_id: id,
                        message: ResponseModel::GameOpRes { player_id, op_res },
                    }
                    &&& id@ == room_id
                    &&& player_id == self.player.unwrap().id
                    &&& before.room(room_id).acts_to(
                        self.player.unwrap().id,
                        action,
                        now,
                        after.room(room_id),
                        op_res,
                    )
                }
            },
            Ok(RequestModel::PlayerStatusSet { is_ready }) => {
                &&& session == *self
                &&& if !self.is_bound() || !before.has_member(
                    self.room_id.unwrap()@,
                    self.player.unwrap().id@,
                ) {
                    &&& after == before
                    &&& effects.len() == 0
                    &&& result == Err::<(), ApplicationError>(
                        ApplicationError::ServiceError(ServiceError::RoomOrPlayerLost),
                    )
                } else {
                    let room_id = self.room_id.unwrap()@;
                    let player_id = self.player.unwrap().id@;
                    let room = before.room(room_id);
                    let next = after.room(room_id);
                    let started = room.room_state != RoomState::Gameing && next.room_state
                        == RoomState::Gameing;
                    let announce = room.gconfig.n_player != 1;
                    &&& result is Ok
                    &&& before.differs_in_room(room_id, after)
                    &&& room.readies(player_id, is_ready, Room { start_time: room.start_time, ..next })
                    &&& next.start_time == (if started {
                        now
                    } else {
                        room.start_time
                    })
                    &&& effects.len() == one_if(announce) + one_if(started)
                    &&& announce ==> is_ready_notice(effects[0], room_id, player_id, is_ready)
                    &&& started ==> is_start_notice(effects[one_if(announce)], room_id, room.gconfig)
                }
            },
        }
    }

    /// Handles one request of the connection, read by the caller: `Err` holds the reader's
    /// words for a request that could not be read. `now` is the time, in seconds on the
    /// caller's clock. A step that fails ends the session.
    pub fn handle_message(
        &mut self,
        registry: &mut Registry,
        request: Result<RequestModel, String>,
        now: u64,
    ) -> (step: Step)
        requires
            old(registry).wf(),
        ensures
            final(registry).wf(),
            old(self).handles(*old(registry), request, now, *final(self), *final(registry), step),
    {
        match request {
            Err(words) => {
                let mut effects: Vec<Effect> = Vec::new();
                if self.has_sender {
                    self.has_sender = false;
                    effects.push(Effect::Reply { message: ResponseModel::InvalidRequest { error: words } });
                    effects.push(Effect::Close);
                }
                let mut parting = self.leave(registry);
                let ghost left = parting@;
                effects.append(&mut parting);
                proof {
                    if old(self).has_sender {
                        assert(effects@.skip(2) =~= left);
                    } else {
                        assert(effects@ =~= left);
                    }
                }
                Step {
                    effects,
                    result: Err(ApplicationError::InvalidRequest(InvalidRequest::InvalidMessage)),
                }
            },
            Ok(RequestModel::RoomCreate { player, config }) => {
                match self.take_sender() {
                    Some(step) => step,
                    None => self.create(registry, player, config),
                }
            },
            Ok(RequestModel::RoomJoin { room_id, player }) => {
                match self.take_sender() {
                    Some(step) => step,
                    None => {
                        let step = enter(registry, &room_id, &player, Vec::new());
                        self.player = Some(player);
                        self.room_id = Some(room_id);
                        step
                    },
                }
            },
            Ok(RequestModel::PlayerOperation { action }) => {
                let mut effects: Vec<Effect> = Vec::new();
                match (&self.room_id, &self.player) {
                    (Some(room_id), Some(player)) => {
                        match registry.handle_action(room_id, &player.id, &action, now) {
                            Ok(op_res) => {
                                effects.push(
                                    Effect::Broadcast {
                                        room_id: room_id.clone(),
                                        message: ResponseModel::GameOpRes {
                                            player_id: player.id.clone(),
                                            op_res,
                                        },
                                    },
                                );
                                Step { effects, result: Ok(()) }
                            },
                            Err(e) => Step {
                                effects,
                                result: Err(ApplicationError::ServiceError(e)),
                            },
                        }
                    },
                    _ => Step {
                        effects,
                        result: Err(
                            ApplicationError::ServiceError(ServiceError::RoomOrPlayerLost),
                        ),
                    },
                }
            },
            Ok(RequestModel::PlayerStatusSet { is_ready }) => {
                let mut effects: Vec<Effect> = Vec::new();
                match (&self.room_id, &self.player) {
                    (Some(room_id), Some(player)) => {
                        match registry.set_player_status(room_id, &player.id, is_ready, now) {
                            Ok(told) => {
                                if told.announce {
                                    effects.push(
                                        Effect::Broadcast {
                                            room_id: room_id.clone(),
                                            message: ResponseModel::PlayerStatusSet {
                                                player_id: player.id.clone(),
                                                is_ready,
                                            },
                                        },
                                    );
                                }
                                match told.started {
                                    Some(config) => {
                                        effects.push(
                                            Effect::Broadcast {
                                                room_id: room_id.clone(),
                                                message: ResponseModel::GameStart { config },
                                            },
                                        );
                                    },
                                    None => {},
                                }
                                Step { effects, result: Ok(()) }
                            },
                            Err(e) => Step {
                                effects,
                                result: Err(ApplicationError::ServiceError(e)),
                            },
                        }
                    },
                    _ => Step {
                        effects,
                        result: Err(
                            ApplicationError::ServiceError(ServiceError::RoomOrPlayerLost),
                        ),
                    },
                }
            },
        }
    }

    /// Uses up the sending half of the connection for a request to make or to enter a
    /// room. Returns the step that refuses the request, if it is to be refused.
    fn take_sender(&mut self) -> (refused: Option<Step>)
        ensures
            final(self).player == old(self).player,
            final(self).room_id == old(self).room_id,
            final(self).has_sender == false,
            match refused {
                Some(step) => if !old(self).has_sender {
                    &&& step.effects@.len() == 0
                    &&& step.result == Err::<(), ApplicationError>(
                        ApplicationError::ServiceError(ServiceError::AbnormalDisconnection),
                    )
                } else {
                    &&& old(self).player.is_some() || old(self).room_id.is_some()
                    &&& step.effects@.len() == 1
                    &&& step.effects@[0] is Close
                    &&& step.result == Err::<(), ApplicationError>(
                        ApplicationError::ServiceError(ServiceError::RoomStillExists),
                    )
                },
                None => old(self).has_sender && old(self).player.is_none() && old(
                    self,
                ).room_id.is_none(),
            },
    {
        let mut effects: Vec<Effect> = Vec::new();
        if !self.has_sender {
            return Some(
                Step {
                    effects,
                    result: Err(
                        ApplicationError::ServiceError(ServiceError::AbnormalDisconnection),
                    ),
                },
            );
        }
        self.has_sender = false;
        if self.player.is_some() || self.room_id.is_some() {
            effects.push(Effect::Close);
            return Some(
                Step {
                    effects,
                    result: Err(ApplicationError::ServiceError(ServiceError::RoomStillExists)),
                },
            );
        }
        None
    }

    /// Makes a room and enters it.
    fn create(&mut self, registry: &mut Registry, player: Player, config: GameConfig) -> (step:
        Step)
        requires
            old(registry).wf(),
            old(self).player.is_none(),
            old(self).room_id.is_none(),
        ensures
            final(registry).wf(),
            final(self).has_sender == old(self).has_sender,
            Self::creates(
                *old(registry),
                player,
                config,
                *final(registry),
                step.effects@,
                step.result,
            ),
            if config_error(config.rows as int, config.cols as int, config.mines as int).is_some() {
                final(self).player.is_none() && final(self).room_id.is_none()
            } else {
                final(self).player == Some(player) && final(self).is_bound_to(
                    room_id_text(),
                    player.id@,
                )
            },
    {
        let mut effects: Vec<Effect> = Vec::new();
        match registry.init_room(&config) {
            Err(e) => {
                effects.push(
                    Effect::Reply { message: ResponseModel::InvalidRequest { error: e.message() } },
                );
                effects.push(Effect::Close);
                Step { effects, result: Err(ApplicationError::ConfigError(e)) }
            },
            Ok(room_id) => {
                let ghost made = *registry;
                effects.push(Effect::OpenChannel { room_id: room_id.clone() });
                let ghost opening = effects@;
                let step = enter(registry, &room_id, &player, effects);
                proof {
                    let id = room_id_text();
                    assert(step.effects@[0] == step.effects@.take(1)[0]);
                    assert(step.effects@[0] == opening[0]);
                    assert forall|k: int| 0 <= k < step.effects@.len() - 1 implies step.effects@.skip(
                        1,
                    )[k] == step.effects@[k + 1] by {}
                    let room = made.room(id);
                    let next = registry.room(id);
                    let ids = room_ids(made.rooms@);
                    let at = made.position(id);
                    assert(0 <= at < ids.len() && ids[at] == id);
                    assert(registry.rooms@.len() == made.rooms@.len());
                    assert(room_ids(registry.rooms@) =~= ids) by {
                        assert forall|j: int| 0 <= j < ids.len() implies registry.rooms@[j].room_id@
                            == made.rooms@[j].room_id@ by {
                            if j != at {
                                assert(registry.rooms@[j] == made.rooms@[j]);
                            }
                        }
                    }
                    assert(registry.position(id) == at);
                    if config.n_player != 0 {
                        assert(!room.has_player(player.id@));
                        assert(next.players@ =~= seq![player]);
                        assert(next.game_board == room.game_board);
                    }
                    if old(registry).has_room(id) {
                        let was = room_ids(old(registry).rooms@);
                        assert(ids =~= was) by {
                            assert forall|j: int| 0 <= j < was.len() implies made.rooms@[j].room_id@
                                == old(registry).rooms@[j].room_id@ by {
                                if j != old(registry).position(id) {
                                    assert(made.rooms@[j] == old(registry).rooms@[j]);
                                }
                            }
                        }
                        assert(old(registry).position(id) == at);
                        assert forall|j: int|
                            0 <= j < old(registry).rooms@.len() && j != at implies #[trigger] registry.rooms@[j]
                            == old(registry).rooms@[j] by {
                            assert(registry.rooms@[j] == made.rooms@[j]);
                            assert(made.rooms@[j] == old(registry).rooms@[j]);
                        }
                    } else {
                        let was = room_ids(old(registry).rooms@);
                        assert(made.rooms@.drop_last() == old(registry).rooms@);
                        if at < ids.len() - 1 {
                            assert(made.rooms@.drop_last()[at] == made.rooms@[at]);
                            assert(was[at] == id);
                            assert(was.contains(id));
                        }
                        assert(at == ids.len() - 1);
                        assert(registry.rooms@.drop_last() =~= made.rooms@.drop_last()) by {
                            assert forall|j: int| 0 <= j < ids.len() - 1 implies registry.rooms@[j]
                                == made.rooms@[j] by {}
                        }
                    }
                }
                self.player = Some(player);
                self.room_id = Some(room_id);
                step
            },
        }
    }
}

/// Lets the player into the room and says what is to be sent. `effects` holds what the
/// request has come to so far.
fn enter(registry: &mut Registry, room_id: &String, player: &Player, effects: Vec<Effect>) -> (step:
    Step)
    requires
        old(registry).wf(),
    ensures
        final(registry).wf(),
        step.effects@.len() >= effects@.len(),
        step.effects@.take(effects@.len() as int) == effects@,
        Session::enters(
            *old(registry),
            room_id@,
            *player,
            *final(registry),
            step.effects@.skip(effects@.len() as int),
            step.result,
        ),
{
    let mut effects = effects;
    let ghost sent = effects@;
    match registry.join_room(room_id, player) {
        Ok(present) => {
            effects.push(
                Effect::Reply {
                    message: ResponseModel::JoinSuccess { players: present, room_id: room_id.clone() },
                },
            );
            effects.push(
                Effect::Broadcast {
                    room_id: room_id.clone(),
                    message: ResponseModel::PlayerJoin { player: player.clone() },
                },
            );
            effects.push(Effect::Subscribe { room_id: room_id.clone() });
            assert(effects@.take(sent.len() as int) =~= sent);
            Step { effects, result: Ok(()) }
        },
        Err(e) => {
            let words = match e {
                InvalidRequest::RoomIsFulled => {
                    let mut words = joined("Room ", room_id.clone());
                    words.append(" is already full,");
                    words.append(player.describe().as_str());
                    words
                },
                _ => {
                    let mut words = joined("Room ", room_id.clone());
                    words.append(" does not exist,");
                    words.append(player.describe().as_str());
                    words
                },
            };
            effects.push(Effect::Reply { message: ResponseModel::InvalidRequest { error: words } });
            effects.push(Effect::Close);
            assert(effects@.take(sent.len() as int) =~= sent);
            Step { effects, result: Err(ApplicationError::InvalidRequest(e)) }
        },
    }
}

} // verus!
