//! What players, requests and failures are.

use crate::logic::board::ConfigError;
use crate::logic::room::OpResponse;
use vstd::prelude::*;

verus! {

/// A player in a room.
#[derive(Debug, PartialEq, Eq)]
pub struct Player {
    /// Unique within the room.
    pub id: String,
    pub name: String,
    /// The avatar, as the client sent it.
    pub icon: String,
    pub is_ready: bool,
}

impl Clone for Player {
    fn clone(&self) -> (copy: Self)
        ensures
            copy == *self,
    {
        Player {
            id: self.id.clone(),
            name: self.name.clone(),
            icon: self.icon.clone(),
            is_ready: self.is_ready,
        }
    }
}

impl Player {
    /// The player in words: id, name and ready flag.
    pub open spec fn text(self) -> Seq<char> {
        "Player { id: "@ + self.id@ + ", name: "@ + self.name@ + ", is_ready:"@ + (if self.is_ready {
            "true"@
        } else {
            "false"@
        }) + " }"@
    }

    /// The player in words: id, name and ready flag.
    pub fn describe(&self) -> (text: String)
        ensures
            text@ == self.text(),
    {
        let mut text = "Player { id: ".to_string();
        text.append(self.id.as_str());
        text.append(", name: ");
        text.append(self.name.as_str());
        text.append(", is_ready:");
        if self.is_ready {
            text.append("true");
        } else {
            text.append("false");
        }
        text.append(" }");
        text
    }
}

/// One action of a player: a flag request on the cell in row `x`, column `y` if `f`,
/// an open request otherwise.
#[derive(Debug, Clone, Copy, PartialEq, Eq, Structural)]
pub struct GameAction {
    pub x: usize,
    pub y: usize,
    pub f: bool,
}

/// The settings of a room.
#[derive(Debug, Clone, Copy, PartialEq, Eq, Structural)]
pub struct GameConfig {
    pub cols: usize,
    pub rows: usize,
    pub mines: usize,
    /// The number of players that a round is played with.
    pub n_player: usize,
}

/// The number of players of a room whose settings name none.
pub fn default_n_player() -> (n: usize)
    ensures
        n == 2,
{
    2
}

/// What a client asks for.
#[derive(Debug, PartialEq, Eq)]
pub enum RequestModel {
    /// Make a room with these settings and join it.
    RoomCreate { player: Player, config: GameConfig },
    /// Join a room.
    RoomJoin { room_id: String, player: Player },
    /// Act on the board.
    PlayerOperation { action: GameAction },
    /// Set or clear the ready flag.
    PlayerStatusSet { is_ready: bool },
}

/// What clients are told.
#[derive(Debug, PartialEq, Eq)]
pub enum ResponseModel {
    /// To the player who joined: the players who were in the room before.
    JoinSuccess { players: Vec<Player>, room_id: String },
    PlayerJoin { player: Player },
    PlayerLeft { player_id: String },
    PlayerStatusSet { player_id: String, is_ready: bool },
    /// The round has started.
    GameStart { config: GameConfig },
    /// What the action of a player came to.
    GameOpRes { player_id: String, op_res: OpResponse },
    /// The request was refused.
    InvalidRequest { error: String },
}

/// A failure of the service itself.
#[derive(Debug, Clone, Copy, PartialEq, Eq, Structural)]
pub enum ServiceError {
    RoomStillExists,
    RoomOrPlayerLost,
    AbnormalDisconnection,
    ConnectionException,
}

/// A request that cannot be served.
#[derive(Debug, Clone, Copy, PartialEq, Eq, Structural)]
pub enum InvalidRequest {
    InvalidMessage,
    RoomIsFulled,
    RoomNotExist,
}

/// Any failure that ends the handling of a request.
#[derive(Debug, Clone, Copy, PartialEq, Eq, Structural)]
pub enum ApplicationError {
    ServiceError(ServiceError),
    InvalidRequest(InvalidRequest),
    ConfigError(ConfigError),
}

impl ServiceError {
    /// The failure in words.
    pub open spec fn text(self) -> Seq<char> {
        match self {
            ServiceError::RoomStillExists => "ServiceError: Room still exists while trying to create or join"@,
            ServiceError::RoomOrPlayerLost => "ServiceError: Room or player unexpectedly lost during player action"@,
            ServiceError::AbnormalDisconnection => "ServiceError: Connection abnormal loss"@,
            ServiceError::ConnectionException => "ServiceError: Connection exception"@,
        }
    }

    /// The failure in words.
    pub fn message(&self) -> (text: String)
        ensures
            text@ == self.text(),
    {
        match self {
            ServiceError::RoomStillExists => "ServiceError: Room still exists while trying to create or join".to_string(),
            ServiceError::RoomOrPlayerLost => "ServiceError: Room or player unexpectedly lost during player action".to_string(),
            ServiceError::AbnormalDisconnection => "ServiceError: Connection abnormal loss".to_string(),
            ServiceError::ConnectionException => "ServiceError: Connection exception".to_string(),
        }
    }
}

impl InvalidRequest {
    /// The failure in words.
    pub open spec fn text(self) -> Seq<char> {
        match self {
            InvalidRequest::InvalidMessage => "InvalidRequest: Parsing message failed"@,
            InvalidRequest::RoomIsFulled => "InvalidRequest: Room is already full"@,
            InvalidRequest::RoomNotExist => "InvalidRequest: Room does not exist"@,
        }
    }

    /// The failure in words.
    pub fn message(&self) -> (text: String)
        ensures
            text@ == self.text(),
    {
        match self {
            InvalidRequest::InvalidMessage => "InvalidRequest: Parsing message failed".to_string(),
            InvalidRequest::RoomIsFulled => "InvalidRequest: Room is already full".to_string(),
            InvalidRequest::RoomNotExist => "InvalidRequest: Room does not exist".to_string(),
        }
    }
}

impl ConfigError {
    /// The failure in words.
    pub open spec fn text(self) -> Seq<char> {
        match self {
            ConfigError::EmptyGrid => "ConfigError: The grid has no cells"@,
            ConfigError::GridTooLarge => "ConfigError: The grid has too many cells"@,
            ConfigError::TooManyMines => "ConfigError: The grid has no room for that many mines"@,
        }
    }

    /// The failure in words.
    pub fn message(&self) -> (text: String)
        ensures
            text@ == self.text(),
    {
        match self {
            ConfigError::EmptyGrid => "ConfigError: The grid has no cells".to_string(),
            ConfigError::GridTooLarge => "ConfigError: The grid has too many cells".to_string(),
            ConfigError::TooManyMines => "ConfigError: The grid has no room for that many mines".to_string(),
        }
    }
}

impl ApplicationError {
    /// The failure in words: its kind, then the words of the failure inside.
    pub open spec fn text(self) -> Seq<char> {
        match self {
            ApplicationError::ServiceError(e) => "Service error: "@ + e.text(),
            ApplicationError::InvalidRequest(e) => "Request error: "@ + e.text(),
            ApplicationError::ConfigError(e) => "Config error: "@ + e.text(),
        }
    }

    /// The failure in words: its kind, then the words of the failure inside.
    pub fn message(&self) -> (text: String)
        ensures
            text@ == self.text(),
    {
        match self {
            ApplicationError::ServiceError(e) => joined("Service error: ", e.message()),
            ApplicationError::InvalidRequest(e) => joined("Request error: ", e.message()),
            ApplicationError::ConfigError(e) => joined("Config error: ", e.message()),
        }
    }
}

/// `head` followed by `tail`.
pub fn joined(head: &str, tail: String) -> (text: String)
    ensures
        text@ == head@ + tail@,
{
    let mut text = head.to_string();
    text.append(tail.as_str());
    text
}

impl From<ServiceError> for ApplicationError {
    fn from(e: ServiceError) -> (res: ApplicationError) {
        ApplicationError::ServiceError(e)
    }
}

impl vstd::std_specs::convert::FromSpecImpl<ServiceError> for ApplicationError {
    open spec fn obeys_from_spec() -> bool {
        true
    }

    open spec fn from_spec(e: ServiceError) -> ApplicationError {
        ApplicationError::ServiceError(e)
    }
}

impl From<InvalidRequest> for ApplicationError {
    fn from(e: InvalidRequest) -> (res: ApplicationError) {
        ApplicationError::InvalidRequest(e)
    }
}

impl vstd::std_specs::convert::FromSpecImpl<InvalidRequest> for ApplicationError {
    open spec fn obeys_from_spec() -> bool {
        true
    }

    open spec fn from_spec(e: InvalidRequest) -> ApplicationError {
        ApplicationError::InvalidRequest(e)
    }
}

impl From<ConfigError> for ApplicationError {
    fn from(e: ConfigError) -> (res: ApplicationError) {
        ApplicationError::ConfigError(e)
    }
}

impl vstd::std_specs::convert::FromSpecImpl<ConfigError> for ApplicationError {
    open spec fn obeys_from_spec() -> bool {
        true
    }

    open spec fn from_spec(e: ConfigError) -> ApplicationError {
        ApplicationError::ConfigError(e)
    }
}

} // verus!
