//! The reasons for which the game, a room or the registry turns a request
//! down.

use vstd::prelude::*;

verus! {

/// Why the game refused a transition. A refused transition leaves the game as
/// it was.
#[derive(Debug, Clone, Copy, PartialEq, Eq, Structural)]
pub enum InvalidTransition {
    DealBeforeGameStart,
    ReDeal,
    PlayBeforeScorePrediction,
    PredictBeforeDeal,
    RePredict,
    GameOver,
    Restart,
    OutOfTurnPlay,
    PredictionOutOfRange,
    LastPlayerPrediction,
    NoSuchPlayerCard,
    SuitMismatch,
}

impl InvalidTransition {
    /// The reason in words.
    pub open spec fn spec_message(self) -> Seq<char> {
        match self {
            InvalidTransition::DealBeforeGameStart => "cannot deal cards before the game has started"@,
            InvalidTransition::ReDeal => "cannot deal cards more than once in a round"@,
            InvalidTransition::PlayBeforeScorePrediction => "cannot play before the scores have been predicted"@,
            InvalidTransition::PredictBeforeDeal => "cannot predict score before the cards have beel dealt"@,
            InvalidTransition::RePredict => "cannot predict scores more than once in a round"@,
            InvalidTransition::GameOver => "cannot take any action after game is over"@,
            InvalidTransition::Restart => "game is already in play"@,
            InvalidTransition::OutOfTurnPlay => "not this player's turn"@,
            InvalidTransition::PredictionOutOfRange => "predicted score is impossible to achieve"@,
            InvalidTransition::LastPlayerPrediction => "last player to predict score in the round; score not allowed"@,
            InvalidTransition::NoSuchPlayerCard => "the player does not have the played card"@,
            InvalidTransition::SuitMismatch => "must match the suit of the first card when possible"@,
        }
    }

    /// The reason in words.
    pub fn message(&self) -> (text: &'static str)
        ensures
            text@ == self.spec_message(),
    {
        match self {
            InvalidTransition::DealBeforeGameStart => "cannot deal cards before the game has started",
            InvalidTransition::ReDeal => "cannot deal cards more than once in a round",
            InvalidTransition::PlayBeforeScorePrediction => "cannot play before the scores have been predicted",
            InvalidTransition::PredictBeforeDeal => "cannot predict score before the cards have beel dealt",
            InvalidTransition::RePredict => "cannot predict scores more than once in a round",
            InvalidTransition::GameOver => "cannot take any action after game is over",
            InvalidTransition::Restart => "game is already in play",
            InvalidTransition::OutOfTurnPlay => "not this player's turn",
            InvalidTransition::PredictionOutOfRange => "predicted score is impossible to achieve",
            InvalidTransition::LastPlayerPrediction => "last player to predict score in the round; score not allowed",
            InvalidTransition::NoSuchPlayerCard => "the player does not have the played card",
            InvalidTransition::SuitMismatch => "must match the suit of the first card when possible",
        }
    }
}

/// The room has as many seats taken as it has seats.
#[derive(Debug, Clone, Copy, PartialEq, Eq, Structural)]
pub struct RoomFull {
    pub max_players: u8,
}

/// The room does not take plays or predictions yet: seats are still free.
#[derive(Debug, Clone, Copy, PartialEq, Eq, Structural)]
pub struct TooEarly;

impl TooEarly {
    pub fn message(&self) -> (text: &'static str)
        ensures
            text@ == "cannot play cards or predict scores yet"@,
    {
        "cannot play cards or predict scores yet"
    }
}

/// The room has no seat of that number.
#[derive(Debug, Clone, Copy, PartialEq, Eq, Structural)]
pub struct InvalidPlayerId;

impl InvalidPlayerId {
    pub fn message(&self) -> (text: &'static str)
        ensures
            text@ == "not a valid player Id"@,
    {
        "not a valid player Id"
    }
}

/// The credential was not signed by this registry, is damaged, or does not
/// name a seat and a room.
#[derive(Debug, Clone, Copy, PartialEq, Eq, Structural)]
pub struct InvalidToken;

impl InvalidToken {
    pub fn message(&self) -> (text: &'static str)
        ensures
            text@ == "invalid token"@,
    {
        "invalid token"
    }
}

/// The registry holds as many rooms as it may.
#[derive(Debug, Clone, Copy, PartialEq, Eq, Structural)]
pub struct ServerFull;

impl ServerFull {
    pub fn message(&self) -> (text: &'static str)
        ensures
            text@ == "no space left in server for another room"@,
    {
        "no space left in server for another room"
    }
}

/// The registry holds no room of that identifier.
#[derive(Debug, Clone, Copy, PartialEq, Eq, Structural)]
pub struct InvalidRoomId;

impl InvalidRoomId {
    pub fn message(&self) -> (text: &'static str)
        ensures
            text@ == "no such room exists"@,
    {
        "no such room exists"
    }
}

/// Why a seat could not be taken.
#[derive(Debug, Clone, Copy, PartialEq, Eq, Structural)]
pub enum RoomJoinError {
    InvalidRoomId(InvalidRoomId),
    RoomFull(RoomFull),
    /// The credential for the seat could not be signed.
    InvalidToken(InvalidToken),
}

/// Why an action was not carried out.
#[derive(Debug, Clone, Copy, PartialEq, Eq, Structural)]
pub enum PlayError {
    InvalidRoomId(InvalidRoomId),
    InvalidTransition(InvalidTransition),
    /// The room still has free seats.
    TooEarly(TooEarly),
}

/// What a request asked for and the registry does not hold.
#[derive(Debug, Clone, Copy, PartialEq, Eq, Structural)]
pub enum ResourceDoesNotExist {
    Room(InvalidRoomId),
    Player(InvalidPlayerId),
}

} // verus!
