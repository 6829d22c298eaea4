//! A room: one game, the seats taken in it, and one channel for each thing
//! that observers may watch.

use crate::card::{Card, Suit};
use crate::deck::{lemma_nothing_held, times_held};
use crate::errors::{InvalidPlayerId, InvalidTransition, PlayError, RoomFull, TooEarly};
use crate::game::{as_ints, changes_of, copy_of, Judgment, StateUpdate, Trick};
use crate::model::{
    empty_trick, initial_game, lemma_advance_keeps_invariant, started, step, trump_of,
    valid_config, Change, GameView, Transition,
};
use crate::watch::{next_version, Sender};
use vstd::prelude::*;

verus! {

/// What a seat may ask of the room.
#[derive(Debug, Clone, Copy)]
pub enum Action {
    Play(Card),
    PredictScore(u8),
    Deal,
}

/// What the room hands to a seat that was taken: the seat's number, from which
/// a credential is made.
#[derive(Debug, Clone, Copy, PartialEq, Eq, Structural)]
pub struct Claims {
    pub subject: u8,
}

/// What observers see of one channel: the value sent last and the count of
/// sends.
#[verifier::ext_equal]
pub struct FacetView<V> {
    pub value: V,
    pub version: u64,
}

/// The whole state of a room.
#[verifier::ext_equal]
pub struct RoomView {
    pub joined_players: int,
    pub max_players: int,
    pub game: GameView,
    pub trick: FacetView<Seq<Option<Card>>>,
    pub predictions: FacetView<Seq<Option<u8>>>,
    pub round_scores: FacetView<Seq<u8>>,
    pub game_scores: FacetView<Seq<int>>,
    pub trump_suit: FacetView<Option<Suit>>,
}

/// The channel after `value` was sent on it.
pub open spec fn published<V>(facet: FacetView<V>, value: V) -> FacetView<V> {
    FacetView { value, version: next_version(facet.version) }
}

/// The room after one change of the game was sent on the channel it belongs
/// to. New game scores are followed by the trump suit `trump`, which a
/// finished round has changed.
pub open spec fn publish(room: RoomView, change: Change, trump: Option<Suit>) -> RoomView {
    match change {
        Change::CardsDealt => room,
        Change::Predictions(predictions) => RoomView {
            predictions: published(room.predictions, predictions),
            ..room
        },
        Change::Trick(trick) => RoomView { trick: published(room.trick, trick), ..room },
        Change::RoundScores(tricks) => RoomView {
            round_scores: published(room.round_scores, tricks),
            ..room
        },
        Change::GameScores(scores) => RoomView {
            game_scores: published(room.game_scores, scores),
            trump_suit: published(room.trump_suit, trump),
            ..room
        },
    }
}

/// The room after `changes` were sent, in their order.
pub open spec fn publish_all(room: RoomView, changes: Seq<Change>, trump: Option<Suit>) -> RoomView
    decreases changes.len(),
{
    if changes.len() == 0 {
        room
    } else {
        publish(publish_all(room, changes.drop_last(), trump), changes.last(), trump)
    }
}

/// The transition that `action` asks for when `seat` asks it. A deal takes
/// its seed from the room, never from the seat.
pub open spec fn transition_of(action: Action, seat: usize, seed: [u8; 32]) -> Transition {
    match action {
        Action::Play(card) => Transition::Play { player: seat, card },
        Action::PredictScore(score) => Transition::PredictScore { player: seat, score },
        Action::Deal => Transition::Deal { seed },
    }
}

/// What `transition` does to the room. While seats are free it does nothing
/// and is refused as too early, whatever it asks and for whichever seat.
/// After that it does what it does to the game, with every change sent on
/// its channel in the order the game reports them; what the game refuses is
/// refused for the game's reason.
pub open spec fn act(room: RoomView, transition: Transition) -> Result<RoomView, PlayError> {
    if room.joined_players < room.max_players {
        Err(PlayError::TooEarly(TooEarly))
    } else {
        match step(room.game, transition) {
            Ok((game, changes)) => Ok(
                publish_all(RoomView { game, ..room }, changes, trump_of(game)),
            ),
            Err(reason) => Err(PlayError::InvalidTransition(reason)),
        }
    }
}

/// The room after one more seat was taken. The seat that fills the room
/// starts the game: the trump suit is sent, and the first round is dealt with
/// `seed`.
pub open spec fn seated(room: RoomView, seed: [u8; 32]) -> RoomView {
    let taken = RoomView { joined_players: room.joined_players + 1, ..room };
    if taken.joined_players < taken.max_players {
        taken
    } else {
        let game = started(room.game);
        let announced = RoomView {
            game,
            trump_suit: published(room.trump_suit, trump_of(game)),
            ..taken
        };
        match act(announced, Transition::Deal { seed }) {
            Ok(dealt) => dealt,
            Err(_) => announced,
        }
    }
}

/// An empty room for a game of these numbers.
pub open spec fn new_room(players: u8, starting_hand_size: u8, decks: u8) -> RoomView {
    RoomView {
        joined_players: 0,
        max_players: players as int,
        game: initial_game(players as int, starting_hand_size as int, decks as int),
        trick: FacetView { value: empty_trick(players as int), version: 0 },
        predictions: FacetView { value: Seq::empty(), version: 0 },
        round_scores: FacetView { value: Seq::empty(), version: 0 },
        game_scores: FacetView { value: Seq::empty(), version: 0 },
        trump_suit: FacetView { value: None, version: 0 },
    }
}

/// Whether a call that took a seat in `before` with `seed` at hand may have
/// ended in `after` with the answer `res`.
pub open spec fn is_join_outcome(
    before: RoomView,
    seed: [u8; 32],
    after: RoomView,
    res: Result<Claims, RoomFull>,
) -> bool {
    if before.joined_players == before.max_players {
        res == Err::<Claims, RoomFull>(RoomFull { max_players: before.max_players as u8 })
            && after == before
    } else {
        res == Ok::<Claims, RoomFull>(Claims { subject: before.joined_players as u8 }) && after
            == seated(before, seed)
    }
}

/// Whether a call that asked `action` for `seat` in `before` with `seed` at
/// hand may have ended in `after` with the answer `res`.
pub open spec fn is_play_outcome(
    before: RoomView,
    action: Action,
    seat: usize,
    seed: [u8; 32],
    after: RoomView,
    res: Result<(), PlayError>,
) -> bool {
    match act(before, transition_of(action, seat, seed)) {
        Ok(next) => res is Ok && after == next,
        Err(reason) => res == Err::<(), PlayError>(reason) && after == before,
    }
}

impl RoomView {
    /// The invariant of a room: the game is one that can be reached, it has
    /// a seat for every player of the room, and it has started exactly if
    /// the last seat was taken. A room without seats is full from the first,
    /// and its game never starts.
    pub open spec fn wf(self) -> bool {
        &&& self.game.wf()
        &&& self.max_players == self.game.player_count
        &&& 0 <= self.joined_players <= self.max_players
        &&& self.game.stage is PrePlay <==> self.joined_players < self.max_players
            || self.max_players == 0
    }
}

/// 32 bytes from `rand::random`, which draws them from the random generator
/// of the thread. Nothing is claimed of them.
#[verifier::external_body]
pub(crate) fn fresh_seed() -> (seed: [u8; 32]) {
    rand::random()
}

/// A room with one game and the channels on which the game is watched.
pub struct Room {
    joined_players: u8,
    game: Judgment,
    max_players: u8,
    trick_sender: Sender<Trick>,
    predictions_sender: Sender<Vec<Option<u8>>>,
    round_scores_sender: Sender<Vec<u8>>,
    game_scores_sender: Sender<Vec<i64>>,
    trump_suit_sender: Sender<Option<Suit>>,
}

impl View for Room {
    type V = RoomView;

    closed spec fn view(&self) -> RoomView {
        RoomView {
            joined_players: self.joined_players as int,
            max_players: self.max_players as int,
            game: self.game@,
            trick: FacetView {
                value: self.trick_sender.value()@,
                version: self.trick_sender.version(),
            },
            predictions: FacetView {
                value: self.predictions_sender.value()@,
                version: self.predictions_sender.version(),
            },
            round_scores: FacetView {
                value: self.round_scores_sender.value()@,
                version: self.round_scores_sender.version(),
            },
            game_scores: FacetView {
                value: as_ints(self.game_scores_sender.value()@),
                version: self.game_scores_sender.version(),
            },
            trump_suit: FacetView {
                value: self.trump_suit_sender.value(),
                version: self.trump_suit_sender.version(),
            },
        }
    }
}

impl Room {
    /// The invariant of the room, which every function here keeps.
    pub open spec fn wf(&self) -> bool {
        self@.wf()
    }

    /// An empty room for `players` seats, whose game starts with
    /// `starting_hand_size` cards per seat from `decks` decks.
    pub fn new(players: u8, starting_hand_size: u8, decks: u8) -> (room: Room)
        requires
            valid_config(players, starting_hand_size, Some(decks)),
        ensures
            room.wf(),
            room@ == new_room(players, starting_hand_size, decks),
    {
        let game = Judgment::new(players, starting_hand_size, Some(decks));
        let trick = copy_of(game.trick());
        let room = Room {
            joined_players: 0,
            game,
            max_players: players,
            trick_sender: Sender::new(trick),
            predictions_sender: Sender::new(Vec::new()),
            round_scores_sender: Sender::new(Vec::new()),
            game_scores_sender: Sender::new(Vec::new()),
            trump_suit_sender: Sender::new(None),
        };
        proof {
            assert(room@.game_scores.value =~= Seq::<int>::empty());
            assert(room@ =~~= new_room(players, starting_hand_size, decks));
        }
        room
    }

    /// Takes the next seat, if one is free. The seat that fills the room
    /// starts the game, and the first round is dealt at once with a seed that
    /// the room draws at random.
    pub fn join(&mut self) -> (res: Result<Claims, RoomFull>)
        requires
            old(self).wf(),
        ensures
            final(self).wf(),
            exists|seed: [u8; 32]| is_join_outcome(old(self)@, seed, final(self)@, res),
    {
        let seed = fresh_seed();
        let res = self.join_with_seed(seed);
        assert(is_join_outcome(old(self)@, seed, self@, res));
        res
    }

    /// Takes the next seat, if one is free, and deals the first round with
    /// `seed` if the seat fills the room.
    pub fn join_with_seed(&mut self, seed: [u8; 32]) -> (res: Result<Claims, RoomFull>)
        requires
            old(self).wf(),
        ensures
            final(self).wf(),
            is_join_outcome(old(self)@, seed, final(self)@, res),
    {
        if self.is_full() {
            return Err(RoomFull { max_players: self.max_players });
        }
        let claims = Claims { subject: self.joined_players };
        self.joined_players += 1;
        if self.is_full() {
            let _ = self.game.start();
            let trump = self.current_trump();
            self.trump_suit_sender.send_replace(trump);
            let ghost announced = self@;
            proof {
                lemma_advance_keeps_invariant(
                    announced.game,
                    Transition::Deal { seed },
                );
            }
            let _ = self.apply(Transition::Deal { seed });
            proof {
                assert(announced =~~= RoomView {
                    game: started(old(self)@.game),
                    trump_suit: published(
                        old(self)@.trump_suit,
                        trump_of(started(old(self)@.game)),
                    ),
                    joined_players: old(self)@.joined_players + 1,
                    ..old(self)@
                });
            }
        }
        Ok(claims)
    }

    /// The seat that the next to join will get, if one is free.
    pub fn next_seat(&self) -> (res: Result<Claims, RoomFull>)
        ensures
            res == if self@.joined_players == self@.max_players {
                Err::<Claims, RoomFull>(RoomFull { max_players: self@.max_players as u8 })
            } else {
                Ok::<Claims, RoomFull>(Claims { subject: self@.joined_players as u8 })
            },
    {
        if self.is_full() {
            Err(RoomFull { max_players: self.max_players })
        } else {
            Ok(Claims { subject: self.joined_players })
        }
    }

    /// Whether every seat is taken.
    pub fn is_full(&self) -> (full: bool)
        ensures
            full == (self@.joined_players == self@.max_players),
    {
        self.max_players == self.joined_players
    }

    /// Carries out `action` for the seat `player`, or refuses it. A deal is
    /// made with a seed that the room draws at random.
    pub fn play(&mut self, action: Action, player: usize) -> (res: Result<(), PlayError>)
        requires
            old(self).wf(),
        ensures
            final(self).wf(),
            exists|seed: [u8; 32]|
                is_play_outcome(old(self)@, action, player, seed, final(self)@, res),
    {
        let seed = match action {
            Action::Deal => fresh_seed(),
            _ => [0u8; 32],
        };
        let res = self.play_with_seed(action, player, seed);
        assert(is_play_outcome(old(self)@, action, player, seed, self@, res));
        res
    }

    /// Carries out `action` for the seat `player`, or refuses it; a deal is
    /// made with `seed`. While seats are free nothing is accepted: the
    /// answer is that it is too early. What the game accepts is sent on the
    /// channels, change by change; what it refuses changes nothing.
    pub fn play_with_seed(&mut self, action: Action, player: usize, seed: [u8; 32]) -> (res:
        Result<(), PlayError>)
        requires
            old(self).wf(),
        ensures
            final(self).wf(),
            is_play_outcome(old(self)@, action, player, seed, final(self)@, res),
    {
        let transition = match action {
            Action::Play(card) => Transition::Play { player, card },
            Action::PredictScore(score) => Transition::PredictScore { player, score },
            Action::Deal => Transition::Deal { seed },
        };
        self.apply(transition)
    }

    fn apply(&mut self, transition: Transition) -> (res: Result<(), PlayError>)
        requires
            old(self).game.wf(),
            old(self)@.max_players == old(self)@.game.player_count,
            0 <= old(self)@.joined_players <= old(self)@.max_players,
        ensures
            final(self).game.wf(),
            final(self)@.max_players == final(self)@.game.player_count,
            final(self)@.joined_players == old(self)@.joined_players,
            final(self)@.max_players == old(self)@.max_players,
            (final(self)@.game.stage is PrePlay) == (old(self)@.game.stage is PrePlay),
            match act(old(self)@, transition) {
                Ok(next) => res is Ok && final(self)@ == next,
                Err(reason) => res == Err::<(), PlayError>(reason) && final(self)@ == old(self)@,
            },
    {
        if !self.is_full() {
            return Err(PlayError::TooEarly(TooEarly));
        }
        let updates = match self.game.update(transition) {
            Ok(updates) => updates,
            Err(reason) => {
                return Err(PlayError::InvalidTransition(reason));
            },
        };
        let trump = self.current_trump();
        let ghost start = self@;
        let ghost changes = changes_of(updates@);
        let mut i: usize = 0;
        while i < updates.len()
            invariant
                i <= updates.len(),
                changes == changes_of(updates@),
                trump == trump_of(start.game),
                self@ == publish_all(start, changes.take(i as int), trump),
            decreases updates.len() - i,
        {
            assert(changes.take(i + 1).drop_last() =~= changes.take(i as int));
            assert(changes.take(i + 1).last() == updates@[i as int]@);
            let ghost before = self@;
            match &updates[i] {
                StateUpdate::CardsDealt => {},
                StateUpdate::Predictions(predictions) => {
                    self.predictions_sender.send_replace(copy_of(predictions));
                },
                StateUpdate::Trick(trick) => {
                    self.trick_sender.send_replace(copy_of(trick));
                },
                StateUpdate::RoundScores(tricks) => {
                    self.round_scores_sender.send_replace(copy_of(tricks));
                },
                StateUpdate::GameScores(scores) => {
                    self.game_scores_sender.send_replace(copy_of(scores));
                    self.trump_suit_sender.send_replace(trump);
                },
            }
            assert(self@ =~~= publish(before, updates@[i as int]@, trump));
            i += 1;
        }
        proof {
            assert(changes.take(i as int) =~= changes);
            lemma_publish_keeps_game(start, changes, trump);
        }
        Ok(())
    }

    fn current_trump(&self) -> (trump: Option<Suit>)
        ensures
            trump == trump_of(self@.game),
    {
        match self.game.trump_suit() {
            Some(suit) => Some(*suit),
            None => None,
        }
    }

    /// The cards of the seat `player`, sorted.
    pub fn hand_of_player(&self, player: usize) -> (hand: Result<&[Card], InvalidPlayerId>)
        ensures
            match hand {
                Ok(cards) => player < self@.game.hands.len() && cards@
                    == self@.game.hands[player as int],
                Err(_) => player >= self@.game.hands.len(),
            },
    {
        match self.game.hand_of_player(player) {
            Some(cards) => Ok(cards),
            None => Err(InvalidPlayerId),
        }
    }

    /// The channel on which the open trick is sent.
    pub fn trick_sender(&self) -> (sender: &Sender<Trick>)
        ensures
            sender.value()@ == self@.trick.value,
            sender.version() == self@.trick.version,
    {
        &self.trick_sender
    }

    /// The channel on which the predictions are sent.
    pub fn predictions_sender(&self) -> (sender: &Sender<Vec<Option<u8>>>)
        ensures
            sender.value()@ == self@.predictions.value,
            sender.version() == self@.predictions.version,
    {
        &self.predictions_sender
    }

    /// The channel on which the tricks won in a finished round are sent.
    pub fn round_scores_sender(&self) -> (sender: &Sender<Vec<u8>>)
        ensures
            sender.value()@ == self@.round_scores.value,
            sender.version() == self@.round_scores.version,
    {
        &self.round_scores_sender
    }

    /// The channel on which the scores of the game are sent.
    pub fn game_scores_sender(&self) -> (sender: &Sender<Vec<i64>>)
        ensures
            as_ints(sender.value()@) == self@.game_scores.value,
            sender.version() == self@.game_scores.version,
    {
        &self.game_scores_sender
    }

    /// Whether the game has ended.
    pub fn is_game_over(&self) -> (over: bool)
        ensures
            over == (self@.game.stage is Over),
    {
        self.game.is_over()
    }

    /// The channel on which the trump suit is sent.
    pub fn trump_suit_sender(&self) -> (sender: &Sender<Option<Suit>>)
        ensures
            sender.value() == self@.trump_suit.value,
            sender.version() == self@.trump_suit.version,
    {
        &self.trump_suit_sender
    }
}

/// A room in order stays in order when a seat is taken in it, and its game is
/// then either not started or waiting for the predictions of its first round.
pub proof fn lemma_seated_in_play(room: RoomView, seed: [u8; 32])
    requires
        room.wf(),
        room.joined_players < room.max_players,
    ensures
        seated(room, seed).wf(),
        seated(room, seed).joined_players == room.joined_players + 1,
        seated(room, seed).max_players == room.max_players,
        seated(room, seed).game.stage is PrePlay || seated(room, seed).game.stage is PredictScores,
{
    let taken = RoomView { joined_players: room.joined_players + 1, ..room };
    if taken.joined_players == taken.max_players {
        let game = started(room.game);
        let announced = RoomView {
            game,
            trump_suit: published(room.trump_suit, trump_of(game)),
            ..taken
        };
        lemma_advance_keeps_invariant(game, Transition::Deal { seed });
        let (next, changes) = step(game, Transition::Deal { seed }).unwrap();
        lemma_publish_keeps_game(RoomView { game: next, ..announced }, changes, trump_of(next));
    }
}

/// A new room has no seat taken and a game that has not started. It is full
/// exactly if it has no seats, and its channels hold an empty trick, no
/// predictions, no scores and no trump suit.
pub proof fn lemma_new_room(players: u8, starting_hand_size: u8, decks: u8)
    requires
        valid_config(players, starting_hand_size, Some(decks)),
    ensures
        new_room(players, starting_hand_size, decks).wf(),
        new_room(players, starting_hand_size, decks).joined_players == 0,
        new_room(players, starting_hand_size, decks).game.stage is PrePlay,
        new_room(players, starting_hand_size, decks).joined_players == new_room(
            players,
            starting_hand_size,
            decks,
        ).max_players <==> players == 0,
{
    let game = initial_game(players as int, starting_hand_size as int, decks as int);
    assert(players * starting_hand_size <= decks * 52) by (nonlinear_arith)
        requires
            decks >= (players * starting_hand_size + 51) / 52,
    ;
    assert forall|card: Card| #[trigger] times_held(game.hands, card) <= game.decks by {
        lemma_nothing_held(game.hands, card);
    }
}

/// While a seat is free every transition is refused as too early, whatever
/// it asks and for whichever seat, and never for a reason of the game.
pub proof fn lemma_too_early(room: RoomView, transition: Transition)
    requires
        room.joined_players < room.max_players,
    ensures
        act(room, transition) == Err::<RoomView, PlayError>(PlayError::TooEarly(TooEarly)),
{
}

/// Sending changes touches the channels only: the game and the seats stay.
pub proof fn lemma_publish_keeps_game(room: RoomView, changes: Seq<Change>, trump: Option<Suit>)
    ensures
        publish_all(room, changes, trump).game == room.game,
        publish_all(room, changes, trump).joined_players == room.joined_players,
        publish_all(room, changes, trump).max_players == room.max_players,
    decreases changes.len(),
{
    if changes.len() > 0 {
        lemma_publish_keeps_game(room, changes.drop_last(), trump);
    }
}

} // verus!
