//! The game as a mathematical state machine: its states, the transitions it
//! takes, and the one function that says what each transition does in each
//! state.

use crate::card::{beats, next_trump, Card, Suit};
use crate::deck::{
    dealt_hands, fresh_deck, hands_disjoint, lemma_dealt_from_the_deck, lemma_dealt_hands,
    lemma_dealt_hands_disjoint, lemma_deck_has_no_duplicates, lemma_deck_holds_each_card,
    lemma_fewer_held, lemma_same_cards, shuffled_deck, times_held,
};
use crate::errors::InvalidTransition;
use crate::player::{is_sorted, lemma_remove_value_sorted};
use vstd::seq_lib::to_multiset_len;
use vstd::prelude::*;

verus! {

/// A request to move the game on.
#[derive(Debug, Clone, Copy, PartialEq, Eq)]
pub enum Transition {
    Deal { seed: [u8; 32] },
    Play { player: usize, card: Card },
    PredictScore { player: usize, score: u8 },
}

/// One hand of play, as the game sees it.
#[verifier::ext_equal]
pub struct RoundView {
    /// The seat that acts next.
    pub player: int,
    /// The seat that holds the best card of the open trick.
    pub potential_winner: int,
    /// The number of cards each seat is dealt in this round.
    pub hand_size: int,
    pub trump_suit: Option<Suit>,
    /// What each seat said it would win, once it has said so.
    pub predicted_scores: Seq<Option<u8>>,
    /// The tricks each seat has won in this round.
    pub trick_scores: Seq<u8>,
    /// The seat that opens the round.
    pub starting_player: int,
}

/// Where the game stands.
#[verifier::ext_equal]
pub enum StageView {
    PrePlay,
    Deal(RoundView),
    PredictScores(RoundView),
    Play(RoundView),
    Over,
}

/// The whole state of one game.
#[verifier::ext_equal]
pub struct GameView {
    pub stage: StageView,
    /// The cards of each seat, sorted.
    pub hands: Seq<Seq<Card>>,
    /// The open trick: for each seat the card it has laid down, if any.
    pub trick: Seq<Option<Card>>,
    /// The score of each seat over the rounds played.
    pub scores: Seq<int>,
    pub decks: int,
    pub player_count: int,
    pub starting_hand_size: int,
    /// The transitions accepted so far, oldest first.
    pub history: Seq<Transition>,
}

/// A change that an accepted transition made to what observers see.
#[verifier::ext_equal]
pub enum Change {
    CardsDealt,
    Predictions(Seq<Option<u8>>),
    Trick(Seq<Option<Card>>),
    RoundScores(Seq<u8>),
    GameScores(Seq<int>),
}

/// The number of decks that `players` hands of `hand_size` cards need.
pub open spec fn decks_needed(players: int, hand_size: int) -> int {
    (players * hand_size + 51) / 52
}

/// Whether a game can be set up for `players` seats with `starting_hand_size`
/// cards each in the first round, from `decks` decks if a number is given.
pub open spec fn valid_config(players: u8, starting_hand_size: u8, decks: Option<u8>) -> bool {
    &&& starting_hand_size <= 13
    &&& match decks {
        Some(decks) => decks >= decks_needed(players as int, starting_hand_size as int),
        None => true,
    }
}

/// The seat after `seat` at a table of `players`.
pub open spec fn next_seat(seat: int, players: int) -> int {
    (seat + 1) % players
}

/// How many seats further round the table `to` sits than `from`.
pub open spec fn seats_after(from: int, to: int, players: int) -> int {
    if to >= from {
        to - from
    } else {
        to - from + players
    }
}

/// The number of seats that have predicted.
pub open spec fn predictions_made(predictions: Seq<Option<u8>>) -> nat
    decreases predictions.len(),
{
    if predictions.len() == 0 {
        0
    } else {
        predictions_made(predictions.drop_last()) + if predictions.last() is Some {
            1nat
        } else {
            0nat
        }
    }
}

/// The sum of the predictions made.
pub open spec fn prediction_sum(predictions: Seq<Option<u8>>) -> nat
    decreases predictions.len(),
{
    if predictions.len() == 0 {
        0
    } else {
        prediction_sum(predictions.drop_last()) + match predictions.last() {
            Some(score) => score as nat,
            None => 0nat,
        }
    }
}

/// The number of tricks won in a round, over all seats.
pub open spec fn tricks_won(tricks: Seq<u8>) -> nat
    decreases tricks.len(),
{
    if tricks.len() == 0 {
        0
    } else {
        tricks_won(tricks.drop_last()) + tricks.last() as nat
    }
}

/// Whether every seat has laid down a card.
pub open spec fn trick_full(trick: Seq<Option<Card>>) -> bool {
    forall|seat: int| 0 <= seat < trick.len() ==> (#[trigger] trick[seat]) is Some
}

/// A trick of `players` seats in which nobody has played.
pub open spec fn empty_trick(players: int) -> Seq<Option<Card>> {
    Seq::new(players as nat, |seat: int| None)
}

/// What a seat gains in a round in which it predicted `prediction` and won
/// `tricks` tricks: the tricks it won if it predicted them, their loss if not.
pub open spec fn round_score(prediction: Option<u8>, tricks: u8) -> int {
    if prediction == Some(tricks) {
        tricks as int
    } else {
        -(tricks as int)
    }
}

/// The scores after a round with these predictions and tricks.
pub open spec fn scores_after(
    scores: Seq<int>,
    predictions: Seq<Option<u8>>,
    tricks: Seq<u8>,
) -> Seq<int> {
    Seq::new(scores.len(), |seat: int| scores[seat] + round_score(predictions[seat], tricks[seat]))
}

/// The first round of a game.
pub open spec fn first_round(players: int, hand_size: int) -> RoundView {
    RoundView {
        player: 0,
        potential_winner: 0,
        hand_size,
        trump_suit: Some(Suit::Spades),
        predicted_scores: Seq::new(players as nat, |seat: int| None),
        trick_scores: Seq::new(players as nat, |seat: int| 0u8),
        starting_player: 0,
    }
}

/// The round after `round`: one card fewer, the next trump, and the next seat
/// to open.
pub open spec fn next_round(round: RoundView, players: int) -> RoundView {
    RoundView {
        player: next_seat(round.starting_player, players),
        potential_winner: next_seat(round.starting_player, players),
        hand_size: round.hand_size - 1,
        trump_suit: next_trump(round.trump_suit),
        predicted_scores: Seq::new(players as nat, |seat: int| None),
        trick_scores: Seq::new(players as nat, |seat: int| 0u8),
        starting_player: next_seat(round.starting_player, players),
    }
}

/// A game that has not started.
pub open spec fn initial_game(players: int, starting_hand_size: int, decks: int) -> GameView {
    GameView {
        stage: StageView::PrePlay,
        hands: Seq::new(players as nat, |seat: int| Seq::<Card>::empty()),
        trick: empty_trick(players),
        scores: Seq::new(players as nat, |seat: int| 0int),
        decks,
        player_count: players,
        starting_hand_size,
        history: Seq::empty(),
    }
}

/// The game after its start: the first round waits for its deal.
pub open spec fn started(g: GameView) -> GameView {
    GameView { stage: StageView::Deal(first_round(g.player_count, g.starting_hand_size)), ..g }
}

/// The deck from which a round is dealt under `seed`: the decks of the game,
/// new and then shuffled.
pub open spec fn round_deck(g: GameView, seed: Seq<u8>) -> Seq<Card> {
    shuffled_deck(fresh_deck(g.decks as nat), seed)
}

/// A deal: every seat gets its sorted hand from the shuffled deck, and the
/// round goes on to the predictions.
pub open spec fn deal_step(g: GameView, round: RoundView, seed: Seq<u8>) -> (GameView, Seq<Change>) {
    (
        GameView {
            stage: StageView::PredictScores(round),
            hands: dealt_hands(round_deck(g, seed), g.player_count as nat, round.hand_size as nat),
            ..g
        },
        seq![Change::CardsDealt],
    )
}

/// A prediction of `score` tricks by `seat`. It is the turn of no seat but the
/// one to act, and of none at a table without seats.
pub open spec fn predict_step(g: GameView, round: RoundView, seat: int, score: u8) -> Result<
    (GameView, Seq<Change>),
    InvalidTransition,
> {
    if seat != round.player || seat >= g.player_count {
        Err(InvalidTransition::OutOfTurnPlay)
    } else if score > round.hand_size {
        Err(InvalidTransition::PredictionOutOfRange)
    } else if predictions_made(round.predicted_scores) == g.player_count - 1 && prediction_sum(
        round.predicted_scores,
    ) + score == round.hand_size {
        Err(InvalidTransition::LastPlayerPrediction)
    } else {
        let predictions = round.predicted_scores.update(seat, Some(score));
        let next = RoundView {
            player: next_seat(round.player, g.player_count),
            predicted_scores: predictions,
            ..round
        };
        let stage = if predictions_made(predictions) == g.player_count {
            StageView::Play(next)
        } else {
            StageView::PredictScores(next)
        };
        Ok((GameView { stage, ..g }, seq![Change::Predictions(predictions)]))
    }
}

/// The seat that leads the trick once `seat` has laid `card` into `trick`.
pub open spec fn leader_after(
    trick: Seq<Option<Card>>,
    round: RoundView,
    seat: int,
    card: Card,
) -> int {
    match trick[round.potential_winner] {
        Some(leading) => if beats(card, leading, round.trump_suit) {
            seat
        } else {
            round.potential_winner
        },
        None => seat,
    }
}

/// A play of `card` by `seat`. It is the turn of no seat but the one to act.
pub open spec fn play_step(g: GameView, round: RoundView, seat: int, card: Card) -> Result<
    (GameView, Seq<Change>),
    InvalidTransition,
> {
    if seat != round.player || seat >= g.player_count {
        Err(InvalidTransition::OutOfTurnPlay)
    } else if !g.hands[seat].contains(card) {
        Err(InvalidTransition::NoSuchPlayerCard)
    } else {
        let hands = g.hands.update(seat, g.hands[seat].remove_value(card));
        let trick = g.trick.update(seat, Some(card));
        let winner = leader_after(trick, round, seat, card);
        if !trick_full(trick) {
            let next = RoundView {
                player: next_seat(seat, g.player_count),
                potential_winner: winner,
                ..round
            };
            Ok((GameView { stage: StageView::Play(next), hands, trick, ..g }, seq![Change::Trick(trick)]))
        } else {
            let tricks = round.trick_scores.update(
                winner,
                (round.trick_scores[winner] + 1) as u8,
            );
            let cleared = empty_trick(g.player_count);
            if hands[winner].len() != 0 {
                let next = RoundView {
                    player: winner,
                    potential_winner: winner,
                    trick_scores: tricks,
                    ..round
                };
                Ok(
                    (
                        GameView { stage: StageView::Play(next), hands, trick: cleared, ..g },
                        seq![Change::Trick(cleared)],
                    ),
                )
            } else {
                let scores = scores_after(g.scores, round.predicted_scores, tricks);
                let stage = if round.hand_size == 1 {
                    StageView::Over
                } else {
                    StageView::Deal(next_round(round, g.player_count))
                };
                Ok(
                    (
                        GameView { stage, hands, trick: cleared, scores, ..g },
                        seq![
                            Change::Trick(cleared),
                            Change::RoundScores(tricks),
                            Change::GameScores(scores),
                        ],
                    ),
                )
            }
        }
    }
}

/// What `transition` does to the game in state `g`, but for the record that
/// the game keeps of it: the next state and the changes to publish, or the
/// reason for which it is refused. Every stage answers every transition.
pub open spec fn advance(g: GameView, transition: Transition) -> Result<
    (GameView, Seq<Change>),
    InvalidTransition,
> {
    match g.stage {
        StageView::PrePlay => match transition {
            Transition::Deal { .. } => Err(InvalidTransition::DealBeforeGameStart),
            Transition::Play { .. } => Err(InvalidTransition::PlayBeforeScorePrediction),
            Transition::PredictScore { .. } => Err(InvalidTransition::PredictBeforeDeal),
        },
        StageView::Deal(round) => match transition {
            Transition::Deal { seed } => Ok(deal_step(g, round, seed@)),
            Transition::Play { .. } => Err(InvalidTransition::PlayBeforeScorePrediction),
            Transition::PredictScore { .. } => Err(InvalidTransition::PredictBeforeDeal),
        },
        StageView::PredictScores(round) => match transition {
            Transition::Deal { .. } => Err(InvalidTransition::ReDeal),
            Transition::Play { .. } => Err(InvalidTransition::PlayBeforeScorePrediction),
            Transition::PredictScore { player, score } => predict_step(
                g,
                round,
                player as int,
                score,
            ),
        },
        StageView::Play(round) => match transition {
            Transition::Deal { .. } => Err(InvalidTransition::ReDeal),
            Transition::Play { player, card } => play_step(g, round, player as int, card),
            Transition::PredictScore { .. } => Err(InvalidTransition::RePredict),
        },
        StageView::Over => Err(InvalidTransition::GameOver),
    }
}

/// The whole effect of `transition` in state `g`: as `advance` has it, with
/// the transition added to the game's record where it was accepted.
pub open spec fn step(g: GameView, transition: Transition) -> Result<
    (GameView, Seq<Change>),
    InvalidTransition,
> {
    match advance(g, transition) {
        Ok((next, changes)) => Ok(
            (GameView { history: g.history.push(transition), ..next }, changes),
        ),
        Err(reason) => Err(reason),
    }
}

/// The trump suit of the round in play, if a round is in play and has one.
pub open spec fn trump_of(g: GameView) -> Option<Suit> {
    match g.stage {
        StageView::Deal(round) => round.trump_suit,
        StageView::PredictScores(round) => round.trump_suit,
        StageView::Play(round) => round.trump_suit,
        _ => None,
    }
}

impl RoundView {
    /// The round fits a table of `players` seats: the seats it names sit at
    /// the table, if the table has seats.
    pub open spec fn wf(self, players: int) -> bool {
        &&& 0 <= self.player
        &&& 0 <= self.potential_winner
        &&& 0 <= self.starting_player
        &&& players > 0 ==> self.player < players && self.potential_winner < players
            && self.starting_player < players
        &&& 0 <= self.hand_size <= 255
        &&& self.predicted_scores.len() == players
        &&& self.trick_scores.len() == players
    }

    /// No seat has predicted more tricks than the round has cards per seat.
    pub open spec fn predictions_in_range(self) -> bool {
        forall|seat: int|
            0 <= seat < self.predicted_scores.len() ==> (
            #[trigger] self.predicted_scores[seat] matches Some(score) ==> score <= self.hand_size)
    }

    /// Every seat has predicted, and the predictions do not add up to the
    /// number of tricks that the round has.
    pub open spec fn predictions_settled(self) -> bool {
        &&& forall|seat: int|
            0 <= seat < self.predicted_scores.len() ==> (#[trigger] self.predicted_scores[seat])
                is Some
        &&& prediction_sum(self.predicted_scores) != self.hand_size
    }

    /// Nobody has won a trick in the round yet.
    pub open spec fn no_tricks(self) -> bool {
        forall|seat: int| 0 <= seat < self.trick_scores.len() ==> self.trick_scores[seat] == 0
    }

    /// The round has not begun: the seat that opens it is the one to act.
    pub open spec fn at_its_start(self) -> bool {
        &&& self.player == self.starting_player
        &&& self.potential_winner == self.starting_player
        &&& forall|seat: int|
            0 <= seat < self.predicted_scores.len() ==> (#[trigger] self.predicted_scores[seat])
                is None
    }

    /// The seats predict in turn from the seat that opens the round: those
    /// that have predicted are the seats from that one up to the one before
    /// the seat to act.
    pub open spec fn predicted_in_turn(self, players: int) -> bool {
        &&& self.potential_winner == self.starting_player
        &&& forall|seat: int|
            0 <= seat < players ==> ((#[trigger] self.predicted_scores[seat]) is Some <==> 1
                <= seats_after(seat, self.player, players) <= seats_after(
                self.starting_player,
                self.player,
                players,
            ))
    }
}

impl GameView {
    /// The largest score, up or down, that a seat can have reached.
    pub open spec fn score_limit(self) -> int {
        match self.stage {
            StageView::PrePlay => 0,
            StageView::Deal(round) => 255 * (self.starting_hand_size - round.hand_size),
            StageView::PredictScores(round) => 255 * (self.starting_hand_size - round.hand_size),
            StageView::Play(round) => 255 * (self.starting_hand_size - round.hand_size),
            StageView::Over => 255 * self.starting_hand_size,
        }
    }

    /// No seat has a card in the open trick.
    pub open spec fn trick_empty(self) -> bool {
        forall|seat: int| 0 <= seat < self.trick.len() ==> (#[trigger] self.trick[seat]) is None
    }

    /// No seat holds a card.
    pub open spec fn hands_empty(self) -> bool {
        forall|seat: int| 0 <= seat < self.hands.len() ==> (#[trigger] self.hands[seat]).len() == 0
    }

    /// The seats play in turn: with `played` cards in the open trick, those
    /// that have played to it are the `played` seats before the seat to act,
    /// each of them holds one card fewer than the others, and the seat that
    /// leads the trick is one of them, or the seat to act if nobody has
    /// played.
    pub open spec fn played_in_turn(self, round: RoundView, played: int) -> bool {
        &&& 0 <= played < self.player_count
        &&& forall|seat: int|
            0 <= seat < self.player_count ==> ((#[trigger] self.trick[seat]) is Some <==> 1
                <= seats_after(seat, round.player, self.player_count) <= played)
        &&& forall|seat: int|
            0 <= seat < self.player_count ==> (#[trigger] self.hands[seat]).len() + (
            if self.trick[seat] is Some {
                1int
            } else {
                0int
            }) == self.hands[round.player].len()
        &&& if played == 0 {
            round.potential_winner == round.player
        } else {
            self.trick[round.potential_winner] is Some
        }
    }

    /// In a round in play, the tricks a seat has won, the cards a seat still
    /// holds and the card it may have in the open trick never exceed what was
    /// dealt to a seat.
    pub open spec fn cards_accounted(self, round: RoundView) -> bool {
        forall|winner: int, seat: int|
            0 <= winner < self.player_count && 0 <= seat < self.player_count ==> (
            #[trigger] round.trick_scores[winner]) + (#[trigger] self.hands[seat]).len() + (
            if self.trick[seat] is Some {
                1int
            } else {
                0int
            }) <= round.hand_size
    }

    /// The invariant of the game: what holds of every state that a game can
    /// reach.
    pub open spec fn wf(self) -> bool {
        &&& 0 <= self.player_count <= 255
        &&& 0 <= self.starting_hand_size <= 13
        &&& 0 <= self.decks <= 255
        &&& self.decks * 52 >= self.player_count * self.starting_hand_size
        &&& self.hands.len() == self.player_count
        &&& self.trick.len() == self.player_count
        &&& self.scores.len() == self.player_count
        &&& forall|seat: int| 0 <= seat < self.hands.len() ==> is_sorted(#[trigger] self.hands[seat])
        &&& self.decks <= 1 ==> hands_disjoint(self.hands)
        &&& forall|card: Card| #[trigger] times_held(self.hands, card) <= self.decks
        &&& forall|seat: int|
            0 <= seat < self.scores.len() ==> -self.score_limit() <= (#[trigger] self.scores[seat])
                <= self.score_limit()
        &&& match self.stage {
            StageView::PrePlay => self.trick_empty() && self.hands_empty(),
            StageView::Deal(round) => {
                &&& round.wf(self.player_count)
                &&& round.hand_size <= self.starting_hand_size
                &&& round.no_tricks()
                &&& round.at_its_start()
                &&& self.trick_empty()
                &&& self.hands_empty()
            },
            StageView::PredictScores(round) => {
                &&& round.wf(self.player_count)
                &&& round.hand_size <= self.starting_hand_size
                &&& round.no_tricks()
                &&& round.predicted_in_turn(self.player_count)
                &&& round.predictions_in_range()
                &&& self.trick_empty()
                &&& forall|seat: int|
                    0 <= seat < self.hands.len() ==> (#[trigger] self.hands[seat]).len()
                        == round.hand_size
            },
            StageView::Play(round) => {
                &&& self.player_count >= 1
                &&& round.wf(self.player_count)
                &&& round.hand_size <= self.starting_hand_size
                &&& round.predictions_in_range()
                &&& round.predictions_settled()
                &&& self.cards_accounted(round)
                &&& tricks_won(round.trick_scores) + self.hands[round.player].len()
                    == round.hand_size
                &&& exists|played: int| #[trigger] self.played_in_turn(round, played)
            },
            StageView::Over => self.trick_empty() && self.hands_empty(),
        }
    }
}

/// The deck of a round holds the cards of its packs, whatever the seed.
pub proof fn lemma_round_deck(g: GameView, seed: Seq<u8>)
    requires
        g.decks >= 0,
    ensures
        round_deck(g, seed).to_multiset() == fresh_deck(g.decks as nat).to_multiset(),
        round_deck(g, seed).len() == 52 * g.decks,
        g.decks <= 1 ==> round_deck(g, seed).no_duplicates(),
{
    to_multiset_len(fresh_deck(g.decks as nat));
    to_multiset_len(round_deck(g, seed));
    if g.decks <= 1 {
        lemma_deck_has_no_duplicates(g.decks as nat);
        lemma_same_cards(fresh_deck(g.decks as nat), round_deck(g, seed));
    }
}

/// An accepted transition takes a state that a game can reach to another such
/// state.
pub proof fn lemma_advance_keeps_invariant(g: GameView, transition: Transition)
    requires
        g.wf(),
    ensures
        advance(g, transition) matches Ok((next, changes)) ==> next.wf(),
        step(g, transition) matches Ok((next, changes)) ==> next.wf(),
{
    lemma_advance_alone_keeps_invariant(g, transition);
    if let Ok((next, changes)) = advance(g, transition) {
        lemma_record_is_free(next, g.history.push(transition));
    }
}

/// The record of the transitions has no part in the invariant.
pub proof fn lemma_record_is_free(g: GameView, history: Seq<Transition>)
    requires
        g.wf(),
    ensures
        (GameView { history, ..g }).wf(),
{
    let recorded = GameView { history, ..g };
    if let StageView::Play(round) = g.stage {
        let played = choose|played: int| g.played_in_turn(round, played);
        assert(recorded.played_in_turn(round, played));
    }
}

proof fn lemma_advance_alone_keeps_invariant(g: GameView, transition: Transition)
    requires
        g.wf(),
    ensures
        advance(g, transition) matches Ok((next, changes)) ==> next.wf(),
{
    match g.stage {
        StageView::Deal(round) => {
            if let Transition::Deal { seed } = transition {
                let next = deal_step(g, round, seed@).0;
                lemma_round_deck(g, seed@);
                assert(g.player_count * round.hand_size <= 52 * g.decks) by (nonlinear_arith)
                    requires
                        g.decks * 52 >= g.player_count * g.starting_hand_size,
                        0 <= round.hand_size <= g.starting_hand_size,
                        0 <= g.player_count,
                ;
                lemma_dealt_hands(
                    round_deck(g, seed@),
                    g.player_count as nat,
                    round.hand_size as nat,
                );
                if g.decks <= 1 {
                    lemma_dealt_hands_disjoint(
                        round_deck(g, seed@),
                        g.player_count as nat,
                        round.hand_size as nat,
                    );
                }
                assert forall|card: Card| #[trigger]
                    times_held(next.hands, card) <= g.decks by {
                    lemma_dealt_from_the_deck(
                        round_deck(g, seed@),
                        g.player_count as nat,
                        round.hand_size as nat,
                        card,
                    );
                    lemma_deck_holds_each_card(g.decks as nat, card);
                }
                assert(next.wf());
            }
        },
        StageView::PredictScores(round) => {
            if let Transition::PredictScore { player, score } = transition {
                if let Ok((next, changes)) = predict_step(g, round, player as int, score) {
                    lemma_predict_keeps_invariant(g, round, player as int, score);
                }
            }
        },
        StageView::Play(round) => {
            if let Transition::Play { player, card } = transition {
                if let Ok((next, changes)) = play_step(g, round, player as int, card) {
                    lemma_play_keeps_invariant(g, round, player as int, card);
                }
            }
        },
        _ => {},
    }
}

/// The seat after the last is the first; any other is followed by the seat
/// with the next number.
pub proof fn lemma_next_seat(seat: int, players: int)
    requires
        0 <= seat < players,
    ensures
        next_seat(seat, players) == if seat + 1 == players {
            0
        } else {
            seat + 1
        },
{
    if seat + 1 == players {
        vstd::arithmetic::div_mod::lemma_mod_self_0(players);
    } else {
        vstd::arithmetic::div_mod::lemma_small_mod((seat + 1) as nat, players as nat);
    }
}

/// All seats have predicted exactly if as many predictions were made as
/// there are seats.
pub proof fn lemma_all_predicted(predictions: Seq<Option<u8>>)
    ensures
        predictions_made(predictions) <= predictions.len(),
        predictions_made(predictions) == predictions.len() <==> forall|seat: int|
            0 <= seat < predictions.len() ==> (#[trigger] predictions[seat]) is Some,
    decreases predictions.len(),
{
    if predictions.len() > 0 {
        let front = predictions.drop_last();
        lemma_all_predicted(front);
        if predictions_made(predictions) == predictions.len() {
            assert forall|seat: int| 0 <= seat < predictions.len() implies (
            #[trigger] predictions[seat]) is Some by {
                if seat < front.len() {
                    assert(front[seat] is Some);
                }
            }
        }
        if forall|seat: int| 0 <= seat < predictions.len() ==> (#[trigger] predictions[seat]) is Some {
            assert forall|seat: int| 0 <= seat < front.len() implies (#[trigger] front[seat]) is Some by {
                assert(predictions[seat] is Some);
            }
            assert(predictions.last() == predictions[predictions.len() - 1]);
        }
    }
}

/// A trick more for one seat is a trick more in all.
pub proof fn lemma_tricks_won_update(tricks: Seq<u8>, seat: int, won: u8)
    requires
        0 <= seat < tricks.len(),
    ensures
        tricks_won(tricks.update(seat, won)) == tricks_won(tricks) - tricks[seat] + won,
    decreases tricks.len(),
{
    let after = tricks.update(seat, won);
    if seat == tricks.len() - 1 {
        assert(after.drop_last() =~= tricks.drop_last());
    } else {
        lemma_tricks_won_update(tricks.drop_last(), seat, won);
        assert(after.drop_last() =~= tricks.drop_last().update(seat, won));
    }
}

/// Where no seat has won a trick, no trick was won.
pub proof fn lemma_no_tricks_won(tricks: Seq<u8>)
    requires
        forall|seat: int| 0 <= seat < tricks.len() ==> tricks[seat] == 0,
    ensures
        tricks_won(tricks) == 0,
    decreases tricks.len(),
{
    if tricks.len() > 0 {
        lemma_no_tricks_won(tricks.drop_last());
    }
}

/// A prediction by a seat that had made none is one prediction more, and
/// adds its number to the sum.
pub proof fn lemma_prediction_added(predictions: Seq<Option<u8>>, seat: int, score: u8)
    requires
        0 <= seat < predictions.len(),
        predictions[seat] is None,
    ensures
        predictions_made(predictions.update(seat, Some(score))) == predictions_made(predictions)
            + 1,
        prediction_sum(predictions.update(seat, Some(score))) == prediction_sum(predictions)
            + score,
    decreases predictions.len(),
{
    let after = predictions.update(seat, Some(score));
    if seat == predictions.len() - 1 {
        assert(after.drop_last() =~= predictions.drop_last());
    } else {
        lemma_prediction_added(predictions.drop_last(), seat, score);
        assert(after.drop_last() =~= predictions.drop_last().update(seat, Some(score)));
    }
}

/// An accepted prediction takes a state that a game can reach to another
/// such state.
pub proof fn lemma_predict_keeps_invariant(g: GameView, round: RoundView, seat: int, score: u8)
    requires
        g.wf(),
        g.stage == StageView::PredictScores(round),
        predict_step(g, round, seat, score) is Ok,
    ensures
        predict_step(g, round, seat, score).unwrap().0.wf(),
{
    let next = predict_step(g, round, seat, score).unwrap().0;
    let players = g.player_count;
    let predictions = round.predicted_scores.update(seat, Some(score));
    let turn = next_seat(round.player, players);
    let made = seats_after(round.starting_player, round.player, players);
    lemma_next_seat(round.player, players);
    lemma_all_predicted(predictions);
    assert(round.predicted_scores[round.player] is None);
    lemma_prediction_added(round.predicted_scores, seat, score);
    let following = RoundView { player: turn, predicted_scores: predictions, ..round };
    assert forall|s: int| 0 <= s < predictions.len() implies (
    #[trigger] predictions[s] matches Some(said) ==> said <= round.hand_size) by {
        if s != seat {
            assert(predictions[s] == round.predicted_scores[s]);
        }
    }
    assert(following.predictions_in_range());
    if made + 1 == players {
        assert(turn == round.starting_player);
        assert forall|s: int| 0 <= s < players implies (#[trigger] predictions[s]) is Some by {
            if s != seat {
                assert(round.predicted_scores[s] is Some);
            }
        }
        let following = RoundView { player: turn, predicted_scores: predictions, ..round };
        assert(next.stage == StageView::Play(following));
        assert(next.played_in_turn(following, 0));
        lemma_no_tricks_won(round.trick_scores);
    } else {
        assert(predictions[turn] == round.predicted_scores[turn]);
        assert(predictions[turn] is None);
        let following = RoundView { player: turn, predicted_scores: predictions, ..round };
        assert(next.stage == StageView::PredictScores(following));
        assert forall|s: int| 0 <= s < players implies ((#[trigger] predictions[s]) is Some <==> 1
            <= seats_after(s, turn, players) <= seats_after(
            round.starting_player,
            turn,
            players,
        )) by {
            if s != seat {
                assert(predictions[s] == round.predicted_scores[s]);
            }
        }
    }
}

/// When a play completes a trick, the seat that takes it has won fewer tricks
/// in the round than the round has cards per seat.
pub proof fn lemma_trick_winner_bound(g: GameView, round: RoundView, seat: int, card: Card)
    requires
        g.wf(),
        g.stage == StageView::Play(round),
        play_step(g, round, seat, card) is Ok,
        trick_full(g.trick.update(seat, Some(card))),
    ensures
        round.trick_scores[leader_after(g.trick.update(seat, Some(card)), round, seat, card)]
            < round.hand_size,
{
    let trick = g.trick.update(seat, Some(card));
    let winner = leader_after(trick, round, seat, card);
    lemma_remove_value_sorted(g.hands[seat], card);
    assert(trick[winner] is Some);
    assert(round.trick_scores[winner] + g.hands[winner].len() + (if g.trick[winner] is Some {
        1int
    } else {
        0int
    }) <= round.hand_size);
}

/// An accepted play takes a state that a game can reach to another such state.
pub proof fn lemma_play_keeps_invariant(g: GameView, round: RoundView, seat: int, card: Card)
    requires
        g.wf(),
        g.stage == StageView::Play(round),
        play_step(g, round, seat, card) is Ok,
    ensures
        play_step(g, round, seat, card).unwrap().0.wf(),
{
    let next = play_step(g, round, seat, card).unwrap().0;
    let hands = g.hands.update(seat, g.hands[seat].remove_value(card));
    let trick = g.trick.update(seat, Some(card));
    let winner = leader_after(trick, round, seat, card);
    lemma_remove_value_sorted(g.hands[seat], card);
    assert(hands[seat].len() == g.hands[seat].len() - 1);
    assert forall|s: int| 0 <= s < hands.len() implies is_sorted(#[trigger] hands[s]) by {
        if s != seat {
            assert(hands[s] == g.hands[s]);
        }
    }
    assert forall|c: Card| #[trigger] times_held(hands, c) <= g.decks by {
        lemma_fewer_held(g.hands, seat, g.hands[seat].remove_value(card), c);
        assert(times_held(g.hands, c) <= g.decks);
    }
    if g.decks <= 1 {
        assert forall|s: int| 0 <= s < hands.len() implies (
        #[trigger] hands[s]).no_duplicates() by {
            assert(g.hands[s].no_duplicates());
        }
        assert forall|a: int, b: int, c: Card|
            #![trigger hands[a].contains(c), hands[b].contains(c)]
            0 <= a < hands.len() && 0 <= b < hands.len() && a != b && hands[a].contains(
                c,
            ) implies !hands[b].contains(c) by {
            assert(g.hands[a].contains(c));
            if hands[b].contains(c) {
                assert(g.hands[b].contains(c));
            }
        }
        assert(hands_disjoint(hands));
    }
    assert forall|w: int, s: int|
        0 <= w < g.player_count && 0 <= s < g.player_count implies (
    #[trigger] round.trick_scores[w]) + (#[trigger] hands[s]).len() + (if trick[s] is Some {
        1int
    } else {
        0int
    }) <= round.hand_size by {
        assert(round.trick_scores[w] + g.hands[s].len() + (if g.trick[s] is Some {
            1int
        } else {
            0int
        }) <= round.hand_size);
    }
    let players = g.player_count;
    let played = choose|played: int| g.played_in_turn(round, played);
    let turn = next_seat(seat, players);
    lemma_next_seat(seat, players);
    assert(g.trick[seat] is None);
    assert(trick[round.potential_winner] is Some);
    assert(trick[winner] is Some);
    assert forall|s: int| 0 <= s < players implies (#[trigger] hands[s]).len() + (
    if trick[s] is Some {
        1int
    } else {
        0int
    }) == g.hands[seat].len() by {
        assert(g.hands[s].len() + (if g.trick[s] is Some {
            1int
        } else {
            0int
        }) == g.hands[seat].len());
    }
    if played + 1 == players {
        assert forall|s: int| 0 <= s < players implies (#[trigger] trick[s]) is Some by {
            if s != seat {
                assert(g.trick[s] is Some);
            }
        }
        assert(trick_full(trick));
    } else {
        assert(g.trick[turn] is None);
        assert(trick[turn] is None);
        assert(!trick_full(trick));
        let following = RoundView { player: turn, potential_winner: winner, ..round };
        assert(next.stage == StageView::Play(following));
        assert forall|s: int| 0 <= s < players implies ((#[trigger] trick[s]) is Some <==> 1
            <= seats_after(s, turn, players) <= played + 1) by {
            if s != seat {
                assert(trick[s] == g.trick[s]);
            }
        }
        assert(hands[turn] == g.hands[turn]);
        assert(next.played_in_turn(following, played + 1));
    }
    if trick_full(trick) {
        assert(trick[winner] is Some);
        assert(round.trick_scores[winner] + hands[winner].len() + 1 <= round.hand_size);
        assert forall|s: int| 0 <= s < players implies (#[trigger] hands[s]).len()
            == hands[winner].len() by {
            assert(trick[s] is Some);
            assert(trick[winner] is Some);
        }
        let tricks = round.trick_scores.update(winner, (round.trick_scores[winner] + 1) as u8);
        lemma_tricks_won_update(
            round.trick_scores,
            winner,
            (round.trick_scores[winner] + 1) as u8,
        );
        assert forall|w: int, s: int|
            0 <= w < g.player_count && 0 <= s < g.player_count implies (#[trigger] tricks[w]) + (
        #[trigger] hands[s]).len() <= round.hand_size by {
            assert(trick[s] is Some);
            assert(round.trick_scores[w] + hands[s].len() + 1 <= round.hand_size);
        }
        if hands[winner].len() != 0 {
            let following = RoundView {
                player: winner,
                potential_winner: winner,
                trick_scores: tricks,
                ..round
            };
            assert(next.stage == StageView::Play(following));
            assert(next.played_in_turn(following, 0));
        }
        if hands[winner].len() == 0 {
            assert(next.hands_empty());
            lemma_next_seat(round.starting_player, players);
            let scores = scores_after(g.scores, round.predicted_scores, tricks);
            assert forall|s: int| 0 <= s < scores.len() implies -next.score_limit() <= (
            #[trigger] scores[s]) <= next.score_limit() by {
                assert(tricks[s] + hands[s].len() <= round.hand_size);
                assert(-g.score_limit() <= g.scores[s] <= g.score_limit());
            }
            assert(next.wf());
        } else {
            assert(next.wf());
        }
    } else {
        assert(next.wf());
    }
}

} // verus!
