//! The game engine: it holds one game and moves it on by the transitions it
//! accepts.

use crate::card::{beats, trick_card_comparator, Card, Suit};
use crate::deck::{deal_hands, lemma_nothing_held, shuffled_new_deck, times_held};
use crate::errors::InvalidTransition;
use crate::model::{
    deal_step, decks_needed, initial_game, leader_after, lemma_advance_keeps_invariant,
    lemma_round_deck, lemma_trick_winner_bound, play_step, predict_step, prediction_sum,
    predictions_made, round_score, scores_after, started, step, trick_full, trump_of, valid_config,
    Change, GameView, RoundView, StageView, Transition,
};
use crate::player::Player;
use std::cmp::Ordering;
use vstd::prelude::*;

verus! {

/// The cards laid down in the open trick, one place per seat.
pub type Trick = Vec<Option<Card>>;

/// A change that an accepted transition made, with the new value.
#[derive(Debug)]
pub enum StateUpdate {
    CardsDealt,
    Predictions(Vec<Option<u8>>),
    Trick(Trick),
    RoundScores(Vec<u8>),
    GameScores(Vec<i64>),
}

/// The scores as mathematical integers.
pub open spec fn as_ints(scores: Seq<i64>) -> Seq<int> {
    scores.map_values(|score: i64| score as int)
}

impl View for StateUpdate {
    type V = Change;

    open spec fn view(&self) -> Change {
        match self {
            StateUpdate::CardsDealt => Change::CardsDealt,
            StateUpdate::Predictions(predictions) => Change::Predictions(predictions@),
            StateUpdate::Trick(trick) => Change::Trick(trick@),
            StateUpdate::RoundScores(tricks) => Change::RoundScores(tricks@),
            StateUpdate::GameScores(scores) => Change::GameScores(as_ints(scores@)),
        }
    }
}

/// What a list of updates says, as changes.
pub open spec fn changes_of(updates: Seq<StateUpdate>) -> Seq<Change> {
    updates.map_values(|update: StateUpdate| update@)
}

struct Round {
    player: usize,
    potential_winner: usize,
    hand_size: u8,
    trump_suit: Option<Suit>,
    predicted_scores: Vec<Option<u8>>,
    trick_scores: Vec<u8>,
    starting_player: usize,
}

impl View for Round {
    type V = RoundView;

    closed spec fn view(&self) -> RoundView {
        RoundView {
            player: self.player as int,
            potential_winner: self.potential_winner as int,
            hand_size: self.hand_size as int,
            trump_suit: self.trump_suit,
            predicted_scores: self.predicted_scores@,
            trick_scores: self.trick_scores@,
            starting_player: self.starting_player as int,
        }
    }
}

enum Stage {
    PrePlay,
    Deal(Round),
    PredictScores(Round),
    Play(Round),
    Over,
}

impl View for Stage {
    type V = StageView;

    closed spec fn view(&self) -> StageView {
        match self {
            Stage::PrePlay => StageView::PrePlay,
            Stage::Deal(round) => StageView::Deal(round@),
            Stage::PredictScores(round) => StageView::PredictScores(round@),
            Stage::Play(round) => StageView::Play(round@),
            Stage::Over => StageView::Over,
        }
    }
}

/// One game of Judgment.
pub struct Judgment {
    stage: Stage,
    players: Vec<Player>,
    trick: Trick,
    scores: Vec<i64>,
    decks: u8,
    player_count: u8,
    starting_hand_size: u8,
    history: Vec<Transition>,
}

impl View for Judgment {
    type V = GameView;

    closed spec fn view(&self) -> GameView {
        GameView {
            stage: self.stage@,
            hands: self.players@.map_values(|player: Player| player@),
            trick: self.trick@,
            scores: as_ints(self.scores@),
            decks: self.decks as int,
            player_count: self.player_count as int,
            starting_hand_size: self.starting_hand_size as int,
            history: self.history@,
        }
    }
}

/// A copy of `values`.
pub(crate) fn copy_of<T: Copy>(values: &Vec<T>) -> (copy: Vec<T>)
    ensures
        copy@ == values@,
{
    let mut copy: Vec<T> = Vec::new();
    let mut i: usize = 0;
    while i < values.len()
        invariant
            i <= values.len(),
            copy@ == values@.take(i as int),
        decreases values.len() - i,
    {
        copy.push(values[i]);
        assert(values@.take(i as int).push(values@[i as int]) =~= values@.take(i + 1));
        i += 1;
    }
    assert(values@.take(i as int) =~= values@);
    copy
}

/// `count` copies of `value`.
fn filled<T: Copy>(value: T, count: usize) -> (values: Vec<T>)
    ensures
        values@ == Seq::new(count as nat, |i: int| value),
{
    let mut values: Vec<T> = Vec::new();
    let mut i: usize = 0;
    while i < count
        invariant
            i <= count,
            values@ == Seq::new(i as nat, |k: int| value),
        decreases count - i,
    {
        values.push(value);
        assert(values@ =~= Seq::new((i + 1) as nat, |k: int| value));
        i += 1;
    }
    values
}

/// The number of seats that have predicted.
fn count_predictions(predictions: &Vec<Option<u8>>) -> (made: usize)
    ensures
        made == predictions_made(predictions@),
{
    let mut made: usize = 0;
    let mut i: usize = 0;
    while i < predictions.len()
        invariant
            i <= predictions.len(),
            made <= i,
            made == predictions_made(predictions@.take(i as int)),
        decreases predictions.len() - i,
    {
        assert(predictions@.take(i + 1).drop_last() =~= predictions@.take(i as int));
        if predictions[i].is_some() {
            made += 1;
        }
        i += 1;
    }
    assert(predictions@.take(i as int) =~= predictions@);
    made
}

/// The sum of the predictions made.
fn sum_predictions(predictions: &Vec<Option<u8>>) -> (sum: u64)
    requires
        predictions@.len() <= 255,
    ensures
        sum == prediction_sum(predictions@),
        sum <= 255 * 255,
{
    let mut sum: u64 = 0;
    let mut i: usize = 0;
    while i < predictions.len()
        invariant
            i <= predictions.len(),
            predictions@.len() <= 255,
            sum <= 255 * i,
            sum == prediction_sum(predictions@.take(i as int)),
        decreases predictions.len() - i,
    {
        assert(predictions@.take(i + 1).drop_last() =~= predictions@.take(i as int));
        match predictions[i] {
            Some(score) => {
                sum += score as u64;
            },
            None => {},
        }
        i += 1;
    }
    assert(predictions@.take(i as int) =~= predictions@);
    sum
}

/// Whether every seat has laid down a card.
fn is_full(trick: &Trick) -> (full: bool)
    ensures
        full == trick_full(trick@),
{
    let mut i: usize = 0;
    while i < trick.len()
        invariant
            i <= trick.len(),
            forall|seat: int| 0 <= seat < i ==> (#[trigger] trick@[seat]) is Some,
        decreases trick.len() - i,
    {
        if trick[i].is_none() {
            return false;
        }
        i += 1;
    }
    true
}

/// Whether `played` takes the trick from `leading` under `trump_suit`.
fn takes_lead(played: &Card, leading: &Card, trump_suit: &Option<Suit>) -> (wins: bool)
    ensures
        wins == beats(*played, *leading, *trump_suit),
{
    match trick_card_comparator(leading, played, trump_suit.as_ref()) {
        Ordering::Less => true,
        Ordering::Equal => false,
        Ordering::Greater => false,
    }
}

/// Adds to each score what its seat gained or lost in the round.
fn settle_scores(scores: &mut Vec<i64>, predictions: &Vec<Option<u8>>, tricks: &Vec<u8>)
    requires
        predictions@.len() == old(scores)@.len(),
        tricks@.len() == old(scores)@.len(),
        forall|seat: int|
            0 <= seat < old(scores)@.len() ==> -1_000_000 <= (#[trigger] old(scores)@[seat])
                <= 1_000_000,
    ensures
        as_ints(final(scores)@) == scores_after(as_ints(old(scores)@), predictions@, tricks@),
{
    let ghost before = scores@;
    let mut i: usize = 0;
    while i < scores.len()
        invariant
            i <= scores@.len(),
            scores@.len() == before.len(),
            predictions@.len() == before.len(),
            tricks@.len() == before.len(),
            forall|seat: int|
                0 <= seat < before.len() ==> -1_000_000 <= (#[trigger] before[seat]) <= 1_000_000,
            forall|seat: int|
                0 <= seat < i ==> (#[trigger] scores@[seat]) == before[seat] + round_score(
                    predictions@[seat],
                    tricks@[seat],
                ),
            forall|seat: int| i <= seat < before.len() ==> (#[trigger] scores@[seat]) == before[seat],
        decreases scores.len() - i,
    {
        let won = tricks[i];
        let hit = match predictions[i] {
            Some(prediction) => prediction == won,
            None => false,
        };
        let score = scores[i];
        assert(-1_000_000 <= before[i as int] <= 1_000_000);
        if hit {
            scores.set(i, score + won as i64);
        } else {
            scores.set(i, score - won as i64);
        }
        i += 1;
    }
    assert(as_ints(scores@) =~= scores_after(as_ints(before), predictions@, tricks@));
}

impl Judgment {
    /// The invariant of the game, which every function here keeps.
    pub open spec fn wf(&self) -> bool {
        self@.wf()
    }

    /// Whether a game can be set up for these numbers. It can if no hand is
    /// to hold more than 13 cards and the decks, where their number is given,
    /// hold a card for every place in every hand.
    pub fn is_valid_config(players: u8, starting_hand_size: u8, decks: Option<u8>) -> (valid: bool)
        ensures
            valid == valid_config(players, starting_hand_size, decks),
    {
        if starting_hand_size > 13 {
            return false;
        }
        match decks {
            Some(decks) => decks as u32 >= Self::estimated_decks(players, starting_hand_size),
            None => true,
        }
    }

    fn estimated_decks(players: u8, starting_hand_size: u8) -> (decks: u32)
        requires
            starting_hand_size <= 13,
        ensures
            decks == decks_needed(players as int, starting_hand_size as int),
            decks <= 64,
            decks * 52 >= players * starting_hand_size,
    {
        assert(players * starting_hand_size <= 255 * 13) by (nonlinear_arith)
            requires
                players <= 255,
                starting_hand_size <= 13,
        ;
        let cards: u32 = players as u32 * starting_hand_size as u32;
        (cards + 51) / 52
    }

    /// A new game for `players` seats whose first round has
    /// `starting_hand_size` cards per seat, from `decks` decks or, where no
    /// number is given, from as many as the first round needs.
    pub fn new(players: u8, starting_hand_size: u8, decks: Option<u8>) -> (game: Judgment)
        requires
            valid_config(players, starting_hand_size, decks),
        ensures
            game.wf(),
            game@ == initial_game(
                players as int,
                starting_hand_size as int,
                match decks {
                    Some(decks) => decks as int,
                    None => decks_needed(players as int, starting_hand_size as int),
                },
            ),
    {
        let estimated = Self::estimated_decks(players, starting_hand_size);
        let actual_decks: u8 = match decks {
            Some(decks) => decks,
            None => estimated as u8,
        };
        let mut seats: Vec<Player> = Vec::new();
        let mut i: u8 = 0;
        while i < players
            invariant
                i <= players,
                seats@.len() == i,
                forall|seat: int| 0 <= seat < i ==> (#[trigger] seats@[seat])@ == Seq::<Card>::empty(),
            decreases players - i,
        {
            seats.push(Player::new());
            i += 1;
        }
        let game = Judgment {
            stage: Stage::PrePlay,
            players: seats,
            trick: filled(None, players as usize),
            scores: filled(0i64, players as usize),
            decks: actual_decks,
            player_count: players,
            starting_hand_size,
            history: Vec::new(),
        };
        proof {
            let expected = initial_game(
                players as int,
                starting_hand_size as int,
                actual_decks as int,
            );
            assert(game@.hands =~= expected.hands);
            assert forall|card: Card| #[trigger] times_held(expected.hands, card) == 0 by {
                lemma_nothing_held(expected.hands, card);
            }
            assert(game@.scores =~= expected.scores);
            assert(game@.trick =~= expected.trick);
            assert(game@ =~~= expected);
        }
        game
    }

    /// Starts the game: the first round waits for its deal. A game that was
    /// started before is not started again.
    pub fn start(&mut self) -> (res: Result<(), InvalidTransition>)
        requires
            old(self).wf(),
        ensures
            final(self).wf(),
            old(self)@.stage is PrePlay ==> res is Ok && final(self)@ == started(old(self)@),
            !(old(self)@.stage is PrePlay) ==> res == Err::<(), InvalidTransition>(
                InvalidTransition::Restart,
            ) && final(self)@ == old(self)@,
    {
        match &self.stage {
            Stage::PrePlay => {},
            _ => {
                return Err(InvalidTransition::Restart);
            },
        }
        let seats = self.player_count as usize;
        let round = Round {
            player: 0,
            potential_winner: 0,
            hand_size: self.starting_hand_size,
            trump_suit: Some(Suit::Spades),
            predicted_scores: filled(None, seats),
            trick_scores: filled(0u8, seats),
            starting_player: 0,
        };
        self.stage = Stage::Deal(round);
        proof {
            assert(self@ =~~= started(old(self)@));
        }
        Ok(())
    }

    /// Moves the game on by `transition`, or refuses it. An accepted
    /// transition is recorded and answered with the changes it made, in
    /// order; a refused one changes nothing.
    pub fn update(&mut self, transition: Transition) -> (res: Result<
        Vec<StateUpdate>,
        InvalidTransition,
    >)
        requires
            old(self).wf(),
        ensures
            final(self).wf(),
            match step(old(self)@, transition) {
                Ok((next, changes)) => res is Ok && final(self)@ == next && changes_of(
                    res.unwrap()@,
                ) == changes,
                Err(reason) => res == Err::<Vec<StateUpdate>, InvalidTransition>(reason)
                    && final(self)@ == old(self)@,
            },
    {
        proof {
            lemma_advance_keeps_invariant(self@, transition);
        }
        let res = match &self.stage {
            Stage::PrePlay => match transition {
                Transition::Deal { .. } => Err(InvalidTransition::DealBeforeGameStart),
                Transition::Play { .. } => Err(InvalidTransition::PlayBeforeScorePrediction),
                Transition::PredictScore { .. } => Err(InvalidTransition::PredictBeforeDeal),
            },
            Stage::Deal(_) => match transition {
                Transition::Deal { seed } => Ok(self.deal(&seed)),
                Transition::Play { .. } => Err(InvalidTransition::PlayBeforeScorePrediction),
                Transition::PredictScore { .. } => Err(InvalidTransition::PredictBeforeDeal),
            },
            Stage::PredictScores(_) => match transition {
                Transition::Deal { .. } => Err(InvalidTransition::ReDeal),
                Transition::Play { .. } => Err(InvalidTransition::PlayBeforeScorePrediction),
                Transition::PredictScore { player, score } => self.predict(player, score),
            },
            Stage::Play(_) => match transition {
                Transition::Deal { .. } => Err(InvalidTransition::ReDeal),
                Transition::Play { player, card } => self.play(player, card),
                Transition::PredictScore { .. } => Err(InvalidTransition::RePredict),
            },
            Stage::Over => Err(InvalidTransition::GameOver),
        };
        if res.is_ok() {
            self.history.push(transition);
        }
        proof {
            if let Ok((next, changes)) = step(old(self)@, transition) {
                assert(self@ =~~= next);
            }
        }
        res
    }

    fn take_stage(&mut self) -> (stage: Stage)
        ensures
            stage == old(self).stage,
            final(self).stage == Stage::Over,
            final(self).players == old(self).players,
            final(self).trick == old(self).trick,
            final(self).scores == old(self).scores,
            final(self).decks == old(self).decks,
            final(self).player_count == old(self).player_count,
            final(self).starting_hand_size == old(self).starting_hand_size,
            final(self).history == old(self).history,
    {
        let mut stage = Stage::Over;
        std::mem::swap(&mut self.stage, &mut stage);
        stage
    }

    fn deal(&mut self, seed: &[u8; 32]) -> (updates: Vec<StateUpdate>)
        requires
            old(self).wf(),
            old(self)@.stage is Deal,
        ensures
            final(self)@ == deal_step(old(self)@, old(self)@.stage->Deal_0, seed@).0,
            changes_of(updates@) == deal_step(old(self)@, old(self)@.stage->Deal_0, seed@).1,
    {
        let stage = self.take_stage();
        match stage {
            Stage::Deal(round) => {
                let seats = self.player_count as usize;
                let hand_size = round.hand_size as usize;
                let subdecks = self.decks as usize;
                proof {
                    lemma_round_deck(old(self)@, seed@);
                    assert(seats * hand_size <= 52 * subdecks) by (nonlinear_arith)
                        requires
                            subdecks * 52 >= seats * self.starting_hand_size,
                            hand_size <= self.starting_hand_size,
                            0 <= seats,
                    ;
                }
                let cards = shuffled_new_deck(subdecks, seed);
                self.players = deal_hands(cards, seats, hand_size);
                self.stage = Stage::PredictScores(round);
                let mut updates: Vec<StateUpdate> = Vec::new();
                updates.push(StateUpdate::CardsDealt);
                proof {
                    let expected = deal_step(old(self)@, old(self)@.stage->Deal_0, seed@);
                    assert(self@.hands =~= expected.0.hands);
                    assert(self@ =~~= expected.0);
                    assert(changes_of(updates@) =~= expected.1);
                }
                updates
            },
            other => {
                self.stage = other;
                Vec::new()
            },
        }
    }

    fn predict(&mut self, seat: usize, score: u8) -> (res: Result<
        Vec<StateUpdate>,
        InvalidTransition,
    >)
        requires
            old(self).wf(),
            old(self)@.stage is PredictScores,
        ensures
            match predict_step(
                old(self)@,
                old(self)@.stage->PredictScores_0,
                seat as int,
                score,
            ) {
                Ok((next, changes)) => res is Ok && final(self)@ == next && changes_of(
                    res.unwrap()@,
                ) == changes,
                Err(reason) => res == Err::<Vec<StateUpdate>, InvalidTransition>(reason)
                    && final(self)@ == old(self)@,
            },
    {
        let seats = self.player_count as usize;
        match &self.stage {
            Stage::PredictScores(round) => {
                if round.player != seat || seat >= seats {
                    return Err(InvalidTransition::OutOfTurnPlay);
                }
                if score > round.hand_size {
                    return Err(InvalidTransition::PredictionOutOfRange);
                }
                if count_predictions(&round.predicted_scores) == seats - 1 {
                    let sum = sum_predictions(&round.predicted_scores);
                    if sum + score as u64 == round.hand_size as u64 {
                        return Err(InvalidTransition::LastPlayerPrediction);
                    }
                }
            },
            _ => {
                return Err(InvalidTransition::PredictBeforeDeal);
            },
        }
        let stage = self.take_stage();
        match stage {
            Stage::PredictScores(mut round) => {
                round.predicted_scores.set(seat, Some(score));
                round.player = (round.player + 1) % seats;
                let predictions = copy_of(&round.predicted_scores);
                if count_predictions(&round.predicted_scores) == seats {
                    self.stage = Stage::Play(round);
                } else {
                    self.stage = Stage::PredictScores(round);
                }
                let mut updates: Vec<StateUpdate> = Vec::new();
                updates.push(StateUpdate::Predictions(predictions));
                proof {
                    let expected = predict_step(
                        old(self)@,
                        old(self)@.stage->PredictScores_0,
                        seat as int,
                        score,
                    ).unwrap();
                    assert(self@ =~~= expected.0);
                    assert(changes_of(updates@) =~= expected.1);
                }
                Ok(updates)
            },
            other => {
                self.stage = other;
                Err(InvalidTransition::PredictBeforeDeal)
            },
        }
    }

    fn play(&mut self, seat: usize, card: Card) -> (res: Result<
        Vec<StateUpdate>,
        InvalidTransition,
    >)
        requires
            old(self).wf(),
            old(self)@.stage is Play,
        ensures
            match play_step(old(self)@, old(self)@.stage->Play_0, seat as int, card) {
                Ok((next, changes)) => res is Ok && final(self)@ == next && changes_of(
                    res.unwrap()@,
                ) == changes,
                Err(reason) => res == Err::<Vec<StateUpdate>, InvalidTransition>(reason)
                    && final(self)@ == old(self)@,
            },
    {
        let seats = self.player_count as usize;
        match &self.stage {
            Stage::Play(round) => {
                if round.player != seat || seat >= seats {
                    return Err(InvalidTransition::OutOfTurnPlay);
                }
            },
            _ => {
                return Err(InvalidTransition::PlayBeforeScorePrediction);
            },
        }
        let ghost hands_before = self@.hands;
        let mut holder = Player::new();
        std::mem::swap(&mut holder, &mut self.players[seat]);
        let removed = holder.remove(&card);
        std::mem::swap(&mut holder, &mut self.players[seat]);
        if removed.is_none() {
            proof {
                assert(self@.hands =~= hands_before);
                assert(self@ =~~= old(self)@);
            }
            return Err(InvalidTransition::NoSuchPlayerCard);
        }
        self.trick.set(seat, Some(card));
        let stage = self.take_stage();
        match stage {
            Stage::Play(mut round) => {
                let ghost round_before = round@;
                let ghost expected = play_step(old(self)@, round_before, seat as int, card).unwrap();
                let ghost hands = hands_before.update(
                    seat as int,
                    hands_before[seat as int].remove_value(card),
                );
                proof {
                    assert(self@.hands =~= hands);
                    lemma_advance_keeps_invariant(
                        old(self)@,
                        Transition::Play { player: seat, card },
                    );
                }
                let winner = match self.trick[round.potential_winner] {
                    Some(leading) => if takes_lead(&card, &leading, &round.trump_suit) {
                        seat
                    } else {
                        round.potential_winner
                    },
                    None => seat,
                };
                assert(winner == leader_after(self.trick@, round_before, seat as int, card));
                let mut updates: Vec<StateUpdate> = Vec::new();
                if !is_full(&self.trick) {
                    round.player = (seat + 1) % seats;
                    round.potential_winner = winner;
                    updates.push(StateUpdate::Trick(copy_of(&self.trick)));
                    self.stage = Stage::Play(round);
                    proof {
                        assert(self@ =~~= expected.0);
                        assert(changes_of(updates@) =~= expected.1);
                    }
                    return Ok(updates);
                }
                proof {
                    lemma_trick_winner_bound(old(self)@, round_before, seat as int, card);
                }
                let won = round.trick_scores[winner];
                round.trick_scores.set(winner, won + 1);
                self.trick = filled(None, seats);
                updates.push(StateUpdate::Trick(copy_of(&self.trick)));
                if !self.players[winner].hand().is_empty() {
                    round.player = winner;
                    round.potential_winner = winner;
                    self.stage = Stage::Play(round);
                    proof {
                        assert(self@ =~~= expected.0);
                        assert(changes_of(updates@) =~= expected.1);
                    }
                    return Ok(updates);
                }
                proof {
                    assert forall|s: int| 0 <= s < self.scores@.len() implies -1_000_000 <= (
                    #[trigger] self.scores@[s]) <= 1_000_000 by {
                        assert(old(self)@.scores[s] == self.scores@[s]);
                        assert(-old(self)@.score_limit() <= old(self)@.scores[s] <= old(
                            self,
                        )@.score_limit());
                    }
                }
                settle_scores(&mut self.scores, &round.predicted_scores, &round.trick_scores);
                updates.push(StateUpdate::RoundScores(copy_of(&round.trick_scores)));
                updates.push(StateUpdate::GameScores(copy_of(&self.scores)));
                if round.hand_size == 1 {
                    self.stage = Stage::Over;
                } else {
                    let opener = (round.starting_player + 1) % seats;
                    self.stage = Stage::Deal(
                        Round {
                            player: opener,
                            potential_winner: opener,
                            hand_size: round.hand_size - 1,
                            trump_suit: Suit::successor(round.trump_suit),
                            predicted_scores: filled(None, seats),
                            trick_scores: filled(0u8, seats),
                            starting_player: opener,
                        },
                    );
                }
                proof {
                    assert(self@ =~~= expected.0);
                    assert(changes_of(updates@) =~= expected.1);
                }
                Ok(updates)
            },
            other => {
                self.stage = other;
                Err(InvalidTransition::PlayBeforeScorePrediction)
            },
        }
    }

    /// The score of each seat over the rounds played.
    pub fn scores(&self) -> (scores: &[i64])
        ensures
            as_ints(scores@) == self@.scores,
    {
        self.scores.as_slice()
    }

    /// The open trick.
    pub fn trick(&self) -> (trick: &Trick)
        ensures
            trick@ == self@.trick,
    {
        &self.trick
    }

    /// The cards of `player`, sorted, or nothing if there is no such seat.
    pub fn hand_of_player(&self, player: usize) -> (hand: Option<&[Card]>)
        ensures
            match hand {
                Some(cards) => player < self@.hands.len() && cards@ == self@.hands[player as int],
                None => player >= self@.hands.len(),
            },
    {
        if player < self.players.len() {
            Some(self.players[player].hand().as_slice())
        } else {
            None
        }
    }

    /// Whether the game has ended.
    pub fn is_over(&self) -> (over: bool)
        ensures
            over == (self@.stage is Over),
    {
        match &self.stage {
            Stage::Over => true,
            _ => false,
        }
    }

    /// The trump suit of the round in play, if a round is in play and has one.
    pub fn trump_suit(&self) -> (trump: Option<&Suit>)
        ensures
            match trump {
                Some(suit) => trump_of(self@) == Some(*suit),
                None => trump_of(self@) is None,
            },
    {
        match &self.stage {
            Stage::Deal(round) => round.trump_suit.as_ref(),
            Stage::PredictScores(round) => round.trump_suit.as_ref(),
            Stage::Play(round) => round.trump_suit.as_ref(),
            _ => None,
        }
    }

    /// The predictions of the round, once its cards are dealt.
    pub fn predicted_scores(&self) -> (predictions: Option<&[Option<u8>]>)
        ensures
            match predictions {
                Some(predictions) => match self@.stage {
                    StageView::PredictScores(round) => predictions@ == round.predicted_scores,
                    StageView::Play(round) => predictions@ == round.predicted_scores,
                    _ => false,
                },
                None => !(self@.stage is PredictScores) && !(self@.stage is Play),
            },
    {
        match &self.stage {
            Stage::PredictScores(round) => Some(round.predicted_scores.as_slice()),
            Stage::Play(round) => Some(round.predicted_scores.as_slice()),
            _ => None,
        }
    }
}

} // verus!
