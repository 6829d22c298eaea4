//! Laws of the game: what holds of every state, every seed and every
//! transition, proved from the state machine.

use crate::card::{next_trump, Card, Suit};
use crate::deck::{
    fresh_deck, hands_disjoint, lemma_dealt_hands, lemma_dealt_hands_disjoint, lemma_hand_of_part,
    lemma_same_cards, times_held,
};
use crate::errors::InvalidTransition;
use crate::model::{
    deal_step, decks_needed, empty_trick, first_round, leader_after, lemma_advance_keeps_invariant,
    lemma_all_predicted, lemma_next_seat, lemma_round_deck, lemma_trick_winner_bound,
    lemma_tricks_won_update, next_seat, play_step, predict_step, prediction_sum, predictions_made,
    round_deck, scores_after, started, step, trick_full, tricks_won, trump_of, valid_config,
    Change, GameView, RoundView, StageView, Transition,
};
use crate::player::{is_sorted, lemma_remove_value_sorted};
use vstd::prelude::*;

verus! {

/// A game can be set up for a number of seats, a hand size and a number of
/// decks exactly if a hand holds at most 13 cards and the decks hold a card
/// for every place in every hand; where the number of decks is left open, if
/// a hand holds at most 13 cards. No game is set up for other numbers.
pub proof fn lemma_valid_config(players: u8, starting_hand_size: u8, decks: u8)
    ensures
        valid_config(players, starting_hand_size, Some(decks)) <==> starting_hand_size <= 13
            && decks * 52 >= players * starting_hand_size,
        valid_config(players, starting_hand_size, None) <==> starting_hand_size <= 13,
        starting_hand_size <= 13 ==> decks_needed(players as int, starting_hand_size as int)
            <= 64 && decks_needed(players as int, starting_hand_size as int) * 52 >= players
            * starting_hand_size,
{
    let cards = players * starting_hand_size;
    assert(0 <= cards <= 255 * 255) by (nonlinear_arith)
        requires
            cards == players * starting_hand_size,
            0 <= players <= 255,
            0 <= starting_hand_size <= 255,
    ;
    if starting_hand_size <= 13 {
        assert(cards <= 255 * 13) by (nonlinear_arith)
            requires
                cards == players * starting_hand_size,
                0 <= players <= 255,
                0 <= starting_hand_size <= 13,
        ;
    }
}

/// A deal gives every seat a sorted hand of the round's size, made of cards
/// of the game's decks, and no card is held more often over all seats than
/// the game has decks. Where the game has one deck, no card is dealt twice:
/// no hand holds a card twice, and no two hands share a card.
pub proof fn lemma_deal(g: GameView, round: RoundView, seed: [u8; 32])
    requires
        g.wf(),
        g.stage == StageView::Deal(round),
    ensures
        step(g, Transition::Deal { seed }) matches Ok((next, changes)) && {
            &&& next.stage == StageView::PredictScores(round)
            &&& changes == seq![Change::CardsDealt]
            &&& next.hands.len() == g.player_count
            &&& forall|seat: int|
                0 <= seat < g.player_count ==> (#[trigger] next.hands[seat]).len()
                    == round.hand_size && is_sorted(next.hands[seat])
            &&& forall|seat: int, card: Card|
                0 <= seat < g.player_count && #[trigger] next.hands[seat].contains(card)
                    ==> fresh_deck(g.decks as nat).contains(card)
            &&& forall|card: Card| #[trigger] times_held(next.hands, card) <= g.decks
            &&& g.decks <= 1 ==> hands_disjoint(next.hands)
        },
{
    lemma_advance_keeps_invariant(g, Transition::Deal { seed });
    let deck = round_deck(g, seed@);
    let fresh = fresh_deck(g.decks as nat);
    let hands = deal_step(g, round, seed@).0.hands;
    let players = g.player_count as nat;
    let size = round.hand_size as nat;
    lemma_round_deck(g, seed@);
    assert(players * size <= deck.len()) by (nonlinear_arith)
        requires
            deck.len() == 52 * g.decks,
            g.decks * 52 >= g.player_count * g.starting_hand_size,
            0 <= round.hand_size <= g.starting_hand_size,
            0 <= g.player_count,
            players == g.player_count,
            size == round.hand_size,
    ;
    lemma_dealt_hands(deck, players, size);
    lemma_same_cards(fresh, deck);
    assert forall|seat: int, card: Card|
        0 <= seat < g.player_count && #[trigger] hands[seat].contains(card) implies fresh.contains(
        card,
    ) by {
        let part = deck.subrange(seat * size, (seat + 1) * size);
        lemma_hand_of_part(deck, players, size, seat);
        assert(part.contains(card));
        let i = choose|i: int| 0 <= i < part.len() && part[i] == card;
        assert(deck[seat * size + i] == card);
        assert(deck.contains(card));
    }
    if g.decks <= 1 {
        lemma_dealt_hands_disjoint(deck, players, size);
    }
}

/// After the start of a game and its first deal, every seat holds a sorted
/// hand of the starting size, no card is held more often than the game has
/// decks, and with one deck no card is held twice.
pub proof fn lemma_first_deal(g: GameView, seed: [u8; 32])
    requires
        g.wf(),
        g.stage is PrePlay,
    ensures
        started(g).wf(),
        step(started(g), Transition::Deal { seed }) matches Ok((next, changes)) && {
            &&& forall|seat: int|
                0 <= seat < g.player_count ==> (#[trigger] next.hands[seat]).len()
                    == g.starting_hand_size && is_sorted(next.hands[seat])
            &&& forall|card: Card| #[trigger] times_held(next.hands, card) <= g.decks
            &&& g.decks <= 1 ==> hands_disjoint(next.hands)
        },
{
    lemma_deal(started(g), first_round(g.player_count, g.starting_hand_size), seed);
}

/// The hands of a deal depend on nothing but the number of seats, the number
/// of decks, the size of the hands and the seed: two games that agree in
/// these deal the same hands.
pub proof fn lemma_deal_is_determined(
    a: GameView,
    b: GameView,
    round_a: RoundView,
    round_b: RoundView,
    seed: [u8; 32],
)
    requires
        a.stage == StageView::Deal(round_a),
        b.stage == StageView::Deal(round_b),
        a.player_count == b.player_count,
        a.decks == b.decks,
        round_a.hand_size == round_b.hand_size,
    ensures
        step(a, Transition::Deal { seed }) is Ok,
        step(b, Transition::Deal { seed }) is Ok,
        step(a, Transition::Deal { seed }).unwrap().0.hands == step(
            b,
            Transition::Deal { seed },
        ).unwrap().0.hands,
{
}

/// A prediction or a play by a seat whose turn it is not is refused as out of
/// turn, whatever the score or the card.
pub proof fn lemma_out_of_turn(g: GameView, round: RoundView, seat: usize, score: u8, card: Card)
    requires
        seat != round.player,
    ensures
        g.stage == StageView::PredictScores(round) ==> step(
            g,
            Transition::PredictScore { player: seat, score },
        ) == Err::<(GameView, Seq<Change>), InvalidTransition>(InvalidTransition::OutOfTurnPlay),
        g.stage == StageView::Play(round) ==> step(g, Transition::Play { player: seat, card })
            == Err::<(GameView, Seq<Change>), InvalidTransition>(InvalidTransition::OutOfTurnPlay),
{
}

/// The last seat to predict may name any number of tricks up to the size of
/// the hand but the one that would make the predictions add up to that size.
pub proof fn lemma_last_prediction(g: GameView, round: RoundView, score: u8)
    requires
        g.wf(),
        g.stage == StageView::PredictScores(round),
        predictions_made(round.predicted_scores) == g.player_count - 1,
        score <= round.hand_size,
    ensures
        step(g, Transition::PredictScore { player: round.player as usize, score }) is Err
            <==> prediction_sum(round.predicted_scores) + score == round.hand_size,
        prediction_sum(round.predicted_scores) + score == round.hand_size ==> step(
            g,
            Transition::PredictScore { player: round.player as usize, score },
        ) == Err::<(GameView, Seq<Change>), InvalidTransition>(
            InvalidTransition::LastPlayerPrediction,
        ),
{
}

/// The seats predict in turn, and the seat that opened the round is the first
/// to play: an accepted prediction passes the turn to the next seat, and when
/// it was the last, every seat has predicted and the turn is back at the
/// seat that opened the round, which leads the first trick.
pub proof fn lemma_prediction_turns(g: GameView, round: RoundView, score: u8)
    requires
        g.wf(),
        g.stage == StageView::PredictScores(round),
        predict_step(g, round, round.player, score) is Ok,
    ensures
        ({
            let next = predict_step(g, round, round.player, score).unwrap().0;
            match next.stage {
                StageView::PredictScores(following) => following.player == next_seat(
                    round.player,
                    g.player_count,
                ) && following.predicted_scores[following.player] is None,
                StageView::Play(following) => {
                    &&& following.player == round.starting_player
                    &&& following.potential_winner == round.starting_player
                    &&& forall|seat: int|
                        0 <= seat < g.player_count ==> (
                        #[trigger] following.predicted_scores[seat]) is Some
                },
                _ => false,
            }
        }),
{
    lemma_advance_keeps_invariant(
        g,
        Transition::PredictScore { player: round.player as usize, score },
    );
    lemma_next_seat(round.player, g.player_count);
    let next = predict_step(g, round, round.player, score).unwrap().0;
    if let StageView::Play(following) = next.stage {
        lemma_all_predicted(following.predicted_scores);
        let played = choose|played: int| next.played_in_turn(following, played);
        assert(next.trick[following.potential_winner] is None);
    }
}

/// The seats play in turn, once to a trick: the seat that plays has no card
/// in the open trick, and the card it plays is measured against a card that
/// lies in the trick. A trick that is not complete passes the turn to the
/// next seat; a complete one leaves every seat with the same number of
/// cards, and the round ends with it exactly if that number is none.
pub proof fn lemma_play_turns(g: GameView, round: RoundView, card: Card)
    requires
        g.wf(),
        g.stage == StageView::Play(round),
        play_step(g, round, round.player, card) is Ok,
    ensures
        g.trick[round.player] is None,
        g.trick.update(round.player, Some(card))[round.potential_winner] is Some,
        ({
            let next = play_step(g, round, round.player, card).unwrap().0;
            if trick_full(g.trick.update(round.player, Some(card))) {
                &&& next.trick == empty_trick(g.player_count)
                &&& forall|a: int, b: int|
                    0 <= a < g.player_count && 0 <= b < g.player_count ==> (
                    #[trigger] next.hands[a]).len() == (#[trigger] next.hands[b]).len()
                &&& next.stage matches StageView::Play(following) ==> following.player
                    == following.potential_winner && next.hands[following.player].len() > 0
                &&& !(next.stage is Play) ==> next.hands_empty()
            } else {
                next.stage matches StageView::Play(following) && following.player == next_seat(
                    round.player,
                    g.player_count,
                )
            }
        }),
{
    lemma_advance_keeps_invariant(g, Transition::Play { player: round.player as usize, card });
    let played = choose|played: int| g.played_in_turn(round, played);
    let next = play_step(g, round, round.player, card).unwrap().0;
    let trick = g.trick.update(round.player, Some(card));
    assert(g.trick[round.player] is None);
    if trick_full(trick) {
        if let StageView::Play(following) = next.stage {
            let open = choose|open: int| next.played_in_turn(following, open);
            assert forall|a: int, b: int|
                0 <= a < g.player_count && 0 <= b < g.player_count implies (
            #[trigger] next.hands[a]).len() == (#[trigger] next.hands[b]).len() by {
                assert(next.trick[a] is None);
                assert(next.trick[b] is None);
            }
        }
    }
}

/// A round ends when its last trick is taken: by then as many tricks were
/// won as each seat was dealt cards, every seat has played all of them, and
/// the scores move by what each seat gained or lost.
pub proof fn lemma_round_end(g: GameView, round: RoundView, card: Card)
    requires
        g.wf(),
        g.stage == StageView::Play(round),
        play_step(g, round, round.player, card) is Ok,
        !(play_step(g, round, round.player, card).unwrap().0.stage is Play),
    ensures
        ({
            let (next, changes) = play_step(g, round, round.player, card).unwrap();
            &&& next.hands_empty()
            &&& next.trick == empty_trick(g.player_count)
            &&& changes.len() == 3
            &&& changes[1] matches Change::RoundScores(tricks) && tricks_won(tricks)
                == round.hand_size && next.scores == scores_after(
                g.scores,
                round.predicted_scores,
                tricks,
            )
        }),
{
    lemma_play_turns(g, round, card);
    let trick = g.trick.update(round.player, Some(card));
    let winner = leader_after(trick, round, round.player, card);
    lemma_tricks_won_update(
        round.trick_scores,
        winner,
        (round.trick_scores[winner] + 1) as u8,
    );
    lemma_trick_winner_bound(g, round, round.player, card);
    lemma_remove_value_sorted(g.hands[round.player], card);
    let next = play_step(g, round, round.player, card).unwrap().0;
    assert(next.hands[round.player].len() == 0);
}

/// A game that is over accepts nothing, and a game that has not started
/// accepts no transition.
pub proof fn lemma_closed_stages(g: GameView, transition: Transition)
    ensures
        g.stage is Over ==> step(g, transition) == Err::<
            (GameView, Seq<Change>),
            InvalidTransition,
        >(InvalidTransition::GameOver),
        g.stage is PrePlay ==> step(g, transition) is Err,
{
}

/// A game starts with spades as trump. When a play ends a round, the game is
/// over if the round had one card per seat; else the next round has one
/// card fewer per seat, the trump suit that follows in the rotation, and the
/// seat after the one that opened the round to open it. A play that ends a
/// round reports the trick, the tricks won and the scores, in this order;
/// any other play reports the trick alone.
pub proof fn lemma_rounds(g: GameView, round: RoundView, seat: int, card: Card)
    requires
        g.stage == StageView::Play(round),
        play_step(g, round, seat, card) is Ok,
    ensures
        trump_at_start(g) == Some(Suit::Spades),
        ({
            let (next, changes) = play_step(g, round, seat, card).unwrap();
            match next.stage {
                StageView::Play(_) => changes == seq![Change::Trick(next.trick)],
                StageView::Deal(following) => {
                    &&& round.hand_size != 1
                    &&& following.hand_size == round.hand_size - 1
                    &&& following.trump_suit == next_trump(round.trump_suit)
                    &&& following.starting_player == next_seat(
                        round.starting_player,
                        g.player_count,
                    )
                    &&& following.player == following.starting_player
                    &&& changes.len() == 3
                    &&& changes[0] == Change::Trick(next.trick)
                    &&& changes[1] is RoundScores
                    &&& changes[2] == Change::GameScores(next.scores)
                },
                StageView::Over => {
                    &&& round.hand_size == 1
                    &&& changes.len() == 3
                    &&& changes[0] == Change::Trick(next.trick)
                    &&& changes[1] is RoundScores
                    &&& changes[2] == Change::GameScores(next.scores)
                },
                _ => false,
            }
        }),
{
}

/// The trump suit of the first round of a game.
pub open spec fn trump_at_start(g: GameView) -> Option<Suit> {
    trump_of(started(g))
}

} // verus!
