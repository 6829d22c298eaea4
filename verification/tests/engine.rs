use judgment::{Card, InvalidTransition, Judgment, Rank, StateUpdate, Suit, Transition};

fn dealt(players: u8, hand_size: u8, decks: Option<u8>, seed: [u8; 32]) -> Judgment {
    let mut game = Judgment::new(players, hand_size, decks);
    game.start().unwrap();
    game.update(Transition::Deal { seed }).unwrap();
    game
}

fn hands(game: &Judgment, players: usize) -> Vec<Vec<Card>> {
    (0..players)
        .map(|seat| game.hand_of_player(seat).unwrap().to_vec())
        .collect()
}

fn suit_place(suit: Suit) -> u16 {
    match suit {
        Suit::Clubs => 0,
        Suit::Diamonds => 1,
        Suit::Hearts => 2,
        Suit::Spades => 3,
    }
}

fn rank_place(rank: Rank) -> u16 {
    match rank {
        Rank::Numeric(n) => u16::from(n),
        Rank::Jack => 11,
        Rank::Queen => 12,
        Rank::King => 13,
        Rank::Ace => 14,
    }
}

fn place(card: &Card) -> (u16, u16) {
    (suit_place(card.suit()), rank_place(card.rank()))
}

/// Plays the first card of the hand of whichever seat is to act.
fn play_next(game: &mut Judgment, players: usize) -> (usize, Card, Vec<StateUpdate>) {
    for seat in 0..players {
        let hand = game.hand_of_player(seat).unwrap().to_vec();
        if let Some(card) = hand.first() {
            match game.update(Transition::Play { player: seat, card: *card }) {
                Ok(updates) => return (seat, *card, updates),
                Err(InvalidTransition::OutOfTurnPlay) => {}
                Err(other) => panic!("unexpected refusal {other:?}"),
            }
        }
    }
    panic!("no seat could play");
}

/// Lets every seat predict, starting with `opener`; all say none but the last,
/// which says one if none is not allowed.
fn predict_all(game: &mut Judgment, players: usize, opener: usize) {
    for turn in 0..players {
        let seat = (opener + turn) % players;
        match game.update(Transition::PredictScore { player: seat, score: 0 }) {
            Ok(_) => {}
            Err(InvalidTransition::LastPlayerPrediction) => {
                game.update(Transition::PredictScore { player: seat, score: 1 })
                    .unwrap();
            }
            Err(other) => panic!("unexpected refusal {other:?}"),
        }
    }
}

#[test]
fn configuration_is_valid_exactly_when_the_decks_suffice() {
    assert!(Judgment::is_valid_config(4, 13, Some(1)));
    assert!(!Judgment::is_valid_config(5, 13, Some(1)));
    assert!(Judgment::is_valid_config(5, 13, Some(2)));
    assert!(Judgment::is_valid_config(8, 13, Some(2)));
    assert!(!Judgment::is_valid_config(9, 13, Some(2)));
    assert!(Judgment::is_valid_config(255, 13, Some(64)));
    assert!(!Judgment::is_valid_config(255, 13, Some(63)));
    assert!(Judgment::is_valid_config(3, 0, Some(0)));
    assert!(!Judgment::is_valid_config(3, 1, Some(0)));
    assert!(!Judgment::is_valid_config(4, 14, Some(9)));
    assert!(Judgment::is_valid_config(0, 1, Some(1)));
    assert!(Judgment::is_valid_config(0, 13, Some(0)));
    assert!(Judgment::is_valid_config(0, 0, None));
    assert!(!Judgment::is_valid_config(0, 14, Some(1)));
    assert!(Judgment::is_valid_config(5, 13, None));
    assert!(!Judgment::is_valid_config(5, 14, None));
    for players in 0..=20u8 {
        for hand_size in 0..=13u8 {
            for decks in 0..=6u8 {
                let enough =
                    u32::from(decks) * 52 >= u32::from(players) * u32::from(hand_size);
                assert_eq!(
                    Judgment::is_valid_config(players, hand_size, Some(decks)),
                    enough
                );
            }
        }
    }
}

#[test]
fn new_game_has_empty_seats_and_no_scores() {
    let game = Judgment::new(4, 13, None);
    assert_eq!(game.scores(), &[0, 0, 0, 0]);
    assert_eq!(game.trick(), &vec![None, None, None, None]);
    for seat in 0..4 {
        assert!(game.hand_of_player(seat).unwrap().is_empty());
    }
    assert!(game.hand_of_player(4).is_none());
    assert!(!game.is_over());
    assert!(game.predicted_scores().is_none());
    assert!(game.trump_suit().is_none());
}

#[test]
fn nothing_but_the_start_is_accepted_before_the_start() {
    let mut game = Judgment::new(2, 2, Some(1));
    let card = Card::new_normal(Suit::Hearts, Rank::Numeric(7));
    assert_eq!(
        game.update(Transition::Deal { seed: [0; 32] }).unwrap_err(),
        InvalidTransition::DealBeforeGameStart
    );
    assert_eq!(
        game.update(Transition::Play { player: 0, card }).unwrap_err(),
        InvalidTransition::PlayBeforeScorePrediction
    );
    assert_eq!(
        game.update(Transition::PredictScore { player: 0, score: 0 }).unwrap_err(),
        InvalidTransition::PredictBeforeDeal
    );
    assert_eq!(game.start(), Ok(()));
    assert_eq!(game.start(), Err(InvalidTransition::Restart));
    assert_eq!(game.trump_suit(), Some(&Suit::Spades));
}

#[test]
fn before_the_deal_no_play_and_no_prediction() {
    let mut game = Judgment::new(2, 2, Some(1));
    game.start().unwrap();
    let card = Card::new_normal(Suit::Hearts, Rank::Numeric(7));
    assert_eq!(
        game.update(Transition::Play { player: 0, card }).unwrap_err(),
        InvalidTransition::PlayBeforeScorePrediction
    );
    assert_eq!(
        game.update(Transition::PredictScore { player: 0, score: 0 }).unwrap_err(),
        InvalidTransition::PredictBeforeDeal
    );
    assert!(game.predicted_scores().is_none());
}

#[test]
fn deal_reports_that_cards_were_dealt() {
    let mut game = Judgment::new(3, 4, Some(1));
    game.start().unwrap();
    let updates = game.update(Transition::Deal { seed: [9; 32] }).unwrap();
    assert_eq!(updates.len(), 1);
    assert!(matches!(updates[0], StateUpdate::CardsDealt));
    assert_eq!(game.predicted_scores(), Some(&[None, None, None][..]));
    assert_eq!(
        game.update(Transition::Deal { seed: [9; 32] }).unwrap_err(),
        InvalidTransition::ReDeal
    );
}

#[test]
fn dealt_hands_have_the_starting_size_and_are_sorted_and_disjoint() {
    for seed_byte in 0..20u8 {
        let game = dealt(4, 13, Some(1), [seed_byte; 32]);
        let hands = hands(&game, 4);
        let mut all: Vec<(u16, u16)> = Vec::new();
        for hand in &hands {
            assert_eq!(hand.len(), 13);
            let places: Vec<(u16, u16)> = hand.iter().map(place).collect();
            let mut sorted = places.clone();
            sorted.sort();
            assert_eq!(places, sorted);
            all.extend(places);
        }
        all.sort();
        all.dedup();
        assert_eq!(all.len(), 52);
    }
}

#[test]
fn the_same_seed_deals_the_same_hands() {
    let first = dealt(3, 7, Some(1), [42; 32]);
    let second = dealt(3, 7, Some(1), [42; 32]);
    assert_eq!(hands(&first, 3), hands(&second, 3));
    let other = dealt(3, 7, Some(1), [43; 32]);
    assert_ne!(hands(&first, 3), hands(&other, 3));
}

#[test]
fn two_decks_deal_from_a_hundred_and_four_cards() {
    let game = dealt(8, 13, Some(2), [5; 32]);
    let mut all: Vec<(u16, u16)> = Vec::new();
    for hand in hands(&game, 8) {
        assert_eq!(hand.len(), 13);
        all.extend(hand.iter().map(place));
    }
    all.sort();
    let mut expected: Vec<(u16, u16)> = Vec::new();
    for suit in 0..4u16 {
        for rank in 2..=14u16 {
            expected.push((suit, rank));
            expected.push((suit, rank));
        }
    }
    assert_eq!(all, expected);
}

#[test]
fn prediction_is_refused_out_of_turn_and_out_of_range() {
    let mut game = dealt(3, 5, Some(1), [1; 32]);
    let before = hands(&game, 3);
    for seat in [1usize, 2, 3, 200] {
        assert_eq!(
            game.update(Transition::PredictScore { player: seat, score: 1 }).unwrap_err(),
            InvalidTransition::OutOfTurnPlay
        );
    }
    assert_eq!(
        game.update(Transition::PredictScore { player: 0, score: 6 }).unwrap_err(),
        InvalidTransition::PredictionOutOfRange
    );
    assert_eq!(game.predicted_scores(), Some(&[None, None, None][..]));
    assert_eq!(hands(&game, 3), before);
    let card = before[0][0];
    assert_eq!(
        game.update(Transition::Play { player: 0, card }).unwrap_err(),
        InvalidTransition::PlayBeforeScorePrediction
    );
    let updates = game.update(Transition::PredictScore { player: 0, score: 5 }).unwrap();
    assert_eq!(updates.len(), 1);
    match &updates[0] {
        StateUpdate::Predictions(predictions) => {
            assert_eq!(predictions, &vec![Some(5), None, None])
        }
        other => panic!("unexpected update {other:?}"),
    }
}

#[test]
fn last_predictor_may_not_complete_the_hand_size() {
    for last in 0..=5u8 {
        let mut game = dealt(3, 5, Some(1), [3; 32]);
        game.update(Transition::PredictScore { player: 0, score: 1 }).unwrap();
        game.update(Transition::PredictScore { player: 1, score: 2 }).unwrap();
        let answer = game.update(Transition::PredictScore { player: 2, score: last });
        if last == 2 {
            assert_eq!(answer.unwrap_err(), InvalidTransition::LastPlayerPrediction);
            assert_eq!(
                game.predicted_scores(),
                Some(&[Some(1), Some(2), None][..])
            );
        } else {
            assert!(answer.is_ok());
            assert_eq!(
                game.predicted_scores(),
                Some(&[Some(1), Some(2), Some(last)][..])
            );
        }
    }
}

#[test]
fn earlier_predictors_may_complete_the_hand_size() {
    let mut game = dealt(3, 5, Some(1), [3; 32]);
    assert!(game.update(Transition::PredictScore { player: 0, score: 5 }).is_ok());
    assert!(game.update(Transition::PredictScore { player: 1, score: 0 }).is_ok());
    assert_eq!(
        game.update(Transition::PredictScore { player: 2, score: 0 }).unwrap_err(),
        InvalidTransition::LastPlayerPrediction
    );
    assert!(game.update(Transition::PredictScore { player: 2, score: 1 }).is_ok());
}

#[test]
fn play_is_refused_out_of_turn_and_without_the_card() {
    let mut game = dealt(2, 3, Some(1), [8; 32]);
    predict_all(&mut game, 2, 0);
    let before = hands(&game, 2);
    let theirs = before[1][0];
    assert_eq!(
        game.update(Transition::Play { player: 1, card: theirs }).unwrap_err(),
        InvalidTransition::OutOfTurnPlay
    );
    assert_eq!(
        game.update(Transition::Play { player: 0, card: theirs }).unwrap_err(),
        InvalidTransition::NoSuchPlayerCard
    );
    assert_eq!(
        game.update(Transition::PredictScore { player: 0, score: 0 }).unwrap_err(),
        InvalidTransition::RePredict
    );
    assert_eq!(
        game.update(Transition::Deal { seed: [0; 32] }).unwrap_err(),
        InvalidTransition::ReDeal
    );
    assert_eq!(hands(&game, 2), before);
    assert_eq!(game.trick(), &vec![None, None]);
}

#[test]
fn a_play_moves_the_card_from_the_hand_to_the_trick() {
    let mut game = dealt(3, 3, Some(1), [8; 32]);
    predict_all(&mut game, 3, 0);
    let before = hands(&game, 3);
    let card = before[0][1];
    let updates = game.update(Transition::Play { player: 0, card }).unwrap();
    assert_eq!(updates.len(), 1);
    match &updates[0] {
        StateUpdate::Trick(trick) => assert_eq!(trick, &vec![Some(card), None, None]),
        other => panic!("unexpected update {other:?}"),
    }
    assert_eq!(game.trick(), &vec![Some(card), None, None]);
    assert_eq!(
        game.hand_of_player(0).unwrap(),
        &[before[0][0], before[0][2]][..]
    );
    assert_eq!(game.hand_of_player(1).unwrap(), &before[1][..]);
    assert_eq!(
        game.update(Transition::Play { player: 0, card: before[0][0] }).unwrap_err(),
        InvalidTransition::OutOfTurnPlay
    );
}

#[test]
fn a_full_trick_is_cleared_and_its_winner_leads() {
    let mut game = dealt(2, 2, Some(1), [11; 32]);
    predict_all(&mut game, 2, 0);
    let before = hands(&game, 2);
    let first = before[0][0];
    let second = before[1][0];
    game.update(Transition::Play { player: 0, card: first }).unwrap();
    let updates = game.update(Transition::Play { player: 1, card: second }).unwrap();
    assert_eq!(updates.len(), 1);
    assert_eq!(game.trick(), &vec![None, None]);
    let second_wins = if first.suit() == second.suit() {
        rank_place(second.rank()) > rank_place(first.rank())
    } else {
        second.suit() == Suit::Spades
    };
    let winner = if second_wins { 1 } else { 0 };
    let loser = 1 - winner;
    let card = hands(&game, 2)[loser][0];
    assert_eq!(
        game.update(Transition::Play { player: loser, card }).unwrap_err(),
        InvalidTransition::OutOfTurnPlay
    );
    let card = hands(&game, 2)[winner][0];
    assert!(game.update(Transition::Play { player: winner, card }).is_ok());
}

#[test]
fn a_hit_prediction_gains_and_a_missed_one_loses_the_tricks_won() {
    // one card each: one seat wins the only trick
    let mut game = dealt(2, 1, Some(1), [21; 32]);
    game.update(Transition::PredictScore { player: 0, score: 1 }).unwrap();
    game.update(Transition::PredictScore { player: 1, score: 1 }).unwrap();
    play_next(&mut game, 2);
    let (_, _, updates) = play_next(&mut game, 2);
    assert_eq!(updates.len(), 3);
    let tricks = match &updates[1] {
        StateUpdate::RoundScores(tricks) => tricks.clone(),
        other => panic!("unexpected update {other:?}"),
    };
    let winner = if tricks == vec![1, 0] { 0 } else { 1 };
    assert_eq!(tricks[winner], 1);
    assert_eq!(tricks[1 - winner], 0);
    let mut expected = vec![0i64, 0];
    expected[winner] = 1;
    assert_eq!(game.scores(), &expected[..]);
    assert!(game.is_over());

    let mut game = dealt(2, 1, Some(1), [21; 32]);
    game.update(Transition::PredictScore { player: 0, score: 0 }).unwrap();
    assert_eq!(
        game.update(Transition::PredictScore { player: 1, score: 1 }).unwrap_err(),
        InvalidTransition::LastPlayerPrediction
    );
    game.update(Transition::PredictScore { player: 1, score: 0 }).unwrap();
    play_next(&mut game, 2);
    let (_, _, updates) = play_next(&mut game, 2);
    let mut expected = vec![0i64, 0];
    expected[winner] = -1;
    assert_eq!(game.scores(), &expected[..]);
    match &updates[2] {
        StateUpdate::GameScores(scores) => assert_eq!(scores, &expected),
        other => panic!("unexpected update {other:?}"),
    }
    match &updates[0] {
        StateUpdate::Trick(trick) => assert_eq!(trick, &vec![None, None]),
        other => panic!("unexpected update {other:?}"),
    }
}

#[test]
fn nothing_is_accepted_after_the_end() {
    let mut game = dealt(2, 1, Some(1), [2; 32]);
    predict_all(&mut game, 2, 0);
    play_next(&mut game, 2);
    play_next(&mut game, 2);
    assert!(game.is_over());
    let scores = game.scores().to_vec();
    let card = Card::new_normal(Suit::Clubs, Rank::Ace);
    assert_eq!(
        game.update(Transition::Deal { seed: [0; 32] }).unwrap_err(),
        InvalidTransition::GameOver
    );
    assert_eq!(
        game.update(Transition::Play { player: 0, card }).unwrap_err(),
        InvalidTransition::GameOver
    );
    assert_eq!(
        game.update(Transition::PredictScore { player: 0, score: 0 }).unwrap_err(),
        InvalidTransition::GameOver
    );
    assert_eq!(game.start(), Err(InvalidTransition::Restart));
    assert_eq!(game.scores(), &scores[..]);
    assert!(game.trump_suit().is_none());
    assert!(game.predicted_scores().is_none());
}

#[test]
fn rounds_shrink_by_one_card_and_rotate_trump_and_opener() {
    let players = 2usize;
    let mut game = Judgment::new(2, 6, Some(1));
    game.start().unwrap();
    let mut trumps = Vec::new();
    for round in 0..6usize {
        let hand_size = 6 - round;
        trumps.push(game.trump_suit().copied());
        game.update(Transition::Deal { seed: [round as u8; 32] }).unwrap();
        for seat in 0..players {
            assert_eq!(game.hand_of_player(seat).unwrap().len(), hand_size);
        }
        let opener = round % players;
        assert_eq!(
            game.update(Transition::PredictScore { player: 1 - opener, score: 0 })
                .unwrap_err(),
            InvalidTransition::OutOfTurnPlay
        );
        predict_all(&mut game, players, opener);
        let mut tricks_won = vec![0u8; players];
        for trick in 0..hand_size {
            for turn in 0..players {
                let (_, _, updates) = play_next(&mut game, players);
                let round_ends = trick + 1 == hand_size && turn + 1 == players;
                assert_eq!(updates.len(), if round_ends { 3 } else { 1 });
                if round_ends {
                    if let StateUpdate::RoundScores(tricks) = &updates[1] {
                        tricks_won = tricks.clone();
                    }
                }
            }
        }
        assert_eq!(
            tricks_won.iter().map(|t| usize::from(*t)).sum::<usize>(),
            hand_size
        );
        assert_eq!(game.is_over(), hand_size == 1);
    }
    assert_eq!(
        trumps,
        vec![
            Some(Suit::Spades),
            Some(Suit::Hearts),
            Some(Suit::Clubs),
            Some(Suit::Diamonds),
            None,
            Some(Suit::Spades),
        ]
    );
}

#[test]
fn every_refusal_has_its_words() {
    let reasons = [
        (
            InvalidTransition::DealBeforeGameStart,
            "cannot deal cards before the game has started",
        ),
        (
            InvalidTransition::ReDeal,
            "cannot deal cards more than once in a round",
        ),
        (
            InvalidTransition::PlayBeforeScorePrediction,
            "cannot play before the scores have been predicted",
        ),
        (
            InvalidTransition::PredictBeforeDeal,
            "cannot predict score before the cards have beel dealt",
        ),
        (
            InvalidTransition::RePredict,
            "cannot predict scores more than once in a round",
        ),
        (
            InvalidTransition::GameOver,
            "cannot take any action after game is over",
        ),
        (InvalidTransition::Restart, "game is already in play"),
        (InvalidTransition::OutOfTurnPlay, "not this player's turn"),
        (
            InvalidTransition::PredictionOutOfRange,
            "predicted score is impossible to achieve",
        ),
        (
            InvalidTransition::LastPlayerPrediction,
            "last player to predict score in the round; score not allowed",
        ),
        (
            InvalidTransition::NoSuchPlayerCard,
            "the player does not have the played card",
        ),
        (
            InvalidTransition::SuitMismatch,
            "must match the suit of the first card when possible",
        ),
    ];
    for (reason, words) in reasons {
        assert_eq!(reason.message(), words);
    }
}

#[test]
fn a_game_without_seats_is_set_up_and_refuses_every_seat() {
    let mut game = Judgment::new(0, 5, Some(0));
    assert!(game.scores().is_empty());
    assert!(game.trick().is_empty());
    assert!(game.hand_of_player(0).is_none());
    assert!(!game.is_over());
    assert!(game.predicted_scores().is_none());
    assert_eq!(game.start(), Ok(()));
    assert_eq!(game.trump_suit(), Some(&Suit::Spades));
    let updates = game.update(Transition::Deal { seed: [3; 32] }).unwrap();
    assert_eq!(updates.len(), 1);
    assert_eq!(game.predicted_scores(), Some(&[][..]));
    for seat in [0usize, 1, 9] {
        assert_eq!(
            game.update(Transition::PredictScore { player: seat, score: 0 }).unwrap_err(),
            InvalidTransition::OutOfTurnPlay
        );
    }
    let card = Card::new_normal(Suit::Clubs, Rank::Ace);
    assert_eq!(
        game.update(Transition::Play { player: 0, card }).unwrap_err(),
        InvalidTransition::PlayBeforeScorePrediction
    );
    assert!(!game.is_over());
    let none = Judgment::new(0, 0, None);
    assert!(none.scores().is_empty());
}

#[test]
fn a_seat_that_does_not_exist_is_never_in_turn() {
    let mut game = dealt(2, 2, Some(1), [6; 32]);
    for seat in [2usize, 3, usize::MAX] {
        assert_eq!(
            game.update(Transition::PredictScore { player: seat, score: 0 }).unwrap_err(),
            InvalidTransition::OutOfTurnPlay
        );
    }
    predict_all(&mut game, 2, 0);
    let card = game.hand_of_player(0).unwrap()[0];
    for seat in [2usize, 3, usize::MAX] {
        assert_eq!(
            game.update(Transition::Play { player: seat, card }).unwrap_err(),
            InvalidTransition::OutOfTurnPlay
        );
    }
    assert!(game.update(Transition::Play { player: 0, card }).is_ok());
}

#[test]
fn in_play_every_seat_has_predicted_within_range_and_off_the_hand_size() {
    for seed in 0..10u8 {
        let mut game = dealt(3, 4, Some(1), [seed; 32]);
        predict_all(&mut game, 3, 0);
        let predictions: Vec<u8> = game
            .predicted_scores()
            .unwrap()
            .iter()
            .map(|said| said.unwrap())
            .collect();
        assert!(predictions.iter().all(|said| *said <= 4));
        assert_ne!(predictions.iter().map(|s| u32::from(*s)).sum::<u32>(), 4);
    }
}

#[test]
fn no_card_is_dealt_more_often_than_there_are_decks() {
    for (players, hand_size, decks) in [(3u8, 13u8, 1u8), (3, 13, 2), (5, 13, 2), (7, 10, 3)] {
        for seed in 0..5u8 {
            let game = dealt(players, hand_size, Some(decks), [seed; 32]);
            let mut all: Vec<(u16, u16)> = Vec::new();
            for hand in hands(&game, usize::from(players)) {
                assert_eq!(hand.len(), usize::from(hand_size));
                all.extend(hand.iter().map(place));
            }
            all.sort();
            for window in all.windows(usize::from(decks) + 1) {
                assert_ne!(window.first(), window.last());
            }
        }
    }
}
