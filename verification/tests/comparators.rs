use std::cmp::Ordering;

use judgment::{card_comparator, trick_card_comparator, Card, Rank, Suit};

#[test]
fn test_trick_card_comparison_without_trump() {
    let card_pairs_comparisons = [
        (
            Card::new_normal(Suit::Clubs, Rank::Jack),
            Card::new_normal(Suit::Clubs, Rank::Numeric(10)),
            Ordering::Greater,
        ),
        (
            Card::new_normal(Suit::Clubs, Rank::Numeric(10)),
            Card::new_normal(Suit::Clubs, Rank::Jack),
            Ordering::Less,
        ),
        (
            Card::new_normal(Suit::Clubs, Rank::Jack),
            Card::new_normal(Suit::Clubs, Rank::Jack),
            Ordering::Equal,
        ),
        (
            Card::new_normal(Suit::Clubs, Rank::Jack),
            Card::new_normal(Suit::Diamonds, Rank::Jack),
            Ordering::Greater,
        ),
        (
            Card::new_normal(Suit::Clubs, Rank::Jack),
            Card::new_normal(Suit::Diamonds, Rank::Numeric(10)),
            Ordering::Greater,
        ),
        (
            Card::new_normal(Suit::Clubs, Rank::Jack),
            Card::new_normal(Suit::Diamonds, Rank::Queen),
            Ordering::Greater,
        ),
    ];
    for (first, second, expected_comparison) in card_pairs_comparisons {
        assert_eq!(
            trick_card_comparator(&first, &second, None),
            expected_comparison,
            "comparison failed for {first:?} and {second:?}"
        );
    }
}

#[test]
fn test_trick_card_comparison_with_trump() {
    let card_pairs_comparisons = [
        // trump same as cards
        (
            Card::new_normal(Suit::Clubs, Rank::Jack),
            Card::new_normal(Suit::Clubs, Rank::Numeric(10)),
            Some(Suit::Clubs),
            Ordering::Greater,
        ),
        (
            Card::new_normal(Suit::Clubs, Rank::Numeric(10)),
            Card::new_normal(Suit::Clubs, Rank::Jack),
            Some(Suit::Clubs),
            Ordering::Less,
        ),
        (
            Card::new_normal(Suit::Clubs, Rank::Jack),
            Card::new_normal(Suit::Clubs, Rank::Jack),
            Some(Suit::Clubs),
            Ordering::Equal,
        ),
        // trump distinct from cards
        (
            Card::new_normal(Suit::Clubs, Rank::Jack),
            Card::new_normal(Suit::Clubs, Rank::Numeric(10)),
            Some(Suit::Diamonds),
            Ordering::Greater,
        ),
        (
            Card::new_normal(Suit::Clubs, Rank::Numeric(10)),
            Card::new_normal(Suit::Clubs, Rank::Jack),
            Some(Suit::Diamonds),
            Ordering::Less,
        ),
        (
            Card::new_normal(Suit::Clubs, Rank::Jack),
            Card::new_normal(Suit::Clubs, Rank::Jack),
            Some(Suit::Diamonds),
            Ordering::Equal,
        ),
        // trump same as one of the cards
        (
            Card::new_normal(Suit::Clubs, Rank::Jack),
            Card::new_normal(Suit::Diamonds, Rank::Jack),
            Some(Suit::Diamonds),
            Ordering::Less,
        ),
        (
            Card::new_normal(Suit::Clubs, Rank::Jack),
            Card::new_normal(Suit::Diamonds, Rank::Numeric(10)),
            Some(Suit::Diamonds),
            Ordering::Less,
        ),
        (
            Card::new_normal(Suit::Clubs, Rank::Jack),
            Card::new_normal(Suit::Diamonds, Rank::Queen),
            Some(Suit::Diamonds),
            Ordering::Less,
        ),
        (
            Card::new_normal(Suit::Clubs, Rank::Jack),
            Card::new_normal(Suit::Diamonds, Rank::Jack),
            Some(Suit::Clubs),
            Ordering::Greater,
        ),
        (
            Card::new_normal(Suit::Clubs, Rank::Jack),
            Card::new_normal(Suit::Diamonds, Rank::Numeric(10)),
            Some(Suit::Clubs),
            Ordering::Greater,
        ),
        (
            Card::new_normal(Suit::Clubs, Rank::Jack),
            Card::new_normal(Suit::Diamonds, Rank::Queen),
            Some(Suit::Clubs),
            Ordering::Greater,
        ),
        // trump distinct from cards
        (
            Card::new_normal(Suit::Clubs, Rank::Jack),
            Card::new_normal(Suit::Diamonds, Rank::Jack),
            Some(Suit::Hearts),
            Ordering::Greater,
        ),
        (
            Card::new_normal(Suit::Clubs, Rank::Jack),
            Card::new_normal(Suit::Diamonds, Rank::Numeric(10)),
            Some(Suit::Hearts),
            Ordering::Greater,
        ),
        (
            Card::new_normal(Suit::Clubs, Rank::Jack),
            Card::new_normal(Suit::Diamonds, Rank::Queen),
            Some(Suit::Hearts),
            Ordering::Greater,
        ),
    ];
    for (first, second, trump, expected_comparison) in card_pairs_comparisons {
        assert_eq!(
            trick_card_comparator(&first, &second, trump.as_ref()),
            expected_comparison,
            "comparison failed for {first:?}, {second:?} and {trump:?}"
        );
    }
}

#[test]
fn off_suit_king_loses_to_led_ten_without_trump() {
    let led = Card::new_normal(Suit::Clubs, Rank::Numeric(10));
    let second = Card::new_normal(Suit::Diamonds, Rank::King);
    assert_eq!(trick_card_comparator(&led, &second, None), Ordering::Greater);
}

#[test]
fn trump_king_beats_led_ten() {
    let led = Card::new_normal(Suit::Clubs, Rank::Numeric(10));
    let second = Card::new_normal(Suit::Diamonds, Rank::King);
    assert_eq!(
        trick_card_comparator(&led, &second, Some(&Suit::Diamonds)),
        Ordering::Less
    );
}

#[test]
fn hand_order_puts_suits_clubs_diamonds_hearts_spades() {
    let ace = |suit| Card::new_normal(suit, Rank::Ace);
    let two = |suit| Card::new_normal(suit, Rank::Numeric(2));
    assert_eq!(card_comparator(&ace(Suit::Clubs), &two(Suit::Diamonds)), Ordering::Less);
    assert_eq!(card_comparator(&ace(Suit::Diamonds), &two(Suit::Hearts)), Ordering::Less);
    assert_eq!(card_comparator(&ace(Suit::Hearts), &two(Suit::Spades)), Ordering::Less);
    assert_eq!(card_comparator(&two(Suit::Spades), &ace(Suit::Clubs)), Ordering::Greater);
}

#[test]
fn hand_order_ranks_two_lowest_and_ace_highest() {
    let ranks = [
        Rank::Numeric(2),
        Rank::Numeric(3),
        Rank::Numeric(4),
        Rank::Numeric(5),
        Rank::Numeric(6),
        Rank::Numeric(7),
        Rank::Numeric(8),
        Rank::Numeric(9),
        Rank::Numeric(10),
        Rank::Jack,
        Rank::Queen,
        Rank::King,
        Rank::Ace,
    ];
    for low in 0..ranks.len() {
        for high in 0..ranks.len() {
            let a = Card::new_normal(Suit::Hearts, ranks[low]);
            let b = Card::new_normal(Suit::Hearts, ranks[high]);
            assert_eq!(card_comparator(&a, &b), low.cmp(&high));
        }
    }
}

#[test]
fn trump_rotation_visits_every_suit_and_none() {
    let mut trump = Some(Suit::Spades);
    let mut seen = vec![trump];
    for _ in 0..5 {
        trump = Suit::successor(trump);
        seen.push(trump);
    }
    assert_eq!(
        seen,
        vec![
            Some(Suit::Spades),
            Some(Suit::Hearts),
            Some(Suit::Clubs),
            Some(Suit::Diamonds),
            None,
            Some(Suit::Spades),
        ]
    );
}
