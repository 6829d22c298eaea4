//! Playing cards and the two orders the game puts on them: the order in which
//! a hand is kept, and the order that decides a trick.

use std::cmp::Ordering;
use vstd::prelude::*;

verus! {

/// The four suits of a standard deck.
#[derive(Debug, Clone, Copy, PartialEq, Eq, Structural, Hash)]
pub enum Suit {
    Spades,
    Hearts,
    Clubs,
    Diamonds,
}

/// The rank of a card. Numeric ranks run from 2 to 10 in a standard deck;
/// the face cards and the ace rank above every numeric card.
#[derive(Debug, Clone, Copy, PartialEq, Eq, Structural, Hash)]
pub enum Rank {
    Numeric(u8),
    Jack,
    Queen,
    King,
    Ace,
}

/// A card of a standard deck.
#[derive(Debug, Clone, Copy, PartialEq, Eq, Structural, Hash)]
pub struct Card {
    pub suit: Suit,
    pub rank: Rank,
}

/// Position of a suit in a sorted hand: blacks and reds alternate.
pub open spec fn suit_order(suit: Suit) -> int {
    match suit {
        Suit::Clubs => 0,
        Suit::Diamonds => 1,
        Suit::Hearts => 2,
        Suit::Spades => 3,
    }
}

/// Strength of a rank: numerics by their number, then jack, queen, king, ace.
pub open spec fn rank_order(rank: Rank) -> int {
    match rank {
        Rank::Numeric(n) => n as int,
        Rank::Jack => 256,
        Rank::Queen => 257,
        Rank::King => 258,
        Rank::Ace => 259,
    }
}

/// The key by which a hand is sorted: suit first, then rank.
pub open spec fn hand_key(card: Card) -> int {
    suit_order(card.suit) * 260 + rank_order(card.rank)
}

/// How two integers compare.
pub open spec fn int_order(a: int, b: int) -> Ordering {
    if a < b {
        Ordering::Less
    } else if a == b {
        Ordering::Equal
    } else {
        Ordering::Greater
    }
}

/// How `c1` stands to `c2` in a sorted hand.
pub open spec fn hand_order(c1: Card, c2: Card) -> Ordering {
    int_order(hand_key(c1), hand_key(c2))
}

/// How the card that leads a trick so far stands to a card played after it.
/// `Less` means that the later card takes the lead. Within one suit the higher
/// rank is better; a trump beats any other suit; in every other case the card
/// played first stays ahead.
pub open spec fn trick_order(first: Card, second: Card, trump_suit: Option<Suit>) -> Ordering {
    if first.suit == second.suit {
        int_order(rank_order(first.rank), rank_order(second.rank))
    } else if trump_suit == Some(second.suit) {
        Ordering::Less
    } else {
        Ordering::Greater
    }
}

/// Whether `played` takes the trick from `leading`.
pub open spec fn beats(played: Card, leading: Card, trump_suit: Option<Suit>) -> bool {
    if played.suit == leading.suit {
        rank_order(played.rank) > rank_order(leading.rank)
    } else {
        trump_suit == Some(played.suit)
    }
}

/// The trump suit of the round after one with trump `trump`.
pub open spec fn next_trump(trump: Option<Suit>) -> Option<Suit> {
    match trump {
        Some(Suit::Spades) => Some(Suit::Hearts),
        Some(Suit::Hearts) => Some(Suit::Clubs),
        Some(Suit::Clubs) => Some(Suit::Diamonds),
        Some(Suit::Diamonds) => None,
        None => Some(Suit::Spades),
    }
}

impl Suit {
    /// The four suits, in the order of a sorted hand.
    pub fn all_suits() -> (suits: [Suit; 4])
        ensures
            suits@ == seq![Suit::Clubs, Suit::Diamonds, Suit::Hearts, Suit::Spades],
    {
        [Suit::Clubs, Suit::Diamonds, Suit::Hearts, Suit::Spades]
    }

    /// The English name of the suit.
    pub fn name(&self) -> (name: &'static str)
        ensures
            name@ == match *self {
                Suit::Spades => "Spades"@,
                Suit::Hearts => "Hearts"@,
                Suit::Clubs => "Clubs"@,
                Suit::Diamonds => "Diamonds"@,
            },
    {
        match self {
            Suit::Spades => "Spades",
            Suit::Hearts => "Hearts",
            Suit::Clubs => "Clubs",
            Suit::Diamonds => "Diamonds",
        }
    }

    /// The suit that is trump after this one, if any.
    pub fn successor(trump: Option<Suit>) -> (next: Option<Suit>)
        ensures
            next == next_trump(trump),
    {
        match trump {
            Some(Suit::Spades) => Some(Suit::Hearts),
            Some(Suit::Hearts) => Some(Suit::Clubs),
            Some(Suit::Clubs) => Some(Suit::Diamonds),
            Some(Suit::Diamonds) => None,
            None => Some(Suit::Spades),
        }
    }

    fn index(self) -> (i: u16)
        ensures
            i == suit_order(self),
    {
        match self {
            Suit::Clubs => 0,
            Suit::Diamonds => 1,
            Suit::Hearts => 2,
            Suit::Spades => 3,
        }
    }
}

impl Rank {
    fn index(self) -> (i: u16)
        ensures
            i == rank_order(self),
    {
        match self {
            Rank::Numeric(n) => n as u16,
            Rank::Jack => 256,
            Rank::Queen => 257,
            Rank::King => 258,
            Rank::Ace => 259,
        }
    }
}

impl Card {
    /// A card of the given suit and rank.
    pub fn new_normal(suit: Suit, rank: Rank) -> (card: Card)
        ensures
            card == (Card { suit, rank }),
    {
        Card { suit, rank }
    }

    pub fn suit(&self) -> (suit: Suit)
        ensures
            suit == self.suit,
    {
        self.suit
    }

    pub fn rank(&self) -> (rank: Rank)
        ensures
            rank == self.rank,
    {
        self.rank
    }

    /// The sorting key of the card, as a machine integer.
    pub(crate) fn key(&self) -> (k: u16)
        ensures
            k == hand_key(*self),
    {
        self.suit.index() * 260 + self.rank.index()
    }
}

fn order_of(a: u16, b: u16) -> (o: Ordering)
    ensures
        a < b ==> o == Ordering::Less,
        a == b ==> o == Ordering::Equal,
        a > b ==> o == Ordering::Greater,
{
    if a < b {
        Ordering::Less
    } else if a == b {
        Ordering::Equal
    } else {
        Ordering::Greater
    }
}

/// Compares two cards as a sorted hand orders them. Rank 2 is the lowest and
/// the ace the highest within a suit; the order of the suits has no meaning in
/// play.
pub fn card_comparator(c1: &Card, c2: &Card) -> (o: Ordering)
    ensures
        o == hand_order(*c1, *c2),
{
    order_of(c1.key(), c2.key())
}

/// Compares the card that leads the trick so far with a card played after it,
/// under the round's trump suit.
pub fn trick_card_comparator(first: &Card, second: &Card, trump_suit: Option<&Suit>) -> (o:
    Ordering)
    ensures
        o == trick_order(
            *first,
            *second,
            match trump_suit {
                Some(suit) => Some(*suit),
                None => None,
            },
        ),
{
    if first.suit == second.suit {
        order_of(first.rank.index(), second.rank.index())
    } else {
        match trump_suit {
            Some(suit) => {
                if *suit == second.suit {
                    Ordering::Less
                } else {
                    Ordering::Greater
                }
            },
            None => Ordering::Greater,
        }
    }
}

/// A later card takes the trick exactly when the trick order puts the leading
/// card below it.
pub proof fn lemma_beats_is_trick_order(played: Card, leading: Card, trump_suit: Option<Suit>)
    ensures
        beats(played, leading, trump_suit) <==> trick_order(leading, played, trump_suit)
            == Ordering::Less,
{
}

/// Cards with the same sorting key are the same card.
pub proof fn lemma_hand_key_injective(c1: Card, c2: Card)
    requires
        hand_key(c1) == hand_key(c2),
    ensures
        c1 == c2,
{
}

/// The trump suit returns to where it was after five rounds, having passed
/// through spades, hearts, clubs, diamonds and no trump in that order.
pub proof fn lemma_trump_cycle()
    ensures
        next_trump(Some(Suit::Spades)) == Some(Suit::Hearts),
        next_trump(Some(Suit::Hearts)) == Some(Suit::Clubs),
        next_trump(Some(Suit::Clubs)) == Some(Suit::Diamonds),
        next_trump(Some(Suit::Diamonds)) == None::<Suit>,
        next_trump(None) == Some(Suit::Spades),
        forall|t: Option<Suit>|
            next_trump(next_trump(next_trump(next_trump(next_trump(t))))) == t,
{
}

} // verus!
