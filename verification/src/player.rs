//! The hand of one seat: a sequence of cards that is kept sorted.

use crate::card::{hand_key, Card, Suit};
use vstd::prelude::*;
use vstd::relations::{sorted_by, total_ordering};
use vstd::seq_lib::{lemma_sorted_unique, to_multiset_build, to_multiset_insert};

verus! {

/// The order of a sorted hand, as a relation on cards.
pub open spec fn card_leq() -> spec_fn(Card, Card) -> bool {
    |a: Card, b: Card| hand_key(a) <= hand_key(b)
}

/// Whether `hand` is in the order in which a seat holds its cards.
pub open spec fn is_sorted(hand: Seq<Card>) -> bool {
    sorted_by(hand, card_leq())
}

/// The one sorted arrangement of `cards`.
pub open spec fn sorted_hand(cards: Seq<Card>) -> Seq<Card> {
    cards.sort_by(card_leq())
}

/// The order of a sorted hand is a total order on cards.
pub proof fn lemma_card_leq_total()
    ensures
        total_ordering(card_leq()),
{
    let leq = card_leq();
    assert forall|a: Card, b: Card| #[trigger] leq(a, b) && leq(b, a) implies a == b by {
        crate::card::lemma_hand_key_injective(a, b);
    }
}

/// A sorted hand holds the cards it was made of, in sorted order, and it is
/// the only such arrangement.
pub proof fn lemma_sorted_hand(cards: Seq<Card>)
    ensures
        is_sorted(sorted_hand(cards)),
        sorted_hand(cards).to_multiset() == cards.to_multiset(),
        sorted_hand(cards).len() == cards.len(),
        forall|other: Seq<Card>|
            is_sorted(other) && other.to_multiset() == cards.to_multiset() ==> other
                == sorted_hand(cards),
{
    lemma_card_leq_total();
    cards.lemma_sort_by_ensures(card_leq());
    cards.to_multiset_ensures();
    sorted_hand(cards).to_multiset_ensures();
    assert forall|other: Seq<Card>|
        is_sorted(other) && other.to_multiset() == cards.to_multiset() implies other
        == sorted_hand(cards) by {
        lemma_sorted_unique(other, sorted_hand(cards), card_leq());
    }
}

/// Taking a card out of a sorted hand leaves a sorted hand, one card shorter
/// if the hand held the card. What is left was in the hand before, and if
/// the cards of the hand were all different, so are those left.
pub proof fn lemma_remove_value_sorted(hand: Seq<Card>, card: Card)
    requires
        is_sorted(hand),
    ensures
        is_sorted(hand.remove_value(card)),
        hand.contains(card) ==> hand.remove_value(card).len() == hand.len() - 1,
        !hand.contains(card) ==> hand.remove_value(card) == hand,
        forall|other: Card| hand.remove_value(card).contains(other) ==> hand.contains(other),
        forall|other: Card|
            hand.remove_value(card).to_multiset().count(other) <= hand.to_multiset().count(other),
        hand.no_duplicates() ==> hand.remove_value(card).no_duplicates(),
{
    broadcast use vstd::multiset::group_multiset_axioms;

    hand.index_of_first_ensures(card);
    match hand.index_of_first(card) {
        Some(position) => {
            let rest = hand.remove(position);
            vstd::seq_lib::to_multiset_remove(hand, position);
            assert forall|a: int, b: int| 0 <= a < b < rest.len() implies card_leq()(
                rest[a],
                rest[b],
            ) by {
                let pa = if a < position { a } else { a + 1 };
                let pb = if b < position { b } else { b + 1 };
                assert(card_leq()(hand[pa], hand[pb]));
            }
            assert forall|other: Card| rest.contains(other) implies hand.contains(other) by {
                let k = choose|k: int| 0 <= k < rest.len() && rest[k] == other;
                let pk = if k < position { k } else { k + 1 };
                assert(hand[pk] == other);
            }
            if hand.no_duplicates() {
                assert forall|a: int, b: int|
                    0 <= a < rest.len() && 0 <= b < rest.len() && a != b implies rest[a]
                    != rest[b] by {
                    let pa = if a < position { a } else { a + 1 };
                    let pb = if b < position { b } else { b + 1 };
                    assert(hand[pa] != hand[pb]);
                }
            }
        },
        None => {},
    }
}

/// Sorts `cards` into the order of a hand.
pub fn sort_cards(cards: &Vec<Card>) -> (sorted: Vec<Card>)
    ensures
        sorted@ == sorted_hand(cards@),
{
    let mut out: Vec<Card> = Vec::new();
    let mut i: usize = 0;
    assert(out@ =~= cards@.take(0));
    while i < cards.len()
        invariant
            i <= cards.len(),
            is_sorted(out@),
            out@.to_multiset() == cards@.take(i as int).to_multiset(),
        decreases cards.len() - i,
    {
        let card = cards[i];
        let key = card.key();
        let mut j: usize = out.len();
        while j > 0 && out[j - 1].key() > key
            invariant
                j <= out.len(),
                key == hand_key(card),
                forall|k: int| j <= k < out.len() ==> hand_key(out@[k]) > key,
            decreases j,
        {
            j -= 1;
        }
        let ghost before = out@;
        out.insert(j, card);
        proof {
            assert forall|a: int, b: int| 0 <= a < b < out@.len() implies card_leq()(
                out@[a],
                out@[b],
            ) by {
                let pa = if a < j { a } else { a - 1 };
                let pb = if b < j { b } else { b - 1 };
                if a != j && b != j {
                    assert(card_leq()(before[pa], before[pb]));
                } else if a == j {
                } else {
                    if j > 0 && a < j - 1 {
                        assert(card_leq()(before[a], before[j - 1]));
                    }
                }
            }
            to_multiset_insert(before, j as int, card);
            to_multiset_build(cards@.take(i as int), card);
            assert(cards@.take(i as int).push(card) =~= cards@.take(i + 1));
        }
        i += 1;
    }
    proof {
        assert(cards@.take(i as int) =~= cards@);
        lemma_sorted_hand(cards@);
    }
    out
}

/// The cards of `suit` among `cards`, in their order.
pub fn cards_of_suit(cards: &Vec<Card>, suit: Suit) -> (chosen: Vec<Card>)
    ensures
        chosen@ == cards@.filter(|card: Card| card.suit == suit),
{
    let mut chosen: Vec<Card> = Vec::new();
    let mut i: usize = 0;
    assert(cards@.take(0) =~= Seq::<Card>::empty());
    while i < cards.len()
        invariant
            i <= cards.len(),
            chosen@ == cards@.take(i as int).filter(|card: Card| card.suit == suit),
        decreases cards.len() - i,
    {
        proof {
            assert(cards@.take(i + 1) =~= cards@.take(i as int).push(cards@[i as int]));
            cards@.take(i as int).lemma_filter_push(cards@[i as int], |card: Card| card.suit == suit);
        }
        if cards[i].suit == suit {
            chosen.push(cards[i]);
        }
        i += 1;
    }
    assert(cards@.take(i as int) =~= cards@);
    chosen
}

/// One seat's cards.
#[derive(Debug)]
pub struct Player {
    hand: Vec<Card>,
}

impl View for Player {
    type V = Seq<Card>;

    closed spec fn view(&self) -> Seq<Card> {
        self.hand@
    }
}

impl Player {
    /// A seat that holds no cards.
    pub fn new() -> (player: Player)
        ensures
            player@ == Seq::<Card>::empty(),
    {
        Player { hand: Vec::new() }
    }

    /// Replaces the hand by `cards`, sorted.
    pub fn assign(&mut self, cards: Vec<Card>)
        ensures
            final(self)@ == sorted_hand(cards@),
    {
        self.hand = sort_cards(&cards);
    }

    /// The cards held, in sorted order.
    pub fn hand(&self) -> (hand: &Vec<Card>)
        ensures
            hand@ == self@,
    {
        &self.hand
    }

    /// The first position at which the hand holds `card`, if it holds it.
    pub fn search(&self, card: &Card) -> (position: Option<usize>)
        requires
            is_sorted(self@),
        ensures
            match position {
                Some(i) => i < self@.len() && self@[i as int] == *card && forall|j: int|
                    0 <= j < i ==> self@[j] != *card,
                None => !self@.contains(*card),
            },
    {
        let key = card.key();
        let mut low: usize = 0;
        let mut high: usize = self.hand.len();
        while low < high
            invariant
                low <= high <= self.hand@.len(),
                is_sorted(self.hand@),
                key == hand_key(*card),
                forall|k: int| 0 <= k < low ==> hand_key(self.hand@[k]) < key,
                forall|k: int| high <= k < self.hand@.len() ==> hand_key(self.hand@[k]) >= key,
            decreases high - low,
        {
            let mid = low + (high - low) / 2;
            if self.hand[mid].key() < key {
                proof {
                    assert forall|k: int| 0 <= k < mid + 1 implies hand_key(self.hand@[k])
                        < key by {
                        if k < mid {
                            assert(card_leq()(self.hand@[k], self.hand@[mid as int]));
                        }
                    }
                }
                low = mid + 1;
            } else {
                proof {
                    assert forall|k: int| mid <= k < self.hand@.len() implies hand_key(
                        self.hand@[k],
                    ) >= key by {
                        if mid < k {
                            assert(card_leq()(self.hand@[mid as int], self.hand@[k]));
                        }
                    }
                }
                high = mid;
            }
        }
        if low < self.hand.len() && self.hand[low].key() == key {
            proof {
                crate::card::lemma_hand_key_injective(self.hand@[low as int], *card);
            }
            Some(low)
        } else {
            proof {
                if self@.contains(*card) {
                    let k = choose|k: int| 0 <= k < self@.len() && self@[k] == *card;
                    if low < k {
                        assert(card_leq()(self.hand@[low as int], self.hand@[k]));
                    }
                }
            }
            None
        }
    }

    /// Takes `card` out of the hand, if the hand holds it.
    pub fn remove(&mut self, card: &Card) -> (removed: Option<Card>)
        requires
            is_sorted(old(self)@),
        ensures
            is_sorted(final(self)@),
            removed == if old(self)@.contains(*card) {
                Some(*card)
            } else {
                None
            },
            final(self)@ == old(self)@.remove_value(*card),
            removed is None ==> final(self)@ == old(self)@,
    {
        let ghost before = self@;
        proof {
            before.index_of_first_ensures(*card);
            lemma_remove_value_sorted(before, *card);
        }
        match self.search(card) {
            Some(position) => {
                let taken = self.hand.remove(position);
                proof {
                    let first = before.index_of_first(*card);
                    assert(before.contains(*card));
                    assert(first == Some(position as int));
                    assert forall|a: int, b: int| 0 <= a < b < self.hand@.len() implies card_leq()(
                        self.hand@[a],
                        self.hand@[b],
                    ) by {
                        let pa = if a < position { a } else { a + 1 };
                        let pb = if b < position { b } else { b + 1 };
                        assert(card_leq()(before[pa], before[pb]));
                    }
                }
                Some(taken)
            },
            None => None,
        }
    }

    /// Whether the hand holds a card of `suit`.
    pub fn has_suit(&self, suit: &Suit) -> (found: bool)
        ensures
            found <==> exists|i: int| 0 <= i < self@.len() && (#[trigger] self@[i]).suit == *suit,
    {
        let mut i: usize = 0;
        while i < self.hand.len()
            invariant
                i <= self.hand@.len(),
                forall|k: int| 0 <= k < i ==> (#[trigger] self.hand@[k]).suit != *suit,
            decreases self.hand.len() - i,
        {
            if self.hand[i].suit == *suit {
                return true;
            }
            i += 1;
        }
        false
    }
}

} // verus!
