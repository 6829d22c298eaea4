//! The deck: the standard pack, its shuffle from a seed, and the deal of
//! sorted hands from the top of the pile.

use crate::card::{Card, Rank, Suit};
use crate::player::{is_sorted, lemma_sorted_hand, sorted_hand, Player};
use vstd::seq_lib::{lemma_multiset_commutative, to_multiset_contains};
use card_deck::playing_card::pcard_deck_builder;
use card_deck::playing_card::Suit as PackSuit;
use card_deck::Deck;
use rand::seq::SliceRandom;
use rand::SeedableRng;
use rand_chacha::ChaCha20Rng;
use vstd::prelude::*;

verus! {

/// The suit of the `k`-th block of thirteen cards in a new pack.
pub open spec fn pack_suit(k: int) -> Suit {
    if k == 0 {
        Suit::Spades
    } else if k == 1 {
        Suit::Clubs
    } else if k == 2 {
        Suit::Hearts
    } else {
        Suit::Diamonds
    }
}

/// The rank that a pack writes as the number `number`: 1 is the ace, 11 to 13
/// are jack, queen and king.
pub open spec fn pack_rank(number: u8) -> Rank {
    if number == 1 {
        Rank::Ace
    } else if number == 11 {
        Rank::Jack
    } else if number == 12 {
        Rank::Queen
    } else if number == 13 {
        Rank::King
    } else {
        Rank::Numeric(number)
    }
}

/// The `i`-th card of a new pack of 52: the suits in blocks of thirteen, each
/// from the ace up to the king.
pub open spec fn standard_card(i: int) -> Card {
    Card { suit: pack_suit(i / 13), rank: pack_rank((i % 13 + 1) as u8) }
}

/// A new deck made of `subdecks` packs, one after the other.
pub open spec fn fresh_deck(subdecks: nat) -> Seq<Card> {
    Seq::new(52 * subdecks, |i: int| standard_card(i % 52))
}

/// What the shuffler makes of `cards` under `seed`.
pub uninterp spec fn shuffled(cards: Seq<Card>, seed: Seq<u8>) -> Seq<Card>;

/// The deck after the shuffle with `seed`: the shuffler's arrangement of
/// `cards`, which holds the same cards.
pub open spec fn shuffled_deck(cards: Seq<Card>, seed: Seq<u8>) -> Seq<Card> {
    if shuffled(cards, seed).to_multiset() == cards.to_multiset() {
        shuffled(cards, seed)
    } else {
        cards
    }
}

/// The hand of `seat` when hands of `hand_size` cards are dealt from the top of
/// `deck`, seat by seat.
pub open spec fn dealt_hand(deck: Seq<Card>, seat: int, hand_size: int) -> Seq<Card> {
    sorted_hand(deck.subrange(seat * hand_size, (seat + 1) * hand_size))
}

/// The hands of all seats after such a deal.
pub open spec fn dealt_hands(deck: Seq<Card>, players: nat, hand_size: nat) -> Seq<Seq<Card>> {
    Seq::new(players, |seat: int| dealt_hand(deck, seat, hand_size as int))
}

/// Whether no card is held twice: no hand holds a card twice, and no two
/// hands share a card.
pub open spec fn hands_disjoint(hands: Seq<Seq<Card>>) -> bool {
    &&& forall|seat: int| 0 <= seat < hands.len() ==> (#[trigger] hands[seat]).no_duplicates()
    &&& forall|a: int, b: int, card: Card|
        #![trigger hands[a].contains(card), hands[b].contains(card)]
        0 <= a < hands.len() && 0 <= b < hands.len() && a != b && hands[a].contains(card)
            ==> !hands[b].contains(card)
}

/// The cards of one pack are all different, and so are those of no pack.
pub proof fn lemma_deck_has_no_duplicates(subdecks: nat)
    requires
        subdecks <= 1,
    ensures
        fresh_deck(subdecks).no_duplicates(),
{
    assert forall|i: int, j: int| 0 <= i < 52 && 0 <= j < 52 && i != j implies standard_card(i)
        != standard_card(j) by {
        if i / 13 == j / 13 {
            assert(i % 13 != j % 13);
        }
    }
}

/// Two arrangements of the same cards hold the same cards, and if the cards
/// of one are all different, so are those of the other.
pub proof fn lemma_same_cards(a: Seq<Card>, b: Seq<Card>)
    requires
        a.to_multiset() == b.to_multiset(),
    ensures
        forall|card: Card| a.contains(card) <==> b.contains(card),
        a.no_duplicates() ==> b.no_duplicates(),
{
    assert forall|card: Card| a.contains(card) <==> b.contains(card) by {
        to_multiset_contains(a, card);
        to_multiset_contains(b, card);
    }
    if a.no_duplicates() {
        a.lemma_multiset_has_no_duplicates();
        b.lemma_multiset_has_no_duplicates_conv();
    }
}

/// A deal gives every seat a sorted hand of the round's size.
pub proof fn lemma_dealt_hands(deck: Seq<Card>, players: nat, hand_size: nat)
    requires
        players * hand_size <= deck.len(),
    ensures
        dealt_hands(deck, players, hand_size).len() == players,
        forall|seat: int|
            0 <= seat < players ==> {
                &&& is_sorted(#[trigger] dealt_hands(deck, players, hand_size)[seat])
                &&& dealt_hands(deck, players, hand_size)[seat].len() == hand_size
                &&& dealt_hands(deck, players, hand_size)[seat].to_multiset() == deck.subrange(
                    seat * hand_size,
                    (seat + 1) * hand_size,
                ).to_multiset()
            },
{
    assert forall|seat: int| 0 <= seat < players implies {
        &&& is_sorted(#[trigger] dealt_hands(deck, players, hand_size)[seat])
        &&& dealt_hands(deck, players, hand_size)[seat].len() == hand_size
        &&& dealt_hands(deck, players, hand_size)[seat].to_multiset() == deck.subrange(
            seat * hand_size,
            (seat + 1) * hand_size,
        ).to_multiset()
    } by {
        assert(0 <= seat * hand_size && (seat + 1) * hand_size == seat * hand_size + hand_size
            && (seat + 1) * hand_size <= players * hand_size) by (nonlinear_arith)
            requires
                0 <= seat < players,
        ;
        lemma_sorted_hand(deck.subrange(seat * hand_size, (seat + 1) * hand_size));
    }
}

/// How often `card` is held over all `hands`.
pub open spec fn times_held(hands: Seq<Seq<Card>>, card: Card) -> nat
    decreases hands.len(),
{
    if hands.len() == 0 {
        0
    } else {
        times_held(hands.drop_last(), card) + hands.last().to_multiset().count(card)
    }
}

/// A deck of so many packs holds no card more often than it has packs.
pub proof fn lemma_deck_holds_each_card(subdecks: nat, card: Card)
    ensures
        fresh_deck(subdecks).to_multiset().count(card) <= subdecks,
    decreases subdecks,
{
    broadcast use vstd::multiset::group_multiset_axioms;

    if subdecks == 0 {
        assert(fresh_deck(0) =~= Seq::<Card>::empty());
        fresh_deck(0).to_multiset_ensures();
    } else {
        let fewer = (subdecks - 1) as nat;
        lemma_deck_holds_each_card(fewer, card);
        lemma_deck_has_no_duplicates(1);
        fresh_deck(1).lemma_multiset_has_no_duplicates();
        assert(fresh_deck(subdecks) =~= fresh_deck(fewer) + fresh_deck(1)) by {
            assert forall|i: int| 0 <= i < 52 * subdecks implies fresh_deck(subdecks)[i] == (
            fresh_deck(fewer) + fresh_deck(1))[i] by {
                if i >= 52 * fewer {
                    assert((i - 52 * fewer) % 52 == i % 52) by (nonlinear_arith)
                        requires
                            52 * fewer <= i < 52 * fewer + 52,
                    ;
                }
            }
        }
        lemma_multiset_commutative(fresh_deck(fewer), fresh_deck(1));
    }
}

/// Where no seat holds a card, no card is held.
pub proof fn lemma_nothing_held(hands: Seq<Seq<Card>>, card: Card)
    requires
        forall|seat: int| 0 <= seat < hands.len() ==> (#[trigger] hands[seat]).len() == 0,
    ensures
        times_held(hands, card) == 0,
    decreases hands.len(),
{
    if hands.len() > 0 {
        lemma_nothing_held(hands.drop_last(), card);
        assert(hands.last() =~= Seq::<Card>::empty());
        hands.last().to_multiset_ensures();
    }
}

/// A seat that gives up cards and takes none leaves no card held more often
/// than before.
pub proof fn lemma_fewer_held(hands: Seq<Seq<Card>>, seat: int, rest: Seq<Card>, card: Card)
    requires
        0 <= seat < hands.len(),
        rest.to_multiset().count(card) <= hands[seat].to_multiset().count(card),
    ensures
        times_held(hands.update(seat, rest), card) <= times_held(hands, card),
    decreases hands.len(),
{
    let after = hands.update(seat, rest);
    if seat == hands.len() - 1 {
        assert(after.drop_last() =~= hands.drop_last());
    } else {
        lemma_fewer_held(hands.drop_last(), seat, rest, card);
        assert(after.drop_last() =~= hands.drop_last().update(seat, rest));
    }
}

/// What the seats hold after a deal is what lay on top of the deck, so that
/// no card is held more often than the deck has it.
pub proof fn lemma_dealt_from_the_deck(deck: Seq<Card>, players: nat, size: nat, card: Card)
    requires
        players * size <= deck.len(),
    ensures
        times_held(dealt_hands(deck, players, size), card) == deck.take(
            (players * size) as int,
        ).to_multiset().count(card),
        times_held(dealt_hands(deck, players, size), card) <= deck.to_multiset().count(card),
    decreases players,
{
    broadcast use vstd::multiset::group_multiset_axioms;

    let top = deck.take((players * size) as int);
    if players == 0 {
        assert(players * size == 0) by (nonlinear_arith)
            requires
                players == 0,
        ;
        assert(top =~= Seq::<Card>::empty());
        top.to_multiset_ensures();
    } else {
        let fewer = (players - 1) as nat;
        assert(fewer * size + size == players * size && 0 <= fewer * size) by (nonlinear_arith)
            requires
                fewer + 1 == players,
        ;
        lemma_dealt_from_the_deck(deck, fewer, size, card);
        lemma_dealt_hands(deck, players, size);
        let hands = dealt_hands(deck, players, size);
        assert(hands.drop_last() =~= dealt_hands(deck, fewer, size));
        let part = deck.subrange((fewer * size) as int, ((fewer + 1) * size) as int);
        assert(hands.last() == hands[fewer as int]);
        assert(hands.last().to_multiset() == part.to_multiset());
        assert(top =~= deck.take((fewer * size) as int) + part);
        lemma_multiset_commutative(deck.take((fewer * size) as int), part);
    }
    assert(deck =~= top + deck.skip((players * size) as int));
    lemma_multiset_commutative(top, deck.skip((players * size) as int));
}

/// The hand dealt to a seat holds the cards of the seat's part of the deck.
pub proof fn lemma_hand_of_part(deck: Seq<Card>, players: nat, size: nat, seat: int)
    requires
        players * size <= deck.len(),
        0 <= seat < players,
    ensures
        0 <= seat * size <= (seat + 1) * size <= deck.len(),
        (seat + 1) * size == seat * size + size,
        forall|card: Card|
            dealt_hands(deck, players, size)[seat].contains(card) <==> deck.subrange(
                seat * size,
                (seat + 1) * size,
            ).contains(card),
        deck.subrange(seat * size, (seat + 1) * size).no_duplicates() ==> dealt_hands(
            deck,
            players,
            size,
        )[seat].no_duplicates(),
{
    assert(0 <= seat * size && (seat + 1) * size == seat * size + size && (seat + 1) * size
        <= players * size) by (nonlinear_arith)
        requires
            0 <= seat < players,
    ;
    lemma_dealt_hands(deck, players, size);
    lemma_same_cards(
        deck.subrange(seat * size, (seat + 1) * size),
        dealt_hands(deck, players, size)[seat],
    );
}

/// From a deck whose cards are all different, no card is dealt twice.
pub proof fn lemma_dealt_hands_disjoint(deck: Seq<Card>, players: nat, size: nat)
    requires
        players * size <= deck.len(),
        deck.no_duplicates(),
    ensures
        hands_disjoint(dealt_hands(deck, players, size)),
{
    let hands = dealt_hands(deck, players, size);
    assert forall|seat: int| 0 <= seat < hands.len() implies (
    #[trigger] hands[seat]).no_duplicates() by {
        let part = deck.subrange(seat * size, (seat + 1) * size);
        lemma_hand_of_part(deck, players, size, seat);
        assert forall|i: int, j: int|
            0 <= i < part.len() && 0 <= j < part.len() && i != j implies part[i] != part[j] by {
            assert(part[i] == deck[seat * size + i]);
            assert(part[j] == deck[seat * size + j]);
        }
    }
    assert forall|a: int, b: int, card: Card|
        #![trigger hands[a].contains(card), hands[b].contains(card)]
        0 <= a < hands.len() && 0 <= b < hands.len() && a != b && hands[a].contains(
            card,
        ) implies !hands[b].contains(card) by {
        if hands[b].contains(card) {
            let part_a = deck.subrange(a * size, (a + 1) * size);
            let part_b = deck.subrange(b * size, (b + 1) * size);
            lemma_hand_of_part(deck, players, size, a);
            lemma_hand_of_part(deck, players, size, b);
            assert(part_a.contains(card));
            assert(part_b.contains(card));
            let i = choose|i: int| 0 <= i < part_a.len() && part_a[i] == card;
            let j = choose|j: int| 0 <= j < part_b.len() && part_b[j] == card;
            assert(deck[a * size + i] == card);
            assert(deck[b * size + j] == card);
            assert(a * size + i != b * size + j) by (nonlinear_arith)
                requires
                    a != b,
                    0 <= i < size,
                    0 <= j < size,
            ;
        }
    }
}

#[verifier::external_type_specification]
#[verifier::external_body]
#[verifier::reject_recursive_types(C)]
pub struct ExDeck<C>(Deck<C>);

/// The cards of a pile, from the top down.
pub uninterp spec fn draw_pile(deck: Deck<Card>) -> Seq<Card>;

/// The cards of one new pack in the order the pack has them, each as its suit
/// and number. Calls `card_deck::playing_card::pcard_deck_builder` without
/// jokers and unshuffled, and draws the whole pile: that function pushes, for
/// the suits spades, clubs, hearts, diamonds in this order, the numbers 1 to
/// 13.
#[verifier::external_body]
fn standard_pack() -> (pack: Vec<(Option<Suit>, u8)>)
    ensures
        pack@ == Seq::new(52, |i: int| (Some(pack_suit(i / 13)), (i % 13 + 1) as u8)),
{
    let mut deck = pcard_deck_builder(false).pre_shuffle(false).stop_on_discards(true).done();
    deck.draw_all().map(
        |card| {
            let suit = match card.suit {
                PackSuit::Spades => Some(Suit::Spades),
                PackSuit::Clubs => Some(Suit::Clubs),
                PackSuit::Hearts => Some(Suit::Hearts),
                PackSuit::Diamonds => Some(Suit::Diamonds),
                PackSuit::Joker => None,
            };
            (suit, card.num)
        },
    ).collect()
}

/// Shuffles `cards` in place with `rand`'s `SliceRandom::shuffle`, driven by a
/// `rand_chacha::ChaCha20Rng` made from `seed` by `SeedableRng::from_seed`.
/// The shuffle swaps elements, so the cards stay the same; their arrangement is
/// a function of the cards and the seed.
#[verifier::external_body]
fn shuffle(cards: &mut Vec<Card>, seed: &[u8; 32])
    ensures
        final(cards)@ == shuffled(old(cards)@, seed@),
        final(cards)@.to_multiset() == old(cards)@.to_multiset(),
{
    let mut rng = ChaCha20Rng::from_seed(*seed);
    cards.shuffle(&mut rng);
}

/// A pile that holds `cards`, the first on top. Calls `card_deck::Deck::build`
/// and sets the builder to keep the order of the cards.
#[verifier::external_body]
fn pile_of(cards: Vec<Card>) -> (deck: Deck<Card>)
    ensures
        draw_pile(deck) == cards@,
{
    Deck::build().draw_pile(cards).pre_shuffle(false).stop_on_discards(true).done()
}

/// Takes the `n` top cards off the pile with `card_deck::Deck::draw`, which
/// drains them from the front of the pile in order.
#[verifier::external_body]
fn draw(deck: &mut Deck<Card>, n: usize) -> (cards: Vec<Card>)
    requires
        n <= draw_pile(*old(deck)).len(),
    ensures
        cards@ == draw_pile(*old(deck)).take(n as int),
        draw_pile(*final(deck)) == draw_pile(*old(deck)).skip(n as int),
{
    deck.draw(n).collect()
}

/// The rank that a pack writes as `number`, if it is one of 1 to 13.
pub fn rank_of_number(number: u8) -> (rank: Option<Rank>)
    ensures
        rank == if 1 <= number <= 13 {
            Some(pack_rank(number))
        } else {
            None
        },
{
    if number == 1 {
        Some(Rank::Ace)
    } else if number == 11 {
        Some(Rank::Jack)
    } else if number == 12 {
        Some(Rank::Queen)
    } else if number == 13 {
        Some(Rank::King)
    } else if 2 <= number && number <= 10 {
        Some(Rank::Numeric(number))
    } else {
        None
    }
}

/// The 52 cards of one new pack, in the order the pack has them.
pub fn standard_deck() -> (cards: Vec<Card>)
    ensures
        cards@ == fresh_deck(1),
{
    let pack = standard_pack();
    let mut cards: Vec<Card> = Vec::new();
    let mut i: usize = 0;
    while i < pack.len()
        invariant
            i <= pack.len(),
            pack@ == Seq::new(52, |i: int| (Some(pack_suit(i / 13)), (i % 13 + 1) as u8)),
            cards@ == Seq::new(i as nat, |k: int| standard_card(k)),
        decreases pack.len() - i,
    {
        let (suit, number) = pack[i];
        match (suit, rank_of_number(number)) {
            (Some(suit), Some(rank)) => {
                cards.push(Card { suit, rank });
            },
            _ => {},
        }
        assert(cards@ =~= Seq::new((i + 1) as nat, |k: int| standard_card(k)));
        i += 1;
    }
    assert(cards@ =~= fresh_deck(1));
    cards
}

/// A new deck of `subdecks` packs.
pub fn new_deck(subdecks: usize) -> (cards: Vec<Card>)
    requires
        52 * subdecks <= usize::MAX,
    ensures
        cards@ == fresh_deck(subdecks as nat),
{
    let pack = standard_deck();
    let mut cards: Vec<Card> = Vec::new();
    let mut n: usize = 0;
    while n < subdecks
        invariant
            n <= subdecks,
            pack@ == fresh_deck(1),
            cards@ == fresh_deck(n as nat),
        decreases subdecks - n,
    {
        let mut i: usize = 0;
        while i < 52
            invariant
                i <= 52,
                n < subdecks,
                pack@ == fresh_deck(1),
                cards@ == fresh_deck(n as nat) + pack@.take(i as int),
            decreases 52 - i,
        {
            cards.push(pack[i]);
            assert(pack@.take(i as int).push(pack@[i as int]) =~= pack@.take(i + 1));
            i += 1;
        }
        assert(cards@ =~= fresh_deck((n + 1) as nat));
        n += 1;
    }
    cards
}

/// A new deck of `subdecks` packs, shuffled with `seed`.
pub fn shuffled_new_deck(subdecks: usize, seed: &[u8; 32]) -> (cards: Vec<Card>)
    requires
        52 * subdecks <= usize::MAX,
    ensures
        cards@ == shuffled_deck(fresh_deck(subdecks as nat), seed@),
{
    let mut cards = new_deck(subdecks);
    shuffle(&mut cards, seed);
    cards
}

/// Deals `hand_size` cards to each of `players` seats from the top of
/// `cards`, in seat order, and sorts each hand.
pub fn deal_hands(cards: Vec<Card>, players: usize, hand_size: usize) -> (hands: Vec<Player>)
    requires
        players * hand_size <= cards@.len(),
    ensures
        hands@.len() == players,
        forall|seat: int|
            0 <= seat < players ==> (#[trigger] hands@[seat])@ == dealt_hand(
                cards@,
                seat,
                hand_size as int,
            ),
{
    let ghost all = cards@;
    let mut deck = pile_of(cards);
    let mut hands: Vec<Player> = Vec::new();
    let mut seat: usize = 0;
    assert(all.skip(0) =~= all);
    while seat < players
        invariant
            seat <= players,
            players * hand_size <= all.len(),
            seat * hand_size <= all.len(),
            draw_pile(deck) == all.skip(seat * hand_size),
            hands@.len() == seat,
            forall|k: int|
                0 <= k < seat ==> (#[trigger] hands@[k])@ == dealt_hand(all, k, hand_size as int),
        decreases players - seat,
    {
        proof {
            assert((seat + 1) * hand_size == seat * hand_size + hand_size) by (nonlinear_arith);
            assert((seat + 1) * hand_size <= players * hand_size) by (nonlinear_arith)
                requires
                    seat + 1 <= players,
            ;
        }
        let drawn = draw(&mut deck, hand_size);
        let mut player = Player::new();
        player.assign(drawn);
        proof {
            assert(all.skip(seat * hand_size).take(hand_size as int) =~= all.subrange(
                seat * hand_size,
                (seat + 1) * hand_size,
            ));
            assert(all.skip(seat * hand_size).skip(hand_size as int) =~= all.skip(
                (seat + 1) * hand_size,
            ));
        }
        hands.push(player);
        seat += 1;
    }
    hands
}

} // verus!
