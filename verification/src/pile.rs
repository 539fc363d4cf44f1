use vstd::prelude::*;
use cardpack::Pile;
use cardpack::Standard52;
use crate::card::{
    all_standard, holds_rank, rank_count, rank_strength, standard_deck, suit_strength, Card,
};

verus! {

/// `cardpack::Pile`, an ordered pile of cards.
#[verifier::external_type_specification]
#[verifier::external_body]
pub struct ExPile(cardpack::Pile);

/// `cardpack::Standard52`, a deck of the 52 standard cards.
#[verifier::external_type_specification]
#[verifier::external_body]
pub struct ExStandard52(cardpack::Standard52);

/// The cards of a pile, top card first, each named by the rank and suit
/// symbol printed in its corner: the first two characters of its index.
///
/// The piles of this library are made and filled through the items of this
/// file alone, so they hold cards of the standard deck as
/// `Pile::french_deck` and `Standard52::card_from_string` make them: for
/// these the two symbols say which card it is.
pub uninterp spec fn pile_cards(pile: Pile) -> Seq<Card>;

/// The cards still in a deck, top card first.
pub uninterp spec fn deck_cards(deck: Standard52) -> Seq<Card>;

/// The order into which `Pile::sort_by_frequency` brings the given cards:
/// see `is_frequency_sort` for what is known of it.
pub uninterp spec fn frequency_order(cards: Seq<Card>) -> Seq<Card>;

/// `cardpack` can sort the cards by frequency: they belong to the standard
/// deck and no rank occurs more than five times (the sort shifts a 32-bit
/// weight by the square of that number).
pub open spec fn sortable(cards: Seq<Card>) -> bool {
    &&& all_standard(cards)
    &&& forall|rank: char| #[trigger] rank_count(cards, rank) <= 5
}

/// No rank occurs more than four times among `cards`.
pub open spec fn at_most_four_of_a_rank(cards: Seq<Card>) -> bool {
    forall|rank: char| #[trigger] rank_count(cards, rank) <= 4
}

/// The weight of `card` in a sort of `cards` by frequency: first the number
/// of cards of its rank among `cards`, then the strength of its rank, then
/// the strength of its suit.
pub open spec fn frequency_weight(cards: Seq<Card>, card: Card) -> int {
    100 * rank_count(cards, card.rank) + 5 * rank_strength(card.rank) + suit_strength(card.suit)
}

/// `sorted` runs from the heaviest card down, by the weights that the cards
/// have among `cards`.
pub open spec fn in_frequency_order(cards: Seq<Card>, sorted: Seq<Card>) -> bool {
    forall|i: int, j: int|
        0 <= i < j < sorted.len() ==> frequency_weight(cards, sorted[i]) >= frequency_weight(
            cards,
            sorted[j],
        )
}

/// `sorted` is `cards` sorted by frequency: the same cards, and, where no
/// rank occurs more than four times, from the heaviest card down.
pub open spec fn is_frequency_sort(cards: Seq<Card>, sorted: Seq<Card>) -> bool {
    &&& sorted.to_multiset() == cards.to_multiset()
    &&& at_most_four_of_a_rank(cards) ==> in_frequency_order(cards, sorted)
}

/// The sort by frequency does to `cards` what it is meant to do.
pub open spec fn frequency_sorted(cards: Seq<Card>) -> bool {
    is_frequency_sort(cards, frequency_order(cards))
}

/// `Pile::default`: a pile without cards.
#[verifier::external_body]
pub(crate) fn pile_new() -> (pile: Pile)
    ensures
        pile_cards(pile) == Seq::<Card>::empty(),
{
    Pile::default()
}

/// `Pile::len`: the number of cards in the pile.
#[verifier::external_body]
pub(crate) fn pile_len(pile: &Pile) -> (n: usize)
    ensures
        n == pile_cards(*pile).len(),
{
    pile.len()
}

/// `Pile::cards`: the cards of the pile in their order, each handed out as
/// the two symbols of its index.
#[verifier::external_body]
pub(crate) fn pile_contents(pile: &Pile) -> (cards: Vec<Card>)
    ensures
        cards@ == pile_cards(*pile),
{
    pile.cards().iter().map(|c| {
        let mut symbols = c.index.chars();
        Card { rank: symbols.next().unwrap_or('_'), suit: symbols.next().unwrap_or('_') }
    }).collect()
}

/// `Pile::ranks`: the ranks that occur among the cards of a pile of standard
/// cards, each once, from the strongest rank down; a rank is handed out as
/// its symbol.
#[verifier::external_body]
pub(crate) fn pile_ranks(pile: &Pile) -> (ranks: Vec<char>)
    requires
        all_standard(pile_cards(*pile)),
    ensures
        forall|rank: char|
            #![trigger ranks@.contains(rank)]
            #![trigger holds_rank(pile_cards(*pile), rank)]
            ranks@.contains(rank) <==> holds_rank(pile_cards(*pile), rank),
        forall|i: int, j: int|
            0 <= i < j < ranks@.len() ==> rank_strength(ranks@[i]) > rank_strength(ranks@[j]),
{
    pile.ranks().iter().map(|r| r.to_string().chars().next().unwrap_or('_')).collect()
}

/// `Pile::push`: the card goes to the bottom of the pile. The card is made
/// from its two symbols by `Standard52::card_from_string`.
#[verifier::external_body]
pub(crate) fn pile_push(pile: &mut Pile, card: Card)
    requires
        card.is_standard(),
    ensures
        pile_cards(*final(pile)) == pile_cards(*old(pile)).push(card),
{
    pile.push(Standard52::card_from_string(format!("{}{}", card.rank, card.suit)));
}

/// `Pile::append`: the cards of `other` go to the bottom of the pile, in
/// their order; `other` keeps them.
#[verifier::external_body]
pub(crate) fn pile_append(pile: &mut Pile, other: &Pile)
    ensures
        pile_cards(*final(pile)) == pile_cards(*old(pile)) + pile_cards(*other),
{
    pile.append(other);
}

/// `Pile::remove_card` on a pile of standard cards: the first card with the
/// index of `card` leaves the pile; a pile without such a card stays as it is.
#[verifier::external_body]
pub(crate) fn pile_remove_card(pile: &mut Pile, card: Card)
    requires
        card.is_standard(),
        all_standard(pile_cards(*old(pile))),
    ensures
        pile_cards(*final(pile)) == pile_cards(*old(pile)).remove_value(card),
{
    let _ = pile.remove_card(&Standard52::card_from_string(format!("{}{}", card.rank, card.suit)));
}

/// `Pile::sort_by_frequency`: a new pile with the same cards, in an order
/// that depends on the cards alone. The sort gives a card of rank weight
/// `r` and suit weight `s`, with `n` cards of its rank in the pile, the
/// weight `(1000 * (r + 2) + s) << (n * n)`, and puts the heaviest card
/// first; up to four cards of a rank that is the order of `n`, then `r`,
/// then `s`.
#[verifier::external_body]
pub(crate) fn pile_sort_by_frequency(pile: &Pile) -> (sorted: Pile)
    requires
        sortable(pile_cards(*pile)),
    ensures
        pile_cards(sorted) == frequency_order(pile_cards(*pile)),
        is_frequency_sort(pile_cards(*pile), pile_cards(sorted)),
{
    pile.sort_by_frequency()
}

/// `Standard52::default`: the full deck in its standard order.
#[verifier::external_body]
pub(crate) fn deck_standard() -> (deck: Standard52)
    ensures
        deck_cards(deck) == standard_deck(),
{
    Standard52::default()
}

/// `Standard52::new_shuffled`: the full deck in some order.
#[verifier::external_body]
pub(crate) fn deck_shuffled() -> (deck: Standard52)
    ensures
        deck_cards(deck).to_multiset() == standard_deck().to_multiset(),
{
    Standard52::new_shuffled()
}

/// The public field `deck` of a `Standard52` and `Pile::cards` on it: the
/// cards still in the deck in their order, each handed out as the two
/// symbols of its index.
#[verifier::external_body]
pub(crate) fn deck_contents(deck: &Standard52) -> (cards: Vec<Card>)
    ensures
        cards@ == deck_cards(*deck),
{
    deck.deck.cards().iter().map(|c| {
        let mut symbols = c.index.chars();
        Card { rank: symbols.next().unwrap_or('_'), suit: symbols.next().unwrap_or('_') }
    }).collect()
}

/// `Standard52::draw`: the top `count` cards leave the deck as a pile, in
/// their order; nothing is drawn where `count` is zero or the deck holds
/// fewer cards.
#[verifier::external_body]
pub(crate) fn deck_draw(deck: &mut Standard52, count: usize) -> (drawn: Option<Pile>)
    ensures
        match drawn {
            Some(pile) => {
                &&& 1 <= count <= deck_cards(*old(deck)).len()
                &&& pile_cards(pile) == deck_cards(*old(deck)).subrange(0, count as int)
                &&& deck_cards(*final(deck)) == deck_cards(*old(deck)).subrange(
                    count as int,
                    deck_cards(*old(deck)).len() as int,
                )
            },
            None => {
                &&& (count < 1 || count > deck_cards(*old(deck)).len())
                &&& deck_cards(*final(deck)) == deck_cards(*old(deck))
            },
        },
{
    deck.draw(count)
}

} // verus!
