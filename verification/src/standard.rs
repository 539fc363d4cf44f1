use vstd::prelude::*;
use vstd::multiset::{group_multiset_axioms, Multiset};
use crate::card::{
    all_standard, lemma_symbol_places, rank_count, rank_place, rank_strength, rank_symbols,
    standard_card, standard_deck, suit_place, suit_strength, suit_symbols, Card,
};
use crate::pile::{
    at_most_four_of_a_rank, frequency_order, frequency_sorted, frequency_weight,
    in_frequency_order, is_frequency_sort, sortable,
};

verus! {

/// The cards belong to one standard deck, none of them twice.
pub open spec fn part_of_deck(cards: Multiset<Card>) -> bool {
    cards.subset_of(standard_deck().to_multiset())
}

/// The place of a standard card in the standard deck.
pub open spec fn deck_place(card: Card) -> int {
    13 * suit_place(card.suit) + rank_place(card.rank)
}

/// The standard deck holds each standard card once, and nothing else.
pub proof fn lemma_standard_deck()
    ensures
        standard_deck().len() == 52,
        standard_deck().to_multiset().len() == 52,
        all_standard(standard_deck()),
        standard_deck().no_duplicates(),
        forall|c: Card| #[trigger] standard_deck().to_multiset().count(c) <= 1,
        forall|c: Card| #[trigger]
            standard_deck().to_multiset().count(c) > 0 <==> c.is_standard(),
{
    let deck = standard_deck();
    lemma_symbol_places();
    deck.to_multiset_ensures();
    assert(deck.len() == 52);
    assert forall|i: int| 0 <= i < 52 implies (#[trigger] deck[i]).is_standard() && deck_place(
        deck[i],
    ) == i by {
        assert(0 <= i % 13 < 13 && 0 <= i / 13 < 4);
        assert(deck[i] == standard_card(i));
        assert(rank_place(rank_symbols()[i % 13]) == i % 13);
        assert(suit_place(suit_symbols()[i / 13]) == i / 13);
        assert(rank_symbols().contains(rank_symbols()[i % 13]));
        assert(suit_symbols().contains(suit_symbols()[i / 13]));
    }
    assert forall|i: int, j: int| 0 <= i < 52 && 0 <= j < 52 && i != j implies deck[i]
        != deck[j] by {
        assert(deck_place(deck[i]) == i);
        assert(deck_place(deck[j]) == j);
    }
    deck.lemma_multiset_has_no_duplicates();
    assert forall|c: Card| #[trigger] deck.to_multiset().count(c) <= 1 by {
        if deck.to_multiset().count(c) > 0 {
            assert(deck.to_multiset().contains(c));
        }
    }
    assert forall|c: Card| #[trigger] deck.to_multiset().count(c) > 0 <==> c.is_standard() by {
        if c.is_standard() {
            let k = deck_place(c);
            assert(0 <= k < 52);
            assert(k % 13 == rank_place(c.rank) && k / 13 == suit_place(c.suit));
            assert(deck[k] == c);
            assert(deck.contains(c));
        }
        if deck.to_multiset().count(c) > 0 {
            assert(deck.contains(c));
            let k = choose|k: int| 0 <= k < deck.len() && deck[k] == c;
            assert(deck[k].is_standard());
        }
    }
}

/// A multiset within another has at most its size.
pub proof fn lemma_subset_len(a: Multiset<Card>, b: Multiset<Card>)
    requires
        a.subset_of(b),
    ensures
        a.len() <= b.len(),
{
    broadcast use group_multiset_axioms;

    assert(b =~= a.add(b.sub(a)));
}

/// Among standard cards, the cards of one rank are its spade, heart,
/// diamond and club, as often as each occurs.
pub proof fn lemma_rank_count_by_suit(cards: Seq<Card>, rank: char)
    requires
        all_standard(cards),
    ensures
        rank_count(cards, rank) == cards.to_multiset().count(Card { rank, suit: 'S' })
            + cards.to_multiset().count(Card { rank, suit: 'H' }) + cards.to_multiset().count(
            Card { rank, suit: 'D' },
        ) + cards.to_multiset().count(Card { rank, suit: 'C' }),
    decreases cards.len(),
{
    broadcast use group_multiset_axioms;

    if cards.len() == 0 {
        cards.to_multiset_ensures();
    } else {
        let front = cards.drop_last();
        let last = cards.last();
        assert(front.push(last) =~= cards);
        front.to_multiset_ensures();
        assert(cards.to_multiset() =~= front.to_multiset().insert(last));
        assert(all_standard(front)) by {
            assert forall|i: int| 0 <= i < front.len() implies (#[trigger] front[i]).is_standard(
            ) by {
                assert(front[i] == cards[i]);
            }
        }
        lemma_rank_count_by_suit(front, rank);
        lemma_symbol_places();
        assert(last.is_standard());
        assert(last.suit == 'S' || last.suit == 'H' || last.suit == 'D' || last.suit == 'C') by {
            let k = suit_place(last.suit);
            assert(suit_symbols()[k] == last.suit);
        }
    }
}

/// One deck holds at most four cards of a rank.
pub proof fn lemma_four_of_a_rank(cards: Seq<Card>, rank: char)
    requires
        part_of_deck(cards.to_multiset()),
        all_standard(cards),
    ensures
        rank_count(cards, rank) <= 4,
{
    lemma_standard_deck();
    lemma_rank_count_by_suit(cards, rank);
    let deck = standard_deck().to_multiset();
    assert(deck.count(Card { rank, suit: 'S' }) <= 1);
    assert(deck.count(Card { rank, suit: 'H' }) <= 1);
    assert(deck.count(Card { rank, suit: 'D' }) <= 1);
    assert(deck.count(Card { rank, suit: 'C' }) <= 1);
}

/// Cards that are part of one deck are standard cards, at most 52, at most
/// four of a rank, and can be sorted by frequency.
pub proof fn lemma_part_of_deck(cards: Seq<Card>)
    requires
        part_of_deck(cards.to_multiset()),
    ensures
        all_standard(cards),
        cards.no_duplicates(),
        cards.len() <= 52,
        forall|rank: char| #[trigger] rank_count(cards, rank) <= 4,
        sortable(cards),
{
    let deck = standard_deck().to_multiset();
    lemma_standard_deck();
    cards.to_multiset_ensures();
    lemma_subset_len(cards.to_multiset(), deck);
    assert forall|i: int| 0 <= i < cards.len() implies (#[trigger] cards[i]).is_standard() by {
        assert(cards.contains(cards[i]));
        assert(cards.to_multiset().count(cards[i]) > 0);
        assert(deck.count(cards[i]) > 0);
    }
    assert forall|x: Card| cards.to_multiset().contains(x) implies cards.to_multiset().count(x)
        == 1 by {
        assert(deck.count(x) <= 1);
    }
    cards.lemma_multiset_has_no_duplicates_conv();
    assert forall|rank: char| #[trigger] rank_count(cards, rank) <= 4 by {
        lemma_four_of_a_rank(cards, rank);
    }
}

/// Among the same cards, two standard cards of one weight are one card.
pub proof fn lemma_weight_names_card(cards: Seq<Card>, a: Card, b: Card)
    requires
        a.is_standard(),
        b.is_standard(),
        frequency_weight(cards, a) == frequency_weight(cards, b),
    ensures
        a == b,
{
    lemma_symbol_places();
    assert(0 <= rank_strength(a.rank) <= 12 && 0 <= rank_strength(b.rank) <= 12);
    assert(1 <= suit_strength(a.suit) <= 4 && 1 <= suit_strength(b.suit) <= 4);
    assert(rank_count(cards, a.rank) == rank_count(cards, b.rank));
    assert(suit_strength(a.suit) == suit_strength(b.suit));
    assert(rank_symbols()[rank_place(a.rank)] == a.rank);
    assert(rank_symbols()[rank_place(b.rank)] == b.rank);
    assert(suit_symbols()[suit_place(a.suit)] == a.suit);
    assert(suit_symbols()[suit_place(b.suit)] == b.suit);
}

/// Standard cards, none of them twice, have one order from the heaviest
/// card down.
pub proof fn lemma_one_frequency_order(cards: Seq<Card>, a: Seq<Card>, b: Seq<Card>)
    requires
        all_standard(a),
        a.no_duplicates(),
        a.to_multiset() == b.to_multiset(),
        in_frequency_order(cards, a),
        in_frequency_order(cards, b),
    ensures
        a == b,
    decreases a.len(),
{
    a.to_multiset_ensures();
    b.to_multiset_ensures();
    if a.len() == 0 {
        assert(a =~= b);
    } else {
        let x = a[0];
        let y = b[0];
        assert(a.contains(x) && b.contains(y));
        assert(b.to_multiset().count(x) > 0 && a.to_multiset().count(y) > 0);
        assert(b.contains(x) && a.contains(y));
        let i = choose|i: int| 0 <= i < a.len() && a[i] == y;
        let j = choose|j: int| 0 <= j < b.len() && b[j] == x;
        assert(frequency_weight(cards, x) >= frequency_weight(cards, a[i]));
        assert(frequency_weight(cards, y) >= frequency_weight(cards, b[j]));
        assert(a[i].is_standard());
        lemma_weight_names_card(cards, x, y);
        let rest_a = a.remove(0);
        let rest_b = b.remove(0);
        assert(rest_a.to_multiset() =~= rest_b.to_multiset());
        assert forall|k: int| 0 <= k < rest_a.len() implies (#[trigger] rest_a[k]).is_standard(
        ) by {
            assert(rest_a[k] == a[k + 1]);
        }
        assert forall|k: int, l: int|
            0 <= k < rest_a.len() && 0 <= l < rest_a.len() && k != l implies rest_a[k]
            != rest_a[l] by {
            assert(rest_a[k] == a[k + 1] && rest_a[l] == a[l + 1]);
        }
        assert forall|k: int, l: int| 0 <= k < l < rest_a.len() implies frequency_weight(
            cards,
            rest_a[k],
        ) >= frequency_weight(cards, rest_a[l]) by {
            assert(rest_a[k] == a[k + 1] && rest_a[l] == a[l + 1]);
        }
        assert forall|k: int, l: int| 0 <= k < l < rest_b.len() implies frequency_weight(
            cards,
            rest_b[k],
        ) >= frequency_weight(cards, rest_b[l]) by {
            assert(rest_b[k] == b[k + 1] && rest_b[l] == b[l + 1]);
        }
        lemma_one_frequency_order(cards, rest_a, rest_b);
        assert(a.len() == b.len());
        assert forall|k: int| 0 <= k < a.len() implies a[k] == b[k] by {
            if k > 0 {
                assert(a[k] == rest_a[k - 1] && b[k] == rest_b[k - 1]);
            }
        }
        assert(a =~= b);
    }
}

/// Two runs of equally many cards, neither with a card twice, hold the
/// same cards once each card of the one is found in the other.
pub proof fn lemma_same_cards(a: Seq<Card>, b: Seq<Card>)
    requires
        a.no_duplicates(),
        b.no_duplicates(),
        a.len() == b.len(),
        forall|i: int| 0 <= i < a.len() ==> b.contains(#[trigger] a[i]),
    ensures
        a.to_multiset() == b.to_multiset(),
    decreases a.len(),
{
    broadcast use group_multiset_axioms;

    a.to_multiset_ensures();
    b.to_multiset_ensures();
    if a.len() == 0 {
        assert(a =~= b);
    } else {
        let last = a.last();
        assert(b.contains(a[a.len() - 1]));
        let k = choose|k: int| 0 <= k < b.len() && b[k] == last;
        let front = a.drop_last();
        let rest = b.remove(k);
        assert forall|i: int| 0 <= i < front.len() implies rest.contains(#[trigger] front[i]) by {
            assert(b.contains(a[i]));
            let l = choose|l: int| 0 <= l < b.len() && b[l] == a[i];
            assert(l != k);
            if l < k {
                assert(rest[l] == front[i]);
            } else {
                assert(rest[l - 1] == front[i]);
            }
        }
        assert forall|i: int, j: int|
            0 <= i < rest.len() && 0 <= j < rest.len() && i != j implies rest[i] != rest[j] by {
            let at = |n: int| if n < k { n } else { n + 1 };
            assert(rest[i] == b[at(i)] && rest[j] == b[at(j)]);
        }
        lemma_same_cards(front, rest);
        assert(front =~= a.remove(a.len() - 1));
        assert(a.to_multiset() =~= front.to_multiset().insert(last));
        assert(b.to_multiset() =~= rest.to_multiset().insert(last));
    }
}

/// The sort by frequency of cards of one deck gives the one order that
/// holds these cards from the heaviest card down: a run of as many cards,
/// none twice, each from `cards`, in that order, is the order that the
/// sort gives.
pub proof fn lemma_frequency_order_is(cards: Seq<Card>, sorted: Seq<Card>)
    requires
        part_of_deck(cards.to_multiset()),
        frequency_sorted(cards),
        sorted.len() == cards.len(),
        sorted.no_duplicates(),
        forall|i: int| 0 <= i < sorted.len() ==> cards.contains(#[trigger] sorted[i]),
        in_frequency_order(cards, sorted),
    ensures
        frequency_order(cards) == sorted,
        is_frequency_sort(cards, sorted),
{
    lemma_part_of_deck(cards);
    lemma_same_cards(sorted, cards);
    assert(at_most_four_of_a_rank(cards));
    assert(part_of_deck(sorted.to_multiset()));
    lemma_part_of_deck(sorted);
    lemma_one_frequency_order(cards, sorted, frequency_order(cards));
}

} // verus!
