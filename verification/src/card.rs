use vstd::prelude::*;

verus! {

/// A playing card, named as in the corner of the card: a rank symbol
/// (`A K Q J T 9 8 7 6 5 4 3 2`) and a suit symbol (`S H D C`).
#[derive(Clone, Copy, Debug, PartialEq, Eq, Hash, Structural)]
pub struct Card {
    pub rank: char,
    pub suit: char,
}

/// The thirteen rank symbols of the standard deck, highest first.
pub open spec fn rank_symbols() -> Seq<char> {
    seq!['A', 'K', 'Q', 'J', 'T', '9', '8', '7', '6', '5', '4', '3', '2']
}

/// The four suit symbols of the standard deck, highest first.
pub open spec fn suit_symbols() -> Seq<char> {
    seq!['S', 'H', 'D', 'C']
}

/// `c` is the symbol of a rank.
pub open spec fn is_rank_symbol(c: char) -> bool {
    rank_symbols().contains(c)
}

/// `c` is the symbol of a suit.
pub open spec fn is_suit_symbol(c: char) -> bool {
    suit_symbols().contains(c)
}

/// The place of a rank symbol among `rank_symbols`.
pub open spec fn rank_place(c: char) -> int {
    if c == 'A' {
        0
    } else if c == 'K' {
        1
    } else if c == 'Q' {
        2
    } else if c == 'J' {
        3
    } else if c == 'T' {
        4
    } else if c == '9' {
        5
    } else if c == '8' {
        6
    } else if c == '7' {
        7
    } else if c == '6' {
        8
    } else if c == '5' {
        9
    } else if c == '4' {
        10
    } else if c == '3' {
        11
    } else {
        12
    }
}

/// The place of a suit symbol among `suit_symbols`.
pub open spec fn suit_place(c: char) -> int {
    if c == 'S' {
        0
    } else if c == 'H' {
        1
    } else if c == 'D' {
        2
    } else {
        3
    }
}

/// Each rank symbol has its own place, and so has each suit symbol.
pub proof fn lemma_symbol_places()
    ensures
        rank_symbols().len() == 13,
        suit_symbols().len() == 4,
        forall|k: int| 0 <= k < 13 ==> rank_place(#[trigger] rank_symbols()[k]) == k,
        forall|k: int| 0 <= k < 4 ==> suit_place(#[trigger] suit_symbols()[k]) == k,
        forall|c: char|
            is_rank_symbol(c) ==> 0 <= rank_place(c) < 13 && rank_symbols()[rank_place(c)] == c,
        forall|c: char|
            is_suit_symbol(c) ==> 0 <= suit_place(c) < 4 && suit_symbols()[suit_place(c)] == c,
{
    let r = rank_symbols();
    assert(r[0] == 'A' && r[1] == 'K' && r[2] == 'Q' && r[3] == 'J' && r[4] == 'T');
    assert(r[5] == '9' && r[6] == '8' && r[7] == '7' && r[8] == '6');
    assert(r[9] == '5' && r[10] == '4' && r[11] == '3' && r[12] == '2');
    let s = suit_symbols();
    assert(s[0] == 'S' && s[1] == 'H' && s[2] == 'D' && s[3] == 'C');
    assert forall|k: int| 0 <= k < 13 implies rank_place(#[trigger] r[k]) == k by {
        if k == 0 {
        } else if k == 1 {
        } else if k == 2 {
        } else if k == 3 {
        } else if k == 4 {
        } else if k == 5 {
        } else if k == 6 {
        } else if k == 7 {
        } else if k == 8 {
        } else if k == 9 {
        } else if k == 10 {
        } else if k == 11 {
        } else {
        }
    }
    assert forall|k: int| 0 <= k < 4 implies suit_place(#[trigger] s[k]) == k by {
        if k == 0 {
        } else if k == 1 {
        } else if k == 2 {
        } else {
        }
    }
}

impl Card {
    /// A card of the standard 52-card deck.
    pub open spec fn is_standard(self) -> bool {
        is_rank_symbol(self.rank) && is_suit_symbol(self.suit)
    }
}

/// Every card of `cards` belongs to the standard deck.
pub open spec fn all_standard(cards: Seq<Card>) -> bool {
    forall|i: int| 0 <= i < cards.len() ==> (#[trigger] cards[i]).is_standard()
}

/// The standard deck in the order in which it comes out of the box:
/// spades, hearts, diamonds, clubs, each from the ace down to the two.
pub open spec fn standard_deck() -> Seq<Card> {
    Seq::new(52, |i: int| standard_card(i))
}

/// The card at place `i` of the standard deck.
pub open spec fn standard_card(i: int) -> Card {
    Card { rank: rank_symbols()[i % 13], suit: suit_symbols()[i / 13] }
}

/// A card of the rank `rank` counts one, any other card nothing.
pub open spec fn counts_for(card: Card, rank: char) -> nat {
    if card.rank == rank {
        1
    } else {
        0
    }
}

/// How many cards of `cards` have the rank `rank`.
pub open spec fn rank_count(cards: Seq<Card>, rank: char) -> nat
    decreases cards.len(),
{
    if cards.len() == 0 {
        0
    } else {
        rank_count(cards.drop_last(), rank) + counts_for(cards.last(), rank)
    }
}

/// The strength of a rank: 12 for the ace down to 0 for the two.
pub open spec fn rank_strength(rank: char) -> int {
    12 - rank_place(rank)
}

/// The strength of a suit: 4 for spades, 3 for hearts, 2 for diamonds, 1
/// for clubs.
pub open spec fn suit_strength(suit: char) -> int {
    4 - suit_place(suit)
}

/// Whether some card of `cards` has the rank `rank`.
pub open spec fn holds_rank(cards: Seq<Card>, rank: char) -> bool {
    exists|i: int| 0 <= i < cards.len() && (#[trigger] cards[i]).rank == rank
}

/// Two sequences with the same cards hold standard cards together.
pub proof fn lemma_same_cards_all_standard(a: Seq<Card>, b: Seq<Card>)
    requires
        a.to_multiset() == b.to_multiset(),
        all_standard(a),
    ensures
        all_standard(b),
{
    assert forall|i: int| 0 <= i < b.len() implies (#[trigger] b[i]).is_standard() by {
        a.to_multiset_ensures();
        b.to_multiset_ensures();
        assert(b.contains(b[i]));
        assert(b.to_multiset().count(b[i]) > 0);
        assert(a.contains(b[i]));
    }
}

/// Taking a card out lowers the count of its rank by one.
pub proof fn lemma_rank_count_remove(cards: Seq<Card>, k: int, rank: char)
    requires
        0 <= k < cards.len(),
    ensures
        rank_count(cards, rank) == rank_count(cards.remove(k), rank) + counts_for(cards[k], rank),
    decreases cards.len(),
{
    if k == cards.len() - 1 {
        assert(cards.remove(k) =~= cards.drop_last());
    } else {
        lemma_rank_count_remove(cards.drop_last(), k, rank);
        assert(cards.remove(k).drop_last() =~= cards.drop_last().remove(k));
        assert(cards.remove(k).last() == cards.last());
    }
}

/// The count of a rank depends on the cards, not on their order.
pub proof fn lemma_rank_count_same_cards(a: Seq<Card>, b: Seq<Card>, rank: char)
    requires
        a.to_multiset() == b.to_multiset(),
    ensures
        rank_count(a, rank) == rank_count(b, rank),
    decreases a.len(),
{
    a.to_multiset_ensures();
    b.to_multiset_ensures();
    if a.len() > 0 {
        let last = a.last();
        assert(a.contains(last));
        assert(b.to_multiset().count(last) > 0);
        assert(b.contains(last));
        let k = choose|k: int| 0 <= k < b.len() && b[k] == last;
        assert(a.drop_last() =~= a.remove(a.len() - 1));
        assert(a.drop_last().to_multiset() =~= b.remove(k).to_multiset());
        lemma_rank_count_same_cards(a.drop_last(), b.remove(k), rank);
        lemma_rank_count_remove(b, k, rank);
    }
}

/// A rank is held where its count is not zero.
pub proof fn lemma_rank_count_holds(cards: Seq<Card>, rank: char)
    ensures
        rank_count(cards, rank) > 0 <==> holds_rank(cards, rank),
        rank_count(cards, rank) <= cards.len(),
    decreases cards.len(),
{
    if cards.len() > 0 {
        let front = cards.drop_last();
        lemma_rank_count_holds(front, rank);
        if holds_rank(front, rank) {
            let i = choose|i: int| 0 <= i < front.len() && (#[trigger] front[i]).rank == rank;
            assert(cards[i].rank == rank);
        }
        if cards.last().rank == rank {
            assert(cards[cards.len() - 1].rank == rank);
        }
        if holds_rank(cards, rank) && cards.last().rank != rank {
            let i = choose|i: int| 0 <= i < cards.len() && (#[trigger] cards[i]).rank == rank;
            assert(front[i].rank == rank);
        }
    }
}

/// The count of a rank in two runs of cards is the sum of its counts.
pub proof fn lemma_rank_count_concat(a: Seq<Card>, b: Seq<Card>, rank: char)
    ensures
        rank_count(a + b, rank) == rank_count(a, rank) + rank_count(b, rank),
    decreases b.len(),
{
    if b.len() == 0 {
        assert(a + b =~= a);
    } else {
        lemma_rank_count_concat(a, b.drop_last(), rank);
        assert((a + b).drop_last() =~= a + b.drop_last());
        assert((a + b).last() == b.last());
    }
}

} // verus!
