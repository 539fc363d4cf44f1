use vstd::prelude::*;
use vstd::multiset::{group_multiset_axioms, lemma_multiset_empty_len};
use vstd::seq_lib::lemma_multiset_commutative;
use crate::card::{
    all_standard, lemma_rank_count_holds, lemma_rank_count_remove,
    lemma_rank_count_concat, lemma_rank_count_same_cards, rank_count, Card,
};

verus! {

/// Two cards of `cards` share a rank.
pub open spec fn has_pair(cards: Seq<Card>) -> bool {
    exists|i: int, j: int| 0 <= i < j < cards.len() && same_rank(cards, i, j)
}

/// The cards at `i` and `j` have the same rank.
pub open spec fn same_rank(cards: Seq<Card>, i: int, j: int) -> bool {
    cards[i].rank == cards[j].rank
}

/// The cards at `i` and `j` are the first pair of `cards`: scanning from the
/// top, `j` is the first card that repeats the rank of an earlier card, and
/// `i` is the first card of that rank.
pub open spec fn is_first_pair(cards: Seq<Card>, i: int, j: int) -> bool {
    &&& 0 <= i < j < cards.len()
    &&& same_rank(cards, i, j)
    &&& forall|k: int| 0 <= k < i ==> !same_rank(cards, k, j)
    &&& forall|a: int, b: int| 0 <= a < b < j ==> !same_rank(cards, a, b)
}

/// The positions of the first pair of `cards`, where there is one.
pub open spec fn first_pair(cards: Seq<Card>) -> (int, int) {
    choose|p: (int, int)| is_first_pair(cards, p.0, p.1)
}

/// `cards` without the cards at `i` and `j`, for `i < j`.
pub open spec fn without_pair(cards: Seq<Card>, i: int, j: int) -> Seq<Card> {
    cards.remove(j).remove(i)
}

/// What is left of `cards` once the first pair has been taken out again and
/// again, until no two cards share a rank.
pub open spec fn unmatched(cards: Seq<Card>) -> Seq<Card>
    decreases cards.len(),
{
    let (i, j) = first_pair(cards);
    if is_first_pair(cards, i, j) {
        unmatched(without_pair(cards, i, j))
    } else {
        cards
    }
}

/// The pairs taken out of `cards` on the way to `unmatched(cards)`, in the
/// order in which they are found, each pair with its upper card first.
pub open spec fn matched(cards: Seq<Card>) -> Seq<Card>
    decreases cards.len(),
{
    let (i, j) = first_pair(cards);
    if is_first_pair(cards, i, j) {
        seq![cards[i], cards[j]] + matched(without_pair(cards, i, j))
    } else {
        Seq::empty()
    }
}

/// A sequence has at most one first pair.
pub proof fn lemma_first_pair_unique(cards: Seq<Card>, i: int, j: int)
    requires
        is_first_pair(cards, i, j),
    ensures
        first_pair(cards) == (i, j),
{
    let p = first_pair(cards);
    assert(is_first_pair(cards, (i, j).0, (i, j).1));
    assert(is_first_pair(cards, p.0, p.1));
    if p.1 < j {
        assert(same_rank(cards, p.0, p.1));
    } else if j < p.1 {
        assert(same_rank(cards, i, j));
    }
    assert(p.1 == j);
    if p.0 < i {
        assert(same_rank(cards, p.0, j));
    } else if i < p.0 {
        assert(same_rank(cards, i, p.1));
    }
}

/// The first pair of same-rank cards in `cards`, scanning from the top: the
/// first card that repeats an earlier rank comes second in the result, the
/// first card of that rank comes first. `None` where all ranks differ.
pub fn find_pair(cards: &Vec<Card>) -> (found: Option<(Card, Card)>)
    ensures
        found is Some <==> has_pair(cards@),
        found matches Some(pair) ==> {
            let (i, j) = first_pair(cards@);
            &&& is_first_pair(cards@, i, j)
            &&& pair.0 == cards@[i]
            &&& pair.1 == cards@[j]
        },
{
    let mut j: usize = 0;
    while j < cards.len()
        invariant
            j <= cards.len(),
            forall|a: int, b: int| 0 <= a < b < j ==> !same_rank(cards@, a, b),
        decreases cards.len() - j,
    {
        let mut i: usize = 0;
        while i < j
            invariant
                i <= j < cards.len(),
                forall|k: int| 0 <= k < i ==> !same_rank(cards@, k, j as int),
                forall|a: int, b: int| 0 <= a < b < j ==> !same_rank(cards@, a, b),
            decreases j - i,
        {
            if cards[i].rank == cards[j].rank {
                proof {
                    assert(same_rank(cards@, i as int, j as int));
                    lemma_first_pair_unique(cards@, i as int, j as int);
                }
                return Some((cards[i], cards[j]));
            }
            i += 1;
        }
        j += 1;
    }
    None
}

/// Taking the first pair out of `cards` card by card, each time the first
/// card equal to it, removes exactly the two cards of the pair.
pub proof fn lemma_take_first_pair(cards: Seq<Card>, i: int, j: int)
    requires
        is_first_pair(cards, i, j),
    ensures
        cards.remove_value(cards[i]) == cards.remove(i),
        cards.remove(i).remove_value(cards[j]) == without_pair(cards, i, j),
        unmatched(cards) == unmatched(without_pair(cards, i, j)),
        matched(cards) == seq![cards[i], cards[j]] + matched(without_pair(cards, i, j)),
        without_pair(cards, i, j).len() == cards.len() - 2,
        all_standard(cards) ==> all_standard(without_pair(cards, i, j)),
{
    lemma_first_pair_unique(cards, i, j);
    cards.index_of_first_ensures(cards[i]);
    let first = cards.index_of_first(cards[i]);
    assert(cards.contains(cards[i]));
    assert(first is Some);
    let at = first->0;
    if at < i {
        assert(same_rank(cards, at, j));
    }
    assert(at == i);
    let rest = cards.remove(i);
    assert(rest[j - 1] == cards[j]);
    rest.index_of_first_ensures(cards[j]);
    assert(rest.contains(cards[j]));
    let second = rest.index_of_first(cards[j]);
    assert(second is Some);
    let then = second->0;
    if then < j - 1 {
        if then < i {
            assert(rest[then] == cards[then]);
            assert(same_rank(cards, then, j));
        } else {
            assert(rest[then] == cards[then + 1]);
            assert(same_rank(cards, i, then + 1));
        }
    }
    assert(then == j - 1);
    assert(rest.remove(j - 1) =~= without_pair(cards, i, j));
    let out = without_pair(cards, i, j);
    if all_standard(cards) {
        assert forall|k: int| 0 <= k < out.len() implies (#[trigger] out[k]).is_standard() by {
            if k < i {
                assert(out[k] == cards[k]);
            } else if k < j - 1 {
                assert(out[k] == cards[k + 1]);
            } else {
                assert(out[k] == cards[k + 2]);
            }
        }
    }
}

/// Where no two cards share a rank, nothing is matched.
pub proof fn lemma_nothing_to_match(cards: Seq<Card>)
    requires
        !has_pair(cards),
    ensures
        unmatched(cards) == cards,
        matched(cards) == Seq::<Card>::empty(),
{
    let (i, j) = first_pair(cards);
    if is_first_pair(cards, i, j) {
        assert(same_rank(cards, i, j));
    }
}

/// Matching moves cards and loses none: the cards left over and the pairs
/// taken out are the cards there were, and the pairs come in twos.
pub proof fn lemma_matching_keeps_cards(cards: Seq<Card>)
    ensures
        unmatched(cards).to_multiset().add(matched(cards).to_multiset()) == cards.to_multiset(),
        unmatched(cards).len() + matched(cards).len() == cards.len(),
        matched(cards).len() % 2 == 0,
    decreases cards.len(),
{
    broadcast use group_multiset_axioms;

    let (i, j) = first_pair(cards);
    if is_first_pair(cards, i, j) {
        let rest = without_pair(cards, i, j);
        let pair = seq![cards[i], cards[j]];
        lemma_matching_keeps_cards(rest);
        cards.to_multiset_ensures();
        cards.remove(j).to_multiset_ensures();
        assert(cards.remove(j)[i] == cards[i]);
        assert(rest.to_multiset() =~= cards.to_multiset().remove(cards[j]).remove(cards[i]));
        assert(cards.to_multiset().count(cards[j]) > 0) by {
            assert(cards.contains(cards[j]));
        }
        assert(cards.remove(j).to_multiset().count(cards[i]) > 0) by {
            assert(cards.remove(j).contains(cards[i]));
        }
        lemma_multiset_commutative(pair, matched(rest));
        assert(pair =~= Seq::<Card>::empty().push(cards[i]).push(cards[j]));
        Seq::<Card>::empty().to_multiset_ensures();
        Seq::<Card>::empty().push(cards[i]).to_multiset_ensures();
        assert(pair.to_multiset() =~= Seq::<Card>::empty().to_multiset().insert(cards[i]).insert(
            cards[j],
        ));
        assert(unmatched(cards) == unmatched(rest));
        assert(matched(cards) == pair + matched(rest));
        assert(cards.to_multiset() =~= rest.to_multiset().insert(cards[i]).insert(cards[j]));
        assert(matched(cards).to_multiset() =~= matched(rest).to_multiset().insert(
            cards[i],
        ).insert(cards[j]));
        assert(unmatched(cards).to_multiset().add(matched(cards).to_multiset())
            =~= cards.to_multiset());
    } else {
        assert(unmatched(cards) == cards);
        assert(matched(cards) == Seq::<Card>::empty());
        Seq::<Card>::empty().to_multiset_ensures();
        lemma_multiset_empty_len(Seq::<Card>::empty().to_multiset());
        assert(unmatched(cards).to_multiset().add(matched(cards).to_multiset())
            =~= cards.to_multiset());
    }
}

/// Two cards of one rank make the count of that rank two or more.
pub proof fn lemma_pair_counts(cards: Seq<Card>, i: int, j: int)
    requires
        0 <= i < j < cards.len(),
        same_rank(cards, i, j),
    ensures
        rank_count(cards, cards[i].rank) >= 2,
        rank_count(cards, cards[i].rank) == rank_count(without_pair(cards, i, j), cards[i].rank)
            + 2,
        forall|rank: char|
            rank != cards[i].rank ==> rank_count(cards, rank) == rank_count(
                without_pair(cards, i, j),
                rank,
            ),
{
    assert(cards.remove(j)[i] == cards[i]);
    lemma_rank_count_remove(cards, j, cards[i].rank);
    lemma_rank_count_remove(cards.remove(j), i, cards[i].rank);
    assert forall|rank: char| rank != cards[i].rank implies rank_count(cards, rank)
        == rank_count(without_pair(cards, i, j), rank) by {
        lemma_rank_count_remove(cards, j, rank);
        lemma_rank_count_remove(cards.remove(j), i, rank);
    }
}

/// A rank that counts two or more is held by two cards.
pub proof fn lemma_count_pairs(cards: Seq<Card>, rank: char)
    requires
        rank_count(cards, rank) >= 2,
    ensures
        has_pair(cards),
    decreases cards.len(),
{
    if cards.len() > 0 {
        let front = cards.drop_last();
        let j = cards.len() - 1;
        if rank_count(front, rank) >= 2 {
            lemma_count_pairs(front, rank);
            let (a, b) = choose|a: int, b: int| 0 <= a < b < front.len() && same_rank(front, a, b);
            assert(same_rank(cards, a, b));
        } else {
            lemma_rank_count_holds(front, rank);
            let i = choose|i: int| 0 <= i < front.len() && (#[trigger] front[i]).rank == rank;
            assert(same_rank(cards, i, j));
        }
    }
}

/// The first card of the rank of the card at `j`, at or above `i`.
proof fn lemma_first_of_pair(cards: Seq<Card>, i: int, j: int) -> (first: int)
    requires
        0 <= i < j < cards.len(),
        same_rank(cards, i, j),
    ensures
        0 <= first <= i,
        same_rank(cards, first, j),
        forall|k: int| 0 <= k < first ==> !same_rank(cards, k, j),
    decreases i,
{
    if exists|k: int| 0 <= k < i && same_rank(cards, k, j) {
        let k = choose|k: int| 0 <= k < i && same_rank(cards, k, j);
        lemma_first_of_pair(cards, k, j)
    } else {
        i
    }
}

/// Where no pair ends above `j`, the first pair is found from `j` on.
proof fn lemma_first_pair_from(cards: Seq<Card>, j: int)
    requires
        0 <= j <= cards.len(),
        has_pair(cards),
        forall|a: int, b: int| 0 <= a < b < j ==> !same_rank(cards, a, b),
    ensures
        is_first_pair(cards, first_pair(cards).0, first_pair(cards).1),
    decreases cards.len() - j,
{
    if j == cards.len() {
        let (a, b) = choose|a: int, b: int| 0 <= a < b < cards.len() && same_rank(cards, a, b);
        assert(same_rank(cards, a, b));
        assert(false);
    } else if exists|i: int| 0 <= i < j && same_rank(cards, i, j) {
        let i = choose|i: int| 0 <= i < j && same_rank(cards, i, j);
        let first = lemma_first_of_pair(cards, i, j);
        assert(is_first_pair(cards, first, j));
        lemma_first_pair_unique(cards, first, j);
    } else {
        assert forall|a: int, b: int| 0 <= a < b < j + 1 implies !same_rank(cards, a, b) by {
            if b == j {
            }
        }
        lemma_first_pair_from(cards, j + 1);
    }
}

/// Cards with a pair have a first pair.
pub proof fn lemma_first_pair_exists(cards: Seq<Card>)
    requires
        has_pair(cards),
    ensures
        is_first_pair(cards, first_pair(cards).0, first_pair(cards).1),
{
    lemma_first_pair_from(cards, 0);
}

/// After matching, no two cards share a rank: of each rank there is one
/// card left where the number of its cards was odd, and none where it was
/// even.
pub proof fn lemma_unmatched_ranks(cards: Seq<Card>, rank: char)
    ensures
        !has_pair(unmatched(cards)),
        rank_count(unmatched(cards), rank) == rank_count(cards, rank) % 2,
    decreases cards.len(),
{
    let (i, j) = first_pair(cards);
    if is_first_pair(cards, i, j) {
        lemma_unmatched_ranks(without_pair(cards, i, j), rank);
        lemma_pair_counts(cards, i, j);
    } else {
        if has_pair(cards) {
            lemma_first_pair_exists(cards);
        }
        if rank_count(cards, rank) >= 2 {
            lemma_count_pairs(cards, rank);
        }
    }
}

/// Matching a hand in which no two cards share a rank, in whatever order
/// the hand is put first: no pair is found and every card stays.
pub proof fn lemma_match_without_pairs(hand: Seq<Card>, sorted: Seq<Card>)
    requires
        sorted.to_multiset() == hand.to_multiset(),
        !has_pair(hand),
    ensures
        matched(sorted) == Seq::<Card>::empty(),
        unmatched(sorted) == sorted,
        unmatched(sorted).to_multiset() == hand.to_multiset(),
{
    if has_pair(sorted) {
        let (a, b) = choose|a: int, b: int| 0 <= a < b < sorted.len() && same_rank(sorted, a, b);
        lemma_pair_counts(sorted, a, b);
        lemma_rank_count_same_cards(sorted, hand, sorted[a].rank);
        lemma_count_pairs(hand, sorted[a].rank);
    }
    lemma_nothing_to_match(sorted);
}

/// Matching a hand in which two cards share a rank, in whatever order the
/// hand is put first, finds a pair.
pub proof fn lemma_match_with_pair(hand: Seq<Card>, sorted: Seq<Card>)
    requires
        sorted.to_multiset() == hand.to_multiset(),
        has_pair(hand),
    ensures
        matched(sorted).len() >= 2,
{
    let (a, b) = choose|a: int, b: int| 0 <= a < b < hand.len() && same_rank(hand, a, b);
    lemma_pair_counts(hand, a, b);
    lemma_rank_count_same_cards(sorted, hand, hand[a].rank);
    lemma_count_pairs(sorted, hand[a].rank);
    lemma_first_pair_exists(sorted);
}

/// Matching a hand of `k` cards of one rank, in whatever order the hand is
/// put first: for even `k` all cards leave the hand, for odd `k` one card is
/// left; either way the cards that leave make `k / 2` pairs.
pub proof fn lemma_match_one_rank(hand: Seq<Card>, sorted: Seq<Card>, rank: char)
    requires
        sorted.to_multiset() == hand.to_multiset(),
        forall|i: int| 0 <= i < hand.len() ==> (#[trigger] hand[i]).rank == rank,
    ensures
        unmatched(sorted).len() == hand.len() % 2,
        matched(sorted).len() == hand.len() - hand.len() % 2,
        matched(sorted).len() / 2 == hand.len() / 2,
{
    lemma_one_rank_count(hand, rank);
    lemma_rank_count_same_cards(sorted, hand, rank);
    lemma_unmatched_ranks(sorted, rank);
    lemma_matching_keeps_cards(sorted);
    hand.to_multiset_ensures();
    sorted.to_multiset_ensures();
    let rest = unmatched(sorted);
    rest.to_multiset_ensures();
    assert forall|i: int| 0 <= i < rest.len() implies (#[trigger] rest[i]).rank == rank by {
        broadcast use group_multiset_axioms;

        assert(rest.contains(rest[i]));
        assert(rest.to_multiset().count(rest[i]) > 0);
        assert(hand.to_multiset().count(rest[i]) > 0);
        assert(hand.contains(rest[i]));
    }
    lemma_one_rank_count(rest, rank);
}

/// A card that is matched has a rank that two or more of the cards have.
pub proof fn lemma_matched_ranks(cards: Seq<Card>, k: int)
    requires
        0 <= k < matched(cards).len(),
    ensures
        rank_count(cards, matched(cards)[k].rank) >= 2,
    decreases cards.len(),
{
    let (i, j) = first_pair(cards);
    if is_first_pair(cards, i, j) {
        let rest = without_pair(cards, i, j);
        lemma_pair_counts(cards, i, j);
        if k >= 2 {
            assert(matched(cards)[k] == matched(rest)[k - 2]);
            lemma_matched_ranks(rest, k - 2);
        }
    }
}

/// Matching a hand in which only the rank `rank` may occur more than once,
/// in whatever order the hand is put first. With `k` cards of that rank,
/// `k / 2` pairs are found, all of that rank: for even `k` no card of the
/// rank is left, for odd `k` one. Every card of another rank stays.
pub proof fn lemma_match_one_repeated_rank(hand: Seq<Card>, sorted: Seq<Card>, rank: char)
    requires
        sorted.to_multiset() == hand.to_multiset(),
        forall|other: char| other != rank ==> #[trigger] rank_count(hand, other) <= 1,
    ensures
        matched(sorted).len() == rank_count(hand, rank) - rank_count(hand, rank) % 2,
        matched(sorted).len() / 2 == rank_count(hand, rank) / 2,
        unmatched(sorted).len() == hand.len() - matched(sorted).len(),
        rank_count(unmatched(sorted), rank) == rank_count(hand, rank) % 2,
        forall|k: int|
            0 <= k < matched(sorted).len() ==> (#[trigger] matched(sorted)[k]).rank == rank,
        forall|card: Card|
            card.rank != rank ==> #[trigger] unmatched(sorted).to_multiset().count(card)
                == hand.to_multiset().count(card),
{
    broadcast use group_multiset_axioms;

    let rest = unmatched(sorted);
    let out = matched(sorted);
    lemma_matching_keeps_cards(sorted);
    lemma_unmatched_ranks(sorted, rank);
    lemma_rank_count_same_cards(sorted, hand, rank);
    hand.to_multiset_ensures();
    sorted.to_multiset_ensures();
    assert forall|k: int| 0 <= k < out.len() implies (#[trigger] out[k]).rank == rank by {
        lemma_matched_ranks(sorted, k);
        lemma_rank_count_same_cards(sorted, hand, out[k].rank);
    }
    lemma_one_rank_count(out, rank);
    lemma_multiset_commutative(rest, out);
    lemma_rank_count_same_cards(rest + out, sorted, rank);
    lemma_rank_count_concat(rest, out, rank);
    out.to_multiset_ensures();
    assert forall|card: Card| card.rank != rank implies #[trigger] rest.to_multiset().count(card)
        == hand.to_multiset().count(card) by {
        if out.to_multiset().count(card) > 0 {
            assert(out.contains(card));
            let k = choose|k: int| 0 <= k < out.len() && out[k] == card;
            assert(out[k].rank == rank);
        }
    }
}

/// Cards of one rank count for that rank, each of them.
pub proof fn lemma_one_rank_count(cards: Seq<Card>, rank: char)
    requires
        forall|i: int| 0 <= i < cards.len() ==> (#[trigger] cards[i]).rank == rank,
    ensures
        rank_count(cards, rank) == cards.len(),
    decreases cards.len(),
{
    if cards.len() > 0 {
        assert(cards.last() == cards[cards.len() - 1]);
        let front = cards.drop_last();
        assert forall|i: int| 0 <= i < front.len() implies (#[trigger] front[i]).rank == rank by {
            assert(front[i] == cards[i]);
        }
        lemma_one_rank_count(front, rank);
    }
}

} // verus!
