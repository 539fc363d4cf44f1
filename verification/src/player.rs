use vstd::prelude::*;
use cardpack::Pile;
use crate::card::{all_standard, holds_rank, lemma_same_cards_all_standard, Card};
use crate::pairs::{
    find_pair, first_pair, has_pair, lemma_match_without_pairs, lemma_nothing_to_match,
    lemma_take_first_pair, matched, unmatched,
};
use crate::pile::{
    frequency_order, frequency_sorted, pile_append, pile_cards, pile_contents, pile_len,
    pile_new, pile_push, pile_ranks, pile_remove_card, pile_sort_by_frequency, sortable,
};
use crate::table::laid_down;

verus! {

/// What a player holds, as plain values.
pub struct PlayerView {
    /// The hand, in its order.
    pub hand: Seq<Card>,
    /// The matched pairs, in the order in which they were laid down.
    pub pairs: Seq<Card>,
    /// One point for each matched pair.
    pub score: nat,
}

/// A player: a hand, the pile of matched pairs, and the score.
pub struct Player {
    hand: Pile,
    pairs: Pile,
    score: u32,
}

impl View for Player {
    type V = PlayerView;

    closed spec fn view(&self) -> PlayerView {
        PlayerView {
            hand: pile_cards(self.hand),
            pairs: pile_cards(self.pairs),
            score: self.score as nat,
        }
    }
}

/// The card at `i` is the first card of `cards` with the rank `rank`.
pub open spec fn is_first_of_rank(cards: Seq<Card>, rank: char, i: int) -> bool {
    &&& 0 <= i < cards.len()
    &&& cards[i].rank == rank
    &&& forall|k: int| 0 <= k < i ==> (#[trigger] cards[k]).rank != rank
}

/// The position of the first card of `cards` with the rank `rank`, where
/// there is one.
pub open spec fn first_of_rank(cards: Seq<Card>, rank: char) -> int {
    choose|i: int| is_first_of_rank(cards, rank, i)
}

impl PlayerView {
    /// The hand holds standard cards only, and the pile of pairs holds two
    /// cards for each point of the score.
    pub open spec fn wf(self) -> bool {
        &&& all_standard(self.hand)
        &&& self.pairs.len() == 2 * self.score
    }
}

impl Player {
    /// A player with no cards and no points.
    pub fn new() -> (player: Player)
        ensures
            player@.hand == Seq::<Card>::empty(),
            player@.pairs == Seq::<Card>::empty(),
            player@.score == 0,
            player@.wf(),
    {
        Player { hand: pile_new(), pairs: pile_new(), score: 0 }
    }

    /// The cards in the hand, in their order.
    pub fn hand_cards(&self) -> (cards: Vec<Card>)
        ensures
            cards@ == self@.hand,
    {
        pile_contents(&self.hand)
    }

    /// The number of cards in the hand.
    pub fn hand_len(&self) -> (n: usize)
        ensures
            n == self@.hand.len(),
    {
        pile_len(&self.hand)
    }

    /// The matched pairs, in the order in which they were laid down.
    pub fn pair_cards(&self) -> (cards: Vec<Card>)
        ensures
            cards@ == self@.pairs,
    {
        pile_contents(&self.pairs)
    }

    /// The number of matched pairs.
    pub fn score(&self) -> (score: u32)
        ensures
            score == self@.score,
    {
        self.score
    }

    /// Puts `card` at the end of the hand.
    pub fn add_card(&mut self, card: Card)
        requires
            card.is_standard(),
        ensures
            final(self)@.hand == old(self)@.hand.push(card),
            final(self)@.pairs == old(self)@.pairs,
            final(self)@.score == old(self)@.score,
    {
        pile_push(&mut self.hand, card);
    }

    /// Takes the first card equal to `card` out of the hand; a hand without
    /// such a card stays as it is.
    pub fn remove_card(&mut self, card: Card)
        requires
            card.is_standard(),
            all_standard(old(self)@.hand),
        ensures
            final(self)@.hand == old(self)@.hand.remove_value(card),
            final(self)@.pairs == old(self)@.pairs,
            final(self)@.score == old(self)@.score,
    {
        pile_remove_card(&mut self.hand, card);
    }

    /// Puts the cards of `pile` at the end of the hand, in their order.
    pub(crate) fn add_pile(&mut self, pile: &Pile)
        ensures
            final(self)@.hand == old(self)@.hand + pile_cards(*pile),
            final(self)@.pairs == old(self)@.pairs,
            final(self)@.score == old(self)@.score,
    {
        pile_append(&mut self.hand, pile);
    }

    /// Puts `cards` at the end of the hand, in their order.
    pub fn add_cards(&mut self, cards: Vec<Card>)
        requires
            all_standard(cards@),
        ensures
            final(self)@.hand == old(self)@.hand + cards@,
            final(self)@.pairs == old(self)@.pairs,
            final(self)@.score == old(self)@.score,
    {
        let mut pile = pile_new();
        let mut i: usize = 0;
        while i < cards.len()
            invariant
                i <= cards.len(),
                all_standard(cards@),
                pile_cards(pile) == cards@.subrange(0, i as int),
            decreases cards.len() - i,
        {
            pile_push(&mut pile, cards[i]);
            i += 1;
        }
        assert(cards@.subrange(0, i as int) == cards@);
        self.add_pile(&pile);
    }

    /// The first card of the hand with the rank `rank`, if the hand holds
    /// that rank. The hand stays as it is.
    #[verifier::loop_isolation(false)]
    pub fn answer_for_card_rank(&self, rank: char) -> (answer: Option<Card>)
        requires
            all_standard(self@.hand),
        ensures
            answer is Some <==> holds_rank(self@.hand, rank),
            answer matches Some(card) ==> {
                let i = first_of_rank(self@.hand, rank);
                is_first_of_rank(self@.hand, rank, i) && card == self@.hand[i]
            },
    {
        let ranks = pile_ranks(&self.hand);
        let mut r: usize = 0;
        while r < ranks.len()
            invariant
                r <= ranks.len(),
                forall|k: int| 0 <= k < r ==> ranks@[k] != rank,
            decreases ranks.len() - r,
        {
            if ranks[r] == rank {
                assert(ranks@.contains(rank));
                let cards = pile_contents(&self.hand);
                let mut i: usize = 0;
                while i < cards.len()
                    invariant
                        i <= cards.len(),
                        cards@ == self@.hand,
                        holds_rank(cards@, rank),
                        forall|k: int| 0 <= k < i ==> (#[trigger] cards@[k]).rank != rank,
                    decreases cards.len() - i,
                {
                    if cards[i].rank == rank {
                        assert(is_first_of_rank(cards@, rank, i as int));
                        return Some(cards[i]);
                    }
                    i += 1;
                }
                assert(false);
            }
            r += 1;
        }
        assert(!ranks@.contains(rank));
        None
    }

    /// Lays down the pairs of the hand as it stands: again and again the
    /// first pair leaves the hand for the pile of pairs and scores a point,
    /// until no two cards of the hand share a rank. Returns the number of
    /// pairs laid down.
    pub fn collect_pairs(&mut self) -> (found: u32)
        requires
            old(self)@.wf(),
            old(self)@.score + old(self)@.hand.len() / 2 <= u32::MAX,
        ensures
            final(self)@.hand == unmatched(old(self)@.hand),
            final(self)@.pairs == old(self)@.pairs + matched(old(self)@.hand),
            final(self)@.score == old(self)@.score + found,
            2 * found == matched(old(self)@.hand).len(),
            !has_pair(final(self)@.hand),
            !has_pair(old(self)@.hand) ==> found == 0 && final(self)@ == old(self)@,
            final(self)@.wf(),
    {
        let ghost start = self@;
        let mut found: u32 = 0;
        loop
            invariant
                self@.wf(),
                start == old(self)@,
                unmatched(self@.hand) == unmatched(start.hand),
                self@.pairs + matched(self@.hand) == start.pairs + matched(start.hand),
                self@.pairs.len() == start.pairs.len() + 2 * found,
                self@.score == start.score + found,
                self@.score + self@.hand.len() / 2 <= u32::MAX,
            decreases self@.hand.len(),
        {
            let cards = pile_contents(&self.hand);
            match find_pair(&cards) {
                None => {
                    proof {
                        lemma_nothing_to_match(self@.hand);
                        assert(self@.pairs + Seq::<Card>::empty() == self@.pairs);
                    }
                    return found;
                },
                Some((upper, lower)) => {
                    let ghost hand = self@.hand;
                    let ghost pairs = self@.pairs;
                    let ghost (i, j) = first_pair(hand);
                    proof {
                        lemma_take_first_pair(hand, i, j);
                    }
                    pile_remove_card(&mut self.hand, upper);
                    pile_remove_card(&mut self.hand, lower);
                    pile_push(&mut self.pairs, upper);
                    pile_push(&mut self.pairs, lower);
                    self.score += 1;
                    found += 1;
                    proof {
                        assert(pairs.push(upper).push(lower) + matched(self@.hand) == pairs
                            + (seq![upper, lower] + matched(self@.hand)));
                    }
                },
            }
        }
    }

    /// Sorts the hand by frequency and lays down its pairs: see
    /// `collect_pairs`. Returns the number of pairs laid down.
    pub fn match_pairs(&mut self) -> (found: u32)
        requires
            old(self)@.wf(),
            sortable(old(self)@.hand),
            old(self)@.score + old(self)@.hand.len() / 2 <= u32::MAX,
        ensures
            final(self)@.hand == unmatched(frequency_order(old(self)@.hand)),
            final(self)@.pairs == old(self)@.pairs + matched(frequency_order(old(self)@.hand)),
            final(self)@.score == old(self)@.score + found,
            2 * found == matched(frequency_order(old(self)@.hand)).len(),
            frequency_sorted(old(self)@.hand),
            final(self)@ == laid_down(old(self)@),
            !has_pair(final(self)@.hand),
            !has_pair(old(self)@.hand) ==> {
                &&& found == 0
                &&& final(self)@.hand.to_multiset() == old(self)@.hand.to_multiset()
                &&& final(self)@.pairs == old(self)@.pairs
                &&& final(self)@.score == old(self)@.score
            },
            final(self)@.wf(),
    {
        let ghost start = self@;
        let sorted = pile_sort_by_frequency(&self.hand);
        proof {
            lemma_same_cards_all_standard(self@.hand, pile_cards(sorted));
            pile_cards(sorted).to_multiset_ensures();
            self@.hand.to_multiset_ensures();
        }
        self.hand = sorted;
        proof {
            if !has_pair(start.hand) {
                lemma_match_without_pairs(start.hand, self@.hand);
                assert(start.pairs + Seq::<Card>::empty() == start.pairs);
            }
        }
        self.collect_pairs()
    }
}

} // verus!
