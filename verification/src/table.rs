use vstd::prelude::*;
use vstd::arithmetic::div_mod::{lemma_mod_self_0, lemma_small_mod};
use vstd::multiset::{group_multiset_axioms, lemma_multiset_empty_len, Multiset};
use vstd::seq_lib::lemma_multiset_commutative;
use crate::card::{holds_rank, standard_deck, Card};
use crate::card::rank_count;
use crate::pairs::{
    has_pair, lemma_match_one_repeated_rank, lemma_match_without_pairs,
    lemma_matching_keeps_cards, matched, same_rank, unmatched,
};
use crate::pile::{frequency_order, frequency_sorted, sortable};
use crate::player::{first_of_rank, is_first_of_rank, PlayerView};
use crate::standard::{lemma_part_of_deck, lemma_standard_deck, lemma_subset_len, part_of_deck};
use crate::winner::{end_condition, lemma_scores_decide, some_hand_empty, Outcome};

verus! {

/// How a player picks the card to ask for and the player to ask.
#[derive(Clone, Copy, Debug, PartialEq, Eq, Hash, Structural)]
pub enum GameMode {
    /// A random card of the hand, a random other player.
    Random,
    /// The first card of the hand, the next player.
    Sequential,
}

/// What one ask of a turn leads to.
#[derive(Clone, Copy, Debug, PartialEq, Eq, Hash, Structural)]
pub enum PlayerTurnResult {
    /// The player went fishing: the next player is on.
    NextPlayerTurn,
    /// The player received a card and asks again.
    PlayAgain,
}

/// The answer to an ask.
#[derive(Clone, Copy, Debug, PartialEq, Eq, Hash, Structural)]
pub enum AskCardResult {
    /// The asked player held the rank and gave this card.
    ReceiveCard(Card),
    /// The asked player did not hold the rank.
    GoFish,
}

/// The game as plain values.
pub struct GameView {
    /// The draw pile, top card first.
    pub deck: Seq<Card>,
    /// The players in their seating order.
    pub players: Seq<PlayerView>,
    /// The number of players the game was set up for.
    pub player_count: nat,
    /// The way cards and players are picked.
    pub mode: GameMode,
}

/// The cards a player owns: the hand and the matched pairs.
pub open spec fn holdings(player: PlayerView) -> Multiset<Card> {
    player.hand.to_multiset().add(player.pairs.to_multiset())
}

/// The cards that the players own together.
pub open spec fn cards_held(players: Seq<PlayerView>) -> Multiset<Card>
    decreases players.len(),
{
    if players.len() == 0 {
        Multiset::empty()
    } else {
        cards_held(players.drop_last()).add(holdings(players.last()))
    }
}

impl GameView {
    /// Every card in the game: the draw pile and what the players own.
    pub open spec fn all_cards(self) -> Multiset<Card> {
        self.deck.to_multiset().add(cards_held(self.players))
    }

    /// The cards of the game are the 52 cards of the standard deck, each
    /// once; every player has laid down two cards for each point.
    pub open spec fn wf(self) -> bool {
        &&& self.player_count == self.players.len()
        &&& self.player_count <= usize::MAX
        &&& self.all_cards() == standard_deck().to_multiset()
        &&& forall|i: int|
            0 <= i < self.players.len() ==> (#[trigger] self.players[i]).pairs.len() == 2
                * self.players[i].score
    }

    /// The size of each hand.
    pub open spec fn hand_sizes(self) -> Seq<usize> {
        Seq::new(self.players.len(), |i: int| self.players[i].hand.len() as usize)
    }

    /// The score of each player.
    pub open spec fn scores(self) -> Seq<u32> {
        Seq::new(self.players.len(), |i: int| self.players[i].score as u32)
    }

    /// How the game stands: see `end_condition`.
    pub open spec fn condition(self) -> Outcome {
        end_condition(self.hand_sizes(), self.scores())
    }

    /// The player after `player` in the seating order.
    pub open spec fn next_player(self, player: int) -> int {
        (player + 1) % (self.player_count as int)
    }
}

/// The game after the card `card` has gone from the hand of `from` to the
/// end of the hand of `to`.
pub open spec fn transfer_outcome(game: GameView, to: int, from: int, card: Card) -> GameView {
    let k = game.players[from].hand.index_of(card);
    let taken = game.players.update(from, without_card(game.players[from], k));
    GameView { players: taken.update(to, with_card(taken[to], card)), ..game }
}

/// The number of cards dealt to each player.
pub const HAND_SIZE: usize = 7;

/// The place in the draw pile of the card that `seat` gets in round `round`
/// of a deal to `players` players.
pub open spec fn deal_place(players: int, seat: int, round: int) -> int {
    round * players + seat
}

/// The cards that `seat` gets in the first `rounds` rounds of a deal from
/// `deck` to `players` players, one card a round in the order of the seats.
pub open spec fn dealt_cards(deck: Seq<Card>, players: int, seat: int, rounds: int) -> Seq<Card> {
    Seq::new(rounds as nat, |round: int| deck[deal_place(players, seat, round)])
}

/// The player with `cards` put at the end of the hand.
pub open spec fn with_cards(player: PlayerView, cards: Seq<Card>) -> PlayerView {
    PlayerView { hand: player.hand + cards, ..player }
}

/// The player with `card` put at the end of the hand.
pub open spec fn with_card(player: PlayerView, card: Card) -> PlayerView {
    PlayerView { hand: player.hand.push(card), ..player }
}

/// The player without the card at place `k` of the hand.
pub open spec fn without_card(player: PlayerView, k: int) -> PlayerView {
    PlayerView { hand: player.hand.remove(k), ..player }
}

/// The player once the hand has been sorted by frequency and its pairs
/// have been laid down.
pub open spec fn laid_down(player: PlayerView) -> PlayerView {
    let sorted = frequency_order(player.hand);
    PlayerView {
        hand: unmatched(sorted),
        pairs: player.pairs + matched(sorted),
        score: player.score + matched(sorted).len() / 2,
    }
}

/// The game after `asker` has asked `target` for the rank `rank`, and the
/// answer: where `target` holds the rank, the first card of that rank
/// leaves the hand of `target` for the end of the hand of `asker`; else
/// nothing changes.
pub open spec fn ask_outcome(game: GameView, asker: int, target: int, rank: char) -> (
    GameView,
    AskCardResult,
) {
    let hand = game.players[target].hand;
    if holds_rank(hand, rank) {
        let k = first_of_rank(hand, rank);
        let taken = game.players.update(target, without_card(game.players[target], k));
        let given = taken.update(asker, with_card(taken[asker], hand[k]));
        (GameView { players: given, ..game }, AskCardResult::ReceiveCard(hand[k]))
    } else {
        (game, AskCardResult::GoFish)
    }
}

/// The game after `player` has drawn the top card of the draw pile, if
/// there is one.
pub open spec fn draw_outcome(game: GameView, player: int) -> GameView {
    if game.deck.len() >= 1 {
        GameView {
            deck: game.deck.subrange(1, game.deck.len() as int),
            players: game.players.update(
                player,
                with_cards(game.players[player], game.deck.subrange(0, 1)),
            ),
            ..game
        }
    } else {
        game
    }
}

/// The game after one ask of `player`, who asks `target` for the rank of
/// the card at `card_index` of the own hand, and what the ask leads to. A
/// received card is followed by laying down pairs and another ask; else the
/// player draws a card, if one is left, and the turn passes on.
pub open spec fn turn_outcome(game: GameView, player: int, target: int, card_index: int) -> (
    GameView,
    PlayerTurnResult,
) {
    let rank = game.players[player].hand[card_index].rank;
    let (asked, answer) = ask_outcome(game, player, target, rank);
    match answer {
        AskCardResult::ReceiveCard(_) => (
            GameView {
                players: asked.players.update(player, laid_down(asked.players[player])),
                ..asked
            },
            PlayerTurnResult::PlayAgain,
        ),
        AskCardResult::GoFish => (draw_outcome(asked, player), PlayerTurnResult::NextPlayerTurn),
    }
}

/// Every player holds at least one card.
pub open spec fn all_hold_cards(game: GameView) -> bool {
    forall|i: int| 0 <= i < game.players.len() ==> (#[trigger] game.players[i]).hand.len() > 0
}

/// A game of `Sequential` mode after at most `turns` asks, starting with
/// `current`, and how it ended. After each ask the game is over as soon as
/// a hand is empty; else the same player asks again after a received card,
/// and the next player is on after fishing. `Continue` says that `turns`
/// asks did not end the game.
pub open spec fn play_out(game: GameView, current: int, turns: nat) -> (GameView, Outcome)
    decreases turns,
{
    if turns == 0 {
        (game, Outcome::Continue)
    } else {
        let (after, result) = turn_outcome(game, current, game.next_player(current), 0);
        if !(after.condition() is Continue) {
            (after, after.condition())
        } else if result == PlayerTurnResult::PlayAgain {
            play_out(after, current, (turns - 1) as nat)
        } else {
            play_out(after, after.next_player(current), (turns - 1) as nat)
        }
    }
}

/// An ask that the rules allow: `player` holds the card at `card_index`
/// and asks another player, in `Sequential` mode the next player for the
/// first card.
pub open spec fn legal_ask(game: GameView, player: int, target: int, card_index: int) -> bool {
    &&& 0 <= player < game.player_count
    &&& 0 <= target < game.player_count
    &&& 0 <= card_index < game.players[player].hand.len()
    &&& game.mode == GameMode::Sequential ==> target == game.next_player(player) && card_index
        == 0
    &&& game.mode == GameMode::Random ==> target != player
}

/// Where the ask is answered with a card, the sort by frequency does to
/// the hand of `player`, the received card in it, what it is meant to do.
pub open spec fn turn_sorts(game: GameView, player: int, target: int, card_index: int) -> bool {
    let rank = game.players[player].hand[card_index].rank;
    let (asked, answer) = ask_outcome(game, player, target, rank);
    answer is ReceiveCard ==> frequency_sorted(asked.players[player].hand)
}

/// `after` is the game one legal ask of `player` after `before`, and
/// `result` is what the ask led to.
pub open spec fn is_turn_of(
    before: GameView,
    player: int,
    after: GameView,
    result: PlayerTurnResult,
) -> bool {
    exists|target: int, card_index: int|
        {
            &&& legal_ask(before, player, target, card_index)
            &&& (after, result) == #[trigger] turn_outcome(before, player, target, card_index)
            &&& turn_sorts(before, player, target, card_index)
        }
}

/// The seat that is on after an ask of `player`: the same seat after a
/// received card, the next seat after fishing.
pub open spec fn seat_after(game: GameView, player: int, result: PlayerTurnResult) -> int {
    if result == PlayerTurnResult::PlayAgain {
        player
    } else {
        game.next_player(player)
    }
}

/// The game went on at place `k` of `course`; the next game of `course` is
/// one legal ask of the seat `seats[k]` later, and `seats[k + 1]` is the
/// seat that is on after that ask.
pub open spec fn follows(course: Seq<GameView>, seats: Seq<int>, k: int) -> bool {
    &&& course[k].condition() is Continue
    &&& exists|result: PlayerTurnResult|
        {
            &&& #[trigger] is_turn_of(course[k], seats[k], course[k + 1], result)
            &&& seats[k + 1] == seat_after(course[k], seats[k], result)
        }
}

/// `course` is the course of a game from `start` to `end`, and `seats`
/// says whose turn it is in each game of the course: the first seat
/// starts, every ask is legal and made by the seat that is on while the
/// game goes on.
pub open spec fn is_course(
    course: Seq<GameView>,
    seats: Seq<int>,
    start: GameView,
    end: GameView,
) -> bool {
    &&& course.len() >= 1
    &&& seats.len() == course.len()
    &&& course[0] == start
    &&& seats[0] == 0
    &&& course.last() == end
    &&& forall|k: int| 0 <= k < course.len() - 1 ==> #[trigger] follows(course, seats, k)
}

/// One more legal ask of the seat that is on extends the course of a game.
pub proof fn lemma_course_goes_on(
    course: Seq<GameView>,
    seats: Seq<int>,
    start: GameView,
    before: GameView,
    after: GameView,
    result: PlayerTurnResult,
)
    requires
        is_course(course, seats, start, before),
        before.condition() is Continue,
        is_turn_of(before, seats.last(), after, result),
    ensures
        is_course(
            course.push(after),
            seats.push(seat_after(before, seats.last(), result)),
            start,
            after,
        ),
{
    let longer = course.push(after);
    let longer_seats = seats.push(seat_after(before, seats.last(), result));
    assert forall|k: int| 0 <= k < longer.len() - 1 implies #[trigger] follows(
        longer,
        longer_seats,
        k,
    ) by {
        if k < course.len() - 1 {
            assert(follows(course, seats, k));
            let earlier = choose|earlier: PlayerTurnResult|
                #[trigger] is_turn_of(course[k], seats[k], course[k + 1], earlier) && seats[k + 1]
                    == seat_after(course[k], seats[k], earlier);
            assert(is_turn_of(longer[k], longer_seats[k], longer[k + 1], earlier));
        } else {
            assert(is_turn_of(longer[k], longer_seats[k], longer[k + 1], result));
        }
    }
}

/// While all players hold cards, the game goes on.
pub proof fn lemma_all_hold_goes_on(game: GameView)
    requires
        game.wf(),
        all_hold_cards(game),
    ensures
        game.condition() is Continue,
{
    assert forall|i: int| 0 <= i < game.hand_sizes().len() implies game.hand_sizes()[i] > 0 by {
        lemma_player_in_game(game, i);
        assert(game.players[i].hand.len() > 0);
    }
    lemma_no_empty_hand_goes_on(game.hand_sizes(), game.scores());
}

/// A game that goes on has players who all hold cards.
pub proof fn lemma_goes_on(game: GameView)
    requires
        game.wf(),
        game.player_count >= 1,
        game.condition() is Continue,
    ensures
        all_hold_cards(game),
{
    assert forall|i: int| 0 <= i < game.players.len() implies (#[trigger] game.players[
        i
    ]).hand.len() > 0 by {
        lemma_player_in_game(game, i);
        if game.players[i].hand.len() == 0 {
            assert(game.hand_sizes()[i] == 0);
            assert(some_hand_empty(game.hand_sizes()));
            lemma_scores_decide(game.scores());
        }
    }
}

/// What the players own is what one of them owns and what the others own.
pub proof fn lemma_held_split(players: Seq<PlayerView>, i: int)
    requires
        0 <= i < players.len(),
    ensures
        cards_held(players) == holdings(players[i]).add(cards_held(players.remove(i))),
    decreases players.len(),
{
    broadcast use group_multiset_axioms;

    let others = players.remove(i);
    if i == players.len() - 1 {
        assert(others =~= players.drop_last());
        assert(cards_held(players) =~= holdings(players[i]).add(cards_held(others)));
    } else {
        lemma_held_split(players.drop_last(), i);
        assert(players.drop_last().remove(i) =~= others.drop_last());
        assert(others.last() == players.last());
        assert(cards_held(players) =~= holdings(players[i]).add(cards_held(others)));
    }
}

/// Replacing one player changes what the players own by what that player
/// owns.
pub proof fn lemma_held_update(players: Seq<PlayerView>, i: int, player: PlayerView)
    requires
        0 <= i < players.len(),
    ensures
        cards_held(players.update(i, player)).add(holdings(players[i])) == cards_held(
            players,
        ).add(holdings(player)),
        holdings(player) == holdings(players[i]) ==> cards_held(players.update(i, player))
            == cards_held(players),
{
    broadcast use group_multiset_axioms;

    lemma_held_split(players, i);
    lemma_held_split(players.update(i, player), i);
    assert(players.update(i, player).remove(i) =~= players.remove(i));
    assert(cards_held(players.update(i, player)).add(holdings(players[i])) =~= cards_held(
        players,
    ).add(holdings(player)));
    if holdings(player) == holdings(players[i]) {
        assert(cards_held(players.update(i, player)) =~= cards_held(players));
    }
}

/// In a game that is in order, each player holds cards of the one deck:
/// standard cards that can be sorted, few enough for the score to count
/// the pairs.
pub proof fn lemma_player_in_game(game: GameView, i: int)
    requires
        game.wf(),
        0 <= i < game.players.len(),
    ensures
        game.players[i].wf(),
        part_of_deck(game.players[i].hand.to_multiset()),
        sortable(game.players[i].hand),
        game.players[i].hand.len() <= 52,
        game.players[i].score <= 26,
        game.deck.len() <= 52,
{
    broadcast use group_multiset_axioms;

    let player = game.players[i];
    lemma_held_split(game.players, i);
    lemma_standard_deck();
    lemma_part_of_deck(player.hand);
    lemma_subset_len(player.pairs.to_multiset(), standard_deck().to_multiset());
    lemma_subset_len(game.deck.to_multiset(), standard_deck().to_multiset());
    player.pairs.to_multiset_ensures();
    game.deck.to_multiset_ensures();
}

/// A hand that holds a rank has a first card of that rank.
pub proof fn lemma_first_of_rank_exists(cards: Seq<Card>, rank: char, i: int)
    requires
        0 <= i < cards.len(),
        cards[i].rank == rank,
    ensures
        is_first_of_rank(cards, rank, first_of_rank(cards, rank)),
    decreases i,
{
    if exists|k: int| 0 <= k < i && (#[trigger] cards[k]).rank == rank {
        let k = choose|k: int| 0 <= k < i && (#[trigger] cards[k]).rank == rank;
        lemma_first_of_rank_exists(cards, rank, k);
    } else {
        assert(is_first_of_rank(cards, rank, i));
    }
}

/// Laying down pairs moves cards from the hand to the pairs of the same
/// player, two for each point.
pub proof fn lemma_laid_down(player: PlayerView)
    requires
        frequency_sorted(player.hand),
        player.pairs.len() == 2 * player.score,
    ensures
        holdings(laid_down(player)) == holdings(player),
        laid_down(player).pairs.len() == 2 * laid_down(player).score,
{
    broadcast use group_multiset_axioms;

    let sorted = frequency_order(player.hand);
    lemma_matching_keeps_cards(sorted);
    lemma_multiset_commutative(player.pairs, matched(sorted));
    assert(holdings(laid_down(player)) =~= holdings(player));
}

/// A player in whose hand no two cards share a rank lays down nothing: the
/// hand keeps its cards, the pairs and the score stay as they are.
pub proof fn lemma_laid_down_without_pairs(player: PlayerView)
    requires
        frequency_sorted(player.hand),
        !has_pair(player.hand),
    ensures
        laid_down(player).hand.to_multiset() == player.hand.to_multiset(),
        laid_down(player).hand.len() == player.hand.len(),
        laid_down(player).pairs == player.pairs,
        laid_down(player).score == player.score,
{
    let sorted = frequency_order(player.hand);
    lemma_match_without_pairs(player.hand, sorted);
    sorted.to_multiset_ensures();
    player.hand.to_multiset_ensures();
    assert(player.pairs + Seq::<Card>::empty() =~= player.pairs);
}

/// A player in whose hand only the rank `rank` may occur more than once
/// lays down the pairs of that rank. With `k` cards of the rank the score
/// rises by `k / 2`, and `k` cards leave the hand where `k` is even, `k - 1`
/// where it is odd, when one card of the rank is left. Every card of
/// another rank stays in the hand.
pub proof fn lemma_laid_down_one_repeated_rank(player: PlayerView, rank: char)
    requires
        frequency_sorted(player.hand),
        forall|other: char| other != rank ==> #[trigger] rank_count(player.hand, other) <= 1,
    ensures
        laid_down(player).score == player.score + rank_count(player.hand, rank) / 2,
        laid_down(player).hand.len() == player.hand.len() - (rank_count(player.hand, rank)
            - rank_count(player.hand, rank) % 2),
        laid_down(player).pairs.len() == player.pairs.len() + (rank_count(player.hand, rank)
            - rank_count(player.hand, rank) % 2),
        rank_count(laid_down(player).hand, rank) == rank_count(player.hand, rank) % 2,
        forall|card: Card|
            card.rank != rank ==> #[trigger] laid_down(player).hand.to_multiset().count(card)
                == player.hand.to_multiset().count(card),
{
    lemma_match_one_repeated_rank(player.hand, frequency_order(player.hand), rank);
}

/// Drawing moves the top card of the draw pile to a hand: the game stays
/// in order.
pub proof fn lemma_draw_keeps_order(game: GameView, player: int)
    requires
        game.wf(),
        0 <= player < game.players.len(),
    ensures
        draw_outcome(game, player).wf(),
{
    broadcast use group_multiset_axioms;

    if game.deck.len() >= 1 {
        let top = game.deck.subrange(0, 1);
        let rest = game.deck.subrange(1, game.deck.len() as int);
        let old_player = game.players[player];
        let new_player = with_cards(old_player, top);
        assert(game.deck =~= top + rest);
        lemma_multiset_commutative(top, rest);
        lemma_multiset_commutative(old_player.hand, top);
        lemma_held_update(game.players, player, new_player);
        assert(holdings(new_player) =~= holdings(old_player).add(top.to_multiset()));
        let after = draw_outcome(game, player);
        assert(after.deck == rest);
        assert(after.players == game.players.update(player, new_player));
        assert forall|x: Card| after.all_cards().count(x) == game.all_cards().count(x) by {
            assert(cards_held(after.players).add(holdings(old_player)).count(x) == cards_held(
                game.players,
            ).add(holdings(new_player)).count(x));
        }
        assert(after.all_cards() =~= game.all_cards());
    }
}

/// Players without cards own nothing.
pub proof fn lemma_nobody_holds(players: Seq<PlayerView>)
    requires
        forall|i: int|
            0 <= i < players.len() ==> (#[trigger] players[i]).hand.len() == 0
                && players[i].pairs.len() == 0,
    ensures
        cards_held(players) == Multiset::<Card>::empty(),
    decreases players.len(),
{
    broadcast use group_multiset_axioms;

    if players.len() > 0 {
        lemma_nobody_holds(players.drop_last());
        let last = players.last();
        last.hand.to_multiset_ensures();
        last.pairs.to_multiset_ensures();
        lemma_multiset_empty_len(last.hand.to_multiset());
        lemma_multiset_empty_len(last.pairs.to_multiset());
        assert(cards_held(players) =~= Multiset::<Card>::empty());
    }
}

/// Moving a card between two hands keeps the game in order.
pub proof fn lemma_transfer_keeps_order(game: GameView, to: int, from: int, card: Card)
    requires
        game.wf(),
        0 <= to < game.players.len(),
        0 <= from < game.players.len(),
        game.players[from].hand.contains(card),
    ensures
        transfer_outcome(game, to, from, card).wf(),
{
    broadcast use group_multiset_axioms;

    let hand = game.players[from].hand;
    let k = hand.index_of(card);
    let taken = game.players.update(from, without_card(game.players[from], k));
    let given = taken.update(to, with_card(taken[to], card));
    hand.to_multiset_ensures();
    taken[to].hand.to_multiset_ensures();
    assert(holdings(without_card(game.players[from], k)) =~= holdings(game.players[from]).remove(
        card,
    ));
    assert(holdings(with_card(taken[to], card)) =~= holdings(taken[to]).insert(card));
    lemma_held_update(game.players, from, without_card(game.players[from], k));
    lemma_held_update(taken, to, with_card(taken[to], card));
    lemma_held_split(game.players, from);
    assert(holdings(game.players[from]).count(card) > 0);
    assert forall|x: Card| cards_held(taken).count(x) == cards_held(game.players).remove(
        card,
    ).count(x) by {
        assert(cards_held(taken).add(holdings(game.players[from])).count(x) == cards_held(
            game.players,
        ).add(holdings(without_card(game.players[from], k))).count(x));
    }
    assert forall|x: Card| cards_held(given).count(x) == cards_held(taken).insert(card).count(
        x,
    ) by {
        assert(cards_held(given).add(holdings(taken[to])).count(x) == cards_held(taken).add(
            holdings(with_card(taken[to], card)),
        ).count(x));
    }
    assert(cards_held(given) =~= cards_held(game.players));
}

/// In a hand without a card twice, a card is found at its own place.
pub proof fn lemma_place_of_card(hand: Seq<Card>, k: int)
    requires
        hand.no_duplicates(),
        0 <= k < hand.len(),
    ensures
        hand.index_of(hand[k]) == k,
{
    assert(hand.contains(hand[k]));
}

/// An ask is exact. Where the asked player holds the rank, one card of
/// that rank leaves that hand for the end of the hand of the asker and is
/// the answer; where not, the answer is `GoFish` and the game is as it was.
/// Either way no other hand, no pile of pairs, no score and no card of the
/// draw pile changes, and the game stays in order.
pub proof fn lemma_ask_is_exact(game: GameView, asker: int, target: int, rank: char)
    requires
        game.wf(),
        0 <= asker < game.players.len(),
        0 <= target < game.players.len(),
        asker != target,
    ensures
        ({
            let (after, answer) = ask_outcome(game, asker, target, rank);
            let gave = game.players[target].hand;
            let took = game.players[asker].hand;
            &&& after.wf()
            &&& after.deck == game.deck
            &&& after.players.len() == game.players.len()
            &&& forall|i: int|
                0 <= i < game.players.len() && i != asker && i != target
                    ==> #[trigger] after.players[i] == game.players[i]
            &&& forall|i: int|
                0 <= i < game.players.len() ==> (#[trigger] after.players[i]).pairs
                    == game.players[i].pairs && after.players[i].score == game.players[i].score
            &&& holds_rank(gave, rank) ==> {
                &&& answer matches AskCardResult::ReceiveCard(card)
                &&& card.rank == rank
                &&& gave.contains(card)
                &&& after.players[target].hand == gave.remove(gave.index_of(card))
                &&& after.players[target].hand.to_multiset() == gave.to_multiset().remove(card)
                &&& after.players[asker].hand == took.push(card)
            }
            &&& !holds_rank(gave, rank) ==> answer == AskCardResult::GoFish && after == game
        }),
{
    let gave = game.players[target].hand;
    if holds_rank(gave, rank) {
        let witness = choose|i: int| 0 <= i < gave.len() && (#[trigger] gave[i]).rank == rank;
        lemma_first_of_rank_exists(gave, rank, witness);
        let k = first_of_rank(gave, rank);
        lemma_player_in_game(game, target);
        lemma_part_of_deck(gave);
        lemma_place_of_card(gave, k);
        gave.to_multiset_ensures();
        assert(ask_outcome(game, asker, target, rank).0 == transfer_outcome(
            game,
            asker,
            target,
            gave[k],
        ));
        lemma_transfer_keeps_order(game, asker, target, gave[k]);
    }
}

/// Around a table of two or more, the next player is another player, and
/// sits at the table.
pub proof fn lemma_next_player(game: GameView, player: int)
    requires
        0 <= player < game.player_count,
    ensures
        0 <= game.next_player(player) < game.player_count,
        game.player_count >= 2 ==> game.next_player(player) != player,
{
    let count = game.player_count;
    if player + 1 < count {
        lemma_small_mod((player + 1) as nat, count);
    } else {
        lemma_mod_self_0(count as int);
    }
}

/// A received card makes a pair: after an ask that was answered with a
/// card, the asker holds that card and the card asked with, two cards of
/// one rank.
pub proof fn lemma_received_card_pairs(game: GameView, asker: int, target: int, card_index: int)
    requires
        game.wf(),
        0 <= asker < game.players.len(),
        0 <= target < game.players.len(),
        asker != target,
        0 <= card_index < game.players[asker].hand.len(),
        holds_rank(game.players[target].hand, game.players[asker].hand[card_index].rank),
    ensures
        has_pair(
            ask_outcome(
                game,
                asker,
                target,
                game.players[asker].hand[card_index].rank,
            ).0.players[asker].hand,
        ),
{
    let rank = game.players[asker].hand[card_index].rank;
    lemma_ask_is_exact(game, asker, target, rank);
    let hand = ask_outcome(game, asker, target, rank).0.players[asker].hand;
    assert(same_rank(hand, card_index, hand.len() - 1));
}

/// Conservation: a game in order holds the 52 cards of the standard deck,
/// each of them once, between the draw pile, the hands and the pairs, and
/// no other card.
pub proof fn lemma_cards_conserved(game: GameView)
    requires
        game.wf(),
    ensures
        game.all_cards().len() == 52,
        forall|card: Card| #[trigger]
            game.all_cards().count(card) == if card.is_standard() {
                1nat
            } else {
                0nat
            },
{
    lemma_standard_deck();
    assert forall|card: Card| #[trigger]
        game.all_cards().count(card) == if card.is_standard() {
            1nat
        } else {
            0nat
        } by {
        assert(standard_deck().to_multiset().count(card) <= 1);
        assert(standard_deck().to_multiset().count(card) > 0 <==> card.is_standard());
    }
}

/// Sequential play is determined by the game it starts from: two games
/// with the same draw pile, the same players and the same mode take the
/// same turn and end the same way.
pub proof fn lemma_sequential_play_agrees(
    first: GameView,
    second: GameView,
    current: int,
    turns: nat,
)
    requires
        first.deck == second.deck,
        first.players == second.players,
        first.player_count == second.player_count,
        first.mode == second.mode,
    ensures
        turn_outcome(first, current, first.next_player(current), 0) == turn_outcome(
            second,
            current,
            second.next_player(current),
            0,
        ),
        play_out(first, current, turns) == play_out(second, current, turns),
{
    assert(first == second);
}

/// While every player holds cards the game goes on, whatever the scores.
pub proof fn lemma_no_empty_hand_goes_on(hand_sizes: Seq<usize>, scores: Seq<u32>)
    requires
        forall|i: int| 0 <= i < hand_sizes.len() ==> hand_sizes[i] > 0,
    ensures
        end_condition(hand_sizes, scores) is Continue,
{
}

} // verus!
