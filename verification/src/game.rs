use vstd::prelude::*;
use vstd::multiset::group_multiset_axioms;
use cardpack::Standard52;
use crate::card::{standard_deck, Card};
use crate::pairs::lemma_match_with_pair;
use crate::pile::{
    deck_cards, deck_contents, deck_draw, deck_shuffled, deck_standard, frequency_order,
    frequency_sorted,
};
use crate::player::{first_of_rank, Player, PlayerView};
use crate::random::{get_random, get_random_excluding};
use crate::standard::lemma_part_of_deck;
use crate::table::{
    all_hold_cards, ask_outcome, deal_place, dealt_cards, draw_outcome, is_course, is_turn_of,
    laid_down, legal_ask, lemma_all_hold_goes_on, lemma_course_goes_on, lemma_draw_keeps_order,
    lemma_goes_on, lemma_held_update, lemma_laid_down,
    lemma_next_player, lemma_nobody_holds, lemma_player_in_game, lemma_received_card_pairs,
    lemma_transfer_keeps_order, play_out,
    seat_after, transfer_outcome, turn_outcome, turn_sorts, with_card, with_cards,
    without_card,
    AskCardResult, GameMode, GameView, PlayerTurnResult, HAND_SIZE,
};
use crate::winner::{
    end_of_game, indices_of_max_score, leaders, EndGameCondition,
};

verus! {

/// A full deck of 52 cards, ready for a game.
pub struct Deck {
    cards: Standard52,
}

impl View for Deck {
    type V = Seq<Card>;

    closed spec fn view(&self) -> Seq<Card> {
        deck_cards(self.cards)
    }
}

impl Deck {
    /// The deck in its standard order.
    pub fn standard() -> (deck: Deck)
        ensures
            deck@ == standard_deck(),
    {
        Deck { cards: deck_standard() }
    }

    /// The deck in a random order.
    pub fn shuffled() -> (deck: Deck)
        ensures
            deck@.to_multiset() == standard_deck().to_multiset(),
    {
        Deck { cards: deck_shuffled() }
    }
}

/// A game of Go Fish: the draw pile, the players, and the way they pick
/// whom to ask for what.
pub struct GameState {
    deck: Standard52,
    players: Vec<Player>,
    player_count: usize,
    game_mode: GameMode,
}

impl View for GameState {
    type V = GameView;

    closed spec fn view(&self) -> GameView {
        GameView {
            deck: deck_cards(self.deck),
            players: Seq::new(self.players@.len(), |i: int| self.players@[i]@),
            player_count: self.player_count as nat,
            mode: self.game_mode,
        }
    }
}

/// `count` players without cards and without points.
pub open spec fn fresh_players(players: Seq<PlayerView>, count: nat) -> bool {
    &&& players.len() == count
    &&& forall|i: int|
        0 <= i < players.len() ==> {
            &&& (#[trigger] players[i]).hand == Seq::<Card>::empty()
            &&& players[i].pairs == Seq::<Card>::empty()
            &&& players[i].score == 0
        }
}

/// `count` players, each without cards.
fn seat_players(count: usize) -> (players: Vec<Player>)
    ensures
        players@.len() == count,
        forall|i: int|
            0 <= i < count ==> {
                &&& (#[trigger] players@[i])@.hand == Seq::<Card>::empty()
                &&& players@[i]@.pairs == Seq::<Card>::empty()
                &&& players@[i]@.score == 0
            },
{
    let mut players: Vec<Player> = Vec::new();
    let mut i: usize = 0;
    while i < count
        invariant
            i <= count,
            players@.len() == i,
            forall|j: int|
                0 <= j < i ==> {
                    &&& (#[trigger] players@[j])@.hand == Seq::<Card>::empty()
                    &&& players@[j]@.pairs == Seq::<Card>::empty()
                    &&& players@[j]@.score == 0
                },
        decreases count - i,
    {
        players.push(Player::new());
        i += 1;
    }
    players
}

impl GameState {
    /// A game for `player_count` players with a shuffled deck, played in
    /// `Random` mode. Nobody holds a card yet.
    pub fn new(player_count: usize) -> (game: GameState)
        ensures
            game@.deck.to_multiset() == standard_deck().to_multiset(),
            fresh_players(game@.players, player_count as nat),
            game@.player_count == player_count,
            game@.mode == GameMode::Random,
            game@.wf(),
    {
        GameState::new_with_deck(player_count, Deck::shuffled(), GameMode::Random)
    }

    /// A game for `player_count` players with the given deck and mode.
    /// Nobody holds a card yet.
    pub fn new_with_deck(player_count: usize, deck: Deck, game_mode: GameMode) -> (game: GameState)
        requires
            deck@.to_multiset() == standard_deck().to_multiset(),
        ensures
            game@.deck == deck@,
            fresh_players(game@.players, player_count as nat),
            game@.player_count == player_count,
            game@.mode == game_mode,
            game@.wf(),
    {
        let players = seat_players(player_count);
        let game = GameState { deck: deck.cards, players, player_count, game_mode };
        proof {
            broadcast use group_multiset_axioms;

            lemma_nobody_holds(game@.players);
            assert(game@.all_cards() =~= standard_deck().to_multiset());
        }
        game
    }

    /// The number of players.
    pub fn player_count(&self) -> (count: usize)
        ensures
            count == self@.player_count,
    {
        self.player_count
    }

    /// The player at seat `index`.
    pub fn player(&self, index: usize) -> (player: &Player)
        requires
            index < self@.players.len(),
        ensures
            player@ == self@.players[index as int],
    {
        &self.players[index]
    }

    /// The cards of the draw pile, top card first.
    pub fn deck_cards(&self) -> (cards: Vec<Card>)
        ensures
            cards@ == self@.deck,
    {
        deck_contents(&self.deck)
    }

    /// The seat after `player_index`; after the last seat comes the first.
    pub fn next_player_index(&self, player_index: usize) -> (next: usize)
        requires
            self@.player_count > 0,
            player_index < usize::MAX,
        ensures
            next == (player_index + 1) % (self@.player_count as int),
    {
        (player_index + 1) % self.player_count
    }

    /// The score of each player, by seat.
    fn scores(&self) -> (scores: Vec<u32>)
        requires
            self@.wf(),
        ensures
            scores@ == self@.scores(),
    {
        let mut scores: Vec<u32> = Vec::new();
        let mut i: usize = 0;
        while i < self.players.len()
            invariant
                i <= self.players@.len(),
                scores@.len() == i,
                forall|j: int| 0 <= j < i ==> scores@[j] == self@.scores()[j],
            decreases self.players@.len() - i,
        {
            scores.push(self.players[i].score());
            i += 1;
        }
        assert(scores@ =~= self@.scores());
        scores
    }

    /// The size of each hand, by seat.
    fn hand_sizes(&self) -> (sizes: Vec<usize>)
        requires
            self@.wf(),
        ensures
            sizes@ == self@.hand_sizes(),
    {
        let mut sizes: Vec<usize> = Vec::new();
        let mut i: usize = 0;
        while i < self.players.len()
            invariant
                i <= self.players@.len(),
                sizes@.len() == i,
                forall|j: int| 0 <= j < i ==> sizes@[j] == self@.hand_sizes()[j],
            decreases self.players@.len() - i,
        {
            sizes.push(self.players[i].hand_len());
            i += 1;
        }
        assert(sizes@ =~= self@.hand_sizes());
        sizes
    }

    /// The players with the highest score, in rising order of their seats.
    pub fn indices_of_max_score_players(&self) -> (best: Vec<usize>)
        requires
            self@.wf(),
        ensures
            best@ == leaders(self@.scores()),
    {
        let scores = self.scores();
        indices_of_max_score(&scores)
    }

    /// Names the winner: while every player holds cards there is none yet
    /// and the game goes on; once a hand is empty the one player with the
    /// highest score wins, and several of them tie.
    pub fn determine_winner(&self) -> (result: EndGameCondition)
        requires
            self@.wf(),
        ensures
            result@ == self@.condition(),
    {
        let sizes = self.hand_sizes();
        let scores = self.scores();
        end_of_game(&sizes, &scores)
    }

    /// How the game stands: it goes on while every player holds cards, and
    /// is decided on the scores once a hand is empty.
    pub fn check_win_condition(&self) -> (result: EndGameCondition)
        requires
            self@.wf(),
        ensures
            result@ == self@.condition(),
    {
        self.determine_winner()
    }

    /// Picks the card to ask for and the player to ask, for a player who
    /// holds cards: in `Sequential` mode the first card and the next player,
    /// in `Random` mode a random card of the hand and a random other player.
    pub fn get_turn_indices(&self, player_index: usize) -> (picked: (usize, usize))
        requires
            self@.wf(),
            player_index < self@.player_count,
            self@.players[player_index as int].hand.len() > 0,
            self@.mode == GameMode::Random ==> self@.player_count >= 2,
        ensures
            legal_ask(self@, player_index as int, picked.1 as int, picked.0 as int),
    {
        proof {
            lemma_next_player(self@, player_index as int);
        }
        match self.game_mode {
            GameMode::Random => {
                let random_card_index = get_random(0..self.players[player_index].hand_len());
                let other_player_index = get_random_excluding(0..self.player_count, player_index);
                (random_card_index, other_player_index)
            },
            GameMode::Sequential => {
                let other_player_index = self.next_player_index(player_index);
                (0, other_player_index)
            },
        }
    }

    /// Moves `card` from the hand of `other_player_index`, which holds it,
    /// to the end of the hand of `player_index`.
    pub fn transfer_cards(&mut self, player_index: usize, other_player_index: usize, card: Card)
        requires
            old(self)@.wf(),
            player_index < old(self)@.player_count,
            other_player_index < old(self)@.player_count,
            old(self)@.players[other_player_index as int].hand.contains(card),
        ensures
            final(self)@ == transfer_outcome(
                old(self)@,
                player_index as int,
                other_player_index as int,
                card,
            ),
            final(self)@.wf(),
    {
        let ghost before = self@;
        let ghost hand = before.players[other_player_index as int].hand;
        let ghost k = hand.index_of(card);
        proof {
            lemma_player_in_game(before, other_player_index as int);
            lemma_part_of_deck(hand);
            hand.index_of_first_ensures(card);
            assert(hand.index_of_first(card) == Some(k));
            assert(hand.remove_value(card) == hand.remove(k));
        }
        self.players[other_player_index].remove_card(card);
        assert(self@.players =~= before.players.update(
            other_player_index as int,
            without_card(before.players[other_player_index as int], k),
        ));
        let ghost taken = self@.players;
        self.players[player_index].add_card(card);
        assert(self@.players =~= taken.update(
            player_index as int,
            with_card(taken[player_index as int], card),
        ));
        proof {
            assert(self@ == transfer_outcome(
                before,
                player_index as int,
                other_player_index as int,
                card,
            ));
            lemma_transfer_keeps_order(
                before,
                player_index as int,
                other_player_index as int,
                card,
            );
        }
    }

    /// `player_index` asks `answering_player_index` for the rank of `card`.
    /// Where the asked player holds that rank, the first card of the rank
    /// changes hands and is the answer; else the answer is `GoFish` and
    /// nothing changes. The draw pile is not touched.
    pub fn ask_for_card(
        &mut self,
        player_index: usize,
        answering_player_index: usize,
        card: Card,
    ) -> (answer: AskCardResult)
        requires
            old(self)@.wf(),
            player_index < old(self)@.player_count,
            answering_player_index < old(self)@.player_count,
        ensures
            (final(self)@, answer) == ask_outcome(
                old(self)@,
                player_index as int,
                answering_player_index as int,
                card.rank,
            ),
            final(self)@.wf(),
    {
        let ghost before = self@;
        let ghost hand = before.players[answering_player_index as int].hand;
        proof {
            lemma_player_in_game(before, answering_player_index as int);
            lemma_part_of_deck(hand);
        }
        let result = self.players[answering_player_index].answer_for_card_rank(card.rank);
        match result {
            Some(found) => {
                proof {
                    let k = first_of_rank(hand, card.rank);
                    assert(hand.contains(found));
                    assert(hand.index_of(found) == k);
                }
                self.transfer_cards(player_index, answering_player_index, found);
                AskCardResult::ReceiveCard(found)
            },
            None => AskCardResult::GoFish,
        }
    }

    /// One ask of `player_index`, who asks `other_player_index` for the
    /// rank of the card at `card_index` of the own hand. A received card is
    /// followed by laying down pairs, and the player asks again; else the
    /// player draws the top card of the draw pile, if one is left, and the
    /// turn passes on.
    pub fn perform_turn(
        &mut self,
        player_index: usize,
        other_player_index: usize,
        card_index: usize,
    ) -> (result: PlayerTurnResult)
        requires
            old(self)@.wf(),
            player_index < old(self)@.player_count,
            other_player_index < old(self)@.player_count,
            card_index < old(self)@.players[player_index as int].hand.len(),
        ensures
            (final(self)@, result) == turn_outcome(
                old(self)@,
                player_index as int,
                other_player_index as int,
                card_index as int,
            ),
            turn_sorts(
                old(self)@,
                player_index as int,
                other_player_index as int,
                card_index as int,
            ),
            result == PlayerTurnResult::PlayAgain && player_index != other_player_index ==> {
                final(self)@.players[player_index as int].score
                    > old(self)@.players[player_index as int].score
            },
            final(self)@.player_count == old(self)@.player_count,
            final(self)@.mode == old(self)@.mode,
            final(self)@.wf(),
    {
        let ghost before = self@;
        let hand = self.players[player_index].hand_cards();
        let card = hand[card_index];
        match self.ask_for_card(player_index, other_player_index, card) {
            AskCardResult::ReceiveCard(_) => {
                let ghost asked = self@;
                proof {
                    lemma_player_in_game(asked, player_index as int);
                }
                self.players[player_index].match_pairs();
                proof {
                    let player = asked.players[player_index as int];
                    if player_index != other_player_index {
                        lemma_received_card_pairs(
                            before,
                            player_index as int,
                            other_player_index as int,
                            card_index as int,
                        );
                        lemma_match_with_pair(player.hand, frequency_order(player.hand));
                    }
                    assert(self@.players[player_index as int] == laid_down(player));
                    assert(self@.players =~= asked.players.update(
                        player_index as int,
                        laid_down(player),
                    ));
                    lemma_laid_down(player);
                    lemma_held_update(asked.players, player_index as int, laid_down(player));
                }
                PlayerTurnResult::PlayAgain
            },
            AskCardResult::GoFish => {
                let ghost asked = self@;
                match deck_draw(&mut self.deck, 1) {
                    Some(drawn) => {
                        self.players[player_index].add_pile(&drawn);
                        proof {
                            assert(self@.players =~= draw_outcome(
                                asked,
                                player_index as int,
                            ).players);
                            lemma_draw_keeps_order(asked, player_index as int);
                        }
                        PlayerTurnResult::NextPlayerTurn
                    },
                    None => PlayerTurnResult::NextPlayerTurn,
                }
            },
        }
    }

    /// One ask of `player_index`, whose hand is not empty, with the card
    /// and the other player picked as the mode says: see `get_turn_indices`
    /// and `perform_turn`.
    pub fn play_turn(&mut self, player_index: usize) -> (result: PlayerTurnResult)
        requires
            old(self)@.wf(),
            player_index < old(self)@.player_count,
            old(self)@.players[player_index as int].hand.len() > 0,
            old(self)@.mode == GameMode::Random ==> old(self)@.player_count >= 2,
        ensures
            old(self)@.mode == GameMode::Sequential ==> (final(self)@, result) == turn_outcome(
                old(self)@,
                player_index as int,
                old(self)@.next_player(player_index as int),
                0,
            ),
            is_turn_of(old(self)@, player_index as int, final(self)@, result),
            result == PlayerTurnResult::PlayAgain && old(self)@.player_count >= 2 ==> {
                final(self)@.players[player_index as int].score
                    > old(self)@.players[player_index as int].score
            },
            final(self)@.player_count == old(self)@.player_count,
            final(self)@.mode == old(self)@.mode,
            final(self)@.wf(),
    {
        let (card_index, other_player_index) = self.get_turn_indices(player_index);
        proof {
            lemma_next_player(self@, player_index as int);
        }
        let ghost before = self@;
        let result = self.perform_turn(player_index, other_player_index, card_index);
        assert((self@, result) == turn_outcome(
            before,
            player_index as int,
            other_player_index as int,
            card_index as int,
        ));
        result
    }

    /// Deals seven cards to each player, one card a round in the order of
    /// the seats, from the top of the draw pile.
    pub fn deal(&mut self)
        requires
            old(self)@.wf(),
            old(self)@.deck.len() >= HAND_SIZE * old(self)@.player_count,
        ensures
            final(self)@.deck == old(self)@.deck.subrange(
                HAND_SIZE * old(self)@.player_count,
                old(self)@.deck.len() as int,
            ),
            final(self)@.players.len() == old(self)@.players.len(),
            forall|seat: int|
                0 <= seat < old(self)@.players.len() ==> #[trigger] final(self)@.players[seat]
                    == with_cards(
                    old(self)@.players[seat],
                    dealt_cards(
                        old(self)@.deck,
                        old(self)@.player_count as int,
                        seat,
                        HAND_SIZE as int,
                    ),
                ),
            final(self)@.player_count == old(self)@.player_count,
            final(self)@.mode == old(self)@.mode,
            final(self)@.wf(),
    {
        let ghost start = self@;
        let ghost count = start.player_count as int;
        let mut round: usize = 0;
        while round < HAND_SIZE
            invariant
                start == old(self)@,
                start.wf(),
                count == start.player_count,
                start.deck.len() >= HAND_SIZE * count,
                round <= HAND_SIZE,
                self@.wf(),
                self@.player_count == start.player_count,
                self@.mode == start.mode,
                self@.deck == start.deck.subrange(round * count, start.deck.len() as int),
                forall|seat: int|
                    0 <= seat < count ==> #[trigger] self@.players[seat] == with_cards(
                        start.players[seat],
                        dealt_cards(start.deck, count, seat, round as int),
                    ),
            decreases HAND_SIZE - round,
        {
            let mut seat: usize = 0;
            while seat < self.players.len()
                invariant
                    start.wf(),
                    count == start.player_count,
                    start.deck.len() >= HAND_SIZE * count,
                    round < HAND_SIZE,
                    seat <= count,
                    self@.wf(),
                    self@.player_count == start.player_count,
                    self@.mode == start.mode,
                    self@.deck == start.deck.subrange(
                        round * count + seat,
                        start.deck.len() as int,
                    ),
                    forall|other: int|
                        0 <= other < seat ==> #[trigger] self@.players[other] == with_cards(
                            start.players[other],
                            dealt_cards(start.deck, count, other, round + 1),
                        ),
                    forall|other: int|
                        seat <= other < count ==> #[trigger] self@.players[other] == with_cards(
                            start.players[other],
                            dealt_cards(start.deck, count, other, round as int),
                        ),
                decreases count - seat,
            {
                let ghost before = self@;
                let ghost place = round * count + seat;
                proof {
                    assert(place + 1 <= HAND_SIZE * count) by (nonlinear_arith)
                        requires
                            place == round * count + seat,
                            round < HAND_SIZE,
                            0 <= seat < count,
                    ;
                    assert(place >= 0) by (nonlinear_arith)
                        requires
                            place == round * count + seat,
                            round >= 0,
                            0 <= seat < count,
                    ;
                    assert(before.deck.len() >= 1);
                    assert(before.deck[0] == start.deck[place]);
                }
                let drawn = deck_draw(&mut self.deck, 1).unwrap();
                self.players[seat].add_pile(&drawn);
                proof {
                    assert(self@.deck =~= start.deck.subrange(place + 1, start.deck.len() as int));
                    assert(self@.players =~= draw_outcome(before, seat as int).players);
                    lemma_draw_keeps_order(before, seat as int);
                    assert(deal_place(count, seat as int, round as int) == place);
                    assert(dealt_cards(start.deck, count, seat as int, round + 1) =~= dealt_cards(
                        start.deck,
                        count,
                        seat as int,
                        round as int,
                    ) + before.deck.subrange(0, 1));
                    assert(before.players[seat as int].hand + before.deck.subrange(0, 1)
                        =~= start.players[seat as int].hand + dealt_cards(
                        start.deck,
                        count,
                        seat as int,
                        round + 1,
                    ));
                }
                seat += 1;
            }
            proof {
                assert((round + 1) * count == round * count + count) by (nonlinear_arith);
            }
            round += 1;
        }
    }

    /// Every player lays down the pairs of the hand: see
    /// `Player::match_pairs`.
    pub fn players_match_cards(&mut self)
        requires
            old(self)@.wf(),
        ensures
            final(self)@.players.len() == old(self)@.players.len(),
            forall|seat: int|
                0 <= seat < old(self)@.players.len() ==> #[trigger] final(self)@.players[seat]
                    == laid_down(old(self)@.players[seat]),
            forall|seat: int|
                0 <= seat < old(self)@.players.len() ==> frequency_sorted(
                    (#[trigger] old(self)@.players[seat]).hand,
                ),
            final(self)@.deck == old(self)@.deck,
            final(self)@.player_count == old(self)@.player_count,
            final(self)@.mode == old(self)@.mode,
            final(self)@.wf(),
    {
        let ghost start = self@;
        let mut seat: usize = 0;
        while seat < self.players.len()
            invariant
                start == old(self)@,
                seat <= start.players.len(),
                self@.wf(),
                self@.players.len() == start.players.len(),
                self@.deck == start.deck,
                self@.player_count == start.player_count,
                self@.mode == start.mode,
                forall|other: int|
                    0 <= other < seat ==> #[trigger] self@.players[other] == laid_down(
                        start.players[other],
                    ),
                forall|other: int|
                    0 <= other < seat ==> frequency_sorted((#[trigger] start.players[other]).hand),
                forall|other: int|
                    seat <= other < start.players.len() ==> #[trigger] self@.players[other]
                        == start.players[other],
            decreases start.players.len() - seat,
        {
            let ghost before = self@;
            proof {
                lemma_player_in_game(before, seat as int);
            }
            let _pairs_found = self.players[seat].match_pairs();
            proof {
                let player = before.players[seat as int];
                assert(self@.players[seat as int] == laid_down(player));
                assert(self@.players =~= before.players.update(seat as int, laid_down(player)));
                lemma_laid_down(player);
                lemma_held_update(before.players, seat as int, laid_down(player));
            }
            seat += 1;
        }
    }
}

/// Plays the game from the first seat on until it is over, or until
/// `max_turns` asks have been made. After each ask the game ends as soon as
/// a hand is empty; else the same player asks again after a received card,
/// and the next player is on after fishing. Returns how the game stands at
/// the end; `Continue` says that it did not end within `max_turns` asks.
pub fn run_game(game: &mut GameState, max_turns: usize) -> (result: EndGameCondition)
    requires
        old(game)@.wf(),
        old(game)@.player_count >= 1,
        old(game)@.mode == GameMode::Random ==> old(game)@.player_count >= 2,
        all_hold_cards(old(game)@),
    ensures
        final(game)@.wf(),
        final(game)@.player_count == old(game)@.player_count,
        final(game)@.mode == old(game)@.mode,
        result@ == final(game)@.condition(),
        exists|course: Seq<GameView>, seats: Seq<int>|
            {
                &&& #[trigger] is_course(course, seats, old(game)@, final(game)@)
                &&& course.len() <= max_turns + 1
                &&& result@ is Continue ==> course.len() == max_turns + 1
            },
        old(game)@.mode == GameMode::Sequential ==> (final(game)@, result@) == play_out(
            old(game)@,
            0,
            max_turns as nat,
        ),
{
    let ghost start = game@;
    let ghost course: Seq<GameView> = seq![start];
    let ghost seats: Seq<int> = seq![0int];
    let mut current_player_index: usize = 0;
    let mut turns_left: usize = max_turns;
    while turns_left > 0
        invariant
            start == old(game)@,
            game@.wf(),
            game@.player_count == start.player_count,
            game@.mode == start.mode,
            game@.player_count >= 1,
            game@.mode == GameMode::Random ==> game@.player_count >= 2,
            all_hold_cards(game@),
            current_player_index < game@.player_count,
            course.len() + turns_left == max_turns + 1,
            is_course(course, seats, start, game@),
            seats.last() == current_player_index,
            start.mode == GameMode::Sequential ==> play_out(start, 0, max_turns as nat)
                == play_out(game@, current_player_index as int, turns_left as nat),
        decreases turns_left,
    {
        let ghost before = game@;
        let turn_result = game.play_turn(current_player_index);
        let end_game_condition = game.check_win_condition();
        turns_left -= 1;
        proof {
            lemma_all_hold_goes_on(before);
            lemma_course_goes_on(course, seats, start, before, game@, turn_result);
            course = course.push(game@);
            seats = seats.push(seat_after(before, current_player_index as int, turn_result));
        }
        match end_game_condition {
            EndGameCondition::Continue => {},
            _ => {
                return end_game_condition;
            },
        }
        proof {
            lemma_goes_on(game@);
        }
        if turn_result != PlayerTurnResult::PlayAgain {
            current_player_index = game.next_player_index(current_player_index);
        }
    }
    proof {
        lemma_all_hold_goes_on(game@);
    }
    EndGameCondition::Continue
}

} // verus!
