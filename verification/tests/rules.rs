use rust_go_fish::card::Card;
use rust_go_fish::game::{run_game, Deck, GameState};
use rust_go_fish::pairs::find_pair;
use rust_go_fish::player::Player;
use rust_go_fish::random::{get_random, get_random_excluding, skip_excluded};
use rust_go_fish::table::{AskCardResult, GameMode, PlayerTurnResult};
use rust_go_fish::winner::{end_of_game, indices_of_max_score, winner_by_scores, EndGameCondition};

fn card(index: &str) -> Card {
    let mut symbols = index.chars();
    Card { rank: symbols.next().unwrap(), suit: symbols.next().unwrap() }
}

fn cards(index: &str) -> Vec<Card> {
    index.split_whitespace().map(card).collect()
}

fn names(cards: &Vec<Card>) -> String {
    let names: Vec<String> = cards.iter().map(|c| format!("{}{}", c.rank, c.suit)).collect();
    names.join(" ")
}

fn sorted_names(cards: &Vec<Card>) -> Vec<String> {
    let mut names: Vec<String> = cards.iter().map(|c| format!("{}{}", c.rank, c.suit)).collect();
    names.sort();
    names
}

fn player_with(index: &str) -> Player {
    let mut player = Player::new();
    player.add_cards(cards(index));
    player
}

fn sequential_game() -> GameState {
    let mut game = GameState::new_with_deck(4, Deck::standard(), GameMode::Sequential);
    game.deal();
    game.players_match_cards();
    game
}

fn every_card(game: &GameState) -> Vec<Card> {
    let mut all = game.deck_cards();
    for seat in 0..game.player_count() {
        all.extend(game.player(seat).hand_cards());
        all.extend(game.player(seat).pair_cards());
    }
    all
}

fn full_deck_names() -> Vec<String> {
    let mut names = Vec::new();
    for suit in ['S', 'H', 'D', 'C'] {
        for rank in ['A', 'K', 'Q', 'J', 'T', '9', '8', '7', '6', '5', '4', '3', '2'] {
            names.push(format!("{}{}", rank, suit));
        }
    }
    names.sort();
    names
}

#[test]
fn standard_deck_comes_in_box_order() {
    let game = GameState::new_with_deck(2, Deck::standard(), GameMode::Sequential);
    let deck = game.deck_cards();
    assert_eq!(deck.len(), 52);
    assert_eq!(deck[0], card("AS"));
    assert_eq!(deck[12], card("2S"));
    assert_eq!(deck[13], card("AH"));
    assert_eq!(deck[26], card("AD"));
    assert_eq!(deck[51], card("2C"));
}

#[test]
fn shuffled_deck_holds_every_card_once() {
    let game = GameState::new(4);
    assert_eq!(game.player_count(), 4);
    assert_eq!(game.player(3).hand_len(), 0);
    assert_eq!(sorted_names(&game.deck_cards()), full_deck_names());
}

#[test]
fn cards_are_conserved_through_a_game() {
    let mut game = GameState::new_with_deck(4, Deck::standard(), GameMode::Sequential);
    assert_eq!(sorted_names(&every_card(&game)), full_deck_names());
    game.deal();
    assert_eq!(sorted_names(&every_card(&game)), full_deck_names());
    game.players_match_cards();
    assert_eq!(sorted_names(&every_card(&game)), full_deck_names());
    let mut seat = 0;
    for _ in 0..40 {
        if game.check_win_condition() != EndGameCondition::Continue {
            break;
        }
        let result = game.play_turn(seat);
        assert_eq!(sorted_names(&every_card(&game)), full_deck_names());
        if result == PlayerTurnResult::NextPlayerTurn {
            seat = game.next_player_index(seat);
        }
    }
}

#[test]
fn cards_are_conserved_in_random_mode() {
    let mut game = GameState::new(3);
    game.deal();
    game.players_match_cards();
    let result = run_game(&mut game, 100_000);
    assert_eq!(sorted_names(&every_card(&game)), full_deck_names());
    assert_ne!(result, EndGameCondition::Continue);
    for seat in 0..3 {
        let player = game.player(seat);
        assert_eq!(player.pair_cards().len(), 2 * player.score() as usize);
    }
}

#[test]
fn deal_hands_out_seven_cards_round_by_round() {
    let mut game = GameState::new_with_deck(4, Deck::standard(), GameMode::Sequential);
    game.deal();
    assert_eq!(names(&game.player(0).hand_cards()), "AS TS 6S 2S JH 7H 3H");
    assert_eq!(names(&game.player(1).hand_cards()), "KS 9S 5S AH TH 6H 2H");
    assert_eq!(names(&game.player(3).hand_cards()), "JS 7S 3S QH 8H 4H KD");
    let deck = game.deck_cards();
    assert_eq!(deck.len(), 24);
    assert_eq!(deck[0], card("QD"));
}

#[test]
fn find_pair_finds_nothing_among_different_ranks() {
    assert_eq!(find_pair(&cards("2S QS KH 3C")), None);
    assert_eq!(find_pair(&cards("")), None);
}

#[test]
fn find_pair_takes_the_first_rank_to_repeat() {
    let found = find_pair(&cards("KH 3C 2S 3S 2D KD")).unwrap();
    assert_eq!(found, (card("3C"), card("3S")));
}

#[test]
fn matching_without_pairs_changes_nothing() {
    let mut player = player_with("2S QS KH 3C");
    let before = sorted_names(&player.hand_cards());
    assert_eq!(player.match_pairs(), 0);
    assert_eq!(sorted_names(&player.hand_cards()), before);
    assert_eq!(player.pair_cards().len(), 0);
    assert_eq!(player.score(), 0);
    assert_eq!(player.match_pairs(), 0);
    assert_eq!(sorted_names(&player.hand_cards()), before);
}

#[test]
fn collect_pairs_keeps_the_order_of_the_hand() {
    let mut player = player_with("2S QS 2D KH 3C 3S QH");
    assert_eq!(player.collect_pairs(), 3);
    assert_eq!(names(&player.hand_cards()), "KH");
    assert_eq!(names(&player.pair_cards()), "2S 2D 3C 3S QS QH");
    assert_eq!(player.score(), 3);
}

#[test]
fn three_of_a_kind_leave_one_card() {
    let mut player = player_with("7S 7H 7D");
    assert_eq!(player.match_pairs(), 1);
    assert_eq!(player.hand_len(), 1);
    assert_eq!(player.pair_cards().len(), 2);
    assert_eq!(player.score(), 1);
}

#[test]
fn four_of_a_kind_leave_no_card() {
    let mut player = player_with("7S 7H 7D 7C");
    assert_eq!(player.match_pairs(), 2);
    assert_eq!(player.hand_len(), 0);
    assert_eq!(player.pair_cards().len(), 4);
    assert_eq!(player.score(), 2);
}

#[test]
fn match_pairs_sorts_the_hand_by_frequency() {
    let mut player = player_with("2S KH 3C AS");
    assert_eq!(player.match_pairs(), 0);
    assert_eq!(names(&player.hand_cards()), "AS KH 3C 2S");
}

#[test]
fn sort_puts_frequent_ranks_first() {
    let mut player = player_with("2S KH 3C 2D AS 3S 3H");
    assert_eq!(player.match_pairs(), 2);
    assert_eq!(names(&player.pair_cards()), "3S 3H 2S 2D");
    assert_eq!(names(&player.hand_cards()), "3C AS KH");
    let mut four = player_with("AS 5C KD 5H 5S AC 5D");
    assert_eq!(four.match_pairs(), 3);
    assert_eq!(names(&four.pair_cards()), "5S 5H 5D 5C AS AC");
    assert_eq!(names(&four.hand_cards()), "KD");
}

#[test]
fn sort_orders_single_cards_by_rank_then_suit() {
    let mut player = player_with("9C 2H 9S TD 2S 9H");
    player.remove_card(card("9H"));
    player.remove_card(card("9C"));
    player.remove_card(card("2H"));
    player.add_card(card("TC"));
    player.remove_card(card("TD"));
    assert_eq!(names(&player.hand_cards()), "9S 2S TC");
    assert_eq!(player.match_pairs(), 0);
    assert_eq!(names(&player.hand_cards()), "TC 9S 2S");
    let mut suits = player_with("4C 7D 4S 7H");
    suits.remove_card(card("4C"));
    suits.remove_card(card("7D"));
    suits.add_card(card("6C"));
    suits.add_card(card("6S"));
    suits.remove_card(card("6C"));
    assert_eq!(suits.match_pairs(), 0);
    assert_eq!(names(&suits.hand_cards()), "7H 6S 4S");
}

#[test]
fn add_card_and_remove_card_change_the_hand() {
    let mut player = Player::new();
    player.add_card(card("9D"));
    player.add_card(card("TC"));
    player.add_card(card("9S"));
    assert_eq!(names(&player.hand_cards()), "9D TC 9S");
    player.remove_card(card("TC"));
    assert_eq!(names(&player.hand_cards()), "9D 9S");
    player.remove_card(card("AH"));
    assert_eq!(names(&player.hand_cards()), "9D 9S");
    assert_eq!(player.hand_len(), 2);
}

#[test]
fn answer_names_the_first_card_of_the_rank() {
    let player = player_with("QS 3C KH 3S");
    assert_eq!(player.answer_for_card_rank('3'), Some(card("3C")));
    assert_eq!(player.answer_for_card_rank('K'), Some(card("KH")));
    assert_eq!(player.answer_for_card_rank('A'), None);
    assert_eq!(names(&player.hand_cards()), "QS 3C KH 3S");
}

#[test]
fn asking_for_a_held_rank_moves_one_card() {
    let mut game = sequential_game();
    let answer = game.ask_for_card(0, 1, card("6S"));
    assert_eq!(answer, AskCardResult::ReceiveCard(card("6H")));
    assert_eq!(names(&game.player(0).hand_cards()), "AS JH TS 7H 6S 3H 2S 6H");
    assert_eq!(names(&game.player(1).hand_cards()), "AH KS TH 9S 5S 2H");
    assert_eq!(names(&game.player(2).hand_cards()), "AD KH QS 9H 8S 5H 4S");
    assert_eq!(names(&game.player(3).hand_cards()), "KD QH JS 8H 7S 4H 3S");
    assert_eq!(game.deck_cards().len(), 24);
}

#[test]
fn asking_for_a_missing_rank_changes_nothing() {
    let mut game = sequential_game();
    let answer = game.ask_for_card(0, 1, card("JH"));
    assert_eq!(answer, AskCardResult::GoFish);
    assert_eq!(names(&game.player(0).hand_cards()), "AS JH TS 7H 6S 3H 2S");
    assert_eq!(names(&game.player(1).hand_cards()), "AH KS TH 9S 6H 5S 2H");
    assert_eq!(game.deck_cards().len(), 24);
}

#[test]
fn transfer_moves_the_named_card() {
    let mut game = sequential_game();
    game.transfer_cards(3, 2, card("QS"));
    assert_eq!(names(&game.player(2).hand_cards()), "AD KH 9H 8S 5H 4S");
    assert_eq!(names(&game.player(3).hand_cards()), "KD QH JS 8H 7S 4H 3S QS");
}

#[test]
fn fishing_draws_the_top_card_and_passes_the_turn() {
    let mut game = sequential_game();
    let result = game.perform_turn(0, 1, 1);
    assert_eq!(result, PlayerTurnResult::NextPlayerTurn);
    assert_eq!(names(&game.player(0).hand_cards()), "AS JH TS 7H 6S 3H 2S QD");
    assert_eq!(game.deck_cards().len(), 23);
    assert_eq!(game.deck_cards()[0], card("JD"));
}

#[test]
fn receiving_a_card_lays_down_the_pair() {
    let mut game = sequential_game();
    let result = game.perform_turn(2, 3, 1);
    assert_eq!(result, PlayerTurnResult::PlayAgain);
    assert_eq!(names(&game.player(2).pair_cards()), "KH KD");
    assert_eq!(game.player(2).score(), 1);
    assert_eq!(game.player(2).hand_len(), 6);
    assert_eq!(game.player(3).hand_len(), 6);
    assert_eq!(game.deck_cards().len(), 24);
}

#[test]
fn sequential_mode_picks_first_card_and_next_player() {
    let game = sequential_game();
    assert_eq!(game.get_turn_indices(0), (0, 1));
    assert_eq!(game.get_turn_indices(3), (0, 0));
    assert_eq!(game.next_player_index(3), 0);
}

#[test]
fn random_mode_picks_a_card_of_the_hand_and_another_player() {
    let mut game = GameState::new(4);
    game.deal();
    for _ in 0..200 {
        let (card_index, target) = game.get_turn_indices(2);
        assert!(card_index < 7);
        assert!(target < 4);
        assert_ne!(target, 2);
    }
}

#[test]
fn sequential_games_run_alike() {
    let mut first = sequential_game();
    let mut second = sequential_game();
    let mut seat = 0;
    for _ in 0..200 {
        if first.check_win_condition() != EndGameCondition::Continue {
            break;
        }
        let one = first.play_turn(seat);
        let other = second.play_turn(seat);
        assert_eq!(one, other);
        assert_eq!(every_card(&first), every_card(&second));
        assert_eq!(first.check_win_condition(), second.check_win_condition());
        if one == PlayerTurnResult::NextPlayerTurn {
            seat = first.next_player_index(seat);
        }
    }
    let mut third = sequential_game();
    let mut fourth = sequential_game();
    assert_eq!(run_game(&mut third, 10_000), run_game(&mut fourth, 10_000));
    assert_eq!(every_card(&third), every_card(&fourth));
}

#[test]
fn scores_decide_between_winner_and_tie() {
    assert_eq!(winner_by_scores(&vec![1, 4, 4, 3]), EndGameCondition::Tie(vec![1, 2]));
    assert_eq!(winner_by_scores(&vec![1, 2, 3, 4]), EndGameCondition::Winner(3));
    assert_eq!(winner_by_scores(&vec![5]), EndGameCondition::Winner(0));
    assert_eq!(winner_by_scores(&vec![0, 0, 0]), EndGameCondition::Tie(vec![0, 1, 2]));
    assert_eq!(winner_by_scores(&vec![]), EndGameCondition::Continue);
    assert_eq!(indices_of_max_score(&vec![1, 4, 4, 3]), vec![1, 2]);
    assert_eq!(indices_of_max_score(&vec![]), Vec::<usize>::new());
}

#[test]
fn game_ends_when_a_hand_is_empty() {
    assert_eq!(
        end_of_game(&vec![3, 0, 2, 5], &vec![1, 4, 4, 3]),
        EndGameCondition::Tie(vec![1, 2])
    );
    assert_eq!(end_of_game(&vec![3, 1, 0, 0], &vec![1, 2, 3, 4]), EndGameCondition::Winner(3));
    assert_eq!(end_of_game(&vec![3, 1, 2, 5], &vec![1, 4, 4, 3]), EndGameCondition::Continue);
    assert_eq!(end_of_game(&vec![3, 1, 2, 5], &vec![1, 2, 3, 4]), EndGameCondition::Continue);
    assert_eq!(end_of_game(&vec![], &vec![]), EndGameCondition::Continue);
}

#[test]
fn game_state_reports_scores_and_leaders() {
    let mut game = sequential_game();
    assert_eq!(game.check_win_condition(), EndGameCondition::Continue);
    assert_eq!(game.indices_of_max_score_players(), vec![0, 1, 2, 3]);
    assert_eq!(game.determine_winner(), EndGameCondition::Continue);
    game.play_turn(0);
    assert_eq!(game.indices_of_max_score_players(), vec![0]);
    assert_eq!(game.determine_winner(), EndGameCondition::Continue);
    assert_eq!(game.check_win_condition(), EndGameCondition::Continue);
}

#[test]
fn no_winner_while_every_hand_holds_cards() {
    let mut game = GameState::new_with_deck(4, Deck::standard(), GameMode::Sequential);
    game.deal();
    assert_eq!(game.determine_winner(), EndGameCondition::Continue);
    game.players_match_cards();
    for seat in 0..4 {
        assert_eq!(game.player(seat).hand_len(), 7);
    }
    assert_eq!(game.determine_winner(), EndGameCondition::Continue);
}

#[test]
fn winner_is_named_once_a_hand_is_empty() {
    let fresh = GameState::new_with_deck(3, Deck::standard(), GameMode::Sequential);
    assert_eq!(fresh.determine_winner(), EndGameCondition::Tie(vec![0, 1, 2]));
    let mut game = sequential_game();
    run_game(&mut game, 10_000);
    assert!((0..4).any(|seat| game.player(seat).hand_len() == 0));
    assert_eq!(game.determine_winner(), EndGameCondition::Winner(2));
    assert_eq!(game.indices_of_max_score_players(), vec![2]);
}

#[test]
fn full_game_ends_with_pairs_twice_the_score() {
    let mut game = sequential_game();
    let result = run_game(&mut game, 10_000);
    assert_eq!(result, EndGameCondition::Winner(2));
    let winner = game.player(2);
    assert_eq!(winner.score(), 8);
    assert_eq!(winner.pair_cards().len(), 16);
    for seat in 0..4 {
        let player = game.player(seat);
        assert_eq!(player.pair_cards().len() % 2, 0);
        assert_eq!(player.pair_cards().len(), 2 * player.score() as usize);
    }
}

#[test]
fn run_game_stops_at_the_cap() {
    let mut game = sequential_game();
    assert_eq!(run_game(&mut game, 0), EndGameCondition::Continue);
    assert_eq!(names(&game.player(0).hand_cards()), "AS JH TS 7H 6S 3H 2S");
    assert_eq!(run_game(&mut game, 1), EndGameCondition::Continue);
    assert_eq!(names(&game.player(0).pair_cards()), "AS AH");
}

#[test]
fn random_numbers_stay_in_range() {
    for _ in 0..200 {
        let n = get_random(3..6);
        assert!(3 <= n && n < 6);
    }
    assert_eq!(get_random(4..5), 4);
    assert_eq!(get_random(7..7), 7);
    assert_eq!(get_random(9..2), 9);
}

#[test]
fn excluded_number_never_comes() {
    let mut seen = [false; 4];
    for _ in 0..400 {
        let n = get_random_excluding(0..4, 2);
        assert!(n < 4);
        assert_ne!(n, 2);
        seen[n] = true;
    }
    assert_eq!(seen, [true, true, false, true]);
    assert_eq!(get_random_excluding(0..2, 0), 1);
    assert_eq!(get_random_excluding(5..6, 9), 5);
}

#[test]
fn skip_excluded_steps_over_the_number() {
    assert_eq!(skip_excluded(0, 2), 0);
    assert_eq!(skip_excluded(1, 2), 1);
    assert_eq!(skip_excluded(2, 2), 3);
    assert_eq!(skip_excluded(3, 2), 4);
    assert_eq!(skip_excluded(0, 0), 1);
}
