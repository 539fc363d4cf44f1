use rust_go_fish::{find_pair, get_random, get_random_excluding, run_game};
use rust_go_fish::{Card, Deck, EndGameCondition, GameMode, GameState, Player, PlayerTurnResult};

fn card_from_index(index: &str) -> Card {
    let mut symbols = index.chars();
    Card { rank: symbols.next().unwrap(), suit: symbols.next().unwrap() }
}

fn pile_from_index(index: &str) -> Vec<Card> {
    index.split_whitespace().map(card_from_index).collect()
}

fn to_index_str(cards: &Vec<Card>) -> String {
    let names: Vec<String> = cards.iter().map(|c| format!("{}{}", c.rank, c.suit)).collect();
    names.join(" ")
}

fn setup() -> GameState {
    let mut game = GameState::new_with_deck(4, Deck::standard(), GameMode::Sequential);
    game.deal();
    game.players_match_cards();
    game
}

#[test]
#[allow(unused_comparisons)]
fn test_get_random() {
    let num = get_random(0..10);
    assert!(num >= 0 && num < 10);
}

#[test]
#[allow(unused_comparisons)]
fn test_get_random_with_empty_range() {
    let num = get_random(0..0);
    assert!(num >= 0 && num < 10);
}

#[test]
fn test_get_random_excluding() {
    let num = get_random_excluding(0..10, 5);
    assert_ne!(num, 5);
}

#[test]
fn test_find_pair() {
    let pile = pile_from_index("2S 2D QS KH 3C 3S");
    let result = find_pair(&pile).unwrap();

    assert_eq!(result, (card_from_index("2S"), card_from_index("2D")));
}

#[test]
fn test_player_answer_for_card_rank_in_hand() {
    let pile = pile_from_index("2S 2D QS KH 3C 3S");
    let mut player = Player::new();
    player.add_cards(pile);
    let result = player.answer_for_card_rank('2').unwrap();

    assert_eq!(result, card_from_index("2S"));
}

#[test]
fn test_player_answer_for_card_rank_not_in_hand() {
    let pile = pile_from_index("2S 2D QS KH 3C 3S");
    let mut player = Player::new();
    player.add_cards(pile);
    let result = player.answer_for_card_rank('J');
    assert_eq!(result, None);
}

#[test]
fn test_player_match_pairs() {
    let pile = pile_from_index("2S 2D QS KH 3C 3S");
    let mut player = Player::new();
    player.add_cards(pile);
    let result = player.match_pairs();
    assert_eq!(result, 2);
    assert_eq!(player.hand_len(), 2);
    assert_eq!(player.pair_cards().len(), 4);
}

#[test]
fn test_setup_game() {
    let game = setup();
    assert_eq!(game.player_count(), 4);
    assert_eq!(game.player(0).hand_len(), 7);

    assert_eq!(to_index_str(&game.player(0).hand_cards()), "AS JH TS 7H 6S 3H 2S");
    assert_eq!(to_index_str(&game.player(1).hand_cards()), "AH KS TH 9S 6H 5S 2H");
    assert_eq!(to_index_str(&game.player(2).hand_cards()), "AD KH QS 9H 8S 5H 4S");
    assert_eq!(to_index_str(&game.player(3).hand_cards()), "KD QH JS 8H 7S 4H 3S");
}

#[test]
fn test_player_ask_for_card() {
    let mut game = setup();
    let card = card_from_index("6S");
    let current_player_index = 0;
    let answering_player_index = 1;
    let _player_turn_result =
        game.ask_for_card(current_player_index, answering_player_index, card);
    assert_eq!(game.player(current_player_index).hand_len(), 8);
    game.players_match_cards();
    assert_eq!(game.player(current_player_index).pair_cards().len(), 2);
}

#[test]
fn test_game_play_turn() {
    let mut game = setup();
    let current_player_index = 0;
    let _player_turn_result = game.play_turn(current_player_index);

    assert_eq!(game.player(current_player_index).hand_len(), 6);
    game.players_match_cards();
    assert_eq!(game.player(current_player_index).pair_cards().len(), 2);
}

#[test]
fn test_run_game() {
    let mut game = setup();
    let result = run_game(&mut game, 10_000);
    match result {
        EndGameCondition::Winner(winner_index) => {
            assert_eq!(winner_index, 2);
            assert_eq!(game.player(winner_index).score(), 8);
            assert_eq!(
                to_index_str(&game.player(winner_index).pair_cards()),
                "AD AC QS QH 8S 8H 5H 5D 4S 4H 2D 2C JS JC 3S 3C"
            );
        },
        EndGameCondition::Tie(_tie_indices) => {},
        EndGameCondition::Continue => {},
    }
}

#[test]
fn test_game_next_player_index() {
    let game = setup();
    let next_player_index = game.next_player_index(0);
    assert_eq!(next_player_index, 1);
}

#[test]
fn run_game_names_player_two_the_winner() {
    let mut game = setup();
    let result = run_game(&mut game, 10_000);
    assert_eq!(result, EndGameCondition::Winner(2));
    assert_eq!(game.check_win_condition(), EndGameCondition::Winner(2));
}

#[test]
fn play_turn_in_sequential_mode_receives_and_plays_again() {
    let mut game = setup();
    let result = game.play_turn(0);
    assert_eq!(result, PlayerTurnResult::PlayAgain);
    assert_eq!(to_index_str(&game.player(0).pair_cards()), "AS AH");
    assert_eq!(game.player(0).score(), 1);
    assert_eq!(to_index_str(&game.player(1).hand_cards()), "KS TH 9S 6H 5S 2H");
}
