use poker::Card;
use poker::Player;
use poker::Suit;
use poker::Value;

#[test]
fn test_player_new() {
    let player = Player::new("John".to_owned(), 1, 1000);
    assert_eq!(player.get_name(), "John");
    assert_eq!(player.get_total_chips(), 1000);
    assert_eq!(player.is_active(), false);
}

#[test]
fn player_chips_and_stats() {
    let mut player = Player::new("Ann".to_owned(), 7, 500);
    player.add_chips(250);
    assert_eq!(player.get_total_chips(), 750);
    player.remove_chips(100);
    assert_eq!(player.get_total_chips(), 650);

    player.game_won(50);
    assert_eq!(player.get_total_chips(), 700);
    assert_eq!(player.get_stats().games_won, 1);
    assert_eq!(player.get_stats().games_played, 1);
    assert_eq!(player.get_stats().total_chips_won, 50);

    player.game_lost();
    player.game_folded();
    assert_eq!(player.get_stats().games_lost, 1);
    assert_eq!(player.get_stats().games_folded, 1);
    assert_eq!(player.get_stats().games_played, 3);

    player.reset_stats();
    assert_eq!(player.get_stats().games_played, 0);
    assert_eq!(player.get_stats().games_won, 0);
    assert_eq!(player.get_stats().games_lost, 0);
    assert_eq!(player.get_stats().games_folded, 0);
    assert_eq!(player.get_stats().total_chips_won, 0);
    // The chip stack survives a statistics reset.
    assert_eq!(player.get_total_chips(), 700);
}

#[test]
fn player_hand_cards() {
    let mut player = Player::new("Bea".to_owned(), 2, 100);
    assert_eq!(player.get_hand().len(), 0);
    player.add_card(Card { suit: Suit::Hearts, value: Value::Two });
    player.add_card(Card { suit: Suit::Spades, value: Value::Ace });
    assert_eq!(player.get_hand().len(), 2);

    // Removing a card that is not there reports false and changes nothing.
    assert!(!player.remove_card(Suit::Clubs, Value::Ten));
    assert_eq!(player.get_hand().len(), 2);

    // Removing a held card takes out exactly its first occurrence.
    assert!(player.remove_card(Suit::Hearts, Value::Two));
    assert_eq!(player.get_hand().len(), 1);
    assert_eq!(player.get_hand()[0], Card { suit: Suit::Spades, value: Value::Ace });

    player.clear_hand();
    assert_eq!(player.get_hand().len(), 0);

    player.set_active(true);
    assert!(player.is_active());
}

#[test]
fn value_rank_strengths() {
    assert_eq!(Value::Two.rank(), 2);
    assert_eq!(Value::Three.rank(), 3);
    assert_eq!(Value::Four.rank(), 4);
    assert_eq!(Value::Five.rank(), 5);
    assert_eq!(Value::Six.rank(), 6);
    assert_eq!(Value::Seven.rank(), 7);
    assert_eq!(Value::Eight.rank(), 8);
    assert_eq!(Value::Nine.rank(), 9);
    assert_eq!(Value::Ten.rank(), 10);
    assert_eq!(Value::Jack.rank(), 11);
    assert_eq!(Value::Queen.rank(), 12);
    assert_eq!(Value::King.rank(), 13);
    assert_eq!(Value::Ace.rank(), 14);
}
