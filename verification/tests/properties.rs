use poker::Card;
use poker::DealerError;
use poker::FiveDrawDealer;
use poker::Game;
use poker::GameSession;
use poker::Player;
use poker::Suit;
use poker::Value;
use poker::eval::compare_hands;
use poker::eval::evaluate_hand;

fn card(suit: Suit, value: Value) -> Card {
    Card { suit, value }
}

fn hand(cards: [Card; 5]) -> Vec<Card> {
    vec![cards[0], cards[1], cards[2], cards[3], cards[4]]
}

/// Conservation: deck plus hands hold 52 cards before and after every deal.
#[test]
fn deal_card_conserves_fifty_two() {
    let mut dealer = FiveDrawDealer::new();
    let mut player = Player::new("Solo".to_owned(), 1, 100);
    dealer.create_deck();
    assert_eq!(dealer.deck.len() + player.get_hand().len(), 52);
    for _ in 0..10 {
        let dealt = dealer.deal_card(&mut player);
        assert!(dealt.is_ok());
        assert_eq!(dealer.deck.len() + player.get_hand().len(), 52);
    }
}

/// No card value appears twice across all hands and the deck after a deal.
#[test]
fn deal_initial_hand_no_duplicates() {
    let mut dealer = FiveDrawDealer::new();
    dealer.add_player(Player::new("A".to_owned(), 1, 100));
    dealer.add_player(Player::new("B".to_owned(), 2, 100));
    dealer.add_player(Player::new("C".to_owned(), 3, 100));
    let dealt = dealer.deal_initial_hand();
    assert!(dealt.is_ok());

    let mut in_play: Vec<Card> = Vec::new();
    for p in dealer.players.iter() {
        assert_eq!(p.get_hand().len(), 5);
        in_play.extend(p.get_hand().iter().cloned());
    }
    in_play.extend(dealer.deck.iter().cloned());
    assert_eq!(in_play.len(), 52);
    for i in 0..in_play.len() {
        for j in 0..i {
            assert!(in_play[i] != in_play[j]);
        }
    }
}

/// The evaluator is deterministic: the same five cards give the same key.
#[test]
fn evaluate_hand_deterministic() {
    let h = hand([
        card(Suit::Hearts, Value::Two),
        card(Suit::Diamonds, Value::Two),
        card(Suit::Clubs, Value::Five),
        card(Suit::Spades, Value::Nine),
        card(Suit::Hearts, Value::King),
    ]);
    let first = evaluate_hand(&h).unwrap();
    let second = evaluate_hand(&h).unwrap();
    assert_eq!(first, second);
}

/// A pair of twos with a king kicker: category 2, tiebreak pair rank first.
#[test]
fn evaluate_hand_pair_key() {
    let h = hand([
        card(Suit::Hearts, Value::Two),
        card(Suit::Diamonds, Value::Two),
        card(Suit::Clubs, Value::Five),
        card(Suit::Spades, Value::Nine),
        card(Suit::Hearts, Value::King),
    ]);
    let (cat, tb) = evaluate_hand(&h).unwrap();
    assert_eq!(cat, 2);
    // Profile: the pair first, then the kickers descending; then all five
    // strengths descending.
    assert_eq!(tb, vec![2, 13, 9, 5, 13, 9, 5, 2, 2]);
}

/// Category monotonicity: royal flush over straight flush, four of a kind
/// over full house.
#[test]
fn category_monotonicity() {
    let royal = hand([
        card(Suit::Hearts, Value::Ten),
        card(Suit::Hearts, Value::Jack),
        card(Suit::Hearts, Value::Queen),
        card(Suit::Hearts, Value::King),
        card(Suit::Hearts, Value::Ace),
    ]);
    let straight_flush = hand([
        card(Suit::Spades, Value::Nine),
        card(Suit::Spades, Value::Ten),
        card(Suit::Spades, Value::Jack),
        card(Suit::Spades, Value::Queen),
        card(Suit::Spades, Value::King),
    ]);
    let quads = hand([
        card(Suit::Hearts, Value::Seven),
        card(Suit::Diamonds, Value::Seven),
        card(Suit::Clubs, Value::Seven),
        card(Suit::Spades, Value::Seven),
        card(Suit::Hearts, Value::Two),
    ]);
    let full_house = hand([
        card(Suit::Hearts, Value::Ace),
        card(Suit::Diamonds, Value::Ace),
        card(Suit::Clubs, Value::Ace),
        card(Suit::Spades, Value::King),
        card(Suit::Hearts, Value::King),
    ]);
    assert_eq!(evaluate_hand(&royal).unwrap().0, 10);
    assert_eq!(evaluate_hand(&straight_flush).unwrap().0, 9);
    assert_eq!(evaluate_hand(&quads).unwrap().0, 8);
    assert_eq!(evaluate_hand(&full_house).unwrap().0, 7);
    assert_eq!(compare_hands(&royal, &straight_flush).unwrap(), std::cmp::Ordering::Greater);
    assert_eq!(compare_hands(&quads, &full_house).unwrap(), std::cmp::Ordering::Greater);
    assert_eq!(compare_hands(&full_house, &quads).unwrap(), std::cmp::Ordering::Less);
}

/// A straight flush beats a plain straight over the same rank span.
#[test]
fn straight_flush_beats_straight() {
    let straight_flush = hand([
        card(Suit::Hearts, Value::Ten),
        card(Suit::Hearts, Value::Jack),
        card(Suit::Hearts, Value::Queen),
        card(Suit::Hearts, Value::King),
        card(Suit::Hearts, Value::Ace),
    ]);
    let straight = hand([
        card(Suit::Spades, Value::Ten),
        card(Suit::Diamonds, Value::Jack),
        card(Suit::Clubs, Value::Queen),
        card(Suit::Hearts, Value::King),
        card(Suit::Spades, Value::Ace),
    ]);
    assert_eq!(evaluate_hand(&straight).unwrap().0, 5);
    assert_eq!(compare_hands(&straight_flush, &straight).unwrap(), std::cmp::Ordering::Greater);
}

/// The wheel is a straight, and it ranks below every higher straight: the
/// ace plays low in its tiebreak.
#[test]
fn wheel_is_lowest_straight() {
    let wheel = hand([
        card(Suit::Hearts, Value::Ace),
        card(Suit::Diamonds, Value::Two),
        card(Suit::Clubs, Value::Three),
        card(Suit::Spades, Value::Four),
        card(Suit::Hearts, Value::Five),
    ]);
    let six_high = hand([
        card(Suit::Hearts, Value::Two),
        card(Suit::Diamonds, Value::Three),
        card(Suit::Clubs, Value::Four),
        card(Suit::Spades, Value::Five),
        card(Suit::Hearts, Value::Six),
    ]);
    let (cat, tb) = evaluate_hand(&wheel).unwrap();
    assert_eq!(cat, 5);
    assert_eq!(tb, vec![5, 4, 3, 2, 1, 5, 4, 3, 2, 1]);
    assert_eq!(compare_hands(&six_high, &wheel).unwrap(), std::cmp::Ordering::Greater);

    // An ace-low straight flush stays at category 9, not a royal flush.
    let steel_wheel = hand([
        card(Suit::Clubs, Value::Ace),
        card(Suit::Clubs, Value::Two),
        card(Suit::Clubs, Value::Three),
        card(Suit::Clubs, Value::Four),
        card(Suit::Clubs, Value::Five),
    ]);
    assert_eq!(evaluate_hand(&steel_wheel).unwrap().0, 9);
}

/// The winner set of an empty roster is empty; a lone player wins alone.
#[test]
fn winner_set_empty_and_single() {
    let dealer = FiveDrawDealer::new();
    assert_eq!(dealer.check_for_winning_hand().len(), 0);

    let mut dealer = FiveDrawDealer::new();
    dealer.add_player(Player::new("Only".to_owned(), 1, 100));
    dealer.players[0].add_card(card(Suit::Hearts, Value::Two));
    dealer.players[0].add_card(card(Suit::Diamonds, Value::Seven));
    dealer.players[0].add_card(card(Suit::Clubs, Value::Nine));
    dealer.players[0].add_card(card(Suit::Spades, Value::Jack));
    dealer.players[0].add_card(card(Suit::Hearts, Value::King));
    let winner = dealer.check_for_winning_hand();
    assert_eq!(winner.len(), 1);
    assert_eq!(winner[0].get_name(), "Only");
}

/// A fresh, unshuffled deck yields exactly 52 cards and then `EmptyDeck`.
#[test]
fn deck_exhausts_after_fifty_two_draws() {
    let mut dealer = FiveDrawDealer::new();
    let mut player = Player::new("Drawer".to_owned(), 1, 100);
    dealer.create_deck();
    for _ in 0..52 {
        assert!(dealer.deal_card(&mut player).is_ok());
    }
    assert_eq!(player.get_hand().len(), 52);
    assert_eq!(dealer.deck.len(), 0);
    assert_eq!(dealer.deal_card(&mut player), Err(DealerError::EmptyDeck));
}

/// The evaluator refuses any hand that is not exactly five cards.
#[test]
fn evaluate_hand_wrong_size() {
    let four = vec![
        card(Suit::Hearts, Value::Two),
        card(Suit::Diamonds, Value::Three),
        card(Suit::Clubs, Value::Four),
        card(Suit::Spades, Value::Five),
    ];
    assert_eq!(evaluate_hand(&four), Err(DealerError::InvalidHandSize));
    let six = vec![
        card(Suit::Hearts, Value::Two),
        card(Suit::Diamonds, Value::Three),
        card(Suit::Clubs, Value::Four),
        card(Suit::Spades, Value::Five),
        card(Suit::Hearts, Value::Six),
        card(Suit::Diamonds, Value::Seven),
    ];
    assert_eq!(evaluate_hand(&six), Err(DealerError::InvalidHandSize));
    assert_eq!(compare_hands(&four, &six), Err(DealerError::InvalidHandSize));
}

/// Dealing needs at least two seated players.
#[test]
fn deal_initial_hand_insufficient_players() {
    let mut dealer = FiveDrawDealer::new();
    assert_eq!(dealer.deal_initial_hand(), Err(DealerError::InsufficientPlayers));
    dealer.add_player(Player::new("Lone".to_owned(), 1, 100));
    assert_eq!(dealer.deal_initial_hand(), Err(DealerError::InsufficientPlayers));
    assert_eq!(dealer.players[0].get_hand().len(), 0);
}

/// The shuffle keeps the deck a permutation of the 52-card universe.
#[test]
fn shuffle_keeps_every_card() {
    let mut dealer = FiveDrawDealer::new();
    dealer.create_deck();
    let before = dealer.deck.clone();
    dealer.shuffle();
    assert_eq!(dealer.deck.len(), 52);
    for c in before.iter() {
        assert!(dealer.deck.contains(c));
    }
}

/// A full round: blinds advance, everyone is active with five cards.
#[test]
fn start_game_round_state() {
    let mut dealer = FiveDrawDealer::new();
    dealer.add_player(Player::new("A".to_owned(), 1, 100));
    dealer.add_player(Player::new("B".to_owned(), 2, 100));
    dealer.add_player(Player::new("C".to_owned(), 3, 100));
    dealer.start_game();
    assert_eq!(dealer.round, 1);
    // The previous big blind seat was 1, over three players.
    assert_eq!(dealer.small_blind, 1);
    assert_eq!(dealer.big_blind, 2);
    assert_eq!(dealer.last_bet_player, 2);
    assert_eq!(dealer.current_player, 0);
    assert_eq!(dealer.deck.len(), 52 - 15);
    for p in dealer.players.iter() {
        assert!(p.is_active());
        assert_eq!(p.get_hand().len(), 5);
    }
}

/// One exact category value for every tier of the hierarchy.
#[test]
fn all_ten_categories() {
    let high_card = hand([
        card(Suit::Hearts, Value::Two),
        card(Suit::Diamonds, Value::Five),
        card(Suit::Clubs, Value::Seven),
        card(Suit::Spades, Value::Jack),
        card(Suit::Hearts, Value::King),
    ]);
    let one_pair = hand([
        card(Suit::Hearts, Value::Two),
        card(Suit::Diamonds, Value::Two),
        card(Suit::Clubs, Value::Seven),
        card(Suit::Spades, Value::Jack),
        card(Suit::Hearts, Value::King),
    ]);
    let two_pair = hand([
        card(Suit::Hearts, Value::Two),
        card(Suit::Diamonds, Value::Two),
        card(Suit::Clubs, Value::Jack),
        card(Suit::Spades, Value::Jack),
        card(Suit::Hearts, Value::King),
    ]);
    let trips = hand([
        card(Suit::Hearts, Value::Two),
        card(Suit::Diamonds, Value::Two),
        card(Suit::Clubs, Value::Two),
        card(Suit::Spades, Value::Jack),
        card(Suit::Hearts, Value::King),
    ]);
    let straight = hand([
        card(Suit::Hearts, Value::Eight),
        card(Suit::Diamonds, Value::Nine),
        card(Suit::Clubs, Value::Ten),
        card(Suit::Spades, Value::Jack),
        card(Suit::Hearts, Value::Queen),
    ]);
    let flush = hand([
        card(Suit::Clubs, Value::Two),
        card(Suit::Clubs, Value::Five),
        card(Suit::Clubs, Value::Seven),
        card(Suit::Clubs, Value::Jack),
        card(Suit::Clubs, Value::King),
    ]);
    let full_house = hand([
        card(Suit::Hearts, Value::Two),
        card(Suit::Diamonds, Value::Two),
        card(Suit::Clubs, Value::Two),
        card(Suit::Spades, Value::Jack),
        card(Suit::Hearts, Value::Jack),
    ]);
    let quads = hand([
        card(Suit::Hearts, Value::Two),
        card(Suit::Diamonds, Value::Two),
        card(Suit::Clubs, Value::Two),
        card(Suit::Spades, Value::Two),
        card(Suit::Hearts, Value::King),
    ]);
    let straight_flush = hand([
        card(Suit::Diamonds, Value::Eight),
        card(Suit::Diamonds, Value::Nine),
        card(Suit::Diamonds, Value::Ten),
        card(Suit::Diamonds, Value::Jack),
        card(Suit::Diamonds, Value::Queen),
    ]);
    let royal_flush = hand([
        card(Suit::Spades, Value::Ten),
        card(Suit::Spades, Value::Jack),
        card(Suit::Spades, Value::Queen),
        card(Suit::Spades, Value::King),
        card(Suit::Spades, Value::Ace),
    ]);
    assert_eq!(evaluate_hand(&high_card).unwrap().0, 1);
    assert_eq!(evaluate_hand(&one_pair).unwrap().0, 2);
    assert_eq!(evaluate_hand(&two_pair).unwrap().0, 3);
    assert_eq!(evaluate_hand(&trips).unwrap().0, 4);
    assert_eq!(evaluate_hand(&straight).unwrap().0, 5);
    assert_eq!(evaluate_hand(&flush).unwrap().0, 6);
    assert_eq!(evaluate_hand(&full_house).unwrap().0, 7);
    assert_eq!(evaluate_hand(&quads).unwrap().0, 8);
    assert_eq!(evaluate_hand(&straight_flush).unwrap().0, 9);
    assert_eq!(evaluate_hand(&royal_flush).unwrap().0, 10);
}

/// Within one category the tiebreak decides: the higher pair wins, and among
/// equal pairs the kicker does.
#[test]
fn tiebreak_pair_and_kicker() {
    let aces = hand([
        card(Suit::Hearts, Value::Ace),
        card(Suit::Diamonds, Value::Ace),
        card(Suit::Clubs, Value::Ace),
        card(Suit::Spades, Value::Two),
        card(Suit::Hearts, Value::Three),
    ]);
    let kings = hand([
        card(Suit::Hearts, Value::King),
        card(Suit::Diamonds, Value::King),
        card(Suit::Clubs, Value::King),
        card(Suit::Spades, Value::Queen),
        card(Suit::Hearts, Value::Jack),
    ]);
    assert_eq!(compare_hands(&aces, &kings).unwrap(), std::cmp::Ordering::Greater);

    let pair_ace_kicker = hand([
        card(Suit::Hearts, Value::Seven),
        card(Suit::Diamonds, Value::Seven),
        card(Suit::Clubs, Value::Ace),
        card(Suit::Spades, Value::Four),
        card(Suit::Hearts, Value::Three),
    ]);
    let pair_king_kicker = hand([
        card(Suit::Clubs, Value::Seven),
        card(Suit::Spades, Value::Seven),
        card(Suit::Hearts, Value::King),
        card(Suit::Diamonds, Value::Four),
        card(Suit::Clubs, Value::Three),
    ]);
    assert_eq!(
        compare_hands(&pair_ace_kicker, &pair_king_kicker).unwrap(),
        std::cmp::Ordering::Greater
    );

    let twin = hand([
        card(Suit::Clubs, Value::Seven),
        card(Suit::Spades, Value::Seven),
        card(Suit::Hearts, Value::Ace),
        card(Suit::Diamonds, Value::Four),
        card(Suit::Clubs, Value::Three),
    ]);
    assert_eq!(compare_hands(&pair_ace_kicker, &twin).unwrap(), std::cmp::Ordering::Equal);
}

#[test]
fn game_roster_and_session() {
    let a = Player::new("A".to_owned(), 1, 100);
    let b = Player::new("B".to_owned(), 2, 100);
    let mut game = Game::new(9, Vec::new());
    game.add_player(a);
    game.add_player(b);
    assert_eq!(game.get_players().len(), 2);
    game.remove_player(Player::new("A".to_owned(), 7, 0));
    assert_eq!(game.get_players().len(), 1);
    assert_eq!(game.get_players()[0].get_name(), "B");

    game.set_total_chips(300);
    assert_eq!(game.get_total_chips(), 300);
    game.add_winning_player(Player::new("B".to_owned(), 2, 100));
    assert_eq!(game.get_winning_players().len(), 1);

    let mut session = GameSession::new(4);
    assert!(session.get_current_game().is_none());
    session.start_game(vec![Player::new("A".to_owned(), 1, 100)]);
    assert!(session.get_current_game().is_some());
    assert_eq!(session.get_current_game().unwrap().get_players().len(), 1);
    session.end_game();
    assert!(session.get_current_game().is_none());
    assert_eq!(session.get_games().len(), 1);
}
