//! The five-card-draw dealer: the deck, the roster, the per-round blind and
//! turn bookkeeping, and winner determination at showdown.

use vstd::prelude::*;
use vstd::multiset::Multiset;

use crate::card::Card;
use crate::card::Suit;
use crate::card::Value;
use crate::eval::category;
use crate::eval::hand_le;
use crate::eval::key_le;
use crate::eval::tiebreak;
use crate::player::Player;
use crate::player::same_player_but_hand;
use crate::player::same_player_but_hand_and_active;

verus! {

/// The dealer's caller-visible failures.
#[derive(Clone, Copy, PartialEq, Eq, Structural, Debug)]
pub enum DealerError {
    /// A draw was attempted with no cards left in the deck.
    EmptyDeck,
    /// The evaluator was handed other than five cards.
    InvalidHandSize,
    /// Dealing was attempted with fewer than two seated players.
    InsufficientPlayers,
}

/// The suit of the given quarter of the fresh deck.
pub open spec fn suit_index(i: int) -> Suit {
    if i == 0 {
        Suit::Hearts
    } else if i == 1 {
        Suit::Diamonds
    } else if i == 2 {
        Suit::Clubs
    } else {
        Suit::Spades
    }
}

/// The face value at the given position of one suit's ascending run.
pub open spec fn value_index(i: int) -> Value {
    if i == 0 {
        Value::Two
    } else if i == 1 {
        Value::Three
    } else if i == 2 {
        Value::Four
    } else if i == 3 {
        Value::Five
    } else if i == 4 {
        Value::Six
    } else if i == 5 {
        Value::Seven
    } else if i == 6 {
        Value::Eight
    } else if i == 7 {
        Value::Nine
    } else if i == 8 {
        Value::Ten
    } else if i == 9 {
        Value::Jack
    } else if i == 10 {
        Value::Queen
    } else if i == 11 {
        Value::King
    } else {
        Value::Ace
    }
}

/// The card at the given position of the fresh deck: suit-major,
/// rank-ascending.
pub open spec fn deck_card(i: int) -> Card {
    Card { suit: suit_index(i / 13), value: value_index(i % 13) }
}

/// The full 52-card universe in its canonical order.
pub open spec fn full_deck() -> Seq<Card> {
    Seq::new(52, |i: int| deck_card(i))
}

/// Every card held in the players' hands, counted with multiplicity.
pub open spec fn hands_cards(players: Seq<Player>) -> Multiset<Card>
    decreases players.len(),
{
    if players.len() == 0 {
        Multiset::empty()
    } else {
        hands_cards(players.drop_last()).add(players.last().hand@.to_multiset())
    }
}

/// The total number of cards held in the players' hands.
pub open spec fn total_hand_len(players: Seq<Player>) -> nat
    decreases players.len(),
{
    if players.len() == 0 {
        0
    } else {
        total_hand_len(players.drop_last()) + players.last().hand@.len()
    }
}

/// The player's hand is at least as strong as every hand at the table.
pub open spec fn beats_all(players: Seq<Player>, p: Player) -> bool {
    forall|j: int| 0 <= j < players.len() ==> hand_le((#[trigger] players[j]).hand@, p.hand@)
}

/// The players holding a maximal hand, in seat order.
pub open spec fn winners(players: Seq<Player>) -> Seq<Player> {
    players.filter(|p: Player| beats_all(players, p))
}

/// The dealer of a five-card-draw table.
pub struct FiveDrawDealer {
    pub deck: Vec<Card>,
    pub cards_in_deck: u32,
    pub small_blind: u32,
    pub big_blind: u32,
    pub dealer_hand: Vec<Card>,
    pub players: Vec<Player>,
    pub pot: u32,
    pub current_bet: u32,
    pub current_player: u32,
    pub last_bet_player: u32,
    pub round: u32,
}

impl FiveDrawDealer {
    /// The redundant remaining-count agrees with the deck itself.
    pub open spec fn count_ok(self) -> bool {
        self.cards_in_deck == self.deck@.len()
    }

    /// Every card in play: the undealt deck together with every hand.
    pub open spec fn cards_in_play(self) -> Multiset<Card> {
        self.deck@.to_multiset().add(hands_cards(self.players@))
    }

    /// The round bookkeeping fields agree between the two dealer states.
    pub open spec fn same_round_fields(a: FiveDrawDealer, b: FiveDrawDealer) -> bool {
        &&& a.small_blind == b.small_blind
        &&& a.big_blind == b.big_blind
        &&& a.dealer_hand == b.dealer_hand
        &&& a.pot == b.pot
        &&& a.current_bet == b.current_bet
        &&& a.current_player == b.current_player
        &&& a.last_bet_player == b.last_bet_player
        &&& a.round == b.round
    }

    /// A fresh table: no deck built yet, no players, the blinds at their
    /// starting seats. The remaining-count starts at 52 and only becomes
    /// meaningful once `create_deck` builds the deck.
    pub fn new() -> (d: FiveDrawDealer)
        ensures
            d.deck@.len() == 0,
            d.players@.len() == 0,
            d.dealer_hand@.len() == 0,
            d.pot == 0,
            d.small_blind == 0,
            d.big_blind == 1,
            d.current_bet == 0,
            d.current_player == 0,
            d.round == 0,
            d.last_bet_player == 0,
            d.cards_in_deck == 52,
    {
        FiveDrawDealer {
            deck: Vec::new(),
            players: Vec::new(),
            dealer_hand: Vec::new(),
            pot: 0,
            small_blind: 0,
            big_blind: 1,
            current_bet: 0,
            current_player: 0,
            round: 0,
            last_bet_player: 0,
            cards_in_deck: 52,
        }
    }

    /// Resets the deck to the 52-card universe in its canonical order and the
    /// remaining-count to 52. Nothing else changes.
    pub fn create_deck(&mut self)
        ensures
            final(self).deck@ == full_deck(),
            final(self).cards_in_deck == 52,
            final(self).count_ok(),
            final(self).players == old(self).players,
            Self::same_round_fields(*final(self), *old(self)),
    {
        self.deck.clear();
        let mut i: usize = 0;
        while i < 52
            invariant
                i <= 52,
                self.deck@.len() == i,
                forall|j: int| 0 <= j < i ==> self.deck@[j] == deck_card(j),
                self.players == old(self).players,
                self.cards_in_deck == old(self).cards_in_deck,
                Self::same_round_fields(*self, *old(self)),
            decreases 52 - i,
        {
            let s = suit_of_index(i / 13);
            let v = value_of_index(i % 13);
            self.deck.push(Card { suit: s, value: v });
            i = i + 1;
        }
        proof {
            assert(self.deck@ =~= full_deck());
        }
        self.cards_in_deck = 52;
    }

    /// Randomly permutes the undealt deck: exactly the cards that were in it
    /// remain in it, in an order this contract leaves open.
    pub fn shuffle(&mut self)
        ensures
            final(self).deck@.to_multiset() == old(self).deck@.to_multiset(),
            final(self).deck@.len() == old(self).deck@.len(),
            final(self).cards_in_deck == old(self).cards_in_deck,
            final(self).players == old(self).players,
            Self::same_round_fields(*final(self), *old(self)),
    {
        shuffle_cards(&mut self.deck);
    }

    /// Moves the top card of the deck into the player's hand, or fails with
    /// `EmptyDeck` exactly when no cards remain; either way the total of deck
    /// and hand is conserved, card for card.
    pub fn deal_card(&mut self, player: &mut Player) -> (r: Result<Card, DealerError>)
        requires
            old(self).count_ok(),
        ensures
            final(self).count_ok(),
            old(self).deck@.len() == 0 ==> r == Err::<Card, DealerError>(DealerError::EmptyDeck)
                && *final(self) == *old(self) && *final(player) == *old(player),
            old(self).deck@.len() > 0 ==> {
                &&& r == Ok::<Card, DealerError>(old(self).deck@[0])
                &&& final(self).deck@ == old(self).deck@.skip(1)
                &&& final(player).hand@ == old(player).hand@.push(old(self).deck@[0])
                &&& same_player_but_hand(*old(player), *final(player))
                &&& final(self).players == old(self).players
                &&& Self::same_round_fields(*final(self), *old(self))
            },
            final(self).deck@.len() + final(player).hand@.len() == old(self).deck@.len() + old(
                player,
            ).hand@.len(),
            final(self).deck@.to_multiset().add(final(player).hand@.to_multiset()) == old(
                self,
            ).deck@.to_multiset().add(old(player).hand@.to_multiset()),
    {
        if self.cards_in_deck == 0 {
            return Err(DealerError::EmptyDeck);
        }
        let card = self.deck.remove(0);
        player.add_card(card);
        self.cards_in_deck = self.cards_in_deck - 1;
        proof {
            broadcast use vstd::seq_lib::group_to_multiset_ensures;
            broadcast use vstd::multiset::group_multiset_axioms;

            assert(old(self).deck@[0] == card);
            assert(self.deck@ == old(self).deck@.remove(0));
            assert(self.deck@ =~= old(self).deck@.skip(1));
            assert(self.deck@.to_multiset() == old(self).deck@.to_multiset().remove(card));
            assert(player.hand@.to_multiset() == old(player).hand@.to_multiset().insert(card));
            assert(old(self).deck@.contains(card));
            assert(old(self).deck@.to_multiset().count(card) > 0);
            assert(self.deck@.to_multiset().add(player.hand@.to_multiset())
                =~= old(self).deck@.to_multiset().add(old(player).hand@.to_multiset()));
        }
        Ok(card)
    }

    /// Deals the round's hands: with fewer than two seated players it deals
    /// nothing and reports `InsufficientPlayers`; otherwise it empties every
    /// hand, rebuilds and shuffles the deck, and deals five cards to each
    /// player in round-robin passes, one card per player per pass. Afterwards
    /// the deck and the hands together hold exactly the 52-card universe.
    pub fn deal_initial_hand(&mut self) -> (r: Result<(), DealerError>)
        requires
            old(self).players@.len() <= 10,
        ensures
            old(self).players@.len() < 2 ==> r == Err::<(), DealerError>(
                DealerError::InsufficientPlayers,
            ) && *final(self) == *old(self),
            old(self).players@.len() >= 2 ==> {
                &&& r == Ok::<(), DealerError>(())
                &&& final(self).count_ok()
                &&& final(self).players@.len() == old(self).players@.len()
                &&& forall|i: int|
                    0 <= i < old(self).players@.len() ==> (
                    #[trigger] final(self).players@[i]).hand@.len() == 5 && same_player_but_hand(
                        old(self).players@[i],
                        final(self).players@[i],
                    )
                &&& final(self).deck@.len() == 52 - 5 * old(self).players@.len()
                &&& final(self).cards_in_play() == full_deck().to_multiset()
                &&& Self::same_round_fields(*final(self), *old(self))
            },
    {
        let n = self.players.len();
        if n < 2 {
            return Err(DealerError::InsufficientPlayers);
        }
        // Hands are dealt fresh each round: empty every hand first.
        let mut s: usize = 0;
        while s < n
            invariant
                n == self.players@.len(),
                s <= n,
                forall|i: int|
                    0 <= i < s ==> (#[trigger] self.players@[i]).hand@.len() == 0
                        && same_player_but_hand(old(self).players@[i], self.players@[i]),
                forall|i: int| s <= i < n ==> self.players@[i] == old(self).players@[i],
                self.deck == old(self).deck,
                self.cards_in_deck == old(self).cards_in_deck,
                Self::same_round_fields(*self, *old(self)),
            decreases n - s,
        {
            let ghost before = self.players@;
            let mut p = self.players.remove(s);
            p.clear_hand();
            self.players.insert(s, p);
            proof {
                assert(self.players@ =~= before.update(s as int, p));
            }
            s = s + 1;
        }
        self.create_deck();
        self.shuffle();
        proof {
            broadcast use vstd::multiset::group_multiset_axioms;

            lemma_hands_cards_empty(self.players@);
            assert(self.cards_in_play() =~= full_deck().to_multiset());
        }
        // Five passes, one card to each seat per pass.
        let mut pass: usize = 0;
        while pass < 5
            invariant
                n == self.players@.len(),
                2 <= n <= 10,
                pass <= 5,
                self.count_ok(),
                self.deck@.len() == 52 - pass * n,
                forall|i: int|
                    0 <= i < n ==> (#[trigger] self.players@[i]).hand@.len() == pass
                        && same_player_but_hand(old(self).players@[i], self.players@[i]),
                self.cards_in_play() == full_deck().to_multiset(),
                Self::same_round_fields(*self, *old(self)),
            decreases 5 - pass,
        {
            let mut seat: usize = 0;
            proof {
                assert(pass * n <= 4 * n) by (nonlinear_arith)
                    requires
                        pass <= 4,
                        n >= 2,
                ;
            }
            while seat < n
                invariant
                    n == self.players@.len(),
                    2 <= n <= 10,
                    pass <= 4,
                    seat <= n,
                    pass * n <= 4 * n,
                    self.count_ok(),
                    self.deck@.len() == 52 - pass * n - seat,
                    forall|i: int|
                        0 <= i < seat ==> (#[trigger] self.players@[i]).hand@.len() == pass + 1
                            && same_player_but_hand(old(self).players@[i], self.players@[i]),
                    forall|i: int|
                        seat <= i < n ==> (#[trigger] self.players@[i]).hand@.len() == pass
                            && same_player_but_hand(old(self).players@[i], self.players@[i]),
                    self.cards_in_play() == full_deck().to_multiset(),
                    Self::same_round_fields(*self, *old(self)),
                decreases n - seat,
            {
                let ghost before = self.players@;
                let ghost deck_before = self.deck@;
                let mut p = self.players.remove(seat);
                let _dealt = self.deal_card(&mut p);
                self.players.insert(seat, p);
                proof {
                    broadcast use vstd::seq_lib::group_to_multiset_ensures;
                    broadcast use vstd::multiset::group_multiset_axioms;

                    let c = deck_before[0];
                    assert(self.players@ =~= before.update(seat as int, p));
                    assert(p.hand@.to_multiset() == before[seat as int].hand@.to_multiset().insert(
                        c,
                    ));
                    lemma_hands_cards_insert(before, seat as int, p, c);
                    assert(self.deck@ =~= deck_before.remove(0));
                    assert(self.deck@.to_multiset() == deck_before.to_multiset().remove(c));
                    assert(deck_before.contains(c));
                    assert(deck_before.to_multiset().count(c) > 0);
                    assert(self.cards_in_play() =~= deck_before.to_multiset().add(
                        hands_cards(before),
                    ));
                }
                seat = seat + 1;
            }
            proof {
                assert((pass + 1) * n == pass * n + n) by (nonlinear_arith);
            }
            pass = pass + 1;
        }
        proof {
            assert(5 * n == 52 - self.deck@.len());
        }
        Ok(())
    }

    /// Starts a new round: advances the round counter, rebuilds and deals the
    /// deck, recomputes the blind seats from the roster size, activates every
    /// seated player, and hands the turn to the seat after the big blind.
    pub fn start_game(&mut self)
        requires
            2 <= old(self).players@.len() <= 10,
            old(self).round < u32::MAX,
            old(self).big_blind < u32::MAX,
        ensures
            final(self).round == old(self).round + 1,
            final(self).small_blind == old(self).big_blind as int % (old(
                self,
            ).players@.len() as int),
            final(self).big_blind == (old(self).big_blind + 1) % (old(
                self,
            ).players@.len() as int),
            final(self).last_bet_player == final(self).big_blind,
            final(self).current_player == (final(self).big_blind + 1) % (old(
                self,
            ).players@.len() as int),
            final(self).players@.len() == old(self).players@.len(),
            forall|i: int|
                0 <= i < old(self).players@.len() ==> {
                    &&& (#[trigger] final(self).players@[i]).hand@.len() == 5
                    &&& final(self).players@[i].is_active
                    &&& same_player_but_hand_and_active(
                        old(self).players@[i],
                        final(self).players@[i],
                    )
                },
            final(self).count_ok(),
            final(self).deck@.len() == 52 - 5 * old(self).players@.len(),
            final(self).cards_in_play() == full_deck().to_multiset(),
            final(self).pot == old(self).pot,
            final(self).current_bet == old(self).current_bet,
            final(self).dealer_hand == old(self).dealer_hand,
    {
        self.round = self.round + 1;
        self.create_deck();
        let _dealt = self.deal_initial_hand();
        let count = self.players.len() as u32;
        self.small_blind = self.big_blind % count;
        self.big_blind = (self.big_blind + 1) % count;
        self.last_bet_player = self.big_blind;
        // Make every seated player active.
        let ghost dealt_players = self.players@;
        let ghost deck_after_deal = self.deck@;
        let n = self.players.len();
        let mut s: usize = 0;
        while s < n
            invariant
                n == self.players@.len(),
                n == dealt_players.len(),
                s <= n,
                self.deck@ == deck_after_deal,
                self.cards_in_deck == self.deck@.len(),
                self.cards_in_play() == deck_after_deal.to_multiset().add(
                    hands_cards(dealt_players),
                ),
                forall|i: int|
                    0 <= i < s ==> {
                        &&& (#[trigger] self.players@[i]).is_active
                        &&& self.players@[i].hand == dealt_players[i].hand
                        &&& same_player_but_hand_and_active(dealt_players[i], self.players@[i])
                    },
                forall|i: int| s <= i < n ==> self.players@[i] == dealt_players[i],
                self.small_blind == old(self).big_blind as int % (n as int),
                self.big_blind == (old(self).big_blind + 1) % (n as int),
                self.last_bet_player == self.big_blind,
                self.round == old(self).round + 1,
                self.pot == old(self).pot,
                self.current_bet == old(self).current_bet,
                self.dealer_hand == old(self).dealer_hand,
                self.current_player == old(self).current_player,
            decreases n - s,
        {
            let ghost before = self.players@;
            let mut p = self.players.remove(s);
            p.set_active(true);
            self.players.insert(s, p);
            proof {
                assert(self.players@ =~= before.update(s as int, p));
                lemma_hands_cards_same(before, s as int, p);
            }
            s = s + 1;
        }
        self.current_player = (self.big_blind + 1) % count;
    }

    /// At showdown, every player whose hand's key is maximal at the table,
    /// in seat order: ties yield several winners, never an arbitrary pick.
    /// Nothing is mutated. Every seated player must hold exactly five cards.
    pub fn check_for_winning_hand(&self) -> (r: Vec<&Player>)
        requires
            forall|i: int|
                0 <= i < self.players@.len() ==> (#[trigger] self.players@[i]).hand@.len() == 5,
        ensures
            r@.map_values(|p: &Player| *p) == winners(self.players@),
    {
        let ghost pred = |p: Player| beats_all(self.players@, p);
        let n = self.players.len();
        if n == 0 {
            let r: Vec<&Player> = Vec::new();
            proof {
                assert(r@.map_values(|p: &Player| *p) =~= winners(self.players@));
            }
            return r;
        }
        // First pass: the best key held at the table.
        let k0 = match crate::eval::evaluate_hand(&self.players[0].hand) {
            Ok(k) => k,
            Err(_) => vstd::pervasive::unreached(),
        };
        let (mut best_cat, mut best_tb) = k0;
        proof {
            crate::eval::lemma_lex_cmp_same(best_tb@);
        }
        let mut bi: usize = 1;
        while bi < n
            invariant
                n == self.players@.len(),
                1 <= bi <= n,
                forall|i: int|
                    0 <= i < n ==> (#[trigger] self.players@[i]).hand@.len() == 5,
                exists|w: int|
                    0 <= w < bi && best_cat == category((#[trigger] self.players@[w]).hand@)
                        && best_tb@ == tiebreak(self.players@[w].hand@),
                forall|j: int|
                    0 <= j < bi ==> key_le(
                        category((#[trigger] self.players@[j]).hand@),
                        tiebreak(self.players@[j].hand@),
                        best_cat,
                        best_tb@,
                    ),
            decreases n - bi,
        {
            let k = match crate::eval::evaluate_hand(&self.players[bi].hand) {
                Ok(k) => k,
                Err(_) => vstd::pervasive::unreached(),
            };
            let (cat_i, tb_i) = k;
            let tb_gt = match crate::eval::lex_compare(&tb_i, &best_tb) {
                core::cmp::Ordering::Greater => true,
                _ => false,
            };
            if cat_i > best_cat || (cat_i == best_cat && tb_gt) {
                proof {
                    crate::eval::lemma_lex_cmp_flip(tb_i@, best_tb@);
                    assert(key_le(best_cat, best_tb@, cat_i, tb_i@));
                    assert forall|j: int| 0 <= j < bi + 1 implies key_le(
                        category((#[trigger] self.players@[j]).hand@),
                        tiebreak(self.players@[j].hand@),
                        cat_i,
                        tb_i@,
                    ) by {
                        if j < bi {
                            crate::eval::lemma_key_le_trans(
                                category(self.players@[j].hand@),
                                tiebreak(self.players@[j].hand@),
                                best_cat,
                                best_tb@,
                                cat_i,
                                tb_i@,
                            );
                        } else {
                            crate::eval::lemma_lex_cmp_same(tb_i@);
                        }
                    }
                }
                best_cat = cat_i;
                best_tb = tb_i;
            } else {
                proof {
                    assert(key_le(cat_i, tb_i@, best_cat, best_tb@));
                    crate::eval::lemma_lex_cmp_same(best_tb@);
                }
            }
            bi = bi + 1;
        }
        // Second pass: collect, in seat order, everyone holding the best key.
        let mut r: Vec<&Player> = Vec::new();
        proof {
            assert(r@.map_values(|p: &Player| *p) =~= self.players@.take(0).filter(pred));
        }
        let mut i: usize = 0;
        while i < n
            invariant
                n == self.players@.len(),
                i <= n,
                forall|q: int|
                    0 <= q < n ==> (#[trigger] self.players@[q]).hand@.len() == 5,
                exists|w: int|
                    0 <= w < n && best_cat == category((#[trigger] self.players@[w]).hand@)
                        && best_tb@ == tiebreak(self.players@[w].hand@),
                forall|j: int|
                    0 <= j < n ==> key_le(
                        category((#[trigger] self.players@[j]).hand@),
                        tiebreak(self.players@[j].hand@),
                        best_cat,
                        best_tb@,
                    ),
                pred == (|p: Player| beats_all(self.players@, p)),
                r@.map_values(|p: &Player| *p) == self.players@.take(i as int).filter(pred),
            decreases n - i,
        {
            let k = match crate::eval::evaluate_hand(&self.players[i].hand) {
                Ok(k) => k,
                Err(_) => vstd::pervasive::unreached(),
            };
            let is_best = k.0 == best_cat && crate::eval::tiebreaks_equal(&k.1, &best_tb);
            proof {
                let ghost players = self.players@;
                assert(is_best == pred(players[i as int])) by {
                    if is_best {
                        assert forall|j: int| 0 <= j < players.len() implies hand_le(
                            (#[trigger] players[j]).hand@,
                            players[i as int].hand@,
                        ) by {
                            assert(key_le(
                                category(players[j].hand@),
                                tiebreak(players[j].hand@),
                                best_cat,
                                best_tb@,
                            ));
                        }
                    } else {
                        if pred(players[i as int]) {
                            let w = choose|w: int|
                                0 <= w < n && best_cat == category(
                                    (#[trigger] players[w]).hand@,
                                ) && best_tb@ == tiebreak(players[w].hand@);
                            assert(hand_le(players[w].hand@, players[i as int].hand@));
                            crate::eval::lemma_key_le_antisym(
                                category(players[i as int].hand@),
                                tiebreak(players[i as int].hand@),
                                best_cat,
                                best_tb@,
                            );
                            assert(false);
                        }
                    }
                }
                assert(players.take(i + 1).drop_last() =~= players.take(i as int));
                assert(players.take(i + 1).last() == players[i as int]);
                reveal_with_fuel(Seq::filter, 2);
                assert(players.take(i + 1).filter(pred) == if pred(players[i as int]) {
                    players.take(i as int).filter(pred).push(players[i as int])
                } else {
                    players.take(i as int).filter(pred)
                });
            }
            if is_best {
                let ghost r0 = r@;
                r.push(&self.players[i]);
                proof {
                    assert(r@.map_values(|p: &Player| *p) =~= r0.map_values(
                        |p: &Player| *p,
                    ).push(self.players@[i as int]));
                }
            }
            i = i + 1;
        }
        proof {
            assert(self.players@.take(n as int) =~= self.players@);
        }
        r
    }

    /// Seats one more player at the table.
    pub fn add_player(&mut self, player: Player)
        ensures
            final(self).players@ == old(self).players@.push(player),
            final(self).deck == old(self).deck,
            final(self).cards_in_deck == old(self).cards_in_deck,
            Self::same_round_fields(*final(self), *old(self)),
    {
        self.players.push(player);
    }
}

/// An empty roster yields no winners.
pub proof fn lemma_winners_empty(players: Seq<Player>)
    requires
        players.len() == 0,
    ensures
        winners(players) == Seq::<Player>::empty(),
{
    assert(winners(players) =~= Seq::<Player>::empty());
}

/// A lone player is always the whole winner set.
pub proof fn lemma_single_player_wins(players: Seq<Player>)
    requires
        players.len() == 1,
    ensures
        winners(players) == seq![players[0]],
{
    crate::eval::lemma_lex_cmp_same(tiebreak(players[0].hand@));
    assert(beats_all(players, players[0]));
    assert(players.drop_last() =~= Seq::<Player>::empty());
    reveal_with_fuel(Seq::filter, 2);
    assert(winners(players) =~= seq![players[0]]);
}

/// The roster's hands hold as many cards as their lengths say.
proof fn lemma_total_hand_len(players: Seq<Player>)
    ensures
        hands_cards(players).len() == total_hand_len(players),
    decreases players.len(),
{
    broadcast use vstd::seq_lib::group_to_multiset_ensures;
    broadcast use vstd::multiset::group_multiset_axioms;

    if players.len() > 0 {
        lemma_total_hand_len(players.drop_last());
    }
}

/// Conservation: while the whole 52-card universe is in play, the undealt
/// deck and the players' hands together hold exactly 52 cards.
pub proof fn lemma_card_conservation(d: FiveDrawDealer)
    requires
        d.cards_in_play() == full_deck().to_multiset(),
    ensures
        d.deck@.len() + total_hand_len(d.players@) == 52,
{
    broadcast use vstd::seq_lib::group_to_multiset_ensures;
    broadcast use vstd::multiset::group_multiset_axioms;

    lemma_total_hand_len(d.players@);
    assert(full_deck().to_multiset().len() == 52);
}

/// The canonical deck lists 52 distinct cards.
pub proof fn lemma_full_deck_no_duplicates()
    ensures
        full_deck().no_duplicates(),
{
    assert forall|i: int, j: int|
        0 <= i < 52 && 0 <= j < 52 && i != j implies full_deck()[i] != full_deck()[j] by {
        assert(0 <= i / 13 < 4 && 0 <= i % 13 < 13) by (nonlinear_arith)
            requires
                0 <= i < 52,
        ;
        assert(0 <= j / 13 < 4 && 0 <= j % 13 < 13) by (nonlinear_arith)
            requires
                0 <= j < 52,
        ;
        if deck_card(i) == deck_card(j) {
            assert(i / 13 == j / 13);
            assert(i % 13 == j % 13);
            vstd::arithmetic::div_mod::lemma_fundamental_div_mod(i, 13);
            vstd::arithmetic::div_mod::lemma_fundamental_div_mod(j, 13);
            assert(false);
        }
    }
}

/// Some seat always holds a maximal hand: the ranking is total, so a best
/// hand exists at every non-empty table.
proof fn lemma_exists_best(players: Seq<Player>)
    requires
        players.len() > 0,
    ensures
        exists|w: int| 0 <= w < players.len() && beats_all(players, #[trigger] players[w]),
    decreases players.len(),
{
    let n = players.len() as int;
    if n == 1 {
        crate::eval::lemma_lex_cmp_same(tiebreak(players[0].hand@));
        assert(beats_all(players, players[0]));
    } else {
        lemma_exists_best(players.drop_last());
        let w = choose|w: int|
            0 <= w < n - 1 && beats_all(players.drop_last(), #[trigger] players.drop_last()[w]);
        crate::eval::lemma_hand_le_total(players[n - 1].hand@, players[w].hand@);
        assert(players.drop_last()[w] == players[w]);
        if hand_le(players[n - 1].hand@, players[w].hand@) {
            assert forall|j: int| 0 <= j < n implies hand_le(
                (#[trigger] players[j]).hand@,
                players[w].hand@,
            ) by {
                if j < n - 1 {
                    assert(players.drop_last()[j] == players[j]);
                    assert(hand_le(players.drop_last()[j].hand@, players.drop_last()[w].hand@));
                }
            }
            assert(beats_all(players, players[w]));
        } else {
            assert(hand_le(players[w].hand@, players[n - 1].hand@));
            assert forall|j: int| 0 <= j < n implies hand_le(
                (#[trigger] players[j]).hand@,
                players[n - 1].hand@,
            ) by {
                if j < n - 1 {
                    assert(hand_le(players.drop_last()[j].hand@, players[w].hand@));
                    crate::eval::lemma_hand_le_trans(
                        players[j].hand@,
                        players[w].hand@,
                        players[n - 1].hand@,
                    );
                } else {
                    crate::eval::lemma_lex_cmp_same(tiebreak(players[n - 1].hand@));
                }
            }
            assert(beats_all(players, players[n - 1]));
        }
    }
}

/// A non-empty table always names at least one winner.
pub proof fn lemma_winners_nonempty(players: Seq<Player>)
    requires
        players.len() > 0,
    ensures
        winners(players).len() > 0,
{
    broadcast use vstd::seq_lib::group_filter_ensures;

    lemma_exists_best(players);
    let w = choose|w: int| 0 <= w < players.len() && beats_all(players, #[trigger] players[w]);
    let pred = |p: Player| beats_all(players, p);
    assert(players.contains(players[w]));
    assert(pred(players[w]));
    assert(winners(players).contains(players[w]));
    assert(winners(players).len() > 0);
}

/// The canonical quarter of the deck that carries the suit.
pub open spec fn suit_pos(s: Suit) -> int {
    match s {
        Suit::Hearts => 0,
        Suit::Diamonds => 1,
        Suit::Clubs => 2,
        Suit::Spades => 3,
    }
}

/// The position of the face value within one suit's ascending run.
pub open spec fn value_pos(v: Value) -> int {
    match v {
        Value::Two => 0,
        Value::Three => 1,
        Value::Four => 2,
        Value::Five => 3,
        Value::Six => 4,
        Value::Seven => 5,
        Value::Eight => 6,
        Value::Nine => 7,
        Value::Ten => 8,
        Value::Jack => 9,
        Value::Queen => 10,
        Value::King => 11,
        Value::Ace => 12,
    }
}

/// The canonical deck is exhaustive: every suit-and-value pair sits in it.
pub proof fn lemma_full_deck_exhaustive(c: Card)
    ensures
        full_deck().contains(c),
{
    let sp = suit_pos(c.suit);
    let vp = value_pos(c.value);
    let i = sp * 13 + vp;
    assert(0 <= sp <= 3 && 0 <= vp <= 12);
    assert(0 <= i < 52) by (nonlinear_arith)
        requires
            0 <= sp <= 3,
            0 <= vp <= 12,
            i == sp * 13 + vp,
    ;
    assert(i / 13 == sp && i % 13 == vp) by (nonlinear_arith)
        requires
            0 <= sp <= 3,
            0 <= vp <= 12,
            i == sp * 13 + vp,
    ;
    assert(full_deck()[i] == c);
}

/// Tied hands stand or fall together: two players whose hands carry the
/// same key are either both winners or both not.
pub proof fn lemma_ties_share_the_win(players: Seq<Player>, i: int, j: int)
    requires
        0 <= i < players.len(),
        0 <= j < players.len(),
        category(players[i].hand@) == category(players[j].hand@),
        tiebreak(players[i].hand@) == tiebreak(players[j].hand@),
    ensures
        beats_all(players, players[i]) <==> beats_all(players, players[j]),
{
    assert forall|q: int| 0 <= q < players.len() implies (hand_le(
        (#[trigger] players[q]).hand@,
        players[i].hand@,
    ) <==> hand_le(players[q].hand@, players[j].hand@)) by {
    }
}

/// One hand that holds the card puts at least one copy among the roster's
/// cards.
proof fn lemma_hands_cards_one(players: Seq<Player>, i: int, c: Card)
    requires
        0 <= i < players.len(),
        players[i].hand@.contains(c),
    ensures
        hands_cards(players).count(c) >= 1,
    decreases players.len(),
{
    broadcast use vstd::seq_lib::group_to_multiset_ensures;
    broadcast use vstd::multiset::group_multiset_axioms;

    if i == players.len() - 1 {
        assert(players.last().hand@.to_multiset().count(c) > 0);
    } else {
        lemma_hands_cards_one(players.drop_last(), i, c);
    }
}

/// Two different hands that both hold the card put at least two copies
/// among the roster's cards.
proof fn lemma_hands_cards_two(players: Seq<Player>, i: int, j: int, c: Card)
    requires
        0 <= i < j < players.len(),
        players[i].hand@.contains(c),
        players[j].hand@.contains(c),
    ensures
        hands_cards(players).count(c) >= 2,
    decreases players.len(),
{
    broadcast use vstd::seq_lib::group_to_multiset_ensures;
    broadcast use vstd::multiset::group_multiset_axioms;

    if j == players.len() - 1 {
        lemma_hands_cards_one(players.drop_last(), i, c);
        assert(players.last().hand@.to_multiset().count(c) > 0);
    } else {
        lemma_hands_cards_two(players.drop_last(), i, j, c);
    }
}

/// Exclusive ownership: while the whole 52-card universe is in play, no card
/// sits in two different players' hands, nor in both a hand and the deck.
pub proof fn lemma_no_duplicate_cards(d: FiveDrawDealer, i: int, j: int, c: Card)
    requires
        d.cards_in_play() == full_deck().to_multiset(),
        0 <= i < d.players@.len(),
        0 <= j < d.players@.len(),
        i != j,
    ensures
        !(d.players@[i].hand@.contains(c) && d.players@[j].hand@.contains(c)),
        !(d.players@[i].hand@.contains(c) && d.deck@.contains(c)),
{
    broadcast use vstd::seq_lib::group_to_multiset_ensures;
    broadcast use vstd::multiset::group_multiset_axioms;

    lemma_full_deck_no_duplicates();
    full_deck().lemma_multiset_has_no_duplicates();
    if d.players@[i].hand@.contains(c) && d.players@[j].hand@.contains(c) {
        if i < j {
            lemma_hands_cards_two(d.players@, i, j, c);
        } else {
            lemma_hands_cards_two(d.players@, j, i, c);
        }
        assert(d.cards_in_play().count(c) >= 2);
        assert(full_deck().to_multiset().contains(c));
        assert(false);
    }
    if d.players@[i].hand@.contains(c) && d.deck@.contains(c) {
        lemma_hands_cards_one(d.players@, i, c);
        assert(d.deck@.to_multiset().count(c) > 0);
        assert(d.cards_in_play().count(c) >= 2);
        assert(full_deck().to_multiset().contains(c));
        assert(false);
    }
}

/// A roster of empty hands holds no cards.
proof fn lemma_hands_cards_empty(players: Seq<Player>)
    requires
        forall|i: int| 0 <= i < players.len() ==> (#[trigger] players[i]).hand@.len() == 0,
    ensures
        hands_cards(players) == Multiset::<Card>::empty(),
    decreases players.len(),
{
    broadcast use vstd::seq_lib::group_to_multiset_ensures;
    broadcast use vstd::multiset::group_multiset_axioms;

    if players.len() > 0 {
        lemma_hands_cards_empty(players.drop_last());
        vstd::multiset::lemma_multiset_empty_len(players.last().hand@.to_multiset());
        assert(hands_cards(players) =~= Multiset::<Card>::empty());
    }
}

/// Replacing one player's hand by the same hand with one more card adds
/// exactly that card to the roster's cards.
proof fn lemma_hands_cards_insert(players: Seq<Player>, i: int, p2: Player, c: Card)
    requires
        0 <= i < players.len(),
        p2.hand@.to_multiset() == players[i].hand@.to_multiset().insert(c),
    ensures
        hands_cards(players.update(i, p2)) == hands_cards(players).insert(c),
    decreases players.len(),
{
    broadcast use vstd::multiset::group_multiset_axioms;

    if i == players.len() - 1 {
        assert(players.update(i, p2).drop_last() =~= players.drop_last());
        assert(players.update(i, p2).last() == p2);
        assert(hands_cards(players.update(i, p2)) =~= hands_cards(players).insert(c));
    } else {
        lemma_hands_cards_insert(players.drop_last(), i, p2, c);
        assert(players.update(i, p2).drop_last() =~= players.drop_last().update(i, p2));
        assert(players.update(i, p2).last() == players.last());
        assert(hands_cards(players.update(i, p2)) =~= hands_cards(players).insert(c));
    }
}

/// Replacing one player by one that holds the same cards leaves the
/// roster's cards unchanged.
proof fn lemma_hands_cards_same(players: Seq<Player>, i: int, p2: Player)
    requires
        0 <= i < players.len(),
        p2.hand@.to_multiset() == players[i].hand@.to_multiset(),
    ensures
        hands_cards(players.update(i, p2)) == hands_cards(players),
    decreases players.len(),
{
    broadcast use vstd::multiset::group_multiset_axioms;

    if i == players.len() - 1 {
        assert(players.update(i, p2).drop_last() =~= players.drop_last());
        assert(players.update(i, p2).last() == p2);
        assert(hands_cards(players.update(i, p2)) =~= hands_cards(players));
    } else {
        lemma_hands_cards_same(players.drop_last(), i, p2);
        assert(players.update(i, p2).drop_last() =~= players.drop_last().update(i, p2));
        assert(players.update(i, p2).last() == players.last());
        assert(hands_cards(players.update(i, p2)) =~= hands_cards(players));
    }
}

/// Relies on rand's `SliceRandom::shuffle`, driven by `rand::thread_rng`: a
/// Fisher-Yates pass that permutes the slice in place by swaps, so exactly
/// the same cards remain in it. Which order comes out is left open.
#[verifier::external_body]
fn shuffle_cards(deck: &mut Vec<Card>)
    ensures
        final(deck)@.to_multiset() == old(deck)@.to_multiset(),
        final(deck)@.len() == old(deck)@.len(),
{
    let mut rng = rand::thread_rng();
    rand::seq::SliceRandom::shuffle(deck.as_mut_slice(), &mut rng);
}

/// The suit of the given quarter of the fresh deck.
fn suit_of_index(i: usize) -> (s: Suit)
    requires
        i < 4,
    ensures
        s == suit_index(i as int),
{
    if i == 0 {
        Suit::Hearts
    } else if i == 1 {
        Suit::Diamonds
    } else if i == 2 {
        Suit::Clubs
    } else {
        Suit::Spades
    }
}

/// The face value at the given position of one suit's ascending run.
fn value_of_index(i: usize) -> (v: Value)
    requires
        i < 13,
    ensures
        v == value_index(i as int),
{
    if i == 0 {
        Value::Two
    } else if i == 1 {
        Value::Three
    } else if i == 2 {
        Value::Four
    } else if i == 3 {
        Value::Five
    } else if i == 4 {
        Value::Six
    } else if i == 5 {
        Value::Seven
    } else if i == 6 {
        Value::Eight
    } else if i == 7 {
        Value::Nine
    } else if i == 8 {
        Value::Ten
    } else if i == 9 {
        Value::Jack
    } else if i == 10 {
        Value::Queen
    } else if i == 11 {
        Value::King
    } else {
        Value::Ace
    }
}

} // verus!
