//! A seated participant: an owned hand, a chip stack, an active flag, and
//! cumulative statistics.

use vstd::prelude::*;

use crate::card::Card;
use crate::card::Suit;
use crate::card::Value;
use crate::game::Game;

verus! {

/// Cumulative per-player statistics. Every counter is non-decreasing except
/// through an explicit reset.
pub struct Stats {
    pub games_played: u32,
    pub games_won: u32,
    pub games_lost: u32,
    pub games_folded: u32,
    pub total_chips_won: u32,
}

/// A seated player. The player exclusively owns the cards in its hand.
pub struct Player {
    pub name: String,
    pub hand: Vec<Card>,
    pub id: u32,
    pub total_chips: u32,
    pub current_bet: u32,
    pub is_active: bool,
    pub games_played: Vec<Game>,
    pub player_stats: Stats,
}

/// The two player states agree on every field except the hand.
pub open spec fn same_player_but_hand(a: Player, b: Player) -> bool {
    &&& a.name == b.name
    &&& a.id == b.id
    &&& a.total_chips == b.total_chips
    &&& a.current_bet == b.current_bet
    &&& a.is_active == b.is_active
    &&& a.games_played == b.games_played
    &&& a.player_stats == b.player_stats
}

/// The two player states agree on every field except the hand and the
/// active flag.
pub open spec fn same_player_but_hand_and_active(a: Player, b: Player) -> bool {
    &&& a.name == b.name
    &&& a.id == b.id
    &&& a.total_chips == b.total_chips
    &&& a.current_bet == b.current_bet
    &&& a.games_played == b.games_played
    &&& a.player_stats == b.player_stats
}

/// The two player states agree on every field except the statistics and the
/// chip stack.
pub open spec fn same_player_but_stats_and_chips(a: Player, b: Player) -> bool {
    &&& a.name == b.name
    &&& a.hand == b.hand
    &&& a.id == b.id
    &&& a.current_bet == b.current_bet
    &&& a.is_active == b.is_active
    &&& a.games_played == b.games_played
}

impl Player {
    /// A fresh player: empty hand, no bet, inactive, zeroed statistics.
    pub fn new(name: String, id: u32, total_chips: u32) -> (p: Player)
        ensures
            p.name == name,
            p.hand@.len() == 0,
            p.id == id,
            p.total_chips == total_chips,
            p.current_bet == 0,
            !p.is_active,
            p.games_played@.len() == 0,
            p.player_stats.games_played == 0,
            p.player_stats.games_won == 0,
            p.player_stats.games_lost == 0,
            p.player_stats.games_folded == 0,
            p.player_stats.total_chips_won == 0,
    {
        Player {
            name,
            hand: Vec::new(),
            id,
            total_chips,
            current_bet: 0,
            games_played: Vec::new(),
            player_stats: Stats {
                games_played: 0,
                games_won: 0,
                games_lost: 0,
                games_folded: 0,
                total_chips_won: 0,
            },
            is_active: false,
        }
    }

    // GETTERS

    pub fn get_name(&self) -> (r: &String)
        ensures
            r@ == self.name@,
    {
        &self.name
    }

    pub fn get_hand(&self) -> (r: &Vec<Card>)
        ensures
            r@ == self.hand@,
    {
        &self.hand
    }

    pub fn get_total_chips(&self) -> (r: u32)
        ensures
            r == self.total_chips,
    {
        self.total_chips
    }

    pub fn is_active(&self) -> (r: bool)
        ensures
            r == self.is_active,
    {
        self.is_active
    }

    pub fn get_stats(&self) -> (r: &Stats)
        ensures
            *r == self.player_stats,
    {
        &self.player_stats
    }

    // SETTERS

    /// Records a finished game in the player's history.
    pub fn add_game(&mut self, game: Game)
        ensures
            final(self).games_played@ == old(self).games_played@.push(game),
            final(self).name == old(self).name,
            final(self).hand == old(self).hand,
            final(self).id == old(self).id,
            final(self).total_chips == old(self).total_chips,
            final(self).current_bet == old(self).current_bet,
            final(self).is_active == old(self).is_active,
            final(self).player_stats == old(self).player_stats,
    {
        self.games_played.push(game);
    }

    pub fn add_chips(&mut self, chips: u32)
        requires
            old(self).total_chips + chips <= u32::MAX,
        ensures
            final(self).total_chips == old(self).total_chips + chips,
            final(self).player_stats == old(self).player_stats,
            same_player_but_stats_and_chips(*old(self), *final(self)),
    {
        self.total_chips = self.total_chips + chips;
    }

    pub fn remove_chips(&mut self, chips: u32)
        requires
            chips <= old(self).total_chips,
        ensures
            final(self).total_chips == old(self).total_chips - chips,
            final(self).player_stats == old(self).player_stats,
            same_player_but_stats_and_chips(*old(self), *final(self)),
    {
        self.total_chips = self.total_chips - chips;
    }

    pub fn set_active(&mut self, active: bool)
        ensures
            final(self).is_active == active,
            final(self).name == old(self).name,
            final(self).hand == old(self).hand,
            final(self).id == old(self).id,
            final(self).total_chips == old(self).total_chips,
            final(self).current_bet == old(self).current_bet,
            final(self).games_played == old(self).games_played,
            final(self).player_stats == old(self).player_stats,
    {
        self.is_active = active;
    }

    /// Appends one card to the hand.
    pub fn add_card(&mut self, card: Card)
        ensures
            final(self).hand@ == old(self).hand@.push(card),
            same_player_but_hand(*old(self), *final(self)),
    {
        self.hand.push(card);
    }

    /// Empties the hand.
    pub fn clear_hand(&mut self)
        ensures
            final(self).hand@.len() == 0,
            same_player_but_hand(*old(self), *final(self)),
    {
        self.hand.clear();
    }

    /// Removes the first card in the hand that matches the given suit and
    /// value; reports whether one was found.
    pub fn remove_card(&mut self, suit: Suit, value: Value) -> (r: bool)
        ensures
            same_player_but_hand(*old(self), *final(self)),
            r == old(self).hand@.contains(Card { suit, value }),
            r ==> exists|i: int|
                0 <= i < old(self).hand@.len()
                && old(self).hand@[i] == (Card { suit, value })
                && (forall|j: int| 0 <= j < i ==> old(self).hand@[j] != (Card { suit, value }))
                && final(self).hand@ == old(self).hand@.remove(i),
            !r ==> final(self).hand@ == old(self).hand@,
    {
        let target = Card { suit, value };
        let n = self.hand.len();
        let mut i: usize = 0;
        while i < n
            invariant
                *self == *old(self),
                n == self.hand@.len(),
                0 <= i <= n,
                forall|j: int| 0 <= j < i ==> self.hand@[j] != target,
                target == (Card { suit, value }),
            decreases n - i,
        {
            if self.hand[i].suit == suit && self.hand[i].value == value {
                self.hand.remove(i);
                return true;
            }
            i = i + 1;
        }
        assert(!self.hand@.contains(target));
        false
    }

    /// Records a won game: the win counters grow and the winnings join the
    /// chip stack.
    pub fn game_won(&mut self, chips: u32)
        requires
            old(self).player_stats.games_won + 1 <= u32::MAX,
            old(self).player_stats.total_chips_won + chips <= u32::MAX,
            old(self).total_chips + chips <= u32::MAX,
            old(self).player_stats.games_played + 1 <= u32::MAX,
        ensures
            final(self).player_stats.games_won == old(self).player_stats.games_won + 1,
            final(self).player_stats.total_chips_won == old(self).player_stats.total_chips_won
                + chips,
            final(self).total_chips == old(self).total_chips + chips,
            final(self).player_stats.games_played == old(self).player_stats.games_played + 1,
            final(self).player_stats.games_lost == old(self).player_stats.games_lost,
            final(self).player_stats.games_folded == old(self).player_stats.games_folded,
            same_player_but_stats_and_chips(*old(self), *final(self)),
    {
        self.player_stats.games_won = self.player_stats.games_won + 1;
        self.player_stats.total_chips_won = self.player_stats.total_chips_won + chips;
        self.add_chips(chips);
        self.player_stats.games_played = self.player_stats.games_played + 1;
    }

    /// Records a lost game.
    pub fn game_lost(&mut self)
        requires
            old(self).player_stats.games_lost + 1 <= u32::MAX,
            old(self).player_stats.games_played + 1 <= u32::MAX,
        ensures
            final(self).player_stats.games_lost == old(self).player_stats.games_lost + 1,
            final(self).player_stats.games_played == old(self).player_stats.games_played + 1,
            final(self).player_stats.games_won == old(self).player_stats.games_won,
            final(self).player_stats.games_folded == old(self).player_stats.games_folded,
            final(self).player_stats.total_chips_won == old(self).player_stats.total_chips_won,
            final(self).total_chips == old(self).total_chips,
            same_player_but_stats_and_chips(*old(self), *final(self)),
    {
        self.player_stats.games_lost = self.player_stats.games_lost + 1;
        self.player_stats.games_played = self.player_stats.games_played + 1;
    }

    /// Records a folded game.
    pub fn game_folded(&mut self)
        requires
            old(self).player_stats.games_folded + 1 <= u32::MAX,
            old(self).player_stats.games_played + 1 <= u32::MAX,
        ensures
            final(self).player_stats.games_folded == old(self).player_stats.games_folded + 1,
            final(self).player_stats.games_played == old(self).player_stats.games_played + 1,
            final(self).player_stats.games_won == old(self).player_stats.games_won,
            final(self).player_stats.games_lost == old(self).player_stats.games_lost,
            final(self).player_stats.total_chips_won == old(self).player_stats.total_chips_won,
            final(self).total_chips == old(self).total_chips,
            same_player_but_stats_and_chips(*old(self), *final(self)),
    {
        self.player_stats.games_folded = self.player_stats.games_folded + 1;
        self.player_stats.games_played = self.player_stats.games_played + 1;
    }

    /// Zeroes every statistics counter.
    pub fn reset_stats(&mut self)
        ensures
            final(self).player_stats.games_played == 0,
            final(self).player_stats.games_won == 0,
            final(self).player_stats.games_lost == 0,
            final(self).player_stats.games_folded == 0,
            final(self).player_stats.total_chips_won == 0,
            final(self).total_chips == old(self).total_chips,
            same_player_but_stats_and_chips(*old(self), *final(self)),
    {
        self.player_stats.games_played = 0;
        self.player_stats.games_won = 0;
        self.player_stats.games_lost = 0;
        self.player_stats.games_folded = 0;
        self.player_stats.total_chips_won = 0;
    }
}

} // verus!
