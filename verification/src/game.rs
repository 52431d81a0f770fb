//! A finished or running game's roster and outcome, and the session that
//! collects games over time.

use vstd::prelude::*;

use crate::player::Player;

verus! {

/// One game: a roster of players, the players that won it, and the chips at
/// stake.
pub struct Game {
    pub id: u32,
    pub players: Vec<Player>,
    pub winning_players: Vec<Player>,
    pub total_chips: u32,
}

/// A sequence of games under one session, at most one of them running.
pub struct GameSession {
    pub game_session_id: u32,
    pub games: Vec<Game>,
    pub current_game: Option<Game>,
}

impl Game {
    pub fn new(id: u32, players: Vec<Player>) -> (g: Game)
        ensures
            g.id == id,
            g.players == players,
            g.winning_players@.len() == 0,
            g.total_chips == 0,
    {
        Game { id, players, winning_players: Vec::new(), total_chips: 0 }
    }

    pub fn add_player(&mut self, player: Player)
        ensures
            final(self).players@ == old(self).players@.push(player),
            final(self).id == old(self).id,
            final(self).winning_players == old(self).winning_players,
            final(self).total_chips == old(self).total_chips,
    {
        self.players.push(player);
    }

    /// Drops every roster entry that shares the given player's name.
    pub fn remove_player(&mut self, player: Player)
        ensures
            final(self).players@ == old(self).players@.filter(
                |p: Player| p.name@ != player.name@,
            ),
            final(self).id == old(self).id,
            final(self).winning_players == old(self).winning_players,
            final(self).total_chips == old(self).total_chips,
    {
        let ghost orig = self.players@;
        let ghost pred = |p: Player| p.name@ != player.name@;
        let n = self.players.len();
        let mut kept: Vec<Player> = Vec::new();
        let mut i: usize = 0;
        while i < n
            invariant
                orig == old(self).players@,
                pred == (|p: Player| p.name@ != player.name@),
                n == orig.len(),
                0 <= i <= n,
                self.players@ == orig.skip(i as int),
                kept@ == orig.take(i as int).filter(pred),
                self.id == old(self).id,
                self.winning_players == old(self).winning_players,
                self.total_chips == old(self).total_chips,
            decreases n - i,
        {
            let p = self.players.remove(0);
            proof {
                assert(p == orig[i as int]);
                assert(orig.skip(i as int).remove(0) =~= orig.skip(i + 1));
                assert(orig.take(i + 1).drop_last() =~= orig.take(i as int));
                assert(orig.take(i + 1).last() == orig[i as int]);
                reveal_with_fuel(Seq::filter, 2);
                assert(orig.take(i + 1).filter(pred) == if pred(orig[i as int]) {
                    orig.take(i as int).filter(pred).push(orig[i as int])
                } else {
                    orig.take(i as int).filter(pred)
                });
            }
            if !(p.name == player.name) {
                kept.push(p);
            }
            i = i + 1;
        }
        proof {
            assert(orig.take(n as int) =~= orig);
        }
        self.players = kept;
    }

    pub fn get_players(&self) -> (r: &Vec<Player>)
        ensures
            r@ == self.players@,
    {
        &self.players
    }

    pub fn get_winning_players(&self) -> (r: &Vec<Player>)
        ensures
            r@ == self.winning_players@,
    {
        &self.winning_players
    }

    pub fn get_total_chips(&self) -> (r: u32)
        ensures
            r == self.total_chips,
    {
        self.total_chips
    }

    pub fn set_total_chips(&mut self, chips: u32)
        ensures
            final(self).total_chips == chips,
            final(self).id == old(self).id,
            final(self).players == old(self).players,
            final(self).winning_players == old(self).winning_players,
    {
        self.total_chips = chips;
    }

    pub fn add_winning_player(&mut self, player: Player)
        ensures
            final(self).winning_players@ == old(self).winning_players@.push(player),
            final(self).id == old(self).id,
            final(self).players == old(self).players,
            final(self).total_chips == old(self).total_chips,
    {
        self.winning_players.push(player);
    }
}

impl GameSession {
    pub fn new(session_id: u32) -> (s: GameSession)
        ensures
            s.game_session_id == session_id,
            s.games@.len() == 0,
            s.current_game is None,
    {
        GameSession { game_session_id: session_id, games: Vec::new(), current_game: None }
    }

    /// Opens a new game over the given roster; it replaces any running game.
    pub fn start_game(&mut self, players: Vec<Player>)
        ensures
            (final(self).current_game matches Some(g) && g.id == old(self).games@.len() as u32
                && g.players == players && g.winning_players@.len() == 0 && g.total_chips == 0),
            final(self).games == old(self).games,
            final(self).game_session_id == old(self).game_session_id,
    {
        let game = Game {
            id: self.games.len() as u32,
            players,
            winning_players: Vec::new(),
            total_chips: 0,
        };
        self.current_game = Some(game);
    }

    /// Closes the running game, if any, and files it in the session history.
    pub fn end_game(&mut self)
        ensures
            old(self).current_game matches Some(g) ==> final(self).games@ == old(
                self,
            ).games@.push(g) && final(self).current_game is None,
            old(self).current_game is None ==> *final(self) == *old(self),
            final(self).game_session_id == old(self).game_session_id,
    {
        let taken = self.current_game.take();
        match taken {
            Some(game) => {
                self.games.push(game);
            },
            None => {},
        }
    }

    pub fn get_current_game(&self) -> (r: Option<&Game>)
        ensures
            r is Some <==> self.current_game is Some,
            r matches Some(g) ==> *g == self.current_game.unwrap(),
    {
        self.current_game.as_ref()
    }

    pub fn get_games(&self) -> (r: &Vec<Game>)
        ensures
            r@ == self.games@,
    {
        &self.games
    }
}

} // verus!
