//! Aggregate win/loss counters over many solved games.
//!
//! The core solver does not aggregate statistics itself; callers feed
//! one outcome at a time into this record.

use vstd::prelude::*;

verus! {

/// Running totals of games played, won and lost.
#[derive(Debug)]
pub struct Stats {
    pub games_played: u64,
    pub games_won: u64,
    pub games_lost: u64,
}

impl Default for Stats {
    /// Fresh counters, all zero.
    fn default() -> (r: Stats)
        ensures
            r.games_played == 0,
            r.games_won == 0,
            r.games_lost == 0,
    {
        Stats { games_played: 0, games_won: 0, games_lost: 0 }
    }
}

impl Stats {
    /// Record one won game.
    pub fn record_win(&mut self)
        requires
            old(self).games_played < u64::MAX,
            old(self).games_won < u64::MAX,
        ensures
            final(self).games_played == old(self).games_played + 1,
            final(self).games_won == old(self).games_won + 1,
            final(self).games_lost == old(self).games_lost,
    {
        self.games_played = self.games_played + 1;
        self.games_won = self.games_won + 1;
    }

    /// Record one lost game.
    pub fn record_loss(&mut self)
        requires
            old(self).games_played < u64::MAX,
            old(self).games_lost < u64::MAX,
        ensures
            final(self).games_played == old(self).games_played + 1,
            final(self).games_lost == old(self).games_lost + 1,
            final(self).games_won == old(self).games_won,
    {
        self.games_played = self.games_played + 1;
        self.games_lost = self.games_lost + 1;
    }
}

} // verus!
