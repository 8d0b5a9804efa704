//! The roster of a tournament: it applies each round's results and keeps every
//! competitor's statistics up to date.
use vstd::prelude::*;
use crate::matching::{Matching, MatchingView, scaled};
use crate::matching_algorithm::{
    PairingError,
    valid_assignment,
    is_ranked_order,
    windowed_partners,
    slot_count,
    is_windowed_optimum,
};
use crate::players::{
    Player,
    MAX_ROUNDS,
    total_points,
    rounds_counted,
    opponent_match_win,
    game_win,
    opponent_game_win,
    opponents_in,
};

verus! {

/// Every player's match-win share, by id.
pub open spec fn match_win_snapshot(ps: Seq<Player>) -> Seq<u64> {
    ps.map_values(|p: Player| p.match_win_percentage)
}

/// Every player's game-win share, by id.
pub open spec fn game_win_snapshot(ps: Seq<Player>) -> Seq<u64> {
    ps.map_values(|p: Player| p.game_win_percentage)
}

/// Each player's points and statistics are those of its history, the
/// opponent shares read from the final match-win and game-win shares of all.
pub open spec fn standings_hold(ps: Seq<Player>) -> bool {
    forall|i: int|
        0 <= i < ps.len() ==> {
            let p = #[trigger] ps[i];
            let h = p.matching_list@;
            &&& p.points == total_points(h)
            &&& p.match_win_percentage == scaled(p.points as int, 3 * rounds_counted(h))
            &&& p.opponent_match_win_percentage == opponent_match_win(h, match_win_snapshot(ps))
            &&& p.game_win_percentage == game_win(h)
            &&& p.opponent_game_win_percentage == opponent_game_win(h, game_win_snapshot(ps))
        }
}

/// Two rosters that differ at most in points and statistics.
pub open spec fn same_histories(a: Seq<Player>, b: Seq<Player>) -> bool {
    &&& a.len() == b.len()
    &&& forall|i: int| 0 <= i < a.len() ==> #[trigger] a[i].same_but_stats(&b[i])
}

/// Who receives side `side` of the `k`-th result of a round: side 0 goes to
/// its player, side 1 (the mirrored copy) to its opponent, if it had one.
pub open spec fn recipient(ms: Seq<Matching>, k: int, side: int) -> Option<usize> {
    if side == 0 {
        Some(ms[k]@.player_id)
    } else if ms[k]@.has_opponent() {
        Some(ms[k]@.opponent_id)
    } else {
        None
    }
}

/// The record that side `side` of the `k`-th result adds to its recipient.
pub open spec fn entry(ms: Seq<Matching>, k: int, side: int) -> MatchingView {
    if side == 0 {
        ms[k]@
    } else {
        ms[k]@.reversed()
    }
}

/// Some competitor would receive two records from one round.
pub open spec fn has_duplicate(ms: Seq<Matching>) -> bool {
    exists|k1: int, s1: int, k2: int, s2: int|
        0 <= k1 < ms.len() && 0 <= k2 < ms.len() && 0 <= s1 < 2 && 0 <= s2 < 2 && (k1 != k2 || s1
            != s2) && (#[trigger] recipient(ms, k1, s1)) is Some && recipient(ms, k1, s1)
            == #[trigger] recipient(ms, k2, s2)
}

/// Every competitor that a round's results name is among the first `n`.
pub open spec fn results_in_range(ms: Seq<Matching>, n: int) -> bool {
    forall|k: int|
        0 <= k < ms.len() ==> (#[trigger] ms[k])@.player_id < n && (ms[k]@.has_opponent()
            ==> ms[k]@.opponent_id < n)
}

/// The error of a round that gives some competitor two results.
#[derive(Debug, Clone, Copy, PartialEq, Eq)]
pub enum RoundError {
    DuplicatedMatching,
}

/// The players of a tournament.
pub struct Tournament {
    /// rounds applied so far
    rounds: usize,
    /// the roster; a player's id is its position
    players: Vec<Player>,
}

impl Tournament {
    /// Ids are positions, no history outgrows the rounds applied, and every
    /// opponent named in a history is on the roster.
    pub closed spec fn wf(&self) -> bool {
        &&& self.rounds <= MAX_ROUNDS
        &&& self.players.len() < usize::MAX
        &&& forall|i: int| 0 <= i < self.players.len() ==> (#[trigger] self.players[i]).id == i
        &&& forall|i: int|
            0 <= i < self.players.len() ==> (#[trigger] self.players[i]).matching_list.len()
                <= self.rounds
        &&& forall|i: int, k: int|
            0 <= i < self.players.len() && 0 <= k < self.players[i].matching_list.len()
                && (#[trigger] self.players[i].matching_list[k])@.has_opponent()
                ==> self.players[i].matching_list[k]@.opponent_id < self.players.len()
    }

    pub closed spec fn roster(&self) -> Seq<Player> {
        self.players@
    }

    pub closed spec fn round_count(&self) -> int {
        self.rounds as int
    }

    pub fn new() -> (r: Self)
        ensures
            r.wf(),
            r.roster().len() == 0,
            r.round_count() == 0,
    {
        Tournament { rounds: 0, players: Vec::new() }
    }

    /// Appends a new player, whose id is the next position.
    pub fn add_player(&mut self, player: Player)
        requires
            old(self).wf(),
            player.id == old(self).roster().len(),
            player.matching_list.len() == 0,
            old(self).roster().len() + 1 < usize::MAX,
        ensures
            final(self).wf(),
            final(self).roster() == old(self).roster().push(player),
            final(self).round_count() == old(self).round_count(),
    {
        self.players.push(player);
    }

    pub fn players(&self) -> (r: &Vec<Player>)
        ensures
            r@ == self.roster(),
    {
        &self.players
    }

    /// Rounds applied so far.
    pub fn rounds(&self) -> (r: usize)
        ensures
            r == self.round_count(),
    {
        self.rounds
    }

    pub fn player_number(&self) -> (r: usize)
        ensures
            r == self.roster().len(),
    {
        self.players.len()
    }

    fn calculate_points(&mut self)
        requires
            forall|i: int| 0 <= i < old(self).players.len() ==> (#[trigger] old(self).players[i]).wf(),
        ensures
            same_histories(final(self).players@, old(self).players@),
            final(self).rounds == old(self).rounds,
            forall|i: int|
                0 <= i < final(self).players.len() ==> (#[trigger] final(self).players[i]).points
                    == total_points(final(self).players[i].matching_list@),
    {
        let n = self.players.len();
        let mut i: usize = 0;
        while i < n
            invariant
                n == self.players.len(),
                i <= n,
                self.rounds == old(self).rounds,
                same_histories(self.players@, old(self).players@),
                forall|j: int| 0 <= j < n ==> (#[trigger] old(self).players[j]).wf(),
                forall|j: int|
                    0 <= j < i ==> (#[trigger] self.players[j]).points == total_points(
                        self.players[j].matching_list@,
                    ),
            decreases n - i,
        {
            assert(self.players[i as int].same_but_stats(&old(self).players[i as int]));
            self.players[i].calculate_points();
            i = i + 1;
        }
    }

    fn calculate_match_win_percentages(&mut self)
        requires
            forall|i: int| 0 <= i < old(self).players.len() ==> {
                &&& (#[trigger] old(self).players[i]).wf()
                &&& old(self).players[i].points == total_points(old(self).players[i].matching_list@)
            },
        ensures
            same_histories(final(self).players@, old(self).players@),
            final(self).rounds == old(self).rounds,
            forall|i: int|
                0 <= i < final(self).players.len() ==> {
                    let p = #[trigger] final(self).players[i];
                    &&& p.points == old(self).players[i].points
                    &&& p.match_win_percentage == scaled(
                        p.points as int,
                        3 * rounds_counted(p.matching_list@),
                    )
                },
    {
        let n = self.players.len();
        let mut i: usize = 0;
        while i < n
            invariant
                n == self.players.len(),
                i <= n,
                self.rounds == old(self).rounds,
                same_histories(self.players@, old(self).players@),
                forall|j: int| 0 <= j < n ==> {
                    &&& (#[trigger] old(self).players[j]).wf()
                    &&& old(self).players[j].points == total_points(old(self).players[j].matching_list@)
                },
                forall|j: int| i <= j < n ==> (#[trigger] self.players[j]).points == old(self).players[j].points,
                forall|j: int|
                    0 <= j < i ==> {
                        let p = #[trigger] self.players[j];
                        &&& p.points == old(self).players[j].points
                        &&& p.match_win_percentage == scaled(
                            p.points as int,
                            3 * rounds_counted(p.matching_list@),
                        )
                    },
            decreases n - i,
        {
            assert(self.players[i as int].same_but_stats(&old(self).players[i as int]));
            self.players[i].calculate_match_win_percentages();
            i = i + 1;
        }
    }

    fn calculate_opponent_match_win_percentages(&mut self)
        requires
            forall|i: int| 0 <= i < old(self).players.len() ==> {
                &&& (#[trigger] old(self).players[i]).wf()
                &&& opponents_in(old(self).players[i].matching_list@, match_win_snapshot(old(self).players@))
            },
        ensures
            same_histories(final(self).players@, old(self).players@),
            final(self).rounds == old(self).rounds,
            forall|i: int|
                0 <= i < final(self).players.len() ==> {
                    let p = #[trigger] final(self).players[i];
                    &&& p.points == old(self).players[i].points
                    &&& p.match_win_percentage == old(self).players[i].match_win_percentage
                    &&& p.game_win_percentage == old(self).players[i].game_win_percentage
                    &&& p.opponent_match_win_percentage == opponent_match_win(
                        p.matching_list@,
                        match_win_snapshot(old(self).players@),
                    )
                },
    {
        let n = self.players.len();
        let mut players_mwp: Vec<u64> = Vec::new();
        let mut i: usize = 0;
        while i < n
            invariant
                n == self.players.len(),
                i <= n,
                self.players@ == old(self).players@,
                players_mwp@ == match_win_snapshot(self.players@).take(i as int),
            decreases n - i,
        {
            players_mwp.push(self.players[i].match_win_percentage());
            i = i + 1;
            assert(players_mwp@ =~= match_win_snapshot(self.players@).take(i as int));
        }
        assert(players_mwp@ =~= match_win_snapshot(old(self).players@));
        let mut i: usize = 0;
        while i < n
            invariant
                n == self.players.len(),
                i <= n,
                self.rounds == old(self).rounds,
                same_histories(self.players@, old(self).players@),
                players_mwp@ == match_win_snapshot(old(self).players@),
                forall|j: int| 0 <= j < n ==> {
                    &&& (#[trigger] old(self).players[j]).wf()
                    &&& opponents_in(old(self).players[j].matching_list@, match_win_snapshot(old(self).players@))
                },
                forall|j: int| i <= j < n ==> {
                    let p = #[trigger] self.players[j];
                    &&& p.points == old(self).players[j].points
                    &&& p.match_win_percentage == old(self).players[j].match_win_percentage
                    &&& p.game_win_percentage == old(self).players[j].game_win_percentage
                },
                forall|j: int|
                    0 <= j < i ==> {
                        let p = #[trigger] self.players[j];
                        &&& p.points == old(self).players[j].points
                        &&& p.match_win_percentage == old(self).players[j].match_win_percentage
                        &&& p.game_win_percentage == old(self).players[j].game_win_percentage
                        &&& p.opponent_match_win_percentage == opponent_match_win(
                            p.matching_list@,
                            match_win_snapshot(old(self).players@),
                        )
                    },
            decreases n - i,
        {
            assert(self.players[i as int].same_but_stats(&old(self).players[i as int]));
            self.players[i].calculate_opponent_match_win_percentages(&players_mwp);
            i = i + 1;
        }
    }

    fn calculate_game_win_percentages(&mut self)
        requires
            forall|i: int| 0 <= i < old(self).players.len() ==> (#[trigger] old(self).players[i]).wf(),
        ensures
            same_histories(final(self).players@, old(self).players@),
            final(self).rounds == old(self).rounds,
            forall|i: int|
                0 <= i < final(self).players.len() ==> {
                    let p = #[trigger] final(self).players[i];
                    &&& p.points == old(self).players[i].points
                    &&& p.match_win_percentage == old(self).players[i].match_win_percentage
                    &&& p.opponent_match_win_percentage == old(self).players[i].opponent_match_win_percentage
                    &&& p.game_win_percentage == game_win(p.matching_list@)
                },
    {
        let n = self.players.len();
        let mut i: usize = 0;
        while i < n
            invariant
                n == self.players.len(),
                i <= n,
                self.rounds == old(self).rounds,
                same_histories(self.players@, old(self).players@),
                forall|j: int| 0 <= j < n ==> (#[trigger] old(self).players[j]).wf(),
                forall|j: int| i <= j < n ==> {
                    let p = #[trigger] self.players[j];
                    &&& p.points == old(self).players[j].points
                    &&& p.match_win_percentage == old(self).players[j].match_win_percentage
                    &&& p.opponent_match_win_percentage == old(self).players[j].opponent_match_win_percentage
                },
                forall|j: int|
                    0 <= j < i ==> {
                        let p = #[trigger] self.players[j];
                        &&& p.points == old(self).players[j].points
                        &&& p.match_win_percentage == old(self).players[j].match_win_percentage
                        &&& p.opponent_match_win_percentage == old(self).players[j].opponent_match_win_percentage
                        &&& p.game_win_percentage == game_win(p.matching_list@)
                    },
            decreases n - i,
        {
            assert(self.players[i as int].same_but_stats(&old(self).players[i as int]));
            self.players[i].calculate_game_win_percentages();
            i = i + 1;
        }
    }

    fn calculate_opponent_game_win_percentages(&mut self)
        requires
            forall|i: int| 0 <= i < old(self).players.len() ==> {
                &&& (#[trigger] old(self).players[i]).wf()
                &&& opponents_in(old(self).players[i].matching_list@, game_win_snapshot(old(self).players@))
            },
        ensures
            same_histories(final(self).players@, old(self).players@),
            final(self).rounds == old(self).rounds,
            forall|i: int|
                0 <= i < final(self).players.len() ==> {
                    let p = #[trigger] final(self).players[i];
                    &&& p.points == old(self).players[i].points
                    &&& p.match_win_percentage == old(self).players[i].match_win_percentage
                    &&& p.opponent_match_win_percentage == old(self).players[i].opponent_match_win_percentage
                    &&& p.game_win_percentage == old(self).players[i].game_win_percentage
                    &&& p.opponent_game_win_percentage == opponent_game_win(
                        p.matching_list@,
                        game_win_snapshot(old(self).players@),
                    )
                },
    {
        let n = self.players.len();
        let mut players_gwp: Vec<u64> = Vec::new();
        let mut i: usize = 0;
        while i < n
            invariant
                n == self.players.len(),
                i <= n,
                self.players@ == old(self).players@,
                players_gwp@ == game_win_snapshot(self.players@).take(i as int),
            decreases n - i,
        {
            players_gwp.push(self.players[i].game_win_percentage());
            i = i + 1;
            assert(players_gwp@ =~= game_win_snapshot(self.players@).take(i as int));
        }
        assert(players_gwp@ =~= game_win_snapshot(old(self).players@));
        let mut i: usize = 0;
        while i < n
            invariant
                n == self.players.len(),
                i <= n,
                self.rounds == old(self).rounds,
                same_histories(self.players@, old(self).players@),
                players_gwp@ == game_win_snapshot(old(self).players@),
                forall|j: int| 0 <= j < n ==> {
                    &&& (#[trigger] old(self).players[j]).wf()
                    &&& opponents_in(old(self).players[j].matching_list@, game_win_snapshot(old(self).players@))
                },
                forall|j: int| i <= j < n ==> {
                    let p = #[trigger] self.players[j];
                    &&& p.points == old(self).players[j].points
                    &&& p.match_win_percentage == old(self).players[j].match_win_percentage
                    &&& p.opponent_match_win_percentage == old(self).players[j].opponent_match_win_percentage
                    &&& p.game_win_percentage == old(self).players[j].game_win_percentage
                },
                forall|j: int|
                    0 <= j < i ==> {
                        let p = #[trigger] self.players[j];
                        &&& p.points == old(self).players[j].points
                        &&& p.match_win_percentage == old(self).players[j].match_win_percentage
                        &&& p.opponent_match_win_percentage == old(self).players[j].opponent_match_win_percentage
                        &&& p.game_win_percentage == old(self).players[j].game_win_percentage
                        &&& p.opponent_game_win_percentage == opponent_game_win(
                            p.matching_list@,
                            game_win_snapshot(old(self).players@),
                        )
                    },
            decreases n - i,
        {
            assert(self.players[i as int].same_but_stats(&old(self).players[i as int]));
            self.players[i].calculate_opponent_game_win_percentages(&players_gwp);
            i = i + 1;
        }
    }

    /// Recomputes every statistic, each pass reading the finished results of
    /// the one before.
    fn aggregate_points(&mut self)
        requires
            forall|i: int| 0 <= i < old(self).players.len() ==> (#[trigger] old(self).players[i]).wf(),
            forall|i: int, k: int|
                0 <= i < old(self).players.len() && 0 <= k < old(self).players[i].matching_list.len()
                    && (#[trigger] old(self).players[i].matching_list[k])@.has_opponent()
                    ==> old(self).players[i].matching_list[k]@.opponent_id < old(self).players.len(),
        ensures
            same_histories(final(self).players@, old(self).players@),
            final(self).rounds == old(self).rounds,
            standings_hold(final(self).players@),
    {
        let ghost h0 = self.players@;
        self.calculate_points();
        let ghost h1 = self.players@;
        assert forall|i: int| 0 <= i < self.players.len() implies {
            &&& (#[trigger] self.players[i]).wf()
            &&& self.players[i].points == total_points(self.players[i].matching_list@)
        } by {
            assert(self.players[i].same_but_stats(&h0[i]));
        }
        self.calculate_match_win_percentages();
        let ghost h2 = self.players@;
        assert forall|i: int| 0 <= i < self.players.len() implies {
            &&& (#[trigger] self.players[i]).wf()
            &&& opponents_in(self.players[i].matching_list@, match_win_snapshot(self.players@))
        } by {
            assert(h2[i].same_but_stats(&h1[i]));
            assert(h1[i].same_but_stats(&h0[i]));
            assert forall|k: int|
                0 <= k < self.players[i].matching_list@.len()
                    && #[trigger] self.players[i].matching_list@[k]@.valid() implies
                self.players[i].matching_list@[k]@.opponent_id < match_win_snapshot(self.players@).len() by {
                assert(h0[i].matching_list[k]@.has_opponent());
            }
        }
        self.calculate_opponent_match_win_percentages();
        let ghost h3 = self.players@;
        assert forall|i: int| 0 <= i < self.players.len() implies (#[trigger] self.players[i]).wf() by {
            assert(h3[i].same_but_stats(&h2[i]));
            assert(h2[i].same_but_stats(&h1[i]));
            assert(h1[i].same_but_stats(&h0[i]));
        }
        self.calculate_game_win_percentages();
        let ghost h4 = self.players@;
        assert forall|i: int| 0 <= i < self.players.len() implies {
            &&& (#[trigger] self.players[i]).wf()
            &&& opponents_in(self.players[i].matching_list@, game_win_snapshot(self.players@))
        } by {
            assert(h4[i].same_but_stats(&h3[i]));
            assert(h3[i].same_but_stats(&h2[i]));
            assert(h2[i].same_but_stats(&h1[i]));
            assert(h1[i].same_but_stats(&h0[i]));
            assert forall|k: int|
                0 <= k < self.players[i].matching_list@.len()
                    && #[trigger] self.players[i].matching_list@[k]@.valid() implies
                self.players[i].matching_list@[k]@.opponent_id < game_win_snapshot(self.players@).len() by {
                assert(h0[i].matching_list[k]@.has_opponent());
            }
        }
        self.calculate_opponent_game_win_percentages();
        assert(match_win_snapshot(self.players@) =~= match_win_snapshot(h2));
        assert(game_win_snapshot(self.players@) =~= game_win_snapshot(h4));
        assert forall|i: int| 0 <= i < self.players.len() implies #[trigger] self.players[i].same_but_stats(&h0[i]) by {
            assert(self.players[i].same_but_stats(&h4[i]));
            assert(h4[i].same_but_stats(&h3[i]));
            assert(h3[i].same_but_stats(&h2[i]));
            assert(h2[i].same_but_stats(&h1[i]));
            assert(h1[i].same_but_stats(&h0[i]));
        }
        let ghost ps = self.players@;
        assert forall|i: int| 0 <= i < ps.len() implies {
            let p = #[trigger] ps[i];
            let h = p.matching_list@;
            &&& p.points == total_points(h)
            &&& p.match_win_percentage == scaled(p.points as int, 3 * rounds_counted(h))
            &&& p.opponent_match_win_percentage == opponent_match_win(h, match_win_snapshot(ps))
            &&& p.game_win_percentage == game_win(h)
            &&& p.opponent_game_win_percentage == opponent_game_win(h, game_win_snapshot(ps))
        } by {
            assert(ps[i].same_but_stats(&h4[i]));
            assert(h4[i].same_but_stats(&h3[i]));
            assert(h3[i].same_but_stats(&h2[i]));
            assert(h2[i].same_but_stats(&h1[i]));
        }
    }

    /// Applies one round's results: each goes to its player and, when it was
    /// played against a real opponent, a mirrored copy goes to the opponent.
    /// Then every statistic is recomputed. A round that would give some
    /// competitor two records is refused, and nothing changes.
    pub fn aggregate_matches(&mut self, matches: Vec<Matching>) -> (r: Result<(), RoundError>)
        requires
            old(self).wf(),
            old(self).round_count() < MAX_ROUNDS,
            results_in_range(matches@, old(self).roster().len() as int),
        ensures
            final(self).wf(),
            r is Err <==> has_duplicate(matches@),
            r is Err ==> *final(self) == *old(self),
            r is Ok ==> {
                let before = old(self).roster();
                let after = final(self).roster();
                &&& final(self).round_count() == old(self).round_count() + 1
                &&& after.len() == before.len()
                &&& standings_hold(after)
                &&& forall|i: int|
                    0 <= i < after.len() ==> {
                        &&& (#[trigger] after[i]).id == before[i].id
                        &&& after[i].name@ == before[i].name@
                        &&& after[i].dropped == before[i].dropped
                    }
                &&& forall|i: int, k: int, s: int|
                    0 <= i < after.len() && 0 <= k < matches@.len() && 0 <= s < 2 && #[trigger] recipient(matches@, k, s)
                        == Some(i as usize) ==> {
                        let h = (#[trigger] after[i]).matching_list@;
                        &&& h.len() == before[i].matching_list@.len() + 1
                        &&& h.drop_last() == before[i].matching_list@
                        &&& h.last()@ == entry(matches@, k, s)
                    }
                &&& forall|i: int|
                    0 <= i < after.len() && (forall|k: int, s: int|
                        0 <= k < matches@.len() && 0 <= s < 2 ==> #[trigger] recipient(matches@, k, s)
                            != Some(i as usize)) ==> (#[trigger] after[i]).matching_list@
                        == before[i].matching_list@
            },
    {
        let n = self.players.len();
        let ms = &matches;
        let mut matched: Vec<bool> = Vec::new();
        let mut i: usize = 0;
        while i < n
            invariant
                *self == *old(self),
                i <= n,
                matched@.len() == i,
                forall|j: int| 0 <= j < i ==> !#[trigger] matched@[j],
            decreases n - i,
        {
            matched.push(false);
            i = i + 1;
        }
        let mut k: usize = 0;
        while k < ms.len()
            invariant
                *self == *old(self),
                old(self).wf(),
                ms@ == matches@,
                n == self.players.len(),
                k <= ms.len(),
                matched@.len() == n,
                results_in_range(ms@, n as int),
                forall|j: int|
                    0 <= j < n ==> (#[trigger] matched@[j] <==> exists|k1: int, s1: int|
                        0 <= k1 < k && 0 <= s1 < 2 && #[trigger] recipient(ms@, k1, s1) == Some(
                            j as usize,
                        )),
                forall|k1: int, s1: int, k2: int, s2: int|
                    0 <= k1 < k && 0 <= k2 < k && 0 <= s1 < 2 && 0 <= s2 < 2 && (k1 != k2 || s1
                        != s2) && (#[trigger] recipient(ms@, k1, s1)) is Some ==> recipient(ms@, k1, s1)
                        != #[trigger] recipient(ms@, k2, s2),
            decreases ms.len() - k,
        {
            let m = &ms[k];
            let pid = m.player_id();
            assert(ms@[k as int]@.player_id < n);
            assert(recipient(ms@, k as int, 0) == Some(pid));
            if matched[pid] {
                let ghost w = choose|k1: int, s1: int|
                    0 <= k1 < k && 0 <= s1 < 2 && #[trigger] recipient(ms@, k1, s1) == Some(pid);
                assert(recipient(ms@, w.0, w.1) == recipient(ms@, k as int, 0));
                assert(has_duplicate(ms@));
                return Err(RoundError::DuplicatedMatching);
            }
            if m.is_reversible() {
                let oid = m.opponent_id();
                assert(recipient(ms@, k as int, 1) == Some(oid));
                if matched[oid] {
                    let ghost w = choose|k1: int, s1: int|
                        0 <= k1 < k && 0 <= s1 < 2 && #[trigger] recipient(ms@, k1, s1) == Some(oid);
                    assert(recipient(ms@, w.0, w.1) == recipient(ms@, k as int, 1));
                    assert(has_duplicate(ms@));
                    return Err(RoundError::DuplicatedMatching);
                }
                matched.set(oid, true);
            } else {
                assert(recipient(ms@, k as int, 1) is None);
            }
            matched.set(pid, true);
            k = k + 1;
            assert forall|j: int|
                0 <= j < n implies (#[trigger] matched@[j] <==> exists|k1: int, s1: int|
                    0 <= k1 < k && 0 <= s1 < 2 && #[trigger] recipient(ms@, k1, s1) == Some(j as usize)) by {
                if matched@[j] {
                    if j == pid {
                        assert(recipient(ms@, k - 1, 0) == Some(j as usize));
                    } else if m@.has_opponent() && j == m@.opponent_id {
                        assert(recipient(ms@, k - 1, 1) == Some(j as usize));
                    }
                }
            }
        }
        assert(!has_duplicate(ms@));
        let ghost before = self.players@;
        self.rounds = self.rounds + 1;
        let mut k: usize = 0;
        while k < ms.len()
            invariant
                ms@ == matches@,
                old(self).wf(),
                before == old(self).players@,
                n == self.players.len(),
                n == before.len(),
                k <= ms.len(),
                self.rounds == old(self).rounds + 1,
                self.rounds <= MAX_ROUNDS,
                results_in_range(ms@, n as int),
                !has_duplicate(ms@),
                forall|i: int|
                    0 <= i < n ==> {
                        &&& (#[trigger] self.players[i]).id == before[i].id
                        &&& self.players[i].name@ == before[i].name@
                        &&& self.players[i].dropped == before[i].dropped
                    },
                forall|i: int, k1: int, s: int|
                    0 <= i < n && 0 <= k1 < k && 0 <= s < 2 && #[trigger] recipient(ms@, k1, s) == Some(
                        i as usize,
                    ) ==> {
                        let h = (#[trigger] self.players[i]).matching_list@;
                        &&& h.len() == before[i].matching_list@.len() + 1
                        &&& h.drop_last() == before[i].matching_list@
                        &&& h.last()@ == entry(ms@, k1, s)
                    },
                forall|i: int|
                    0 <= i < n && (forall|k1: int, s: int|
                        0 <= k1 < k && 0 <= s < 2 ==> #[trigger] recipient(ms@, k1, s) != Some(
                            i as usize,
                        )) ==> (#[trigger] self.players[i]).matching_list@
                        == before[i].matching_list@,
            decreases ms.len() - k,
        {
            let m = ms[k];
            let pid = m.player_id();
            assert(recipient(ms@, k as int, 0) == Some(pid));
            assert forall|k1: int, s: int| 0 <= k1 < k && 0 <= s < 2 implies #[trigger] recipient(ms@, k1, s) != Some(pid) by {
                if recipient(ms@, k1, s) == Some(pid) {
                    assert(recipient(ms@, k1, s) == recipient(ms@, k as int, 0));
                }
            }
            if m.is_reversible() {
                let oid = m.opponent_id();
                assert(recipient(ms@, k as int, 1) == Some(oid));
                assert forall|k1: int, s: int| 0 <= k1 < k && 0 <= s < 2 implies #[trigger] recipient(ms@, k1, s) != Some(oid) by {
                    if recipient(ms@, k1, s) == Some(oid) {
                        assert(recipient(ms@, k1, s) == recipient(ms@, k as int, 1));
                    }
                }
                assert(self.players[oid as int].matching_list@ == before[oid as int].matching_list@);
                proof {
                    use_wf_history_len(old(self), oid as int);
                }
                self.players[oid].add_matching(Matching::rev(&m));
            } else {
                assert(recipient(ms@, k as int, 1) is None);
            }
            let ghost mid = self.players@;
            assert(self.players[pid as int].matching_list@ == before[pid as int].matching_list@);
            proof {
                use_wf_history_len(old(self), pid as int);
            }
            self.players[pid].add_matching(m);
            k = k + 1;
            assert forall|i: int, k1: int, s: int|
                0 <= i < n && 0 <= k1 < k && 0 <= s < 2 && #[trigger] recipient(ms@, k1, s) == Some(
                    i as usize,
                ) implies {
                    let h = (#[trigger] self.players[i]).matching_list@;
                    &&& h.len() == before[i].matching_list@.len() + 1
                    &&& h.drop_last() == before[i].matching_list@
                    &&& h.last()@ == entry(ms@, k1, s)
                } by {
                if k1 == k - 1 {
                    if s == 0 {
                        assert(i == pid);
                        assert(self.players[i].matching_list@.drop_last() =~= before[i].matching_list@);
                    } else {
                        assert(i == m@.opponent_id);
                        assert(mid[i].matching_list@.drop_last() =~= before[i].matching_list@);
                    }
                } else {
                    if i == pid {
                        assert(recipient(ms@, k1, s) == recipient(ms@, k - 1, 0));
                    }
                }
            }
        }
        proof {
            assert forall|i: int| 0 <= i < n implies (#[trigger] self.players[i]).matching_list.len() <= self.rounds by {
                use_wf_history_len(old(self), i);
                if exists|k1: int, s: int| 0 <= k1 < k && 0 <= s < 2 && #[trigger] recipient(ms@, k1, s) == Some(i as usize) {
                    let (k1, s) = choose|k1: int, s: int| 0 <= k1 < k && 0 <= s < 2 && #[trigger] recipient(ms@, k1, s) == Some(i as usize);
                }
            }
            assert forall|i: int, j: int|
                0 <= i < n && 0 <= j < self.players[i].matching_list.len()
                    && (#[trigger] self.players[i].matching_list[j])@.has_opponent()
                    implies self.players[i].matching_list[j]@.opponent_id < n by {
                if exists|k1: int, s: int| 0 <= k1 < k && 0 <= s < 2 && #[trigger] recipient(ms@, k1, s) == Some(i as usize) {
                    let (k1, s) = choose|k1: int, s: int| 0 <= k1 < k && 0 <= s < 2 && #[trigger] recipient(ms@, k1, s) == Some(i as usize);
                    let h = self.players[i].matching_list@;
                    if j < h.len() - 1 {
                        assert(h[j] == h.drop_last()[j]);
                        use_wf_opponent(old(self), i, j);
                    } else {
                        assert(ms@[k1]@.player_id < n);
                    }
                } else {
                    use_wf_opponent(old(self), i, j);
                }
            }
        }
        let ghost applied = self.players@;
        assert(self.wf());
        self.aggregate_points();
        assert forall|i: int| 0 <= i < n implies #[trigger] self.players[i].same_but_stats(&applied[i]) by {}
        assert(self.wf()) by {
            assert forall|i: int| 0 <= i < n implies (#[trigger] self.players[i]).id == i by {
                assert(self.players[i].same_but_stats(&applied[i]));
                use_wf_history_len(old(self), i);
            }
            assert forall|i: int| 0 <= i < n implies (#[trigger] self.players[i]).matching_list.len() <= self.rounds by {
                assert(self.players[i].same_but_stats(&applied[i]));
            }
            assert forall|i: int, j: int|
                0 <= i < n && 0 <= j < self.players[i].matching_list.len()
                    && (#[trigger] self.players[i].matching_list[j])@.has_opponent()
                    implies self.players[i].matching_list[j]@.opponent_id < n by {
                assert(self.players[i].same_but_stats(&applied[i]));
                assert(self.players[i].matching_list[j] == applied[i].matching_list[j]);
            }
        }
        assert forall|i: int, k1: int, s: int|
            0 <= i < n && 0 <= k1 < ms@.len() && 0 <= s < 2 && #[trigger] recipient(matches@, k1, s)
                == Some(i as usize) implies {
                let h = (#[trigger] self.players@[i]).matching_list@;
                &&& h.len() == before[i].matching_list@.len() + 1
                &&& h.drop_last() == before[i].matching_list@
                &&& h.last()@ == entry(matches@, k1, s)
            } by {
            assert(self.players[i].same_but_stats(&applied[i]));
            assert(recipient(ms@, k1, s) == Some(i as usize));
        }
        assert forall|i: int|
            0 <= i < n && (forall|k1: int, s: int|
                0 <= k1 < matches@.len() && 0 <= s < 2 ==> #[trigger] recipient(matches@, k1, s)
                    != Some(i as usize)) implies (#[trigger] self.players@[i]).matching_list@
                == before[i].matching_list@ by {
            assert(self.players[i].same_but_stats(&applied[i]));
        }
        assert forall|i: int| 0 <= i < n implies {
            &&& (#[trigger] self.players@[i]).id == before[i].id
            &&& self.players@[i].name@ == before[i].name@
            &&& self.players@[i].dropped == before[i].dropped
        } by {
            assert(self.players[i].same_but_stats(&applied[i]));
        }
        assert(standings_hold(self.players@));
        assert(self.round_count() == old(self).round_count() + 1);
        Ok(())
    }

    /// The next round's pairing by the optimising dynamic program: entry `i`
    /// is the opponent of player `i`, `None` a bye or a dropped player.
    pub fn matching_build(&self) -> (r: Result<Vec<Option<usize>>, PairingError>)
        requires
            self.wf(),
        ensures
            r matches Ok(a) ==> valid_assignment(self.roster(), a@),
            r matches Ok(a) ==> exists|ord: Seq<usize>|
                #[trigger] is_ranked_order(self.roster(), ord) && is_windowed_optimum(self.roster(), ord, a@),
            r is Err ==> exists|ord: Seq<usize>|
                #[trigger] is_ranked_order(self.roster(), ord) && forall|pt: Seq<Option<usize>>|
                    !windowed_partners(self.roster(), ord, slot_count(ord), 25, pt),
    {
        let r = crate::matching_algorithm::matching_build(&self.players);
        proof {
            if r is Ok {
                let ord = choose|ord: Seq<usize>|
                    #[trigger] is_ranked_order(self.players@, ord) && is_windowed_optimum(self.players@, ord, r->Ok_0@);
                assert(is_ranked_order(self.roster(), ord));
            }
            if r is Err {
                let ord = choose|ord: Seq<usize>|
                    #[trigger] is_ranked_order(self.players@, ord) && forall|pt: Seq<Option<usize>>|
                        !windowed_partners(self.players@, ord, slot_count(ord), 25, pt);
                assert(is_ranked_order(self.roster(), ord));
            }
        }
        r
    }

    /// The next round's pairing by exhaustive backtracking; it fails only
    /// when no valid pairing exists.
    pub fn greedy_matching_build(&self) -> (r: Result<Vec<Option<usize>>, PairingError>)
        ensures
            r matches Ok(a) ==> valid_assignment(self.roster(), a@),
            r is Err ==> forall|a: Seq<Option<usize>>| !valid_assignment(self.roster(), a),
    {
        crate::matching_algorithm::matching_build_greed(&self.players)
    }
}

proof fn use_wf_history_len(t: &Tournament, i: int)
    requires
        t.wf(),
        0 <= i < t.players.len(),
    ensures
        t.players[i].matching_list.len() <= t.rounds,
        t.players[i].id == i,
{
}

proof fn use_wf_opponent(t: &Tournament, i: int, j: int)
    requires
        t.wf(),
        0 <= i < t.players.len(),
        0 <= j < t.players[i].matching_list.len(),
        t.players[i].matching_list[j]@.has_opponent(),
    ensures
        t.players[i].matching_list[j]@.opponent_id < t.players.len(),
{
}

impl Default for Tournament {
    fn default() -> (r: Self)
        ensures
            r.wf(),
            r.roster().len() == 0,
            r.round_count() == 0,
    {
        Tournament::new()
    }
}

} // verus!
