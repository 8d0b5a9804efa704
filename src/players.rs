//! A competitor, its history, and the ranking statistics computed from it.
use vstd::prelude::*;
use std::cmp::Ordering;
use crate::matching::{Matching, MatchingView, STAT_SCALE, scaled};

verus! {

/// The most results one competitor's history may hold; it keeps every sum of
/// points and statistics within its integer type.
pub const MAX_ROUNDS: usize = 0xFFFF_FFFF;

/// The floor under an opponent's match-win share: one third.
pub const MATCH_WIN_FLOOR: u64 = STAT_SCALE / 3;

/// Points over a history.
pub open spec fn total_points(h: Seq<Matching>) -> int
    decreases h.len(),
{
    if h.len() == 0 {
        0
    } else {
        total_points(h.drop_last()) + h.last()@.points()
    }
}

/// Entries of a history that are not drop placeholders.
pub open spec fn rounds_counted(h: Seq<Matching>) -> int
    decreases h.len(),
{
    if h.len() == 0 {
        0
    } else {
        rounds_counted(h.drop_last()) + if h.last()@.dropped {
            0int
        } else {
            1int
        }
    }
}

/// Valid entries of a history.
pub open spec fn valid_count(h: Seq<Matching>) -> int
    decreases h.len(),
{
    if h.len() == 0 {
        0
    } else {
        valid_count(h.drop_last()) + if h.last()@.valid() {
            1int
        } else {
            0int
        }
    }
}

/// The sum of `f` over the valid entries of a history.
pub open spec fn valid_sum(h: Seq<Matching>, f: spec_fn(MatchingView) -> int) -> int
    decreases h.len(),
{
    if h.len() == 0 {
        0
    } else {
        valid_sum(h.drop_last(), f) + if h.last()@.valid() {
            f(h.last()@)
        } else {
            0int
        }
    }
}

/// The mean of `count` values summing to `sum`, rounded down; 0 for none.
pub open spec fn mean(sum: int, count: int) -> int {
    if count <= 0 {
        0
    } else {
        sum / count
    }
}

/// An opponent's match-win share, floored at one third.
pub open spec fn floored_match_win(mwps: Seq<u64>, m: MatchingView) -> int {
    let v = mwps[m.opponent_id as int] as int;
    if v < MATCH_WIN_FLOOR {
        MATCH_WIN_FLOOR as int
    } else {
        v
    }
}

pub open spec fn opponent_match_win(h: Seq<Matching>, mwps: Seq<u64>) -> int {
    mean(valid_sum(h, |m: MatchingView| floored_match_win(mwps, m)), valid_count(h))
}

pub open spec fn game_win(h: Seq<Matching>) -> int {
    mean(valid_sum(h, |m: MatchingView| m.game_win_fraction()), valid_count(h))
}

pub open spec fn opponent_game_win(h: Seq<Matching>, gwps: Seq<u64>) -> int {
    mean(valid_sum(h, |m: MatchingView| gwps[m.opponent_id as int] as int), valid_count(h))
}

/// Every valid entry names an opponent with a value in `stats`.
pub open spec fn opponents_in(h: Seq<Matching>, stats: Seq<u64>) -> bool {
    forall|i: int| 0 <= i < h.len() && #[trigger] h[i]@.valid() ==> h[i]@.opponent_id < stats.len()
}

/// A match against `Some(id)`, or a bye for `None`.
pub open spec fn meets(m: MatchingView, search_id: Option<usize>) -> bool {
    match search_id {
        Some(id) => m.has_opponent() && m.opponent_id == id,
        None => m.no_opponent,
    }
}

/// The history holds a match against `Some(id)`, or a bye for `None`.
pub open spec fn had_matched(h: Seq<Matching>, search_id: Option<usize>) -> bool {
    exists|i: int| 0 <= i < h.len() && #[trigger] meets(h[i]@, search_id)
}

/// The order of two integers.
pub open spec fn int_cmp(a: int, b: int) -> Ordering {
    if a < b {
        Ordering::Less
    } else if a > b {
        Ordering::Greater
    } else {
        Ordering::Equal
    }
}

/// `first`, unless it is a tie, which `second` then breaks.
pub open spec fn then_cmp(first: Ordering, second: Ordering) -> Ordering {
    if first == Ordering::Equal {
        second
    } else {
        first
    }
}

/// The ranking order: `Greater` when `a` ranks above `b`.
pub open spec fn rank_cmp(a: &Player, b: &Player) -> Ordering {
    then_cmp(
        int_cmp(!a.dropped as int, !b.dropped as int),
        then_cmp(
            int_cmp(a.points as int, b.points as int),
            then_cmp(
                int_cmp(a.opponent_match_win_percentage as int, b.opponent_match_win_percentage as int),
                then_cmp(
                    int_cmp(a.game_win_percentage as int, b.game_win_percentage as int),
                    then_cmp(
                        int_cmp(
                            a.opponent_game_win_percentage as int,
                            b.opponent_game_win_percentage as int,
                        ),
                        int_cmp(b.id as int, a.id as int),
                    ),
                ),
            ),
        ),
    )
}

/// Points never exceed three per counted round: a drop placeholder is a loss.
proof fn lemma_points_within_rounds(h: Seq<Matching>)
    ensures
        0 <= total_points(h) <= 3 * rounds_counted(h),
        0 <= rounds_counted(h) <= h.len(),
    decreases h.len(),
{
    if h.len() > 0 {
        lemma_points_within_rounds(h.drop_last());
    }
}

/// A competitor.
///
/// Ranking order: a dropped competitor ranks below one who is still playing;
/// then more points rank higher, then a higher opponent match-win share, a
/// higher game-win share, a higher opponent game-win share, and last a
/// smaller id.
#[derive(Debug)]
pub struct Player {
    pub id: usize,
    pub name: String,
    /// has the player left the event?
    pub dropped: bool,
    /// points gained in matches
    pub points: u64,
    pub match_win_percentage: u64,
    pub opponent_match_win_percentage: u64,
    pub game_win_percentage: u64,
    pub opponent_game_win_percentage: u64,
    pub matching_list: Vec<Matching>,
}

impl Player {
    /// The history is short enough for its sums.
    pub open spec fn wf(&self) -> bool {
        self.matching_list.len() <= MAX_ROUNDS
    }

    /// Everything but the statistics is as before.
    pub open spec fn same_but_stats(&self, other: &Player) -> bool {
        &&& self.id == other.id
        &&& self.name@ == other.name@
        &&& self.dropped == other.dropped
        &&& self.matching_list@ == other.matching_list@
    }

    pub fn new(id: usize, name: String) -> (r: Self)
        ensures
            r.id == id,
            r.name@ == name@,
            !r.dropped,
            r.points == 0,
            r.match_win_percentage == 0,
            r.opponent_match_win_percentage == 0,
            r.game_win_percentage == 0,
            r.opponent_game_win_percentage == 0,
            r.matching_list@.len() == 0,
    {
        Player {
            id,
            name,
            dropped: false,
            points: 0,
            match_win_percentage: 0,
            opponent_match_win_percentage: 0,
            game_win_percentage: 0,
            opponent_game_win_percentage: 0,
            matching_list: Vec::new(),
        }
    }

    /// A dropped competitor with no history.
    pub fn dummy(id: usize) -> (r: Self)
        ensures
            r.id == id,
            r.dropped,
            r.points == 0,
            r.matching_list@.len() == 0,
    {
        let mut player = Player::new(id, "!!DUMMY!!".to_owned());
        player.dropped = true;
        player
    }

    pub fn match_win_percentage(&self) -> (r: u64)
        ensures
            r == self.match_win_percentage,
    {
        self.match_win_percentage
    }

    pub fn opponent_match_win_percentage(&self) -> (r: u64)
        ensures
            r == self.opponent_match_win_percentage,
    {
        self.opponent_match_win_percentage
    }

    pub fn game_win_percentage(&self) -> (r: u64)
        ensures
            r == self.game_win_percentage,
    {
        self.game_win_percentage
    }

    pub fn opponent_game_win_percentage(&self) -> (r: u64)
        ensures
            r == self.opponent_game_win_percentage,
    {
        self.opponent_game_win_percentage
    }

    pub fn matching_list(&self) -> (r: &Vec<Matching>)
        ensures
            r@ == self.matching_list@,
    {
        &self.matching_list
    }

    pub fn name(&self) -> (r: &String)
        ensures
            r@ == self.name@,
    {
        &self.name
    }

    pub fn id(&self) -> (r: usize)
        ensures
            r == self.id,
    {
        self.id
    }

    pub fn points(&self) -> (r: u64)
        ensures
            r == self.points,
    {
        self.points
    }

    /// Appends a result to the history.
    pub fn add_matching(&mut self, matching: Matching)
        requires
            old(self).matching_list.len() < MAX_ROUNDS,
        ensures
            final(self).matching_list@ == old(self).matching_list@.push(matching),
            final(self).id == old(self).id,
            final(self).name@ == old(self).name@,
            final(self).dropped == old(self).dropped,
            final(self).points == old(self).points,
            final(self).match_win_percentage == old(self).match_win_percentage,
            final(self).opponent_match_win_percentage == old(self).opponent_match_win_percentage,
            final(self).game_win_percentage == old(self).game_win_percentage,
            final(self).opponent_game_win_percentage == old(self).opponent_game_win_percentage,
    {
        self.matching_list.push(matching);
    }

    pub fn is_dropped(&self) -> (r: bool)
        ensures
            r == self.dropped,
    {
        self.dropped
    }

    /// Sets points and every statistic to zero.
    pub fn initialize_points(&mut self)
        ensures
            final(self).same_but_stats(old(self)),
            final(self).points == 0,
            final(self).match_win_percentage == 0,
            final(self).opponent_match_win_percentage == 0,
            final(self).game_win_percentage == 0,
            final(self).opponent_game_win_percentage == 0,
    {
        self.points = 0;
        self.game_win_percentage = 0;
        self.match_win_percentage = 0;
        self.opponent_game_win_percentage = 0;
        self.opponent_match_win_percentage = 0;
    }

    /// The number of results that are not drop placeholders.
    pub fn matched_round_number(&self) -> (r: usize)
        ensures
            r == rounds_counted(self.matching_list@),
    {
        let h = &self.matching_list;
        let mut count: usize = 0;
        let mut i: usize = 0;
        while i < h.len()
            invariant
                i <= h.len(),
                count == rounds_counted(h@.take(i as int)),
                count <= i,
            decreases h.len() - i,
        {
            assert(h@.take(i + 1).drop_last() == h@.take(i as int));
            if !h[i].is_dropped() {
                count = count + 1;
            }
            i = i + 1;
        }
        assert(h@.take(h.len() as int) == h@);
        count
    }

    /// Points are recomputed from the whole history.
    pub fn calculate_points(&mut self)
        requires
            old(self).wf(),
        ensures
            final(self).same_but_stats(old(self)),
            final(self).points == total_points(old(self).matching_list@),
            final(self).match_win_percentage == old(self).match_win_percentage,
            final(self).opponent_match_win_percentage == old(self).opponent_match_win_percentage,
            final(self).game_win_percentage == old(self).game_win_percentage,
            final(self).opponent_game_win_percentage == old(self).opponent_game_win_percentage,
    {
        let mut sum: u64 = 0;
        let mut i: usize = 0;
        let n = self.matching_list.len();
        while i < n
            invariant
                n == self.matching_list.len(),
                n <= MAX_ROUNDS,
                i <= n,
                sum == total_points(self.matching_list@.take(i as int)),
                sum <= 3 * i,
            decreases n - i,
        {
            assert(self.matching_list@.take(i + 1).drop_last() == self.matching_list@.take(
                i as int,
            ));
            let p = self.matching_list[i].matching_points();
            sum = sum + p as u64;
            i = i + 1;
        }
        assert(self.matching_list@.take(n as int) == self.matching_list@);
        self.points = sum;
    }

    /// The mean of `count` values summing to `sum`, rounded down; 0 for none.
    fn any_percentage(sum: u128, count: u64) -> (r: u64)
        requires
            sum <= count * (u64::MAX as int),
        ensures
            r == mean(sum as int, count as int),
    {
        if count > 0 {
            proof {
                vstd::arithmetic::div_mod::lemma_div_is_ordered(
                    sum as int,
                    count * (u64::MAX as int),
                    count as int,
                );
                vstd::arithmetic::div_mod::lemma_div_multiples_vanish(
                    u64::MAX as int,
                    count as int,
                );
            }
            (sum / count as u128) as u64
        } else {
            0
        }
    }

    /// Match-win share: points over three times the rounds counted; 0 before
    /// any round. Reads the points of the last `calculate_points`.
    pub fn calculate_match_win_percentages(&mut self)
        requires
            old(self).wf(),
            old(self).points == total_points(old(self).matching_list@),
        ensures
            final(self).same_but_stats(old(self)),
            final(self).match_win_percentage == scaled(
                old(self).points as int,
                3 * rounds_counted(old(self).matching_list@),
            ),
            final(self).match_win_percentage <= STAT_SCALE,
            final(self).points == old(self).points,
            final(self).opponent_match_win_percentage == old(self).opponent_match_win_percentage,
            final(self).game_win_percentage == old(self).game_win_percentage,
            final(self).opponent_game_win_percentage == old(self).opponent_game_win_percentage,
    {
        proof {
            lemma_points_within_rounds(self.matching_list@);
        }
        let rounds = self.matched_round_number();
        if rounds == 0 {
            self.match_win_percentage = 0;
        } else {
            let den = 3 * rounds as u128;
            let num = self.points as u128;
            proof {
                assert(num * (STAT_SCALE as u128) <= den * (STAT_SCALE as u128)) by (nonlinear_arith)
                    requires
                        num <= den,
                ;
                assert(den * (STAT_SCALE as u128) <= 0x3_0000_0000 * 1_000_000_000) by (nonlinear_arith)
                    requires
                        den <= 0x3_0000_0000,
                ;
                vstd::arithmetic::div_mod::lemma_div_is_ordered(
                    num * STAT_SCALE as int,
                    den * STAT_SCALE as int,
                    den as int,
                );
                vstd::arithmetic::div_mod::lemma_div_multiples_vanish(STAT_SCALE as int, den as int);
            }
            self.match_win_percentage = (num * (STAT_SCALE as u128) / den) as u64;
        }
    }

    /// Opponent match-win share: the mean, over the valid entries, of each
    /// opponent's match-win share in `players_mwp`, floored at one third.
    pub fn calculate_opponent_match_win_percentages(&mut self, players_mwp: &Vec<u64>)
        requires
            old(self).wf(),
            opponents_in(old(self).matching_list@, players_mwp@),
        ensures
            final(self).same_but_stats(old(self)),
            final(self).opponent_match_win_percentage == opponent_match_win(
                old(self).matching_list@,
                players_mwp@,
            ),
            final(self).points == old(self).points,
            final(self).match_win_percentage == old(self).match_win_percentage,
            final(self).game_win_percentage == old(self).game_win_percentage,
            final(self).opponent_game_win_percentage == old(self).opponent_game_win_percentage,
    {
        let ghost f = |m: MatchingView| floored_match_win(players_mwp@, m);
        let h = &self.matching_list;
        let n = h.len();
        let mut sum: u128 = 0;
        let mut count: u64 = 0;
        let mut i: usize = 0;
        while i < n
            invariant
                n == h.len(),
                n <= MAX_ROUNDS,
                i <= n,
                opponents_in(h@, players_mwp@),
                f == (|m: MatchingView| floored_match_win(players_mwp@, m)),
                sum == valid_sum(h@.take(i as int), f),
                count == valid_count(h@.take(i as int)),
                count <= i,
                sum <= count * (u64::MAX as int),
            decreases n - i,
        {
            assert(h@.take(i + 1).drop_last() == h@.take(i as int));
            if h[i].is_valid() {
                let v = players_mwp[h[i].opponent_id()];
                let v = if v < MATCH_WIN_FLOOR {
                    MATCH_WIN_FLOOR
                } else {
                    v
                };
                assert(f(h@[i as int]@) == v);
                sum = sum + v as u128;
                count = count + 1;
            }
            i = i + 1;
        }
        assert(h@.take(n as int) == h@);
        self.opponent_match_win_percentage = Self::any_percentage(sum, count);
    }

    /// Game-win share: the mean, over the valid entries, of each entry's
    /// share of game points.
    pub fn calculate_game_win_percentages(&mut self)
        requires
            old(self).wf(),
        ensures
            final(self).same_but_stats(old(self)),
            final(self).game_win_percentage == game_win(old(self).matching_list@),
            final(self).game_win_percentage <= STAT_SCALE,
            final(self).points == old(self).points,
            final(self).match_win_percentage == old(self).match_win_percentage,
            final(self).opponent_match_win_percentage == old(self).opponent_match_win_percentage,
            final(self).opponent_game_win_percentage == old(self).opponent_game_win_percentage,
    {
        let ghost f = |m: MatchingView| m.game_win_fraction();
        let h = &self.matching_list;
        let n = h.len();
        let mut sum: u128 = 0;
        let mut count: u64 = 0;
        let mut i: usize = 0;
        while i < n
            invariant
                n == h.len(),
                n <= MAX_ROUNDS,
                i <= n,
                f == (|m: MatchingView| m.game_win_fraction()),
                sum == valid_sum(h@.take(i as int), f),
                count == valid_count(h@.take(i as int)),
                count <= i,
                sum <= count * (STAT_SCALE as int),
            decreases n - i,
        {
            assert(h@.take(i + 1).drop_last() == h@.take(i as int));
            if h[i].is_valid() {
                let g = h[i].game_win_percentage();
                assert(f(h@[i as int]@) == g);
                sum = sum + g as u128;
                count = count + 1;
            }
            i = i + 1;
        }
        assert(h@.take(n as int) == h@);
        proof {
            if count > 0 {
                vstd::arithmetic::div_mod::lemma_div_is_ordered(
                    sum as int,
                    count * (STAT_SCALE as int),
                    count as int,
                );
                vstd::arithmetic::div_mod::lemma_div_multiples_vanish(
                    STAT_SCALE as int,
                    count as int,
                );
            }
        }
        self.game_win_percentage = Self::any_percentage(sum, count);
    }

    /// Opponent game-win share: the mean, over the valid entries, of each
    /// opponent's game-win share in `players_gwp`.
    pub fn calculate_opponent_game_win_percentages(&mut self, players_gwp: &Vec<u64>)
        requires
            old(self).wf(),
            opponents_in(old(self).matching_list@, players_gwp@),
        ensures
            final(self).same_but_stats(old(self)),
            final(self).opponent_game_win_percentage == opponent_game_win(
                old(self).matching_list@,
                players_gwp@,
            ),
            final(self).points == old(self).points,
            final(self).match_win_percentage == old(self).match_win_percentage,
            final(self).opponent_match_win_percentage == old(self).opponent_match_win_percentage,
            final(self).game_win_percentage == old(self).game_win_percentage,
    {
        let ghost f = |m: MatchingView| players_gwp@[m.opponent_id as int] as int;
        let h = &self.matching_list;
        let n = h.len();
        let mut sum: u128 = 0;
        let mut count: u64 = 0;
        let mut i: usize = 0;
        while i < n
            invariant
                n == h.len(),
                n <= MAX_ROUNDS,
                i <= n,
                opponents_in(h@, players_gwp@),
                f == (|m: MatchingView| players_gwp@[m.opponent_id as int] as int),
                sum == valid_sum(h@.take(i as int), f),
                count == valid_count(h@.take(i as int)),
                count <= i,
                sum <= count * (u64::MAX as int),
            decreases n - i,
        {
            assert(h@.take(i + 1).drop_last() == h@.take(i as int));
            if h[i].is_valid() {
                let g = players_gwp[h[i].opponent_id()];
                assert(f(h@[i as int]@) == g);
                sum = sum + g as u128;
                count = count + 1;
            }
            i = i + 1;
        }
        assert(h@.take(n as int) == h@);
        self.opponent_game_win_percentage = Self::any_percentage(sum, count);
    }

    /// With `Some(id)`: has this player already met `id`? With `None`: has it
    /// already had a bye?
    pub fn had_matched_id(&self, search_id: Option<usize>) -> (r: bool)
        ensures
            r == had_matched(self.matching_list@, search_id),
    {
        let h = &self.matching_list;
        let mut i: usize = 0;
        while i < h.len()
            invariant
                i <= h.len(),
                h@ == self.matching_list@,
                forall|j: int| 0 <= j < i ==> !#[trigger] meets(h@[j]@, search_id),
            decreases h.len() - i,
        {
            let found = match search_id {
                Some(id) => h[i].is_reversible() && h[i].opponent_id() == id,
                None => h[i].is_no_opponent(),
            };
            if found {
                assert(meets(h@[i as int]@, search_id));
                return true;
            }
            i = i + 1;
        }
        false
    }

    /// Where `self` stands against `other` in the ranking order: `Greater`
    /// when it ranks above.
    pub fn cmp(&self, other: &Self) -> (r: Ordering)
        ensures
            r == rank_cmp(self, other),
    {
        if self.dropped != other.dropped {
            if self.dropped {
                Ordering::Less
            } else {
                Ordering::Greater
            }
        } else if self.points != other.points {
            if self.points < other.points {
                Ordering::Less
            } else {
                Ordering::Greater
            }
        } else if self.opponent_match_win_percentage != other.opponent_match_win_percentage {
            if self.opponent_match_win_percentage < other.opponent_match_win_percentage {
                Ordering::Less
            } else {
                Ordering::Greater
            }
        } else if self.game_win_percentage != other.game_win_percentage {
            if self.game_win_percentage < other.game_win_percentage {
                Ordering::Less
            } else {
                Ordering::Greater
            }
        } else if self.opponent_game_win_percentage != other.opponent_game_win_percentage {
            if self.opponent_game_win_percentage < other.opponent_game_win_percentage {
                Ordering::Less
            } else {
                Ordering::Greater
            }
        } else if self.id != other.id {
            if self.id > other.id {
                Ordering::Less
            } else {
                Ordering::Greater
            }
        } else {
            Ordering::Equal
        }
    }
}

/// Two players are equal when they hold the same place in the ranking order.
impl PartialEq for Player {
    fn eq(&self, other: &Player) -> (r: bool) {
        self.dropped == other.dropped && self.points == other.points
            && self.opponent_match_win_percentage == other.opponent_match_win_percentage
            && self.game_win_percentage == other.game_win_percentage
            && self.opponent_game_win_percentage == other.opponent_game_win_percentage
            && self.id == other.id
    }
}

impl vstd::std_specs::cmp::PartialEqSpecImpl for Player {
    open spec fn obeys_eq_spec() -> bool {
        true
    }

    open spec fn eq_spec(&self, other: &Player) -> bool {
        rank_cmp(self, other) == Ordering::Equal
    }
}

impl PartialOrd for Player {
    fn partial_cmp(&self, other: &Player) -> (r: Option<Ordering>) {
        Some(self.cmp(other))
    }
}

impl vstd::std_specs::cmp::PartialOrdSpecImpl for Player {
    open spec fn obeys_partial_cmp_spec() -> bool {
        true
    }

    open spec fn partial_cmp_spec(&self, other: &Player) -> Option<Ordering> {
        Some(rank_cmp(self, other))
    }
}

} // verus!
