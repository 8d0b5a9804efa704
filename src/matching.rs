//! The record of one competitor's result against one opponent (or against
//! nobody) in one round.
use vstd::prelude::*;

verus! {

/// Statistics are fractions in `[0, 1]`, held as integer multiples of
/// `1 / STAT_SCALE` and rounded down.
pub const STAT_SCALE: u64 = 1_000_000_000;

/// `num / den` as a multiple of `1 / STAT_SCALE`, rounded down; an empty
/// divisor gives 0.
pub open spec fn scaled(num: int, den: int) -> int {
    if den <= 0 {
        0
    } else {
        num * STAT_SCALE as int / den
    }
}

/// How a match ended for the competitor who holds the record.
pub enum Outcome {
    Win,
    Draw,
    Loss,
}

/// The mathematical content of a `Matching`.
pub struct MatchingView {
    pub uid: usize,
    pub round_number: i32,
    pub player_id: usize,
    pub opponent_id: usize,
    pub win_count: i32,
    pub draw_count: i32,
    pub lose_count: i32,
    pub player_withdraw: bool,
    pub opponent_withdraw: bool,
    pub no_opponent: bool,
    pub dropped: bool,
}

impl MatchingView {
    /// Exactly one of the three ways of building a record applies, with its
    /// fixed flags; game counts are never negative.
    pub open spec fn wf(self) -> bool {
        &&& self.win_count >= 0
        &&& self.draw_count >= 0
        &&& self.lose_count >= 0
        &&& !self.no_opponent && !self.dropped ==> self.player_id != self.opponent_id
        &&& self.no_opponent ==> {
            &&& !self.dropped
            &&& !self.player_withdraw
            &&& !self.opponent_withdraw
        }
        &&& self.dropped ==> self.player_withdraw && !self.opponent_withdraw
        &&& (self.no_opponent || self.dropped) ==> {
            &&& self.opponent_id == 0
            &&& self.win_count == 0
            &&& self.draw_count == 0
            &&& self.lose_count == 0
        }
    }

    /// Counts toward the opponent-strength statistics: nobody withdrew and
    /// there was a real opponent.
    pub open spec fn valid(self) -> bool {
        !self.player_withdraw && !self.opponent_withdraw && !self.no_opponent && !self.dropped
    }

    /// Played against a real opponent: neither a bye nor a drop placeholder.
    pub open spec fn has_opponent(self) -> bool {
        !self.no_opponent && !self.dropped
    }

    /// A drop placeholder is a loss; a bye is a win; a double withdrawal is a draw; a one-sided withdrawal
    /// is lost by the side that withdrew; otherwise the game counts decide.
    pub open spec fn outcome(self) -> Outcome {
        if self.dropped {
            Outcome::Loss
        } else if self.no_opponent {
            Outcome::Win
        } else if self.player_withdraw && self.opponent_withdraw {
            Outcome::Draw
        } else if self.opponent_withdraw {
            Outcome::Win
        } else if self.player_withdraw {
            Outcome::Loss
        } else if self.win_count > self.lose_count {
            Outcome::Win
        } else if self.win_count == self.lose_count {
            Outcome::Draw
        } else {
            Outcome::Loss
        }
    }

    pub open spec fn points(self) -> int {
        match self.outcome() {
            Outcome::Win => 3,
            Outcome::Draw => 1,
            Outcome::Loss => 0,
        }
    }

    /// `(3 * wins + draws) / (3 * games)`, scaled; 0 when no game was played.
    pub open spec fn game_win_fraction(self) -> int {
        scaled(
            3 * self.win_count + self.draw_count,
            3 * (self.win_count + self.draw_count + self.lose_count),
        )
    }

    /// The opponent's copy: roles and win/loss counts swapped, draws kept.
    pub open spec fn reversed(self) -> MatchingView {
        MatchingView {
            uid: self.uid,
            round_number: self.round_number,
            player_id: self.opponent_id,
            opponent_id: self.player_id,
            win_count: self.lose_count,
            draw_count: self.draw_count,
            lose_count: self.win_count,
            player_withdraw: self.opponent_withdraw,
            opponent_withdraw: self.player_withdraw,
            no_opponent: false,
            dropped: false,
        }
    }
}

/// A result of one competitor in one round.
#[derive(Clone, Copy, Debug)]
pub struct Matching {
    /// id of the match
    uid: usize,
    /// the round in which the match was played
    round_number: i32,
    player_id: usize,
    opponent_id: usize,
    /// games the player won
    win_count: i32,
    /// games that ended drawn
    draw_count: i32,
    /// games the player lost
    lose_count: i32,
    player_withdraw: bool,
    opponent_withdraw: bool,
    /// a bye: nobody was paired with the player
    no_opponent: bool,
    /// a placeholder for a player who left the event; not counted as a round
    dropped: bool,
}

impl View for Matching {
    type V = MatchingView;

    closed spec fn view(&self) -> MatchingView {
        MatchingView {
            uid: self.uid,
            round_number: self.round_number,
            player_id: self.player_id,
            opponent_id: self.opponent_id,
            win_count: self.win_count,
            draw_count: self.draw_count,
            lose_count: self.lose_count,
            player_withdraw: self.player_withdraw,
            opponent_withdraw: self.opponent_withdraw,
            no_opponent: self.no_opponent,
            dropped: self.dropped,
        }
    }
}

impl Matching {
    #[verifier::type_invariant]
    spec fn inv(self) -> bool {
        self@.wf()
    }

    /// An ordinary result between two different competitors.
    pub fn new(
        uid: usize,
        round_number: i32,
        player_id: usize,
        opponent_id: usize,
        win_count: i32,
        draw_count: i32,
        lose_count: i32,
        player_withdraw: bool,
        opponent_withdraw: bool,
    ) -> (r: Self)
        requires
            player_id != opponent_id,
            win_count >= 0,
            draw_count >= 0,
            lose_count >= 0,
        ensures
            r@ == (MatchingView {
                uid,
                round_number,
                player_id,
                opponent_id,
                win_count,
                draw_count,
                lose_count,
                player_withdraw,
                opponent_withdraw,
                no_opponent: false,
                dropped: false,
            }),
    {
        Matching {
            uid,
            round_number,
            player_id,
            opponent_id,
            win_count,
            draw_count,
            lose_count,
            player_withdraw,
            opponent_withdraw,
            no_opponent: false,
            dropped: false,
        }
    }

    /// A bye for `player_id`.
    pub fn no_opponent_new(uid: usize, round_number: i32, player_id: usize) -> (r: Self)
        ensures
            r@ == (MatchingView {
                uid,
                round_number,
                player_id,
                opponent_id: 0,
                win_count: 0,
                draw_count: 0,
                lose_count: 0,
                player_withdraw: false,
                opponent_withdraw: false,
                no_opponent: true,
                dropped: false,
            }),
    {
        Matching {
            uid,
            round_number,
            player_id,
            opponent_id: 0,
            win_count: 0,
            draw_count: 0,
            lose_count: 0,
            player_withdraw: false,
            opponent_withdraw: false,
            no_opponent: true,
            dropped: false,
        }
    }

    /// The placeholder for `player_id`, who has left the event.
    pub fn dropped_new(uid: usize, round_number: i32, player_id: usize) -> (r: Self)
        ensures
            r@ == (MatchingView {
                uid,
                round_number,
                player_id,
                opponent_id: 0,
                win_count: 0,
                draw_count: 0,
                lose_count: 0,
                player_withdraw: true,
                opponent_withdraw: false,
                no_opponent: false,
                dropped: true,
            }),
    {
        Matching {
            uid,
            round_number,
            player_id,
            opponent_id: 0,
            win_count: 0,
            draw_count: 0,
            lose_count: 0,
            player_withdraw: true,
            opponent_withdraw: false,
            no_opponent: false,
            dropped: true,
        }
    }

    /// The opponent's record of an ordinary result.
    pub fn rev(m: &Matching) -> (r: Self)
        requires
            m@.has_opponent(),
        ensures
            r@ == m@.reversed(),
    {
        proof {
            use_type_invariant(m);
        }
        Self::new(
            m.uid,
            m.round_number,
            m.opponent_id,
            m.player_id,
            m.lose_count,
            m.draw_count,
            m.win_count,
            m.opponent_withdraw,
            m.player_withdraw,
        )
    }

    pub fn player_id(&self) -> (r: usize)
        ensures
            r == self@.player_id,
            self@.wf(),
    {
        proof {
            use_type_invariant(self);
        }
        self.player_id
    }

    pub fn opponent_id(&self) -> (r: usize)
        ensures
            r == self@.opponent_id,
    {
        self.opponent_id
    }

    pub fn win_count(&self) -> (r: i32)
        ensures
            r == self@.win_count,
    {
        self.win_count
    }

    pub fn lose_count(&self) -> (r: i32)
        ensures
            r == self@.lose_count,
    {
        self.lose_count
    }

    pub fn draw_count(&self) -> (r: i32)
        ensures
            r == self@.draw_count,
    {
        self.draw_count
    }

    /// Both sides withdrew, or a valid match ended with as many wins as losses.
    pub fn is_draw(&self) -> (r: bool)
        ensures
            r == (self@.outcome() == Outcome::Draw),
    {
        proof {
            use_type_invariant(self);
        }
        self.player_withdraw && self.opponent_withdraw || self.is_valid() && self.win_count
            == self.lose_count
    }

    /// A bye, a withdrawal of the opponent alone, or more wins than losses.
    pub fn is_win(&self) -> (r: bool)
        ensures
            r == (self@.outcome() == Outcome::Win),
    {
        proof {
            use_type_invariant(self);
        }
        self.no_opponent || (!self.is_draw() && !self.player_withdraw && (self.opponent_withdraw
            || !self.player_withdraw && self.win_count > self.lose_count))
    }

    /// Neither a win nor a draw.
    pub fn is_lose(&self) -> (r: bool)
        ensures
            r == (self@.outcome() == Outcome::Loss),
    {
        !self.is_win() && !self.is_draw()
    }

    /// Nobody withdrew and there was an opponent.
    pub fn is_valid(&self) -> (r: bool)
        ensures
            r == self@.valid(),
    {
        !self.player_withdraw && !self.opponent_withdraw && !self.no_opponent && !self.dropped
    }

    pub fn is_no_opponent(&self) -> (r: bool)
        ensures
            r == self@.no_opponent,
    {
        self.no_opponent
    }

    pub fn is_dropped(&self) -> (r: bool)
        ensures
            r == self@.dropped,
    {
        self.dropped
    }

    /// A result whose copy belongs in the opponent's history: one played
    /// against a real opponent, withdrawals included.
    pub fn is_reversible(&self) -> (r: bool)
        ensures
            r == self@.has_opponent(),
    {
        !self.no_opponent && !self.dropped
    }

    /// 3 for a win, 1 for a draw, 0 for a loss.
    pub fn matching_points(&self) -> (r: i32)
        ensures
            r == self@.points(),
    {
        if self.is_win() {
            3
        } else if self.is_draw() {
            1
        } else {
            0
        }
    }

    /// The share of game points won, scaled; 0 when no game was played.
    pub fn game_win_percentage(&self) -> (r: u64)
        ensures
            r == self@.game_win_fraction(),
            r <= STAT_SCALE,
    {
        proof {
            use_type_invariant(self);
        }
        let wins = self.win_count as u128;
        let draws = self.draw_count as u128;
        let losses = self.lose_count as u128;
        let den = 3 * (wins + draws + losses);
        if den == 0 {
            0
        } else {
            let num = 3 * wins + draws;
            assert(num * (STAT_SCALE as u128) <= 0x2_0000_0000 * 1_000_000_000) by (nonlinear_arith)
                requires
                    num <= 0x2_0000_0000,
            ;
            let r = num * (STAT_SCALE as u128) / den;
            proof {
                lemma_scaled_at_most_one(num as int, den as int);
            }
            r as u64
        }
    }
}

proof fn lemma_scaled_at_most_one(num: int, den: int)
    requires
        0 <= num <= den,
        0 < den,
    ensures
        0 <= num * STAT_SCALE as int / den <= STAT_SCALE,
{
    assert(num * STAT_SCALE as int <= den * STAT_SCALE as int) by (nonlinear_arith)
        requires
            0 <= num <= den,
    ;
    vstd::arithmetic::div_mod::lemma_div_is_ordered(
        num * STAT_SCALE as int,
        den * STAT_SCALE as int,
        den,
    );
    vstd::arithmetic::div_mod::lemma_div_multiples_vanish(STAT_SCALE as int, den);
    vstd::arithmetic::div_mod::lemma_div_pos_is_pos(num * STAT_SCALE as int, den);
}

/// Exactly one of win, draw and loss holds of every result.
pub proof fn lemma_outcome_partition(m: MatchingView)
    requires
        m.wf(),
    ensures
        (m.outcome() == Outcome::Win) as int + (m.outcome() == Outcome::Draw) as int + (
        m.outcome() == Outcome::Loss) as int == 1,
{
}

/// A win is worth 3 points, a draw 1 and a loss 0; a bye is a win and a drop
/// placeholder a loss.
pub proof fn lemma_points_mapping(m: MatchingView)
    requires
        m.wf(),
    ensures
        m.outcome() == Outcome::Win ==> m.points() == 3,
        m.outcome() == Outcome::Draw ==> m.points() == 1,
        m.outcome() == Outcome::Loss ==> m.points() == 0,
        m.no_opponent ==> m.outcome() == Outcome::Win,
        m.dropped ==> m.outcome() == Outcome::Loss,
{
}

} // verus!
