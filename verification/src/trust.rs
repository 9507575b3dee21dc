use vstd::prelude::*;

verus! {

/// What one round of the game came to.
#[derive(Clone, Copy, Debug, PartialEq, Eq, Structural)]
pub enum RoundOutcome {
    BothCooperated,
    LeftCheated,
    RightCheated,
    BothCheated,
}

/// One player's move.
#[derive(Clone, Copy, Debug, PartialEq, Eq, Structural)]
pub enum Decision {
    Cheat,
    Cooperate,
}

/// A strategy: it decides a move from its state and learns the
/// opponent's move afterwards.
pub trait Agent: Sized {
    /// The states the strategy keeps itself in.
    spec fn inv(&self) -> bool;

    /// The move the strategy makes in its current state.
    spec fn spec_play(&self) -> Decision;

    /// Decides this round's move.
    fn play(&mut self) -> (d: Decision)
        requires
            old(self).inv(),
        ensures
            final(self).inv(),
            d == old(self).spec_play(),
    ;

    /// Learns the opponent's move.
    fn update(&mut self, decision: Decision)
        requires
            old(self).inv(),
        ensures
            final(self).inv(),
    ;
}

/// Two strategies and their running scores.
pub struct Game<L, R> {
    left: L,
    right: R,
    left_score: i32,
    right_score: i32,
}

impl<L: Agent, R: Agent> Game<L, R> {
    /// The left player.
    pub closed spec fn spec_left(&self) -> L {
        self.left
    }

    /// The right player.
    pub closed spec fn spec_right(&self) -> R {
        self.right
    }

    /// The left player's score.
    pub closed spec fn spec_left_score(&self) -> i32 {
        self.left_score
    }

    /// The right player's score.
    pub closed spec fn spec_right_score(&self) -> i32 {
        self.right_score
    }

    /// Both players are in states their strategies keep.
    pub open spec fn inv(&self) -> bool {
        self.spec_left().inv() && self.spec_right().inv()
    }

    /// Starts a game with two players and zero scores.
    pub fn new(left: L, right: R) -> (r: Self)
        requires
            left.inv(),
            right.inv(),
        ensures
            r.inv(),
            r.spec_left() == left,
            r.spec_right() == right,
            r.spec_left_score() == 0,
            r.spec_right_score() == 0,
    {
        Game { left, right, left_score: 0, right_score: 0 }
    }

    /// The left player's score.
    pub fn left_score(&self) -> (r: i32)
        ensures
            r == self.spec_left_score(),
    {
        self.left_score
    }

    /// The right player's score.
    pub fn right_score(&self) -> (r: i32)
        ensures
            r == self.spec_right_score(),
    {
        self.right_score
    }

    /// Plays one round: both players move, learn the other's move,
    /// and the scores change by the round's outcome. Cheating a
    /// cooperator pays three and costs the victim one; mutual
    /// cooperation pays both two; mutual cheating pays nothing.
    pub fn play_round(&mut self) -> (r: RoundOutcome)
        requires
            old(self).inv(),
            i32::MIN + 1 <= old(self).spec_left_score() <= i32::MAX - 3,
            i32::MIN + 1 <= old(self).spec_right_score() <= i32::MAX - 3,
        ensures
            final(self).inv(),
            ({
                let ld = old(self).spec_left().spec_play();
                let rd = old(self).spec_right().spec_play();
                match r {
                    RoundOutcome::BothCheated => {
                        &&& ld == Decision::Cheat && rd == Decision::Cheat
                        &&& final(self).spec_left_score() == old(self).spec_left_score()
                        &&& final(self).spec_right_score() == old(self).spec_right_score()
                    },
                    RoundOutcome::LeftCheated => {
                        &&& ld == Decision::Cheat && rd == Decision::Cooperate
                        &&& final(self).spec_left_score() == old(self).spec_left_score() + 3
                        &&& final(self).spec_right_score() == old(self).spec_right_score() - 1
                    },
                    RoundOutcome::RightCheated => {
                        &&& ld == Decision::Cooperate && rd == Decision::Cheat
                        &&& final(self).spec_left_score() == old(self).spec_left_score() - 1
                        &&& final(self).spec_right_score() == old(self).spec_right_score() + 3
                    },
                    RoundOutcome::BothCooperated => {
                        &&& ld == Decision::Cooperate && rd == Decision::Cooperate
                        &&& final(self).spec_left_score() == old(self).spec_left_score() + 2
                        &&& final(self).spec_right_score() == old(self).spec_right_score() + 2
                    },
                }
            }),
    {
        let left_decision = self.left.play();
        let right_decision = self.right.play();

        self.left.update(right_decision);
        self.right.update(left_decision);

        match left_decision {
            Decision::Cheat => match right_decision {
                Decision::Cheat => RoundOutcome::BothCheated,
                Decision::Cooperate => {
                    self.left_score = self.left_score + 3;
                    self.right_score = self.right_score - 1;
                    RoundOutcome::LeftCheated
                },
            },
            Decision::Cooperate => match right_decision {
                Decision::Cheat => {
                    self.right_score = self.right_score + 3;
                    self.left_score = self.left_score - 1;
                    RoundOutcome::RightCheated
                },
                Decision::Cooperate => {
                    self.left_score = self.left_score + 2;
                    self.right_score = self.right_score + 2;
                    RoundOutcome::BothCooperated
                },
            },
        }
    }
}

/// Always cheats.
pub struct CheatingAgent {}

impl CheatingAgent {
    /// A fresh cheater.
    pub fn new() -> (r: Self)
        ensures
            r.inv(),
    {
        CheatingAgent {  }
    }
}

impl Default for CheatingAgent {
    fn default() -> (r: Self)
        ensures
            r.inv(),
    {
        CheatingAgent {  }
    }
}

impl Agent for CheatingAgent {
    open spec fn inv(&self) -> bool {
        true
    }

    open spec fn spec_play(&self) -> Decision {
        Decision::Cheat
    }

    fn play(&mut self) -> (d: Decision) {
        Decision::Cheat
    }

    fn update(&mut self, decision: Decision) {
    }
}

/// Always cooperates.
pub struct CooperatingAgent {}

impl CooperatingAgent {
    /// A fresh cooperator.
    pub fn new() -> (r: Self)
        ensures
            r.inv(),
    {
        CooperatingAgent {  }
    }
}

impl Default for CooperatingAgent {
    fn default() -> (r: Self)
        ensures
            r.inv(),
    {
        CooperatingAgent {  }
    }
}

impl Agent for CooperatingAgent {
    open spec fn inv(&self) -> bool {
        true
    }

    open spec fn spec_play(&self) -> Decision {
        Decision::Cooperate
    }

    fn play(&mut self) -> (d: Decision) {
        Decision::Cooperate
    }

    fn update(&mut self, decision: Decision) {
    }
}

/// Cooperates until cheated once, then cheats forever.
pub struct GrudgerAgent {
    deceived: bool,
}

impl GrudgerAgent {
    /// Whether this player has ever been cheated.
    pub closed spec fn spec_deceived(&self) -> bool {
        self.deceived
    }

    /// A fresh grudger, not yet deceived.
    pub fn new() -> (r: Self)
        ensures
            r.inv(),
            !r.spec_deceived(),
    {
        GrudgerAgent { deceived: false }
    }
}

impl Default for GrudgerAgent {
    fn default() -> (r: Self)
        ensures
            r.inv(),
            !r.spec_deceived(),
    {
        GrudgerAgent { deceived: false }
    }
}

impl Agent for GrudgerAgent {
    open spec fn inv(&self) -> bool {
        true
    }

    open spec fn spec_play(&self) -> Decision {
        if self.spec_deceived() {
            Decision::Cheat
        } else {
            Decision::Cooperate
        }
    }

    fn play(&mut self) -> (d: Decision) {
        if self.deceived {
            Decision::Cheat
        } else {
            Decision::Cooperate
        }
    }

    fn update(&mut self, decision: Decision) {
        if decision == Decision::Cheat {
            self.deceived = true;
        }
    }
}

/// Repeats the opponent's previous move, opening with cooperation.
pub struct CopycatAgent {
    previous: Option<Decision>,
}

impl CopycatAgent {
    /// The opponent's last move, if a round has been played.
    pub closed spec fn spec_previous(&self) -> Option<Decision> {
        self.previous
    }

    /// A fresh copycat with nothing to copy yet.
    pub fn new() -> (r: Self)
        ensures
            r.inv(),
            r.spec_previous() is None,
    {
        CopycatAgent { previous: None }
    }
}

impl Default for CopycatAgent {
    fn default() -> (r: Self)
        ensures
            r.inv(),
            r.spec_previous() is None,
    {
        CopycatAgent { previous: None }
    }
}

impl Agent for CopycatAgent {
    open spec fn inv(&self) -> bool {
        true
    }

    open spec fn spec_play(&self) -> Decision {
        match self.spec_previous() {
            Some(x) => x,
            None => Decision::Cooperate,
        }
    }

    fn play(&mut self) -> (d: Decision) {
        match self.previous {
            Some(x) => x,
            None => Decision::Cooperate,
        }
    }

    fn update(&mut self, decision: Decision) {
        self.previous = Some(decision);
    }
}

/// Probes with a fixed opening, then exploits a pushover or plays
/// copycat against anyone who hit back.
pub struct DetectiveAgent {
    i: i32,
    deceived: bool,
    previous: Decision,
}

impl DetectiveAgent {
    /// The number of rounds played, saturating far beyond the probe.
    pub closed spec fn spec_round(&self) -> i32 {
        self.i
    }

    /// A fresh detective at the start of its opening.
    pub fn new() -> (r: Self)
        ensures
            r.inv(),
            r.spec_round() == 0,
    {
        DetectiveAgent { i: 0, deceived: false, previous: Decision::Cooperate }
    }
}

impl Default for DetectiveAgent {
    fn default() -> (r: Self)
        ensures
            r.inv(),
            r.spec_round() == 0,
    {
        DetectiveAgent { i: 0, deceived: false, previous: Decision::Cooperate }
    }
}

impl Agent for DetectiveAgent {
    closed spec fn inv(&self) -> bool {
        0 <= self.i
    }

    closed spec fn spec_play(&self) -> Decision {
        let next = if self.i < i32::MAX {
            self.i + 1
        } else {
            self.i as int
        };
        if next == 2 {
            Decision::Cheat
        } else if next <= 4 {
            Decision::Cooperate
        } else if !self.deceived {
            Decision::Cheat
        } else {
            self.previous
        }
    }

    fn play(&mut self) -> (d: Decision) {
        if self.i < i32::MAX {
            self.i = self.i + 1;
        }
        if self.i == 2 {
            Decision::Cheat
        } else if self.i <= 4 {
            Decision::Cooperate
        } else if !self.deceived {
            Decision::Cheat
        } else {
            self.previous
        }
    }

    fn update(&mut self, decision: Decision) {
        self.previous = decision;
        if decision == Decision::Cheat {
            self.deceived = true;
        }
    }
}

} // verus!
