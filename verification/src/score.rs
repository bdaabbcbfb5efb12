use vstd::prelude::*;

verus! {

/// One unit of score per million: a Mean Reciprocal Rank of one is
/// `SCORE_SCALE` millionths.
pub const SCORE_SCALE: u64 = 1_000_000;

/// A ranking-quality score in fixed-point millionths, or the
/// not-a-number signal produced when no user qualifies for evaluation.
/// The signal is a valid outcome of a trial, not an error, but it is
/// never admitted to the leaderboard.
#[derive(Clone, Copy, PartialEq, Eq, Structural, Debug, Hash)]
pub enum Score {
    Nan,
    Val(u64),
}

impl Score {
    /// A score that may enter the leaderboard: any numeric value.
    pub open spec fn is_valid(self) -> bool {
        self is Val
    }

    /// The numeric value in millionths; zero for the not-a-number signal,
    /// which the leaderboard never stores.
    pub open spec fn micros_spec(self) -> u64 {
        match self {
            Score::Nan => 0,
            Score::Val(v) => v,
        }
    }

    pub fn valid(&self) -> (b: bool)
        ensures
            b == self.is_valid(),
    {
        match self {
            Score::Nan => false,
            Score::Val(_) => true,
        }
    }

    /// The numeric value, absent for the not-a-number signal.
    pub fn micros(&self) -> (m: Option<u64>)
        ensures
            self.is_valid() ==> m == Some(self.micros_spec()),
            !self.is_valid() ==> m is None,
    {
        match self {
            Score::Nan => None,
            Score::Val(v) => Some(*v),
        }
    }
}

} // verus!
