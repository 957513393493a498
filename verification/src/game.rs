//! The interface a game implements to be searched.

use vstd::prelude::*;
use crate::fixed::{ONE, HALF};

verus! {

/// The outcome of a finished game, from the point of view of the side to move.
#[derive(Debug, Clone, Copy, PartialEq)]
pub enum GameResult {
    Win,
    Lose,
    Draw,
}

impl GameResult {
    /// The fixed-point value of an outcome: 1 for a win, 0 for a loss, 1/2 for a draw.
    pub open spec fn spec_value(self) -> u64 {
        match self {
            GameResult::Win => ONE,
            GameResult::Lose => 0,
            GameResult::Draw => HALF,
        }
    }

    pub fn value(&self) -> (v: u64)
        ensures
            v == self.spec_value(),
            v <= ONE,
    {
        match *self {
            GameResult::Win => ONE,
            GameResult::Lose => 0,
            GameResult::Draw => HALF,
        }
    }
}

/// A side in a game. `same` is the test of equality the search uses. There are two
/// sides: of any three sides, two are the same.
pub trait Player: Copy + Sized {
    fn same(&self, other: &Self) -> (r: bool)
        ensures
            r == (*self == *other),
    ;

    proof fn lemma_two_sides(a: Self, b: Self, c: Self)
        ensures
            a == b || a == c || b == c,
    ;
}

/// A move in a game. `same` is the test of equality the search uses to find a played
/// move among the root's children.
pub trait Action: Copy + Sized {
    fn same(&self, other: &Self) -> (r: bool)
        ensures
            r == (*self == *other),
    ;
}

/// A game position. Implementors describe the rules as spec functions (`outcome`,
/// `legal`, `next`) and supply the executable methods that agree with them.
///
/// Every position that is not over offers at least one move, and `make` is only ever
/// asked to play a legal move.
pub trait GameState<P: Player, A: Action>: Copy + Sized {
    /// The result of the game for the side to move, if it is over.
    spec fn outcome(&self) -> Option<GameResult>;

    /// Whether `a` may be played from this position.
    spec fn legal(&self, a: A) -> bool;

    /// The position after playing `a`.
    spec fn next(&self, a: A) -> Self;

    /// The side to move.
    spec fn mover(&self) -> P;

    /// The transposition key of the position.
    spec fn key(&self) -> u64;

    /// True when the key determines everything the search relies on: positions with
    /// equal keys have the same outcome, the same side to move, the same legal moves,
    /// and successors with equal keys. Transposition detection may only be enabled for such games.
    spec fn key_identifies() -> bool;

    proof fn lemma_key_identifies(a: Self, b: Self, x: A)
        ensures
            Self::key_identifies() && a.key() == b.key() ==> {
                &&& a.outcome() == b.outcome()
                &&& a.mover() == b.mover()
                &&& a.legal(x) == b.legal(x)
                &&& a.legal(x) ==> a.next(x).key() == b.next(x).key()
            },
    ;

    /// All legal moves.
    fn actions(&self) -> (v: Vec<A>)
        requires
            self.outcome() is None,
        ensures
            v.len() > 0,
            forall|i: int| 0 <= i < v.len() ==> self.legal(#[trigger] v[i]),
            forall|a: A| #[trigger] self.legal(a) ==> v@.contains(a),
    ;

    /// Plays a legal move.
    fn make(&self, action: A) -> (s: Self)
        requires
            self.legal(action),
        ensures
            s == self.next(action),
    ;

    /// The result for the side to move, or `None` while the game goes on.
    fn gameover(&self) -> (r: Option<GameResult>)
        ensures
            r == self.outcome(),
    ;

    /// The side to move.
    fn player(&self) -> (p: P)
        ensures
            p == self.mover(),
    ;

    /// The transposition key; it is the spec `key` wherever the key identifies
    /// positions.
    fn hash(&self) -> (h: u64)
        ensures
            Self::key_identifies() ==> h == self.key(),
    ;

    /// A static estimate of the position's value for the side to move, used in place
    /// of a random playout when custom evaluation is enabled.
    fn custom_evaluation(&self) -> (v: u64)
        ensures
            v == self.evaluation(),
            v <= ONE,
    ;

    /// The static estimate `custom_evaluation` computes.
    spec fn evaluation(&self) -> u64;

    /// The prior weight of playing `action` from this position, in millionths, which
    /// the PUCT rule multiplies into a move's exploration bonus. Every move weighs 1
    /// unless the game says otherwise.
    fn policy(&self, action: A) -> (r: u64)
        default_ensures
            r == ONE,
    {
        ONE
    }
}

} // verus!
