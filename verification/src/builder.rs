//! Settings of a search, given before or between calls to `ponder`.

use vstd::prelude::*;
use crate::game::{Player, Action, GameState};
use crate::search::{MCTS, fresh_rave};
use crate::rng::{os_random_bytes, xorshift_from_seed};

verus! {

impl<P: Player, A: Action, S: GameState<P, A>> MCTS<P, A, S> {
    /// The tree, its statistics, the root, the random generator and the moves of the
    /// descent in progress of `self` and `other` agree.
    pub open spec fn same_tree(&self, other: &Self) -> bool {
        &&& self.rand == other.rand
        &&& self.played@ == other.played@
        &&& self.info == other.info
        &&& self.root == other.root
        &&& self.stack@ == other.stack@
        &&& self.map@ == other.map@
        &&& self.states@ == other.states@
    }

    /// Sets the exploration constant, in millionths; it must be positive. It balances
    /// exploration against exploitation when the search picks a child to descend into.
    pub fn with_exploration(self, exploration: u32) -> (r: Self)
        requires
            self.wf(),
            exploration > 0,
        ensures
            r.wf(),
            r.same_tree(&self),
            r.rave@ == self.rave@,
            r.exploration == exploration,
            r.expansion == self.expansion,
            r.use_custom_evaluation == self.use_custom_evaluation,
            r.use_transposition == self.use_transposition,
            r.use_rave == self.use_rave,
            r.use_puct == self.use_puct,
    {
        let mut r = self;
        r.exploration = exploration;
        r
    }

    /// Sets how many visits a leaf needs before it is expanded; it must be positive.
    pub fn with_expansion_minimum(self, expansion: u32) -> (r: Self)
        requires
            self.wf(),
            expansion > 0,
        ensures
            r.wf(),
            r.same_tree(&self),
            r.rave@ == self.rave@,
            r.exploration == self.exploration,
            r.expansion == expansion,
            r.use_custom_evaluation == self.use_custom_evaluation,
            r.use_transposition == self.use_transposition,
            r.use_rave == self.use_rave,
            r.use_puct == self.use_puct,
    {
        let mut r = self;
        r.expansion = expansion;
        r
    }

    /// Evaluates new leaves with the game's custom evaluation instead of random
    /// playouts.
    pub fn with_custom_evaluation(self) -> (r: Self)
        requires
            self.wf(),
        ensures
            r.wf(),
            r.same_tree(&self),
            r.rave@ == self.rave@,
            r.exploration == self.exploration,
            r.expansion == self.expansion,
            r.use_custom_evaluation,
            r.use_transposition == self.use_transposition,
            r.use_rave == self.use_rave,
            r.use_puct == self.use_puct,
    {
        let mut r = self;
        r.use_custom_evaluation = true;
        r
    }

    /// Enables transposition detection, for games whose key identifies positions.
    pub fn with_transposition(self) -> (r: Self)
        requires
            self.wf(),
            S::key_identifies(),
        ensures
            r.wf(),
            r.same_tree(&self),
            r.rave@ == self.rave@,
            r.exploration == self.exploration,
            r.expansion == self.expansion,
            r.use_custom_evaluation == self.use_custom_evaluation,
            r.use_transposition,
            r.use_rave == self.use_rave,
            r.use_puct == self.use_puct,
    {
        let mut r = self;
        r.use_transposition = true;
        r
    }

    /// Enables RAVE (rapid action value estimation): every descent also credits its
    /// value to each visited sibling whose move the same side played anywhere later in
    /// that descent, and selection blends a node's average with that shared average by
    /// the weight `sqrt(k / (3n + k))` (`k` is `RAVE_EQUIVALENCE`), which fades as the
    /// node's own visits `n` grow.
    /// Statistics already gathered stay; enabling it on a search that has them starts
    /// the shared averages from nothing.
    pub fn with_rave(self) -> (r: Self)
        requires
            self.wf(),
        ensures
            r.wf(),
            r.same_tree(&self),
            r.exploration == self.exploration,
            r.expansion == self.expansion,
            r.use_custom_evaluation == self.use_custom_evaluation,
            r.use_transposition == self.use_transposition,
            r.use_puct == self.use_puct,
            r.use_rave,
            self.use_rave ==> r.rave@ == self.rave@,
            !self.use_rave ==> forall|i: int| 0 <= i < r.rave.len() ==> #[trigger] r.rave@[i] == (0u32, 0u64),
    {
        let mut r = self;
        if !r.use_rave {
            r.rave = fresh_rave(r.stack.len());
            r.use_rave = true;
        }
        r
    }

    /// Enables PUCT selection: a child's exploration bonus becomes
    /// `exploration * prior * sqrt(N) / (1 + n)`, with the prior the game's `policy`
    /// weight for its move, `N` the parent's visits and `n` the child's.
    pub fn with_puct(self) -> (r: Self)
        requires
            self.wf(),
        ensures
            r.wf(),
            r.same_tree(&self),
            r.rave@ == self.rave@,
            r.exploration == self.exploration,
            r.expansion == self.expansion,
            r.use_custom_evaluation == self.use_custom_evaluation,
            r.use_transposition == self.use_transposition,
            r.use_rave == self.use_rave,
            r.use_puct,
    {
        let mut r = self;
        r.use_puct = true;
        r
    }

    /// Reseeds the random generator from operating-system entropy, for searches that
    /// differ from run to run. Where the operating system supplies no entropy the
    /// generator is left as it was.
    pub fn with_entropy(self) -> (r: Self)
        requires
            self.wf(),
        ensures
            r.wf(),
            r.same_but_rand(&self),
    {
        let mut r = self;
        match os_random_bytes(16) {
            Some(bytes) => {
                let mut seed: [u8; 16] = [0u8; 16];
                let mut i: usize = 0;
                while i < 16
                    invariant
                        bytes.len() == 16,
                        0 <= i <= 16,
                    decreases 16 - i,
                {
                    seed[i] = bytes[i];
                    i = i + 1;
                }
                r.rand = xorshift_from_seed(seed);
            },
            None => {},
        }
        r
    }
}

} // verus!
