//! Two small games with known answers, for exercising the search.
//!
//! `Countdown` is the subtraction game: a shared counter, each turn the side to move
//! takes 1, 2 or 3 (never more than remains), and whoever brings it to 0 wins. The
//! side to move loses exactly when the counter is a multiple of 4.
//!
//! `SlotPick`: numbered slots with fixed rewards (0 or 1); the sides alternately claim
//! an unclaimed slot and add its reward to their score; when all are claimed the
//! higher score wins.

use vstd::prelude::*;
use crate::fixed::{ONE, HALF};
use crate::game::{GameResult, Player, Action, GameState};
use crate::search::{can_win, must_lose, lemma_flip, lemma_games_mono};

verus! {

broadcast use vstd::array::group_array_axioms;

#[derive(Debug, Copy, Clone, PartialEq, Eq, Structural)]
pub enum Side {
    A,
    B,
}

impl Side {
    pub open spec fn spec_other(self) -> Side {
        match self {
            Side::A => Side::B,
            Side::B => Side::A,
        }
    }

    pub fn other(&self) -> (r: Side)
        ensures
            r == self.spec_other(),
    {
        match self {
            Side::A => Side::B,
            Side::B => Side::A,
        }
    }
}

impl Player for Side {
    fn same(&self, other: &Self) -> (r: bool) {
        match (self, other) {
            (Side::A, Side::A) => true,
            (Side::B, Side::B) => true,
            _ => false,
        }
    }

    proof fn lemma_two_sides(a: Self, b: Self, c: Self) {
    }
}

/// Take this many from the counter.
#[derive(Debug, Copy, Clone, PartialEq, Eq, Structural)]
pub struct Take(pub u32);

impl Action for Take {
    fn same(&self, other: &Self) -> (r: bool) {
        *self == *other
    }
}

#[derive(Debug, Copy, Clone)]
pub struct Countdown {
    pub n: u32,
    pub side: Side,
    /// A move a policy would favour; carried along unchanged by every move.
    pub favored: Option<u32>,
}

impl Countdown {
    pub fn new(n: u32) -> (r: Self)
        ensures
            r == (Countdown { n, side: Side::A, favored: None }),
    {
        Countdown { n, side: Side::A, favored: None }
    }

    /// As `new`, recording `favored` as the move a policy would favour.
    pub fn with_policy_bias(n: u32, favored: u32) -> (r: Self)
        ensures
            r == (Countdown { n, side: Side::A, favored: Some(favored) }),
    {
        Countdown { n, side: Side::A, favored: Some(favored) }
    }

    /// The subtraction game's value: with a multiple of 4 counters left the side to
    /// move cannot avoid losing, and otherwise it can force a win, within as many
    /// moves as there are counters.
    pub proof fn lemma_losing_iff_multiple_of_four(g: Countdown)
        ensures
            g.n % 4 == 0 ==> must_lose::<Side, Take, Countdown>(g, g.side, g.n as nat),
            g.n % 4 != 0 ==> can_win::<Side, Take, Countdown>(g, g.side, g.n as nat),
        decreases g.n,
    {
        let other = g.side.spec_other();
        assert(other != g.side);
        if g.n == 0 {
        } else if g.n % 4 != 0 {
            let k = g.n % 4;
            let a = Take(k);
            assert(g.legal(a));
            let nx = g.next(a);
            Self::lemma_losing_iff_multiple_of_four(nx);
            lemma_flip::<Side, Take, Countdown>(nx, g.side, other, nx.n as nat);
            lemma_games_mono::<Side, Take, Countdown>(nx, g.side, nx.n as nat, (g.n - 1) as nat);
            assert(can_win::<Side, Take, Countdown>(nx, g.side, (g.n - 1) as nat));
        } else {
            assert forall|a: Take| #[trigger] g.legal(a) implies must_lose::<Side, Take, Countdown>(
                g.next(a),
                g.side,
                (g.n - 1) as nat,
            ) by {
                let nx = g.next(a);
                Self::lemma_losing_iff_multiple_of_four(nx);
                lemma_flip::<Side, Take, Countdown>(nx, g.side, other, nx.n as nat);
                lemma_games_mono::<Side, Take, Countdown>(nx, g.side, nx.n as nat, (g.n - 1) as nat);
            }
        }
    }

    /// True when the side to move loses under best play: the counter is a multiple
    /// of 4 (see `lemma_losing_iff_multiple_of_four`).
    pub fn is_losing_position(&self) -> (r: bool)
        ensures
            r == (self.n % 4 == 0),
    {
        self.n % 4 == 0
    }

    pub open spec fn side_bit(side: Side) -> u64 {
        if side == Side::B {
            1
        } else {
            0
        }
    }
}

impl GameState<Side, Take> for Countdown {
    open spec fn outcome(&self) -> Option<GameResult> {
        if self.n == 0 {
            Some(GameResult::Lose)
        } else {
            None
        }
    }

    open spec fn legal(&self, a: Take) -> bool {
        1 <= a.0 <= 3 && a.0 <= self.n
    }

    open spec fn next(&self, a: Take) -> Self {
        Countdown { n: (self.n - a.0) as u32, side: self.side.spec_other(), favored: self.favored }
    }

    open spec fn mover(&self) -> Side {
        self.side
    }

    open spec fn key(&self) -> u64 {
        ((self.n as u64) << 1u64) | Self::side_bit(self.side)
    }

    open spec fn key_identifies() -> bool {
        true
    }

    proof fn lemma_key_identifies(a: Self, b: Self, x: Take) {
        if a.key() == b.key() {
            let xa = a.n as u64;
            let xb = b.n as u64;
            let sa = Self::side_bit(a.side);
            let sb = Self::side_bit(b.side);
            assert(xa == xb && sa == sb) by (bit_vector)
                requires
                    ((xa << 1u64) | sa) == ((xb << 1u64) | sb),
                    sa <= 1,
                    sb <= 1,
                    xa <= 0xffff_ffff,
                    xb <= 0xffff_ffff,
            ;
        }
    }

    fn actions(&self) -> (v: Vec<Take>) {
        let mut v: Vec<Take> = Vec::new();
        let mut k: u32 = 1;
        while k <= 3
            invariant
                1 <= k <= 4,
                self.n >= 1,
                forall|i: int| 0 <= i < v.len() ==> self.legal(#[trigger] v[i]),
                forall|i: int| 0 <= i < v.len() ==> (#[trigger] v[i]).0 == i + 1,
                v.len() == (if k - 1 <= self.n { k - 1 } else { self.n as int }),
            decreases 4 - k,
        {
            if k <= self.n {
                v.push(Take(k));
            }
            k = k + 1;
        }
        assert forall|a: Take| #[trigger] self.legal(a) implies v@.contains(a) by {
            assert(v@[a.0 - 1] == a);
        }
        v
    }

    fn make(&self, action: Take) -> (s: Self) {
        Countdown { n: self.n - action.0, side: self.side.other(), favored: self.favored }
    }

    fn gameover(&self) -> (r: Option<GameResult>) {
        if self.n == 0 {
            Some(GameResult::Lose)
        } else {
            None
        }
    }

    fn player(&self) -> (p: Side) {
        self.side
    }

    /// The counter and the side to move, packed; distinct for distinct positions.
    fn hash(&self) -> (h: u64) {
        let bit: u64 = if self.side == Side::B {
            1
        } else {
            0
        };
        ((self.n as u64) << 1u64) | bit
    }

    fn custom_evaluation(&self) -> (v: u64)
        ensures
            v == HALF,
    {
        HALF
    }

    open spec fn evaluation(&self) -> u64 {
        HALF
    }

    /// A hundred times the weight of any other move for the favoured move, if any.
    fn policy(&self, action: Take) -> (r: u64)
        ensures
            r == (if self.favored == Some(action.0) {
                100 * ONE
            } else {
                ONE as int
            }),
    {
        match self.favored {
            Some(k) => {
                if action.0 == k {
                    100 * ONE
                } else {
                    ONE
                }
            },
            None => ONE,
        }
    }
}

/// The number of slots.
pub const SLOTS: usize = 8;

/// Claim this slot.
#[derive(Debug, Copy, Clone, PartialEq, Eq, Structural)]
pub struct Pick(pub usize);

impl Action for Pick {
    fn same(&self, other: &Self) -> (r: bool) {
        *self == *other
    }
}

#[derive(Debug, Copy, Clone)]
pub struct SlotPick {
    pub claimed: [bool; SLOTS],
    pub reward: [u8; SLOTS],
    pub score_a: u32,
    pub score_b: u32,
    pub side: Side,
}

impl SlotPick {
    /// A fresh game where the listed slots are worth 1 and the others 0.
    pub fn new(good_slots: &[usize]) -> (r: Self)
        requires
            forall|i: int| 0 <= i < good_slots@.len() ==> #[trigger] good_slots@[i] < SLOTS,
        ensures
            forall|k: int| 0 <= k < SLOTS ==> !(#[trigger] r.claimed@[k]),
            forall|k: int|
                0 <= k < SLOTS ==> #[trigger] r.reward@[k] == if good_slots@.contains(k as usize) {
                    1u8
                } else {
                    0u8
                },
            r.score_a == 0,
            r.score_b == 0,
            r.side == Side::A,
    {
        let mut reward: [u8; SLOTS] = [0u8; SLOTS];
        let mut i: usize = 0;
        while i < good_slots.len()
            invariant
                0 <= i <= good_slots@.len(),
                forall|j: int| 0 <= j < good_slots@.len() ==> #[trigger] good_slots@[j] < SLOTS,
                forall|k: int|
                    0 <= k < SLOTS ==> #[trigger] reward@[k] == if good_slots@.subrange(
                        0,
                        i as int,
                    ).contains(k as usize) {
                        1u8
                    } else {
                        0u8
                    },
            decreases good_slots@.len() - i,
        {
            let g = good_slots[i];
            reward[g] = 1;
            proof {
                assert forall|k: int| 0 <= k < SLOTS implies #[trigger] reward@[k] == if good_slots@.subrange(
                    0,
                    i + 1,
                ).contains(k as usize) {
                    1u8
                } else {
                    0u8
                } by {
                    let s0 = good_slots@.subrange(0, i as int);
                    let s1 = good_slots@.subrange(0, i + 1);
                    assert(s1 =~= s0.push(g));
                    if s1.contains(k as usize) && k as usize != g {
                        let w = choose|w: int| 0 <= w < s1.len() && s1[w] == k as usize;
                        assert(s0[w] == k as usize);
                    }
                    if s0.contains(k as usize) {
                        let w = choose|w: int| 0 <= w < s0.len() && s0[w] == k as usize;
                        assert(s1[w] == k as usize);
                    }
                    if k as usize == g {
                        assert(s1[i as int] == g);
                    }
                }
            }
            i = i + 1;
        }
        assert(good_slots@.subrange(0, good_slots@.len() as int) =~= good_slots@);
        SlotPick { claimed: [false; SLOTS], reward, score_a: 0, score_b: 0, side: Side::A }
    }

    pub open spec fn all_claimed(&self) -> bool {
        forall|k: int| 0 <= k < SLOTS ==> #[trigger] self.claimed@[k]
    }
}

impl GameState<Side, Pick> for SlotPick {
    open spec fn outcome(&self) -> Option<GameResult> {
        if self.all_claimed() {
            let (mine, theirs) = match self.side {
                Side::A => (self.score_a, self.score_b),
                Side::B => (self.score_b, self.score_a),
            };
            Some(
                if mine > theirs {
                    GameResult::Win
                } else if mine < theirs {
                    GameResult::Lose
                } else {
                    GameResult::Draw
                },
            )
        } else {
            None
        }
    }

    open spec fn legal(&self, a: Pick) -> bool {
        a.0 < SLOTS && !self.claimed@[a.0 as int]
    }

    open spec fn next(&self, a: Pick) -> Self {
        let gain = self.reward@[a.0 as int] as u32;
        SlotPick {
            claimed: vstd::array::spec_array_update(self.claimed, a.0 as int, true),
            reward: self.reward,
            score_a: if self.side == Side::A {
                self.score_a.wrapping_add(gain)
            } else {
                self.score_a
            },
            score_b: if self.side == Side::B {
                self.score_b.wrapping_add(gain)
            } else {
                self.score_b
            },
            side: self.side.spec_other(),
        }
    }

    open spec fn mover(&self) -> Side {
        self.side
    }

    open spec fn key(&self) -> u64 {
        0
    }

    open spec fn key_identifies() -> bool {
        false
    }

    proof fn lemma_key_identifies(a: Self, b: Self, x: Pick) {
    }

    fn actions(&self) -> (v: Vec<Pick>) {
        let mut v: Vec<Pick> = Vec::new();
        let mut i: usize = 0;
        while i < SLOTS
            invariant
                0 <= i <= SLOTS,
                forall|j: int| 0 <= j < v.len() ==> self.legal(#[trigger] v[j]),
                v.len() == 0 ==> forall|k: int| 0 <= k < i ==> #[trigger] self.claimed@[k],
                forall|k: int| 0 <= k < i && !self.claimed@[k] ==> #[trigger] v@.contains(Pick(k as usize)),
            decreases SLOTS - i,
        {
            if !self.claimed[i] {
                let ghost before = v@;
                v.push(Pick(i));
                assert forall|k: int| 0 <= k < i + 1 && !self.claimed@[k] implies #[trigger] v@.contains(
                    Pick(k as usize),
                ) by {
                    if k < i {
                        assert(before.contains(Pick(k as usize)));
                        let j = choose|j: int| 0 <= j < before.len() && before[j] == Pick(k as usize);
                        assert(v@[j] == Pick(k as usize));
                    } else {
                        assert(v@[v.len() - 1] == Pick(k as usize));
                    }
                }
            }
            i = i + 1;
        }
        assert forall|a: Pick| #[trigger] self.legal(a) implies v@.contains(a) by {
            assert(!self.claimed@[a.0 as int]);
            assert(v@.contains(Pick((a.0 as int) as usize)));
        }
        v
    }

    fn make(&self, action: Pick) -> (s: Self) {
        let mut next = *self;
        next.claimed[action.0] = true;
        let gain = self.reward[action.0] as u32;
        match self.side {
            Side::A => next.score_a = self.score_a.wrapping_add(gain),
            Side::B => next.score_b = self.score_b.wrapping_add(gain),
        }
        next.side = self.side.other();
        assert(next.claimed =~= vstd::array::spec_array_update(self.claimed, action.0 as int, true));
        next
    }

    fn gameover(&self) -> (r: Option<GameResult>) {
        let mut i: usize = 0;
        while i < SLOTS
            invariant
                0 <= i <= SLOTS,
                forall|k: int| 0 <= k < i ==> #[trigger] self.claimed@[k],
            decreases SLOTS - i,
        {
            if !self.claimed[i] {
                return None;
            }
            i = i + 1;
        }
        let (mine, theirs) = match self.side {
            Side::A => (self.score_a, self.score_b),
            Side::B => (self.score_b, self.score_a),
        };
        Some(
            if mine > theirs {
                GameResult::Win
            } else if mine < theirs {
                GameResult::Lose
            } else {
                GameResult::Draw
            },
        )
    }

    fn player(&self) -> (p: Side) {
        self.side
    }

    fn hash(&self) -> (h: u64)
        ensures
            h == 0,
    {
        0
    }

    fn custom_evaluation(&self) -> (v: u64)
        ensures
            v == HALF,
    {
        HALF
    }

    open spec fn evaluation(&self) -> u64 {
        HALF
    }
}

} // verus!
