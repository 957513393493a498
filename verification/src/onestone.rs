//! OneStone ("EinStein würfelt nicht!") on a 5x5 board. Each side has six cubes
//! numbered 1 to 6; a die roll names the cube to move (or, when that cube is gone,
//! the nearest lower and nearest higher cubes still on the board). Side A moves
//! right, down or down-right, side B the opposite; a cube landing on another
//! captures it. A side wins by reaching the opposite corner or capturing every enemy
//! cube. Die rolls come from a seed mixed with each move played.

use vstd::prelude::*;
use crate::fixed::HALF;
use crate::game::{GameResult, Player, Action, GameState};
use crate::rng::{os_random_bytes, le_u64_at, read_le_u64};
use crate::labels::{decimal, push_decimal};
use vstd::string::StringExecFns;

verus! {

broadcast use vstd::array::group_array_axioms;

pub const SIZE: usize = 5;

pub const SPACES: usize = 25;

#[derive(Debug, Copy, Clone, PartialEq, Eq, Structural)]
pub enum Side {
    A,
    B,
}

impl Side {
    pub open spec fn spec_other(self) -> Side {
        match self {
            Side::A => Side::B,
            Side::B => Side::A,
        }
    }

    fn other(&self) -> (r: Side)
        ensures
            r == self.spec_other(),
    {
        match *self {
            Side::A => Side::B,
            Side::B => Side::A,
        }
    }

    /// The side's name.
    pub fn name(&self) -> (r: &'static str)
        ensures
            r@ == (if *self == Side::A {
                "A"@
            } else {
                "B"@
            }),
    {
        match self {
            Side::A => "A",
            Side::B => "B",
        }
    }
}

impl Player for Side {
    fn same(&self, other: &Self) -> (r: bool) {
        *self == *other
    }

    proof fn lemma_two_sides(a: Self, b: Self, c: Self) {
    }
}

#[derive(Debug, Copy, Clone, PartialEq, Eq, Structural)]
pub enum Square {
    Empty,
    Piece(Side, u8),
}

/// Which numbered cube to move and its destination square (row-major index). Number
/// 0 is reserved for passing, when a side has no move at all; it leaves the board as
/// it is.
#[derive(Debug, Copy, Clone, PartialEq, Eq, Structural)]
pub struct Move {
    pub number: u8,
    pub to: usize,
}

impl Action for Move {
    fn same(&self, other: &Self) -> (r: bool) {
        *self == *other
    }
}

/// The pass move.
pub open spec fn spec_pass() -> Move {
    Move { number: 0, to: usize::MAX }
}

pub open spec fn spec_rowcol(i: int) -> (int, int) {
    (i / 5, i % 5)
}

/// The splitmix64-style step that mixes a move into the seed: the new seed, and the
/// die roll (1 to 6) drawn from it.
pub open spec fn spec_next_die(seed: u64, action: Move) -> (u64, u8) {
    let mixed = seed ^ (action.number as u64).wrapping_mul(0x9E3779B97F4A7C15u64) ^ (
    action.to as u64).wrapping_mul(0xC2B2AE3D27D4EB4Fu64);
    let z0 = mixed.wrapping_add(0x9E3779B97F4A7C15u64);
    let z1 = (z0 ^ (z0 >> 30u64)).wrapping_mul(0xBF58476D1CE4E5B9u64);
    let z2 = (z1 ^ (z1 >> 27u64)).wrapping_mul(0x94D049BB133111EBu64);
    let z3 = z2 ^ (z2 >> 31u64);
    (z3, ((z3 % 6) as u8 + 1) as u8)
}

/// Mixes `action` into `seed`, so that the die sequence depends on the path of play
/// and not only on the depth; returns the new seed and the die roll.
fn next_die(seed: u64, action: Move) -> (r: (u64, u8))
    ensures
        r == spec_next_die(seed, action),
        1 <= r.1 <= 6,
{
    let mixed = seed ^ (action.number as u64).wrapping_mul(0x9E3779B97F4A7C15u64) ^ (
    action.to as u64).wrapping_mul(0xC2B2AE3D27D4EB4Fu64);
    let mut z = mixed.wrapping_add(0x9E3779B97F4A7C15u64);
    z = (z ^ (z >> 30u64)).wrapping_mul(0xBF58476D1CE4E5B9u64);
    z = (z ^ (z >> 27u64)).wrapping_mul(0x94D049BB133111EBu64);
    z = z ^ (z >> 31u64);
    let die = ((z % 6) as u8) + 1;
    (z, die)
}

/// The little-endian number that the 8 bytes of `b` spell.
pub fn seed_from_bytes(b: &Vec<u8>) -> (r: u64)
    requires
        b.len() == 8,
    ensures
        r == le_u64_at(b@, 0),
{
    read_le_u64(b, 0)
}

/// The starting squares and numbers of side A's cubes.
pub open spec fn start_a(i: int) -> Option<u8> {
    if i == 0 {
        Some(1u8)
    } else if i == 1 {
        Some(2u8)
    } else if i == 2 {
        Some(4u8)
    } else if i == 5 {
        Some(3u8)
    } else if i == 6 {
        Some(5u8)
    } else if i == 10 {
        Some(6u8)
    } else {
        None
    }
}

/// The starting squares and numbers of side B's cubes: side A's, mirrored through the
/// centre.
pub open spec fn start_b(i: int) -> Option<u8> {
    start_a(24 - i)
}

/// The corner a side races to.
pub open spec fn spec_target_corner(side: Side) -> int {
    match side {
        Side::A => 24,
        Side::B => 0,
    }
}

#[derive(Debug, Copy, Clone)]
pub struct Onestone {
    pub board: [Square; SPACES],
    pub side: Side,
    pub die: u8,
    /// The state the die rolls are drawn from.
    pub seed: u64,
}

impl Onestone {
    /// The first square holding `side`'s cube `number` at or after `i`.
    pub open spec fn find_from(self, side: Side, number: u8, i: int) -> Option<usize>
        decreases 25 - i,
    {
        if i >= 25 || i < 0 {
            None
        } else if self.board@[i] == Square::Piece(side, number) {
            Some(i as usize)
        } else {
            self.find_from(side, number, i + 1)
        }
    }

    /// Whether `side` still has cube `n` (a number from 1 to 6) on the board.
    pub open spec fn has(self, side: Side, n: int) -> bool {
        0 <= n <= 6 && exists|i: int| 0 <= i < 25 && self.board@[i] == Square::Piece(side, n as u8)
    }

    /// The move of the mover's cube `number` from `pos` by `d`, if on the board and
    /// not onto one of the mover's own cubes.
    pub open spec fn delta_move(self, number: u8, pos: int, d: (int, int)) -> Option<Move> {
        let (row, col) = spec_rowcol(pos);
        let r = row + d.0;
        let c = col + d.1;
        if 0 <= r < 5 && 0 <= c < 5 {
            let to = r * 5 + c;
            if self.board@[to] is Piece && self.board@[to]->Piece_0 == self.side {
                None
            } else {
                Some(Move { number, to: to as usize })
            }
        } else {
            None
        }
    }

    /// `to` is one step from `from` in one of `side`'s directions: right, down or
    /// down-right for A, left, up or up-left for B.
    pub open spec fn one_step_toward(side: Side, from: int, to: int) -> bool {
        let dr = to / 5 - from / 5;
        let dc = to % 5 - from % 5;
        &&& (dr != 0 || dc != 0)
        &&& side == Side::A ==> 0 <= dr <= 1 && 0 <= dc <= 1
        &&& side == Side::B ==> -1 <= dr <= 0 && -1 <= dc <= 0
    }

    /// The three directions of the mover.
    pub open spec fn spec_deltas(side: Side) -> Seq<(int, int)> {
        match side {
            Side::A => seq![(0int, 1int), (1int, 0int), (1int, 1int)],
            Side::B => seq![(0int, -1int), (-1int, 0int), (-1int, -1int)],
        }
    }

    /// The moves of the mover's cube `number`, in the order of its directions.
    pub open spec fn moves_for(self, number: u8) -> Seq<Move> {
        match self.find_from(self.side, number, 0) {
            None => seq![],
            Some(pos) => {
                let ds = Self::spec_deltas(self.side);
                Self::opt(self.delta_move(number, pos as int, ds[0])) + Self::opt(
                    self.delta_move(number, pos as int, ds[1]),
                ) + Self::opt(self.delta_move(number, pos as int, ds[2]))
            },
        }
    }

    pub open spec fn opt(m: Option<Move>) -> Seq<Move> {
        match m {
            Some(x) => seq![x],
            None => seq![],
        }
    }

    /// The highest cube number at or below `l` the mover still has.
    pub open spec fn lower_from(self, l: int) -> Option<u8>
        decreases l,
    {
        if l < 1 {
            None
        } else if self.has(self.side, l) {
            Some(l as u8)
        } else {
            self.lower_from(l - 1)
        }
    }

    /// The lowest cube number from `h` to 6 the mover still has.
    pub open spec fn higher_from(self, h: int) -> Option<u8>
        decreases 7 - h,
    {
        if h > 6 {
            None
        } else if self.has(self.side, h) {
            Some(h as u8)
        } else {
            self.higher_from(h + 1)
        }
    }

    /// The cubes the die allows: the rolled one if present, otherwise the nearest
    /// lower and the nearest higher ones present.
    pub open spec fn candidates(self) -> Seq<u8> {
        if self.has(self.side, self.die as int) {
            seq![self.die]
        } else {
            let lo = match self.lower_from(self.die - 1) {
                Some(l) => seq![l],
                None => seq![],
            };
            let hi = match self.higher_from(self.die + 1) {
                Some(h) => seq![h],
                None => seq![],
            };
            lo + hi
        }
    }

    /// The moves of the cubes in `cands`, in order.
    pub open spec fn moves_of(self, cands: Seq<u8>) -> Seq<Move>
        decreases cands.len(),
    {
        if cands.len() == 0 {
            seq![]
        } else {
            self.moves_of(cands.drop_last()) + self.moves_for(cands.last())
        }
    }

    /// The moves of every cube numbered below `k` the mover has, in number order.
    pub open spec fn fallback_moves(self, k: int) -> Seq<Move>
        decreases k,
    {
        if k <= 1 {
            seq![]
        } else {
            self.fallback_moves(k - 1) + if self.has(self.side, k - 1) {
                self.moves_for((k - 1) as u8)
            } else {
                seq![]
            }
        }
    }

    /// The legal moves in the order `actions` lists them: those of the cubes the die
    /// allows; if they have none, those of every cube; if still none, the pass.
    pub open spec fn spec_actions(self) -> Seq<Move> {
        let m1 = self.moves_of(self.candidates());
        if m1.len() > 0 {
            m1
        } else {
            let m2 = self.fallback_moves(7);
            if m2.len() > 0 {
                m2
            } else {
                seq![spec_pass()]
            }
        }
    }

    /// The position after move `a`.
    pub open spec fn spec_make(self, a: Move) -> Onestone {
        let board = if a.number != 0 {
            let from = self.find_from(self.side, a.number, 0)->0;
            vstd::array::spec_array_update(
                vstd::array::spec_array_update(self.board, from as int, Square::Empty),
                a.to as int,
                Square::Piece(self.side, a.number),
            )
        } else {
            self.board
        };
        let (seed, die) = spec_next_die(self.seed, a);
        Onestone { board, side: self.side.spec_other(), die, seed }
    }

    /// Whether the side that just moved has reached its corner.
    pub open spec fn corner_reached(self) -> bool {
        let mover = self.side.spec_other();
        self.board@[spec_target_corner(mover)] is Piece && self.board@[spec_target_corner(
            mover,
        )]->Piece_0 == mover
    }

    /// Whether the side to move has no cube left.
    pub open spec fn wiped_out(self) -> bool {
        forall|i: int|
            0 <= i < 25 ==> !(#[trigger] self.board@[i] is Piece && self.board@[i]->Piece_0
                == self.side)
    }

    /// The starting board.
    pub open spec fn is_start_board(b: [Square; SPACES]) -> bool {
        forall|i: int|
            0 <= i < 25 ==> #[trigger] b@[i] == match start_a(i) {
                Some(n) => Square::Piece(Side::A, n),
                None => match start_b(i) {
                    Some(n) => Square::Piece(Side::B, n),
                    None => Square::Empty,
                },
            }
    }

    /// A game with a fresh seed from the operating system; `None` where the operating
    /// system supplies no entropy.
    pub fn new() -> (r: Option<Self>)
        ensures
            r matches Some(g) ==> Self::is_start_board(g.board) && g.side == Side::A && exists|seed: u64|
                (g.seed, g.die) == #[trigger] spec_next_die(seed, Move { number: 0, to: 0 }),
    {
        Self::from_seed_bytes(os_random_bytes(8))
    }

    /// The game that `new` starts from the operating system's answer `bytes`: seeded
    /// with the little-endian number of 8 bytes, and `None` where no bytes came.
    pub fn from_seed_bytes(bytes: Option<Vec<u8>>) -> (r: Option<Self>)
        ensures
            bytes is Some && bytes.unwrap().len() == 8 ==> (r matches Some(g) && Self::is_start_board(
                g.board,
            ) && g.side == Side::A && (g.seed, g.die) == spec_next_die(
                le_u64_at(bytes.unwrap()@, 0),
                Move { number: 0, to: 0 },
            )),
            !(bytes is Some && bytes.unwrap().len() == 8) ==> r is None,
    {
        match bytes {
            Some(b) => {
                if b.len() == 8 {
                    Some(Self::with_seed(seed_from_bytes(&b)))
                } else {
                    None
                }
            },
            None => None,
        }
    }

    /// The starting position, with the first die rolled from `seed`.
    pub fn with_seed(seed: u64) -> (r: Self)
        ensures
            Self::is_start_board(r.board),
            r.side == Side::A,
            (r.seed, r.die) == spec_next_die(seed, Move { number: 0, to: 0 }),
    {
        let mut board: [Square; SPACES] = [Square::Empty; SPACES];
        let cubes_a: [(usize, u8); 6] = [(0, 1), (1, 2), (2, 4), (5, 3), (6, 5), (10, 6)];
        let cubes_b: [(usize, u8); 6] = [(14, 6), (18, 5), (19, 3), (22, 4), (23, 2), (24, 1)];
        let mut k: usize = 0;
        while k < 6
            invariant
                0 <= k <= 6,
                cubes_a@ == seq![(0usize, 1u8), (1usize, 2u8), (2usize, 4u8), (5usize, 3u8), (6usize, 5u8), (10usize, 6u8)],
                forall|i: int|
                    0 <= i < 25 ==> #[trigger] board@[i] == if exists|j: int|
                        0 <= j < k && cubes_a@[j].0 == i {
                        Square::Piece(Side::A, start_a(i)->0)
                    } else {
                        Square::Empty
                    },
            decreases 6 - k,
        {
            let (i, n) = cubes_a[k];
            board[i] = Square::Piece(Side::A, n);
            proof {
                assert forall|q: int| 0 <= q < 25 implies #[trigger] board@[q] == if exists|j: int|
                    0 <= j < k + 1 && cubes_a@[j].0 == q {
                    Square::Piece(Side::A, start_a(q)->0)
                } else {
                    Square::Empty
                } by {
                    if q == i {
                        assert(cubes_a@[k as int].0 == q);
                    }
                }
            }
            k = k + 1;
        }
        let mut k: usize = 0;
        while k < 6
            invariant
                0 <= k <= 6,
                cubes_b@ == seq![(14usize, 6u8), (18usize, 5u8), (19usize, 3u8), (22usize, 4u8), (23usize, 2u8), (24usize, 1u8)],
                forall|i: int|
                    0 <= i < 25 ==> #[trigger] board@[i] == if start_a(i) is Some {
                        Square::Piece(Side::A, start_a(i)->0)
                    } else if exists|j: int| 0 <= j < k && cubes_b@[j].0 == i {
                        Square::Piece(Side::B, start_b(i)->0)
                    } else {
                        Square::Empty
                    },
            decreases 6 - k,
        {
            let (i, n) = cubes_b[k];
            board[i] = Square::Piece(Side::B, n);
            proof {
                assert forall|q: int| 0 <= q < 25 implies #[trigger] board@[q] == if start_a(q) is Some {
                    Square::Piece(Side::A, start_a(q)->0)
                } else if exists|j: int| 0 <= j < k + 1 && cubes_b@[j].0 == q {
                    Square::Piece(Side::B, start_b(q)->0)
                } else {
                    Square::Empty
                } by {
                    if q == i {
                        assert(cubes_b@[k as int].0 == q);
                    }
                }
            }
            k = k + 1;
        }
        let (seed, die) = next_die(seed, Move { number: 0, to: 0 });
        Onestone { board, side: Side::A, die, seed }
    }

    /// Any position, with seed 0; no legality checks.
    pub fn debug_state(board: [Square; SPACES], side: Side, die: u8) -> (r: Self)
        ensures
            r.board == board,
            r.side == side,
            r.die == die,
            r.seed == 0,
    {
        Onestone { board, side, die, seed: 0 }
    }

    /// The position after playing `moves` in turn from `g`.
    pub open spec fn replay(g: Onestone, moves: Seq<Move>) -> Onestone
        decreases moves.len(),
    {
        if moves.len() == 0 {
            g
        } else {
            Self::replay(g, moves.drop_last()).spec_make(moves.last())
        }
    }

    /// The position after playing `moves` from the start with `seed`; each must be
    /// legal where it is played.
    pub fn load(seed: u64, moves: &[Move]) -> (r: Onestone)
        requires
            forall|g: Onestone|
                Self::is_start_board(g.board) && g.side == Side::A && (g.seed, g.die)
                    == spec_next_die(seed, Move { number: 0, to: 0 }) ==> forall|i: int|
                    0 <= i < moves@.len() ==> #[trigger] Self::replay(g, moves@.take(i)).legal(
                        moves@[i],
                    ),
        ensures
            Self::replay(Self::with_seed_spec(seed), moves@) == r,
    {
        let mut g = Self::with_seed(seed);
        assert(g.board =~= Self::with_seed_spec(seed).board);
        let ghost g0 = g;
        let mut i: usize = 0;
        while i < moves.len()
            invariant
                0 <= i <= moves@.len(),
                g0 == Self::with_seed_spec(seed),
                forall|j: int|
                    0 <= j < moves@.len() ==> #[trigger] Self::replay(g0, moves@.take(j)).legal(
                        moves@[j],
                    ),
                g == Self::replay(g0, moves@.take(i as int)),
            decreases moves@.len() - i,
        {
            assert(moves@.take(i + 1).drop_last() =~= moves@.take(i as int));
            assert(moves@.take(i + 1).last() == moves@[i as int]);
            g = g.make(moves[i]);
            i = i + 1;
        }
        assert(moves@.take(moves@.len() as int) =~= moves@);
        g
    }

    /// The starting position with the first die rolled from `seed`.
    pub open spec fn with_seed_spec(seed: u64) -> Onestone {
        let (s, d) = spec_next_die(seed, Move { number: 0, to: 0 });
        Onestone {
            board: choose|b: [Square; SPACES]| Self::is_start_board(b),
            side: Side::A,
            die: d,
            seed: s,
        }
    }

    /// The first square holding `side`'s cube `number`.
    fn find(&self, side: Side, number: u8) -> (r: Option<usize>)
        ensures
            r == self.find_from(side, number, 0),
    {
        let mut i: usize = 0;
        while i < SPACES
            invariant
                0 <= i <= 25,
                self.find_from(side, number, 0) == self.find_from(side, number, i as int),
            decreases 25 - i,
        {
            if self.board[i] == Square::Piece(side, number) {
                return Some(i);
            }
            i = i + 1;
        }
        None
    }

    /// For each number up to 6, whether `side` still has that cube.
    fn present(&self, side: Side) -> (p: [bool; 7])
        ensures
            forall|n: int| 0 <= n < 7 ==> #[trigger] p@[n] == self.has(side, n),
    {
        let mut p: [bool; 7] = [false, false, false, false, false, false, false];
        let mut i: usize = 0;
        while i < SPACES
            invariant
                0 <= i <= 25,
                forall|n: int|
                    0 <= n < 7 ==> #[trigger] p@[n] == exists|j: int|
                        0 <= j < i && self.board@[j] == Square::Piece(side, n as u8),
            decreases 25 - i,
        {
            if let Square::Piece(s, n) = self.board[i] {
                if s == side && n <= 6 {
                    p[n as usize] = true;
                }
            }
            proof {
                assert forall|m: int| 0 <= m < 7 implies #[trigger] p@[m] == exists|j: int|
                    0 <= j < i + 1 && self.board@[j] == Square::Piece(side, m as u8) by {
                    if self.board@[i as int] == Square::Piece(side, m as u8) {
                        assert(0 <= i < i + 1);
                    }
                }
            }
            i = i + 1;
        }
        p
    }

    fn deltas(side: Side) -> (r: [(i8, i8); 3])
        ensures
            forall|k: int|
                0 <= k < 3 ==> (#[trigger] r@[k].0 as int, r@[k].1 as int) == Self::spec_deltas(
                    side,
                )[k],
    {
        match side {
            Side::A => [(0, 1), (1, 0), (1, 1)],
            Side::B => [(0, -1), (-1, 0), (-1, -1)],
        }
    }

    /// Appends the moves of the mover's cube `number`; returns how many.
    fn emit_moves_for(&self, number: u8, v: &mut Vec<Move>) -> (count: usize)
        ensures
            final(v)@ == old(v)@ + self.moves_for(number),
            count == self.moves_for(number).len(),
    {
        let side = self.side;
        let ghost base = v@;
        proof {
            self.lemma_find_bound(side, number, 0);
        }
        match self.find(side, number) {
            None => 0,
            Some(pos) => {
                let ds = Self::deltas(side);
                let row = (pos / SIZE) as i8;
                let col = (pos % SIZE) as i8;
                let mut k: usize = 0;
                let mut count: usize = 0;
                let ghost sds = Self::spec_deltas(side);
                while k < 3
                    invariant
                        0 <= k <= 3,
                        self.find_from(side, number, 0) == Some(pos),
                        pos < 25,
                        row == pos / 5,
                        col == pos % 5,
                        side == self.side,
                        sds == Self::spec_deltas(side),
                        forall|j: int| 0 <= j < 3 ==> (#[trigger] ds@[j].0 as int, ds@[j].1 as int) == sds[j],
                        v@ == base + self.moves_prefix(number, pos as int, k as int),
                        count == self.moves_prefix(number, pos as int, k as int).len(),
                        count <= k,
                    decreases 3 - k,
                {
                    let (dr, dc) = ds[k];
                    assert((dr as int, dc as int) == sds[k as int]);
                    let r = row + dr;
                    let c = col + dc;
                    if r >= 0 && r < 5 && c >= 0 && c < 5 {
                        let to = (r as usize) * SIZE + (c as usize);
                        let blocked = match self.board[to] {
                            Square::Piece(s, _) => s == side,
                            Square::Empty => false,
                        };
                        if !blocked {
                            v.push(Move { number, to });
                            count = count + 1;
                        }
                    }
                    k = k + 1;
                }
                assert(self.moves_prefix(number, pos as int, 3) =~= self.moves_for(number)) by {
                    reveal_with_fuel(Onestone::moves_prefix, 4);
                }
                count
            },
        }
    }

    /// The moves of cube `number` from `pos` in the first `k` directions.
    pub open spec fn moves_prefix(self, number: u8, pos: int, k: int) -> Seq<Move>
        decreases k,
    {
        if k <= 0 {
            seq![]
        } else {
            self.moves_prefix(number, pos, k - 1) + Self::opt(
                self.delta_move(number, pos, Self::spec_deltas(self.side)[k - 1]),
            )
        }
    }

    /// The lowest cube number from `h` to 6 in `present`.
    fn higher_present(present: &[bool; 7], h: u8) -> (r: Option<u8>)
        requires
            h >= 1,
        ensures
            forall|g: Onestone|
                (forall|n: int| 0 <= n < 7 ==> #[trigger] present@[n] == g.has(g.side, n)) ==> r
                    == g.higher_from(h as int),
    {
        let mut k: u8 = h;
        while k <= 6
            invariant
                k >= h,
                forall|g: Onestone|
                    (forall|n: int| 0 <= n < 7 ==> #[trigger] present@[n] == g.has(g.side, n))
                        ==> g.higher_from(h as int) == g.higher_from(k as int),
            decreases 7 - k,
        {
            if present[k as usize] {
                return Some(k);
            }
            k = k + 1;
        }
        None
    }

    /// The highest cube number from `l` down to 1 in `present`.
    fn lower_present(present: &[bool; 7], l: u8) -> (r: Option<u8>)
        ensures
            forall|g: Onestone|
                (forall|n: int| 0 <= n < 7 ==> #[trigger] present@[n] == g.has(g.side, n)) ==> r
                    == g.lower_from(l as int),
    {
        let mut k: u8 = l;
        while k >= 1
            invariant
                k <= l,
                forall|g: Onestone|
                    (forall|n: int| 0 <= n < 7 ==> #[trigger] present@[n] == g.has(g.side, n))
                        ==> g.lower_from(l as int) == g.lower_from(k as int),
            decreases k,
        {
            if k <= 6 && present[k as usize] {
                return Some(k);
            }
            k = k - 1;
        }
        None
    }

    /// The legal moves, in order (see `spec_actions`).
    pub fn legal_moves(&self) -> (v: Vec<Move>)
        ensures
            v@ == self.spec_actions(),
    {
        let present = self.present(self.side);
        let mut v: Vec<Move> = Vec::new();
        let ghost cands = self.candidates();
        if self.die <= 6 && present[self.die as usize] {
            self.emit_moves_for(self.die, &mut v);
            proof {
                assert(cands =~= Seq::<u8>::empty().push(self.die));
                self.lemma_moves_of_push(Seq::<u8>::empty(), self.die);
            }
        } else {
            assert(!self.has(self.side, self.die as int));
            let lo = if self.die >= 1 {
                Self::lower_present(&present, self.die - 1)
            } else {
                None
            };
            let hi = if self.die < 255 {
                Self::higher_present(&present, self.die + 1)
            } else {
                None
            };
            proof {
                if self.die == 0 {
                    assert(self.lower_from(self.die - 1) is None);
                }
                if self.die == 255 {
                    assert(self.higher_from(self.die + 1) is None);
                }
            }
            let ghost lo_s: Seq<u8> = match lo {
                Some(l) => seq![l],
                None => seq![],
            };
            let ghost hi_s: Seq<u8> = match hi {
                Some(h) => seq![h],
                None => seq![],
            };
            assert(cands =~= lo_s + hi_s);
            match lo {
                Some(l) => {
                    self.emit_moves_for(l, &mut v);
                },
                None => {},
            }
            assert(v@ =~= self.moves_of(lo_s)) by {
                if let Some(l) = lo {
                    assert(lo_s =~= Seq::<u8>::empty().push(l));
                    self.lemma_moves_of_push(Seq::<u8>::empty(), l);
                }
            }
            match hi {
                Some(h) => {
                    self.emit_moves_for(h, &mut v);
                },
                None => {},
            }
            assert(v@ =~= self.moves_of(cands)) by {
                if let Some(h) = hi {
                    assert(lo_s + hi_s =~= lo_s.push(h));
                    self.lemma_moves_of_push(lo_s, h);
                } else {
                    assert(lo_s + hi_s =~= lo_s);
                }
            }
        }
        if v.len() == 0 {
            let mut n: u8 = 1;
            while n <= 6
                invariant
                    1 <= n <= 7,
                    forall|k: int| 0 <= k < 7 ==> #[trigger] present@[k] == self.has(self.side, k),
                    v@ == self.fallback_moves(n as int),
                    self.moves_of(self.candidates()).len() == 0,
                decreases 7 - n,
            {
                if present[n as usize] {
                    self.emit_moves_for(n, &mut v);
                }
                assert(v@ =~= self.fallback_moves(n + 1));
                n = n + 1;
            }
            if v.len() == 0 {
                v.push(Move { number: 0, to: usize::MAX });
            }
        }
        assert(v@ =~= self.spec_actions());
        v
    }

    fn target_corner(side: Side) -> (r: usize)
        ensures
            r == spec_target_corner(side),
    {
        match side {
            Side::A => SPACES - 1,
            Side::B => 0,
        }
    }
}

impl GameState<Side, Move> for Onestone {
    open spec fn outcome(&self) -> Option<GameResult> {
        if self.corner_reached() || self.wiped_out() {
            Some(GameResult::Lose)
        } else {
            None
        }
    }

    open spec fn legal(&self, a: Move) -> bool {
        self.spec_actions().contains(a)
    }

    open spec fn next(&self, a: Move) -> Self {
        self.spec_make(a)
    }

    open spec fn mover(&self) -> Side {
        self.side
    }

    open spec fn key(&self) -> u64 {
        0
    }

    open spec fn key_identifies() -> bool {
        false
    }

    proof fn lemma_key_identifies(a: Self, b: Self, x: Move) {
    }

    fn actions(&self) -> (v: Vec<Move>)
        ensures
            v@ == self.spec_actions(),
    {
        let v = self.legal_moves();
        assert forall|i: int| 0 <= i < v.len() implies self.legal(#[trigger] v[i]) by {
            assert(v@[i] == v[i]);
        }
        v
    }

    fn make(&self, action: Move) -> (s: Self) {
        let side = self.side;
        let mut board = self.board;
        if action.number != 0 {
            proof {
                self.lemma_legal_move(action);
            }
            let from = match self.find(side, action.number) {
                Some(f) => f,
                None => {
                    assert(false);
                    0
                },
            };
            board[from] = Square::Empty;
            board[action.to] = Square::Piece(side, action.number);
        }
        let (seed, die) = next_die(self.seed, action);
        let r = Onestone { board, side: side.other(), die, seed };
        assert(r.board =~= self.spec_make(action).board);
        r
    }

    fn gameover(&self) -> (r: Option<GameResult>) {
        let mover = self.side.other();
        let corner = Self::target_corner(mover);
        let reached = match self.board[corner] {
            Square::Piece(s, _) => s == mover,
            Square::Empty => false,
        };
        let mut next_to_move_pieces: usize = 0;
        let mut i: usize = 0;
        while i < SPACES
            invariant
                0 <= i <= 25,
                next_to_move_pieces <= i,
                (next_to_move_pieces == 0) == forall|j: int|
                    0 <= j < i ==> !(#[trigger] self.board@[j] is Piece && self.board@[j]->Piece_0
                        == self.side),
            decreases 25 - i,
        {
            if let Square::Piece(s, _) = self.board[i] {
                if s == self.side {
                    next_to_move_pieces = next_to_move_pieces + 1;
                }
            }
            i = i + 1;
        }
        if reached || next_to_move_pieces == 0 {
            Some(GameResult::Lose)
        } else {
            None
        }
    }

    fn player(&self) -> (p: Side) {
        self.side
    }

    fn hash(&self) -> (h: u64)
        ensures
            h == 0,
    {
        0
    }

    fn custom_evaluation(&self) -> (v: u64)
        ensures
            v == HALF,
    {
        HALF
    }
    open spec fn evaluation(&self) -> u64 {
        HALF
    }
}

impl Onestone {
    /// A legal move of a numbered cube moves a cube the mover has, onto the board.
    /// The die picks the cube: when the mover still has the rolled cube and that cube
    /// can move, every legal move moves it.
    pub proof fn lemma_die_picks_the_cube(self, m: Move)
        requires
            self.legal(m),
            self.has(self.side, self.die as int),
            self.moves_for(self.die).len() > 0,
        ensures
            m.number == self.die,
    {
        assert(self.candidates() == seq![self.die]);
        let one = seq![self.die];
        assert(one.drop_last() =~= Seq::<u8>::empty());
        assert(one.last() == self.die);
        assert(self.moves_of(Seq::<u8>::empty()) == Seq::<Move>::empty());
        assert(self.moves_of(one) == self.moves_of(one.drop_last()) + self.moves_for(one.last()));
        assert(self.moves_of(one) =~= self.moves_for(self.die));
        self.lemma_moves_for(self.die, m);
    }

    /// A cube moves one square toward its side's target corner: side A's right, down
    /// or diagonally down-right, side B's left, up or diagonally up-left; its row and
    /// column never move away from that corner. The moved cube is one of the mover's.
    pub proof fn lemma_cubes_move_toward_the_corner(self, m: Move)
        requires
            self.legal(m),
            m.number != 0,
        ensures
            self.find_from(self.side, m.number, 0) matches Some(from) && {
                let dr = m.to / 5 - from / 5;
                let dc = m.to % 5 - from % 5;
                &&& from < 25 && m.to < 25
                &&& self.board@[from as int] == Square::Piece(self.side, m.number)
                &&& dr != 0 || dc != 0
                &&& self.side == Side::A ==> 0 <= dr <= 1 && 0 <= dc <= 1
                &&& self.side == Side::B ==> -1 <= dr <= 0 && -1 <= dc <= 0
            },
    {
        self.lemma_legal_move(m);
        self.lemma_find_found(self.side, m.number, 0);
    }

    /// When the mover still has the rolled cube, each of its three steps toward the
    /// mover's corner (right, down, down-right for A; left, up, up-left for B) that
    /// stays on the board and does not land on one of the mover's own cubes is legal.
    pub proof fn lemma_rolled_cube_steps_are_legal(self, dr: int, dc: int)
        requires
            self.has(self.side, self.die as int),
            self.side == Side::A ==> 0 <= dr <= 1 && 0 <= dc <= 1,
            self.side == Side::B ==> -1 <= dr <= 0 && -1 <= dc <= 0,
            dr != 0 || dc != 0,
        ensures
            self.find_from(self.side, self.die, 0) matches Some(from) && {
                let r = from / 5 + dr;
                let c = from % 5 + dc;
                0 <= r < 5 && 0 <= c < 5 && !(self.board@[r * 5 + c] is Piece && self.board@[r * 5
                    + c]->Piece_0 == self.side) ==> self.legal(Move { number: self.die, to: (r * 5 + c) as usize })
            },
    {
        let n = self.die;
        let i = choose|i: int| 0 <= i < 25 && self.board@[i] == Square::Piece(self.side, n);
        self.lemma_find_complete(self.side, n, 0, i);
        self.lemma_find_bound(self.side, n, 0);
        let from = self.find_from(self.side, n, 0)->0 as int;
        let r = from / 5 + dr;
        let c = from % 5 + dc;
        if 0 <= r < 5 && 0 <= c < 5 && !(self.board@[r * 5 + c] is Piece && self.board@[r * 5 + c]->Piece_0
            == self.side) {
            let ds = Self::spec_deltas(self.side);
            let k: int = if dr == 0 {
                0
            } else if dc == 0 {
                1
            } else {
                2
            };
            assert(ds[k] == (dr, dc));
            let mv = Move { number: n, to: (r * 5 + c) as usize };
            assert(self.delta_move(n, from, ds[k]) == Some(mv));
            let a0 = Self::opt(self.delta_move(n, from, ds[0]));
            let a1 = Self::opt(self.delta_move(n, from, ds[1]));
            let a2 = Self::opt(self.delta_move(n, from, ds[2]));
            assert(self.moves_for(n) == a0 + a1 + a2);
            if k == 0 {
                assert((a0 + a1 + a2)[0] == mv);
            } else if k == 1 {
                assert((a0 + a1 + a2)[a0.len() as int] == mv);
            } else {
                assert((a0 + a1 + a2)[(a0.len() + a1.len()) as int] == mv);
            }
            assert(self.moves_for(n).contains(mv));
            let one = seq![n];
            assert(self.candidates() == one);
            assert(one.drop_last() =~= Seq::<u8>::empty());
            assert(self.moves_of(Seq::<u8>::empty()) == Seq::<Move>::empty());
            assert(self.moves_of(one) == self.moves_of(one.drop_last()) + self.moves_for(one.last()));
            assert(self.moves_of(one) =~= self.moves_for(n));
            assert(self.spec_actions() == self.moves_for(n));
        }
    }

    proof fn lemma_find_complete(self, side: Side, number: u8, i: int, j: int)
        requires
            0 <= i <= j < 25,
            self.board@[j] == Square::Piece(side, number),
        ensures
            self.find_from(side, number, i) is Some,
        decreases 25 - i,
    {
        if self.board@[i] != Square::Piece(side, number) {
            self.lemma_find_complete(side, number, i + 1, j);
        }
    }

    proof fn lemma_find_found(self, side: Side, number: u8, i: int)
        ensures
            self.find_from(side, number, i) matches Some(p) ==> self.board@[p as int] == Square::Piece(side, number),
        decreases 25 - i,
    {
        if 0 <= i < 25 && self.board@[i] != Square::Piece(side, number) {
            self.lemma_find_found(side, number, i + 1);
        }
    }

    proof fn lemma_legal_move(self, m: Move)
        requires
            self.spec_actions().contains(m),
            m.number != 0,
        ensures
            self.find_from(self.side, m.number, 0) is Some,
            self.find_from(self.side, m.number, 0)->0 < 25,
            m.to < 25,
            Self::one_step_toward(self.side, self.find_from(self.side, m.number, 0)->0 as int, m.to as int),
    {
        let m1 = self.moves_of(self.candidates());
        if m1.len() > 0 {
            self.lemma_moves_of(self.candidates(), m);
        } else {
            let m2 = self.fallback_moves(7);
            if m2.len() > 0 {
                self.lemma_fallback(7, m);
            }
        }
    }

    proof fn lemma_moves_of_push(self, cands: Seq<u8>, c: u8)
        ensures
            self.moves_of(cands.push(c)) == self.moves_of(cands) + self.moves_for(c),
    {
        assert(cands.push(c).drop_last() =~= cands);
    }

    proof fn lemma_find_bound(self, side: Side, number: u8, i: int)
        ensures
            self.find_from(side, number, i) matches Some(p) ==> i <= p < 25,
        decreases 25 - i,
    {
        if 0 <= i < 25 && self.board@[i] != Square::Piece(side, number) {
            self.lemma_find_bound(side, number, i + 1);
        }
    }

    proof fn lemma_moves_for(self, number: u8, m: Move)
        requires
            self.moves_for(number).contains(m),
        ensures
            m.number == number,
            self.find_from(self.side, number, 0) is Some,
            self.find_from(self.side, number, 0)->0 < 25,
            m.to < 25,
            Self::one_step_toward(self.side, self.find_from(self.side, number, 0)->0 as int, m.to as int),
    {
        self.lemma_find_bound(self.side, number, 0);
        let pos = self.find_from(self.side, number, 0)->0 as int;
        let ds = Self::spec_deltas(self.side);
        let (row, col) = spec_rowcol(pos);
        assert(row == pos / 5 && col == pos % 5);
        assert forall|k: int| 0 <= k < 3 && (#[trigger] self.delta_move(number, pos, ds[k])) is Some implies {
            let to = self.delta_move(number, pos, ds[k])->0.to as int;
            Self::one_step_toward(self.side, pos, to)
        } by {
            let r = row + ds[k].0;
            let c = col + ds[k].1;
            let to = r * 5 + c;
            assert(to / 5 == r && to % 5 == c) by (nonlinear_arith)
                requires
                    to == r * 5 + c,
                    0 <= c < 5,
                    0 <= r < 5,
            {
            }
        }
        let a0 = Self::opt(self.delta_move(number, pos, ds[0]));
        let a1 = Self::opt(self.delta_move(number, pos, ds[1]));
        let a2 = Self::opt(self.delta_move(number, pos, ds[2]));
        let i = choose|i: int| 0 <= i < (a0 + a1 + a2).len() && (a0 + a1 + a2)[i] == m;
        if i < a0.len() {
            assert(a0[i] == m);
        } else if i < a0.len() + a1.len() {
            assert(a1[i - a0.len()] == m);
        } else {
            assert(a2[i - a0.len() - a1.len()] == m);
        }
    }

    proof fn lemma_moves_of(self, cands: Seq<u8>, m: Move)
        requires
            self.moves_of(cands).contains(m),
        ensures
            self.find_from(self.side, m.number, 0) is Some,
            self.find_from(self.side, m.number, 0)->0 < 25,
            m.to < 25,
            Self::one_step_toward(self.side, self.find_from(self.side, m.number, 0)->0 as int, m.to as int),
        decreases cands.len(),
    {
        let a = self.moves_of(cands.drop_last());
        let b = self.moves_for(cands.last());
        if a.contains(m) {
            self.lemma_moves_of(cands.drop_last(), m);
        } else {
            let i = choose|i: int| 0 <= i < (a + b).len() && (a + b)[i] == m;
            assert(b[i - a.len()] == m);
            self.lemma_moves_for(cands.last(), m);
        }
    }

    proof fn lemma_fallback(self, k: int, m: Move)
        requires
            self.fallback_moves(k).contains(m),
        ensures
            self.find_from(self.side, m.number, 0) is Some,
            self.find_from(self.side, m.number, 0)->0 < 25,
            m.to < 25,
            Self::one_step_toward(self.side, self.find_from(self.side, m.number, 0)->0 as int, m.to as int),
        decreases k,
    {
        if k > 1 {
            let a = self.fallback_moves(k - 1);
            let b = if self.has(self.side, k - 1) {
                self.moves_for((k - 1) as u8)
            } else {
                seq![]
            };
            if a.contains(m) {
                self.lemma_fallback(k - 1, m);
            } else {
                let i = choose|i: int| 0 <= i < (a + b).len() && (a + b)[i] == m;
                assert(b[i - a.len()] == m);
                self.lemma_moves_for((k - 1) as u8, m);
            }
        }
    }
}

/// The text of one square: blank, side A's cube in square brackets, side B's in
/// parentheses, each followed by a bar.
pub open spec fn cell_text(sq: Square) -> Seq<char> {
    match sq {
        Square::Empty => "     |"@,
        Square::Piece(Side::A, n) => " ["@ + decimal(n as nat) + "] |"@,
        Square::Piece(Side::B, n) => " ("@ + decimal(n as nat) + ") |"@,
    }
}

impl Onestone {
    /// The text of the first `k` squares of row `row`.
    pub open spec fn cells_text(self, row: int, k: int) -> Seq<char>
        decreases k,
    {
        if k <= 0 {
            Seq::empty()
        } else {
            self.cells_text(row, k - 1) + cell_text(self.board@[row * 5 + k - 1])
        }
    }

    /// The text of the first `k` rows, each closed by a rule.
    pub open spec fn rows_text(self, k: int) -> Seq<char>
        decreases k,
    {
        if k <= 0 {
            Seq::empty()
        } else {
            self.rows_text(k - 1) + "|"@ + self.cells_text(k - 1, 5) + "\n"@ + "-----------------------------\n"@
        }
    }

    /// The position as text: the side to move and the die, a rule, then the five rows.
    pub open spec fn spec_render(self) -> Seq<char> {
        "Side "@ + (if self.side == Side::A {
            "A"@
        } else {
            "B"@
        }) + " to play, die: "@ + decimal(self.die as nat) + "\n"@ + "-----------------------------\n"@
            + self.rows_text(5)
    }

    /// The position as text, as `spec_render` lays it out.
    pub fn render(&self) -> (r: String)
        ensures
            r@ == self.spec_render(),
    {
        let mut s = String::new();
        s.append("Side ");
        s.append(self.side.name());
        s.append(" to play, die: ");
        push_decimal(&mut s, self.die as u64);
        s.append("\n");
        s.append("-----------------------------\n");
        let ghost head = s@;
        let mut row: usize = 0;
        while row < 5
            invariant
                row <= 5,
                s@ == head + self.rows_text(row as int),
            decreases 5 - row,
        {
            s.append("|");
            let mut col: usize = 0;
            while col < 5
                invariant
                    row < 5,
                    col <= 5,
                    s@ == head + self.rows_text(row as int) + "|"@ + self.cells_text(row as int, col as int),
                decreases 5 - col,
            {
                let ghost before = s@;
                match self.board[row * 5 + col] {
                    Square::Empty => s.append("     |"),
                    Square::Piece(Side::A, n) => {
                        s.append(" [");
                        push_decimal(&mut s, n as u64);
                        s.append("] |");
                    },
                    Square::Piece(Side::B, n) => {
                        s.append(" (");
                        push_decimal(&mut s, n as u64);
                        s.append(") |");
                    },
                }
                assert(s@ =~= before + cell_text(self.board@[row * 5 + col]));
                col = col + 1;
            }
            s.append("\n");
            s.append("-----------------------------\n");
            assert(s@ =~= head + self.rows_text(row as int + 1));
            row = row + 1;
        }
        assert(s@ =~= self.spec_render());
        s
    }
}

/// The name of a side on the status line.
pub open spec fn side_name_text(side: Side) -> Seq<char> {
    if side == Side::A {
        "Side-Blue"@
    } else {
        "Side-Red"@
    }
}

/// The name of a side on the status line.
pub fn side_name(side: Side) -> (r: &'static str)
    ensures
        r@ == side_name_text(side),
{
    match side {
        Side::A => "Side-Blue",
        Side::B => "Side-Red",
    }
}

impl Onestone {
    /// How `winner` won: a cube of its on its target corner, or else every enemy cube
    /// captured.
    pub open spec fn win_reason_text(self, winner: Side) -> Seq<char> {
        let t = spec_target_corner(winner);
        if self.board@[t] is Piece && self.board@[t]->Piece_0 == winner {
            "Corner Reached!"@
        } else {
            "All Captured!"@
        }
    }

    /// The status line: the side to play and the die while the game goes on, or how
    /// the game ended and who won.
    pub open spec fn spec_status(self) -> Seq<char> {
        let side = self.side;
        let other = side.spec_other();
        match self.outcome() {
            Some(GameResult::Draw) => "Draw!"@,
            Some(GameResult::Win) => self.win_reason_text(side) + " - "@ + side_name_text(side) + " Wins"@,
            Some(GameResult::Lose) => self.win_reason_text(other) + " - "@ + side_name_text(other)
                + " Wins"@,
            None => side_name_text(side) + " to play, die: "@ + decimal(self.die as nat),
        }
    }

    /// The status line, as `spec_status` words it.
    pub fn status(&self) -> (r: String)
        ensures
            r@ == self.spec_status(),
    {
        let side = self.side;
        let other = side.other();
        let mut s = String::new();
        match self.gameover() {
            Some(GameResult::Draw) => {
                s.append("Draw!");
            },
            Some(GameResult::Win) => {
                s.append(win_reason(self, side));
                s.append(" - ");
                s.append(side_name(side));
                s.append(" Wins");
            },
            Some(GameResult::Lose) => {
                s.append(win_reason(self, other));
                s.append(" - ");
                s.append(side_name(other));
                s.append(" Wins");
            },
            None => {
                s.append(side_name(side));
                s.append(" to play, die: ");
                push_decimal(&mut s, self.die as u64);
            },
        }
        s
    }
}

/// How `winner` won `game`, as `win_reason_text` words it.
pub fn win_reason(game: &Onestone, winner: Side) -> (r: &'static str)
    ensures
        r@ == game.win_reason_text(winner),
{
    let t = Onestone::target_corner(winner);
    match game.board[t] {
        Square::Piece(s, _) => {
            if s == winner {
                "Corner Reached!"
            } else {
                "All Captured!"
            }
        },
        Square::Empty => "All Captured!",
    }
}

} // verus!
