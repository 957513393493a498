//! American checkers on the 32 dark squares of an 8x8 board. Captures are
//! mandatory, men move and capture only forward, a multi-jump continues with the same
//! piece, reaching the far row promotes a man to a king and ends the turn, and a
//! run of half-moves without a capture or a man move ends the game in a draw.

use vstd::prelude::*;
use crate::fixed::HALF;
use crate::game::{GameResult, Player, Action, GameState};
use crate::rng::{xorshift_fill, xorshift_bytes, le_u64_at, read_le_u64};
use crate::labels::{decimal, push_decimal};

verus! {

broadcast use vstd::array::group_array_axioms;

/// Number of playable (dark) squares.
pub const N: usize = 32;

/// Half-moves without a capture or man move before the game is a draw.
pub const NO_PROGRESS_LIMIT: u16 = 80;

/// Zobrist key of the side to move being White.
pub const ZTURN: u64 = 0x123456789ABCDEF0;

#[derive(Debug, Copy, Clone, PartialEq, Eq, Structural)]
pub enum Side {
    Red,
    White,
}

impl Side {
    pub open spec fn spec_other(self) -> Side {
        match self {
            Side::Red => Side::White,
            Side::White => Side::Red,
        }
    }

    pub open spec fn spec_king_row(self) -> int {
        match self {
            Side::Red => 7,
            Side::White => 0,
        }
    }

    fn other(&self) -> (r: Side)
        ensures
            r == self.spec_other(),
    {
        match self {
            Side::Red => Side::White,
            Side::White => Side::Red,
        }
    }

    fn king_row(&self) -> (r: i32)
        ensures
            r == self.spec_king_row(),
    {
        match self {
            Side::Red => 7,
            Side::White => 0,
        }
    }

    /// The side's name.
    pub fn name(&self) -> (r: &'static str)
        ensures
            r@ == (if *self == Side::Red {
                "Red"@
            } else {
                "White"@
            }),
    {
        match self {
            Side::Red => "Red",
            Side::White => "White",
        }
    }
}

impl Player for Side {
    fn same(&self, other: &Self) -> (r: bool) {
        *self == *other
    }

    proof fn lemma_two_sides(a: Self, b: Self, c: Self) {
    }
}

#[derive(Debug, Copy, Clone, PartialEq, Eq, Structural)]
pub enum Kind {
    Man,
    King,
}

#[derive(Debug, Copy, Clone, PartialEq, Eq, Structural)]
pub enum Square {
    Empty,
    Occupied(Side, Kind),
}

#[derive(Debug, Copy, Clone, PartialEq, Eq, Structural)]
pub struct Move {
    pub from: u8,
    pub to: u8,
}

impl Action for Move {
    fn same(&self, other: &Self) -> (r: bool) {
        *self == *other
    }
}

/// Row and column on the 8x8 board of a playable square.
pub open spec fn spec_rowcol(sq: int) -> (int, int) {
    let row = sq / 4;
    let k = sq % 4;
    (row, if row % 2 == 0 {
        2 * k + 1
    } else {
        2 * k
    })
}

/// The playable square at a row and column, if any.
pub open spec fn spec_square_at(row: int, col: int) -> Option<u8> {
    if 0 <= row < 8 && 0 <= col < 8 && (row + col) % 2 != 0 {
        Some((row * 4 + col / 2) as u8)
    } else {
        None
    }
}

/// The diagonal directions a piece moves in: all four for a king, the two toward the
/// opponent for a man.
pub open spec fn spec_dirs(kind: Kind, side: Side) -> Seq<(i32, i32)> {
    match kind {
        Kind::King => seq![(1i32, 1i32), (1i32, -1i32), (-1i32, 1i32), (-1i32, -1i32)],
        Kind::Man => match side {
            Side::Red => seq![(1i32, 1i32), (1i32, -1i32)],
            Side::White => seq![(-1i32, 1i32), (-1i32, -1i32)],
        },
    }
}

fn rowcol(sq: u8) -> (r: (i32, i32))
    requires
        sq < N,
    ensures
        (r.0 as int, r.1 as int) == spec_rowcol(sq as int),
        0 <= r.0 < 8,
        0 <= r.1 < 8,
{
    let row = (sq / 4) as i32;
    let k = (sq % 4) as i32;
    let col = if row % 2 == 0 {
        2 * k + 1
    } else {
        2 * k
    };
    (row, col)
}

pub fn square_at(row: i32, col: i32) -> (r: Option<u8>)
    ensures
        r == spec_square_at(row as int, col as int),
        r matches Some(q) ==> q < N,
{
    if row < 0 || row >= 8 || col < 0 || col >= 8 {
        return None;
    }
    if (row + col) % 2 == 0 {
        return None;
    }
    let k = col / 2;
    Some((row * 4 + k) as u8)
}

/// The playable square at a row and column lies at that row and column.
proof fn lemma_rowcol_square_at(row: int, col: int)
    requires
        spec_square_at(row, col) is Some,
    ensures
        spec_rowcol(spec_square_at(row, col)->0 as int) == (row, col),
        (spec_square_at(row, col)->0 as int) < 32,
{
}

fn directions(kind: Kind, side: Side) -> (r: ([(i32, i32); 4], usize))
    ensures
        r.1 == spec_dirs(kind, side).len(),
        forall|i: int| 0 <= i < r.1 ==> #[trigger] r.0@[i] == spec_dirs(kind, side)[i],
{
    match kind {
        Kind::King => ([(1, 1), (1, -1), (-1, 1), (-1, -1)], 4),
        Kind::Man => match side {
            Side::Red => ([(1, 1), (1, -1), (0, 0), (0, 0)], 2),
            Side::White => ([(-1, 1), (-1, -1), (0, 0), (0, 0)], 2),
        },
    }
}

#[derive(Debug, Copy, Clone)]
pub struct Checkers {
    pub square: [Square; N],
    pub side: Side,
    /// The landing square while a multi-jump is in progress: only further captures
    /// by that piece are legal, and the side to move does not change until the chain
    /// ends.
    pub jumping: Option<u8>,
    /// Half-moves since the last capture or man move.
    pub no_progress: u16,
}

impl Checkers {
    /// The capture from `sq` in direction `d` by a piece of `side`, if legal: the
    /// adjacent square holds an enemy piece and the one beyond is empty.
    pub open spec fn capture_spec(self, sq: int, side: Side, d: (i32, i32)) -> Option<Move> {
        let (row, col) = spec_rowcol(sq);
        match spec_square_at(row + d.0, col + d.1) {
            None => None,
            Some(mid) => {
                if self.square@[mid as int] is Occupied && self.square@[mid as int]->Occupied_0
                    != side {
                    let (mrow, mcol) = spec_rowcol(mid as int);
                    match spec_square_at(mrow + d.0, mcol + d.1) {
                        Some(to) => if self.square@[to as int] == Square::Empty {
                            Some(Move { from: sq as u8, to })
                        } else {
                            None
                        },
                        None => None,
                    }
                } else {
                    None
                }
            },
        }
    }

    /// The simple move from `sq` in direction `d`, if the square there is empty.
    pub open spec fn step_spec(self, sq: int, d: (i32, i32)) -> Option<Move> {
        let (row, col) = spec_rowcol(sq);
        match spec_square_at(row + d.0, col + d.1) {
            Some(to) => if self.square@[to as int] == Square::Empty {
                Some(Move { from: sq as u8, to })
            } else {
                None
            },
            None => None,
        }
    }

    /// The captures (or simple moves) from `sq` in the directions `ds`, in order.
    pub open spec fn moves_in_dirs(self, sq: int, side: Side, ds: Seq<(i32, i32)>, cap: bool) -> Seq<
        Move,
    >
        decreases ds.len(),
    {
        if ds.len() == 0 {
            seq![]
        } else {
            let rest = self.moves_in_dirs(sq, side, ds.drop_last(), cap);
            let m = if cap {
                self.capture_spec(sq, side, ds.last())
            } else {
                self.step_spec(sq, ds.last())
            };
            match m {
                Some(mv) => rest.push(mv),
                None => rest,
            }
        }
    }

    /// The captures (or simple moves) of the piece on `sq`, if it is the mover's.
    pub open spec fn piece_moves(self, sq: int, cap: bool) -> Seq<Move> {
        match self.square@[sq] {
            Square::Occupied(s, k) => if s == self.side {
                self.moves_in_dirs(sq, s, spec_dirs(k, s), cap)
            } else {
                seq![]
            },
            Square::Empty => seq![],
        }
    }

    /// The captures (or simple moves) of the mover's pieces on squares below `n`, in
    /// square order.
    pub open spec fn all_moves(self, n: int, cap: bool) -> Seq<Move>
        decreases n,
    {
        if n <= 0 {
            seq![]
        } else {
            self.all_moves(n - 1, cap) + self.piece_moves(n - 1, cap)
        }
    }

    /// The legal moves, in the order `actions` lists them: while jumping, the further
    /// captures of the jumping piece; otherwise every capture if there is one, else
    /// every simple move.
    pub open spec fn spec_actions(self) -> Seq<Move> {
        match self.jumping {
            Some(sq) => if sq < N && self.square@[sq as int] is Occupied {
                let s = self.square@[sq as int]->Occupied_0;
                let k = self.square@[sq as int]->Occupied_1;
                self.moves_in_dirs(sq as int, s, spec_dirs(k, s), true)
            } else {
                seq![]
            },
            None => {
                let caps = self.all_moves(N as int, true);
                if caps.len() > 0 {
                    caps
                } else {
                    self.all_moves(N as int, false)
                }
            },
        }
    }

    /// The position after a legal move.
    pub open spec fn spec_make(self, m: Move) -> Checkers {
        let (from_row, from_col) = spec_rowcol(m.from as int);
        let (to_row, to_col) = spec_rowcol(m.to as int);
        let dr = to_row - from_row;
        let side = self.square@[m.from as int]->Occupied_0;
        let kind = self.square@[m.from as int]->Occupied_1;
        let is_jump = dr == 2 || dr == -2;
        let b1 = vstd::array::spec_array_update(self.square, m.from as int, Square::Empty);
        let mid = spec_square_at((from_row + to_row) / 2, (from_col + to_col) / 2)->0;
        let b2 = if is_jump {
            vstd::array::spec_array_update(b1, mid as int, Square::Empty)
        } else {
            b1
        };
        let promotes = kind == Kind::Man && to_row == side.spec_king_row();
        let new_kind = if promotes {
            Kind::King
        } else {
            kind
        };
        let b3 = vstd::array::spec_array_update(b2, m.to as int, Square::Occupied(side, new_kind));
        let no_progress = if is_jump || kind == Kind::Man {
            0u16
        } else {
            (self.no_progress + 1) as u16
        };
        let placed = Checkers { square: b3, side: self.side, jumping: None, no_progress };
        let further = !promotes && is_jump && placed.moves_in_dirs(
            m.to as int,
            side,
            spec_dirs(new_kind, side),
            true,
        ).len() > 0;
        Checkers {
            square: b3,
            side: if further {
                self.side
            } else {
                self.side.spec_other()
            },
            jumping: if further {
                Some(m.to)
            } else {
                None
            },
            no_progress,
        }
    }

    /// What each square holds at the opening.
    pub open spec fn opening_square(sq: int) -> Square {
        if sq < 12 {
            Square::Occupied(Side::Red, Kind::Man)
        } else if sq >= 20 {
            Square::Occupied(Side::White, Kind::Man)
        } else {
            Square::Empty
        }
    }

    /// The board of the opening position.
    pub open spec fn is_opening_board(b: [Square; N]) -> bool {
        forall|sq: int| 0 <= sq < N ==> #[trigger] b@[sq] == Self::opening_square(sq)
    }

    /// The opening position.
    pub open spec fn opening() -> Checkers {
        Checkers {
            square: choose|b: [Square; N]| Self::is_opening_board(b),
            side: Side::Red,
            jumping: None,
            no_progress: 0,
        }
    }

    /// The position after playing `moves` in turn from `g`.
    pub open spec fn replay(g: Checkers, moves: Seq<Move>) -> Checkers
        decreases moves.len(),
    {
        if moves.len() == 0 {
            g
        } else {
            Self::replay(g, moves.drop_last()).next(moves.last())
        }
    }

    /// Each of `moves` is legal where it is played, from `g`.
    pub open spec fn replay_legal(g: Checkers, moves: Seq<Move>) -> bool {
        forall|i: int|
            0 <= i < moves.len() ==> #[trigger] Self::replay(g, moves.take(i)).legal(moves[i])
    }

    /// The position after playing `moves` from the opening; each must be legal.
    pub fn load(moves: &[Move]) -> (r: Checkers)
        requires
            Self::replay_legal(Self::opening(), moves@),
        ensures
            r == Self::replay(Self::opening(), moves@),
    {
        let mut g = Self::new();
        let mut i: usize = 0;
        while i < moves.len()
            invariant
                0 <= i <= moves@.len(),
                Self::replay_legal(Self::opening(), moves@),
                g == Self::replay(Self::opening(), moves@.take(i as int)),
            decreases moves@.len() - i,
        {
            assert(moves@.take(i + 1).drop_last() =~= moves@.take(i as int));
            assert(moves@.take(i + 1).last() == moves@[i as int]);
            g = g.make(moves[i]);
            i = i + 1;
        }
        assert(moves@.take(moves@.len() as int) =~= moves@);
        g
    }

    /// The opening position: Red men on squares 0 to 11, White men on 20 to 31, Red to
    /// move.
    pub fn new() -> (r: Self)
        ensures
            r == Self::opening(),
            forall|sq: int|
                0 <= sq < N ==> #[trigger] r.square@[sq] == if sq < 12 {
                    Square::Occupied(Side::Red, Kind::Man)
                } else if sq >= 20 {
                    Square::Occupied(Side::White, Kind::Man)
                } else {
                    Square::Empty
                },
            r.side == Side::Red,
            r.jumping is None,
            r.no_progress == 0,
    {
        let mut square: [Square; N] = [Square::Empty; N];
        let mut sq: u8 = 0;
        while sq < 32
            invariant
                0 <= sq <= 32,
                forall|q: int|
                    0 <= q < N ==> #[trigger] square@[q] == if q < sq && q < 12 {
                        Square::Occupied(Side::Red, Kind::Man)
                    } else if q < sq && q >= 20 {
                        Square::Occupied(Side::White, Kind::Man)
                    } else {
                        Square::Empty
                    },
            decreases 32 - sq,
        {
            let (row, _) = rowcol(sq);
            assert(row == sq / 4);
            if row <= 2 {
                square[sq as usize] = Square::Occupied(Side::Red, Kind::Man);
            } else if row >= 5 {
                square[sq as usize] = Square::Occupied(Side::White, Kind::Man);
            }
            sq = sq + 1;
        }
        proof {
            assert(Self::is_opening_board(square));
            let b = choose|b: [Square; N]| Self::is_opening_board(b);
            assert(b =~= square);
        }
        Checkers { square, side: Side::Red, jumping: None, no_progress: 0 }
    }

    /// Any position, with no jump in progress and the no-progress count at zero.
    pub fn debug_state(square: [Square; N], side: Side) -> (r: Self)
        ensures
            r == (Checkers { square, side, jumping: None, no_progress: 0 }),
    {
        Checkers { square, side, jumping: None, no_progress: 0 }
    }

    /// The side and kind of the piece on an occupied square.
    fn piece_at(&self, sq: u8) -> (r: (Side, Kind))
        requires
            sq < N,
            self.square@[sq as int] is Occupied,
        ensures
            self.square@[sq as int] == Square::Occupied(r.0, r.1),
    {
        match self.square[sq as usize] {
            Square::Occupied(s, k) => (s, k),
            Square::Empty => {
                assert(false);
                (Side::Red, Kind::Man)
            },
        }
    }

    /// A simple move from `sq` in direction (dr, dc), if legal.
    fn step_move(&self, sq: u8, dr: i32, dc: i32) -> (r: Option<Move>)
        requires
            sq < N,
            -1 <= dr <= 1,
            -1 <= dc <= 1,
        ensures
            r == self.step_spec(sq as int, (dr, dc)),
    {
        let (row, col) = rowcol(sq);
        match square_at(row + dr, col + dc) {
            Some(to) => if self.square[to as usize] == Square::Empty {
                Some(Move { from: sq, to })
            } else {
                None
            },
            None => None,
        }
    }

    /// A capture from `sq` in direction (dr, dc) by a piece of `side`, if legal.
    fn capture_move(&self, sq: u8, side: Side, dr: i32, dc: i32) -> (r: Option<Move>)
        requires
            sq < N,
            -1 <= dr <= 1,
            -1 <= dc <= 1,
        ensures
            r == self.capture_spec(sq as int, side, (dr, dc)),
    {
        let (row, col) = rowcol(sq);
        let mid = match square_at(row + dr, col + dc) {
            Some(m) => m,
            None => return None,
        };
        if let Square::Occupied(mside, _) = self.square[mid as usize] {
            if mside != side {
                let (mrow, mcol) = rowcol(mid);
                let to = match square_at(mrow + dr, mcol + dc) {
                    Some(t) => t,
                    None => return None,
                };
                if self.square[to as usize] == Square::Empty {
                    return Some(Move { from: sq, to });
                }
            }
        }
        None
    }

    /// Appends the captures (or simple moves) from `sq` in the piece's directions.
    fn push_moves_in_dirs(&self, v: &mut Vec<Move>, sq: u8, side: Side, kind: Kind, cap: bool)
        requires
            sq < N,
        ensures
            final(v)@ == old(v)@ + self.moves_in_dirs(sq as int, side, spec_dirs(kind, side), cap),
    {
        let (ds, nd) = directions(kind, side);
        let ghost dseq = spec_dirs(kind, side);
        let ghost base = v@;
        let mut i: usize = 0;
        while i < nd
            invariant
                0 <= i <= nd,
                nd == dseq.len(),
                dseq == spec_dirs(kind, side),
                forall|j: int| 0 <= j < nd ==> #[trigger] ds@[j] == dseq[j],
                sq < N,
                v@ == base + self.moves_in_dirs(sq as int, side, dseq.take(i as int), cap),
            decreases nd - i,
        {
            let (dr, dc) = ds[i];
            assert(ds@[i as int] == dseq[i as int]);
            assert(-1 <= dr <= 1 && -1 <= dc <= 1);
            let m = if cap {
                self.capture_move(sq, side, dr, dc)
            } else {
                self.step_move(sq, dr, dc)
            };
            proof {
                let t1 = dseq.take(i + 1);
                assert(t1.drop_last() =~= dseq.take(i as int));
                assert(t1.last() == (dr, dc));
            }
            match m {
                Some(mv) => v.push(mv),
                None => {},
            }
            i = i + 1;
        }
        assert(dseq.take(nd as int) =~= dseq);
    }

    /// Appends the captures (or simple moves) of every piece of the mover.
    fn push_all_moves(&self, v: &mut Vec<Move>, cap: bool)
        ensures
            final(v)@ == old(v)@ + self.all_moves(N as int, cap),
    {
        let ghost base = v@;
        let mut sq: u8 = 0;
        while sq < 32
            invariant
                0 <= sq <= 32,
                v@ == base + self.all_moves(sq as int, cap),
            decreases 32 - sq,
        {
            let ghost before = v@;
            match self.square[sq as usize] {
                Square::Occupied(side, kind) => {
                    if side == self.side {
                        self.push_moves_in_dirs(v, sq, side, kind, cap);
                    }
                },
                Square::Empty => {},
            }
            assert(v@ == before + self.piece_moves(sq as int, cap));
            assert(self.all_moves(sq + 1, cap) == self.all_moves(sq as int, cap) + self.piece_moves(
                sq as int,
                cap,
            ));
            assert(v@ =~= base + self.all_moves(sq + 1, cap));
            sq = sq + 1;
        }
    }

    /// The legal moves, in order (see `spec_actions`).
    pub fn legal_moves(&self) -> (v: Vec<Move>)
        ensures
            v@ == self.spec_actions(),
    {
        let mut v: Vec<Move> = Vec::new();
        match self.jumping {
            Some(sq) => {
                if sq < 32 {
                    match self.square[sq as usize] {
                        Square::Occupied(side, kind) => {
                            self.push_moves_in_dirs(&mut v, sq, side, kind, true);
                        },
                        Square::Empty => {},
                    }
                }
            },
            None => {
                self.push_all_moves(&mut v, true);
                if v.len() == 0 {
                    self.push_all_moves(&mut v, false);
                }
            },
        }
        assert(v@ =~= self.spec_actions());
        v
    }
}

impl GameState<Side, Move> for Checkers {
    open spec fn outcome(&self) -> Option<GameResult> {
        if self.no_progress >= NO_PROGRESS_LIMIT {
            Some(GameResult::Draw)
        } else if self.spec_actions().len() == 0 {
            Some(GameResult::Lose)
        } else {
            None
        }
    }

    open spec fn legal(&self, a: Move) -> bool {
        self.no_progress < NO_PROGRESS_LIMIT && self.spec_actions().contains(a)
    }

    open spec fn next(&self, a: Move) -> Self {
        self.spec_make(a)
    }

    open spec fn mover(&self) -> Side {
        self.side
    }

    open spec fn key(&self) -> u64 {
        0
    }

    open spec fn key_identifies() -> bool {
        false
    }

    proof fn lemma_key_identifies(a: Self, b: Self, x: Move) {
    }

    fn actions(&self) -> (v: Vec<Move>)
        ensures
            v@ == self.spec_actions(),
    {
        let v = self.legal_moves();
        assert forall|i: int| 0 <= i < v.len() implies self.legal(#[trigger] v[i]) by {
            assert(v@[i] == v[i]);
        }
        v
    }

    fn make(&self, m: Move) -> (s: Self) {
        proof {
            self.lemma_legal_move_shape(m);
        }
        let mut next = *self;
        let (from_row, from_col) = rowcol(m.from);
        let (to_row, to_col) = rowcol(m.to);
        let dr = to_row - from_row;
        let (side, kind) = self.piece_at(m.from);
        next.square[m.from as usize] = Square::Empty;
        let is_jump = dr == 2 || dr == -2;
        if is_jump {
            let mid_row = (from_row + to_row) / 2;
            let mid_col = (from_col + to_col) / 2;
            let mid = match square_at(mid_row, mid_col) {
                Some(q) => q,
                None => {
                    assert(false);
                    0
                },
            };
            next.square[mid as usize] = Square::Empty;
            next.no_progress = 0;
        } else {
            next.no_progress = if kind == Kind::Man {
                0
            } else {
                self.no_progress + 1
            };
        }
        let promotes = kind == Kind::Man && to_row == side.king_row();
        let new_kind = if promotes {
            Kind::King
        } else {
            kind
        };
        next.square[m.to as usize] = Square::Occupied(side, new_kind);
        let ghost placed = Checkers {
            square: next.square,
            side: self.side,
            jumping: None,
            no_progress: next.no_progress,
        };
        if promotes {
            next.jumping = None;
            next.side = self.side.other();
        } else if is_jump {
            let mut further_moves: Vec<Move> = Vec::new();
            next.push_moves_in_dirs(&mut further_moves, m.to, side, new_kind, true);
            assert(further_moves@ =~= placed.moves_in_dirs(
                m.to as int,
                side,
                spec_dirs(new_kind, side),
                true,
            )) by {
                assert(placed.square == next.square);
                lemma_moves_in_dirs_board_only(placed, next, m.to as int, side, spec_dirs(new_kind, side), true);
            }
            if further_moves.len() > 0 {
                next.jumping = Some(m.to);
                next.side = self.side;
            } else {
                next.jumping = None;
                next.side = self.side.other();
            }
        } else {
            next.jumping = None;
            next.side = self.side.other();
        }
        proof {
            let sp = self.spec_make(m);
            assert(next.square =~= sp.square);
        }
        next
    }

    fn gameover(&self) -> (r: Option<GameResult>) {
        if self.no_progress >= NO_PROGRESS_LIMIT {
            return Some(GameResult::Draw);
        }
        let v = self.legal_moves();
        if v.len() > 0 {
            None
        } else {
            Some(GameResult::Lose)
        }
    }

    fn player(&self) -> (p: Side) {
        self.side
    }

    /// Zobrist hashing: the exclusive or of a fixed random key per (square, side, kind)
    /// of each piece, and of a key for White to move. The keys are `zobrist_keys`.
    fn hash(&self) -> (h: u64)
        ensures
            h == zobrist(*self, zobrist_keys()),
    {
        let seed: [u8; 16] = [1, 2, 3, 4, 5, 6, 7, 8, 9, 10, 11, 12, 13, 14, 15, 16];
        assert(seed@ == zobrist_seed());
        let bytes = xorshift_fill(seed, N * 4 * 8);
        let mut table: Vec<u64> = Vec::new();
        let mut i: usize = 0;
        while i < N * 4
            invariant
                bytes@ == xorshift_bytes(zobrist_seed(), 1024),
                bytes.len() == 1024,
                table.len() == i,
                i <= N * 4,
                forall|j: int| 0 <= j < i ==> #[trigger] table@[j] == le_u64_at(bytes@, 8 * j),
            decreases N * 4 - i,
        {
            table.push(read_le_u64(&bytes, 8 * i));
            i = i + 1;
        }
        assert(table@ =~= zobrist_keys());
        let mut h: u64 = 0;
        let mut sq: usize = 0;
        while sq < N
            invariant
                table.len() == N * 4,
                sq <= N,
                h == zobrist_upto(self.square, table@, sq as int),
            decreases N - sq,
        {
            if let Square::Occupied(side, kind) = self.square[sq] {
                h = h ^ table[zindex(sq, side, kind)];
            }
            sq = sq + 1;
        }
        if self.side == Side::White {
            h = h ^ ZTURN;
        }
        h
    }

    fn custom_evaluation(&self) -> (v: u64)
        ensures
            v == HALF,
    {
        assert(self.evaluation() == HALF);
        HALF
    }

    open spec fn evaluation(&self) -> u64 {
        HALF
    }
}

/// The index of (square, side, kind) in a Zobrist table of four keys per square.
pub open spec fn spec_zindex(sq: int, side: Side, kind: Kind) -> int {
    sq * 4 + (if side == Side::Red {
        0int
    } else {
        2
    }) + (if kind == Kind::Man {
        0int
    } else {
        1
    })
}

/// The exclusive or, over the first `k` squares of `square`, of the key `table` holds
/// for the piece on each occupied one.
pub open spec fn zobrist_upto(square: [Square; N], table: Seq<u64>, k: int) -> u64
    decreases k,
{
    if k <= 0 {
        0
    } else {
        let h = zobrist_upto(square, table, k - 1);
        match square@[k - 1] {
            Square::Occupied(side, kind) => h ^ table[spec_zindex(k - 1, side, kind)],
            Square::Empty => h,
        }
    }
}

/// The seed of the generator the Zobrist keys come from.
pub open spec fn zobrist_seed() -> Seq<u8> {
    seq![1u8, 2u8, 3u8, 4u8, 5u8, 6u8, 7u8, 8u8, 9u8, 10u8, 11u8, 12u8, 13u8, 14u8, 15u8, 16u8]
}

/// The Zobrist keys: the 128 numbers read little-endian from the first 1024 bytes of
/// the xorshift generator seeded with `zobrist_seed`, that is its first 128 outputs.
pub open spec fn zobrist_keys() -> Seq<u64> {
    let b = xorshift_bytes(zobrist_seed(), 1024);
    Seq::new(128, |k: int| le_u64_at(b, 8 * k))
}

/// The Zobrist key of a position under `table`: the keys of its pieces, and the turn
/// key when White is to move.
pub open spec fn zobrist(g: Checkers, table: Seq<u64>) -> u64 {
    let h = zobrist_upto(g.square, table, N as int);
    if g.side == Side::White {
        h ^ ZTURN
    } else {
        h
    }
}

/// The index of (square, side, kind) in the Zobrist table.
fn zindex(sq: usize, side: Side, kind: Kind) -> (r: usize)
    requires
        sq < N,
    ensures
        r < N * 4,
        r == sq * 4 + (if side == Side::Red {
            0int
        } else {
            2
        }) + (if kind == Kind::Man {
            0int
        } else {
            1
        }),
{
    let s: usize = match side {
        Side::Red => 0,
        Side::White => 1,
    };
    let k: usize = match kind {
        Kind::Man => 0,
        Kind::King => 1,
    };
    sq * 4 + s * 2 + k
}

/// The captures and steps from a square depend on the board alone.
proof fn lemma_moves_in_dirs_board_only(
    a: Checkers,
    b: Checkers,
    sq: int,
    side: Side,
    ds: Seq<(i32, i32)>,
    cap: bool,
)
    requires
        a.square == b.square,
    ensures
        a.moves_in_dirs(sq, side, ds, cap) == b.moves_in_dirs(sq, side, ds, cap),
    decreases ds.len(),
{
    if ds.len() > 0 {
        lemma_moves_in_dirs_board_only(a, b, sq, side, ds.drop_last(), cap);
    }
}

impl Checkers {
    /// Every move in the list for `sq` leaves from `sq`; a capture lands two rows and
    /// two columns away, over a square on the board; a step lands one row away.
    proof fn lemma_moves_in_dirs_shape(self, sq: int, side: Side, ds: Seq<(i32, i32)>, cap: bool, m: Move)
        requires
            0 <= sq < N,
            forall|i: int| 0 <= i < ds.len() ==> -1 <= (#[trigger] ds[i]).0 <= 1 && -1 <= ds[i].1 <= 1 && ds[i].0 != 0,
            self.moves_in_dirs(sq, side, ds, cap).contains(m),
        ensures
            m.from as int == sq,
            m.to < N,
            ({
                let (fr, fc) = spec_rowcol(sq);
                let (tr, tc) = spec_rowcol(m.to as int);
                &&& cap ==> (tr - fr == 2 || tr - fr == -2) && (tc - fc == 2 || tc - fc == -2)
                    && spec_square_at((fr + tr) / 2, (fc + tc) / 2) is Some
                &&& !cap ==> (tr - fr == 1 || tr - fr == -1)
                &&& (forall|i: int| 0 <= i < ds.len() ==> (#[trigger] ds[i]).0 > 0) ==> tr > fr
                &&& (forall|i: int| 0 <= i < ds.len() ==> (#[trigger] ds[i]).0 < 0) ==> tr < fr
            }),
        decreases ds.len(),
    {
        let rest = self.moves_in_dirs(sq, side, ds.drop_last(), cap);
        if rest.contains(m) {
            self.lemma_moves_in_dirs_shape(sq, side, ds.drop_last(), cap, m);
        } else {
            let d = ds.last();
            let (row, col) = spec_rowcol(sq);
            if cap {
                let mid = spec_square_at(row + d.0, col + d.1)->0;
                lemma_rowcol_square_at(row + d.0, col + d.1);
                let (mrow, mcol) = spec_rowcol(mid as int);
                lemma_rowcol_square_at(mrow + d.0, mcol + d.1);
            } else {
                lemma_rowcol_square_at(row + d.0, col + d.1);
            }
        }
    }

    /// Men move forward only: a red man's moves go to a higher row, a white man's to a
    /// lower one, whether they step or jump.
    pub proof fn lemma_men_move_forward(self, m: Move)
        requires
            self.legal(m),
        ensures
            self.square@[m.from as int] == Square::Occupied(Side::Red, Kind::Man) ==> m.to / 4 > m.from / 4,
            self.square@[m.from as int] == Square::Occupied(Side::White, Kind::Man) ==> m.to / 4 < m.from / 4,
    {
        match self.jumping {
            Some(sq) => {
                let s = self.square@[sq as int]->Occupied_0;
                let k = self.square@[sq as int]->Occupied_1;
                self.lemma_moves_in_dirs_shape(sq as int, s, spec_dirs(k, s), true, m);
            },
            None => {
                let caps = self.all_moves(N as int, true);
                if caps.len() > 0 {
                    self.lemma_all_moves_shape(N as int, true, m);
                } else {
                    self.lemma_all_moves_shape(N as int, false, m);
                }
            },
        }
    }

    /// A legal move puts the moving piece on its target square, and a man reaching the
    /// far row (row 7 for Red, row 0 for White) is crowned a king there, whether it
    /// stepped or jumped; any other piece keeps its kind. The square it left is empty.
    pub proof fn lemma_move_lands_and_crowns(self, m: Move)
        requires
            self.legal(m),
        ensures
            self.square@[m.from as int] matches Square::Occupied(s, k) && self.spec_make(m).square@[m.to as int]
                == Square::Occupied(
                s,
                if k == Kind::Man && ((s == Side::Red && m.to / 4 == 7) || (s == Side::White && m.to / 4
                    == 0)) {
                    Kind::King
                } else {
                    k
                },
            ),
            self.spec_make(m).square@[m.from as int] == Square::Empty,
    {
        self.lemma_legal_move_shape(m);
        self.lemma_captures_mandatory(m);
    }

    /// Captures are mandatory and a multi-jump goes on with the same piece: while a
    /// piece is jumping every legal move is a further capture by that piece, and
    /// otherwise, whenever some capture is available, every legal move is a capture.
    /// A capture jumps two rows; a simple move goes one row.
    pub proof fn lemma_captures_mandatory(self, m: Move)
        requires
            self.legal(m),
        ensures
            ({
                let (fr, fc) = spec_rowcol(m.from as int);
                let (tr, tc) = spec_rowcol(m.to as int);
                let jump = tr - fr == 2 || tr - fr == -2;
                &&& self.jumping matches Some(sq) ==> m.from == sq && jump
                &&& self.jumping is None && self.all_moves(N as int, true).len() > 0 ==> jump
                &&& self.jumping is None && self.all_moves(N as int, true).len() == 0 ==> (tr - fr == 1
                    || tr - fr == -1)
            }),
    {
        match self.jumping {
            Some(sq) => {
                let s = self.square@[sq as int]->Occupied_0;
                let k = self.square@[sq as int]->Occupied_1;
                self.lemma_moves_in_dirs_shape(sq as int, s, spec_dirs(k, s), true, m);
            },
            None => {
                let caps = self.all_moves(N as int, true);
                if caps.len() > 0 {
                    self.lemma_all_moves_shape(N as int, true, m);
                } else {
                    self.lemma_all_moves_shape(N as int, false, m);
                }
            },
        }
    }

    /// A legal move leaves from one of the mover's pieces and has the shape of a
    /// capture or a step.
    proof fn lemma_legal_move_shape(self, m: Move)
        requires
            self.no_progress < NO_PROGRESS_LIMIT,
            self.spec_actions().contains(m),
        ensures
            m.from < N,
            m.to < N,
            self.square@[m.from as int] is Occupied,
            ({
                let (fr, fc) = spec_rowcol(m.from as int);
                let (tr, tc) = spec_rowcol(m.to as int);
                (tr - fr == 2 || tr - fr == -2) ==> spec_square_at((fr + tr) / 2, (fc + tc) / 2) is Some
            }),
    {
        match self.jumping {
            Some(sq) => {
                let s = self.square@[sq as int]->Occupied_0;
                let k = self.square@[sq as int]->Occupied_1;
                self.lemma_moves_in_dirs_shape(sq as int, s, spec_dirs(k, s), true, m);
            },
            None => {
                let caps = self.all_moves(N as int, true);
                if caps.len() > 0 {
                    self.lemma_all_moves_shape(N as int, true, m);
                } else {
                    self.lemma_all_moves_shape(N as int, false, m);
                }
            },
        }
    }

    /// A move listed for the squares below `n` leaves from one of the mover's pieces,
    /// with the shape of its kind of move.
    proof fn lemma_all_moves_shape(self, n: int, cap: bool, m: Move)
        requires
            n <= N,
            self.all_moves(n, cap).contains(m),
        ensures
            m.from < N,
            m.to < N,
            self.square@[m.from as int] is Occupied,
            ({
                let (fr, fc) = spec_rowcol(m.from as int);
                let (tr, tc) = spec_rowcol(m.to as int);
                &&& cap ==> (tr - fr == 2 || tr - fr == -2) && spec_square_at((fr + tr) / 2, (fc + tc) / 2) is Some
                &&& !cap ==> (tr - fr == 1 || tr - fr == -1)
                &&& self.square@[m.from as int] == Square::Occupied(Side::Red, Kind::Man) ==> tr > fr
                &&& self.square@[m.from as int] == Square::Occupied(Side::White, Kind::Man) ==> tr < fr
            }),
        decreases n,
    {
        if n > 0 {
            let prev = self.all_moves(n - 1, cap);
            let here = self.piece_moves(n - 1, cap);
            assert(self.all_moves(n, cap) == prev + here);
            if prev.contains(m) {
                self.lemma_all_moves_shape(n - 1, cap, m);
            } else {
                let i = choose|i: int| 0 <= i < (prev + here).len() && (prev + here)[i] == m;
                assert(here[i - prev.len()] == m);
                assert(here.contains(m));
                let sqv = self.square@[n - 1];
                let s = sqv->Occupied_0;
                let k = sqv->Occupied_1;
                self.lemma_moves_in_dirs_shape(n - 1, s, spec_dirs(k, s), cap, m);
            }
        }
    }
}


/// The letter of a square's piece: a dash for an empty playable square, `r` or `R` for
/// a red man or king, `w` or `W` for a white one.
pub open spec fn square_letter(sq: Square) -> Seq<char> {
    match sq {
        Square::Empty => "-"@,
        Square::Occupied(Side::Red, Kind::Man) => "r"@,
        Square::Occupied(Side::Red, Kind::King) => "R"@,
        Square::Occupied(Side::White, Kind::Man) => "w"@,
        Square::Occupied(Side::White, Kind::King) => "W"@,
    }
}

fn letter_of(sq: Square) -> (r: &'static str)
    ensures
        r@ == square_letter(sq),
{
    match sq {
        Square::Empty => "-",
        Square::Occupied(Side::Red, Kind::Man) => "r",
        Square::Occupied(Side::Red, Kind::King) => "R",
        Square::Occupied(Side::White, Kind::Man) => "w",
        Square::Occupied(Side::White, Kind::King) => "W",
    }
}

impl Checkers {
    /// How many of the first `n` squares hold a piece of `side`.
    pub open spec fn count_side(self, side: Side, n: int) -> nat
        decreases n,
    {
        if n <= 0 {
            0
        } else {
            self.count_side(side, n - 1) + (if self.square[n - 1] matches Square::Occupied(s, _) && s == side {
                1nat
            } else {
                0nat
            })
        }
    }

    /// The letter shown at a row and column: a blank on a light square.
    pub open spec fn cell_letter(self, row: int, col: int) -> Seq<char> {
        match spec_square_at(row, col) {
            Some(q) => square_letter(self.square[q as int]),
            None => " "@,
        }
    }

    /// The first `k` cells of row `row`, each a bar, a space, the letter and a space.
    pub open spec fn row_cells(self, row: int, k: int) -> Seq<char>
        decreases k,
    {
        if k <= 0 {
            Seq::empty()
        } else {
            self.row_cells(row, k - 1) + "| "@ + self.cell_letter(row, k - 1) + " "@
        }
    }

    /// The first `k` rows from the top (row 7 down), each closed by a rule.
    pub open spec fn rows_text(self, k: int) -> Seq<char>
        decreases k,
    {
        if k <= 0 {
            Seq::empty()
        } else {
            let row = 8 - k;
            self.rows_text(k - 1) + decimal(row as nat) + " "@ + self.row_cells(row, 8) + "|\n"@
                + "  ---------------------------------\n"@
        }
    }

    /// The position as text: the side to move, the piece counts, the board from row 7
    /// down with row numbers on the left, and the column numbers below.
    pub open spec fn spec_render(self) -> Seq<char> {
        (if self.side == Side::Red {
            "Red"@
        } else {
            "White"@
        }) + " Turn\n"@ + "Red: "@ + decimal(self.count_side(Side::Red, 32)) + ", White: "@
            + decimal(self.count_side(Side::White, 32)) + "\n"@
            + "  ---------------------------------\n"@ + self.rows_text(8)
            + "    0   1   2   3   4   5   6   7\n"@ + "\n"@
    }

    fn count_pieces(&self, side: Side) -> (r: u64)
        ensures
            r == self.count_side(side, 32),
    {
        let mut n: u64 = 0;
        let mut i: usize = 0;
        while i < N
            invariant
                i <= N,
                n == self.count_side(side, i as int),
                n <= i,
            decreases N - i,
        {
            match self.square[i] {
                Square::Occupied(s, _) => {
                    if s == side {
                        n = n + 1;
                    }
                },
                Square::Empty => {},
            }
            i = i + 1;
        }
        n
    }

    /// The position as text, as `spec_render` lays it out.
    pub fn render(&self) -> (r: String)
        ensures
            r@ == self.spec_render(),
    {
        let mut s = String::new();
        s.append(self.side.name());
        s.append(" Turn\n");
        s.append("Red: ");
        push_decimal(&mut s, self.count_pieces(Side::Red));
        s.append(", White: ");
        push_decimal(&mut s, self.count_pieces(Side::White));
        s.append("\n");
        s.append("  ---------------------------------\n");
        let ghost head = s@;
        let mut h: i32 = 0;
        while h < 8
            invariant
                0 <= h <= 8,
                s@ == head + self.rows_text(h as int),
            decreases 8 - h,
        {
            let row: i32 = 7 - h;
            push_decimal(&mut s, row as u64);
            s.append(" ");
            let mut col: i32 = 0;
            while col < 8
                invariant
                    0 <= h < 8,
                    row == 7 - h,
                    0 <= col <= 8,
                    s@ == head + self.rows_text(h as int) + decimal(row as nat) + " "@ + self.row_cells(
                        row as int,
                        col as int,
                    ),
                decreases 8 - col,
            {
                let ghost before = s@;
                s.append("| ");
                match square_at(row, col) {
                    Some(q) => s.append(letter_of(self.square[q as usize])),
                    None => s.append(" "),
                }
                s.append(" ");
                assert(s@ =~= before + "| "@ + self.cell_letter(row as int, col as int) + " "@);
                col = col + 1;
            }
            s.append("|\n");
            s.append("  ---------------------------------\n");
            assert(s@ =~= head + self.rows_text(h as int + 1));
            h = h + 1;
        }
        s.append("    0   1   2   3   4   5   6   7\n");
        s.append("\n");
        assert(s@ =~= self.spec_render());
        s
    }
}

/// The name of a side as the status line shows it.
pub open spec fn side_text(side: Side) -> Seq<char> {
    if side == Side::Red {
        "Red"@
    } else {
        "White"@
    }
}

impl Checkers {
    /// The status line: whose turn it is, or how the game ended and who won.
    pub open spec fn spec_status(self) -> Seq<char> {
        match self.outcome() {
            Some(GameResult::Draw) => "No Progress! - Draw"@,
            Some(GameResult::Win) => "Game Over! - "@ + side_text(self.side) + " Wins"@,
            Some(GameResult::Lose) => "Game Over! - "@ + side_text(self.side.spec_other()) + " Wins"@,
            None => side_text(self.side) + " to play"@,
        }
    }

    /// The status line, as `spec_status` words it.
    pub fn status(&self) -> (r: String)
        ensures
            r@ == self.spec_status(),
    {
        let side = self.side;
        let other = side.other();
        let mut s = String::new();
        match self.gameover() {
            Some(GameResult::Draw) => {
                s.append("No Progress! - Draw");
            },
            Some(GameResult::Win) => {
                s.append("Game Over! - ");
                s.append(side.name());
                s.append(" Wins");
            },
            Some(GameResult::Lose) => {
                s.append("Game Over! - ");
                s.append(other.name());
                s.append(" Wins");
            },
            None => {
                s.append(side.name());
                s.append(" to play");
            },
        }
        s
    }
}

/// What a click on a square of the board does: nothing, play a move, pick the piece
/// on the square as the one to move, or drop the piece picked before.
#[derive(Debug, Copy, Clone, PartialEq, Eq, Structural)]
pub enum Click {
    Idle,
    Move(Move),
    Select(u8),
    Deselect,
}

/// The squares the moves start from, each once, in the order of their first move.
pub open spec fn sources(acts: Seq<Move>) -> Seq<u8>
    decreases acts.len(),
{
    if acts.len() == 0 {
        Seq::empty()
    } else {
        let s = sources(acts.drop_last());
        if s.contains(acts.last().from) {
            s
        } else {
            s.push(acts.last().from)
        }
    }
}

/// The piece whose moves the board shows: the only piece that can move, or else the
/// one selected before if it can still move.
pub open spec fn spec_picked(froms: Seq<u8>, selected: Option<u8>) -> Option<u8> {
    if froms.len() <= 1 {
        if froms.len() == 1 {
            Some(froms[0])
        } else {
            None
        }
    } else {
        match selected {
            Some(f) => if froms.contains(f) {
                Some(f)
            } else {
                None
            },
            None => None,
        }
    }
}

/// The last of the moves from `from` to `to`, if any.
pub open spec fn last_move(acts: Seq<Move>, from: u8, to: u8) -> Option<Move>
    decreases acts.len(),
{
    if acts.len() == 0 {
        None
    } else if acts.last().from == from && acts.last().to == to {
        Some(acts.last())
    } else {
        last_move(acts.drop_last(), from, to)
    }
}

/// What a click on playable square `sq` does, given the legal moves and the piece
/// selected before: with a piece picked, a move of it to `sq` is played; otherwise,
/// when several pieces can move, a click on the picked piece drops it and a click on
/// another movable piece picks that one. With no piece picked, a click on a movable
/// piece picks it.
pub open spec fn spec_click(acts: Seq<Move>, selected: Option<u8>, sq: u8) -> Click {
    let froms = sources(acts);
    match spec_picked(froms, selected) {
        Some(from) => match last_move(acts, from, sq) {
            Some(m) => Click::Move(m),
            None => if froms.len() > 1 && sq == from {
                Click::Deselect
            } else if froms.len() > 1 && froms.contains(sq) {
                Click::Select(sq)
            } else {
                Click::Idle
            },
        },
        None => if froms.contains(sq) {
            Click::Select(sq)
        } else {
            Click::Idle
        },
    }
}

fn contains_u8(v: &Vec<u8>, x: u8) -> (r: bool)
    ensures
        r == v@.contains(x),
{
    let mut i: usize = 0;
    while i < v.len()
        invariant
            i <= v.len(),
            forall|j: int| 0 <= j < i ==> v@[j] != x,
        decreases v.len() - i,
    {
        if v[i] == x {
            return true;
        }
        i = i + 1;
    }
    false
}

/// The squares the moves start from, each once, in the order of their first move.
pub fn move_sources(acts: &Vec<Move>) -> (r: Vec<u8>)
    ensures
        r@ == sources(acts@),
{
    let mut r: Vec<u8> = Vec::new();
    let mut i: usize = 0;
    while i < acts.len()
        invariant
            i <= acts.len(),
            r@ == sources(acts@.take(i as int)),
        decreases acts.len() - i,
    {
        assert(acts@.take(i as int + 1).drop_last() =~= acts@.take(i as int));
        if !contains_u8(&r, acts[i].from) {
            r.push(acts[i].from);
        }
        i = i + 1;
    }
    assert(acts@.take(acts.len() as int) =~= acts@);
    r
}

fn find_last_move(acts: &Vec<Move>, from: u8, to: u8) -> (r: Option<Move>)
    ensures
        r == last_move(acts@, from, to),
{
    let mut found: Option<Move> = None;
    let mut i: usize = 0;
    while i < acts.len()
        invariant
            i <= acts.len(),
            found == last_move(acts@.take(i as int), from, to),
        decreases acts.len() - i,
    {
        assert(acts@.take(i as int + 1).drop_last() =~= acts@.take(i as int));
        if acts[i].from == from && acts[i].to == to {
            found = Some(acts[i]);
        }
        i = i + 1;
    }
    assert(acts@.take(acts.len() as int) =~= acts@);
    found
}

/// What a click on playable square `sq` does (see `spec_click`).
pub fn square_click(acts: &Vec<Move>, selected: Option<u8>, sq: u8) -> (r: Click)
    ensures
        r == spec_click(acts@, selected, sq),
{
    let froms = move_sources(acts);
    let picked: Option<u8> = if froms.len() <= 1 {
        if froms.len() == 1 {
            Some(froms[0])
        } else {
            None
        }
    } else {
        match selected {
            Some(f) => if contains_u8(&froms, f) {
                Some(f)
            } else {
                None
            },
            None => None,
        }
    };
    match picked {
        Some(from) => match find_last_move(acts, from, sq) {
            Some(m) => Click::Move(m),
            None => if froms.len() > 1 && sq == from {
                Click::Deselect
            } else if froms.len() > 1 && contains_u8(&froms, sq) {
                Click::Select(sq)
            } else {
                Click::Idle
            },
        },
        None => if contains_u8(&froms, sq) {
            Click::Select(sq)
        } else {
            Click::Idle
        },
    }
}

} // verus!
