//! The 7x10 board and the per-square state that castling and en passant need.

use vstd::prelude::*;
use super::piece::{Piece, Player, PieceType};

verus! {

broadcast use vstd::array::group_array_axioms;

pub const WIDTH: i8 = 7;
pub const HEIGHT: i8 = 10;
/// Number of squares.
pub const SQUARES: usize = 70;

#[derive(Debug, Clone, Copy, PartialEq, Eq, Hash, Structural)]
pub struct Pos {
    pub col: i8,
    pub row: i8,
}

/// The square with the given index: squares are numbered file by file.
pub open spec fn pos_of(i: int) -> Pos {
    Pos { col: (i / 10) as i8, row: (i % 10) as i8 }
}

impl Pos {
    pub open spec fn spec_in_bounds(self) -> bool {
        0 <= self.col < WIDTH && 0 <= self.row < HEIGHT
    }

    /// The square's index, file by file.
    pub open spec fn index(self) -> int {
        self.col * 10 + self.row
    }

    pub open spec fn spec_offset(self, dc: int, dr: int) -> Pos {
        Pos { col: (self.col + dc) as i8, row: (self.row + dr) as i8 }
    }

    pub open spec fn spec_is_corner(self) -> bool {
        (self.col == 0 || self.col == WIDTH - 1) && (self.row == 0 || self.row == HEIGHT - 1)
    }

    pub fn new(col: i8, row: i8) -> (r: Pos)
        ensures
            r == (Pos { col, row }),
    {
        Pos { col, row }
    }

    pub fn in_bounds(self) -> (r: bool)
        ensures
            r == self.spec_in_bounds(),
    {
        self.col >= 0 && self.col < WIDTH && self.row >= 0 && self.row < HEIGHT
    }

    /// The square `dc` files and `dr` ranks away.
    pub fn offset(self, dc: i8, dr: i8) -> (r: Pos)
        requires
            -128 <= self.col + dc <= 127,
            -128 <= self.row + dr <= 127,
        ensures
            r == self.spec_offset(dc as int, dr as int),
            r.col == self.col + dc,
            r.row == self.row + dr,
    {
        Pos::new(self.col + dc, self.row + dr)
    }

    /// True for the four physical corners. Castling requires the rook to have started
    /// the game on one of these.
    pub fn is_corner(self) -> (r: bool)
        ensures
            r == self.spec_is_corner(),
    {
        (self.col == 0 || self.col == WIDTH - 1) && (self.row == 0 || self.row == HEIGHT - 1)
    }
}

pub proof fn lemma_index(p: Pos)
    requires
        p.spec_in_bounds(),
    ensures
        0 <= p.index() < SQUARES,
        pos_of(p.index()) == p,
{
}

pub proof fn lemma_pos_of(i: int)
    requires
        0 <= i < SQUARES,
    ensures
        pos_of(i).spec_in_bounds(),
        pos_of(i).index() == i,
{
}

/// Per-square state for castling, double steps and en passant. It lives with the
/// square, not the piece, so it resets when a square empties.
#[derive(Debug, Clone, Copy, PartialEq, Eq, Structural)]
pub struct SquareMeta {
    pub has_moved: bool,
    pub start_pos: Option<Pos>,
    /// Set for the one turn after a pawn's two-square advance.
    pub just_double_stepped: bool,
}

pub open spec fn default_meta() -> SquareMeta {
    SquareMeta { has_moved: false, start_pos: None, just_double_stepped: false }
}

impl Default for SquareMeta {
    fn default() -> (r: SquareMeta)
        ensures
            r == default_meta(),
    {
        SquareMeta { has_moved: false, start_pos: None, just_double_stepped: false }
    }
}

/// The same state with the double-step flag cleared.
pub open spec fn settled(m: SquareMeta) -> SquareMeta {
    SquareMeta { just_double_stepped: false, ..m }
}

#[derive(Debug, Clone, Copy, PartialEq, Eq)]
pub struct Board {
    squares: [Option<Piece>; 70],
    meta: [SquareMeta; 70],
}

/// Clears the double-step flag of the first `k` entries.
spec fn settle_upto(m: [SquareMeta; 70], k: nat) -> [SquareMeta; 70]
    decreases k,
{
    if k == 0 {
        m
    } else {
        let prev = settle_upto(m, (k - 1) as nat);
        vstd::array::spec_array_update(prev, k - 1, settled(prev@[k - 1]))
    }
}

proof fn lemma_settle_upto(m: [SquareMeta; 70], k: nat)
    requires
        k <= 70,
    ensures
        forall|i: int|
            0 <= i < 70 ==> #[trigger] settle_upto(m, k)@[i] == if i < k {
                settled(m@[i])
            } else {
                m@[i]
            },
    decreases k,
{
    if k > 0 {
        lemma_settle_upto(m, (k - 1) as nat);
    }
}

/// The squares of the board that hold a piece, file by file, among the first `k`.
pub open spec fn pieces_upto(b: Board, k: nat) -> Seq<(Pos, Piece)>
    decreases k,
{
    if k == 0 {
        Seq::empty()
    } else {
        let p = pos_of(k - 1);
        let rest = pieces_upto(b, (k - 1) as nat);
        match b.at(p) {
            Some(x) => rest.push((p, x)),
            None => rest,
        }
    }
}

/// Sum of the values of `player`'s pieces in a list.
pub open spec fn value_of(s: Seq<(Pos, Piece)>, player: Player) -> nat
    decreases s.len(),
{
    if s.len() == 0 {
        0
    } else {
        let rest = value_of(s.drop_last(), player);
        if s.last().1.player == player {
            (rest + s.last().1.kind.spec_value()) as nat
        } else {
            rest
        }
    }
}

impl Board {
    /// What stands on `p`; nothing off the board.
    pub closed spec fn at(self, p: Pos) -> Option<Piece> {
        if p.spec_in_bounds() {
            self.squares@[p.index()]
        } else {
            None
        }
    }

    /// The state of square `p`; the default off the board.
    pub closed spec fn meta_at(self, p: Pos) -> SquareMeta {
        if p.spec_in_bounds() {
            self.meta@[p.index()]
        } else {
            default_meta()
        }
    }

    /// The board with `x` on `p` (unchanged if `p` is off the board).
    pub closed spec fn with_piece(self, p: Pos, x: Option<Piece>) -> Board {
        if p.spec_in_bounds() {
            Board {
                squares: vstd::array::spec_array_update(self.squares, p.index(), x),
                meta: self.meta,
            }
        } else {
            self
        }
    }

    /// The board with state `m` on `p` (unchanged if `p` is off the board).
    pub closed spec fn with_meta(self, p: Pos, m: SquareMeta) -> Board {
        if p.spec_in_bounds() {
            Board {
                squares: self.squares,
                meta: vstd::array::spec_array_update(self.meta, p.index(), m),
            }
        } else {
            self
        }
    }

    /// The board with every double-step flag cleared.
    pub closed spec fn settled(self) -> Board {
        Board { squares: self.squares, meta: settle_upto(self.meta, 70) }
    }

    /// The empty board.
    pub closed spec fn spec_empty() -> Board {
        Board {
            squares: vstd::array::spec_array_fill_for_copy_type(None),
            meta: vstd::array::spec_array_fill_for_copy_type(default_meta()),
        }
    }

    /// The pieces on the board with their squares, file by file.
    pub open spec fn spec_all_pieces(self) -> Seq<(Pos, Piece)> {
        pieces_upto(self, 70)
    }

    pub open spec fn spec_is_empty(self, p: Pos) -> bool {
        self.at(p) is None
    }

    pub open spec fn spec_is_enemy(self, p: Pos, player: Player) -> bool {
        self.at(p) matches Some(x) && x.player != player
    }

    pub open spec fn spec_is_friendly(self, p: Pos, player: Player) -> bool {
        self.at(p) matches Some(x) && x.player == player
    }

    pub broadcast proof fn lemma_with_piece(self, p: Pos, x: Option<Piece>, q: Pos)
        ensures
            #[trigger] self.with_piece(p, x).at(q) == if p.spec_in_bounds() && q == p {
                x
            } else {
                self.at(q)
            },
            self.with_piece(p, x).meta_at(q) == self.meta_at(q),
    {
        if p.spec_in_bounds() && q.spec_in_bounds() {
            lemma_index(p);
            lemma_index(q);
        }
    }

    pub broadcast proof fn lemma_with_meta(self, p: Pos, m: SquareMeta, q: Pos)
        ensures
            #[trigger] self.with_meta(p, m).meta_at(q) == if p.spec_in_bounds() && q == p {
                m
            } else {
                self.meta_at(q)
            },
            self.with_meta(p, m).at(q) == self.at(q),
    {
        if p.spec_in_bounds() && q.spec_in_bounds() {
            lemma_index(p);
            lemma_index(q);
        }
    }

    pub broadcast proof fn lemma_settled(self, q: Pos)
        ensures
            #[trigger] self.settled().meta_at(q) == if q.spec_in_bounds() {
                settled(self.meta_at(q))
            } else {
                default_meta()
            },
            self.settled().at(q) == self.at(q),
    {
        lemma_settle_upto(self.meta, 70);
        if q.spec_in_bounds() {
            lemma_index(q);
        }
    }

    /// Only squares on the board hold pieces.
    pub broadcast proof fn lemma_occupied_in_bounds(self, p: Pos)
        ensures
            #[trigger] self.at(p) is Some ==> p.spec_in_bounds(),
    {
    }

    pub broadcast proof fn lemma_spec_empty(q: Pos)
        ensures
            #[trigger] Board::spec_empty().at(q) == None::<Piece>,
            Board::spec_empty().meta_at(q) == default_meta(),
    {
        if q.spec_in_bounds() {
            lemma_index(q);
        }
    }

    /// An entry of `pieces_upto(b, k)` is an occupied square below index `k`.
    pub proof fn lemma_pieces_upto(self, k: nat, j: int)
        requires
            k <= 70,
            0 <= j < pieces_upto(self, k).len(),
        ensures
            pieces_upto(self, k)[j].0.spec_in_bounds(),
            pieces_upto(self, k)[j].0.index() < k,
            self.at(pieces_upto(self, k)[j].0) == Some(pieces_upto(self, k)[j].1),
        decreases k,
    {
        let rest = pieces_upto(self, (k - 1) as nat);
        lemma_pos_of(k - 1);
        if j < rest.len() {
            self.lemma_pieces_upto((k - 1) as nat, j);
        }
    }

    /// Every occupied square below index `k` is listed in `pieces_upto(b, k)`.
    pub proof fn lemma_pieces_upto_complete(self, k: nat, p: Pos)
        requires
            k <= 70,
            p.spec_in_bounds(),
            p.index() < k,
            self.at(p) is Some,
        ensures
            exists|j: int|
                0 <= j < pieces_upto(self, k).len() && #[trigger] pieces_upto(self, k)[j] == (
                p,
                self.at(p)->0,
            ),
        decreases k,
    {
        lemma_index(p);
        let rest = pieces_upto(self, (k - 1) as nat);
        if p.index() == k - 1 {
            let j = rest.len() as int;
            assert(pieces_upto(self, k)[j] == (p, self.at(p)->0));
        } else {
            self.lemma_pieces_upto_complete((k - 1) as nat, p);
            let j = choose|j: int| 0 <= j < rest.len() && #[trigger] rest[j] == (p, self.at(p)->0);
            assert(pieces_upto(self, k)[j] == (p, self.at(p)->0));
        }
    }

    pub fn empty() -> (b: Board)
        ensures
            b == Board::spec_empty(),
    {
        let m = SquareMeta { has_moved: false, start_pos: None, just_double_stepped: false };
        let b = Board { squares: [None; 70], meta: [m; 70] };
        proof {
            let e = Board::spec_empty();
            assert(b.squares =~= e.squares);
            assert(b.meta =~= e.meta);
        }
        b
    }

    fn index_of(p: Pos) -> (i: usize)
        requires
            p.spec_in_bounds(),
        ensures
            i == p.index(),
            i < 70,
    {
        (p.col as usize) * 10 + (p.row as usize)
    }

    pub fn get(&self, p: Pos) -> (r: Option<Piece>)
        ensures
            r == self.at(p),
    {
        if !p.in_bounds() {
            return None;
        }
        self.squares[Self::index_of(p)]
    }

    pub fn meta(&self, p: Pos) -> (r: SquareMeta)
        ensures
            r == self.meta_at(p),
    {
        if !p.in_bounds() {
            return SquareMeta::default();
        }
        self.meta[Self::index_of(p)]
    }

    pub fn set(&mut self, p: Pos, piece: Option<Piece>)
        requires
            p.spec_in_bounds(),
        ensures
            *final(self) == old(self).with_piece(p, piece),
    {
        let i = Self::index_of(p);
        self.squares[i] = piece;
        proof {
            assert(self.squares =~= vstd::array::spec_array_update(old(self).squares, p.index(), piece));
        }
    }

    pub fn set_meta(&mut self, p: Pos, meta: SquareMeta)
        requires
            p.spec_in_bounds(),
        ensures
            *final(self) == old(self).with_meta(p, meta),
    {
        let i = Self::index_of(p);
        self.meta[i] = meta;
        proof {
            assert(self.meta =~= vstd::array::spec_array_update(old(self).meta, p.index(), meta));
        }
    }

    /// Places a piece as part of a setup, recording its start square.
    pub fn place_new(&mut self, p: Pos, piece: Piece)
        requires
            p.spec_in_bounds(),
        ensures
            *final(self) == old(self).with_piece(p, Some(piece)).with_meta(
                p,
                SquareMeta { has_moved: false, start_pos: Some(p), just_double_stepped: false },
            ),
    {
        self.set(p, Some(piece));
        self.set_meta(p, SquareMeta { has_moved: false, start_pos: Some(p), just_double_stepped: false });
    }

    /// Clears every square's double-step flag.
    pub fn settle(&mut self)
        ensures
            *final(self) == old(self).settled(),
    {
        let mut i: usize = 0;
        while i < 70
            invariant
                i <= 70,
                self.squares == old(self).squares,
                self.meta == settle_upto(old(self).meta, i as nat),
            decreases 70 - i,
        {
            let m = self.meta[i];
            self.meta[i] = SquareMeta { just_double_stepped: false, ..m };
            proof {
                lemma_settle_upto(old(self).meta, i as nat);
                lemma_settle_upto(old(self).meta, (i + 1) as nat);
                assert(self.meta =~= settle_upto(old(self).meta, (i + 1) as nat));
            }
            i = i + 1;
        }
    }

    pub fn is_empty(&self, p: Pos) -> (r: bool)
        ensures
            r == self.spec_is_empty(p),
    {
        self.get(p).is_none()
    }

    pub fn is_enemy(&self, p: Pos, player: Player) -> (r: bool)
        ensures
            r == self.spec_is_enemy(p, player),
    {
        match self.get(p) {
            Some(piece) => piece.player != player,
            None => false,
        }
    }

    pub fn is_friendly(&self, p: Pos, player: Player) -> (r: bool)
        ensures
            r == self.spec_is_friendly(p, player),
    {
        match self.get(p) {
            Some(piece) => piece.player == player,
            None => false,
        }
    }

    /// The pieces on the board with their squares, file by file.
    pub fn all_pieces(&self) -> (v: Vec<(Pos, Piece)>)
        ensures
            v@ == self.spec_all_pieces(),
    {
        let mut out: Vec<(Pos, Piece)> = Vec::new();
        let mut c: i8 = 0;
        while c < WIDTH
            invariant
                0 <= c <= WIDTH,
                out@ == pieces_upto(*self, (c * 10) as nat),
            decreases WIDTH - c,
        {
            let mut r: i8 = 0;
            while r < HEIGHT
                invariant
                    0 <= c < WIDTH,
                    0 <= r <= HEIGHT,
                    out@ == pieces_upto(*self, (c * 10 + r) as nat),
                decreases HEIGHT - r,
            {
                let p = Pos::new(c, r);
                assert(pos_of(c * 10 + r) == p);
                if let Some(piece) = self.get(p) {
                    out.push((p, piece));
                }
                r = r + 1;
            }
            c = c + 1;
        }
        out
    }

    /// Sum of the values of one player's pieces on the board.
    pub fn total_value(&self, player: Player) -> (t: u32)
        ensures
            t == value_of(self.spec_all_pieces(), player),
    {
        let all = self.all_pieces();
        let mut t: u32 = 0;
        let mut i: usize = 0;
        proof {
            assert(all@.len() <= 70) by {
                lemma_pieces_len(*self, 70);
            }
        }
        while i < all.len()
            invariant
                all@ == self.spec_all_pieces(),
                all@.len() <= 70,
                i <= all.len(),
                t == value_of(all@.take(i as int), player),
                t <= 9 * i,
            decreases all.len() - i,
        {
            assert(all@.take(i as int + 1).drop_last() =~= all@.take(i as int));
            let (_, piece) = all[i];
            if piece.player == player {
                t = t + piece.kind.value() as u32;
            }
            i = i + 1;
        }
        assert(all@.take(all@.len() as int) =~= all@);
        t
    }
}

proof fn lemma_pieces_len(b: Board, k: nat)
    ensures
        pieces_upto(b, k).len() <= k,
    decreases k,
{
    if k > 0 {
        lemma_pieces_len(b, (k - 1) as nat);
    }
}

pub broadcast group group_board {
    Board::lemma_with_piece,
    Board::lemma_with_meta,
    Board::lemma_settled,
    Board::lemma_occupied_in_bounds,
    Board::lemma_spec_empty,
}

} // verus!
