//! The game itself: board, side to move and rule set, with move application, and its
//! interface to the search.

use vstd::prelude::*;
use crate::fixed::{ONE, HALF};
use crate::game::{GameResult, GameState, Action};
use super::board::{Board, Pos, SquareMeta, group_board, default_meta, settled, HEIGHT, WIDTH};
use super::check::{game_status, legal_moves, in_check, spec_apply, spec_legal_moves, spec_status, GameStatus};
use super::movegen::{all_wf, pseudo, pseudo_legal_moves_for, lemma_en_passant_needs_a_double_step, lemma_double_step_needs_an_unmoved_pawn};
use super::moves::{Move, SpecialMove};
use super::piece::Player;
use super::rules::RaptorPachydermRules;
use super::setup::{default_setup_b, spec_setup_b};
use super::board::value_of;
use super::piece::{Piece, PieceType};
use vstd::string::StringExecFns;

verus! {

broadcast use group_board;

/// A position. It carries no history: castling and en passant go by the per-square
/// state on the board.
#[derive(Debug, Clone, Copy)]
pub struct Game {
    pub board: Board,
    pub current_player: Player,
    pub rules: RaptorPachydermRules,
}

/// Round(10^6 * (1/2 + tanh(d / 10) / 2)) for a material lead of `d` = 0 to 72 points;
/// from 73 on the value rounds to 10^6.
#[verifier::opaque]
pub open spec fn squash_table() -> Seq<u64> {
    seq![
        500000u64, 549834u64, 598688u64, 645656u64, 689974u64, 731059u64, 768525u64, 802184u64,
        832018u64, 858149u64, 880797u64, 900250u64, 916827u64, 930862u64, 942676u64, 952574u64,
        960834u64, 967705u64, 973403u64, 978119u64, 982014u64, 985226u64, 987872u64, 990048u64,
        991837u64, 993307u64, 994514u64, 995504u64, 996316u64, 996982u64, 997527u64, 997975u64,
        998341u64, 998641u64, 998887u64, 999089u64, 999254u64, 999389u64, 999500u64, 999590u64,
        999665u64, 999725u64, 999775u64, 999816u64, 999849u64, 999877u64, 999899u64, 999917u64,
        999932u64, 999945u64, 999955u64, 999963u64, 999970u64, 999975u64, 999980u64, 999983u64,
        999986u64, 999989u64, 999991u64, 999992u64, 999994u64, 999995u64, 999996u64, 999997u64,
        999997u64, 999998u64, 999998u64, 999998u64, 999999u64, 999999u64, 999999u64, 999999u64,
        999999u64,
    ]
}

/// The estimated chance, in millionths, that the side ahead by `d` points of material
/// wins: 1/2 + tanh(d / 10) / 2, rounded.
pub open spec fn win_chance(d: int) -> u64 {
    if 0 <= d < 73 {
        squash_table()[d]
    } else if d >= 73 {
        ONE
    } else if -73 < d {
        (ONE - squash_table()[-d]) as u64
    } else {
        0
    }
}

/// Every entry is at most one and at least the one before.
proof fn lemma_table()
    ensures
        squash_table().len() == 73,
        squash_table()[0] == HALF,
        forall|i: int| 0 <= i < 73 ==> #[trigger] squash_table()[i] <= ONE,
        forall|i: int| 0 <= i < 72 ==> #[trigger] squash_table()[i] <= squash_table()[i + 1],
{
    reveal(squash_table);
}

/// The material estimate is one minus itself for the other side, one half for equal
/// material, and never decreases as the lead grows.
#[verifier::rlimit(40)]
pub proof fn lemma_win_chance(d: int, e: int)
    ensures
        win_chance(d) <= ONE,
        win_chance(0) == HALF,
        win_chance(d) + win_chance(-d) == ONE,
        d <= e ==> win_chance(d) <= win_chance(e),
{
    lemma_table();
    if d <= e {
        lemma_table_mono(d, e);
    }
}

proof fn lemma_table_mono(d: int, e: int)
    requires
        d <= e,
        squash_table().len() == 73,
        squash_table()[0] == HALF,
        forall|i: int| 0 <= i < 73 ==> #[trigger] squash_table()[i] <= ONE,
        forall|i: int| 0 <= i < 72 ==> #[trigger] squash_table()[i] <= squash_table()[i + 1],
    ensures
        win_chance(d) <= win_chance(e),
    decreases e - d,
{
    if d < e {
        lemma_table_mono(d, e - 1);
        if 0 <= e - 1 < 72 {
            assert(squash_table()[e - 1] <= squash_table()[e]);
        } else if e - 1 == 72 {
            assert(squash_table()[72] <= ONE);
        } else if e == 0 {
            assert(squash_table()[0] <= squash_table()[1]);
        } else if -73 < e - 1 < 0 {
            assert(squash_table()[-e] <= squash_table()[-(e - 1)]);
        }
    }
}

#[verifier::rlimit(40)]
fn win_chance_of(d: i64) -> (r: u64)
    ensures
        r == win_chance(d as int),
        r <= ONE,
{
    proof {
        lemma_table();
    }
    let table: [u64; 73] = [
        500000u64, 549834u64, 598688u64, 645656u64, 689974u64, 731059u64, 768525u64, 802184u64,
        832018u64, 858149u64, 880797u64, 900250u64, 916827u64, 930862u64, 942676u64, 952574u64,
        960834u64, 967705u64, 973403u64, 978119u64, 982014u64, 985226u64, 987872u64, 990048u64,
        991837u64, 993307u64, 994514u64, 995504u64, 996316u64, 996982u64, 997527u64, 997975u64,
        998341u64, 998641u64, 998887u64, 999089u64, 999254u64, 999389u64, 999500u64, 999590u64,
        999665u64, 999725u64, 999775u64, 999816u64, 999849u64, 999877u64, 999899u64, 999917u64,
        999932u64, 999945u64, 999955u64, 999963u64, 999970u64, 999975u64, 999980u64, 999983u64,
        999986u64, 999989u64, 999991u64, 999992u64, 999994u64, 999995u64, 999996u64, 999997u64,
        999997u64, 999998u64, 999998u64, 999998u64, 999999u64, 999999u64, 999999u64, 999999u64,
        999999u64,
    ];
    assert(table@ =~= squash_table()) by {
        reveal(squash_table);
    }
    if d >= 0 {
        if d < 73 {
            table[d as usize]
        } else {
            ONE
        }
    } else if d > -73 {
        ONE - table[(-d) as usize]
    } else {
        0
    }
}

/// The position after a move: every double-step flag cleared, the captured piece
/// removed, the mover on its landing square marked as moved (and as just
/// double-stepped for a pawn's two-square advance), the castling rook moved beside
/// the king and marked as moved, and the other side to move.
pub open spec fn spec_make(g: Game, mv: Move) -> Game {
    let b0 = g.board.settled();
    let b1 = match mv.captured {
        Some(c) => b0.with_piece(c.0, None),
        None => b0,
    };
    let moved = SquareMeta {
        has_moved: true,
        just_double_stepped: mv.special is DoublePawnStep,
        ..b1.meta_at(mv.from)
    };
    let b2 = b1.with_piece(mv.from, None).with_piece(mv.to, Some(mv.piece)).with_meta(mv.to, moved);
    let b3 = match mv.special {
        SpecialMove::Castle { rook_from, rook_to } => match b2.at(rook_from) {
            Some(rook) => b2.with_piece(rook_from, None).with_piece(rook_to, Some(rook)).with_meta(
                rook_to,
                SquareMeta { has_moved: true, ..b2.meta_at(rook_from) },
            ),
            None => b2,
        },
        _ => b2,
    };
    Game { board: b3, current_player: g.current_player.spec_opponent(), rules: g.rules }
}

/// The double-step flag lasts one move: after any move only the mover's landing
/// square can carry it, and it does exactly after a pawn's two-square advance. The
/// turn passes to the other side and the rules stay.
pub proof fn lemma_double_step_lasts_one_move(g: Game, mv: Move, p: Pos)
    requires
        mv.well_formed(),
        p.spec_in_bounds(),
    ensures
        p != mv.to ==> !spec_make(g, mv).board.meta_at(p).just_double_stepped,
        spec_make(g, mv).board.meta_at(mv.to).just_double_stepped == (mv.special is DoublePawnStep),
        spec_make(g, mv).current_player == g.current_player.spec_opponent(),
        spec_make(g, mv).rules == g.rules,
{
}

/// A piece that has moved is marked so on its landing square, and from there it can
/// never again advance two squares.
pub proof fn lemma_moved_pawn_cannot_double_step(g: Game, mv: Move, m: Move)
    requires
        mv.well_formed(),
        pseudo(spec_make(g, mv).board, mv.to, spec_make(g, mv).rules).contains(m),
    ensures
        spec_make(g, mv).board.meta_at(mv.to).has_moved,
        !(m.special is DoublePawnStep),
{
    assert(spec_make(g, mv).board.meta_at(mv.to).has_moved);
    if m.special is DoublePawnStep {
        lemma_double_step_needs_an_unmoved_pawn(spec_make(g, mv).board, mv.to, spec_make(g, mv).rules, m);
    }
}

/// En passant is offered only right after a double step: in the position after any
/// move, an en passant capture can only take the piece that has just moved, and only
/// when that move was a pawn's two-square advance.
pub proof fn lemma_en_passant_right_after_double_step(g: Game, mv: Move, from: Pos, m: Move)
    requires
        mv.well_formed(),
        pseudo(spec_make(g, mv).board, from, spec_make(g, mv).rules).contains(m),
        m.special is EnPassant,
    ensures
        m.special->captured_pawn == mv.to,
        mv.special is DoublePawnStep,
{
    lemma_en_passant_needs_a_double_step(spec_make(g, mv).board, from, spec_make(g, mv).rules, m);
    lemma_double_step_lasts_one_move(g, mv, m.special->captured_pawn);
}

impl Game {
    /// The opening position: Default-B under the FalconMammoth rules, White to move.
    pub fn new() -> (g: Game)
        ensures
            g == (Game {
                board: spec_setup_b(),
                current_player: Player::White,
                rules: RaptorPachydermRules::FalconMammoth,
            }),
    {
        Game::from_setup(default_setup_b(), RaptorPachydermRules::default_rules())
    }

    /// A game from any board, White to move.
    pub fn from_setup(board: Board, rules: RaptorPachydermRules) -> (g: Game)
        ensures
            g == (Game { board, current_player: Player::White, rules }),
    {
        Game { board, current_player: Player::White, rules }
    }

    /// The pseudo-legal moves of the piece on `pos` (none for an empty square),
    /// without the check filter.
    pub fn moves_for(&self, pos: Pos) -> (v: Vec<Move>)
        ensures
            v@ == pseudo(self.board, pos, self.rules),
            all_wf(v@),
    {
        pseudo_legal_moves_for(&self.board, pos, self.rules)
    }

    /// Plays a move and passes the turn; the move is not checked for legality.
    pub fn make_move(&mut self, mv: Move)
        requires
            mv.well_formed(),
        ensures
            *final(self) == spec_make(*old(self), mv),
    {
        self.board.settle();
        if let Some(c) = mv.captured {
            self.board.set(c.0, None);
        }
        let mut moved_meta = self.board.meta(mv.from);
        moved_meta.has_moved = true;
        moved_meta.just_double_stepped = match mv.special {
            SpecialMove::DoublePawnStep => true,
            _ => false,
        };
        self.board.set(mv.from, None);
        self.board.set(mv.to, Some(mv.piece));
        self.board.set_meta(mv.to, moved_meta);
        if let SpecialMove::Castle { rook_from, rook_to } = mv.special {
            if let Some(rook) = self.board.get(rook_from) {
                let mut rook_meta = self.board.meta(rook_from);
                rook_meta.has_moved = true;
                self.board.set(rook_from, None);
                self.board.set(rook_to, Some(rook));
                self.board.set_meta(rook_to, rook_meta);
            }
        }
        self.current_player = self.current_player.opponent();
    }
}

impl Default for Game {
    fn default() -> (g: Game)
        ensures
            g == (Game {
                board: spec_setup_b(),
                current_player: Player::White,
                rules: RaptorPachydermRules::FalconMammoth,
            }),
    {
        Game::new()
    }
}

impl crate::game::Player for Player {
    fn same(&self, other: &Self) -> (r: bool) {
        *self == *other
    }

    proof fn lemma_two_sides(a: Self, b: Self, c: Self) {
    }
}

impl Action for Move {
    fn same(&self, other: &Self) -> (r: bool) {
        *self == *other
    }
}

impl GameState<Player, Move> for Game {
    /// Checkmate loses for the side to move; stalemate is a draw.
    open spec fn outcome(&self) -> Option<GameResult> {
        match spec_status(self.board, self.current_player, self.rules) {
            GameStatus::InPlay => None,
            GameStatus::Checkmate(_) => Some(GameResult::Lose),
            GameStatus::Stalemate(_) => Some(GameResult::Draw),
        }
    }

    open spec fn legal(&self, a: Move) -> bool {
        spec_legal_moves(self.board, self.current_player, self.rules).contains(a) && a.well_formed()
    }

    open spec fn next(&self, a: Move) -> Self {
        spec_make(*self, a)
    }

    open spec fn mover(&self) -> Player {
        self.current_player
    }

    open spec fn key(&self) -> u64 {
        0
    }

    open spec fn key_identifies() -> bool {
        false
    }

    proof fn lemma_key_identifies(a: Self, b: Self, x: Move) {
    }

    fn actions(&self) -> (v: Vec<Move>)
        ensures
            v@ == spec_legal_moves(self.board, self.current_player, self.rules),
    {
        let v = legal_moves(&self.board, self.current_player, self.rules);
        assert forall|i: int| 0 <= i < v.len() implies self.legal(#[trigger] v[i]) by {
            assert(v@[i] == v[i]);
            assert(v@.contains(v[i]));
        }
        v
    }

    fn make(&self, action: Move) -> (s: Self) {
        let mut next = *self;
        next.make_move(action);
        next
    }

    fn gameover(&self) -> (r: Option<GameResult>) {
        match game_status(&self.board, self.current_player, self.rules) {
            GameStatus::InPlay => None,
            GameStatus::Checkmate(_) => Some(GameResult::Lose),
            GameStatus::Stalemate(_) => Some(GameResult::Draw),
        }
    }

    fn player(&self) -> (p: Player) {
        self.current_player
    }

    /// Positions are not keyed.
    fn hash(&self) -> (h: u64)
        ensures
            h == 0,
    {
        0
    }

    /// The material estimate for the side to move: its chance to win given its lead in
    /// piece value.
    fn custom_evaluation(&self) -> (v: u64)
        ensures
            v == win_chance(
                value_of(self.board.spec_all_pieces(), self.current_player) - value_of(
                    self.board.spec_all_pieces(),
                    self.current_player.spec_opponent(),
                ),
            ),
    {
        let mine = self.board.total_value(self.current_player);
        let theirs = self.board.total_value(self.current_player.opponent());
        win_chance_of(mine as i64 - theirs as i64)
    }

    open spec fn evaluation(&self) -> u64 {
        win_chance(
            value_of(self.board.spec_all_pieces(), self.current_player) - value_of(
                self.board.spec_all_pieces(),
                self.current_player.spec_opponent(),
            ),
        )
    }
}

/// The letter of a piece: its code, in capitals for White and small for Black.
pub open spec fn piece_text(p: Piece) -> Seq<char> {
    let white = p.player == Player::White;
    match p.kind {
        PieceType::Pawn => if white {
            "P"@
        } else {
            "p"@
        },
        PieceType::Knight => if white {
            "N"@
        } else {
            "n"@
        },
        PieceType::Bishop => if white {
            "B"@
        } else {
            "b"@
        },
        PieceType::Falcon => if white {
            "F"@
        } else {
            "f"@
        },
        PieceType::Mammoth => if white {
            "M"@
        } else {
            "m"@
        },
        PieceType::Rook => if white {
            "R"@
        } else {
            "r"@
        },
        PieceType::Queen => if white {
            "Q"@
        } else {
            "q"@
        },
        PieceType::King => if white {
            "K"@
        } else {
            "k"@
        },
    }
}

/// The text of a square: the piece's letter, or a dot when it is empty.
pub open spec fn square_text(x: Option<Piece>) -> Seq<char> {
    match x {
        Some(p) => piece_text(p),
        None => "."@,
    }
}

fn piece_letter(p: Piece) -> (r: &'static str)
    ensures
        r@ == piece_text(p),
{
    let white = match p.player {
        Player::White => true,
        Player::Black => false,
    };
    match p.kind {
        PieceType::Pawn => if white {
            "P"
        } else {
            "p"
        },
        PieceType::Knight => if white {
            "N"
        } else {
            "n"
        },
        PieceType::Bishop => if white {
            "B"
        } else {
            "b"
        },
        PieceType::Falcon => if white {
            "F"
        } else {
            "f"
        },
        PieceType::Mammoth => if white {
            "M"
        } else {
            "m"
        },
        PieceType::Rook => if white {
            "R"
        } else {
            "r"
        },
        PieceType::Queen => if white {
            "Q"
        } else {
            "q"
        },
        PieceType::King => if white {
            "K"
        } else {
            "k"
        },
    }
}

impl Game {
    /// The text of the first `k` files of rank `row`, each letter followed by a space.
    pub open spec fn rank_text(self, row: i8, k: int) -> Seq<char>
        decreases k,
    {
        if k <= 0 {
            Seq::empty()
        } else {
            self.rank_text(row, k - 1) + square_text(self.board.at(Pos { col: (k - 1) as i8, row })) + " "@
        }
    }

    /// The text of the first `k` ranks, each on its own line.
    pub open spec fn ranks_text(self, k: int) -> Seq<char>
        decreases k,
    {
        if k <= 0 {
            Seq::empty()
        } else {
            self.ranks_text(k - 1) + self.rank_text((k - 1) as i8, 7) + "\n"@
        }
    }

    /// The position as text: the side to move, then the ten ranks from rank 0.
    pub open spec fn spec_render(self) -> Seq<char> {
        (if self.current_player == Player::White {
            "White"@
        } else {
            "Black"@
        }) + " to move\n"@ + self.ranks_text(10)
    }

    /// The position as text, as `spec_render` lays it out.
    pub fn render(&self) -> (r: String)
        ensures
            r@ == self.spec_render(),
    {
        let mut s = String::new();
        match self.current_player {
            Player::White => s.append("White"),
            Player::Black => s.append("Black"),
        }
        s.append(" to move\n");
        let ghost head = s@;
        let mut row: i8 = 0;
        while row < HEIGHT
            invariant
                0 <= row <= HEIGHT,
                s@ == head + self.ranks_text(row as int),
            decreases HEIGHT - row,
        {
            let mut col: i8 = 0;
            while col < WIDTH
                invariant
                    0 <= row < HEIGHT,
                    0 <= col <= WIDTH,
                    s@ == head + self.ranks_text(row as int) + self.rank_text(row, col as int),
                decreases WIDTH - col,
            {
                let ghost before = s@;
                match self.board.get(Pos::new(col, row)) {
                    Some(p) => s.append(piece_letter(p)),
                    None => s.append("."),
                }
                s.append(" ");
                assert(s@ =~= head + self.ranks_text(row as int) + self.rank_text(row, col as int + 1));
                col = col + 1;
            }
            s.append("\n");
            assert(s@ =~= head + self.ranks_text(row as int + 1));
            row = row + 1;
        }
        assert(s@ =~= self.spec_render());
        s
    }
}

/// The name of a side.
pub open spec fn player_text(p: Player) -> Seq<char> {
    if p == Player::White {
        "White"@
    } else {
        "Black"@
    }
}

fn player_name(p: Player) -> (r: &'static str)
    ensures
        r@ == player_text(p),
{
    match p {
        Player::White => "White",
        Player::Black => "Black",
    }
}

impl Game {
    /// The status line: the side to move while the game goes on, the winner after
    /// checkmate, or the draw after stalemate.
    pub open spec fn spec_status_line(self) -> Seq<char> {
        match spec_status(self.board, self.current_player, self.rules) {
            GameStatus::InPlay => player_text(self.current_player) + " to move"@,
            GameStatus::Checkmate(loser) => "Checkmate! - "@ + player_text(loser.spec_opponent()) + " Wins"@,
            GameStatus::Stalemate(_) => "Stalemate! - Draw"@,
        }
    }

    /// The status line, as `spec_status_line` words it.
    pub fn status(&self) -> (r: String)
        ensures
            r@ == self.spec_status_line(),
    {
        let mut s = String::new();
        match game_status(&self.board, self.current_player, self.rules) {
            GameStatus::InPlay => {
                s.append(player_name(self.current_player));
                s.append(" to move");
            },
            GameStatus::Checkmate(loser) => {
                s.append("Checkmate! - ");
                s.append(player_name(loser.opponent()));
                s.append(" Wins");
            },
            GameStatus::Stalemate(_) => {
                s.append("Stalemate! - Draw");
            },
        }
        s
    }
}

/// The name of a piece's picture: the Falcon and the Mammoth use the pictures of the
/// hawk and the elephant.
pub open spec fn graphic_name(kind: PieceType) -> Seq<char> {
    match kind {
        PieceType::Pawn => "pawn"@,
        PieceType::Knight => "knight"@,
        PieceType::Bishop => "bishop"@,
        PieceType::Falcon => "hawk"@,
        PieceType::Mammoth => "elephant"@,
        PieceType::Rook => "rook"@,
        PieceType::Queen => "queen"@,
        PieceType::King => "king"@,
    }
}

/// The path of a piece's picture: `graphics/`, `w` or `b` for its side, its picture's
/// name and `.gif`.
pub fn graphic_path(piece: Piece) -> (r: String)
    ensures
        r@ == "graphics/"@ + (if piece.player == Player::White {
            "w"@
        } else {
            "b"@
        }) + graphic_name(piece.kind) + ".gif"@,
{
    let mut s = String::new();
    s.append("graphics/");
    match piece.player {
        Player::White => s.append("w"),
        Player::Black => s.append("b"),
    }
    let name = match piece.kind {
        PieceType::Pawn => "pawn",
        PieceType::Knight => "knight",
        PieceType::Bishop => "bishop",
        PieceType::Falcon => "hawk",
        PieceType::Mammoth => "elephant",
        PieceType::Rook => "rook",
        PieceType::Queen => "queen",
        PieceType::King => "king",
    };
    s.append(name);
    s.append(".gif");
    s
}

} // verus!
