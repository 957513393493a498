//! Board setups: the two fixed default layouts, and d12-rolled random armies drawn
//! from the front, middle and back rank tables.

use vstd::prelude::*;
use vstd::string::StrSliceExecFns;
use super::board::{Board, Pos, SquareMeta, WIDTH, HEIGHT, group_board};
use super::piece::{Piece, PieceType, Player};

verus! {

broadcast use group_board;

/// One xorshift64 step.
pub open spec fn xorshift(x: u64) -> u64 {
    let a = x ^ (x << 13u64);
    let b = a ^ (a >> 7u64);
    b ^ (b << 17u64)
}

/// The generator's state after `k` steps from `s`.
pub open spec fn state_after(s: u64, k: nat) -> u64
    decreases k,
{
    if k == 0 {
        s
    } else {
        xorshift(state_after(s, (k - 1) as nat))
    }
}

/// The `k`-th d12 roll (from 0) of a generator in state `s`.
pub open spec fn roll_at(s: u64, k: nat) -> u8 {
    ((state_after(s, k + 1) % 12) + 1) as u8
}

/// The starting state for a seed; zero, a fixed point of xorshift, is replaced.
pub open spec fn seed_state(seed: u64) -> u64 {
    if seed == 0 {
        0x9E3779B97F4A7C15
    } else {
        seed
    }
}

/// A small xorshift64 generator for random armies.
pub struct Rng(u64);

impl Rng {
    pub closed spec fn state(self) -> u64 {
        self.0
    }

    pub fn new(seed: u64) -> (r: Rng)
        ensures
            r.state() == seed_state(seed),
    {
        Rng(
            if seed == 0 {
                0x9E3779B97F4A7C15
            } else {
                seed
            },
        )
    }

    fn next_u64(&mut self) -> (r: u64)
        ensures
            r == xorshift(old(self).state()),
            final(self).state() == r,
    {
        let mut x = self.0;
        x = x ^ (x << 13u64);
        x = x ^ (x >> 7u64);
        x = x ^ (x << 17u64);
        self.0 = x;
        x
    }

    /// A uniform roll of a d12, 1 to 12.
    pub fn roll_d12(&mut self) -> (r: u8)
        ensures
            r == roll_at(old(self).state(), 0),
            final(self).state() == state_after(old(self).state(), 1),
            1 <= r <= 12,
    {
        let x = self.next_u64();
        proof {
            reveal_with_fuel(state_after, 2);
        }
        assert(state_after(old(self).state(), 1) == x);
        ((x % 12) as u8) + 1
    }
}

// ---------- rank layouts ----------

/// The characters `char::is_whitespace` accepts (Unicode White_Space).
pub open spec fn is_ws(c: char) -> bool {
    ('\u{9}' <= c <= '\u{d}') || c == ' ' || c == '\u{85}' || c == '\u{a0}' || c == '\u{1680}' || (
    '\u{2000}' <= c <= '\u{200a}') || c == '\u{2028}' || c == '\u{2029}' || c == '\u{202f}' || c
        == '\u{205f}' || c == '\u{3000}'
}

/// Piece codes of a layout; 'E' (Elephant) is accepted for the Mammoth.
pub open spec fn is_code(c: char) -> bool {
    c == 'P' || c == 'N' || c == 'B' || c == 'F' || c == 'E' || c == 'M' || c == 'R' || c == 'Q'
        || c == 'K'
}

pub open spec fn kind_of_code(c: char) -> PieceType {
    if c == 'P' {
        PieceType::Pawn
    } else if c == 'N' {
        PieceType::Knight
    } else if c == 'B' {
        PieceType::Bishop
    } else if c == 'F' {
        PieceType::Falcon
    } else if c == 'E' || c == 'M' {
        PieceType::Mammoth
    } else if c == 'R' {
        PieceType::Rook
    } else if c == 'Q' {
        PieceType::Queen
    } else {
        PieceType::King
    }
}

/// Every character is whitespace or a piece code.
pub open spec fn valid_layout(s: Seq<char>) -> bool {
    forall|i: int| 0 <= i < s.len() ==> is_ws(#[trigger] s[i]) || is_code(s[i])
}

/// The piece types of a layout, whitespace skipped.
pub open spec fn parse_spec(s: Seq<char>) -> Seq<PieceType>
    decreases s.len(),
{
    if s.len() == 0 {
        Seq::empty()
    } else {
        let rest = parse_spec(s.drop_last());
        if is_ws(s.last()) {
            rest
        } else {
            rest.push(kind_of_code(s.last()))
        }
    }
}

fn is_whitespace(c: char) -> (r: bool)
    ensures
        r == is_ws(c),
{
    ('\u{9}' <= c && c <= '\u{d}') || c == ' ' || c == '\u{85}' || c == '\u{a0}' || c == '\u{1680}'
        || ('\u{2000}' <= c && c <= '\u{200a}') || c == '\u{2028}' || c == '\u{2029}' || c
        == '\u{202f}' || c == '\u{205f}' || c == '\u{3000}'
}

fn code_kind(c: char) -> (r: PieceType)
    requires
        is_code(c),
    ensures
        r == kind_of_code(c),
{
    match c {
        'P' => PieceType::Pawn,
        'N' => PieceType::Knight,
        'B' => PieceType::Bishop,
        'F' => PieceType::Falcon,
        'E' | 'M' => PieceType::Mammoth,
        'R' => PieceType::Rook,
        'Q' => PieceType::Queen,
        _ => PieceType::King,
    }
}

/// The piece types of a rank layout, whitespace skipped.
fn parse_rank(layout: &str) -> (v: Vec<PieceType>)
    requires
        valid_layout(layout@),
    ensures
        v@ == parse_spec(layout@),
{
    let n = layout.unicode_len();
    let mut out: Vec<PieceType> = Vec::new();
    let mut i: usize = 0;
    while i < n
        invariant
            n == layout@.len(),
            i <= n,
            valid_layout(layout@),
            out@ == parse_spec(layout@.take(i as int)),
        decreases n - i,
    {
        assert(layout@.take(i as int + 1).drop_last() =~= layout@.take(i as int));
        let c = layout.get_char(i);
        if !is_whitespace(c) {
            assert(is_code(layout@[i as int]));
            out.push(code_kind(c));
        }
        i = i + 1;
    }
    assert(layout@.take(n as int) =~= layout@);
    out
}

/// The state of a square a piece was placed on by a setup.
pub open spec fn start_meta(p: Pos) -> SquareMeta {
    SquareMeta { has_moved: false, start_pos: Some(p), just_double_stepped: false }
}

pub open spec fn place_one(b: Board, p: Pos, piece: Piece) -> Board {
    b.with_piece(p, Some(piece)).with_meta(p, start_meta(p))
}

/// The board with `player`'s pieces of `kinds` placed on `row`, file by file from
/// file 0.
pub open spec fn spec_place_rank(b: Board, player: Player, row: i8, kinds: Seq<PieceType>) -> Board
    decreases kinds.len(),
{
    if kinds.len() == 0 {
        b
    } else {
        place_one(
            spec_place_rank(b, player, row, kinds.drop_last()),
            Pos { col: (kinds.len() - 1) as i8, row },
            Piece { player, kind: kinds.last() },
        )
    }
}

fn place_rank(board: &mut Board, player: Player, row: i8, layout: &str)
    requires
        valid_layout(layout@),
        parse_spec(layout@).len() <= 7,
        0 <= row < HEIGHT,
    ensures
        *final(board) == spec_place_rank(*old(board), player, row, parse_spec(layout@)),
{
    let kinds = parse_rank(layout);
    let mut col: usize = 0;
    while col < kinds.len()
        invariant
            kinds@ == parse_spec(layout@),
            kinds@.len() <= 7,
            col <= kinds@.len(),
            0 <= row < HEIGHT,
            *board == spec_place_rank(*old(board), player, row, kinds@.take(col as int)),
        decreases kinds.len() - col,
    {
        assert(kinds@.take(col as int + 1).drop_last() =~= kinds@.take(col as int));
        board.place_new(Pos::new(col as i8, row), Piece { player, kind: kinds[col] });
        col = col + 1;
    }
    assert(kinds@.take(kinds@.len() as int) =~= kinds@);
}

/// The layouts of Default-A, "Guinevere": asymmetric armies; only Black's rooks start
/// on corners.
pub open spec fn spec_setup_a() -> Board {
    let b = Board::spec_empty();
    let b = spec_place_rank(b, Player::Black, 0, parse_spec("R E F K F E R"@));
    let b = spec_place_rank(b, Player::Black, 1, parse_spec("N B B Q B B N"@));
    let b = spec_place_rank(b, Player::Black, 2, parse_spec("P P P P P P P"@));
    let b = spec_place_rank(b, Player::White, 7, parse_spec("P P P P P P P"@));
    let b = spec_place_rank(b, Player::White, 8, parse_spec("N B F N B F N"@));
    spec_place_rank(b, Player::White, 9, parse_spec("Q R E K E R Q"@))
}

/// The layouts of Default-B: symmetric armies with both sides' rooks on corners.
pub open spec fn spec_setup_b() -> Board {
    let b = Board::spec_empty();
    let b = spec_place_rank(b, Player::Black, 0, parse_spec("R E Q K Q E R"@));
    let b = spec_place_rank(b, Player::Black, 1, parse_spec("B B N F N B B"@));
    let b = spec_place_rank(b, Player::Black, 2, parse_spec("P P P P P P P"@));
    let b = spec_place_rank(b, Player::White, 7, parse_spec("P P P P P P P"@));
    let b = spec_place_rank(b, Player::White, 8, parse_spec("B B N F N B B"@));
    spec_place_rank(b, Player::White, 9, parse_spec("R E Q K Q E R"@))
}

/// A layout of piece codes at the even positions and single spaces at the odd ones:
/// its first `k` characters hold `(k + 1) / 2` pieces.
proof fn lemma_spaced(s: Seq<char>, k: int)
    requires
        0 <= k <= s.len(),
        forall|i: int| 0 <= i < s.len() && i % 2 == 1 ==> #[trigger] s[i] == ' ',
        forall|i: int| 0 <= i < s.len() && i % 2 == 0 ==> is_code(#[trigger] s[i]),
    ensures
        parse_spec(s.take(k)).len() == (k + 1) / 2,
        valid_layout(s),
    decreases k,
{
    if k > 0 {
        assert(s.take(k).drop_last() =~= s.take(k - 1));
        lemma_spaced(s, k - 1);
    }
}

/// A seven-piece layout of codes separated by single spaces.
proof fn lemma_seven(s: Seq<char>)
    requires
        s.len() == 13,
        forall|i: int| 0 <= i < 13 && i % 2 == 1 ==> #[trigger] s[i] == ' ',
        forall|i: int| 0 <= i < 13 && i % 2 == 0 ==> is_code(#[trigger] s[i]),
    ensures
        valid_layout(s),
        parse_spec(s).len() == 7,
{
    lemma_spaced(s, 13);
    assert(s.take(13) =~= s);
}

pub fn default_setup_a() -> (b: Board)
    ensures
        b == spec_setup_a(),
{
    proof {
        reveal_strlit("R E F K F E R");
        reveal_strlit("N B B Q B B N");
        reveal_strlit("P P P P P P P");
        reveal_strlit("N B F N B F N");
        reveal_strlit("Q R E K E R Q");
        lemma_seven("R E F K F E R"@);
        lemma_seven("N B B Q B B N"@);
        lemma_seven("P P P P P P P"@);
        lemma_seven("N B F N B F N"@);
        lemma_seven("Q R E K E R Q"@);
    }
    let mut board = Board::empty();
    place_rank(&mut board, Player::Black, 0, "R E F K F E R");
    place_rank(&mut board, Player::Black, 1, "N B B Q B B N");
    place_rank(&mut board, Player::Black, 2, "P P P P P P P");
    place_rank(&mut board, Player::White, HEIGHT - 3, "P P P P P P P");
    place_rank(&mut board, Player::White, HEIGHT - 2, "N B F N B F N");
    place_rank(&mut board, Player::White, HEIGHT - 1, "Q R E K E R Q");
    board
}

pub fn default_setup_b() -> (b: Board)
    ensures
        b == spec_setup_b(),
{
    proof {
        reveal_strlit("R E Q K Q E R");
        reveal_strlit("B B N F N B B");
        reveal_strlit("P P P P P P P");
        lemma_seven("R E Q K Q E R"@);
        lemma_seven("B B N F N B B"@);
        lemma_seven("P P P P P P P"@);
    }
    let mut board = Board::empty();
    place_rank(&mut board, Player::Black, 0, "R E Q K Q E R");
    place_rank(&mut board, Player::Black, 1, "B B N F N B B");
    place_rank(&mut board, Player::Black, 2, "P P P P P P P");
    place_rank(&mut board, Player::White, HEIGHT - 3, "P P P P P P P");
    place_rank(&mut board, Player::White, HEIGHT - 2, "B B N F N B B");
    place_rank(&mut board, Player::White, HEIGHT - 1, "R E Q K Q E R");
    board
}

// ---------- random armies ----------

pub open spec fn spec_front_rank_piece(roll: u8) -> PieceType {
    if roll <= 2 {
        PieceType::Falcon
    } else if roll <= 4 {
        PieceType::Bishop
    } else if roll <= 6 {
        PieceType::Knight
    } else {
        PieceType::Pawn
    }
}

pub open spec fn spec_middle_rank_piece(roll: u8) -> PieceType {
    if roll <= 1 {
        PieceType::Pawn
    } else if roll <= 3 {
        PieceType::Mammoth
    } else if roll <= 5 {
        PieceType::Rook
    } else if roll <= 7 {
        PieceType::Bishop
    } else if roll <= 9 {
        PieceType::Falcon
    } else if roll <= 11 {
        PieceType::Knight
    } else {
        PieceType::Queen
    }
}

pub open spec fn spec_back_rank_piece(roll: u8) -> PieceType {
    if roll <= 3 {
        PieceType::Queen
    } else if roll <= 6 {
        PieceType::Mammoth
    } else if roll <= 9 {
        PieceType::Rook
    } else if roll <= 10 {
        PieceType::Bishop
    } else if roll <= 11 {
        PieceType::Falcon
    } else {
        PieceType::Knight
    }
}

/// Front rank: 1-2 Falcon, 3-4 Bishop, 5-6 Knight, 7-12 Pawn.
fn front_rank_piece(roll: u8) -> (r: PieceType)
    requires
        1 <= roll <= 12,
    ensures
        r == spec_front_rank_piece(roll),
{
    match roll {
        1 | 2 => PieceType::Falcon,
        3 | 4 => PieceType::Bishop,
        5 | 6 => PieceType::Knight,
        _ => PieceType::Pawn,
    }
}

/// Middle rank: 1 Pawn, 2-3 Mammoth, 4-5 Rook, 6-7 Bishop, 8-9 Falcon, 10-11 Knight,
/// 12 Queen.
fn middle_rank_piece(roll: u8) -> (r: PieceType)
    requires
        1 <= roll <= 12,
    ensures
        r == spec_middle_rank_piece(roll),
{
    match roll {
        1 => PieceType::Pawn,
        2 | 3 => PieceType::Mammoth,
        4 | 5 => PieceType::Rook,
        6 | 7 => PieceType::Bishop,
        8 | 9 => PieceType::Falcon,
        10 | 11 => PieceType::Knight,
        _ => PieceType::Queen,
    }
}

/// Back rank: 1-3 Queen, 4-6 Mammoth, 7-9 Rook, 10 Bishop, 11 Falcon, 12 Knight.
fn back_rank_piece(roll: u8) -> (r: PieceType)
    requires
        1 <= roll <= 12,
    ensures
        r == spec_back_rank_piece(roll),
{
    match roll {
        1 | 2 | 3 => PieceType::Queen,
        4 | 5 | 6 => PieceType::Mammoth,
        7 | 8 | 9 => PieceType::Rook,
        10 => PieceType::Bishop,
        11 => PieceType::Falcon,
        _ => PieceType::Knight,
    }
}

/// The kind an army built from generator state `s` has at file `col` of its back
/// (rank 0), middle (1) or front (2) rank. The king stands on the centre file of the
/// back rank without a roll; the other six back-rank files, then the middle rank,
/// then the front rank each take the next roll.
pub open spec fn army_kind(s: u64, rank: int, col: int) -> PieceType {
    if rank == 0 {
        if col == 3 {
            PieceType::King
        } else {
            spec_back_rank_piece(roll_at(s, (if col < 3 { col } else { col - 1 }) as nat))
        }
    } else if rank == 1 {
        spec_middle_rank_piece(roll_at(s, (6 + col) as nat))
    } else {
        spec_front_rank_piece(roll_at(s, (13 + col) as nat))
    }
}

/// What a random setup from `seed` puts on `p`: Black's army (rolled first) on rows
/// 0 to 2 with its back rank on row 0, White's on rows 9 to 7 with its back rank on
/// row 9, nothing in between.
pub open spec fn random_square(seed: u64, p: Pos) -> Option<Piece> {
    let s = seed_state(seed);
    if 0 <= p.row <= 2 {
        Some(Piece { player: Player::Black, kind: army_kind(s, p.row as int, p.col as int) })
    } else if 7 <= p.row <= 9 {
        Some(
            Piece {
                player: Player::White,
                kind: army_kind(state_after(s, 20), 9 - p.row, p.col as int),
            },
        )
    } else {
        None
    }
}

pub proof fn lemma_state_after_add(s: u64, a: nat, b: nat)
    ensures
        state_after(state_after(s, a), b) == state_after(s, a + b),
    decreases b,
{
    if b > 0 {
        lemma_state_after_add(s, a, (b - 1) as nat);
    }
}

/// Fills one player's three ranks from the generator.
fn random_army(board: &mut Board, player: Player, rng: &mut Rng, back_row: i8, middle_row: i8, front_row: i8)
    requires
        0 <= back_row < HEIGHT,
        0 <= middle_row < HEIGHT,
        0 <= front_row < HEIGHT,
        back_row != middle_row,
        back_row != front_row,
        middle_row != front_row,
    ensures
        final(rng).state() == state_after(old(rng).state(), 20),
        forall|p: Pos|
            #![trigger final(board).at(p)]
            #![trigger final(board).meta_at(p)]
            p.spec_in_bounds() ==> {
                let rank = if p.row == back_row {
                    0int
                } else if p.row == middle_row {
                    1int
                } else {
                    2int
                };
                if p.row == back_row || p.row == middle_row || p.row == front_row {
                    &&& final(board).at(p) == Some(
                        Piece { player, kind: army_kind(old(rng).state(), rank, p.col as int) },
                    )
                    &&& final(board).meta_at(p) == start_meta(p)
                } else {
                    &&& final(board).at(p) == old(board).at(p)
                    &&& final(board).meta_at(p) == old(board).meta_at(p)
                }
            },
{
    let ghost s0 = rng.state();
    let ghost b0 = *board;
    let king_col = WIDTH / 2;
    let rows: [i8; 3] = [back_row, middle_row, front_row];
    let mut rank: usize = 0;
    let ghost mut used: nat = 0;
    while rank < 3
        invariant
            rank <= 3,
            rows@ == seq![back_row, middle_row, front_row],
            king_col == 3,
            0 <= back_row < HEIGHT,
            0 <= middle_row < HEIGHT,
            0 <= front_row < HEIGHT,
            back_row != middle_row,
            back_row != front_row,
            middle_row != front_row,
            used == (if rank == 0 { 0nat } else if rank == 1 { 6nat } else if rank == 2 { 13nat } else { 20nat }),
            rng.state() == state_after(s0, used),
            forall|p: Pos|
                #![trigger board.at(p)]
                #![trigger board.meta_at(p)]
                p.spec_in_bounds() ==> {
                    let r = if p.row == back_row {
                        0int
                    } else if p.row == middle_row {
                        1int
                    } else {
                        2int
                    };
                    if (p.row == back_row && rank > 0) || (p.row == middle_row && rank > 1) || (
                    p.row == front_row && rank > 2) {
                        &&& board.at(p) == Some(Piece { player, kind: army_kind(s0, r, p.col as int) })
                        &&& board.meta_at(p) == start_meta(p)
                    } else {
                        &&& board.at(p) == b0.at(p)
                        &&& board.meta_at(p) == b0.meta_at(p)
                    }
                },
        decreases 3 - rank,
    {
        let row = rows[rank];
        let ghost before = *board;
        let ghost used0 = used;
        let mut col: i8 = 0;
        while col < WIDTH
            invariant
                0 <= col <= WIDTH,
                rank < 3,
                row == rows@[rank as int],
                rows@ == seq![back_row, middle_row, front_row],
                king_col == 3,
                0 <= row < HEIGHT,
                used0 == (if rank == 0 { 0nat } else if rank == 1 { 6nat } else { 13nat }),
                used == used0 + (if rank == 0 && col > 3 { col - 1 } else { col as int }),
                rng.state() == state_after(s0, used),
                forall|p: Pos|
                    #![trigger board.at(p)]
                    #![trigger board.meta_at(p)]
                    p.spec_in_bounds() ==> if p.row == row && p.col < col {
                        &&& board.at(p) == Some(
                            Piece { player, kind: army_kind(s0, rank as int, p.col as int) },
                        )
                        &&& board.meta_at(p) == start_meta(p)
                    } else {
                        &&& board.at(p) == before.at(p)
                        &&& board.meta_at(p) == before.meta_at(p)
                    },
            decreases WIDTH - col,
        {
            let kind = if rank == 0 && col == king_col {
                PieceType::King
            } else {
                let roll = rng.roll_d12();
                proof {
                    lemma_state_after_add(s0, used, 1);
                    used = used + 1;
                }
                if rank == 0 {
                    back_rank_piece(roll)
                } else if rank == 1 {
                    middle_rank_piece(roll)
                } else {
                    front_rank_piece(roll)
                }
            };
            board.place_new(Pos::new(col, row), Piece { player, kind });
            col = col + 1;
        }
        rank = rank + 1;
    }
}

/// Random armies for both sides, rolled independently: Black's first, then White's.
pub fn random_setup(seed: u64) -> (b: Board)
    ensures
        forall|p: Pos|
            #![trigger b.at(p)]
            #![trigger b.meta_at(p)]
            p.spec_in_bounds() ==> {
                &&& b.at(p) == random_square(seed, p)
                &&& b.meta_at(p) == if random_square(seed, p) is Some {
                    start_meta(p)
                } else {
                    SquareMeta { has_moved: false, start_pos: None, just_double_stepped: false }
                }
            },
{
    let mut board = Board::empty();
    let mut rng = Rng::new(seed);
    random_army(&mut board, Player::Black, &mut rng, 0, 1, 2);
    random_army(&mut board, Player::White, &mut rng, HEIGHT - 1, HEIGHT - 2, HEIGHT - 3);
    board
}

/// The rank rules of a random setup: each side's king stands on the centre file of
/// its back rank and nowhere else, its back rank holds no pawn, its middle rank no
/// king, and its front rank only pawns, knights, bishops and falcons.
pub proof fn lemma_random_setup_ranks(seed: u64, col: i8)
    requires
        0 <= col < WIDTH,
    ensures
        forall|row: i8|
            #![trigger random_square(seed, Pos { col, row })]
            0 <= row <= 2 || 7 <= row <= 9 ==> {
                let x = random_square(seed, Pos { col, row });
                let back = row == 0 || row == 9;
                let front = row == 2 || row == 7;
                &&& x is Some
                &&& x->0.player == (if row <= 2 {
                    Player::Black
                } else {
                    Player::White
                })
                &&& (x->0.kind == PieceType::King) == (back && col == 3)
                &&& back ==> x->0.kind != PieceType::Pawn
                &&& front ==> (x->0.kind == PieceType::Pawn || x->0.kind == PieceType::Knight
                    || x->0.kind == PieceType::Bishop || x->0.kind == PieceType::Falcon)
            },
{
}

} // verus!
