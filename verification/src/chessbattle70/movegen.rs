//! Pseudo-legal move generation, per piece type: each piece's own movement, captures
//! and blocking, without regard to whether the mover's king is left attacked
//! (`check::legal_moves` filters that out).

use vstd::prelude::*;
use super::board::{Board, Pos, WIDTH, HEIGHT, group_board};
use super::check::{attacked, square_is_attacked};
use super::moves::{Captured, Move, SpecialMove};
use super::piece::{Piece, PieceType, Player};
use super::rules::RaptorPachydermRules;

verus! {

broadcast use group_board;

// ---------- direction tables ----------

pub open spec fn rook_dirs() -> Seq<(i8, i8)> {
    seq![(1i8, 0i8), (-1i8, 0i8), (0i8, 1i8), (0i8, -1i8)]
}

pub open spec fn bishop_dirs() -> Seq<(i8, i8)> {
    seq![(1i8, 1i8), (1i8, -1i8), (-1i8, 1i8), (-1i8, -1i8)]
}

pub open spec fn queen_dirs() -> Seq<(i8, i8)> {
    rook_dirs() + bishop_dirs()
}

pub open spec fn knight_offsets() -> Seq<(i8, i8)> {
    seq![(1i8, 2i8), (2i8, 1i8), (2i8, -1i8), (1i8, -2i8), (-1i8, -2i8), (-2i8, -1i8), (-2i8, 1i8), (-1i8, 2i8)]
}

pub open spec fn king_offsets() -> Seq<(i8, i8)> {
    queen_dirs()
}

/// The Falcon's 16 squares: every square at Manhattan distance 1 or 3, the distances
/// that exactly three orthogonal unit steps can cover. Only the landing square
/// matters, so the Falcon is a fixed-offset leaper.
pub open spec fn falcon_offsets() -> Seq<(i8, i8)> {
    seq![
        (1i8, 0i8), (-1i8, 0i8), (0i8, 1i8), (0i8, -1i8),
        (0i8, 3i8), (0i8, -3i8), (3i8, 0i8), (-3i8, 0i8),
        (1i8, 2i8), (1i8, -2i8), (-1i8, 2i8), (-1i8, -2i8),
        (2i8, 1i8), (2i8, -1i8), (-2i8, 1i8), (-2i8, -1i8)
    ]
}

/// A unit step in one of the eight directions.
pub open spec fn unit(d: (i8, i8)) -> bool {
    -1 <= d.0 <= 1 && -1 <= d.1 <= 1 && (d.0 != 0 || d.1 != 0)
}

/// An offset of at most three in either coordinate.
pub open spec fn short(d: (i8, i8)) -> bool {
    -3 <= d.0 <= 3 && -3 <= d.1 <= 3
}

pub open spec fn step(p: Pos, d: (i8, i8)) -> Pos {
    p.spec_offset(d.0 as int, d.1 as int)
}

/// How far a ray from `p` in direction `d` can still go before leaving the board.
pub open spec fn room(p: Pos, d: (i8, i8)) -> int {
    (if d.0 > 0 {
        WIDTH - p.col
    } else if d.0 < 0 {
        p.col + 1
    } else {
        0int
    }) + (if d.1 > 0 {
        HEIGHT - p.row
    } else if d.1 < 0 {
        p.row + 1
    } else {
        0int
    })
}

pub open spec fn captured_at(b: Board, p: Pos) -> Option<Captured> {
    match b.at(p) {
        Some(x) => Some(Captured(p, x)),
        None => None,
    }
}

pub open spec fn plain(from: Pos, to: Pos, piece: Piece, captured: Option<Captured>) -> Move {
    Move { from, to, piece, captured, special: SpecialMove::Normal }
}

/// Every move touches only squares on the board.
pub open spec fn all_wf(s: Seq<Move>) -> bool {
    forall|i: int| 0 <= i < s.len() ==> #[trigger] s[i].well_formed()
}

// ---------- sliding, leaping, flying ----------

/// A slider's moves beyond `cur` in direction `d`: empty squares, then the first
/// enemy, stopping before a friend or the edge.
pub open spec fn ray(b: Board, from: Pos, piece: Piece, cur: Pos, d: (i8, i8)) -> Seq<Move>
    decreases room(cur, d),
{
    let nxt = step(cur, d);
    if !cur.spec_in_bounds() || !unit(d) || !nxt.spec_in_bounds() || b.spec_is_friendly(
        nxt,
        piece.player,
    ) {
        Seq::empty()
    } else {
        let m = plain(from, nxt, piece, captured_at(b, nxt));
        if b.at(nxt) is Some {
            seq![m]
        } else {
            seq![m] + ray(b, from, piece, nxt, d)
        }
    }
}

pub open spec fn slide(b: Board, from: Pos, piece: Piece, dirs: Seq<(i8, i8)>) -> Seq<Move>
    decreases dirs.len(),
{
    if dirs.len() == 0 {
        Seq::empty()
    } else {
        slide(b, from, piece, dirs.drop_last()) + ray(b, from, piece, from, dirs.last())
    }
}

pub open spec fn leap_one(b: Board, from: Pos, piece: Piece, off: (i8, i8)) -> Seq<Move> {
    let to = step(from, off);
    if to.spec_in_bounds() && !b.spec_is_friendly(to, piece.player) {
        seq![plain(from, to, piece, captured_at(b, to))]
    } else {
        Seq::empty()
    }
}

pub open spec fn leaps(b: Board, from: Pos, piece: Piece, offs: Seq<(i8, i8)>) -> Seq<Move>
    decreases offs.len(),
{
    if offs.len() == 0 {
        Seq::empty()
    } else {
        leaps(b, from, piece, offs.drop_last()) + leap_one(b, from, piece, offs.last())
    }
}

/// A diagonal that flies over every piece: each square to the edge that does not
/// hold a friend.
pub open spec fn fly_ray(b: Board, from: Pos, piece: Piece, cur: Pos, d: (i8, i8)) -> Seq<Move>
    decreases room(cur, d),
{
    let nxt = step(cur, d);
    if !cur.spec_in_bounds() || !unit(d) || !nxt.spec_in_bounds() {
        Seq::empty()
    } else {
        let here = if b.spec_is_friendly(nxt, piece.player) {
            Seq::empty()
        } else {
            seq![plain(from, nxt, piece, captured_at(b, nxt))]
        };
        here + fly_ray(b, from, piece, nxt, d)
    }
}

pub open spec fn fly(b: Board, from: Pos, piece: Piece, dirs: Seq<(i8, i8)>) -> Seq<Move>
    decreases dirs.len(),
{
    if dirs.len() == 0 {
        Seq::empty()
    } else {
        fly(b, from, piece, dirs.drop_last()) + fly_ray(b, from, piece, from, dirs.last())
    }
}

pub open spec fn sgn(x: i8) -> i8 {
    if x > 0 {
        1i8
    } else if x < 0 {
        -1i8
    } else {
        0i8
    }
}

/// A knight move that needs one of its two orthogonal L-routes to be clear.
pub open spec fn clear_knight_one(b: Board, from: Pos, piece: Piece, off: (i8, i8)) -> Seq<Move> {
    let to = step(from, off);
    if !to.spec_in_bounds() || b.spec_is_friendly(to, piece.player) {
        Seq::empty()
    } else {
        let long = if off.0 == 2 || off.0 == -2 {
            (sgn(off.0), 0i8)
        } else {
            (0i8, sgn(off.1))
        };
        let short = if off.0 == 2 || off.0 == -2 {
            (0i8, sgn(off.1))
        } else {
            (sgn(off.0), 0i8)
        };
        let r1_mid = step(from, long);
        let r1_elbow = step(r1_mid, long);
        let r2_elbow = step(from, short);
        let r2_mid = step(r2_elbow, long);
        let route1 = b.spec_is_empty(r1_mid) && b.spec_is_empty(r1_elbow);
        let route2 = b.spec_is_empty(r2_elbow) && b.spec_is_empty(r2_mid);
        if route1 || route2 {
            seq![plain(from, to, piece, captured_at(b, to))]
        } else {
            Seq::empty()
        }
    }
}

pub open spec fn clear_knights(b: Board, from: Pos, piece: Piece, offs: Seq<(i8, i8)>) -> Seq<Move>
    decreases offs.len(),
{
    if offs.len() == 0 {
        Seq::empty()
    } else {
        clear_knights(b, from, piece, offs.drop_last()) + clear_knight_one(b, from, piece, offs.last())
    }
}

// ---------- pawn ----------

pub open spec fn spec_promotion_row(player: Player) -> i8 {
    match player {
        Player::White => 0i8,
        Player::Black => 9i8,
    }
}

pub open spec fn spec_landing_piece(player: Player, to: Pos) -> Piece {
    if to.row == spec_promotion_row(player) {
        Piece { player, kind: PieceType::Queen }
    } else {
        Piece { player, kind: PieceType::Pawn }
    }
}

/// The forward moves of a pawn: one square, and two from its unmoved square.
pub open spec fn pawn_advances(b: Board, from: Pos, player: Player) -> Seq<Move> {
    let fwd = player.spec_forward();
    let one = step(from, (0i8, fwd));
    let two = from.spec_offset(0, 2 * fwd);
    if one.spec_in_bounds() && b.spec_is_empty(one) {
        let single = Move {
            from,
            to: one,
            piece: spec_landing_piece(player, one),
            captured: None,
            special: SpecialMove::Normal,
        };
        if !b.meta_at(from).has_moved && two.spec_in_bounds() && b.spec_is_empty(two) {
            seq![
                single,
                Move {
                    from,
                    to: two,
                    piece: spec_landing_piece(player, two),
                    captured: None,
                    special: SpecialMove::DoublePawnStep,
                },
            ]
        } else {
            seq![single]
        }
    } else {
        Seq::empty()
    }
}

/// A pawn's diagonal capture toward file offset `dc`, or its en passant capture of
/// an enemy pawn beside it that has just double-stepped.
pub open spec fn pawn_capture(b: Board, from: Pos, player: Player, dc: i8) -> Seq<Move> {
    let cap = step(from, (dc, player.spec_forward()));
    if !cap.spec_in_bounds() {
        Seq::empty()
    } else if b.spec_is_enemy(cap, player) {
        seq![Move {
            from,
            to: cap,
            piece: spec_landing_piece(player, cap),
            captured: captured_at(b, cap),
            special: SpecialMove::Normal,
        }]
    } else if b.spec_is_empty(cap) {
        let adj = Pos { col: cap.col, row: from.row };
        match b.at(adj) {
            Some(ap) => if ap.player != player && ap.kind == PieceType::Pawn && b.meta_at(
                adj,
            ).just_double_stepped {
                seq![Move {
                    from,
                    to: cap,
                    piece: spec_landing_piece(player, cap),
                    captured: Some(Captured(adj, ap)),
                    special: SpecialMove::EnPassant { captured_pawn: adj },
                }]
            } else {
                Seq::empty()
            },
            None => Seq::empty(),
        }
    } else {
        Seq::empty()
    }
}

pub open spec fn pawn(b: Board, from: Pos, player: Player) -> Seq<Move> {
    pawn_advances(b, from, player) + pawn_capture(b, from, player, -1i8) + pawn_capture(
        b,
        from,
        player,
        1i8,
    )
}

// ---------- king and castling ----------

/// Every file strictly between `a` and `z` on `row` is empty.
pub open spec fn spec_path_clear(b: Board, row: i8, a: i8, z: i8) -> bool {
    forall|c: i8|
        (if a < z {
            a < c < z
        } else {
            z < c < a
        }) ==> #[trigger] b.spec_is_empty(Pos { col: c, row })
}

/// The castling move of the king on `from` with the rook `(rook_pos, rook)`, if the
/// rook is the king's own, unmoved, on the king's rank, started on a corner it still
/// stands on, the squares between them are empty, the king's landing square is on
/// the board and the square it crosses is not attacked.
pub open spec fn castle_one(
    b: Board,
    from: Pos,
    piece: Piece,
    rules: RaptorPachydermRules,
    entry: (Pos, Piece),
) -> Seq<Move> {
    let (rook_pos, rook) = entry;
    let rm = b.meta_at(rook_pos);
    let dir: i8 = if rook_pos.col > from.col {
        1i8
    } else {
        -1i8
    };
    let king_to = Pos { col: (from.col + 2 * dir) as i8, row: from.row };
    let rook_to = Pos { col: (from.col + dir) as i8, row: from.row };
    if rook.player != piece.player || rook.kind != PieceType::Rook || rook_pos.row != from.row {
        Seq::empty()
    } else if rm.has_moved || rm.start_pos != Some(rook_pos) || !rook_pos.spec_is_corner() {
        Seq::empty()
    } else if !spec_path_clear(b, from.row, from.col, rook_pos.col) {
        Seq::empty()
    } else if !king_to.spec_in_bounds() || !(0 <= rook_to.col < WIDTH) {
        Seq::empty()
    } else if attacked(b, rook_to, piece.player.spec_opponent(), rules) {
        Seq::empty()
    } else {
        seq![Move {
            from,
            to: king_to,
            piece,
            captured: None,
            special: SpecialMove::Castle { rook_from: rook_pos, rook_to },
        }]
    }
}

pub open spec fn castles(
    b: Board,
    from: Pos,
    piece: Piece,
    rules: RaptorPachydermRules,
    list: Seq<(Pos, Piece)>,
) -> Seq<Move>
    decreases list.len(),
{
    if list.len() == 0 {
        Seq::empty()
    } else {
        castles(b, from, piece, rules, list.drop_last()) + castle_one(b, from, piece, rules, list.last())
    }
}

/// Castling is only considered for an unmoved king that is not in check.
pub open spec fn castling(b: Board, from: Pos, piece: Piece, rules: RaptorPachydermRules) -> Seq<Move> {
    if b.meta_at(from).has_moved || attacked(b, from, piece.player.spec_opponent(), rules) {
        Seq::empty()
    } else {
        castles(b, from, piece, rules, b.spec_all_pieces())
    }
}

pub open spec fn king(b: Board, from: Pos, piece: Piece, rules: RaptorPachydermRules) -> Seq<Move> {
    leaps(b, from, piece, king_offsets()) + castling(b, from, piece, rules)
}

// ---------- falcon and mammoth ----------

pub open spec fn falcon(b: Board, from: Pos, piece: Piece, rules: RaptorPachydermRules) -> Seq<Move> {
    match rules {
        RaptorPachydermRules::FalconMammoth => leaps(b, from, piece, falcon_offsets()),
        RaptorPachydermRules::SeirawanHarper => leaps(b, from, piece, knight_offsets()) + slide(
            b,
            from,
            piece,
            bishop_dirs(),
        ),
        RaptorPachydermRules::Realism => leaps(b, from, piece, knight_offsets()) + fly(
            b,
            from,
            piece,
            bishop_dirs(),
        ),
    }
}

/// The trample landings beyond a Mammoth's capture of `cap`: every empty square
/// after `cur` up to the next piece or the edge.
pub open spec fn beyond(b: Board, from: Pos, piece: Piece, cap: Captured, cur: Pos, d: (i8, i8)) -> Seq<
    Move,
>
    decreases room(cur, d),
{
    let nxt = step(cur, d);
    if !cur.spec_in_bounds() || !unit(d) || !nxt.spec_in_bounds() || b.at(nxt) is Some {
        Seq::empty()
    } else {
        seq![plain(from, nxt, piece, Some(cap))] + beyond(b, from, piece, cap, nxt, d)
    }
}

/// A Mammoth's ray: empty squares, then the first enemy, which it may capture and
/// stop on or trample through onto the empty squares beyond.
pub open spec fn trample_ray(b: Board, from: Pos, piece: Piece, cur: Pos, d: (i8, i8)) -> Seq<Move>
    decreases room(cur, d),
{
    let nxt = step(cur, d);
    if !cur.spec_in_bounds() || !unit(d) || !nxt.spec_in_bounds() {
        Seq::empty()
    } else {
        match b.at(nxt) {
            None => seq![plain(from, nxt, piece, None)] + trample_ray(b, from, piece, nxt, d),
            Some(occ) => if occ.player != piece.player {
                seq![plain(from, nxt, piece, Some(Captured(nxt, occ)))] + beyond(
                    b,
                    from,
                    piece,
                    Captured(nxt, occ),
                    nxt,
                    d,
                )
            } else {
                Seq::empty()
            },
        }
    }
}

pub open spec fn tramples(b: Board, from: Pos, piece: Piece, dirs: Seq<(i8, i8)>) -> Seq<Move>
    decreases dirs.len(),
{
    if dirs.len() == 0 {
        Seq::empty()
    } else {
        tramples(b, from, piece, dirs.drop_last()) + trample_ray(b, from, piece, from, dirs.last())
    }
}

pub open spec fn mammoth(b: Board, from: Pos, piece: Piece, rules: RaptorPachydermRules) -> Seq<Move> {
    match rules {
        RaptorPachydermRules::FalconMammoth => tramples(b, from, piece, rook_dirs()),
        RaptorPachydermRules::SeirawanHarper => leaps(b, from, piece, knight_offsets()) + slide(
            b,
            from,
            piece,
            rook_dirs(),
        ),
        RaptorPachydermRules::Realism => clear_knights(b, from, piece, knight_offsets()) + slide(
            b,
            from,
            piece,
            rook_dirs(),
        ),
    }
}

/// The pseudo-legal moves of a piece other than a king.
pub open spec fn nonking(b: Board, from: Pos, piece: Piece, rules: RaptorPachydermRules) -> Seq<Move> {
    match piece.kind {
        PieceType::Pawn => pawn(b, from, piece.player),
        PieceType::Knight => leaps(b, from, piece, knight_offsets()),
        PieceType::Bishop => slide(b, from, piece, bishop_dirs()),
        PieceType::Rook => slide(b, from, piece, rook_dirs()),
        PieceType::Queen => slide(b, from, piece, queen_dirs()),
        PieceType::Falcon => falcon(b, from, piece, rules),
        PieceType::Mammoth => mammoth(b, from, piece, rules),
        PieceType::King => Seq::empty(),
    }
}

/// The pseudo-legal moves of whatever stands on `from`.
pub open spec fn pseudo(b: Board, from: Pos, rules: RaptorPachydermRules) -> Seq<Move> {
    match b.at(from) {
        None => Seq::empty(),
        Some(piece) => if piece.kind == PieceType::King {
            king(b, from, piece, rules)
        } else {
            nonking(b, from, piece, rules)
        },
    }
}

// ---------- leapers ----------

/// Each move of a leaper lands at one of its offsets, on the board and not on a
/// friend, capturing what stands there.
proof fn lemma_leaps_sound(b: Board, from: Pos, piece: Piece, offs: Seq<(i8, i8)>, m: Move)
    requires
        leaps(b, from, piece, offs).contains(m),
    ensures
        exists|k: int|
            0 <= k < offs.len() && #[trigger] step(from, offs[k]) == m.to && m.to.spec_in_bounds()
                && !b.spec_is_friendly(m.to, piece.player) && m == plain(from, m.to, piece, captured_at(b, m.to)),
    decreases offs.len(),
{
    let rest = leaps(b, from, piece, offs.drop_last());
    let one = leap_one(b, from, piece, offs.last());
    let i = choose|i: int| 0 <= i < (rest + one).len() && (rest + one)[i] == m;
    if i < rest.len() {
        assert(rest[i] == m);
        lemma_leaps_sound(b, from, piece, offs.drop_last(), m);
        let k = choose|k: int|
            0 <= k < offs.drop_last().len() && #[trigger] step(from, offs.drop_last()[k]) == m.to
                && m.to.spec_in_bounds() && !b.spec_is_friendly(m.to, piece.player) && m == plain(
                from,
                m.to,
                piece,
                captured_at(b, m.to),
            );
        assert(offs.drop_last()[k] == offs[k]);
    } else {
        assert(one[i - rest.len()] == m);
        assert(offs.last() == offs[offs.len() - 1]);
    }
}

/// A leaper reaches every one of its offsets that lands on the board and not on a
/// friend.
proof fn lemma_leaps_complete(b: Board, from: Pos, piece: Piece, offs: Seq<(i8, i8)>, k: int)
    requires
        0 <= k < offs.len(),
        step(from, offs[k]).spec_in_bounds(),
        !b.spec_is_friendly(step(from, offs[k]), piece.player),
    ensures
        leaps(b, from, piece, offs).contains(
            plain(from, step(from, offs[k]), piece, captured_at(b, step(from, offs[k]))),
        ),
    decreases offs.len(),
{
    let m = plain(from, step(from, offs[k]), piece, captured_at(b, step(from, offs[k])));
    let rest = leaps(b, from, piece, offs.drop_last());
    let one = leap_one(b, from, piece, offs.last());
    if k < offs.len() - 1 {
        assert(offs.drop_last()[k] == offs[k]);
        lemma_leaps_complete(b, from, piece, offs.drop_last(), k);
        let i = choose|i: int| 0 <= i < rest.len() && rest[i] == m;
        assert((rest + one)[i] == m);
    } else {
        assert(offs.last() == offs[k]);
        assert(one[0] == m);
        assert((rest + one)[rest.len() as int] == m);
    }
}

/// A knight's jump: one file and two ranks, or two files and one rank, either way.
pub open spec fn knight_jump(dc: int, dr: int) -> bool {
    ||| (dc == 1 || dc == -1) && (dr == 2 || dr == -2)
    ||| (dc == 2 || dc == -2) && (dr == 1 || dr == -1)
}

/// Every move of a knight jumps one file and two ranks or two files and one rank,
/// onto the board and not onto a friend; and from any square it reaches every such
/// square on the board that no friend holds.
pub proof fn lemma_knight_moves(b: Board, from: Pos, rules: RaptorPachydermRules, m: Move, dc: int, dr: int)
    requires
        from.spec_in_bounds(),
        b.at(from) matches Some(x) && x.kind == PieceType::Knight,
    ensures
        pseudo(b, from, rules).contains(m) ==> {
            &&& m.from == from
            &&& m.to.spec_in_bounds()
            &&& !b.spec_is_friendly(m.to, b.at(from)->0.player)
            &&& knight_jump(m.to.col - from.col, m.to.row - from.row)
        },
        ({
            let to = Pos { col: (from.col + dc) as i8, row: (from.row + dr) as i8 };
            knight_jump(dc, dr) && to.spec_in_bounds() && !b.spec_is_friendly(to, b.at(from)->0.player)
                ==> exists|mv: Move| #[trigger] pseudo(b, from, rules).contains(mv) && mv.to == to
        }),
{
    let piece = b.at(from)->0;
    let offs = knight_offsets();
    assert(pseudo(b, from, rules) == leaps(b, from, piece, offs));
    if pseudo(b, from, rules).contains(m) {
        lemma_leaps_sound(b, from, piece, offs, m);
    }
    let to = Pos { col: (from.col + dc) as i8, row: (from.row + dr) as i8 };
    if knight_jump(dc, dr) && to.spec_in_bounds() && !b.spec_is_friendly(to, piece.player) {
        let k: int = if dc == 1 && dr == 2 {
            0
        } else if dc == 2 && dr == 1 {
            1
        } else if dc == 2 && dr == -1 {
            2
        } else if dc == 1 && dr == -2 {
            3
        } else if dc == -1 && dr == -2 {
            4
        } else if dc == -2 && dr == -1 {
            5
        } else if dc == -2 && dr == 1 {
            6
        } else {
            7
        };
        assert(step(from, offs[k]) == to);
        lemma_leaps_complete(b, from, piece, offs, k);
    }
}

/// A king step: one square in any of the eight directions.
pub open spec fn king_step(dc: int, dr: int) -> bool {
    -1 <= dc <= 1 && -1 <= dr <= 1 && (dc != 0 || dr != 0)
}

/// Every king move but castling is one step in one of the eight directions, onto the
/// board and not onto a friend; and every such step is offered.
pub proof fn lemma_king_steps(b: Board, from: Pos, rules: RaptorPachydermRules, m: Move, dc: int, dr: int)
    requires
        from.spec_in_bounds(),
        b.at(from) matches Some(x) && x.kind == PieceType::King,
    ensures
        pseudo(b, from, rules).contains(m) && !(m.special is Castle) ==> {
            &&& m.from == from
            &&& m.to.spec_in_bounds()
            &&& !b.spec_is_friendly(m.to, b.at(from)->0.player)
            &&& king_step(m.to.col - from.col, m.to.row - from.row)
        },
        ({
            let to = Pos { col: (from.col + dc) as i8, row: (from.row + dr) as i8 };
            king_step(dc, dr) && to.spec_in_bounds() && !b.spec_is_friendly(to, b.at(from)->0.player)
                ==> exists|mv: Move| #[trigger] pseudo(b, from, rules).contains(mv) && mv.to == to
        }),
{
    let piece = b.at(from)->0;
    let offs = king_offsets();
    let steps = leaps(b, from, piece, offs);
    let cs = castling(b, from, piece, rules);
    assert(pseudo(b, from, rules) == steps + cs);
    if pseudo(b, from, rules).contains(m) && !(m.special is Castle) {
        let i = choose|i: int| 0 <= i < (steps + cs).len() && (steps + cs)[i] == m;
        if i < steps.len() {
            assert(steps[i] == m);
            lemma_leaps_sound(b, from, piece, offs, m);
        } else {
            assert(cs[i - steps.len()] == m);
            assert(cs.contains(m));
            let list = b.spec_all_pieces();
            lemma_castles_contains(b, from, piece, rules, list, m);
            let j = choose|j: int| 0 <= j < list.len() && #[trigger] castle_one(b, from, piece, rules, list[j]) == seq![m];
            assert(castle_one(b, from, piece, rules, list[j])[0] == m);
        }
    }
    let to = Pos { col: (from.col + dc) as i8, row: (from.row + dr) as i8 };
    if king_step(dc, dr) && to.spec_in_bounds() && !b.spec_is_friendly(to, piece.player) {
        let k: int = if dc == 1 && dr == 0 {
            0
        } else if dc == -1 && dr == 0 {
            1
        } else if dc == 0 && dr == 1 {
            2
        } else if dc == 0 && dr == -1 {
            3
        } else if dc == 1 && dr == 1 {
            4
        } else if dc == 1 && dr == -1 {
            5
        } else if dc == -1 && dr == 1 {
            6
        } else {
            7
        };
        assert(step(from, offs[k]) == to);
        lemma_leaps_complete(b, from, piece, offs, k);
        let mv = plain(from, to, piece, captured_at(b, to));
        assert(steps.contains(mv));
        let i = choose|i: int| 0 <= i < steps.len() && steps[i] == mv;
        assert((steps + cs)[i] == mv);
        assert((steps + cs).contains(mv));
        assert(pseudo(b, from, rules).contains(mv) && mv.to == to);
    }
}

/// A Falcon's landing: one orthogonal step, or any square three orthogonal steps
/// away (Manhattan distance 3).
pub open spec fn falcon_landing(dc: int, dr: int) -> bool {
    let ac = if dc < 0 {
        -dc
    } else {
        dc
    };
    let ar = if dr < 0 {
        -dr
    } else {
        dr
    };
    ac + ar == 1 || ac + ar == 3
}

/// Under the Falcon and Mammoth rules every Falcon move lands one orthogonal step or
/// Manhattan distance three away, on the board and not on a friend; and every such
/// square is offered.
pub proof fn lemma_falcon_moves(b: Board, from: Pos, m: Move, dc: int, dr: int)
    requires
        from.spec_in_bounds(),
        b.at(from) matches Some(x) && x.kind == PieceType::Falcon,
    ensures
        pseudo(b, from, RaptorPachydermRules::FalconMammoth).contains(m) ==> {
            &&& m.from == from
            &&& m.to.spec_in_bounds()
            &&& !b.spec_is_friendly(m.to, b.at(from)->0.player)
            &&& falcon_landing(m.to.col - from.col, m.to.row - from.row)
        },
        ({
            let to = Pos { col: (from.col + dc) as i8, row: (from.row + dr) as i8 };
            falcon_landing(dc, dr) && to.spec_in_bounds() && !b.spec_is_friendly(to, b.at(from)->0.player)
                ==> exists|mv: Move| #[trigger] pseudo(b, from, RaptorPachydermRules::FalconMammoth).contains(mv)
                && mv.to == to
        }),
{
    let piece = b.at(from)->0;
    let offs = falcon_offsets();
    assert(pseudo(b, from, RaptorPachydermRules::FalconMammoth) == leaps(b, from, piece, offs));
    if pseudo(b, from, RaptorPachydermRules::FalconMammoth).contains(m) {
        lemma_leaps_sound(b, from, piece, offs, m);
    }
    let to = Pos { col: (from.col + dc) as i8, row: (from.row + dr) as i8 };
    if falcon_landing(dc, dr) && to.spec_in_bounds() && !b.spec_is_friendly(to, piece.player) {
        let k: int = if dc == 1 && dr == 0 {
            0
        } else if dc == -1 && dr == 0 {
            1
        } else if dc == 0 && dr == 1 {
            2
        } else if dc == 0 && dr == -1 {
            3
        } else if dc == 0 && dr == 3 {
            4
        } else if dc == 0 && dr == -3 {
            5
        } else if dc == 3 && dr == 0 {
            6
        } else if dc == -3 && dr == 0 {
            7
        } else if dc == 1 && dr == 2 {
            8
        } else if dc == 1 && dr == -2 {
            9
        } else if dc == -1 && dr == 2 {
            10
        } else if dc == -1 && dr == -2 {
            11
        } else if dc == 2 && dr == 1 {
            12
        } else if dc == 2 && dr == -1 {
            13
        } else if dc == -2 && dr == 1 {
            14
        } else {
            15
        };
        assert(step(from, offs[k]) == to);
        lemma_leaps_complete(b, from, piece, offs, k);
    }
}

/// `to` lies beyond `cur` along the unit direction `d`: on the same file or rank or
/// diagonal, on the side `d` points to.
pub open spec fn along(cur: Pos, to: Pos, d: (i8, i8)) -> bool {
    let dc = to.col - cur.col;
    let dr = to.row - cur.row;
    &&& d.0 == 0 ==> dc == 0
    &&& d.0 > 0 ==> dc > 0
    &&& d.0 < 0 ==> dc < 0
    &&& d.1 == 0 ==> dr == 0
    &&& d.1 > 0 ==> dr > 0
    &&& d.1 < 0 ==> dr < 0
    &&& d.0 != 0 && d.0 == d.1 ==> dc == dr
    &&& d.0 != 0 && d.0 == -d.1 ==> dc == -dr
}

/// Each move of a ray goes from `from` to a square on the board beyond `cur` along
/// its direction.
proof fn lemma_ray_along(b: Board, from: Pos, piece: Piece, cur: Pos, d: (i8, i8), m: Move)
    requires
        ray(b, from, piece, cur, d).contains(m),
    ensures
        m.from == from,
        m.to.spec_in_bounds(),
        along(cur, m.to, d),
    decreases room(cur, d),
{
    let nxt = step(cur, d);
    let mv = plain(from, nxt, piece, captured_at(b, nxt));
    if b.at(nxt) is Some {
        assert(seq![mv][0] == mv);
    } else {
        let rest = ray(b, from, piece, nxt, d);
        let i = choose|i: int| 0 <= i < (seq![mv] + rest).len() && (seq![mv] + rest)[i] == m;
        if i > 0 {
            assert(rest[i - 1] == m);
            lemma_ray_along(b, from, piece, nxt, d, m);
        }
    }
}

/// Each move of a slider goes along one of its directions.
proof fn lemma_slide_along(b: Board, from: Pos, piece: Piece, dirs: Seq<(i8, i8)>, m: Move)
    requires
        slide(b, from, piece, dirs).contains(m),
    ensures
        m.from == from,
        m.to.spec_in_bounds(),
        exists|k: int| 0 <= k < dirs.len() && along(from, m.to, #[trigger] dirs[k]),
    decreases dirs.len(),
{
    let rest = slide(b, from, piece, dirs.drop_last());
    let one = ray(b, from, piece, from, dirs.last());
    let i = choose|i: int| 0 <= i < (rest + one).len() && (rest + one)[i] == m;
    if i < rest.len() {
        assert(rest[i] == m);
        lemma_slide_along(b, from, piece, dirs.drop_last(), m);
        let k = choose|k: int| 0 <= k < dirs.drop_last().len() && along(from, m.to, #[trigger] dirs.drop_last()[k]);
        assert(dirs.drop_last()[k] == dirs[k]);
    } else {
        assert(one[i - rest.len()] == m);
        lemma_ray_along(b, from, piece, from, dirs.last(), m);
        assert(dirs.last() == dirs[dirs.len() - 1]);
    }
}

/// Rooks move along their file or rank, bishops along a diagonal, queens either way,
/// always at least one square and onto the board.
pub proof fn lemma_sliders_move_in_lines(b: Board, from: Pos, rules: RaptorPachydermRules, m: Move)
    requires
        b.at(from) matches Some(x) && (x.kind == PieceType::Rook || x.kind == PieceType::Bishop || x.kind
            == PieceType::Queen),
        pseudo(b, from, rules).contains(m),
    ensures
        ({
            let dc = m.to.col - from.col;
            let dr = m.to.row - from.row;
            let kind = b.at(from)->0.kind;
            let straight = (dc == 0) != (dr == 0);
            let diagonal = dc != 0 && (dc == dr || dc == -dr);
            &&& m.from == from
            &&& m.to.spec_in_bounds()
            &&& kind == PieceType::Rook ==> straight
            &&& kind == PieceType::Bishop ==> diagonal
            &&& kind == PieceType::Queen ==> straight || diagonal
        }),
{
    let piece = b.at(from)->0;
    let dirs = if piece.kind == PieceType::Rook {
        rook_dirs()
    } else if piece.kind == PieceType::Bishop {
        bishop_dirs()
    } else {
        queen_dirs()
    };
    assert(pseudo(b, from, rules) == slide(b, from, piece, dirs));
    lemma_slide_along(b, from, piece, dirs, m);
    let k = choose|k: int| 0 <= k < dirs.len() && along(from, m.to, #[trigger] dirs[k]);
    assert(dirs[k] == dirs[k]);
}

// ---------- castling rules ----------

proof fn lemma_leaps_plain(b: Board, from: Pos, piece: Piece, offs: Seq<(i8, i8)>, m: Move)
    requires
        leaps(b, from, piece, offs).contains(m),
    ensures
        m.special == SpecialMove::Normal,
    decreases offs.len(),
{
    if offs.len() > 0 {
        let rest = leaps(b, from, piece, offs.drop_last());
        let one = leap_one(b, from, piece, offs.last());
        let i = choose|i: int| 0 <= i < (rest + one).len() && (rest + one)[i] == m;
        if i < rest.len() {
            assert(rest[i] == m);
            lemma_leaps_plain(b, from, piece, offs.drop_last(), m);
        } else {
            assert(one[i - rest.len()] == m);
        }
    }
}

proof fn lemma_castles_contains(
    b: Board,
    from: Pos,
    piece: Piece,
    rules: RaptorPachydermRules,
    list: Seq<(Pos, Piece)>,
    m: Move,
)
    requires
        castles(b, from, piece, rules, list).contains(m),
    ensures
        exists|j: int|
            0 <= j < list.len() && #[trigger] castle_one(b, from, piece, rules, list[j]) == seq![m],
    decreases list.len(),
{
    if list.len() > 0 {
        let rest = castles(b, from, piece, rules, list.drop_last());
        let one = castle_one(b, from, piece, rules, list.last());
        let i = choose|i: int| 0 <= i < (rest + one).len() && (rest + one)[i] == m;
        if i < rest.len() {
            assert(rest[i] == m);
            lemma_castles_contains(b, from, piece, rules, list.drop_last(), m);
            let j = choose|j: int|
                0 <= j < list.drop_last().len() && #[trigger] castle_one(
                    b,
                    from,
                    piece,
                    rules,
                    list.drop_last()[j],
                ) == seq![m];
            assert(list[j] == list.drop_last()[j]);
        } else {
            assert(one[i - rest.len()] == m);
            assert(one =~= seq![m]);
            assert(list[list.len() - 1] == list.last());
        }
    }
}

/// A king's castling move needs the king unmoved and not attacked; an unmoved rook of
/// its own on the same rank that started on the board corner it stands on; every
/// square between them empty; and the square the king crosses not attacked. The king
/// moves two files toward the rook, which lands on the square crossed.
pub proof fn lemma_castling_rules(b: Board, from: Pos, piece: Piece, rules: RaptorPachydermRules, m: Move)
    requires
        king(b, from, piece, rules).contains(m),
        m.special is Castle,
    ensures
        !b.meta_at(from).has_moved,
        !attacked(b, from, piece.player.spec_opponent(), rules),
        ({
            let rf = m.special->rook_from;
            let rt = m.special->rook_to;
            let dir: int = if rf.col > from.col {
                1
            } else {
                -1
            };
            &&& b.at(rf) == Some(Piece { player: piece.player, kind: PieceType::Rook })
            &&& rf.row == from.row
            &&& !b.meta_at(rf).has_moved
            &&& b.meta_at(rf).start_pos == Some(rf)
            &&& rf.spec_is_corner()
            &&& spec_path_clear(b, from.row, from.col, rf.col)
            &&& !attacked(b, rt, piece.player.spec_opponent(), rules)
            &&& m.from == from
            &&& m.captured is None
            &&& m.to == Pos { col: (from.col + 2 * dir) as i8, row: from.row }
            &&& rt == Pos { col: (from.col + dir) as i8, row: from.row }
        }),
{
    let steps = leaps(b, from, piece, king_offsets());
    let cs = castling(b, from, piece, rules);
    let i = choose|i: int| 0 <= i < (steps + cs).len() && (steps + cs)[i] == m;
    if i < steps.len() {
        assert(steps[i] == m);
        lemma_leaps_plain(b, from, piece, king_offsets(), m);
    } else {
        assert(cs[i - steps.len()] == m);
        let list = b.spec_all_pieces();
        lemma_castles_contains(b, from, piece, rules, list, m);
        let j = choose|j: int| 0 <= j < list.len() && #[trigger] castle_one(b, from, piece, rules, list[j]) == seq![m];
        b.lemma_pieces_upto(70, j);
        assert(castle_one(b, from, piece, rules, list[j])[0] == m);
    }
}

// ---------- en passant ----------

/// No move of the list is an en passant capture.
pub open spec fn no_en_passant(s: Seq<Move>) -> bool {
    forall|i: int| 0 <= i < s.len() ==> !((#[trigger] s[i]).special is EnPassant)
}

/// Every move of the list is a plain move or capture, with no special effect.
pub open spec fn all_plain(s: Seq<Move>) -> bool {
    forall|i: int| 0 <= i < s.len() ==> (#[trigger] s[i]).special == SpecialMove::Normal
}

proof fn lemma_no_ep_concat(a: Seq<Move>, b: Seq<Move>)
    requires
        no_en_passant(a),
        no_en_passant(b),
    ensures
        no_en_passant(a + b),
        all_plain(a) && all_plain(b) ==> all_plain(a + b),
{
    if all_plain(a) && all_plain(b) {
        assert forall|i: int| 0 <= i < (a + b).len() implies (#[trigger] (a + b)[i]).special == SpecialMove::Normal by {
            if i < a.len() {
                assert((a + b)[i] == a[i]);
            } else {
                assert((a + b)[i] == b[i - a.len()]);
            }
        }
    }
    assert forall|i: int| 0 <= i < (a + b).len() implies !((#[trigger] (a + b)[i]).special is EnPassant) by {
        if i < a.len() {
            assert((a + b)[i] == a[i]);
        } else {
            assert((a + b)[i] == b[i - a.len()]);
        }
    }
}

proof fn lemma_ray_no_ep(b: Board, from: Pos, piece: Piece, cur: Pos, d: (i8, i8))
    ensures
        no_en_passant(ray(b, from, piece, cur, d)),
        no_en_passant(fly_ray(b, from, piece, cur, d)),
        no_en_passant(trample_ray(b, from, piece, cur, d)),
        all_plain(ray(b, from, piece, cur, d)),
        all_plain(fly_ray(b, from, piece, cur, d)),
        all_plain(trample_ray(b, from, piece, cur, d)),
    decreases room(cur, d),
{
    let nxt = step(cur, d);
    if cur.spec_in_bounds() && unit(d) && nxt.spec_in_bounds() {
        lemma_ray_no_ep(b, from, piece, nxt, d);
        match b.at(nxt) {
            Some(occ) => {
                lemma_beyond_no_ep(b, from, piece, Captured(nxt, occ), nxt, d);
                lemma_no_ep_concat(seq![plain(from, nxt, piece, Some(Captured(nxt, occ)))], beyond(b, from, piece, Captured(nxt, occ), nxt, d));
            },
            None => {
                lemma_no_ep_concat(seq![plain(from, nxt, piece, None)], trample_ray(b, from, piece, nxt, d));
            },
        }
        lemma_no_ep_concat(seq![plain(from, nxt, piece, captured_at(b, nxt))], ray(b, from, piece, nxt, d));
        let here = if b.spec_is_friendly(nxt, piece.player) {
            Seq::<Move>::empty()
        } else {
            seq![plain(from, nxt, piece, captured_at(b, nxt))]
        };
        lemma_no_ep_concat(here, fly_ray(b, from, piece, nxt, d));
    }
}

proof fn lemma_beyond_no_ep(b: Board, from: Pos, piece: Piece, cap: Captured, cur: Pos, d: (i8, i8))
    ensures
        no_en_passant(beyond(b, from, piece, cap, cur, d)),
        all_plain(beyond(b, from, piece, cap, cur, d)),
    decreases room(cur, d),
{
    let nxt = step(cur, d);
    if cur.spec_in_bounds() && unit(d) && nxt.spec_in_bounds() && b.at(nxt) is None {
        lemma_beyond_no_ep(b, from, piece, cap, nxt, d);
        lemma_no_ep_concat(seq![plain(from, nxt, piece, Some(cap))], beyond(b, from, piece, cap, nxt, d));
    }
}

proof fn lemma_lists_no_ep(b: Board, from: Pos, piece: Piece, rules: RaptorPachydermRules, dirs: Seq<(i8, i8)>)
    ensures
        no_en_passant(slide(b, from, piece, dirs)),
        no_en_passant(fly(b, from, piece, dirs)),
        no_en_passant(tramples(b, from, piece, dirs)),
        no_en_passant(leaps(b, from, piece, dirs)),
        no_en_passant(clear_knights(b, from, piece, dirs)),
        all_plain(slide(b, from, piece, dirs)),
        all_plain(fly(b, from, piece, dirs)),
        all_plain(tramples(b, from, piece, dirs)),
        all_plain(leaps(b, from, piece, dirs)),
        all_plain(clear_knights(b, from, piece, dirs)),
    decreases dirs.len(),
{
    if dirs.len() > 0 {
        lemma_lists_no_ep(b, from, piece, rules, dirs.drop_last());
        lemma_ray_no_ep(b, from, piece, from, dirs.last());
        lemma_no_ep_concat(slide(b, from, piece, dirs.drop_last()), ray(b, from, piece, from, dirs.last()));
        lemma_no_ep_concat(fly(b, from, piece, dirs.drop_last()), fly_ray(b, from, piece, from, dirs.last()));
        lemma_no_ep_concat(tramples(b, from, piece, dirs.drop_last()), trample_ray(b, from, piece, from, dirs.last()));
        lemma_no_ep_concat(leaps(b, from, piece, dirs.drop_last()), leap_one(b, from, piece, dirs.last()));
        lemma_no_ep_concat(
            clear_knights(b, from, piece, dirs.drop_last()),
            clear_knight_one(b, from, piece, dirs.last()),
        );
    }
}

proof fn lemma_castles_no_ep(
    b: Board,
    from: Pos,
    piece: Piece,
    rules: RaptorPachydermRules,
    list: Seq<(Pos, Piece)>,
)
    ensures
        no_en_passant(castles(b, from, piece, rules, list)),
    decreases list.len(),
{
    if list.len() > 0 {
        lemma_castles_no_ep(b, from, piece, rules, list.drop_last());
        lemma_no_ep_concat(
            castles(b, from, piece, rules, list.drop_last()),
            castle_one(b, from, piece, rules, list.last()),
        );
    }
}

/// Only a pawn captures en passant, and only a pawn that stands beside it and whose
/// square carries the double-step flag.
pub proof fn lemma_en_passant_needs_a_double_step(b: Board, from: Pos, rules: RaptorPachydermRules, m: Move)
    requires
        pseudo(b, from, rules).contains(m),
        m.special is EnPassant,
    ensures
        b.meta_at(m.special->captured_pawn).just_double_stepped,
        m.special->captured_pawn.spec_in_bounds(),
        b.at(from) matches Some(x) && x.kind == PieceType::Pawn,
{
    let i = choose|i: int| 0 <= i < pseudo(b, from, rules).len() && pseudo(b, from, rules)[i] == m;
    let piece = b.at(from)->0;
    lemma_lists_no_ep(b, from, piece, rules, rook_dirs());
    lemma_lists_no_ep(b, from, piece, rules, bishop_dirs());
    lemma_lists_no_ep(b, from, piece, rules, queen_dirs());
    lemma_lists_no_ep(b, from, piece, rules, knight_offsets());
    lemma_lists_no_ep(b, from, piece, rules, falcon_offsets());
    lemma_castles_no_ep(b, from, piece, rules, b.spec_all_pieces());
    lemma_no_ep_concat(leaps(b, from, piece, knight_offsets()), slide(b, from, piece, bishop_dirs()));
    lemma_no_ep_concat(leaps(b, from, piece, knight_offsets()), fly(b, from, piece, bishop_dirs()));
    lemma_no_ep_concat(leaps(b, from, piece, knight_offsets()), slide(b, from, piece, rook_dirs()));
    lemma_no_ep_concat(clear_knights(b, from, piece, knight_offsets()), slide(b, from, piece, rook_dirs()));
    lemma_no_ep_concat(leaps(b, from, piece, king_offsets()), castling(b, from, piece, rules));
    if piece.kind == PieceType::Pawn {
        let adv = pawn_advances(b, from, piece.player);
        let c1 = pawn_capture(b, from, piece.player, -1i8);
        let c2 = pawn_capture(b, from, piece.player, 1i8);
        assert(pawn(b, from, piece.player) == adv + c1 + c2);
        let all = adv + c1 + c2;
        assert(all[i] == m);
        if i < adv.len() {
            assert(adv[i] == m);
        } else if i < adv.len() + c1.len() {
            assert(c1[i - adv.len()] == m);
        } else {
            assert(c2[i - adv.len() - c1.len()] == m);
        }
    } else {
        assert(!(pseudo(b, from, rules)[i].special is EnPassant));
    }
}

/// A pawn advances two squares only from a square whose piece has not moved yet: the
/// move goes straight forward (toward rank 0 for White, rank 9 for Black) two ranks,
/// over an empty square onto an empty one, and no other piece makes such a move.
pub proof fn lemma_double_step_needs_an_unmoved_pawn(b: Board, from: Pos, rules: RaptorPachydermRules, m: Move)
    requires
        from.spec_in_bounds(),
        pseudo(b, from, rules).contains(m),
        m.special is DoublePawnStep,
    ensures
        b.at(from) matches Some(x) && x.kind == PieceType::Pawn,
        !b.meta_at(from).has_moved,
        m.from == from,
        m.to.col == from.col,
        b.at(from)->0.player == Player::White ==> m.to.row == from.row - 2,
        b.at(from)->0.player == Player::Black ==> m.to.row == from.row + 2,
        m.to.spec_in_bounds(),
        b.spec_is_empty(m.to),
        b.spec_is_empty(Pos { col: from.col, row: ((from.row + m.to.row) / 2) as i8 }),
{
    let ps = pseudo(b, from, rules);
    let i = choose|i: int| 0 <= i < ps.len() && ps[i] == m;
    let piece = b.at(from)->0;
    lemma_lists_no_ep(b, from, piece, rules, rook_dirs());
    lemma_lists_no_ep(b, from, piece, rules, bishop_dirs());
    lemma_lists_no_ep(b, from, piece, rules, queen_dirs());
    lemma_lists_no_ep(b, from, piece, rules, knight_offsets());
    lemma_lists_no_ep(b, from, piece, rules, falcon_offsets());
    lemma_no_ep_concat(leaps(b, from, piece, knight_offsets()), slide(b, from, piece, bishop_dirs()));
    lemma_no_ep_concat(leaps(b, from, piece, knight_offsets()), fly(b, from, piece, bishop_dirs()));
    lemma_no_ep_concat(leaps(b, from, piece, knight_offsets()), slide(b, from, piece, rook_dirs()));
    lemma_no_ep_concat(clear_knights(b, from, piece, knight_offsets()), slide(b, from, piece, rook_dirs()));
    if piece.kind == PieceType::King {
        let steps = leaps(b, from, piece, king_offsets());
        let cs = castling(b, from, piece, rules);
        lemma_lists_no_ep(b, from, piece, rules, king_offsets());
        assert(ps == steps + cs);
        if i < steps.len() {
            assert(steps[i] == m);
        } else {
            assert(cs[i - steps.len()] == m);
            assert(cs.contains(m));
            let list = b.spec_all_pieces();
            lemma_castles_contains(b, from, piece, rules, list, m);
            let j = choose|j: int| 0 <= j < list.len() && #[trigger] castle_one(b, from, piece, rules, list[j]) == seq![m];
            assert(castle_one(b, from, piece, rules, list[j])[0] == m);
        }
    } else if piece.kind == PieceType::Pawn {
        let adv = pawn_advances(b, from, piece.player);
        let c1 = pawn_capture(b, from, piece.player, -1i8);
        let c2 = pawn_capture(b, from, piece.player, 1i8);
        assert(ps == adv + c1 + c2);
        let all = adv + c1 + c2;
        assert(all[i] == m);
        if i < adv.len() {
            assert(adv[i] == m);
        } else if i < adv.len() + c1.len() {
            assert(c1[i - adv.len()] == m);
        } else {
            assert(c2[i - adv.len() - c1.len()] == m);
        }
    } else {
        assert(ps[i].special == SpecialMove::Normal);
    }
}

/// A pawn moves one rank forward (toward rank 0 for White, rank 9 for Black), two only
/// by its double step: straight onto an empty square without capturing, or one file
/// aside capturing an enemy (en passant, the pawn beside it). It lands as a queen on
/// the last rank and as a pawn elsewhere.
pub proof fn lemma_pawn_moves(b: Board, from: Pos, rules: RaptorPachydermRules, m: Move)
    requires
        from.spec_in_bounds(),
        b.at(from) matches Some(x) && x.kind == PieceType::Pawn,
        pseudo(b, from, rules).contains(m),
    ensures
        ({
            let pl = b.at(from)->0.player;
            let fwd: int = if pl == Player::White {
                -1
            } else {
                1
            };
            &&& m.from == from
            &&& m.to.spec_in_bounds()
            &&& !(m.special is DoublePawnStep) ==> m.to.row == from.row + fwd && -1 <= m.to.col - from.col <= 1
            &&& m.to.col == from.col ==> m.captured is None && b.spec_is_empty(m.to)
            &&& m.to.col != from.col ==> (m.captured matches Some(c) && c.1.player != pl)
            &&& m.piece == Piece {
                player: pl,
                kind: if m.to.row == (if pl == Player::White {
                    0int
                } else {
                    9int
                }) {
                    PieceType::Queen
                } else {
                    PieceType::Pawn
                },
            }
        }),
{
    let piece = b.at(from)->0;
    let ps = pseudo(b, from, rules);
    let i = choose|i: int| 0 <= i < ps.len() && ps[i] == m;
    let adv = pawn_advances(b, from, piece.player);
    let c1 = pawn_capture(b, from, piece.player, -1i8);
    let c2 = pawn_capture(b, from, piece.player, 1i8);
    assert(ps == adv + c1 + c2);
    let all = adv + c1 + c2;
    assert(all[i] == m);
    if i < adv.len() {
        assert(adv[i] == m);
    } else if i < adv.len() + c1.len() {
        assert(c1[i - adv.len()] == m);
    } else {
        assert(c2[i - adv.len() - c1.len()] == m);
    }
}

// ---------- executable tables ----------

fn rook_table() -> (r: [(i8, i8); 4])
    ensures
        r@ == rook_dirs(),
{
    let r = [(1i8, 0i8), (-1i8, 0i8), (0i8, 1i8), (0i8, -1i8)];
    assert(r@ =~= rook_dirs());
    r
}

fn bishop_table() -> (r: [(i8, i8); 4])
    ensures
        r@ == bishop_dirs(),
{
    let r = [(1i8, 1i8), (1i8, -1i8), (-1i8, 1i8), (-1i8, -1i8)];
    assert(r@ =~= bishop_dirs());
    r
}

fn queen_table() -> (r: [(i8, i8); 8])
    ensures
        r@ == queen_dirs(),
{
    let r = [
        (1i8, 0i8), (-1i8, 0i8), (0i8, 1i8), (0i8, -1i8),
        (1i8, 1i8), (1i8, -1i8), (-1i8, 1i8), (-1i8, -1i8),
    ];
    assert(r@ =~= queen_dirs());
    r
}

fn knight_table() -> (r: [(i8, i8); 8])
    ensures
        r@ == knight_offsets(),
{
    let r = [(1i8, 2i8), (2i8, 1i8), (2i8, -1i8), (1i8, -2i8), (-1i8, -2i8), (-2i8, -1i8), (-2i8, 1i8), (-1i8, 2i8)];
    assert(r@ =~= knight_offsets());
    r
}

fn falcon_table() -> (r: [(i8, i8); 16])
    ensures
        r@ == falcon_offsets(),
{
    let r = [
        (1i8, 0i8), (-1i8, 0i8), (0i8, 1i8), (0i8, -1i8),
        (0i8, 3i8), (0i8, -3i8), (3i8, 0i8), (-3i8, 0i8),
        (1i8, 2i8), (1i8, -2i8), (-1i8, 2i8), (-1i8, -2i8),
        (2i8, 1i8), (2i8, -1i8), (-2i8, 1i8), (-2i8, -1i8),
    ];
    assert(r@ =~= falcon_offsets());
    r
}

fn captured_on(board: &Board, p: Pos) -> (r: Option<Captured>)
    ensures
        r == captured_at(*board, p),
{
    match board.get(p) {
        Some(x) => Some(Captured(p, x)),
        None => None,
    }
}

// ---------- executable generators ----------

/// Appends the slider moves along one direction.
fn push_ray(board: &Board, from: Pos, piece: Piece, d: (i8, i8), out: &mut Vec<Move>)
    requires
        from.spec_in_bounds(),
        unit(d),
        all_wf(old(out)@),
    ensures
        final(out)@ == old(out)@ + ray(*board, from, piece, from, d),
        all_wf(final(out)@),
{
    let mut cur = from;
    loop
        invariant_except_break
            cur.spec_in_bounds(),
            from.spec_in_bounds(),
            unit(d),
            out@ + ray(*board, from, piece, cur, d) == old(out)@ + ray(*board, from, piece, from, d),
            all_wf(out@),
        ensures
            out@ == old(out)@ + ray(*board, from, piece, from, d),
            all_wf(out@),
        decreases room(cur, d),
    {
        let nxt = cur.offset(d.0, d.1);
        if !nxt.in_bounds() || board.is_friendly(nxt, piece.player) {
            assert(out@ =~= out@ + ray(*board, from, piece, cur, d));
            break;
        }
        let captured = captured_on(board, nxt);
        let m = Move { from, to: nxt, piece, captured, special: SpecialMove::Normal };
        let ghost before = out@;
        out.push(m);
        if captured.is_some() {
            assert(out@ =~= before + ray(*board, from, piece, cur, d));
            break;
        }
        assert(before + ray(*board, from, piece, cur, d) =~= out@ + ray(*board, from, piece, nxt, d));
        cur = nxt;
    }
}

/// Appends the slider moves along each of `dirs`, in order.
fn slide_moves(board: &Board, from: Pos, piece: Piece, dirs: &[(i8, i8)], out: &mut Vec<Move>)
    requires
        from.spec_in_bounds(),
        forall|i: int| 0 <= i < dirs@.len() ==> unit(#[trigger] dirs@[i]),
        all_wf(old(out)@),
    ensures
        final(out)@ == old(out)@ + slide(*board, from, piece, dirs@),
        all_wf(final(out)@),
{
    let mut i: usize = 0;
    while i < dirs.len()
        invariant
            i <= dirs@.len(),
            from.spec_in_bounds(),
            forall|j: int| 0 <= j < dirs@.len() ==> unit(#[trigger] dirs@[j]),
            out@ == old(out)@ + slide(*board, from, piece, dirs@.take(i as int)),
            all_wf(out@),
        decreases dirs.len() - i,
    {
        assert(dirs@.take(i as int + 1).drop_last() =~= dirs@.take(i as int));
        let ghost before = out@;
        push_ray(board, from, piece, dirs[i], out);
        assert(out@ =~= old(out)@ + slide(*board, from, piece, dirs@.take(i as int + 1)));
        i = i + 1;
    }
    assert(dirs@.take(dirs@.len() as int) =~= dirs@);
}

/// Appends the leaper moves to each of `offsets`, in order.
fn leap_moves(board: &Board, from: Pos, piece: Piece, offsets: &[(i8, i8)], out: &mut Vec<Move>)
    requires
        from.spec_in_bounds(),
        forall|i: int| 0 <= i < offsets@.len() ==> short(#[trigger] offsets@[i]),
        all_wf(old(out)@),
    ensures
        final(out)@ == old(out)@ + leaps(*board, from, piece, offsets@),
        all_wf(final(out)@),
{
    let mut i: usize = 0;
    while i < offsets.len()
        invariant
            i <= offsets@.len(),
            from.spec_in_bounds(),
            forall|j: int| 0 <= j < offsets@.len() ==> short(#[trigger] offsets@[j]),
            out@ == old(out)@ + leaps(*board, from, piece, offsets@.take(i as int)),
            all_wf(out@),
        decreases offsets.len() - i,
    {
        assert(offsets@.take(i as int + 1).drop_last() =~= offsets@.take(i as int));
        let (dc, dr) = offsets[i];
        assert(short(offsets@[i as int]));
        let to = from.offset(dc, dr);
        let ghost before = out@;
        if to.in_bounds() && !board.is_friendly(to, piece.player) {
            let captured = captured_on(board, to);
            out.push(Move { from, to, piece, captured, special: SpecialMove::Normal });
        }
        assert(out@ =~= old(out)@ + leaps(*board, from, piece, offsets@.take(i as int + 1)));
        i = i + 1;
    }
    assert(offsets@.take(offsets@.len() as int) =~= offsets@);
}

/// Appends the flying diagonal moves along one direction.
fn push_fly_ray(board: &Board, from: Pos, piece: Piece, d: (i8, i8), out: &mut Vec<Move>)
    requires
        from.spec_in_bounds(),
        unit(d),
        all_wf(old(out)@),
    ensures
        final(out)@ == old(out)@ + fly_ray(*board, from, piece, from, d),
        all_wf(final(out)@),
{
    let mut cur = from;
    loop
        invariant_except_break
            cur.spec_in_bounds(),
            from.spec_in_bounds(),
            unit(d),
            out@ + fly_ray(*board, from, piece, cur, d) == old(out)@ + fly_ray(*board, from, piece, from, d),
            all_wf(out@),
        ensures
            out@ == old(out)@ + fly_ray(*board, from, piece, from, d),
            all_wf(out@),
        decreases room(cur, d),
    {
        let nxt = cur.offset(d.0, d.1);
        if !nxt.in_bounds() {
            assert(out@ =~= out@ + fly_ray(*board, from, piece, cur, d));
            break;
        }
        let ghost before = out@;
        if !board.is_friendly(nxt, piece.player) {
            let captured = captured_on(board, nxt);
            out.push(Move { from, to: nxt, piece, captured, special: SpecialMove::Normal });
        }
        assert(before + fly_ray(*board, from, piece, cur, d) =~= out@ + fly_ray(*board, from, piece, nxt, d));
        cur = nxt;
    }
}

/// Bishop-shaped moves that fly over every piece in the way.
fn fly_diagonal_moves(board: &Board, from: Pos, piece: Piece, out: &mut Vec<Move>)
    requires
        from.spec_in_bounds(),
        all_wf(old(out)@),
    ensures
        final(out)@ == old(out)@ + fly(*board, from, piece, bishop_dirs()),
        all_wf(final(out)@),
{
    let dirs = bishop_table();
    let mut i: usize = 0;
    while i < 4
        invariant
            i <= 4,
            dirs@ == bishop_dirs(),
            from.spec_in_bounds(),
            out@ == old(out)@ + fly(*board, from, piece, dirs@.take(i as int)),
            all_wf(out@),
        decreases 4 - i,
    {
        assert(dirs@.take(i as int + 1).drop_last() =~= dirs@.take(i as int));
        push_fly_ray(board, from, piece, dirs[i], out);
        assert(out@ =~= old(out)@ + fly(*board, from, piece, dirs@.take(i as int + 1)));
        i = i + 1;
    }
    assert(dirs@.take(4) =~= dirs@);
}

fn signum(x: i8) -> (r: i8)
    ensures
        r == sgn(x),
{
    if x > 0 {
        1
    } else if x < 0 {
        -1
    } else {
        0
    }
}

/// Knight-shaped moves that need either orthogonal L-route to be clear.
fn clear_path_knight_moves(board: &Board, from: Pos, piece: Piece, out: &mut Vec<Move>)
    requires
        from.spec_in_bounds(),
        all_wf(old(out)@),
    ensures
        final(out)@ == old(out)@ + clear_knights(*board, from, piece, knight_offsets()),
        all_wf(final(out)@),
{
    let offsets = knight_table();
    let mut i: usize = 0;
    while i < 8
        invariant
            i <= 8,
            offsets@ == knight_offsets(),
            from.spec_in_bounds(),
            out@ == old(out)@ + clear_knights(*board, from, piece, offsets@.take(i as int)),
            all_wf(out@),
        decreases 8 - i,
    {
        assert(offsets@.take(i as int + 1).drop_last() =~= offsets@.take(i as int));
        let (dc, dr) = offsets[i];
        let to = from.offset(dc, dr);
        let ghost before = out@;
        if to.in_bounds() && !board.is_friendly(to, piece.player) {
            let (long, short) = if dc == 2 || dc == -2 {
                ((signum(dc), 0i8), (0i8, signum(dr)))
            } else {
                ((0i8, signum(dr)), (signum(dc), 0i8))
            };
            let r1_mid = from.offset(long.0, long.1);
            let r1_elbow = r1_mid.offset(long.0, long.1);
            let route1_clear = board.is_empty(r1_mid) && board.is_empty(r1_elbow);
            let r2_elbow = from.offset(short.0, short.1);
            let r2_mid = r2_elbow.offset(long.0, long.1);
            let route2_clear = board.is_empty(r2_elbow) && board.is_empty(r2_mid);
            if route1_clear || route2_clear {
                let captured = captured_on(board, to);
                out.push(Move { from, to, piece, captured, special: SpecialMove::Normal });
            }
        }
        assert(out@ =~= old(out)@ + clear_knights(*board, from, piece, offsets@.take(i as int + 1)));
        i = i + 1;
    }
    assert(offsets@.take(8) =~= offsets@);
}

/// The far rank a player's pawn promotes on.
fn promotion_row(player: Player) -> (r: i8)
    ensures
        r == spec_promotion_row(player),
{
    match player {
        Player::White => 0,
        Player::Black => HEIGHT - 1,
    }
}

/// What lands on `to` after a pawn move: a Queen on the far rank, else the pawn.
fn landing_piece(player: Player, to: Pos) -> (r: Piece)
    ensures
        r == spec_landing_piece(player, to),
{
    if to.row == promotion_row(player) {
        Piece { player, kind: PieceType::Queen }
    } else {
        Piece { player, kind: PieceType::Pawn }
    }
}

fn push_pawn_capture(board: &Board, from: Pos, player: Player, dc: i8, out: &mut Vec<Move>)
    requires
        from.spec_in_bounds(),
        dc == 1 || dc == -1,
        all_wf(old(out)@),
    ensures
        final(out)@ == old(out)@ + pawn_capture(*board, from, player, dc),
        all_wf(final(out)@),
{
    let fwd = player.forward();
    let cap = from.offset(dc, fwd);
    if !cap.in_bounds() {
        assert(out@ =~= old(out)@ + pawn_capture(*board, from, player, dc));
        return;
    }
    if board.is_enemy(cap, player) {
        let captured = captured_on(board, cap);
        out.push(Move { from, to: cap, piece: landing_piece(player, cap), captured, special: SpecialMove::Normal });
    } else if board.is_empty(cap) {
        let adj = Pos::new(cap.col, from.row);
        if let Some(adj_piece) = board.get(adj) {
            if adj_piece.player != player && adj_piece.kind == PieceType::Pawn && board.meta(adj).just_double_stepped {
                out.push(
                    Move {
                        from,
                        to: cap,
                        piece: landing_piece(player, cap),
                        captured: Some(Captured(adj, adj_piece)),
                        special: SpecialMove::EnPassant { captured_pawn: adj },
                    },
                );
            }
        }
    }
    assert(out@ =~= old(out)@ + pawn_capture(*board, from, player, dc));
}

fn push_pawn_advances(board: &Board, from: Pos, player: Player, out: &mut Vec<Move>)
    requires
        from.spec_in_bounds(),
        all_wf(old(out)@),
    ensures
        final(out)@ == old(out)@ + pawn_advances(*board, from, player),
        all_wf(final(out)@),
{
    let fwd = player.forward();
    let one = from.offset(0, fwd);
    if one.in_bounds() && board.is_empty(one) {
        out.push(Move { from, to: one, piece: landing_piece(player, one), captured: None, special: SpecialMove::Normal });
        let two = from.offset(0, fwd * 2);
        if !board.meta(from).has_moved && two.in_bounds() && board.is_empty(two) {
            out.push(
                Move {
                    from,
                    to: two,
                    piece: landing_piece(player, two),
                    captured: None,
                    special: SpecialMove::DoublePawnStep,
                },
            );
        }
    }
    assert(out@ =~= old(out)@ + pawn_advances(*board, from, player));
}

fn pawn_moves(board: &Board, from: Pos, player: Player, out: &mut Vec<Move>)
    requires
        from.spec_in_bounds(),
        all_wf(old(out)@),
    ensures
        final(out)@ == old(out)@ + pawn(*board, from, player),
        all_wf(final(out)@),
{
    push_pawn_advances(board, from, player, out);
    push_pawn_capture(board, from, player, -1, out);
    push_pawn_capture(board, from, player, 1, out);
    assert(out@ =~= old(out)@ + pawn(*board, from, player));
}

/// Every file strictly between `a` and `z` on `row` is empty.
fn path_clear(board: &Board, row: i8, a: i8, z: i8) -> (r: bool)
    requires
        0 <= a < WIDTH,
        0 <= z < WIDTH,
    ensures
        r == spec_path_clear(*board, row, a, z),
{
    let lo = if a < z { a } else { z };
    let hi = if a < z { z } else { a };
    let mut c: i8 = lo + 1;
    while c < hi
        invariant
            lo + 1 <= c <= hi || (c == lo + 1 && hi <= lo + 1),
            lo == (if a < z { a } else { z }),
            hi == (if a < z { z } else { a }),
            0 <= lo <= hi < WIDTH,
            forall|k: i8| lo < k < c ==> #[trigger] board.spec_is_empty(Pos { col: k, row }),
        decreases hi - c,
    {
        if !board.is_empty(Pos::new(c, row)) {
            assert(!board.spec_is_empty(Pos { col: c, row }));
            return false;
        }
        c = c + 1;
    }
    true
}

/// The castling move with one candidate rook, if every condition holds.
fn castle_move(
    board: &Board,
    from: Pos,
    piece: Piece,
    rules: RaptorPachydermRules,
    rook_pos: Pos,
    rook: Piece,
) -> (r: Option<Move>)
    requires
        from.spec_in_bounds(),
        board.at(from) == Some(piece),
        piece.kind == PieceType::King,
        board.at(rook_pos) == Some(rook),
    ensures
        match r {
            Some(m) => castle_one(*board, from, piece, rules, (rook_pos, rook)) == seq![m] && m.well_formed(),
            None => castle_one(*board, from, piece, rules, (rook_pos, rook)) == Seq::<Move>::empty(),
        },
{
    if rook.player != piece.player || rook.kind != PieceType::Rook || rook_pos.row != from.row {
        return None;
    }
    assert(rook_pos.spec_in_bounds());
    assert(rook_pos.col != from.col);
    let rook_meta = board.meta(rook_pos);
    if rook_meta.has_moved || rook_meta.start_pos != Some(rook_pos) || !rook_pos.is_corner() {
        return None;
    }
    let dir: i8 = if rook_pos.col > from.col { 1 } else { -1 };
    if !path_clear(board, from.row, from.col, rook_pos.col) {
        return None;
    }
    let king_to = Pos::new(from.col + dir * 2, from.row);
    let rook_to = Pos::new(from.col + dir, from.row);
    if !king_to.in_bounds() || rook_to.col < 0 || rook_to.col >= WIDTH {
        return None;
    }
    if square_is_attacked(board, rook_to, piece.player.opponent(), rules) {
        return None;
    }
    Some(
        Move {
            from,
            to: king_to,
            piece,
            captured: None,
            special: SpecialMove::Castle { rook_from: rook_pos, rook_to },
        },
    )
}

/// The king's steps, then its castling moves.
fn king_moves(board: &Board, from: Pos, piece: Piece, rules: RaptorPachydermRules, out: &mut Vec<Move>)
    requires
        from.spec_in_bounds(),
        board.at(from) == Some(piece),
        piece.kind == PieceType::King,
        all_wf(old(out)@),
    ensures
        final(out)@ == old(out)@ + king(*board, from, piece, rules),
        all_wf(final(out)@),
{
    let offsets = queen_table();
    leap_moves(board, from, piece, &offsets, out);
    let ghost after_steps = out@;
    if board.meta(from).has_moved {
        assert(out@ =~= old(out)@ + king(*board, from, piece, rules));
        return;
    }
    if square_is_attacked(board, from, piece.player.opponent(), rules) {
        assert(out@ =~= old(out)@ + king(*board, from, piece, rules));
        return;
    }
    let all = board.all_pieces();
    let mut i: usize = 0;
    while i < all.len()
        invariant
            i <= all@.len(),
            all@ == board.spec_all_pieces(),
            from.spec_in_bounds(),
            board.at(from) == Some(piece),
            piece.kind == PieceType::King,
            out@ == after_steps + castles(*board, from, piece, rules, all@.take(i as int)),
            all_wf(out@),
        decreases all.len() - i,
    {
        assert(all@.take(i as int + 1).drop_last() =~= all@.take(i as int));
        let (rook_pos, rook) = all[i];
        proof {
            board.lemma_pieces_upto(70, i as int);
        }
        let ghost before = out@;
        match castle_move(board, from, piece, rules, rook_pos, rook) {
            Some(m) => {
                out.push(m);
            },
            None => {},
        }
        assert(out@ =~= after_steps + castles(*board, from, piece, rules, all@.take(i as int + 1)));
        i = i + 1;
    }
    assert(all@.take(all@.len() as int) =~= all@);
    assert(out@ =~= old(out)@ + king(*board, from, piece, rules));
}

fn falcon_moves(board: &Board, from: Pos, piece: Piece, rules: RaptorPachydermRules, out: &mut Vec<Move>)
    requires
        from.spec_in_bounds(),
        all_wf(old(out)@),
    ensures
        final(out)@ == old(out)@ + falcon(*board, from, piece, rules),
        all_wf(final(out)@),
{
    match rules {
        RaptorPachydermRules::FalconMammoth => {
            let offsets = falcon_table();
            leap_moves(board, from, piece, &offsets, out);
        },
        RaptorPachydermRules::SeirawanHarper => {
            let offsets = knight_table();
            leap_moves(board, from, piece, &offsets, out);
            let dirs = bishop_table();
            slide_moves(board, from, piece, &dirs, out);
            assert(out@ =~= old(out)@ + falcon(*board, from, piece, rules));
        },
        RaptorPachydermRules::Realism => {
            let offsets = knight_table();
            leap_moves(board, from, piece, &offsets, out);
            fly_diagonal_moves(board, from, piece, out);
            assert(out@ =~= old(out)@ + falcon(*board, from, piece, rules));
        },
    }
}

/// Appends a Mammoth's moves along one direction, trampling included.
fn push_trample_ray(board: &Board, from: Pos, piece: Piece, d: (i8, i8), out: &mut Vec<Move>)
    requires
        from.spec_in_bounds(),
        unit(d),
        all_wf(old(out)@),
    ensures
        final(out)@ == old(out)@ + trample_ray(*board, from, piece, from, d),
        all_wf(final(out)@),
{
    let mut cur = from;
    loop
        invariant_except_break
            cur.spec_in_bounds(),
            from.spec_in_bounds(),
            unit(d),
            out@ + trample_ray(*board, from, piece, cur, d) == old(out)@ + trample_ray(*board, from, piece, from, d),
            all_wf(out@),
        ensures
            out@ == old(out)@ + trample_ray(*board, from, piece, from, d),
            all_wf(out@),
        decreases room(cur, d),
    {
        let nxt = cur.offset(d.0, d.1);
        if !nxt.in_bounds() {
            assert(out@ =~= out@ + trample_ray(*board, from, piece, cur, d));
            break;
        }
        let ghost before = out@;
        match board.get(nxt) {
            None => {
                out.push(Move { from, to: nxt, piece, captured: None, special: SpecialMove::Normal });
                assert(before + trample_ray(*board, from, piece, cur, d) =~= out@ + trample_ray(*board, from, piece, nxt, d));
                cur = nxt;
            },
            Some(occupant) => {
                if occupant.player != piece.player {
                    let cap = Captured(nxt, occupant);
                    out.push(Move { from, to: nxt, piece, captured: Some(cap), special: SpecialMove::Normal });
                    let mut tr = nxt;
                    loop
                        invariant_except_break
                            tr.spec_in_bounds(),
                            nxt.spec_in_bounds(),
                            cap.0 == nxt,
                            from.spec_in_bounds(),
                            unit(d),
                            out@ + beyond(*board, from, piece, cap, tr, d) == before + seq![plain(from, nxt, piece, Some(cap))] + beyond(*board, from, piece, cap, nxt, d),
                            all_wf(out@),
                        ensures
                            out@ == before + seq![plain(from, nxt, piece, Some(cap))] + beyond(*board, from, piece, cap, nxt, d),
                            all_wf(out@),
                        decreases room(tr, d),
                    {
                        let t2 = tr.offset(d.0, d.1);
                        if !t2.in_bounds() || board.get(t2).is_some() {
                            assert(out@ =~= out@ + beyond(*board, from, piece, cap, tr, d));
                            break;
                        }
                        let ghost b2 = out@;
                        out.push(Move { from, to: t2, piece, captured: Some(cap), special: SpecialMove::Normal });
                        assert(b2 + beyond(*board, from, piece, cap, tr, d) =~= out@ + beyond(*board, from, piece, cap, t2, d));
                        tr = t2;
                    }
                    assert(out@ =~= before + trample_ray(*board, from, piece, cur, d));
                    break;
                } else {
                    assert(out@ =~= out@ + trample_ray(*board, from, piece, cur, d));
                    break;
                }
            },
        }
    }
}

fn mammoth_trample_moves(board: &Board, from: Pos, piece: Piece, out: &mut Vec<Move>)
    requires
        from.spec_in_bounds(),
        all_wf(old(out)@),
    ensures
        final(out)@ == old(out)@ + tramples(*board, from, piece, rook_dirs()),
        all_wf(final(out)@),
{
    let dirs = rook_table();
    let mut i: usize = 0;
    while i < 4
        invariant
            i <= 4,
            dirs@ == rook_dirs(),
            from.spec_in_bounds(),
            out@ == old(out)@ + tramples(*board, from, piece, dirs@.take(i as int)),
            all_wf(out@),
        decreases 4 - i,
    {
        assert(dirs@.take(i as int + 1).drop_last() =~= dirs@.take(i as int));
        push_trample_ray(board, from, piece, dirs[i], out);
        assert(out@ =~= old(out)@ + tramples(*board, from, piece, dirs@.take(i as int + 1)));
        i = i + 1;
    }
    assert(dirs@.take(4) =~= dirs@);
}

fn mammoth_moves(board: &Board, from: Pos, piece: Piece, rules: RaptorPachydermRules, out: &mut Vec<Move>)
    requires
        from.spec_in_bounds(),
        all_wf(old(out)@),
    ensures
        final(out)@ == old(out)@ + mammoth(*board, from, piece, rules),
        all_wf(final(out)@),
{
    match rules {
        RaptorPachydermRules::FalconMammoth => {
            mammoth_trample_moves(board, from, piece, out);
        },
        RaptorPachydermRules::SeirawanHarper => {
            let offsets = knight_table();
            leap_moves(board, from, piece, &offsets, out);
            let dirs = rook_table();
            slide_moves(board, from, piece, &dirs, out);
            assert(out@ =~= old(out)@ + mammoth(*board, from, piece, rules));
        },
        RaptorPachydermRules::Realism => {
            clear_path_knight_moves(board, from, piece, out);
            let dirs = rook_table();
            slide_moves(board, from, piece, &dirs, out);
            assert(out@ =~= old(out)@ + mammoth(*board, from, piece, rules));
        },
    }
}

/// The pseudo-legal moves of a piece other than a king on `from`.
pub fn nonking_moves(board: &Board, from: Pos, piece: Piece, rules: RaptorPachydermRules) -> (v: Vec<Move>)
    requires
        from.spec_in_bounds(),
    ensures
        v@ == nonking(*board, from, piece, rules),
        all_wf(v@),
{
    let mut out: Vec<Move> = Vec::new();
    match piece.kind {
        PieceType::Pawn => pawn_moves(board, from, piece.player, &mut out),
        PieceType::Knight => {
            let offsets = knight_table();
            leap_moves(board, from, piece, &offsets, &mut out);
        },
        PieceType::Bishop => {
            let dirs = bishop_table();
            slide_moves(board, from, piece, &dirs, &mut out);
        },
        PieceType::Rook => {
            let dirs = rook_table();
            slide_moves(board, from, piece, &dirs, &mut out);
        },
        PieceType::Queen => {
            let dirs = queen_table();
            slide_moves(board, from, piece, &dirs, &mut out);
        },
        PieceType::Falcon => falcon_moves(board, from, piece, rules, &mut out),
        PieceType::Mammoth => mammoth_moves(board, from, piece, rules, &mut out),
        PieceType::King => {},
    }
    assert(out@ =~= nonking(*board, from, piece, rules));
    out
}

/// The pseudo-legal moves of whatever stands on `from` (none for an empty square):
/// each piece's own movement, captures and blocking, without the check filter.
pub fn pseudo_legal_moves_for(board: &Board, from: Pos, rules: RaptorPachydermRules) -> (v: Vec<Move>)
    ensures
        v@ == pseudo(*board, from, rules),
        all_wf(v@),
{
    let piece = match board.get(from) {
        Some(p) => p,
        None => return Vec::new(),
    };
    assert(from.spec_in_bounds());
    if piece.kind == PieceType::King {
        let mut out: Vec<Move> = Vec::new();
        king_moves(board, from, piece, rules, &mut out);
        assert(out@ =~= pseudo(*board, from, rules));
        out
    } else {
        nonking_moves(board, from, piece, rules)
    }
}

} // verus!
