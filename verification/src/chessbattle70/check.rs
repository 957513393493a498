//! Check, checkmate and stalemate, built on the pseudo-legal move generation.

use vstd::prelude::*;
use super::board::{Board, Pos, group_board};
use super::movegen::{all_wf, nonking, nonking_moves, pseudo, pseudo_legal_moves_for};
use super::moves::{Move, SpecialMove};
use super::piece::{Piece, PieceType, Player};
use super::rules::RaptorPachydermRules;

verus! {

broadcast use group_board;

pub open spec fn abs(x: int) -> int {
    if x < 0 {
        -x
    } else {
        x
    }
}

/// Whether the listed piece of `by` could move onto `target` now. A king counts by
/// plain adjacency (not through its castling moves, which themselves ask whether
/// squares are attacked).
pub open spec fn attacks(
    b: Board,
    target: Pos,
    by: Player,
    rules: RaptorPachydermRules,
    entry: (Pos, Piece),
) -> bool {
    let (pos, piece) = entry;
    piece.player == by && if piece.kind == PieceType::King {
        let dc = abs(target.col - pos.col);
        let dr = abs(target.row - pos.row);
        dc <= 1 && dr <= 1 && !(dc == 0 && dr == 0)
    } else {
        exists|i: int|
            0 <= i < nonking(b, pos, piece, rules).len() && (#[trigger] nonking(
                b,
                pos,
                piece,
                rules,
            )[i]).to == target
    }
}

/// Whether any piece of `by` could move onto `target` now.
pub open spec fn attacked(b: Board, target: Pos, by: Player, rules: RaptorPachydermRules) -> bool {
    exists|j: int|
        0 <= j < b.spec_all_pieces().len() && #[trigger] attacks(
            b,
            target,
            by,
            rules,
            b.spec_all_pieces()[j],
        )
}

/// The square of the first king of `player` at or after position `i` of the list.
pub open spec fn find_king(s: Seq<(Pos, Piece)>, player: Player, i: int) -> Option<Pos>
    decreases s.len() - i,
{
    if i < 0 || i >= s.len() {
        None
    } else if s[i].1.player == player && s[i].1.kind == PieceType::King {
        Some(s[i].0)
    } else {
        find_king(s, player, i + 1)
    }
}

pub open spec fn spec_king_pos(b: Board, player: Player) -> Option<Pos> {
    find_king(b.spec_all_pieces(), player, 0)
}

/// Whether `player`'s king is attacked; false when `player` has no king.
pub open spec fn in_check(b: Board, player: Player, rules: RaptorPachydermRules) -> bool {
    match spec_king_pos(b, player) {
        Some(p) => attacked(b, p, player.spec_opponent(), rules),
        None => false,
    }
}

/// The pieces' placement after a move: the captured piece removed, the mover on its
/// landing square, and for castling the rook moved beside the king.
pub open spec fn spec_apply(b: Board, mv: Move) -> Board {
    let b1 = match mv.captured {
        Some(c) => b.with_piece(c.0, None),
        None => b,
    };
    let b2 = b1.with_piece(mv.from, None).with_piece(mv.to, Some(mv.piece));
    match mv.special {
        SpecialMove::Castle { rook_from, rook_to } => match b2.at(rook_from) {
            Some(rook) => b2.with_piece(rook_from, None).with_piece(rook_to, Some(rook)),
            None => b2,
        },
        _ => b2,
    }
}

/// The moves of `ms` that do not leave `player`'s king attacked.
pub open spec fn safe(b: Board, player: Player, rules: RaptorPachydermRules, ms: Seq<Move>) -> Seq<Move>
    decreases ms.len(),
{
    if ms.len() == 0 {
        Seq::empty()
    } else {
        let rest = safe(b, player, rules, ms.drop_last());
        if in_check(spec_apply(b, ms.last()), player, rules) {
            rest
        } else {
            rest.push(ms.last())
        }
    }
}

/// The legal moves of `player`'s pieces among those listed, in list order.
pub open spec fn legal_from(
    b: Board,
    player: Player,
    rules: RaptorPachydermRules,
    list: Seq<(Pos, Piece)>,
) -> Seq<Move>
    decreases list.len(),
{
    if list.len() == 0 {
        Seq::empty()
    } else {
        let rest = legal_from(b, player, rules, list.drop_last());
        if list.last().1.player == player {
            rest + safe(b, player, rules, pseudo(b, list.last().0, rules))
        } else {
            rest
        }
    }
}

/// Every pseudo-legal move of `player` that does not leave their own king attacked.
pub open spec fn spec_legal_moves(b: Board, player: Player, rules: RaptorPachydermRules) -> Seq<Move> {
    legal_from(b, player, rules, b.spec_all_pieces())
}

proof fn lemma_safe_contains(b: Board, player: Player, rules: RaptorPachydermRules, ms: Seq<Move>, m: Move)
    requires
        safe(b, player, rules, ms).contains(m),
    ensures
        ms.contains(m),
        !in_check(spec_apply(b, m), player, rules),
    decreases ms.len(),
{
    if ms.len() > 0 {
        let rest = safe(b, player, rules, ms.drop_last());
        let full = safe(b, player, rules, ms);
        let i = choose|i: int| 0 <= i < full.len() && full[i] == m;
        if i < rest.len() {
            assert(rest[i] == m);
            lemma_safe_contains(b, player, rules, ms.drop_last(), m);
            let k = choose|k: int| 0 <= k < ms.drop_last().len() && ms.drop_last()[k] == m;
            assert(ms[k] == m);
        } else {
            assert(ms[ms.len() - 1] == m);
        }
    }
}

proof fn lemma_legal_from_contains(
    b: Board,
    player: Player,
    rules: RaptorPachydermRules,
    list: Seq<(Pos, Piece)>,
    m: Move,
)
    requires
        legal_from(b, player, rules, list).contains(m),
    ensures
        exists|j: int|
            0 <= j < list.len() && (#[trigger] list[j]).1.player == player && pseudo(
                b,
                list[j].0,
                rules,
            ).contains(m),
        !in_check(spec_apply(b, m), player, rules),
    decreases list.len(),
{
    if list.len() > 0 {
        let rest = legal_from(b, player, rules, list.drop_last());
        let full = legal_from(b, player, rules, list);
        let i = choose|i: int| 0 <= i < full.len() && full[i] == m;
        if i < rest.len() {
            assert(rest[i] == m);
            lemma_legal_from_contains(b, player, rules, list.drop_last(), m);
            let j = choose|j: int|
                0 <= j < list.drop_last().len() && (#[trigger] list.drop_last()[j]).1.player == player
                    && pseudo(b, list.drop_last()[j].0, rules).contains(m);
            assert(list[j] == list.drop_last()[j]);
        } else {
            let last = list.last();
            let tail = safe(b, player, rules, pseudo(b, last.0, rules));
            assert(full == rest + tail);
            assert(tail[i - rest.len()] == m);
            lemma_safe_contains(b, player, rules, pseudo(b, last.0, rules), m);
            assert(list[list.len() - 1] == last);
        }
    }
}

/// A legal move is a pseudo-legal move of one of `player`'s own pieces, and after it
/// `player`'s king is not attacked.
pub proof fn lemma_legal_moves_are_safe(b: Board, player: Player, rules: RaptorPachydermRules, m: Move)
    requires
        spec_legal_moves(b, player, rules).contains(m),
    ensures
        !in_check(spec_apply(b, m), player, rules),
        exists|p: Pos| b.spec_is_friendly(p, player) && #[trigger] pseudo(b, p, rules).contains(m),
{
    let list = b.spec_all_pieces();
    lemma_legal_from_contains(b, player, rules, list, m);
    let j = choose|j: int|
        0 <= j < list.len() && (#[trigger] list[j]).1.player == player && pseudo(b, list[j].0, rules).contains(m);
    b.lemma_pieces_upto(70, j);
    assert(b.spec_is_friendly(list[j].0, player));
}

#[derive(Debug, Clone, Copy, PartialEq, Eq, Structural)]
pub enum GameStatus {
    InPlay,
    /// The side to move has no legal move and is in check.
    Checkmate(Player),
    /// The side to move has no legal move and is not in check.
    Stalemate(Player),
}

pub open spec fn spec_status(b: Board, player: Player, rules: RaptorPachydermRules) -> GameStatus {
    if spec_legal_moves(b, player, rules).len() > 0 {
        GameStatus::InPlay
    } else if in_check(b, player, rules) {
        GameStatus::Checkmate(player)
    } else {
        GameStatus::Stalemate(player)
    }
}

/// True if any of `by`'s pieces could move onto `target` now.
pub fn square_is_attacked(board: &Board, target: Pos, by: Player, rules: RaptorPachydermRules) -> (r: bool)
    ensures
        r == attacked(*board, target, by, rules),
{
    let all = board.all_pieces();
    let mut i: usize = 0;
    while i < all.len()
        invariant
            i <= all@.len(),
            all@ == board.spec_all_pieces(),
            forall|j: int| 0 <= j < i ==> !#[trigger] attacks(*board, target, by, rules, all@[j]),
        decreases all.len() - i,
    {
        let (pos, piece) = all[i];
        proof {
            board.lemma_pieces_upto(70, i as int);
        }
        if piece.player == by {
            if piece.kind == PieceType::King {
                let dc: i16 = if target.col >= pos.col {
                    target.col as i16 - pos.col as i16
                } else {
                    pos.col as i16 - target.col as i16
                };
                let dr: i16 = if target.row >= pos.row {
                    target.row as i16 - pos.row as i16
                } else {
                    pos.row as i16 - target.row as i16
                };
                if dc <= 1 && dr <= 1 && !(dc == 0 && dr == 0) {
                    assert(attacks(*board, target, by, rules, all@[i as int]));
                    return true;
                }
            } else {
                let ms = nonking_moves(board, pos, piece, rules);
                let mut k: usize = 0;
                while k < ms.len()
                    invariant
                        k <= ms@.len(),
                        ms@ == nonking(*board, pos, piece, rules),
                        i < all@.len(),
                        all@ == board.spec_all_pieces(),
                        all@[i as int] == (pos, piece),
                        piece.player == by,
                        piece.kind != PieceType::King,
                        forall|q: int| 0 <= q < k ==> (#[trigger] ms@[q]).to != target,
                    decreases ms.len() - k,
                {
                    if ms[k].to == target {
                        assert(nonking(*board, pos, piece, rules)[k as int].to == target);
                        assert(attacks(*board, target, by, rules, all@[i as int]));
                        return true;
                    }
                    k = k + 1;
                }
                assert(!attacks(*board, target, by, rules, all@[i as int]));
            }
        }
        i = i + 1;
    }
    false
}

fn king_pos(board: &Board, player: Player) -> (r: Option<Pos>)
    ensures
        r == spec_king_pos(*board, player),
{
    let all = board.all_pieces();
    let mut i: usize = 0;
    while i < all.len()
        invariant
            i <= all@.len(),
            all@ == board.spec_all_pieces(),
            find_king(all@, player, 0) == find_king(all@, player, i as int),
        decreases all.len() - i,
    {
        let (pos, piece) = all[i];
        if piece.player == player && piece.kind == PieceType::King {
            return Some(pos);
        }
        i = i + 1;
    }
    None
}

/// True if `player`'s king is attacked; false if `player` has no king on the board.
pub fn king_in_check(board: &Board, player: Player, rules: RaptorPachydermRules) -> (r: bool)
    ensures
        r == in_check(*board, player, rules),
{
    match king_pos(board, player) {
        Some(pos) => square_is_attacked(board, pos, player.opponent(), rules),
        None => false,
    }
}

/// The placement after `mv` on a scratch copy of the board (the turn and square
/// state are left alone: a check test needs only where the pieces stand).
fn apply(board: &Board, mv: Move) -> (r: Board)
    requires
        mv.well_formed(),
    ensures
        r == spec_apply(*board, mv),
{
    let mut next = *board;
    if let Some(c) = mv.captured {
        next.set(c.0, None);
    }
    next.set(mv.from, None);
    next.set(mv.to, Some(mv.piece));
    if let SpecialMove::Castle { rook_from, rook_to } = mv.special {
        if let Some(rook) = next.get(rook_from) {
            next.set(rook_from, None);
            next.set(rook_to, Some(rook));
        }
    }
    next
}

/// Every pseudo-legal move of `player` that does not leave their king attacked: the
/// legal moves, in board order. A king capturing a defended piece stays attacked on
/// the board after the capture, so such a capture is excluded too.
pub fn legal_moves(board: &Board, player: Player, rules: RaptorPachydermRules) -> (v: Vec<Move>)
    ensures
        v@ == spec_legal_moves(*board, player, rules),
        all_wf(v@),
{
    let mut out: Vec<Move> = Vec::new();
    let all = board.all_pieces();
    let mut i: usize = 0;
    while i < all.len()
        invariant
            i <= all@.len(),
            all@ == board.spec_all_pieces(),
            out@ == legal_from(*board, player, rules, all@.take(i as int)),
            all_wf(out@),
        decreases all.len() - i,
    {
        assert(all@.take(i as int + 1).drop_last() =~= all@.take(i as int));
        let (pos, piece) = all[i];
        if piece.player == player {
            let ms = pseudo_legal_moves_for(board, pos, rules);
            let ghost base = out@;
            let mut k: usize = 0;
            while k < ms.len()
                invariant
                    k <= ms@.len(),
                    ms@ == pseudo(*board, pos, rules),
                    all_wf(ms@),
                    out@ == base + safe(*board, player, rules, ms@.take(k as int)),
                    all_wf(out@),
                decreases ms.len() - k,
            {
                assert(ms@.take(k as int + 1).drop_last() =~= ms@.take(k as int));
                let mv = ms[k];
                assert(mv.well_formed());
                let after = apply(board, mv);
                let ghost before = out@;
                if !king_in_check(&after, player, rules) {
                    out.push(mv);
                }
                assert(out@ =~= base + safe(*board, player, rules, ms@.take(k as int + 1)));
                k = k + 1;
            }
            assert(ms@.take(ms@.len() as int) =~= ms@);
        }
        assert(out@ =~= legal_from(*board, player, rules, all@.take(i as int + 1)));
        i = i + 1;
    }
    assert(all@.take(all@.len() as int) =~= all@);
    out
}

/// In play while the side to move has a legal move; otherwise checkmate if its king
/// is attacked and stalemate if not.
pub fn game_status(board: &Board, player: Player, rules: RaptorPachydermRules) -> (r: GameStatus)
    ensures
        r == spec_status(*board, player, rules),
{
    if legal_moves(board, player, rules).len() > 0 {
        return GameStatus::InPlay;
    }
    if king_in_check(board, player, rules) {
        GameStatus::Checkmate(player)
    } else {
        GameStatus::Stalemate(player)
    }
}

} // verus!
