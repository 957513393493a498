//! The search tree and the Monte Carlo tree search over it (UCT selection, random or
//! custom evaluation, the MCTS-Solver, and optional transposition detection).

use vstd::prelude::*;
use vstd::layout::size_of;
use std::collections::HashMap;
use rand_xorshift::XorShiftRng;
use crate::fixed::{ONE, HALF, ln_fixed, isqrt, spec_ln};
use vstd::arithmetic::power2::pow2;
use crate::game::{GameResult, Player, Action, GameState};
use crate::rng::{xorshift_from_seed, next_u64};

verus! {

broadcast use vstd::std_specs::hash::group_hash_axioms;

/// The exploration constant sqrt(2), in millionths.
pub const DEFAULT_EXPLORATION: u32 = 1_414_214;

/// How deep a single descent may recurse.
pub const DESCENT_FUEL: u64 = 0xffff_ffff_ffff_ffff;

/// How many moves a single random playout may make.
pub const PLAYOUT_FUEL: u64 = 0xffff_ffff_ffff_ffff;

/// A node of the search tree, kept in one flat stack. The first field of every
/// variant says whether the node has a next sibling at the following index; the
/// second is the move that leads to it from its parent.
///
/// - `Unknown`: not visited yet.
/// - `Terminal`: the game is over here, or its value is proven; holds the side to
///   move and the value for that side.
/// - `Leaf`: visited but not expanded; holds the side to move, the sum of values for
///   that side and the visit count.
/// - `Branch`: expanded; as `Leaf`, plus the index of its first child.
/// - `Transpose`: stands for the node at the given index, which holds the same
///   position.
#[derive(Debug, Clone, Copy)]
pub enum Node<P, A> {
    Unknown(bool, A),
    Terminal(bool, A, P, u64),
    Leaf(bool, A, P, u64, u32),
    Branch(bool, A, P, u64, u32, usize),
    Transpose(bool, A, usize),
}

impl<P, A> Node<P, A> {
    pub open spec fn sib(self) -> bool {
        match self {
            Node::Unknown(s, _) => s,
            Node::Terminal(s, _, _, _) => s,
            Node::Leaf(s, _, _, _, _) => s,
            Node::Branch(s, _, _, _, _, _) => s,
            Node::Transpose(s, _, _) => s,
        }
    }

    pub open spec fn act(self) -> A {
        match self {
            Node::Unknown(_, a) => a,
            Node::Terminal(_, a, _, _) => a,
            Node::Leaf(_, a, _, _, _) => a,
            Node::Branch(_, a, _, _, _, _) => a,
            Node::Transpose(_, a, _) => a,
        }
    }

    /// 0 unknown, 1 terminal, 2 leaf, 3 branch, 4 transpose.
    pub open spec fn kind(self) -> int {
        match self {
            Node::Unknown(_, _) => 0,
            Node::Terminal(_, _, _, _) => 1,
            Node::Leaf(_, _, _, _, _) => 2,
            Node::Branch(_, _, _, _, _, _) => 3,
            Node::Transpose(_, _, _) => 4,
        }
    }

    /// A node a transposition may point at.
    pub open spec fn is_target(self) -> bool {
        self is Terminal || self is Leaf || self is Branch
    }

    /// The visits a leaf or a branch records; none for the other kinds.
    pub open spec fn visits(self) -> nat {
        match self {
            Node::Leaf(_, _, _, _, n) => n as nat,
            Node::Branch(_, _, _, _, n, _) => n as nat,
            _ => 0,
        }
    }
}

/// A descent that returned `v` for the side to move at a node turned the node `old`
/// into `new` as it should: a proven node holds `v`; a node that was unvisited is now a
/// leaf with one visit worth `v`; a leaf or a branch gained one visit and `v` in its
/// value sum (while its count is below `u32::MAX`).
pub open spec fn gained<P, A>(old: Node<P, A>, new: Node<P, A>, v: u64) -> bool {
    match new {
        Node::Terminal(_, _, _, w) => w == v,
        Node::Leaf(_, _, _, w, n) => match old {
            Node::Unknown(_, _) => w == v && n == 1,
            Node::Leaf(_, _, _, ow, on) => on < u32::MAX ==> w == ow + v && n == on + 1,
            _ => false,
        },
        Node::Branch(_, _, _, w, n, _) => match old {
            Node::Leaf(_, _, _, ow, on) => on < u32::MAX ==> w == ow + v && n == on + 1,
            Node::Branch(_, _, _, ow, on, _) => on < u32::MAX ==> w == ow + v && n == on + 1,
            _ => false,
        },
        _ => false,
    }
}

/// A descent through `old`, whose position is `s`, with the expansion minimum
/// `expansion` turned it into `new` as it should (`gained`): a leaf was rolled out while
/// it had at most `expansion` visits and expanded (or proven) once it had more, and an
/// unvisited node became the finished game's result or a leaf with its first value.
pub open spec fn descended<P: Player, A: Action, S: GameState<P, A>>(old: Node<P, A>, new: Node<P, A>, s: S, v: u64, expansion: u32) -> bool {
    &&& gained(old, new, v)
    &&& old is Leaf ==> (old->Leaf_4 <= expansion ==> new is Leaf) && (old->Leaf_4 > expansion ==> new is Branch
        || new is Terminal)
    &&& old is Unknown ==> new == (match s.outcome() {
        Some(_) => Node::<P, A>::Terminal(old.sib(), old.act(), s.mover(), v),
        None => Node::<P, A>::Leaf(old.sib(), old.act(), s.mover(), v, 1),
    }) && (s.outcome() matches Some(res) ==> v == res.spec_value())
}

/// The position reached from `s` by playing the moves `ms` in order.
pub open spec fn play<P: Player, A: Action, S: GameState<P, A>>(s: S, ms: Seq<A>) -> S
    decreases ms.len(),
{
    if ms.len() == 0 {
        s
    } else {
        play(s, ms.drop_last()).next(ms.last())
    }
}

/// Each of the moves `ms`, played in order from `s`, is legal where it is played, in a
/// game not yet over.
pub open spec fn valid_line<P: Player, A: Action, S: GameState<P, A>>(s: S, ms: Seq<A>) -> bool
    decreases ms.len(),
{
    ms.len() == 0 || {
        &&& valid_line(s, ms.drop_last())
        &&& play(s, ms.drop_last()).outcome() is None
        &&& play(s, ms.drop_last()).legal(ms.last())
    }
}

/// `v` is what a random playout from `s` may report: the result of a game played out
/// from `s` by at most `PLAYOUT_FUEL` legal moves, seen from the side to move at `s`;
/// or a draw when the playout stopped after `PLAYOUT_FUEL` moves without the game
/// ending.
pub open spec fn playout_result<P: Player, A: Action, S: GameState<P, A>>(s: S, v: u64) -> bool {
    exists|ms: Seq<A>|
        #[trigger] valid_line(s, ms) && ms.len() <= PLAYOUT_FUEL && {
            let e = play(s, ms);
            ||| e.outcome() matches Some(res) && v == seen_from(e.mover(), s.mover(), res.spec_value())
            ||| ms.len() == PLAYOUT_FUEL && e.outcome() is None && v == HALF
        }
}

/// Every game played out from `s` by at most `PLAYOUT_FUEL` legal moves ends within
/// them, with the value `w` for the side to move at `s`.
pub open spec fn every_line_ends_with<P: Player, A: Action, S: GameState<P, A>>(s: S, w: u64) -> bool {
    forall|ms: Seq<A>|
        #[trigger] valid_line(s, ms) && ms.len() <= PLAYOUT_FUEL ==> {
            let e = play(s, ms);
            &&& e.outcome() matches Some(res) ==> seen_from(e.mover(), s.mover(), res.spec_value()) == w
            &&& ms.len() == PLAYOUT_FUEL ==> e.outcome() is Some
        }
}

/// A playout reports the finished game's result from the point of view of the side to
/// move where it started: wherever every way the game can go from `s` ends in a win for
/// that side, a playout from `s` is worth `ONE`; wherever every way ends in its loss,
/// `0`.
pub proof fn lemma_playout_of_a_decided_position<P: Player, A: Action, S: GameState<P, A>>(s: S, v: u64, w: u64)
    requires
        playout_result(s, v),
        every_line_ends_with(s, w),
    ensures
        v == w,
{
    let ms = choose|ms: Seq<A>|
        #[trigger] valid_line(s, ms) && ms.len() <= PLAYOUT_FUEL && {
            let e = play(s, ms);
            ||| e.outcome() matches Some(res) && v == seen_from(e.mover(), s.mover(), res.spec_value())
            ||| ms.len() == PLAYOUT_FUEL && e.outcome() is None && v == HALF
        };
}

/// The value `v` for the side moving at a child seen from `p`, the side moving at its
/// parent.
pub open spec fn seen_from<P>(child_side: P, p: P, v: u64) -> int {
    if child_side == p {
        v as int
    } else {
        ONE - v
    }
}

/// `n` visits and `k` more, as a count that stops at `u32::MAX`.
pub open spec fn visits_after(n: nat, k: nat) -> nat {
    if n + k < u32::MAX {
        n + k
    } else {
        u32::MAX as nat
    }
}

/// Counts of the node kinds in the stack, and its size in bytes.
#[derive(Debug, Clone, Copy)]
pub struct Info {
    /// Visits of the root.
    pub n: u32,
    /// The root's value for the side to move there, in millionths.
    pub q: u64,
    pub branch: usize,
    pub leaf: usize,
    pub terminal: usize,
    pub unknown: usize,
    pub transpose: usize,
    pub bytes: usize,
}

/// A search from a root position.
pub struct MCTS<P, A, S> {
    /// The UCT exploration constant, in millionths.
    pub exploration: u32,
    /// The visits a leaf needs before it is expanded.
    pub expansion: u32,
    pub use_custom_evaluation: bool,
    pub use_transposition: bool,
    pub use_rave: bool,
    /// Selection by the PUCT rule, weighting exploration by the game's move priors.
    pub use_puct: bool,
    pub info: Info,
    pub root: S,
    pub stack: Vec<Node<P, A>>,
    pub rand: XorShiftRng,
    pub map: HashMap<u64, usize>,
    /// The all-moves-as-first statistics kept while RAVE is enabled, one entry per
    /// node of the stack: how many descents played the node's move, for the side that
    /// moves at its parent, anywhere from the parent on, and the sum of those descents'
    /// values for the side to move at the node.
    pub rave: Vec<(u32, u64)>,
    /// The moves of the descent in progress, each with the side that played it (kept
    /// while RAVE is enabled).
    pub played: Vec<(A, P)>,
    /// The position each node of the stack stands for.
    pub states: Ghost<Seq<S>>,
}

/// Nodes `c..=j` of a sibling list: every node before `j` has a next sibling.
pub open spec fn in_chain<P, A>(st: Seq<Node<P, A>>, c: int, j: int) -> bool {
    &&& 0 <= c <= j < st.len()
    &&& forall|k: int| c <= k < j ==> (#[trigger] st[k]).sib()
}

/// The number of nodes of the given kind.
pub open spec fn count_kind<P, A>(s: Seq<Node<P, A>>, k: int) -> nat
    decreases s.len(),
{
    if s.len() == 0 {
        0
    } else {
        count_kind(s.drop_last(), k) + if s.last().kind() == k {
            1nat
        } else {
            0nat
        }
    }
}

pub proof fn lemma_count_push<P, A>(s: Seq<Node<P, A>>, x: Node<P, A>, k: int)
    ensures
        count_kind(s.push(x), k) == count_kind(s, k) + if x.kind() == k {
            1nat
        } else {
            0nat
        },
{
    assert(s.push(x).drop_last() =~= s);
}

pub proof fn lemma_count_update<P, A>(s: Seq<Node<P, A>>, i: int, x: Node<P, A>, k: int)
    requires
        0 <= i < s.len(),
    ensures
        count_kind(s.update(i, x), k) + (if s[i].kind() == k {
            1int
        } else {
            0int
        }) == count_kind(s, k) + (if x.kind() == k {
            1int
        } else {
            0int
        }),
    decreases s.len(),
{
    if i == s.len() - 1 {
        assert(s.update(i, x).drop_last() =~= s.drop_last());
    } else {
        lemma_count_update(s.drop_last(), i, x, k);
        assert(s.update(i, x).drop_last() =~= s.drop_last().update(i, x));
    }
}

pub proof fn lemma_count_bound<P, A>(s: Seq<Node<P, A>>, k: int)
    ensures
        count_kind(s, k) <= s.len(),
    decreases s.len(),
{
    if s.len() > 0 {
        lemma_count_bound(s.drop_last(), k);
    }
}

pub proof fn lemma_count_total<P, A>(s: Seq<Node<P, A>>)
    ensures
        count_kind(s, 0) + count_kind(s, 1) + count_kind(s, 2) + count_kind(s, 3) + count_kind(
            s,
            4,
        ) == s.len(),
    decreases s.len(),
{
    if s.len() > 0 {
        lemma_count_total(s.drop_last());
    }
}

/// Two positions the search may treat alike: equal, or with equal keys where the key
/// identifies positions.
pub open spec fn equiv<P: Player, A: Action, S: GameState<P, A>>(a: S, b: S) -> bool {
    a == b || (S::key_identifies() && a.key() == b.key())
}

pub proof fn lemma_equiv_step<P: Player, A: Action, S: GameState<P, A>>(a: S, b: S, x: A)
    requires
        equiv::<P, A, S>(a, b),
    ensures
        a.outcome() == b.outcome(),
        a.mover() == b.mover(),
        a.legal(x) == b.legal(x),
        a.legal(x) ==> equiv::<P, A, S>(a.next(x), b.next(x)),
{
    if a != b {
        S::lemma_key_identifies(a, b, x);
    }
}

pub proof fn lemma_equiv_trans<P: Player, A: Action, S: GameState<P, A>>(a: S, b: S, c: S)
    requires
        equiv::<P, A, S>(a, b),
        equiv::<P, A, S>(b, c),
    ensures
        equiv::<P, A, S>(a, c),
{
}

/// The value `w` held for side `p`, seen from `player`.
pub open spec fn persp<P>(p: P, player: P, w: u64) -> int {
    if p == player {
        w as int
    } else {
        ONE - w
    }
}

/// Side `x` can force a win from `s` within `d` moves: the game is over and won for `x`
/// (a result counts for the side to move, and the other way round for the other side),
/// or `x` is to move and has a move to a position it can win, or the other side is to
/// move and every move leads to a position `x` can win.
pub open spec fn can_win<P: Player, A: Action, S: GameState<P, A>>(s: S, x: P, d: nat) -> bool
    decreases d,
{
    match s.outcome() {
        Some(r) => persp(s.mover(), x, r.spec_value()) == ONE,
        None => d > 0 && if s.mover() == x {
            exists|a: A| #[trigger] s.legal(a) && can_win::<P, A, S>(s.next(a), x, (d - 1) as nat)
        } else {
            forall|a: A| #[trigger] s.legal(a) ==> can_win::<P, A, S>(s.next(a), x, (d - 1) as nat)
        },
    }
}

/// Side `x` cannot avoid losing from `s` within `d` moves: the game is over and lost
/// for `x`, or every move of `x`, or some move of the other side, leads to a position
/// `x` cannot avoid losing.
pub open spec fn must_lose<P: Player, A: Action, S: GameState<P, A>>(s: S, x: P, d: nat) -> bool
    decreases d,
{
    match s.outcome() {
        Some(r) => persp(s.mover(), x, r.spec_value()) == 0,
        None => d > 0 && if s.mover() == x {
            forall|a: A| #[trigger] s.legal(a) ==> must_lose::<P, A, S>(s.next(a), x, (d - 1) as nat)
        } else {
            exists|a: A| #[trigger] s.legal(a) && must_lose::<P, A, S>(s.next(a), x, (d - 1) as nat)
        },
    }
}

/// What a proven value means for a node of side `p` at position `s`: a proven win is
/// a forced win, a proven loss a forced loss.
pub open spec fn proven<P: Player, A: Action, S: GameState<P, A>>(s: S, p: P, w: u64) -> bool {
    &&& w == ONE ==> exists|d: nat| #[trigger] can_win::<P, A, S>(s, p, d)
    &&& w == 0 ==> exists|d: nat| #[trigger] must_lose::<P, A, S>(s, p, d)
}

/// Positions the search treats alike have the same forced wins and losses.
pub proof fn lemma_equiv_games<P: Player, A: Action, S: GameState<P, A>>(s: S, t: S, x: P, d: nat)
    requires
        equiv::<P, A, S>(s, t),
    ensures
        can_win::<P, A, S>(s, x, d) == can_win::<P, A, S>(t, x, d),
        must_lose::<P, A, S>(s, x, d) == must_lose::<P, A, S>(t, x, d),
    decreases d,
{
    let any: A = arbitrary();
    lemma_equiv_step::<P, A, S>(s, t, any);
    if s.outcome() is None && d > 0 {
        assert forall|a: A| s.legal(a) == t.legal(a) && (s.legal(a) ==> (can_win::<P, A, S>(
            s.next(a),
            x,
            (d - 1) as nat,
        ) == can_win::<P, A, S>(t.next(a), x, (d - 1) as nat) && must_lose::<P, A, S>(
            s.next(a),
            x,
            (d - 1) as nat,
        ) == must_lose::<P, A, S>(t.next(a), x, (d - 1) as nat))) by {
            lemma_equiv_step::<P, A, S>(s, t, a);
            if s.legal(a) {
                lemma_equiv_games::<P, A, S>(s.next(a), t.next(a), x, (d - 1) as nat);
            }
        }
        if s.mover() == x {
            if can_win::<P, A, S>(s, x, d) {
                let a = choose|a: A| #[trigger] s.legal(a) && can_win::<P, A, S>(s.next(a), x, (d - 1) as nat);
                assert(t.legal(a));
            }
            if can_win::<P, A, S>(t, x, d) {
                let a = choose|a: A| #[trigger] t.legal(a) && can_win::<P, A, S>(t.next(a), x, (d - 1) as nat);
                assert(s.legal(a));
            }
        } else {
            if must_lose::<P, A, S>(s, x, d) {
                let a = choose|a: A| #[trigger] s.legal(a) && must_lose::<P, A, S>(s.next(a), x, (d - 1) as nat);
                assert(t.legal(a));
            }
            if must_lose::<P, A, S>(t, x, d) {
                let a = choose|a: A| #[trigger] t.legal(a) && must_lose::<P, A, S>(t.next(a), x, (d - 1) as nat);
                assert(s.legal(a));
            }
        }
    }
}

/// A side that cannot avoid losing leaves the win to the other side, and the other
/// way round.
pub proof fn lemma_flip<P: Player, A: Action, S: GameState<P, A>>(s: S, x: P, y: P, d: nat)
    requires
        x != y,
    ensures
        must_lose::<P, A, S>(s, y, d) ==> can_win::<P, A, S>(s, x, d),
        can_win::<P, A, S>(s, y, d) ==> must_lose::<P, A, S>(s, x, d),
    decreases d,
{
    P::lemma_two_sides(s.mover(), x, y);
    match s.outcome() {
        Some(r) => {
            assert(r.spec_value() <= ONE);
        },
        None => {
            if d > 0 {
                assert forall|a: A| #[trigger] s.legal(a) implies (must_lose::<P, A, S>(
                    s.next(a),
                    y,
                    (d - 1) as nat,
                ) ==> can_win::<P, A, S>(s.next(a), x, (d - 1) as nat)) && (can_win::<P, A, S>(
                    s.next(a),
                    y,
                    (d - 1) as nat,
                ) ==> must_lose::<P, A, S>(s.next(a), x, (d - 1) as nat)) by {
                    lemma_flip::<P, A, S>(s.next(a), x, y, (d - 1) as nat);
                }
            }
        },
    }
}

/// A forced win or loss within `d` moves is one within any `e >= d` moves.
pub proof fn lemma_games_mono<P: Player, A: Action, S: GameState<P, A>>(s: S, x: P, d: nat, e: nat)
    requires
        d <= e,
    ensures
        can_win::<P, A, S>(s, x, d) ==> can_win::<P, A, S>(s, x, e),
        must_lose::<P, A, S>(s, x, d) ==> must_lose::<P, A, S>(s, x, e),
    decreases d,
{
    if s.outcome() is None && d > 0 {
        assert forall|a: A| #[trigger] s.legal(a) implies (can_win::<P, A, S>(
            s.next(a),
            x,
            (d - 1) as nat,
        ) ==> can_win::<P, A, S>(s.next(a), x, (e - 1) as nat)) && (must_lose::<P, A, S>(
            s.next(a),
            x,
            (d - 1) as nat,
        ) ==> must_lose::<P, A, S>(s.next(a), x, (e - 1) as nat)) by {
            lemma_games_mono::<P, A, S>(s.next(a), x, (d - 1) as nat, (e - 1) as nat);
        }
    }
}

/// The invariant of node `i` of the stack, were it `x`; `gs` are the positions of the
/// nodes. A visited node holds the side to move at its position, and a proven value
/// is the true one. A branch's children have the positions its moves lead to, by
/// moves that are legal, and every legal move has a child; a transposition holds the
/// position of the node it points at.
pub open spec fn node_ok_for<P: Player, A: Action, S: GameState<P, A>>(
    st: Seq<Node<P, A>>,
    gs: Seq<S>,
    i: int,
    x: Node<P, A>,
) -> bool {
    match x {
        Node::Unknown(_, _) => true,
        Node::Terminal(_, _, p, w) => w <= ONE && p == gs[i].mover() && proven::<P, A, S>(gs[i], p, w),
        Node::Leaf(_, _, p, w, n) => n >= 1 && w <= n * ONE && gs[i].outcome() is None && p
            == gs[i].mover(),
        Node::Branch(_, _, p, w, n, c) => {
            &&& n >= 1
            &&& w <= n * ONE
            &&& gs[i].outcome() is None
            &&& p == gs[i].mover()
            &&& i < c < st.len()
            &&& forall|a: A|
                #[trigger] gs[i].legal(a) ==> exists|j: int|
                    #[trigger] in_chain(st, c as int, j) && st[j].act() == a
            &&& forall|j: int|
                #[trigger] in_chain(st, c as int, j) ==> gs[i].legal(st[j].act()) && equiv::<
                    P,
                    A,
                    S,
                >(gs[j], gs[i].next(st[j].act()))
        },
        Node::Transpose(_, _, u) => {
            &&& u < st.len()
            &&& equiv::<P, A, S>(gs[i], gs[u as int])
            &&& st[u as int].is_target()
        },
    }
}

/// The invariant of node `i` of the stack.
pub open spec fn node_ok<P: Player, A: Action, S: GameState<P, A>>(
    st: Seq<Node<P, A>>,
    gs: Seq<S>,
    i: int,
) -> bool {
    node_ok_for(st, gs, i, st[i])
}

/// The nodes of `b` keep the sibling flags, moves (but the root's) and positions of
/// the nodes of `a`, and a node that a transposition may point at stays one.
pub open spec fn stack_grows<P, A, S>(
    a: Seq<Node<P, A>>,
    ags: Seq<S>,
    b: Seq<Node<P, A>>,
    bgs: Seq<S>,
) -> bool {
    &&& a.len() <= b.len()
    &&& forall|j: int|
        0 <= j < a.len() ==> {
            &&& (#[trigger] b[j]).sib() == a[j].sib()
            &&& (j > 0 ==> b[j].act() == a[j].act())
            &&& bgs[j] == ags[j]
            &&& (a[j].is_target() ==> b[j].is_target())
            &&& kind_step(a[j], b[j])
        }
}

/// The kinds a node may turn into as the search goes on: an unvisited node into any,
/// a leaf into a leaf, a branch or a proven node, a branch into a branch or a proven
/// node; a proven node and a transposition stay what they are.
pub open spec fn kind_step<P, A>(a: Node<P, A>, b: Node<P, A>) -> bool {
    match a {
        Node::Unknown(_, _) => true,
        Node::Leaf(_, _, _, _, _) => b is Leaf || b is Branch || b is Terminal,
        Node::Branch(_, _, _, _, _, _) => b is Branch || b is Terminal,
        Node::Terminal(_, _, _, _) => b is Terminal,
        Node::Transpose(_, _, _) => b is Transpose,
    }
}

/// A branch keeps its node invariant when its value sum and visit count change to
/// any consistent pair.
proof fn lemma_branch_restat<P: Player, A: Action, S: GameState<P, A>>(
    st: Seq<Node<P, A>>,
    gs: Seq<S>,
    i: int,
    w: u64,
    n: u32,
)
    requires
        node_ok(st, gs, i),
        st[i] is Branch,
        n >= 1,
        w <= n * ONE,
    ensures
        node_ok_for(st, gs, i, Node::Branch(st[i]->Branch_0, st[i]->Branch_1, st[i]->Branch_2, w, n, st[i]->Branch_5)),
{
}

/// A branch over the children at `c` keeps the node invariant when its children are
/// the legal moves of its position.
proof fn lemma_new_branch_ok<P: Player, A: Action, S: GameState<P, A>>(
    st: Seq<Node<P, A>>,
    gs: Seq<S>,
    i: int,
    s: bool,
    a: A,
    p: P,
    w: u64,
    n: u32,
    c: usize,
)
    requires
        n >= 1,
        w <= n * ONE,
        gs[i].outcome() is None,
        p == gs[i].mover(),
        i < c < st.len(),
        forall|b: A|
            #[trigger] gs[i].legal(b) ==> exists|j: int| #[trigger] in_chain(st, c as int, j) && st[j].act() == b,
        forall|j: int|
            #[trigger] in_chain(st, c as int, j) ==> gs[i].legal(st[j].act()) && equiv::<P, A, S>(
                gs[j],
                gs[i].next(st[j].act()),
            ),
    ensures
        node_ok_for(st, gs, i, Node::Branch(s, a, p, w, n, c)),
{
}

/// The move of the first child of the root proven with the root's proven value
/// means that value for the root position.
proof fn lemma_root_move<P: Player, A: Action, S: GameState<P, A>>(
    st: Seq<Node<P, A>>,
    gs: Seq<S>,
    j: int,
    value: u64,
)
    requires
        gs.len() == st.len(),
        forall|k: int| 0 <= k < st.len() ==> #[trigger] node_ok(st, gs, k),
        st.len() > 0,
        st[0] is Branch,
        first_proven_child(st, st[0]->Branch_5 as int, st[0]->Branch_2, value, j),
        value == ONE || value == 0,
    ensures
        root_move_ok::<P, A, S>(gs[0], st[j].act(), st[0]->Branch_2, value),
{
    let p = st[0]->Branch_2;
    let c = st[0]->Branch_5 as int;
    assert(node_ok(st, gs, 0));
    assert(node_ok(st, gs, j));
    let a = st[j].act();
    let pj = st[j]->Terminal_2;
    let wj = st[j]->Terminal_3;
    assert(gs[0].legal(a));
    assert(equiv::<P, A, S>(gs[j], gs[0].next(a)));
    assert(proven::<P, A, S>(gs[j], pj, wj));
    if value == ONE {
        if pj == p {
            assert(wj == ONE);
            let d = choose|d: nat| #[trigger] can_win::<P, A, S>(gs[j], pj, d);
            lemma_equiv_games::<P, A, S>(gs[j], gs[0].next(a), p, d);
        } else {
            assert(wj == 0);
            let d = choose|d: nat| #[trigger] must_lose::<P, A, S>(gs[j], pj, d);
            lemma_flip::<P, A, S>(gs[j], p, pj, d);
            lemma_equiv_games::<P, A, S>(gs[j], gs[0].next(a), p, d);
        }
    } else {
        if pj == p {
            assert(wj == 0);
            let d = choose|d: nat| #[trigger] must_lose::<P, A, S>(gs[j], pj, d);
            lemma_equiv_games::<P, A, S>(gs[j], gs[0].next(a), p, d);
        } else {
            assert(wj == ONE);
            let d = choose|d: nat| #[trigger] can_win::<P, A, S>(gs[j], pj, d);
            lemma_flip::<P, A, S>(gs[j], p, pj, d);
            lemma_equiv_games::<P, A, S>(gs[j], gs[0].next(a), p, d);
        }
    }
}

/// Growing is transitive.
proof fn lemma_grows_trans<P, A, S>(
    a: Seq<Node<P, A>>,
    ags: Seq<S>,
    b: Seq<Node<P, A>>,
    bgs: Seq<S>,
    c: Seq<Node<P, A>>,
    cgs: Seq<S>,
)
    requires
        stack_grows(a, ags, b, bgs),
        stack_grows(b, bgs, c, cgs),
    ensures
        stack_grows(a, ags, c, cgs),
{
}

/// Replacing one node keeps every node invariant, given the new node's own.
pub proof fn lemma_update_nodes_ok<P: Player, A: Action, S: GameState<P, A>>(
    st: Seq<Node<P, A>>,
    gs: Seq<S>,
    index: int,
    x: Node<P, A>,
)
    requires
        0 <= index < st.len(),
        gs.len() == st.len(),
        forall|i: int| 0 <= i < st.len() ==> #[trigger] node_ok(st, gs, i),
        x.sib() == st[index].sib(),
        index > 0 ==> x.act() == st[index].act(),
        st[index].is_target() ==> x.is_target(),
        node_ok_for(st, gs, index, x),
        kind_step(st[index], x),
    ensures
        forall|i: int| 0 <= i < st.len() ==> #[trigger] node_ok(st.update(index, x), gs, i),
        stack_grows(st, gs, st.update(index, x), gs),
{
    let st2 = st.update(index, x);
    assert(stack_grows(st, gs, st2, gs));
    assert forall|i: int| 0 <= i < st2.len() implies #[trigger] node_ok(st2, gs, i) by {
        if i == index {
            lemma_node_ok_transfer(st, gs, st2, gs, i, x);
        } else {
            assert(node_ok(st, gs, i));
            lemma_node_ok_transfer(st, gs, st2, gs, i, st[i]);
        }
    }
}

/// Node invariants carry over to a stack that grew from the old one.
pub proof fn lemma_node_ok_transfer<P: Player, A: Action, S: GameState<P, A>>(
    st: Seq<Node<P, A>>,
    gs: Seq<S>,
    st2: Seq<Node<P, A>>,
    gs2: Seq<S>,
    i: int,
    x: Node<P, A>,
)
    requires
        0 <= i < st.len(),
        node_ok_for(st, gs, i, x),
        stack_grows(st, gs, st2, gs2),
        st2.len() == st.len() || !st[st.len() - 1].sib(),
    ensures
        node_ok_for(st2, gs2, i, x),
{
    assert(st2[i] == st2[i]);
    assert(gs2[i] == gs[i]) by {
        assert(st2[i].sib() == st[i].sib());
    }
    match x {
        Node::Branch(_, _, _, _, _, c) => {
            assert forall|j: int| #[trigger] in_chain(st2, c as int, j) implies gs2[i].legal(
                st2[j].act(),
            ) && equiv::<P, A, S>(gs2[j], gs2[i].next(st2[j].act())) by {
                if j >= st.len() {
                    let k = st.len() - 1;
                    assert(st2[k].sib() == st[k].sib());
                    assert(st2[k].sib());
                }
                assert(j < st.len());
                assert forall|k: int| c <= k < j implies #[trigger] st[k].sib() by {
                    assert(st2[k].sib() == st[k].sib());
                }
                assert(in_chain(st, c as int, j));
                assert(st2[j].sib() == st[j].sib());
            }
            assert forall|a: A| #[trigger] gs2[i].legal(a) implies exists|j: int|
                #[trigger] in_chain(st2, c as int, j) && st2[j].act() == a by {
                let j = choose|j: int| #[trigger] in_chain(st, c as int, j) && st[j].act() == a;
                assert forall|k: int| c <= k < j implies #[trigger] st2[k].sib() by {
                    assert(st[k].sib());
                }
                assert(in_chain(st2, c as int, j));
            }
        },
        Node::Transpose(_, _, u) => {
            assert(st2[u as int].sib() == st[u as int].sib());
        },
        _ => {},
    }
}

/// Whether a proven win or a proven loss decides the sibling list starting at `c`, for
/// `player`: a win as soon as one child is a proven win, a loss when every child is a
/// proven loss.
pub open spec fn spec_solved<P, A>(st: Seq<Node<P, A>>, c: int, player: P) -> Option<u64> {
    if exists|j: int|
        #![trigger st[j]]
        in_chain(st, c, j) && st[j] is Terminal && persp(st[j]->Terminal_2, player, st[j]->Terminal_3)
            >= ONE {
        Some(ONE)
    } else if forall|j: int|
        #![trigger st[j]]
        in_chain(st, c, j) ==> st[j] is Terminal && persp(st[j]->Terminal_2, player, st[j]->Terminal_3)
            <= 0 {
        Some(0)
    } else {
        None
    }
}

/// Changing a node before the list at `c` leaves what the list proves unchanged.
proof fn lemma_solved_update<P, A>(st: Seq<Node<P, A>>, c: int, player: P, i: int, x: Node<P, A>)
    requires
        0 <= i < c,
        i < st.len(),
    ensures
        spec_solved(st.update(i, x), c, player) == spec_solved(st, c, player),
{
    let st2 = st.update(i, x);
    assert forall|j: int| in_chain(st2, c, j) <==> in_chain(st, c, j) by {
        if in_chain(st2, c, j) {
            assert forall|k: int| c <= k < j implies (#[trigger] st[k]).sib() by {
                assert(st2[k] == st[k]);
            }
        }
        if in_chain(st, c, j) {
            assert forall|k: int| c <= k < j implies (#[trigger] st2[k]).sib() by {
                assert(st2[k] == st[k]);
            }
        }
    }
    assert forall|j: int| c <= j < st.len() implies #[trigger] st2[j] == st[j] by {}
    let won1 = exists|j: int|
        #![trigger st[j]]
        in_chain(st, c, j) && st[j] is Terminal && persp(st[j]->Terminal_2, player, st[j]->Terminal_3) >= ONE;
    let won2 = exists|j: int|
        #![trigger st2[j]]
        in_chain(st2, c, j) && st2[j] is Terminal && persp(st2[j]->Terminal_2, player, st2[j]->Terminal_3)
            >= ONE;
    if won1 {
        let j = choose|j: int|
            #![trigger st[j]]
            in_chain(st, c, j) && st[j] is Terminal && persp(st[j]->Terminal_2, player, st[j]->Terminal_3)
                >= ONE;
        assert(in_chain(st2, c, j) && st2[j] == st[j]);
    }
    if won2 {
        let j = choose|j: int|
            #![trigger st2[j]]
            in_chain(st2, c, j) && st2[j] is Terminal && persp(st2[j]->Terminal_2, player, st2[j]->Terminal_3)
                >= ONE;
        assert(in_chain(st, c, j) && st2[j] == st[j]);
    }
    assert(won1 == won2);
    let lost1 = forall|j: int|
        #![trigger st[j]]
        in_chain(st, c, j) ==> st[j] is Terminal && persp(st[j]->Terminal_2, player, st[j]->Terminal_3) <= 0;
    let lost2 = forall|j: int|
        #![trigger st2[j]]
        in_chain(st2, c, j) ==> st2[j] is Terminal && persp(st2[j]->Terminal_2, player, st2[j]->Terminal_3)
            <= 0;
    if lost1 {
        assert forall|j: int| #![trigger st2[j]] in_chain(st2, c, j) implies st2[j] is Terminal && persp(
            st2[j]->Terminal_2,
            player,
            st2[j]->Terminal_3,
        ) <= 0 by {
            assert(in_chain(st, c, j) && st2[j] == st[j]);
        }
    }
    if lost2 {
        assert forall|j: int| #![trigger st[j]] in_chain(st, c, j) implies st[j] is Terminal && persp(
            st[j]->Terminal_2,
            player,
            st[j]->Terminal_3,
        ) <= 0 by {
            assert(in_chain(st2, c, j) && st2[j] == st[j]);
        }
    }
    assert(lost1 == lost2);
}

/// Child `j` is the first of the list at `c` that is proven with value `value` for
/// `player`.
pub open spec fn first_proven_child<P, A>(st: Seq<Node<P, A>>, c: int, player: P, value: u64, j: int) -> bool {
    &&& in_chain(st, c, j)
    &&& st[j] is Terminal
    &&& persp(st[j]->Terminal_2, player, st[j]->Terminal_3) == value
    &&& forall|k: int|
        #![trigger st[k]]
        in_chain(st, c, k) && k < j ==> !(st[k] is Terminal && persp(st[k]->Terminal_2, player, st[k]->Terminal_3)
            == value)
}

/// What a solved root's move `a` means for the root position `root`, where `p` moves
/// and the proven value is `w`: `a` is legal, and for a won root it leads to a position
/// `p` can force a win from, for a lost one to a position `p` cannot avoid losing.
pub open spec fn root_move_ok<P: Player, A: Action, S: GameState<P, A>>(root: S, a: A, p: P, w: u64) -> bool {
    &&& root.legal(a)
    &&& w == ONE ==> exists|d: nat| #[trigger] can_win::<P, A, S>(root.next(a), p, d)
    &&& w == 0 ==> exists|d: nat| #[trigger] must_lose::<P, A, S>(root.next(a), p, d)
}

/// Some depth within which every child of the list at `c` up to `k`, each a proven
/// loss for `p`, is lost for `p`.
proof fn lemma_chain_lost<P: Player, A: Action, S: GameState<P, A>>(
    st: Seq<Node<P, A>>,
    gs: Seq<S>,
    c: int,
    p: P,
    k: int,
) -> (d: nat)
    requires
        gs.len() == st.len(),
        forall|i: int| 0 <= i < st.len() ==> #[trigger] node_ok(st, gs, i),
        in_chain(st, c, k),
        forall|j: int|
            #![trigger st[j]]
            in_chain(st, c, j) ==> st[j] is Terminal && persp(st[j]->Terminal_2, p, st[j]->Terminal_3)
                <= 0,
    ensures
        forall|j: int| c <= j <= k ==> #[trigger] must_lose::<P, A, S>(gs[j], p, d),
    decreases k - c,
{
    assert(in_chain(st, c, k));
    assert(node_ok(st, gs, k));
    let pk = st[k]->Terminal_2;
    let wk = st[k]->Terminal_3;
    let dk: nat = if pk == p {
        choose|d: nat| #[trigger] must_lose::<P, A, S>(gs[k], p, d)
    } else {
        let d0 = choose|d: nat| #[trigger] can_win::<P, A, S>(gs[k], pk, d);
        lemma_flip::<P, A, S>(gs[k], p, pk, d0);
        d0
    };
    if k == c {
        dk
    } else {
        assert(in_chain(st, c, k - 1));
        let d0 = lemma_chain_lost::<P, A, S>(st, gs, c, p, k - 1);
        let d: nat = if d0 >= dk {
            d0
        } else {
            dk
        };
        assert forall|j: int| c <= j <= k implies #[trigger] must_lose::<P, A, S>(gs[j], p, d) by {
            if j < k {
                lemma_games_mono::<P, A, S>(gs[j], p, d0, d);
            } else {
                lemma_games_mono::<P, A, S>(gs[k], p, dk, d);
            }
        }
        d
    }
}

/// Every sibling list ends: some member has no next sibling.
proof fn lemma_chain_end<P, A>(st: Seq<Node<P, A>>, c: int) -> (k: int)
    requires
        0 <= c < st.len(),
        !st.last().sib(),
    ensures
        in_chain(st, c, k),
        !st[k].sib(),
    decreases st.len() - c,
{
    if !st[c].sib() {
        c
    } else {
        let k = lemma_chain_end(st, c + 1);
        assert forall|m: int| c <= m < k implies (#[trigger] st[m]).sib() by {
            if m > c {
                assert(in_chain(st, c + 1, k));
            }
        }
        k
    }
}

/// A sibling list that decides its branch gives the branch's true value: a child
/// proven lost for the other side (or won for the branch's side) makes a forced win,
/// every child proven lost for the branch's side a forced loss.
proof fn lemma_solved_sound<P: Player, A: Action, S: GameState<P, A>>(
    st: Seq<Node<P, A>>,
    gs: Seq<S>,
    i: int,
)
    requires
        gs.len() == st.len(),
        forall|k: int| 0 <= k < st.len() ==> #[trigger] node_ok(st, gs, k),
        0 <= i < st.len(),
        !st.last().sib(),
        st[i] is Branch,
    ensures
        spec_solved(st, st[i]->Branch_5 as int, st[i]->Branch_2) matches Some(v) ==> proven::<P, A, S>(
            gs[i],
            st[i]->Branch_2,
            v,
        ),
{
    let c = st[i]->Branch_5 as int;
    let p = st[i]->Branch_2;
    assert(node_ok(st, gs, i));
    if exists|j: int|
        #![trigger st[j]]
        in_chain(st, c, j) && st[j] is Terminal && persp(st[j]->Terminal_2, p, st[j]->Terminal_3)
            >= ONE {
        let j = choose|j: int|
            #![trigger st[j]]
            in_chain(st, c, j) && st[j] is Terminal && persp(st[j]->Terminal_2, p, st[j]->Terminal_3)
                >= ONE;
        assert(node_ok(st, gs, j));
        let pj = st[j]->Terminal_2;
        let a = st[j].act();
        let d: nat = if pj == p {
            choose|d: nat| #[trigger] can_win::<P, A, S>(gs[j], p, d)
        } else {
            let d0 = choose|d: nat| #[trigger] must_lose::<P, A, S>(gs[j], pj, d);
            lemma_flip::<P, A, S>(gs[j], p, pj, d0);
            d0
        };
        assert(gs[i].legal(a));
        lemma_equiv_games::<P, A, S>(gs[j], gs[i].next(a), p, d);
        assert(can_win::<P, A, S>(gs[i], p, d + 1));
    } else if forall|j: int|
        #![trigger st[j]]
        in_chain(st, c, j) ==> st[j] is Terminal && persp(st[j]->Terminal_2, p, st[j]->Terminal_3)
            <= 0 {
        let k = lemma_chain_end(st, c);
        let d = lemma_chain_lost::<P, A, S>(st, gs, c, p, k);
        assert forall|a: A| #[trigger] gs[i].legal(a) implies must_lose::<P, A, S>(gs[i].next(a), p, d) by {
            let j = choose|j: int| #[trigger] in_chain(st, c, j) && st[j].act() == a;
            if j > k {
                assert(st[k].sib());
            }
            assert(must_lose::<P, A, S>(gs[j], p, d));
            lemma_equiv_games::<P, A, S>(gs[j], gs[i].next(a), p, d);
        }
        assert(must_lose::<P, A, S>(gs[i], p, d + 1));
    }
}

/// What `ply` reports for a root child seen from `player`: a visited node's average
/// value `v` and the spread 1/(2n) + sqrt(v (1 - v) / n), all in millionths (the
/// square root rounded down); a proven value with spread 0; one half for both when the
/// child is unvisited.
pub open spec fn ply_ok<P, A>(node: Node<P, A>, player: P, e: (A, u64, u64)) -> bool {
    match node {
        Node::Leaf(_, a, p, w, n) => stats_ok(a, p, w, n, player, e),
        Node::Branch(_, a, p, w, n, _) => stats_ok(a, p, w, n, player, e),
        Node::Terminal(_, a, p, w) => e == (a, persp(p, player, w) as u64, 0u64),
        Node::Unknown(_, a) => e == (a, HALF, HALF),
        Node::Transpose(_, _, _) => false,
    }
}

pub open spec fn stats_ok<P, A>(a: A, p: P, w: u64, n: u32, player: P, e: (A, u64, u64)) -> bool {
    let v: int = if p == player {
        (w as int) / (n as int)
    } else {
        ONE - (w as int) / (n as int)
    };
    let q: int = v * (ONE - v) / (n as int);
    let s: int = e.2 - (HALF as int) / (n as int);
    &&& e.0 == a
    &&& e.1 == v
    &&& 0 <= s
    &&& s * s <= q < (s + 1) * (s + 1)
}

/// The statistics of a node are consistent: a proven value is at most one, and a
/// leaf or a branch has a visit and a value sum of at most one per visit.
pub open spec fn node_vals_ok<P, A>(x: Node<P, A>) -> bool {
    match x {
        Node::Terminal(_, _, _, w) => w <= ONE,
        Node::Leaf(_, _, _, w, n) => n >= 1 && w <= n * ONE,
        Node::Branch(_, _, _, w, n, _) => n >= 1 && w <= n * ONE,
        _ => true,
    }
}

/// The rank of a node as a candidate move of `player`, compared lexicographically:
/// tier (3 proven win, 2 proven other value, 1 unresolved, 0 proven loss), visits
/// (unresolved only), then value.
pub open spec fn rank<P, A>(node: Node<P, A>, player: P) -> (int, int, int) {
    match node {
        Node::Terminal(_, _, p, w) => {
            let v = persp(p, player, w);
            (
                if v >= ONE {
                    3
                } else if v <= 0 {
                    0
                } else {
                    2
                },
                0,
                v,
            )
        },
        Node::Leaf(_, _, p, w, n) => (1, n as int, if p == player {
            w as int
        } else {
            n * ONE - w
        }),
        Node::Branch(_, _, p, w, n, _) => (1, n as int, if p == player {
            w as int
        } else {
            n * ONE - w
        }),
        _ => (1, 0, 0),
    }
}

/// The rank of child `j` of `st`: a transposition ranks as the node it points at.
pub open spec fn rank_at<P, A>(st: Seq<Node<P, A>>, j: int, player: P) -> (int, int, int) {
    match st[j] {
        Node::Transpose(_, _, u) => rank(st[u as int], player),
        x => rank(x, player),
    }
}

/// `x` with its move replaced by `a`.
pub open spec fn relabel<P, A>(x: Node<P, A>, a: A) -> Node<P, A> {
    match x {
        Node::Unknown(s, _) => Node::Unknown(s, a),
        Node::Terminal(s, _, p, w) => Node::Terminal(s, a, p, w),
        Node::Leaf(s, _, p, w, n) => Node::Leaf(s, a, p, w, n),
        Node::Branch(s, _, p, w, n, c) => Node::Branch(s, a, p, w, n, c),
        Node::Transpose(s, _, u) => Node::Transpose(s, a, u),
    }
}

/// The entry `e` reports child `j` of `st` as `ply_ok` says; a transposition is
/// reported with its own move and the statistics of the node it points at.
pub open spec fn ply_ok_at<P, A>(st: Seq<Node<P, A>>, j: int, player: P, e: (A, u64, u64)) -> bool {
    match st[j] {
        Node::Transpose(_, a, u) => ply_ok(relabel(st[u as int], a), player, e),
        x => ply_ok(x, player, e),
    }
}

pub open spec fn outranks(x: (int, int, int), y: (int, int, int)) -> bool {
    x.0 > y.0 || (x.0 == y.0 && (x.1 > y.1 || (x.1 == y.1 && x.2 > y.2)))
}

/// `k` is the first child of the list at `c` that no child outranks.
pub open spec fn is_best_child<P, A>(st: Seq<Node<P, A>>, c: int, player: P, k: int) -> bool {
    &&& in_chain(st, c, k)
    &&& forall|j: int| #[trigger]
        in_chain(st, c, j) ==> !outranks(rank_at(st, j, player), rank_at(st, k, player))
    &&& forall|j: int| #[trigger]
        in_chain(st, c, j) && j < k ==> outranks(rank_at(st, k, player), rank_at(st, j, player))
}

/// All-moves-as-first statistics for `len` nodes, none of them credited yet.
pub(crate) fn fresh_rave(len: usize) -> (v: Vec<(u32, u64)>)
    ensures
        v.len() == len,
        forall|i: int| 0 <= i < len ==> #[trigger] v@[i] == (0u32, 0u64),
{
    let mut v: Vec<(u32, u64)> = Vec::new();
    let mut i: usize = 0;
    while i < len
        invariant
            i <= len,
            v.len() == i,
            forall|j: int| 0 <= j < i ==> #[trigger] v@[j] == (0u32, 0u64),
        decreases len - i,
    {
        v.push((0, 0));
        i = i + 1;
    }
    v
}

/// The number of visits at which a node's own average and its all-moves-as-first
/// average weigh the same in the RAVE blend.
pub const RAVE_EQUIVALENCE: u64 = 1000;

/// Whether `played` holds the move `a` by `player` at or after its `depth`-th entry.
pub open spec fn played_after<A, P>(played: Seq<(A, P)>, a: A, player: P, depth: int) -> bool {
    exists|k: int| depth <= k < played.len() && #[trigger] played[k] == (a, player)
}

/// The all-moves-as-first entry `e` of `node`, a child of a node where `player` moves,
/// after a descent that played `played` from its `depth`-th move on and returned `v`
/// for `player`: a leaf or a branch whose move `player` played there gains a visit and
/// the value for its own side (unless the entry is full); any other entry stays.
pub open spec fn credited<P, A>(
    e: (u32, u64),
    node: Node<P, A>,
    played: Seq<(A, P)>,
    depth: int,
    player: P,
    v: u64,
) -> (u32, u64) {
    let side = match node {
        Node::Leaf(_, _, p, _, _) => p,
        Node::Branch(_, _, p, _, _, _) => p,
        _ => player,
    };
    if (node is Leaf || node is Branch) && played_after(played, node.act(), player, depth) && e.0
        < u32::MAX && e.1 <= u64::MAX - ONE {
        ((e.0 + 1) as u32, (e.1 + (if side == player {
            v as int
        } else {
            ONE - v
        })) as u64)
    } else {
        e
    }
}

/// The average of a node holding `w` over `n` visits for side `p`, seen from `player`.
pub open spec fn average_for<P>(p: P, player: P, w: u64, n: u32) -> int {
    (if p == player {
        w as int
    } else {
        n * ONE - w
    }) / (n as int)
}

/// `r` is the integer square root of `x`.
pub open spec fn is_isqrt(x: int, r: int) -> bool {
    0 <= r && r * r <= x < (r + 1) * (r + 1)
}

/// The square of the RAVE weight of a node with `n` visits, in millionths squared:
/// `RAVE_EQUIVALENCE / (3n + RAVE_EQUIVALENCE)`.
pub open spec fn rave_weight_sq(n: int) -> int {
    (RAVE_EQUIVALENCE * ONE * ONE) as int / (3 * n + RAVE_EQUIVALENCE)
}

/// The all-moves-as-first average of `amaf` (visits, value sum for the node's side),
/// at most one, seen from the selecting side when `same` and from the other side
/// otherwise.
pub open spec fn amaf_value(amaf: (u32, u64), same: bool) -> int {
    let mean = (amaf.1 as int) / (amaf.0 as int);
    let ra = if mean > ONE {
        ONE as int
    } else {
        mean
    };
    if same {
        ra
    } else {
        ONE - ra
    }
}

/// `r` is the value `avg` of a node with `n` visits blended with its all-moves-as-first
/// average: `((1 - beta) * avg + beta * amaf_value) / 1`, in millionths, with `beta`
/// the integer square root of `rave_weight_sq(n)`.
pub open spec fn is_rave_blend(avg: int, n: int, amaf: (u32, u64), same: bool, r: int) -> bool {
    exists|beta: int|
        #[trigger] is_isqrt(rave_weight_sq(n), beta) && r == ((ONE - beta) * avg + beta * amaf_value(amaf, same))
            / (ONE as int)
}

/// `r` is the UCT exploration bonus `c * sqrt(ln(nt) / n)` in millionths, with the
/// logarithm `spec_ln` and the square root rounded down.
pub open spec fn is_uct_bonus(c: int, n: int, nt: int, r: int) -> bool {
    exists|k: nat|
        #![trigger spec_ln(nt as nat, k)]
        pow2(k) <= nt < 2 * pow2(k) && is_isqrt(c * c * spec_ln(nt as nat, k) / (ONE * n), r)
}

/// `r` is the PUCT exploration bonus `c * prior * sqrt(nt) / (1 + n)` in millionths,
/// rounded down at each step and capped at 2^62.
pub open spec fn is_puct_bonus(c: int, prior: int, n: int, nt: int, r: int) -> bool {
    exists|sq: int|
        #[trigger] is_isqrt(nt * ONE * ONE, sq) && r == ({
            let t = c * prior / (ONE as int) * sq / (ONE as int) / (n + 1);
            if t > 0x4000_0000_0000_0000 {
                0x4000_0000_0000_0000
            } else {
                t
            }
        })
}

/// The value `avg` of a node with `n` visits blended with its all-moves-as-first
/// statistics `amaf` (visits, value sum for the node's side, seen from the selecting
/// side when `same`): `(1 - beta) * avg + beta * amaf_average` with
/// `beta = sqrt(RAVE_EQUIVALENCE / (3n + RAVE_EQUIVALENCE))`.
fn rave_blend(avg: u64, n: u32, amaf: (u32, u64), same: bool) -> (r: u64)
    requires
        avg <= ONE,
        amaf.0 > 0,
    ensures
        r <= ONE,
        is_rave_blend(avg as int, n as int, amaf, same, r as int),
{
    let (rn, rw) = amaf;
    let mean = rw / (rn as u64);
    let ra = if mean > ONE {
        ONE
    } else {
        mean
    };
    let rq = if same {
        ra
    } else {
        ONE - ra
    };
    let k = RAVE_EQUIVALENCE as u128;
    let one = ONE as u128;
    let d = 3 * (n as u128) + k;
    let x = k * one * one / d;
    assert(x <= one * one) by (nonlinear_arith)
        requires
            x as int == (k as int) * (one as int) * (one as int) / (d as int),
            d >= k,
            k > 0,
    {
        assert((k as int) * (one as int) * (one as int) <= (d as int) * ((one as int) * (one as int)));
    }
    let beta = isqrt(x);
    assert(beta <= ONE) by (nonlinear_arith)
        requires
            beta * beta <= x,
            x <= one * one,
            one == ONE,
    {
    }
    assert((ONE - beta) * avg + beta * rq <= ONE * ONE) by (nonlinear_arith)
        requires
            beta <= ONE,
            avg <= ONE,
            rq <= ONE,
    {
        assert((ONE - beta) * avg <= (ONE - beta) * ONE);
        assert(beta * rq <= beta * ONE);
    }
    let mixed = (ONE - beta) * avg + beta * rq;
    assert(rq as int == amaf_value(amaf, same));
    assert(is_isqrt(rave_weight_sq(n as int), beta as int));
    mixed / ONE
}

/// The UCT exploration bonus `c * sqrt(ln(nt) / n)` of a node with `n` visits under a
/// parent with `nt`, `c` and the result in millionths.
fn uct_bonus(c: u32, n: u32, nt: u32) -> (r: u64)
    requires
        n >= 1,
        nt >= 1,
    ensures
        r < 0x2000_0000_0000,
        is_uct_bonus(c as int, n as int, nt as int, r as int),
{
    let ln = ln_fixed(nt) as u128;
    let cc = c as u128;
    assert(cc * cc <= 0xffff_ffff_ffff_ffff) by (nonlinear_arith)
        requires
            cc <= 0xffff_ffff,
    {
    }
    assert(cc * cc * ln <= 0xffff_ffff_ffff_ffff * 23_000_000) by (nonlinear_arith)
        requires
            cc * cc <= 0xffff_ffff_ffff_ffff,
            ln <= 23_000_000,
    {
    }
    assert(1 <= (ONE as u128) * (n as u128) <= 1_000_000 * 0xffff_ffff) by (nonlinear_arith)
        requires
            1 <= n <= 0xffff_ffff,
    {
    }
    let x = cc * cc * ln / ((ONE as u128) * (n as u128));
    let e = isqrt(x);
    assert(e < 0x2000_0000_0000) by (nonlinear_arith)
        requires
            e * e <= x,
            x <= 0xffff_ffff_ffff_ffff * 23_000_000,
    {
    }
    proof {
        let k = choose|k: nat| pow2(k) <= nt < 2 * pow2(k) && ln == spec_ln(nt as nat, k);
        let ci = c as int;
        let ni = n as int;
        let nti = nt as int;
        assert(x as int == ci * ci * spec_ln(nti as nat, k) / (ONE * ni));
        assert(is_isqrt(ci * ci * spec_ln(nti as nat, k) / (ONE * ni), e as int));
        assert(is_uct_bonus(ci, ni, nti, e as int));
    }
    e
}

/// The PUCT exploration bonus `c * prior * sqrt(nt) / (1 + n)` of a node with `n`
/// visits under a parent with `nt`, `c`, `prior` and the result in millionths, at most
/// 2^62.
fn puct_bonus(c: u32, prior: u64, n: u32, nt: u32) -> (r: u64)
    ensures
        r <= 0x4000_0000_0000_0000,
        is_puct_bonus(c as int, prior as int, n as int, nt as int, r as int),
{
    let one = ONE as u128;
    let x = (nt as u128) * one * one;
    let sq = isqrt(x) as u128;
    assert(sq < 0x10_0000_0000) by (nonlinear_arith)
        requires
            sq * sq <= x,
            x == (nt as u128) * one * one,
            nt <= 0xffff_ffff,
            one == 1_000_000,
    {
    }
    assert((c as u128) * (prior as u128) <= 0xffff_ffff * 0xffff_ffff_ffff_ffff) by (nonlinear_arith)
        requires
            c <= 0xffff_ffff,
            prior <= 0xffff_ffff_ffff_ffff,
    {
    }
    let cp = (c as u128) * (prior as u128);
    let t1 = cp / one;
    assert(t1 < 0x10_0000_0000_0000_0000_0000) by (nonlinear_arith)
        requires
            t1 == cp / one,
            cp <= 0xffff_ffff * 0xffff_ffff_ffff_ffff,
            one == 1_000_000,
    {
    }
    assert(t1 * sq < 0x10_0000_0000_0000_0000_0000 * 0x10_0000_0000) by (nonlinear_arith)
        requires
            t1 < 0x10_0000_0000_0000_0000_0000,
            sq < 0x10_0000_0000,
    {
    }
    let t2 = t1 * sq / one;
    let t3 = t2 / ((n as u128) + 1);
    assert(is_isqrt(nt * ONE * ONE, sq as int));
    if t3 > 0x4000_0000_0000_0000 {
        0x4000_0000_0000_0000
    } else {
        t3 as u64
    }
}

impl<P: Player, A: Action, S: GameState<P, A>> MCTS<P, A, S> {
    /// `value` is the exploitation part of a selection score: the average `avg` for
    /// the selecting side, blended with the all-moves-as-first statistics `amaf` (seen
    /// from the selecting side when `p == player`) while RAVE is on and `amaf` has
    /// visits.
    pub open spec fn value_ok(&self, avg: int, n: u32, amaf: (u32, u64), p: P, player: P, value: int) -> bool {
        if self.use_rave && amaf.0 > 0 {
            is_rave_blend(avg, n as int, amaf, p == player, value)
        } else {
            value == avg
        }
    }

    /// `bonus` is the exploration part of a selection score: the PUCT bonus with
    /// `prior` under PUCT, the UCT bonus otherwise.
    pub open spec fn bonus_ok(&self, n: u32, nt: u32, prior: u64, bonus: int) -> bool {
        if self.use_puct {
            is_puct_bonus(self.exploration as int, prior as int, n as int, nt as int, bonus)
        } else {
            is_uct_bonus(self.exploration as int, n as int, nt as int, bonus)
        }
    }

    /// `r` is the selection score of a visited node holding `w` over `n` visits for
    /// side `p`, seen from `player`, under a parent with `nt` visits, with
    /// all-moves-as-first statistics `amaf` and move prior `prior`: its value part
    /// plus its exploration part.
    pub open spec fn is_score(
        &self,
        p: P,
        player: P,
        w: u64,
        n: u32,
        nt: u32,
        amaf: (u32, u64),
        prior: u64,
        r: int,
    ) -> bool {
        let avg = average_for(p, player, w, n);
        exists|value: int, bonus: int|
            #[trigger] self.value_ok(avg, n, amaf, p, player, value) && #[trigger] self.bonus_ok(n, nt, prior, bonus)
                && r == value + bonus
    }

    /// `pr` is the prior weight of move `a` from `state`: a result of the game's
    /// `policy` under PUCT, one otherwise.
    pub open spec fn prior_ok(&self, state: &S, a: A, pr: u64) -> bool {
        if self.use_puct {
            call_ensures(S::policy, (state, a), pr)
        } else {
            pr == ONE
        }
    }

    /// `r` is the selection score of a visited node with move `a` holding `w` over `n`
    /// visits for side `p` (see `is_score`), with some prior weight of `a`.
    pub open spec fn stats_score_ok(
        &self,
        state: &S,
        a: A,
        p: P,
        w: u64,
        n: u32,
        nt: u32,
        player: P,
        amaf: (u32, u64),
        r: int,
    ) -> bool {
        exists|pr: u64| #[trigger] self.prior_ok(state, a, pr) && self.is_score(p, player, w, n, nt, amaf, pr, r)
    }

    /// The all-moves-as-first statistics the score of node `i` uses.
    pub open spec fn amaf_at(&self, i: int) -> (u32, u64) {
        if self.use_rave {
            self.rave@[i]
        } else {
            (0u32, 0u64)
        }
    }

    /// `r` is the selection score of node `i`, a child of a node at position `state`
    /// where `player` moves and which has `nt` visits: the highest score for an
    /// unvisited node; the value for `player` for a proven one; `stats_score_ok` for a
    /// leaf or a branch; for a transposition, the same from the statistics of the node
    /// it points at, with its own move's prior and no all-moves-as-first blend.
    pub open spec fn score_ok(&self, state: &S, i: int, player: P, nt: u32, r: int) -> bool {
        match self.stack@[i] {
            Node::Terminal(_, _, p, w) => r == persp(p, player, w),
            Node::Unknown(_, _) => r == u64::MAX,
            Node::Leaf(_, a, p, w, n) => self.stats_score_ok(state, a, p, w, n, nt, player, self.amaf_at(i), r),
            Node::Branch(_, a, p, w, n, _) => self.stats_score_ok(state, a, p, w, n, nt, player, self.amaf_at(i), r),
            Node::Transpose(_, a, u) => match self.stack@[u as int] {
                Node::Terminal(_, _, p, w) => r == persp(p, player, w),
                Node::Unknown(_, _) => r == u64::MAX,
                Node::Leaf(_, _, p, w, n) => self.stats_score_ok(state, a, p, w, n, nt, player, (0u32, 0u64), r),
                Node::Branch(_, _, p, w, n, _) => self.stats_score_ok(state, a, p, w, n, nt, player, (0u32, 0u64), r),
                Node::Transpose(_, _, _) => false,
            },
        }
    }

    /// While the root is an unsolved branch, `info` holds its visits and its average
    /// value for the side to move there.
    pub open spec fn info_matches_root(&self) -> bool {
        self.stack.len() > 0 && self.stack@[0] is Branch ==> {
            &&& self.info.n == self.stack@[0]->Branch_4
            &&& self.info.q as int == (self.stack@[0]->Branch_3 as int) / (self.stack@[0]->Branch_4 as int)
        }
    }

    /// Child `j` of the list at `c`, under a node at position `state` where `player`
    /// moves and which has `nt` visits, has the highest selection score of the list:
    /// there are scores `sc` of the whole list, in order, as `score_ok` gives them, and
    /// none exceeds `j`'s.
    pub open spec fn best_scored(&self, state: &S, c: int, player: P, nt: u32, j: int) -> bool {
        exists|sc: Seq<u64>|
            {
                &&& sc.len() > 0
                &&& !in_chain(self.stack@, c, c + sc.len())
                &&& forall|k: int|
                    0 <= k < sc.len() ==> in_chain(self.stack@, c, c + k) && self.score_ok(
                        state,
                        c + k,
                        player,
                        nt,
                        #[trigger] sc[k] as int,
                    )
                &&& c <= j < c + sc.len()
                &&& forall|k: int| 0 <= k < sc.len() ==> #[trigger] sc[k] <= sc[j - c]
            }
    }

    /// The root is expanded or solved, or there is no tree yet.
    pub open spec fn root_expanded(&self) -> bool {
        self.stack.len() > 0 ==> (self.stack@[0] is Branch || self.stack@[0] is Terminal)
    }

    /// The invariant of the search tree.
    pub open spec fn wf(&self) -> bool {
        let st = self.stack@;
        let gs = self.states@;
        &&& gs.len() == st.len()
        &&& st.len() > 0 ==> (!st.last().sib() && gs[0] == self.root)
        &&& self.use_transposition ==> S::key_identifies()
        &&& st.len() > 0 ==> !(st[0] is Unknown) && !(st[0] is Transpose)
        &&& st.len() > 0 ==> (st[0] matches Node::Terminal(_, a, p, w) ==> root_move_ok::<P, A, S>(
            self.root,
            a,
            p,
            w,
        ))
        &&& !self.use_transposition ==> forall|i: int| 0 <= i < st.len() ==> !(#[trigger] st[i] is Transpose)
        &&& self.use_rave ==> self.rave.len() == st.len()
        &&& self.use_rave ==> forall|i: int|
            0 <= i < st.len() && (st[i] is Unknown || st[i] is Transpose) ==> #[trigger] self.rave@[i]
                == (0u32, 0u64)
        &&& forall|i: int| 0 <= i < st.len() ==> #[trigger] node_ok(st, gs, i)
        &&& self.info.unknown == count_kind(st, 0)
        &&& self.info.terminal == count_kind(st, 1)
        &&& self.info.leaf == count_kind(st, 2)
        &&& self.info.branch == count_kind(st, 3)
        &&& self.info.transpose == count_kind(st, 4)
        &&& forall|h: u64|
            #[trigger] self.map@.contains_key(h) ==> {
                &&& self.map@[h] < st.len()
                &&& gs[self.map@[h] as int].key() == h
                &&& st[self.map@[h] as int].is_target()
            }
    }

    /// Every node counts under exactly one kind, so the kind counts of `info` add up to
    /// the length of the stack.
    pub proof fn lemma_info_counts(&self)
        requires
            self.wf(),
        ensures
            self.info.branch + self.info.leaf + self.info.terminal + self.info.unknown
                + self.info.transpose == self.stack.len(),
    {
        lemma_count_total(self.stack@);
    }

    /// While RAVE is on, all-moves-as-first statistics are gathered by visited nodes
    /// only: an unvisited node or a transposition never holds any credit, even when its
    /// move is played in a descent.
    pub proof fn lemma_rave_only_visited(&self, i: int)
        requires
            self.wf(),
            self.use_rave,
            0 <= i < self.stack.len(),
            self.stack@[i] is Unknown || self.stack@[i] is Transpose,
        ensures
            self.rave@[i] == (0u32, 0u64),
    {
    }

    /// What `best` and `ply` read is well formed: the root's children form a list that
    /// ends, each holds consistent statistics, and a transposition among them points
    /// at a visited or proven node with consistent statistics.
    pub open spec fn root_readable(&self) -> bool {
        let st = self.stack@;
        &&& st.len() > 0 ==> !st.last().sib()
        &&& st.len() > 0 && st[0] is Branch ==> {
            let c = st[0]->Branch_5 as int;
            &&& 0 < c < st.len()
            &&& forall|j: int|
                #[trigger] in_chain(st, c, j) ==> node_vals_ok(st[j]) && (st[j] matches Node::Transpose(
                    _,
                    _,
                    u,
                ) ==> u < st.len() && st[u as int].is_target() && node_vals_ok(st[u as int]))
        }
    }

    /// Every search tree can be read by `best` and `ply`.
    pub proof fn lemma_root_readable(&self)
        requires
            self.wf(),
        ensures
            self.root_readable(),
    {
        let st = self.stack@;
        if st.len() > 0 && st[0] is Branch {
            assert(node_ok(st, self.states@, 0));
            let c = st[0]->Branch_5 as int;
            assert forall|j: int| #[trigger] in_chain(st, c, j) implies node_vals_ok(st[j]) && (
            st[j] matches Node::Transpose(_, _, u) ==> u < st.len() && st[u as int].is_target()
                && node_vals_ok(st[u as int])) by {
                assert(node_ok(st, self.states@, j));
                if let Node::Transpose(_, _, u) = st[j] {
                    assert(node_ok(st, self.states@, u as int));
                }
            }
        }
    }

    /// A proven value is the game's true value: where the tree holds a node as proven
    /// won (or lost) for the side to move there, that side can force a win (or cannot
    /// avoid a loss) whatever the other side plays. Node 0 stands for the root, so a
    /// solved root gives the true result of the root position.
    pub proof fn lemma_proven_values(&self, i: int)
        requires
            self.wf(),
            0 <= i < self.stack.len(),
        ensures
            self.stack@[i] matches Node::Terminal(_, _, p, w) ==> p == self.states@[i].mover()
                && proven::<P, A, S>(self.states@[i], p, w),
            self.states@[0] == self.root,
    {
        assert(node_ok(self.stack@, self.states@, i));
    }

    /// Every child of an expanded node stands for the position its move, a legal one,
    /// leads to from the node's position, and every legal move there has a child; a
    /// transposition stands for a position the search may treat as the one it points
    /// at.
    pub proof fn lemma_children_follow_moves(&self, i: int, j: int)
        requires
            self.wf(),
            0 <= i < self.stack.len(),
        ensures
            self.stack@[i] matches Node::Branch(_, _, _, _, _, c) && in_chain(self.stack@, c as int, j)
                ==> self.states@[i].legal(self.stack@[j].act()) && equiv::<P, A, S>(
                self.states@[j],
                self.states@[i].next(self.stack@[j].act()),
            ),
            self.stack@[i] matches Node::Branch(_, _, _, _, _, c) ==> forall|a: A|
                #[trigger] self.states@[i].legal(a) ==> exists|k: int|
                    #[trigger] in_chain(self.stack@, c as int, k) && self.stack@[k].act() == a,
            self.stack@[i] matches Node::Transpose(_, _, u) ==> equiv::<P, A, S>(
                self.states@[i],
                self.states@[u as int],
            ),
            self.stack.len() > 0 ==> self.states@[0] == self.root,
    {
        assert(node_ok(self.stack@, self.states@, i));
    }

    /// The fields of `self` and `other` other than the random generator agree.
    pub open spec fn same_but_rand(&self, other: &Self) -> bool {
        &&& self.exploration == other.exploration
        &&& self.expansion == other.expansion
        &&& self.use_custom_evaluation == other.use_custom_evaluation
        &&& self.use_transposition == other.use_transposition
        &&& self.use_rave == other.use_rave
        &&& self.use_puct == other.use_puct
        &&& self.info == other.info
        &&& self.root == other.root
        &&& self.stack@ == other.stack@
        &&& self.map@ == other.map@
        &&& self.rave@ == other.rave@
        &&& self.states@ == other.states@
    }

    /// The settings and the root are those of `other`, and the tree only grew.
    pub open spec fn grown_from(&self, other: &Self) -> bool {
        &&& self.exploration == other.exploration
        &&& self.expansion == other.expansion
        &&& self.use_custom_evaluation == other.use_custom_evaluation
        &&& self.use_transposition == other.use_transposition
        &&& self.use_rave == other.use_rave
        &&& self.use_puct == other.use_puct
        &&& self.root == other.root
        &&& stack_grows(other.stack@, other.states@, self.stack@, self.states@)
    }

    /// What `best` returns.
    pub open spec fn spec_best(&self) -> Option<A> {
        let st = self.stack@;
        if st.len() == 0 {
            None
        } else {
            match st[0] {
                Node::Terminal(_, a, _, _) => Some(a),
                Node::Branch(_, _, player, _, _, c) => Some(
                    st[choose|k: int| is_best_child(st, c as int, player, k)].act(),
                ),
                _ => None,
            }
        }
    }

    /// A new search from `root` with default settings and an empty tree.
    pub fn new(root: S) -> (r: Self)
        ensures
            r.wf(),
            r.root == root,
            r.stack.len() == 0,
            r.exploration == DEFAULT_EXPLORATION,
            r.expansion == 0,
            !r.use_custom_evaluation,
            !r.use_transposition,
            !r.use_rave,
            !r.use_puct,
            r.root_expanded(),
            r.info == (Info { n: 0, q: 0, branch: 0, leaf: 0, terminal: 0, unknown: 0, transpose: 0, bytes: 0 }),
            r.rave.len() == 0,
            r.played.len() == 0,
            r.map@.is_empty(),
    {
        let seed: [u8; 16] = [0, 1, 2, 3, 4, 5, 6, 7, 8, 9, 10, 11, 12, 13, 14, 15];
        let r = MCTS {
            exploration: DEFAULT_EXPLORATION,
            expansion: 0,
            use_custom_evaluation: false,
            use_transposition: false,
            use_rave: false,
            use_puct: false,
            info: Info {
                n: 0,
                q: 0,
                branch: 0,
                leaf: 0,
                terminal: 0,
                unknown: 0,
                transpose: 0,
                bytes: 0,
            },
            root: root,
            stack: Vec::new(),
            rand: xorshift_from_seed(seed),
            map: HashMap::new(),
            rave: Vec::new(),
            played: Vec::new(),
            states: Ghost(Seq::empty()),
        };
        assert(r.map@.dom() =~= Set::empty());
        r
    }

    /// The move to play from the root after pondering: `None` before any search, or
    /// when the root's game is already over; the proven move of a solved root;
    /// otherwise the first child of the root that no other child outranks (a proven
    /// win, then a proven draw or other proven value, then the most-visited
    /// unresolved child with its average as tiebreak, then a proven loss). A child
    /// that is a transposition ranks as the node it points at.
    pub fn best(&self) -> (r: Option<A>)
        requires
            self.root_readable(),
        ensures
            r == self.spec_best(),
            self.wf() && self.stack.len() > 0 && self.stack@[0] is Terminal ==> r == Some(
                self.stack@[0]->Terminal_1,
            ) && root_move_ok::<P, A, S>(
                self.root,
                self.stack@[0]->Terminal_1,
                self.stack@[0]->Terminal_2,
                self.stack@[0]->Terminal_3,
            ),
    {
        if self.stack.len() == 0 {
            return None;
        }
        let (player, c) = match self.stack[0] {
            Node::Branch(_, _, player, _, _, c) => (player, c),
            Node::Terminal(_, a, _, _) => return Some(a),
            _ => return None,
        };
        let ghost st = self.stack@;
        assert(in_chain(st, c as int, c as int));
        let mut u: usize = c;
        let mut bi: usize = c;
        let (mut best_tier, mut best_n, mut best_v) = self.rank_of(c, player);
        loop
            invariant
                self.root_readable(),
                st == self.stack@,
                st[0] matches Node::Branch(_, _, pl, _, _, cc) && pl == player && cc == c,
                c <= bi <= u,
                in_chain(st, c as int, u as int),
                in_chain(st, c as int, bi as int),
                (best_tier as int, best_n as int, best_v as int) == rank_at(st, bi as int, player),
                forall|j: int|
                    #![trigger st[j]]
                    c <= j <= u ==> !outranks(rank_at(st, j, player), rank_at(st, bi as int, player)),
                forall|j: int|
                    #![trigger st[j]]
                    c <= j < bi ==> outranks(rank_at(st, bi as int, player), rank_at(st, j, player)),
            ensures
                !st[u as int].sib(),
                in_chain(st, c as int, u as int),
                in_chain(st, c as int, bi as int),
                forall|j: int|
                    #![trigger st[j]]
                    c <= j <= u ==> !outranks(rank_at(st, j, player), rank_at(st, bi as int, player)),
                forall|j: int|
                    #![trigger st[j]]
                    c <= j < bi ==> outranks(rank_at(st, bi as int, player), rank_at(st, j, player)),
            decreases st.len() - u,
        {
            if !self.sibling_flag(u) {
                break ;
            }
            assert(u + 1 < self.stack.len());
            u = u + 1;
            assert(in_chain(st, c as int, u as int));
            let (tier, n, v) = self.rank_of(u, player);
            let better = if tier != best_tier {
                tier > best_tier
            } else if tier == 1 {
                n > best_n || (n == best_n && v > best_v)
            } else {
                v > best_v
            };
            if better {
                let ghost old_bi = bi;
                bi = u;
                best_tier = tier;
                best_n = n;
                best_v = v;
                assert forall|j: int| #![trigger st[j]] c <= j < bi implies outranks(
                    rank_at(st, bi as int, player),
                    rank_at(st, j, player),
                ) by {
                    assert(!outranks(rank_at(st, j, player), rank_at(st, old_bi as int, player)));
                }
            }
        }
        assert forall|j: int| #[trigger] in_chain(st, c as int, j) implies j <= u by {
            if j > u {
                assert(st[u as int].sib());
            }
        }
        assert(is_best_child(st, c as int, player, bi as int));
        assert forall|k: int| is_best_child(st, c as int, player, k) implies k == bi by {
            if k < bi {
                assert(outranks(rank_at(st, bi as int, player), rank_at(st, k, player)));
            } else if k > bi {
                assert(outranks(rank_at(st, k, player), rank_at(st, bi as int, player)));
            }
        }
        Some(self.action_of(bi))
    }

    /// The moves of the first ply with their estimated value and spread (see
    /// `ply_ok_at`), in the order of the root's children; nothing before the root is
    /// expanded or once it is solved. A child that is a transposition is reported with
    /// its own move and the statistics of the node it points at.
    pub fn ply(&self) -> (r: Vec<(A, u64, u64)>)
        requires
            self.root_readable(),
        ensures
            self.stack.len() > 0 && self.stack@[0] is Branch ==> {
                let c = self.stack@[0]->Branch_5 as int;
                let player = self.stack@[0]->Branch_2;
                &&& forall|i: int|
                    0 <= i < r.len() ==> in_chain(self.stack@, c, c + i) && ply_ok_at(
                        self.stack@,
                        c + i,
                        player,
                        #[trigger] r@[i],
                    )
                &&& r.len() >= 1
                &&& !in_chain(self.stack@, c, c + r.len())
            },
            self.stack.len() == 0 || !(self.stack@[0] is Branch) ==> r.len() == 0,
    {
        let mut out: Vec<(A, u64, u64)> = Vec::new();
        if self.stack.len() == 0 {
            return out;
        }
        let (player, c) = match self.stack[0] {
            Node::Branch(_, _, player, _, _, c) => (player, c),
            _ => return out,
        };
        let ghost st = self.stack@;
        assert(in_chain(st, c as int, c as int));
        let mut u: usize = c;
        loop
            invariant_except_break
                u == c + out.len(),
            invariant
                self.root_readable(),
                st == self.stack@,
                st[0] matches Node::Branch(_, _, pl, _, _, cc) && pl == player && cc == c,
                c <= u,
                in_chain(st, c as int, u as int),
                forall|i: int|
                    0 <= i < out.len() ==> in_chain(st, c as int, c + i) && ply_ok_at(
                        st,
                        c + i,
                        player,
                        #[trigger] out@[i],
                    ),
            ensures
                out.len() >= 1,
                in_chain(st, c as int, c + out.len() - 1),
                !st[c + out.len() - 1].sib(),
                forall|i: int|
                    0 <= i < out.len() ==> in_chain(st, c as int, c + i) && ply_ok_at(
                        st,
                        c + i,
                        player,
                        #[trigger] out@[i],
                    ),
            decreases st.len() - u,
        {
            let entry: (A, u64, u64) = match self.stack[u] {
                Node::Transpose(_, a, t) => self.entry_of(t, a, player),
                _ => self.entry_of(u, self.action_of(u), player),
            };
            out.push(entry);
            if !self.sibling_flag(u) {
                break ;
            }
            assert(u + 1 < self.stack.len());
            u = u + 1;
            assert(in_chain(st, c as int, u as int));
        }
        proof {
            let k = c + out.len();
            if in_chain(st, c as int, k) {
                assert(st[k - 1].sib());
            }
        }
        out
    }

    /// The first-ply entry of node `t`, reported under the move `a`.
    fn entry_of(&self, t: usize, a: A, player: P) -> (e: (A, u64, u64))
        requires
            t < self.stack.len(),
            node_vals_ok(self.stack@[t as int]),
            !(self.stack@[t as int] is Transpose),
        ensures
            ply_ok(relabel(self.stack@[t as int], a), player, e),
    {
        match self.stack[t] {
            Node::Leaf(_, _, p, w, n) => self.stats_entry(a, p, w, n, player),
            Node::Branch(_, _, p, w, n, _) => self.stats_entry(a, p, w, n, player),
            Node::Terminal(_, _, p, w) => {
                let v = if p.same(&player) {
                    w
                } else {
                    ONE - w
                };
                (a, v, 0)
            },
            Node::Unknown(_, _) => (a, HALF, HALF),
            Node::Transpose(_, _, _) => (a, HALF, HALF),
        }
    }

    fn stats_entry(&self, a: A, p: P, w: u64, n: u32, player: P) -> (e: (A, u64, u64))
        requires
            n >= 1,
            w <= n * ONE,
        ensures
            stats_ok(a, p, w, n, player, e),
    {
        let avg = w / (n as u64);
        assert(avg <= ONE) by (nonlinear_arith)
            requires
                avg == w / (n as u64),
                n >= 1,
                w <= n * ONE,
        {
        }
        let v = if p.same(&player) {
            avg
        } else {
            ONE - avg
        };
        assert(v * (ONE - v) <= ONE * ONE) by (nonlinear_arith)
            requires
                v <= ONE,
        {
        }
        let q = v * (ONE - v) / (n as u64);
        let s = isqrt(q as u128);
        assert(s <= ONE) by (nonlinear_arith)
            requires
                s * s <= q,
                q <= ONE * ONE,
        {
        }
        (a, v, HALF / (n as u64) + s)
    }

    /// Replaces the node at `index` by `x`, keeping the kind counts.
    #[verifier::rlimit(40)]
    fn set_node(&mut self, index: usize, x: Node<P, A>)
        requires
            old(self).wf(),
            index < old(self).stack.len(),
            x.sib() == old(self).stack@[index as int].sib(),
            index > 0 ==> x.act() == old(self).stack@[index as int].act(),
            old(self).stack@[index as int].is_target() ==> x.is_target(),
            node_ok_for(old(self).stack@, old(self).states@, index as int, x),
            old(self).use_rave && (x is Unknown || x is Transpose) ==> old(self).rave@[index as int]
                == (0u32, 0u64),
            x is Transpose ==> old(self).use_transposition,
            kind_step(old(self).stack@[index as int], x),
            index == 0 ==> (x matches Node::Terminal(_, a, p, w) ==> root_move_ok::<P, A, S>(
                old(self).root,
                a,
                p,
                w,
            )),
        ensures
            final(self).wf(),
            final(self).grown_from(old(self)),
            final(self).stack@ == old(self).stack@.update(index as int, x),
            final(self).states@ == old(self).states@,
            final(self).map@ == old(self).map@,
            final(self).info.n == old(self).info.n,
            final(self).info.q == old(self).info.q,
            final(self).info.bytes == old(self).info.bytes,
    {
        let ghost st = self.stack@;
        let ghost gs = self.states@;
        let k_old = kind_code(&self.stack[index]);
        let k_new = kind_code(&x);
        self.stack.set(index, x);
        let ghost st2 = self.stack@;
        assert(st2 =~= st.update(index as int, x));
        proof {
            lemma_count_update(st, index as int, x, k_old as int);
            lemma_count_update(st, index as int, x, k_new as int);
            lemma_count_bound(st2, k_new as int);
        }
        if k_old != k_new {
            if k_old == 0 {
                self.info.unknown = self.info.unknown - 1;
            } else if k_old == 1 {
                self.info.terminal = self.info.terminal - 1;
            } else if k_old == 2 {
                self.info.leaf = self.info.leaf - 1;
            } else if k_old == 3 {
                self.info.branch = self.info.branch - 1;
            } else {
                self.info.transpose = self.info.transpose - 1;
            }
            if k_new == 0 {
                self.info.unknown = self.info.unknown + 1;
            } else if k_new == 1 {
                self.info.terminal = self.info.terminal + 1;
            } else if k_new == 2 {
                self.info.leaf = self.info.leaf + 1;
            } else if k_new == 3 {
                self.info.branch = self.info.branch + 1;
            } else {
                self.info.transpose = self.info.transpose + 1;
            }
        }
        proof {
            assert forall|k: int| 0 <= k < 5 && k != k_old && k != k_new implies count_kind(st2, k)
                == count_kind(st, k) by {
                lemma_count_update(st, index as int, x, k);
            }
            lemma_update_nodes_ok(st, gs, index as int, x);
        }
    }

    /// Appends one unvisited child for each of `acts`, played from `state`; the last
    /// has no next sibling.
    fn push_children(&mut self, state: &S, acts: &Vec<A>)
        requires
            old(self).wf(),
            old(self).stack.len() > 0,
            acts.len() > 0,
            forall|i: int| 0 <= i < acts.len() ==> state.legal(#[trigger] acts@[i]),
        ensures
            final(self).wf(),
            final(self).grown_from(old(self)),
            final(self).stack.len() == old(self).stack.len() + acts.len(),
            forall|j: int|
                0 <= j < old(self).stack.len() ==> #[trigger] final(self).stack@[j]
                    == old(self).stack@[j],
            forall|j: int|
                0 <= j < acts.len() ==> #[trigger] final(self).stack@[old(self).stack.len() + j]
                    == Node::<P, A>::Unknown(j + 1 < acts.len(), acts@[j])
                    && final(self).states@[old(self).stack.len() + j] == state.next(acts@[j]),
            final(self).map@ == old(self).map@,
            final(self).info.n == old(self).info.n,
            final(self).info.q == old(self).info.q,
            final(self).info.bytes == old(self).info.bytes,
    {
        let ghost st0 = self.stack@;
        let ghost gs0 = self.states@;
        let c = self.stack.len();
        let k = acts.len();
        let mut i: usize = 0;
        while i < k
            invariant
                0 <= i <= k,
                k == acts.len(),
                c == st0.len(),
                c > 0,
                self.stack@.len() == c + i,
                self.states@.len() == c + i,
                forall|j: int| 0 <= j < c ==> #[trigger] self.stack@[j] == st0[j],
                forall|j: int| 0 <= j < c ==> #[trigger] self.states@[j] == gs0[j],
                forall|j: int|
                    0 <= j < i ==> #[trigger] self.stack@[c + j] == Node::<P, A>::Unknown(
                        j + 1 < k,
                        acts@[j],
                    ) && self.states@[c + j] == state.next(acts@[j]),
                self.info.unknown == count_kind(self.stack@, 0),
                self.info.terminal == count_kind(self.stack@, 1),
                self.info.leaf == count_kind(self.stack@, 2),
                self.info.branch == count_kind(self.stack@, 3),
                self.info.transpose == count_kind(self.stack@, 4),
                self.info.n == old(self).info.n,
                self.info.q == old(self).info.q,
                self.info.bytes == old(self).info.bytes,
                self.map@ == old(self).map@,
                self.root == old(self).root,
                self.exploration == old(self).exploration,
                self.expansion == old(self).expansion,
                self.use_custom_evaluation == old(self).use_custom_evaluation,
                self.use_transposition == old(self).use_transposition,
                self.use_rave == old(self).use_rave,
                self.use_puct == old(self).use_puct,
                self.use_rave ==> self.rave.len() == self.stack.len(),
                self.use_rave ==> forall|j: int|
                    0 <= j < self.stack@.len() && (self.stack@[j] is Unknown || self.stack@[j] is Transpose)
                        ==> #[trigger] self.rave@[j] == (0u32, 0u64),
                !self.use_transposition ==> forall|j: int|
                    0 <= j < self.stack@.len() ==> !(#[trigger] self.stack@[j] is Transpose),
                st0 == old(self).stack@,
                gs0 == old(self).states@,
            decreases k - i,
        {
            let a = acts[i];
            let x = Node::Unknown(i + 1 < k, a);
            let ghost before = self.stack@;
            self.stack.push(x);
            if self.use_rave {
                self.rave.push((0, 0));
            }
            self.states = Ghost(self.states@.push(state.next(a)));
            proof {
                lemma_count_push(before, x, 0);
                lemma_count_push(before, x, 1);
                lemma_count_push(before, x, 2);
                lemma_count_push(before, x, 3);
                lemma_count_push(before, x, 4);
                lemma_count_bound(self.stack@, 0);
                assert(count_kind(self.stack@, 0) <= self.stack.len());
            }
            self.info.unknown = self.info.unknown + 1;
            i = i + 1;
        }
        proof {
            let st = self.stack@;
            let gs = self.states@;
            assert(stack_grows(st0, gs0, st, gs));
            assert(!st0[st0.len() - 1].sib());
            assert forall|j: int| 0 <= j < st.len() implies #[trigger] node_ok(st, gs, j) by {
                if j < c {
                    assert(node_ok(st0, gs0, j));
                    lemma_node_ok_transfer(st0, gs0, st, gs, j, st0[j]);
                } else {
                    let jj = j - c;
                    assert(self.stack@[c + jj] == Node::<P, A>::Unknown(jj + 1 < k, acts@[jj]));
                }
            }
            let last = (k - 1) as int;
            assert(self.stack@[c + last] == Node::<P, A>::Unknown(last + 1 < k, acts@[last]));
        }
    }

    /// The selection score of a visited node holding `w` over `n` visits for side `p`,
    /// seen from `player`, under a parent with `nt` visits: its value (the average, or
    /// while RAVE is on the average blended with the node's all-moves-as-first
    /// statistics `amaf`) plus its exploration bonus (by the UCT rule, or by the PUCT
    /// rule with the move's `prior`).
    fn uct_value(&self, p: P, player: P, w: u64, n: u32, nt: u32, amaf: (u32, u64), prior: u64) -> (r: u64)
        requires
            n >= 1,
            nt >= 1,
            w <= n * ONE,
        ensures
            self.is_score(p, player, w, n, nt, amaf, prior, r as int),
    {
        let same = p.same(&player);
        let w2 = if same {
            w
        } else {
            (n as u64) * ONE - w
        };
        let avg = w2 / (n as u64);
        assert(avg <= ONE) by (nonlinear_arith)
            requires
                avg == w2 / (n as u64),
                n >= 1,
                w2 <= n * ONE,
        {
        }
        let value = if self.use_rave && amaf.0 > 0 {
            rave_blend(avg, n, amaf, same)
        } else {
            avg
        };
        let bonus = if self.use_puct {
            puct_bonus(self.exploration, prior, n, nt)
        } else {
            uct_bonus(self.exploration, n, nt)
        };
        assert(avg as int == (if p == player {
            w as int
        } else {
            n * ONE - w
        }) / (n as int));
        let ghost spec_avg = average_for(p, player, w, n);
        assert(self.value_ok(spec_avg, n, amaf, p, player, value as int));
        assert(self.bonus_ok(n, nt, prior, bonus as int));
        assert(self.is_score(p, player, w, n, nt, amaf, prior, value + bonus));
        value + bonus
    }

    /// The all-moves-as-first statistics of the node at `index`: nothing while RAVE is
    /// off.
    fn amaf(&self, index: usize) -> (r: (u32, u64))
        requires
            self.wf(),
            index < self.stack.len(),
        ensures
            r == self.amaf_at(index as int),
    {
        if self.use_rave {
            self.rave[index]
        } else {
            (0, 0)
        }
    }

    /// The prior weight of `a` played from `state`: the game's policy under PUCT.
    fn prior(&self, state: &S, a: A) -> (r: u64)
        ensures
            self.prior_ok(state, a, r),
    {
        if self.use_puct {
            state.policy(a)
        } else {
            ONE
        }
    }

    /// The sibling flag, the move and the selection score of the node at `index`, a
    /// child of a node whose position is `state`. An unvisited node scores highest and
    /// a proven one scores its value; a transposition scores with the statistics of the
    /// node it points at, its own move's prior and no all-moves-as-first blend.
    fn uct(&self, state: &S, index: usize, player: P, nt: u32) -> (r: (bool, A, u64))
        requires
            self.wf(),
            index < self.stack.len(),
            nt >= 1,
        ensures
            r.0 == self.stack@[index as int].sib(),
            r.1 == self.stack@[index as int].act(),
            self.score_ok(state, index as int, player, nt, r.2 as int),
    {
        assert(node_ok(self.stack@, self.states@, index as int));
        match self.stack[index] {
            Node::Terminal(s, a, p, w) => {
                let val = if p.same(&player) {
                    w
                } else {
                    ONE - w
                };
                (s, a, val)
            },
            Node::Unknown(s, a) => (s, a, u64::MAX),
            Node::Leaf(s, a, p, w, n) => (
                s,
                a,
                self.uct_value(p, player, w, n, nt, self.amaf(index), self.prior(state, a)),
            ),
            Node::Branch(s, a, p, w, n, _) => (
                s,
                a,
                self.uct_value(p, player, w, n, nt, self.amaf(index), self.prior(state, a)),
            ),
            Node::Transpose(s, a, u) => {
                assert(node_ok(self.stack@, self.states@, u as int));
                let v = match self.stack[u] {
                    Node::Terminal(_, _, p, w) => {
                        if p.same(&player) {
                            w
                        } else {
                            ONE - w
                        }
                    },
                    Node::Unknown(_, _) => u64::MAX,
                    Node::Leaf(_, _, p, w, n) => self.uct_value(p, player, w, n, nt, (0, 0), self.prior(state, a)),
                    Node::Branch(_, _, p, w, n, _) => self.uct_value(
                        p,
                        player,
                        w,
                        n,
                        nt,
                        (0, 0),
                        self.prior(state, a),
                    ),
                    Node::Transpose(_, _, _) => {
                        assert(false);
                        u64::MAX
                    },
                };
                (s, a, v)
            },
        }
    }

    /// Records, while RAVE is on, that the descent in progress played `a` by `player`.
    fn note_played(&mut self, a: A, player: P)
        ensures
            final(self).same_but_rand(old(self)),
            final(self).rand == old(self).rand,
            final(self).use_rave ==> final(self).played@ == old(self).played@.push((a, player)),
    {
        if self.use_rave {
            self.played.push((a, player));
        }
    }

    /// Whether the descent in progress played `a` by `player` at or after its
    /// `depth`-th move.
    fn was_played(&self, a: A, player: P, depth: usize) -> (r: bool)
        ensures
            r == exists|k: int|
                depth <= k < self.played.len() && #[trigger] self.played@[k] == (a, player),
    {
        let mut k: usize = depth;
        while k < self.played.len()
            invariant
                depth <= k,
                forall|m: int| depth <= m < k ==> #[trigger] self.played@[m] != (a, player),
            decreases self.played.len() - k,
        {
            let (b, q) = self.played[k];
            if b.same(&a) && q.same(&player) {
                return true;
            }
            k = k + 1;
        }
        false
    }

    /// Credits the descent that just returned value `v` for `player` (the side to move
    /// at the parent of the children starting at `c`) to the all-moves-as-first
    /// statistics of every visited child, a leaf or a branch, whose move `player`
    /// played at or after the descent's `depth`-th move. A transposition or an unvisited
    /// child gets no credit.
    fn rave_update(&mut self, c: usize, depth: usize, player: P, v: u64)
        requires
            old(self).wf(),
            old(self).use_rave,
            c < old(self).stack.len(),
            v <= ONE,
        ensures
            final(self).wf(),
            final(self).grown_from(old(self)),
            final(self).stack@ == old(self).stack@,
            final(self).states@ == old(self).states@,
            final(self).map@ == old(self).map@,
            final(self).info == old(self).info,
            final(self).played@ == old(self).played@,
            final(self).rave.len() == old(self).rave.len(),
            forall|k: int|
                #[trigger] in_chain(old(self).stack@, c as int, k) ==> final(self).rave@[k] == credited(
                    old(self).rave@[k],
                    old(self).stack@[k],
                    old(self).played@,
                    depth as int,
                    player,
                    v,
                ),
            forall|k: int|
                0 <= k < old(self).rave.len() && !in_chain(old(self).stack@, c as int, k)
                    ==> #[trigger] final(self).rave@[k] == old(self).rave@[k],
    {
        let ghost st = self.stack@;
        let ghost r0 = self.rave@;
        let mut u: usize = c;
        loop
            invariant
                self.wf(),
                self.grown_from(old(self)),
                self.use_rave,
                st == self.stack@,
                st == old(self).stack@,
                self.states@ == old(self).states@,
                self.map@ == old(self).map@,
                self.info == old(self).info,
                self.played@ == old(self).played@,
                self.rave.len() == old(self).rave.len(),
                c <= u < st.len(),
                v <= ONE,
                r0 == old(self).rave@,
                in_chain(st, c as int, u as int),
                forall|k: int|
                    c <= k < u ==> #[trigger] self.rave@[k] == credited(
                        r0[k],
                        st[k],
                        self.played@,
                        depth as int,
                        player,
                        v,
                    ),
                forall|k: int|
                    0 <= k < r0.len() && (k < c || k >= u) ==> #[trigger] self.rave@[k] == r0[k],
            decreases st.len() - u,
        {
            let ghost before = self.rave@;
            let credit = match self.stack[u] {
                Node::Leaf(_, a, p, _, _) => Some((a, p)),
                Node::Branch(_, a, p, _, _, _) => Some((a, p)),
                _ => None,
            };
            match credit {
                Some((a, p)) => {
                    if self.was_played(a, player, depth) {
                        let (rn, rw) = self.rave[u];
                        let val = if p.same(&player) {
                            v
                        } else {
                            ONE - v
                        };
                        if rn < u32::MAX && rw <= u64::MAX - ONE {
                            self.rave.set(u, (rn + 1, rw + val));
                        }
                    }
                },
                None => {},
            }
            assert(self.rave@[u as int] == credited(r0[u as int], st[u as int], self.played@, depth as int, player, v));
            assert(forall|k: int| 0 <= k < r0.len() && k != u ==> #[trigger] self.rave@[k] == before[k]);
            if !self.sibling_flag(u) {
                proof {
                    assert forall|k: int| #[trigger] in_chain(st, c as int, k) implies k <= u by {
                        if k > u {
                            assert(st[u as int].sib());
                        }
                    }
                    assert forall|k: int| c <= k <= u implies #[trigger] in_chain(st, c as int, k) by {
                        assert forall|m: int| c <= m < k implies (#[trigger] st[m]).sib() by {
                            assert(in_chain(st, c as int, u as int));
                        }
                    }
                }
                return ;
            }
            if u + 1 >= self.stack.len() {
                return ;
            }
            u = u + 1;
            assert(in_chain(st, c as int, u as int)) by {
                assert forall|m: int| c <= m < u implies (#[trigger] st[m]).sib() by {
                    if m < u - 1 {
                        assert(in_chain(st, c as int, u - 1));
                    }
                }
            }
        }
    }

    /// The child of the sibling list at `c` to descend into: one with the highest
    /// selection score, ties broken uniformly at random. The scores of the whole list
    /// are those `score_ok` gives, in order.
    fn select(&mut self, state: &S, c: usize, player: P, nt: u32) -> (r: (A, usize))
        requires
            old(self).wf(),
            c < old(self).stack.len(),
            nt >= 1,
        ensures
            final(self).wf(),
            final(self).same_but_rand(old(self)),
            in_chain(final(self).stack@, c as int, r.1 as int),
            r.0 == final(self).stack@[r.1 as int].act(),
            old(self).best_scored(state, c as int, player, nt, r.1 as int),
    {
        let ghost st = self.stack@;
        let mut scores: Vec<u64> = Vec::new();
        let mut u: usize = c;
        loop
            invariant_except_break
                scores.len() == u - c,
            invariant
                self.wf(),
                *self == *old(self),
                st == self.stack@,
                c <= u < st.len(),
                in_chain(st, c as int, u as int),
                nt >= 1,
                forall|k: int|
                    0 <= k < scores.len() ==> in_chain(st, c as int, c + k) && old(self).score_ok(
                        state,
                        c + k,
                        player,
                        nt,
                        #[trigger] scores@[k] as int,
                    ),
            ensures
                scores.len() == u - c + 1,
                !st[u as int].sib(),
            decreases st.len() - u,
        {
            let (sflag, _, score) = self.uct(state, u, player, nt);
            scores.push(score);
            if !sflag {
                break ;
            }
            assert(u + 1 < self.stack.len());
            u = u + 1;
            assert(in_chain(st, c as int, u as int)) by {
                assert forall|m: int| c <= m < u implies (#[trigger] st[m]).sib() by {
                    if m < u - 1 {
                        assert(in_chain(st, c as int, u - 1));
                    }
                }
            }
        }
        proof {
            let k = c + scores.len();
            if in_chain(st, c as int, k) {
                assert(st[k - 1].sib());
            }
        }
        let mut best: u64 = scores[0];
        let mut bi: usize = 0;
        let mut ties: u64 = 1;
        let mut k: usize = 1;
        while k < scores.len()
            invariant
                self.wf(),
                self.same_but_rand(old(self)),
                st == self.stack@,
                bi < k <= scores.len(),
                best == scores@[bi as int],
                forall|m: int| 0 <= m < k ==> #[trigger] scores@[m] <= best,
                ties >= 1,
            decreases scores.len() - k,
        {
            let score = scores[k];
            if score > best {
                best = score;
                bi = k;
                ties = 1;
            } else if score == best {
                if ties < u64::MAX {
                    ties = ties + 1;
                }
                if next_u64(&mut self.rand) % ties == 0 {
                    bi = k;
                }
            }
            k = k + 1;
        }
        let chosen = c + bi;
        assert(in_chain(st, c as int, chosen as int));
        assert(scores@[bi as int] == scores@[chosen - c]);
        (self.action_of(chosen), chosen)
    }

    /// The first child of the list at `c` proven with the value `value` for `player`,
    /// where the list proves that value (see `spec_solved`).
    fn first_proven(&self, c: usize, player: P, value: u64) -> (j: usize)
        requires
            self.wf(),
            c < self.stack.len(),
            spec_solved(self.stack@, c as int, player) == Some(value),
        ensures
            first_proven_child(self.stack@, c as int, player, value, j as int),
    {
        let ghost st = self.stack@;
        assert(in_chain(st, c as int, c as int));
        let mut u: usize = c;
        loop
            invariant
                self.wf(),
                st == self.stack@,
                c <= u < st.len(),
                in_chain(st, c as int, u as int),
                spec_solved(st, c as int, player) == Some(value),
                forall|k: int|
                    #![trigger st[k]]
                    in_chain(st, c as int, k) && k < u ==> !(st[k] is Terminal && persp(
                        st[k]->Terminal_2,
                        player,
                        st[k]->Terminal_3,
                    ) == value),
            decreases st.len() - u,
        {
            assert(node_ok(st, self.states@, u as int));
            let hit = match self.stack[u] {
                Node::Terminal(_, _, p, w) => {
                    let v = if p.same(&player) {
                        w
                    } else {
                        ONE - w
                    };
                    v == value
                },
                _ => false,
            };
            if hit {
                return u;
            }
            if !self.sibling_flag(u) {
                proof {
                    assert forall|k: int| #[trigger] in_chain(st, c as int, k) implies k <= u by {
                        if k > u {
                            assert(st[u as int].sib());
                        }
                    }
                    if value == ONE {
                        let k = choose|k: int|
                            #![trigger st[k]]
                            in_chain(st, c as int, k) && st[k] is Terminal && persp(
                                st[k]->Terminal_2,
                                player,
                                st[k]->Terminal_3,
                            ) >= ONE;
                        assert(node_ok(st, self.states@, k));
                        assert(false);
                    } else {
                        assert(st[c as int] is Terminal);
                        assert(node_ok(st, self.states@, c as int));
                        assert(false);
                    }
                }
                return u;
            }
            assert(u + 1 < self.stack.len());
            u = u + 1;
            assert(in_chain(st, c as int, u as int)) by {
                assert forall|m: int| c <= m < u implies (#[trigger] st[m]).sib() by {
                    if m < u - 1 {
                        assert(in_chain(st, c as int, u - 1));
                    }
                }
            }
        }
    }

    /// Settles the branch at `index`, whose children prove `value` for its side to
    /// move: it becomes that proven result, keeping its move (the root takes the move to
    /// its first child proven so).
    fn settle(&mut self, index: usize, value: u64)
        requires
            old(self).wf(),
            index < old(self).stack.len(),
            old(self).stack@[index as int] is Branch,
            spec_solved(
                old(self).stack@,
                old(self).stack@[index as int]->Branch_5 as int,
                old(self).stack@[index as int]->Branch_2,
            ) == Some(value),
        ensures
            final(self).wf(),
            final(self).grown_from(old(self)),
            final(self).stack@ == old(self).stack@.update(index as int, final(self).stack@[index as int]),
            final(self).states@ == old(self).states@,
            final(self).map@ == old(self).map@,
            final(self).info.n == old(self).info.n,
            final(self).info.q == old(self).info.q,
            final(self).info.bytes == old(self).info.bytes,
            final(self).stack@[index as int] is Terminal,
            final(self).stack@[index as int]->Terminal_0 == old(self).stack@[index as int]->Branch_0,
            index > 0 ==> final(self).stack@[index as int]->Terminal_1 == old(self).stack@[index as int]->Branch_1,
            final(self).stack@[index as int]->Terminal_2 == old(self).stack@[index as int]->Branch_2,
            final(self).stack@[index as int]->Terminal_3 == value,
            spec_solved(
                final(self).stack@,
                old(self).stack@[index as int]->Branch_5 as int,
                old(self).stack@[index as int]->Branch_2,
            ) == Some(value),
            index == 0 ==> exists|j: int|
                #[trigger] first_proven_child(
                    final(self).stack@,
                    old(self).stack@[0]->Branch_5 as int,
                    old(self).stack@[0]->Branch_2,
                    value,
                    j,
                ) && final(self).stack@[0]->Terminal_1 == final(self).stack@[j].act(),
    {
        let ghost st = self.stack@;
        let ghost gs = self.states@;
        proof {
            assert(node_ok(st, gs, index as int));
            lemma_solved_sound::<P, A, S>(st, gs, index as int);
        }
        let (s, a, p, c) = match self.stack[index] {
            Node::Branch(s, a, p, _, _, c) => (s, a, p, c),
            _ => {
                assert(false);
                return;
            },
        };
        if index == 0 {
            self.solve_root(value);
        } else {
            self.set_node(index, Node::Terminal(s, a, p, value));
        }
        proof {
            lemma_solved_update(st, c as int, p, index as int, self.stack@[index as int]);
        }
    }

    /// Settles the root, whose children prove `value` for its side to move: it becomes
    /// that proven result, and remembers the move to its first child proven so.
    fn solve_root(&mut self, value: u64)
        requires
            old(self).wf(),
            old(self).stack.len() > 0,
            old(self).stack@[0] is Branch,
            spec_solved(old(self).stack@, old(self).stack@[0]->Branch_5 as int, old(self).stack@[0]->Branch_2)
                == Some(value),
        ensures
            final(self).wf(),
            final(self).grown_from(old(self)),
            final(self).stack@ == old(self).stack@.update(0, final(self).stack@[0]),
            final(self).states@ == old(self).states@,
            final(self).map@ == old(self).map@,
            final(self).info.n == old(self).info.n,
            final(self).info.q == old(self).info.q,
            final(self).info.bytes == old(self).info.bytes,
            final(self).stack@[0] is Terminal,
            final(self).stack@[0]->Terminal_0 == old(self).stack@[0]->Branch_0,
            final(self).stack@[0]->Terminal_2 == old(self).stack@[0]->Branch_2,
            final(self).stack@[0]->Terminal_3 == value,
            exists|j: int|
                #[trigger] first_proven_child(
                    final(self).stack@,
                    old(self).stack@[0]->Branch_5 as int,
                    old(self).stack@[0]->Branch_2,
                    value,
                    j,
                ) && final(self).stack@[0]->Terminal_1 == final(self).stack@[j].act(),
    {
        let ghost st = self.stack@;
        let ghost gs = self.states@;
        proof {
            assert(node_ok(st, gs, 0));
            lemma_solved_sound::<P, A, S>(st, gs, 0);
        }
        let (s, p, c) = match self.stack[0] {
            Node::Branch(s, _, p, _, _, c) => (s, p, c),
            _ => {
                assert(false);
                return;
            },
        };
        let j = self.first_proven(c, p, value);
        proof {
            lemma_root_move::<P, A, S>(st, gs, j as int, value);
        }
        let a = self.action_of(j);
        self.set_node(0, Node::Terminal(s, a, p, value));
        proof {
            let st2 = self.stack@;
            assert(0 < c);
            assert forall|k: int| c <= k < st.len() implies #[trigger] st2[k] == st[k] by {}
            assert(in_chain(st2, c as int, j as int)) by {
                assert forall|m: int| c <= m < j implies (#[trigger] st2[m]).sib() by {
                    assert(st[m].sib());
                }
            }
            assert(first_proven_child(st2, c as int, p, value, j as int)) by {
                assert forall|k: int| #![trigger st2[k]] in_chain(st2, c as int, k) && k < j implies !(
                st2[k] is Terminal && persp(st2[k]->Terminal_2, p, st2[k]->Terminal_3) == value) by {
                    assert(st2[k] == st[k]);
                    assert forall|m: int| c <= m < k implies (#[trigger] st[m]).sib() by {
                        assert(st2[m] == st[m]);
                    }
                    assert(in_chain(st, c as int, k));
                }
            }
        }
    }

    /// Whether the children starting at `c` prove the value of their parent for
    /// `player` (see `spec_solved`).
    fn solved_value(&self, c: usize, player: P) -> (r: Option<u64>)
        requires
            self.wf(),
            c < self.stack.len(),
        ensures
            r == spec_solved(self.stack@, c as int, player),
    {
        let ghost st = self.stack@;
        let mut u: usize = c;
        let mut all_are_losses = true;
        loop
            invariant
                self.wf(),
                st == self.stack@,
                c <= u < st.len(),
                in_chain(st, c as int, u as int),
                forall|j: int|
                    #![trigger st[j]]
                    c <= j < u ==> !(st[j] is Terminal && persp(
                        st[j]->Terminal_2,
                        player,
                        st[j]->Terminal_3,
                    ) >= ONE),
                all_are_losses <==> forall|j: int|
                    #![trigger st[j]]
                    c <= j < u ==> st[j] is Terminal && persp(
                        st[j]->Terminal_2,
                        player,
                        st[j]->Terminal_3,
                    ) <= 0,
            decreases st.len() - u,
        {
            assert(node_ok(st, self.states@, u as int));
            match self.stack[u] {
                Node::Terminal(_, _, p, w) => {
                    let w = if p.same(&player) {
                        w
                    } else {
                        ONE - w
                    };
                    if w >= ONE {
                        assert(in_chain(st, c as int, u as int) && st[u as int] is Terminal);
                        return Some(ONE);
                    }
                    if w > 0 {
                        all_are_losses = false;
                    }
                },
                _ => {
                    all_are_losses = false;
                },
            }
            if !self.sibling_flag(u) {
                assert forall|j: int| #[trigger] in_chain(st, c as int, j) implies j <= u by {
                    if j > u {
                        assert(st[u as int].sib());
                    }
                }
                if all_are_losses {
                    return Some(0);
                } else {
                    return None;
                }
            }
            assert(u + 1 < self.stack.len());
            u = u + 1;
            assert(in_chain(st, c as int, u as int));
        }
    }

    /// A uniformly random index below `max`, by rejection sampling on the bits of the
    /// generator's output.
    fn random_index(&mut self, max: usize) -> (r: usize)
        requires
            max > 0,
        ensures
            r < max,
            final(self).same_but_rand(old(self)),
    {
        let mut m: usize = 1;
        while m < max && m <= usize::MAX / 2
            invariant
                m >= 1,
            decreases usize::MAX - m,
        {
            m = m * 2;
        }
        let mask = m - 1;
        let mut tries: u32 = 0;
        loop
            invariant
                self.same_but_rand(old(self)),
                max > 0,
                tries < 64,
            decreases 64 - tries,
        {
            let x = next_u64(&mut self.rand);
            let r = (x as usize) & mask;
            if r < max {
                return r;
            }
            if tries >= 63 {
                return (x as usize) % max;
            }
            tries = tries + 1;
        }
    }

    /// Plays random moves from `state` until the game ends, and returns the result for
    /// the side to move in `state`.
    fn rollout(&mut self, state: &S) -> (v: u64)
        ensures
            v <= ONE,
            v == 0 || v == HALF || v == ONE,
            state.outcome() matches Some(res) ==> v == res.spec_value(),
            playout_result(*state, v),
            final(self).same_but_rand(old(self)),
    {
        let p = state.player();
        let mut s: S = *state;
        let mut fuel: u64 = PLAYOUT_FUEL;
        let ghost mut ms: Seq<A> = Seq::empty();
        assert(play(*state, ms) == *state);
        loop
            invariant
                self.same_but_rand(old(self)),
                p == state.mover(),
                fuel == PLAYOUT_FUEL ==> s == *state,
                fuel != PLAYOUT_FUEL ==> state.outcome() is None,
                valid_line(*state, ms),
                play(*state, ms) == s,
                ms.len() == PLAYOUT_FUEL - fuel,
            decreases fuel,
        {
            match s.gameover() {
                Some(result) => {
                    let v = result.value();
                    proof {
                        let r: u64 = if s.mover() == p {
                            v
                        } else {
                            (ONE - v) as u64
                        };
                        assert(r == seen_from(s.mover(), state.mover(), result.spec_value()));
                        assert(playout_result(*state, r));
                    }
                    return if s.player().same(&p) {
                        v
                    } else {
                        ONE - v
                    };
                },
                None => {},
            }
            if fuel == 0 {
                assert(playout_result(*state, HALF));
                return HALF;
            }
            let acts = s.actions();
            let k = self.random_index(acts.len());
            if self.use_rave {
                self.played.push((acts[k], s.player()));
            }
            let a = acts[k];
            proof {
                let ms2 = ms.push(a);
                assert(ms2.drop_last() =~= ms);
                assert(ms2.last() == a);
                ms = ms2;
            }
            s = s.make(a);
            fuel = fuel - 1;
        }
    }

    /// The value of an unexpanded position for its side to move: its custom evaluation
    /// or a random playout.
    fn evaluate(&mut self, state: &S) -> (v: u64)
        ensures
            old(self).use_custom_evaluation ==> v == state.evaluation(),
            !old(self).use_custom_evaluation ==> playout_result(*state, v),
            !old(self).use_custom_evaluation ==> (v == 0 || v == HALF || v == ONE) && (state.outcome() matches Some(
                res,
            ) ==> v == res.spec_value()),
            v <= ONE,
            final(self).same_but_rand(old(self)),
    {
        if self.use_custom_evaluation {
            state.custom_evaluation()
        } else {
            self.rollout(state)
        }
    }

    /// One descent from the node at `index`, whose position is `state`: selects,
    /// expands or evaluates, and backs the value up. Returns the value for the side to
    /// move at `state`.
    fn go(&mut self, state: &S, index: usize, fuel: u64) -> (v: u64)
        requires
            old(self).wf(),
            index < old(self).stack.len(),
            equiv::<P, A, S>(*state, old(self).states@[index as int]),
        ensures
            final(self).wf(),
            final(self).grown_from(old(self)),
            v <= ONE,
            old(self).stack@[index as int] is Terminal ==> *final(self) == *old(self),
            !old(self).use_transposition ==> forall|k: int|
                0 <= k < index ==> #[trigger] final(self).stack@[k] == old(self).stack@[k],
            !old(self).use_transposition && old(self).stack@[index as int] is Branch && fuel >= 1
                ==> final(self).stack@[index as int] is Terminal || (final(self).stack@[index as int] is Branch
                && final(self).stack@[index as int].visits() == visits_after(
                old(self).stack@[index as int].visits(),
                1,
            )),
            !old(self).use_transposition && old(self).stack@[index as int] is Leaf && fuel >= 2
                ==> final(self).stack@[index as int] is Terminal || final(self).stack@[index as int].visits()
                == visits_after(old(self).stack@[index as int].visits(), 1),
            !old(self).use_transposition && fuel >= 2 ==> gained(
                old(self).stack@[index as int],
                final(self).stack@[index as int],
                v,
            ),
            !old(self).use_transposition && fuel >= 1 && old(self).stack@[index as int] is Branch ==> gained(
                old(self).stack@[index as int],
                final(self).stack@[index as int],
                v,
            ),
            !old(self).use_transposition && fuel >= 2 && old(self).stack@[index as int] is Leaf && old(self).stack@[index as int]->Leaf_4 > old(self).expansion
                ==> final(self).stack@[index as int] is Terminal || (final(self).stack@[index as int] is Branch
                && final(self).stack@[index as int]->Branch_5 == old(self).stack.len()),
            fuel >= 2 && old(self).stack@[index as int] is Leaf && old(self).stack@[index as int]->Leaf_4 > old(self).expansion ==> final(self).stack@[index as int] is Terminal
                || final(self).stack@[index as int] is Branch,
            old(self).stack@[index as int] is Leaf && old(self).stack@[index as int]->Leaf_4 <= old(self).expansion && fuel >= 1 ==> (old(self).stack@[index as int]->Leaf_4 < u32::MAX
                ==> final(self).stack@[index as int] == Node::<P, A>::Leaf(
                old(self).stack@[index as int]->Leaf_0,
                old(self).stack@[index as int]->Leaf_1,
                old(self).stack@[index as int]->Leaf_2,
                (old(self).stack@[index as int]->Leaf_3 + v) as u64,
                (old(self).stack@[index as int]->Leaf_4 + 1) as u32,
            )) && (old(self).use_custom_evaluation ==> v == state.evaluation()) && (
            !old(self).use_custom_evaluation ==> (v == 0 || v == HALF || v == ONE) && playout_result(*state, v)),
            old(self).stack@[index as int] is Unknown && fuel >= 1 && !(old(self).use_transposition && old(self).map@.contains_key(old(self).states@[index as int].key())) ==> final(self).stack@[index as int]
                == (match old(self).states@[index as int].outcome() {
                Some(_) => Node::<P, A>::Terminal(
                    old(self).stack@[index as int].sib(),
                    old(self).stack@[index as int].act(),
                    old(self).states@[index as int].mover(),
                    v,
                ),
                None => Node::<P, A>::Leaf(
                    old(self).stack@[index as int].sib(),
                    old(self).stack@[index as int].act(),
                    old(self).states@[index as int].mover(),
                    v,
                    1,
                ),
            }) && match old(self).states@[index as int].outcome() {
                Some(res) => v == res.spec_value(),
                None => (old(self).use_custom_evaluation ==> v == state.evaluation()) && (
                !old(self).use_custom_evaluation ==> (v == 0 || v == HALF || v == ONE) && playout_result(*state, v)),
            },
            !old(self).use_transposition && fuel >= 1 && old(self).stack@[index as int] is Branch && final(self).stack@[index as int] is Branch ==> final(self).stack@[index as int]->Branch_5 == old(self).stack@[index as int]->Branch_5
                && final(self).stack@[index as int]->Branch_2 == old(self).stack@[index as int]->Branch_2,
            !old(self).use_transposition && fuel >= 1 && old(self).stack@[index as int] is Branch ==> spec_solved(
                final(self).stack@,
                old(self).stack@[index as int]->Branch_5 as int,
                old(self).stack@[index as int]->Branch_2,
            ) == (if final(self).stack@[index as int] is Terminal {
                Some(final(self).stack@[index as int]->Terminal_3)
            } else {
                None
            }),
            !old(self).use_transposition && fuel >= 1 && index == 0 && old(self).stack@[0] is Branch && final(self).stack@[0] is Terminal ==> exists|j: int|
                #[trigger] first_proven_child(
                    final(self).stack@,
                    old(self).stack@[0]->Branch_5 as int,
                    old(self).stack@[0]->Branch_2,
                    final(self).stack@[0]->Terminal_3,
                    j,
                ) && final(self).stack@[0]->Terminal_1 == final(self).stack@[j].act(),
            !old(self).use_transposition && fuel >= 2 ==> descended(
                old(self).stack@[index as int],
                final(self).stack@[index as int],
                old(self).states@[index as int],
                v,
                old(self).expansion,
            ),
            !old(self).use_transposition && fuel >= 3 && old(self).stack@[index as int] is Branch ==> exists|
                j: int,
                cv: u64,
            |
                in_chain(old(self).stack@, old(self).stack@[index as int]->Branch_5 as int, j)
                    && old(self).best_scored(
                    state,
                    old(self).stack@[index as int]->Branch_5 as int,
                    old(self).stack@[index as int]->Branch_2,
                    old(self).stack@[index as int]->Branch_4,
                    j,
                ) && #[trigger] descended(old(self).stack@[j], final(self).stack@[j], old(self).states@[j], cv, old(self).expansion)
                    && (final(self).stack@[index as int] is Branch ==> v == seen_from(
                    old(self).states@[j].mover(),
                    old(self).stack@[index as int]->Branch_2,
                    cv,
                )),
            index == 0 && fuel >= 1 && old(self).stack@[0] is Branch && final(self).stack@[0] is Branch
                ==> final(self).info_matches_root(),
            index == 0 && fuel >= 2 && old(self).stack@[0] is Leaf && final(self).stack@[0] is Branch
                ==> final(self).info_matches_root(),
        decreases fuel, 1nat,
    {
        if fuel == 0 {
            return HALF;
        }
        proof {
            assert(node_ok(self.stack@, self.states@, index as int));
        }
        match self.stack[index] {
            Node::Branch(_, _, _, _, _, _) => self.go_branch(state, index, fuel),
            Node::Leaf(_, _, _, _, _) => self.go_leaf(state, index, fuel),
            Node::Terminal(_, _, _, w) => w,
            Node::Unknown(_, _) => self.go_unknown(state, index, fuel),
            Node::Transpose(_, _, u) => {
                proof {
                    lemma_equiv_trans::<P, A, S>(
                        *state,
                        self.states@[index as int],
                        self.states@[u as int],
                    );
                }
                self.go(state, u, fuel - 1)
            },
        }
    }

    #[verifier::rlimit(100)]
    fn go_branch(&mut self, state: &S, index: usize, fuel: u64) -> (v: u64)
        requires
            old(self).wf(),
            index < old(self).stack.len(),
            equiv::<P, A, S>(*state, old(self).states@[index as int]),
            old(self).stack@[index as int] is Branch,
            fuel > 0,
        ensures
            final(self).wf(),
            final(self).grown_from(old(self)),
            v <= ONE,
            !old(self).use_transposition ==> forall|k: int|
                0 <= k < index ==> #[trigger] final(self).stack@[k] == old(self).stack@[k],
            !old(self).use_transposition && old(self).stack@[index as int] is Branch
                ==> final(self).stack@[index as int] is Terminal || (final(self).stack@[index as int] is Branch
                && final(self).stack@[index as int].visits() == visits_after(
                old(self).stack@[index as int].visits(),
                1,
            )),
            !old(self).use_transposition ==> gained(old(self).stack@[index as int], final(self).stack@[index as int], v),
            index == 0 && final(self).stack@[0] is Branch ==> final(self).info_matches_root(),
            !old(self).use_transposition && index == 0 && final(self).stack@[0] is Terminal ==> exists|j: int|
                #[trigger] first_proven_child(
                    final(self).stack@,
                    old(self).stack@[0]->Branch_5 as int,
                    old(self).stack@[0]->Branch_2,
                    final(self).stack@[0]->Terminal_3,
                    j,
                ) && final(self).stack@[0]->Terminal_1 == final(self).stack@[j].act(),
            !old(self).use_transposition && final(self).stack@[index as int] is Branch
                ==> final(self).stack@[index as int]->Branch_5 == old(self).stack@[index as int]->Branch_5
                && final(self).stack@[index as int]->Branch_2 == old(self).stack@[index as int]->Branch_2,
            !old(self).use_transposition && final(self).stack@[index as int] is Terminal
                ==> final(self).stack@[index as int]->Terminal_2 == old(self).stack@[index as int]->Branch_2,
            !old(self).use_transposition ==> spec_solved(
                final(self).stack@,
                old(self).stack@[index as int]->Branch_5 as int,
                old(self).stack@[index as int]->Branch_2,
            ) == (if final(self).stack@[index as int] is Terminal {
                Some(final(self).stack@[index as int]->Terminal_3)
            } else {
                None
            }),
            !old(self).use_transposition && fuel >= 3 ==> exists|j: int, cv: u64|
                in_chain(old(self).stack@, old(self).stack@[index as int]->Branch_5 as int, j)
                    && old(self).best_scored(
                    state,
                    old(self).stack@[index as int]->Branch_5 as int,
                    old(self).stack@[index as int]->Branch_2,
                    old(self).stack@[index as int]->Branch_4,
                    j,
                ) && #[trigger] descended(old(self).stack@[j], final(self).stack@[j], old(self).states@[j], cv, old(self).expansion)
                    && (final(self).stack@[index as int] is Branch ==> v == seen_from(
                    old(self).states@[j].mover(),
                    old(self).stack@[index as int]->Branch_2,
                    cv,
                )),
        decreases fuel, 0nat,
    {
        let ghost gs0 = self.states@;
        let ghost st0 = self.stack@;
        assert(node_ok(st0, gs0, index as int));
        let (player, n, c) = match self.stack[index] {
            Node::Branch(_, _, p, _, n, c) => (p, n, c),
            _ => {
                assert(false);
                return HALF;
            },
        };
        let (action, next_index) = self.select(state, c, player, n);
        let depth = self.played.len();
        self.note_played(action, player);
        assert(in_chain(st0, c as int, next_index as int));
        proof {
            lemma_equiv_step::<P, A, S>(*state, gs0[index as int], action);
            lemma_equiv_trans::<P, A, S>(
                state.next(action),
                gs0[index as int].next(action),
                gs0[next_index as int],
            );
        }
        let next = state.make(action);
        let ghost before = *self;
        let cv = self.go(&next, next_index, fuel - 1);
        let ghost after = self.stack@;
        let v = if next.player().same(&player) {
            cv
        } else {
            ONE - cv
        };
        proof {
            lemma_equiv_step::<P, A, S>(next, gs0[next_index as int], action);
        }
        assert(v == seen_from(gs0[next_index as int].mover(), player, cv));
        proof {
            assert(node_ok(self.stack@, self.states@, index as int));
        }
        match self.stack[index] {
            Node::Branch(s2, a2, p2, w2, n2, c2) => {
                let (w3, n3) = if n2 < u32::MAX {
                    (w2 + v, n2 + 1)
                } else {
                    (w2, n2)
                };
                assert(w3 <= n3 * ONE) by (nonlinear_arith)
                    requires
                        w2 <= n2 * ONE,
                        v <= ONE,
                        (w3 == w2 + v && n3 == n2 + 1) || (w3 == w2 && n3 == n2),
                {
                }
                proof {
                    lemma_branch_restat(self.stack@, self.states@, index as int, w3, n3);
                }
                self.set_node(index, Node::Branch(s2, a2, p2, w3, n3, c2));
                if self.use_rave {
                    self.rave_update(c2, depth, player, v);
                    self.played.truncate(depth);
                }
                let solved = self.solved_value(c2, p2);
                proof {
                    lemma_solved_sound::<P, A, S>(self.stack@, self.states@, index as int);
                    assert(node_ok(self.stack@, self.states@, index as int));
                }
                let result = match solved {
                    Some(value) => {
                        self.settle(index, value);
                        value
                    },
                    None => v,
                };
                if index == 0 {
                    self.info.n = n3;
                    self.info.q = match solved {
                        Some(value) => value,
                        None => w3 / (n3 as u64),
                    };
                }
                proof {
                    if !old(self).use_transposition && fuel >= 3 {
                        assert(self.stack@[next_index as int] == after[next_index as int]);
                        assert(descended(st0[next_index as int], self.stack@[next_index as int], gs0[next_index as int], cv, self.expansion));
                    }
                }
                result
            },
            _ => v,
        }
    }

    #[verifier::rlimit(60)]
    fn go_leaf(&mut self, state: &S, index: usize, fuel: u64) -> (v: u64)
        requires
            old(self).wf(),
            index < old(self).stack.len(),
            equiv::<P, A, S>(*state, old(self).states@[index as int]),
            old(self).stack@[index as int] is Leaf,
            fuel > 0,
        ensures
            final(self).wf(),
            final(self).grown_from(old(self)),
            v <= ONE,
            !old(self).use_transposition ==> forall|k: int|
                0 <= k < index ==> #[trigger] final(self).stack@[k] == old(self).stack@[k],
            !old(self).use_transposition && old(self).stack@[index as int] is Leaf && fuel >= 2
                ==> final(self).stack@[index as int] is Terminal || final(self).stack@[index as int].visits()
                == visits_after(old(self).stack@[index as int].visits(), 1),
            !old(self).use_transposition && fuel >= 2 ==> gained(
                old(self).stack@[index as int],
                final(self).stack@[index as int],
                v,
            ),
            !old(self).use_transposition && fuel >= 2 && old(self).stack@[index as int] is Leaf && old(self).stack@[index as int]->Leaf_4 > old(self).expansion
                ==> final(self).stack@[index as int] is Terminal || (final(self).stack@[index as int] is Branch
                && final(self).stack@[index as int]->Branch_5 == old(self).stack.len()),
            fuel >= 2 && old(self).stack@[index as int] is Leaf && old(self).stack@[index as int]->Leaf_4 > old(self).expansion ==> final(self).stack@[index as int] is Terminal
                || final(self).stack@[index as int] is Branch,
            old(self).stack@[index as int] is Leaf && old(self).stack@[index as int]->Leaf_4 <= old(self).expansion && fuel >= 1 ==> (old(self).stack@[index as int]->Leaf_4 < u32::MAX
                ==> final(self).stack@[index as int] == Node::<P, A>::Leaf(
                old(self).stack@[index as int]->Leaf_0,
                old(self).stack@[index as int]->Leaf_1,
                old(self).stack@[index as int]->Leaf_2,
                (old(self).stack@[index as int]->Leaf_3 + v) as u64,
                (old(self).stack@[index as int]->Leaf_4 + 1) as u32,
            )) && (old(self).use_custom_evaluation ==> v == state.evaluation()) && (
            !old(self).use_custom_evaluation ==> (v == 0 || v == HALF || v == ONE) && playout_result(*state, v)),
            index == 0 && fuel >= 2 && final(self).stack@[0] is Branch ==> final(self).info_matches_root(),
            old(self).stack@[index as int]->Leaf_4 <= old(self).expansion ==> final(self).stack@[index as int] is Leaf,
        decreases fuel, 0nat,
    {
        let ghost gs0 = self.states@;
        let ghost st0 = self.stack@;
        assert(node_ok(st0, gs0, index as int));
        let (s, a, p, w, n) = match self.stack[index] {
            Node::Leaf(s, a, p, w, n) => (s, a, p, w, n),
            _ => {
                assert(false);
                return HALF;
            },
        };
        if n > self.expansion {
            proof {
                lemma_equiv_step::<P, A, S>(*state, gs0[index as int], a);
            }
            let acts = state.actions();
            let c = self.stack.len();
            self.push_children(state, &acts);
            let ghost st1 = self.stack@;
            let ghost gs1 = self.states@;
            let x = Node::Branch(s, a, p, w, n, c);
            proof {
                assert(st1[index as int] == st0[index as int]);
                assert forall|j: int| #[trigger] in_chain(st1, c as int, j) implies gs1[index as int].legal(
                    st1[j].act(),
                ) && equiv::<P, A, S>(gs1[j], gs1[index as int].next(st1[j].act())) by {
                    let jj = j - c;
                    assert(0 <= jj);
                    if jj >= acts.len() {
                        let last = (acts.len() - 1) as int;
                        assert(st1[c + last] == Node::<P, A>::Unknown(last + 1 < acts.len(), acts@[last]));
                        assert(st1[c + last].sib());
                    }
                    assert(st1[c + jj] == Node::<P, A>::Unknown(jj + 1 < acts.len(), acts@[jj]));
                    assert(state.legal(acts@[jj]));
                    lemma_equiv_step::<P, A, S>(*state, gs0[index as int], acts@[jj]);
                }
                assert forall|b: A| #[trigger] gs1[index as int].legal(b) implies exists|j: int|
                    #[trigger] in_chain(st1, c as int, j) && st1[j].act() == b by {
                    lemma_equiv_step::<P, A, S>(*state, gs0[index as int], b);
                    assert(acts@.contains(b));
                    let jj = choose|jj: int| 0 <= jj < acts@.len() && acts@[jj] == b;
                    assert(st1[c + jj] == Node::<P, A>::Unknown(jj + 1 < acts.len(), acts@[jj]));
                    assert forall|k: int| c <= k < c + jj implies #[trigger] st1[k].sib() by {
                        let kk = k - c;
                        assert(st1[c + kk] == Node::<P, A>::Unknown(kk + 1 < acts.len(), acts@[kk]));
                    }
                    assert(in_chain(st1, c as int, c + jj));
                }
                assert(node_ok(st0, gs0, index as int));
                lemma_new_branch_ok(st1, gs1, index as int, s, a, p, w, n, c);
            }
            self.set_node(index, x);
            self.go(state, index, fuel - 1)
        } else {
            let v = self.evaluate(state);
            let (w2, n2) = if n < u32::MAX {
                (w + v, n + 1)
            } else {
                (w, n)
            };
            assert(w2 <= n2 * ONE) by (nonlinear_arith)
                requires
                    w <= n * ONE,
                    v <= ONE,
                    (w2 == w + v && n2 == n + 1) || (w2 == w && n2 == n),
            {
            }
            self.set_node(index, Node::Leaf(s, a, p, w2, n2));
            v
        }
    }

    fn go_unknown(&mut self, state: &S, index: usize, fuel: u64) -> (v: u64)
        requires
            old(self).wf(),
            index < old(self).stack.len(),
            equiv::<P, A, S>(*state, old(self).states@[index as int]),
            old(self).stack@[index as int] is Unknown,
            fuel > 0,
        ensures
            final(self).wf(),
            final(self).grown_from(old(self)),
            v <= ONE,
            !old(self).use_transposition ==> forall|k: int|
                0 <= k < index ==> #[trigger] final(self).stack@[k] == old(self).stack@[k],
            !(old(self).use_transposition && old(self).map@.contains_key(old(self).states@[index as int].key()))
                ==> final(self).stack@[index as int] == (match old(self).states@[index as int].outcome() {
                Some(_) => Node::<P, A>::Terminal(
                    old(self).stack@[index as int].sib(),
                    old(self).stack@[index as int].act(),
                    old(self).states@[index as int].mover(),
                    v,
                ),
                None => Node::<P, A>::Leaf(
                    old(self).stack@[index as int].sib(),
                    old(self).stack@[index as int].act(),
                    old(self).states@[index as int].mover(),
                    v,
                    1,
                ),
            }),
            !(old(self).use_transposition && old(self).map@.contains_key(old(self).states@[index as int].key()))
                ==> match old(self).states@[index as int].outcome() {
                Some(res) => v == res.spec_value(),
                None => (old(self).use_custom_evaluation ==> v == state.evaluation()) && (
                !old(self).use_custom_evaluation ==> (v == 0 || v == HALF || v == ONE) && playout_result(*state, v)),
            },
        decreases fuel, 0nat,
    {
        let ghost gs0 = self.states@;
        let ghost st0 = self.stack@;
        let (s, a) = match self.stack[index] {
            Node::Unknown(s, a) => (s, a),
            _ => {
                assert(false);
                return HALF;
            },
        };
        let mut h: u64 = 0;
        if self.use_transposition {
            h = state.hash();
            match self.map.get(&h) {
                Some(u) => {
                    let u = *u;
                    assert(self.map@.contains_key(h));
                    assert(h == gs0[index as int].key());
                    assert(gs0[u as int].key() == gs0[index as int].key());
                    assert(node_ok(st0, gs0, u as int));
                    self.set_node(index, Node::Transpose(s, a, u));
                    let ghost mid = *self;
                    let v = self.go(state, u, fuel - 1);
                    proof {
                        lemma_grows_trans(st0, gs0, mid.stack@, mid.states@, self.stack@, self.states@);
                    }
                    return v;
                },
                None => {
                    assert(h == gs0[index as int].key());
                },
            }
        }
        let p = state.player();
        proof {
            lemma_equiv_step::<P, A, S>(*state, gs0[index as int], a);
        }
        let v = match state.gameover() {
            Some(result) => {
                let v = result.value();
                proof {
                    if v == ONE {
                        assert(can_win::<P, A, S>(gs0[index as int], p, 0));
                    }
                    if v == 0 {
                        assert(must_lose::<P, A, S>(gs0[index as int], p, 0));
                    }
                }
                self.set_node(index, Node::Terminal(s, a, p, v));
                v
            },
            None => {
                let v = self.evaluate(state);
                self.set_node(index, Node::Leaf(s, a, p, v, 1));
                v
            },
        };
        if self.use_transposition {
            let ghost m0 = self.map@;
            self.map.insert(h, index);
            proof {
                assert(gs0[index as int].key() == h);
                assert forall|hh: u64| #[trigger] self.map@.contains_key(hh) implies {
                    &&& self.map@[hh] < self.stack@.len()
                    &&& self.states@[self.map@[hh] as int].key() == hh
                    &&& self.stack@[self.map@[hh] as int].is_target()
                } by {
                    if hh != h {
                        assert(m0.contains_key(hh));
                    }
                }
            }
        }
        v
    }

    /// Runs `n` descents from the root. The first call on a fresh search expands the
    /// root; nothing is searched when the root's game is already over. Each descent
    /// records exactly one visit at an expanded root until the root is solved (the
    /// count stops at `u32::MAX`); with transposition detection a descent may reach the
    /// root's position again and record more.
    pub fn ponder(&mut self, n: usize)
        requires
            old(self).wf(),
        ensures
            final(self).wf(),
            final(self).grown_from(old(self)),
            n == 0 ==> *final(self) == *old(self),
            old(self).stack.len() == 0 && old(self).root.outcome() is Some
                ==> final(self).stack.len() == 0,
            n > 0 && old(self).root.outcome() is None ==> final(self).stack.len() > 0,
            old(self).root_expanded() ==> final(self).root_expanded(),
            n > 0 && old(self).root.outcome() is None && old(self).root_expanded() ==> final(self).spec_best() is Some,
            n > 0 && old(self).root.outcome() is None && old(self).root_expanded() ==> final(self).info_matches_root(),
            old(self).stack.len() > 0 && old(self).stack@[0] is Terminal ==> final(self).stack@
                == old(self).stack@ && final(self).info.n == old(self).info.n,
            n > 0 && final(self).stack.len() > 0 && final(self).stack.len() * size_of::<Node<P, A>>()
                <= usize::MAX ==> final(self).info.bytes == final(self).stack.len() * size_of::<Node<P, A>>(),
            !old(self).use_transposition && old(self).stack.len() > 0 && old(self).stack@[0] is Branch
                ==> final(self).stack@[0] is Terminal || final(self).stack@[0].visits() == visits_after(
                old(self).stack@[0].visits(),
                n as nat,
            ),
            n == 1 && !old(self).use_transposition && old(self).stack.len() > 0 && old(self).stack@[0] is Branch
                ==> exists|j: int, cv: u64|
                old(self).best_scored(
                    &old(self).root,
                    old(self).stack@[0]->Branch_5 as int,
                    old(self).stack@[0]->Branch_2,
                    old(self).stack@[0]->Branch_4,
                    j,
                ) && #[trigger] descended(old(self).stack@[j], final(self).stack@[j], old(self).states@[j], cv, old(self).expansion),
            n > 0 && !old(self).use_transposition && old(self).stack.len() > 0 && old(self).stack@[0] is Branch
                ==> spec_solved(final(self).stack@, old(self).stack@[0]->Branch_5 as int, old(self).stack@[0]->Branch_2)
                == (if final(self).stack@[0] is Terminal {
                Some(final(self).stack@[0]->Terminal_3)
            } else {
                None
            }),
            !old(self).use_transposition && old(self).stack.len() > 0 && old(self).stack@[0] is Branch
                && final(self).stack@[0] is Terminal ==> exists|j: int|
                #[trigger] first_proven_child(
                    final(self).stack@,
                    old(self).stack@[0]->Branch_5 as int,
                    old(self).stack@[0]->Branch_2,
                    final(self).stack@[0]->Terminal_3,
                    j,
                ) && final(self).stack@[0]->Terminal_1 == final(self).stack@[j].act(),
        decreases n,
    {
        if n == 0 {
            return ;
        }
        if self.stack.len() == 0 {
            if self.root.gameover().is_some() {
                return ;
            }
            let actions = self.root.actions();
            let root = self.root;
            let first = actions[0];
            let p = root.player();
            let x = Node::Leaf(false, first, p, HALF, 1);
            proof {
                lemma_count_push(self.stack@, x, 0);
                lemma_count_push(self.stack@, x, 1);
                lemma_count_push(self.stack@, x, 2);
                lemma_count_push(self.stack@, x, 3);
                lemma_count_push(self.stack@, x, 4);
                assert forall|h: u64| !self.map@.contains_key(h) by {
                    if self.map@.contains_key(h) {
                        assert(self.map@[h] < self.stack@.len());
                    }
                }
            }
            self.stack.push(x);
            if self.use_rave {
                self.rave.push((0, 0));
            }
            self.states = Ghost(Seq::empty().push(root));
            self.info.leaf = 1;
            proof {
                assert(node_ok(self.stack@, self.states@, 0));
            }
            let expansion = self.expansion;
            self.expansion = 0;
            self.go(&root, 0, DESCENT_FUEL);
            self.expansion = expansion;
            self.info.bytes = stack_bytes::<P, A>(self.stack.len());
            self.ponder(n - 1);
        } else {
            let root = self.root;
            let mut i: usize = 0;
            while i < n
                invariant
                    self.wf(),
                    self.grown_from(old(self)),
                    self.root == root,
                    self.stack.len() > 0,
                    old(self).stack@[0] is Terminal ==> *self == *old(self),
                    i <= n,
                    old(self).stack.len() > 0,
                    old(self).root_expanded() ==> self.root_expanded(),
                    i > 0 && old(self).root_expanded() ==> self.info_matches_root(),
                    i == 0 ==> *self == *old(self),
                    i == 1 && n == 1 && !old(self).use_transposition && old(self).stack@[0] is Branch ==> exists|
                        j: int,
                        cv: u64,
                    |
                        old(self).best_scored(
                            &old(self).root,
                            old(self).stack@[0]->Branch_5 as int,
                            old(self).stack@[0]->Branch_2,
                            old(self).stack@[0]->Branch_4,
                            j,
                        ) && #[trigger] descended(old(self).stack@[j], self.stack@[j], old(self).states@[j], cv, old(self).expansion),
                    !old(self).use_transposition && old(self).stack@[0] is Branch ==> self.stack@[0] is Terminal
                        || (self.stack@[0] is Branch && self.stack@[0].visits() == visits_after(
                        old(self).stack@[0].visits(),
                        i as nat,
                    )),
                    !old(self).use_transposition && old(self).stack@[0] is Branch && self.stack@[0] is Branch
                        ==> self.stack@[0]->Branch_5 == old(self).stack@[0]->Branch_5
                        && self.stack@[0]->Branch_2 == old(self).stack@[0]->Branch_2,
                    i > 0 && !old(self).use_transposition && old(self).stack@[0] is Branch ==> spec_solved(
                        self.stack@,
                        old(self).stack@[0]->Branch_5 as int,
                        old(self).stack@[0]->Branch_2,
                    ) == (if self.stack@[0] is Terminal {
                        Some(self.stack@[0]->Terminal_3)
                    } else {
                        None
                    }),
                    !old(self).use_transposition && old(self).stack@[0] is Branch && self.stack@[0] is Terminal
                        ==> exists|j: int|
                        #[trigger] first_proven_child(
                            self.stack@,
                            old(self).stack@[0]->Branch_5 as int,
                            old(self).stack@[0]->Branch_2,
                            self.stack@[0]->Terminal_3,
                            j,
                        ) && self.stack@[0]->Terminal_1 == self.stack@[j].act(),
                decreases n - i,
            {
                self.go(&root, 0, DESCENT_FUEL);
                i = i + 1;
            }
            self.info.bytes = stack_bytes::<P, A>(self.stack.len());
        }
    }

    /// The sibling flag of the node at `index`.
    pub(crate) fn sibling_flag(&self, index: usize) -> (r: bool)
        requires
            index < self.stack.len(),
        ensures
            r == self.stack@[index as int].sib(),
    {
        match self.stack[index] {
            Node::Unknown(s, _) => s,
            Node::Terminal(s, _, _, _) => s,
            Node::Leaf(s, _, _, _, _) => s,
            Node::Branch(s, _, _, _, _, _) => s,
            Node::Transpose(s, _, _) => s,
        }
    }

    /// The move leading to the node at `index`.
    pub(crate) fn action_of(&self, index: usize) -> (r: A)
        requires
            index < self.stack.len(),
        ensures
            r == self.stack@[index as int].act(),
    {
        match self.stack[index] {
            Node::Unknown(_, a) => a,
            Node::Terminal(_, a, _, _) => a,
            Node::Leaf(_, a, _, _, _) => a,
            Node::Branch(_, a, _, _, _, _) => a,
            Node::Transpose(_, a, _) => a,
        }
    }

    /// The rank of the node at `index` as a candidate move of `player`.
    fn rank_of(&self, index: usize, player: P) -> (r: (u8, u32, u64))
        requires
            index < self.stack.len(),
            node_vals_ok(self.stack@[index as int]),
            self.stack@[index as int] matches Node::Transpose(_, _, u) ==> u < self.stack.len()
                && node_vals_ok(self.stack@[u as int]) && self.stack@[u as int].is_target(),
        ensures
            (r.0 as int, r.1 as int, r.2 as int) == rank_at(self.stack@, index as int, player),
    {
        let t = match self.stack[index] {
            Node::Transpose(_, _, u) => u,
            _ => index,
        };
        match self.stack[t] {
            Node::Terminal(_, _, p, w) => {
                let v = if p.same(&player) {
                    w
                } else {
                    ONE - w
                };
                let tier: u8 = if v >= ONE {
                    3
                } else if v == 0 {
                    0
                } else {
                    2
                };
                (tier, 0, v)
            },
            Node::Leaf(_, _, p, w, n) => {
                let v = if p.same(&player) {
                    w
                } else {
                    (n as u64) * ONE - w
                };
                (1, n, v)
            },
            Node::Branch(_, _, p, w, n, _) => {
                let v = if p.same(&player) {
                    w
                } else {
                    (n as u64) * ONE - w
                };
                (1, n, v)
            },
            _ => (1, 0, 0),
        }
    }
}

/// The size in bytes of a stack of `len` nodes, or `usize::MAX` if that overflows.
pub(crate) fn stack_bytes<P, A>(len: usize) -> (r: usize)
    ensures
        len * size_of::<Node<P, A>>() <= usize::MAX ==> r == len * size_of::<Node<P, A>>(),
{
    let sz = core::mem::size_of::<Node<P, A>>();
    match len.checked_mul(sz) {
        Some(b) => b,
        None => usize::MAX,
    }
}

/// The kind number of a node.
pub(crate) fn kind_code<P, A>(node: &Node<P, A>) -> (k: u8)
    ensures
        k == node.kind(),
{
    match node {
        Node::Unknown(_, _) => 0,
        Node::Terminal(_, _, _, _) => 1,
        Node::Leaf(_, _, _, _, _) => 2,
        Node::Branch(_, _, _, _, _, _) => 3,
        Node::Transpose(_, _, _) => 4,
    }
}

} // verus!
