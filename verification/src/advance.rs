//! Playing a move at the root while keeping what the search has learned below it.

use vstd::prelude::*;
use vstd::layout::size_of;
use std::collections::HashMap;
use crate::fixed::ONE;
use crate::game::{Player, Action, GameState};
use crate::search::{
    MCTS, Node, Info, in_chain, node_ok, count_kind, equiv, lemma_equiv_step, lemma_count_push,
    stack_bytes, kind_code, fresh_rave,
};

verus! {

/// A node as it is kept when its subtree moves: a transposition becomes an unvisited
/// node (its target may not come along), everything else stays.
pub open spec fn spec_reloc<P, A>(o: Node<P, A>) -> Node<P, A> {
    match o {
        Node::Transpose(s, a, _) => Node::Unknown(s, a),
        _ => o,
    }
}

/// `x` is the kept copy of `o`, a branch's children possibly elsewhere.
pub open spec fn copy_of<P, A>(o: Node<P, A>, x: Node<P, A>) -> bool {
    match o {
        Node::Branch(s, a, p, w, n, _) => x matches Node::Branch(s2, a2, p2, w2, n2, _) && s2 == s
            && a2 == a && p2 == p && w2 == w && n2 == n,
        _ => x == spec_reloc(o),
    }
}

/// Every node of `out` is the copy of the node of `old` that `orig` names.
pub open spec fn reloc_inv<P, A>(old: Seq<Node<P, A>>, out: Seq<Node<P, A>>, orig: Seq<int>) -> bool {
    &&& orig.len() == out.len()
    &&& forall|i: int|
        0 <= i < out.len() ==> 0 <= #[trigger] orig[i] < old.len() && copy_of(old[orig[i]], out[i])
}

/// The copy of a branch at `i` points at copies of the old branch's children, in order.
pub open spec fn linked<P, A>(old: Seq<Node<P, A>>, out: Seq<Node<P, A>>, orig: Seq<int>, i: int) -> bool {
    out[i] matches Node::Branch(_, _, _, _, _, c2) ==> {
        &&& old[orig[i]] matches Node::Branch(_, _, _, _, _, oc)
        &&& i < c2
        &&& forall|j: int|
            #[trigger] in_chain(old, oc as int, j) ==> c2 + (j - oc) < out.len() && orig[c2 + (j
                - oc)] == j
    }
}

/// The stack `new` keeps nodes of `old`: node `i` of `new` came from node `orig[i]` of
/// `old`, every node but the first is a copy of it (`copy_of`: the same node, a
/// branch's children relocated, a transposition turned into an unvisited node), and
/// the children of every kept branch are, in order, the copies of the old branch's
/// children (`linked`).
pub open spec fn kept_from<P, A>(old: Seq<Node<P, A>>, new: Seq<Node<P, A>>, orig: Seq<int>) -> bool {
    &&& orig.len() == new.len()
    &&& forall|i: int| 0 <= i < new.len() ==> 0 <= #[trigger] orig[i] < old.len()
    &&& forall|i: int| 0 < i < new.len() ==> copy_of(old[orig[i]], #[trigger] new[i])
    &&& forall|i: int| 0 <= i < new.len() ==> #[trigger] linked(old, new, orig, i)
}

/// `linked` survives growing `out` and `orig` and leaving node `i` alone.
proof fn lemma_linked_stable<P, A>(
    old: Seq<Node<P, A>>,
    out1: Seq<Node<P, A>>,
    orig1: Seq<int>,
    out2: Seq<Node<P, A>>,
    orig2: Seq<int>,
    i: int,
)
    requires
        0 <= i < out1.len(),
        orig1.len() == out1.len(),
        out1.len() <= out2.len(),
        orig2.len() == out2.len(),
        out2[i] == out1[i],
        forall|k: int| 0 <= k < orig1.len() ==> #[trigger] orig2[k] == orig1[k],
        linked(old, out1, orig1, i),
    ensures
        linked(old, out2, orig2, i),
{
    if out1[i] is Branch {
        let oc = old[orig1[i]]->Branch_5;
        let c2 = out1[i]->Branch_5;
        assert forall|j: int| #[trigger] in_chain(old, oc as int, j) implies c2 + (j - oc) < out2.len()
            && orig2[c2 + (j - oc)] == j by {
            assert(c2 + (j - oc) < out1.len());
        }
    }
}

/// In a stack whose last node has no next sibling, a chain of copies is the copy of
/// the old chain: its `t`-th member is the old chain's `t`-th.
proof fn lemma_chain_corr<P, A>(
    old: Seq<Node<P, A>>,
    out: Seq<Node<P, A>>,
    orig: Seq<int>,
    i: int,
    j: int,
)
    requires
        old.len() > 0,
        !old.last().sib(),
        reloc_inv(old, out, orig),
        0 <= i < out.len(),
        out[i] is Branch,
        linked(old, out, orig, i),
        (old[orig[i]]->Branch_5 as int) < old.len(),
        in_chain(out, out[i]->Branch_5 as int, j),
    ensures
        in_chain(old, old[orig[i]]->Branch_5 as int, old[orig[i]]->Branch_5 + (j - out[i]->Branch_5)),
        orig[j] == old[orig[i]]->Branch_5 + (j - out[i]->Branch_5),
    decreases j - out[i]->Branch_5,
{
    let c2 = out[i]->Branch_5 as int;
    let oc = old[orig[i]]->Branch_5 as int;
    if j == c2 {
        assert(in_chain(old, oc, oc));
    } else {
        assert(in_chain(out, c2, j - 1));
        lemma_chain_corr(old, out, orig, i, j - 1);
        let k = oc + (j - 1 - c2);
        assert(orig[j - 1] == k);
        assert(out[j - 1].sib());
        assert(copy_of(old[k], out[j - 1]));
        assert(old[k].sib());
        assert(k + 1 < old.len()) by {
            if k + 1 >= old.len() {
                assert(k == old.len() - 1);
            }
        }
        assert(in_chain(old, oc, k + 1)) by {
            assert forall|m: int| oc <= m < k + 1 implies (#[trigger] old[m]).sib() by {
                if m < k {
                    assert(in_chain(old, oc, k));
                }
            }
        }
    }
}

impl<P: Player, A: Action, S: GameState<P, A>> MCTS<P, A, S> {
    fn relocated(&self, u: usize) -> (r: Node<P, A>)
        requires
            u < self.stack.len(),
        ensures
            r == spec_reloc(self.stack@[u as int]),
    {
        match self.stack[u] {
            Node::Transpose(s, a, _) => Node::Unknown(s, a),
            x => x,
        }
    }

    /// Copies the subtree below the pending branch copy `out[k]`, whose children in the
    /// old stack start at `oc`: the children's block goes to the end of `out`, `out[k]`
    /// is pointed at it, and each child branch is copied in turn.
    fn relocate(&self, k: usize, oc: usize, out: &mut Vec<Node<P, A>>, orig: Ghost<Seq<int>>) -> (orig2: Ghost<Seq<int>>)
        requires
            self.wf(),
            reloc_inv(self.stack@, old(out)@, orig@),
            k < old(out).len(),
            old(out)@[k as int] == self.stack@[orig@[k as int]],
            old(out)@[k as int] matches Node::Branch(_, _, _, _, _, c) && c == oc,
        ensures
            reloc_inv(self.stack@, final(out)@, orig2@),
            final(out).len() > old(out).len(),
            !final(out)@.last().sib(),
            forall|m: int| 0 <= m < orig@.len() ==> #[trigger] orig2@[m] == orig@[m],
            forall|m: int|
                0 <= m < old(out).len() && m != k ==> #[trigger] final(out)@[m] == old(out)@[m],
            linked(self.stack@, final(out)@, orig2@, k as int),
            final(out)@[k as int] is Branch,
            forall|m: int|
                old(out).len() <= m < final(out).len() ==> linked(
                    self.stack@,
                    final(out)@,
                    orig2@,
                    m,
                ),
        decreases self.stack@.len() - oc,
    {
        let ghost st = self.stack@;
        let ghost gs = self.states@;
        let ghost out0 = out@;
        let ghost ok = orig@[k as int];
        assert(node_ok(st, gs, ok));
        let nc = out.len();
        let mut u: usize = oc;
        let mut orig1: Ghost<Seq<int>> = orig;
        loop
            invariant_except_break
                in_chain(st, oc as int, u as int),
                out.len() == nc + (u - oc),
            invariant
                self.wf(),
                st == self.stack@,
                oc < st.len(),
                oc <= u < st.len(),
                nc == out0.len(),
                orig@.len() == nc,
                k < nc,
                out.len() >= nc,
                orig1@.len() == out.len(),
                forall|m: int| 0 <= m < nc ==> #[trigger] out@[m] == out0[m] && orig1@[m] == orig@[m],
                forall|m: int|
                    nc <= m < out.len() ==> #[trigger] orig1@[m] == oc + (m - nc) && out@[m]
                        == spec_reloc(st[oc + (m - nc)]) && in_chain(st, oc as int, oc + (m - nc)),
            ensures
                out.len() == nc + (u - oc) + 1,
                in_chain(st, oc as int, u as int),
                !st[u as int].sib(),
                orig1@.len() == out.len(),
                forall|m: int| 0 <= m < nc ==> #[trigger] out@[m] == out0[m] && orig1@[m] == orig@[m],
                forall|m: int|
                    nc <= m < out.len() ==> #[trigger] orig1@[m] == oc + (m - nc) && out@[m]
                        == spec_reloc(st[oc + (m - nc)]) && in_chain(st, oc as int, oc + (m - nc)),
            decreases st.len() - u,
        {
            let x = self.relocated(u);
            out.push(x);
            proof {
                orig1@ = orig1@.push(u as int);
            }
            if !self.sibling_flag(u) {
                break ;
            }
            assert(u + 1 < self.stack.len());
            u = u + 1;
            assert(in_chain(st, oc as int, u as int)) by {
                assert forall|m: int| oc <= m < u implies (#[trigger] st[m]).sib() by {
                    if m < u - 1 {
                        assert(in_chain(st, oc as int, u - 1));
                    }
                }
            }
        }
        let end = out.len();
        let ghost last = u as int;
        assert forall|j: int| #[trigger] in_chain(st, oc as int, j) implies j <= last by {
            if j > last {
                assert(st[last].sib());
            }
        }
        match out[k] {
            Node::Branch(s, a, p, w, n, _) => {
                out.set(k, Node::Branch(s, a, p, w, n, nc));
            },
            _ => {
                assert(false);
            },
        }
        assert(node_ok(st, gs, ok));
        assert(ok < oc);
        let ghost out1 = out@;
        proof {
            assert(reloc_inv(st, out1, orig1@)) by {
                assert forall|i: int| 0 <= i < out1.len() implies 0 <= #[trigger] orig1@[i] < st.len()
                    && copy_of(st[orig1@[i]], out1[i]) by {
                    if i >= nc {
                        assert(in_chain(st, oc as int, oc + (i - nc)));
                    } else if i != k {
                        assert(out1[i] == out0[i]);
                    }
                }
            }
            assert forall|m: int| nc <= m < end implies #[trigger] out1[m] == spec_reloc(st[oc + (m - nc)]) by {
                assert(orig1@[m] == oc + (m - nc));
            }
            assert(linked(st, out1, orig1@, k as int)) by {
                assert forall|j: int| #[trigger] in_chain(st, oc as int, j) implies nc + (j - oc)
                    < out1.len() && orig1@[nc + (j - oc)] == j by {
                    assert(j <= last);
                }
            }
        }
        let mut t: usize = nc;
        while t < end
            invariant
                self.wf(),
                st == self.stack@,
                nc <= t <= end,
                k < nc,
                orig@.len() == nc,
                end == out1.len(),
                nc < end,
                out.len() >= end,
                reloc_inv(st, out@, orig1@),
                !out@.last().sib(),
                forall|m: int| 0 <= m < out1.len() ==> #[trigger] orig1@[m] == (if m < nc {
                    orig@[m]
                } else {
                    oc + (m - nc)
                }),
                forall|m: int|
                    0 <= m < nc && m != k ==> #[trigger] out@[m] == out0[m],
                out@[k as int] == out1[k as int],
                linked(st, out@, orig1@, k as int),
                forall|m: int| t <= m < end ==> #[trigger] out@[m] == out1[m],
                forall|m: int| nc <= m < end ==> #[trigger] out1[m] == spec_reloc(st[oc + (m - nc)]),
                forall|m: int| nc <= m < t ==> linked(st, out@, orig1@, m),
                forall|m: int| end <= m < out.len() ==> linked(st, out@, orig1@, m),
                oc < st.len(),
                forall|m: int| nc <= m < end ==> in_chain(st, oc as int, #[trigger] (oc + (m - nc))),
            decreases end - t,
        {
            let ghost outb = out@;
            let ghost origb = orig1@;
            match out[t] {
                Node::Branch(_, _, _, _, _, oc2) => {
                    let ghost ot = oc + (t - nc);
                    assert(out@[t as int] == spec_reloc(st[ot]));
                    assert(st[ot] is Branch);
                    assert(node_ok(st, self.states@, ot));
                    assert(oc2 > oc);
                    orig1 = self.relocate(t, oc2, out, orig1);
                    assert(out@[k as int] == outb[k as int]);
                    proof {
                        assert forall|m: int| 0 <= m < outb.len() && m != t && linked(st, outb, origb, m)
                            implies #[trigger] linked(st, out@, orig1@, m) by {
                            lemma_linked_stable(st, outb, origb, out@, orig1@, m);
                        }
                        assert(linked(st, out@, orig1@, k as int));
                    }
                },
                _ => {
                    proof {
                        assert(linked(st, out@, orig1@, t as int));
                    }
                },
            }
            t = t + 1;
        }
        orig1
    }

    /// The search after `action` is played at the root. When the root was expanded and
    /// the child for `action` is itself expanded, that child's subtree is kept as the
    /// new tree with all its statistics (transpositions in it become unvisited nodes,
    /// and the transposition table starts empty); otherwise the new search starts
    /// with an empty tree. The settings and the random generator carry over; the
    /// all-moves-as-first statistics of the kept nodes start from nothing.
    pub fn advance(self, action: A) -> (r: Self)
        requires
            self.wf(),
            self.root.outcome() is None,
            self.root.legal(action),
        ensures
            r.wf(),
            r.root == self.root.next(action),
            r.exploration == self.exploration,
            r.expansion == self.expansion,
            r.use_custom_evaluation == self.use_custom_evaluation,
            r.use_transposition == self.use_transposition,
            r.use_rave == self.use_rave,
            r.use_puct == self.use_puct,
            r.map@.is_empty(),
            forall|i: int| 0 <= i < r.rave.len() ==> #[trigger] r.rave@[i] == (0u32, 0u64),
            forall|i: int| 0 <= i < r.stack.len() ==> !(#[trigger] r.stack@[i] is Transpose),
            r.stack.len() == 0 <==> r.info.n == 0,
            r.stack.len() > 0 ==> self.kept_child(action, r.stack@[0]->Branch_2, r.stack@[0]->Branch_3, r.info.n),
            r.stack.len() > 0 ==> r.stack@[0] is Branch,
            r.stack.len() > 0 ==> exists|orig: Seq<int>|
                #[trigger] kept_from(self.stack@, r.stack@, orig) && self.first_match(action, orig[0]),
            r.root_expanded(),
            (exists|j: int| #[trigger] self.first_match(action, j) && self.stack@[j] is Branch)
                ==> r.stack.len() > 0,
    {
        let next = self.root.make(action);
        let found = self.find_child(action);
        let ghost st = self.stack@;
        let ghost gs = self.states@;
        let j0 = match found {
            Some(j) => j,
            None => {
                return self.fresh(next);
            },
        };
        let (s0, a0, p0, w0, n0, oc0) = match self.stack[j0] {
            Node::Branch(s, a, p, w, n, c) => (s, a, p, w, n, c),
            _ => {
                return self.fresh(next);
            },
        };
        assert(node_ok(st, gs, 0));
        assert(node_ok(st, gs, j0 as int));
        let mut out: Vec<Node<P, A>> = Vec::new();
        out.push(Node::Branch(s0, a0, p0, w0, n0, oc0));
        let ghost o0: Seq<int> = Seq::empty().push(j0 as int);
        let orig0: Ghost<Seq<int>> = Ghost(o0);
        let orig = self.relocate(0, oc0, &mut out, orig0);
        let c_new = match out[0] {
            Node::Branch(_, _, _, _, _, c) => c,
            _ => {
                assert(false);
                0
            },
        };
        let ghost out1 = out@;
        out.set(0, Node::Branch(false, a0, p0, w0, n0, c_new));
        let ghost gs2 = Seq::new(out.len() as nat, |i: int| if i == 0 {
            next
        } else {
            gs[orig@[i]]
        });
        proof {
            self.lemma_reloc_nodes_ok(out1, out@, orig@, gs2, next, j0 as int);
            assert forall|i: int| 0 <= i < out@.len() implies #[trigger] linked(st, out@, orig@, i) by {
                assert(linked(st, out1, orig@, i));
            }
            assert forall|i: int| 0 < i < out@.len() implies copy_of(st[orig@[i]], #[trigger] out@[i]) by {
                assert(out@[i] == out1[i]);
            }
            assert(kept_from(st, out@, orig@));
        }
        let info = self.count_info(&out, n0, w0 / (n0 as u64));
        let rave = fresh_rave(out.len());
        let r = MCTS {
            exploration: self.exploration,
            expansion: self.expansion,
            use_custom_evaluation: self.use_custom_evaluation,
            use_transposition: self.use_transposition,
            use_rave: self.use_rave,
            use_puct: self.use_puct,
            info,
            root: next,
            stack: out,
            rand: self.rand,
            map: HashMap::new(),
            rave: rave,
            played: Vec::new(),
            states: Ghost(gs2),
        };
        assert(r.map@.dom() =~= Set::empty());
        r
    }


    /// The kept subtree, with the played position at its root, satisfies the node
    /// invariants.
    proof fn lemma_reloc_nodes_ok(
        &self,
        out1: Seq<Node<P, A>>,
        out2: Seq<Node<P, A>>,
        orig: Seq<int>,
        gs2: Seq<S>,
        next: S,
        j0: int,
    )
        requires
            self.wf(),
            self.stack@[0] is Branch,
            in_chain(self.stack@, self.stack@[0]->Branch_5 as int, j0),
            self.stack@[j0] is Branch,
            next == self.root.next(self.stack@[j0].act()),
            reloc_inv(self.stack@, out1, orig),
            orig[0] == j0,
            out1.len() > 1,
            out1[0] is Branch,
            forall|m: int| 0 <= m < out1.len() ==> linked(self.stack@, out1, orig, m),
            !out1.last().sib(),
            out2 == out1.update(
                0,
                Node::Branch(
                    false,
                    out1[0]->Branch_1,
                    out1[0]->Branch_2,
                    out1[0]->Branch_3,
                    out1[0]->Branch_4,
                    out1[0]->Branch_5,
                ),
            ),
            gs2.len() == out2.len(),
            gs2[0] == next,
            forall|i: int| 0 < i < gs2.len() ==> #[trigger] gs2[i] == self.states@[orig[i]],
        ensures
            forall|i: int| 0 <= i < out2.len() ==> #[trigger] node_ok(out2, gs2, i),
            !out2.last().sib(),
            forall|i: int| 0 <= i < out2.len() ==> !(#[trigger] out2[i] is Transpose),
    {
        let st = self.stack@;
        let gs = self.states@;
        assert(node_ok(st, gs, 0));
        assert(node_ok(st, gs, j0));
        assert(gs[0] == self.root);
        let a0 = st[j0].act();
        assert(equiv::<P, A, S>(gs[j0], next));
        assert forall|i: int| 0 <= i < out2.len() implies !(#[trigger] out2[i] is Transpose) by {
            assert(copy_of(st[orig[i]], out1[i]));
        }
        assert forall|i: int| 0 <= i < out2.len() implies #[trigger] node_ok(out2, gs2, i) by {
            let o = orig[i];
            assert(copy_of(st[o], out1[i]));
            assert(node_ok(st, gs, o));
            if out2[i] is Branch {
                let c2 = out2[i]->Branch_5 as int;
                assert(linked(st, out1, orig, i));
                let oc = st[o]->Branch_5 as int;
                assert(in_chain(st, oc, oc));
                assert forall|j: int| #[trigger] in_chain(out2, c2, j) implies gs2[i].legal(
                    out2[j].act(),
                ) && equiv::<P, A, S>(gs2[j], gs2[i].next(out2[j].act())) by {
                    assert(in_chain(out1, c2, j)) by {
                        assert forall|m: int| c2 <= m < j implies (#[trigger] out1[m]).sib() by {
                            assert(out2[m] == out1[m]);
                        }
                    }
                    lemma_chain_corr(st, out1, orig, i, j);
                    let oj = oc + (j - c2);
                    assert(copy_of(st[oj], out1[j]));
                    assert(out2[j] == out1[j]);
                    assert(out2[j].act() == st[oj].act());
                    assert(gs2[j] == gs[oj]);
                    if i == 0 {
                        lemma_equiv_step::<P, A, S>(gs[j0], next, st[oj].act());
                    }
                }
                if i == 0 {
                    lemma_equiv_step::<P, A, S>(gs[j0], next, a0);
                }
                assert forall|b: A| #[trigger] gs2[i].legal(b) implies exists|j: int|
                    #[trigger] in_chain(out2, c2, j) && out2[j].act() == b by {
                    if i == 0 {
                        lemma_equiv_step::<P, A, S>(gs[j0], next, b);
                    }
                    assert(gs[o].legal(b));
                    let oj = choose|oj: int| #[trigger] in_chain(st, oc, oj) && st[oj].act() == b;
                    let j = c2 + (oj - oc);
                    assert forall|k: int| c2 <= k < j implies #[trigger] out2[k].sib() by {
                        let ok = oc + (k - c2);
                        assert(in_chain(st, oc, ok)) by {
                            assert forall|m: int| oc <= m < ok implies (#[trigger] st[m]).sib() by {
                                assert(in_chain(st, oc, oj));
                            }
                        }
                        assert(orig[c2 + (ok - oc)] == ok);
                        assert(copy_of(st[orig[k]], out1[k]));
                        assert(out2[k] == out1[k]);
                    }
                    assert(orig[c2 + (oj - oc)] == oj);
                    assert(copy_of(st[oj], out1[j]));
                    assert(out2[j] == out1[j]);
                    assert(in_chain(out2, c2, j));
                }
            } else if i == 0 {
                assert(false);
            }
        }
    }

    /// `j` is the first child of the expanded root whose move is `action`.
    pub open spec fn first_match(&self, action: A, j: int) -> bool {
        &&& self.stack@.len() > 0
        &&& self.stack@[0] is Branch
        &&& in_chain(self.stack@, self.stack@[0]->Branch_5 as int, j)
        &&& self.stack@[j].act() == action
        &&& forall|k: int|
            self.stack@[0]->Branch_5 <= k < j ==> #[trigger] self.stack@[k].act() != action
    }

    /// The kept subtree's root is the first matching child, an expanded node for the
    /// side `p` with value sum `w` over `n` visits.
    pub open spec fn kept_child(&self, action: A, p: P, w: u64, n: u32) -> bool {
        exists|j: int|
            #[trigger] self.first_match(action, j) && self.stack@[j] == Node::Branch(
                self.stack@[j].sib(),
                action,
                p,
                w,
                n,
                self.stack@[j]->Branch_5,
            )
    }

    /// The index of the first child of the expanded root whose move is `action`.
    fn find_child(&self, action: A) -> (r: Option<usize>)
        requires
            self.wf(),
        ensures
            match r {
                Some(j) => self.first_match(action, j as int),
                None => forall|j: int| !#[trigger] self.first_match(action, j),
            },
    {
        if self.stack.len() == 0 {
            return None;
        }
        let c = match self.stack[0] {
            Node::Branch(_, _, _, _, _, c) => c,
            _ => return None,
        };
        let ghost st = self.stack@;
        assert(node_ok(st, self.states@, 0));
        let mut u: usize = c;
        loop
            invariant
                self.wf(),
                st == self.stack@,
                st[0] matches Node::Branch(_, _, _, _, _, cc) && cc == c,
                c <= u,
                in_chain(st, c as int, u as int),
                forall|k: int| c <= k < u ==> #[trigger] st[k].act() != action,
            decreases st.len() - u,
        {
            if action.same(&self.action_of(u)) {
                return Some(u);
            }
            if !self.sibling_flag(u) {
                assert forall|j: int| !#[trigger] self.first_match(action, j) by {
                    if self.first_match(action, j) && j > u {
                        assert(st[u as int].sib());
                    }
                }
                return None;
            }
            assert(u + 1 < self.stack.len());
            u = u + 1;
            assert(in_chain(st, c as int, u as int)) by {
                assert forall|m: int| c <= m < u implies (#[trigger] st[m]).sib() by {
                    if m < u - 1 {
                        assert(in_chain(st, c as int, u - 1));
                    }
                }
            }
        }
    }

    /// A new search from `next` with the settings and generator of `self`.
    fn fresh(self, next: S) -> (r: Self)
        requires
            self.wf(),
        ensures
            r.wf(),
            r.root == next,
            r.stack.len() == 0,
            r.info.n == 0,
            r.map@.is_empty(),
            r.exploration == self.exploration,
            r.expansion == self.expansion,
            r.use_custom_evaluation == self.use_custom_evaluation,
            r.use_transposition == self.use_transposition,
            r.use_rave == self.use_rave,
            r.use_puct == self.use_puct,
            r.rave.len() == 0,
    {
        let r = MCTS {
            exploration: self.exploration,
            expansion: self.expansion,
            use_custom_evaluation: self.use_custom_evaluation,
            use_transposition: self.use_transposition,
            use_rave: self.use_rave,
            use_puct: self.use_puct,
            info: Info { n: 0, q: 0, branch: 0, leaf: 0, terminal: 0, unknown: 0, transpose: 0, bytes: 0 },
            root: next,
            stack: Vec::new(),
            rand: self.rand,
            map: HashMap::new(),
            rave: Vec::new(),
            played: Vec::new(),
            states: Ghost(Seq::empty()),
        };
        assert(r.map@.dom() =~= Set::empty());
        r
    }

    /// The statistics of a stack: its kind counts and size, with the root's visits and
    /// value.
    fn count_info(&self, out: &Vec<Node<P, A>>, n: u32, q: u64) -> (info: Info)
        ensures
            info.unknown == count_kind(out@, 0),
            info.terminal == count_kind(out@, 1),
            info.leaf == count_kind(out@, 2),
            info.branch == count_kind(out@, 3),
            info.transpose == count_kind(out@, 4),
            info.n == n,
            info.q == q,
    {
        let mut counts: [usize; 5] = [0, 0, 0, 0, 0];
        let mut i: usize = 0;
        while i < out.len()
            invariant
                i <= out.len(),
                forall|k: int| 0 <= k < 5 ==> #[trigger] counts@[k] == count_kind(out@.take(i as int), k),
                forall|k: int| 0 <= k < 5 ==> #[trigger] counts@[k] <= i,
            decreases out.len() - i,
        {
            let k = kind_code(&out[i]) as usize;
            proof {
                assert(out@.take(i as int + 1) =~= out@.take(i as int).push(out@[i as int]));
                assert forall|kk: int| 0 <= kk < 5 implies count_kind(out@.take(i as int + 1), kk)
                    == count_kind(out@.take(i as int), kk) + (if out@[i as int].kind() == kk {
                    1nat
                } else {
                    0nat
                }) by {
                    lemma_count_push(out@.take(i as int), out@[i as int], kk);
                }
            }
            counts[k] = counts[k] + 1;
            i = i + 1;
        }
        assert(out@.take(out@.len() as int) =~= out@);
        Info {
            n,
            q,
            branch: counts[3],
            leaf: counts[2],
            terminal: counts[1],
            unknown: counts[0],
            transpose: counts[4],
            bytes: stack_bytes::<P, A>(out.len()),
        }
    }
}

} // verus!
