//! Solvers: from a configuration, repeatedly take the first turn whose
//! neighbour is one layer closer in the pruning table, until the solved
//! state's reduced index is reached.

pub mod solverfto2;
pub mod solverfto2split;
pub mod solverpyra;

use vstd::prelude::*;

verus! {

/// Why no solution came out.
#[derive(Clone, Copy, Debug, PartialEq, Eq, Structural)]
pub enum SolveError {
    /// A configuration's representative is missing from the table of representatives.
    MissingRepresentative,
    /// No turn leads one layer closer although the solved state is not reached:
    /// the pruning table is incomplete or corrupt.
    NoImprovingMove,
    /// More turns than there are reduced states were taken.
    StepLimit,
}

/// The configuration after the turns `moves`, in order, under the turn function `step`.
pub open spec fn walk<V>(step: spec_fn(V, nat) -> V, v: V, moves: Seq<u8>) -> V
    decreases moves.len(),
{
    if moves.len() == 0 {
        v
    } else {
        step(walk(step, v, moves.drop_last()), moves.last() as nat)
    }
}

/// The turn that undoes turn `t`: the same face in the other direction.
pub open spec fn partner(t: nat) -> nat {
    if t % 2 == 0 {
        t + 1
    } else {
        (t - 1) as nat
    }
}

/// Turns below 8 keep configurations well formed and are undone by their partner.
pub open spec fn invertible<V>(step: spec_fn(V, nat) -> V, wf: spec_fn(V) -> bool) -> bool {
    forall|v: V, t: nat| wf(v) && t < 8 ==> wf(#[trigger] step(v, t)) && step(step(v, t), partner(t)) == v
}

/// `moves` are turns below 8 that take `v` to a configuration meeting `goal`.
pub open spec fn solves<V>(step: spec_fn(V, nat) -> V, goal: spec_fn(V) -> bool, v: V, moves: Seq<u8>) -> bool {
    &&& forall|k: int| 0 <= k < moves.len() ==> #[trigger] moves[k] < 8
    &&& goal(walk(step, v, moves))
}

/// Some `d` turns below 8 take `v` to the goal.
pub open spec fn solvable_in<V>(step: spec_fn(V, nat) -> V, goal: spec_fn(V) -> bool, v: V, d: nat) -> bool {
    exists|moves: Seq<u8>| moves.len() == d && #[trigger] solves(step, goal, v, moves)
}

/// `d` is the least number of turns below 8 that take `v` to the goal.
pub open spec fn is_dist<V>(step: spec_fn(V, nat) -> V, goal: spec_fn(V) -> bool, v: V, d: nat) -> bool {
    &&& solvable_in(step, goal, v, d)
    &&& forall|j: nat| j < d ==> !#[trigger] solvable_in(step, goal, v, j)
}

pub proof fn lemma_walk_prepend<V>(step: spec_fn(V, nat) -> V, v: V, t: u8, ms: Seq<u8>)
    ensures
        walk(step, v, seq![t] + ms) == walk(step, step(v, t as nat), ms),
    decreases ms.len(),
{
    if ms.len() == 0 {
        assert(seq![t] + ms =~= seq![t]);
        assert(seq![t].drop_last() =~= Seq::<u8>::empty());
        assert(seq![t].last() == t);
        assert(walk(step, v, Seq::<u8>::empty()) == v);
        assert(walk(step, step(v, t as nat), ms) == step(v, t as nat));
        assert(walk(step, v, seq![t]) == step(walk(step, v, seq![t].drop_last()), seq![t].last() as nat));
    } else {
        lemma_walk_prepend(step, v, t, ms.drop_last());
        assert((seq![t] + ms).drop_last() =~= seq![t] + ms.drop_last());
        assert((seq![t] + ms).last() == ms.last());
    }
}

pub proof fn lemma_dist_unique<V>(step: spec_fn(V, nat) -> V, goal: spec_fn(V) -> bool, v: V, a: nat, b: nat)
    requires
        is_dist(step, goal, v, a),
        is_dist(step, goal, v, b),
    ensures
        a == b,
{
    if a < b {
        assert(!solvable_in(step, goal, v, a));
    } else if b < a {
        assert(!solvable_in(step, goal, v, b));
    }
}

pub proof fn lemma_dist_exists<V>(step: spec_fn(V, nat) -> V, goal: spec_fn(V) -> bool, v: V, k: nat)
    requires
        solvable_in(step, goal, v, k),
    ensures
        exists|d: nat| d <= k && #[trigger] is_dist(step, goal, v, d),
    decreases k,
{
    if !is_dist(step, goal, v, k) {
        let j = choose|j: nat| j < k && #[trigger] solvable_in(step, goal, v, j);
        lemma_dist_exists(step, goal, v, j);
    }
}

/// Distance 0 is exactly meeting the goal.
pub proof fn lemma_dist_zero<V>(step: spec_fn(V, nat) -> V, goal: spec_fn(V) -> bool, v: V, d: nat)
    requires
        is_dist(step, goal, v, d),
    ensures
        (d == 0) == goal(v),
{
    let e = Seq::<u8>::empty();
    assert(walk(step, v, e) == v);
    if goal(v) {
        assert(solves(step, goal, v, e));
        assert(solvable_in(step, goal, v, 0));
    }
    if d == 0 {
        let m = choose|m: Seq<u8>| m.len() == 0 && #[trigger] solves(step, goal, v, m);
        assert(m =~= e);
    }
}

/// One turn changes the distance by at most one.
pub proof fn lemma_step_dist<V>(step: spec_fn(V, nat) -> V, goal: spec_fn(V) -> bool, wf: spec_fn(V) -> bool, v: V, d: nat, t: u8)
    requires
        invertible(step, wf),
        wf(v),
        is_dist(step, goal, v, d),
        t < 8,
    ensures
        exists|e: nat| #[trigger] is_dist(step, goal, step(v, t as nat), e) && e + 1 >= d && e <= d + 1,
{
    let w = step(v, t as nat);
    let m = choose|m: Seq<u8>| m.len() == d && #[trigger] solves(step, goal, v, m);
    let p = partner(t as nat) as u8;
    assert(wf(v) && (t as nat) < 8);
    assert(step(w, p as nat) == v);
    lemma_walk_prepend(step, w, p, m);
    let pm = seq![p] + m;
    assert forall|k: int| 0 <= k < pm.len() implies #[trigger] pm[k] < 8 by {
        if k > 0 {
            assert(pm[k] == m[k - 1]);
        }
    }
    assert(solves(step, goal, w, pm));
    assert(solvable_in(step, goal, w, d + 1));
    lemma_dist_exists(step, goal, w, d + 1);
    let e = choose|e: nat| e <= d + 1 && #[trigger] is_dist(step, goal, w, e);
    let me = choose|me: Seq<u8>| me.len() == e && #[trigger] solves(step, goal, w, me);
    lemma_walk_prepend(step, v, t, me);
    let tm = seq![t] + me;
    assert forall|k: int| 0 <= k < tm.len() implies #[trigger] tm[k] < 8 by {
        if k > 0 {
            assert(tm[k] == me[k - 1]);
        }
    }
    assert(solves(step, goal, v, tm));
    assert(solvable_in(step, goal, v, e + 1));
    if e + 1 < d {
        assert(!solvable_in(step, goal, v, e + 1));
    }
}

/// From distance `d > 0`, the first turn of a shortest solution leads to distance `d - 1`.
pub proof fn lemma_first_move<V>(step: spec_fn(V, nat) -> V, goal: spec_fn(V) -> bool, v: V, d: nat)
    requires
        is_dist(step, goal, v, d),
        d > 0,
    ensures
        exists|t: u8| t < 8 && #[trigger] is_dist(step, goal, step(v, t as nat), (d - 1) as nat),
{
    let m = choose|m: Seq<u8>| m.len() == d && #[trigger] solves(step, goal, v, m);
    let t = m[0];
    let ms = m.drop_first();
    assert(m =~= seq![t] + ms);
    lemma_walk_prepend(step, v, t, ms);
    assert(t < 8);
    let w = step(v, t as nat);
    assert(solves(step, goal, w, ms)) by {
        assert forall|k: int| 0 <= k < ms.len() implies #[trigger] ms[k] < 8 by {
            assert(ms[k] == m[k + 1]);
        }
    }
    assert(solvable_in(step, goal, w, (d - 1) as nat));
    assert forall|j: nat| j < d - 1 implies !#[trigger] solvable_in(step, goal, w, j) by {
        if solvable_in(step, goal, w, j) {
            let mj = choose|mj: Seq<u8>| mj.len() == j && #[trigger] solves(step, goal, w, mj);
            lemma_walk_prepend(step, v, t, mj);
            let tm = seq![t] + mj;
            assert forall|k: int| 0 <= k < tm.len() implies #[trigger] tm[k] < 8 by {
                if k > 0 {
                    assert(tm[k] == mj[k - 1]);
                }
            }
            assert(solves(step, goal, v, tm));
            assert(solvable_in(step, goal, v, j + 1));
        }
    }
    assert(is_dist(step, goal, w, (d - 1) as nat));
}

/// Among neighbours whose distance differs by at most one, the test on
/// distances modulo 3 picks exactly those one closer.
pub proof fn lemma_mod3_test(d: nat, e: nat)
    requires
        d >= 1,
        e + 1 >= d,
        e <= d + 1,
    ensures
        (((e % 3) + 1) % 3 == d % 3) == (e + 1 == d),
{
}

/// Walking one more turn: the configuration after `moves.push(t)`.
pub proof fn lemma_walk_push<V>(step: spec_fn(V, nat) -> V, v: V, moves: Seq<u8>, t: u8)
    ensures
        walk(step, v, moves.push(t)) == step(walk(step, v, moves), t as nat),
{
    assert(moves.push(t).drop_last() =~= moves);
}

/// The turns `m1` then `m2`.
pub open spec fn two_turns(m1: u8, m2: u8) -> Seq<u8> {
    seq![m1, m2]
}

/// A configuration two turns from the goal is at distance at most 2.
pub proof fn lemma_two_move_scramble<V>(step: spec_fn(V, nat) -> V, goal: spec_fn(V) -> bool, wf: spec_fn(V) -> bool, v: V, m1: u8, m2: u8)
    requires
        invertible(step, wf),
        wf(v),
        goal(v),
        m1 < 8,
        m2 < 8,
    ensures
        exists|d: nat| d <= 2 && #[trigger] is_dist(step, goal, walk(step, v, two_turns(m1, m2)), d),
{
    let ms = two_turns(m1, m2);
    assert(ms.drop_last() =~= seq![m1]);
    assert(seq![m1].drop_last() =~= Seq::<u8>::empty());
    let v1 = step(v, m1 as nat);
    let w = step(v1, m2 as nat);
    let e = Seq::<u8>::empty();
    assert(walk(step, v, e) == v);
    lemma_walk_push(step, v, e, m1);
    assert(e.push(m1) =~= seq![m1]);
    lemma_walk_push(step, v, seq![m1], m2);
    assert(seq![m1].push(m2) =~= ms);
    assert(walk(step, v, ms) == w);
    assert(wf(v1));
    let p2 = partner(m2 as nat) as u8;
    let p1 = partner(m1 as nat) as u8;
    let back = seq![p2, p1];
    assert(back.drop_last() =~= seq![p2]);
    assert(seq![p2].drop_last() =~= Seq::<u8>::empty());
    assert(walk(step, w, e) == w);
    lemma_walk_push(step, w, e, p2);
    assert(e.push(p2) =~= seq![p2]);
    assert(step(w, p2 as nat) == v1);
    lemma_walk_push(step, w, seq![p2], p1);
    assert(seq![p2].push(p1) =~= back);
    assert(walk(step, w, back) == step(v1, p1 as nat));
    assert(step(v1, p1 as nat) == v);
    assert(solves(step, goal, w, back));
    assert(solvable_in(step, goal, w, 2));
    lemma_dist_exists(step, goal, w, 2);
}

} // verus!
