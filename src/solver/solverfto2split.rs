//! Solver of the smaller octahedron over the split pruning table: reduced
//! corners and raw centres.

use vstd::prelude::*;
use crate::pruning::{PruningTable, is_generated, read, table_len};
use crate::solver::{
    SolveError, is_dist, lemma_dist_unique, lemma_dist_zero, lemma_first_move, lemma_mod3_test, lemma_step_dist,
    lemma_walk_push, walk,
};
use crate::pruning::slot;
use crate::state::State;
use crate::state::statefto2::{Fto2View, StateFTO2, fto2_step, fto2_wf, lemma_lower_turns_invertible};
use crate::stateset::StateSet;
use crate::stateset::statesetfto2split::StateSetFTO2Split;
use crate::indexing::{orientation_rank, perm_rank};
use crate::state::statecorners::StateCorners;
use crate::state::statecenters::StateCenters;
use crate::symmetry::is_first_min_sym;
use crate::symmetry::repr;

verus! {

/// The representative of the corners of `v`.
pub open spec fn corners_repr_of(v: Fto2View) -> nat {
    repr::<StateCorners>(StateCorners::unranked(perm_rank(v.0) * 32 + orientation_rank(v.1)))
}

/// The split search space of the smaller octahedron with its pruning table.
pub struct SolverFTO2Split {
    pub set: StateSetFTO2Split,
    pub pruning_table: Vec<u8>,
}

impl SolverFTO2Split {
    pub open spec fn wf(&self) -> bool {
        self.set.wf() && self.pruning_table@.len() == table_len(self.set.spec_size())
    }

    /// Builds the pruning table of `set` (filling the last layer).
    pub fn new(set: StateSetFTO2Split) -> (r: Self)
        requires
            set.wf(),
        ensures
            r.wf(),
            r.set == set,
            exists|d: u8| #[trigger] is_generated(&r.set, r.pruning_table@, d, true),
    {
        let table = PruningTable::new(set);
        let (pruning_table, _depth) = table.generate(true);
        SolverFTO2Split { set: table.set, pruning_table }
    }

    /// The solver over a pruning table read from storage; `None` when its
    /// length does not fit `set`.
    pub fn with_table(set: StateSetFTO2Split, pruning_table: Vec<u8>) -> (r: Option<Self>)
        requires
            set.wf(),
        ensures
            r is Some <==> pruning_table@.len() == table_len(set.spec_size()),
            r is Some ==> r->0.wf() && r->0.set == set && r->0.pruning_table@ == pruning_table@,
    {
        if pruning_table.len() == (set.size() + 3) / 4 {
            Some(SolverFTO2Split { set, pruning_table })
        } else {
            None
        }
    }

    /// Whether `x` is the combined index of configuration `v`.
    pub open spec fn is_index_of(&self, x: nat, v: Fto2View) -> bool {
        self.set.is_index_of_parts(x, perm_rank(v.0), orientation_rank(v.1), perm_rank(v.2))
    }

    /// The combined index of `fto2`; `None` when its corners' representative is missing.
    fn index_of_state(&self, fto2: &StateFTO2) -> (r: Option<usize>)
        requires
            self.wf(),
            StateFTO2::wf_view(fto2@),
        ensures
            r is Some ==> self.is_index_of(r->0 as nat, fto2@) && r->0 < self.set.spec_size(),
            r is None ==> !self.set.corner_reprs@.contains(corners_repr_of(fto2@) as usize),
    {
        let (cp, co, ce) = fto2.get_parts();
        self.set.from_parts(cp, co, ce)
    }

    /// The combined index of `v`.
    pub open spec fn position(&self, v: Fto2View) -> int {
        choose|x: int| 0 <= x < self.set.spec_size() && #[trigger] self.is_index_of(x as nat, v)
    }

    /// The pruning table's value for configuration `v`.
    pub open spec fn value_of(&self, v: Fto2View) -> u8 {
        slot(self.pruning_table@, self.position(v))
    }

    /// Turn `t` leads one layer closer by the table's values.
    pub open spec fn improves(&self, v: Fto2View, t: nat) -> bool {
        (self.value_of(fto2_step()(v, t)) + 1) % 3 == self.value_of(v) as int
    }

    /// `t` is the least turn below 8 that leads one layer closer.
    pub open spec fn first_improving(&self, v: Fto2View, t: u8) -> bool {
        &&& t < 8
        &&& self.improves(v, t as nat)
        &&& forall|u: nat| u < t ==> !#[trigger] self.improves(v, u)
    }

    proof fn lemma_position(&self, v: Fto2View, i: int)
        requires
            self.wf(),
            0 <= i < self.set.spec_size(),
            self.is_index_of(i as nat, v),
        ensures
            self.position(v) == i,
    {
        let p = self.position(v);
        assert(0 <= p < self.set.spec_size() && self.is_index_of(p as nat, v));
        self.set.lemma_index_of_parts_unique(p as nat, i as nat, perm_rank(v.0), orientation_rank(v.1), perm_rank(v.2));
    }

    /// The solver's goal: the combined index of the solved state.
    pub open spec fn goal(&self) -> spec_fn(Fto2View) -> bool {
        |v: Fto2View| self.is_index_of(self.set.solved as nat, v)
    }

    /// The pruning table holds, for every configuration at distance `d` from
    /// the goal (in turns below 8), its representative and the value `d % 3`.
    pub open spec fn table_is_distance(&self) -> bool {
        forall|v: Fto2View, d: nat|
            StateFTO2::wf_view(v) && #[trigger] is_dist(fto2_step(), self.goal(), v, d) ==> {
                &&& self.set.corner_reprs@.contains(corners_repr_of(v) as usize)
                &&& forall|x: nat| x < self.set.spec_size() && #[trigger] self.is_index_of(x, v)
                        ==> slot(self.pruning_table@, x as int) == d % 3
            }
    }

    /// The turns (each below 8) that bring `fto2` to the combined index of the
    /// solved state, taking at each step the first turn one layer closer.
    /// Over a table that holds the distances, a configuration at distance `d`
    /// (within the step limit) is solved in exactly `d` turns.
    #[verifier::rlimit(100)]
    #[verifier::spinoff_prover]
    pub fn solve(&self, fto2: &StateFTO2) -> (r: Result<Vec<u8>, SolveError>)
        requires
            self.wf(),
            StateFTO2::wf_view(fto2@),
        ensures
            r matches Ok(moves) ==> ((forall|k: int| 0 <= k < moves@.len() ==> #[trigger] moves@[k] < 8)
                && (self.goal())(walk(fto2_step(), fto2@, moves@))),
            fto2@ == StateFTO2::solved_view() ==> (r matches Ok(moves) && moves@.len() == 0),
            r matches Ok(moves) ==> forall|k: int| 0 <= k < moves@.len() ==> #[trigger] self.first_improving(
                walk(fto2_step(), fto2@, moves@.take(k)),
                moves@[k],
            ),
            self.table_is_distance() ==> forall|d: nat|
                #[trigger] is_dist(fto2_step(), self.goal(), fto2@, d) && d <= self.set.spec_size()
                    ==> (r matches Ok(moves) && moves@.len() == d),
    {
        let solved = self.set.solved;
        let limit = self.set.size();
        let mut current = *fto2;
        let mut moves: Vec<u8> = Vec::new();
        let ghost step = fto2_step();
        let ghost goal = self.goal();
        let ghost good = self.table_is_distance() && exists|d: nat| is_dist(step, goal, fto2@, d) && d <= limit;
        let ghost d0: nat = if good { choose|d: nat| is_dist(step, goal, fto2@, d) && d <= limit } else { 0 };
        let ghost mut dcur: nat = d0;
        proof {
            lemma_lower_turns_invertible();
            assert(walk(step, fto2@, moves@) == fto2@);
            assert forall|d: nat| self.table_is_distance() && #[trigger] is_dist(step, goal, fto2@, d) && d <= limit implies good by {}
        }
        proof {
            if fto2@ == StateFTO2::solved_view() {
                crate::indexing::lemma_identity_rank(6);
                crate::indexing::lemma_identity_rank(4);
                crate::indexing::lemma_oriented_rank();
                assert(StateCorners::unranked(0) =~= StateCorners::solved_view());
                assert(corners_repr_of(fto2@) == self.set.corner_reprs@[(solved / 12) as int]);
            }
        }
        let mut idx = match self.index_of_state(&current) {
            Some(i) => i,
            None => {
                assert(!good);
                return Err(SolveError::MissingRepresentative);
            },
        };
        proof {
            if fto2@ == StateFTO2::solved_view() {
                let a = (idx / 12) as int;
                let b = (solved / 12) as int;
                if a < b {
                    assert(self.set.corner_reprs@[a] < self.set.corner_reprs@[b]);
                } else if b < a {
                    assert(self.set.corner_reprs@[b] < self.set.corner_reprs@[a]);
                }
                let v = StateCorners::unranked(0);
                let s0 = choose|s: nat| is_first_min_sym::<StateCorners>(v, s) && idx % 12 == StateCenters::index_of(
                    StateCenters::wrapped(StateCenters::unranked(0), s),
                );
                assert(StateCenters::unranked(0) == StateCenters::solved_view());
                crate::state::statecenters::lemma_solved_symmetric(s0);
                assert(idx == (idx / 12) * 12 + idx % 12);
                assert(solved == (solved / 12) * 12 + solved % 12);
            }
        }
        let mut depthm3 = self.get_depthm3(idx);
        while idx != solved
            invariant
                self.wf(),
                solved == self.set.solved,
                limit == self.set.spec_size(),
                step == fto2_step(),
                goal == self.goal(),
                crate::solver::invertible(step, fto2_wf()),
                forall|d: nat| self.table_is_distance() && #[trigger] is_dist(step, goal, fto2@, d) && d <= limit ==> good,
                StateFTO2::wf_view(current@),
                current@ == walk(step, fto2@, moves@),
                idx < limit,
                self.is_index_of(idx as nat, current@),
                depthm3 == slot(self.pruning_table@, idx as int),
                moves@.len() <= limit,
                forall|k: int| 0 <= k < moves@.len() ==> #[trigger] moves@[k] < 8,
                fto2@ == StateFTO2::solved_view() ==> idx == solved && moves@.len() == 0,
                forall|k: int| 0 <= k < moves@.len() ==> #[trigger] self.first_improving(walk(step, fto2@, moves@.take(k)), moves@[k]),
                good ==> self.table_is_distance() && is_dist(step, goal, current@, dcur) && moves@.len() + dcur == d0
                    && d0 <= limit,
            decreases limit - moves@.len(),
        {
            proof {
                if good {
                    lemma_dist_zero(step, goal, current@, dcur);
                    if goal(current@) {
                        self.set.lemma_index_of_parts_unique(idx as nat, solved as nat, perm_rank(current@.0),
                            orientation_rank(current@.1), perm_rank(current@.2));
                    }
                    assert(dcur > 0);
                    assert(depthm3 == dcur % 3);
                    lemma_first_move(step, goal, current@, dcur);
                }
            }
            if moves.len() >= limit {
                assert(!good);
                return Err(SolveError::StepLimit);
            }
            let mut found = false;
            let mut turn: u8 = 0;
            let ghost len0 = moves@.len();
            let ghost cur0 = current@;
            let ghost dc0 = dcur;
            let ghost moves0 = moves@;
            proof {
                self.lemma_position(current@, idx as int);
            }
            while turn < 8 && !found
                invariant
                    self.wf(),
                    solved == self.set.solved,
                    limit == self.set.spec_size(),
                    step == fto2_step(),
                    goal == self.goal(),
                    crate::solver::invertible(step, fto2_wf()),
                    forall|d: nat| self.table_is_distance() && #[trigger] is_dist(step, goal, fto2@, d) && d <= limit ==> good,
                    StateFTO2::wf_view(current@),
                    current@ == walk(step, fto2@, moves@),
                    idx < limit,
                    self.is_index_of(idx as nat, current@),
                    depthm3 == slot(self.pruning_table@, idx as int),
                    len0 < limit,
                    fto2@ != StateFTO2::solved_view(),
                    !found ==> moves@.len() == len0 && current@ == cur0 && dcur == dc0,
                    !found ==> moves@ == moves0,
                    !found ==> forall|u: nat| u < turn ==> !#[trigger] self.improves(cur0, u),
                    depthm3 == self.value_of(cur0) || found,
                    found ==> moves@.len() == len0 + 1 && moves@.take(len0 as int) == moves0 && self.first_improving(cur0, moves@[len0 as int]),
                    moves0.len() == len0,
                    cur0 == walk(step, fto2@, moves0),
                    forall|k: int| 0 <= k < moves0.len() ==> #[trigger] self.first_improving(walk(step, fto2@, moves0.take(k)), moves0[k]),
                    found ==> moves@.len() == len0 + 1,
                    forall|k: int| 0 <= k < moves@.len() ==> #[trigger] moves@[k] < 8,
                    StateFTO2::wf_view(cur0),
                    good ==> self.table_is_distance() && is_dist(step, goal, current@, dcur) && moves@.len() + dcur == d0
                        && d0 <= limit,
                    good && !found ==> dc0 > 0 && depthm3 == dc0 % 3,
                    good && !found ==> forall|t: u8| t < turn ==> !#[trigger] is_dist(step, goal, step(cur0, t as nat), (dc0 - 1) as nat),
                decreases 8 - turn,
            {
                let mut potential = current;
                potential.apply_turn(turn);
                let ghost pv = potential@;
                proof {
                    assert(pv == step(cur0, turn as nat));
                    if good {
                        lemma_step_dist(step, goal, fto2_wf(), cur0, dc0, turn);
                    }
                }
                let pidx = match self.index_of_state(&potential) {
                    Some(i) => i,
                    None => {
                        proof {
                            if good {
                                let e = choose|e: nat| #[trigger] is_dist(step, goal, pv, e) && e + 1 >= dc0 && e <= dc0 + 1;
                                assert(self.set.corner_reprs@.contains(corners_repr_of(pv) as usize));
                            }
                        }
                        assert(!good);
                        return Err(SolveError::MissingRepresentative);
                    },
                };
                let potential_depthm3 = self.get_depthm3(pidx);
                proof {
                    self.lemma_position(pv, pidx as int);
                    assert(self.value_of(step(cur0, turn as nat)) == potential_depthm3);
                    if good {
                        let e = choose|e: nat| #[trigger] is_dist(step, goal, pv, e) && e + 1 >= dc0 && e <= dc0 + 1;
                        assert(potential_depthm3 == e % 3);
                        lemma_mod3_test(dc0, e);
                        if e + 1 != dc0 {
                            assert forall|e2: nat| !(#[trigger] is_dist(step, goal, pv, e2) && e2 == (dc0 - 1) as nat) by {
                                if is_dist(step, goal, pv, e2) {
                                    lemma_dist_unique(step, goal, pv, e, e2);
                                }
                            }
                        }
                    }
                }
                if (potential_depthm3 + 1) % 3 == depthm3 {
                    let ghost before = moves@;
                    assert(self.improves(cur0, turn as nat));
                    moves.push(turn);
                    assert(moves@.take(len0 as int) =~= moves0);
                    proof {
                        lemma_walk_push(step, fto2@, before, turn);
                    }
                    current = potential;
                    idx = pidx;
                    depthm3 = potential_depthm3;
                    found = true;
                    proof {
                        if good {
                            let e = choose|e: nat| #[trigger] is_dist(step, goal, pv, e) && e + 1 >= dc0 && e <= dc0 + 1;
                            dcur = e;
                        }
                    }
                }
                turn += 1;
            }
            proof {
                if found {
                    assert forall|k: int| 0 <= k < moves@.len() implies #[trigger] self.first_improving(
                        walk(step, fto2@, moves@.take(k)), moves@[k]) by {
                        if k < len0 {
                            assert(moves@.take(k) =~= moves0.take(k));
                            assert(moves@[k] == moves@.take(len0 as int)[k]);
                        } else {
                            assert(moves@.take(k) == moves0);
                        }
                    }
                }
            }
            if !found {
                proof {
                    if good {
                        let t = choose|t: u8| t < 8 && #[trigger] is_dist(step, goal, step(cur0, t as nat), (dc0 - 1) as nat);
                        assert(false);
                    }
                }
                assert(!good);
                return Err(SolveError::NoImprovingMove);
            }
        }
        proof {
            if good {
                assert(goal(current@));
                lemma_dist_zero(step, goal, current@, dcur);
                assert forall|d: nat| #[trigger] is_dist(step, goal, fto2@, d) implies d == d0 by {
                    lemma_dist_unique(step, goal, fto2@, d, d0);
                }
            }
        }
        Ok(moves)
    }

    /// The distance modulo 3 stored for reduced state `hash`.
    fn get_depthm3(&self, hash: usize) -> (r: u8)
        requires
            self.wf(),
            hash < self.set.spec_size(),
        ensures
            r == crate::pruning::slot(self.pruning_table@, hash as int),
            r <= 3,
    {
        proof {
            assert(hash / 4 < table_len(self.set.spec_size())) by {
                assert(hash / 4 <= (self.set.spec_size() + 3) / 4 - 1 || hash / 4 < (self.set.spec_size() + 3) / 4) by (nonlinear_arith)
                    requires
                        hash < self.set.spec_size(),
                ;
            }
        }
        read(&self.pruning_table, hash)
    }
}

} // verus!
