//! Solver of the tetrahedral sub-puzzle: it turns the full octahedron that
//! shows the configuration and reads distances of the tetrahedral projection.

use vstd::prelude::*;
use crate::pruning::{PruningTable, is_generated, read, table_len};
use crate::solver::{
    SolveError, is_dist, lemma_dist_unique, lemma_dist_zero, lemma_first_move, lemma_mod3_test, lemma_step_dist,
    lemma_walk_push, walk,
};
use crate::pruning::slot;
use crate::state::State;
use crate::state::statefto::{FtoView, StateFTO, fto_of_pyra, fto_pyra_wf, fto_step, lemma_lower_turns_invertible};
use crate::state::statepyra::{StatePyra, lemma_triples_placed, pyra_of_fto};
use crate::stateset::StateSet;
use crate::stateset::statesetpyra::StateSetPyra;
use crate::symmetry::{get_sym_hash, repr};

verus! {

/// The search space of the tetrahedral sub-puzzle with its pruning table.
pub struct SolverPyra {
    pub set: StateSetPyra,
    pub pruning_table: Vec<u8>,
}

impl SolverPyra {
    pub open spec fn wf(&self) -> bool {
        self.set.wf() && self.pruning_table@.len() == table_len(self.set.spec_size())
    }

    /// Builds the pruning table of `set` (filling the last layer).
    pub fn new(set: StateSetPyra) -> (r: Self)
        requires
            set.wf(),
        ensures
            r.wf(),
            r.set == set,
            exists|d: u8| #[trigger] is_generated(&r.set, r.pruning_table@, d, true),
    {
        let table = PruningTable::new(set);
        let (pruning_table, _depth) = table.generate(true);
        SolverPyra { set: table.set, pruning_table }
    }

    /// The solver over a pruning table read from storage; `None` when its
    /// length does not fit `set`.
    pub fn with_table(set: StateSetPyra, pruning_table: Vec<u8>) -> (r: Option<Self>)
        requires
            set.wf(),
        ensures
            r is Some <==> pruning_table@.len() == table_len(set.spec_size()),
            r is Some ==> r->0.wf() && r->0.set == set && r->0.pruning_table@ == pruning_table@,
    {
        if pruning_table.len() == (set.size() + 3) / 4 {
            Some(SolverPyra { set, pruning_table })
        } else {
            None
        }
    }

    /// Position of the representative of `v`'s tetrahedral projection in the
    /// table of representatives.
    pub open spec fn position(&self, v: FtoView) -> int {
        choose|i: int| 0 <= i < self.set.symhash@.len() && self.set.symhash@[i] == repr::<StatePyra>(pyra_of_fto(v))
    }

    /// The pruning table's value for configuration `v`.
    pub open spec fn value_of(&self, v: FtoView) -> u8 {
        slot(self.pruning_table@, self.position(v))
    }

    /// Turn `t` leads one layer closer by the table's values.
    pub open spec fn improves(&self, v: FtoView, t: nat) -> bool {
        (self.value_of(fto_step()(v, t)) + 1) % 3 == self.value_of(v) as int
    }

    /// `t` is the least turn below 8 that leads one layer closer.
    pub open spec fn first_improving(&self, v: FtoView, t: u8) -> bool {
        &&& t < 8
        &&& self.improves(v, t as nat)
        &&& forall|u: nat| u < t ==> !#[trigger] self.improves(v, u)
    }

    proof fn lemma_position(&self, v: FtoView, i: int)
        requires
            self.wf(),
            0 <= i < self.set.symhash@.len(),
            self.set.symhash@[i] == repr::<StatePyra>(pyra_of_fto(v)),
        ensures
            self.position(v) == i,
    {
        let p = self.position(v);
        assert(0 <= p < self.set.symhash@.len() && self.set.symhash@[p] == repr::<StatePyra>(pyra_of_fto(v)));
        if p < i {
            assert(self.set.symhash@[p] < self.set.symhash@[i]);
        } else if i < p {
            assert(self.set.symhash@[i] < self.set.symhash@[p]);
        }
    }

    /// The solver's goal: the solved state's symmetry class.
    pub open spec fn goal(&self) -> spec_fn(FtoView) -> bool {
        |v: FtoView| repr::<StatePyra>(pyra_of_fto(v)) == self.set.symhash@[self.set.solved as int]
    }

    /// The pruning table holds, for every configuration at distance `d` from
    /// the goal (in turns below 8), its representative and the value `d % 3`.
    pub open spec fn table_is_distance(&self) -> bool {
        forall|v: FtoView, d: nat|
            fto_pyra_wf()(v) && #[trigger] is_dist(fto_step(), self.goal(), v, d) ==> {
                &&& self.set.symhash@.contains(repr::<StatePyra>(pyra_of_fto(v)) as usize)
                &&& forall|i: int|
                    0 <= i < self.set.symhash@.len() && #[trigger] self.set.symhash@[i] == repr::<StatePyra>(pyra_of_fto(v))
                        ==> slot(self.pruning_table@, i) == d % 3
            }
    }

    /// The full-puzzle turns (each below 8: faces D, B, L, R) that bring
    /// `pyra` to the solved state's symmetry class, taking at each step the
    /// first turn one layer closer.
    /// Over a table that holds the distances, a configuration at distance `d`
    /// (within the step limit) is solved in exactly `d` turns.
    #[verifier::rlimit(100)]
    #[verifier::spinoff_prover]
    pub fn solve(&self, pyra: &StatePyra) -> (r: Result<Vec<u8>, SolveError>)
        requires
            self.wf(),
            StatePyra::wf_view(pyra@),
        ensures
            r matches Ok(moves) ==> ((forall|k: int| 0 <= k < moves@.len() ==> #[trigger] moves@[k] < 8)
                && (self.goal())(walk(fto_step(), fto_of_pyra(pyra@), moves@))),
            pyra@ == StatePyra::solved_view() ==> (r matches Ok(moves) && moves@.len() == 0),
            r matches Ok(moves) ==> forall|k: int| 0 <= k < moves@.len() ==> #[trigger] self.first_improving(
                walk(fto_step(), fto_of_pyra(pyra@), moves@.take(k)),
                moves@[k],
            ),
            self.table_is_distance() ==> forall|d: nat|
                #[trigger] is_dist(fto_step(), self.goal(), fto_of_pyra(pyra@), d) && d <= self.set.symhash@.len()
                    ==> (r matches Ok(moves) && moves@.len() == d),
    {
        let solved = self.set.solved;
        let limit = self.set.symhash.len();
        let mut current = StateFTO::from_pyra(pyra);
        let mut moves: Vec<u8> = Vec::new();
        let ghost step = fto_step();
        let ghost goal = self.goal();
        let ghost start = fto_of_pyra(pyra@);
        let ghost good = self.table_is_distance() && exists|d: nat| is_dist(step, goal, start, d) && d <= limit;
        let ghost d0: nat = if good { choose|d: nat| is_dist(step, goal, start, d) && d <= limit } else { 0 };
        let ghost mut dcur: nat = d0;
        proof {
            lemma_lower_turns_invertible();
            assert(walk(step, start, moves@) == start);
            assert forall|d: nat| self.table_is_distance() && #[trigger] is_dist(step, goal, start, d) && d <= limit implies good by {}
        }
        proof {
            if pyra@ == StatePyra::solved_view() {
                assert(pyra_of_fto(fto_of_pyra(pyra@)) =~= StatePyra::solved_view());
            }
        }
        proof {
            lemma_triples_placed(current.ep@);
        }
        let mut idx = match get_sym_hash(&StatePyra::from_fto(&current), &self.set.symhash) {
            Some(i) => i,
            None => {
                assert(pyra@ == StatePyra::solved_view() ==> self.set.symhash@.contains(
                    self.set.symhash@[solved as int],
                ));
                assert(!good);
                return Err(SolveError::MissingRepresentative);
            },
        };
        proof {
            if pyra@ == StatePyra::solved_view() {
                assert(idx == solved) by {
                    if idx < solved {
                        assert(self.set.symhash@[idx as int] < self.set.symhash@[solved as int]);
                    } else if idx > solved {
                        assert(self.set.symhash@[solved as int] < self.set.symhash@[idx as int]);
                    }
                }
            }
        }
        let mut depthm3 = self.get_depthm3(idx);
        while idx != solved
            invariant
                self.wf(),
                solved == self.set.solved,
                limit == self.set.symhash@.len(),
                step == fto_step(),
                goal == self.goal(),
                start == fto_of_pyra(pyra@),
                crate::solver::invertible(step, fto_pyra_wf()),
                forall|d: nat| self.table_is_distance() && #[trigger] is_dist(step, goal, start, d) && d <= limit ==> good,
                fto_pyra_wf()(current@),
                current@ == walk(step, start, moves@),
                idx < limit,
                self.set.symhash@[idx as int] == repr::<StatePyra>(pyra_of_fto(current@)),
                depthm3 == slot(self.pruning_table@, idx as int),
                moves@.len() <= limit,
                forall|k: int| 0 <= k < moves@.len() ==> #[trigger] moves@[k] < 8,
                pyra@ == StatePyra::solved_view() ==> idx == solved && moves@.len() == 0,
                forall|k: int| 0 <= k < moves@.len() ==> #[trigger] self.first_improving(walk(step, start, moves@.take(k)), moves@[k]),
                good ==> self.table_is_distance() && is_dist(step, goal, current@, dcur) && moves@.len() + dcur == d0
                    && d0 <= limit,
            decreases limit - moves@.len(),
        {
            proof {
                if good {
                    lemma_dist_zero(step, goal, current@, dcur);
                    if goal(current@) {
                        assert(idx == solved) by {
                            if idx < solved {
                                assert(self.set.symhash@[idx as int] < self.set.symhash@[solved as int]);
                            } else if idx > solved {
                                assert(self.set.symhash@[solved as int] < self.set.symhash@[idx as int]);
                            }
                        }
                    }
                    assert(dcur > 0);
                    assert(depthm3 == dcur % 3);
                    lemma_first_move(step, goal, current@, dcur);
                }
            }
            if moves.len() >= limit {
                assert(!good);
                return Err(SolveError::StepLimit);
            }
            let mut found = false;
            let mut turn: u8 = 0;
            let ghost len0 = moves@.len();
            let ghost cur0 = current@;
            let ghost dc0 = dcur;
            let ghost moves0 = moves@;
            proof {
                self.lemma_position(current@, idx as int);
            }
            while turn < 8 && !found
                invariant
                    self.wf(),
                    solved == self.set.solved,
                    limit == self.set.symhash@.len(),
                    step == fto_step(),
                    goal == self.goal(),
                    start == fto_of_pyra(pyra@),
                    crate::solver::invertible(step, fto_pyra_wf()),
                    forall|d: nat| self.table_is_distance() && #[trigger] is_dist(step, goal, start, d) && d <= limit ==> good,
                    fto_pyra_wf()(current@),
                    current@ == walk(step, start, moves@),
                    idx < limit,
                    self.set.symhash@[idx as int] == repr::<StatePyra>(pyra_of_fto(current@)),
                    depthm3 == slot(self.pruning_table@, idx as int),
                    len0 < limit,
                    pyra@ != StatePyra::solved_view(),
                    !found ==> moves@.len() == len0 && current@ == cur0 && dcur == dc0,
                    !found ==> moves@ == moves0,
                    !found ==> forall|u: nat| u < turn ==> !#[trigger] self.improves(cur0, u),
                    depthm3 == self.value_of(cur0) || found,
                    found ==> moves@.len() == len0 + 1 && moves@.take(len0 as int) == moves0 && self.first_improving(cur0, moves@[len0 as int]),
                    moves0.len() == len0,
                    cur0 == walk(step, start, moves0),
                    forall|k: int| 0 <= k < moves0.len() ==> #[trigger] self.first_improving(walk(step, start, moves0.take(k)), moves0[k]),
                    found ==> moves@.len() == len0 + 1,
                    forall|k: int| 0 <= k < moves@.len() ==> #[trigger] moves@[k] < 8,
                    fto_pyra_wf()(cur0),
                    good ==> self.table_is_distance() && is_dist(step, goal, current@, dcur) && moves@.len() + dcur == d0
                        && d0 <= limit,
                    good && !found ==> dc0 > 0 && depthm3 == dc0 % 3,
                    good && !found ==> forall|t: u8| t < turn ==> !#[trigger] is_dist(step, goal, step(cur0, t as nat), (dc0 - 1) as nat),
                decreases 8 - turn,
            {
                let mut potential = current;
                potential.apply_turn(turn);
                let ghost pv = potential@;
                proof {
                    assert(pv == step(cur0, turn as nat));
                    assert(fto_pyra_wf()(step(cur0, turn as nat)));
                    lemma_triples_placed(potential.ep@);
                    if good {
                        lemma_step_dist(step, goal, fto_pyra_wf(), cur0, dc0, turn);
                    }
                }
                let pidx = match get_sym_hash(&StatePyra::from_fto(&potential), &self.set.symhash) {
                    Some(i) => i,
                    None => {
                        proof {
                            if good {
                                let e = choose|e: nat| #[trigger] is_dist(step, goal, pv, e) && e + 1 >= dc0 && e <= dc0 + 1;
                                assert(self.set.symhash@.contains(repr::<StatePyra>(pyra_of_fto(pv)) as usize));
                            }
                        }
                        assert(!good);
                        return Err(SolveError::MissingRepresentative);
                    },
                };
                let potential_depthm3 = self.get_depthm3(pidx);
                proof {
                    self.lemma_position(pv, pidx as int);
                    assert(self.value_of(step(cur0, turn as nat)) == potential_depthm3);
                    if good {
                        let e = choose|e: nat| #[trigger] is_dist(step, goal, pv, e) && e + 1 >= dc0 && e <= dc0 + 1;
                        assert(potential_depthm3 == e % 3);
                        lemma_mod3_test(dc0, e);
                        if e + 1 != dc0 {
                            assert forall|e2: nat| !(#[trigger] is_dist(step, goal, pv, e2) && e2 == (dc0 - 1) as nat) by {
                                if is_dist(step, goal, pv, e2) {
                                    lemma_dist_unique(step, goal, pv, e, e2);
                                }
                            }
                        }
                    }
                }
                if (potential_depthm3 + 1) % 3 == depthm3 {
                    let ghost before = moves@;
                    assert(self.improves(cur0, turn as nat));
                    moves.push(turn);
                    assert(moves@.take(len0 as int) =~= moves0);
                    proof {
                        lemma_walk_push(step, start, before, turn);
                    }
                    current = potential;
                    idx = pidx;
                    depthm3 = potential_depthm3;
                    found = true;
                    proof {
                        if good {
                            let e = choose|e: nat| #[trigger] is_dist(step, goal, pv, e) && e + 1 >= dc0 && e <= dc0 + 1;
                            dcur = e;
                        }
                    }
                }
                turn += 1;
            }
            proof {
                if found {
                    assert forall|k: int| 0 <= k < moves@.len() implies #[trigger] self.first_improving(
                        walk(step, start, moves@.take(k)), moves@[k]) by {
                        if k < len0 {
                            assert(moves@.take(k) =~= moves0.take(k));
                            assert(moves@[k] == moves@.take(len0 as int)[k]);
                        } else {
                            assert(moves@.take(k) == moves0);
                        }
                    }
                }
            }
            if !found {
                proof {
                    if good {
                        let t = choose|t: u8| t < 8 && #[trigger] is_dist(step, goal, step(cur0, t as nat), (dc0 - 1) as nat);
                        assert(false);
                    }
                }
                assert(!good);
                return Err(SolveError::NoImprovingMove);
            }
        }
        proof {
            if good {
                assert(goal(current@));
                lemma_dist_zero(step, goal, current@, dcur);
                assert forall|d: nat| #[trigger] is_dist(step, goal, start, d) implies d == d0 by {
                    lemma_dist_unique(step, goal, start, d, d0);
                }
            }
        }
        Ok(moves)
    }

    /// The distance modulo 3 stored for reduced state `hash`.
    fn get_depthm3(&self, hash: usize) -> (r: u8)
        requires
            self.wf(),
            hash < self.set.spec_size(),
        ensures
            r == crate::pruning::slot(self.pruning_table@, hash as int),
            r <= 3,
    {
        proof {
            assert(hash / 4 < table_len(self.set.spec_size())) by {
                assert(hash / 4 <= (self.set.spec_size() + 3) / 4 - 1 || hash / 4 < (self.set.spec_size() + 3) / 4) by (nonlinear_arith)
                    requires
                        hash < self.set.spec_size(),
                ;
            }
        }
        read(&self.pruning_table, hash)
    }
}

} // verus!
