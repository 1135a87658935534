//! The search space of the tetrahedral sub-puzzle: symmetry-reduced indices, with
//! neighbours read from the reduced turn table.

use vstd::prelude::*;
use crate::state::State;
use crate::state::statepyra::StatePyra;
use crate::stateset::{
    StateSet, check_reduced_turns, check_repr_table_shape, is_repr_index, lemma_contains_iff_repr, lemma_reduced_exists,
    lemma_reduced_shape, lemma_row_index, reduced_turns_shape, reprs_closed,
};
use crate::symmetry::{generate_symhash_table, get_sym_hash, is_repr_table, repr, repr_table_shape};
use crate::tables::{generate_reduced_turn_table, is_reduced_turn_table};

verus! {

/// Symmetry-reduced states of the tetrahedral sub-puzzle: the table of representatives, the
/// reduced turn table, and the index of the solved state.
pub struct StateSetPyra {
    pub symhash: Vec<usize>,
    pub turns: Vec<usize>,
    pub solved: usize,
}

impl StateSet for StateSetPyra {
    open spec fn wf(&self) -> bool {
        &&& repr_table_shape::<StatePyra>(self.symhash@)
        &&& reduced_turns_shape(self.turns@, self.symhash@.len(), 16, 48)
        &&& self.solved < self.symhash@.len()
        &&& self.symhash@[self.solved as int] == repr::<StatePyra>(StatePyra::solved_view())
    }

    open spec fn spec_size(&self) -> nat {
        self.symhash@.len()
    }

    open spec fn spec_solved(&self) -> nat {
        self.solved as nat
    }

    open spec fn spec_max_depth(&self) -> nat {
        11
    }

    open spec fn next_spec(&self, i: nat) -> Seq<usize> {
        Seq::new(16, |m: int| (self.turns@[i * 16 + m] / 48) as usize)
    }

    open spec fn syms_spec(&self, i: nat) -> Seq<usize> {
        Seq::empty()
    }

    fn size(&self) -> (r: usize) {
        self.symhash.len()
    }

    fn max_depth(&self) -> (r: u8) {
        11
    }

    fn solved(&self) -> (r: usize) {
        self.solved
    }

    fn get_sym_hashes(&self, i: usize) -> (r: Vec<usize>) {
        Vec::new()
    }

    fn get_next_state_sets(&self, i: usize) -> (r: Vec<usize>) {
        let mut r: Vec<usize> = Vec::new();
        let mut m: usize = 0;
        while m < 16
            invariant
                self.wf(),
                i < self.symhash@.len(),
                m <= 16,
                r@.len() == m,
                forall|k: int| 0 <= k < m ==> #[trigger] r@[k] == (self.turns@[i * 16 + k] / 48) as usize,
                forall|k: int| 0 <= k < m ==> #[trigger] r@[k] < self.symhash@.len(),
            decreases 16 - m,
        {
            proof {
                lemma_row_index(i as int, m as int, 16, self.symhash@.len() as int);
            }
            r.push(self.turns[i * 16 + m] / 48);
            m += 1;
        }
        assert(r@ =~= self.next_spec(i as nat));
        r
    }
}

impl StateSetPyra {
    /// The search space over the given tables, or `None` when they are not of
    /// the expected shape or the representatives lack the solved state's.
    pub fn new(symhash: Vec<usize>, turns: Vec<usize>) -> (r: Option<Self>)
        ensures
            r is Some <==> (repr_table_shape::<StatePyra>(symhash@) && reduced_turns_shape(turns@, symhash@.len(), 16, 48)
                && symhash@.contains(repr::<StatePyra>(StatePyra::solved_view()) as usize)),
            r is Some ==> r->0.wf() && r->0.symhash@ == symhash@ && r->0.turns@ == turns@,
    {
        if !check_repr_table_shape::<StatePyra>(&symhash) {
            return None;
        }
        if !check_reduced_turns(&turns, symhash.len(), 16, 48) {
            return None;
        }
        let solved_state = StatePyra::solved();
        match get_sym_hash(&solved_state, &symhash) {
            Some(solved) => Some(StateSetPyra { symhash, turns, solved }),
            None => None,
        }
    }

    /// Builds both tables and the search space over them: `Some` exactly when
    /// every turn of a representative leads to a representative's
    /// configuration and the solved state's representative is present.
    pub fn build() -> (r: Option<Self>)
        ensures
            r is Some <==> reprs_closed::<StatePyra>() && is_repr_index::<StatePyra>(repr::<StatePyra>(StatePyra::solved_view()) as usize),
            r is Some ==> r->0.wf() && is_repr_table::<StatePyra>(r->0.symhash@)
                && is_reduced_turn_table::<StatePyra>(r->0.symhash@, r->0.turns@),
    {
        let symhash = generate_symhash_table::<StatePyra>();
        proof {
            lemma_reduced_exists::<StatePyra>(symhash@);
            lemma_contains_iff_repr::<StatePyra>(symhash@, repr::<StatePyra>(StatePyra::solved_view()) as usize);
        }
        match generate_reduced_turn_table::<StatePyra>(&symhash) {
            Some(turns) => {
                proof {
                    lemma_reduced_shape::<StatePyra>(symhash@, turns@);
                }
                Self::new(symhash, turns)
            },
            None => None,
        }
    }
}

} // verus!
