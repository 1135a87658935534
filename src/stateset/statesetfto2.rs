//! The search space of the smaller octahedron: symmetry-reduced indices, with
//! neighbours read from the reduced turn table.

use vstd::prelude::*;
use crate::state::State;
use crate::state::statefto2::StateFTO2;
use crate::stateset::{
    StateSet, check_reduced_turns, check_repr_table_shape, is_repr_index, lemma_contains_iff_repr, lemma_reduced_exists,
    lemma_reduced_shape, lemma_row_index, reduced_turns_shape, reprs_closed,
};
use crate::symmetry::{generate_symhash_table, get_sym_hash, is_repr_table, repr, repr_table_shape};
use crate::tables::{generate_reduced_turn_table, is_reduced_turn_table};

verus! {

/// Symmetry-reduced states of the smaller octahedron: the table of representatives, the
/// reduced turn table, and the index of the solved state.
pub struct StateSetFTO2 {
    pub symhash: Vec<usize>,
    pub turns: Vec<usize>,
    pub solved: usize,
}

impl StateSet for StateSetFTO2 {
    open spec fn wf(&self) -> bool {
        &&& repr_table_shape::<StateFTO2>(self.symhash@)
        &&& reduced_turns_shape(self.turns@, self.symhash@.len(), 16, 96)
        &&& self.solved < self.symhash@.len()
        &&& self.symhash@[self.solved as int] == repr::<StateFTO2>(StateFTO2::solved_view())
    }

    open spec fn spec_size(&self) -> nat {
        self.symhash@.len()
    }

    open spec fn spec_solved(&self) -> nat {
        self.solved as nat
    }

    open spec fn spec_max_depth(&self) -> nat {
        10
    }

    open spec fn next_spec(&self, i: nat) -> Seq<usize> {
        Seq::new(16, |m: int| (self.turns@[i * 16 + m] / 96) as usize)
    }

    open spec fn syms_spec(&self, i: nat) -> Seq<usize> {
        Seq::empty()
    }

    fn size(&self) -> (r: usize) {
        self.symhash.len()
    }

    fn max_depth(&self) -> (r: u8) {
        10
    }

    fn solved(&self) -> (r: usize) {
        self.solved
    }

    fn get_sym_hashes(&self, i: usize) -> (r: Vec<usize>) {
        Vec::new()
    }

    fn get_next_state_sets(&self, i: usize) -> (r: Vec<usize>) {
        let mut r: Vec<usize> = Vec::new();
        let mut m: usize = 0;
        while m < 16
            invariant
                self.wf(),
                i < self.symhash@.len(),
                m <= 16,
                r@.len() == m,
                forall|k: int| 0 <= k < m ==> #[trigger] r@[k] == (self.turns@[i * 16 + k] / 96) as usize,
                forall|k: int| 0 <= k < m ==> #[trigger] r@[k] < self.symhash@.len(),
            decreases 16 - m,
        {
            proof {
                lemma_row_index(i as int, m as int, 16, self.symhash@.len() as int);
            }
            r.push(self.turns[i * 16 + m] / 96);
            m += 1;
        }
        assert(r@ =~= self.next_spec(i as nat));
        r
    }
}

impl StateSetFTO2 {
    /// The search space over the given tables, or `None` when they are not of
    /// the expected shape or the representatives lack the solved state's.
    pub fn new(symhash: Vec<usize>, turns: Vec<usize>) -> (r: Option<Self>)
        ensures
            r is Some <==> (repr_table_shape::<StateFTO2>(symhash@) && reduced_turns_shape(turns@, symhash@.len(), 16, 96)
                && symhash@.contains(repr::<StateFTO2>(StateFTO2::solved_view()) as usize)),
            r is Some ==> r->0.wf() && r->0.symhash@ == symhash@ && r->0.turns@ == turns@,
    {
        if !check_repr_table_shape::<StateFTO2>(&symhash) {
            return None;
        }
        if !check_reduced_turns(&turns, symhash.len(), 16, 96) {
            return None;
        }
        let solved_state = StateFTO2::solved();
        match get_sym_hash(&solved_state, &symhash) {
            Some(solved) => Some(StateSetFTO2 { symhash, turns, solved }),
            None => None,
        }
    }

    /// Builds both tables and the search space over them: `Some` exactly when
    /// every turn of a representative leads to a representative's
    /// configuration and the solved state's representative is present.
    pub fn build() -> (r: Option<Self>)
        ensures
            r is Some <==> reprs_closed::<StateFTO2>() && is_repr_index::<StateFTO2>(repr::<StateFTO2>(StateFTO2::solved_view()) as usize),
            r is Some ==> r->0.wf() && is_repr_table::<StateFTO2>(r->0.symhash@)
                && is_reduced_turn_table::<StateFTO2>(r->0.symhash@, r->0.turns@),
    {
        let symhash = generate_symhash_table::<StateFTO2>();
        proof {
            lemma_reduced_exists::<StateFTO2>(symhash@);
            lemma_contains_iff_repr::<StateFTO2>(symhash@, repr::<StateFTO2>(StateFTO2::solved_view()) as usize);
        }
        match generate_reduced_turn_table::<StateFTO2>(&symhash) {
            Some(turns) => {
                proof {
                    lemma_reduced_shape::<StateFTO2>(symhash@, turns@);
                }
                Self::new(symhash, turns)
            },
            None => None,
        }
    }
}

} // verus!
