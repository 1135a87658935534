//! The corner permutation of the smaller octahedron, without orientation.

use vstd::prelude::*;
use crate::data::{turn_cp, turn_cp_spec, sym_cp_spec};
use crate::indexing::{hash_permutation, perm_rank, perm_unrank, unrank_permutation, lemma_perm_rank_prefix_bound, rank_weight};
use crate::perm::{is_perm, lemma_permuted_is_perm, permute, unpermute, conjugate, lemma_conjugated_is_perm};
use super::{State, identity, perm_turned, sym_steps, perm_conj_steps, unwrap_sym};

verus! {

/// The permutation of the six corners.
#[derive(Clone, Copy, Debug)]
pub struct StateCP {
    pub cp: [u8; 6],
}

impl View for StateCP {
    type V = Seq<u8>;

    open spec fn view(&self) -> Seq<u8> {
        self.cp@
    }
}

pub open spec fn sym_cp_fn() -> spec_fn(int) -> Seq<u8> {
    |k: int| sym_cp_spec(k)
}

impl State for StateCP {
    open spec fn wf_view(v: Seq<u8>) -> bool {
        v.len() == 6 && is_perm(v)
    }

    open spec fn index_of(v: Seq<u8>) -> nat {
        perm_rank(v)
    }

    open spec fn spec_raw_size() -> nat {
        360
    }

    open spec fn spec_num_turns() -> nat {
        8
    }

    open spec fn spec_num_syms() -> nat {
        24
    }

    open spec fn solved_view() -> Seq<u8> {
        identity(6)
    }

    open spec fn unranked(hash: nat) -> Seq<u8> {
        perm_unrank(hash, 6)
    }

    open spec fn turned(v: Seq<u8>, turn: nat) -> Seq<u8> {
        perm_turned(v, turn_cp_spec((turn / 2) as int), turn % 2 == 0)
    }

    open spec fn wrapped(v: Seq<u8>, sym: nat) -> Seq<u8> {
        perm_conj_steps(v, sym_steps(sym), sym_cp_fn())
    }

    fn raw_size() -> (r: usize) {
        360
    }

    fn num_turns() -> (r: u8) {
        8
    }

    fn num_syms() -> (r: u8) {
        24
    }

    fn solved() -> (r: Self) {
        let r = StateCP { cp: [0, 1, 2, 3, 4, 5] };
        assert(r.cp@ =~= identity(6));
        r
    }

    fn from_hash(hash: usize) -> (r: Self) {
        proof {
            reveal_with_fuel(rank_weight, 6);
        }
        let v = unrank_permutation(hash, 6);
        let r = StateCP { cp: [v[0], v[1], v[2], v[3], v[4], v[5]] };
        assert(r.cp@ =~= v@);
        r
    }

    fn get_hash(&self) -> (r: usize) {
        proof {
            lemma_perm_rank_prefix_bound(self.cp@, 6);
            reveal_with_fuel(rank_weight, 6);
        }
        hash_permutation(&self.cp)
    }

    fn apply_turn(&mut self, turn: u8) {
        let (face, cw) = crate::indexing::unwrap_turn(turn);
        let p = turn_cp(face);
        if cw {
            proof { lemma_permuted_is_perm(self.cp@, p@); }
            self.cp = permute(&self.cp, &p);
        } else {
            self.cp = unpermute(&self.cp, &p);
        }
    }

    fn wrap_sym(&mut self, sym: u8) {
        let (mirror, zx2, z2, y) = unwrap_sym(sym);
        let ghost mut done: Seq<int> = seq![];
        if mirror {
            self.wrap(4);
            proof { done = done.push(4); }
        }
        if zx2 {
            self.wrap(3);
            proof { done = done.push(3); }
        }
        if z2 {
            self.wrap(2);
            proof { done = done.push(2); }
        }
        if y == 1 {
            self.wrap(0);
            proof { done = done.push(0); }
        } else if y == 2 {
            self.wrap(1);
            proof { done = done.push(1); }
        }
        proof {
            let steps = sym_steps(sym as nat);
            assert(done =~= steps);
            reveal_with_fuel(perm_conj_steps, 5);
        }
    }
}

impl StateCP {
    /// Conjugates by the elementary symmetry `k`.
    fn wrap(&mut self, k: u8)
        requires
            k < 6,
            is_perm(old(self).cp@),
        ensures
            final(self).cp@ == crate::perm::conjugated(old(self).cp@, sym_cp_spec(k as int)),
            is_perm(final(self).cp@),
    {
        let p = crate::data::sym_cp(k);
        proof { lemma_conjugated_is_perm(self.cp@, p@); }
        self.cp = conjugate(&self.cp, &p);
    }
}

/// Turning a face clockwise and then counter-clockwise restores the corners.
pub proof fn lemma_turn_undone(v: Seq<u8>, face: nat)
    requires
        StateCP::wf_view(v),
        face < 4,
    ensures
        StateCP::turned(StateCP::turned(v, 2 * face), 2 * face + 1) == v,
{
    crate::data::lemma_turn_data(face as int);
    crate::perm::lemma_unpermuted_permuted(v, turn_cp_spec(face as int));
}

/// Every symmetry maps the solved corners to themselves, so their index stays
/// the solved index.
pub proof fn lemma_solved_symmetric(sym: nat)
    ensures
        StateCP::wrapped(StateCP::solved_view(), sym) == StateCP::solved_view(),
        StateCP::index_of(StateCP::wrapped(StateCP::solved_view(), sym)) == StateCP::index_of(StateCP::solved_view()),
{
    super::lemma_sym_steps_bound(sym);
    let steps = sym_steps(sym);
    assert forall|i: int| 0 <= i < steps.len() implies is_perm(#[trigger] sym_cp_fn()(steps[i])) && sym_cp_fn()(steps[i]).len() == 6 by {
        crate::data::lemma_sym_data(steps[i]);
    }
    super::lemma_perm_conj_steps_identity(6, steps, sym_cp_fn());
}

/// The configuration of dense index `x` has dense index `x`.
pub proof fn lemma_index_unranked(x: nat)
    requires
        x < 360,
    ensures
        StateCP::index_of(StateCP::unranked(x)) == x,
{
    reveal_with_fuel(rank_weight, 6);
    crate::indexing::lemma_perm_rank_unrank(x, 6);
}

/// An even corner permutation is the configuration of its own dense index.
pub proof fn lemma_unranked_index(v: Seq<u8>)
    requires
        StateCP::wf_view(v),
        crate::indexing::is_even_perm(v),
    ensures
        StateCP::unranked(StateCP::index_of(v)) == v,
{
    crate::indexing::lemma_perm_unrank_rank(v);
}

} // verus!
