//! The four centres of the smaller octahedron's second orbit, as a permutation.

use vstd::prelude::*;
use crate::data::{turn_ce, turn_ce_spec, sym_ce_spec};
use crate::indexing::{hash_permutation, perm_rank, perm_unrank, unrank_permutation, lemma_perm_rank_prefix_bound, rank_weight};
use crate::perm::{is_perm, lemma_permuted_is_perm, permute, unpermute, conjugate, lemma_conjugated_is_perm};
use super::{State, identity, perm_turned, sym_steps, perm_conj_steps, unwrap_sym};

verus! {

/// The permutation of the four centre pieces.
#[derive(Clone, Copy, Debug)]
pub struct StateCenters {
    pub ce: [u8; 4],
}

impl View for StateCenters {
    type V = Seq<u8>;

    open spec fn view(&self) -> Seq<u8> {
        self.ce@
    }
}

pub open spec fn sym_ce_fn() -> spec_fn(int) -> Seq<u8> {
    |k: int| sym_ce_spec(k)
}

impl State for StateCenters {
    open spec fn wf_view(v: Seq<u8>) -> bool {
        v.len() == 4 && is_perm(v)
    }

    open spec fn index_of(v: Seq<u8>) -> nat {
        perm_rank(v)
    }

    open spec fn spec_raw_size() -> nat {
        12
    }

    open spec fn spec_num_turns() -> nat {
        8
    }

    open spec fn spec_num_syms() -> nat {
        24
    }

    open spec fn solved_view() -> Seq<u8> {
        identity(4)
    }

    open spec fn unranked(hash: nat) -> Seq<u8> {
        perm_unrank(hash, 4)
    }

    open spec fn turned(v: Seq<u8>, turn: nat) -> Seq<u8> {
        perm_turned(v, turn_ce_spec((turn / 2) as int), turn % 2 == 0)
    }

    open spec fn wrapped(v: Seq<u8>, sym: nat) -> Seq<u8> {
        perm_conj_steps(v, sym_steps(sym), sym_ce_fn())
    }

    fn raw_size() -> (r: usize) {
        12
    }

    fn num_turns() -> (r: u8) {
        8
    }

    fn num_syms() -> (r: u8) {
        24
    }

    fn solved() -> (r: Self) {
        let r = StateCenters { ce: [0, 1, 2, 3] };
        assert(r.ce@ =~= identity(4));
        r
    }

    fn from_hash(hash: usize) -> (r: Self) {
        proof {
            reveal_with_fuel(rank_weight, 4);
        }
        let v = unrank_permutation(hash, 4);
        let r = StateCenters { ce: [v[0], v[1], v[2], v[3]] };
        assert(r.ce@ =~= v@);
        r
    }

    fn get_hash(&self) -> (r: usize) {
        proof {
            lemma_perm_rank_prefix_bound(self.ce@, 4);
            reveal_with_fuel(rank_weight, 4);
        }
        hash_permutation(&self.ce)
    }

    fn apply_turn(&mut self, turn: u8) {
        let (face, cw) = crate::indexing::unwrap_turn(turn);
        let p = turn_ce(face);
        if cw {
            proof { lemma_permuted_is_perm(self.ce@, p@); }
            self.ce = permute(&self.ce, &p);
        } else {
            self.ce = unpermute(&self.ce, &p);
        }
    }

    fn wrap_sym(&mut self, sym: u8) {
        let (mirror, zx2, z2, y) = unwrap_sym(sym);
        let ghost mut done: Seq<int> = seq![];
        if mirror {
            self.wrap(4);
            proof { done = done.push(4); }
        }
        if zx2 {
            self.wrap(3);
            proof { done = done.push(3); }
        }
        if z2 {
            self.wrap(2);
            proof { done = done.push(2); }
        }
        if y == 1 {
            self.wrap(0);
            proof { done = done.push(0); }
        } else if y == 2 {
            self.wrap(1);
            proof { done = done.push(1); }
        }
        proof {
            let steps = sym_steps(sym as nat);
            assert(done =~= steps);
            reveal_with_fuel(perm_conj_steps, 5);
        }
    }
}

impl StateCenters {
    /// Conjugates by the elementary symmetry `k`.
    fn wrap(&mut self, k: u8)
        requires
            k < 6,
            is_perm(old(self).ce@),
        ensures
            final(self).ce@ == crate::perm::conjugated(old(self).ce@, sym_ce_spec(k as int)),
            is_perm(final(self).ce@),
    {
        let p = crate::data::sym_ce(k);
        proof { lemma_conjugated_is_perm(self.ce@, p@); }
        self.ce = conjugate(&self.ce, &p);
    }
}

/// Turning a face clockwise and then counter-clockwise restores the centres.
pub proof fn lemma_turn_undone(v: Seq<u8>, face: nat)
    requires
        StateCenters::wf_view(v),
        face < 4,
    ensures
        StateCenters::turned(StateCenters::turned(v, 2 * face), 2 * face + 1) == v,
{
    crate::data::lemma_turn_data(face as int);
    crate::perm::lemma_unpermuted_permuted(v, turn_ce_spec(face as int));
}

/// Every symmetry maps the solved centres to themselves, so their index stays
/// the solved index.
pub proof fn lemma_solved_symmetric(sym: nat)
    ensures
        StateCenters::wrapped(StateCenters::solved_view(), sym) == StateCenters::solved_view(),
        StateCenters::index_of(StateCenters::wrapped(StateCenters::solved_view(), sym)) == StateCenters::index_of(StateCenters::solved_view()),
{
    super::lemma_sym_steps_bound(sym);
    let steps = sym_steps(sym);
    assert forall|i: int| 0 <= i < steps.len() implies is_perm(#[trigger] sym_ce_fn()(steps[i])) && sym_ce_fn()(steps[i]).len() == 4 by {
        crate::data::lemma_sym_data(steps[i]);
    }
    super::lemma_perm_conj_steps_identity(4, steps, sym_ce_fn());
}

/// The configuration of dense index `x` has dense index `x`.
pub proof fn lemma_index_unranked(x: nat)
    requires
        x < 12,
    ensures
        StateCenters::index_of(StateCenters::unranked(x)) == x,
{
    reveal_with_fuel(rank_weight, 4);
    crate::indexing::lemma_perm_rank_unrank(x, 4);
}

/// An even centre permutation is the configuration of its own dense index.
pub proof fn lemma_unranked_index(v: Seq<u8>)
    requires
        StateCenters::wf_view(v),
        crate::indexing::is_even_perm(v),
    ensures
        StateCenters::unranked(StateCenters::index_of(v)) == v,
{
    crate::indexing::lemma_perm_unrank_rank(v);
}

} // verus!
