//! The corners of the smaller octahedron: permutation and orientation.

use vstd::prelude::*;
use crate::data::{turn_co, turn_co_spec, turn_cp, turn_cp_spec};
use crate::indexing::{
    hash_orientation, hash_permutation, lemma_flags_value_bound, lemma_perm_rank_prefix_bound,
    orientation_rank, orientation_unrank, perm_rank, perm_unrank, pow2, rank_weight,
    unrank_orientation, unrank_permutation,
};
use crate::perm::{is_perm, lemma_permuted_is_perm, permute, reorient, unpermute, unreorient};
use super::{State, corners_conj_steps, flags_turned, identity, perm_turned, sym_steps, wrap_corners};

verus! {

/// The permutation and orientation of the six corners.
#[derive(Clone, Copy, Debug)]
pub struct StateCorners {
    pub cp: [u8; 6],
    pub co: [bool; 6],
}

impl View for StateCorners {
    type V = (Seq<u8>, Seq<bool>);

    open spec fn view(&self) -> (Seq<u8>, Seq<bool>) {
        (self.cp@, self.co@)
    }
}

/// Dense index of a corner configuration: permutation rank, then orientation rank.
pub open spec fn corners_index(cp: Seq<u8>, co: Seq<bool>) -> nat {
    perm_rank(cp) * 32 + orientation_rank(co)
}

/// Corner permutation and orientation after a turn.
pub open spec fn corners_turned(cp: Seq<u8>, co: Seq<bool>, turn: nat) -> (Seq<u8>, Seq<bool>) {
    let face = (turn / 2) as int;
    let cw = turn % 2 == 0;
    (perm_turned(cp, turn_cp_spec(face), cw), flags_turned(co, turn_cp_spec(face), turn_co_spec(face), cw))
}

/// Turns the corners.
pub fn turn_corners(cp: &mut [u8; 6], co: &mut [bool; 6], turn: u8)
    requires
        turn < 16,
        is_perm(old(cp)@),
    ensures
        (final(cp)@, final(co)@) == corners_turned(old(cp)@, old(co)@, turn as nat),
        is_perm(final(cp)@),
{
    let (face, cw) = crate::indexing::unwrap_turn(turn);
    let p = turn_cp(face);
    let o = turn_co(face);
    if cw {
        proof { lemma_permuted_is_perm(cp@, p@); }
        *co = reorient(co, &p, &o);
        *cp = permute(cp, &p);
    } else {
        *co = unreorient(co, &p, &o);
        *cp = unpermute(cp, &p);
    }
}

/// Dense index of the corners, below 11520.
pub fn hash_corners(cp: &[u8; 6], co: &[bool; 6]) -> (r: usize)
    ensures
        r == corners_index(cp@, co@),
        r < 11520,
{
    proof {
        lemma_perm_rank_prefix_bound(cp@, 6);
        reveal_with_fuel(rank_weight, 6);
        lemma_flags_value_bound(co@.drop_first());
        reveal_with_fuel(pow2, 6);
    }
    hash_permutation(cp) * 32 + hash_orientation(co)
}

impl State for StateCorners {
    open spec fn wf_view(v: (Seq<u8>, Seq<bool>)) -> bool {
        v.0.len() == 6 && v.1.len() == 6 && is_perm(v.0)
    }

    open spec fn index_of(v: (Seq<u8>, Seq<bool>)) -> nat {
        corners_index(v.0, v.1)
    }

    open spec fn spec_raw_size() -> nat {
        11520
    }

    open spec fn spec_num_turns() -> nat {
        8
    }

    open spec fn spec_num_syms() -> nat {
        24
    }

    open spec fn solved_view() -> (Seq<u8>, Seq<bool>) {
        (identity(6), Seq::new(6, |i: int| true))
    }

    open spec fn unranked(hash: nat) -> (Seq<u8>, Seq<bool>) {
        (perm_unrank(hash / 32, 6), orientation_unrank(hash % 32, 6))
    }

    open spec fn turned(v: (Seq<u8>, Seq<bool>), turn: nat) -> (Seq<u8>, Seq<bool>) {
        corners_turned(v.0, v.1, turn)
    }

    open spec fn wrapped(v: (Seq<u8>, Seq<bool>), sym: nat) -> (Seq<u8>, Seq<bool>) {
        corners_conj_steps(v.0, v.1, sym_steps(sym))
    }

    fn raw_size() -> (r: usize) {
        11520
    }

    fn num_turns() -> (r: u8) {
        8
    }

    fn num_syms() -> (r: u8) {
        24
    }

    fn solved() -> (r: Self) {
        let r = StateCorners { cp: [0, 1, 2, 3, 4, 5], co: [true, true, true, true, true, true] };
        assert(r.cp@ =~= identity(6));
        assert(r.co@ =~= Seq::new(6, |i: int| true));
        r
    }

    fn from_hash(hash: usize) -> (r: Self) {
        proof {
            reveal_with_fuel(rank_weight, 6);
        }
        let v = unrank_permutation(hash / 32, 6);
        let co = unrank_orientation(hash % 32);
        let r = StateCorners { cp: [v[0], v[1], v[2], v[3], v[4], v[5]], co };
        assert(r.cp@ =~= v@);
        r
    }

    fn get_hash(&self) -> (r: usize) {
        hash_corners(&self.cp, &self.co)
    }

    fn apply_turn(&mut self, turn: u8) {
        turn_corners(&mut self.cp, &mut self.co, turn);
    }

    fn wrap_sym(&mut self, sym: u8) {
        wrap_corners(&mut self.cp, &mut self.co, sym);
    }
}

/// Turning a face clockwise and then counter-clockwise restores the corners.
pub proof fn lemma_turn_undone(v: (Seq<u8>, Seq<bool>), face: nat)
    requires
        StateCorners::wf_view(v),
        face < 4,
    ensures
        StateCorners::turned(StateCorners::turned(v, 2 * face), 2 * face + 1) == v,
{
    crate::data::lemma_turn_data(face as int);
    crate::perm::lemma_unpermuted_permuted(v.0, turn_cp_spec(face as int));
    crate::perm::lemma_unreoriented_reoriented(v.1, turn_cp_spec(face as int), turn_co_spec(face as int));
}

/// Every symmetry maps the solved corners to themselves, so their index stays
/// the solved index.
pub proof fn lemma_solved_symmetric(sym: nat)
    ensures
        StateCorners::wrapped(StateCorners::solved_view(), sym) == StateCorners::solved_view(),
        StateCorners::index_of(StateCorners::wrapped(StateCorners::solved_view(), sym)) == StateCorners::index_of(StateCorners::solved_view()),
{
    super::lemma_sym_steps_bound(sym);
    super::lemma_corners_conj_steps_solved(sym_steps(sym));
}

/// The corners of dense index `x` have dense index `x`.
pub proof fn lemma_index_unranked(x: nat)
    requires
        x < 11520,
    ensures
        StateCorners::index_of(StateCorners::unranked(x)) == x,
{
    reveal_with_fuel(rank_weight, 6);
    crate::indexing::lemma_perm_rank_unrank(x / 32, 6);
    crate::indexing::lemma_orientation_rank_unrank(x % 32);
}

/// Corners with an even permutation and an even number of flipped corners
/// are the configuration of their own dense index.
pub proof fn lemma_unranked_index(v: (Seq<u8>, Seq<bool>))
    requires
        StateCorners::wf_view(v),
        crate::indexing::is_even_perm(v.0),
        crate::indexing::count_flipped(v.1) % 2 == 0,
    ensures
        StateCorners::unranked(StateCorners::index_of(v)) == v,
{
    let a = perm_rank(v.0);
    let b = orientation_rank(v.1);
    lemma_flags_value_bound(v.1.drop_first());
    reveal_with_fuel(pow2, 6);
    vstd::arithmetic::div_mod::lemma_fundamental_div_mod_converse((a * 32 + b) as int, 32, a as int, b as int);
    crate::indexing::lemma_perm_unrank_rank(v.0);
    crate::indexing::lemma_orientation_unrank_rank(v.1);
}

} // verus!
