//! Puzzle configurations: the `State` interface, the spec-level effect of turns
//! and symmetries on each piece group, and the concrete piece-group states.

pub mod statecp;
pub mod statecorners;
pub mod statecenters;
pub mod statefto2;
pub mod statepyra;
pub mod statefto;

use vstd::prelude::*;
use crate::data::{sym_co, sym_co_spec, sym_cp, sym_cp_spec};
use crate::perm::{
    conjugate, conjugate_flags, conjugated, conjugated_flags, is_perm, lemma_conjugated_is_perm,
    permuted, reoriented, unpermuted, unreoriented,
};

verus! {

/// A configuration of one kind of puzzle, indexed densely in `0 .. raw size`.
/// Its contracts speak of its view: the piece arrays as sequences.
pub trait State: Sized + View {
    /// The configuration is well formed (each permutation is a bijection).
    spec fn wf_view(v: Self::V) -> bool;

    /// The dense index of a configuration.
    spec fn index_of(v: Self::V) -> nat;

    spec fn spec_raw_size() -> nat;

    spec fn spec_num_turns() -> nat;

    spec fn spec_num_syms() -> nat;

    /// The solved configuration.
    spec fn solved_view() -> Self::V;

    /// The configuration of dense index `hash`.
    spec fn unranked(hash: nat) -> Self::V;

    /// The configuration after the turn `turn`.
    spec fn turned(v: Self::V, turn: nat) -> Self::V;

    /// The configuration conjugated by the symmetry `sym`.
    spec fn wrapped(v: Self::V, sym: nat) -> Self::V;

    fn raw_size() -> (r: usize)
        ensures
            r == Self::spec_raw_size(),
    ;

    fn num_turns() -> (r: u8)
        ensures
            r == Self::spec_num_turns(),
    ;

    fn num_syms() -> (r: u8)
        ensures
            r == Self::spec_num_syms(),
    ;

    fn solved() -> (r: Self)
        ensures
            Self::wf_view(r@),
            r@ == Self::solved_view(),
    ;

    fn from_hash(hash: usize) -> (r: Self)
        requires
            hash < Self::spec_raw_size(),
        ensures
            Self::wf_view(r@),
            r@ == Self::unranked(hash as nat),
    ;

    fn get_hash(&self) -> (r: usize)
        requires
            Self::wf_view(self@),
        ensures
            r == Self::index_of(self@),
            r < Self::spec_raw_size(),
    ;

    fn apply_turn(&mut self, turn: u8)
        requires
            Self::wf_view(old(self)@),
            turn < Self::spec_num_turns(),
        ensures
            Self::wf_view(final(self)@),
            final(self)@ == Self::turned(old(self)@, turn as nat),
    ;

    fn wrap_sym(&mut self, sym: u8)
        requires
            Self::wf_view(old(self)@),
            sym < Self::spec_num_syms(),
        ensures
            Self::wf_view(final(self)@),
            final(self)@ == Self::wrapped(old(self)@, sym as nat),
    ;
}

/// A symmetry identifier below 24 splits into mirror, zx2 and z2 flags and a
/// y rotation count: `sym = 8 * y + 4 * z2 + 2 * zx2 + mirror`.
pub fn unwrap_sym(sym: u8) -> (r: (bool, bool, bool, u8))
    ensures
        r.0 == (sym % 2 == 1),
        r.1 == ((sym / 2) % 2 == 1),
        r.2 == ((sym / 4) % 2 == 1),
        r.3 == sym / 8,
{
    assert(((sym & 1u8) == 1u8) == (sym % 2 == 1) && (((sym >> 1u8) & 1u8) == 1u8) == ((sym / 2) % 2
        == 1) && (((sym >> 2u8) & 1u8) == 1u8) == ((sym / 4) % 2 == 1) && (sym >> 3u8) == sym / 8)
        by (bit_vector);
    ((sym & 1) == 1, ((sym >> 1) & 1) == 1, ((sym >> 2) & 1) == 1, sym >> 3)
}

/// Like `unwrap_sym` with one more leading flag: `sym = 16 * y + 8 * z2 + 4 * zx2 + 2 * mirror + first`.
pub fn unwrap_big_sym(sym: u8) -> (r: (bool, bool, bool, bool, u8))
    ensures
        r.0 == (sym % 2 == 1),
        r.1 == ((sym / 2) % 2 == 1),
        r.2 == ((sym / 4) % 2 == 1),
        r.3 == ((sym / 8) % 2 == 1),
        r.4 == sym / 16,
{
    assert(((sym & 1u8) == 1u8) == (sym % 2 == 1) && (((sym >> 1u8) & 1u8) == 1u8) == ((sym / 2) % 2
        == 1) && (((sym >> 2u8) & 1u8) == 1u8) == ((sym / 4) % 2 == 1) && (((sym >> 3u8) & 1u8)
        == 1u8) == ((sym / 8) % 2 == 1) && (sym >> 4u8) == sym / 16) by (bit_vector);
    ((sym & 1) == 1, ((sym >> 1) & 1) == 1, ((sym >> 2) & 1) == 1, ((sym >> 3) & 1) == 1, sym >> 4)
}

/// Like `unwrap_big_sym` with one more leading flag: five flags, then `sym / 32`.
pub fn unwrap_xbig_sym(sym: u8) -> (r: (bool, bool, bool, bool, bool, u8))
    ensures
        r.0 == (sym % 2 == 1),
        r.1 == ((sym / 2) % 2 == 1),
        r.2 == ((sym / 4) % 2 == 1),
        r.3 == ((sym / 8) % 2 == 1),
        r.4 == ((sym / 16) % 2 == 1),
        r.5 == sym / 32,
{
    assert(((sym & 1u8) == 1u8) == (sym % 2 == 1) && (((sym >> 1u8) & 1u8) == 1u8) == ((sym / 2) % 2
        == 1) && (((sym >> 2u8) & 1u8) == 1u8) == ((sym / 4) % 2 == 1) && (((sym >> 3u8) & 1u8)
        == 1u8) == ((sym / 8) % 2 == 1) && (((sym >> 4u8) & 1u8) == 1u8) == ((sym / 16) % 2 == 1)
        && (sym >> 5u8) == sym / 32) by (bit_vector);
    (
        (sym & 1) == 1,
        ((sym >> 1) & 1) == 1,
        ((sym >> 2) & 1) == 1,
        ((sym >> 3) & 1) == 1,
        ((sym >> 4) & 1) == 1,
        sym >> 5,
    )
}

/// A permutation group after the turn of `face`, clockwise or not.
pub open spec fn perm_turned(a: Seq<u8>, p: Seq<u8>, cw: bool) -> Seq<u8> {
    if cw {
        permuted(a, p)
    } else {
        unpermuted(a, p)
    }
}

/// Orientation flags after a turn with permutation `p` and flags `o`.
pub open spec fn flags_turned(co: Seq<bool>, p: Seq<u8>, o: Seq<bool>, cw: bool) -> Seq<bool> {
    if cw {
        reoriented(co, p, o)
    } else {
        unreoriented(co, p, o)
    }
}

/// The elementary symmetries that make up a symmetry identifier below 24, in
/// the order they are applied: mirror, zx2, z2, then y or y2.
pub open spec fn sym_steps(sym: nat) -> Seq<int> {
    (if sym % 2 == 1 { seq![4int] } else { seq![] }) + (if (sym / 2) % 2 == 1 {
        seq![3int]
    } else {
        seq![]
    }) + (if (sym / 4) % 2 == 1 { seq![2int] } else { seq![] }) + (if sym / 8 == 1 {
        seq![0int]
    } else if sym / 8 == 2 {
        seq![1int]
    } else {
        seq![]
    })
}

/// A permutation conjugated by a list of elementary symmetries, whose
/// permutations are given by `data`.
pub open spec fn perm_conj_steps(a: Seq<u8>, steps: Seq<int>, data: spec_fn(int) -> Seq<u8>) -> Seq<u8>
    decreases steps.len(),
{
    if steps.len() == 0 {
        a
    } else {
        perm_conj_steps(conjugated(a, data(steps[0])), steps.drop_first(), data)
    }
}

/// Corner permutation and orientation conjugated by a list of elementary symmetries.
pub open spec fn corners_conj_steps(cp: Seq<u8>, co: Seq<bool>, steps: Seq<int>) -> (Seq<u8>, Seq<bool>)
    decreases steps.len(),
{
    if steps.len() == 0 {
        (cp, co)
    } else {
        let k = steps[0];
        corners_conj_steps(
            conjugated(cp, sym_cp_spec(k)),
            conjugated_flags(co, cp, sym_cp_spec(k), sym_co_spec(k)),
            steps.drop_first(),
        )
    }
}

/// The identity permutation of `n` pieces.
pub open spec fn identity(n: nat) -> Seq<u8> {
    Seq::new(n, |i: int| i as u8)
}

/// Conjugates the corner permutation and orientation by elementary symmetry `k`.
pub fn conj_corners(cp: &mut [u8; 6], co: &mut [bool; 6], k: u8)
    requires
        k < 6,
        is_perm(old(cp)@),
    ensures
        final(cp)@ == conjugated(old(cp)@, sym_cp_spec(k as int)),
        final(co)@ == conjugated_flags(old(co)@, old(cp)@, sym_cp_spec(k as int), sym_co_spec(k as int)),
        is_perm(final(cp)@),
{
    let p = sym_cp(k);
    let o = sym_co(k);
    let new_co = conjugate_flags(co, cp, &p, &o);
    let new_cp = conjugate(cp, &p);
    proof {
        lemma_conjugated_is_perm(cp@, p@);
    }
    *cp = new_cp;
    *co = new_co;
}

/// Conjugates the corners by the symmetry `sym` below 24.
pub fn wrap_corners(cp: &mut [u8; 6], co: &mut [bool; 6], sym: u8)
    requires
        sym < 24,
        is_perm(old(cp)@),
    ensures
        (final(cp)@, final(co)@) == corners_conj_steps(old(cp)@, old(co)@, sym_steps(sym as nat)),
        is_perm(final(cp)@),
{
    let (mirror, zx2, z2, y) = unwrap_sym(sym);
    let ghost steps = sym_steps(sym as nat);
    let ghost mut done: Seq<int> = seq![];
    if mirror {
        conj_corners(cp, co, 4);
        proof { done = done.push(4); }
    }
    if zx2 {
        conj_corners(cp, co, 3);
        proof { done = done.push(3); }
    }
    if z2 {
        conj_corners(cp, co, 2);
        proof { done = done.push(2); }
    }
    if y == 1 {
        conj_corners(cp, co, 0);
        proof { done = done.push(0); }
    } else if y == 2 {
        conj_corners(cp, co, 1);
        proof { done = done.push(1); }
    }
    proof {
        assert(done =~= steps);
        reveal_with_fuel(corners_conj_steps, 5);
        assert(steps.len() <= 4);
        if steps.len() >= 1 { assert(steps.drop_first() =~= steps.subrange(1, steps.len() as int)); }
    }
}

/// The elementary symmetries of an identifier are among the first five.
pub proof fn lemma_sym_steps_bound(sym: nat)
    ensures
        sym_steps(sym).len() <= 4,
        forall|i: int| 0 <= i < sym_steps(sym).len() ==> 0 <= #[trigger] sym_steps(sym)[i] < 5,
{
}

/// Conjugating the identity gives the identity.
pub proof fn lemma_identity_conjugated(p: Seq<u8>)
    requires
        is_perm(p),
        p.len() <= 256,
    ensures
        conjugated(identity(p.len()), p) == identity(p.len()),
{
    crate::perm::lemma_perm_onto(p);
    assert(conjugated(identity(p.len()), p) =~= identity(p.len()));
}

/// Conjugating oriented corners in place keeps them oriented.
pub proof fn lemma_oriented_conjugated(p: Seq<u8>, o: Seq<bool>)
    requires
        is_perm(p),
        p.len() == 6,
        o.len() == 6,
    ensures
        conjugated_flags(Seq::new(6, |i: int| true), identity(6), p, o) == Seq::new(6, |i: int| true),
{
    crate::perm::lemma_perm_onto(p);
    assert(conjugated_flags(Seq::new(6, |i: int| true), identity(6), p, o) =~= Seq::new(6, |i: int| true));
}

/// Every list of elementary symmetries fixes the identity permutation.
pub proof fn lemma_perm_conj_steps_identity(n: nat, steps: Seq<int>, data: spec_fn(int) -> Seq<u8>)
    requires
        n <= 256,
        forall|i: int| 0 <= i < steps.len() ==> is_perm(#[trigger] data(steps[i])) && data(steps[i]).len() == n,
    ensures
        perm_conj_steps(identity(n), steps, data) == identity(n),
    decreases steps.len(),
{
    if steps.len() > 0 {
        lemma_identity_conjugated(data(steps[0]));
        assert forall|i: int| 0 <= i < steps.drop_first().len() implies is_perm(#[trigger] data(steps.drop_first()[i]))
            && data(steps.drop_first()[i]).len() == n by {
            assert(steps.drop_first()[i] == steps[i + 1]);
        }
        lemma_perm_conj_steps_identity(n, steps.drop_first(), data);
    }
}

/// Every list of elementary symmetries fixes the solved corners.
pub proof fn lemma_corners_conj_steps_solved(steps: Seq<int>)
    requires
        forall|i: int| 0 <= i < steps.len() ==> 0 <= #[trigger] steps[i] < 6,
    ensures
        corners_conj_steps(identity(6), Seq::new(6, |i: int| true), steps) == (identity(6), Seq::new(6, |i: int| true)),
    decreases steps.len(),
{
    if steps.len() > 0 {
        let k = steps[0];
        crate::data::lemma_sym_data(k);
        lemma_identity_conjugated(sym_cp_spec(k));
        lemma_oriented_conjugated(sym_cp_spec(k), sym_co_spec(k));
        assert forall|i: int| 0 <= i < steps.drop_first().len() implies 0 <= #[trigger] steps.drop_first()[i] < 6 by {
            assert(steps.drop_first()[i] == steps[i + 1]);
        }
        lemma_corners_conj_steps_solved(steps.drop_first());
    }
}

/// The inverse of the identity is the identity.
pub proof fn lemma_identity_inverted(n: nat)
    requires
        n <= 256,
    ensures
        crate::perm::inverted(identity(n)) == identity(n),
        crate::perm::inverted_flags(Seq::new(n, |i: int| true), identity(n)) == Seq::new(n, |i: int| true),
{
    assert(is_perm(identity(n)));
    crate::perm::lemma_perm_onto(identity(n));
    assert(crate::perm::inverted(identity(n)) =~= identity(n));
    assert(crate::perm::inverted_flags(Seq::new(n, |i: int| true), identity(n)) =~= Seq::new(n, |i: int| true));
}

/// The configurations one turn away from `state`, one per turn.
pub fn get_next_states<S: State + Copy>(state: &S) -> (r: Vec<S>)
    requires
        S::wf_view(state@),
        S::spec_num_turns() <= 255,
    ensures
        r@.len() == S::spec_num_turns(),
        forall|t: int| 0 <= t < r@.len() ==> #[trigger] r@[t]@ == S::turned(state@, t as nat) && S::wf_view(r@[t]@),
{
    let n = S::num_turns();
    let mut r: Vec<S> = Vec::new();
    let mut turn: u8 = 0;
    while turn < n
        invariant
            turn <= n,
            n == S::spec_num_turns(),
            S::wf_view(state@),
            r@.len() == turn,
            forall|t: int| 0 <= t < turn ==> #[trigger] r@[t]@ == S::turned(state@, t as nat) && S::wf_view(r@[t]@),
        decreases n - turn,
    {
        let mut adj = *state;
        adj.apply_turn(turn);
        r.push(adj);
        turn += 1;
    }
    r
}

/// The conjugates of `state` by every symmetry, in order.
pub fn get_sym_states<S: State + Copy>(state: &S) -> (r: Vec<S>)
    requires
        S::wf_view(state@),
        S::spec_num_syms() <= 255,
    ensures
        r@.len() == S::spec_num_syms(),
        forall|s: int| 0 <= s < r@.len() ==> #[trigger] r@[s]@ == S::wrapped(state@, s as nat) && S::wf_view(r@[s]@),
{
    let n = S::num_syms();
    let mut r: Vec<S> = Vec::new();
    let mut sym: u8 = 0;
    while sym < n
        invariant
            sym <= n,
            n == S::spec_num_syms(),
            S::wf_view(state@),
            r@.len() == sym,
            forall|s: int| 0 <= s < sym ==> #[trigger] r@[s]@ == S::wrapped(state@, s as nat) && S::wf_view(r@[s]@),
        decreases n - sym,
    {
        let mut adj = *state;
        adj.wrap_sym(sym);
        r.push(adj);
        sym += 1;
    }
    r
}

} // verus!
