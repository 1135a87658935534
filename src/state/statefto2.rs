//! The smaller octahedron (corners and the four centres of one orbit), with
//! turns of all eight faces through the inverse configuration.

use vstd::prelude::*;
use crate::data::{sym_ce, sym_ce_spec, sym_co, sym_co_spec, sym_cp, sym_cp_spec, turn_ce, turn_ce_spec, turn_co, turn_co_spec, turn_cp, turn_cp_spec};
use crate::indexing::{hash_permutation, lemma_perm_rank_prefix_bound, perm_rank, perm_unrank, orientation_unrank, rank_weight, unrank_orientation, unrank_permutation};
use crate::perm::{
    conjugate, conjugated, inverted, inverted_flags, invert, invert_flags, is_perm, lemma_conjugated_is_perm,
    lemma_inverted_is_perm, lemma_permuted_is_perm, lemma_unpermuted_is_perm, permute, permuted, reorient,
    reoriented, unpermute, unpermuted, unreorient,
};
use super::{State, corners_conj_steps, flags_turned, identity, perm_conj_steps, perm_turned, sym_steps, unwrap_xbig_sym};
use super::statecorners::{corners_index, hash_corners};
use super::statecenters::sym_ce_fn;

verus! {

/// The corners and the four centres of the smaller octahedron.
#[derive(Clone, Copy, Debug)]
pub struct StateFTO2 {
    pub cp: [u8; 6],
    pub co: [bool; 6],
    pub ce: [u8; 4],
}

/// Corner permutation, corner orientation, centre permutation.
pub type Fto2View = (Seq<u8>, Seq<bool>, Seq<u8>);

impl View for StateFTO2 {
    type V = Fto2View;

    open spec fn view(&self) -> Fto2View {
        (self.cp@, self.co@, self.ce@)
    }
}

/// The inverse configuration.
pub open spec fn fto2_inverse(v: Fto2View) -> Fto2View {
    (inverted(v.0), inverted_flags(v.1, v.0), inverted(v.2))
}

/// The configuration after a turn of one of the four lower faces.
pub open spec fn fto2_face_turned(v: Fto2View, face: int, cw: bool) -> Fto2View {
    (
        perm_turned(v.0, turn_cp_spec(face), cw),
        flags_turned(v.1, turn_cp_spec(face), turn_co_spec(face), cw),
        perm_turned(v.2, turn_ce_spec(face), cw),
    )
}

/// The configuration after turn `turn`; turns of the upper four faces act on
/// the inverse configuration.
pub open spec fn fto2_turned(v: Fto2View, turn: nat) -> Fto2View {
    let face = (turn / 2) as int;
    let cw = turn % 2 == 0;
    if face >= 4 {
        fto2_face_turned(fto2_inverse(v), face - 4, cw)
    } else {
        fto2_face_turned(v, face, cw)
    }
}

/// The configuration moved (not conjugated) by elementary symmetry `k`.
pub open spec fn fto2_sym_moved(v: Fto2View, k: int) -> Fto2View {
    (permuted(v.0, sym_cp_spec(k)), reoriented(v.1, sym_cp_spec(k), sym_co_spec(k)), permuted(v.2, sym_ce_spec(k)))
}

/// The configuration conjugated by a list of elementary symmetries.
pub open spec fn fto2_conj_steps(v: Fto2View, steps: Seq<int>) -> Fto2View {
    let c = corners_conj_steps(v.0, v.1, steps);
    (c.0, c.1, perm_conj_steps(v.2, steps, sym_ce_fn()))
}

/// The x2 symmetry: the configuration is first rotated so that centre 0 sits
/// first and centre 1 second, then conjugated by x2, and the centres take the
/// relabelling that the rotation applied.
pub open spec fn fto2_x2(v: Fto2View) -> Fto2View {
    let id4 = identity(4);
    let c1 = v.2[0] != 0 && v.2[1] != 0;
    let v1 = if c1 { fto2_sym_moved(v, 3) } else { v };
    let x1 = if c1 { unpermuted(unpermuted(id4, sym_ce_spec(3)), sym_ce_spec(2)) } else { id4 };
    let c2 = v1.2[0] != 0;
    let v2 = if c2 { fto2_sym_moved(v1, 2) } else { v1 };
    let x2 = if c2 { unpermuted(x1, sym_ce_spec(2)) } else { x1 };
    let v3 = if v2.2[1] == 2 {
        fto2_sym_moved(v2, 0)
    } else if v2.2[1] == 3 {
        fto2_sym_moved(v2, 1)
    } else {
        v2
    };
    let x3 = if v2.2[1] == 2 {
        unpermuted(x2, sym_ce_spec(0))
    } else if v2.2[1] == 3 {
        unpermuted(x2, sym_ce_spec(1))
    } else {
        x2
    };
    let w = fto2_conj_steps(v3, seq![5int]);
    (w.0, w.1, x3)
}

/// The configuration under symmetry `sym` below 96: optionally inverted, then
/// optionally x2, then the symmetry `sym / 4` of the corner group.
pub open spec fn fto2_wrapped(v: Fto2View, sym: nat) -> Fto2View {
    let a = if sym % 2 == 1 { fto2_inverse(v) } else { v };
    let b = if (sym / 2) % 2 == 1 { fto2_x2(a) } else { a };
    fto2_conj_steps(b, sym_steps(sym / 4))
}

pub open spec fn fto2_index(v: Fto2View) -> nat {
    corners_index(v.0, v.1) * 12 + perm_rank(v.2)
}

impl State for StateFTO2 {
    open spec fn wf_view(v: Fto2View) -> bool {
        v.0.len() == 6 && v.1.len() == 6 && v.2.len() == 4 && is_perm(v.0) && is_perm(v.2)
    }

    open spec fn index_of(v: Fto2View) -> nat {
        fto2_index(v)
    }

    open spec fn spec_raw_size() -> nat {
        138240
    }

    open spec fn spec_num_turns() -> nat {
        16
    }

    open spec fn spec_num_syms() -> nat {
        96
    }

    open spec fn solved_view() -> Fto2View {
        (identity(6), Seq::new(6, |i: int| true), identity(4))
    }

    open spec fn unranked(hash: nat) -> Fto2View {
        (
            perm_unrank((hash / 12) / 32, 6),
            orientation_unrank((hash / 12) % 32, 6),
            perm_unrank(hash % 12, 4),
        )
    }

    open spec fn turned(v: Fto2View, turn: nat) -> Fto2View {
        fto2_turned(v, turn)
    }

    open spec fn wrapped(v: Fto2View, sym: nat) -> Fto2View {
        fto2_wrapped(v, sym)
    }

    fn raw_size() -> (r: usize) {
        138240
    }

    fn num_turns() -> (r: u8) {
        16
    }

    fn num_syms() -> (r: u8) {
        96
    }

    fn solved() -> (r: Self) {
        let r = StateFTO2 { cp: [0, 1, 2, 3, 4, 5], co: [true, true, true, true, true, true], ce: [0, 1, 2, 3] };
        assert(r.cp@ =~= identity(6));
        assert(r.co@ =~= Seq::new(6, |i: int| true));
        assert(r.ce@ =~= identity(4));
        r
    }

    fn from_hash(hash: usize) -> (r: Self) {
        proof {
            reveal_with_fuel(rank_weight, 6);
        }
        let corners = hash / 12;
        let v = unrank_permutation(corners / 32, 6);
        let co = unrank_orientation(corners % 32);
        let c = unrank_permutation(hash % 12, 4);
        let r = StateFTO2 { cp: [v[0], v[1], v[2], v[3], v[4], v[5]], co, ce: [c[0], c[1], c[2], c[3]] };
        assert(r.cp@ =~= v@);
        assert(r.ce@ =~= c@);
        r
    }

    fn get_hash(&self) -> (r: usize) {
        proof {
            lemma_perm_rank_prefix_bound(self.ce@, 4);
            reveal_with_fuel(rank_weight, 4);
        }
        hash_corners(&self.cp, &self.co) * 12 + hash_permutation(&self.ce)
    }

    fn apply_turn(&mut self, turn: u8) {
        let (face, cw) = crate::indexing::unwrap_turn(turn);
        let mut face = face;
        if face >= 4 {
            self.inverse();
            face = face - 4;
        }
        let cp = turn_cp(face);
        let co = turn_co(face);
        let ce = turn_ce(face);
        if cw {
            self.apply(&cp, &co, &ce);
        } else {
            self.apply_inv(&cp, &co, &ce);
        }
    }

    fn wrap_sym(&mut self, sym: u8) {
        let (inv, x2, mirror, zx2, z2, y) = unwrap_xbig_sym(sym);
        if inv {
            self.inverse();
        }
        if x2 {
            self.wrap_x2();
        }
        let ghost mut done: Seq<int> = seq![];
        if mirror {
            self.wrap(4);
            proof { done = done.push(4); }
        }
        if zx2 {
            self.wrap(3);
            proof { done = done.push(3); }
        }
        if z2 {
            self.wrap(2);
            proof { done = done.push(2); }
        }
        if y == 1 {
            self.wrap(0);
            proof { done = done.push(0); }
        } else if y == 2 {
            self.wrap(1);
            proof { done = done.push(1); }
        }
        proof {
            let steps = sym_steps((sym / 4) as nat);
            assert(done =~= steps);
            reveal_with_fuel(perm_conj_steps, 5);
            reveal_with_fuel(corners_conj_steps, 5);
        }
    }
}

impl StateFTO2 {
    /// A configuration drawn uniformly from all dense indices.
    pub fn scrambled() -> (r: Self)
        ensures
            Self::wf_view(r@),
            exists|h: nat| h < 138240 && r@ == Self::unranked(h),
    {
        let h = crate::random::random_below(138240);
        Self::from_hash(h)
    }

    /// The ranks of the corner permutation, the corner orientation and the centres.
    pub fn get_parts(&self) -> (r: (usize, usize, usize))
        requires
            Self::wf_view(self@),
        ensures
            r.0 == perm_rank(self.cp@),
            r.1 == crate::indexing::orientation_rank(self.co@),
            r.2 == perm_rank(self.ce@),
            r.0 < 360,
            r.1 < 32,
            r.2 < 12,
    {
        proof {
            lemma_perm_rank_prefix_bound(self.cp@, 6);
            lemma_perm_rank_prefix_bound(self.ce@, 4);
            reveal_with_fuel(rank_weight, 6);
            crate::indexing::lemma_flags_value_bound(self.co@.drop_first());
            reveal_with_fuel(crate::indexing::pow2, 6);
        }
        (hash_permutation(&self.cp), crate::indexing::hash_orientation(&self.co), hash_permutation(&self.ce))
    }

    /// Moves pieces along a turn.
    fn apply(&mut self, cp: &[u8; 6], co: &[bool; 6], ce: &[u8; 4])
        requires
            Self::wf_view(old(self)@),
            is_perm(cp@),
            is_perm(ce@),
        ensures
            Self::wf_view(final(self)@),
            final(self)@ == (permuted(old(self).cp@, cp@), reoriented(old(self).co@, cp@, co@), permuted(old(self).ce@, ce@)),
    {
        proof {
            lemma_permuted_is_perm(self.cp@, cp@);
            lemma_permuted_is_perm(self.ce@, ce@);
        }
        self.co = reorient(&self.co, cp, co);
        self.cp = permute(&self.cp, cp);
        self.ce = permute(&self.ce, ce);
    }

    /// Moves pieces back along a turn.
    fn apply_inv(&mut self, cp: &[u8; 6], co: &[bool; 6], ce: &[u8; 4])
        requires
            Self::wf_view(old(self)@),
            is_perm(cp@),
            is_perm(ce@),
        ensures
            Self::wf_view(final(self)@),
            final(self)@ == (unpermuted(old(self).cp@, cp@), crate::perm::unreoriented(old(self).co@, cp@, co@), unpermuted(old(self).ce@, ce@)),
    {
        proof {
            lemma_unpermuted_is_perm(self.cp@, cp@);
            lemma_unpermuted_is_perm(self.ce@, ce@);
        }
        self.co = unreorient(&self.co, cp, co);
        self.cp = unpermute(&self.cp, cp);
        self.ce = unpermute(&self.ce, ce);
    }

    /// Conjugates by the elementary symmetry `k`.
    fn wrap(&mut self, k: u8)
        requires
            k < 6,
            Self::wf_view(old(self)@),
        ensures
            Self::wf_view(final(self)@),
            final(self)@ == fto2_conj_steps(old(self)@, seq![k as int]),
    {
        let ce = sym_ce(k);
        proof {
            lemma_conjugated_is_perm(self.ce@, ce@);
            reveal_with_fuel(perm_conj_steps, 2);
            reveal_with_fuel(corners_conj_steps, 2);
            assert(seq![k as int].drop_first() =~= Seq::<int>::empty());
        }
        let mut cp = self.cp;
        let mut co = self.co;
        super::conj_corners(&mut cp, &mut co, k);
        self.cp = cp;
        self.co = co;
        self.ce = conjugate(&self.ce, &ce);
    }

    /// The x2 symmetry, see `fto2_x2`.
    fn wrap_x2(&mut self)
        requires
            Self::wf_view(old(self)@),
        ensures
            Self::wf_view(final(self)@),
            final(self)@ == fto2_x2(old(self)@),
    {
        let mut x2_ce: [u8; 4] = [0, 1, 2, 3];
        assert(x2_ce@ =~= identity(4));
        let s3 = sym_ce(3);
        let s2 = sym_ce(2);
        let s0 = sym_ce(0);
        let s1 = sym_ce(1);
        if self.ce[0] != 0 && self.ce[1] != 0 {
            self.apply(&sym_cp(3), &sym_co(3), &s3);
            x2_ce = Self::apply_oocenters(x2_ce, s3);
            x2_ce = Self::apply_oocenters(x2_ce, s2);
        }
        if self.ce[0] != 0 {
            self.apply(&sym_cp(2), &sym_co(2), &s2);
            x2_ce = Self::apply_oocenters(x2_ce, s2);
        }
        if self.ce[1] == 2 {
            self.apply(&sym_cp(0), &sym_co(0), &s0);
            x2_ce = Self::apply_oocenters(x2_ce, s0);
        } else if self.ce[1] == 3 {
            self.apply(&sym_cp(1), &sym_co(1), &s1);
            x2_ce = Self::apply_oocenters(x2_ce, s1);
        }
        self.wrap(5);
        proof {
            lemma_unpermuted_is_perm(identity(4), s3@);
        }
        self.ce = x2_ce;
    }

    /// Moves the centre labels `arr` back along `ce`.
    fn apply_oocenters(arr: [u8; 4], ce: [u8; 4]) -> (r: [u8; 4])
        requires
            is_perm(ce@),
        ensures
            r@ == unpermuted(arr@, ce@),
            is_perm(arr@) ==> is_perm(r@),
    {
        proof {
            if is_perm(arr@) {
                lemma_unpermuted_is_perm(arr@, ce@);
            }
        }
        unpermute(&arr, &ce)
    }

    /// Replaces the configuration by its inverse.
    pub fn inverse(&mut self)
        requires
            Self::wf_view(old(self)@),
        ensures
            Self::wf_view(final(self)@),
            final(self)@ == fto2_inverse(old(self)@),
    {
        proof {
            lemma_inverted_is_perm(self.cp@);
            lemma_inverted_is_perm(self.ce@);
        }
        self.co = invert_flags(&self.co, &self.cp);
        self.cp = invert(&self.cp);
        self.ce = invert(&self.ce);
    }
}

/// Turning one of the four lower faces clockwise and then counter-clockwise
/// restores the configuration.
pub proof fn lemma_turn_undone(v: Fto2View, face: nat)
    requires
        StateFTO2::wf_view(v),
        face < 4,
    ensures
        StateFTO2::turned(StateFTO2::turned(v, 2 * face), 2 * face + 1) == v,
{
    crate::data::lemma_turn_data(face as int);
    crate::perm::lemma_unpermuted_permuted(v.0, turn_cp_spec(face as int));
    crate::perm::lemma_unreoriented_reoriented(v.1, turn_cp_spec(face as int), turn_co_spec(face as int));
    crate::perm::lemma_unpermuted_permuted(v.2, turn_ce_spec(face as int));
}

proof fn lemma_conj_steps_solved(steps: Seq<int>)
    requires
        forall|i: int| 0 <= i < steps.len() ==> 0 <= #[trigger] steps[i] < 6,
    ensures
        fto2_conj_steps(StateFTO2::solved_view(), steps) == StateFTO2::solved_view(),
{
    super::lemma_corners_conj_steps_solved(steps);
    assert forall|i: int| 0 <= i < steps.len() implies is_perm(#[trigger] sym_ce_fn()(steps[i])) && sym_ce_fn()(steps[i]).len() == 4 by {
        crate::data::lemma_sym_data(steps[i]);
    }
    super::lemma_perm_conj_steps_identity(4, steps, sym_ce_fn());
}

/// Every symmetry maps the solved configuration to itself, so its index stays
/// the solved index.
pub proof fn lemma_solved_symmetric(sym: nat)
    ensures
        StateFTO2::wrapped(StateFTO2::solved_view(), sym) == StateFTO2::solved_view(),
        StateFTO2::index_of(StateFTO2::wrapped(StateFTO2::solved_view(), sym)) == StateFTO2::index_of(StateFTO2::solved_view()),
{
    let sv = StateFTO2::solved_view();
    super::lemma_identity_inverted(6);
    super::lemma_identity_inverted(4);
    assert(fto2_inverse(sv) == sv);
    lemma_conj_steps_solved(seq![5int]);
    assert(fto2_x2(sv) == sv);
    super::lemma_sym_steps_bound(sym / 4);
    lemma_conj_steps_solved(sym_steps(sym / 4));
}

/// The configuration of dense index `x` has dense index `x`.
pub proof fn lemma_index_unranked(x: nat)
    requires
        x < 138240,
    ensures
        StateFTO2::index_of(StateFTO2::unranked(x)) == x,
{
    reveal_with_fuel(rank_weight, 6);
    crate::indexing::lemma_perm_rank_unrank((x / 12) / 32, 6);
    crate::indexing::lemma_orientation_rank_unrank((x / 12) % 32);
    crate::indexing::lemma_perm_rank_unrank(x % 12, 4);
}

/// The turn function of the smaller octahedron, as a value.
pub open spec fn fto2_step() -> spec_fn(Fto2View, nat) -> Fto2View {
    |v: Fto2View, t: nat| fto2_turned(v, t)
}

/// Well-formedness of the smaller octahedron, as a value.
pub open spec fn fto2_wf() -> spec_fn(Fto2View) -> bool {
    |v: Fto2View| StateFTO2::wf_view(v)
}

/// Turns of the four lower faces keep configurations well formed and are
/// undone by the same face turned the other way.
pub proof fn lemma_lower_turns_invertible()
    ensures
        crate::solver::invertible(fto2_step(), fto2_wf()),
{
    assert forall|v: Fto2View, t: nat| fto2_wf()(v) && t < 8 implies fto2_wf()(#[trigger] fto2_step()(v, t))
        && fto2_step()(fto2_step()(v, t), crate::solver::partner(t)) == v by {
        let face = (t / 2) as int;
        crate::data::lemma_turn_data(face);
        let p = turn_cp_spec(face);
        let o = turn_co_spec(face);
        let c = turn_ce_spec(face);
        crate::perm::lemma_permuted_is_perm(v.0, p);
        crate::perm::lemma_unpermuted_is_perm(v.0, p);
        crate::perm::lemma_permuted_is_perm(v.2, c);
        crate::perm::lemma_unpermuted_is_perm(v.2, c);
        if t % 2 == 0 {
            lemma_turn_undone(v, (t / 2) as nat);
        } else {
            crate::perm::lemma_permuted_unpermuted(v.0, p);
            crate::perm::lemma_reoriented_unreoriented(v.1, p, o);
            crate::perm::lemma_permuted_unpermuted(v.2, c);
        }
    }
}

} // verus!
