//! The full face-turning octahedron: corners, edges and both centre orbits.
//! It is too large to index; it carries the tetrahedral sub-puzzle's solutions
//! in full-puzzle turns.

use vstd::prelude::*;
use crate::data::{
    sym_ce1, sym_ce1_spec, sym_ce2, sym_ce2_spec, sym_ep, sym_ep_spec, turn_ce1, turn_ce1_spec,
    turn_ce2, turn_ce2_spec, turn_co, turn_co_spec, turn_cp, turn_cp_spec, turn_ep, turn_ep_spec,
};
use crate::perm::{
    conjugate, conjugated, is_perm, lemma_conjugated_is_perm, lemma_perm_onto, lemma_permuted_is_perm,
    lemma_unpermuted_is_perm, perm_index, permute, permuted, reorient, unpermute, unpermuted, unreorient,
};
use super::{corners_conj_steps, flags_turned, identity, perm_turned, sym_steps, unwrap_big_sym};
use super::State;
use super::statepyra::{StatePyra, twists_wf};

verus! {

/// Corners, edges and the colours of the two centre orbits.
#[derive(Clone, Copy, Debug)]
pub struct StateFTO {
    pub cp: [u8; 6],
    pub co: [bool; 6],
    pub ep: [u8; 12],
    pub ce1: [u8; 12],
    pub ce2: [u8; 12],
}

/// Corner permutation and orientation, edge permutation, centre colours.
pub type FtoView = (Seq<u8>, Seq<bool>, Seq<u8>, Seq<u8>, Seq<u8>);

impl View for StateFTO {
    type V = FtoView;

    open spec fn view(&self) -> FtoView {
        (self.cp@, self.co@, self.ep@, self.ce1@, self.ce2@)
    }
}

/// Every entry is one of the four centre colours.
pub open spec fn colours_wf(c: Seq<u8>) -> bool {
    c.len() == 12 && forall|i: int| 0 <= i < 12 ==> #[trigger] c[i] < 4
}

pub open spec fn fto_wf(v: FtoView) -> bool {
    v.0.len() == 6 && v.1.len() == 6 && v.2.len() == 12 && is_perm(v.0) && is_perm(v.2)
        && colours_wf(v.3) && colours_wf(v.4)
}

/// Colours of the solved centres: three of each colour, in order.
pub open spec fn solved_colours() -> Seq<u8> {
    Seq::new(12, |i: int| (i / 3) as u8)
}

pub open spec fn fto_solved() -> FtoView {
    (identity(6), Seq::new(6, |i: int| true), identity(12), solved_colours(), solved_colours())
}

/// The configuration after turn `turn` below 16.
pub open spec fn fto_turned(v: FtoView, turn: nat) -> FtoView {
    let face = (turn / 2) as int;
    let cw = turn % 2 == 0;
    (
        perm_turned(v.0, turn_cp_spec(face), cw),
        flags_turned(v.1, turn_cp_spec(face), turn_co_spec(face), cw),
        perm_turned(v.2, turn_ep_spec(face), cw),
        perm_turned(v.3, turn_ce1_spec(face), cw),
        perm_turned(v.4, turn_ce2_spec(face), cw),
    )
}

/// Centre colours conjugated by `p`: the colour of a centre block is the block
/// that `p` sends it to.
pub open spec fn colours_conjugated(a: Seq<u8>, p: Seq<u8>) -> Seq<u8> {
    Seq::new(12, |j: int| (p[a[perm_index(p, j)] * 3] / 3) as u8)
}

/// The configuration conjugated by a list of elementary symmetries.
pub open spec fn fto_conj_steps(v: FtoView, steps: Seq<int>) -> FtoView
    decreases steps.len(),
{
    if steps.len() == 0 {
        v
    } else {
        let k = steps[0];
        let c = corners_conj_steps(v.0, v.1, seq![k]);
        let w = if k == 5 {
            (c.0, c.1, conjugated(v.2, sym_ep_spec(5)), v.4, v.3)
        } else {
            (
                c.0,
                c.1,
                conjugated(v.2, sym_ep_spec(k)),
                colours_conjugated(v.3, sym_ce1_spec(k)),
                colours_conjugated(v.4, sym_ce2_spec(k)),
            )
        };
        fto_conj_steps(w, steps.drop_first())
    }
}

/// The configuration under symmetry `sym` below 48: optionally x2, then the
/// symmetry `sym / 2` of the corner group.
pub open spec fn fto_wrapped(v: FtoView, sym: nat) -> FtoView {
    let steps = if sym % 2 == 1 { seq![5int] + sym_steps(sym / 2) } else { sym_steps(sym / 2) };
    fto_conj_steps(v, steps)
}

/// Up (`u`) and front (`f`) centre slot next to each corner position.
pub open spec fn map_cp_u() -> Seq<u8> {
    seq![0u8, 1, 2, 4, 7, 10]
}

pub open spec fn map_cp_f() -> Seq<u8> {
    seq![3u8, 6, 9, 11, 5, 8]
}

/// All twelve centre slots: the up slots of the six corner positions, then
/// their front slots.
pub open spec fn corner_slots() -> Seq<u8> {
    map_cp_u() + map_cp_f()
}

/// First-orbit centres carried along with the corners: the two slots beside
/// corner position `i` take the centres beside the position of corner `cp[i]`,
/// swapped when that corner is flipped.
pub open spec fn centres_with_corners(ce1: Seq<u8>, cp: Seq<u8>, co: Seq<bool>) -> Seq<u8> {
    Seq::new(
        12,
        |j: int|
            {
                let s = perm_index(corner_slots(), j);
                let i = s % 6;
                let up = (s < 6) == co[i];
                ce1[if up { map_cp_u()[cp[i] as int] } else { map_cp_f()[cp[i] as int] } as int]
            },
    )
}


/// Edges after `t` turns (0, 1 or 2, the last counter-clockwise) of face `c`.
pub open spec fn edges_twisted(ep: Seq<u8>, c: int, t: u8) -> Seq<u8> {
    if t == 1 {
        permuted(ep, turn_ep_spec(c))
    } else if t == 2 {
        unpermuted(ep, turn_ep_spec(c))
    } else {
        ep
    }
}

/// Solved edges twisted by each centre twist of the tetrahedral puzzle.
pub open spec fn edges_of_twists(ct: Seq<u8>) -> Seq<u8> {
    edges_twisted(
        edges_twisted(edges_twisted(edges_twisted(identity(12), 0, ct[0]), 1, ct[1]), 2, ct[2]),
        3,
        ct[3],
    )
}

/// The full puzzle showing a tetrahedral configuration: its corners, the edges
/// that its twists move, and first-orbit centres carried with the corners.
pub open spec fn fto_of_pyra(v: (Seq<u8>, Seq<bool>, Seq<u8>)) -> FtoView {
    (v.0, v.1, edges_of_twists(v.2), centres_with_corners(solved_colours(), v.0, v.1), solved_colours())
}

/// Which of the four edge triples (turned by faces D, B, L, R) holds edge `x`.
pub open spec fn edge_triple(x: int) -> int {
    if x == 4 || x == 7 || x == 10 {
        0
    } else if x == 1 || x == 8 || x == 9 {
        1
    } else if x == 0 || x == 5 || x == 6 {
        2
    } else {
        3
    }
}

/// Every edge sits in its own triple, as it does on the tetrahedral sub-puzzle.
pub open spec fn edges_in_triples(ep: Seq<u8>) -> bool {
    ep.len() == 12 && forall|j: int| 0 <= j < 12 ==> edge_triple(#[trigger] ep[j] as int) == edge_triple(j)
}

/// Turns of the four lower faces keep every edge in its triple.
pub proof fn lemma_lower_turn_keeps_triples(ep: Seq<u8>, face: int, cw: bool)
    requires
        0 <= face < 4,
        edges_in_triples(ep),
    ensures
        edges_in_triples(perm_turned(ep, turn_ep_spec(face), cw)),
{
    let p = turn_ep_spec(face);
    assert(is_perm(p));
    lemma_perm_onto(p);
    assert forall|i: int| 0 <= i < 12 implies edge_triple(#[trigger] p[i] as int) == edge_triple(i) by {
        assert(0 <= i < 12);
    }
    let r = perm_turned(ep, p, cw);
    assert forall|j: int| 0 <= j < 12 implies edge_triple(#[trigger] r[j] as int) == edge_triple(j) by {
        if cw {
            let i = perm_index(p, j);
            assert(p[i] == j);
            assert(edge_triple(p[i] as int) == edge_triple(i));
        } else {
            assert(edge_triple(p[j] as int) == edge_triple(j));
        }
    }
}

/// Turns by D, B, L or R keep every edge in its triple.
pub proof fn lemma_lower_turns_keep_triples(v: FtoView, turn: nat)
    requires
        turn < 8,
        edges_in_triples(v.2),
    ensures
        edges_in_triples(fto_turned(v, turn).2),
{
    lemma_lower_turn_keeps_triples(v.2, (turn / 2) as int, turn % 2 == 0);
}

impl StateFTO {
    pub fn solved() -> (r: Self)
        ensures
            fto_wf(r@),
            r@ == fto_solved(),
    {
        let r = StateFTO {
            cp: [0, 1, 2, 3, 4, 5],
            co: [true, true, true, true, true, true],
            ep: [0, 1, 2, 3, 4, 5, 6, 7, 8, 9, 10, 11],
            ce1: [0, 0, 0, 1, 1, 1, 2, 2, 2, 3, 3, 3],
            ce2: [0, 0, 0, 1, 1, 1, 2, 2, 2, 3, 3, 3],
        };
        assert(r.cp@ =~= identity(6));
        assert(r.co@ =~= Seq::new(6, |i: int| true));
        assert(r.ep@ =~= identity(12));
        assert(r.ce1@ =~= solved_colours());
        assert(r.ce2@ =~= solved_colours());
        r
    }

    /// The full puzzle showing the tetrahedral configuration `pyra`.
    pub fn from_pyra(pyra: &StatePyra) -> (r: Self)
        requires
            StatePyra::wf_view(pyra@),
        ensures
            fto_wf(r@),
            r@ == fto_of_pyra(pyra@),
            edges_in_triples(r.ep@),
    {
        let mut fto = Self::solved();
        let (cp, co, ct) = pyra.get_parts();
        let ghost e0 = fto.ep@;
        proof {
            lemma_lower_turn_keeps_triples(e0, 0, true);
            assert(edges_in_triples(e0));
        }
        let mut c: usize = 0;
        while c < 4
            invariant
                c <= 4,
                fto_wf(fto@),
                twists_wf(ct@),
                ct@ == pyra.ct@,
                fto.cp@ == identity(6),
                fto.co@ == Seq::new(6, |i: int| true),
                fto.ce1@ == solved_colours(),
                fto.ce2@ == solved_colours(),
                edges_in_triples(fto.ep@),
                fto.ep@ == (if c == 0 {
                    identity(12)
                } else if c == 1 {
                    edges_twisted(identity(12), 0, ct@[0])
                } else if c == 2 {
                    edges_twisted(edges_twisted(identity(12), 0, ct@[0]), 1, ct@[1])
                } else if c == 3 {
                    edges_twisted(edges_twisted(edges_twisted(identity(12), 0, ct@[0]), 1, ct@[1]), 2, ct@[2])
                } else {
                    edges_of_twists(ct@)
                }),
            decreases 4 - c,
        {
            let p = turn_ep(c as u8);
            proof {
                lemma_lower_turn_keeps_triples(fto.ep@, c as int, true);
                lemma_lower_turn_keeps_triples(fto.ep@, c as int, false);
            }
            if ct[c] == 1 {
                proof { lemma_permuted_is_perm(fto.ep@, p@); }
                fto.ep = permute(&fto.ep, &p);
            } else if ct[c] == 2 {
                proof { lemma_unpermuted_is_perm(fto.ep@, p@); }
                fto.ep = unpermute(&fto.ep, &p);
            }
            c += 1;
        }
        fto.apply_permutation_ce1(cp, co);
        fto.cp = cp;
        fto.co = co;
        fto
    }

    /// Applies turn `turn` below 16: face `turn / 2`, clockwise when even.
    pub fn apply_turn(&mut self, turn: u8)
        requires
            fto_wf(old(self)@),
            turn < 16,
        ensures
            fto_wf(final(self)@),
            final(self)@ == fto_turned(old(self)@, turn as nat),
    {
        let (face, cw) = crate::indexing::unwrap_turn(turn);
        let cp = turn_cp(face);
        let co = turn_co(face);
        let ep = turn_ep(face);
        let ce1 = turn_ce1(face);
        let ce2 = turn_ce2(face);
        if cw {
            self.apply(cp, co, ep, ce1, ce2);
        } else {
            self.apply_inv(cp, co, ep, ce1, ce2);
        }
    }

    /// Moves every piece along a move.
    pub fn apply(&mut self, cp: [u8; 6], co: [bool; 6], ep: [u8; 12], ce1: [u8; 12], ce2: [u8; 12])
        requires
            fto_wf(old(self)@),
            is_perm(cp@),
            is_perm(ep@),
            is_perm(ce1@),
            is_perm(ce2@),
        ensures
            fto_wf(final(self)@),
            final(self)@ == (
                permuted(old(self).cp@, cp@),
                crate::perm::reoriented(old(self).co@, cp@, co@),
                permuted(old(self).ep@, ep@),
                permuted(old(self).ce1@, ce1@),
                permuted(old(self).ce2@, ce2@),
            ),
    {
        proof {
            lemma_permuted_is_perm(self.cp@, cp@);
            lemma_permuted_is_perm(self.ep@, ep@);
            lemma_perm_onto(ce1@);
            lemma_perm_onto(ce2@);
        }
        self.co = reorient(&self.co, &cp, &co);
        self.cp = permute(&self.cp, &cp);
        self.ep = permute(&self.ep, &ep);
        self.ce1 = permute(&self.ce1, &ce1);
        self.ce2 = permute(&self.ce2, &ce2);
    }

    /// Moves every piece back along a move.
    fn apply_inv(&mut self, cp: [u8; 6], co: [bool; 6], ep: [u8; 12], ce1: [u8; 12], ce2: [u8; 12])
        requires
            fto_wf(old(self)@),
            is_perm(cp@),
            is_perm(ep@),
            is_perm(ce1@),
            is_perm(ce2@),
        ensures
            fto_wf(final(self)@),
            final(self)@ == (
                unpermuted(old(self).cp@, cp@),
                crate::perm::unreoriented(old(self).co@, cp@, co@),
                unpermuted(old(self).ep@, ep@),
                unpermuted(old(self).ce1@, ce1@),
                unpermuted(old(self).ce2@, ce2@),
            ),
    {
        proof {
            lemma_unpermuted_is_perm(self.cp@, cp@);
            lemma_unpermuted_is_perm(self.ep@, ep@);
        }
        self.co = unreorient(&self.co, &cp, &co);
        self.cp = unpermute(&self.cp, &cp);
        self.ep = unpermute(&self.ep, &ep);
        self.ce1 = unpermute(&self.ce1, &ce1);
        self.ce2 = unpermute(&self.ce2, &ce2);
    }

    /// Conjugates by the symmetry `sym` below 48.
    pub fn wrap_sym(&mut self, sym: u8)
        requires
            fto_wf(old(self)@),
            sym < 48,
        ensures
            fto_wf(final(self)@),
            final(self)@ == fto_wrapped(old(self)@, sym as nat),
    {
        let (x2, mirror, zx2, z2, y) = unwrap_big_sym(sym);
        let ghost mut done: Seq<int> = seq![];
        if x2 {
            self.wrap_x2();
            proof { done = done.push(5); }
        }
        if mirror {
            self.wrap(4);
            proof { done = done.push(4); }
        }
        if zx2 {
            self.wrap(3);
            proof { done = done.push(3); }
        }
        if z2 {
            self.wrap(2);
            proof { done = done.push(2); }
        }
        if y == 1 {
            self.wrap(0);
            proof { done = done.push(0); }
        } else if y == 2 {
            self.wrap(1);
            proof { done = done.push(1); }
        }
        proof {
            let steps = if sym % 2 == 1 {
                seq![5int] + sym_steps((sym / 2) as nat)
            } else {
                sym_steps((sym / 2) as nat)
            };
            assert(done =~= steps);
            reveal_with_fuel(fto_conj_steps, 6);
        }
    }

    /// Conjugates by the elementary symmetry `k` below 5.
    fn wrap(&mut self, k: u8)
        requires
            k < 5,
            fto_wf(old(self)@),
        ensures
            fto_wf(final(self)@),
            final(self)@ == fto_conj_steps(old(self)@, seq![k as int]),
    {
        let ep = sym_ep(k);
        proof {
            lemma_conjugated_is_perm(self.ep@, ep@);
            reveal_with_fuel(fto_conj_steps, 2);
            reveal_with_fuel(corners_conj_steps, 2);
            assert(seq![k as int].drop_first() =~= Seq::<int>::empty());
        }
        let mut cp = self.cp;
        let mut co = self.co;
        super::conj_corners(&mut cp, &mut co, k);
        self.cp = cp;
        self.co = co;
        self.ep = conjugate(&self.ep, &ep);
        self.ce1 = conjugate_colours(&self.ce1, &sym_ce1(k));
        self.ce2 = conjugate_colours(&self.ce2, &sym_ce2(k));
    }

    /// The x2 symmetry: corners and edges conjugated by x2, and the two centre
    /// orbits exchanged.
    fn wrap_x2(&mut self)
        requires
            fto_wf(old(self)@),
        ensures
            fto_wf(final(self)@),
            final(self)@ == fto_conj_steps(old(self)@, seq![5int]),
    {
        let ep = sym_ep(5);
        proof {
            lemma_conjugated_is_perm(self.ep@, ep@);
            reveal_with_fuel(fto_conj_steps, 2);
            reveal_with_fuel(corners_conj_steps, 2);
            assert(seq![5int].drop_first() =~= Seq::<int>::empty());
        }
        let mut cp = self.cp;
        let mut co = self.co;
        super::conj_corners(&mut cp, &mut co, 5);
        self.cp = cp;
        self.co = co;
        self.ep = conjugate(&self.ep, &ep);
        let ce1 = self.ce1;
        self.ce1 = self.ce2;
        self.ce2 = ce1;
    }

    /// Carries the first-orbit centres along with the corner permutation `cp`
    /// and orientation `co`.
    fn apply_permutation_ce1(&mut self, cp: [u8; 6], co: [bool; 6])
        requires
            fto_wf(old(self)@),
            is_perm(cp@),
        ensures
            fto_wf(final(self)@),
            final(self)@ == (old(self).cp@, old(self).co@, old(self).ep@,
                centres_with_corners(old(self).ce1@, cp@, co@), old(self).ce2@),
    {
        let map_u: [u8; 6] = [0, 1, 2, 4, 7, 10];
        let map_f: [u8; 6] = [3, 6, 9, 11, 5, 8];
        assert(map_u@ =~= map_cp_u());
        assert(map_f@ =~= map_cp_f());
        let ghost slots = corner_slots();
        assert(is_perm(slots));
        proof {
            lemma_perm_onto(slots);
        }
        let mut new_ce1: [u8; 12] = [12, 12, 12, 12, 12, 12, 12, 12, 12, 12, 12, 12];
        let mut i: usize = 0;
        while i < 6
            invariant
                i <= 6,
                new_ce1@.len() == 12,
                map_u@ == map_cp_u(),
                map_f@ == map_cp_f(),
                slots == corner_slots(),
                is_perm(slots),
                is_perm(cp@),
                colours_wf(self.ce1@),
                forall|m: int| 0 <= m < i ==> #[trigger] new_ce1@[map_u@[m] as int]
                    == self.ce1@[if co@[m] { map_u@[cp@[m] as int] } else { map_f@[cp@[m] as int] } as int],
                forall|m: int| 0 <= m < i ==> #[trigger] new_ce1@[map_f@[m] as int]
                    == self.ce1@[if co@[m] { map_f@[cp@[m] as int] } else { map_u@[cp@[m] as int] } as int],
            decreases 6 - i,
        {
            let c = cp[i] as usize;
            let (new_up, new_down) = if co[i] {
                (map_u[c], map_f[c])
            } else {
                (map_f[c], map_u[c])
            };
            assert(slots[i as int] == map_u@[i as int] && slots[6 + i] == map_f@[i as int]);
            new_ce1[map_u[i] as usize] = self.ce1[new_up as usize];
            new_ce1[map_f[i] as usize] = self.ce1[new_down as usize];
            i += 1;
        }
        proof {
            assert forall|j: int| 0 <= j < 12 implies new_ce1@[j] == #[trigger] centres_with_corners(self.ce1@, cp@, co@)[j] by {
                let s = perm_index(slots, j);
                assert(0 <= s < 12 && slots[s] == j);
                if s < 6 {
                    assert(map_u@[s] == j);
                } else {
                    assert(map_f@[s - 6] == j);
                }
            }
            assert(new_ce1@ =~= centres_with_corners(self.ce1@, cp@, co@));
        }
        self.ce1 = new_ce1;
    }
}

/// Conjugates centre colours by the symmetry permutation `p` of centre slots.
pub fn conjugate_colours(a: &[u8; 12], p: &[u8; 12]) -> (r: [u8; 12])
    requires
        colours_wf(a@),
        is_perm(p@),
    ensures
        r@ == colours_conjugated(a@, p@),
        colours_wf(r@),
{
    let mut r = *a;
    let mut i: usize = 0;
    while i < 12
        invariant
            i <= 12,
            r@.len() == 12,
            colours_wf(a@),
            is_perm(p@),
            forall|k: int| 0 <= k < i ==> r@[#[trigger] p@[k] as int] == (p@[a@[k] * 3] / 3) as u8,
            forall|k: int| 0 <= k < 12 ==> #[trigger] r@[k] < 4,
        decreases 12 - i,
    {
        r[p[i] as usize] = p[a[i] as usize * 3] / 3;
        i += 1;
    }
    proof {
        lemma_perm_onto(p@);
    }
    assert(r@ =~= colours_conjugated(a@, p@));
    r
}

/// Turning any face clockwise and then counter-clockwise restores the
/// configuration.
pub proof fn lemma_turn_undone(v: FtoView, face: nat)
    requires
        fto_wf(v),
        face < 8,
    ensures
        fto_turned(fto_turned(v, 2 * face), 2 * face + 1) == v,
{
    crate::data::lemma_turn_data(face as int);
    crate::perm::lemma_unpermuted_permuted(v.0, turn_cp_spec(face as int));
    crate::perm::lemma_unreoriented_reoriented(v.1, turn_cp_spec(face as int), turn_co_spec(face as int));
    crate::perm::lemma_unpermuted_permuted(v.2, turn_ep_spec(face as int));
    crate::perm::lemma_unpermuted_permuted(v.3, turn_ce1_spec(face as int));
    crate::perm::lemma_unpermuted_permuted(v.4, turn_ce2_spec(face as int));
}

/// The turn function of the full octahedron, as a value.
pub open spec fn fto_step() -> spec_fn(FtoView, nat) -> FtoView {
    |v: FtoView, t: nat| fto_turned(v, t)
}

/// Well-formedness of a full octahedron showing a tetrahedral configuration.
pub open spec fn fto_pyra_wf() -> spec_fn(FtoView) -> bool {
    |v: FtoView| fto_wf(v) && edges_in_triples(v.2)
}

/// Turns of D, B, L and R keep configurations well formed with their edges in
/// their triples, and are undone by the same face turned the other way.
pub proof fn lemma_lower_turns_invertible()
    ensures
        crate::solver::invertible(fto_step(), fto_pyra_wf()),
{
    assert forall|v: FtoView, t: nat| fto_pyra_wf()(v) && t < 8 implies fto_pyra_wf()(#[trigger] fto_step()(v, t))
        && fto_step()(fto_step()(v, t), crate::solver::partner(t)) == v by {
        let face = (t / 2) as int;
        crate::data::lemma_turn_data(face);
        lemma_lower_turns_keep_triples(v, t);
        crate::perm::lemma_permuted_is_perm(v.0, turn_cp_spec(face));
        crate::perm::lemma_unpermuted_is_perm(v.0, turn_cp_spec(face));
        crate::perm::lemma_permuted_is_perm(v.2, turn_ep_spec(face));
        crate::perm::lemma_unpermuted_is_perm(v.2, turn_ep_spec(face));
        crate::perm::lemma_perm_onto(turn_ce1_spec(face));
        crate::perm::lemma_perm_onto(turn_ce2_spec(face));
        if t % 2 == 0 {
            lemma_turn_undone(v, (t / 2) as nat);
        } else {
            crate::perm::lemma_permuted_unpermuted(v.0, turn_cp_spec(face));
            crate::perm::lemma_reoriented_unreoriented(v.1, turn_cp_spec(face), turn_co_spec(face));
            crate::perm::lemma_permuted_unpermuted(v.2, turn_ep_spec(face));
            crate::perm::lemma_permuted_unpermuted(v.3, turn_ce1_spec(face));
            crate::perm::lemma_permuted_unpermuted(v.4, turn_ce2_spec(face));
        }
    }
}

} // verus!
