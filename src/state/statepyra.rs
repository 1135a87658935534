//! The tetrahedral sub-puzzle of the octahedron: corners and four centre twists.

use vstd::prelude::*;
use crate::data::{sym_ct, sym_ct_spec, turn_co, turn_co_spec, turn_cp, turn_cp_spec, turn_ct, turn_ct_spec};
use crate::indexing::{perm_unrank, orientation_unrank, rank_weight, unrank_orientation, unrank_permutation};
use crate::perm::{
    inverted, inverted_flags, invert, invert_flags, is_perm, lemma_inverted_is_perm, lemma_perm_onto,
    lemma_permuted_is_perm, lemma_unpermuted_is_perm, perm_index, permute, reorient, unpermute, unreorient,
};
use super::{State, corners_conj_steps, flags_turned, identity, perm_turned, sym_steps, unwrap_big_sym};
use super::statecorners::{corners_index, hash_corners};
use super::statefto::{StateFTO, edge_triple, edges_in_triples, fto_wf};

verus! {

/// The corners and the twists (0, 1 or 2) of the four centres.
#[derive(Clone, Copy, Debug)]
pub struct StatePyra {
    pub cp: [u8; 6],
    pub co: [bool; 6],
    pub ct: [u8; 4],
}

/// Corner permutation, corner orientation, centre twists.
pub type PyraView = (Seq<u8>, Seq<bool>, Seq<u8>);

impl View for StatePyra {
    type V = PyraView;

    open spec fn view(&self) -> PyraView {
        (self.cp@, self.co@, self.ct@)
    }
}

/// The twists read as four base-3 digits, the first most significant.
pub open spec fn twist_rank(ct: Seq<u8>) -> nat {
    (((ct[0] * 3 + ct[1]) * 3 + ct[2]) * 3 + ct[3]) as nat
}

/// The twists of rank `x` below 81.
pub open spec fn twist_unrank(x: nat) -> Seq<u8> {
    seq![((x / 27) % 3) as u8, ((x / 9) % 3) as u8, ((x / 3) % 3) as u8, (x % 3) as u8]
}

/// Twists advanced by `d`, modulo 3.
pub open spec fn twists_added(ct: Seq<u8>, d: Seq<u8>) -> Seq<u8> {
    Seq::new(4, |i: int| ((ct[i] + d[i]) % 3) as u8)
}

/// Twists moved back by `d`, modulo 3.
pub open spec fn twists_subtracted(ct: Seq<u8>, d: Seq<u8>) -> Seq<u8> {
    Seq::new(4, |i: int| ((3 + ct[i] - d[i]) % 3) as u8)
}

/// The twists of the inverse configuration.
pub open spec fn twists_inverted(ct: Seq<u8>) -> Seq<u8> {
    Seq::new(4, |i: int| ((3 - ct[i]) % 3) as u8)
}

/// Twists relabelled by a symmetry `d` on the slots `3 * centre + twist`:
/// the centre `j` receives the twist of the slot that `d` sends into its block.
pub open spec fn twists_conjugated(ct: Seq<u8>, d: Seq<u8>) -> Seq<u8> {
    Seq::new(
        4,
        |j: int|
            {
                let i = perm_index(d, 3 * j) / 3;
                (d[ct[i] + 3 * i] % 3) as u8
            },
    )
}

/// Slot relabelling `d` sends each block of three slots into one block, and
/// distinct blocks into distinct blocks.
pub open spec fn block_preserving(d: Seq<u8>) -> bool {
    &&& d.len() == 12
    &&& is_perm(d)
    &&& forall|i: int, t: int| 0 <= i < 4 && 0 <= t < 3 ==> #[trigger] d[3 * i + t] / 3 == block_image(d, i)
    &&& forall|i: int, m: int|
        0 <= i < 4 && 0 <= m < 4 && i != m ==> #[trigger] block_image(d, i) != #[trigger] block_image(d, m)
}

/// The block that `d` sends block `i` into.
pub open spec fn block_image(d: Seq<u8>, i: int) -> int {
    (d[3 * i] / 3) as int
}

pub proof fn lemma_sym_ct_blocks(k: int)
    requires
        0 <= k < 5,
    ensures
        block_preserving(sym_ct_spec(k)),
{
    let d = sym_ct_spec(k);
    assert(is_perm(d));
    assert forall|i: int, t: int| 0 <= i < 4 && 0 <= t < 3 implies #[trigger] d[3 * i + t] / 3 == block_image(d, i) by {
        assert(0 <= i < 4 && 0 <= t < 3);
    }
}

/// Corners and twists conjugated by a list of elementary symmetries.
pub open spec fn pyra_conj_steps(v: PyraView, steps: Seq<int>) -> PyraView
    decreases steps.len(),
{
    if steps.len() == 0 {
        v
    } else {
        let k = steps[0];
        let c = corners_conj_steps(v.0, v.1, seq![k]);
        pyra_conj_steps((c.0, c.1, twists_conjugated(v.2, sym_ct_spec(k))), steps.drop_first())
    }
}

/// The inverse configuration.
pub open spec fn pyra_inverse(v: PyraView) -> PyraView {
    (inverted(v.0), inverted_flags(v.1, v.0), twists_inverted(v.2))
}

/// The configuration after a turn of one of the four lower faces.
pub open spec fn pyra_face_turned(v: PyraView, face: int, cw: bool) -> PyraView {
    (
        perm_turned(v.0, turn_cp_spec(face), cw),
        flags_turned(v.1, turn_cp_spec(face), turn_co_spec(face), cw),
        if cw { twists_added(v.2, turn_ct_spec(face)) } else { twists_subtracted(v.2, turn_ct_spec(face)) },
    )
}

/// The configuration after turn `turn`; turns of the upper four faces act on
/// the inverse configuration.
pub open spec fn pyra_turned(v: PyraView, turn: nat) -> PyraView {
    let face = (turn / 2) as int;
    let cw = turn % 2 == 0;
    if face >= 4 {
        pyra_face_turned(pyra_inverse(v), face - 4, cw)
    } else {
        pyra_face_turned(v, face, cw)
    }
}

/// The configuration under symmetry `sym` below 48: optionally inverted, then
/// the symmetry `sym / 2` of the corner group.
pub open spec fn pyra_wrapped(v: PyraView, sym: nat) -> PyraView {
    let a = if sym % 2 == 1 { pyra_inverse(v) } else { v };
    pyra_conj_steps(a, sym_steps(sym / 2))
}

pub open spec fn twists_wf(ct: Seq<u8>) -> bool {
    ct.len() == 4 && forall|i: int| 0 <= i < 4 ==> #[trigger] ct[i] < 3
}

impl State for StatePyra {
    open spec fn wf_view(v: PyraView) -> bool {
        v.0.len() == 6 && v.1.len() == 6 && is_perm(v.0) && twists_wf(v.2)
    }

    open spec fn index_of(v: PyraView) -> nat {
        corners_index(v.0, v.1) * 81 + twist_rank(v.2)
    }

    open spec fn spec_raw_size() -> nat {
        933120
    }

    open spec fn spec_num_turns() -> nat {
        16
    }

    open spec fn spec_num_syms() -> nat {
        48
    }

    open spec fn solved_view() -> PyraView {
        (identity(6), Seq::new(6, |i: int| true), seq![0u8, 0, 0, 0])
    }

    open spec fn unranked(hash: nat) -> PyraView {
        (
            perm_unrank((hash / 81) / 32, 6),
            orientation_unrank((hash / 81) % 32, 6),
            twist_unrank(hash % 81),
        )
    }

    open spec fn turned(v: PyraView, turn: nat) -> PyraView {
        pyra_turned(v, turn)
    }

    open spec fn wrapped(v: PyraView, sym: nat) -> PyraView {
        pyra_wrapped(v, sym)
    }

    fn raw_size() -> (r: usize) {
        933120
    }

    fn num_turns() -> (r: u8) {
        16
    }

    fn num_syms() -> (r: u8) {
        48
    }

    fn solved() -> (r: Self) {
        let r = StatePyra { cp: [0, 1, 2, 3, 4, 5], co: [true, true, true, true, true, true], ct: [0, 0, 0, 0] };
        assert(r.cp@ =~= identity(6));
        assert(r.co@ =~= Seq::new(6, |i: int| true));
        assert(r.ct@ =~= seq![0u8, 0, 0, 0]);
        r
    }

    fn from_hash(hash: usize) -> (r: Self) {
        proof {
            reveal_with_fuel(rank_weight, 6);
        }
        let corners = hash / 81;
        let v = unrank_permutation(corners / 32, 6);
        let co = unrank_orientation(corners % 32);
        let mut ct: [u8; 4] = [0, 0, 0, 0];
        let mut left: u8 = (hash % 81) as u8;
        let ghost x = (hash % 81) as nat;
        let mut i: usize = 0;
        while i < 4
            invariant
                i <= 4,
                x < 81,
                ct@.len() == 4,
                left as nat == x / (if i == 0 { 1nat } else if i == 1 { 3 } else if i == 2 { 9 } else if i == 3 { 27 } else { 81 }),
                forall|j: int| 3 - i < j < 4 ==> ct@[j] == #[trigger] twist_unrank(x)[j],
            decreases 4 - i,
        {
            ct[3 - i] = left % 3;
            left = left / 3;
            i += 1;
        }
        let r = StatePyra { cp: [v[0], v[1], v[2], v[3], v[4], v[5]], co, ct };
        assert(r.cp@ =~= v@);
        assert(r.ct@ =~= twist_unrank(x));
        r
    }

    fn get_hash(&self) -> (r: usize) {
        hash_corners(&self.cp, &self.co) * 81 + hash_center_turn(&self.ct)
    }

    fn apply_turn(&mut self, turn: u8) {
        let (face, cw) = crate::indexing::unwrap_turn(turn);
        let mut face = face;
        if face >= 4 {
            self.inverse();
            face = face - 4;
        }
        let cp = turn_cp(face);
        let co = turn_co(face);
        let ct = turn_ct(face);
        if cw {
            self.apply(&cp, &co, &ct);
        } else {
            self.apply_inv(&cp, &co, &ct);
        }
    }

    fn wrap_sym(&mut self, sym: u8) {
        let (inv, mirror, zx2, z2, y) = unwrap_big_sym(sym);
        if inv {
            self.inverse();
        }
        let ghost mut done: Seq<int> = seq![];
        if mirror {
            self.wrap(4);
            proof { done = done.push(4); }
        }
        if zx2 {
            self.wrap(3);
            proof { done = done.push(3); }
        }
        if z2 {
            self.wrap(2);
            proof { done = done.push(2); }
        }
        if y == 1 {
            self.wrap(0);
            proof { done = done.push(0); }
        } else if y == 2 {
            self.wrap(1);
            proof { done = done.push(1); }
        }
        proof {
            let steps = sym_steps((sym / 2) as nat);
            assert(done =~= steps);
            reveal_with_fuel(pyra_conj_steps, 5);
        }
    }
}

/// The twists read as four base-3 digits.
pub fn hash_center_turn(arr: &[u8; 4]) -> (r: usize)
    requires
        twists_wf(arr@),
    ensures
        r == twist_rank(arr@),
        r < 81,
{
    ((arr[0] as usize * 3 + arr[1] as usize) * 3 + arr[2] as usize) * 3 + arr[3] as usize
}


/// The twist (0, 1, 2) that an edge triple `(a, b, c)` shows by which edge
/// sits in its first slot.
pub open spec fn twist_of(x: u8, a: u8, b: u8) -> u8 {
    if x == a {
        0
    } else if x == b {
        1
    } else {
        2
    }
}

/// The tetrahedral configuration shown by a full puzzle whose edges stay in their triples.
pub open spec fn pyra_of_fto(v: crate::state::statefto::FtoView) -> PyraView {
    (v.0, v.1, seq![twist_of(v.2[4], 4, 7), twist_of(v.2[1], 1, 9), twist_of(v.2[0], 0, 6), twist_of(v.2[2], 2, 3)])
}

/// The four edge slots read to tell the twists each hold an edge of their own triple.
pub open spec fn pyra_edges_placed(ep: Seq<u8>) -> bool {
    &&& ep.len() == 12
    &&& (ep[4] == 4 || ep[4] == 7 || ep[4] == 10)
    &&& (ep[1] == 1 || ep[1] == 9 || ep[1] == 8)
    &&& (ep[0] == 0 || ep[0] == 6 || ep[0] == 5)
    &&& (ep[2] == 2 || ep[2] == 3 || ep[2] == 11)
}

/// Edges in their own triples are in particular placed in the four slots read.
pub proof fn lemma_triples_placed(ep: Seq<u8>)
    requires
        edges_in_triples(ep),
        is_perm(ep),
    ensures
        pyra_edges_placed(ep),
{
    assert(edge_triple(ep[4] as int) == edge_triple(4));
    assert(edge_triple(ep[1] as int) == edge_triple(1));
    assert(edge_triple(ep[0] as int) == edge_triple(0));
    assert(edge_triple(ep[2] as int) == edge_triple(2));
    assert(ep[2] < 12);
}

/// The twist shown by the triple slot holding `x`, one of `a`, `b`, `c`.
fn twist_of_edge(x: u8, a: u8, b: u8, c: u8) -> (r: u8)
    requires
        x == a || x == b || x == c,
    ensures
        r == twist_of(x, a, b),
        r < 3,
{
    if x == a {
        0
    } else if x == b {
        1
    } else {
        2
    }
}

impl StatePyra {
    /// The tetrahedral configuration shown by the full puzzle `fto`.
    pub fn from_fto(fto: &StateFTO) -> (r: Self)
        requires
            fto_wf(fto@),
            pyra_edges_placed(fto.ep@),
        ensures
            Self::wf_view(r@),
            r@ == pyra_of_fto(fto@),
    {
        let ct = [
            twist_of_edge(fto.ep[4], 4, 7, 10),
            twist_of_edge(fto.ep[1], 1, 9, 8),
            twist_of_edge(fto.ep[0], 0, 6, 5),
            twist_of_edge(fto.ep[2], 2, 3, 11),
        ];
        let r = Self { cp: fto.cp, co: fto.co, ct };
        assert(r.ct@ =~= pyra_of_fto(fto@).2);
        r
    }

    /// A configuration drawn uniformly from all dense indices.
    pub fn scrambled() -> (r: Self)
        ensures
            Self::wf_view(r@),
            exists|h: nat| h < 933120 && r@ == Self::unranked(h),
    {
        let h = crate::random::random_below(933120);
        Self::from_hash(h)
    }

    /// The corner permutation, corner orientation and centre twists.
    pub fn get_parts(&self) -> (r: ([u8; 6], [bool; 6], [u8; 4]))
        ensures
            r.0@ == self.cp@,
            r.1@ == self.co@,
            r.2@ == self.ct@,
    {
        (self.cp, self.co, self.ct)
    }

    /// Moves pieces along a turn and advances the twists.
    fn apply(&mut self, cp: &[u8; 6], co: &[bool; 6], ct: &[u8; 4])
        requires
            Self::wf_view(old(self)@),
            is_perm(cp@),
            forall|i: int| 0 <= i < 4 ==> #[trigger] ct@[i] < 3,
        ensures
            Self::wf_view(final(self)@),
            final(self)@ == (crate::perm::permuted(old(self).cp@, cp@), crate::perm::reoriented(old(self).co@, cp@, co@), twists_added(old(self).ct@, ct@)),
    {
        proof {
            lemma_permuted_is_perm(self.cp@, cp@);
        }
        self.co = reorient(&self.co, cp, co);
        self.cp = permute(&self.cp, cp);
        let ghost ct0 = self.ct@;
        let mut t = self.ct;
        let mut i: usize = 0;
        while i < 4
            invariant
                i <= 4,
                t@.len() == 4,
                ct0.len() == 4,
                forall|j: int| 0 <= j < 4 ==> #[trigger] ct@[j] < 3,
                forall|j: int| 0 <= j < 4 ==> #[trigger] ct0[j] < 3,
                forall|j: int| 0 <= j < i ==> t@[j] == #[trigger] twists_added(ct0, ct@)[j],
                forall|j: int| i <= j < 4 ==> t@[j] == ct0[j],
            decreases 4 - i,
        {
            assert(t@[i as int] == ct0[i as int] && ct0[i as int] < 3 && ct@[i as int] < 3);
            t[i] = (t[i] + ct[i]) % 3;
            i += 1;
        }
        assert(t@ =~= twists_added(ct0, ct@));
        self.ct = t;
    }

    /// Moves pieces back along a turn and takes the twists back.
    fn apply_inv(&mut self, cp: &[u8; 6], co: &[bool; 6], ct: &[u8; 4])
        requires
            Self::wf_view(old(self)@),
            is_perm(cp@),
            forall|i: int| 0 <= i < 4 ==> #[trigger] ct@[i] < 3,
        ensures
            Self::wf_view(final(self)@),
            final(self)@ == (crate::perm::unpermuted(old(self).cp@, cp@), crate::perm::unreoriented(old(self).co@, cp@, co@), twists_subtracted(old(self).ct@, ct@)),
    {
        proof {
            lemma_unpermuted_is_perm(self.cp@, cp@);
        }
        self.co = unreorient(&self.co, cp, co);
        self.cp = unpermute(&self.cp, cp);
        let ghost ct0 = self.ct@;
        let mut t = self.ct;
        let mut i: usize = 0;
        while i < 4
            invariant
                i <= 4,
                t@.len() == 4,
                ct0.len() == 4,
                forall|j: int| 0 <= j < 4 ==> #[trigger] ct@[j] < 3,
                forall|j: int| 0 <= j < 4 ==> #[trigger] ct0[j] < 3,
                forall|j: int| 0 <= j < i ==> t@[j] == #[trigger] twists_subtracted(ct0, ct@)[j],
                forall|j: int| i <= j < 4 ==> t@[j] == ct0[j],
            decreases 4 - i,
        {
            assert(t@[i as int] == ct0[i as int] && ct0[i as int] < 3 && ct@[i as int] < 3);
            t[i] = (3 + t[i] - ct[i]) % 3;
            i += 1;
        }
        assert(t@ =~= twists_subtracted(ct0, ct@));
        self.ct = t;
    }

    /// Conjugates by the elementary symmetry `k` (not x2).
    fn wrap(&mut self, k: u8)
        requires
            k < 5,
            Self::wf_view(old(self)@),
        ensures
            Self::wf_view(final(self)@),
            final(self)@ == pyra_conj_steps(old(self)@, seq![k as int]),
    {
        let d = sym_ct(k);
        let ghost ct0 = self.ct@;
        proof {
            lemma_sym_ct_blocks(k as int);
            lemma_perm_onto(d@);
        }
        let mut new_ct: [u8; 4] = [3, 3, 3, 3];
        let mut i: usize = 0;
        while i < 4
            invariant
                i <= 4,
                new_ct@.len() == 4,
                ct0 == self.ct@,
                twists_wf(ct0),
                d@.len() == 12,
                block_preserving(d@),
                forall|m: int| 0 <= m < i ==> new_ct@[block_image(d@, m)] == #[trigger] d@[ct0[m] + 3 * m] % 3,
                forall|j: int| 0 <= j < 4 ==> (#[trigger] new_ct@[j] < 3 || new_ct@[j] == 3),
            decreases 4 - i,
        {
            let raw = d[self.ct[i] as usize + i * 3];
            assert(d@[3 * i + ct0[i as int]] / 3 == block_image(d@, i as int));
            new_ct[raw as usize / 3] = raw % 3;
            i += 1;
        }
        proof {
            assert forall|j: int| 0 <= j < 4 implies new_ct@[j] == #[trigger] twists_conjugated(ct0, d@)[j] by {
                let pi = perm_index(d@, 3 * j);
                let m = pi / 3;
                assert(d@[3 * m + pi % 3] / 3 == block_image(d@, m));
                assert(d@[pi] == 3 * j);
            }
            assert(new_ct@ =~= twists_conjugated(ct0, d@));
            reveal_with_fuel(pyra_conj_steps, 2);
            reveal_with_fuel(corners_conj_steps, 2);
            assert(seq![k as int].drop_first() =~= Seq::<int>::empty());
        }
        let mut cp = self.cp;
        let mut co = self.co;
        super::conj_corners(&mut cp, &mut co, k);
        self.cp = cp;
        self.co = co;
        self.ct = new_ct;
    }

    /// Replaces the configuration by its inverse.
    pub fn inverse(&mut self)
        requires
            Self::wf_view(old(self)@),
        ensures
            Self::wf_view(final(self)@),
            final(self)@ == pyra_inverse(old(self)@),
    {
        proof {
            lemma_inverted_is_perm(self.cp@);
        }
        self.co = invert_flags(&self.co, &self.cp);
        self.cp = invert(&self.cp);
        let ghost ct0 = self.ct@;
        let mut t = self.ct;
        let mut i: usize = 0;
        while i < 4
            invariant
                i <= 4,
                t@.len() == 4,
                twists_wf(ct0),
                forall|j: int| 0 <= j < i ==> t@[j] == #[trigger] twists_inverted(ct0)[j],
                forall|j: int| i <= j < 4 ==> t@[j] == ct0[j],
            decreases 4 - i,
        {
            t[i] = match t[i] {
                1 => 2,
                2 => 1,
                _ => 0,
            };
            i += 1;
        }
        assert(t@ =~= twists_inverted(ct0));
        self.ct = t;
    }
}

/// Turning one of the four lower faces clockwise and then counter-clockwise
/// restores the configuration.
pub proof fn lemma_turn_undone(v: PyraView, face: nat)
    requires
        StatePyra::wf_view(v),
        face < 4,
    ensures
        StatePyra::turned(StatePyra::turned(v, 2 * face), 2 * face + 1) == v,
{
    crate::data::lemma_turn_data(face as int);
    crate::perm::lemma_unpermuted_permuted(v.0, turn_cp_spec(face as int));
    crate::perm::lemma_unreoriented_reoriented(v.1, turn_cp_spec(face as int), turn_co_spec(face as int));
    let d = turn_ct_spec(face as int);
    assert(twists_subtracted(twists_added(v.2, d), d) =~= v.2);
}

proof fn lemma_conj_steps_solved(steps: Seq<int>)
    requires
        forall|i: int| 0 <= i < steps.len() ==> 0 <= #[trigger] steps[i] < 5,
    ensures
        pyra_conj_steps(StatePyra::solved_view(), steps) == StatePyra::solved_view(),
    decreases steps.len(),
{
    if steps.len() > 0 {
        let k = steps[0];
        let d = sym_ct_spec(k);
        crate::data::lemma_sym_data(k);
        super::lemma_corners_conj_steps_solved(seq![k]);
        lemma_perm_onto(d);
        let z = seq![0u8, 0, 0, 0];
        assert forall|j: int| 0 <= j < 4 implies #[trigger] twists_conjugated(z, d)[j] == 0 by {
            let i = perm_index(d, 3 * j) / 3;
            assert(0 <= perm_index(d, 3 * j) < 12);
            assert(d[3 * i] % 3 == 0);
        }
        assert(twists_conjugated(z, d) =~= z);
        assert forall|i: int| 0 <= i < steps.drop_first().len() implies 0 <= #[trigger] steps.drop_first()[i] < 5 by {
            assert(steps.drop_first()[i] == steps[i + 1]);
        }
        lemma_conj_steps_solved(steps.drop_first());
    }
}

/// Every symmetry maps the solved configuration to itself, so its index stays
/// the solved index.
pub proof fn lemma_solved_symmetric(sym: nat)
    ensures
        StatePyra::wrapped(StatePyra::solved_view(), sym) == StatePyra::solved_view(),
        StatePyra::index_of(StatePyra::wrapped(StatePyra::solved_view(), sym)) == StatePyra::index_of(StatePyra::solved_view()),
{
    let sv = StatePyra::solved_view();
    super::lemma_identity_inverted(6);
    assert(twists_inverted(sv.2) =~= sv.2);
    assert(pyra_inverse(sv) == sv);
    super::lemma_sym_steps_bound(sym / 2);
    lemma_conj_steps_solved(sym_steps(sym / 2));
}

/// The twists of rank `y` have rank `y`.
pub proof fn lemma_twist_rank_unrank(y: nat)
    requires
        y < 81,
    ensures
        twist_rank(twist_unrank(y)) == y,
{
}

/// The configuration of dense index `x` has dense index `x`.
pub proof fn lemma_index_unranked(x: nat)
    requires
        x < 933120,
    ensures
        StatePyra::index_of(StatePyra::unranked(x)) == x,
{
    reveal_with_fuel(rank_weight, 6);
    crate::indexing::lemma_perm_rank_unrank((x / 81) / 32, 6);
    crate::indexing::lemma_orientation_rank_unrank((x / 81) % 32);
    lemma_twist_rank_unrank(x % 81);
}

} // verus!
