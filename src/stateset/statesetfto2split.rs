//! The search space of the smaller octahedron split in two: symmetry-reduced
//! corners and raw centres, combined as `corners * 12 + centres`. A turn of the
//! corners leaves a residual symmetry, which is carried over to the centres.

use vstd::prelude::*;
use crate::state::State;
use crate::state::statecenters::StateCenters;
use crate::state::statecorners::StateCorners;
use crate::stateset::{
    StateSet, check_reduced_turns, check_repr_table_shape, is_repr_index, lemma_contains_iff_repr, lemma_reduced_exists,
    lemma_reduced_shape, lemma_row_index, reduced_turns_shape, reprs_closed,
};
use crate::symmetry::{
    fixing_syms, generate_symhash_table, get_sym_hash, get_sym_hash_sym, get_syms, is_first_min_sym, is_repr_table, repr,
    repr_table_shape,
};
use crate::tables::{
    generate_raw_sym_table, generate_raw_turn_table, generate_reduced_turn_table, is_raw_sym_table, is_raw_turn_table,
    is_reduced_turn_table,
};

verus! {

/// Every entry of `t` is below `bound`.
pub open spec fn entries_below(t: Seq<usize>, bound: nat) -> bool {
    forall|j: int| 0 <= j < t.len() ==> #[trigger] t[j] < bound
}

/// Reduced corners and raw centres of the smaller octahedron.
pub struct StateSetFTO2Split {
    pub corner_reprs: Vec<usize>,
    pub corner_turns: Vec<usize>,
    pub centre_turns: Vec<usize>,
    pub centre_syms: Vec<usize>,
    pub solved: usize,
}

impl StateSetFTO2Split {
    /// The centres index `e` after turn `m`, then conjugated by `sym`.
    pub open spec fn centre_after(&self, e: int, m: int, sym: int) -> usize {
        self.centre_syms@[self.centre_turns@[e * 8 + m] * 24 + sym]
    }

    /// The combined index of raw parts: corners reduced by their first
    /// minimising symmetry, centres conjugated by it.
    pub open spec fn is_index_of_parts(&self, x: nat, cp: nat, co: nat, ce: nat) -> bool {
        let v = StateCorners::unranked(cp * 32 + co);
        &&& x / 12 < self.corner_reprs@.len()
        &&& self.corner_reprs@[(x / 12) as int] == repr::<StateCorners>(v)
        &&& exists|s: nat|
            is_first_min_sym::<StateCorners>(v, s) && x % 12 == StateCenters::index_of(
                StateCenters::wrapped(StateCenters::unranked(ce), s),
            )
    }
}

impl StateSet for StateSetFTO2Split {
    open spec fn wf(&self) -> bool {
        &&& repr_table_shape::<StateCorners>(self.corner_reprs@)
        &&& reduced_turns_shape(self.corner_turns@, self.corner_reprs@.len(), 8, 24)
        &&& self.centre_turns@.len() == 96
        &&& entries_below(self.centre_turns@, 12)
        &&& self.centre_syms@.len() == 288
        &&& entries_below(self.centre_syms@, 12)
        &&& self.solved < self.corner_reprs@.len() * 12
        &&& self.corner_reprs@[(self.solved / 12) as int] == repr::<StateCorners>(StateCorners::solved_view())
        &&& self.solved % 12 == StateCenters::index_of(StateCenters::solved_view())
    }

    open spec fn spec_size(&self) -> nat {
        self.corner_reprs@.len() * 12
    }

    open spec fn spec_solved(&self) -> nat {
        self.solved as nat
    }

    open spec fn spec_max_depth(&self) -> nat {
        10
    }

    open spec fn next_spec(&self, i: nat) -> Seq<usize> {
        Seq::new(
            8,
            |m: int|
                {
                    let comb = self.corner_turns@[(i / 12) * 8 + m];
                    ((comb / 24) * 12 + self.centre_after((i % 12) as int, m, (comb % 24) as int)) as usize
                },
        )
    }

    open spec fn syms_spec(&self, i: nat) -> Seq<usize> {
        let c = i / 12;
        let syms = fixing_syms::<StateCorners>(StateCorners::unranked(self.corner_reprs@[c as int] as nat));
        Seq::new(syms.len(), |k: int| (c * 12 + self.centre_syms@[(i % 12) * 24 + syms[k]]) as usize)
    }

    fn size(&self) -> (r: usize) {
        self.corner_reprs.len() * 12
    }

    fn max_depth(&self) -> (r: u8) {
        10
    }

    fn solved(&self) -> (r: usize) {
        self.solved
    }

    fn get_sym_hashes(&self, i: usize) -> (r: Vec<usize>) {
        let c = i / 12;
        let e = i % 12;
        let corners = StateCorners::from_hash(self.corner_reprs[c]);
        let syms = get_syms(&corners);
        let mut r: Vec<usize> = Vec::new();
        let mut k: usize = 0;
        while k < syms.len()
            invariant
                self.wf(),
                i < self.spec_size(),
                c == i / 12,
                e == i % 12,
                k <= syms@.len(),
                syms@ == fixing_syms::<StateCorners>(StateCorners::unranked(self.corner_reprs@[c as int] as nat)),
                forall|m: int| 0 <= m < syms@.len() ==> #[trigger] syms@[m] < 24,
                r@.len() == k,
                forall|m: int| 0 <= m < k ==> #[trigger] r@[m] == (c * 12 + self.centre_syms@[(e * 24 + syms@[m]) as int]) as usize,
                forall|m: int| 0 <= m < k ==> #[trigger] r@[m] < self.spec_size(),
            decreases syms@.len() - k,
        {
            proof {
                lemma_row_index(e as int, syms@[k as int] as int, 24, 12);
                lemma_row_index(c as int, 11, 12, self.corner_reprs@.len() as int);
            }
            r.push(c * 12 + self.centre_syms[e * 24 + syms[k] as usize]);
            k += 1;
        }
        assert(r@ =~= self.syms_spec(i as nat));
        r
    }

    fn get_next_state_sets(&self, i: usize) -> (r: Vec<usize>) {
        let c = i / 12;
        let e = i % 12;
        let len = self.corner_reprs.len();
        let mut r: Vec<usize> = Vec::new();
        let mut m: usize = 0;
        while m < 8
            invariant
                self.wf(),
                i < self.spec_size(),
                c == i / 12,
                e == i % 12,
                len == self.corner_reprs@.len(),
                c < len,
                m <= 8,
                r@.len() == m,
                forall|k: int| 0 <= k < m ==> #[trigger] r@[k] == self.next_spec(i as nat)[k],
                forall|k: int| 0 <= k < m ==> #[trigger] r@[k] < self.spec_size(),
            decreases 8 - m,
        {
            proof {
                lemma_row_index(c as int, m as int, 8, len as int);
                lemma_row_index(e as int, m as int, 8, 12);
            }
            let comb = self.corner_turns[c * 8 + m];
            let sym_hash = comb / 24;
            let sym = comb % 24;
            let centres_raw = self.centre_turns[e * 8 + m];
            proof {
                lemma_row_index(centres_raw as int, sym as int, 24, 12);
                lemma_row_index(sym_hash as int, 11, 12, len as int);
            }
            let centres = self.centre_syms[centres_raw * 24 + sym];
            r.push(sym_hash * 12 + centres);
            m += 1;
        }
        assert(r@ =~= self.next_spec(i as nat));
        r
    }
}

impl StateSetFTO2Split {
    /// The search space over the given tables, or `None` when they are not of
    /// the expected shape or the representatives lack the solved corners'.
    pub fn new(corner_reprs: Vec<usize>, corner_turns: Vec<usize>, centre_turns: Vec<usize>, centre_syms: Vec<usize>) -> (r: Option<Self>)
        ensures
            r is Some <==> (repr_table_shape::<StateCorners>(corner_reprs@) && reduced_turns_shape(corner_turns@, corner_reprs@.len(), 8, 24)
                && centre_turns@.len() == 96 && entries_below(centre_turns@, 12) && centre_syms@.len() == 288
                && entries_below(centre_syms@, 12)
                && corner_reprs@.contains(repr::<StateCorners>(StateCorners::solved_view()) as usize)),
            r is Some ==> r->0.wf() && r->0.corner_reprs@ == corner_reprs@ && r->0.corner_turns@ == corner_turns@
                && r->0.centre_turns@ == centre_turns@ && r->0.centre_syms@ == centre_syms@,
    {
        if !check_repr_table_shape::<StateCorners>(&corner_reprs) {
            return None;
        }
        if !check_reduced_turns(&corner_turns, corner_reprs.len(), 8, 24) {
            return None;
        }
        if centre_turns.len() != 96 || !check_below(&centre_turns, 12) {
            return None;
        }
        if centre_syms.len() != 288 || !check_below(&centre_syms, 12) {
            return None;
        }
        let corners = StateCorners::solved();
        let centres = StateCenters::solved();
        match get_sym_hash(&corners, &corner_reprs) {
            Some(c) => {
                let solved = c * 12 + centres.get_hash();
                Some(StateSetFTO2Split { corner_reprs, corner_turns, centre_turns, centre_syms, solved })
            },
            None => None,
        }
    }

    /// Builds the four tables and the search space over them: `Some` exactly
    /// when every turn of a corner representative leads to a representative's
    /// corners and the solved corners' representative is present.
    pub fn build() -> (r: Option<Self>)
        ensures
            r is Some <==> reprs_closed::<StateCorners>() && is_repr_index::<StateCorners>(
                repr::<StateCorners>(StateCorners::solved_view()) as usize,
            ),
            r is Some ==> r->0.wf() && is_repr_table::<StateCorners>(r->0.corner_reprs@)
                && is_reduced_turn_table::<StateCorners>(r->0.corner_reprs@, r->0.corner_turns@)
                && is_raw_turn_table::<StateCenters>(r->0.centre_turns@)
                && is_raw_sym_table::<StateCenters>(r->0.centre_syms@),
    {
        let corner_reprs = generate_symhash_table::<StateCorners>();
        let centre_turns = generate_raw_turn_table::<StateCenters>();
        let centre_syms = generate_raw_sym_table::<StateCenters>();
        proof {
            lemma_reduced_exists::<StateCorners>(corner_reprs@);
            lemma_contains_iff_repr::<StateCorners>(corner_reprs@, repr::<StateCorners>(StateCorners::solved_view()) as usize);
        }
        match generate_reduced_turn_table::<StateCorners>(&corner_reprs) {
            Some(corner_turns) => {
                proof {
                    lemma_reduced_shape::<StateCorners>(corner_reprs@, corner_turns@);
                }
                Self::new(corner_reprs, corner_turns, centre_turns, centre_syms)
            },
            None => None,
        }
    }

    /// The combined index of a configuration given by the ranks of its corner
    /// permutation, corner orientation and centres; `None` when the corners'
    /// representative is missing from the table.
    pub fn from_parts(&self, raw_cp_hash: usize, raw_co_hash: usize, raw_ce_hash: usize) -> (r: Option<usize>)
        requires
            self.wf(),
            raw_cp_hash < 360,
            raw_co_hash < 32,
            raw_ce_hash < 12,
        ensures
            r is Some ==> self.is_index_of_parts(r->0 as nat, raw_cp_hash as nat, raw_co_hash as nat, raw_ce_hash as nat)
                && r->0 < self.spec_size(),
            r is None ==> !self.corner_reprs@.contains(
                repr::<StateCorners>(StateCorners::unranked((raw_cp_hash * 32 + raw_co_hash) as nat)) as usize,
            ),
    {
        let corners = StateCorners::from_hash(raw_cp_hash * 32 + raw_co_hash);
        match get_sym_hash_sym(&corners, &self.corner_reprs) {
            Some((corners_sym_hash, sym)) => {
                let mut state_centers = StateCenters::from_hash(raw_ce_hash);
                state_centers.wrap_sym(sym);
                let e = state_centers.get_hash();
                proof {
                    lemma_row_index(corners_sym_hash as int, e as int, 12, self.corner_reprs@.len() as int);
                    assert((corners_sym_hash * 12 + e) / 12 == corners_sym_hash && (corners_sym_hash * 12 + e) % 12 == e) by {
                        vstd::arithmetic::div_mod::lemma_fundamental_div_mod_converse(
                            (corners_sym_hash * 12 + e) as int, 12, corners_sym_hash as int, e as int);
                    }
                }
                Some(corners_sym_hash * 12 + e)
            },
            None => None,
        }
    }
}

/// Whether every entry of `t` is below `bound`.
fn check_below(t: &Vec<usize>, bound: usize) -> (r: bool)
    ensures
        r == entries_below(t@, bound as nat),
{
    let mut j: usize = 0;
    while j < t.len()
        invariant
            j <= t@.len(),
            forall|k: int| 0 <= k < j ==> #[trigger] t@[k] < bound,
        decreases t@.len() - j,
    {
        if t[j] >= bound {
            return false;
        }
        j += 1;
    }
    true
}

impl StateSetFTO2Split {
    /// A configuration has one combined index.
    pub proof fn lemma_index_of_parts_unique(&self, x: nat, y: nat, cp: nat, co: nat, ce: nat)
        requires
            self.wf(),
            self.is_index_of_parts(x, cp, co, ce),
            self.is_index_of_parts(y, cp, co, ce),
        ensures
            x == y,
    {
        let v = StateCorners::unranked(cp * 32 + co);
        let a = (x / 12) as int;
        let b = (y / 12) as int;
        if a < b {
            assert(self.corner_reprs@[a] < self.corner_reprs@[b]);
        } else if b < a {
            assert(self.corner_reprs@[b] < self.corner_reprs@[a]);
        }
        let s1 = choose|s: nat| is_first_min_sym::<StateCorners>(v, s) && x % 12 == StateCenters::index_of(
            StateCenters::wrapped(StateCenters::unranked(ce), s),
        );
        let s2 = choose|s: nat| is_first_min_sym::<StateCorners>(v, s) && y % 12 == StateCenters::index_of(
            StateCenters::wrapped(StateCenters::unranked(ce), s),
        );
        if s1 < s2 {
            assert(crate::symmetry::sym_index::<StateCorners>(v, s1) > repr::<StateCorners>(v));
        } else if s2 < s1 {
            assert(crate::symmetry::sym_index::<StateCorners>(v, s2) > repr::<StateCorners>(v));
        }
        assert(x == (x / 12) * 12 + x % 12);
        assert(y == (y / 12) * 12 + y % 12);
    }
}

} // verus!
