//! The indexing abstraction the pruning table is built over.

pub mod statesetfto2;
pub mod statesetpyra;
pub mod statesetfto2split;

use vstd::prelude::*;
use crate::state::State;
use crate::symmetry::{is_repr_table, is_some_repr, repr, repr_table_shape};
use crate::tables::is_reduced_turn_table;

verus! {

/// A space of symmetry-reduced states `0 .. size` with the adjacency the
/// search follows: one neighbour per move, and the indices equivalent to a
/// state under the symmetries that fix its reduced part.
pub trait StateSet {
    spec fn wf(&self) -> bool;

    spec fn spec_size(&self) -> nat;

    spec fn spec_solved(&self) -> nat;

    spec fn spec_max_depth(&self) -> nat;

    /// The neighbours of state `i`, one per move.
    spec fn next_spec(&self, i: nat) -> Seq<usize>;

    /// The states equivalent to state `i`.
    spec fn syms_spec(&self, i: nat) -> Seq<usize>;

    fn size(&self) -> (r: usize)
        requires
            self.wf(),
        ensures
            r == self.spec_size(),
            r <= 0x4000_0000,
    ;

    fn max_depth(&self) -> (r: u8)
        ensures
            r == self.spec_max_depth(),
    ;

    fn solved(&self) -> (r: usize)
        requires
            self.wf(),
        ensures
            r == self.spec_solved(),
            r < self.spec_size(),
    ;

    fn get_sym_hashes(&self, i: usize) -> (r: Vec<usize>)
        requires
            self.wf(),
            i < self.spec_size(),
        ensures
            r@ == self.syms_spec(i as nat),
            forall|k: int| 0 <= k < r@.len() ==> #[trigger] r@[k] < self.spec_size(),
    ;

    fn get_next_state_sets(&self, i: usize) -> (r: Vec<usize>)
        requires
            self.wf(),
            i < self.spec_size(),
        ensures
            r@ == self.next_spec(i as nat),
            forall|k: int| 0 <= k < r@.len() ==> #[trigger] r@[k] < self.spec_size(),
    ;
}

/// The reduced turn table of `len` states has a row of `nt` entries per state,
/// each naming a state below `len` (after division by the symmetry count `ns`).
pub open spec fn reduced_turns_shape(t: Seq<usize>, len: nat, nt: nat, ns: nat) -> bool {
    &&& t.len() == len * nt
    &&& forall|j: int| 0 <= j < t.len() ==> (#[trigger] t[j] as nat) / ns < len
}

pub proof fn lemma_row_index(i: int, m: int, n: int, len: int)
    requires
        0 <= i < len,
        0 <= m < n,
    ensures
        0 <= i * n + m < len * n,
{
    assert(0 <= i * n + m < len * n) by (nonlinear_arith)
        requires
            0 <= i < len,
            0 <= m < n,
    ;
}

/// Whether `t` has the shape of a table of representatives.
pub fn check_repr_table_shape<S: State>(t: &Vec<usize>) -> (r: bool)
    ensures
        r == repr_table_shape::<S>(t@),
{
    let raw = S::raw_size();
    if t.len() > raw {
        return false;
    }
    let mut i: usize = 0;
    while i < t.len()
        invariant
            i <= t@.len(),
            raw == S::spec_raw_size(),
            t@.len() <= raw,
            forall|k: int| 0 <= k < i ==> #[trigger] t@[k] < raw,
            forall|a: int, b: int| 0 <= a < b < i ==> t@[a] < t@[b],
        decreases t@.len() - i,
    {
        if t[i] >= raw {
            return false;
        }
        if i > 0 && t[i - 1] >= t[i] {
            return false;
        }
        proof {
            assert forall|a: int, b: int| 0 <= a < b < i + 1 implies t@[a] < t@[b] by {
                if b == i && a < i - 1 {
                    assert(t@[a] < t@[i - 1]);
                }
            }
        }
        i += 1;
    }
    true
}

/// Whether `t` has the shape of a reduced turn table over `len` states.
pub fn check_reduced_turns(t: &Vec<usize>, len: usize, nt: usize, ns: usize) -> (r: bool)
    requires
        ns > 0,
    ensures
        r == reduced_turns_shape(t@, len as nat, nt as nat, ns as nat),
{
    if len > 0 && t.len() / len != nt {
        assert(t@.len() != len * nt) by {
            if t@.len() == len * nt {
                assert((len * nt) / (len as int) == nt) by {
                    vstd::arithmetic::div_mod::lemma_div_by_multiple(nt as int, len as int);
                    assert(len * nt == nt * len) by (nonlinear_arith);
                }
            }
        }
        return false;
    }
    if len == 0 {
        return t.len() == 0 || nt == 0 && t.len() == 0;
    }
    if t.len() % len != 0 {
        assert(t@.len() != len * nt) by {
            if t@.len() == len * nt {
                vstd::arithmetic::div_mod::lemma_mod_multiples_basic(nt as int, len as int);
                assert(len * nt == nt * len) by (nonlinear_arith);
            }
        }
        return false;
    }
    assert(t@.len() == len * nt) by {
        vstd::arithmetic::div_mod::lemma_fundamental_div_mod(t@.len() as int, len as int);
        assert(len * ((t@.len() as int) / (len as int)) == len * nt);
    }
    let mut j: usize = 0;
    while j < t.len()
        invariant
            j <= t@.len(),
            ns > 0,
            forall|k: int| 0 <= k < j ==> (#[trigger] t@[k] as nat) / (ns as nat) < len as nat,
        decreases t@.len() - j,
    {
        if t[j] / ns >= len {
            return false;
        }
        j += 1;
    }
    true
}

/// `y` is the representative of some configuration.
pub open spec fn is_repr_index<S: State>(y: usize) -> bool {
    exists|x: nat| x < S::spec_raw_size() && y == repr::<S>(S::unranked(x)) as usize
}

/// Every turn of every representative leads to a configuration whose
/// representative is again the representative of some configuration.
pub open spec fn reprs_closed<S: State>() -> bool {
    forall|x: nat, k: nat|
        x < S::spec_raw_size() && k < S::spec_num_turns() ==> is_repr_index::<S>(
            #[trigger] repr::<S>(S::turned(S::unranked(repr::<S>(S::unranked(x)) as usize as nat), k)) as usize,
        )
}

/// The table of representatives holds exactly the representatives.
pub proof fn lemma_contains_iff_repr<S: State>(t: Seq<usize>, y: usize)
    requires
        is_repr_table::<S>(t),
    ensures
        t.contains(y) <==> is_repr_index::<S>(y),
{
    if t.contains(y) {
        let i = choose|i: int| 0 <= i < t.len() && t[i] == y;
        assert(is_some_repr::<S>(t[i] as nat));
        let x = choose|x: nat| x < S::spec_raw_size() && t[i] as nat == repr::<S>(S::unranked(x));
        assert(y == repr::<S>(S::unranked(x)) as usize);
    }
    if is_repr_index::<S>(y) {
        let x = choose|x: nat| x < S::spec_raw_size() && y == repr::<S>(S::unranked(x)) as usize;
        assert(t.contains(repr::<S>(S::unranked(x)) as usize));
    }
}

/// A reduced turn table has the shape the search space checks.
pub proof fn lemma_reduced_shape<S: State>(reprs: Seq<usize>, t: Seq<usize>)
    requires
        is_reduced_turn_table::<S>(reprs, t),
        S::spec_num_turns() > 0,
        S::spec_num_syms() > 0,
    ensures
        reduced_turns_shape(t, reprs.len(), S::spec_num_turns(), S::spec_num_syms()),
{
    let nt = S::spec_num_turns();
    assert forall|j: int| 0 <= j < t.len() implies (#[trigger] t[j] as nat) / S::spec_num_syms() < reprs.len() by {
        let i = j / (nt as int);
        let k = j % (nt as int);
        vstd::arithmetic::div_mod::lemma_fundamental_div_mod(j, nt as int);
        assert(j == i * nt + k) by (nonlinear_arith)
            requires
                j == nt * (j / (nt as int)) + j % (nt as int),
                i == j / (nt as int),
                k == j % (nt as int),
        ;
        assert(0 <= i < reprs.len()) by {
            vstd::arithmetic::div_mod::lemma_div_pos_is_pos(j, nt as int);
            vstd::arithmetic::div_mod::lemma_div_is_ordered(j, (reprs.len() * nt) as int, nt as int);
            vstd::arithmetic::div_mod::lemma_div_by_multiple(reprs.len() as int, nt as int);
            if i >= reprs.len() {
                assert(j >= reprs.len() * nt) by (nonlinear_arith)
                    requires
                        j == i * nt + k,
                        i >= reprs.len(),
                        k >= 0,
                ;
            }
        }
        assert(t[i * nt + k] == t[j]);
    }
}

/// A reduced turn table can be built exactly when the representatives are
/// closed under turns.
pub proof fn lemma_reduced_exists<S: State>(reprs: Seq<usize>)
    requires
        is_repr_table::<S>(reprs),
    ensures
        (exists|i: int, k: int|
            0 <= i < reprs.len() && 0 <= k < S::spec_num_turns() && !reprs.contains(
                #[trigger] repr::<S>(S::turned(S::unranked(reprs[i] as nat), k as nat)) as usize,
            )) <==> !reprs_closed::<S>(),
{
    if exists|i: int, k: int|
        0 <= i < reprs.len() && 0 <= k < S::spec_num_turns() && !reprs.contains(
            #[trigger] repr::<S>(S::turned(S::unranked(reprs[i] as nat), k as nat)) as usize,
        ) {
        let (i, k) = choose|i: int, k: int|
            0 <= i < reprs.len() && 0 <= k < S::spec_num_turns() && !reprs.contains(
                #[trigger] repr::<S>(S::turned(S::unranked(reprs[i] as nat), k as nat)) as usize,
            );
        assert(is_some_repr::<S>(reprs[i] as nat));
        let x = choose|x: nat| x < S::spec_raw_size() && reprs[i] as nat == repr::<S>(S::unranked(x));
        assert(repr::<S>(S::unranked(x)) as usize == reprs[i]);
        let kn = k as nat;
        let y = repr::<S>(S::turned(S::unranked(repr::<S>(S::unranked(x)) as usize as nat), kn)) as usize;
        assert(y == repr::<S>(S::turned(S::unranked(reprs[i] as nat), k as nat)) as usize);
        lemma_contains_iff_repr::<S>(reprs, y);
        assert(!is_repr_index::<S>(y));
        assert(x < S::spec_raw_size() && kn < S::spec_num_turns());
        assert(!reprs_closed::<S>());
    }
    if !reprs_closed::<S>() {
        let (x, k) = choose|x: nat, k: nat|
            !(x < S::spec_raw_size() && k < S::spec_num_turns() ==> is_repr_index::<S>(
                #[trigger] repr::<S>(S::turned(S::unranked(repr::<S>(S::unranked(x)) as usize as nat), k)) as usize,
            ));
        let r0 = repr::<S>(S::unranked(x)) as usize;
        assert(reprs.contains(r0));
        let i = choose|i: int| 0 <= i < reprs.len() && reprs[i] == r0;
        assert(x < S::spec_raw_size() && k < S::spec_num_turns());
        let ki = k as int;
        assert(reprs[i] as nat == repr::<S>(S::unranked(x)) as usize as nat);
        let y = repr::<S>(S::turned(S::unranked(reprs[i] as nat), ki as nat)) as usize;
        assert(!is_repr_index::<S>(y));
        lemma_contains_iff_repr::<S>(reprs, y);
        assert(0 <= i < reprs.len() && 0 <= ki < S::spec_num_turns() && !reprs.contains(
            repr::<S>(S::turned(S::unranked(reprs[i] as nat), ki as nat)) as usize,
        ));
    }
}

} // verus!
