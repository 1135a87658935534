//! Symmetry reduction: the representative of a configuration's orbit (the
//! least dense index among its conjugates), its position in the sorted table
//! of all representatives, and that table.

use vstd::prelude::*;
use crate::state::State;

verus! {

/// Dense index of the configuration conjugated by `sym`.
pub open spec fn sym_index<S: State>(v: S::V, sym: nat) -> nat {
    S::index_of(S::wrapped(v, sym))
}

/// Least dense index among the conjugates by the first `k` symmetries.
pub open spec fn repr_upto<S: State>(v: S::V, k: nat) -> nat
    decreases k,
{
    if k <= 1 {
        sym_index::<S>(v, 0)
    } else {
        let m = repr_upto::<S>(v, (k - 1) as nat);
        let x = sym_index::<S>(v, (k - 1) as nat);
        if x < m {
            x
        } else {
            m
        }
    }
}

/// The representative: least dense index over the configuration's orbit.
pub open spec fn repr<S: State>(v: S::V) -> nat {
    repr_upto::<S>(v, S::spec_num_syms())
}

/// `sym` is the first symmetry whose conjugate has the representative's index.
pub open spec fn is_first_min_sym<S: State>(v: S::V, sym: nat) -> bool {
    &&& sym < S::spec_num_syms()
    &&& sym_index::<S>(v, sym) == repr::<S>(v)
    &&& forall|s: nat| s < sym ==> sym_index::<S>(v, s) > repr::<S>(v)
}

/// A strictly increasing table.
pub open spec fn sorted_strictly(t: Seq<usize>) -> bool {
    forall|i: int, j: int| 0 <= i < j < t.len() ==> t[i] < t[j]
}

/// The table of representatives: strictly increasing, holding exactly the
/// representatives of the configurations of index below `raw`.
pub open spec fn is_repr_table<S: State>(t: Seq<usize>) -> bool {
    &&& repr_table_shape::<S>(t)
    &&& forall|x: nat| x < S::spec_raw_size() ==> t.contains(repr::<S>(S::unranked(x)) as usize)
    &&& forall|i: int| 0 <= i < t.len() ==> is_some_repr::<S>(#[trigger] t[i] as nat)
}

/// What can be checked of a table of representatives without rebuilding it:
/// strictly increasing, no longer than the raw domain, entries inside it.
pub open spec fn repr_table_shape<S: State>(t: Seq<usize>) -> bool {
    &&& sorted_strictly(t)
    &&& t.len() <= S::spec_raw_size()
    &&& forall|i: int| 0 <= i < t.len() ==> #[trigger] t[i] < S::spec_raw_size()
}

/// `k` is the representative of some configuration.
pub open spec fn is_some_repr<S: State>(k: nat) -> bool {
    exists|x: nat| x < S::spec_raw_size() && k == repr::<S>(S::unranked(x))
}

proof fn lemma_repr_upto_attained<S: State>(v: S::V, k: nat)
    requires
        k >= 1,
    ensures
        exists|s: nat| s < k && sym_index::<S>(v, s) == repr_upto::<S>(v, k),
        forall|s: nat| s < k ==> repr_upto::<S>(v, k) <= sym_index::<S>(v, s),
    decreases k,
{
    if k > 1 {
        lemma_repr_upto_attained::<S>(v, (k - 1) as nat);
    } else {
        assert(sym_index::<S>(v, 0) == repr_upto::<S>(v, k));
    }
}

/// The representative of `state` and the first symmetry that reaches it.
pub fn get_repr_sym<S: State + Copy>(state: &S) -> (r: (usize, u8))
    requires
        S::wf_view(state@),
        1 <= S::spec_num_syms() <= 255,
    ensures
        r.0 == repr::<S>(state@),
        is_first_min_sym::<S>(state@, r.1 as nat),
        r.0 < S::spec_raw_size(),
{
    let n = S::num_syms();
    let mut first = *state;
    first.wrap_sym(0);
    let mut best: usize = first.get_hash();
    let mut best_sym: u8 = 0;
    let mut s: u8 = 1;
    while s < n
        invariant
            1 <= s <= n,
            n == S::spec_num_syms(),
            S::wf_view(state@),
            best == repr_upto::<S>(state@, s as nat),
            best_sym < s,
            best < S::spec_raw_size(),
            sym_index::<S>(state@, best_sym as nat) == best,
            forall|t: nat| t < best_sym ==> sym_index::<S>(state@, t) > best,
        decreases n - s,
    {
        let mut adj = *state;
        adj.wrap_sym(s);
        let h = adj.get_hash();
        if h < best {
            best = h;
            best_sym = s;
            proof {
                lemma_repr_upto_attained::<S>(state@, s as nat);
            }
        }
        s += 1;
    }
    proof {
        lemma_repr_upto_attained::<S>(state@, n as nat);
    }
    (best, best_sym)
}

/// The representative of `state`.
pub fn get_repr<S: State + Copy>(state: &S) -> (r: usize)
    requires
        S::wf_view(state@),
        1 <= S::spec_num_syms() <= 255,
    ensures
        r == repr::<S>(state@),
        r < S::spec_raw_size(),
{
    get_repr_sym(state).0
}

/// Position of `repr` in the strictly increasing `table`, by binary search.
pub fn get_sym_hash_from_repr(table: &Vec<usize>, repr: usize) -> (r: Option<usize>)
    requires
        sorted_strictly(table@),
    ensures
        r is Some ==> r->0 < table@.len() && table@[r->0 as int] == repr,
        r is None ==> !table@.contains(repr),
{
    let mut lo: usize = 0;
    let mut hi: usize = table.len();
    while lo < hi
        invariant
            lo <= hi <= table@.len(),
            sorted_strictly(table@),
            forall|i: int| 0 <= i < lo ==> table@[i] < repr,
            forall|i: int| hi <= i < table@.len() ==> table@[i] > repr,
        decreases hi - lo,
    {
        let mid = lo + (hi - lo) / 2;
        if table[mid] == repr {
            return Some(mid);
        } else if table[mid] < repr {
            lo = mid + 1;
        } else {
            hi = mid;
        }
    }
    None
}

/// The symmetry-reduced index of `state`: the position of its representative
/// in the table of representatives.
pub fn get_sym_hash<S: State + Copy>(state: &S, table: &Vec<usize>) -> (r: Option<usize>)
    requires
        S::wf_view(state@),
        1 <= S::spec_num_syms() <= 255,
        sorted_strictly(table@),
    ensures
        r is Some ==> r->0 < table@.len() && table@[r->0 as int] == repr::<S>(state@),
        r is None ==> !table@.contains(repr::<S>(state@) as usize),
{
    get_sym_hash_from_repr(table, get_repr(state))
}

/// The symmetry-reduced index of `state` and the first symmetry that takes it
/// to its representative.
pub fn get_sym_hash_sym<S: State + Copy>(state: &S, table: &Vec<usize>) -> (r: Option<(usize, u8)>)
    requires
        S::wf_view(state@),
        1 <= S::spec_num_syms() <= 255,
        sorted_strictly(table@),
    ensures
        r is Some ==> (r->0).0 < table@.len() && table@[(r->0).0 as int] == repr::<S>(state@)
            && is_first_min_sym::<S>(state@, (r->0).1 as nat),
        r is None ==> !table@.contains(repr::<S>(state@) as usize),
{
    let (repr, sym) = get_repr_sym(state);
    match get_sym_hash_from_repr(table, repr) {
        Some(i) => Some((i, sym)),
        None => None,
    }
}

/// The symmetries below `k` that leave the dense index unchanged, in order.
pub open spec fn fixing_syms_upto<S: State>(v: S::V, k: nat) -> Seq<u8>
    decreases k,
{
    if k == 0 {
        seq![]
    } else {
        fixing_syms_upto::<S>(v, (k - 1) as nat) + (if sym_index::<S>(v, (k - 1) as nat) == S::index_of(v) {
            seq![(k - 1) as u8]
        } else {
            seq![]
        })
    }
}

/// The symmetries that leave the dense index unchanged, in order.
pub open spec fn fixing_syms<S: State>(v: S::V) -> Seq<u8> {
    fixing_syms_upto::<S>(v, S::spec_num_syms())
}

pub proof fn lemma_fixing_syms_bound<S: State>(v: S::V, k: nat)
    requires
        k <= 256,
    ensures
        forall|i: int| 0 <= i < fixing_syms_upto::<S>(v, k).len() ==> #[trigger] fixing_syms_upto::<S>(v, k)[i] < k,
    decreases k,
{
    if k > 0 {
        lemma_fixing_syms_bound::<S>(v, (k - 1) as nat);
        let prev = fixing_syms_upto::<S>(v, (k - 1) as nat);
        let cur = fixing_syms_upto::<S>(v, k);
        assert forall|i: int| 0 <= i < cur.len() implies #[trigger] cur[i] < k by {
            if i < prev.len() {
                assert(cur[i] == prev[i]);
            } else {
                assert(cur[i] == (k - 1) as u8);
            }
        }
    }
}

/// The symmetries that leave `state` unchanged in dense index, in order.
pub fn get_syms<S: State + Copy>(state: &S) -> (r: Vec<u8>)
    requires
        S::wf_view(state@),
        S::spec_num_syms() <= 255,
    ensures
        r@ == fixing_syms::<S>(state@),
        forall|i: int| 0 <= i < r@.len() ==> #[trigger] r@[i] < S::spec_num_syms(),
{
    let hash = state.get_hash();
    let n = S::num_syms();
    let mut r: Vec<u8> = Vec::new();
    let mut s: u8 = 0;
    while s < n
        invariant
            s <= n,
            n == S::spec_num_syms(),
            S::wf_view(state@),
            hash == S::index_of(state@),
            r@ == fixing_syms_upto::<S>(state@, s as nat),
        decreases n - s,
    {
        let mut adj = *state;
        adj.wrap_sym(s);
        if adj.get_hash() == hash {
            r.push(s);
        }
        s += 1;
        assert(r@ =~= fixing_syms_upto::<S>(state@, s as nat));
    }
    proof {
        lemma_fixing_syms_bound::<S>(state@, n as nat);
    }
    r
}

/// Builds the table of representatives: the representative of every
/// configuration, in increasing order, each once.
pub fn generate_symhash_table<S: State + Copy>() -> (r: Vec<usize>)
    requires
        1 <= S::spec_num_syms() <= 255,
    ensures
        is_repr_table::<S>(r@),
{
    let raw = S::raw_size();
    let mut seen: Vec<bool> = Vec::new();
    let mut i: usize = 0;
    while i < raw
        invariant
            i <= raw,
            raw == S::spec_raw_size(),
            seen@.len() == i,
            forall|k: int| 0 <= k < i ==> !seen@[k],
        decreases raw - i,
    {
        seen.push(false);
        i += 1;
    }
    let mut x: usize = 0;
    while x < raw
        invariant
            x <= raw,
            raw == S::spec_raw_size(),
            1 <= S::spec_num_syms() <= 255,
            seen@.len() == raw,
            forall|y: nat| y < x ==> repr::<S>(S::unranked(y)) < raw && seen@[repr::<S>(S::unranked(y)) as int],
            forall|k: int| 0 <= k < raw && #[trigger] seen@[k] ==> exists|y: nat|
                y < S::spec_raw_size() && k == repr::<S>(S::unranked(y)),
        decreases raw - x,
    {
        let st = S::from_hash(x);
        let rep = get_repr(&st);
        seen.set(rep, true);
        proof {
            assert forall|k: int| 0 <= k < raw && #[trigger] seen@[k] implies exists|y: nat|
                y < S::spec_raw_size() && k == repr::<S>(S::unranked(y)) by {
                if k == rep {
                    assert(rep == repr::<S>(S::unranked(x as nat)));
                }
            }
        }
        x += 1;
    }
    let mut table: Vec<usize> = Vec::new();
    let mut k: usize = 0;
    while k < raw
        invariant
            k <= raw,
            raw == S::spec_raw_size(),
            seen@.len() == raw,
            sorted_strictly(table@),
            table@.len() <= k,
            forall|i: int| 0 <= i < table@.len() ==> table@[i] < k,
            forall|j: int| 0 <= j < k && seen@[j] ==> table@.contains(j as usize),
            forall|i: int| 0 <= i < table@.len() ==> seen@[#[trigger] table@[i] as int],
            forall|y: nat| y < raw ==> repr::<S>(S::unranked(y)) < raw && seen@[repr::<S>(S::unranked(y)) as int],
            forall|j: int| 0 <= j < raw && #[trigger] seen@[j] ==> exists|y: nat|
                y < S::spec_raw_size() && j == repr::<S>(S::unranked(y)),
        decreases raw - k,
    {
        if seen[k] {
            let ghost old_t = table@;
            table.push(k);
            proof {
                assert forall|j: int| 0 <= j < k + 1 && seen@[j] implies table@.contains(j as usize) by {
                    if j < k {
                        assert(old_t.contains(j as usize));
                        let m = choose|m: int| 0 <= m < old_t.len() && old_t[m] == j as usize;
                        assert(table@[m] == j as usize);
                    } else {
                        assert(table@[table@.len() - 1] == j as usize);
                    }
                }
            }
        }
        k += 1;
    }
    proof {
        assert forall|y: nat| y < S::spec_raw_size() implies table@.contains(repr::<S>(S::unranked(y)) as usize) by {
            let rp = repr::<S>(S::unranked(y));
            assert(rp < raw && seen@[rp as int]);
        }
        assert forall|i: int| 0 <= i < table@.len() implies is_some_repr::<S>(#[trigger] table@[i] as nat) by {
            assert(seen@[table@[i] as int]);
        }
        assert(sorted_strictly(table@));
    }
    table
}

} // verus!
