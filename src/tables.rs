//! Adjacency tables: for every raw or symmetry-reduced index, the index reached
//! by each turn or each symmetry, laid out flat (`index * count + id`).

use vstd::prelude::*;
use crate::state::State;
use crate::symmetry::{get_sym_hash_sym, is_first_min_sym, repr, repr_table_shape};

verus! {

proof fn lemma_flat_index(i: int, n: int, k: int, len: int)
    requires
        0 <= i < len,
        0 <= k < n,
    ensures
        0 <= i * n + k < len * n,
        i * n + k + 1 <= (i + 1) * n,
{
    assert(i * n + k < len * n) by (nonlinear_arith)
        requires
            0 <= i < len,
            0 <= k < n,
    ;
    assert(i * n + k + 1 <= (i + 1) * n) by (nonlinear_arith)
        requires
            0 <= k < n,
    ;
    assert(0 <= i * n) by (nonlinear_arith)
        requires
            0 <= i,
            0 <= n,
    ;
}

/// Entry `h * turns + t` is the dense index after turn `t` from configuration `h`.
pub open spec fn is_raw_turn_table<S: State>(t: Seq<usize>) -> bool {
    &&& t.len() == S::spec_raw_size() * S::spec_num_turns()
    &&& forall|h: int, k: int|
        0 <= h < S::spec_raw_size() && 0 <= k < S::spec_num_turns() ==> #[trigger] t[h
            * S::spec_num_turns() + k] == S::index_of(S::turned(S::unranked(h as nat), k as nat))
}

/// Entry `h * syms + s` is the dense index of configuration `h` conjugated by `s`.
pub open spec fn is_raw_sym_table<S: State>(t: Seq<usize>) -> bool {
    &&& t.len() == S::spec_raw_size() * S::spec_num_syms()
    &&& forall|h: int, s: int|
        0 <= h < S::spec_raw_size() && 0 <= s < S::spec_num_syms() ==> #[trigger] t[h
            * S::spec_num_syms() + s] == S::index_of(S::wrapped(S::unranked(h as nat), s as nat))
}

/// Entry `i * turns + t`, for the representative `reprs[i]`, is
/// `j * syms + s`: after turn `t` the configuration has representative
/// `reprs[j]`, reached first by the symmetry `s`.
pub open spec fn is_reduced_turn_table<S: State>(reprs: Seq<usize>, t: Seq<usize>) -> bool {
    &&& t.len() == reprs.len() * S::spec_num_turns()
    &&& forall|i: int, k: int|
        0 <= i < reprs.len() && 0 <= k < S::spec_num_turns() ==> {
            let e = #[trigger] t[i * S::spec_num_turns() + k] as nat;
            let v = S::turned(S::unranked(reprs[i] as nat), k as nat);
            &&& e / S::spec_num_syms() < reprs.len()
            &&& reprs[(e / S::spec_num_syms()) as int] == repr::<S>(v)
            &&& is_first_min_sym::<S>(v, (e % S::spec_num_syms()) as nat)
        }
}

/// Builds the turn table over all dense indices.
pub fn generate_raw_turn_table<S: State + Copy>() -> (r: Vec<usize>)
    requires
        S::spec_raw_size() * S::spec_num_turns() <= usize::MAX,
    ensures
        is_raw_turn_table::<S>(r@),
        forall|j: int| 0 <= j < r@.len() ==> #[trigger] r@[j] < S::spec_raw_size(),
{
    let raw = S::raw_size();
    let n = S::num_turns() as usize;
    let mut table: Vec<usize> = Vec::new();
    let mut h: usize = 0;
    while h < raw
        invariant
            h <= raw,
            raw == S::spec_raw_size(),
            n == S::spec_num_turns(),
            raw * n <= usize::MAX,
            n <= 255,
            table@.len() == h * n,
            forall|j: int| 0 <= j < table@.len() ==> #[trigger] table@[j] < raw,
            forall|a: int, k: int|
                0 <= a < h && 0 <= k < n ==> #[trigger] table@[a * n + k] == S::index_of(
                    S::turned(S::unranked(a as nat), k as nat),
                ),
        decreases raw - h,
    {
        let state = S::from_hash(h);
        let mut k: usize = 0;
        while k < n
            invariant
                h < raw,
                k <= n,
                raw == S::spec_raw_size(),
                n == S::spec_num_turns(),
                n <= 255,
                S::wf_view(state@),
                state@ == S::unranked(h as nat),
                table@.len() == h * n + k,
                forall|j: int| 0 <= j < table@.len() ==> #[trigger] table@[j] < raw,
                forall|a: int, b: int|
                    0 <= a < h && 0 <= b < n ==> #[trigger] table@[a * n + b] == S::index_of(
                        S::turned(S::unranked(a as nat), b as nat),
                    ),
                forall|b: int| 0 <= b < k ==> #[trigger] table@[h * n + b] == S::index_of(
                    S::turned(S::unranked(h as nat), b as nat),
                ),
            decreases n - k,
        {
            let mut adj = state;
            adj.apply_turn(k as u8);
            let e = adj.get_hash();
            proof {
                lemma_flat_index(h as int, n as int, k as int, raw as int);
            }
            table.push(e);
            proof {
                assert forall|a: int, b: int|
                    0 <= a < h && 0 <= b < n implies #[trigger] table@[a * n + b] == S::index_of(
                        S::turned(S::unranked(a as nat), b as nat),
                    ) by {
                    lemma_flat_index(a, n as int, b, h as int);
                }
            }
            k += 1;
        }
        proof {
            assert forall|a: int, b: int|
                0 <= a < h + 1 && 0 <= b < n implies #[trigger] table@[a * n + b] == S::index_of(
                    S::turned(S::unranked(a as nat), b as nat),
                ) by {
                if a == h {
                    assert(table@[h * n + b] == S::index_of(S::turned(S::unranked(h as nat), b as nat)));
                }
            }
            assert((h + 1) * n == h * n + n) by (nonlinear_arith);
        }
        h += 1;
    }
    table
}

/// Builds the symmetry table over all dense indices.
pub fn generate_raw_sym_table<S: State + Copy>() -> (r: Vec<usize>)
    requires
        S::spec_raw_size() * S::spec_num_syms() <= usize::MAX,
    ensures
        is_raw_sym_table::<S>(r@),
        forall|j: int| 0 <= j < r@.len() ==> #[trigger] r@[j] < S::spec_raw_size(),
{
    let raw = S::raw_size();
    let n = S::num_syms() as usize;
    let mut table: Vec<usize> = Vec::new();
    let mut h: usize = 0;
    while h < raw
        invariant
            h <= raw,
            raw == S::spec_raw_size(),
            n == S::spec_num_syms(),
            raw * n <= usize::MAX,
            n <= 255,
            table@.len() == h * n,
            forall|j: int| 0 <= j < table@.len() ==> #[trigger] table@[j] < raw,
            forall|a: int, k: int|
                0 <= a < h && 0 <= k < n ==> #[trigger] table@[a * n + k] == S::index_of(
                    S::wrapped(S::unranked(a as nat), k as nat),
                ),
        decreases raw - h,
    {
        let state = S::from_hash(h);
        let mut k: usize = 0;
        while k < n
            invariant
                h < raw,
                k <= n,
                raw == S::spec_raw_size(),
                n == S::spec_num_syms(),
                n <= 255,
                S::wf_view(state@),
                state@ == S::unranked(h as nat),
                table@.len() == h * n + k,
                forall|j: int| 0 <= j < table@.len() ==> #[trigger] table@[j] < raw,
                forall|a: int, b: int|
                    0 <= a < h && 0 <= b < n ==> #[trigger] table@[a * n + b] == S::index_of(
                        S::wrapped(S::unranked(a as nat), b as nat),
                    ),
                forall|b: int| 0 <= b < k ==> #[trigger] table@[h * n + b] == S::index_of(
                    S::wrapped(S::unranked(h as nat), b as nat),
                ),
            decreases n - k,
        {
            let mut adj = state;
            adj.wrap_sym(k as u8);
            let e = adj.get_hash();
            proof {
                lemma_flat_index(h as int, n as int, k as int, raw as int);
            }
            table.push(e);
            proof {
                assert forall|a: int, b: int|
                    0 <= a < h && 0 <= b < n implies #[trigger] table@[a * n + b] == S::index_of(
                        S::wrapped(S::unranked(a as nat), b as nat),
                    ) by {
                    lemma_flat_index(a, n as int, b, h as int);
                }
            }
            k += 1;
        }
        proof {
            assert forall|a: int, b: int|
                0 <= a < h + 1 && 0 <= b < n implies #[trigger] table@[a * n + b] == S::index_of(
                    S::wrapped(S::unranked(a as nat), b as nat),
                ) by {
                if a == h {
                    assert(table@[h * n + b] == S::index_of(S::wrapped(S::unranked(h as nat), b as nat)));
                }
            }
            assert((h + 1) * n == h * n + n) by (nonlinear_arith);
        }
        h += 1;
    }
    table
}

/// Builds the turn table over the symmetry-reduced indices given by the table
/// of representatives `reprs`, or `None` when a turn leads to a configuration
/// whose representative `reprs` lacks.
pub fn generate_reduced_turn_table<S: State + Copy>(reprs: &Vec<usize>) -> (r: Option<Vec<usize>>)
    requires
        repr_table_shape::<S>(reprs@),
        1 <= S::spec_num_syms() <= 255,
        S::spec_raw_size() * S::spec_num_turns() * S::spec_num_syms() <= usize::MAX,
    ensures
        r is Some ==> is_reduced_turn_table::<S>(reprs@, r->0@),
        r is None <==> exists|i: int, k: int|
            0 <= i < reprs@.len() && 0 <= k < S::spec_num_turns() && !reprs@.contains(
                #[trigger] repr::<S>(S::turned(S::unranked(reprs@[i] as nat), k as nat)) as usize,
            ),
{
    let len = reprs.len();
    let n = S::num_turns() as usize;
    let ns = S::num_syms() as usize;
    let ghost raw = S::spec_raw_size();
    proof {
        assert(len * n * ns <= raw * n * ns) by (nonlinear_arith)
            requires
                len <= raw,
        ;
        assert(len * n <= len * n * ns) by (nonlinear_arith)
            requires
                ns >= 1,
        ;
    }
    let mut table: Vec<usize> = Vec::new();
    let mut i: usize = 0;
    while i < len
        invariant
            i <= len,
            len == reprs@.len(),
            n == S::spec_num_turns(),
            ns == S::spec_num_syms(),
            1 <= ns <= 255,
            repr_table_shape::<S>(reprs@),
            len * n * ns <= usize::MAX,
            len * n <= usize::MAX,
            n <= 255,
            table@.len() == i * n,
            forall|a: int, k: int|
                0 <= a < i && 0 <= k < n ==> {
                    let e = #[trigger] table@[a * n + k];
                    let v = S::turned(S::unranked(reprs@[a] as nat), k as nat);
                    &&& e / ns < len
                    &&& reprs@[(e / ns) as int] == repr::<S>(v)
                    &&& is_first_min_sym::<S>(v, (e % ns) as nat)
                },
        decreases len - i,
    {
        let state = S::from_hash(reprs[i]);
        let mut k: usize = 0;
        while k < n
            invariant
                i < len,
                k <= n,
                len == reprs@.len(),
                n == S::spec_num_turns(),
                ns == S::spec_num_syms(),
                1 <= ns <= 255,
                n <= 255,
                repr_table_shape::<S>(reprs@),
                len * n * ns <= usize::MAX,
                len * n <= usize::MAX,
                S::wf_view(state@),
                state@ == S::unranked(reprs@[i as int] as nat),
                table@.len() == i * n + k,
                forall|a: int, b: int|
                    0 <= a < i && 0 <= b < n ==> {
                        let e = #[trigger] table@[a * n + b];
                        let v = S::turned(S::unranked(reprs@[a] as nat), b as nat);
                        &&& e / ns < len
                        &&& reprs@[(e / ns) as int] == repr::<S>(v)
                        &&& is_first_min_sym::<S>(v, (e % ns) as nat)
                    },
                forall|b: int|
                    0 <= b < k ==> {
                        let e = #[trigger] table@[i * n + b];
                        let v = S::turned(S::unranked(reprs@[i as int] as nat), b as nat);
                        &&& e / ns < len
                        &&& reprs@[(e / ns) as int] == repr::<S>(v)
                        &&& is_first_min_sym::<S>(v, (e % ns) as nat)
                    },
            decreases n - k,
        {
            let mut adj = state;
            adj.apply_turn(k as u8);
            let (j, s) = match get_sym_hash_sym(&adj, reprs) {
                Some(found) => found,
                None => {
                    let ghost a = i as int;
                    let ghost b = k as int;
                    assert(0 <= a < reprs@.len() && 0 <= b < S::spec_num_turns() && !reprs@.contains(
                        repr::<S>(S::turned(S::unranked(reprs@[a] as nat), b as nat)) as usize,
                    ));
                    return None;
                },
            };
            proof {
                lemma_flat_index(i as int, n as int, k as int, len as int);
                assert(j * ns + s < len * ns) by (nonlinear_arith)
                    requires
                        j < len,
                        s < ns,
                ;
                assert(len * ns <= len * n * ns) by (nonlinear_arith)
                    requires
                        n >= 1,
                ;
                assert((j * ns + s) / (ns as int) == j && (j * ns + s) % (ns as int) == s) by {
                    vstd::arithmetic::div_mod::lemma_fundamental_div_mod_converse(
                        (j * ns + s) as int,
                        ns as int,
                        j as int,
                        s as int,
                    );
                }
            }
            table.push(j * ns + s as usize);
            proof {
                assert forall|a: int, b: int|
                    0 <= a < i && 0 <= b < n implies {
                        let e = #[trigger] table@[a * n + b];
                        let v = S::turned(S::unranked(reprs@[a] as nat), b as nat);
                        &&& e / ns < len
                        &&& reprs@[(e / ns) as int] == repr::<S>(v)
                        &&& is_first_min_sym::<S>(v, (e % ns) as nat)
                    } by {
                    lemma_flat_index(a, n as int, b, i as int);
                }
            }
            k += 1;
        }
        proof {
            assert forall|a: int, b: int|
                0 <= a < i + 1 && 0 <= b < n implies {
                    let e = #[trigger] table@[a * n + b];
                    let v = S::turned(S::unranked(reprs@[a] as nat), b as nat);
                    &&& e / ns < len
                    &&& reprs@[(e / ns) as int] == repr::<S>(v)
                    &&& is_first_min_sym::<S>(v, (e % ns) as nat)
                } by {
                if a == i {
                    let e = table@[i * n + b];
                }
            }
            assert((i + 1) * n == i * n + n) by (nonlinear_arith);
        }
        i += 1;
    }
    proof {
        assert forall|a: int, b: int|
            0 <= a < reprs@.len() && 0 <= b < n implies reprs@.contains(
                #[trigger] repr::<S>(S::turned(S::unranked(reprs@[a] as nat), b as nat)) as usize,
            ) by {
            let e = table@[a * n + b];
            assert(reprs@[(e / ns) as int] == repr::<S>(S::turned(S::unranked(reprs@[a] as nat), b as nat)));
        }
    }
    Some(table)
}

} // verus!
