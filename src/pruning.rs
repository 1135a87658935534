//! The pruning table: distances modulo 3 of every symmetry-reduced state,
//! packed four 2-bit slots to a byte, with 3 marking an undiscovered state;
//! and the layered breadth-first search that fills it.

use vstd::prelude::*;
use crate::stateset::StateSet;

verus! {

/// Slot `i` of a packed table.
pub open spec fn slot(t: Seq<u8>, i: int) -> u8 {
    (t[i / 4] >> ((2 * (i % 4)) as u8)) & 3u8
}

/// Bytes needed for `size` slots.
pub open spec fn table_len(size: nat) -> nat {
    (size + 3) / 4
}

/// How many of the slots `0 .. k` are filled.
pub open spec fn filled_count(t: Seq<u8>, k: nat) -> nat
    decreases k,
{
    if k == 0 {
        0
    } else {
        filled_count(t, (k - 1) as nat) + (if slot(t, k - 1) != 3 { 1nat } else { 0nat })
    }
}

/// No slot below `size` is undiscovered.
pub open spec fn is_full(t: Seq<u8>, size: nat) -> bool {
    forall|i: int| 0 <= i < size ==> #[trigger] slot(t, i) != 3
}

proof fn lemma_slot_write(b: u8, v: u8, e: u8)
    requires
        v <= 3,
        e == 0 || e == 2 || e == 4 || e == 6,
    ensures
        (((v << e) | (b & !(3u8 << e))) >> e) & 3u8 == v,
        forall|e2: u8|
            (e2 == 0 || e2 == 2 || e2 == 4 || e2 == 6) && e2 != e ==> (((v << e) | (b & !(3u8 << e)))
                >> e2) & 3u8 == (b >> e2) & 3u8,
{
    assert((((v << e) | (b & !(3u8 << e))) >> e) & 3u8 == v) by (bit_vector)
        requires
            v <= 3,
            e == 0 || e == 2 || e == 4 || e == 6,
    ;
    assert forall|e2: u8|
        (e2 == 0 || e2 == 2 || e2 == 4 || e2 == 6) && e2 != e implies (((v << e) | (b & !(3u8 << e)))
            >> e2) & 3u8 == (b >> e2) & 3u8 by {
        assert((((v << e) | (b & !(3u8 << e))) >> e2) & 3u8 == (b >> e2) & 3u8) by (bit_vector)
            requires
                v <= 3,
                e == 0 || e == 2 || e == 4 || e == 6,
                e2 == 0 || e2 == 2 || e2 == 4 || e2 == 6,
                e2 != e,
        ;
    }
}

proof fn lemma_filled_count_bound(t: Seq<u8>, k: nat)
    ensures
        filled_count(t, k) <= k,
        filled_count(t, k) == k ==> forall|i: int| 0 <= i < k ==> #[trigger] slot(t, i) != 3,
    decreases k,
{
    if k > 0 {
        lemma_filled_count_bound(t, (k - 1) as nat);
    }
}

proof fn lemma_filled_count_claim(t1: Seq<u8>, t2: Seq<u8>, idx: int, k: nat)
    requires
        slot(t1, idx) == 3,
        slot(t2, idx) != 3,
        forall|j: int| 0 <= j < k && j != idx ==> slot(t2, j) == slot(t1, j),
    ensures
        filled_count(t2, k) == filled_count(t1, k) + (if 0 <= idx < k { 1nat } else { 0nat }),
    decreases k,
{
    if k > 0 {
        lemma_filled_count_claim(t1, t2, idx, (k - 1) as nat);
    }
}

proof fn lemma_filled_count_same(t1: Seq<u8>, t2: Seq<u8>, k: nat)
    requires
        forall|j: int| 0 <= j < k ==> slot(t2, j) == slot(t1, j),
    ensures
        filled_count(t2, k) == filled_count(t1, k),
    decreases k,
{
    if k > 0 {
        lemma_filled_count_same(t1, t2, (k - 1) as nat);
    }
}

/// The value of slot `index`.
pub fn read(table: &Vec<u8>, index: usize) -> (r: u8)
    requires
        index / 4 < table@.len(),
    ensures
        r == slot(table@, index as int),
        r <= 3,
{
    let b = table[index / 4];
    let e = (2 * (index % 4)) as u8;
    assert((b >> e) & 3u8 <= 3) by (bit_vector);
    (b >> e) & 3
}

/// Claims slot `index` for `value`: it is written only when still
/// undiscovered, so the first claim wins and the other slots stay as they were.
pub fn claim(table: &mut Vec<u8>, index: usize, value: u8) -> (r: bool)
    requires
        index / 4 < old(table)@.len(),
        value < 3,
    ensures
        final(table)@.len() == old(table)@.len(),
        r == (slot(old(table)@, index as int) == 3),
        r ==> slot(final(table)@, index as int) == value,
        !r ==> final(table)@ == old(table)@,
        forall|j: int|
            0 <= j < 4 * old(table)@.len() && j != index ==> slot(final(table)@, j) == slot(old(table)@, j),
{
    let b = table[index / 4];
    let e = (2 * (index % 4)) as u8;
    if (b >> e) & 3 == 3 {
        let nb = (value << e) | (b & !(3u8 << e));
        proof {
            lemma_slot_write(b, value, e);
        }
        let ghost t0 = table@;
        table.set(index / 4, nb);
        proof {
            assert forall|j: int|
                0 <= j < 4 * t0.len() && j != index implies slot(table@, j) == slot(t0, j) by {
                if j / 4 == index / 4 {
                    let e2 = (2 * (j % 4)) as u8;
                    assert(e2 != e);
                }
            }
        }
        true
    } else {
        false
    }
}

/// Whether no slot below `size` is undiscovered.
pub fn table_is_full(table: &Vec<u8>, size: usize) -> (r: bool)
    requires
        table@.len() == table_len(size as nat),
    ensures
        r == is_full(table@, size as nat),
{
    let mut i: usize = 0;
    while i < size
        invariant
            i <= size,
            table@.len() == table_len(size as nat),
            forall|j: int| 0 <= j < i ==> #[trigger] slot(table@, j) != 3,
        decreases size - i,
    {
        if read(table, i) == 3 {
            return false;
        }
        i += 1;
    }
    true
}

/// Claims `index` for `value` and counts the claim.
fn claim_counted<S: StateSet>(set: &S, table: &mut Vec<u8>, filled: &mut usize, index: usize, value: u8) -> (r: bool)
    requires
        set.wf(),
        index < set.spec_size(),
        value < 3,
        old(table)@.len() == table_len(set.spec_size()),
        set.spec_size() <= 4 * old(table)@.len(),
        set.spec_size() <= 0x4000_0000,
        *old(filled) == filled_count(old(table)@, set.spec_size()),
    ensures
        final(table)@.len() == old(table)@.len(),
        *final(filled) == filled_count(final(table)@, set.spec_size()),
        *final(filled) <= set.spec_size(),
        r == (slot(old(table)@, index as int) == 3),
        r ==> slot(final(table)@, index as int) == value,
        !r ==> final(table)@ == old(table)@,
        forall|j: int|
            0 <= j < 4 * old(table)@.len() && j != index ==> slot(final(table)@, j) == slot(old(table)@, j),
{
    let ghost t0 = table@;
    let ok = claim(table, index, value);
    proof {
        if ok {
            lemma_filled_count_claim(t0, table@, index as int, set.spec_size());
        }
        lemma_filled_count_bound(table@, set.spec_size());
    }
    if ok {
        *filled = *filled + 1;
    }
    ok
}

/// Writing `v` into slot `i` is accounted for by the search over `t`: `i` is
/// the solved state or one of its equivalents and `v` is 0; or `i` is reached
/// by a move from a filled slot `c` one layer earlier; or `i` is equivalent to
/// such a reached slot `e` of the same layer; or `v` is the value of the final fill.
pub open spec fn accounts_for<S: StateSet>(set: &S, t: Seq<u8>, i: int, v: u8, fill: Option<u8>) -> bool {
    ||| (v == 0 && (i == set.spec_solved() || set.syms_spec(set.spec_solved()).contains(i as usize)))
    ||| exists|c: int, m: int|
        0 <= c < set.spec_size() && 0 <= m < set.next_spec(c as nat).len() && #[trigger] set.next_spec(
            c as nat,
        )[m] == i && slot(t, c) != 3 && (slot(t, c) + 1) % 3 == v
    ||| exists|e: int, c: int, m: int|
        0 <= e < set.spec_size() && #[trigger] set.syms_spec(e as nat).contains(i as usize) && 0 <= c
            < set.spec_size() && 0 <= m < set.next_spec(c as nat).len() && #[trigger] set.next_spec(
            c as nat,
        )[m] == e && slot(t, c) != 3 && (slot(t, c) + 1) % 3 == v && slot(t, e) == v
    ||| fill == Some(v)
}

/// Every filled slot below the size is accounted for by the search.
pub open spec fn all_accounted<S: StateSet>(set: &S, t: Seq<u8>, fill: Option<u8>) -> bool {
    forall|i: int| 0 <= i < set.spec_size() && #[trigger] slot(t, i) != 3 ==> accounts_for(set, t, i, slot(t, i), fill)
}

/// Accounting stays valid when a single undiscovered slot is written.
proof fn lemma_accounts_kept<S: StateSet>(set: &S, t1: Seq<u8>, t2: Seq<u8>, n: int, i: int, v: u8, fill: Option<u8>)
    requires
        slot(t1, n) == 3,
        set.spec_size() <= 4 * t1.len(),
        forall|j: int| 0 <= j < 4 * t1.len() && j != n ==> slot(t2, j) == slot(t1, j),
        accounts_for(set, t1, i, v, fill),
    ensures
        accounts_for(set, t2, i, v, fill),
{
    if exists|c: int, m: int|
        0 <= c < set.spec_size() && 0 <= m < set.next_spec(c as nat).len() && #[trigger] set.next_spec(
            c as nat,
        )[m] == i && slot(t1, c) != 3 && (slot(t1, c) + 1) % 3 == v {
        let (c, m) = choose|c: int, m: int|
            0 <= c < set.spec_size() && 0 <= m < set.next_spec(c as nat).len() && #[trigger] set.next_spec(
                c as nat,
            )[m] == i && slot(t1, c) != 3 && (slot(t1, c) + 1) % 3 == v;
        assert(c != n);
        assert(slot(t2, c) == slot(t1, c));
    } else if exists|e: int, c: int, m: int|
        0 <= e < set.spec_size() && #[trigger] set.syms_spec(e as nat).contains(i as usize) && 0 <= c
            < set.spec_size() && 0 <= m < set.next_spec(c as nat).len() && #[trigger] set.next_spec(
            c as nat,
        )[m] == e && slot(t1, c) != 3 && (slot(t1, c) + 1) % 3 == v && slot(t1, e) == v {
        let (e, c, m) = choose|e: int, c: int, m: int|
            0 <= e < set.spec_size() && #[trigger] set.syms_spec(e as nat).contains(i as usize) && 0 <= c
                < set.spec_size() && 0 <= m < set.next_spec(c as nat).len() && #[trigger] set.next_spec(
                c as nat,
            )[m] == e && slot(t1, c) != 3 && (slot(t1, c) + 1) % 3 == v && slot(t1, e) == v;
        assert(c != n);
        assert(slot(t2, c) == slot(t1, c));
        assert(slot(t1, e) != 3);
        assert(e != n);
        assert(slot(t2, e) == slot(t1, e));
    }
}

/// Claims `index` for `value`, counting the claim and keeping every filled
/// slot accounted for.
fn claim_accounted<S: StateSet>(set: &S, table: &mut Vec<u8>, filled: &mut usize, index: usize, value: u8, fill: Ghost<Option<u8>>) -> (r: bool)
    requires
        set.wf(),
        index < set.spec_size(),
        value < 3,
        old(table)@.len() == table_len(set.spec_size()),
        set.spec_size() <= 4 * old(table)@.len(),
        set.spec_size() <= 0x4000_0000,
        *old(filled) == filled_count(old(table)@, set.spec_size()),
        all_accounted(set, old(table)@, fill@),
        accounts_for(set, old(table)@, index as int, value, fill@),
    ensures
        final(table)@.len() == old(table)@.len(),
        *final(filled) == filled_count(final(table)@, set.spec_size()),
        *final(filled) <= set.spec_size(),
        r == (slot(old(table)@, index as int) == 3),
        r ==> slot(final(table)@, index as int) == value,
        !r ==> final(table)@ == old(table)@,
        forall|j: int|
            0 <= j < 4 * old(table)@.len() && j != index ==> slot(final(table)@, j) == slot(old(table)@, j),
        all_accounted(set, final(table)@, fill@),
{
    let ghost t0 = table@;
    let r = claim_counted(set, table, filled, index, value);
    proof {
        if r {
            assert forall|i: int| 0 <= i < set.spec_size() && #[trigger] slot(table@, i) != 3 implies accounts_for(
                set,
                table@,
                i,
                slot(table@, i),
                fill@,
            ) by {
                if i == index {
                    lemma_accounts_kept(set, t0, table@, index as int, i, value, fill@);
                } else {
                    assert(slot(t0, i) != 3);
                    lemma_accounts_kept(set, t0, table@, index as int, i, slot(t0, i), fill@);
                }
            }
        }
    }
    r
}

/// What the search keeps of its table: the size fits, the table has its
/// length and counted fill, every filled slot is accounted for, and the
/// solved state and its equivalents hold 0.
#[verifier::opaque]
pub open spec fn search_ok<S: StateSet>(set: &S, t: Seq<u8>, filled: nat) -> bool {
    &&& set.spec_size() <= 0x4000_0000
    &&& t.len() == table_len(set.spec_size())
    &&& set.spec_size() <= 4 * t.len()
    &&& filled == filled_count(t, set.spec_size())
    &&& all_accounted(set, t, None)
    &&& set.spec_solved() < set.spec_size()
    &&& slot(t, set.spec_solved() as int) == 0
    &&& forall|m: int|
        0 <= m < set.syms_spec(set.spec_solved()).len() ==> #[trigger] set.syms_spec(set.spec_solved())[m]
            < set.spec_size() && slot(t, set.syms_spec(set.spec_solved())[m] as int) == 0
}

/// Every state of `list` lies below the size and holds `value`.
#[verifier::opaque]
pub open spec fn frontier<S: StateSet>(set: &S, t: Seq<u8>, list: Seq<usize>, value: u8) -> bool {
    forall|m: int| 0 <= m < list.len() ==> #[trigger] list[m] < set.spec_size() && slot(t, list[m] as int) == value
}

/// Filled slots of `t1` keep their values in `t2`.
#[verifier::opaque]
pub open spec fn kept(t1: Seq<u8>, t2: Seq<u8>) -> bool {
    &&& t2.len() == t1.len()
    &&& forall|j: int| 0 <= j < 4 * t1.len() && #[trigger] slot(t1, j) != 3 ==> slot(t2, j) == slot(t1, j)
}

proof fn lemma_kept_refl(t: Seq<u8>)
    ensures
        kept(t, t),
{
    reveal(kept);
}

proof fn lemma_kept_trans(t1: Seq<u8>, t2: Seq<u8>, t3: Seq<u8>)
    requires
        kept(t1, t2),
        kept(t2, t3),
    ensures
        kept(t1, t3),
{
    reveal(kept);
}

proof fn lemma_kept_slot(t1: Seq<u8>, t2: Seq<u8>, j: int)
    requires
        kept(t1, t2),
        0 <= j < 4 * t1.len(),
        slot(t1, j) != 3,
    ensures
        slot(t2, j) == slot(t1, j),
{
    reveal(kept);
}

proof fn lemma_frontier_kept<S: StateSet>(set: &S, t1: Seq<u8>, t2: Seq<u8>, list: Seq<usize>, v: u8)
    requires
        frontier(set, t1, list, v),
        kept(t1, t2),
        v < 3,
        set.spec_size() <= 4 * t1.len(),
    ensures
        frontier(set, t2, list, v),
{
    reveal(frontier);
    reveal(kept);
    assert forall|m: int| 0 <= m < list.len() implies #[trigger] list[m] < set.spec_size() && slot(t2, list[m] as int) == v by {
        assert(list[m] < set.spec_size() && slot(t1, list[m] as int) == v);
    }
}

proof fn lemma_frontier_elem<S: StateSet>(set: &S, t: Seq<u8>, list: Seq<usize>, v: u8, m: int)
    requires
        frontier(set, t, list, v),
        0 <= m < list.len(),
    ensures
        list[m] < set.spec_size(),
        slot(t, list[m] as int) == v,
{
    reveal(frontier);
}

proof fn lemma_frontier_push<S: StateSet>(set: &S, t: Seq<u8>, list: Seq<usize>, v: u8, n: usize)
    requires
        frontier(set, t, list, v),
        n < set.spec_size(),
        slot(t, n as int) == v,
    ensures
        frontier(set, t, list.push(n), v),
{
    reveal(frontier);
    assert forall|m: int| 0 <= m < list.push(n).len() implies #[trigger] list.push(n)[m] < set.spec_size()
        && slot(t, list.push(n)[m] as int) == v by {
        if m < list.len() {
            assert(list.push(n)[m] == list[m]);
        }
    }
}

proof fn lemma_frontier_empty<S: StateSet>(set: &S, t: Seq<u8>, v: u8)
    ensures
        frontier(set, t, Seq::<usize>::empty(), v),
{
    reveal(frontier);
}

/// State `i` is an equivalent of the solved state or of some state, and so
/// is filled along with it rather than expanded.
pub open spec fn is_equivalent<S: StateSet>(set: &S, i: int) -> bool {
    ||| set.syms_spec(set.spec_solved()).contains(i as usize)
    ||| exists|e: int| 0 <= e < set.spec_size() && #[trigger] set.syms_spec(e as nat).contains(i as usize)
}

/// Every filled state outside `pending` that is not an equivalent has all its
/// neighbours filled.
#[verifier::opaque]
pub open spec fn expanded_except<S: StateSet>(set: &S, t: Seq<u8>, pending: Set<int>) -> bool {
    forall|i: int, m: int|
        0 <= i < set.spec_size() && #[trigger] slot(t, i) != 3 && !pending.contains(i) && !is_equivalent(set, i)
            && 0 <= m < set.next_spec(i as nat).len() && #[trigger] set.next_spec(i as nat)[m] < set.spec_size()
            ==> slot(t, set.next_spec(i as nat)[m] as int) != 3
}

proof fn lemma_expanded_grow<S: StateSet>(set: &S, t1: Seq<u8>, t2: Seq<u8>, q1: Set<int>, q2: Set<int>, index: int)
    requires
        expanded_except(set, t1, q1),
        forall|x: int| q1.contains(x) ==> q2.contains(x),
        kept(t1, t2),
        set.spec_size() <= 4 * t1.len(),
        forall|j: int| 0 <= j < 4 * t1.len() && j != index ==> slot(t2, j) == slot(t1, j),
        slot(t2, index) != 3 && slot(t1, index) == 3 ==> q2.contains(index) || is_equivalent(set, index),
    ensures
        expanded_except(set, t2, q2),
{
    reveal(expanded_except);
    reveal(kept);
    assert forall|i: int, m: int|
        0 <= i < set.spec_size() && #[trigger] slot(t2, i) != 3 && !q2.contains(i) && !is_equivalent(set, i)
            && 0 <= m < set.next_spec(i as nat).len() && #[trigger] set.next_spec(i as nat)[m] < set.spec_size()
            implies slot(t2, set.next_spec(i as nat)[m] as int) != 3 by {
        assert(slot(t1, i) != 3);
        assert(slot(t1, set.next_spec(i as nat)[m] as int) != 3);
    }
}

/// The states of `p` and of `list`.
pub open spec fn with_list(p: Set<int>, list: Seq<usize>) -> Set<int> {
    Set::new(|i: int| p.contains(i) || exists|k: int| 0 <= k < list.len() && #[trigger] list[k] as int == i)
}

proof fn lemma_expanded_subset<S: StateSet>(set: &S, t: Seq<u8>, q1: Set<int>, q2: Set<int>)
    requires
        expanded_except(set, t, q1),
        forall|x: int| q1.contains(x) ==> q2.contains(x),
    ensures
        expanded_except(set, t, q2),
{
    reveal(expanded_except);
}

proof fn lemma_expanded_drop<S: StateSet>(set: &S, t: Seq<u8>, q: Set<int>, c: int)
    requires
        expanded_except(set, t, q.insert(c)),
        forall|m: int| 0 <= m < set.next_spec(c as nat).len() && set.next_spec(c as nat)[m] < set.spec_size()
            ==> slot(t, #[trigger] set.next_spec(c as nat)[m] as int) != 3,
    ensures
        expanded_except(set, t, q),
{
    reveal(expanded_except);
}

/// The search space has no equivalent states: every state is expanded.
pub open spec fn no_equivalents<S: StateSet>(set: &S) -> bool {
    forall|i: nat| #[trigger] set.syms_spec(i).len() == 0
}

/// State `i` appears in `list`.
pub open spec fn in_list(list: Seq<usize>, i: int) -> bool {
    exists|k: int| 0 <= k < list.len() && #[trigger] list[k] as int == i
}

/// State `i` is reached in at most `k` moves and, when `k > 0`, not in fewer.
pub open spec fn at_layer<S: StateSet>(set: &S, i: int, k: nat) -> bool {
    reachable(set, i, k) && (k == 0 || !reachable(set, i, (k - 1) as nat))
}

/// After expanding the states `done` into the layer of `value`: the filled
/// slots are those filled before and those of `done`; the newly filled ones
/// hold `value`; unless `at_max`, `list` gained exactly the newly filled ones.
#[verifier::opaque]
pub open spec fn bfs_step_ok<S: StateSet>(set: &S, t0: Seq<u8>, t: Seq<u8>, list0: Seq<usize>, list: Seq<usize>, done: Seq<usize>, value: u8, at_max: bool) -> bool {
    &&& forall|i: int| 0 <= i < set.spec_size() ==> (#[trigger] slot(t, i) != 3 <==> (slot(t0, i) != 3 || in_list(done, i)))
    &&& forall|i: int| 0 <= i < set.spec_size() && slot(t0, i) == 3 && #[trigger] slot(t, i) != 3 ==> slot(t, i) == value
    &&& !at_max ==> forall|i: int| 0 <= i < set.spec_size() ==> (#[trigger] in_list(list, i) <==> (in_list(list0, i) || (slot(t0, i) == 3 && slot(t, i) != 3)))
}

proof fn lemma_in_list_push(list: Seq<usize>, x: usize, i: int)
    ensures
        in_list(list.push(x), i) <==> (in_list(list, i) || i == x as int),
{
    if in_list(list, i) {
        let k = choose|k: int| 0 <= k < list.len() && #[trigger] list[k] as int == i;
        assert(list.push(x)[k] as int == i);
    }
    if i == x as int {
        assert(list.push(x)[list.len() as int] as int == i);
    }
    if in_list(list.push(x), i) {
        let k = choose|k: int| 0 <= k < list.push(x).len() && #[trigger] list.push(x)[k] as int == i;
        if k < list.len() {
            assert(list[k] as int == i);
        }
    }
}

proof fn lemma_bfs_step_start<S: StateSet>(set: &S, t: Seq<u8>, list: Seq<usize>, value: u8, at_max: bool)
    ensures
        bfs_step_ok(set, t, t, list, list, Seq::empty(), value, at_max),
{
    reveal(bfs_step_ok);
}

/// One more state `n` expanded: claimed or already filled.
proof fn lemma_bfs_step_next<S: StateSet>(set: &S, t0: Seq<u8>, t1: Seq<u8>, t2: Seq<u8>, list0: Seq<usize>, list1: Seq<usize>, list2: Seq<usize>, done: Seq<usize>, n: usize, value: u8, at_max: bool, claimed: bool)
    requires
        bfs_step_ok(set, t0, t1, list0, list1, done, value, at_max),
        n < set.spec_size(),
        set.spec_size() <= 4 * t1.len(),
        t0.len() == t1.len(),
        kept(t0, t1),
        claimed ==> slot(t1, n as int) == 3 && slot(t2, n as int) == value && value < 3,
        !claimed ==> slot(t1, n as int) != 3 && t2 == t1,
        forall|j: int| 0 <= j < 4 * t1.len() && j != n ==> slot(t2, j) == slot(t1, j),
        list2 == (if claimed && !at_max { list1.push(n) } else { list1 }),
    ensures
        bfs_step_ok(set, t0, t2, list0, list2, done.push(n), value, at_max),
{
    reveal(bfs_step_ok);
    reveal(kept);
    assert forall|i: int| 0 <= i < set.spec_size() implies (#[trigger] slot(t2, i) != 3 <==> (slot(t0, i) != 3 || in_list(done.push(n), i))) by {
        lemma_in_list_push(done, n, i);
        assert(slot(t1, i) != 3 <==> (slot(t0, i) != 3 || in_list(done, i)));
    }
    assert forall|i: int| 0 <= i < set.spec_size() && slot(t0, i) == 3 && #[trigger] slot(t2, i) != 3 implies slot(t2, i) == value by {
        if i != n {
            assert(slot(t1, i) != 3);
        }
    }
    if !at_max {
        assert forall|i: int| 0 <= i < set.spec_size() implies (#[trigger] in_list(list2, i) <==> (in_list(list0, i) || (slot(t0, i) == 3 && slot(t2, i) != 3))) by {
            assert(in_list(list1, i) <==> (in_list(list0, i) || (slot(t0, i) == 3 && slot(t1, i) != 3)));
            if claimed {
                lemma_in_list_push(list1, n, i);
                if i == n {
                    if slot(t0, i) != 3 {
                        assert(slot(t1, i) == slot(t0, i));
                    }
                }
            }
        }
    }
}

/// After expanding every state of `closed` into the layer of `value`.
#[verifier::opaque]
pub open spec fn layer_grew<S: StateSet>(set: &S, t0: Seq<u8>, t: Seq<u8>, closed: Seq<usize>, next: Seq<usize>, value: u8, at_max: bool) -> bool {
    &&& forall|i: int| 0 <= i < set.spec_size() ==> (#[trigger] slot(t, i) != 3 <==> (slot(t0, i) != 3 || exists|c: int, m: int|
        0 <= c < closed.len() && 0 <= m < set.next_spec(closed[c] as nat).len() && #[trigger] set.next_spec(closed[c] as nat)[m] as int == i))
    &&& forall|i: int| 0 <= i < set.spec_size() && slot(t0, i) == 3 && #[trigger] slot(t, i) != 3 ==> slot(t, i) == value
    &&& !at_max ==> forall|i: int| 0 <= i < set.spec_size() ==> (#[trigger] in_list(next, i) <==> (slot(t0, i) == 3 && slot(t, i) != 3))
}

proof fn lemma_layer_start<S: StateSet>(set: &S, t: Seq<u8>, closed: Seq<usize>, value: u8, at_max: bool)
    ensures
        layer_grew(set, t, t, closed.subrange(0, 0), Seq::empty(), value, at_max),
{
    reveal(layer_grew);
}

/// The state `closed[ci]` expanded after `closed[0 .. ci]`.
proof fn lemma_layer_next<S: StateSet>(set: &S, t0: Seq<u8>, t1: Seq<u8>, t2: Seq<u8>, closed: Seq<usize>, ci: int, next1: Seq<usize>, next2: Seq<usize>, value: u8, at_max: bool)
    requires
        0 <= ci < closed.len(),
        layer_grew(set, t0, t1, closed.subrange(0, ci), next1, value, at_max),
        bfs_step_ok(set, t1, t2, next1, next2, set.next_spec(closed[ci] as nat), value, at_max),
        kept(t0, t1),
        kept(t1, t2),
        t0.len() == t1.len(),
        set.spec_size() <= 4 * t0.len(),
    ensures
        layer_grew(set, t0, t2, closed.subrange(0, ci + 1), next2, value, at_max),
{
    reveal(layer_grew);
    reveal(bfs_step_ok);
    reveal(kept);
    let pre = closed.subrange(0, ci);
    let post = closed.subrange(0, ci + 1);
    let ns = set.next_spec(closed[ci] as nat);
    assert forall|i: int| 0 <= i < set.spec_size() implies (#[trigger] slot(t2, i) != 3 <==> (slot(t0, i) != 3 || exists|c: int, m: int|
        0 <= c < post.len() && 0 <= m < set.next_spec(post[c] as nat).len() && #[trigger] set.next_spec(post[c] as nat)[m] as int == i)) by {
        assert(slot(t2, i) != 3 <==> (slot(t1, i) != 3 || in_list(ns, i)));
        assert(slot(t1, i) != 3 <==> (slot(t0, i) != 3 || exists|c: int, m: int|
            0 <= c < pre.len() && 0 <= m < set.next_spec(pre[c] as nat).len() && #[trigger] set.next_spec(pre[c] as nat)[m] as int == i));
        if exists|c: int, m: int| 0 <= c < pre.len() && 0 <= m < set.next_spec(pre[c] as nat).len() && #[trigger] set.next_spec(pre[c] as nat)[m] as int == i {
            let (c, m) = choose|c: int, m: int| 0 <= c < pre.len() && 0 <= m < set.next_spec(pre[c] as nat).len() && #[trigger] set.next_spec(pre[c] as nat)[m] as int == i;
            assert(post[c] == pre[c]);
            assert(set.next_spec(post[c] as nat)[m] as int == i);
        }
        if in_list(ns, i) {
            let m = choose|m: int| 0 <= m < ns.len() && #[trigger] ns[m] as int == i;
            assert(post[ci] == closed[ci]);
            assert(set.next_spec(post[ci] as nat)[m] as int == i);
        }
        if exists|c: int, m: int| 0 <= c < post.len() && 0 <= m < set.next_spec(post[c] as nat).len() && #[trigger] set.next_spec(post[c] as nat)[m] as int == i {
            let (c, m) = choose|c: int, m: int| 0 <= c < post.len() && 0 <= m < set.next_spec(post[c] as nat).len() && #[trigger] set.next_spec(post[c] as nat)[m] as int == i;
            if c < ci {
                assert(pre[c] == post[c]);
                assert(set.next_spec(pre[c] as nat)[m] as int == i);
            } else {
                assert(ns[m] as int == i);
            }
        }
    }
    assert forall|i: int| 0 <= i < set.spec_size() && slot(t0, i) == 3 && #[trigger] slot(t2, i) != 3 implies slot(t2, i) == value by {
        if slot(t1, i) != 3 {
            assert(slot(t2, i) == slot(t1, i));
        }
    }
    if !at_max {
        assert forall|i: int| 0 <= i < set.spec_size() implies (#[trigger] in_list(next2, i) <==> (slot(t0, i) == 3 && slot(t2, i) != 3)) by {
            assert(in_list(next2, i) <==> (in_list(next1, i) || (slot(t1, i) == 3 && slot(t2, i) != 3)));
            assert(in_list(next1, i) <==> (slot(t0, i) == 3 && slot(t1, i) != 3));
            if slot(t1, i) != 3 {
                assert(slot(t2, i) == slot(t1, i));
            }
            if slot(t0, i) != 3 {
                assert(slot(t1, i) == slot(t0, i));
            }
        }
    }
}

/// The table after the search up to depth `d`: filled exactly at the states
/// reached in fewer than `d` moves, each holding its distance modulo 3.
#[verifier::opaque]
pub open spec fn bfs_core<S: StateSet>(set: &S, t: Seq<u8>, d: nat) -> bool {
    &&& forall|i: int| 0 <= i < set.spec_size() ==> (#[trigger] slot(t, i) != 3 <==> reachable(set, i, (d - 1) as nat))
    &&& forall|i: int, k: nat| 0 <= i < set.spec_size() && k < d && #[trigger] at_layer(set, i, k) ==> slot(t, i) == k % 3
}

/// `closed` holds exactly the states at distance `d - 1`.
#[verifier::opaque]
pub open spec fn closed_layer<S: StateSet>(set: &S, closed: Seq<usize>, d: nat) -> bool {
    forall|i: int| 0 <= i < set.spec_size() ==> (#[trigger] in_list(closed, i) <==> at_layer(set, i, (d - 1) as nat))
}

pub proof fn lemma_reachable_mono<S: StateSet>(set: &S, i: int, a: nat, b: nat)
    requires
        a <= b,
        reachable(set, i, a),
    ensures
        reachable(set, i, b),
    decreases b,
{
    if a < b {
        lemma_reachable_mono(set, i, a, (b - 1) as nat);
    }
}

proof fn lemma_bfs_init<S: StateSet>(set: &S, t: Seq<u8>, closed: Seq<usize>)
    requires
        no_equivalents(set),
        set.spec_solved() < set.spec_size(),
        set.spec_size() <= 0x4000_0000,
        slot(t, set.spec_solved() as int) == 0,
        forall|j: int| 0 <= j < set.spec_size() && #[trigger] slot(t, j) != 3 ==> j == set.spec_solved()
            || set.syms_spec(set.spec_solved()).contains(j as usize),
        closed == seq![set.spec_solved() as usize],
    ensures
        bfs_core(set, t, 1),
        closed_layer(set, closed, 1),
{
    reveal(bfs_core);
    reveal(closed_layer);
    assert(set.syms_spec(set.spec_solved()).len() == 0);
    assert forall|i: int| 0 <= i < set.spec_size() implies (#[trigger] in_list(closed, i) <==> at_layer(set, i, 0)) by {
        if i == set.spec_solved() {
            assert(closed[0] as int == i);
        }
        if in_list(closed, i) {
            let k = choose|k: int| 0 <= k < closed.len() && #[trigger] closed[k] as int == i;
            assert(k == 0);
        }
    }
}

/// One layer of the search turns the table up to depth `d` into the table up
/// to depth `d + 1`, and the new states into the next layer.
proof fn lemma_bfs_advance<S: StateSet>(set: &S, t: Seq<u8>, t2: Seq<u8>, closed: Seq<usize>, next: Seq<usize>, d: nat, at_max: bool)
    requires
        d >= 1,
        bfs_core(set, t, d),
        closed_layer(set, closed, d),
        layer_grew(set, t, t2, closed, next, (d % 3) as u8, at_max),
        frontier(set, t, closed, ((d + 2) % 3) as u8),
        kept(t, t2),
        set.spec_size() <= 4 * t.len(),
    ensures
        bfs_core(set, t2, d + 1),
        !at_max ==> closed_layer(set, next, d + 1),
{
    reveal(bfs_core);
    reveal(closed_layer);
    reveal(layer_grew);
    reveal(frontier);
    reveal(kept);
    assert forall|i: int| 0 <= i < set.spec_size() implies (#[trigger] slot(t2, i) != 3 <==> reachable(set, i, d)) by {
        if exists|c: int, m: int|
            0 <= c < closed.len() && 0 <= m < set.next_spec(closed[c] as nat).len() && #[trigger] set.next_spec(closed[c] as nat)[m] as int == i {
            let (c, m) = choose|c: int, m: int|
                0 <= c < closed.len() && 0 <= m < set.next_spec(closed[c] as nat).len() && #[trigger] set.next_spec(closed[c] as nat)[m] as int == i;
            let cs = closed[c] as int;
            assert(cs < set.spec_size());
            assert(in_list(closed, cs));
            assert(at_layer(set, cs, (d - 1) as nat));
            assert(set.next_spec(cs as nat)[m] as int == i);
            assert(reachable(set, i, d));
        }
        if reachable(set, i, d) && !reachable(set, i, (d - 1) as nat) {
            let (c, m) = choose|c: int, m: int|
                0 <= c < set.spec_size() && 0 <= m < set.next_spec(c as nat).len() && #[trigger] set.next_spec(
                    c as nat,
                )[m] as int == i && i < set.spec_size() && reachable(set, c, (d - 1) as nat);
            if d >= 2 && reachable(set, c, (d - 2) as nat) {
                assert(reachable(set, i, (d - 1) as nat));
            }
            assert(at_layer(set, c, (d - 1) as nat));
            assert(in_list(closed, c));
            let k = choose|k: int| 0 <= k < closed.len() && #[trigger] closed[k] as int == c;
            assert(set.next_spec(closed[k] as nat)[m] as int == i);
        }
        if reachable(set, i, (d - 1) as nat) {
            lemma_reachable_mono(set, i, (d - 1) as nat, d);
        }
    }
    assert forall|i: int, k: nat| 0 <= i < set.spec_size() && k < d + 1 && #[trigger] at_layer(set, i, k) implies slot(t2, i) == k % 3 by {
        if k < d {
            lemma_reachable_mono(set, i, k, (d - 1) as nat);
            assert(slot(t, i) != 3);
        } else {
            assert(slot(t, i) == 3);
            assert(slot(t2, i) != 3);
        }
    }
    if !at_max {
        assert forall|i: int| 0 <= i < set.spec_size() implies (#[trigger] in_list(next, i) <==> at_layer(set, i, d)) by {
            assert(slot(t2, i) != 3 <==> reachable(set, i, d));
        }
    }
}

/// Once no state lies at distance `j >= 1`, every reachable state is reached
/// in fewer than `j` moves.
pub proof fn lemma_layer_empty<S: StateSet>(set: &S, j: nat, i: int, k: nat)
    requires
        j >= 1,
        forall|x: int| 0 <= x < set.spec_size() ==> !#[trigger] at_layer(set, x, j),
        reachable(set, i, k),
    ensures
        reachable(set, i, (j - 1) as nat),
    decreases k,
{
    if k <= j - 1 {
        lemma_reachable_mono(set, i, k, (j - 1) as nat);
    } else if reachable(set, i, (k - 1) as nat) {
        lemma_layer_empty(set, j, i, (k - 1) as nat);
    } else {
        let (c, m) = choose|c: int, m: int|
            0 <= c < set.spec_size() && 0 <= m < set.next_spec(c as nat).len() && #[trigger] set.next_spec(
                c as nat,
            )[m] as int == i && i < set.spec_size() && reachable(set, c, (k - 1) as nat);
        lemma_layer_empty(set, j, c, (k - 1) as nat);
        assert(reachable(set, i, j));
        assert(!at_layer(set, i, j));
    }
}

/// The search stops at depth `d`: at the cap, at the fill depth, once a layer
/// came out empty, or once every state is reached.
pub open spec fn stops_at<S: StateSet>(set: &S, d: nat, fill_last: bool) -> bool {
    ||| d >= 255
    ||| (fill_last && set.spec_max_depth() >= 2 && d == set.spec_max_depth())
    ||| (forall|x: int| 0 <= x < set.spec_size() ==> !#[trigger] at_layer(set, x, (d - 1) as nat))
    ||| (forall|x: int| 0 <= x < set.spec_size() ==> #[trigger] reachable(set, x, (d - 1) as nat))
}

proof fn lemma_filled_count_full(t: Seq<u8>, k: nat)
    requires
        forall|j: int| 0 <= j < k ==> #[trigger] slot(t, j) != 3,
    ensures
        filled_count(t, k) == k,
    decreases k,
{
    if k > 0 {
        lemma_filled_count_full(t, (k - 1) as nat);
    }
}

/// The final fill runs: at the fill depth some state is still unreached.
pub open spec fn fills<S: StateSet>(set: &S, d: nat, fill_last: bool) -> bool {
    fill_last && d == set.spec_max_depth() && exists|i: int| 0 <= i < set.spec_size() && !#[trigger] reachable(set, i, (d - 1) as nat)
}

/// The pruning table of a search space without equivalents, searched to
/// depth `d`: `d` is the first depth where the search stops; a state at
/// distance `k < d` holds `k % 3`; every other slot, padding included, holds
/// `d % 3` when the final fill runs and stays undiscovered otherwise.
pub open spec fn bfs_table<S: StateSet>(set: &S, t: Seq<u8>, d: nat, fill_last: bool) -> bool {
    &&& t.len() == table_len(set.spec_size())
    &&& d >= 1
    &&& stops_at(set, d, fill_last)
    &&& forall|e: nat| 1 <= e < d ==> !#[trigger] stops_at(set, e, fill_last)
    &&& forall|i: int, k: nat| 0 <= i < set.spec_size() && k < d && #[trigger] at_layer(set, i, k) ==> slot(t, i) == k % 3
    &&& forall|i: int|
        0 <= i < set.spec_size() && !reachable(set, i, (d - 1) as nat) ==> #[trigger] slot(t, i) == (if fills(set, d, fill_last) {
            (d % 3) as u8
        } else {
            3u8
        })
    &&& forall|j: int|
        set.spec_size() <= j < 4 * t.len() ==> #[trigger] slot(t, j) == (if fills(set, d, fill_last) {
            (d % 3) as u8
        } else {
            3u8
        })
}

/// A state reached in `k` moves lies at some distance `j <= k`.
pub proof fn lemma_min_layer<S: StateSet>(set: &S, i: int, k: nat)
    requires
        reachable(set, i, k),
    ensures
        exists|j: nat| j <= k && #[trigger] at_layer(set, i, j),
    decreases k,
{
    if k > 0 && reachable(set, i, (k - 1) as nat) {
        lemma_min_layer(set, i, (k - 1) as nat);
    } else {
        assert(at_layer(set, i, k));
    }
}

proof fn lemma_byte_from_slots(b1: u8, b2: u8)
    requires
        (b1 >> 0u8) & 3u8 == (b2 >> 0u8) & 3u8,
        (b1 >> 2u8) & 3u8 == (b2 >> 2u8) & 3u8,
        (b1 >> 4u8) & 3u8 == (b2 >> 4u8) & 3u8,
        (b1 >> 6u8) & 3u8 == (b2 >> 6u8) & 3u8,
    ensures
        b1 == b2,
{
    assert(b1 == b2) by (bit_vector)
        requires
            (b1 >> 0u8) & 3u8 == (b2 >> 0u8) & 3u8,
            (b1 >> 2u8) & 3u8 == (b2 >> 2u8) & 3u8,
            (b1 >> 4u8) & 3u8 == (b2 >> 4u8) & 3u8,
            (b1 >> 6u8) & 3u8 == (b2 >> 6u8) & 3u8,
    ;
}

/// Re-generation gives the same bytes: over a search space without
/// equivalents, two tables of `generate` with the same `fill_last` stop at the
/// same depth and are equal.
pub proof fn lemma_generate_deterministic<S: StateSet>(set: &S, t1: Seq<u8>, d1: nat, t2: Seq<u8>, d2: nat, fill_last: bool)
    requires
        bfs_table(set, t1, d1, fill_last),
        bfs_table(set, t2, d2, fill_last),
    ensures
        d1 == d2,
        t1 == t2,
{
    if d1 < d2 {
        assert(!stops_at(set, d1, fill_last));
    } else if d2 < d1 {
        assert(!stops_at(set, d2, fill_last));
    }
    let d = d1;
    assert forall|i: int| 0 <= i < 4 * t1.len() implies #[trigger] slot(t1, i) == slot(t2, i) by {
        if i < set.spec_size() {
            if reachable(set, i, (d - 1) as nat) {
                lemma_min_layer(set, i, (d - 1) as nat);
                let j = choose|j: nat| j <= (d - 1) as nat && #[trigger] at_layer(set, i, j);
                assert(slot(t1, i) == j % 3 && slot(t2, i) == j % 3);
            }
        }
    }
    assert forall|q: int| 0 <= q < t1.len() implies t1[q] == t2[q] by {
        assert(slot(t1, 4 * q) == slot(t2, 4 * q));
        assert(slot(t1, 4 * q + 1) == slot(t2, 4 * q + 1));
        assert(slot(t1, 4 * q + 2) == slot(t2, 4 * q + 2));
        assert(slot(t1, 4 * q + 3) == slot(t2, 4 * q + 3));
        assert((4 * q) / 4 == q && (4 * q) % 4 == 0);
        assert((4 * q + 1) / 4 == q && (4 * q + 1) % 4 == 1);
        assert((4 * q + 2) / 4 == q && (4 * q + 2) % 4 == 2);
        assert((4 * q + 3) / 4 == q && (4 * q + 3) % 4 == 3);
        lemma_byte_from_slots(t1[q], t2[q]);
    }
    assert(t1 =~= t2);
}

/// A search at depth `d` with a nonempty layer and unfilled slots goes on.
proof fn lemma_layer_continues<S: StateSet>(set: &S, t: Seq<u8>, closed: Seq<usize>, filled: nat, d: nat, fill_last: bool)
    requires
        no_equivalents(set),
        1 <= d < 255,
        closed.len() > 0,
        filled < set.spec_size(),
        search_ok(set, t, filled),
        closed_layer(set, closed, d),
        bfs_core(set, t, d),
        frontier(set, t, closed, ((d + 2) % 3) as u8),
        !(fill_last && set.spec_max_depth() >= 2 && d == set.spec_max_depth()),
    ensures
        !stops_at(set, d, fill_last),
{
    reveal(closed_layer);
    reveal(bfs_core);
    reveal(search_ok);
    reveal(frontier);
    let c0 = closed[0] as int;
    assert(in_list(closed, c0)) by {
        assert(closed[0] as int == c0);
    }
    assert(at_layer(set, c0, (d - 1) as nat));
    if forall|x: int| 0 <= x < set.spec_size() ==> #[trigger] reachable(set, x, (d - 1) as nat) {
        assert forall|j: int| 0 <= j < set.spec_size() implies #[trigger] slot(t, j) != 3 by {
            assert(reachable(set, j, (d - 1) as nat));
        }
        lemma_filled_count_full(t, set.spec_size());
    }
}

/// After a layer of the search, the table holds the layers up to `d` and,
/// unless the layer was the last expanded one, the layer of distance `d` is
/// the next frontier and is not empty.
proof fn lemma_layer_done<S: StateSet>(set: &S, t: Seq<u8>, t2: Seq<u8>, closed: Seq<usize>, next: Seq<usize>, d: nat, at_max: bool)
    requires
        d >= 1,
        closed.len() > 0,
        bfs_core(set, t, d),
        closed_layer(set, closed, d),
        layer_grew(set, t, t2, closed, next, (d % 3) as u8, at_max),
        frontier(set, t, closed, ((d + 2) % 3) as u8),
        kept(t, t2),
        set.spec_size() <= 4 * t.len(),
    ensures
        bfs_core(set, t2, d + 1),
        !at_max ==> closed_layer(set, next, d + 1),
        exists|x: int| 0 <= x < set.spec_size() && #[trigger] at_layer(set, x, (d - 1) as nat),
{
    lemma_bfs_advance(set, t, t2, closed, next, d, at_max);
    reveal(closed_layer);
    reveal(frontier);
    let c0 = closed[0] as int;
    assert(in_list(closed, c0)) by {
        assert(closed[0] as int == c0);
    }
    assert(0 <= c0 < set.spec_size() && at_layer(set, c0, (d - 1) as nat));
}

/// Every move can be reversed: when `c` reaches `i` in one move, `i` reaches
/// `c` in one move.
pub open spec fn moves_reversible<S: StateSet>(set: &S) -> bool {
    forall|c: int, m: int|
        0 <= c < set.spec_size() && 0 <= m < set.next_spec(c as nat).len() && #[trigger] set.next_spec(c as nat)[m]
            < set.spec_size() ==> exists|m2: int|
            0 <= m2 < set.next_spec(set.next_spec(c as nat)[m] as nat).len() && #[trigger] set.next_spec(
                set.next_spec(c as nat)[m] as nat,
            )[m2] as int == c
}

/// Layer adjacency: in the table of a search space without equivalents whose
/// moves are reversible, every state at distance `1 <= k < d` has a neighbour
/// one layer closer, whose value is one less modulo 3.
#[verifier::rlimit(60)]
#[verifier::spinoff_prover]
pub proof fn lemma_neighbour_closer<S: StateSet>(set: &S, t: Seq<u8>, d: nat, fill_last: bool, i: int, k: nat)
    requires
        bfs_table(set, t, d, fill_last),
        moves_reversible(set),
        0 <= i < set.spec_size(),
        1 <= k < d,
        at_layer(set, i, k),
    ensures
        exists|m: int|
            0 <= m < set.next_spec(i as nat).len() && (slot(t, #[trigger] set.next_spec(i as nat)[m] as int) + 1) % 3
                == slot(t, i),
{
    let (c, m) = choose|c: int, m: int|
        0 <= c < set.spec_size() && 0 <= m < set.next_spec(c as nat).len() && #[trigger] set.next_spec(
            c as nat,
        )[m] as int == i && i < set.spec_size() && reachable(set, c, (k - 1) as nat);
    lemma_min_layer(set, c, (k - 1) as nat);
    let j = choose|j: nat| j <= (k - 1) as nat && #[trigger] at_layer(set, c, j);
    if j < k - 1 {
        assert(reachable(set, i, j + 1));
        lemma_reachable_mono(set, i, j + 1, (k - 1) as nat);
    }
    assert(slot(t, c) == (k - 1) % 3);
    assert(slot(t, i) == k % 3);
    assert(set.next_spec(c as nat)[m] < set.spec_size());
    let m2 = choose|m2: int|
        0 <= m2 < set.next_spec(set.next_spec(c as nat)[m] as nat).len() && #[trigger] set.next_spec(
            set.next_spec(c as nat)[m] as nat,
        )[m2] as int == c;
    assert(set.next_spec(c as nat)[m] as nat == i as nat);
    assert(set.next_spec(i as nat)[m2] as int == c);
}

/// Claims `index` for `value` during the search, keeping what the search keeps.
fn claim_in_search<S: StateSet>(set: &S, table: &mut Vec<u8>, filled: &mut usize, index: usize, value: u8) -> (r: bool)
    requires
        set.wf(),
        search_ok(set, old(table)@, *old(filled) as nat),
        index < set.spec_size(),
        value < 3,
        accounts_for(set, old(table)@, index as int, value, None),
    ensures
        search_ok(set, final(table)@, *final(filled) as nat),
        kept(old(table)@, final(table)@),
        slot(final(table)@, index as int) != 3,
        r == (slot(old(table)@, index as int) == 3),
        r ==> slot(final(table)@, index as int) == value,
        final(table)@.len() == old(table)@.len(),
        forall|j: int| 0 <= j < 4 * old(table)@.len() && j != index ==> slot(final(table)@, j) == slot(old(table)@, j),
        !r ==> final(table)@ == old(table)@,
{
    reveal(search_ok);
    reveal(kept);
    let ghost t0 = table@;
    let r = claim_accounted(set, table, filled, index, value, Ghost(None));
    proof {
        let sv = set.syms_spec(set.spec_solved());
        assert forall|m: int| 0 <= m < sv.len() implies #[trigger] sv[m] < set.spec_size() && slot(table@, sv[m] as int) == 0 by {
            assert(sv[m] < set.spec_size() && slot(t0, sv[m] as int) == 0);
        }
    }
    r
}

/// Claims the neighbours of `c` (one layer earlier) for `depthm3`, with the
/// equivalents of each newly reached one, and queues the newly reached ones
/// unless `at_max`.
#[verifier::rlimit(100)]
#[verifier::spinoff_prover]
fn expand_state<S: StateSet>(set: &S, table: &mut Vec<u8>, filled: &mut usize, c: usize, depthm3: u8, at_max: bool, next: &mut Vec<usize>, pending: Ghost<Set<int>>)
    requires
        !at_max ==> expanded_except(set, old(table)@, with_list(pending@, old(next)@).insert(c as int)),
        set.wf(),
        search_ok(set, old(table)@, *old(filled) as nat),
        c < set.spec_size(),
        depthm3 < 3,
        slot(old(table)@, c as int) != 3,
        (slot(old(table)@, c as int) + 1) % 3 == depthm3,
        frontier(set, old(table)@, old(next)@, depthm3),
        at_max ==> old(next)@.len() == 0,
    ensures
        search_ok(set, final(table)@, *final(filled) as nat),
        frontier(set, final(table)@, final(next)@, depthm3),
        at_max ==> final(next)@.len() == 0,
        kept(old(table)@, final(table)@),
        final(table)@.len() == old(table)@.len(),
        !at_max ==> expanded_except(set, final(table)@, with_list(pending@, final(next)@)),
        no_equivalents(set) ==> bfs_step_ok(set, old(table)@, final(table)@, old(next)@, final(next)@,
            set.next_spec(c as nat), depthm3, at_max),
        forall|j: int| set.spec_size() <= j < 4 * old(table)@.len() ==> #[trigger] slot(final(table)@, j) == slot(old(table)@, j),
{
    let ghost t_start = table@;
    let ghost next_start = next@;
    proof {
        lemma_bfs_step_start(set, table@, next@, depthm3, at_max);
        assert(Seq::<usize>::empty() =~= set.next_spec(c as nat).subrange(0, 0));
    }
    proof {
        lemma_kept_refl(table@);
        reveal(search_ok);
    }
    let neighbours = set.get_next_state_sets(c);
    let mut ni: usize = 0;
    while ni < neighbours.len()
        invariant
            set.wf(),
            ni <= neighbours@.len(),
            depthm3 < 3,
            c < set.spec_size(),
            neighbours@ == set.next_spec(c as nat),
            forall|m: int| 0 <= m < neighbours@.len() ==> #[trigger] neighbours@[m] < set.spec_size(),
            search_ok(set, table@, *filled as nat),
            table@.len() == t_start.len(),
            set.spec_size() <= 4 * t_start.len(),
            slot(table@, c as int) != 3,
            (slot(table@, c as int) + 1) % 3 == depthm3,
            frontier(set, table@, next@, depthm3),
            at_max ==> next@.len() == 0,
            kept(t_start, table@),
            !at_max ==> expanded_except(set, table@, with_list(pending@, next@).insert(c as int)),
            forall|m: int| 0 <= m < ni ==> slot(table@, #[trigger] neighbours@[m] as int) != 3,
            no_equivalents(set) ==> bfs_step_ok(set, t_start, table@, next_start, next@,
                neighbours@.subrange(0, ni as int), depthm3, at_max),
            forall|j: int| set.spec_size() <= j < 4 * t_start.len() ==> #[trigger] slot(table@, j) == slot(t_start, j),
        decreases neighbours@.len() - ni,
    {
        let n = neighbours[ni];
        proof {
            let cc = c as int;
            let m = ni as int;
            assert(0 <= cc < set.spec_size() && 0 <= m < set.next_spec(cc as nat).len()
                && set.next_spec(cc as nat)[m] == n as int && slot(table@, cc) != 3
                && (slot(table@, cc) + 1) % 3 == depthm3);
        }
        let ghost t1 = table@;
        let ghost q0 = with_list(pending@, next@).insert(c as int);
        let claimed = claim_in_search(set, table, filled, n, depthm3);
        proof {
            lemma_kept_slot(t1, table@, c as int);
            lemma_kept_trans(t_start, t1, table@);
            lemma_frontier_kept(set, t1, table@, next@, depthm3);
            assert forall|m: int| 0 <= m < ni implies slot(table@, #[trigger] neighbours@[m] as int) != 3 by {
                lemma_kept_slot(t1, table@, neighbours@[m] as int);
            }
            if !at_max && claimed {
                lemma_expanded_grow(set, t1, table@, q0, q0.insert(n as int), n as int);
            }
        }
        let ghost next_after = if claimed && !at_max { next@.push(n) } else { next@ };
        proof {
            if no_equivalents(set) {
                lemma_bfs_step_next(set, t_start, t1, table@, next_start, next@, next_after,
                    neighbours@.subrange(0, ni as int), n, depthm3, at_max, claimed);
                assert(neighbours@.subrange(0, ni as int).push(n) =~= neighbours@.subrange(0, ni + 1));
            }
            assert(no_equivalents(set) ==> bfs_step_ok(set, t_start, table@, next_start, next_after,
                neighbours@.subrange(0, ni + 1), depthm3, at_max));
        }
        if claimed {
            let equivalents = set.get_sym_hashes(n);
            let mut si: usize = 0;
            while si < equivalents.len()
                invariant
                    set.wf(),
                    si <= equivalents@.len(),
                    depthm3 < 3,
                    c < set.spec_size(),
                    n < set.spec_size(),
                    ni < neighbours@.len(),
                    neighbours@ == set.next_spec(c as nat),
                    set.next_spec(c as nat)[ni as int] == n,
                    equivalents@ == set.syms_spec(n as nat),
                    forall|m: int| 0 <= m < equivalents@.len() ==> #[trigger] equivalents@[m] < set.spec_size(),
                    search_ok(set, table@, *filled as nat),
                    table@.len() == t_start.len(),
                    set.spec_size() <= 4 * t_start.len(),
                    slot(table@, c as int) != 3,
                    (slot(table@, c as int) + 1) % 3 == depthm3,
                    slot(table@, n as int) == depthm3,
                    frontier(set, table@, next@, depthm3),
                    at_max ==> next@.len() == 0,
                    kept(t_start, table@),
                    q0 == with_list(pending@, next@).insert(c as int),
                    forall|m: int| 0 <= m < neighbours@.len() ==> #[trigger] neighbours@[m] < set.spec_size(),
                    !at_max ==> expanded_except(set, table@, q0.insert(n as int)),
                    forall|m: int| 0 <= m < ni ==> slot(table@, #[trigger] neighbours@[m] as int) != 3,
                    no_equivalents(set) ==> bfs_step_ok(set, t_start, table@, next_start, next_after,
                        neighbours@.subrange(0, ni + 1), depthm3, at_max),
                    next_after == (if !at_max { next@.push(n) } else { next@ }),
                    forall|j: int| set.spec_size() <= j < 4 * t_start.len() ==> #[trigger] slot(table@, j) == slot(t_start, j),
                decreases equivalents@.len() - si,
            {
                let h = equivalents[si];
                proof {
                    assert(!no_equivalents(set)) by {
                        assert(set.syms_spec(n as nat).len() > 0);
                    }
                    assert(set.syms_spec(n as nat).contains(h));
                    let e = n as int;
                    let cc = c as int;
                    let m = ni as int;
                    assert(0 <= e < set.spec_size() && set.syms_spec(e as nat).contains(h as int as usize));
                    assert(set.next_spec(cc as nat)[m] == e);
                    assert(accounts_for(set, table@, h as int, depthm3, None));
                }
                let ghost t2 = table@;
                claim_in_search(set, table, filled, h, depthm3);
                proof {
                    lemma_kept_slot(t2, table@, c as int);
                    lemma_kept_slot(t2, table@, n as int);
                    lemma_kept_trans(t_start, t2, table@);
                    lemma_frontier_kept(set, t2, table@, next@, depthm3);
                    assert forall|m: int| 0 <= m < ni implies slot(table@, #[trigger] neighbours@[m] as int) != 3 by {
                        lemma_kept_slot(t2, table@, neighbours@[m] as int);
                    }
                    if !at_max {
                        let e = n as int;
                        assert(0 <= e < set.spec_size() && set.syms_spec(e as nat).contains(h as int as usize));
                        assert(is_equivalent(set, h as int));
                        lemma_expanded_grow(set, t2, table@, q0.insert(n as int), q0.insert(n as int), h as int);
                    }
                }
                si += 1;
            }
            if !at_max {
                proof {
                    lemma_frontier_push(set, table@, next@, depthm3, n);
                }
                let ghost old_next = next@;
                next.push(n);
                proof {
                    assert forall|x: int| q0.insert(n as int).contains(x) implies with_list(pending@, next@).insert(c as int).contains(x) by {
                        if exists|k: int| 0 <= k < old_next.len() && #[trigger] old_next[k] as int == x {
                            let k = choose|k: int| 0 <= k < old_next.len() && #[trigger] old_next[k] as int == x;
                            assert(next@[k] as int == x);
                        }
                        if x == n as int {
                            assert(next@[next@.len() - 1] as int == x);
                        }
                    }
                    lemma_expanded_subset(set, table@, q0.insert(n as int), with_list(pending@, next@).insert(c as int));
                }
            }
        }
        proof {
            assert(slot(table@, neighbours@[ni as int] as int) != 3);
            assert(next@ == next_after);
            assert(no_equivalents(set) ==> bfs_step_ok(set, t_start, table@, next_start, next@,
                neighbours@.subrange(0, ni + 1), depthm3, at_max));
        }
        ni += 1;
    }
    proof {
        assert(neighbours@.subrange(0, neighbours@.len() as int) =~= set.next_spec(c as nat));
        if !at_max {
            assert forall|m: int| 0 <= m < set.next_spec(c as nat).len() && set.next_spec(c as nat)[m] < set.spec_size()
                implies slot(table@, #[trigger] set.next_spec(c as nat)[m] as int) != 3 by {
                assert(neighbours@[m] == set.next_spec(c as nat)[m]);
            }
            lemma_expanded_drop(set, table@, with_list(pending@, next@), c as int);
        }
    }
}

/// Expands every state of `closed` (one layer earlier) into the layer of
/// `depthm3`, returning the newly reached states unless `at_max`.
fn expand_layer<S: StateSet>(set: &S, table: &mut Vec<u8>, filled: &mut usize, closed: &Vec<usize>, depthm3: u8, at_max: bool) -> (next: Vec<usize>)
    requires
        set.wf(),
        search_ok(set, old(table)@, *old(filled) as nat),
        depthm3 < 3,
        frontier(set, old(table)@, closed@, ((depthm3 + 2) % 3) as u8),
        !at_max ==> expanded_except(set, old(table)@, with_list(Set::empty(), closed@)),
    ensures
        search_ok(set, final(table)@, *final(filled) as nat),
        frontier(set, final(table)@, next@, depthm3),
        at_max ==> next@.len() == 0,
        kept(old(table)@, final(table)@),
        !at_max ==> expanded_except(set, final(table)@, with_list(Set::empty(), next@)),
        no_equivalents(set) ==> layer_grew(set, old(table)@, final(table)@, closed@, next@, depthm3, at_max),
        forall|j: int| set.spec_size() <= j < 4 * old(table)@.len() ==> #[trigger] slot(final(table)@, j) == slot(old(table)@, j),
        final(table)@.len() == old(table)@.len(),
{
    let ghost t_start = table@;
    proof {
        lemma_kept_refl(table@);
        lemma_frontier_empty(set, table@, depthm3);
        reveal(search_ok);
        if !at_max {
            let q1 = with_list(Set::empty(), closed@);
            let q2 = with_list(with_list(Set::empty(), closed@.subrange(0, closed@.len() as int)), Seq::<usize>::empty());
            assert(closed@.subrange(0, closed@.len() as int) =~= closed@);
            assert forall|x: int| q1.contains(x) implies q2.contains(x) by {
                let k = choose|k: int| 0 <= k < closed@.len() && #[trigger] closed@[k] as int == x;
                assert(closed@.subrange(0, closed@.len() as int)[k] as int == x);
            }
            lemma_expanded_subset(set, table@, q1, q2);
        }
    }
    let mut next: Vec<usize> = Vec::new();
    proof {
        lemma_layer_start(set, table@, closed@, depthm3, at_max);
        assert(next@ =~= Seq::<usize>::empty());
    }
    let mut ci: usize = 0;
    while ci < closed.len()
        invariant
            set.wf(),
            ci <= closed@.len(),
            depthm3 < 3,
            search_ok(set, table@, *filled as nat),
            table@.len() == t_start.len(),
            set.spec_size() <= 4 * t_start.len(),
            frontier(set, table@, closed@, ((depthm3 + 2) % 3) as u8),
            frontier(set, table@, next@, depthm3),
            at_max ==> next@.len() == 0,
            kept(t_start, table@),
            !at_max ==> expanded_except(set, table@, with_list(with_list(Set::empty(), closed@.subrange(ci as int, closed@.len() as int)), next@)),
            no_equivalents(set) ==> layer_grew(set, t_start, table@, closed@.subrange(0, ci as int), next@, depthm3, at_max),
            forall|j: int| set.spec_size() <= j < 4 * t_start.len() ==> #[trigger] slot(table@, j) == slot(t_start, j),
        decreases closed@.len() - ci,
    {
        let ghost t1 = table@;
        let ghost next1 = next@;
        let ghost rest = with_list(Set::empty(), closed@.subrange(ci + 1, closed@.len() as int));
        proof {
            lemma_frontier_elem(set, table@, closed@, ((depthm3 + 2) % 3) as u8, ci as int);
            if !at_max {
                let q1 = with_list(with_list(Set::empty(), closed@.subrange(ci as int, closed@.len() as int)), next@);
                let q2 = with_list(rest, next@).insert(closed@[ci as int] as int);
                assert forall|x: int| q1.contains(x) implies q2.contains(x) by {
                    let sub = closed@.subrange(ci as int, closed@.len() as int);
                    if exists|k: int| 0 <= k < sub.len() && #[trigger] sub[k] as int == x {
                        let k = choose|k: int| 0 <= k < sub.len() && #[trigger] sub[k] as int == x;
                        if k > 0 {
                            assert(closed@.subrange(ci + 1, closed@.len() as int)[k - 1] as int == x);
                        } else {
                            assert(sub[0] == closed@[ci as int]);
                        }
                    }
                }
                lemma_expanded_subset(set, table@, q1, q2);
            }
        }
        expand_state(set, table, filled, closed[ci], depthm3, at_max, &mut next, Ghost(rest));
        proof {
            if no_equivalents(set) {
                lemma_layer_next(set, t_start, t1, table@, closed@, ci as int, next1, next@, depthm3, at_max);
            }
            lemma_kept_trans(t_start, t1, table@);
            lemma_frontier_kept(set, t1, table@, closed@, ((depthm3 + 2) % 3) as u8);
        }
        ci += 1;
    }
    proof {
        assert(closed@.subrange(0, closed@.len() as int) =~= closed@);
        if !at_max {
            let q1 = with_list(with_list(Set::empty(), closed@.subrange(ci as int, closed@.len() as int)), next@);
            assert forall|x: int| q1.contains(x) implies with_list(Set::empty(), next@).contains(x) by {
                let sub = closed@.subrange(ci as int, closed@.len() as int);
                assert(sub.len() == 0);
            }
            lemma_expanded_subset(set, table@, q1, with_list(Set::empty(), next@));
        }
    }
    next
}

/// Writes `value` into every slot still undiscovered; filled slots keep their values.
fn fill_rest<S: StateSet>(set: &S, table: &mut Vec<u8>, value: u8, fill_value: Ghost<Option<u8>>)
    requires
        value < 3,
        fill_value@ == Some(value),
        set.spec_size() <= 4 * old(table)@.len(),
        old(table)@.len() <= 0x1000_0001,
        all_accounted(set, old(table)@, fill_value@),
    ensures
        final(table)@.len() == old(table)@.len(),
        all_accounted(set, final(table)@, fill_value@),
        forall|i: int| 0 <= i < 4 * old(table)@.len() && slot(old(table)@, i) != 3 ==> #[trigger] slot(final(table)@, i) == slot(old(table)@, i),
        forall|i: int| 0 <= i < 4 * old(table)@.len() && slot(old(table)@, i) == 3 ==> #[trigger] slot(final(table)@, i) == value,
{
    let ghost pre = table@;
    let n = 4 * table.len();
    let mut j: usize = 0;
    while j < n
        invariant
            j <= n,
            n == 4 * pre.len(),
            table@.len() == pre.len(),
            set.spec_size() <= 4 * pre.len(),
            value < 3,
            fill_value@ == Some(value),
            all_accounted(set, table@, fill_value@),
            forall|i: int| 0 <= i < 4 * pre.len() && slot(pre, i) != 3 ==> #[trigger] slot(table@, i) == slot(pre, i),
            forall|i: int| 0 <= i < j && slot(pre, i) == 3 ==> #[trigger] slot(table@, i) == value,
            forall|i: int| j <= i < 4 * pre.len() ==> #[trigger] slot(table@, i) == slot(pre, i),
        decreases n - j,
    {
        let ghost t0 = table@;
        let claimed = claim(table, j, value);
        proof {
            if claimed {
                assert forall|i: int| 0 <= i < set.spec_size() && #[trigger] slot(table@, i) != 3 implies accounts_for(
                    set,
                    table@,
                    i,
                    slot(table@, i),
                    fill_value@,
                ) by {
                    if i != j {
                        assert(slot(t0, i) != 3);
                        lemma_accounts_kept(set, t0, table@, j as int, i, slot(t0, i), fill_value@);
                    }
                }
            }
        }
        j += 1;
    }
}

/// The layered breadth-first search of `generate`, before the final fill:
/// the table, the depth it stopped at, and the count of filled slots.
#[verifier::rlimit(100)]
#[verifier::spinoff_prover]
fn run_search<S: StateSet>(set: &S, fill_last: bool) -> (r: (Vec<u8>, u8, usize))
    requires
        set.wf(),
    ensures
        search_ok(set, r.0@, r.2 as nat),
        r.0@.len() == table_len(set.spec_size()),
        set.spec_size() <= 4 * r.0@.len(),
        r.0@.len() <= 0x1000_0001,
        forall|j: int| set.spec_size() <= j < 4 * r.0@.len() ==> #[trigger] slot(r.0@, j) == 3,
        1 <= r.1 <= 255,
        r.2 >= set.spec_size() ==> is_full(r.0@, set.spec_size()),
        r.1 < 255 ==> (fill_last && r.1 == set.spec_max_depth()) || is_full(r.0@, set.spec_size())
            || expanded_except(set, r.0@, Set::empty()),
        no_equivalents(set) ==> bfs_core(set, r.0@, r.1 as nat),
        no_equivalents(set) ==> stops_at(set, r.1 as nat, fill_last) && forall|e: nat|
            1 <= e < r.1 ==> !#[trigger] stops_at(set, e, fill_last),
        no_equivalents(set) && !fill_last && r.1 < 255 ==> forall|i: int|
            0 <= i < set.spec_size() ==> (#[trigger] slot(r.0@, i) != 3 <==> exists|k: nat| reachable(set, i, k)),
        no_equivalents(set) && r.1 == 255 && !(fill_last && r.1 == set.spec_max_depth()) ==> exists|x: int|
            0 <= x < set.spec_size() && #[trigger] at_layer(set, x, 253),
{
    let size = set.size();
    let tl = (size + 3) / 4;
    assert(tl <= 0x1000_0001);
    let mut table: Vec<u8> = Vec::new();
    let mut b: usize = 0;
    while b < tl
        invariant
            b <= tl,
            table@.len() == b,
            forall|j: int| 0 <= j < b ==> table@[j] == 255u8,
        decreases tl - b,
    {
        table.push(255);
        b += 1;
    }
    proof {
        assert forall|j: int| 0 <= j < 4 * tl implies slot(table@, j) == 3 by {
            let byte = table@[j / 4];
            assert(byte == 255u8);
            let e = (2 * (j % 4)) as u8;
            assert((255u8 >> e) & 3u8 == 3u8) by (bit_vector)
                requires
                    e <= 6,
            ;
        }
        lemma_filled_count_zero(table@, size as nat);
        assert(4 * ((size + 3) / 4) >= size) by (nonlinear_arith);
    }
    let ghost none: Option<u8> = None;
    let mut filled: usize = 0;
    let solved = set.solved();
    claim_accounted(set, &mut table, &mut filled, solved, 0, Ghost(none));
    let syms0 = set.get_sym_hashes(solved);
    let mut k: usize = 0;
    while k < syms0.len()
        invariant
            set.wf(),
            k <= syms0@.len(),
            syms0@ == set.syms_spec(solved as nat),
            solved == set.spec_solved(),
            solved < size,
            size == set.spec_size(),
            size <= 0x4000_0000,
            forall|m: int| 0 <= m < syms0@.len() ==> #[trigger] syms0@[m] < size,
            table@.len() == table_len(size as nat),
            size <= 4 * table@.len(),
            filled == filled_count(table@, size as nat),
            all_accounted(set, table@, none),
            slot(table@, solved as int) == 0,
            forall|m: int| 0 <= m < k ==> slot(table@, #[trigger] syms0@[m] as int) == 0,
            forall|j: int| 0 <= j < 4 * table@.len() ==> #[trigger] slot(table@, j) == 3 || slot(table@, j) == 0,
            forall|j: int| 0 <= j < 4 * table@.len() && #[trigger] slot(table@, j) != 3 ==> j == solved || syms0@.contains(j as usize),
        decreases syms0@.len() - k,
    {
        assert(syms0@.contains(syms0@[k as int]));
        claim_accounted(set, &mut table, &mut filled, syms0[k], 0, Ghost(none));
        k += 1;
    }
    proof {
        reveal(search_ok);
        reveal(frontier);
        assert forall|m: int| 0 <= m < syms0@.len() implies #[trigger] syms0@[m] < size && slot(table@, syms0@[m] as int) == 0 by {}
        assert(search_ok(set, table@, filled as nat));
    }
    let mut closed: Vec<usize> = Vec::new();
    closed.push(solved);
    proof {
        reveal(frontier);
        assert(frontier(set, table@, closed@, 0u8));
        reveal(expanded_except);
        assert(with_list(Set::empty(), closed@).contains(solved as int)) by {
            assert(closed@[0] as int == solved as int);
        }
    }
    proof {
        if no_equivalents(set) {
            assert(closed@ =~= seq![set.spec_solved() as usize]);
            lemma_bfs_init(set, table@, closed@);
        }
    }
    proof {
        assert forall|j: int| size <= j < 4 * tl implies #[trigger] slot(table@, j) == 3 by {
            if slot(table@, j) != 3 {
                if syms0@.contains(j as usize) {
                    let m = choose|m: int| 0 <= m < syms0@.len() && syms0@[m] == j as usize;
                    assert(syms0@[m] < size);
                }
            }
        }
    }
    let ghost mut capped = false;
    let max_depth = set.max_depth();
    let mut depth: u8 = 1;
    while closed.len() > 0 && filled < size && depth < 255
        invariant
            set.wf(),
            1 <= depth <= 255,
            size == set.spec_size(),
            tl == table_len(size as nat),
            tl <= 0x1000_0001,
            max_depth == set.spec_max_depth(),
            search_ok(set, table@, filled as nat),
            frontier(set, table@, closed@, ((depth + 2) % 3) as u8),
            fill_last && max_depth >= 2 ==> depth <= max_depth,
            fill_last && max_depth >= 2 && depth == max_depth ==> closed@.len() == 0,
            !capped ==> expanded_except(set, table@, with_list(Set::empty(), closed@)),
            capped ==> fill_last && depth == max_depth && max_depth >= 2,
            depth == 1 ==> closed@.len() > 0,
            no_equivalents(set) ==> bfs_core(set, table@, depth as nat),
            no_equivalents(set) && !capped ==> closed_layer(set, closed@, depth as nat),
            no_equivalents(set) && !capped && depth >= 2 ==> exists|x: int|
                0 <= x < size && #[trigger] at_layer(set, x, (depth - 2) as nat),
            no_equivalents(set) ==> forall|e: nat| 1 <= e < depth ==> !#[trigger] stops_at(set, e, fill_last),
            forall|j: int| size <= j < 4 * tl ==> #[trigger] slot(table@, j) == 3,
            table@.len() == tl,
        decreases 255 - depth,
    {
        let depthm3 = depth % 3;
        let at_max = fill_last && depth as u16 + 1 == max_depth as u16;
        assert((depthm3 + 2) % 3 == (depth + 2) % 3);
        assert(!at_max ==> !capped);
        let ghost t_before = table@;
        let ghost closed_before = closed@;
        let ghost d = depth as nat;
        proof {
            if no_equivalents(set) {
                lemma_layer_continues(set, table@, closed@, filled as nat, d, fill_last);
            }
        }
        closed = expand_layer(set, &mut table, &mut filled, &closed, depthm3, at_max);
        depth += 1;
        proof {
            if no_equivalents(set) {
                assert((d % 3) as u8 == depthm3);
                lemma_layer_done(set, t_before, table@, closed_before, closed@, d, at_max);
                assert((depth - 2) as nat == (d - 1) as nat);
            }
            if at_max {
                capped = true;
            }
        }
        assert(((depth + 2) % 3) as u8 == depthm3);
    }
    proof {
        reveal(search_ok);
    }
    proof {
        if !capped && closed@.len() == 0 {
            lemma_expanded_subset(set, table@, with_list(Set::empty(), closed@), Set::empty());
        }
        if filled >= size {
            reveal(search_ok);
            lemma_filled_count_bound(table@, size as nat);
        }
    }
    proof {
        if no_equivalents(set) && !fill_last && depth < 255 {
            reveal(bfs_core);
            if closed@.len() == 0 {
                reveal(closed_layer);
                assert forall|x: int| 0 <= x < size implies !#[trigger] at_layer(set, x, (depth - 1) as nat) by {
                    assert(!in_list(closed@, x));
                }
                assert forall|i: int| 0 <= i < size implies (#[trigger] slot(table@, i) != 3 <==> exists|k: nat|
                    reachable(set, i, k)) by {
                    if exists|k: nat| reachable(set, i, k) {
                        let k = choose|k: nat| reachable(set, i, k);
                        lemma_layer_empty(set, (depth - 1) as nat, i, k);
                        lemma_reachable_mono(set, i, (depth - 2) as nat, (depth - 1) as nat);
                    }
                }
            } else {
                assert(filled >= size);
                assert forall|i: int| 0 <= i < size implies (#[trigger] slot(table@, i) != 3 <==> exists|k: nat|
                    reachable(set, i, k)) by {
                    assert(slot(table@, i) != 3);
                    assert(reachable(set, i, (depth - 1) as nat));
                }
            }
        }
    }
    proof {
        if no_equivalents(set) {
            reveal(closed_layer);
            reveal(bfs_core);
            if depth < 255 && !(fill_last && max_depth >= 2 && depth as nat == max_depth as nat) {
                if closed@.len() == 0 {
                    assert(!capped);
                    assert forall|x: int| 0 <= x < size implies !#[trigger] at_layer(set, x, (depth - 1) as nat) by {
                        assert(!in_list(closed@, x));
                    }
                } else {
                    assert(filled >= size);
                    assert forall|x: int| 0 <= x < size implies #[trigger] reachable(set, x, (depth - 1) as nat) by {
                        assert(slot(table@, x) != 3);
                    }
                }
            }
            assert(stops_at(set, depth as nat, fill_last));
        }
    }
    (table, depth, filled)
}

/// What `generate` promises of a table `t` returned with depth `d`.
pub open spec fn is_generated<S: StateSet>(set: &S, t: Seq<u8>, d: u8, fill_last: bool) -> bool {
    &&& t.len() == table_len(set.spec_size())
    &&& slot(t, set.spec_solved() as int) == 0
    &&& forall|k: int|
        0 <= k < set.syms_spec(set.spec_solved()).len() ==> slot(t, #[trigger] set.syms_spec(set.spec_solved())[k] as int) == 0
    &&& all_accounted(set, t, if fill_last && d == set.spec_max_depth() { Some((d % 3) as u8) } else { None })
    &&& fill_last && d == set.spec_max_depth() ==> is_full(t, set.spec_size())
    &&& d < 255 ==> is_full(t, set.spec_size()) || expanded_except(set, t, Set::empty())
    &&& no_equivalents(set) ==> bfs_table(set, t, d as nat, fill_last)
}

/// The pruning table of one search space.
pub struct PruningTable<S: StateSet> {
    pub set: S,
}

impl<S: StateSet> PruningTable<S> {
    pub fn new(set: S) -> (r: Self)
        ensures
            r.set == set,
    {
        PruningTable { set }
    }

    /// Builds the pruning table of the search space by layered breadth-first
    /// search from the solved state: each newly reached state takes its
    /// distance modulo 3 (first claim wins) together with its equivalent
    /// states, and the next layer is expanded from the newly reached states.
    /// With `fill_last`, the layer before the maximum depth is not expanded;
    /// every slot still undiscovered then takes the maximum depth. Returns the
    /// table and the depth the search stopped at.
    #[verifier::rlimit(100)]
    #[verifier::spinoff_prover]
    pub fn generate(&self, fill_last: bool) -> (r: (Vec<u8>, u8))
        requires
            self.set.wf(),
        ensures
            r.0@.len() == table_len(self.set.spec_size()),
            slot(r.0@, self.set.spec_solved() as int) == 0,
            forall|k: int|
                0 <= k < self.set.syms_spec(self.set.spec_solved()).len() ==> slot(
                    r.0@,
                    #[trigger] self.set.syms_spec(self.set.spec_solved())[k] as int,
                ) == 0,
            forall|i: int| 0 <= i < self.set.spec_size() ==> #[trigger] slot(r.0@, i) <= 3,
            all_accounted(
                &self.set,
                r.0@,
                if fill_last && r.1 == self.set.spec_max_depth() { Some((r.1 % 3) as u8) } else { None },
            ),
            fill_last && r.1 == self.set.spec_max_depth() ==> is_full(r.0@, self.set.spec_size()),
            no_equivalents(&self.set) ==> forall|i: int, k: nat|
                0 <= i < self.set.spec_size() && k < r.1 && #[trigger] at_layer(&self.set, i, k) ==> slot(r.0@, i) == k % 3,
            no_equivalents(&self.set) && !(fill_last && r.1 == self.set.spec_max_depth()) ==> forall|i: int|
                0 <= i < self.set.spec_size() ==> (#[trigger] slot(r.0@, i) != 3 <==> reachable(&self.set, i, (r.1 - 1) as nat)),
            no_equivalents(&self.set) && fill_last && r.1 == self.set.spec_max_depth() ==> forall|i: int|
                0 <= i < self.set.spec_size() && !reachable(&self.set, i, (r.1 - 1) as nat) ==> #[trigger] slot(r.0@, i) == r.1 % 3,
            no_equivalents(&self.set) && !fill_last && r.1 < 255 ==> forall|i: int|
                0 <= i < self.set.spec_size() ==> (#[trigger] slot(r.0@, i) != 3 <==> exists|k: nat| reachable(&self.set, i, k)),
            no_equivalents(&self.set) && r.1 == 255 && !(fill_last && r.1 == self.set.spec_max_depth()) ==> exists|x: int|
                0 <= x < self.set.spec_size() && #[trigger] at_layer(&self.set, x, 253),
            no_equivalents(&self.set) ==> r.1 >= 1 && stops_at(&self.set, r.1 as nat, fill_last) && forall|e: nat|
                1 <= e < r.1 ==> !#[trigger] stops_at(&self.set, e, fill_last),
            no_equivalents(&self.set) ==> bfs_table(&self.set, r.0@, r.1 as nat, fill_last),
            is_generated(&self.set, r.0@, r.1, fill_last),
            r.1 < 255 ==> is_full(r.0@, self.set.spec_size()) || expanded_except(&self.set, r.0@, Set::empty()),
    {
        let set = &self.set;
        let size = set.size();
        let max_depth = set.max_depth();
        let (mut table, depth, filled) = run_search(set, fill_last);
        let ghost pre_fill = table@;
        let ghost fill_value: Option<u8> = if fill_last && depth as nat == max_depth as nat {
            Some((depth % 3) as u8)
        } else {
            None
        };
        if depth == max_depth && filled < size && fill_last {
            let depthm3 = depth % 3;
            proof {
                reveal(search_ok);
                assert forall|i: int| 0 <= i < set.spec_size() && #[trigger] slot(table@, i) != 3 implies accounts_for(
                    set, table@, i, slot(table@, i), fill_value) by {
                    assert(accounts_for(set, table@, i, slot(table@, i), None));
                }
            }
            proof {
                reveal(search_ok);
                if !(exists|w: int| 0 <= w < size && #[trigger] slot(table@, w) == 3) {
                    assert forall|w: int| 0 <= w < size implies #[trigger] slot(table@, w) != 3 by {
                        if slot(table@, w) == 3 {
                            assert(0 <= w < size && slot(table@, w) == 3);
                        }
                    }
                    lemma_filled_count_full(table@, size as nat);
                    assert(false);
                }
                if no_equivalents(set) {
                    reveal(bfs_core);
                    let w = choose|w: int| 0 <= w < size && #[trigger] slot(table@, w) == 3;
                    assert(!reachable(set, w, (depth - 1) as nat));
                    assert(fills(set, depth as nat, fill_last));
                }
            }
            fill_rest(set, &mut table, depthm3, Ghost(fill_value));
        } else {
            proof {
                if fill_last && depth == max_depth {
                    lemma_filled_count_bound(table@, size as nat);
                }
            }
        }
        proof {
            if no_equivalents(set) {
                reveal(bfs_core);
                assert forall|i: int, k: nat| 0 <= i < size && k < depth && #[trigger] at_layer(set, i, k) implies slot(table@, i) == k % 3 by {
                    assert(slot(pre_fill, i) == k % 3);
                }
                if fill_last && depth == max_depth {
                    assert forall|i: int| 0 <= i < size && !reachable(set, i, (depth - 1) as nat) implies #[trigger] slot(table@, i) == depth % 3 by {
                        assert(slot(pre_fill, i) == 3);
                    }
                }
                let fv: u8 = if fills(set, depth as nat, fill_last) { (depth % 3) as u8 } else { 3u8 };
                if fills(set, depth as nat, fill_last) {
                    let w = choose|w: int| 0 <= w < size && !#[trigger] reachable(set, w, (depth - 1) as nat);
                    assert(slot(pre_fill, w) == 3);
                    assert(filled_count(pre_fill, size as nat) < size) by {
                        lemma_filled_count_bound(pre_fill, size as nat);
                    }
                }
                assert forall|i: int| 0 <= i < size && !reachable(set, i, (depth - 1) as nat) implies #[trigger] slot(table@, i) == fv by {
                    assert(slot(pre_fill, i) == 3);
                }
                assert forall|j: int| size <= j < 4 * table@.len() implies #[trigger] slot(table@, j) == fv by {
                    assert(slot(pre_fill, j) == 3);
                }
            }
        }
        proof {
            assert forall|i: int| 0 <= i < size implies #[trigger] slot(table@, i) <= 3 by {
                let e = (2 * (i % 4)) as u8;
                let byte = table@[i / 4];
                assert((byte >> e) & 3u8 <= 3u8) by (bit_vector);
            }
            if fill_last && depth == max_depth {
                assert forall|i: int| 0 <= i < size implies #[trigger] slot(table@, i) != 3 by {
                    if filled < size {
                        assert(i < 4 * pre_fill.len());
                    } else {
                        assert(slot(pre_fill, i) != 3);
                    }
                }
            }
            reveal(search_ok);
            assert(slot(pre_fill, set.spec_solved() as int) == 0);
            let sv = set.syms_spec(set.spec_solved());
            assert forall|k: int| 0 <= k < sv.len() implies slot(table@, #[trigger] sv[k] as int) == 0 by {
                assert(sv[k] < size && slot(pre_fill, sv[k] as int) == 0);
            }
        }
        (table, depth)
    }
}

proof fn lemma_filled_count_zero(t: Seq<u8>, k: nat)
    requires
        forall|j: int| 0 <= j < k ==> slot(t, j) == 3,
    ensures
        filled_count(t, k) == 0,
    decreases k,
{
    if k > 0 {
        lemma_filled_count_zero(t, (k - 1) as nat);
    }
}

/// State `i` is reached from the solved state in at most `k` moves.
pub open spec fn reachable<S: StateSet>(set: &S, i: int, k: nat) -> bool
    decreases k,
{
    if k == 0 {
        i == set.spec_solved()
    } else {
        reachable(set, i, (k - 1) as nat) || exists|c: int, m: int|
            0 <= c < set.spec_size() && 0 <= m < set.next_spec(c as nat).len() && #[trigger] set.next_spec(
                c as nat,
            )[m] as int == i && i < set.spec_size() && reachable(set, c, (k - 1) as nat)
    }
}

/// Table completeness: in a table that `generate` returned with a depth
/// below 255, over a search space where no state is an equivalent of
/// another, every state reachable from the solved state is filled.
pub proof fn lemma_reachable_filled<S: StateSet>(set: &S, t: Seq<u8>, i: int, k: nat)
    requires
        is_full(t, set.spec_size()) || expanded_except(set, t, Set::empty()),
        set.spec_solved() < set.spec_size(),
        slot(t, set.spec_solved() as int) != 3,
        forall|j: int| !#[trigger] is_equivalent(set, j),
        reachable(set, i, k),
        0 <= i < set.spec_size(),
    ensures
        slot(t, i) != 3,
    decreases k,
{
    if !is_full(t, set.spec_size()) && k > 0 {
        if reachable(set, i, (k - 1) as nat) {
            lemma_reachable_filled(set, t, i, (k - 1) as nat);
        } else {
            let (c, m) = choose|c: int, m: int|
                0 <= c < set.spec_size() && 0 <= m < set.next_spec(c as nat).len() && #[trigger] set.next_spec(
                    c as nat,
                )[m] as int == i && i < set.spec_size() && reachable(set, c, (k - 1) as nat);
            lemma_reachable_filled(set, t, c, (k - 1) as nat);
            reveal(expanded_except);
            assert(!is_equivalent(set, c));
            assert(set.next_spec(c as nat)[m] < set.spec_size());
        }
    }
}

} // verus!
