//! Composition of piece arrays with move and symmetry data: permutations of
//! positions and orientation flags combined by equality (addition over a
//! two-element group).

use vstd::prelude::*;
use vstd::set_lib::*;

verus! {

/// Every entry is a position of the array, and no two entries are equal.
pub open spec fn is_perm(p: Seq<u8>) -> bool {
    &&& forall|i: int| 0 <= i < p.len() ==> (#[trigger] p[i]) < p.len()
    &&& forall|i: int, j: int| 0 <= i < p.len() && 0 <= j < p.len() && i != j ==> p[i] != p[j]
}

/// The position that `p` sends to `j`.
pub open spec fn perm_index(p: Seq<u8>, j: int) -> int {
    choose|i: int| 0 <= i < p.len() && p[i] == j
}

/// Pieces moved along `p`: the piece at `i` goes to `p[i]`.
pub open spec fn permuted(a: Seq<u8>, p: Seq<u8>) -> Seq<u8> {
    Seq::new(p.len(), |j: int| a[perm_index(p, j)])
}

/// Pieces moved back along `p`: position `i` takes the piece at `p[i]`.
pub open spec fn unpermuted(a: Seq<u8>, p: Seq<u8>) -> Seq<u8> {
    Seq::new(p.len(), |i: int| a[p[i] as int])
}

/// Orientation flags moved along `p`, each combined with the move's flag.
pub open spec fn reoriented(co: Seq<bool>, p: Seq<u8>, o: Seq<bool>) -> Seq<bool> {
    Seq::new(p.len(), |j: int| co[perm_index(p, j)] == o[perm_index(p, j)])
}

/// Orientation flags moved back along `p`, each combined with the move's flag.
pub open spec fn unreoriented(co: Seq<bool>, p: Seq<u8>, o: Seq<bool>) -> Seq<bool> {
    Seq::new(p.len(), |i: int| co[p[i] as int] == o[i])
}

/// Conjugation of a permutation by `p`: positions and pieces are relabelled alike.
pub open spec fn conjugated(a: Seq<u8>, p: Seq<u8>) -> Seq<u8> {
    Seq::new(p.len(), |j: int| p[a[perm_index(p, j)] as int])
}

/// Conjugation of orientation flags by a symmetry with permutation `p` and flags `o`.
pub open spec fn conjugated_flags(co: Seq<bool>, a: Seq<u8>, p: Seq<u8>, o: Seq<bool>) -> Seq<
    bool,
> {
    Seq::new(
        p.len(),
        |j: int| (co[perm_index(p, j)] == o[perm_index(p, j)]) == o[a[perm_index(p, j)] as int],
    )
}

/// The inverse permutation: position `a[i]` holds `i`.
pub open spec fn inverted(a: Seq<u8>) -> Seq<u8> {
    Seq::new(a.len(), |j: int| perm_index(a, j) as u8)
}

/// Flags of the inverse: position `a[i]` holds the flag of `i`.
pub open spec fn inverted_flags(co: Seq<bool>, a: Seq<u8>) -> Seq<bool> {
    Seq::new(a.len(), |j: int| co[perm_index(a, j)])
}

/// Each position of a permutation is the image of exactly one position.
pub proof fn lemma_perm_onto(p: Seq<u8>)
    requires
        is_perm(p),
    ensures
        forall|j: int|
            0 <= j < p.len() ==> {
                let i = #[trigger] perm_index(p, j);
                0 <= i < p.len() && p[i] == j
            },
        forall|i: int| 0 <= i < p.len() ==> #[trigger] perm_index(p, p[i] as int) == i,
{
    let q = p.map_values(|x: u8| x as int);
    assert(q.no_duplicates());
    q.unique_seq_to_set();
    lemma_int_range(0, p.len() as int);
    assert(q.to_set().subset_of(set_int_range(0, p.len() as int))) by {
        assert forall|v: int| q.to_set().contains(v) implies set_int_range(
            0,
            p.len() as int,
        ).contains(v) by {
            assert(q.contains(v));
        }
    }
    lemma_subset_equality(q.to_set(), set_int_range(0, p.len() as int));
    assert forall|j: int| 0 <= j < p.len() implies {
        let i = #[trigger] perm_index(p, j);
        0 <= i < p.len() && p[i] == j
    } by {
        assert(set_int_range(0, p.len() as int).contains(j));
        assert(q.to_set().contains(j));
        assert(q.contains(j));
        let k = choose|k: int| 0 <= k < q.len() && q[k] == j;
        assert(p[k] == j);
    }
    assert forall|i: int| 0 <= i < p.len() implies #[trigger] perm_index(p, p[i] as int) == i by {
        let k = perm_index(p, p[i] as int);
        assert(0 <= k < p.len() && p[k] == p[i]);
    }
}

/// Moving pieces along a permutation keeps a permutation.
pub proof fn lemma_permuted_is_perm(a: Seq<u8>, p: Seq<u8>)
    requires
        is_perm(a),
        is_perm(p),
        a.len() == p.len(),
    ensures
        is_perm(permuted(a, p)),
{
    lemma_perm_onto(p);
    let r = permuted(a, p);
    assert forall|i: int, j: int|
        0 <= i < r.len() && 0 <= j < r.len() && i != j implies r[i] != r[j] by {
        assert(p[perm_index(p, i)] == i && p[perm_index(p, j)] == j);
    }
}

pub proof fn lemma_unpermuted_is_perm(a: Seq<u8>, p: Seq<u8>)
    requires
        is_perm(a),
        is_perm(p),
        a.len() == p.len(),
    ensures
        is_perm(unpermuted(a, p)),
{
}

pub proof fn lemma_conjugated_is_perm(a: Seq<u8>, p: Seq<u8>)
    requires
        is_perm(a),
        is_perm(p),
        a.len() == p.len(),
    ensures
        is_perm(conjugated(a, p)),
{
    lemma_perm_onto(p);
    let r = conjugated(a, p);
    assert forall|i: int, j: int|
        0 <= i < r.len() && 0 <= j < r.len() && i != j implies r[i] != r[j] by {
        assert(p[perm_index(p, i)] == i && p[perm_index(p, j)] == j);
    }
}

pub proof fn lemma_inverted_is_perm(a: Seq<u8>)
    requires
        is_perm(a),
        a.len() <= 256,
    ensures
        is_perm(inverted(a)),
{
    lemma_perm_onto(a);
    let r = inverted(a);
    assert forall|i: int, j: int|
        0 <= i < r.len() && 0 <= j < r.len() && i != j implies r[i] != r[j] by {
        assert(a[perm_index(a, i)] == i && a[perm_index(a, j)] == j);
    }
}

/// Moving pieces along `p` and then back along `p` restores them.
pub proof fn lemma_unpermuted_permuted(a: Seq<u8>, p: Seq<u8>)
    requires
        is_perm(p),
        a.len() == p.len(),
    ensures
        unpermuted(permuted(a, p), p) == a,
{
    lemma_perm_onto(p);
    assert(unpermuted(permuted(a, p), p) =~= a);
}

/// Moving flags along a move and then back restores them.
pub proof fn lemma_unreoriented_reoriented(co: Seq<bool>, p: Seq<u8>, o: Seq<bool>)
    requires
        is_perm(p),
        co.len() == p.len(),
        o.len() == p.len(),
    ensures
        unreoriented(reoriented(co, p, o), p, o) == co,
{
    lemma_perm_onto(p);
    assert(unreoriented(reoriented(co, p, o), p, o) =~= co);
}

/// Moves the pieces of `a` along `p`.
pub fn permute<const N: usize>(a: &[u8; N], p: &[u8; N]) -> (r: [u8; N])
    requires
        is_perm(p@),
    ensures
        r@ == permuted(a@, p@),
{
    let mut r = *a;
    let mut i: usize = 0;
    while i < N
        invariant
            i <= N,
            r@.len() == N,
            a@.len() == N,
            p@.len() == N,
            is_perm(p@),
            forall|k: int| 0 <= k < i ==> r@[#[trigger] p@[k] as int] == a@[k],
        decreases N - i,
    {
        r[p[i] as usize] = a[i];
        i += 1;
    }
    proof {
        lemma_perm_onto(p@);
    }
    assert(r@ =~= permuted(a@, p@));
    r
}

/// Moves the pieces of `a` back along `p`.
pub fn unpermute<const N: usize>(a: &[u8; N], p: &[u8; N]) -> (r: [u8; N])
    requires
        is_perm(p@),
    ensures
        r@ == unpermuted(a@, p@),
{
    let mut r = *a;
    let mut i: usize = 0;
    while i < N
        invariant
            i <= N,
            r@.len() == N,
            a@.len() == N,
            p@.len() == N,
            is_perm(p@),
            forall|k: int| 0 <= k < i ==> r@[k] == a@[p@[k] as int],
        decreases N - i,
    {
        r[i] = a[p[i] as usize];
        i += 1;
    }
    assert(r@ =~= unpermuted(a@, p@));
    r
}

/// Moves the flags of `co` along `p`, combining each with the flag of `o`.
pub fn reorient<const N: usize>(co: &[bool; N], p: &[u8; N], o: &[bool; N]) -> (r: [bool; N])
    requires
        is_perm(p@),
    ensures
        r@ == reoriented(co@, p@, o@),
{
    let mut r = *co;
    let mut i: usize = 0;
    while i < N
        invariant
            i <= N,
            r@.len() == N,
            co@.len() == N,
            o@.len() == N,
            p@.len() == N,
            is_perm(p@),
            forall|k: int| 0 <= k < i ==> r@[#[trigger] p@[k] as int] == (co@[k] == o@[k]),
        decreases N - i,
    {
        r[p[i] as usize] = co[i] == o[i];
        i += 1;
    }
    proof {
        lemma_perm_onto(p@);
    }
    assert(r@ =~= reoriented(co@, p@, o@));
    r
}

/// Moves the flags of `co` back along `p`, combining each with the flag of `o`.
pub fn unreorient<const N: usize>(co: &[bool; N], p: &[u8; N], o: &[bool; N]) -> (r: [bool; N])
    requires
        is_perm(p@),
    ensures
        r@ == unreoriented(co@, p@, o@),
{
    let mut r = *co;
    let mut i: usize = 0;
    while i < N
        invariant
            i <= N,
            r@.len() == N,
            co@.len() == N,
            o@.len() == N,
            p@.len() == N,
            is_perm(p@),
            forall|k: int| 0 <= k < i ==> r@[k] == (co@[p@[k] as int] == o@[k]),
        decreases N - i,
    {
        r[i] = co[p[i] as usize] == o[i];
        i += 1;
    }
    assert(r@ =~= unreoriented(co@, p@, o@));
    r
}

/// Conjugates the permutation `a` by `p`.
pub fn conjugate<const N: usize>(a: &[u8; N], p: &[u8; N]) -> (r: [u8; N])
    requires
        is_perm(p@),
        is_perm(a@),
    ensures
        r@ == conjugated(a@, p@),
{
    let mut r = *a;
    let mut i: usize = 0;
    while i < N
        invariant
            i <= N,
            r@.len() == N,
            a@.len() == N,
            p@.len() == N,
            is_perm(p@),
            is_perm(a@),
            forall|k: int| 0 <= k < i ==> r@[#[trigger] p@[k] as int] == p@[a@[k] as int],
        decreases N - i,
    {
        r[p[i] as usize] = p[a[i] as usize];
        i += 1;
    }
    proof {
        lemma_perm_onto(p@);
    }
    assert(r@ =~= conjugated(a@, p@));
    r
}

/// Conjugates the flags `co` of the permutation `a` by a symmetry `(p, o)`.
pub fn conjugate_flags<const N: usize>(co: &[bool; N], a: &[u8; N], p: &[u8; N], o: &[bool; N]) -> (r: [bool; N])
    requires
        is_perm(p@),
        is_perm(a@),
    ensures
        r@ == conjugated_flags(co@, a@, p@, o@),
{
    let mut r = *co;
    let mut i: usize = 0;
    while i < N
        invariant
            i <= N,
            r@.len() == N,
            a@.len() == N,
            co@.len() == N,
            o@.len() == N,
            p@.len() == N,
            is_perm(p@),
            is_perm(a@),
            forall|k: int|
                0 <= k < i ==> r@[#[trigger] p@[k] as int] == ((co@[k] == o@[k]) == o@[a@[k] as int]),
        decreases N - i,
    {
        r[p[i] as usize] = (co[i] == o[i]) == o[a[i] as usize];
        i += 1;
    }
    proof {
        lemma_perm_onto(p@);
    }
    assert(r@ =~= conjugated_flags(co@, a@, p@, o@));
    r
}

/// The inverse of the permutation `a`.
pub fn invert<const N: usize>(a: &[u8; N]) -> (r: [u8; N])
    requires
        is_perm(a@),
        N <= 256,
    ensures
        r@ == inverted(a@),
{
    let mut r = *a;
    let mut i: usize = 0;
    while i < N
        invariant
            i <= N <= 256,
            r@.len() == N,
            a@.len() == N,
            is_perm(a@),
            forall|k: int| 0 <= k < i ==> r@[#[trigger] a@[k] as int] == k as u8,
        decreases N - i,
    {
        r[a[i] as usize] = i as u8;
        i += 1;
    }
    proof {
        lemma_perm_onto(a@);
    }
    assert(r@ =~= inverted(a@));
    r
}

/// The flags of the inverse of the permutation `a`.
pub fn invert_flags<const N: usize>(co: &[bool; N], a: &[u8; N]) -> (r: [bool; N])
    requires
        is_perm(a@),
    ensures
        r@ == inverted_flags(co@, a@),
{
    let mut r = *co;
    let mut i: usize = 0;
    while i < N
        invariant
            i <= N,
            r@.len() == N,
            a@.len() == N,
            co@.len() == N,
            is_perm(a@),
            forall|k: int| 0 <= k < i ==> r@[#[trigger] a@[k] as int] == co@[k],
        decreases N - i,
    {
        r[a[i] as usize] = co[i];
        i += 1;
    }
    proof {
        lemma_perm_onto(a@);
    }
    assert(r@ =~= inverted_flags(co@, a@));
    r
}

/// Moving pieces back along `p` and then along `p` restores them.
pub proof fn lemma_permuted_unpermuted(a: Seq<u8>, p: Seq<u8>)
    requires
        is_perm(p),
        a.len() == p.len(),
    ensures
        permuted(unpermuted(a, p), p) == a,
{
    lemma_perm_onto(p);
    assert(permuted(unpermuted(a, p), p) =~= a);
}

/// Moving flags back along a move and then along it restores them.
pub proof fn lemma_reoriented_unreoriented(co: Seq<bool>, p: Seq<u8>, o: Seq<bool>)
    requires
        is_perm(p),
        co.len() == p.len(),
        o.len() == p.len(),
    ensures
        reoriented(unreoriented(co, p, o), p, o) == co,
{
    lemma_perm_onto(p);
    assert forall|j: int| 0 <= j < p.len() implies #[trigger] reoriented(unreoriented(co, p, o), p, o)[j] == co[j] by {
        let i = perm_index(p, j);
        assert(p[i] == j);
    }
    assert(reoriented(unreoriented(co, p, o), p, o) =~= co);
}

} // verus!
