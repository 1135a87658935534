//! Dense indices of piece arrays: Lehmer-code ranking of permutations with the
//! parity constraint, binary ranking of orientations, and the bit layout of
//! turn and symmetry identifiers.

use vstd::prelude::*;

verus! {

/// Number of entries of `s` that are greater than `v`.
pub open spec fn count_greater(s: Seq<u8>, v: u8) -> nat
    decreases s.len(),
{
    if s.len() == 0 {
        0
    } else {
        count_greater(s.drop_last(), v) + (if s.last() > v { 1nat } else { 0nat })
    }
}

/// The Lehmer digit at position `i`: how many earlier entries are greater.
pub open spec fn lehmer_digit(s: Seq<u8>, i: int) -> nat {
    count_greater(s.take(i), s[i])
}

/// Weight of the digit at position `i`: `i! / 2` (and 1 below position 3).
pub open spec fn rank_weight(i: nat) -> nat
    decreases i,
{
    if i <= 2 {
        1
    } else {
        rank_weight((i - 1) as nat) * i
    }
}

/// Rank contributed by the digits at positions `2 .. k`.
pub open spec fn perm_rank_prefix(s: Seq<u8>, k: nat) -> nat
    decreases k,
{
    if k <= 2 {
        0
    } else {
        perm_rank_prefix(s, (k - 1) as nat) + lehmer_digit(s, k - 1) * rank_weight((k - 1) as nat)
    }
}

/// Rank of a permutation in the factorial number system, where the first two
/// positions carry no digit (their order follows from the parity).
pub open spec fn perm_rank(s: Seq<u8>) -> nat {
    perm_rank_prefix(s, s.len())
}

/// Value of a sequence of flags read as binary digits, most significant first,
/// where an oriented flag is a 0 digit.
pub open spec fn flags_value(s: Seq<bool>) -> nat
    decreases s.len(),
{
    if s.len() == 0 {
        0
    } else {
        flags_value(s.drop_last()) * 2 + (if s.last() { 0nat } else { 1nat })
    }
}

/// Rank of an orientation array: every flag but the first, whose value follows
/// from the even number of flipped flags.
pub open spec fn orientation_rank(s: Seq<bool>) -> nat {
    flags_value(s.drop_first())
}

pub proof fn lemma_count_greater_bound(s: Seq<u8>, v: u8)
    ensures
        count_greater(s, v) <= s.len(),
    decreases s.len(),
{
    if s.len() > 0 {
        lemma_count_greater_bound(s.drop_last(), v);
    }
}

pub proof fn lemma_rank_weight_mono(i: nat, j: nat)
    requires
        i <= j,
    ensures
        1 <= rank_weight(i) <= rank_weight(j),
    decreases j,
{
    if i < j {
        lemma_rank_weight_mono(i, (j - 1) as nat);
        if j > 2 {
            assert(rank_weight((j - 1) as nat) * j >= rank_weight((j - 1) as nat)) by (nonlinear_arith)
                requires
                    j > 2,
            ;
        }
    } else {
        if i > 2 {
            lemma_rank_weight_mono(0, (i - 1) as nat);
            assert(rank_weight((i - 1) as nat) * i >= 1) by (nonlinear_arith)
                requires
                    i > 2,
                    rank_weight((i - 1) as nat) >= 1,
            ;
        }
    }
}

/// The permutation ranks of `k` positions stay below the weight of position `k`.
pub proof fn lemma_perm_rank_prefix_bound(s: Seq<u8>, k: nat)
    requires
        k <= s.len(),
    ensures
        perm_rank_prefix(s, k) < rank_weight(k),
    decreases k,
{
    if k > 2 {
        lemma_perm_rank_prefix_bound(s, (k - 1) as nat);
        lemma_count_greater_bound(s.take(k - 1), s[k - 1]);
        let d = lehmer_digit(s, k - 1);
        let w = rank_weight((k - 1) as nat);
        let p = perm_rank_prefix(s, (k - 1) as nat);
        assert(p + d * w < w * k) by (nonlinear_arith)
            requires
                p < w,
                d <= k - 1,
        ;
    }
}

pub proof fn lemma_rank_weight_twelve()
    ensures
        rank_weight(12) == 239500800,
{
    reveal_with_fuel(rank_weight, 12);
}

pub proof fn lemma_flags_value_bound(s: Seq<bool>)
    ensures
        flags_value(s) < pow2(s.len()),
    decreases s.len(),
{
    reveal(pow2);
    if s.len() > 0 {
        lemma_flags_value_bound(s.drop_last());
    }
}

pub open spec fn pow2(n: nat) -> nat
    decreases n,
{
    if n == 0 {
        1
    } else {
        2 * pow2((n - 1) as nat)
    }
}

/// Rank of a permutation: the Lehmer digits of positions 2 and above, weighted
/// by descending factorials halved.
pub fn hash_permutation(arr: &[u8]) -> (r: usize)
    requires
        arr@.len() <= 20,
        rank_weight(arr@.len()) <= usize::MAX + 1,
    ensures
        r == perm_rank(arr@),
        arr@.len() >= 2 ==> r < rank_weight(arr@.len()),
{
    let mut acc: usize = 0;
    let mut factor: usize = 1;
    let mut index: usize = 0;
    while index < arr.len()
        invariant
            index <= arr@.len() <= 20,
            acc == perm_rank_prefix(arr@, index as nat),
            factor == rank_weight(if index > 0 { (index - 1) as nat } else { 0 }),
            rank_weight(arr@.len()) <= usize::MAX + 1,
        decreases arr@.len() - index,
    {
        if index > 1 {
            if index != 2 {
                proof {
                    lemma_rank_weight_mono(index as nat, arr@.len());
                    if index + 1 < arr@.len() {
                        lemma_rank_weight_mono((index + 1) as nat, arr@.len());
                    }
                    assert(rank_weight(index as nat) == rank_weight((index - 1) as nat) * index);
                    assert(rank_weight(index as nat) <= usize::MAX) by {
                        if index + 1 <= arr@.len() {
                            lemma_rank_weight_mono((index + 1) as nat, arr@.len());
                            lemma_rank_weight_mono(index as nat, index as nat);
                            assert(rank_weight((index + 1) as nat) == rank_weight(index as nat) * (index + 1));
                            assert(rank_weight(index as nat) * (index + 1) >= rank_weight(index as nat) * 2) by (nonlinear_arith)
                                requires index >= 1;
                        }
                    }
                }
                factor *= index;
            }
            let mut higher: usize = 0;
            let mut j: usize = 0;
            while j < index
                invariant
                    j <= index < arr@.len(),
                    higher == count_greater(arr@.take(j as int), arr@[index as int]),
                    higher <= j,
                decreases index - j,
            {
                assert(arr@.take(j + 1).drop_last() == arr@.take(j as int));
                if arr[j] > arr[index] {
                    higher += 1;
                }
                j += 1;
            }
            proof {
                lemma_perm_rank_prefix_bound(arr@, (index + 1) as nat);
                lemma_rank_weight_mono((index + 1) as nat, arr@.len());
            }
            acc += higher * factor;
        }
        index += 1;
    }
    assert(arr@.take(arr@.len() as int) == arr@);
    proof {
        lemma_perm_rank_prefix_bound(arr@, arr@.len());
    }
    acc
}

/// Rank of an orientation array: binary digits of every flag but the first.
pub fn hash_orientation(arr: &[bool]) -> (r: usize)
    requires
        1 <= arr@.len() <= 33,
    ensures
        r == orientation_rank(arr@),
{
    let mut acc: usize = 0;
    let mut i: usize = 1;
    while i < arr.len()
        invariant
            1 <= i <= arr@.len() <= 33,
            acc == flags_value(arr@.subrange(1, i as int)),
        decreases arr@.len() - i,
    {
        proof {
            let s = arr@.subrange(1, i + 1);
            assert(s.drop_last() == arr@.subrange(1, i as int));
            lemma_flags_value_bound(s);
            lemma_pow2_32();
            lemma_pow2_mono((i as nat), 32);
        }
        acc = if arr[i] { acc * 2 } else { acc * 2 + 1 };
        i += 1;
    }
    assert(arr@.subrange(1, arr@.len() as int) == arr@.drop_first());
    acc
}

pub proof fn lemma_pow2_pos(n: nat)
    ensures
        pow2(n) >= 1,
    decreases n,
{
    if n > 0 {
        lemma_pow2_pos((n - 1) as nat);
    }
}

pub proof fn lemma_pow2_32()
    ensures
        pow2(32) == 0x1_0000_0000,
{
    reveal_with_fuel(pow2, 33);
}

pub proof fn lemma_pow2_mono(a: nat, b: nat)
    requires
        a <= b,
    ensures
        pow2(a) <= pow2(b),
    decreases b,
{
    if a < b {
        lemma_pow2_mono(a, (b - 1) as nat);
    }
}

/// A turn identifier splits into its face (`turn / 2`) and its direction
/// (clockwise when even).
pub fn unwrap_turn(turn: u8) -> (r: (u8, bool))
    ensures
        r.0 == turn / 2,
        r.1 == (turn % 2 == 0),
{
    assert((turn >> 1u8) == turn / 2 && ((turn & 1u8) == 0) == (turn % 2 == 0)) by (bit_vector);
    (turn >> 1, turn & 1 == 0)
}

/// The pieces `n - 1, ..., 1, 0`, in descending order.
pub open spec fn descending(n: nat) -> Seq<u8> {
    Seq::new(n, |i: int| (n - 1 - i) as u8)
}

/// The Lehmer digit of position `k` encoded in `hash`.
pub open spec fn unrank_digit(hash: nat, k: nat) -> nat {
    (hash / rank_weight(k)) % (k + 1)
}

/// The pieces still to place, in descending order, once positions
/// `k .. n` have each taken the remaining piece at their digit.
pub open spec fn remaining_pieces(hash: nat, n: nat, k: nat) -> Seq<u8>
    decreases n - k,
{
    if k >= n {
        descending(n)
    } else {
        remaining_pieces(hash, n, k + 1).remove(unrank_digit(hash, k) as int)
    }
}

/// Sum of the digits of positions `k .. n`.
pub open spec fn digit_sum(hash: nat, n: nat, k: nat) -> nat
    decreases n - k,
{
    if k >= n {
        0
    } else {
        unrank_digit(hash, k) + digit_sum(hash, n, k + 1)
    }
}

/// The permutation of rank `hash` whose inversion count is even: position
/// `k >= 2` takes the remaining piece at its digit; of the last two pieces the
/// smaller goes first exactly when the digits sum to an even number.
pub open spec fn perm_unrank(hash: nat, n: nat) -> Seq<u8> {
    Seq::new(
        n,
        |pos: int|
            if pos >= 2 {
                remaining_pieces(hash, n, (pos + 1) as nat)[unrank_digit(hash, pos as nat) as int]
            } else if (digit_sum(hash, n, 2) % 2 == 0) == (pos == 0) {
                remaining_pieces(hash, n, 2)[1]
            } else {
                remaining_pieces(hash, n, 2)[0]
            },
    )
}

/// The orientation flags of rank `hash` over `n` flags: flag `j >= 1` is the
/// binary digit of weight `2^(n-1-j)` (0 meaning oriented); flag 0 makes the
/// number of flipped flags even.
pub open spec fn orientation_unrank(hash: nat, n: nat) -> Seq<bool> {
    Seq::new(
        n,
        |j: int|
            if j >= 1 {
                (hash / pow2((n - 1 - j) as nat)) % 2 == 0
            } else {
                flipped_count(hash, n) % 2 == 0
            },
    )
}

/// How many of the flags `1 .. n` of rank `hash` are flipped.
pub open spec fn flipped_count(hash: nat, n: nat) -> nat {
    count_flipped(Seq::new((n - 1) as nat, |j: int| (hash / pow2((n - 2 - j) as nat)) % 2 == 0))
}

/// Number of false flags.
pub open spec fn count_flipped(s: Seq<bool>) -> nat
    decreases s.len(),
{
    if s.len() == 0 {
        0
    } else {
        count_flipped(s.drop_last()) + (if s.last() { 0nat } else { 1nat })
    }
}

proof fn lemma_digit_step(h: nat, w: nat, m: nat)
    requires
        w > 0,
        m > 0,
    ensures
        (h % (w * m)) / w == (h / w) % m,
        (h % (w * m)) % w == h % w,
{
    vstd::arithmetic::div_mod::lemma_mod_breakdown(h as int, w as int, m as int);
    let q = (h / w) % m;
    let r = h % w;
    assert(w * q == q * w) by (nonlinear_arith);
    vstd::arithmetic::div_mod::lemma_fundamental_div_mod_converse(
        (h % (w * m)) as int,
        w as int,
        q as int,
        r as int,
    );
}

/// The permutation of `0 .. n` with rank `hash` and an even inversion count.
pub fn unrank_permutation(hash: usize, n: usize) -> (r: Vec<u8>)
    requires
        3 <= n <= 12,
        hash < rank_weight(n as nat),
    ensures
        r@ == perm_unrank(hash as nat, n as nat),
        crate::perm::is_perm(r@),
{
    proof {
        lemma_rank_weight_twelve();
        lemma_rank_weight_mono(n as nat, 12);
    }
    let mut pieces: Vec<u8> = Vec::new();
    let mut r: Vec<u8> = Vec::new();
    let mut i: usize = 0;
    while i < n
        invariant
            i <= n <= 12,
            pieces@ == descending(n as nat).take(i as int),
            r@.len() == i,
        decreases n - i,
    {
        pieces.push((n - 1 - i) as u8);
        r.push(0);
        i += 1;
        assert(pieces@ =~= descending(n as nat).take(i as int));
    }
    assert(pieces@ =~= descending(n as nat));
    let mut factor: usize = 1;
    let mut j: usize = 3;
    while j < n
        invariant
            3 <= j <= n <= 12,
            factor == rank_weight((j - 1) as nat),
            rank_weight(12) == 239500800,
        decreases n - j,
    {
        proof {
            lemma_rank_weight_mono(j as nat, 12);
        }
        factor *= j;
        j += 1;
    }
    let mut left: usize = hash;
    let mut parity: usize = 0;
    let mut k: usize = n - 1;
    proof {
        assert((hash as nat) % rank_weight(n as nat) == hash as nat) by {
            vstd::arithmetic::div_mod::lemma_small_mod(hash as nat, rank_weight(n as nat));
        }
    }
    while k >= 2
        invariant
            1 <= k < n <= 12,
            left == (hash as nat) % rank_weight((k + 1) as nat),
            factor == rank_weight(k as nat),
            pieces@ == remaining_pieces(hash as nat, n as nat, (k + 1) as nat),
            pieces@.len() == k + 1,
            parity == digit_sum(hash as nat, n as nat, (k + 1) as nat),
            parity <= 12 * (n - 1 - k),
            r@.len() == n,
            forall|pos: int|
                k < pos < n ==> r@[pos] == #[trigger] perm_unrank(hash as nat, n as nat)[pos],
            (pieces@ + r@.subrange(k + 1, n as int)).no_duplicates(),
            forall|i: int|
                0 <= i < n ==> (#[trigger] (pieces@ + r@.subrange(k + 1, n as int))[i]) < n,
        decreases k,
    {
        let ghost pool = pieces@ + r@.subrange(k + 1, n as int);
        proof {
            lemma_rank_weight_mono(0, k as nat);
            lemma_digit_step(hash as nat, rank_weight(k as nat), (k + 1) as nat);
        }
        let p = left / factor;
        assert(p == unrank_digit(hash as nat, k as nat));
        left = left % factor;
        parity += p;
        let piece = pieces.remove(p);
        r.set(k, piece);
        proof {
            let pool2 = pieces@ + r@.subrange(k as int, n as int);
            assert forall|i: int| 0 <= i < n implies #[trigger] pool2[i] == pool[if i < p {
                i
            } else if i < k {
                i + 1
            } else if i == k {
                p as int
            } else {
                i
            }] by {}
            assert forall|i: int, j: int|
                0 <= i < pool2.len() && 0 <= j < pool2.len() && i != j implies pool2[i]
                != pool2[j] by {
                assert(pool2[i] == pool[if i < p {
                    i
                } else if i < k {
                    i + 1
                } else if i == k {
                    p as int
                } else {
                    i
                }]);
                assert(pool2[j] == pool[if j < p {
                    j
                } else if j < k {
                    j + 1
                } else if j == k {
                    p as int
                } else {
                    j
                }]);
            }
            assert(pool2.no_duplicates());
        }
        if k > 2 {
            assert(rank_weight(k as nat) / (k as nat) == rank_weight((k - 1) as nat)) by {
                vstd::arithmetic::div_mod::lemma_div_by_multiple(
                    rank_weight((k - 1) as nat) as int,
                    k as int,
                );
            }
            factor = factor / k;
        }
        k -= 1;
    }
    let (first, second) = if parity & 1 == 0 {
        (pieces[1], pieces[0])
    } else {
        (pieces[0], pieces[1])
    };
    assert((parity & 1 == 0) == (parity % 2 == 0)) by (bit_vector);
    let ghost pool = pieces@ + r@.subrange(2, n as int);
    assert(pool.no_duplicates());
    assert(forall|i: int| 0 <= i < n ==> pool[i] < n);
    r.set(0, first);
    r.set(1, second);
    assert(r@ =~= perm_unrank(hash as nat, n as nat));
    proof {
        assert forall|i: int| 0 <= i < n implies r@[i] == pool[if i == 0 {
            if parity % 2 == 0 { 1int } else { 0int }
        } else if i == 1 {
            if parity % 2 == 0 { 0int } else { 1int }
        } else {
            i
        }] by {}
        assert forall|i: int, j: int|
            0 <= i < n && 0 <= j < n && i != j implies r@[i] != r@[j] by {
            assert(r@[i] == pool[if i == 0 {
                if parity % 2 == 0 { 1int } else { 0int }
            } else if i == 1 {
                if parity % 2 == 0 { 0int } else { 1int }
            } else {
                i
            }]);
            assert(r@[j] == pool[if j == 0 {
                if parity % 2 == 0 { 1int } else { 0int }
            } else if j == 1 {
                if parity % 2 == 0 { 0int } else { 1int }
            } else {
                j
            }]);
            assert(pool[0] != pool[1]);
        }
        assert forall|i: int| 0 <= i < n implies #[trigger] r@[i] < n by {
            assert(r@[i] == pool[if i == 0 {
                if parity % 2 == 0 { 1int } else { 0int }
            } else if i == 1 {
                if parity % 2 == 0 { 0int } else { 1int }
            } else {
                i
            }]);
        }
    }
    r
}

/// The six orientation flags of rank `hash`.
pub fn unrank_orientation(hash: usize) -> (r: [bool; 6])
    requires
        hash < 32,
    ensures
        r@ == orientation_unrank(hash as nat, 6),
{
    let mut co = [true, true, true, true, true, true];
    let mut even = true;
    let mut d: usize = 16;
    let mut j: usize = 1;
    let ghost flags = Seq::new(5, |i: int| (hash as nat / pow2((4 - i) as nat)) % 2 == 0);
    proof {
        reveal_with_fuel(pow2, 5);
    }
    while j < 6
        invariant
            1 <= j <= 6,
            co@.len() == 6,
            j < 6 ==> d == pow2((5 - j) as nat),
            flags == Seq::new(5, |i: int| (hash as nat / pow2((4 - i) as nat)) % 2 == 0),
            forall|i: int| 1 <= i < j ==> co@[i] == flags[i - 1],
            even == (count_flipped(flags.take(j - 1)) % 2 == 0),
        decreases 6 - j,
    {
        proof {
            lemma_pow2_pos((5 - j) as nat);
        }
        let o = (hash / d) % 2 == 0;
        assert(o == flags[j - 1]);
        co[j] = o;
        assert(flags.take(j as int).drop_last() == flags.take(j - 1));
        even = even == o;
        if j < 5 {
            assert(pow2((5 - j) as nat) == 2 * pow2((4 - j) as nat));
        }
        d = d / 2;
        j += 1;
    }
    assert(flags.take(5) == flags);
    co[0] = even;
    assert(co@ =~= orientation_unrank(hash as nat, 6));
    co
}

/// The `m` binary digits of `x`, most significant first, as flags (0 meaning oriented).
pub open spec fn digit_flags(x: nat, m: nat) -> Seq<bool> {
    Seq::new(m, |j: int| (x / pow2((m - 1 - j) as nat)) % 2 == 0)
}

proof fn lemma_pow2_div(x: nat, a: nat)
    ensures
        x / pow2(a + 1) == (x / 2) / pow2(a),
{
    lemma_pow2_pos(a);
    vstd::arithmetic::div_mod::lemma_div_denominator(x as int, 2, pow2(a) as int);
    assert(pow2(a + 1) == 2 * pow2(a));
}

/// Reading the flags of the low `m` binary digits of `x` gives back `x mod 2^m`.
proof fn lemma_flags_value_digits(x: nat, m: nat)
    ensures
        flags_value(digit_flags(x, m)) == x % pow2(m),
    decreases m,
{
    reveal_with_fuel(pow2, 2);
    if m == 0 {
        assert(x % 1 == 0);
    } else {
        let t = digit_flags(x, m);
        let u = digit_flags(x / 2, (m - 1) as nat);
        assert forall|j: int| 0 <= j < m - 1 implies t.drop_last()[j] == u[j] by {
            lemma_pow2_div(x, (m - 2 - j) as nat);
            assert((m - 1 - j) as nat == ((m - 2 - j) as nat) + 1);
        }
        assert(t.drop_last() =~= u);
        lemma_flags_value_digits(x / 2, (m - 1) as nat);
        assert(t.last() == ((x / pow2(0)) % 2 == 0));
        assert(pow2(0) == 1);
        assert(x / 1 == x) by (nonlinear_arith);
        lemma_pow2_pos((m - 1) as nat);
        assert(pow2(m) == 2 * pow2((m - 1) as nat));
        vstd::arithmetic::div_mod::lemma_mod_breakdown(x as int, 2, pow2((m - 1) as nat) as int);
        assert(2 * pow2((m - 1) as nat) == pow2((m - 1) as nat) * 2) by (nonlinear_arith);
    }
}

/// The flags of `flags_value(t)` are `t`.
proof fn lemma_digits_of_flags_value(t: Seq<bool>)
    ensures
        digit_flags(flags_value(t), t.len()) == t,
    decreases t.len(),
{
    reveal_with_fuel(pow2, 2);
    if t.len() > 0 {
        let m = t.len();
        let x = flags_value(t);
        let y = flags_value(t.drop_last());
        let b: nat = if t.last() { 0 } else { 1 };
        lemma_digits_of_flags_value(t.drop_last());
        assert(x == y * 2 + b);
        assert(x / 2 == y && x % 2 == b) by {
            vstd::arithmetic::div_mod::lemma_fundamental_div_mod_converse(x as int, 2, y as int, b as int);
        }
        let d = digit_flags(x, m);
        assert forall|j: int| 0 <= j < m implies #[trigger] d[j] == t[j] by {
            if j < m - 1 {
                lemma_pow2_div(x, (m - 2 - j) as nat);
                assert((m - 1 - j) as nat == ((m - 2 - j) as nat) + 1);
                assert(d[j] == digit_flags(y, (m - 1) as nat)[j]);
                assert(t.drop_last()[j] == t[j]);
            } else {
                assert(pow2(0) == 1);
        assert(x / 1 == x) by (nonlinear_arith);
            }
        }
        assert(d =~= t);
    }
}

proof fn lemma_count_flipped_first(s: Seq<bool>)
    requires
        s.len() > 0,
    ensures
        count_flipped(s) == (if s[0] { 0nat } else { 1nat }) + count_flipped(s.drop_first()),
    decreases s.len(),
{
    if s.len() > 1 {
        lemma_count_flipped_first(s.drop_last());
        assert(s.drop_last().drop_first() =~= s.drop_first().drop_last());
        assert(s.drop_first().last() == s.last());
        assert(s.drop_last()[0] == s[0]);
        assert(count_flipped(s.drop_first()) == count_flipped(s.drop_first().drop_last()) + (if s.last() { 0nat } else { 1nat }));
    } else {
        assert(s.drop_first().len() == 0);
        assert(s.drop_last().len() == 0);
        assert(count_flipped(s.drop_last()) == 0);
        assert(count_flipped(s.drop_first()) == 0);
        assert(s.last() == s[0]);
    }
}

/// Ranking the orientation of rank `x` gives back `x`.
pub proof fn lemma_orientation_rank_unrank(x: nat)
    requires
        x < 32,
    ensures
        orientation_rank(orientation_unrank(x, 6)) == x,
{
    reveal_with_fuel(pow2, 6);
    assert(orientation_unrank(x, 6).drop_first() =~= digit_flags(x, 5));
    lemma_flags_value_digits(x, 5);
    vstd::arithmetic::div_mod::lemma_small_mod(x, 32);
}

/// Unranking the rank of six orientation flags with an even number flipped
/// gives back the flags.
pub proof fn lemma_orientation_unrank_rank(c: Seq<bool>)
    requires
        c.len() == 6,
        count_flipped(c) % 2 == 0,
    ensures
        orientation_unrank(orientation_rank(c), 6) == c,
{
    let t = c.drop_first();
    let x = flags_value(t);
    lemma_digits_of_flags_value(t);
    assert(digit_flags(x, 5) == t);
    let u = orientation_unrank(x, 6);
    assert(Seq::new(5, |j: int| (x / pow2((4 - j) as nat)) % 2 == 0) =~= digit_flags(x, 5));
    lemma_count_flipped_first(c);
    assert forall|j: int| 0 <= j < 6 implies #[trigger] u[j] == c[j] by {
        if j >= 1 {
            assert(digit_flags(x, 5)[j - 1] == t[j - 1]);
        }
    }
    assert(u =~= c);
}

/// Strictly decreasing entries.
pub open spec fn strictly_descending(a: Seq<u8>) -> bool {
    forall|i: int, j: int| 0 <= i < j < a.len() ==> a[i] > a[j]
}

proof fn lemma_count_concat(a: Seq<u8>, b: Seq<u8>, v: u8)
    ensures
        count_greater(a + b, v) == count_greater(a, v) + count_greater(b, v),
    decreases b.len(),
{
    if b.len() == 0 {
        assert(a + b =~= a);
    } else {
        lemma_count_concat(a, b.drop_last(), v);
        assert((a + b).drop_last() =~= a + b.drop_last());
        assert((a + b).last() == b.last());
    }
}

proof fn lemma_count_all(a: Seq<u8>, v: u8)
    ensures
        (forall|i: int| 0 <= i < a.len() ==> a[i] > v) ==> count_greater(a, v) == a.len(),
        (forall|i: int| 0 <= i < a.len() ==> a[i] < v) ==> count_greater(a, v) == 0,
    decreases a.len(),
{
    if a.len() > 0 {
        lemma_count_all(a.drop_last(), v);
    }
}

proof fn lemma_count_single(x: u8, v: u8)
    ensures
        count_greater(seq![x], v) == (if x > v { 1nat } else { 0nat }),
{
    assert(seq![x].drop_last() =~= Seq::<u8>::empty());
    assert(count_greater(Seq::<u8>::empty(), v) == 0);
    assert(seq![x].last() == x);
}

/// Removing entry `i` takes its contribution off the count.
proof fn lemma_count_remove(a: Seq<u8>, i: int, v: u8)
    requires
        0 <= i < a.len(),
    ensures
        count_greater(a, v) == count_greater(a.remove(i), v) + (if a[i] > v { 1nat } else { 0nat }),
{
    assert(a =~= a.take(i) + seq![a[i]] + a.skip(i + 1));
    assert(a.remove(i) =~= a.take(i) + a.skip(i + 1));
    lemma_count_concat(a.take(i) + seq![a[i]], a.skip(i + 1), v);
    lemma_count_concat(a.take(i), seq![a[i]], v);
    lemma_count_concat(a.take(i), a.skip(i + 1), v);
    lemma_count_single(a[i], v);
}

/// In a strictly descending sequence, exactly `i` entries exceed entry `i`.
proof fn lemma_count_descending(a: Seq<u8>, i: int)
    requires
        0 <= i < a.len(),
        strictly_descending(a),
    ensures
        count_greater(a.remove(i), a[i]) == i,
{
    assert(a.remove(i) =~= a.take(i) + a.skip(i + 1));
    lemma_count_concat(a.take(i), a.skip(i + 1), a[i]);
    lemma_count_all(a.take(i), a[i]);
    lemma_count_all(a.skip(i + 1), a[i]);
}

/// The pieces still to place at step `k` are `k` pieces in descending order.
proof fn lemma_remaining_shape(h: nat, n: nat, k: nat)
    requires
        2 <= k <= n,
        n <= 255,
    ensures
        remaining_pieces(h, n, k).len() == k,
        strictly_descending(remaining_pieces(h, n, k)),
    decreases n - k,
{
    if k < n {
        lemma_remaining_shape(h, n, k + 1);
        let r = remaining_pieces(h, n, k + 1);
        let d = unrank_digit(h, k) as int;
        assert(0 <= d < k + 1) by {
            lemma_rank_weight_mono(0, k);
        }
        let q = r.remove(d);
        assert forall|i: int, j: int| 0 <= i < j < q.len() implies q[i] > q[j] by {
            let ii = if i < d { i } else { i + 1 };
            let jj = if j < d { j } else { j + 1 };
            assert(q[i] == r[ii] && q[j] == r[jj]);
        }
    } else {
        let r = descending(n);
        assert forall|i: int, j: int| 0 <= i < j < r.len() implies r[i] > r[j] by {
            assert(r[i] == (n - 1 - i) as u8 && r[j] == (n - 1 - j) as u8);
        }
    }
}

/// The first `k` positions of the unranked permutation hold the pieces still
/// to place at step `k`, as far as counting greater entries can tell.
proof fn lemma_prefix_counts(h: nat, n: nat, k: nat, v: u8)
    requires
        2 <= k <= n,
        n <= 255,
    ensures
        count_greater(perm_unrank(h, n).take(k as int), v) == count_greater(remaining_pieces(h, n, k), v),
    decreases k,
{
    let s = perm_unrank(h, n);
    lemma_remaining_shape(h, n, 2);
    if k == 2 {
        let r = remaining_pieces(h, n, 2);
        let t = s.take(2);
        lemma_count_single(t[0], v);
        lemma_count_single(t[1], v);
        lemma_count_single(r[0], v);
        lemma_count_single(r[1], v);
        assert(t =~= seq![t[0]] + seq![t[1]]);
        assert(r =~= seq![r[0]] + seq![r[1]]);
        lemma_count_concat(seq![t[0]], seq![t[1]], v);
        lemma_count_concat(seq![r[0]], seq![r[1]], v);
    } else {
        lemma_prefix_counts(h, n, (k - 1) as nat, v);
        lemma_remaining_shape(h, n, k);
        lemma_remaining_shape(h, n, (k - 1) as nat);
        let r = remaining_pieces(h, n, k);
        let d = unrank_digit(h, (k - 1) as nat) as int;
        assert(0 <= d < k) by {
            lemma_rank_weight_mono(0, (k - 1) as nat);
        }
        assert(remaining_pieces(h, n, (k - 1) as nat) == r.remove(d));
        lemma_count_remove(r, d, v);
        assert(s.take(k as int).drop_last() =~= s.take(k - 1));
        assert(s.take(k as int).last() == s[k - 1]);
        assert(s[k - 1] == r[d]);
    }
}

/// The Lehmer digit of each position of the unranked permutation is the digit
/// it was built from.
proof fn lemma_unrank_digit_matches(h: nat, n: nat, k: nat)
    requires
        2 <= k < n,
        n <= 255,
    ensures
        lehmer_digit(perm_unrank(h, n), k as int) == unrank_digit(h, k),
{
    let s = perm_unrank(h, n);
    lemma_remaining_shape(h, n, k + 1);
    let r = remaining_pieces(h, n, k + 1);
    let d = unrank_digit(h, k) as int;
    assert(0 <= d < k + 1) by {
        lemma_rank_weight_mono(0, k);
    }
    assert(s[k as int] == r[d]);
    lemma_prefix_counts(h, n, k, r[d]);
    assert(remaining_pieces(h, n, k) == r.remove(d));
    lemma_count_descending(r, d);
}

proof fn lemma_unrank_prefix(h: nat, n: nat, k: nat)
    requires
        2 <= k <= n,
        n <= 255,
    ensures
        perm_rank_prefix(perm_unrank(h, n), k) == h % rank_weight(k),
    decreases k,
{
    if k == 2 {
        assert(rank_weight(2) == 1);
        assert(h % 1 == 0);
    } else {
        let j = (k - 1) as nat;
        lemma_unrank_prefix(h, n, j);
        lemma_unrank_digit_matches(h, n, j);
        lemma_rank_weight_mono(0, j);
        let w = rank_weight(j);
        assert(rank_weight(k) == w * k);
        vstd::arithmetic::div_mod::lemma_mod_breakdown(h as int, w as int, k as int);
        assert(unrank_digit(h, j) == (h / w) % k);
        assert(w * ((h / w) % k) == ((h / w) % k) * w) by (nonlinear_arith);
    }
}

/// Ranking the permutation of rank `h` gives back `h`.
pub proof fn lemma_perm_rank_unrank(h: nat, n: nat)
    requires
        3 <= n <= 12,
        h < rank_weight(n),
    ensures
        perm_rank(perm_unrank(h, n)) == h,
{
    lemma_unrank_prefix(h, n, n);
    vstd::arithmetic::div_mod::lemma_small_mod(h, rank_weight(n));
}

/// Sum of the Lehmer digits of positions `k .. n`.
pub open spec fn lehmer_sum_from(p: Seq<u8>, k: nat, n: nat) -> nat
    decreases n - k,
{
    if k >= n {
        0
    } else {
        lehmer_digit(p, k as int) + lehmer_sum_from(p, k + 1, n)
    }
}

/// The permutation has an even number of inversions.
pub open spec fn is_even_perm(p: Seq<u8>) -> bool {
    (lehmer_digit(p, 1) + lehmer_sum_from(p, 2, p.len())) % 2 == 0
}

/// Product of `i + 1 ..= j`: the ratio of the weights of positions `j` and `i`.
pub open spec fn weight_ratio(j: nat, i: nat) -> nat
    decreases j,
{
    if j <= i {
        1
    } else {
        weight_ratio((j - 1) as nat, i) * j
    }
}

proof fn lemma_weight_ratio(j: nat, i: nat)
    requires
        2 <= i <= j,
    ensures
        rank_weight(j) == rank_weight(i) * weight_ratio(j, i),
    decreases j,
{
    if j > i {
        lemma_weight_ratio((j - 1) as nat, i);
        assert(rank_weight(j) == rank_weight((j - 1) as nat) * j);
        assert(weight_ratio(j, i) == weight_ratio((j - 1) as nat, i) * j);
        assert(rank_weight(i) * weight_ratio((j - 1) as nat, i) * j == rank_weight(i) * (weight_ratio((j - 1) as nat, i) * j)) by (nonlinear_arith);
    } else {
        assert(weight_ratio(j, i) == 1);
    }
}

/// The digits of positions `k + 1 .. m` divided by the weight of position `k + 1`.
pub open spec fn rank_tail(p: Seq<u8>, k: nat, m: nat) -> nat
    decreases m,
{
    if m <= k + 1 {
        0
    } else {
        rank_tail(p, k, (m - 1) as nat) + lehmer_digit(p, m - 1) * weight_ratio((m - 1) as nat, k + 1)
    }
}

proof fn lemma_rank_tail(p: Seq<u8>, k: nat, m: nat)
    requires
        2 <= k,
        k + 1 <= m,
    ensures
        perm_rank_prefix(p, m) == perm_rank_prefix(p, k + 1) + rank_weight(k + 1) * rank_tail(p, k, m),
    decreases m,
{
    if m > k + 1 {
        let j = (m - 1) as nat;
        lemma_rank_tail(p, k, j);
        lemma_weight_ratio(j, k + 1);
        let w = rank_weight(k + 1);
        let t = rank_tail(p, k, j);
        let d = lehmer_digit(p, j as int);
        let q = weight_ratio(j, k + 1);
        assert(perm_rank_prefix(p, m) == perm_rank_prefix(p, j) + d * rank_weight(j));
        assert(rank_tail(p, k, m) == t + d * q);
        assert(w * t + d * (w * q) == w * (t + d * q)) by (nonlinear_arith);
    } else {
        assert(rank_tail(p, k, m) == 0);
        assert(rank_weight(k + 1) * 0 == 0);
    }
}

/// The mixed-radix digits of a permutation's rank are its Lehmer digits.
proof fn lemma_rank_digit(p: Seq<u8>, k: nat)
    requires
        2 <= k < p.len(),
    ensures
        unrank_digit(perm_rank(p), k) == lehmer_digit(p, k as int),
{
    let n = p.len();
    lemma_rank_tail(p, k, n);
    lemma_perm_rank_prefix_bound(p, k);
    lemma_count_greater_bound(p.take(k as int), p[k as int]);
    lemma_rank_weight_mono(0, k);
    let w = rank_weight(k);
    let l = lehmer_digit(p, k as int);
    let t = rank_tail(p, k, n);
    let a = perm_rank_prefix(p, k);
    assert(rank_weight(k + 1) == w * (k + 1));
    assert(perm_rank(p) == w * (l + (k + 1) * t) + a) by (nonlinear_arith)
        requires
            perm_rank(p) == a + l * w + w * (k + 1) * t,
    ;
    vstd::arithmetic::div_mod::lemma_div_multiples_vanish_fancy((l + (k + 1) * t) as int, a as int, w as int);
    assert((((k + 1) * t + l) as int) % ((k + 1) as int) == (l as int) % ((k + 1) as int)) by {
        vstd::arithmetic::div_mod::lemma_mod_multiples_vanish(t as int, l as int, (k + 1) as int);
    }
    vstd::arithmetic::div_mod::lemma_small_mod(l, k + 1);
}

/// Sequences without duplicates holding the same entries count alike.
proof fn lemma_count_same_entries(a: Seq<u8>, b: Seq<u8>, v: u8)
    requires
        a.no_duplicates(),
        b.no_duplicates(),
        forall|x: u8| a.contains(x) <==> b.contains(x),
    ensures
        count_greater(a, v) == count_greater(b, v),
    decreases a.len(),
{
    if a.len() == 0 {
        if b.len() > 0 {
            assert(b.contains(b[0]));
        }
    } else {
        let x = a.last();
        assert(a.contains(x));
        let i = choose|i: int| 0 <= i < b.len() && b[i] == x;
        let a2 = a.drop_last();
        let b2 = b.remove(i);
        assert forall|y: u8| a2.contains(y) <==> b2.contains(y) by {
            if a2.contains(y) {
                let j = choose|j: int| 0 <= j < a2.len() && a2[j] == y;
                assert(a[j] == y && j != a.len() - 1);
                assert(b.contains(y));
                let m = choose|m: int| 0 <= m < b.len() && b[m] == y;
                assert(m != i);
                if m < i {
                    assert(b2[m] == y);
                } else {
                    assert(b2[m - 1] == y);
                }
            }
            if b2.contains(y) {
                let j = choose|j: int| 0 <= j < b2.len() && b2[j] == y;
                let m = if j < i { j } else { j + 1 };
                assert(b[m] == y && m != i);
                assert(a.contains(y));
                let r = choose|r: int| 0 <= r < a.len() && a[r] == y;
                assert(r != a.len() - 1);
                assert(a2[r] == y);
            }
        }
        assert(b2.no_duplicates()) by {
            assert forall|j1: int, j2: int| 0 <= j1 < b2.len() && 0 <= j2 < b2.len() && j1 != j2 implies b2[j1] != b2[j2] by {
                let m1 = if j1 < i { j1 } else { j1 + 1 };
                let m2 = if j2 < i { j2 } else { j2 + 1 };
                assert(b2[j1] == b[m1] && b2[j2] == b[m2]);
            }
        }
        lemma_count_same_entries(a2, b2, v);
        lemma_count_remove(b, i, v);
    }
}

/// The first `k` positions of an even permutation hold exactly the pieces that
/// unranking its rank has left at step `k`.
proof fn lemma_prefix_entries(p: Seq<u8>, k: nat)
    requires
        3 <= p.len() <= 12,
        crate::perm::is_perm(p),
        2 <= k <= p.len(),
    ensures
        p.take(k as int).no_duplicates(),
        remaining_pieces(perm_rank(p), p.len(), k).no_duplicates(),
        forall|x: u8| p.take(k as int).contains(x) <==> remaining_pieces(perm_rank(p), p.len(), k).contains(x),
    decreases p.len() - k,
{
    let n = p.len();
    let h = perm_rank(p);
    lemma_remaining_shape(h, n, k);
    let r = remaining_pieces(h, n, k);
    assert(r.no_duplicates()) by {
        assert forall|i: int, j: int| 0 <= i < r.len() && 0 <= j < r.len() && i != j implies r[i] != r[j] by {
            if i < j {
                assert(r[i] > r[j]);
            } else {
                assert(r[j] > r[i]);
            }
        }
    }
    let t = p.take(k as int);
    assert(t.no_duplicates());
    if k == n {
        crate::perm::lemma_perm_onto(p);
        assert(t =~= p);
        assert forall|x: u8| t.contains(x) <==> r.contains(x) by {
            if t.contains(x) {
                let i = choose|i: int| 0 <= i < t.len() && t[i] == x;
                assert(r[n - 1 - x] == x);
            }
            if r.contains(x) {
                let i = choose|i: int| 0 <= i < r.len() && r[i] == x;
                let j = crate::perm::perm_index(p, x as int);
                assert(p[j] == x);
            }
        }
    } else {
        lemma_prefix_entries(p, k + 1);
        let t1 = p.take((k + 1) as int);
        let r1 = remaining_pieces(h, n, k + 1);
        lemma_remaining_shape(h, n, k + 1);
        let x = p[k as int];
        assert(t1.contains(x)) by {
            assert(t1[k as int] == x);
        }
        let i = choose|i: int| 0 <= i < r1.len() && r1[i] == x;
        lemma_count_same_entries(t1, r1, x);
        lemma_count_remove(r1, i, x);
        lemma_count_descending(r1, i);
        assert(t1.drop_last() =~= t);
        assert(t1.last() == x);
        lemma_rank_digit(p, k);
        assert(unrank_digit(h, k) == i);
        assert(r == r1.remove(i));
        assert forall|y: u8| t.contains(y) <==> r.contains(y) by {
            if t.contains(y) {
                let j = choose|j: int| 0 <= j < t.len() && t[j] == y;
                assert(t1[j] == y);
                assert(t1.contains(y));
                assert(y != x);
                assert(r1.contains(y));
                let m = choose|m: int| 0 <= m < r1.len() && r1[m] == y;
                assert(m != i);
                if m < i {
                    assert(r[m] == y);
                } else {
                    assert(r[m - 1] == y);
                }
            }
            if r.contains(y) {
                let j = choose|j: int| 0 <= j < r.len() && r[j] == y;
                let m = if j < i { j } else { j + 1 };
                assert(r1[m] == y && m != i);
                assert(t1.contains(y));
                let q = choose|q: int| 0 <= q < t1.len() && t1[q] == y;
                assert(q != k);
                assert(t[q] == y);
            }
        }
    }
}

proof fn lemma_digit_sum_matches(p: Seq<u8>, k: nat)
    requires
        3 <= p.len() <= 12,
        2 <= k <= p.len(),
    ensures
        digit_sum(perm_rank(p), p.len(), k) == lehmer_sum_from(p, k, p.len()),
    decreases p.len() - k,
{
    if k < p.len() {
        lemma_digit_sum_matches(p, k + 1);
        lemma_rank_digit(p, k);
    }
}

/// Unranking the rank of an even permutation of `0 .. n` gives it back.
pub proof fn lemma_perm_unrank_rank(p: Seq<u8>)
    requires
        3 <= p.len() <= 12,
        crate::perm::is_perm(p),
        is_even_perm(p),
    ensures
        perm_unrank(perm_rank(p), p.len()) == p,
{
    let n = p.len();
    let h = perm_rank(p);
    let s = perm_unrank(h, n);
    assert forall|k: int| 2 <= k < n implies #[trigger] s[k] == p[k] by {
        lemma_prefix_entries(p, (k + 1) as nat);
        lemma_prefix_entries(p, k as nat);
        let t1 = p.take(k + 1);
        let r1 = remaining_pieces(h, n, (k + 1) as nat);
        lemma_remaining_shape(h, n, (k + 1) as nat);
        let x = p[k];
        assert(t1.contains(x)) by {
            assert(t1[k] == x);
        }
        let i = choose|i: int| 0 <= i < r1.len() && r1[i] == x;
        lemma_count_same_entries(t1, r1, x);
        lemma_count_remove(r1, i, x);
        lemma_count_descending(r1, i);
        assert(t1.drop_last() =~= p.take(k));
        lemma_rank_digit(p, k as nat);
    }
    lemma_prefix_entries(p, 2);
    lemma_remaining_shape(h, n, 2);
    let r = remaining_pieces(h, n, 2);
    let t = p.take(2);
    lemma_digit_sum_matches(p, 2);
    assert(t.contains(p[0]) && t.contains(p[1])) by {
        assert(t[0] == p[0] && t[1] == p[1]);
    }
    assert(r.contains(r[0]) && r.contains(r[1]));
    assert(p[0] != p[1]);
    assert(lehmer_digit(p, 1) == (if p[0] > p[1] { 1nat } else { 0nat })) by {
        assert(p.take(1).drop_last() =~= Seq::<u8>::empty());
        assert(count_greater(Seq::<u8>::empty(), p[1]) == 0);
    }
    assert(s[0] == p[0] && s[1] == p[1]) by {
        let ia = choose|i: int| 0 <= i < t.len() && t[i] == r[0];
        let ib = choose|i: int| 0 <= i < t.len() && t[i] == r[1];
        assert(r[0] > r[1]);
    }
    assert(s =~= p);
}

proof fn lemma_identity_digits(n: nat, k: nat)
    requires
        n <= 255,
        k < n,
    ensures
        lehmer_digit(crate::state::identity(n), k as int) == 0,
{
    let p = crate::state::identity(n);
    lemma_count_all(p.take(k as int), p[k as int]);
}

proof fn lemma_identity_sums_from(n: nat, k: nat)
    requires
        n <= 255,
        k <= n,
    ensures
        lehmer_sum_from(crate::state::identity(n), k, n) == 0,
    decreases n - k,
{
    if k < n {
        lemma_identity_digits(n, k);
        lemma_identity_sums_from(n, k + 1);
    }
}

proof fn lemma_identity_prefix(n: nat, k: nat)
    requires
        n <= 255,
        k <= n,
    ensures
        perm_rank_prefix(crate::state::identity(n), k) == 0,
    decreases k,
{
    if k > 2 {
        lemma_identity_prefix(n, (k - 1) as nat);
        lemma_identity_digits(n, (k - 1) as nat);
    }
}

/// The identity has rank 0, and rank 0 unranks to the identity.
pub proof fn lemma_identity_rank(n: nat)
    requires
        3 <= n <= 12,
    ensures
        perm_rank(crate::state::identity(n)) == 0,
        perm_unrank(0, n) == crate::state::identity(n),
{
    let p = crate::state::identity(n);
    lemma_identity_prefix(n, n);
    lemma_identity_sums_from(n, 2);
    lemma_identity_digits(n, 1);
    assert(crate::perm::is_perm(p));
    lemma_perm_unrank_rank(p);
}

proof fn lemma_oriented_zero(m: nat)
    ensures
        flags_value(Seq::new(m, |i: int| true)) == 0,
        count_flipped(Seq::new(m, |i: int| true)) == 0,
    decreases m,
{
    if m > 0 {
        lemma_oriented_zero((m - 1) as nat);
        assert(Seq::new(m, |i: int| true).drop_last() =~= Seq::new((m - 1) as nat, |i: int| true));
    }
}

/// Oriented corners have rank 0, and rank 0 unranks to oriented corners.
pub proof fn lemma_oriented_rank()
    ensures
        orientation_rank(Seq::new(6, |i: int| true)) == 0,
        orientation_unrank(0, 6) == Seq::new(6, |i: int| true),
{
    let t = Seq::new(6, |i: int| true);
    assert(t.drop_first() =~= Seq::new(5, |i: int| true));
    lemma_oriented_zero(5);
    lemma_oriented_zero(6);
    lemma_orientation_unrank_rank(t);
}

} // verus!
