//! Ranking of combinations: positions of several colours of indistinguishable
//! pieces, ranked colour by colour with binomial weights.

use vstd::prelude::*;

verus! {

/// Product of the integers `start + 1 ..= end`.
pub open spec fn product_spec(start: nat, end: nat) -> nat
    decreases end,
{
    if end <= start {
        1
    } else {
        product_spec(start, (end - 1) as nat) * end
    }
}

/// The binomial coefficient `n` choose `k`, as a quotient of products.
pub open spec fn binom_spec(n: nat, k: nat) -> nat {
    product_spec((n - k) as nat, n) / product_spec(1, k)
}

/// How many entries of `s` equal `c`.
pub open spec fn count_of(s: Seq<u8>, c: nat) -> nat
    decreases s.len(),
{
    if s.len() == 0 {
        0
    } else {
        count_of(s.drop_last(), c) + (if s.last() == c { 1nat } else { 0nat })
    }
}

/// Pieces of colour `c` not yet placed among the first `k` positions.
pub open spec fn left_after(arr: Seq<u8>, k: nat, same: nat, c: nat) -> int {
    same - count_of(arr.take(k as int), c)
}

/// Pieces of colours `c ..` not yet placed among the first `k` positions.
pub open spec fn suffix_left(arr: Seq<u8>, k: nat, same: nat, c: nat, colors: nat) -> int
    decreases colors - c,
{
    if c >= colors {
        0
    } else {
        left_after(arr, k, same, c) + suffix_left(arr, k, same, c + 1, colors)
    }
}

/// What the piece at position `j` adds to the digit of colour `c`: when it is
/// of a later colour and pieces of colour `c` remain, the number of ways to
/// place those remaining pieces with one fewer.
pub open spec fn piece_term(arr: Seq<u8>, j: nat, same: nat, colors: nat, c: nat) -> nat {
    if c < arr[j as int] && left_after(arr, j + 1, same, c) != 0 {
        binom_spec(suffix_left(arr, j + 1, same, c, colors) as nat, (left_after(arr, j + 1, same, c) - 1) as nat)
    } else {
        0
    }
}

/// The digit of colour `c` over the first `k` positions.
pub open spec fn centre_digit(arr: Seq<u8>, k: nat, same: nat, colors: nat, c: nat) -> nat
    decreases k,
{
    if k == 0 {
        0
    } else {
        centre_digit(arr, (k - 1) as nat, same, colors, c) + piece_term(arr, (k - 1) as nat, same, colors, c)
    }
}

/// The digits of the first `m` colours in mixed radix, colour `i` weighted by
/// the ways to place `same` pieces among `(colors - i) * same` positions.
pub open spec fn centres_rank_upto(arr: Seq<u8>, same: nat, colors: nat, m: nat) -> nat
    decreases m,
{
    if m == 0 {
        0
    } else {
        centres_rank_upto(arr, same, colors, (m - 1) as nat) * binom_spec(
            ((colors - (m - 1)) * same) as nat,
            same,
        ) + centre_digit(arr, arr.len(), same, colors, (m - 1) as nat)
    }
}

/// The rank of a combination: the digits of all colours but the last.
pub open spec fn centres_rank(arr: Seq<u8>, same: nat, colors: nat) -> nat {
    centres_rank_upto(arr, same, colors, (colors - 1) as nat)
}

/// A combination of `colors` colours, each at most `same` times.
pub open spec fn is_combination(arr: Seq<u8>, same: nat, colors: nat) -> bool {
    &&& forall|i: int| 0 <= i < arr.len() ==> (#[trigger] arr[i]) < colors
    &&& forall|c: nat| c < colors ==> #[trigger] count_of(arr, c) <= same
}

proof fn lemma_count_of_prefix(arr: Seq<u8>, k: nat, c: nat)
    requires
        k <= arr.len(),
    ensures
        count_of(arr.take(k as int), c) <= count_of(arr, c),
    decreases arr.len() - k,
{
    if k < arr.len() {
        lemma_count_of_prefix(arr, k + 1, c);
        assert(arr.take((k + 1) as int).drop_last() =~= arr.take(k as int));
    } else {
        assert(arr.take(k as int) =~= arr);
    }
}

proof fn lemma_product_small(n: nat, k: nat)
    requires
        k <= 3,
        k <= n <= 12,
    ensures
        product_spec((n - k) as nat, n) <= (if k <= 2 { 132nat } else { 1320nat }),
        product_spec(1, k) >= 1,
{
    reveal_with_fuel(product_spec, 4);
    if k == 2 {
        assert((n - 1) * n <= 132) by (nonlinear_arith)
            requires
                n <= 12,
                n >= 2,
        ;
    } else if k == 3 {
        assert((n - 2) * (n - 1) * n <= 1320) by (nonlinear_arith)
            requires
                n <= 12,
                n >= 3,
        ;
    }
}

/// Product of the integers `start + 1 ..= end`.
fn product(start: usize, end: usize) -> (r: usize)
    requires
        end <= 12,
        end <= start + 3,
    ensures
        r == product_spec(start as nat, end as nat),
{
    if end <= start {
        return 1;
    }
    let mut acc: usize = 1;
    let mut n: usize = start + 1;
    while n <= end
        invariant
            start + 1 <= n <= end + 1,
            end <= 12,
            end <= start + 3,
            acc == product_spec(start as nat, (n - 1) as nat),
            acc <= 1320,
        decreases end + 1 - n,
    {
        proof {
            lemma_product_small((n as nat), (n - start) as nat);
            reveal_with_fuel(product_spec, 2);
        }
        acc = acc * n;
        n += 1;
    }
    acc
}

/// `n` choose `k`, as a quotient of products.
fn biko(n: usize, k: usize) -> (r: usize)
    requires
        k <= n <= 12,
        k <= 3,
    ensures
        r == binom_spec(n as nat, k as nat),
        r <= (if k <= 2 { 132nat } else { 1320nat }),
{
    proof {
        lemma_product_small(n as nat, k as nat);
    }
    let top = product(n - k, n);
    let bottom = product(1, k);
    proof {
        vstd::arithmetic::div_mod::lemma_div_is_ordered_by_denominator(top as int, 1, bottom as int);
    }
    top / bottom
}

/// Rank of the twelve centres of one orbit: four colours, three of each.
pub fn hash_centers(arr: &[u8]) -> (r: usize)
    requires
        arr@.len() <= 12,
        is_combination(arr@, 3, 4),
    ensures
        r == centres_rank(arr@, 3, 4),
{
    hash_centers_any(arr, 3, 4)
}

/// Rank of a combination of `colors` colours, each at most `same` times.
fn hash_centers_any(arr: &[u8], same: usize, colors: usize) -> (r: usize)
    requires
        1 <= colors <= 4,
        1 <= same <= 3,
        arr@.len() <= 12,
        is_combination(arr@, same as nat, colors as nat),
    ensures
        r == centres_rank(arr@, same as nat, colors as nat),
{
    let mut hash: Vec<usize> = Vec::new();
    let mut left: Vec<usize> = Vec::new();
    let mut c: usize = 0;
    while c < colors
        invariant
            c <= colors <= 4,
            hash@.len() == if c < colors - 1 { c as int } else { colors - 1 },
            left@.len() == c,
            forall|k: int| 0 <= k < hash@.len() ==> hash@[k] == 0,
            forall|k: int| 0 <= k < c ==> left@[k] == same,
        decreases colors - c,
    {
        if c < colors - 1 {
            hash.push(0);
        }
        left.push(same);
        c += 1;
    }
    assert(arr@.take(0) =~= Seq::<u8>::empty());
    let mut i: usize = 0;
    while i < arr.len()
        invariant
            i <= arr@.len() <= 12,
            1 <= colors <= 4,
            1 <= same <= 3,
            is_combination(arr@, same as nat, colors as nat),
            hash@.len() == colors - 1,
            left@.len() == colors,
            forall|k: int| 0 <= k < colors ==> #[trigger] left@[k] == left_after(arr@, i as nat, same as nat, k as nat),
            forall|k: int| 0 <= k < colors - 1 ==> #[trigger] hash@[k] == centre_digit(arr@, i as nat, same as nat, colors as nat, k as nat),
            forall|k: int| 0 <= k < colors - 1 ==> #[trigger] hash@[k] <= 132 * i,
        decreases arr@.len() - i,
    {
        let piece = arr[i] as usize;
        proof {
            lemma_count_of_prefix(arr@, (i + 1) as nat, piece as nat);
            assert(arr@.take(i + 1).drop_last() =~= arr@.take(i as int));
            assert(arr@.take(i + 1).last() == arr@[i as int]);
            assert forall|k: int| 0 <= k < colors implies #[trigger] left_after(arr@, (i + 1) as nat, same as nat, k as nat)
                == left_after(arr@, i as nat, same as nat, k as nat) - (if k == piece { 1int } else { 0int }) by {}
        }
        left.set(piece, left[piece] - 1);
        let ghost hash0 = hash@;
        let mut color: usize = 0;
        while color < piece
            invariant
                i < arr@.len() <= 12,
                piece == arr@[i as int],
                piece < colors <= 4,
                1 <= same <= 3,
                color <= piece,
                is_combination(arr@, same as nat, colors as nat),
                hash@.len() == colors - 1,
                left@.len() == colors,
                forall|k: int| 0 <= k < colors ==> #[trigger] left@[k] == left_after(arr@, (i + 1) as nat, same as nat, k as nat),
                forall|k: int| 0 <= k < colors ==> #[trigger] left@[k] <= same,
                forall|k: int| 0 <= k < colors - 1 ==> #[trigger] hash0[k] == centre_digit(arr@, i as nat, same as nat, colors as nat, k as nat),
                forall|k: int| 0 <= k < colors - 1 ==> #[trigger] hash0[k] <= 132 * i,
                forall|k: int| 0 <= k < color ==> #[trigger] hash@[k] == hash0[k] + piece_term(arr@, i as nat, same as nat, colors as nat, k as nat),
                forall|k: int| color <= k < colors - 1 ==> #[trigger] hash@[k] == hash0[k],
                forall|k: int| 0 <= k < colors - 1 ==> #[trigger] hash@[k] <= 132 * (i + 1),
            decreases piece - color,
        {
            if left[color] != 0 {
                let mut s: usize = 0;
                let mut d: usize = colors;
                assert(same * (colors - d) == 0) by (nonlinear_arith)
                    requires
                        d == colors,
                ;
                while d > color
                    invariant
                        color < d <= colors || d == color,
                        color <= d <= colors <= 4,
                        left@.len() == colors,
                        1 <= same <= 3,
                        forall|k: int| 0 <= k < colors ==> #[trigger] left@[k] == left_after(arr@, (i + 1) as nat, same as nat, k as nat),
                        forall|k: int| 0 <= k < colors ==> #[trigger] left@[k] <= same,
                        s == suffix_left(arr@, (i + 1) as nat, same as nat, d as nat, colors as nat),
                        s <= same * (colors - d),
                        same * (colors - d) <= 12,
                    decreases d,
                {
                    d -= 1;
                    proof {
                        assert(same * (colors - d) == same * (colors - d - 1) + same) by (nonlinear_arith);
                        assert(same * (colors - d) <= 12) by (nonlinear_arith)
                            requires
                                same <= 3,
                                colors <= 4,
                                d <= colors,
                        ;
                    }
                    s += left[d];
                }
                proof {
                    assert(same * (colors - color) <= 12) by (nonlinear_arith)
                        requires
                            same <= 3,
                            colors <= 4,
                    ;
                    assert(s >= left@[color as int]) by {
                        reveal_with_fuel(suffix_left, 2);
                        assert(suffix_left(arr@, (i + 1) as nat, same as nat, (color + 1) as nat, colors as nat) >= 0) by {
                            lemma_suffix_left_nonneg(arr@, (i + 1) as nat, same as nat, (color + 1) as nat, colors as nat);
                        }
                    }
                }
                let term = biko(s, left[color] - 1);
                hash.set(color, hash[color] + term);
            }
            color += 1;
        }
        proof {
            assert forall|k: int| 0 <= k < colors - 1 implies #[trigger] hash@[k] == centre_digit(arr@, (i + 1) as nat, same as nat, colors as nat, k as nat) by {
                if k >= piece {
                    assert(piece_term(arr@, i as nat, same as nat, colors as nat, k as nat) == 0);
                }
            }
        }
        i += 1;
    }
    assert(arr@.take(arr@.len() as int) =~= arr@);
    let mut acc: usize = 0;
    let mut index: usize = 0;
    while index < colors - 1
        invariant
            index <= colors - 1,
            1 <= colors <= 4,
            1 <= same <= 3,
            hash@.len() == colors - 1,
            forall|k: int| 0 <= k < colors - 1 ==> #[trigger] hash@[k] == centre_digit(arr@, arr@.len(), same as nat, colors as nat, k as nat),
            forall|k: int| 0 <= k < colors - 1 ==> #[trigger] hash@[k] <= 1584,
            acc == centres_rank_upto(arr@, same as nat, colors as nat, index as nat),
            acc <= (if index == 0 { 0nat } else if index == 1 { 1584nat } else if index == 2 { 2092464nat } else { 2762054064nat }),
        decreases colors - 1 - index,
    {
        proof {
            assert((colors - index) * same <= 12 && (colors - index) * same >= same) by (nonlinear_arith)
                requires
                    index < colors - 1,
                    colors <= 4,
                    same <= 3,
                    same >= 1,
            ;
        }
        let weight = biko((colors - index) * same, same);
        proof {
            assert(acc * weight + hash@[index as int] <= (if index == 0 { 1584nat } else if index == 1 { 2092464nat } else { 2762054064nat })) by (nonlinear_arith)
                requires
                    acc <= (if index == 0 { 0nat } else if index == 1 { 1584nat } else if index == 2 { 2092464nat } else { 2762054064nat }),
                    weight <= 1320,
                    hash@[index as int] <= 1584,
                    index <= 2,
            ;
        }
        acc = acc * weight + hash[index];
        index += 1;
    }
    acc
}

proof fn lemma_suffix_left_nonneg(arr: Seq<u8>, k: nat, same: nat, c: nat, colors: nat)
    requires
        k <= arr.len(),
        is_combination(arr, same, colors),
    ensures
        suffix_left(arr, k, same, c, colors) >= 0,
    decreases colors - c,
{
    if c < colors {
        lemma_count_of_prefix(arr, k, c);
        lemma_suffix_left_nonneg(arr, k, same, c + 1, colors);
    }
}

} // verus!
