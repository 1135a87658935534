//! Counts of move sequences without immediate redundancy, used to compare the
//! number of sequences of a given length with the number of configurations.

use vstd::prelude::*;

verus! {

/// Sequences of `depth` turns on a cube-like puzzle, by the kind of the last
/// turn (`split`): 0 at the start, 1 after a turn of a fresh axis, 2 after a
/// second turn of the same axis.
pub open spec fn comb_std(depth: nat, split: nat) -> nat
    decreases depth,
{
    if depth == 0 {
        2
    } else if split == 0 {
        9 * comb_std((depth - 1) as nat, 1)
    } else if split == 1 {
        12 * comb_std((depth - 1) as nat, 1) + 3 * comb_std((depth - 1) as nat, 2) / 2
    } else if split == 2 {
        12 * comb_std((depth - 1) as nat, 1)
    } else {
        1
    }
}

/// Sequences of `depth` turns on the octahedron, by the kind of the last turn.
pub open spec fn comb_fto(depth: nat, split: nat) -> nat
    decreases depth,
{
    if depth == 0 {
        1
    } else if split == 0 {
        16 * comb_fto((depth - 1) as nat, 1)
    } else if split == 1 {
        12 * comb_fto((depth - 1) as nat, 1) + comb_fto((depth - 1) as nat, 2)
    } else if split == 2 {
        12 * comb_fto((depth - 1) as nat, 1)
    } else {
        1
    }
}

pub open spec fn pow16(d: nat) -> nat
    decreases d,
{
    if d == 0 {
        1
    } else {
        16 * pow16((d - 1) as nat)
    }
}

proof fn lemma_comb_bounds(depth: nat, split: nat)
    ensures
        comb_std(depth, split) <= 2 * pow16(depth),
        comb_fto(depth, split) <= pow16(depth),
    decreases depth,
{
    if depth > 0 {
        let d = (depth - 1) as nat;
        lemma_comb_bounds(d, 1);
        lemma_comb_bounds(d, 2);
        let p = pow16(d);
        assert(pow16(depth) == 16 * p);
        lemma_pow16_mono(0, d);
        assert(pow16(0) == 1);
        let a = comb_std(d, 1);
        let b = comb_std(d, 2);
        assert(12 * a + 3 * b / 2 <= 32 * p && 9 * a <= 32 * p && 12 * a <= 32 * p) by (nonlinear_arith)
            requires
                a <= 2 * p,
                b <= 2 * p,
        ;
        let x = comb_fto(d, 1);
        let y = comb_fto(d, 2);
        assert(12 * x + y <= 16 * p && 12 * x <= 16 * p) by (nonlinear_arith)
            requires
                x <= p,
                y <= p,
        ;
    } else {
        assert(pow16(0) == 1);
    }
}

proof fn lemma_pow16_mono(a: nat, b: nat)
    requires
        a <= b,
    ensures
        pow16(a) <= pow16(b),
    decreases b,
{
    if a < b {
        lemma_pow16_mono(a, (b - 1) as nat);
    }
}

proof fn lemma_pow16_30()
    ensures
        pow16(30) == 1329227995784915872903807060280344576,
{
    reveal_with_fuel(pow16, 31);
}

/// Number of cube-like sequences of `depth` turns ending in kind `split`.
pub fn calc_comb_std(depth: u8, split: u8) -> (r: u128)
    requires
        depth <= 30,
    ensures
        r == comb_std(depth as nat, split as nat),
    decreases depth,
{
    proof {
        lemma_comb_bounds(depth as nat, split as nat);
        lemma_pow16_mono(depth as nat, 30);
        lemma_pow16_30();
        if depth > 0 {
            lemma_comb_bounds((depth - 1) as nat, 1);
            lemma_comb_bounds((depth - 1) as nat, 2);
            lemma_pow16_mono((depth - 1) as nat, 29);
            reveal_with_fuel(pow16, 2);
            assert(pow16(30) == 16 * pow16(29));
        }
    }
    if depth == 0 {
        2
    } else {
        match split {
            0 => 9 * calc_comb_std(depth - 1, 1),
            1 => 12 * calc_comb_std(depth - 1, 1) + 3 * calc_comb_std(depth - 1, 2) / 2,
            2 => 12 * calc_comb_std(depth - 1, 1),
            _ => 1,
        }
    }
}

/// Number of octahedron sequences of `depth` turns ending in kind `split`.
pub fn calc_comb_fto(depth: u8, split: u8) -> (r: u128)
    requires
        depth <= 30,
    ensures
        r == comb_fto(depth as nat, split as nat),
    decreases depth,
{
    proof {
        lemma_comb_bounds(depth as nat, split as nat);
        lemma_pow16_mono(depth as nat, 30);
        lemma_pow16_30();
        if depth > 0 {
            lemma_comb_bounds((depth - 1) as nat, 1);
            lemma_comb_bounds((depth - 1) as nat, 2);
            lemma_pow16_mono((depth - 1) as nat, 29);
            reveal_with_fuel(pow16, 2);
            assert(pow16(30) == 16 * pow16(29));
        }
    }
    if depth == 0 {
        1
    } else {
        match split {
            0 => 16 * calc_comb_fto(depth - 1, 1),
            1 => 12 * calc_comb_fto(depth - 1, 1) + calc_comb_fto(depth - 1, 2),
            2 => 12 * calc_comb_fto(depth - 1, 1),
            _ => 1,
        }
    }
}

} // verus!
