//! The move and symmetry data of the octahedron: for each face turn and each
//! elementary symmetry, how it permutes and reorients every piece group.
//!
//! Faces are numbered D, B, L, R, U, F, BL, BR; the smaller puzzles use the
//! first four. Elementary symmetries are numbered y, y2, z2, zx2, mirror, x2.

use vstd::prelude::*;
use crate::perm::is_perm;

verus! {

/// Corner permutation of each face turn.
pub open spec fn turn_cp_spec(k: int) -> Seq<u8> {
    if k == 0 {
        seq![0u8, 1, 2, 5, 3, 4]
    } else if k == 1 {
        seq![0u8, 5, 1, 3, 4, 2]
    } else if k == 2 {
        seq![4u8, 0, 2, 3, 1, 5]
    } else if k == 3 {
        seq![2u8, 1, 3, 0, 4, 5]
    } else if k == 4 {
        seq![1u8, 2, 0, 3, 4, 5]
    } else if k == 5 {
        seq![3u8, 1, 2, 4, 0, 5]
    } else if k == 6 {
        seq![0u8, 4, 2, 3, 5, 1]
    } else {
        seq![0u8, 1, 5, 2, 4, 3]
    }
}

/// Corner permutation of each face turn.
pub fn turn_cp(k: u8) -> (r: [u8; 6])
    requires
        k < 8,
    ensures
        r@ == turn_cp_spec(k as int),
        is_perm(r@),
{
    let r = match k {
        0 => [0u8, 1, 2, 5, 3, 4],
        1 => [0u8, 5, 1, 3, 4, 2],
        2 => [4u8, 0, 2, 3, 1, 5],
        3 => [2u8, 1, 3, 0, 4, 5],
        4 => [1u8, 2, 0, 3, 4, 5],
        5 => [3u8, 1, 2, 4, 0, 5],
        6 => [0u8, 4, 2, 3, 5, 1],
        _ => [0u8, 1, 5, 2, 4, 3],
    };
    assert(r@ =~= turn_cp_spec(k as int));
    r
}

/// Corner orientation change of each face turn.
pub open spec fn turn_co_spec(k: int) -> Seq<bool> {
    if k == 0 {
        seq![true, true, true, true, true, true]
    } else if k == 1 {
        seq![true, false, false, true, true, true]
    } else if k == 2 {
        seq![false, false, true, true, true, true]
    } else if k == 3 {
        seq![false, true, false, true, true, true]
    } else if k == 4 {
        seq![true, true, true, true, true, true]
    } else if k == 5 {
        seq![false, true, true, false, true, true]
    } else if k == 6 {
        seq![true, false, true, true, false, true]
    } else {
        seq![true, true, false, true, true, false]
    }
}

/// Corner orientation change of each face turn.
pub fn turn_co(k: u8) -> (r: [bool; 6])
    requires
        k < 8,
    ensures
        r@ == turn_co_spec(k as int),
{
    let r = match k {
        0 => [true, true, true, true, true, true],
        1 => [true, false, false, true, true, true],
        2 => [false, false, true, true, true, true],
        3 => [false, true, false, true, true, true],
        4 => [true, true, true, true, true, true],
        5 => [false, true, true, false, true, true],
        6 => [true, false, true, true, false, true],
        _ => [true, true, false, true, true, false],
    };
    assert(r@ =~= turn_co_spec(k as int));
    r
}

/// Permutation of the four centre pieces of the smaller puzzle under each of its face turns.
pub open spec fn turn_ce_spec(k: int) -> Seq<u8> {
    if k == 0 {
        seq![0u8, 3, 1, 2]
    } else if k == 1 {
        seq![2u8, 1, 3, 0]
    } else if k == 2 {
        seq![1u8, 2, 0, 3]
    } else {
        seq![3u8, 0, 2, 1]
    }
}

/// Permutation of the four centre pieces of the smaller puzzle under each of its face turns.
pub fn turn_ce(k: u8) -> (r: [u8; 4])
    requires
        k < 4,
    ensures
        r@ == turn_ce_spec(k as int),
        is_perm(r@),
{
    let r = match k {
        0 => [0u8, 3, 1, 2],
        1 => [2u8, 1, 3, 0],
        2 => [1u8, 2, 0, 3],
        _ => [3u8, 0, 2, 1],
    };
    assert(r@ =~= turn_ce_spec(k as int));
    r
}

/// Centre twist of each tetrahedral face turn.
pub open spec fn turn_ct_spec(k: int) -> Seq<u8> {
    if k == 0 {
        seq![1u8, 0, 0, 0]
    } else if k == 1 {
        seq![0u8, 1, 0, 0]
    } else if k == 2 {
        seq![0u8, 0, 1, 0]
    } else {
        seq![0u8, 0, 0, 1]
    }
}

/// Centre twist of each tetrahedral face turn.
pub fn turn_ct(k: u8) -> (r: [u8; 4])
    requires
        k < 4,
    ensures
        r@ == turn_ct_spec(k as int),
{
    let r = match k {
        0 => [1u8, 0, 0, 0],
        1 => [0u8, 1, 0, 0],
        2 => [0u8, 0, 1, 0],
        _ => [0u8, 0, 0, 1],
    };
    assert(r@ =~= turn_ct_spec(k as int));
    r
}

/// Edge permutation of each face turn.
pub open spec fn turn_ep_spec(k: int) -> Seq<u8> {
    if k == 0 {
        seq![0u8, 1, 2, 3, 10, 5, 6, 4, 8, 9, 7, 11]
    } else if k == 1 {
        seq![0u8, 8, 2, 3, 4, 5, 6, 7, 9, 1, 10, 11]
    } else if k == 2 {
        seq![5u8, 1, 2, 3, 4, 6, 0, 7, 8, 9, 10, 11]
    } else if k == 3 {
        seq![0u8, 1, 11, 2, 4, 5, 6, 7, 8, 9, 10, 3]
    } else if k == 4 {
        seq![1u8, 2, 0, 3, 4, 5, 6, 7, 8, 9, 10, 11]
    } else if k == 5 {
        seq![0u8, 1, 2, 4, 5, 3, 6, 7, 8, 9, 10, 11]
    } else if k == 6 {
        seq![0u8, 1, 2, 3, 4, 5, 7, 8, 6, 9, 10, 11]
    } else {
        seq![0u8, 1, 2, 3, 4, 5, 6, 7, 8, 10, 11, 9]
    }
}

/// Edge permutation of each face turn.
pub fn turn_ep(k: u8) -> (r: [u8; 12])
    requires
        k < 8,
    ensures
        r@ == turn_ep_spec(k as int),
        is_perm(r@),
{
    let r = match k {
        0 => [0u8, 1, 2, 3, 10, 5, 6, 4, 8, 9, 7, 11],
        1 => [0u8, 8, 2, 3, 4, 5, 6, 7, 9, 1, 10, 11],
        2 => [5u8, 1, 2, 3, 4, 6, 0, 7, 8, 9, 10, 11],
        3 => [0u8, 1, 11, 2, 4, 5, 6, 7, 8, 9, 10, 3],
        4 => [1u8, 2, 0, 3, 4, 5, 6, 7, 8, 9, 10, 11],
        5 => [0u8, 1, 2, 4, 5, 3, 6, 7, 8, 9, 10, 11],
        6 => [0u8, 1, 2, 3, 4, 5, 7, 8, 6, 9, 10, 11],
        _ => [0u8, 1, 2, 3, 4, 5, 6, 7, 8, 10, 11, 9],
    };
    assert(r@ =~= turn_ep_spec(k as int));
    r
}

/// Permutation of the first centre orbit under each face turn.
pub open spec fn turn_ce1_spec(k: int) -> Seq<u8> {
    if k == 0 {
        seq![0u8, 1, 2, 3, 10, 11, 6, 4, 5, 9, 7, 8]
    } else if k == 1 {
        seq![0u8, 8, 6, 3, 4, 5, 10, 7, 9, 1, 2, 11]
    } else if k == 2 {
        seq![5u8, 3, 2, 7, 4, 6, 0, 1, 8, 9, 10, 11]
    } else if k == 3 {
        seq![9u8, 1, 11, 2, 0, 5, 6, 7, 8, 4, 10, 3]
    } else if k == 4 {
        seq![1u8, 2, 0, 3, 4, 5, 6, 7, 8, 9, 10, 11]
    } else if k == 5 {
        seq![0u8, 1, 2, 4, 5, 3, 6, 7, 8, 9, 10, 11]
    } else if k == 6 {
        seq![0u8, 1, 2, 3, 4, 5, 7, 8, 6, 9, 10, 11]
    } else {
        seq![0u8, 1, 2, 3, 4, 5, 6, 7, 8, 10, 11, 9]
    }
}

/// Permutation of the first centre orbit under each face turn.
pub fn turn_ce1(k: u8) -> (r: [u8; 12])
    requires
        k < 8,
    ensures
        r@ == turn_ce1_spec(k as int),
        is_perm(r@),
{
    let r = match k {
        0 => [0u8, 1, 2, 3, 10, 11, 6, 4, 5, 9, 7, 8],
        1 => [0u8, 8, 6, 3, 4, 5, 10, 7, 9, 1, 2, 11],
        2 => [5u8, 3, 2, 7, 4, 6, 0, 1, 8, 9, 10, 11],
        3 => [9u8, 1, 11, 2, 0, 5, 6, 7, 8, 4, 10, 3],
        4 => [1u8, 2, 0, 3, 4, 5, 6, 7, 8, 9, 10, 11],
        5 => [0u8, 1, 2, 4, 5, 3, 6, 7, 8, 9, 10, 11],
        6 => [0u8, 1, 2, 3, 4, 5, 7, 8, 6, 9, 10, 11],
        _ => [0u8, 1, 2, 3, 4, 5, 6, 7, 8, 10, 11, 9],
    };
    assert(r@ =~= turn_ce1_spec(k as int));
    r
}

/// Permutation of the second centre orbit under each face turn.
pub open spec fn turn_ce2_spec(k: int) -> Seq<u8> {
    if k == 0 {
        seq![1u8, 2, 0, 3, 4, 5, 6, 7, 8, 9, 10, 11]
    } else if k == 1 {
        seq![0u8, 1, 2, 4, 5, 3, 6, 7, 8, 9, 10, 11]
    } else if k == 2 {
        seq![0u8, 1, 2, 3, 4, 5, 7, 8, 6, 9, 10, 11]
    } else if k == 3 {
        seq![0u8, 1, 2, 3, 4, 5, 6, 7, 8, 10, 11, 9]
    } else if k == 4 {
        seq![0u8, 1, 2, 3, 10, 11, 6, 4, 5, 9, 7, 8]
    } else if k == 5 {
        seq![0u8, 8, 6, 3, 4, 5, 10, 7, 9, 1, 2, 11]
    } else if k == 6 {
        seq![5u8, 3, 2, 7, 4, 6, 0, 1, 8, 9, 10, 11]
    } else {
        seq![9u8, 1, 11, 2, 0, 5, 6, 7, 8, 4, 10, 3]
    }
}

/// Permutation of the second centre orbit under each face turn.
pub fn turn_ce2(k: u8) -> (r: [u8; 12])
    requires
        k < 8,
    ensures
        r@ == turn_ce2_spec(k as int),
        is_perm(r@),
{
    let r = match k {
        0 => [1u8, 2, 0, 3, 4, 5, 6, 7, 8, 9, 10, 11],
        1 => [0u8, 1, 2, 4, 5, 3, 6, 7, 8, 9, 10, 11],
        2 => [0u8, 1, 2, 3, 4, 5, 7, 8, 6, 9, 10, 11],
        3 => [0u8, 1, 2, 3, 4, 5, 6, 7, 8, 10, 11, 9],
        4 => [0u8, 1, 2, 3, 10, 11, 6, 4, 5, 9, 7, 8],
        5 => [0u8, 8, 6, 3, 4, 5, 10, 7, 9, 1, 2, 11],
        6 => [5u8, 3, 2, 7, 4, 6, 0, 1, 8, 9, 10, 11],
        _ => [9u8, 1, 11, 2, 0, 5, 6, 7, 8, 4, 10, 3],
    };
    assert(r@ =~= turn_ce2_spec(k as int));
    r
}

/// Corner permutation of each elementary symmetry (y, y2, z2, zx2, mirror, x2).
pub open spec fn sym_cp_spec(k: int) -> Seq<u8> {
    if k == 0 {
        seq![1u8, 2, 0, 4, 5, 3]
    } else if k == 1 {
        seq![2u8, 0, 1, 5, 3, 4]
    } else if k == 2 {
        seq![0u8, 3, 4, 1, 2, 5]
    } else if k == 3 {
        seq![5u8, 3, 2, 1, 4, 0]
    } else if k == 4 {
        seq![0u8, 2, 1, 4, 3, 5]
    } else {
        seq![5u8, 4, 3, 2, 1, 0]
    }
}

/// Corner permutation of each elementary symmetry (y, y2, z2, zx2, mirror, x2).
pub fn sym_cp(k: u8) -> (r: [u8; 6])
    requires
        k < 6,
    ensures
        r@ == sym_cp_spec(k as int),
        is_perm(r@),
{
    let r = match k {
        0 => [1u8, 2, 0, 4, 5, 3],
        1 => [2u8, 0, 1, 5, 3, 4],
        2 => [0u8, 3, 4, 1, 2, 5],
        3 => [5u8, 3, 2, 1, 4, 0],
        4 => [0u8, 2, 1, 4, 3, 5],
        _ => [5u8, 4, 3, 2, 1, 0],
    };
    assert(r@ =~= sym_cp_spec(k as int));
    r
}

/// Corner orientation change of each elementary symmetry.
pub open spec fn sym_co_spec(k: int) -> Seq<bool> {
    if k == 0 {
        seq![true, true, true, true, true, true]
    } else if k == 1 {
        seq![true, true, true, true, true, true]
    } else if k == 2 {
        seq![false, true, false, true, false, false]
    } else if k == 3 {
        seq![true, false, false, false, false, true]
    } else if k == 4 {
        seq![true, true, true, false, false, false]
    } else {
        seq![true, true, true, false, false, false]
    }
}

/// Corner orientation change of each elementary symmetry.
pub fn sym_co(k: u8) -> (r: [bool; 6])
    requires
        k < 6,
    ensures
        r@ == sym_co_spec(k as int),
{
    let r = match k {
        0 => [true, true, true, true, true, true],
        1 => [true, true, true, true, true, true],
        2 => [false, true, false, true, false, false],
        3 => [true, false, false, false, false, true],
        4 => [true, true, true, false, false, false],
        _ => [true, true, true, false, false, false],
    };
    assert(r@ =~= sym_co_spec(k as int));
    r
}

/// Centre permutation of each elementary symmetry.
pub open spec fn sym_ce_spec(k: int) -> Seq<u8> {
    if k == 0 {
        seq![0u8, 2, 3, 1]
    } else if k == 1 {
        seq![0u8, 3, 1, 2]
    } else if k == 2 {
        seq![1u8, 0, 3, 2]
    } else if k == 3 {
        seq![3u8, 2, 1, 0]
    } else if k == 4 {
        seq![0u8, 1, 3, 2]
    } else {
        seq![0u8, 1, 2, 3]
    }
}

/// Centre permutation of each elementary symmetry.
pub fn sym_ce(k: u8) -> (r: [u8; 4])
    requires
        k < 6,
    ensures
        r@ == sym_ce_spec(k as int),
        is_perm(r@),
{
    let r = match k {
        0 => [0u8, 2, 3, 1],
        1 => [0u8, 3, 1, 2],
        2 => [1u8, 0, 3, 2],
        3 => [3u8, 2, 1, 0],
        4 => [0u8, 1, 3, 2],
        _ => [0u8, 1, 2, 3],
    };
    assert(r@ =~= sym_ce_spec(k as int));
    r
}

/// Edge permutation of each elementary symmetry.
pub open spec fn sym_ep_spec(k: int) -> Seq<u8> {
    if k == 0 {
        seq![1u8, 2, 0, 6, 7, 8, 9, 10, 11, 3, 4, 5]
    } else if k == 1 {
        seq![2u8, 0, 1, 9, 10, 11, 3, 4, 5, 6, 7, 8]
    } else if k == 2 {
        seq![3u8, 4, 5, 0, 1, 2, 11, 9, 10, 7, 8, 6]
    } else if k == 3 {
        seq![10u8, 11, 9, 8, 6, 7, 4, 5, 3, 2, 0, 1]
    } else if k == 4 {
        seq![2u8, 1, 0, 5, 4, 3, 11, 10, 9, 8, 7, 6]
    } else {
        seq![7u8, 4, 10, 9, 1, 8, 6, 0, 5, 3, 2, 11]
    }
}

/// Edge permutation of each elementary symmetry.
pub fn sym_ep(k: u8) -> (r: [u8; 12])
    requires
        k < 6,
    ensures
        r@ == sym_ep_spec(k as int),
        is_perm(r@),
{
    let r = match k {
        0 => [1u8, 2, 0, 6, 7, 8, 9, 10, 11, 3, 4, 5],
        1 => [2u8, 0, 1, 9, 10, 11, 3, 4, 5, 6, 7, 8],
        2 => [3u8, 4, 5, 0, 1, 2, 11, 9, 10, 7, 8, 6],
        3 => [10u8, 11, 9, 8, 6, 7, 4, 5, 3, 2, 0, 1],
        4 => [2u8, 1, 0, 5, 4, 3, 11, 10, 9, 8, 7, 6],
        _ => [7u8, 4, 10, 9, 1, 8, 6, 0, 5, 3, 2, 11],
    };
    assert(r@ =~= sym_ep_spec(k as int));
    r
}

/// Permutation of the first centre orbit under each elementary symmetry but x2.
pub open spec fn sym_ce1_spec(k: int) -> Seq<u8> {
    if k == 0 {
        seq![1u8, 2, 0, 6, 7, 8, 9, 10, 11, 3, 4, 5]
    } else if k == 1 {
        seq![2u8, 0, 1, 9, 10, 11, 3, 4, 5, 6, 7, 8]
    } else if k == 2 {
        seq![3u8, 4, 5, 0, 1, 2, 11, 9, 10, 7, 8, 6]
    } else if k == 3 {
        seq![10u8, 11, 9, 8, 6, 7, 4, 5, 3, 2, 0, 1]
    } else {
        seq![0u8, 2, 1, 3, 5, 4, 9, 11, 10, 6, 8, 7]
    }
}

/// Permutation of the first centre orbit under each elementary symmetry but x2.
pub fn sym_ce1(k: u8) -> (r: [u8; 12])
    requires
        k < 5,
    ensures
        r@ == sym_ce1_spec(k as int),
        is_perm(r@),
{
    let r = match k {
        0 => [1u8, 2, 0, 6, 7, 8, 9, 10, 11, 3, 4, 5],
        1 => [2u8, 0, 1, 9, 10, 11, 3, 4, 5, 6, 7, 8],
        2 => [3u8, 4, 5, 0, 1, 2, 11, 9, 10, 7, 8, 6],
        3 => [10u8, 11, 9, 8, 6, 7, 4, 5, 3, 2, 0, 1],
        _ => [0u8, 2, 1, 3, 5, 4, 9, 11, 10, 6, 8, 7],
    };
    assert(r@ =~= sym_ce1_spec(k as int));
    r
}

/// Permutation of the second centre orbit under each elementary symmetry but x2.
pub open spec fn sym_ce2_spec(k: int) -> Seq<u8> {
    if k == 0 {
        seq![2u8, 0, 1, 9, 10, 11, 3, 4, 5, 6, 7, 8]
    } else if k == 1 {
        seq![1u8, 2, 0, 6, 7, 8, 9, 10, 11, 3, 4, 5]
    } else if k == 2 {
        seq![3u8, 4, 5, 0, 1, 2, 11, 9, 10, 7, 8, 6]
    } else if k == 3 {
        seq![8u8, 6, 7, 10, 11, 9, 1, 2, 0, 5, 3, 4]
    } else {
        seq![0u8, 2, 1, 3, 5, 4, 9, 11, 10, 6, 8, 7]
    }
}

/// Permutation of the second centre orbit under each elementary symmetry but x2.
pub fn sym_ce2(k: u8) -> (r: [u8; 12])
    requires
        k < 5,
    ensures
        r@ == sym_ce2_spec(k as int),
        is_perm(r@),
{
    let r = match k {
        0 => [2u8, 0, 1, 9, 10, 11, 3, 4, 5, 6, 7, 8],
        1 => [1u8, 2, 0, 6, 7, 8, 9, 10, 11, 3, 4, 5],
        2 => [3u8, 4, 5, 0, 1, 2, 11, 9, 10, 7, 8, 6],
        3 => [8u8, 6, 7, 10, 11, 9, 1, 2, 0, 5, 3, 4],
        _ => [0u8, 2, 1, 3, 5, 4, 9, 11, 10, 6, 8, 7],
    };
    assert(r@ =~= sym_ce2_spec(k as int));
    r
}

/// Relabelling of (centre, twist) slots, numbered `3 * centre + twist`, under each elementary symmetry but x2.
pub open spec fn sym_ct_spec(k: int) -> Seq<u8> {
    if k == 0 {
        seq![0u8, 1, 2, 9, 10, 11, 3, 4, 5, 6, 7, 8]
    } else if k == 1 {
        seq![0u8, 1, 2, 6, 7, 8, 9, 10, 11, 3, 4, 5]
    } else if k == 2 {
        seq![3u8, 4, 5, 0, 1, 2, 9, 10, 11, 6, 7, 8]
    } else if k == 3 {
        seq![6u8, 7, 8, 9, 10, 11, 0, 1, 2, 3, 4, 5]
    } else {
        seq![0u8, 2, 1, 3, 5, 4, 9, 11, 10, 6, 8, 7]
    }
}

/// Relabelling of (centre, twist) slots, numbered `3 * centre + twist`, under each elementary symmetry but x2.
pub fn sym_ct(k: u8) -> (r: [u8; 12])
    requires
        k < 5,
    ensures
        r@ == sym_ct_spec(k as int),
        is_perm(r@),
{
    let r = match k {
        0 => [0u8, 1, 2, 9, 10, 11, 3, 4, 5, 6, 7, 8],
        1 => [0u8, 1, 2, 6, 7, 8, 9, 10, 11, 3, 4, 5],
        2 => [3u8, 4, 5, 0, 1, 2, 9, 10, 11, 6, 7, 8],
        3 => [6u8, 7, 8, 9, 10, 11, 0, 1, 2, 3, 4, 5],
        _ => [0u8, 2, 1, 3, 5, 4, 9, 11, 10, 6, 8, 7],
    };
    assert(r@ =~= sym_ct_spec(k as int));
    r
}

/// Every face turn moves each piece group by a permutation.
pub proof fn lemma_turn_data(face: int)
    requires
        0 <= face < 8,
    ensures
        is_perm(turn_cp_spec(face)) && turn_cp_spec(face).len() == 6,
        turn_co_spec(face).len() == 6,
        is_perm(turn_ep_spec(face)) && turn_ep_spec(face).len() == 12,
        is_perm(turn_ce1_spec(face)) && turn_ce1_spec(face).len() == 12,
        is_perm(turn_ce2_spec(face)) && turn_ce2_spec(face).len() == 12,
        face < 4 ==> is_perm(turn_ce_spec(face)) && turn_ce_spec(face).len() == 4,
        face < 4 ==> turn_ct_spec(face).len() == 4 && forall|i: int| 0 <= i < 4 ==> #[trigger] turn_ct_spec(face)[i] < 3,
{
    if face == 0 {
        assert(is_perm(turn_cp_spec(0)));
        assert(is_perm(turn_ep_spec(0)));
        assert(is_perm(turn_ce1_spec(0)));
        assert(is_perm(turn_ce2_spec(0)));
        assert(is_perm(turn_ce_spec(0)));
        assert(forall|i: int| 0 <= i < 4 ==> #[trigger] turn_ct_spec(0)[i] < 3);
    }
    if face == 1 {
        assert(is_perm(turn_cp_spec(1)));
        assert(is_perm(turn_ep_spec(1)));
        assert(is_perm(turn_ce1_spec(1)));
        assert(is_perm(turn_ce2_spec(1)));
        assert(is_perm(turn_ce_spec(1)));
        assert(forall|i: int| 0 <= i < 4 ==> #[trigger] turn_ct_spec(1)[i] < 3);
    }
    if face == 2 {
        assert(is_perm(turn_cp_spec(2)));
        assert(is_perm(turn_ep_spec(2)));
        assert(is_perm(turn_ce1_spec(2)));
        assert(is_perm(turn_ce2_spec(2)));
        assert(is_perm(turn_ce_spec(2)));
        assert(forall|i: int| 0 <= i < 4 ==> #[trigger] turn_ct_spec(2)[i] < 3);
    }
    if face == 3 {
        assert(is_perm(turn_cp_spec(3)));
        assert(is_perm(turn_ep_spec(3)));
        assert(is_perm(turn_ce1_spec(3)));
        assert(is_perm(turn_ce2_spec(3)));
        assert(is_perm(turn_ce_spec(3)));
        assert(forall|i: int| 0 <= i < 4 ==> #[trigger] turn_ct_spec(3)[i] < 3);
    }
    if face == 4 {
        assert(is_perm(turn_cp_spec(4)));
        assert(is_perm(turn_ep_spec(4)));
        assert(is_perm(turn_ce1_spec(4)));
        assert(is_perm(turn_ce2_spec(4)));
    }
    if face == 5 {
        assert(is_perm(turn_cp_spec(5)));
        assert(is_perm(turn_ep_spec(5)));
        assert(is_perm(turn_ce1_spec(5)));
        assert(is_perm(turn_ce2_spec(5)));
    }
    if face == 6 {
        assert(is_perm(turn_cp_spec(6)));
        assert(is_perm(turn_ep_spec(6)));
        assert(is_perm(turn_ce1_spec(6)));
        assert(is_perm(turn_ce2_spec(6)));
    }
    if face == 7 {
        assert(is_perm(turn_cp_spec(7)));
        assert(is_perm(turn_ep_spec(7)));
        assert(is_perm(turn_ce1_spec(7)));
        assert(is_perm(turn_ce2_spec(7)));
    }
}

/// Every elementary symmetry relabels each piece group by a permutation.
pub proof fn lemma_sym_data(k: int)
    requires
        0 <= k < 6,
    ensures
        is_perm(sym_cp_spec(k)) && sym_cp_spec(k).len() == 6,
        sym_co_spec(k).len() == 6,
        is_perm(sym_ce_spec(k)) && sym_ce_spec(k).len() == 4,
        is_perm(sym_ep_spec(k)) && sym_ep_spec(k).len() == 12,
        k < 5 ==> is_perm(sym_ce1_spec(k)) && sym_ce1_spec(k).len() == 12,
        k < 5 ==> is_perm(sym_ce2_spec(k)) && sym_ce2_spec(k).len() == 12,
        k < 5 ==> is_perm(sym_ct_spec(k)) && sym_ct_spec(k).len() == 12,
        k < 5 ==> forall|i: int| 0 <= i < 4 ==> #[trigger] sym_ct_spec(k)[3 * i] % 3 == 0,
{
    if k == 0 {
        assert(is_perm(sym_cp_spec(0)));
        assert(is_perm(sym_ce_spec(0)));
        assert(is_perm(sym_ep_spec(0)));
        assert(is_perm(sym_ce1_spec(0)));
        assert(is_perm(sym_ce2_spec(0)));
        assert(is_perm(sym_ct_spec(0)));
        assert(forall|i: int| 0 <= i < 4 ==> #[trigger] sym_ct_spec(0)[3 * i] % 3 == 0);
    }
    if k == 1 {
        assert(is_perm(sym_cp_spec(1)));
        assert(is_perm(sym_ce_spec(1)));
        assert(is_perm(sym_ep_spec(1)));
        assert(is_perm(sym_ce1_spec(1)));
        assert(is_perm(sym_ce2_spec(1)));
        assert(is_perm(sym_ct_spec(1)));
        assert(forall|i: int| 0 <= i < 4 ==> #[trigger] sym_ct_spec(1)[3 * i] % 3 == 0);
    }
    if k == 2 {
        assert(is_perm(sym_cp_spec(2)));
        assert(is_perm(sym_ce_spec(2)));
        assert(is_perm(sym_ep_spec(2)));
        assert(is_perm(sym_ce1_spec(2)));
        assert(is_perm(sym_ce2_spec(2)));
        assert(is_perm(sym_ct_spec(2)));
        assert(forall|i: int| 0 <= i < 4 ==> #[trigger] sym_ct_spec(2)[3 * i] % 3 == 0);
    }
    if k == 3 {
        assert(is_perm(sym_cp_spec(3)));
        assert(is_perm(sym_ce_spec(3)));
        assert(is_perm(sym_ep_spec(3)));
        assert(is_perm(sym_ce1_spec(3)));
        assert(is_perm(sym_ce2_spec(3)));
        assert(is_perm(sym_ct_spec(3)));
        assert(forall|i: int| 0 <= i < 4 ==> #[trigger] sym_ct_spec(3)[3 * i] % 3 == 0);
    }
    if k == 4 {
        assert(is_perm(sym_cp_spec(4)));
        assert(is_perm(sym_ce_spec(4)));
        assert(is_perm(sym_ep_spec(4)));
        assert(is_perm(sym_ce1_spec(4)));
        assert(is_perm(sym_ce2_spec(4)));
        assert(is_perm(sym_ct_spec(4)));
        assert(forall|i: int| 0 <= i < 4 ==> #[trigger] sym_ct_spec(4)[3 * i] % 3 == 0);
    }
    if k == 5 {
        assert(is_perm(sym_cp_spec(5)));
        assert(is_perm(sym_ce_spec(5)));
        assert(is_perm(sym_ep_spec(5)));
    }
}

} // verus!
