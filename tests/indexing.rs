use fto_solver::indexing::{hash_orientation, hash_permutation, unrank_orientation, unrank_permutation, unwrap_turn};
use fto_solver::state::statecenters::StateCenters;
use fto_solver::state::statecorners::StateCorners;
use fto_solver::state::statecp::StateCP;
use fto_solver::state::{unwrap_big_sym, unwrap_sym, unwrap_xbig_sym, State};

fn all_permutations(n: usize) -> Vec<Vec<u8>> {
    if n == 0 {
        return vec![vec![]];
    }
    let mut out = Vec::new();
    for p in all_permutations(n - 1) {
        for pos in 0..n {
            let mut q = p.clone();
            q.insert(pos, (n - 1) as u8);
            out.push(q);
        }
    }
    out
}

fn is_even(p: &[u8]) -> bool {
    let mut inversions = 0;
    for i in 0..p.len() {
        for j in i + 1..p.len() {
            if p[i] > p[j] {
                inversions += 1;
            }
        }
    }
    inversions % 2 == 0
}

#[test]
fn permutation_rank_values() {
    assert_eq!(hash_permutation(&[0, 1, 2, 3, 4, 5]), 0);
    assert_eq!(hash_permutation(&[1, 0, 2, 3, 4, 5]), 0);
    assert_eq!(hash_permutation(&[0, 1, 2, 3, 5, 4]), 60);
    assert_eq!(hash_permutation(&[5, 4, 3, 2, 1, 0]), 359);
    assert_eq!(hash_permutation(&[0, 1, 3, 2]), 3);
    assert_eq!(hash_permutation(&[3, 2, 1, 0]), 11);
}

#[test]
fn orientation_rank_values() {
    assert_eq!(hash_orientation(&[true; 6]), 0);
    assert_eq!(hash_orientation(&[true, false, true, true, true, true]), 16);
    assert_eq!(hash_orientation(&[false, true, true, true, true, false]), 1);
    assert_eq!(hash_orientation(&[true, false, false, false, false, false]), 31);
}

#[test]
fn unrank_then_rank_is_identity() {
    for x in 0..360 {
        let p = unrank_permutation(x, 6);
        assert_eq!(hash_permutation(&p), x);
        assert!(is_even(&p));
    }
    for x in 0..12 {
        let p = unrank_permutation(x, 4);
        assert_eq!(hash_permutation(&p), x);
        assert!(is_even(&p));
    }
    for x in 0..32 {
        assert_eq!(hash_orientation(&unrank_orientation(x)), x);
    }
}

#[test]
fn rank_then_unrank_is_identity() {
    for n in [4usize, 6] {
        for p in all_permutations(n) {
            if is_even(&p) {
                assert_eq!(unrank_permutation(hash_permutation(&p), n), p);
            }
        }
    }
    for bits in 0..64u32 {
        let co: Vec<bool> = (0..6).map(|i| (bits >> i) & 1 == 0).collect();
        if co.iter().filter(|&&o| !o).count() % 2 == 0 {
            let back = unrank_orientation(hash_orientation(&co));
            assert_eq!(back.to_vec(), co);
        }
    }
}

#[test]
fn state_round_trips() {
    for x in 0..StateCP::raw_size() {
        assert_eq!(StateCP::from_hash(x).get_hash(), x);
    }
    for x in 0..StateCorners::raw_size() {
        assert_eq!(StateCorners::from_hash(x).get_hash(), x);
    }
    for x in 0..StateCenters::raw_size() {
        assert_eq!(StateCenters::from_hash(x).get_hash(), x);
    }
}

#[test]
fn unrank_orientation_keeps_parity() {
    for x in 0..32 {
        let co = unrank_orientation(x);
        assert_eq!(co.iter().filter(|&&o| !o).count() % 2, 0);
    }
    assert_eq!(unrank_orientation(0), [true; 6]);
    assert_eq!(unrank_orientation(16), [false, false, true, true, true, true]);
}

#[test]
fn identifiers_split_into_bits() {
    assert_eq!(unwrap_turn(5), (2, false));
    assert_eq!(unwrap_turn(14), (7, true));
    assert_eq!(unwrap_sym(13), (true, false, true, 1));
    assert_eq!(unwrap_sym(22), (false, true, true, 2));
    assert_eq!(unwrap_big_sym(22), (false, true, true, false, 1));
    assert_eq!(unwrap_xbig_sym(43), (true, true, false, true, false, 1));
    assert_eq!(unwrap_xbig_sym(95), (true, true, true, true, true, 2));
}
