use fto_solver::combination::hash_centers;
use fto_solver::sequences::{calc_comb_fto, calc_comb_std};

fn arrangements(left: &mut [usize; 4], prefix: &mut Vec<u8>, out: &mut Vec<usize>) {
    if prefix.len() == 12 {
        out.push(hash_centers(prefix));
        return;
    }
    for c in 0..4 {
        if left[c] > 0 {
            left[c] -= 1;
            prefix.push(c as u8);
            arrangements(left, prefix, out);
            prefix.pop();
            left[c] += 1;
        }
    }
}

#[test]
fn centre_rank_values() {
    assert_eq!(hash_centers(&[0, 0, 0, 1, 1, 1, 2, 2, 2, 3, 3, 3]), 0);
    assert_eq!(hash_centers(&[3, 3, 3, 2, 2, 2, 1, 1, 1, 0, 0, 0]), 369599);
    assert_eq!(hash_centers(&[1, 0, 0, 0, 1, 1, 2, 2, 2, 3, 3, 3]), 92400);
    assert_eq!(hash_centers(&[0, 1, 2, 3, 0, 1, 2, 3, 0, 1, 2, 3]), 50705);
}

#[test]
fn centre_ranks_are_distinct_and_dense() {
    let mut ranks = Vec::new();
    arrangements(&mut [3, 3, 3, 3], &mut Vec::new(), &mut ranks);
    assert_eq!(ranks.len(), 369600);
    ranks.sort();
    for (i, r) in ranks.iter().enumerate() {
        assert_eq!(*r, i);
    }
}

#[test]
fn sequence_counts() {
    assert_eq!(calc_comb_std(1, 0), 18);
    assert_eq!(calc_comb_std(3, 0), 3240);
    assert_eq!(calc_comb_std(20, 0), 43946585901564160587264);
    assert_eq!(calc_comb_std(5, 7), 1);
    assert_eq!(calc_comb_fto(1, 0), 16);
    assert_eq!(calc_comb_fto(3, 0), 2688);
    assert_eq!(calc_comb_fto(21, 0), 273607422274553990086656);
}
