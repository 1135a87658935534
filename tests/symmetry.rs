use fto_solver::state::statecenters::StateCenters;
use fto_solver::state::statecorners::StateCorners;
use fto_solver::state::statecp::StateCP;
use fto_solver::state::statefto::StateFTO;
use fto_solver::state::statefto2::StateFTO2;
use fto_solver::state::statepyra::StatePyra;
use fto_solver::state::State;
use fto_solver::symmetry::{generate_symhash_table, get_repr, get_sym_hash, get_sym_hash_from_repr, get_sym_hash_sym, get_syms};

#[test]
fn solved_is_fixed_by_every_symmetry() {
    for sym in 0..24 {
        let mut s = StateCorners::solved();
        s.wrap_sym(sym);
        assert_eq!(s.get_hash(), 0);
        let mut c = StateCenters::solved();
        c.wrap_sym(sym);
        assert_eq!(c.get_hash(), StateCenters::solved().get_hash());
        let mut p = StateCP::solved();
        p.wrap_sym(sym);
        assert_eq!(p.get_hash(), 0);
    }
    for sym in 0..96 {
        let mut s = StateFTO2::solved();
        s.wrap_sym(sym);
        assert_eq!(s.get_hash(), StateFTO2::solved().get_hash());
    }
    for sym in 0..48 {
        let mut s = StatePyra::solved();
        s.wrap_sym(sym);
        assert_eq!(s.get_hash(), StatePyra::solved().get_hash());
        let mut f = StateFTO::solved();
        f.wrap_sym(sym);
        let g = StateFTO::solved();
        assert_eq!((f.cp, f.co, f.ep, f.ce1, f.ce2), (g.cp, g.co, g.ep, g.ce1, g.ce2));
    }
}

#[test]
fn corner_representatives() {
    let table = generate_symhash_table::<StateCorners>();
    assert_eq!(table.len(), 504);
    assert_eq!(table[0], 0);
    for w in table.windows(2) {
        assert!(w[0] < w[1]);
    }
    let cp_table = generate_symhash_table::<StateCP>();
    assert_eq!(cp_table.len(), 22);
}

#[test]
fn sym_hash_is_invariant_under_symmetry() {
    let table = generate_symhash_table::<StateCorners>();
    for x in (0..StateCorners::raw_size()).step_by(13) {
        let s = StateCorners::from_hash(x);
        let h = get_sym_hash(&s, &table).unwrap();
        for sym in 0..24 {
            let mut t = s;
            t.wrap_sym(sym);
            assert_eq!(get_sym_hash(&t, &table), Some(h));
        }
        let (h2, sym) = get_sym_hash_sym(&s, &table).unwrap();
        assert_eq!(h2, h);
        let mut t = s;
        t.wrap_sym(sym);
        assert_eq!(t.get_hash(), table[h]);
        assert_eq!(get_repr(&s), table[h]);
    }
}

#[test]
fn binary_search_in_representatives() {
    let table = vec![1usize, 4, 9, 16, 25];
    assert_eq!(get_sym_hash_from_repr(&table, 16), Some(3));
    assert_eq!(get_sym_hash_from_repr(&table, 1), Some(0));
    assert_eq!(get_sym_hash_from_repr(&table, 10), None);
    assert_eq!(get_sym_hash_from_repr(&Vec::new(), 0), None);
}

#[test]
fn syms_fixing_solved_are_all() {
    let syms = get_syms(&StateCorners::solved());
    assert_eq!(syms, (0..24).collect::<Vec<u8>>());
    let s = StateCorners::from_hash(5000);
    let fixing = get_syms(&s);
    assert!(fixing.contains(&0));
    for sym in fixing {
        let mut t = s;
        t.wrap_sym(sym);
        assert_eq!(t.get_hash(), 5000);
    }
}
