use fto_solver::pruning::{claim, read, table_is_full, PruningTable};
use fto_solver::solver::solverfto2split::SolverFTO2Split;
use fto_solver::solver::SolveError;
use fto_solver::state::statefto2::StateFTO2;
use fto_solver::state::State;
use fto_solver::stateset::statesetfto2split::StateSetFTO2Split;
use fto_solver::stateset::StateSet;

fn split_set() -> StateSetFTO2Split {
    StateSetFTO2Split::build().expect("tables build")
}

#[test]
fn claims_keep_first_value_and_siblings() {
    let mut t = vec![255u8; 2];
    assert!(claim(&mut t, 5, 2));
    assert_eq!(read(&t, 5), 2);
    assert!(!claim(&mut t, 5, 1));
    assert_eq!(read(&t, 5), 2);
    assert!(claim(&mut t, 4, 0));
    assert!(claim(&mut t, 7, 1));
    assert_eq!((read(&t, 4), read(&t, 5), read(&t, 6), read(&t, 7)), (0, 2, 3, 1));
    assert_eq!(t[0], 255);
    assert!(!table_is_full(&t, 8));
}

#[test]
fn split_table_is_complete_with_fill_last() {
    let pruning = PruningTable::new(split_set());
    let set = &pruning.set;
    assert_eq!(set.size(), 6048);
    let (table, _depth) = pruning.generate(true);
    assert_eq!(table.len(), (6048 + 3) / 4);
    assert!(table_is_full(&table, set.size()));
    assert_eq!(read(&table, set.solved()), 0);
}

#[test]
fn split_table_is_complete_without_fill_last() {
    let pruning = PruningTable::new(split_set());
    let set = &pruning.set;
    let (table, _depth) = pruning.generate(false);
    assert!(table_is_full(&table, set.size()));
}

#[test]
fn split_table_layers_are_adjacent() {
    let pruning = PruningTable::new(split_set());
    let set = &pruning.set;
    let (table, _depth) = pruning.generate(false);
    let solved_class: Vec<usize> = {
        let mut v = set.get_sym_hashes(set.solved());
        v.push(set.solved());
        v
    };
    for i in 0..set.size() {
        if solved_class.contains(&i) {
            continue;
        }
        let d = read(&table, i);
        let closer = set.get_next_state_sets(i).into_iter().any(|n| (read(&table, n) + 1) % 3 == d);
        assert!(closer, "state {} has no neighbour one layer closer", i);
    }
}

#[test]
fn generation_is_deterministic() {
    let pruning = PruningTable::new(split_set());
    let (a, da) = pruning.generate(true);
    let (b, db) = pruning.generate(true);
    assert_eq!(a, b);
    assert_eq!(da, db);
}

#[test]
fn solving_solved_gives_nothing() {
    let solver = SolverFTO2Split::new(split_set());
    assert_eq!(solver.solve(&StateFTO2::solved()), Ok(vec![]));
}

#[test]
fn solving_two_move_scrambles() {
    let solver = SolverFTO2Split::new(split_set());
    for m1 in 0..8u8 {
        for m2 in 0..8u8 {
            let mut s = StateFTO2::solved();
            s.apply_turn(m1);
            s.apply_turn(m2);
            let moves = solver.solve(&s).expect("a solution");
            assert!(moves.len() <= 2);
            for t in moves {
                s.apply_turn(t);
            }
            let solved = StateFTO2::solved();
            assert_eq!((s.cp, s.co, s.ce), (solved.cp, solved.co, solved.ce));
        }
    }
}

#[test]
fn solving_random_configurations() {
    let solver = SolverFTO2Split::new(split_set());
    for x in (0..StateFTO2::raw_size()).step_by(4111) {
        let mut s = StateFTO2::from_hash(x);
        let moves = solver.solve(&s).expect("a solution");
        assert!(moves.len() <= 10);
        for t in moves {
            s.apply_turn(t);
        }
        assert_eq!(s.get_hash(), StateFTO2::solved().get_hash());
    }
}

#[test]
fn wrong_table_length_is_refused() {
    assert!(SolverFTO2Split::with_table(split_set(), vec![0u8; 3]).is_none());
    let solver = SolverFTO2Split::with_table(split_set(), vec![255u8; 1512]).unwrap();
    let mut s = StateFTO2::solved();
    s.apply_turn(0);
    assert_eq!(solver.solve(&s), Err(SolveError::NoImprovingMove));
}

#[test]
fn malformed_tables_are_refused() {
    let set = split_set();
    let bad_reprs: Vec<usize> = set.corner_reprs.iter().rev().cloned().collect();
    assert!(StateSetFTO2Split::new(bad_reprs, set.corner_turns.clone(), set.centre_turns.clone(), set.centre_syms.clone()).is_none());
    assert!(StateSetFTO2Split::new(set.corner_reprs.clone(), vec![0; 5], set.centre_turns.clone(), set.centre_syms.clone()).is_none());
    assert!(StateSetFTO2Split::new(set.corner_reprs.clone(), set.corner_turns.clone(), set.centre_turns.clone(), set.centre_syms.clone()).is_some());
}
