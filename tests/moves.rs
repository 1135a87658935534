use fto_solver::state::statecenters::StateCenters;
use fto_solver::state::statecorners::StateCorners;
use fto_solver::state::statecp::StateCP;
use fto_solver::state::statefto::StateFTO;
use fto_solver::state::statefto2::StateFTO2;
use fto_solver::state::statepyra::StatePyra;
use fto_solver::state::{get_next_states, get_sym_states, State};

#[test]
fn turns_are_undone_corners_and_centres() {
    for x in (0..StateCorners::raw_size()).step_by(7) {
        for face in 0..4u8 {
            let start = StateCorners::from_hash(x);
            let mut s = start;
            s.apply_turn(2 * face);
            s.apply_turn(2 * face + 1);
            assert_eq!(s.cp, start.cp);
            assert_eq!(s.co, start.co);
        }
    }
    for x in 0..12 {
        for face in 0..4u8 {
            let start = StateCenters::from_hash(x);
            let mut s = start;
            s.apply_turn(2 * face);
            s.apply_turn(2 * face + 1);
            assert_eq!(s.ce, start.ce);
        }
    }
    for x in 0..360 {
        for face in 0..4u8 {
            let start = StateCP::from_hash(x);
            let mut s = start;
            s.apply_turn(2 * face);
            s.apply_turn(2 * face + 1);
            assert_eq!(s.cp, start.cp);
        }
    }
}

#[test]
fn turns_are_undone_fto2_and_pyra() {
    for x in (0..StateFTO2::raw_size()).step_by(997) {
        for face in 0..4u8 {
            let start = StateFTO2::from_hash(x);
            let mut s = start;
            s.apply_turn(2 * face);
            s.apply_turn(2 * face + 1);
            assert_eq!((s.cp, s.co, s.ce), (start.cp, start.co, start.ce));
        }
    }
    for x in (0..StatePyra::raw_size()).step_by(4999) {
        for face in 0..4u8 {
            let start = StatePyra::from_hash(x);
            let mut s = start;
            s.apply_turn(2 * face);
            s.apply_turn(2 * face + 1);
            assert_eq!((s.cp, s.co, s.ct), (start.cp, start.co, start.ct));
        }
    }
}

#[test]
fn turns_are_undone_full_puzzle() {
    let mut start = StateFTO::solved();
    for t in [0u8, 4, 9, 13, 2, 6, 15, 10] {
        start.apply_turn(t);
    }
    for face in 0..8u8 {
        let mut s = start;
        s.apply_turn(2 * face);
        assert!(s.ep != start.ep || s.cp != start.cp);
        s.apply_turn(2 * face + 1);
        assert_eq!((s.cp, s.co, s.ep, s.ce1, s.ce2), (start.cp, start.co, start.ep, start.ce1, start.ce2));
    }
}

#[test]
fn turn_values() {
    let mut s = StateCorners::solved();
    s.apply_turn(0);
    assert_eq!(s.cp, [0, 1, 2, 4, 5, 3]);
    assert_eq!(s.co, [true; 6]);
    let mut s = StateCorners::solved();
    s.apply_turn(2);
    assert_eq!(s.cp, [0, 2, 5, 3, 4, 1]);
    assert_eq!(s.co, [true, false, true, true, true, false]);
    let mut c = StateCenters::solved();
    c.apply_turn(1);
    assert_eq!(c.ce, [0, 3, 1, 2]);
    let mut p = StatePyra::solved();
    p.apply_turn(0);
    assert_eq!(p.ct, [1, 0, 0, 0]);
    p.apply_turn(1);
    p.apply_turn(1);
    assert_eq!(p.ct, [2, 0, 0, 0]);
}

#[test]
fn upper_turns_act_on_the_inverse() {
    let mut s = StateFTO2::from_hash(12345);
    let mut t = s;
    s.apply_turn(8);
    t.inverse();
    t.apply_turn(0);
    assert_eq!((s.cp, s.co, s.ce), (t.cp, t.co, t.ce));
    let mut u = StateFTO2::from_hash(999);
    let v = u;
    u.inverse();
    u.inverse();
    assert_eq!((u.cp, u.co, u.ce), (v.cp, v.co, v.ce));
}

#[test]
fn pyra_conversions() {
    for x in (0..StatePyra::raw_size()).step_by(3331) {
        let p = StatePyra::from_hash(x);
        let f = StateFTO::from_pyra(&p);
        let back = StatePyra::from_fto(&f);
        assert_eq!(back.get_parts(), p.get_parts());
    }
    let mut p = StatePyra::solved();
    p.apply_turn(2);
    let f = StateFTO::from_pyra(&p);
    let mut g = StateFTO::solved();
    g.apply_turn(2);
    assert_eq!(f.ep, g.ep);
    assert_eq!(f.cp, g.cp);
}

#[test]
fn scrambled_configurations_are_valid() {
    for _ in 0..20 {
        let s = StateFTO2::scrambled();
        assert!(s.get_hash() < StateFTO2::raw_size());
        assert_eq!(StateFTO2::from_hash(s.get_hash()).get_parts(), s.get_parts());
        let p = StatePyra::scrambled();
        assert_eq!(StatePyra::from_hash(p.get_hash()).get_parts(), p.get_parts());
    }
}

#[test]
fn neighbour_and_conjugate_lists() {
    let s = StateCorners::from_hash(4321);
    let next = get_next_states(&s);
    assert_eq!(next.len(), 8);
    for (t, n) in next.iter().enumerate() {
        let mut m = s;
        m.apply_turn(t as u8);
        assert_eq!((n.cp, n.co), (m.cp, m.co));
    }
    let syms = get_sym_states(&s);
    assert_eq!(syms.len(), 24);
    assert_eq!(syms[0].get_hash(), s.get_hash());
    let mut w = s;
    w.wrap_sym(17);
    assert_eq!((syms[17].cp, syms[17].co), (w.cp, w.co));
}
