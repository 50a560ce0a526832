use reindeer_maze::data::{Compass, Dir, PresentLocation};
use reindeer_maze::rng::Rng;

#[test]
fn move_pos_steps_each_way() {
    assert_eq!(Dir::N.move_pos((3, 4)), Some((3, 5)));
    assert_eq!(Dir::E.move_pos((3, 4)), Some((4, 4)));
    assert_eq!(Dir::S.move_pos((3, 4)), Some((3, 3)));
    assert_eq!(Dir::W.move_pos((3, 4)), Some((2, 4)));
}

#[test]
fn move_pos_blocks_below_zero() {
    assert_eq!(Dir::S.move_pos((5, 0)), None);
    assert_eq!(Dir::W.move_pos((0, 5)), None);
    assert_eq!(Dir::N.move_pos((0, usize::MAX)), None);
    assert_eq!(Dir::E.move_pos((usize::MAX, 0)), None);
}

#[test]
fn step_then_opposite_returns() {
    let p = (7, 9);
    for d in [Dir::N, Dir::E, Dir::S, Dir::W] {
        let q = d.move_pos(p).unwrap();
        assert_eq!(d.opposite().move_pos(q), Some(p));
    }
    let north = Dir::N.move_pos((2, 2)).unwrap();
    assert_eq!(Dir::S.move_pos(north), Some((2, 2)));
}

#[test]
fn parses_direction_letters() {
    assert_eq!(Dir::from_str("N"), Some(Dir::N));
    assert_eq!(Dir::from_str("n"), Some(Dir::N));
    assert_eq!(Dir::from_str("E"), Some(Dir::E));
    assert_eq!(Dir::from_str("e"), Some(Dir::E));
    assert_eq!(Dir::from_str("S"), Some(Dir::S));
    assert_eq!(Dir::from_str("s"), Some(Dir::S));
    assert_eq!(Dir::from_str("W"), Some(Dir::W));
    assert_eq!(Dir::from_str("w"), Some(Dir::W));
}

#[test]
fn rejects_other_commands() {
    assert_eq!(Dir::from_str("Q"), None);
    assert_eq!(Dir::from_str(""), None);
    assert_eq!(Dir::from_str("NN"), None);
    assert_eq!(Dir::from_str("x"), None);
}

#[test]
fn compass_line_format() {
    let c = Compass { north: 1, east: 2, south: 10, west: 0, present: PresentLocation::Unknown };
    assert_eq!(c.to_line(), b"N1 E2 S10 W0 P?".to_vec());
    let c = Compass { north: 0, east: 0, south: 0, west: 0, present: PresentLocation::Here };
    assert_eq!(c.to_line(), b"N0 E0 S0 W0 PX".to_vec());
    let c = Compass {
        north: 123,
        east: 45,
        south: 6,
        west: 7890,
        present: PresentLocation::InDir(Dir::W),
    };
    assert_eq!(c.to_line(), b"N123 E45 S6 W7890 PW".to_vec());
    let c = Compass { north: 3, east: 0, south: 0, west: 0, present: PresentLocation::InDir(Dir::N) };
    assert_eq!(c.to_line(), b"N3 E0 S0 W0 PN".to_vec());
}

#[test]
fn rng_xorshift_values() {
    let mut r = Rng::new(1);
    assert_eq!(r.next_u64(), 1082269761);
    let mut z = Rng::new(0);
    assert_ne!(z.state, 0);
    let mut r = Rng::new(42);
    for n in 1..50usize {
        assert!(r.below(n) < n);
    }
}
