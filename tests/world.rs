use reindeer_maze::data::{Dir, PresentLocation};
use reindeer_maze::maze::{generate_maze, processor, Maze, MazeInfo, MazeMsg, MazeReply};
use reindeer_maze::player::PlayerHandle;
use reindeer_maze::rng::Rng;

fn reached_all(walls: &Vec<Vec<bool>>, start: (usize, usize)) -> bool {
    let w = walls.len();
    let h = walls[0].len();
    let mut seen = vec![vec![false; h]; w];
    let mut stack = vec![start];
    seen[start.0][start.1] = true;
    while let Some((x, y)) = stack.pop() {
        let mut next = Vec::new();
        if x > 0 { next.push((x - 1, y)); }
        if x + 1 < w { next.push((x + 1, y)); }
        if y > 0 { next.push((x, y - 1)); }
        if y + 1 < h { next.push((x, y + 1)); }
        for (a, b) in next {
            if !walls[a][b] && !seen[a][b] {
                seen[a][b] = true;
                stack.push((a, b));
            }
        }
    }
    (0..w).all(|x| (0..h).all(|y| walls[x][y] || seen[x][y]))
}

fn open_and_edges(walls: &Vec<Vec<bool>>) -> (usize, usize) {
    let w = walls.len();
    let h = walls[0].len();
    let mut open = 0;
    let mut edges = 0;
    for x in 0..w {
        for y in 0..h {
            if !walls[x][y] {
                open += 1;
                if x + 1 < w && !walls[x + 1][y] { edges += 1; }
                if y + 1 < h && !walls[x][y + 1] { edges += 1; }
            }
        }
    }
    (open, edges)
}

fn added(r: MazeReply) -> Option<(u64, (usize, usize))> {
    match r {
        MazeReply::Added(a) => a,
        _ => panic!("unexpected reply"),
    }
}

#[test]
fn generated_mazes_are_connected_trees() {
    for &(w, h) in &[(1usize, 1usize), (1, 6), (6, 1), (2, 2), (3, 3), (7, 5), (12, 9), (50, 50)] {
        for seed in 1..6u64 {
            let start = (w / 2, h / 2);
            let mut rng = Rng::new(seed);
            let walls = generate_maze(w, h, start, &mut rng);
            assert_eq!(walls.len(), w);
            assert!(walls.iter().all(|c| c.len() == h));
            assert!(!walls[start.0][start.1]);
            assert!(reached_all(&walls, start));
            let (open, edges) = open_and_edges(&walls);
            assert_eq!(edges + 1, open);
        }
    }
}

#[test]
fn three_by_three_maze_is_a_plus() {
    let m = Maze::new(3, 3, 7);
    let info = m.info();
    assert_eq!(info.present, (1, 1));
    let expect = vec![vec![true, false, true], vec![false, false, false], vec![true, false, true]];
    assert_eq!(info.walls, expect);
}

#[test]
fn valid_locations_and_free_runs() {
    let m = Maze::new(3, 3, 11);
    let info = m.info();
    assert!(info.is_valid_location((1, 1)));
    assert!(!info.is_valid_location((0, 0)));
    assert!(!info.is_valid_location((3, 1)));
    assert!(!info.is_valid_location((1, 3)));
    assert_eq!(info.measure_free((1, 0), Dir::N), 2);
    assert_eq!(info.measure_free((1, 0), Dir::S), 0);
    assert_eq!(info.measure_free((0, 1), Dir::E), 2);
    assert_eq!(info.measure_free((1, 1), Dir::W), 1);
}

#[test]
fn player_on_present_sees_it_here() {
    let mut m = Maze::new(3, 3, 5);
    let (id, pos) = added(processor(&mut m, MazeMsg::AddPlayer("a".to_string(), (1, 1)))).unwrap();
    let p = PlayerHandle { id, pos };
    let c = p.get_compass(&m);
    assert_eq!(c.present, PresentLocation::Here);
    assert_eq!(c.to_line(), b"N1 E1 S1 W1 PX".to_vec());
}

#[test]
fn player_below_present_sees_it_north() {
    let mut m = Maze::new(3, 3, 5);
    let (id, pos) = added(processor(&mut m, MazeMsg::AddPlayer("b".to_string(), (1, 0)))).unwrap();
    let p = PlayerHandle { id, pos };
    let c = p.get_compass(&m);
    assert_eq!(c.present, PresentLocation::InDir(Dir::N));
    assert_eq!(c.to_line(), b"N2 E0 S0 W0 PN".to_vec());
}

#[test]
fn west_hint_needs_a_clear_corridor() {
    let mut info = MazeInfo { width: 5, height: 1, walls: vec![vec![false]; 5], present: (0, 0) };
    let c = info.compass_at((4, 0));
    assert_eq!(c.west, 4);
    assert_eq!(c.present, PresentLocation::InDir(Dir::W));
    info.walls[2][0] = true;
    let c = info.compass_at((4, 0));
    assert_eq!(c.west, 1);
    assert_eq!(c.present, PresentLocation::Unknown);
    let c = info.compass_at((1, 0));
    assert_eq!(c.west, 1);
    assert_eq!(c.present, PresentLocation::InDir(Dir::W));
}

#[test]
fn off_axis_present_is_unknown() {
    let info = MazeInfo { width: 3, height: 3, walls: vec![vec![false; 3]; 3], present: (1, 1) };
    let c = info.compass_at((0, 0));
    assert_eq!(c.present, PresentLocation::Unknown);
    assert_eq!(c.north, 2);
    assert_eq!(c.east, 2);
}

#[test]
fn bad_command_changes_nothing() {
    let mut m = Maze::new(9, 9, 3);
    let mut p = m.add_player("team").unwrap();
    let before = p.get_compass(&m);
    let pos = p.pos;
    assert_eq!(p.handle_command(&mut m, "Q"), None);
    assert_eq!(p.pos, pos);
    assert_eq!(p.get_compass(&m), before);
}

#[test]
fn blocked_steps_keep_position() {
    let mut m = Maze::new(3, 3, 5);
    let (id, pos) = added(processor(&mut m, MazeMsg::AddPlayer("c".to_string(), (1, 0)))).unwrap();
    let mut p = PlayerHandle { id, pos };
    assert!(!p.walk(&mut m, Dir::S));
    assert!(!p.walk(&mut m, Dir::E));
    assert!(!p.walk(&mut m, Dir::W));
    assert_eq!(p.pos, (1, 0));
    assert!(p.walk(&mut m, Dir::N));
    assert_eq!(p.pos, (1, 1));
    let c = p.handle_command(&mut m, "n").unwrap();
    assert_eq!(p.pos, (1, 2));
    assert_eq!(c.to_line(), b"N0 E0 S2 W0 PS".to_vec());
}

#[test]
fn remove_twice_is_harmless() {
    let mut m = Maze::new(5, 5, 9);
    let a = m.add_player("a").unwrap();
    let b = m.add_player("b").unwrap();
    a.remove(&mut m);
    let once = m.players();
    a.remove(&mut m);
    let twice = m.players();
    assert_eq!(once.len(), 1);
    assert_eq!(twice.len(), 1);
    assert_eq!(twice[0].name, "b");
    assert_eq!(twice[0].pos, b.pos);
    assert!(matches!(processor(&mut m, MazeMsg::RemovePlayer(99)), MazeReply::Removed));
    assert_eq!(m.players().len(), 1);
}

#[test]
fn ids_grow_and_never_repeat() {
    let mut m = Maze::new(5, 5, 13);
    let mut ids = Vec::new();
    for i in 0..4 {
        let h = m.add_player("p").unwrap();
        ids.push(h.id);
        if i % 2 == 0 {
            h.remove(&mut m);
        }
    }
    assert_eq!(ids, vec![1, 2, 3, 4]);
    assert_eq!(m.players().len(), 2);
}

#[test]
fn two_joins_get_distinct_ids() {
    let mut m = Maze::new(10, 10, 21);
    let a = m.add_player("one").unwrap();
    let b = m.add_player("two").unwrap();
    assert_ne!(a.id, b.id);
    assert!(m.info().is_valid_location(a.pos));
    assert!(m.info().is_valid_location(b.pos));
    let c = m.add_player("three").unwrap();
    b.remove(&mut m);
    let names: Vec<String> = m.players().into_iter().map(|p| p.name).collect();
    assert_eq!(names, vec!["one".to_string(), "three".to_string()]);
    assert_ne!(c.id, a.id);
}

#[test]
fn placing_on_a_wall_is_refused() {
    let mut m = Maze::new(3, 3, 5);
    assert_eq!(added(processor(&mut m, MazeMsg::AddPlayer("x".to_string(), (0, 0)))), None);
    assert_eq!(added(processor(&mut m, MazeMsg::AddPlayer("x".to_string(), (5, 1)))), None);
    let (id, _) = added(processor(&mut m, MazeMsg::AddPlayer("y".to_string(), (1, 2)))).unwrap();
    assert_eq!(id, 1);
    assert!(matches!(processor(&mut m, MazeMsg::MovePlayer(id, (0, 0))), MazeReply::Moved(false)));
    assert!(matches!(processor(&mut m, MazeMsg::MovePlayer(7, (1, 1))), MazeReply::Moved(false)));
    assert!(matches!(processor(&mut m, MazeMsg::MovePlayer(id, (2, 1))), MazeReply::Moved(true)));
    match processor(&mut m, MazeMsg::GetPlayers) {
        MazeReply::Players(v) => {
            assert_eq!(v.len(), 1);
            assert_eq!(v[0].name, "y");
            assert_eq!(v[0].pos, (2, 1));
        }
        _ => panic!("unexpected reply"),
    }
}

#[test]
fn set_pos_follows_the_store() {
    let mut m = Maze::new(3, 3, 5);
    let mut p = m.add_player("z").unwrap();
    assert!(p.set_pos(&mut m, (1, 1)));
    assert_eq!(p.pos, (1, 1));
    assert!(!p.set_pos(&mut m, (2, 2)));
    assert_eq!(p.pos, (1, 1));
    assert_eq!(m.players()[0].pos, (1, 1));
}

#[test]
fn single_cell_maze() {
    let mut m = Maze::new(1, 1, 1);
    let p = m.add_player("solo").unwrap();
    assert_eq!(p.pos, (0, 0));
    assert_eq!(p.get_compass(&m).to_line(), b"N0 E0 S0 W0 PX".to_vec());
}

#[test]
fn maze_answers_location_and_free_run() {
    let m = Maze::new(3, 3, 2);
    assert!(m.is_valid_location((1, 2)));
    assert!(!m.is_valid_location((2, 2)));
    assert!(!m.is_valid_location((1, 7)));
    assert_eq!(m.measure_free((1, 1), Dir::N), 1);
    assert_eq!(m.measure_free((0, 1), Dir::E), 2);
    assert_eq!(m.measure_free((0, 1), Dir::W), 0);
}
