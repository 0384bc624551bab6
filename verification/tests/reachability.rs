use grid_reach::{reachable_in, Level, Player, Pos};

fn default_player() -> Player {
    Player {
        health: 0,
        range: 0,
        movement: 0,
        attack: 0,
        defense: 0,
        range_mod: 0,
        movement_mod: 0,
        attack_mod: 0,
        defense_mod: 0,
    }
}

/// A level with nobody on the grid but the given obstacles; the player stands outside.
fn level_with<const DIM: u8>(obstacles: Vec<Pos>) -> Level<DIM> {
    Level::<DIM> {
        enemies: Vec::new(),
        enemy_pos: Vec::new(),
        player: default_player(),
        player_pos: Pos { x: DIM, y: DIM },
        obstacles,
    }
}

fn manhattan(a: Pos, b: Pos) -> u16 {
    (a.x as i16 - b.x as i16).unsigned_abs() + (a.y as i16 - b.y as i16).unsigned_abs()
}

#[test]
fn same_pos() {
    let level = Level::<5> {
        enemies: Vec::new(),
        enemy_pos: Vec::new(),
        player: default_player(),
        player_pos: Pos { x: 5, y: 5 },
        obstacles: Vec::new(),
    };

    assert!(reachable_in(&level, Pos::new(0, 0), Pos::new(0, 0), 0));
}

#[test]
fn unreachable_pos_unobstructed() {
    let level = Level::<5> {
        enemies: Vec::new(),
        enemy_pos: Vec::new(),
        player: default_player(),
        player_pos: Pos { x: 5, y: 5 },
        obstacles: Vec::new(),
    };

    assert!(!reachable_in(&level, Pos::new(0, 0), Pos::new(4, 4), 3));
    assert!(reachable_in(&level, Pos::new(0, 0), Pos::new(4, 4), 8));
}

/// |S| | | | |
/// | | | | | |
/// | | | |▒| |
/// | | |▒|F| |
/// | | | | | |P
#[test]
fn reachable_in_with_obstruction() {
    let level = Level::<5> {
        enemies: Vec::new(),
        enemy_pos: Vec::new(),
        player: default_player(),
        player_pos: Pos { x: 5, y: 4 },
        obstacles: vec![Pos::new(3, 2), Pos::new(2, 3)],
    };

    assert!(!reachable_in(&level, Pos::new(0, 0), Pos::new(3, 3), 7));
    assert!(reachable_in(&level, Pos::new(0, 0), Pos::new(3, 3), 8));
}

/// |S| | | |
/// | | | | |
/// | | | | |
/// | | |E|F|P
#[test]
fn reachable_in_single_obstruction() {
    let level = Level::<4> {
        enemies: Vec::new(),
        enemy_pos: vec![Pos::new(2, 3)],
        player: default_player(),
        player_pos: Pos { x: 4, y: 3 },
        obstacles: Vec::new(),
    };

    assert!(reachable_in(&level, Pos::new(0, 0), Pos::new(3, 3), 6));
}

/// |S| | | |
/// | | | | |
/// | | | |E|
/// | | |▒|F|P
#[test]
fn blocked_pos_corner() {
    let level = Level::<4> {
        enemies: Vec::new(),
        enemy_pos: vec![Pos::new(3, 2)],
        player: default_player(),
        player_pos: Pos { x: 4, y: 3 },
        obstacles: vec![Pos::new(2, 3)],
    };

    assert!(!reachable_in(&level, Pos::new(0, 0), Pos::new(3, 3), 100));
}

/// |S| | | | | |
/// | | | | | | |
/// | | | |E| | |
/// | | |▒|F|E| |
/// | | | |▒| | |
/// | | | | | | |
#[test]
fn blocked_pos_surrounded() {
    let level = Level::<6> {
        enemies: Vec::new(),
        enemy_pos: vec![Pos::new(3, 2), Pos::new(4, 3)],
        player: default_player(),
        player_pos: Pos { x: 4, y: 3 },
        obstacles: vec![Pos::new(2, 3), Pos::new(3, 4)],
    };

    assert!(!reachable_in(&level, Pos::new(0, 0), Pos::new(3, 3), 100));
}

#[test]
fn every_cell_reaches_itself_with_no_budget() {
    let mut everything = Vec::new();
    for x in 0..3 {
        for y in 0..3 {
            everything.push(Pos::new(x, y));
        }
    }
    let crowded = level_with::<3>(everything);
    let empty = level_with::<3>(Vec::new());
    for x in 0..3 {
        for y in 0..3 {
            assert!(reachable_in(&crowded, Pos::new(x, y), Pos::new(x, y), 0));
            assert!(reachable_in(&empty, Pos::new(x, y), Pos::new(x, y), 0));
        }
    }
}

#[test]
fn no_budget_reaches_no_other_cell() {
    let level = level_with::<5>(Vec::new());
    assert!(!reachable_in(&level, Pos::new(2, 2), Pos::new(2, 3), 0));
    assert!(!reachable_in(&level, Pos::new(2, 2), Pos::new(1, 2), 0));
    assert!(reachable_in(&level, Pos::new(2, 2), Pos::new(2, 3), 1));
    assert!(reachable_in(&level, Pos::new(2, 2), Pos::new(1, 2), 1));
}

#[test]
fn open_grid_goes_by_manhattan_distance() {
    let level = level_with::<4>(Vec::new());
    for from in 0..16u8 {
        for to in 0..16u8 {
            let a = Pos::from_1d(from, 4);
            let b = Pos::from_1d(to, 4);
            for budget in 0..8u8 {
                assert_eq!(
                    reachable_in(&level, a, b, budget),
                    manhattan(a, b) <= budget as u16,
                    "{:?} to {:?} within {}",
                    a,
                    b,
                    budget
                );
            }
        }
    }
}

#[test]
fn open_grid_of_two_columns_goes_by_manhattan_distance() {
    let level = level_with::<2>(Vec::new());
    assert!(reachable_in(&level, Pos::new(0, 0), Pos::new(0, 1), 1));
    assert!(reachable_in(&level, Pos::new(0, 1), Pos::new(0, 0), 1));
    assert!(reachable_in(&level, Pos::new(1, 0), Pos::new(1, 1), 1));
    assert!(reachable_in(&level, Pos::new(0, 0), Pos::new(1, 0), 1));
    assert!(!reachable_in(&level, Pos::new(0, 0), Pos::new(1, 1), 1));
    assert!(reachable_in(&level, Pos::new(0, 0), Pos::new(1, 1), 2));
    assert!(!reachable_in(&level, Pos::new(0, 1), Pos::new(1, 0), 1));
    assert!(reachable_in(&level, Pos::new(0, 1), Pos::new(1, 0), 2));
}

#[test]
fn two_columns_with_an_obstacle() {
    let level = level_with::<2>(vec![Pos::new(1, 0)]);
    assert!(reachable_in(&level, Pos::new(0, 0), Pos::new(1, 1), 2));
    assert!(!reachable_in(&level, Pos::new(0, 0), Pos::new(1, 0), 255));
}

#[test]
fn grid_of_one_cell() {
    let level = level_with::<1>(Vec::new());
    assert!(reachable_in(&level, Pos::new(0, 0), Pos::new(0, 0), 0));
    assert!(reachable_in(&level, Pos::new(0, 0), Pos::new(0, 0), 255));
}

#[test]
fn larger_budget_keeps_what_was_reachable() {
    let level = level_with::<5>(vec![Pos::new(3, 2), Pos::new(2, 3)]);
    let mut first = None;
    let mut before = false;
    for budget in 0..=255u8 {
        let now = reachable_in(&level, Pos::new(0, 0), Pos::new(3, 3), budget);
        assert!(now || !before, "lost at {}", budget);
        if now && first.is_none() {
            first = Some(budget);
        }
        before = now;
    }
    assert_eq!(first, Some(8));
}

#[test]
fn rows_do_not_wrap() {
    let level = level_with::<5>(Vec::new());
    assert!(!reachable_in(&level, Pos::new(0, 4), Pos::new(1, 0), 1));
    assert!(!reachable_in(&level, Pos::new(1, 0), Pos::new(0, 4), 1));
    assert!(!reachable_in(&level, Pos::new(0, 4), Pos::new(1, 0), 4));
    assert!(!reachable_in(&level, Pos::new(1, 0), Pos::new(0, 4), 4));
    assert!(reachable_in(&level, Pos::new(0, 4), Pos::new(1, 0), 5));
    assert!(reachable_in(&level, Pos::new(1, 0), Pos::new(0, 4), 5));
}

#[test]
fn rows_do_not_wrap_around_a_wall() {
    // The second row is cut off from the first but for the wrap that does not exist.
    let level = level_with::<3>(vec![Pos::new(1, 1), Pos::new(1, 2)]);
    assert!(reachable_in(&level, Pos::new(0, 2), Pos::new(1, 0), 3));
    assert!(!reachable_in(&level, Pos::new(0, 2), Pos::new(1, 0), 2));
    let cut = level_with::<3>(vec![Pos::new(0, 1), Pos::new(1, 1), Pos::new(1, 2)]);
    assert!(!reachable_in(&cut, Pos::new(0, 2), Pos::new(1, 0), 255));
    assert!(!reachable_in(&cut, Pos::new(1, 0), Pos::new(0, 2), 255));
}

#[test]
fn wall_is_a_dead_end() {
    let wall: Vec<Pos> = (0..5).map(|y| Pos::new(2, y)).collect();
    let level = level_with::<5>(wall);
    for budget in [0u8, 1, 8, 24, 100, 255] {
        assert!(!reachable_in(&level, Pos::new(0, 0), Pos::new(4, 4), budget));
        assert!(!reachable_in(&level, Pos::new(0, 0), Pos::new(2, 2), budget));
    }
    assert!(reachable_in(&level, Pos::new(0, 0), Pos::new(1, 4), 5));
}

#[test]
fn wall_with_a_gap() {
    let wall: Vec<Pos> = (0..4).map(|y| Pos::new(2, y)).collect();
    let level = level_with::<5>(wall);
    assert!(!reachable_in(&level, Pos::new(0, 0), Pos::new(4, 4), 7));
    assert!(reachable_in(&level, Pos::new(0, 0), Pos::new(4, 4), 8));
    assert!(!reachable_in(&level, Pos::new(0, 0), Pos::new(4, 0), 11));
    assert!(reachable_in(&level, Pos::new(0, 0), Pos::new(4, 0), 12));
}

#[test]
fn way_round_a_wall_counts_every_step() {
    let wall: Vec<Pos> = (0..4).map(|x| Pos::new(x, 2)).collect();
    let level = level_with::<5>(wall);
    assert!(!reachable_in(&level, Pos::new(0, 0), Pos::new(0, 4), 4));
    assert!(!reachable_in(&level, Pos::new(0, 0), Pos::new(0, 4), 11));
    assert!(reachable_in(&level, Pos::new(0, 0), Pos::new(0, 4), 12));
}

#[test]
fn start_is_not_checked_for_occupants() {
    let level = level_with::<3>(vec![Pos::new(1, 1)]);
    assert!(reachable_in(&level, Pos::new(1, 1), Pos::new(1, 2), 1));
    assert!(reachable_in(&level, Pos::new(1, 1), Pos::new(0, 0), 2));
    assert!(!reachable_in(&level, Pos::new(1, 1), Pos::new(0, 0), 1));
}

#[test]
fn occupied_destination() {
    let level = level_with::<3>(vec![Pos::new(1, 2)]);
    assert!(reachable_in(&level, Pos::new(1, 2), Pos::new(1, 2), 0));
    assert!(!reachable_in(&level, Pos::new(1, 1), Pos::new(1, 2), 1));
    assert!(!reachable_in(&level, Pos::new(1, 1), Pos::new(1, 2), 255));
}

#[test]
fn player_and_enemies_block_like_obstacles() {
    let level = Level::<3> {
        enemies: Vec::new(),
        enemy_pos: vec![Pos::new(1, 1)],
        player: default_player(),
        player_pos: Pos { x: 0, y: 1 },
        obstacles: Vec::new(),
    };
    assert!(!reachable_in(&level, Pos::new(0, 0), Pos::new(0, 2), 5));
    assert!(reachable_in(&level, Pos::new(0, 0), Pos::new(0, 2), 6));
    let player_only = Level::<3> {
        enemies: Vec::new(),
        enemy_pos: Vec::new(),
        player: default_player(),
        player_pos: Pos { x: 0, y: 1 },
        obstacles: Vec::new(),
    };
    assert!(!reachable_in(&player_only, Pos::new(0, 0), Pos::new(0, 2), 3));
    assert!(reachable_in(&player_only, Pos::new(0, 0), Pos::new(0, 2), 4));
}

#[test]
fn occupants_outside_the_grid_block_nothing() {
    let level = level_with::<3>(vec![Pos::new(0, 3), Pos::new(3, 0), Pos::new(200, 200)]);
    assert!(reachable_in(&level, Pos::new(0, 0), Pos::new(2, 2), 4));
    assert!(reachable_in(&level, Pos::new(0, 2), Pos::new(1, 0), 3));
}

#[test]
fn grid_with_more_cells_than_a_byte_counts() {
    let level = level_with::<16>(Vec::new());
    assert!(!reachable_in(&level, Pos::new(15, 15), Pos::new(15, 0), 14));
    assert!(reachable_in(&level, Pos::new(15, 15), Pos::new(15, 0), 15));
    let wide = level_with::<20>(vec![Pos::new(18, 19), Pos::new(19, 18)]);
    assert!(!reachable_in(&wide, Pos::new(0, 0), Pos::new(19, 19), 255));
    assert!(!reachable_in(&wide, Pos::new(0, 0), Pos::new(18, 18), 35));
    assert!(reachable_in(&wide, Pos::new(0, 0), Pos::new(18, 18), 36));
}

#[test]
fn largest_grid() {
    let level = level_with::<255>(Vec::new());
    assert!(!reachable_in(&level, Pos::new(0, 0), Pos::new(254, 254), 255));
    assert!(reachable_in(&level, Pos::new(0, 0), Pos::new(127, 128), 255));
    assert!(!reachable_in(&level, Pos::new(0, 0), Pos::new(128, 128), 255));
    assert!(reachable_in(&level, Pos::new(254, 254), Pos::new(254, 0), 254));
    assert!(!reachable_in(&level, Pos::new(254, 254), Pos::new(254, 0), 253));
}
