use mp::levels::{LABYRINTH_MAP, MEDIUM_MAP, SIMPLE_MAP};
use mp::{generate_random_maze, get_static_level, parse_map_str, Level};

fn wall(level: &Level, x: usize, y: usize) -> bool {
    level.cells[y * level.width + x]
}

#[test]
fn static_level_zero_is_the_simple_map() {
    let level = get_static_level(0);
    assert_eq!(level.width, 12);
    assert_eq!(level.height, 12);
    assert_eq!(level.cells.len(), 144);
    assert!(wall(&level, 0, 0));
    assert!(!wall(&level, 1, 1));
    assert!(wall(&level, 2, 2));
    assert!(wall(&level, 3, 2));
    assert!(!wall(&level, 4, 2));
    assert!(wall(&level, 4, 4));
    assert!(wall(&level, 11, 11));
}

#[test]
fn static_level_one_is_the_medium_map() {
    let level = get_static_level(1);
    assert_eq!((level.width, level.height), (16, 16));
    assert!(wall(&level, 3, 2));
    assert!(!wall(&level, 1, 1));
    assert!(!wall(&level, 4, 4));
    assert!(wall(&level, 5, 4));
    assert!(wall(&level, 15, 15));
}

#[test]
fn other_indices_give_the_labyrinth() {
    let a = get_static_level(2);
    let b = get_static_level(7);
    assert_eq!((a.width, a.height), (21, 21));
    assert_eq!(a.cells, b.cells);
    // The row "#   # # #       # #" is two cells short: the missing cells are walls.
    assert!(wall(&a, 19, 11));
    assert!(wall(&a, 20, 11));
    assert!(!wall(&a, 1, 11));
}

#[test]
fn static_levels_have_walled_borders() {
    for idx in 0..3 {
        let level = get_static_level(idx);
        for x in 0..level.width {
            assert!(wall(&level, x, 0));
            assert!(wall(&level, x, level.height - 1));
        }
        for y in 0..level.height {
            assert!(wall(&level, 0, y));
            assert!(wall(&level, level.width - 1, y));
        }
    }
}

#[test]
fn built_in_maps_parse_to_the_static_levels() {
    assert_eq!(parse_map_str(12, 12, SIMPLE_MAP).cells, get_static_level(0).cells);
    assert_eq!(parse_map_str(16, 16, MEDIUM_MAP).cells, get_static_level(1).cells);
    assert_eq!(parse_map_str(21, 21, LABYRINTH_MAP).cells, get_static_level(2).cells);
}

#[test]
fn parse_pads_short_lines_with_walls_and_leaves_missing_rows_open() {
    let level = parse_map_str(3, 3, "# \n#");
    assert_eq!(level.cells, vec![true, false, true, true, true, true, false, false, false]);
}

#[test]
fn parse_ignores_extra_columns_and_rows() {
    let level = parse_map_str(2, 1, " #x\n##");
    assert_eq!(level.cells, vec![false, true]);
}

#[test]
fn parse_drops_carriage_returns() {
    let level = parse_map_str(2, 2, "# \r\n #\r\n");
    assert_eq!(level.cells, vec![true, false, false, true]);
}

#[test]
fn parse_of_empty_text_gives_an_open_grid() {
    let level = parse_map_str(2, 2, "");
    assert_eq!(level.cells, vec![false; 4]);
}

#[test]
fn random_maze_opens_every_room() {
    let level = generate_random_maze(19, 19);
    assert_eq!((level.width, level.height), (19, 19));
    assert_eq!(level.cells.len(), 361);
    for y in 0..19 {
        for x in 0..19 {
            if x % 2 == 1 && y % 2 == 1 {
                assert!(!wall(&level, x, y));
            }
            if x == 0 || y == 0 || x == 18 || y == 18 || (x % 2 == 0 && y % 2 == 0) {
                assert!(wall(&level, x, y));
            }
        }
    }
}

#[test]
fn random_maze_rounds_even_sizes_up() {
    let level = generate_random_maze(10, 6);
    assert_eq!((level.width, level.height), (11, 7));
    assert!(!wall(&level, 1, 1));
}

#[test]
fn random_maze_is_a_spanning_tree() {
    // A maze carved by depth-first search opens one passage per room but
    // the first: rooms + (rooms - 1) open cells.
    let level = generate_random_maze(9, 7);
    let open = level.cells.iter().filter(|c| !**c).count();
    let rooms = 4 * 3;
    assert_eq!(open, rooms + rooms - 1);
}

#[test]
fn random_maze_reaches_every_room_from_the_start() {
    let level = generate_random_maze(15, 11);
    let (w, h) = (level.width, level.height);
    let mut seen = vec![false; w * h];
    let mut queue = vec![(1usize, 1usize)];
    seen[w + 1] = true;
    while let Some((x, y)) = queue.pop() {
        let steps: [(i64, i64); 4] = [(-1, 0), (1, 0), (0, -1), (0, 1)];
        for (dx, dy) in steps {
            let nx = x as i64 + dx;
            let ny = y as i64 + dy;
            if nx < 0 || ny < 0 || nx >= w as i64 || ny >= h as i64 {
                continue;
            }
            let (nx, ny) = (nx as usize, ny as usize);
            if !wall(&level, nx, ny) && !seen[ny * w + nx] {
                seen[ny * w + nx] = true;
                queue.push((nx, ny));
            }
        }
    }
    for y in (1..h).step_by(2) {
        for x in (1..w).step_by(2) {
            assert!(seen[y * w + x]);
        }
    }
}
