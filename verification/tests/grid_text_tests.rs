use astar::coord::Coord;
use astar::grid::{parse_integers, Grid};
use astar::search::search;
use astar::tile::Tile;

#[test]
fn parse_integers_test() {
    assert_eq!(parse_integers("3 4"), vec![3, 4]);
    assert_eq!(parse_integers("-7"), vec![-7]);
    assert_eq!(parse_integers("+12 0 5"), vec![12, 0, 5]);
    assert_eq!(parse_integers("2147483647 -2147483648"), vec![i32::MAX, i32::MIN]);
}

#[test]
fn tile_from_char_test() {
    assert_eq!(Tile::from('#'), Tile::Blocked);
    assert_eq!(Tile::from('s'), Tile::Start);
    assert_eq!(Tile::from('g'), Tile::Goal);
    assert_eq!(Tile::from(' '), Tile::Open);
    assert_eq!(Tile::from('x'), Tile::Open);
}

#[test]
fn tile_to_char_test() {
    assert_eq!(Tile::Open.to_char(), ' ');
    assert_eq!(Tile::Blocked.to_char(), '#');
    assert_eq!(Tile::Start.to_char(), 's');
    assert_eq!(Tile::Goal.to_char(), 'g');
    assert_eq!(Tile::Path.to_char(), '\u{2022}');
}

#[test]
fn tile_color_string_test() {
    // The colour escapes come from ansi_term; the library's contract pins
    // them exactly.
    assert_eq!(Tile::Open.to_color_string(), " ");
    assert_eq!(Tile::Blocked.to_color_string(), "\u{1b}[34m#\u{1b}[0m");
    assert_eq!(Tile::Start.to_color_string(), "\u{1b}[31ms\u{1b}[0m");
    assert_eq!(Tile::Goal.to_color_string(), "\u{1b}[32m\u{2713}\u{1b}[0m");
    assert_eq!(Tile::Path.to_color_string(), "\u{1b}[31m\u{2022}\u{1b}[0m");
}

#[test]
fn grid_from_text_test() {
    let grid = Grid::from("3 2\ns# \n  g");
    assert_eq!(grid.width, 3);
    assert_eq!(grid.height, 2);
    assert_eq!(grid.start, Coord::new(0, 0));
    assert_eq!(grid.goal, Coord::new(2, 1));
    assert_eq!(grid.tile_at(&Coord::new(0, 0)), Some(Tile::Start));
    assert_eq!(grid.tile_at(&Coord::new(1, 0)), Some(Tile::Blocked));
    assert_eq!(grid.tile_at(&Coord::new(2, 0)), Some(Tile::Open));
    assert_eq!(grid.tile_at(&Coord::new(2, 1)), Some(Tile::Goal));
    assert_eq!(grid.tile_at(&Coord::new(3, 0)), None);
    assert_eq!(grid.tile_at(&Coord::new(0, 2)), None);
}

#[test]
fn later_start_marker_wins_test() {
    let grid = Grid::from("3 2\ns s\n  g");
    assert_eq!(grid.start, Coord::new(2, 0));
}

#[test]
fn grid_to_string_test() {
    let grid = Grid::from("3 2\ns# \n  g");
    assert_eq!(grid.to_string(), "s# \n  g");
}

#[test]
fn set_path_marks_route_test() {
    let mut grid = Grid::from("3 1\ns g");
    let route = vec![Coord::new(0, 0), Coord::new(1, 0), Coord::new(2, 0)];
    grid.set_path(&route);
    // Start and goal markers stay; the open square in between is marked.
    assert_eq!(grid.to_string(), "s\u{2022}g");
}

#[test]
fn search_parsed_map_test() {
    // The map of a small walled yard: the shortest route needs five steps.
    let grid = Grid::from("4 3\ns#  \n #  \n   g");
    let result = search(&grid).expect("a path must exist");
    assert_eq!(result.cost, 5);
    assert_eq!(result.path.len(), 6);
    assert_eq!(*result.path[0], grid.start);
    assert_eq!(**result.path.last().unwrap(), grid.goal);
}

#[test]
fn color_rendering_shape_test() {
    let grid = Grid::from("2 1\nsg");
    let colored = grid.to_color_string();
    assert_eq!(
        colored,
        "\u{1b}[31ms\u{1b}[0m\u{1b}[32m\u{2713}\u{1b}[0m"
    );
}

#[test]
fn end_to_end_route_test() {
    // Load a map, search it, paint the route back onto the grid.
    let mut grid = Grid::from("5 3\ns #  \n  # g\n     ");
    let result = search(&grid).expect("a path must exist");
    assert_eq!(result.cost, 7);
    assert_eq!(result.path.len(), 8);
    let route: Vec<Coord> = result.path.iter().map(|c| **c).collect();
    grid.set_path(&route);
    let rendered = grid.to_string();
    assert_eq!(rendered.matches('\u{2022}').count(), 6);
    assert!(rendered.contains('s'));
    assert!(rendered.contains('g'));
}
