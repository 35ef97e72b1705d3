use astar::coord::Coord;
use astar::grid::Grid;
use astar::search::{search, Frontier, Node, VisitedSet};
use astar::state::State;
use astar::tile::Tile;
use std::rc::Rc;

fn open_grid(width: i32, height: i32, start: Coord, goal: Coord) -> Grid {
    let mut tiles = Vec::new();
    for _ in 0..height {
        let mut row = Vec::new();
        for _ in 0..width {
            row.push(Tile::Open);
        }
        tiles.push(row);
    }
    Grid {
        start,
        goal,
        width,
        height,
        tiles,
    }
}

#[test]
fn coord_eq_test() {
    let coords = vec![Coord::new(1, 1)];
    assert!(coords.contains(&Coord::new(1, 1)));
}

#[test]
fn expand_test() {
    let grid = Grid {
        tiles: vec![
            vec![Tile::Open, Tile::Open, Tile::Open],
            vec![Tile::Open, Tile::Open, Tile::Blocked],
            vec![Tile::Open, Tile::Open, Tile::Open],
        ],
        start: Coord::new(0, 0),
        goal: Coord::new(0, 0),
        width: 3,
        height: 3,
    };

    assert_eq!(
        grid.expand(Coord::new(1, 1)),
        [Coord::new(1, 0), Coord::new(0, 1), Coord::new(1, 2)]
    );

    assert_eq!(grid.expand(Coord::new(2, 2)), [Coord::new(1, 2)]);
}

#[test]
fn manhattan_distance_test() {
    assert_eq!(Coord::distance(&Coord::new(0, 0), &Coord::new(2, 2)), 4);
    assert_eq!(Coord::distance(&Coord::new(3, -1), &Coord::new(-2, 4)), 10);
    assert_eq!(Coord::distance(&Coord::new(5, 5), &Coord::new(5, 5)), 0);
}

#[test]
fn manhattan_distance_saturates() {
    let far = Coord::distance(
        &Coord::new(i32::MIN, i32::MIN),
        &Coord::new(i32::MAX, i32::MAX),
    );
    assert_eq!(far, u32::MAX);
}

#[test]
fn open_grid_search_test() {
    // A 3x3 open grid from one corner to the opposite one: four unit moves.
    let grid = open_grid(3, 3, Coord::new(0, 0), Coord::new(2, 2));
    let result = search(&grid).expect("a path must exist");
    assert_eq!(result.cost, 4);
    assert_eq!(result.path.len(), 5);
    assert_eq!(*result.path[0], Coord::new(0, 0));
    assert_eq!(**result.path.last().unwrap(), Coord::new(2, 2));
}

#[test]
fn start_is_goal_test() {
    let grid = open_grid(3, 3, Coord::new(1, 1), Coord::new(1, 1));
    let result = search(&grid).expect("the start is the goal");
    assert_eq!(result.cost, 0);
    assert_eq!(result.path.len(), 1);
    assert_eq!(*result.path[0], Coord::new(1, 1));
    assert_eq!(result.expansion_count, 0);
}

#[test]
fn unreachable_goal_test() {
    // A wall of blocked tiles splits the grid in two.
    let mut grid = open_grid(3, 3, Coord::new(0, 0), Coord::new(2, 0));
    for y in 0..3 {
        grid.tiles[y][1] = Tile::Blocked;
    }
    assert!(search(&grid).is_none());
}

#[test]
fn detour_costs_two_extra_test() {
    // Unobstructed, the goal is two steps to the right.
    let open = open_grid(3, 3, Coord::new(0, 0), Coord::new(2, 0));
    let direct = search(&open).expect("a path must exist");
    assert_eq!(direct.cost, 2);

    // One blocked square on the straight line forces a detour of two extra
    // unit steps.
    let mut blocked = open_grid(3, 3, Coord::new(0, 0), Coord::new(2, 0));
    blocked.tiles[0][1] = Tile::Blocked;
    let detour = search(&blocked).expect("a path must exist");
    assert_eq!(detour.cost, direct.cost + 2);
}

#[test]
fn maze_shortest_cost_test() {
    // The only way through this maze costs six unit steps: from (0,0)
    // down and around the wall in the middle column up to (2,0).
    let mut grid = open_grid(3, 3, Coord::new(0, 0), Coord::new(2, 0));
    grid.tiles[0][1] = Tile::Blocked;
    grid.tiles[1][1] = Tile::Blocked;
    let result = search(&grid).expect("a path must exist");
    assert_eq!(result.cost, 6);
    assert_eq!(result.path.len(), 7);
}

#[test]
fn expansion_count_bounded_test() {
    // Never more expansions than there are distinct reachable squares.
    let grid = open_grid(3, 3, Coord::new(0, 0), Coord::new(2, 2));
    let result = search(&grid).expect("a path must exist");
    assert!(result.expansion_count <= 9);
}

#[test]
fn search_idempotent_test() {
    // Two runs over the same immutable space give the same cost and path.
    let mut grid = open_grid(4, 4, Coord::new(0, 0), Coord::new(3, 2));
    grid.tiles[1][1] = Tile::Blocked;
    grid.tiles[2][2] = Tile::Blocked;
    let first = search(&grid).expect("a path must exist");
    let second = search(&grid).expect("a path must exist");
    assert_eq!(first.cost, second.cost);
    assert_eq!(first.path.len(), second.path.len());
    let a: Vec<Coord> = first.path.iter().map(|c| **c).collect();
    let b: Vec<Coord> = second.path.iter().map(|c| **c).collect();
    assert_eq!(a, b);
}

#[test]
fn frontier_pops_minimum_test() {
    let mut frontier: Frontier<u32> = Frontier::new();
    frontier.push(Node {
        g_score: 5,
        h_score: 4,
        state: Rc::new(1),
        parent: None,
    });
    frontier.push(Node {
        g_score: 1,
        h_score: 2,
        state: Rc::new(2),
        parent: None,
    });
    frontier.push(Node {
        g_score: 7,
        h_score: 0,
        state: Rc::new(3),
        parent: None,
    });
    let n = frontier.pop_min().expect("three nodes were pushed");
    assert_eq!(*n.state, 2);
    assert_eq!(frontier.len(), 2);
    let n = frontier.pop_min().expect("two nodes remain");
    assert_eq!(*n.state, 3);
    let n = frontier.pop_min().expect("one node remains");
    assert_eq!(*n.state, 1);
    assert!(frontier.pop_min().is_none());
}

#[test]
fn visited_set_test() {
    let mut visited: VisitedSet<Coord> = VisitedSet::new();
    assert!(!visited.contains(&Coord::new(1, 2)));
    visited.insert(Rc::new(Coord::new(1, 2)));
    assert!(visited.contains(&Coord::new(1, 2)));
    assert!(!visited.contains(&Coord::new(2, 1)));
    assert_eq!(visited.len(), 1);
}

#[test]
fn node_estimated_cost_saturates_test() {
    let n: Node<u32> = Node {
        g_score: u32::MAX - 1,
        h_score: 7,
        state: Rc::new(0),
        parent: None,
    };
    assert_eq!(n.estimated_cost(), u32::MAX);
    let m: Node<u32> = Node {
        g_score: 2,
        h_score: 3,
        state: Rc::new(0),
        parent: None,
    };
    assert_eq!(m.estimated_cost(), 5);
}

#[test]
fn node_backtrace_test() {
    let root = Rc::new(Node::from_start(10u32, 0));
    let child = Rc::new(Node {
        g_score: 1,
        h_score: 0,
        state: Rc::new(20u32),
        parent: Some(root.clone()),
    });
    let leaf = Node {
        g_score: 2,
        h_score: 0,
        state: Rc::new(30u32),
        parent: Some(child.clone()),
    };
    let trace: Vec<u32> = leaf.backtrace().iter().map(|s| **s).collect();
    assert_eq!(trace, vec![10, 20, 30]);
}

#[test]
fn state_backtrace_test() {
    let root = Rc::new(State {
        cost: 0,
        heuristic: 0,
        coord: Coord::new(0, 0),
        parent: None,
    });
    let mid = Rc::new(State {
        cost: 1,
        heuristic: 1,
        coord: Coord::new(1, 0),
        parent: Some(root.clone()),
    });
    let leaf = State {
        cost: 2,
        heuristic: 0,
        coord: Coord::new(1, 1),
        parent: Some(mid.clone()),
    };
    assert_eq!(
        leaf.backtrace(),
        vec![Coord::new(0, 0), Coord::new(1, 0), Coord::new(1, 1)]
    );
    assert_eq!(leaf.estimated_cost(), 2);
}
