use touch_maze::maze::{Direction, Maze, MazeCell};

fn open_pairs(maze: &Maze) -> usize {
    let mut count = 0;
    for y in 0..maze.height {
        for x in 0..maze.width {
            let cell = maze.get(x, y).unwrap();
            if x + 1 < maze.width && cell.east {
                count += 1;
            }
            if y + 1 < maze.height && cell.south {
                count += 1;
            }
        }
    }
    count
}

fn walls_agree(maze: &Maze) -> bool {
    for y in 0..maze.height {
        for x in 0..maze.width {
            let cell = maze.get(x, y).unwrap();
            if x + 1 < maze.width && cell.east != maze.get(x + 1, y).unwrap().west {
                return false;
            }
            if y + 1 < maze.height && cell.south != maze.get(x, y + 1).unwrap().north {
                return false;
            }
        }
    }
    true
}

fn flood_fill_visits(maze: &Maze) -> Vec<usize> {
    let mut visits = vec![0usize; maze.width * maze.height];
    let mut stack = vec![(0usize, 0usize)];
    visits[0] = 1;
    while let Some((x, y)) = stack.pop() {
        let cell = *maze.get(x, y).unwrap();
        let mut next = Vec::new();
        if cell.west && x > 0 {
            next.push((x - 1, y));
        }
        if cell.east && x + 1 < maze.width {
            next.push((x + 1, y));
        }
        if cell.north && y > 0 {
            next.push((x, y - 1));
        }
        if cell.south && y + 1 < maze.height {
            next.push((x, y + 1));
        }
        for (nx, ny) in next {
            let i = ny * maze.width + nx;
            if visits[i] == 0 {
                visits[i] = 1;
                stack.push((nx, ny));
            }
        }
    }
    visits
}

fn check_perfect(width: usize, height: usize, start: (usize, usize)) {
    let mut maze = Maze::new(width, height);
    maze.generate(start.0, start.1);
    assert_eq!(maze.width, width);
    assert_eq!(maze.height, height);
    assert_eq!(maze.cells.len(), width * height);
    assert!(walls_agree(&maze));
    assert_eq!(open_pairs(&maze), width * height - 1);
    assert!(flood_fill_visits(&maze).iter().all(|&n| n == 1));
    assert!(maze.cells.iter().all(|c| !c.visited));
}

#[test]
fn new_maze_is_blank() {
    let maze = Maze::new(4, 3);
    assert_eq!(maze.width, 4);
    assert_eq!(maze.height, 3);
    assert_eq!(maze.cells.len(), 12);
    let blank = MazeCell { north: false, south: false, east: false, west: false, visited: false };
    assert!(maze.cells.iter().all(|c| *c == blank));
}

#[test]
fn new_maze_may_be_empty() {
    let maze = Maze::new(0, 5);
    assert_eq!(maze.cells.len(), 0);
    assert!(maze.get(0, 0).is_none());
}

#[test]
fn get_is_none_outside_the_grid() {
    let maze = Maze::new(3, 2);
    assert!(maze.get(2, 1).is_some());
    assert!(maze.get(3, 0).is_none());
    assert!(maze.get(0, 2).is_none());
}

#[test]
fn at_reads_the_cell_in_row_major_order() {
    let mut maze = Maze::new(3, 2);
    maze.cells[1 * 3 + 2].east = true;
    assert!(maze.at(2, 1).east);
    assert!(!maze.at(1, 1).east);
}

#[test]
fn generate_one_cell_opens_nothing() {
    let mut maze = Maze::new(1, 1);
    maze.generate(0, 0);
    let blank = MazeCell { north: false, south: false, east: false, west: false, visited: false };
    assert_eq!(maze.cells, vec![blank]);
}

#[test]
fn generate_is_a_spanning_tree() {
    check_perfect(2, 2, (0, 0));
    check_perfect(5, 7, (0, 0));
    check_perfect(1, 9, (0, 0));
    check_perfect(9, 1, (0, 0));
    check_perfect(38, 22, (0, 0));
}

#[test]
fn generate_from_any_start_is_a_spanning_tree() {
    check_perfect(6, 4, (5, 3));
    check_perfect(6, 4, (2, 1));
}

#[test]
fn generate_many_times_is_always_a_spanning_tree() {
    for _ in 0..50 {
        check_perfect(7, 5, (0, 0));
    }
}

#[test]
fn generate_makes_different_mazes() {
    let mut first = Maze::new(12, 12);
    first.generate(0, 0);
    let mut differs = false;
    for _ in 0..20 {
        let mut other = Maze::new(12, 12);
        other.generate(0, 0);
        if other.cells != first.cells {
            differs = true;
        }
    }
    assert!(differs);
}

#[test]
fn generate_only_opens_walls() {
    let mut maze = Maze::new(3, 3);
    maze.connect(0, 0, 1, 0);
    maze.generate(1, 1);
    assert!(maze.at(0, 0).east);
    assert!(maze.at(1, 0).west);
    assert!(walls_agree(&maze));
    assert!(maze.cells.iter().all(|c| !c.visited));
}

#[test]
fn connect_picks_the_side_by_the_delta() {
    let mut maze = Maze::new(3, 3);
    assert_eq!(maze.connect(1, 1, 2, 1), Direction::East);
    assert!(maze.at(1, 1).east && maze.at(2, 1).west);
    assert_eq!(maze.connect(1, 1, 0, 1), Direction::West);
    assert!(maze.at(1, 1).west && maze.at(0, 1).east);
    assert_eq!(maze.connect(1, 1, 1, 2), Direction::South);
    assert!(maze.at(1, 1).south && maze.at(1, 2).north);
    assert_eq!(maze.connect(1, 1, 1, 0), Direction::North);
    assert!(maze.at(1, 1).north && maze.at(1, 0).south);
    assert!(walls_agree(&maze));
    assert_eq!(open_pairs(&maze), 4);
}

#[test]
fn open_side_sets_one_flag() {
    let mut maze = Maze::new(2, 2);
    maze.open_side(1, 0, Direction::South);
    let cell = *maze.at(1, 0);
    assert_eq!(
        cell,
        MazeCell { north: false, south: true, east: false, west: false, visited: false }
    );
    assert_eq!(maze.cells.iter().filter(|c| c.south).count(), 1);
}

#[test]
fn mark_visited_sets_the_mark() {
    let mut maze = Maze::new(2, 2);
    maze.mark_visited(1, 1);
    assert!(maze.at(1, 1).visited);
    assert_eq!(maze.cells.iter().filter(|c| c.visited).count(), 1);
}

#[test]
fn neighbors_when_lists_west_east_north_south() {
    let maze = Maze::new(3, 3);
    assert_eq!(
        maze.get_cell_neighbors_when(1, 1, |_| true),
        vec![(0, 1), (2, 1), (1, 0), (1, 2)]
    );
    assert_eq!(maze.get_cell_neighbors_when(0, 0, |_| true), vec![(1, 0), (0, 1)]);
    assert_eq!(maze.get_cell_neighbors_when(2, 2, |_| true), vec![(1, 2), (2, 1)]);
    assert_eq!(maze.get_cell_neighbors_when(1, 1, |_| false), vec![]);
}

#[test]
fn neighbors_when_asks_the_predicate() {
    let mut maze = Maze::new(3, 3);
    maze.open_side(1, 0, Direction::South);
    assert_eq!(maze.get_cell_neighbors_when(1, 1, |c| c.south), vec![(1, 0)]);
}

#[test]
fn unvisited_and_visited_neighbors_split_the_neighbors() {
    let mut maze = Maze::new(3, 3);
    maze.mark_visited(0, 1);
    maze.mark_visited(1, 2);
    assert_eq!(maze.get_cell_visited_neighbors(1, 1), vec![(0, 1), (1, 2)]);
    assert_eq!(maze.get_cell_unvisited_neighbors(1, 1), vec![(2, 1), (1, 0)]);
}

#[test]
fn frontier_neighbors_are_unvisited_and_touch_a_visited_cell() {
    let mut maze = Maze::new(3, 3);
    maze.mark_visited(0, 0);
    // (1, 0) and (0, 1) touch (0, 0); (2, 1) and (1, 2) touch nothing visited.
    assert_eq!(
        maze.get_cell_unvisited_neighbors_with_visited_neighbors(1, 1),
        vec![(0, 1), (1, 0)]
    );
    maze.mark_visited(1, 1);
    assert_eq!(
        maze.get_cell_unvisited_neighbors_with_visited_neighbors(1, 1),
        vec![(0, 1), (2, 1), (1, 0), (1, 2)]
    );
    assert_eq!(
        maze.get_cell_unvisited_neighbors_with_visited_neighbors(0, 0),
        vec![(1, 0), (0, 1)]
    );
}

#[test]
fn frontier_neighbors_of_a_single_cell_are_none() {
    let maze = Maze::new(1, 1);
    assert_eq!(maze.get_cell_unvisited_neighbors_with_visited_neighbors(0, 0), vec![]);
}

#[test]
fn get_mut_writes_the_cell() {
    let mut maze = Maze::new(3, 2);
    maze.get_mut(2, 1).unwrap().visited = true;
    assert!(maze.at(2, 1).visited);
    assert_eq!(maze.cells.iter().filter(|c| c.visited).count(), 1);
    assert!(maze.get_mut(3, 1).is_none());
    assert!(maze.get_mut(0, 2).is_none());
}

#[test]
fn carve_toward_takes_the_chosen_neighbour() {
    let mut maze = Maze::new(3, 3);
    let mut neighbors = maze.get_cell_unvisited_neighbors(1, 1);
    assert_eq!(neighbors, vec![(0, 1), (2, 1), (1, 0), (1, 2)]);
    assert_eq!(maze.carve_toward(1, 1, &mut neighbors, 2), (1, 0));
    assert_eq!(neighbors, vec![(0, 1), (2, 1), (1, 2)]);
    assert!(maze.at(1, 1).north && maze.at(1, 0).south);
    assert_eq!(open_pairs(&maze), 1);
    assert_eq!(maze.carve_toward(1, 1, &mut neighbors, 0), (0, 1));
    assert_eq!(neighbors, vec![(2, 1), (1, 2)]);
    assert!(maze.at(1, 1).west && maze.at(0, 1).east);
    assert!(walls_agree(&maze));
}

#[test]
fn a_fixed_sequence_of_choices_carves_a_fixed_maze() {
    // The search on a 2 x 2 grid from the origin, always with the first choice.
    let mut maze = Maze::new(2, 2);
    let mut stack = vec![(0usize, 0usize)];
    while let Some((x, y)) = stack.pop() {
        maze.mark_visited(x, y);
        let mut neighbors = maze.get_cell_unvisited_neighbors_with_visited_neighbors(x, y);
        if neighbors.is_empty() {
            continue;
        }
        stack.push((x, y));
        let next = maze.carve_toward(x, y, &mut neighbors, 0);
        stack.push(next);
    }
    // (0, 0) - (1, 0) - (1, 1) - (0, 1)
    assert!(maze.at(0, 0).east && maze.at(1, 0).west);
    assert!(maze.at(1, 0).south && maze.at(1, 1).north);
    assert!(maze.at(1, 1).west && maze.at(0, 1).east);
    assert!(!maze.at(0, 0).south && !maze.at(0, 1).north);
    assert_eq!(open_pairs(&maze), 3);
    assert!(flood_fill_visits(&maze).iter().all(|&n| n == 1));
}
