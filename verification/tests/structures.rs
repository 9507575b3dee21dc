use ripgzip::conway::{Cell, GameOfLife, Grid};
use ripgzip::flatmap::FlatMap;
use ripgzip::min_queue::MinQueue;
use ripgzip::trust::{
    Agent, CheatingAgent, CooperatingAgent, CopycatAgent, DetectiveAgent, Decision, Game,
    GrudgerAgent, RoundOutcome,
};

#[test]
fn grid_get_set() {
    let mut grid: Grid<Cell> = Grid::new(2, 3);
    assert_eq!(grid.size(), (2, 3));
    assert_eq!(*grid.get(1, 2), Cell::Dead);
    grid.set(Cell::Alive, 1, 2);
    assert_eq!(*grid.get(1, 2), Cell::Alive);
    assert_eq!(*grid.get(0, 2), Cell::Dead);
}

#[test]
fn grid_neighbours_at_corner_and_centre() {
    let grid: Grid<Cell> = Grid::new(3, 3);
    let mut walker = grid.neighbours(0, 0);
    let mut seen: Vec<(usize, usize)> = Vec::new();
    while let Some(p) = walker.next() {
        seen.push(p);
    }
    assert_eq!(seen, vec![(0, 1), (1, 0), (1, 1)]);

    let mut centre = grid.neighbours(1, 1);
    let mut count: usize = 0;
    while centre.next().is_some() {
        count += 1;
    }
    assert_eq!(count, 8);
}

#[test]
fn blinker_oscillates() {
    // a vertical blinker becomes horizontal after one step
    let d = Cell::Dead;
    let a = Cell::Alive;
    let cells = [d, a, d, d, a, d, d, a, d];
    let grid = Grid::from_slice(&cells, 3, 3);
    let mut game = GameOfLife::from_grid(grid);
    game.step();
    let board = game.get_grid();
    assert_eq!(*board.get(0, 1), Cell::Dead);
    assert_eq!(*board.get(1, 0), Cell::Alive);
    assert_eq!(*board.get(1, 1), Cell::Alive);
    assert_eq!(*board.get(1, 2), Cell::Alive);
    assert_eq!(*board.get(2, 1), Cell::Dead);
    game.step();
    assert_eq!(*game.get_grid().get(0, 1), Cell::Alive);
    assert_eq!(*game.get_grid().get(1, 0), Cell::Dead);
}

#[test]
fn flat_map_insert_get_remove() {
    let mut map: FlatMap<&str> = FlatMap::new();
    assert!(map.is_empty());
    assert_eq!(map.insert(30, "thirty"), None);
    assert_eq!(map.insert(10, "ten"), None);
    assert_eq!(map.insert(20, "twenty"), None);
    assert_eq!(map.len(), 3);
    assert_eq!(map.get(&20), Some(&"twenty"));
    assert_eq!(map.get(&25), None);
    // the pairs sit in key order
    let keys: Vec<u64> = map.as_slice().iter().map(|p| p.0).collect();
    assert_eq!(keys, vec![10, 20, 30]);
    // a repeated key replaces and yields the old value
    assert_eq!(map.insert(20, "newer"), Some("twenty"));
    assert_eq!(map.len(), 3);
    assert_eq!(map.get(&20), Some(&"newer"));
    assert_eq!(map.remove(&10), Some("ten"));
    assert_eq!(map.remove(&10), None);
    assert_eq!(map.remove_entry(&30), Some((30, "thirty")));
    assert_eq!(map.len(), 1);
}

#[test]
fn min_queue_order_and_minimum() {
    let mut q = MinQueue::new();
    assert!(q.is_empty());
    assert_eq!(q.pop(), None);
    q.push(3);
    q.push(1);
    q.push(4);
    assert_eq!(q.len(), 3);
    assert_eq!(q.front(), Some(&3));
    assert_eq!(q.min(), Some(&1));
    assert_eq!(q.pop(), Some(3));
    assert_eq!(q.min(), Some(&1));
    assert_eq!(q.pop(), Some(1));
    assert_eq!(q.min(), Some(&4));
    q.push(-7);
    assert_eq!(q.min(), Some(&-7));
    assert_eq!(q.pop(), Some(4));
    assert_eq!(q.pop(), Some(-7));
    assert_eq!(q.pop(), None);
}

#[test]
fn game_scores_follow_outcomes() {
    let mut game = Game::new(CheatingAgent::new(), CooperatingAgent::new());
    assert_eq!(game.play_round(), RoundOutcome::LeftCheated);
    assert_eq!(game.left_score(), 3);
    assert_eq!(game.right_score(), -1);
    assert_eq!(game.play_round(), RoundOutcome::LeftCheated);
    assert_eq!(game.left_score(), 6);
    assert_eq!(game.right_score(), -2);
}

#[test]
fn copycat_mirrors_previous_move() {
    let mut game = Game::new(CopycatAgent::new(), CheatingAgent::new());
    // the copycat opens cooperating, then mirrors the cheat
    assert_eq!(game.play_round(), RoundOutcome::RightCheated);
    assert_eq!(game.play_round(), RoundOutcome::BothCheated);
    assert_eq!(game.left_score(), -1);
    assert_eq!(game.right_score(), 3);
}

#[test]
fn grudger_turns_after_first_cheat() {
    let mut game = Game::new(GrudgerAgent::new(), CheatingAgent::new());
    assert_eq!(game.play_round(), RoundOutcome::RightCheated);
    assert_eq!(game.play_round(), RoundOutcome::BothCheated);
    assert_eq!(game.play_round(), RoundOutcome::BothCheated);
}

#[test]
fn detective_probes_then_exploits() {
    let mut game = Game::new(DetectiveAgent::new(), CooperatingAgent::new());
    assert_eq!(game.play_round(), RoundOutcome::BothCooperated);
    assert_eq!(game.play_round(), RoundOutcome::LeftCheated);
    assert_eq!(game.play_round(), RoundOutcome::BothCooperated);
    assert_eq!(game.play_round(), RoundOutcome::BothCooperated);
    // never punished, it exploits from the fifth round on
    assert_eq!(game.play_round(), RoundOutcome::LeftCheated);
    assert_eq!(game.play_round(), RoundOutcome::LeftCheated);
}

#[test]
fn decisions_compare() {
    assert_eq!(Decision::Cheat, Decision::Cheat);
    assert_ne!(Decision::Cheat, Decision::Cooperate);
    let mut grudger = GrudgerAgent::new();
    assert_eq!(grudger.play(), Decision::Cooperate);
    grudger.update(Decision::Cheat);
    assert_eq!(grudger.play(), Decision::Cheat);
}

#[test]
fn longest_common_prefix_basics() {
    assert_eq!(
        ripgzip::prefix::longest_common_prefix(vec!["flower", "flow", "flight"]),
        "fl"
    );
    assert_eq!(ripgzip::prefix::longest_common_prefix(vec![]), "");
    assert_eq!(ripgzip::prefix::longest_common_prefix(vec!["abc"]), "abc");
    assert_eq!(
        ripgzip::prefix::longest_common_prefix(vec!["dog", "racecar", "car"]),
        ""
    );
    assert_eq!(
        ripgzip::prefix::longest_common_prefix(vec!["same", "same"]),
        "same"
    );
}

#[test]
fn combinations_choose_two_of_three() {
    let r = ripgzip::combinations::combinations(&[1, 2, 3], 2);
    assert_eq!(r, vec![vec![1, 2], vec![1, 3], vec![2, 3]]);
}

#[test]
fn combinations_edges() {
    assert_eq!(
        ripgzip::combinations::combinations(&[1, 2], 3),
        Vec::<Vec<i32>>::new()
    );
    assert_eq!(ripgzip::combinations::combinations(&[1, 2], 0), vec![Vec::<i32>::new()]);
    let all = ripgzip::combinations::combinations(&[5, 6, 7], 3);
    assert_eq!(all, vec![vec![5, 6, 7]]);
}

#[test]
fn lru_cache_evicts_least_recent() {
    let mut cache: ripgzip::lru_cache::LRUCache<&str> = ripgzip::lru_cache::LRUCache::new(2);
    assert_eq!(cache.insert(1, "one"), None);
    assert_eq!(cache.insert(2, "two"), None);
    // touch key 1 so key 2 becomes the least recent
    assert_eq!(cache.get(&1), Some(&"one"));
    assert_eq!(cache.insert(3, "three"), None);
    assert_eq!(cache.get(&2), None);
    assert_eq!(cache.get(&1), Some(&"one"));
    assert_eq!(cache.get(&3), Some(&"three"));
    // replacing a present key gives the old value back
    assert_eq!(cache.insert(3, "third"), Some("three"));
    assert_eq!(cache.get(&3), Some(&"third"));
}
