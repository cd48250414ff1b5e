use gridwalk::grid::{Grid, Position};
use gridwalk::search::{next_step_toward_nearest_destination, SearchError};
use gridwalk::sim::{Simulation, Strategy};
use gridwalk::square::Square;
use gridwalk::walk::{floor_neighbors, random_step, random_step_with};

fn pos(x: usize, y: usize) -> Position {
    Position { x, y }
}

#[test]
fn at_a_destination_the_step_is_no_move() {
    let g = Grid::new("$ $\n   ").unwrap();
    assert_eq!(next_step_toward_nearest_destination(&g, pos(0, 0)), Ok(pos(0, 0)));
    assert_eq!(next_step_toward_nearest_destination(&g, pos(2, 0)), Ok(pos(2, 0)));
}

#[test]
fn end_to_end_agent_reaches_the_destination() {
    let g = Grid::new("^ #\n# $").unwrap();
    assert_eq!((g.width(), g.height()), (3, 2));
    let mut s = Simulation::new(g, vec![pos(0, 0)], Strategy::ShortestPath).unwrap();
    s.advance();
    assert_eq!(s.agents()[0], pos(1, 0));
    s.advance();
    assert_eq!(s.agents()[0], pos(1, 1));
    s.advance();
    assert_eq!(s.agents()[0], pos(2, 1));
    for _ in 0..3 {
        s.advance();
        assert_eq!(s.agents()[0], pos(2, 1));
    }
}

#[test]
fn k_hops_land_on_the_destination() {
    let g = Grid::new("^    #\n#### #\n$    #").unwrap();
    // from (0,0): right four, down two, left four = ten hops
    let mut p = pos(0, 0);
    for _ in 0..10 {
        p = next_step_toward_nearest_destination(&g, p).unwrap();
        assert_ne!(g.square_at(p), Square::Wall);
    }
    assert_eq!(p, pos(0, 2));
    assert_eq!(g.square_at(p), Square::Destination);
}

#[test]
fn nearer_destination_wins() {
    let g = Grid::new("$   ^ $").unwrap();
    assert_eq!(next_step_toward_nearest_destination(&g, pos(4, 0)), Ok(pos(5, 0)));
}

#[test]
fn ties_are_broken_the_same_way_each_time() {
    let g = Grid::new("$ $\n   \n $ ").unwrap();
    let first = next_step_toward_nearest_destination(&g, pos(1, 1));
    // down comes first in the enumeration order
    assert_eq!(first, Ok(pos(1, 2)));
    for _ in 0..5 {
        assert_eq!(next_step_toward_nearest_destination(&g, pos(1, 1)), first);
    }
    let h = Grid::new("$ $").unwrap();
    assert_eq!(next_step_toward_nearest_destination(&h, pos(1, 0)), Ok(pos(2, 0)));
}

#[test]
fn equally_far_destinations_go_by_neighbor_order() {
    let g = Grid::new("$   $").unwrap();
    // both two hops away: right comes before left
    assert_eq!(next_step_toward_nearest_destination(&g, pos(2, 0)), Ok(pos(3, 0)));
    let g = Grid::new("$  \n   \n  $").unwrap();
    // from the middle both are two hops away: down comes first
    assert_eq!(next_step_toward_nearest_destination(&g, pos(1, 1)), Ok(pos(1, 2)));
    let g = Grid::new("$  \n   \n   ").unwrap();
    // only left and up lead there in two hops: left comes before up
    assert_eq!(next_step_toward_nearest_destination(&g, pos(1, 1)), Ok(pos(0, 1)));
}

#[test]
fn spawn_points_do_not_carry_the_search() {
    let g = Grid::new(" ^$\n   ").unwrap();
    // the start is free to search from, but (1,0) is a spawn point: go round
    assert_eq!(next_step_toward_nearest_destination(&g, pos(0, 0)), Ok(pos(0, 1)));
}

#[test]
fn enclosed_agent_has_no_route_and_stays() {
    let g = Grid::new("$####\n## ##\n#####").unwrap();
    let p = pos(2, 1);
    assert_eq!(
        next_step_toward_nearest_destination(&g, p),
        Err(SearchError::NoReachableDestination)
    );
    assert!(floor_neighbors(&g, p).is_empty());
    assert_eq!(random_step(&g, p), p);
    assert_eq!(random_step_with(&g, p, 7), p);
    let mut s = Simulation::new(g, vec![p], Strategy::ShortestPath).unwrap();
    s.advance();
    assert_eq!(s.agents()[0], p);
}

#[test]
fn random_walk_stays_on_floor() {
    let g = Grid::new("#####\n#  $#\n# # #\n#^  #\n#####").unwrap();
    let mut p = pos(1, 3);
    for _ in 0..200 {
        let n = random_step(&g, p);
        let dx = (n.x as i64 - p.x as i64).abs();
        let dy = (n.y as i64 - p.y as i64).abs();
        assert!(n == p || dx + dy == 1);
        assert!(n == p || g.square_at(n) == Square::Empty);
        p = n;
    }
}

#[test]
fn random_walk_takes_the_only_floor_cell() {
    let g = Grid::new("#$#\n^ #\n###").unwrap();
    assert_eq!(floor_neighbors(&g, pos(0, 1)), vec![pos(1, 1)]);
    for _ in 0..20 {
        assert_eq!(random_step(&g, pos(0, 1)), pos(1, 1));
    }
}

#[test]
fn chosen_random_step_follows_neighbor_order() {
    let g = Grid::new("   \n $ \n   ").unwrap();
    let c = floor_neighbors(&g, pos(1, 0));
    assert_eq!(c, vec![pos(2, 0), pos(0, 0)]);
    assert_eq!(random_step_with(&g, pos(1, 0), 0), pos(2, 0));
    assert_eq!(random_step_with(&g, pos(1, 0), 1), pos(0, 0));
    assert_eq!(random_step_with(&g, pos(1, 0), 5), pos(0, 0));
}

#[test]
fn agents_on_walls_or_outside_are_refused() {
    let g = Grid::new("#  ").unwrap();
    assert!(Simulation::new(g, vec![pos(0, 0)], Strategy::RandomWalk).is_none());
    let g = Grid::new("#  ").unwrap();
    assert!(Simulation::new(g, vec![pos(3, 0)], Strategy::RandomWalk).is_none());
    let g = Grid::new("#  ").unwrap();
    assert!(Simulation::new(g, vec![pos(1, 0), pos(2, 0)], Strategy::RandomWalk).is_some());
}

#[test]
fn agents_move_independently() {
    let map = "\n### #############\n### #############\n### #############\n###         ###########\n###### #### ###########\n###### #### #########\n######$####$###########\n";
    let g = Grid::new(map).unwrap();
    let mut s = Simulation::new(g, vec![pos(3, 0), pos(3, 2), pos(3, 2)], Strategy::ShortestPath).unwrap();
    for _ in 0..20 {
        s.advance();
    }
    let a = s.agents();
    assert_eq!(a[0], pos(6, 6));
    assert_eq!(a[1], a[2]);
    assert_eq!(s.grid().square_at(a[1]), Square::Destination);
}
