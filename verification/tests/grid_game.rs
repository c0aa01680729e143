use snake_neat::grid::{Grid, Object};
use snake_neat::vec2::Vec2i;

const DIRS: [(i16, i16); 4] = [(0, -1), (0, 1), (-1, 0), (1, 0)];

fn heading_of(g: &Grid) -> Vec2i {
    let s = g.senses();
    let mut found = None;
    for i in 0..4 {
        if s.heading[i] {
            assert!(found.is_none());
            found = Some(Vec2i::from(DIRS[i]));
        }
    }
    found.expect("the snake heads somewhere")
}

fn fruit_cells(g: &Grid) -> Vec<(usize, usize)> {
    let mut v = Vec::new();
    for y in 0..15 {
        for x in 0..15 {
            if g.cell_at(x, y) == Object::Fruit {
                v.push((x, y));
            }
        }
    }
    v
}

#[test]
fn a_new_game_has_walls_a_head_and_one_fruit() {
    let g = Grid::new();
    assert!(g.running);
    assert_eq!(g.segments().clone(), vec![Vec2i::from((7, 7))]);
    assert_eq!(g.fruits_eaten(), 0);
    assert_eq!(g.steps_taken(), 0);
    assert_eq!(g.cell_at(7, 7), Object::Head);
    for y in 0..15 {
        for x in 0..15 {
            let border = x == 0 || y == 0 || x == 14 || y == 14;
            assert_eq!(g.cell_at(x, y) == Object::Wall, border);
        }
    }
    let fruits = fruit_cells(&g);
    assert_eq!(fruits.len(), 1);
    let (fx, fy) = fruits[0];
    assert!(fx > 0 && fx < 14 && fy > 0 && fy < 14);
    assert!((fx, fy) != (7, 7));
}

#[test]
fn senses_measure_from_the_head() {
    let g = Grid::new();
    let s = g.senses();
    assert_eq!(s.wall_offsets, vec![
        Vec2i::from((0, -7)),
        Vec2i::from((0, 7)),
        Vec2i::from((-7, 0)),
        Vec2i::from((7, 0)),
    ]);
    assert_eq!(s.body_offsets, vec![None, None, None, None]);
    let (fx, fy) = fruit_cells(&g)[0];
    assert_eq!(s.fruit_offset, Vec2i::from((fx as i16 - 7, fy as i16 - 7)));
    assert_eq!(s.heading.iter().filter(|h| **h).count(), 1);
}

#[test]
fn a_step_moves_the_head_along_the_heading() {
    let mut g = Grid::new();
    let d = heading_of(&g);
    g.step(Vec2i::from((0, 0)));
    assert!(g.running);
    assert_eq!(g.segments()[0], Vec2i::from((7 + d.x, 7 + d.y)));
    assert_eq!(g.steps_taken(), 1);
    let h = g.segments()[0];
    assert_eq!(g.cell_at(h.x as usize, h.y as usize), Object::Head);
}

#[test]
fn the_snake_never_turns_back() {
    let mut g = Grid::new();
    let d = heading_of(&g);
    g.step(Vec2i::from((-d.x, -d.y)));
    assert_eq!(heading_of(&g), d);
    assert_eq!(g.segments()[0], Vec2i::from((7 + d.x, 7 + d.y)));
}

#[test]
fn the_snake_turns_sideways() {
    let mut g = Grid::new();
    let d = heading_of(&g);
    let side = Vec2i::from((d.y, d.x));
    g.step(side);
    assert_eq!(heading_of(&g), side);
    assert_eq!(g.segments()[0], Vec2i::from((7 + side.x, 7 + side.y)));
}

#[test]
fn running_straight_ends_at_the_wall() {
    let mut g = Grid::new();
    let d = heading_of(&g);
    let mut n = 0;
    while g.running {
        g.step(Vec2i::from((0, 0)));
        n += 1;
        assert!(n <= 7);
        assert_eq!(g.segments().len(), g.fruits_eaten() as usize + 1);
    }
    assert_eq!(n, 7);
    assert_eq!(g.steps_taken(), 6);
    assert_eq!(g.segments()[0], Vec2i::from((7 + 6 * d.x, 7 + 6 * d.y)));
    let before = g.segments().clone();
    g.step(Vec2i::from((d.y, d.x)));
    assert_eq!(g.segments().clone(), before);
    assert_eq!(g.steps_taken(), 6);
}

#[test]
fn a_game_left_to_itself_ends() {
    let mut g = Grid::new();
    let mut turns = 0u32;
    let mut steps = 0u32;
    while g.running && steps < 2000 {
        // Turn sideways whenever a wall is one cell ahead.
        let d = heading_of(&g);
        let s = g.senses();
        let ahead = (0..4).find(|i| Vec2i::from(DIRS[*i]) == d).unwrap();
        let wall = s.wall_offsets[ahead];
        let dist = wall.x.abs() + wall.y.abs();
        if dist <= 1 {
            g.step(Vec2i::from((d.y, d.x)));
            turns += 1;
        } else {
            g.step(Vec2i::from((0, 0)));
        }
        steps += 1;
    }
    assert!(!g.running);
    assert!(steps < 2000);
    assert_eq!(g.segments().len(), g.fruits_eaten() as usize + 1);
    assert!(g.steps_taken() <= 500);
    let _ = turns;
}

#[test]
fn new_games_head_in_every_direction() {
    let mut seen = std::collections::HashSet::new();
    for _ in 0..200 {
        let d = heading_of(&Grid::new());
        seen.insert((d.x, d.y));
    }
    assert_eq!(seen.len(), 4);
}

#[test]
fn fruits_land_in_different_cells() {
    let mut seen = std::collections::HashSet::new();
    for _ in 0..50 {
        seen.insert(fruit_cells(&Grid::new())[0]);
    }
    assert!(seen.len() > 1);
}

fn check_board(g: &Grid) {
    let segs = g.segments().clone();
    let mut fruits = 0;
    for y in 0..15usize {
        for x in 0..15usize {
            let c = g.cell_at(x, y);
            let p = Vec2i::from((x as i16, y as i16));
            let border = x == 0 || y == 0 || x == 14 || y == 14;
            if border {
                assert_eq!(c, Object::Wall);
            } else if p == segs[0] {
                assert_eq!(c, Object::Head);
            } else if segs[1..].contains(&p) {
                assert_eq!(c, Object::Body);
            } else if c == Object::Fruit {
                fruits += 1;
            } else {
                assert_eq!(c, Object::Empty);
            }
        }
    }
    assert_eq!(fruits, 1);
    for w in segs.windows(2) {
        assert_eq!((w[0].x - w[1].x).abs() + (w[0].y - w[1].y).abs(), 1);
    }
}

#[test]
fn a_running_board_shows_exactly_the_game() {
    for game in 0..20u32 {
        let mut g = Grid::new();
        check_board(&g);
        let mut n = 0u32;
        while g.running && n < 600 {
            let s = g.senses();
            // Head for the fruit where the snake may turn that way.
            let f = s.fruit_offset;
            let desire = if (n + game) % 3 == 0 {
                Vec2i::from((f.x.signum(), 0))
            } else {
                Vec2i::from((0, f.y.signum()))
            };
            g.step(desire);
            if g.running {
                check_board(&g);
            }
            n += 1;
        }
    }
}
