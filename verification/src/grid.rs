use vstd::prelude::*;
use crate::config::Config;
use crate::rng::{choose_item, random_below};
use crate::vec2::Vec2i;

verus! {

/// What a cell of the board holds.
#[derive(Debug, Clone, Copy, PartialEq, Eq, Hash, Structural)]
pub enum Object {
    Head,
    Body,
    Wall,
    Fruit,
    Empty,
}

/// The board's width in cells.
pub open spec fn width() -> int {
    Config::grid_width as int
}

/// The board's height in cells.
pub open spec fn height() -> int {
    Config::grid_height as int
}

/// `(x, y)` names a cell of the board.
pub open spec fn on_board(x: int, y: int) -> bool {
    0 <= x < width() && 0 <= y < height()
}

/// `(x, y)` lies on the board's outer ring.
pub open spec fn on_border(x: int, y: int) -> bool {
    x == 0 || x == width() - 1 || y == 0 || y == height() - 1
}

/// `p` is a cell inside the ring of walls.
pub open spec fn is_interior(p: Vec2i) -> bool {
    1 <= p.x <= width() - 2 && 1 <= p.y <= height() - 2
}

/// The number of cells inside the ring of walls.
pub open spec fn interior_count() -> int {
    (width() - 2) * (height() - 2)
}

/// `d` is one step up, down, left or right.
pub open spec fn is_unit(d: Vec2i) -> bool {
    ||| d.x == 0 && (d.y == 1 || d.y == -1)
    ||| d.y == 0 && (d.x == 1 || d.x == -1)
}

/// The sum of two positions, as integers.
pub open spec fn shifted(p: Vec2i, d: Vec2i) -> Vec2i {
    Vec2i { x: (p.x + d.x) as i16, y: (p.y + d.y) as i16 }
}

/// The most steps a snake of `len` segments may take without eating before
/// its game ends.
pub open spec fn timeout_for(len: int) -> int {
    width() * height() + 50 * len
}

/// The most steps a snake may ever take without eating.
pub open spec fn max_idle() -> int {
    timeout_for(interior_count())
}

/// The index of an interior cell among the interior cells, row by row.
pub open spec fn interior_index(p: Vec2i) -> int {
    (p.y - 1) * (width() - 2) + (p.x - 1)
}

/// Each component of `d` is -1, 0 or 1, as the network's wishes are.
pub open spec fn is_desire(d: Vec2i) -> bool {
    -1 <= d.x <= 1 && -1 <= d.y <= 1
}

/// The direction after the snake heading along `dir` is asked to go along
/// `desire`: it turns only sideways, never back onto itself.
pub open spec fn turned(dir: Vec2i, desire: Vec2i) -> Vec2i {
    if dir.x == 0 {
        if desire.x != 0 {
            Vec2i { x: desire.x, y: 0 }
        } else {
            dir
        }
    } else if desire.y != 0 {
        Vec2i { x: 0, y: desire.y }
    } else {
        dir
    }
}

/// The board's sizes as numbers.
pub proof fn lemma_board_sizes()
    ensures
        width() == 15,
        height() == 15,
        interior_count() == 169,
        max_idle() == 8675,
{
    assert((width() - 2) * (height() - 2) == 169) by (nonlinear_arith)
        requires width() == 15, height() == 15;
    assert(width() * height() == 225) by (nonlinear_arith)
        requires width() == 15, height() == 15;
}

/// Whatever the network asks, a moving snake keeps moving one cell at a
/// time and never turns back onto itself.
pub proof fn lemma_turn_never_reverses(dir: Vec2i, desire: Vec2i)
    requires
        is_unit(dir),
        is_desire(desire),
    ensures
        is_unit(turned(dir, desire)),
        !(turned(dir, desire).x == -dir.x && turned(dir, desire).y == -dir.y),
{
}

/// A sideways wish is followed: a snake moving up or down that is asked to
/// go left or right turns that way, and one moving left or right that is
/// asked to go up or down turns that way; any other wish (straight on, back,
/// or none) leaves the heading as it is.
pub proof fn lemma_turn_follows_desire(dir: Vec2i, desire: Vec2i)
    requires
        is_unit(dir),
        is_desire(desire),
    ensures
        dir.x == 0 && desire.x != 0 ==> turned(dir, desire).x == desire.x && turned(dir, desire).y == 0,
        dir.y == 0 && desire.y != 0 ==> turned(dir, desire).x == 0 && turned(dir, desire).y == desire.y,
        dir.x == 0 && desire.x == 0 ==> turned(dir, desire) == dir,
        dir.y == 0 && desire.y == 0 ==> turned(dir, desire) == dir,
{
}

/// The head of a running snake moves one cell along the heading it takes
/// after the wish: left or right as asked where it moved up or down, up or
/// down as asked where it moved sideways, and straight on otherwise.
pub proof fn lemma_next_head_follows_desire(g: Grid, desire: Vec2i)
    requires
        g.wf(),
        is_desire(desire),
    ensures
        g.heading().x == 0 && desire.x != 0 ==> next_head(g, desire).x == g.body()[0].x + desire.x && next_head(g, desire).y
            == g.body()[0].y,
        g.heading().y == 0 && desire.y != 0 ==> next_head(g, desire).x == g.body()[0].x && next_head(g, desire).y
            == g.body()[0].y + desire.y,
        (g.heading().x == 0 && desire.x == 0) || (g.heading().y == 0 && desire.y == 0) ==> next_head(g, desire).x
            == g.body()[0].x + g.heading().x && next_head(g, desire).y == g.body()[0].y + g.heading().y,
{
    lemma_turn_follows_desire(g.heading(), desire);
    assert(is_interior(g.body()[0]));
}

/// No two distinct interior cells have the same interior index, and each
/// index lies below the interior count.
pub proof fn lemma_interior_index(p: Vec2i, q: Vec2i)
    requires
        is_interior(p),
        is_interior(q),
    ensures
        0 <= interior_index(p) < interior_count(),
        interior_index(p) == interior_index(q) ==> p == q,
{
    let w = width() - 2;
    assert(w == 13);
    let a = p.y - 1;
    let b = p.x - 1;
    let c = q.y - 1;
    let d = q.x - 1;
    assert(0 <= a * 13 + b < 169) by (nonlinear_arith)
        requires 0 <= a < 13, 0 <= b < 13;
    assert(a * 13 + b == c * 13 + d ==> a == c && b == d) by (nonlinear_arith)
        requires 0 <= a < 13, 0 <= b < 13, 0 <= c < 13, 0 <= d < 13;
}

/// A snake whose segments are distinct interior cells has at most as many
/// segments as there are interior cells.
pub proof fn lemma_snake_fits(s: Seq<Vec2i>)
    requires
        s.no_duplicates(),
        forall|i: int| 0 <= i < s.len() ==> is_interior(#[trigger] s[i]),
    ensures
        s.len() <= interior_count(),
{
    let t = s.map_values(|p: Vec2i| interior_index(p));
    assert forall|i: int, j: int| 0 <= i < t.len() && 0 <= j < t.len() && i != j implies t[i] != t[j] by {
        lemma_interior_index(s[i], s[j]);
    }
    assert(t.no_duplicates());
    t.unique_seq_to_set();
    assert forall|v: int| t.to_set().contains(v) implies vstd::set_lib::set_int_range(0, interior_count()).contains(v) by {
        let i = choose|i: int| 0 <= i < t.len() && t[i] == v;
        lemma_interior_index(s[i], s[i]);
    }
    vstd::set_lib::lemma_int_range(0, interior_count());
    vstd::set_lib::lemma_len_subset(t.to_set(), vstd::set_lib::set_int_range(0, interior_count()));
}

/// The fruit went into a cell that `before` showed empty, and nothing else
/// changed; where no cell was empty, nothing changed at all.
pub open spec fn placed_fruit(before: spec_fn(int, int) -> Object, old_fruit: Vec2i, after: Grid) -> bool {
    if exists|x: int, y: int| on_board(x, y) && #[trigger] before(x, y) == Object::Empty {
        &&& on_board(after.fruit().x as int, after.fruit().y as int)
        &&& before(after.fruit().x as int, after.fruit().y as int) == Object::Empty
        &&& forall|x: int, y: int|
            on_board(x, y) ==> #[trigger] after.cell(x, y) == (if x == after.fruit().x && y == after.fruit().y {
                Object::Fruit
            } else {
                before(x, y)
            })
    } else {
        &&& after.fruit() == old_fruit
        &&& forall|x: int, y: int| on_board(x, y) ==> #[trigger] after.cell(x, y) == before(x, y)
    }
}

/// Whether a fruit was placed depends on the board before only through its
/// cells.
pub proof fn lemma_placed_fruit_same_board(
    b1: spec_fn(int, int) -> Object,
    b2: spec_fn(int, int) -> Object,
    old_fruit: Vec2i,
    after: Grid,
)
    requires
        forall|x: int, y: int| on_board(x, y) ==> #[trigger] b1(x, y) == b2(x, y),
        placed_fruit(b1, old_fruit, after),
    ensures
        placed_fruit(b2, old_fruit, after),
{
    if exists|x: int, y: int| on_board(x, y) && #[trigger] b1(x, y) == Object::Empty {
        let (x, y) = choose|x: int, y: int| on_board(x, y) && #[trigger] b1(x, y) == Object::Empty;
        assert(b2(x, y) == Object::Empty);
    } else {
        assert forall|x: int, y: int| on_board(x, y) implies #[trigger] b2(x, y) != Object::Empty by {
            assert(b1(x, y) != Object::Empty);
        }
    }
}

/// Whether a fruit was placed depends on the board after only through its
/// cells and the fruit's position.
proof fn lemma_placed_fruit_same_after(before: spec_fn(int, int) -> Object, old_fruit: Vec2i, a1: Grid, a2: Grid)
    requires
        a1.data == a2.data,
        a1.fruit_pos == a2.fruit_pos,
        placed_fruit(before, old_fruit, a1),
    ensures
        placed_fruit(before, old_fruit, a2),
{
    assert forall|x: int, y: int| on_board(x, y) implies #[trigger] a2.cell(x, y) == a1.cell(x, y) by {}
}

/// The board a game starts on, before its fruit is placed: walls around,
/// the head in the middle, and empty cells elsewhere.
pub open spec fn initial_cell(x: int, y: int) -> Object {
    if on_border(x, y) {
        Object::Wall
    } else if x == width() / 2 && y == height() / 2 {
        Object::Head
    } else {
        Object::Empty
    }
}

/// Where the head goes when `g`'s snake is asked to go along `desire`.
pub open spec fn next_head(g: Grid, desire: Vec2i) -> Vec2i {
    shifted(g.body()[0], turned(g.heading(), desire))
}

/// The snake reaches a fruit with this step.
pub open spec fn grows(g: Grid, desire: Vec2i) -> bool {
    g.cell(next_head(g, desire).x as int, next_head(g, desire).y as int) == Object::Fruit
}

/// The segments that stay where they are: all of them when the snake
/// grows, else all but the tail.
pub open spec fn kept_segments(g: Grid, desire: Vec2i) -> Seq<Vec2i> {
    if grows(g, desire) {
        g.body()
    } else {
        g.body().drop_last()
    }
}

/// What the head moves into, once the tail has left its cell.
pub open spec fn target(g: Grid, desire: Vec2i) -> Object {
    let h = next_head(g, desire);
    if !grows(g, desire) && h == g.body().last() {
        Object::Empty
    } else {
        g.cell(h.x as int, h.y as int)
    }
}

/// The head runs into a wall or into the snake's own body.
pub open spec fn collides(g: Grid, desire: Vec2i) -> bool {
    target(g, desire) == Object::Body || target(g, desire) == Object::Wall
}

/// The cell in column `x` of row `y` after the snake of `g` moved (or, on a
/// collision, stayed), before any new fruit is placed.
pub open spec fn moved_cell(g: Grid, desire: Vec2i, x: int, y: int) -> Object {
    let h = next_head(g, desire);
    let o = g.body()[0];
    let t = g.body().last();
    if collides(g, desire) {
        if x == o.x && y == o.y {
            Object::Head
        } else if !grows(g, desire) && x == t.x && y == t.y {
            Object::Empty
        } else {
            g.cell(x, y)
        }
    } else {
        if x == h.x && y == h.y {
            Object::Head
        } else if x == o.x && y == o.y && kept_segments(g, desire).len() > 0 {
            Object::Body
        } else if !grows(g, desire) && x == t.x && y == t.y {
            Object::Empty
        } else {
            g.cell(x, y)
        }
    }
}

/// The least of `a` and `b`.
pub open spec fn min_of(a: int, b: int) -> int {
    if a <= b {
        a
    } else {
        b
    }
}

/// Where the snake of a running game moves without colliding, its new head
/// lands on an interior cell that no kept segment occupies.
proof fn lemma_next_head_free(g: Grid, desire: Vec2i)
    requires
        g.wf(),
        g.is_running(),
        is_desire(desire),
        !collides(g, desire),
    ensures
        is_interior(next_head(g, desire)),
        !kept_segments(g, desire).contains(next_head(g, desire)),
        is_unit(turned(g.heading(), desire)),
        g.cell(next_head(g, desire).x as int, next_head(g, desire).y as int) != Object::Wall,
{
    let d = turned(g.heading(), desire);
    let h = g.body()[0];
    let nh = next_head(g, desire);
    let t = g.body().last();
    assert(is_interior(h));
    assert(is_interior(t));
    assert(on_board(nh.x as int, nh.y as int));
    if on_border(nh.x as int, nh.y as int) {
        assert(g.cell(nh.x as int, nh.y as int) == Object::Wall);
        assert(nh != t);
        assert(false);
    }
    let k = kept_segments(g, desire);
    if k.contains(nh) {
        let i = choose|i: int| 0 <= i < k.len() && k[i] == nh;
        assert(g.body()[i] == nh);
        if i == 0 {
            assert(false);
        } else {
            assert(g.cell(nh.x as int, nh.y as int) == Object::Body);
            if !grows(g, desire) {
                assert(i < g.body().len() - 1);
                assert(g.body()[g.body().len() - 1] == t);
                assert(nh != t);
            }
            assert(false);
        }
    }
}

/// `p` lies in column `x` of row `y`.
pub open spec fn at(p: Vec2i, x: int, y: int) -> bool {
    p.x == x && p.y == y
}

/// Some segment after the head of `s` lies in column `x` of row `y`.
pub open spec fn on_tail(s: Seq<Vec2i>, x: int, y: int) -> bool {
    exists|i: int| 1 <= i < s.len() && at(#[trigger] s[i], x, y)
}

/// `a` and `b` are neighbouring cells, side by side or one above the other.
pub open spec fn adjacent(a: Vec2i, b: Vec2i) -> bool {
    ||| a.x == b.x && (a.y - b.y == 1 || b.y - a.y == 1)
    ||| a.y == b.y && (a.x - b.x == 1 || b.x - a.x == 1)
}

/// What the cell in column `x` of row `y` of `g` ought to hold: a wall on
/// the border, the head and the body where the snake lies, the fruit where
/// it was placed, and nothing elsewhere.
pub open spec fn expected_cell(g: Grid, x: int, y: int) -> Object {
    if on_border(x, y) {
        Object::Wall
    } else if at(g.body()[0], x, y) {
        Object::Head
    } else if on_tail(g.body(), x, y) {
        Object::Body
    } else if at(g.fruit(), x, y) {
        Object::Fruit
    } else {
        Object::Empty
    }
}

/// The board shows exactly the game: walls on the border, the snake where
/// it lies, one fruit, inside and off the snake, and nothing else; and each
/// segment of the snake neighbours the next.
pub open spec fn board_exact(g: Grid) -> bool {
    &&& forall|x: int, y: int| on_board(x, y) ==> #[trigger] g.cell(x, y) == expected_cell(g, x, y)
    &&& forall|i: int| 0 <= i < g.body().len() - 1 ==> adjacent(#[trigger] g.body()[i], g.body()[i + 1])
    &&& is_interior(g.fruit())
    &&& !g.body().contains(g.fruit())
}

/// After the snake of `g` moves along `desire`, some cell is empty for a
/// new fruit.
pub open spec fn room_for_fruit(g: Grid, desire: Vec2i) -> bool {
    exists|x: int, y: int| on_board(x, y) && #[trigger] moved_cell(g, desire, x, y) == Object::Empty
}

/// A move that keeps the game going keeps the board exact, where a fruit
/// eaten leaves an empty cell for the next.
pub proof fn lemma_move_keeps_board(g: Grid, desire: Vec2i, fin: Grid)
    requires
        g.wf(),
        board_exact(g),
        g.is_running(),
        is_desire(desire),
        !collides(g, desire),
        grows(g, desire) ==> room_for_fruit(g, desire),
        fin.body() == seq![next_head(g, desire)] + kept_segments(g, desire),
        grows(g, desire) ==> placed_fruit(|x: int, y: int| moved_cell(g, desire, x, y), g.fruit(), fin),
        !grows(g, desire) ==> forall|x: int, y: int| on_board(x, y) ==> #[trigger] fin.cell(x, y) == moved_cell(g, desire, x, y),
        !grows(g, desire) ==> fin.fruit() == g.fruit(),
    ensures
        board_exact(fin),
{
    lemma_next_head_free(g, desire);
    let nh = next_head(g, desire);
    let k = kept_segments(g, desire);
    let b = g.body();
    let o = b[0];
    let t = b.last();
    let d = turned(g.heading(), desire);
    let gr = grows(g, desire);
    let before = |x: int, y: int| moved_cell(g, desire, x, y);
    assert(g.snake_on_board());
    assert(is_interior(o) && is_interior(t));
    assert(fin.body()[0] == nh);
    assert forall|i: int| 1 <= i < fin.body().len() implies #[trigger] fin.body()[i] == b[i - 1] by {}
    // Where the tail of the new snake lies: the old segments but its last
    // (when it does not grow).
    assert forall|x: int, y: int| on_tail(fin.body(), x, y) == (exists|i: int| 0 <= i < k.len() && at(#[trigger] b[i], x, y)) by {
        if on_tail(fin.body(), x, y) {
            let i = choose|i: int| 1 <= i < fin.body().len() && at(#[trigger] fin.body()[i], x, y);
            assert(at(b[i - 1], x, y));
        }
        if exists|i: int| 0 <= i < k.len() && at(#[trigger] b[i], x, y) {
            let i = choose|i: int| 0 <= i < k.len() && at(#[trigger] b[i], x, y);
            assert(at(fin.body()[i + 1], x, y));
        }
    }
    // The old fruit: eaten where the snake grows, else off the new snake.
    if gr {
        assert(g.cell(nh.x as int, nh.y as int) == Object::Fruit);
        assert(at(g.fruit(), nh.x as int, nh.y as int));
    } else {
        if at(g.fruit(), nh.x as int, nh.y as int) {
            assert(g.cell(nh.x as int, nh.y as int) == expected_cell(g, nh.x as int, nh.y as int));
            assert(!at(o, nh.x as int, nh.y as int));
            assert(!on_tail(b, nh.x as int, nh.y as int)) by {
                if on_tail(b, nh.x as int, nh.y as int) {
                    let i = choose|i: int| 1 <= i < b.len() && at(#[trigger] b[i], nh.x as int, nh.y as int);
                    assert(b[i] == g.fruit());
                    assert(b.contains(g.fruit()));
                }
            }
        }
    }
    // The moved board against what the new game ought to show, cell by cell,
    // apart from a newly placed fruit.
    assert forall|x: int, y: int| on_board(x, y) && !(gr && at(fin.fruit(), x, y)) implies #[trigger] before(x, y) == expected_cell(fin, x, y)
        by {
        assert(g.cell(x, y) == expected_cell(g, x, y));
        if on_border(x, y) {
            assert(!at(nh, x, y) && !at(o, x, y) && !at(t, x, y));
        } else if at(nh, x, y) {
        } else if at(o, x, y) {
            if k.len() > 0 {
                assert(at(b[0], x, y));
            } else {
                assert(b.len() == 1 && !gr);
                assert(!at(g.fruit(), x, y)) by {
                    if at(g.fruit(), x, y) {
                        assert(b[0] == g.fruit());
                        assert(b.contains(g.fruit()));
                    }
                }
            }
        } else if !gr && at(t, x, y) {
            assert(forall|i: int| 0 <= i < k.len() ==> #[trigger] b[i] != t) by {
                assert forall|i: int| 0 <= i < k.len() implies #[trigger] b[i] != t by {
                    assert(b[b.len() - 1] == t);
                }
            }
            assert(!at(g.fruit(), x, y)) by {
                if at(g.fruit(), x, y) {
                    assert(b[b.len() - 1] == g.fruit());
                    assert(b.contains(g.fruit()));
                }
            }
        } else {
            // An untouched cell: the snake's other cells are where they were.
            assert(on_tail(b, x, y) == (exists|i: int| 0 <= i < k.len() && at(#[trigger] b[i], x, y))) by {
                if on_tail(b, x, y) {
                    let i = choose|i: int| 1 <= i < b.len() && at(#[trigger] b[i], x, y);
                    if !gr {
                        assert(i != b.len() - 1);
                    }
                }
                if exists|i: int| 0 <= i < k.len() && at(#[trigger] b[i], x, y) {
                    let i = choose|i: int| 0 <= i < k.len() && at(#[trigger] b[i], x, y);
                    assert(i != 0);
                }
            }
            if gr {
                assert(!at(g.fruit(), x, y));
            }
        }
    }
    if gr {
        // The new fruit lies on a cell the move left empty.
        assert(exists|x: int, y: int| on_board(x, y) && #[trigger] before(x, y) == Object::Empty) by {
            let (x, y) = choose|x: int, y: int| on_board(x, y) && #[trigger] moved_cell(g, desire, x, y) == Object::Empty;
            assert(before(x, y) == Object::Empty);
        }
        let f = fin.fruit();
        assert(on_board(f.x as int, f.y as int));
        assert(before(f.x as int, f.y as int) == Object::Empty);
        assert forall|x: int, y: int| on_board(x, y) implies #[trigger] fin.cell(x, y) == expected_cell(fin, x, y) by {
            if at(f, x, y) {
                assert(fin.cell(x, y) == Object::Fruit);
                assert(g.cell(x, y) == expected_cell(g, x, y));
                assert(!on_border(x, y));
                assert(!at(nh, x, y));
                assert(!at(o, x, y));
                assert(!on_tail(fin.body(), x, y)) by {
                    if on_tail(fin.body(), x, y) {
                        let i = choose|i: int| 0 <= i < k.len() && at(#[trigger] b[i], x, y);
                        if i > 0 {
                            assert(on_tail(b, x, y));
                        }
                    }
                }
            } else {
                assert(fin.cell(x, y) == before(x, y));
            }
        }
        assert(is_interior(f)) by {
            assert(before(f.x as int, f.y as int) == expected_cell(fin, f.x as int, f.y as int) || true);
            if on_border(f.x as int, f.y as int) {
                assert(g.cell(f.x as int, f.y as int) == Object::Wall);
                assert(!at(nh, f.x as int, f.y as int) && !at(o, f.x as int, f.y as int));
            }
        }
        assert(!fin.body().contains(f)) by {
            if fin.body().contains(f) {
                let i = choose|i: int| 0 <= i < fin.body().len() && fin.body()[i] == f;
                assert(at(fin.body()[i], f.x as int, f.y as int));
                if i == 0 {
                } else {
                    assert(on_tail(fin.body(), f.x as int, f.y as int));
                }
                assert(fin.cell(f.x as int, f.y as int) == Object::Fruit);
            }
        }
    } else {
        assert forall|x: int, y: int| on_board(x, y) implies #[trigger] fin.cell(x, y) == expected_cell(fin, x, y) by {
            assert(fin.cell(x, y) == before(x, y));
        }
        assert(!fin.body().contains(fin.fruit())) by {
            if fin.body().contains(fin.fruit()) {
                let i = choose|i: int| 0 <= i < fin.body().len() && fin.body()[i] == fin.fruit();
                if i > 0 {
                    assert(b[i - 1] == g.fruit());
                    assert(b.contains(g.fruit()));
                }
            }
        }
    }
    assert forall|i: int| 0 <= i < fin.body().len() - 1 implies adjacent(#[trigger] fin.body()[i], fin.body()[i + 1]) by {
        if i == 0 {
            assert(fin.body()[1] == o);
            assert(is_unit(d));
        } else {
            assert(fin.body()[i] == b[i - 1]);
            assert(fin.body()[i + 1] == b[i]);
        }
    }
}

/// The state a move without collision leaves keeps the game's invariant.
proof fn lemma_moved_snake_wf(g: Grid, desire: Vec2i, fin: Grid)
    requires
        g.wf(),
        g.is_running(),
        is_desire(desire),
        !collides(g, desire),
        g.idle() < timeout_for(g.body().len() as int),
        fin.shape_ok(),
        fin.body() == seq![next_head(g, desire)] + kept_segments(g, desire),
        fin.heading() == turned(g.heading(), desire),
        fin.is_running(),
        fin.steps() <= 500,
        fin.eaten() == g.eaten() + (if grows(g, desire) { 1int } else { 0 }),
        fin.idle() <= g.idle() + 1,
        grows(g, desire) ==> placed_fruit(|x: int, y: int| moved_cell(g, desire, x, y), g.fruit(), fin),
        !grows(g, desire) ==> forall|x: int, y: int| on_board(x, y) ==> #[trigger] fin.cell(x, y) == moved_cell(g, desire, x, y),
        !grows(g, desire) ==> fin.fruit() == g.fruit(),
    ensures
        fin.wf(),
{
    lemma_next_head_free(g, desire);
    let nh = next_head(g, desire);
    let k = kept_segments(g, desire);
    let before = |x: int, y: int| moved_cell(g, desire, x, y);
    // every cell of the new board is the moved cell, or a fruit placed on a moved empty cell
    assert forall|x: int, y: int| on_board(x, y) implies (#[trigger] fin.cell(x, y) == before(x, y)
        || (before(x, y) == Object::Empty && fin.cell(x, y) == Object::Fruit)) by {}
    assert forall|x: int, y: int| on_board(x, y) implies (#[trigger] fin.cell(x, y) == Object::Wall <==> on_border(x, y)) by {
        assert(g.cell(x, y) == Object::Wall <==> on_border(x, y));
        if x == g.body()[0].x && y == g.body()[0].y {
            assert(is_interior(g.body()[0]));
        }
        if x == g.body().last().x && y == g.body().last().y {
            assert(is_interior(g.body().last()));
        }
    }
    assert forall|i: int| 0 <= i < fin.body().len() implies is_interior(#[trigger] fin.body()[i]) by {
        if i > 0 {
            assert(fin.body()[i] == k[i - 1]);
            assert(k[i - 1] == g.body()[i - 1]);
        }
    }
    assert(k.no_duplicates());
    assert(fin.body().no_duplicates()) by {
        assert forall|i: int, j: int| 0 <= i < fin.body().len() && 0 <= j < fin.body().len() && i != j
            implies fin.body()[i] != fin.body()[j] by {
            if i == 0 {
                assert(k.contains(fin.body()[j]));
            } else if j == 0 {
                assert(k.contains(fin.body()[i]));
            } else {
                assert(fin.body()[i] == k[i - 1]);
                assert(fin.body()[j] == k[j - 1]);
            }
        }
    }
    lemma_snake_fits(fin.body());
    assert(fin.cell(nh.x as int, nh.y as int) == Object::Head);
    assert forall|i: int| 1 <= i < fin.body().len() implies fin.cell(#[trigger] fin.body()[i].x as int, fin.body()[i].y as int)
        == Object::Body by {
        let p = fin.body()[i];
        assert(p == k[i - 1]);
        assert(p == g.body()[i - 1]);
        assert(p != nh);
        if i - 1 == 0 {
            assert(before(p.x as int, p.y as int) == Object::Body);
        } else {
            assert(g.cell(p.x as int, p.y as int) == Object::Body);
            assert(p != g.body()[0]);
            if !grows(g, desire) {
                assert(i - 1 < g.body().len() - 1);
                assert(p != g.body().last());
            }
            assert(before(p.x as int, p.y as int) == Object::Body);
        }
    }
}

/// The four directions the snake looks in, in the order its senses list
/// them: up, down, left, right.
pub open spec fn look_dir(i: int) -> Vec2i {
    if i == 0 {
        Vec2i { x: 0i16, y: -1i16 }
    } else if i == 1 {
        Vec2i { x: 0i16, y: 1i16 }
    } else if i == 2 {
        Vec2i { x: -1i16, y: 0i16 }
    } else {
        Vec2i { x: 1i16, y: 0i16 }
    }
}

/// The coordinate `k` steps from `a` in direction `s` (-1, 0 or 1).
pub open spec fn along(a: int, s: int, k: int) -> int {
    if s == 1 {
        a + k
    } else if s == -1 {
        a - k
    } else {
        a
    }
}

/// The cell `k` steps from the head of `g` in direction `d`.
pub open spec fn ray_cell(g: Grid, d: Vec2i, k: int) -> Object {
    g.cell(along(g.body()[0].x as int, d.x as int, k), along(g.body()[0].y as int, d.y as int, k))
}

/// A ray that looks for walls stops at a wall; one that looks for the body
/// stops at a wall or a body part.
pub open spec fn stops(o: Object, at_body: bool) -> bool {
    o == Object::Wall || (at_body && o == Object::Body)
}

/// `k` is the distance from the head of `g`, in direction `d`, to the first
/// cell at which a ray stops.
pub open spec fn first_stop(g: Grid, d: Vec2i, at_body: bool, k: int) -> bool {
    &&& 1 <= k
    &&& stops(ray_cell(g, d, k), at_body)
    &&& forall|j: int| 1 <= j < k ==> !stops(#[trigger] ray_cell(g, d, j), at_body)
}

/// The distance from the head of `g`, in direction `d`, to the first cell
/// at which a ray stops.
pub open spec fn stop_distance(g: Grid, d: Vec2i, at_body: bool) -> int {
    choose|k: int| first_stop(g, d, at_body, k)
}

/// A ray stops first at one distance only.
pub proof fn lemma_first_stop_unique(g: Grid, d: Vec2i, at_body: bool, k: int)
    requires
        first_stop(g, d, at_body, k),
    ensures
        stop_distance(g, d, at_body) == k,
{
    let c = stop_distance(g, d, at_body);
    assert(first_stop(g, d, at_body, c));
    if c < k {
        assert(!stops(ray_cell(g, d, c), at_body));
    } else if k < c {
        assert(!stops(ray_cell(g, d, k), at_body));
    }
}

/// The displacement of `k` steps in direction `d`.
pub open spec fn steps_along(d: Vec2i, k: int) -> Vec2i {
    Vec2i { x: along(0, d.x as int, k) as i16, y: along(0, d.y as int, k) as i16 }
}

/// The displacement of `k` steps along the unit direction `d`.
fn steps_from_head(d: Vec2i, k: i16) -> (v: Vec2i)
    requires
        is_unit(d),
        0 <= k <= 13,
    ensures
        v == steps_along(d, k as int),
{
    let x: i16 = if d.x == 1 { k } else if d.x == -1 { -k } else { 0 };
    let y: i16 = if d.y == 1 { k } else if d.y == -1 { -k } else { 0 };
    Vec2i { x, y }
}

/// What the snake perceives, counted in cells, before its network's
/// inputs are scaled from it.
pub struct Senses {
    /// Where the fruit lies relative to the head.
    pub fruit_offset: Vec2i,
    /// For each direction looked in, the displacement from the head to the
    /// first wall.
    pub wall_offsets: Vec<Vec2i>,
    /// For each direction looked in, the displacement from the head to the
    /// first body part, if one comes before a wall.
    pub body_offsets: Vec<Option<Vec2i>>,
    /// For each direction looked in, whether the snake moves that way.
    pub heading: Vec<bool>,
}

/// A snake game on a walled board.
pub struct Grid {
    data: Vec<Vec<Object>>,
    segments: Vec<Vec2i>,
    dir: Vec2i,
    fruit_pos: Vec2i,
    pub running: bool,
    fruits_eaten: u16,
    steps_taken: u16,
    steps_without_fruit: u16,
}

impl Grid {
    /// What the cell in column `x` of row `y` holds.
    pub closed spec fn cell(self, x: int, y: int) -> Object {
        self.data@[y]@[x]
    }

    /// Whether the game is still going.
    pub closed spec fn is_running(self) -> bool {
        self.running
    }

    /// The snake's segments, head first.
    pub closed spec fn body(self) -> Seq<Vec2i> {
        self.segments@
    }

    /// The direction the snake moves in.
    pub closed spec fn heading(self) -> Vec2i {
        self.dir
    }

    /// Where the last fruit was placed.
    pub closed spec fn fruit(self) -> Vec2i {
        self.fruit_pos
    }

    /// How many fruits the snake has eaten.
    pub closed spec fn eaten(self) -> int {
        self.fruits_eaten as int
    }

    /// How many steps the snake has taken, counting at most 500.
    pub closed spec fn steps(self) -> int {
        self.steps_taken as int
    }

    /// How many steps the snake has taken since it last ate.
    pub closed spec fn idle(self) -> int {
        self.steps_without_fruit as int
    }

    /// The board has `height()` rows of `width()` cells.
    pub closed spec fn shape_ok(self) -> bool {
        &&& self.data@.len() == height()
        &&& forall|y: int| 0 <= y < height() ==> #[trigger] self.data@[y]@.len() == width()
    }

    /// The head's cell holds the head and every other segment's cell a body
    /// part, and no two segments share a cell.
    pub open spec fn snake_on_board(self) -> bool {
        &&& self.body().no_duplicates()
        &&& self.cell(self.body()[0].x as int, self.body()[0].y as int) == Object::Head
        &&& forall|i: int|
            1 <= i < self.body().len() ==> self.cell(#[trigger] self.body()[i].x as int, self.body()[i].y as int)
                == Object::Body
    }

    /// The invariant every game keeps: the walls are exactly the outer
    /// ring, the snake lies inside it and moves one cell at a time, and the
    /// counters stay within their bounds; while the game runs, the board
    /// shows the snake where it is.
    pub open spec fn wf(self) -> bool {
        &&& self.shape_ok()
        &&& forall|x: int, y: int|
            on_board(x, y) ==> (#[trigger] self.cell(x, y) == Object::Wall <==> on_border(x, y))
        &&& 1 <= self.body().len() <= interior_count()
        &&& self.body().len() == self.eaten() + 1
        &&& forall|i: int| 0 <= i < self.body().len() ==> is_interior(#[trigger] self.body()[i])
        &&& is_unit(self.heading())
        &&& self.steps() <= 500
        &&& self.idle() <= max_idle()
        &&& on_board(self.fruit().x as int, self.fruit().y as int)
        &&& self.is_running() ==> self.snake_on_board()
    }

    /// Puts `v` into the cell in column `x` of row `y`.
    fn set_cell(&mut self, x: usize, y: usize, v: Object)
        requires
            old(self).shape_ok(),
            x < width(),
            y < height(),
        ensures
            final(self).shape_ok(),
            forall|i: int, j: int|
                on_board(i, j) ==> #[trigger] final(self).cell(i, j) == (if i == x && j == y {
                    v
                } else {
                    old(self).cell(i, j)
                }),
            final(self).body() == old(self).body(),
            final(self).heading() == old(self).heading(),
            final(self).fruit() == old(self).fruit(),
            final(self).is_running() == old(self).is_running(),
            final(self).eaten() == old(self).eaten(),
            final(self).steps() == old(self).steps(),
            final(self).idle() == old(self).idle(),
    {
        self.data[y][x] = v;
    }

    /// What the cell in column `x` of row `y` holds.
    pub fn cell_at(&self, x: usize, y: usize) -> (o: Object)
        requires
            self.shape_ok(),
            x < width(),
            y < height(),
        ensures
            o == self.cell(x as int, y as int),
    {
        self.data[y][x]
    }

    /// Starts a game: walls around the board, a one-cell snake in the
    /// middle heading in a random direction, and a fruit in a random empty
    /// cell.
    pub fn new() -> (g: Grid)
        ensures
            g.wf(),
            g.is_running(),
            g.body() == seq![Vec2i { x: (width() / 2) as i16, y: (height() / 2) as i16 }],
            g.eaten() == 0,
            g.steps() == 0,
            g.idle() == 0,
            placed_fruit(|x: int, y: int| initial_cell(x, y), Vec2i { x: 0, y: 0 }, g),
            board_exact(g),
    {
        let mut data: Vec<Vec<Object>> = Vec::new();
        let mut y: usize = 0;
        while y < Config::grid_height
            invariant
                y <= height(),
                data@.len() == y,
                forall|j: int| 0 <= j < y ==> #[trigger] data@[j]@.len() == width(),
                forall|i: int, j: int|
                    0 <= j < y && 0 <= i < width() ==> #[trigger] data@[j]@[i] == (if on_border(i, j) {
                        Object::Wall
                    } else {
                        Object::Empty
                    }),
            decreases height() - y,
        {
            let mut row: Vec<Object> = Vec::new();
            let mut x: usize = 0;
            while x < Config::grid_width
                invariant
                    x <= width(),
                    y < height(),
                    row@.len() == x,
                    forall|i: int| 0 <= i < x ==> #[trigger] row@[i] == (if on_border(i, y as int) {
                        Object::Wall
                    } else {
                        Object::Empty
                    }),
                decreases width() - x,
            {
                if x == 0 || x == Config::grid_width - 1 || y == 0 || y == Config::grid_height - 1 {
                    row.push(Object::Wall);
                } else {
                    row.push(Object::Empty);
                }
                x = x + 1;
            }
            data.push(row);
            y = y + 1;
        }
        let dir: Vec2i = match random_below(4) {
            0 => Vec2i::from((1, 0)),
            1 => Vec2i::from((-1, 0)),
            2 => Vec2i::from((0, 1)),
            _ => Vec2i::from((0, -1)),
        };
        let head_pos: Vec2i = Vec2i::from(
            ((Config::grid_width / 2) as i16, (Config::grid_height / 2) as i16),
        );
        let mut segments: Vec<Vec2i> = Vec::new();
        segments.push(head_pos);
        let mut grid = Grid {
            data: data,
            segments: segments,
            dir: dir,
            fruit_pos: Vec2i::from((0, 0)),
            running: true,
            fruits_eaten: 0,
            steps_taken: 0,
            steps_without_fruit: 0,
        };
        grid.set_cell(head_pos.x as usize, head_pos.y as usize, Object::Head);
        let ghost start = grid;
        assert forall|x: int, y: int| on_board(x, y) implies #[trigger] start.cell(x, y) == initial_cell(x, y) by {}
        grid.spawn_fruit();
        proof {
            let before = |x: int, y: int| initial_cell(x, y);
            lemma_placed_fruit_same_board(|x: int, y: int| start.cell(x, y), before, Vec2i { x: 0, y: 0 }, grid);
            assert(before(8, 8) == Object::Empty);
            assert forall|x: int, y: int| on_board(x, y) implies (#[trigger] grid.cell(x, y) == Object::Wall
                <==> on_border(x, y)) by {
                assert(grid.cell(x, y) == Object::Wall ==> before(x, y) == Object::Wall);
            }
            assert(grid.body()[0] == head_pos);
            let f = grid.fruit();
            assert(before(f.x as int, f.y as int) == Object::Empty);
            assert(!on_border(f.x as int, f.y as int));
            assert(!at(head_pos, f.x as int, f.y as int));
            assert(grid.body() == seq![head_pos]);
            assert forall|x: int, y: int| on_board(x, y) implies #[trigger] grid.cell(x, y) == expected_cell(grid, x, y) by {
                assert(!on_tail(grid.body(), x, y));
            }
            assert(!grid.body().contains(f)) by {
                if grid.body().contains(f) {
                    let i = choose|i: int| 0 <= i < grid.body().len() && grid.body()[i] == f;
                    assert(i == 0);
                }
            }
        }
        grid
    }

    /// Puts a fruit into an empty cell drawn uniformly at random. Where no
    /// cell is empty, nothing changes (the snake fills the board and there
    /// is nowhere left to put a fruit).
    pub fn spawn_fruit(&mut self)
        requires
            old(self).shape_ok(),
        ensures
            final(self).shape_ok(),
            placed_fruit(|x: int, y: int| old(self).cell(x, y), old(self).fruit(), *final(self)),
            final(self).body() == old(self).body(),
            final(self).heading() == old(self).heading(),
            final(self).is_running() == old(self).is_running(),
            final(self).eaten() == old(self).eaten(),
            final(self).steps() == old(self).steps(),
            final(self).idle() == old(self).idle(),
    {
        let ghost before = |x: int, y: int| old(self).cell(x, y);
        let mut empties: Vec<Vec2i> = Vec::new();
        let mut y: usize = 0;
        while y < Config::grid_height
            invariant
                y <= height(),
                self.shape_ok(),
                *self == *old(self),
                forall|k: int| 0 <= k < empties@.len() ==> {
                    let p = #[trigger] empties@[k];
                    on_board(p.x as int, p.y as int) && self.cell(p.x as int, p.y as int) == Object::Empty
                },
                forall|i: int, j: int|
                    on_board(i, j) && j < y && #[trigger] self.cell(i, j) == Object::Empty ==> empties@.len() > 0,
            decreases height() - y,
        {
            let mut x: usize = 0;
            while x < Config::grid_width
                invariant
                    x <= width(),
                    y < height(),
                    self.shape_ok(),
                    *self == *old(self),
                    forall|k: int| 0 <= k < empties@.len() ==> {
                        let p = #[trigger] empties@[k];
                        on_board(p.x as int, p.y as int) && self.cell(p.x as int, p.y as int) == Object::Empty
                    },
                    forall|i: int, j: int|
                        on_board(i, j) && (j < y || (j == y && i < x)) && #[trigger] self.cell(i, j)
                            == Object::Empty ==> empties@.len() > 0,
                decreases width() - x,
            {
                if self.data[y][x] == Object::Empty {
                    empties.push(Vec2i { x: x as i16, y: y as i16 });
                }
                x = x + 1;
            }
            y = y + 1;
        }
        if empties.len() > 0 {
            let k = random_below(empties.len());
            let p = empties[k];
            self.fruit_pos.x = p.x;
            self.fruit_pos.y = p.y;
            self.set_cell(p.x as usize, p.y as usize, Object::Fruit);
        } else {
            assert(!exists|x: int, y: int| on_board(x, y) && #[trigger] before(x, y) == Object::Empty);
        }
    }

    /// Turns the snake as `desire` asks where it may: one moving up or down
    /// turns left or right, one moving sideways turns up or down; it never
    /// reverses.
    fn change_direction(&mut self, desire: Vec2i)
        requires
            is_desire(desire),
        ensures
            final(self).heading() == turned(old(self).heading(), desire),
            final(self).data == old(self).data,
            final(self).segments == old(self).segments,
            final(self).fruit_pos == old(self).fruit_pos,
            final(self).running == old(self).running,
            final(self).fruits_eaten == old(self).fruits_eaten,
            final(self).steps_taken == old(self).steps_taken,
            final(self).steps_without_fruit == old(self).steps_without_fruit,
    {
        let moving_vertically = self.dir.x == 0;
        if moving_vertically {
            if desire.x != 0 {
                self.dir.x = desire.x;
                self.dir.y = 0;
            }
        } else if desire.y != 0 {
            self.dir.x = 0;
            self.dir.y = desire.y;
        }
    }

    /// Plays one move. A finished game stays as it is. A snake that has
    /// gone too long without eating ends the game. Otherwise the snake turns
    /// as `desire` asks where it may and moves its head one cell on; it
    /// grows if the head reaches the fruit, and otherwise its tail leaves
    /// its cell. If the head would run into a wall or into the body, the
    /// game ends with the head left in place. On eating, a new fruit is
    /// placed and the count of idle steps starts again.
    pub fn step(&mut self, desire: Vec2i)
        requires
            old(self).wf(),
            old(self).is_running() && old(self).idle() < timeout_for(old(self).body().len() as int) ==> is_desire(desire),
        ensures
            final(self).wf(),
            board_exact(*old(self)) && final(self).is_running() && (grows(*old(self), desire) ==> room_for_fruit(*old(self), desire))
                ==> board_exact(*final(self)),
            !old(self).is_running() ==> *final(self) == *old(self),
            old(self).is_running() && old(self).idle() >= timeout_for(old(self).body().len() as int) ==> {
                &&& !final(self).is_running()
                &&& final(self).body() == old(self).body()
                &&& final(self).heading() == old(self).heading()
                &&& final(self).fruit() == old(self).fruit()
                &&& final(self).eaten() == old(self).eaten()
                &&& final(self).steps() == old(self).steps()
                &&& final(self).idle() == old(self).idle()
                &&& forall|x: int, y: int| on_board(x, y) ==> #[trigger] final(self).cell(x, y) == old(self).cell(x, y)
            },
            old(self).is_running() && old(self).idle() < timeout_for(old(self).body().len() as int)
                && collides(*old(self), desire) ==> {
                &&& !final(self).is_running()
                &&& final(self).body() == kept_segments(*old(self), desire).push(old(self).body()[0])
                &&& final(self).heading() == turned(old(self).heading(), desire)
                &&& final(self).fruit() == old(self).fruit()
                &&& final(self).eaten() == old(self).eaten()
                &&& final(self).steps() == old(self).steps()
                &&& final(self).idle() == old(self).idle()
                &&& forall|x: int, y: int| on_board(x, y) ==> #[trigger] final(self).cell(x, y) == moved_cell(*old(self), desire, x, y)
            },
            old(self).is_running() && old(self).idle() < timeout_for(old(self).body().len() as int)
                && !collides(*old(self), desire) ==> {
                &&& final(self).is_running()
                &&& final(self).body() == seq![next_head(*old(self), desire)] + kept_segments(*old(self), desire)
                &&& final(self).heading() == turned(old(self).heading(), desire)
                &&& final(self).steps() == min_of(500, old(self).steps() + 1)
                &&& grows(*old(self), desire) ==> {
                    &&& final(self).eaten() == old(self).eaten() + 1
                    &&& final(self).idle() == 1
                    &&& placed_fruit(|x: int, y: int| moved_cell(*old(self), desire, x, y), old(self).fruit(), *final(self))
                }
                &&& !grows(*old(self), desire) ==> {
                    &&& final(self).eaten() == old(self).eaten()
                    &&& final(self).idle() == old(self).idle() + 1
                    &&& final(self).fruit() == old(self).fruit()
                    &&& forall|x: int, y: int| on_board(x, y) ==> #[trigger] final(self).cell(x, y) == moved_cell(*old(self), desire, x, y)
                }
            },
    {
        if !self.running {
            return;
        }
        let ghost g = *self;
        proof {
            lemma_board_sizes();
        }
        let timeout: u16 = ((Config::grid_height * Config::grid_width) as u16) + (self.segments.len() as u16 * 50);
        if self.steps_without_fruit >= timeout {
            self.running = false;
            proof {
                assert forall|x: int, y: int| on_board(x, y) implies #[trigger] self.cell(x, y) == g.cell(x, y) by {}
            }
            return;
        }
        self.change_direction(desire);
        let old_head = self.segments[0];
        assert(is_interior(old_head));
        assert(is_interior(g.body()[g.body().len() - 1]));
        let new_head = old_head.add(self.dir);
        assert(new_head == next_head(g, desire));
        let growing = self.data[new_head.y as usize][new_head.x as usize] == Object::Fruit;
        if !growing {
            let popped = self.segments.pop();
            let tailest = match popped {
                Some(t) => t,
                None => old_head,
            };
            assert(tailest == g.body().last());
            self.set_cell(tailest.x as usize, tailest.y as usize, Object::Empty);
        }
        assert(self.segments@ == kept_segments(g, desire));
        assert forall|x: int, y: int| on_board(x, y) implies #[trigger] self.cell(x, y) == (if !grows(g, desire)
            && x == g.body().last().x && y == g.body().last().y {
            Object::Empty
        } else {
            g.cell(x, y)
        }) by {}
        let ghost popped = *self;
        assert(on_board(new_head.x as int, new_head.y as int));
        assert(grows(g, desire) == growing);
        assert(self.cell(new_head.x as int, new_head.y as int) == target(g, desire));
        let going_into = self.data[new_head.y as usize][new_head.x as usize];
        assert(going_into == target(g, desire));
        proof {
            assert(old_head == g.body()[0]);
            assert forall|x: int, y: int| on_board(x, y) implies #[trigger] popped.cell(x, y) == (if !grows(g, desire)
                && x == g.body().last().x && y == g.body().last().y {
                Object::Empty
            } else {
                g.cell(x, y)
            }) by {}
        }
        if going_into == Object::Body || going_into == Object::Wall {
            self.set_cell(old_head.x as usize, old_head.y as usize, Object::Head);
            proof {
                assert(collides(g, desire));
                assert forall|x: int, y: int| on_board(x, y) implies #[trigger] self.cell(x, y) == moved_cell(g, desire, x, y) by {
                    assert(popped.cell(x, y) == (if !grows(g, desire) && x == g.body().last().x && y == g.body().last().y {
                        Object::Empty
                    } else {
                        g.cell(x, y)
                    }));
                }
            }
            let ghost mid = *self;
            self.segments.push(old_head);
            self.running = false;
            proof {
                assert(self.data == mid.data);
                assert forall|x: int, y: int| on_board(x, y) implies #[trigger] self.cell(x, y) == moved_cell(g, desire, x, y) by {
                    assert(mid.cell(x, y) == moved_cell(g, desire, x, y));
                }
                assert forall|x: int, y: int| on_board(x, y) implies (#[trigger] self.cell(x, y) == Object::Wall <==> on_border(x, y)) by {
                    assert(self.cell(x, y) == moved_cell(g, desire, x, y));
                    assert(g.cell(x, y) == Object::Wall <==> on_border(x, y));
                }
                assert forall|i: int| 0 <= i < self.body().len() implies is_interior(#[trigger] self.body()[i]) by {
                    if i < self.body().len() - 1 {
                        assert(self.body()[i] == g.body()[i]);
                    }
                }
            }
            return;
        }
        proof {
            lemma_next_head_free(g, desire);
            assert(!collides(g, desire));
        }
        if !self.segments.is_empty() {
            self.set_cell(old_head.x as usize, old_head.y as usize, Object::Body);
        }
        proof {
            assert forall|x: int, y: int| on_board(x, y) implies #[trigger] self.cell(x, y) == (if x == old_head.x && y
                == old_head.y && kept_segments(g, desire).len() > 0 {
                Object::Body
            } else {
                popped.cell(x, y)
            }) by {}
        }
        let ghost b1 = *self;
        self.segments.insert(0, new_head);
        self.set_cell(new_head.x as usize, new_head.y as usize, Object::Head);
        proof {
            assert forall|x: int, y: int| on_board(x, y) implies #[trigger] self.cell(x, y) == moved_cell(g, desire, x, y) by {
                assert(b1.cell(x, y) == (if x == old_head.x && y == old_head.y && kept_segments(g, desire).len() > 0 {
                    Object::Body
                } else {
                    popped.cell(x, y)
                }));
                assert(popped.cell(x, y) == (if !grows(g, desire) && x == g.body().last().x && y == g.body().last().y {
                    Object::Empty
                } else {
                    g.cell(x, y)
                }));
            }
            assert(self.body() == seq![next_head(g, desire)] + kept_segments(g, desire));
        }
        let ghost moved = *self;
        if growing {
            self.steps_without_fruit = 0;
            self.fruits_eaten = self.fruits_eaten + 1;
            let ghost pre_spawn = *self;
            proof {
                assert(pre_spawn.data == moved.data);
                assert forall|x: int, y: int| on_board(x, y) implies #[trigger] pre_spawn.cell(x, y) == moved_cell(g, desire, x, y) by {
                    assert(moved.cell(x, y) == moved_cell(g, desire, x, y));
                }
            }
            self.spawn_fruit();
            proof {
                lemma_placed_fruit_same_board(|x: int, y: int| pre_spawn.cell(x, y), |x: int, y: int| moved_cell(g, desire, x, y), g.fruit(), *self);
            }
        }
        let ghost post_spawn = *self;
        if self.steps_taken + 1 < 500 {
            self.steps_taken = self.steps_taken + 1;
        } else {
            self.steps_taken = 500;
        }
        self.steps_without_fruit = self.steps_without_fruit + 1;
        proof {
            if growing {
                lemma_placed_fruit_same_after(|x: int, y: int| moved_cell(g, desire, x, y), g.fruit(), post_spawn, *self);
            }
            if !growing {
                assert(self.data == moved.data);
                assert forall|x: int, y: int| on_board(x, y) implies #[trigger] self.cell(x, y) == moved_cell(g, desire, x, y) by {
                    assert(moved.cell(x, y) == moved_cell(g, desire, x, y));
                }
            }
            lemma_moved_snake_wf(g, desire, *self);
            if board_exact(g) && (growing ==> room_for_fruit(g, desire)) {
                lemma_move_keeps_board(g, desire, *self);
            }
        }
    }

    /// Looks from the head along `d` until a wall (or, with `at_body`, a
    /// body part) and gives the distance and what was found.
    fn cast_ray(&self, d: Vec2i, at_body: bool) -> (r: (i16, Object))
        requires
            self.wf(),
            is_unit(d),
        ensures
            first_stop(*self, d, at_body, r.0 as int),
            r.1 == ray_cell(*self, d, r.0 as int),
            r.0 <= 13,
    {
        let head = self.segments[0];
        assert(is_interior(head));
        proof {
            lemma_board_sizes();
        }
        let mut pos = Vec2i { x: head.x + d.x, y: head.y + d.y };
        let mut k: i16 = 1;
        loop
            invariant
                self.wf(),
                is_unit(d),
                head == self.body()[0],
                is_interior(head),
                1 <= k <= 13,
                pos.x == along(head.x as int, d.x as int, k as int),
                pos.y == along(head.y as int, d.y as int, k as int),
                on_board(pos.x as int, pos.y as int),
                forall|j: int| 1 <= j < k ==> !stops(#[trigger] ray_cell(*self, d, j), at_body),
            decreases 13 - k,
        {
            let o = self.data[pos.y as usize][pos.x as usize];
            assert(o == self.cell(pos.x as int, pos.y as int));
            assert(o == ray_cell(*self, d, k as int));
            if o == Object::Wall || (at_body && o == Object::Body) {
                return (k, o);
            }
            assert(!on_border(pos.x as int, pos.y as int));
            pos = Vec2i { x: pos.x + d.x, y: pos.y + d.y };
            k = k + 1;
        }
    }

    /// What the snake perceives: where the fruit lies, and, looking up,
    /// down, left and right from the head, how far the first wall and the
    /// first body part before a wall are, and which way it moves.
    pub fn senses(&self) -> (s: Senses)
        requires
            self.wf(),
        ensures
            s.fruit_offset.x == self.fruit().x - self.body()[0].x,
            s.fruit_offset.y == self.fruit().y - self.body()[0].y,
            s.wall_offsets@.len() == 4,
            s.body_offsets@.len() == 4,
            s.heading@.len() == 4,
            forall|i: int| 0 <= i < 4 ==> first_stop(*self, look_dir(i), false, #[trigger] stop_distance(*self, look_dir(i), false)),
            forall|i: int| 0 <= i < 4 ==> first_stop(*self, look_dir(i), true, #[trigger] stop_distance(*self, look_dir(i), true)),
            forall|i: int| 0 <= i < 4 ==> #[trigger] s.wall_offsets@[i] == steps_along(look_dir(i), stop_distance(*self, look_dir(i), false)),
            forall|i: int| 0 <= i < 4 ==> #[trigger] s.body_offsets@[i] == (if ray_cell(*self, look_dir(i), stop_distance(*self, look_dir(i), true))
                == Object::Body { Some(steps_along(look_dir(i), stop_distance(*self, look_dir(i), true))) } else { None }),
            forall|i: int| 0 <= i < 4 ==> #[trigger] s.heading@[i] == (self.heading() == look_dir(i)),
    {
        let head = self.segments[0];
        assert(is_interior(head));
        let fruit_offset = self.fruit_pos.sub(head);
        let mut wall_offsets: Vec<Vec2i> = Vec::new();
        let mut body_offsets: Vec<Option<Vec2i>> = Vec::new();
        let mut heading: Vec<bool> = Vec::new();
        let mut i: usize = 0;
        while i < 4
            invariant
                self.wf(),
                i <= 4,
                wall_offsets@.len() == i,
                body_offsets@.len() == i,
                heading@.len() == i,
                forall|j: int| 0 <= j < i ==> first_stop(*self, look_dir(j), false, #[trigger] stop_distance(*self, look_dir(j), false)),
                forall|j: int| 0 <= j < i ==> first_stop(*self, look_dir(j), true, #[trigger] stop_distance(*self, look_dir(j), true)),
                forall|j: int| 0 <= j < i ==> #[trigger] wall_offsets@[j] == steps_along(look_dir(j), stop_distance(*self, look_dir(j), false)),
                forall|j: int| 0 <= j < i ==> #[trigger] body_offsets@[j] == (if ray_cell(*self, look_dir(j), stop_distance(*self, look_dir(j), true))
                    == Object::Body { Some(steps_along(look_dir(j), stop_distance(*self, look_dir(j), true))) } else { None }),
                forall|j: int| 0 <= j < i ==> #[trigger] heading@[j] == (self.heading() == look_dir(j)),
            decreases 4 - i,
        {
            let d = if i == 0 {
                Vec2i { x: 0, y: -1 }
            } else if i == 1 {
                Vec2i { x: 0, y: 1 }
            } else if i == 2 {
                Vec2i { x: -1, y: 0 }
            } else {
                Vec2i { x: 1, y: 0 }
            };
            assert(d == look_dir(i as int));
            let (kw, _) = self.cast_ray(d, false);
            wall_offsets.push(steps_from_head(d, kw));
            let (kb, ob) = self.cast_ray(d, true);
            if ob == Object::Body {
                body_offsets.push(Some(steps_from_head(d, kb)));
            } else {
                body_offsets.push(None);
            }
            heading.push(self.dir == d);
            proof {
                lemma_first_stop_unique(*self, d, false, kw as int);
                lemma_first_stop_unique(*self, d, true, kb as int);
                assert(steps_along(d, kw as int) == wall_offsets@[i as int]);
                assert(body_offsets@[i as int] == (if ray_cell(*self, d, kb as int) == Object::Body {
                    Some(steps_along(d, kb as int))
                } else {
                    None
                }));
            }
            i = i + 1;
        }
        Senses { fruit_offset, wall_offsets, body_offsets, heading }
    }

    /// How many fruits the snake has eaten.
    pub fn fruits_eaten(&self) -> (n: u16)
        ensures
            n == self.eaten(),
    {
        self.fruits_eaten
    }

    /// How many steps the snake has taken, counting at most 500.
    pub fn steps_taken(&self) -> (n: u16)
        ensures
            n == self.steps(),
    {
        self.steps_taken
    }

    /// The snake's segments, head first.
    pub fn segments(&self) -> (s: &Vec<Vec2i>)
        ensures
            s@ == self.body(),
    {
        &self.segments
    }
}

} // verus!
