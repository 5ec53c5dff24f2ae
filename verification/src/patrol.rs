//! Guard patrol simulation: a guard walks a rectangular grid of obstacles,
//! turning clockwise in front of an obstacle and stepping forward otherwise,
//! until it leaves the grid.

use vstd::prelude::*;

verus! {

/// A rectangular grid of obstructions: `map[i][j]` is true when cell
/// `(i, j)` holds an obstacle.
#[derive(Debug, Eq, PartialEq, Clone)]
pub struct ObstructionMap {
    pub map: Vec<Vec<bool>>,
    pub line_size: usize,
}

/// The grid as a sequence of rows of booleans.
pub open spec fn grid_of(m: &ObstructionMap) -> Seq<Seq<bool>> {
    m.map@.map_values(|r: Vec<bool>| r@)
}

impl ObstructionMap {
    /// Every row has exactly `line_size` cells.
    pub open spec fn wf(&self) -> bool {
        forall|i: int| 0 <= i < self.map@.len() ==> (#[trigger] self.map@[i])@.len()
            == self.line_size
    }
}

/// Whether the grid has an obstacle at `p` (positions outside the grid hold
/// none).
pub open spec fn blocked(g: Seq<Seq<bool>>, width: usize, p: (usize, usize)) -> bool {
    p.0 < g.len() && p.1 < width && g[p.0 as int][p.1 as int]
}

/// A compass direction of travel.
#[derive(Debug, Eq, PartialEq, Hash, Copy, Clone, Structural)]
pub enum Direction {
    Up,
    Right,
    Down,
    Left,
}

/// The direction after a quarter turn clockwise.
pub open spec fn turned(d: Direction) -> Direction {
    match d {
        Direction::Up => Direction::Right,
        Direction::Right => Direction::Down,
        Direction::Down => Direction::Left,
        Direction::Left => Direction::Up,
    }
}

/// The cell one step from `pos` in direction `d`, or `None` at the edge of
/// an image of `height` rows and `width` columns.
pub open spec fn next_point_spec(
    d: Direction,
    pos: (usize, usize),
    height: usize,
    width: usize,
) -> Option<(usize, usize)> {
    match d {
        Direction::Up => if pos.0 > 0 {
            Some(((pos.0 - 1) as usize, pos.1))
        } else {
            None
        },
        Direction::Down => if pos.0 + 1 < height && pos.1 < width {
            Some(((pos.0 + 1) as usize, pos.1))
        } else {
            None
        },
        Direction::Left => if pos.1 > 0 {
            Some((pos.0, (pos.1 - 1) as usize))
        } else {
            None
        },
        Direction::Right => if pos.0 < height && pos.1 + 1 < width {
            Some((pos.0, (pos.1 + 1) as usize))
        } else {
            None
        },
    }
}

impl Direction {
    /// The cell one step from `pos` in this direction, or `None` when that
    /// step would leave a grid of `size.0` rows and `size.1` columns.
    pub fn next_point(&self, pos: (usize, usize), size: (usize, usize)) -> (r: Option<
        (usize, usize)
    >)
        ensures
            r == next_point_spec(*self, pos, size.0, size.1),
    {
        match self {
            Direction::Up => if pos.0 > 0 {
                Some((pos.0 - 1, pos.1))
            } else {
                None
            },
            Direction::Down => if pos.0 < size.0 && size.0 - pos.0 > 1 && pos.1 < size.1 {
                Some((pos.0 + 1, pos.1))
            } else {
                None
            },
            Direction::Left => if pos.1 > 0 {
                Some((pos.0, pos.1 - 1))
            } else {
                None
            },
            Direction::Right => if pos.0 < size.0 && pos.1 < size.1 && size.1 - pos.1 > 1 {
                Some((pos.0, pos.1 + 1))
            } else {
                None
            },
        }
    }

    /// The direction after a quarter turn clockwise.
    pub fn turn_clockwise(&self) -> (r: Direction)
        ensures
            r == turned(*self),
    {
        match self {
            Direction::Up => Direction::Right,
            Direction::Right => Direction::Down,
            Direction::Down => Direction::Left,
            Direction::Left => Direction::Up,
        }
    }
}

/// Whether `p` lies inside a rectangle of `height` rows and `width` columns.
pub fn is_in_rect(p: (usize, usize), size: (usize, usize)) -> (r: bool)
    ensures
        r == (p.0 < size.0 && p.1 < size.1),
{
    p.0 < size.0 && p.1 < size.1
}

/// One action of the guard: leave the grid, turn once before an obstacle, or
/// step forward.  `None` means the guard has left the grid.
pub open spec fn walk_step(
    g: Seq<Seq<bool>>,
    width: usize,
    st: (Direction, (usize, usize)),
) -> Option<(Direction, (usize, usize))> {
    match next_point_spec(st.0, st.1, g.len() as usize, width) {
        None => None,
        Some(p) => if blocked(g, width, p) {
            Some((turned(st.0), st.1))
        } else {
            Some((st.0, p))
        },
    }
}

/// The guard's state after `n` actions; `None` once it has left the grid.
pub open spec fn walk_n(
    g: Seq<Seq<bool>>,
    width: usize,
    st: (Direction, (usize, usize)),
    n: nat,
) -> Option<(Direction, (usize, usize))>
    decreases n,
{
    if n == 0 {
        Some(st)
    } else {
        match walk_n(g, width, st, (n - 1) as nat) {
            None => None,
            Some(prev) => walk_step(g, width, prev),
        }
    }
}

/// The walk eventually leaves the grid.
pub open spec fn walk_leaves(
    g: Seq<Seq<bool>>,
    width: usize,
    st: (Direction, (usize, usize)),
) -> bool {
    exists|n: nat| walk_n(g, width, st, n) is None
}

/// Whether the walk ever stands on position `p`.
pub open spec fn visits(
    g: Seq<Seq<bool>>,
    width: usize,
    st: (Direction, (usize, usize)),
    p: (usize, usize),
) -> bool {
    exists|n: nat|
        {
            let w = #[trigger] walk_n(g, width, st, n);
            w is Some && (w->0).1 == p
        }
}

/// Once the guard has left the grid, it stays outside.
proof fn lemma_walk_absorbing(
    g: Seq<Seq<bool>>,
    width: usize,
    st: (Direction, (usize, usize)),
    n: nat,
    m: nat,
)
    requires
        walk_n(g, width, st, n) is None,
        m >= n,
    ensures
        walk_n(g, width, st, m) is None,
    decreases m,
{
    if m > n {
        lemma_walk_absorbing(g, width, st, n, (m - 1) as nat);
    }
}

/// A guard: a position, a direction of travel, and the map it walks on.
pub struct Guard<'a> {
    pub direction: Direction,
    pub pos: (usize, usize),
    pub map: &'a ObstructionMap,
}

impl<'a> Guard<'a> {
    /// The map this guard walks on.
    pub open spec fn map_spec(&self) -> &'a ObstructionMap {
        self.map
    }

    /// The guard stands inside a well-formed grid.
    pub open spec fn wf(&self) -> bool {
        &&& self.map_spec().wf()
        &&& self.pos.0 < self.map_spec().map@.len()
        &&& self.pos.1 < self.map_spec().line_size
    }

    /// A new guard at `pos`, facing up.
    pub fn new(pos: (usize, usize), map: &'a ObstructionMap) -> (r: Self)
        ensures
            r.direction == Direction::Up,
            r.pos == pos,
            r.map_spec() == map,
    {
        Self { direction: Direction::Up, pos, map }
    }

    /// The cell in front of the guard, or `None` at the edge of the grid.
    fn next_point(&self) -> (r: Option<(usize, usize)>)
        ensures
            r == next_point_spec(
                self.direction,
                self.pos,
                self.map_spec().map@.len() as usize,
                self.map_spec().line_size,
            ),
    {
        self.direction.next_point(self.pos, (self.map.map.len(), self.map.line_size))
    }

    /// Steps the guard one cell forward; returns false, leaving it in place,
    /// when the step would leave the grid.
    pub fn move_to_next_point(&mut self) -> (r: bool)
        ensures
            final(self).direction == old(self).direction,
            final(self).map_spec() == old(self).map_spec(),
            match next_point_spec(
                old(self).direction,
                old(self).pos,
                old(self).map_spec().map@.len() as usize,
                old(self).map_spec().line_size,
            ) {
                Some(p) => r && final(self).pos == p,
                None => !r && final(self).pos == old(self).pos,
            },
    {
        if let Some(new_pos) = self.next_point() {
            self.pos = new_pos;
            true
        } else {
            false
        }
    }

    /// Turns the guard a quarter turn clockwise in place.
    pub fn turn_clockwise(&mut self)
        ensures
            final(self).direction == turned(old(self).direction),
            final(self).pos == old(self).pos,
            final(self).map_spec() == old(self).map_spec(),
    {
        self.direction = self.direction.turn_clockwise();
    }

    /// Whether the cell in front of the guard holds an obstacle.
    pub fn is_looking_at_obstacle(&self) -> (r: bool)
        requires
            self.wf(),
        ensures
            r == match next_point_spec(
                self.direction,
                self.pos,
                self.map_spec().map@.len() as usize,
                self.map_spec().line_size,
            ) {
                Some(p) => blocked(grid_of(self.map_spec()), self.map_spec().line_size, p),
                None => false,
            },
    {
        if let Some(p) = self.next_point() {
            self.map.map[p.0][p.1]
        } else {
            false
        }
    }
}

/// Whether the sequence of positions holds `p`.
fn points_contain(v: &Vec<(usize, usize)>, p: (usize, usize)) -> (r: bool)
    ensures
        r == v@.contains(p),
{
    let n = v.len();
    let mut i: usize = 0;
    while i < n
        invariant
            i <= n,
            n == v@.len(),
            forall|k: int| 0 <= k < i ==> v@[k] != p,
        decreases n - i,
    {
        if v[i].0 == p.0 && v[i].1 == p.1 {
            assert(v@[i as int] == p);
            return true;
        }
        i = i + 1;
    }
    false
}

/// The positions the guard stands on before leaving the grid, each listed
/// once, starting from `arg.1` facing up.
pub fn visited_points(arg: (&ObstructionMap, (usize, usize))) -> (r: Vec<(usize, usize)>)
    requires
        arg.0.wf(),
        arg.1.0 < arg.0.map@.len(),
        arg.1.1 < arg.0.line_size,
        walk_leaves(grid_of(arg.0), arg.0.line_size, (Direction::Up, arg.1)),
    ensures
        forall|p: (usize, usize)|
            r@.contains(p) <==> visits(grid_of(arg.0), arg.0.line_size, (Direction::Up, arg.1), p),
        forall|i: int, j: int| 0 <= i < j < r@.len() ==> r@[i] != r@[j],
{
    let (map, guard_pos) = arg;
    let ghost g = grid_of(map);
    let ghost width = map.line_size;
    let ghost st0 = (Direction::Up, guard_pos);
    let ghost n_end = choose|n: nat| walk_n(g, width, st0, n) is None;
    let mut visited: Vec<(usize, usize)> = Vec::new();
    visited.push(guard_pos);
    let mut guard = Guard::new(guard_pos, map);
    let ghost mut steps: nat = 0;
    proof {
        assert(walk_n(g, width, st0, 0) == Some(st0));
        assert(visited@ =~= seq![guard_pos]);
        assert forall|p: (usize, usize)| visited@.contains(p) <==> exists|n: nat|
            n <= 0 && {
                let w = #[trigger] walk_n(g, width, st0, n);
                w is Some && (w->0).1 == p
            } by {
            if p == guard_pos {
                assert(visited@[0] == p);
                assert((walk_n(g, width, st0, 0)->0).1 == p);
            } else {
                if visited@.contains(p) {
                    let k = choose|k: int| 0 <= k < visited@.len() && visited@[k] == p;
                    assert(false);
                }
                assert forall|n: nat| n <= 0 implies !({
                    let w = #[trigger] walk_n(g, width, st0, n);
                    w is Some && (w->0).1 == p
                }) by {
                    assert(walk_n(g, width, st0, 0) == Some(st0));
                }
            }
        }
    }
    loop
        invariant
            guard.wf(),
            guard.map_spec() == map,
            map.wf(),
            g == grid_of(map),
            width == map.line_size,
            walk_n(g, width, st0, n_end) is None,
            steps <= n_end,
            walk_n(g, width, st0, steps) == Some((guard.direction, guard.pos)),
            forall|p: (usize, usize)|
                visited@.contains(p) <==> exists|n: nat|
                    n <= steps && {
                        let w = #[trigger] walk_n(g, width, st0, n);
                        w is Some && (w->0).1 == p
                    },
            forall|i: int, j: int| 0 <= i < j < visited@.len() ==> visited@[i] != visited@[j],
        ensures
            walk_n(g, width, st0, steps) == Some((guard.direction, guard.pos)),
            walk_step(g, width, (guard.direction, guard.pos)) is None,
            forall|p: (usize, usize)|
                visited@.contains(p) <==> exists|n: nat|
                    n <= steps && {
                        let w = #[trigger] walk_n(g, width, st0, n);
                        w is Some && (w->0).1 == p
                    },
            forall|i: int, j: int| 0 <= i < j < visited@.len() ==> visited@[i] != visited@[j],
        decreases n_end - steps,
    {
        let ghost pre = (guard.direction, guard.pos);
        if guard.is_looking_at_obstacle() {
            guard.turn_clockwise();
            proof {
                assert(walk_step(g, width, pre) == Some((guard.direction, guard.pos)));
                assert(walk_n(g, width, st0, steps + 1) == Some((guard.direction, guard.pos)));
                steps = steps + 1;
                if steps > n_end {
                    lemma_walk_absorbing(g, width, st0, n_end, steps);
                    assert(false);
                }
                assert forall|p: (usize, usize)| visited@.contains(p) <==> exists|n: nat|
                    n <= steps && {
                        let w = #[trigger] walk_n(g, width, st0, n);
                        w is Some && (w->0).1 == p
                    } by {
                    if visited@.contains(p) {
                    } else {
                        assert forall|n: nat|
                            n <= steps && walk_n(g, width, st0, n) is Some implies (walk_n(
                            g,
                            width,
                            st0,
                            n,
                        )->0).1 != p by {
                            if n == steps {
                                assert((walk_n(g, width, st0, n)->0).1 == pre.1);
                            }
                        }
                    }
                }
            }
        } else {
            if !guard.move_to_next_point() {
                proof {
                    assert(walk_step(g, width, pre) is None);
                }
                break ;
            }
            proof {
                assert(walk_step(g, width, pre) == Some((guard.direction, guard.pos)));
                assert(walk_n(g, width, st0, steps + 1) == Some((guard.direction, guard.pos)));
                steps = steps + 1;
                if steps > n_end {
                    lemma_walk_absorbing(g, width, st0, n_end, steps);
                    assert(false);
                }
            }
            if !points_contain(&visited, guard.pos) {
                let ghost head_v = visited@;
                visited.push(guard.pos);
                proof {
                    assert(visited@.drop_last() =~= head_v);
                    assert forall|p: (usize, usize)| visited@.contains(p) <==> exists|n: nat|
                        n <= steps && {
                            let w = #[trigger] walk_n(g, width, st0, n);
                            w is Some && (w->0).1 == p
                        } by {
                        assert(visited@.last() == guard.pos);
                        if p == guard.pos {
                            assert((walk_n(g, width, st0, steps)->0).1 == p);
                            assert(visited@[visited@.len() - 1] == p);
                        } else {
                            assert(visited@.contains(p) <==> head_v.contains(p)) by {
                                if visited@.contains(p) {
                                    let k = choose|k: int|
                                        0 <= k < visited@.len() && visited@[k] == p;
                                    assert(k < visited@.len() - 1);
                                    assert(head_v[k] == p);
                                }
                                if head_v.contains(p) {
                                    let k = choose|k: int| 0 <= k < head_v.len() && head_v[k] == p;
                                    assert(visited@[k] == p);
                                }
                            }
                            if exists|n: nat|
                                n <= steps && {
                                    let w = #[trigger] walk_n(g, width, st0, n);
                                    w is Some && (w->0).1 == p
                                } {
                                let n = choose|n: nat|
                                    n <= steps && {
                                        let w = #[trigger] walk_n(g, width, st0, n);
                                        w is Some && (w->0).1 == p
                                    };
                                assert((walk_n(g, width, st0, steps)->0).1 == guard.pos);
                                assert(n < steps);
                                assert(head_v.contains(p));
                            }
                        }
                    }
                }
            } else {
                proof {
                    assert forall|p: (usize, usize)| visited@.contains(p) <==> exists|n: nat|
                        n <= steps && {
                            let w = #[trigger] walk_n(g, width, st0, n);
                            w is Some && (w->0).1 == p
                        } by {
                        if p == guard.pos {
                            assert((walk_n(g, width, st0, steps)->0).1 == p);
                        } else {
                            if exists|n: nat|
                                n <= steps && {
                                    let w = #[trigger] walk_n(g, width, st0, n);
                                    w is Some && (w->0).1 == p
                                } {
                                let n = choose|n: nat|
                                    n <= steps && {
                                        let w = #[trigger] walk_n(g, width, st0, n);
                                        w is Some && (w->0).1 == p
                                    };
                                assert((walk_n(g, width, st0, steps)->0).1 == guard.pos);
                                assert(n < steps);
                                assert(visited@.contains(p));
                            }
                        }
                    }
                }
            }
        }
    }
    proof {
        assert forall|p: (usize, usize)| visited@.contains(p) <==> visits(g, width, st0, p) by {
            if visits(g, width, st0, p) {
                let n = choose|n: nat|
                    {
                        let w = #[trigger] walk_n(g, width, st0, n);
                        w is Some && (w->0).1 == p
                    };
                if n > steps {
                    lemma_walk_iterate(g, width, st0, steps, n);
                }
            }
        }
    }
    visited
}

/// The walk state after any number of further actions is determined by the
/// state reached so far.
proof fn lemma_walk_shift(
    g: Seq<Seq<bool>>,
    width: usize,
    st: (Direction, (usize, usize)),
    n1: nat,
    n2: nat,
    d: nat,
)
    requires
        walk_n(g, width, st, n1) == walk_n(g, width, st, n2),
    ensures
        walk_n(g, width, st, (n1 + d) as nat) == walk_n(g, width, st, (n2 + d) as nat),
    decreases d,
{
    if d > 0 {
        lemma_walk_shift(g, width, st, n1, n2, (d - 1) as nat);
    }
}

/// A walk that revisits a state never leaves the grid.
proof fn lemma_walk_periodic(
    g: Seq<Seq<bool>>,
    width: usize,
    st: (Direction, (usize, usize)),
    n1: nat,
    n2: nat,
    m: nat,
)
    requires
        n1 < n2,
        walk_n(g, width, st, n1) == walk_n(g, width, st, n2),
        walk_n(g, width, st, n1) is Some,
    ensures
        walk_n(g, width, st, m) is Some,
    decreases m,
{
    if m <= n2 {
        if walk_n(g, width, st, m) is None {
            lemma_walk_absorbing(g, width, st, m, n2);
        }
    } else {
        let prev = (m - (n2 - n1)) as nat;
        lemma_walk_periodic(g, width, st, n1, n2, prev);
        lemma_walk_shift(g, width, st, n1, n2, (prev - n1) as nat);
    }
}

/// How many flags are still unset.
spec fn count_false(s: Seq<bool>) -> nat
    decreases s.len(),
{
    if s.len() == 0 {
        0
    } else {
        count_false(s.drop_last()) + if s.last() {
            0nat
        } else {
            1nat
        }
    }
}

/// Setting an unset flag reduces the number of unset flags by one.
proof fn lemma_count_false_update(s: Seq<bool>, i: int)
    requires
        0 <= i < s.len(),
        !s[i],
    ensures
        count_false(s) == count_false(s.update(i, true)) + 1,
    decreases s.len(),
{
    let t = s.update(i, true);
    if i == s.len() - 1 {
        assert(t.drop_last() =~= s.drop_last());
    } else {
        assert(t.drop_last() =~= s.drop_last().update(i, true));
        assert(t.last() == s.last());
        lemma_count_false_update(s.drop_last(), i);
    }
}

/// A flag slot of an in-grid state lies within the flag vector.
proof fn lemma_flag_slot_range(pi: int, pj: int, d: Direction, h: int, w: int)
    requires
        0 <= pi < h,
        0 <= pj < w,
    ensures
        0 <= flag_slot(pi, pj, d, w) < h * w * 4,
{
    assert(0 <= pi * w + pj < h * w) by (nonlinear_arith)
        requires
            0 <= pi < h,
            0 <= pj < w,
    ;
    assert((pi * w + pj) * 4 + 3 < h * w * 4) by (nonlinear_arith)
        requires
            0 <= pi * w + pj < h * w,
    ;
}

/// The index of a direction, clockwise from up.
spec fn dir_index(d: Direction) -> int {
    match d {
        Direction::Up => 0,
        Direction::Right => 1,
        Direction::Down => 2,
        Direction::Left => 3,
    }
}

/// The flag slot of a guard state on a grid `width` columns wide.
spec fn flag_slot(pi: int, pj: int, d: Direction, width: int) -> int {
    (pi * width + pj) * 4 + dir_index(d)
}

/// Distinct in-grid states use distinct flag slots.
proof fn lemma_flag_slot_injective(
    pi1: int,
    pj1: int,
    d1: Direction,
    pi2: int,
    pj2: int,
    d2: Direction,
    width: int,
)
    requires
        0 <= pj1 < width,
        0 <= pj2 < width,
        0 <= pi1,
        0 <= pi2,
        flag_slot(pi1, pj1, d1, width) == flag_slot(pi2, pj2, d2, width),
    ensures
        pi1 == pi2 && pj1 == pj2 && d1 == d2,
{
    assert(pi1 * width + pj1 == pi2 * width + pj2 && dir_index(d1) == dir_index(d2)) by (nonlinear_arith)
        requires
            0 <= dir_index(d1) < 4,
            0 <= dir_index(d2) < 4,
            (pi1 * width + pj1) * 4 + dir_index(d1) == (pi2 * width + pj2) * 4 + dir_index(d2),
    ;
    assert(pi1 == pi2 && pj1 == pj2) by (nonlinear_arith)
        requires
            0 <= pj1 < width,
            0 <= pj2 < width,
            pi1 * width + pj1 == pi2 * width + pj2,
    ;
}

/// The exec counterpart of `dir_index`.
fn dir_index_exec(d: Direction) -> (r: usize)
    ensures
        r == dir_index(d),
{
    match d {
        Direction::Up => 0,
        Direction::Right => 1,
        Direction::Down => 2,
        Direction::Left => 3,
    }
}

/// Whether the guard, starting at `arg.1` facing up, walks forever: it never
/// leaves the grid, circling instead.  Detected by revisiting a position and
/// direction from which it has already turned.
pub fn is_loop(arg: (&ObstructionMap, (usize, usize))) -> (r: bool)
    requires
        arg.0.wf(),
        arg.1.0 < arg.0.map@.len(),
        arg.1.1 < arg.0.line_size,
        arg.0.map@.len() * arg.0.line_size * 4 <= usize::MAX,
    ensures
        r == !walk_leaves(grid_of(arg.0), arg.0.line_size, (Direction::Up, arg.1)),
{
    let (map, guard_pos) = arg;
    let ghost g = grid_of(map);
    let w = map.line_size;
    let h = map.map.len();
    let ghost st0 = (Direction::Up, guard_pos);
    let total = h * w * 4;
    let mut flags: Vec<bool> = Vec::new();
    while flags.len() < total
        invariant
            flags@.len() <= total,
            forall|t: int| 0 <= t < flags@.len() ==> !(#[trigger] flags@[t]),
        decreases total - flags@.len(),
    {
        flags.push(false);
    }
    let mut guard = Guard::new(guard_pos, map);
    let ghost mut steps: nat = 0;
    proof {
        assert(walk_n(g, w, st0, 0) == Some(st0));
        assert forall|d: Direction, pi: int, pj: int|
            0 <= pi < h && 0 <= pj < w implies !(#[trigger] flags@[flag_slot(
            pi,
            pj,
            d,
            w as int,
        )]) by {
            lemma_flag_slot_range(pi, pj, d, h as int, w as int);
        }
    }
    loop
        invariant
            guard.wf(),
            guard.map_spec() == map,
            map.wf(),
            g == grid_of(map),
            w == map.line_size,
            h == map.map@.len(),
            h * w * 4 <= usize::MAX,
            flags@.len() == h * w * 4,
            map == arg.0,
            st0 == (Direction::Up, arg.1),
            walk_n(g, w, st0, steps) == Some((guard.direction, guard.pos)),
            forall|d: Direction, pi: int, pj: int|
                0 <= pi < h && 0 <= pj < w && #[trigger] flags@[flag_slot(pi, pj, d, w as int)]
                    ==> exists|n: nat|
                    n < steps && walk_n(g, w, st0, n) == Some(
                        (d, (pi as usize, pj as usize)),
                    ),
        ensures
            match walk_n(g, w, st0, steps) {
                Some(cur) => walk_step(g, w, cur) is None,
                None => false,
            },
        decreases count_false(flags@), (
            match guard.direction {
                Direction::Up => guard.pos.0 as int,
                Direction::Left => guard.pos.1 as int,
                Direction::Down => h - guard.pos.0,
                Direction::Right => w - guard.pos.1,
            }
        ),
    {
        let ghost flags_at_head = flags@;
        let ghost head_dir = guard.direction;
        let ghost head_pos = guard.pos;
        while guard.is_looking_at_obstacle()
            invariant
                guard.wf(),
                guard.map_spec() == map,
                map.wf(),
                g == grid_of(map),
                w == map.line_size,
                h == map.map@.len(),
                h * w * 4 <= usize::MAX,
                flags@.len() == h * w * 4,
                map == arg.0,
                st0 == (Direction::Up, arg.1),
                count_false(flags@) <= count_false(flags_at_head),
                flags@ == flags_at_head ==> guard.direction == head_dir && guard.pos == head_pos,
                flags@ != flags_at_head ==> count_false(flags@) < count_false(flags_at_head),
                guard.pos.0 < h && guard.pos.1 < w,
                walk_n(g, w, st0, steps) == Some((guard.direction, guard.pos)),
                forall|d: Direction, pi: int, pj: int|
                    0 <= pi < h && 0 <= pj < w && #[trigger] flags@[flag_slot(pi, pj, d, w as int)]
                        ==> exists|n: nat|
                        n < steps && walk_n(g, w, st0, n) == Some(
                            (d, (pi as usize, pj as usize)),
                        ),
            decreases count_false(flags@),
        {
            let di = dir_index_exec(guard.direction);
            proof {
                assert(guard.pos.0 * w + guard.pos.1 < h * w) by (nonlinear_arith)
                    requires
                        guard.pos.0 < h,
                        guard.pos.1 < w,
                        0 <= guard.pos.0,
                        0 <= guard.pos.1,
                ;
                assert((guard.pos.0 * w + guard.pos.1) * 4 + 3 < h * w * 4) by (nonlinear_arith)
                    requires
                        guard.pos.0 * w + guard.pos.1 < h * w,
                ;
            }
            let slot = (guard.pos.0 * w + guard.pos.1) * 4 + di;
            proof {
                assert(slot == flag_slot(guard.pos.0 as int, guard.pos.1 as int, guard.direction, w as int));
            }
            if flags[slot] {
                proof {
                    let pi = guard.pos.0 as int;
                    let pj = guard.pos.1 as int;
                    assert(flags@[flag_slot(pi, pj, guard.direction, w as int)]);
                    assert((pi as usize, pj as usize) == guard.pos);
                    assert(exists|n: nat|
                        n < steps && walk_n(g, w, st0, n) == Some(
                            (guard.direction, (pi as usize, pj as usize)),
                        ));
                    let n1 = choose|n: nat|
                        n < steps && walk_n(g, w, st0, n) == Some(
                            (guard.direction, (pi as usize, pj as usize)),
                        );
                    assert forall|m: nat| walk_n(g, w, st0, m) is Some by {
                        lemma_walk_periodic(g, w, st0, n1, steps, m);
                    }
                    assert(!walk_leaves(g, w, st0));
                }
                return true;
            }
            let ghost before = flags@;
            flags.set(slot, true);
            proof {
                lemma_count_false_update(before, slot as int);
                assert forall|d: Direction, pi: int, pj: int|
                    0 <= pi < h && 0 <= pj < w && #[trigger] flags@[flag_slot(pi, pj, d, w as int)]
                        implies exists|n: nat|
                        n < steps + 1 && walk_n(g, w, st0, n) == Some(
                            (d, (pi as usize, pj as usize)),
                        ) by {
                    if flag_slot(pi, pj, d, w as int) == slot {
                        lemma_flag_slot_injective(
                            pi,
                            pj,
                            d,
                            guard.pos.0 as int,
                            guard.pos.1 as int,
                            guard.direction,
                            w as int,
                        );
                        assert(walk_n(g, w, st0, steps) == Some(
                            (d, (pi as usize, pj as usize)),
                        ));
                    } else {
                        lemma_flag_slot_range(pi, pj, d, h as int, w as int);
                        assert(before[flag_slot(pi, pj, d, w as int)]);
                        let n = choose|n: nat|
                            n < steps && walk_n(g, w, st0, n) == Some(
                                (d, (pi as usize, pj as usize)),
                            );
                        assert(n < steps + 1 && walk_n(g, w, st0, n) == Some(
                            (d, (pi as usize, pj as usize)),
                        ));
                    }
                }
            }
            let ghost pre = (guard.direction, guard.pos);
            guard.turn_clockwise();
            proof {
                assert(walk_step(g, w, pre) == Some((guard.direction, guard.pos)));
                assert(walk_n(g, w, st0, steps + 1) == Some((guard.direction, guard.pos)));
                steps = steps + 1;
            }
        }
        let ghost pre = (guard.direction, guard.pos);
        if !guard.move_to_next_point() {
            proof {
                assert(walk_step(g, w, pre) is None);
            }
            break ;
        }
        proof {
            assert(walk_step(g, w, pre) == Some((guard.direction, guard.pos)));
            assert(walk_n(g, w, st0, steps + 1) == Some((guard.direction, guard.pos)));
            steps = steps + 1;
        }
    }
    proof {
        let cur = walk_n(g, w, st0, steps)->0;
        assert(walk_n(g, w, st0, steps + 1) is None);
    }
    false
}

/// A walk that continues past `n` steps does so through the state at `n`.
proof fn lemma_walk_iterate(
    g: Seq<Seq<bool>>,
    width: usize,
    st: (Direction, (usize, usize)),
    n: nat,
    m: nat,
)
    requires
        n <= m,
        walk_step(g, width, walk_n(g, width, st, n)->0) is None,
        walk_n(g, width, st, n) is Some,
    ensures
        m > n ==> walk_n(g, width, st, m) is None,
    decreases m,
{
    if m > n + 1 {
        lemma_walk_iterate(g, width, st, n, (m - 1) as nat);
    }
}

/// A walk started inside the grid stays inside the grid.
proof fn lemma_walk_in_grid(
    g: Seq<Seq<bool>>,
    width: usize,
    st: (Direction, (usize, usize)),
    n: nat,
)
    requires
        st.1.0 < g.len(),
        st.1.1 < width,
    ensures
        walk_n(g, width, st, n) matches Some(s) ==> s.1.0 < g.len() && s.1.1 < width,
    decreases n,
{
    if n > 0 {
        lemma_walk_in_grid(g, width, st, (n - 1) as nat);
    }
}

/// The grid with an extra obstacle at `p`.
pub open spec fn with_obstacle(g: Seq<Seq<bool>>, p: (usize, usize)) -> Seq<Seq<bool>> {
    g.update(p.0 as int, g[p.0 as int].update(p.1 as int, true))
}

/// The positions, other than the guard's start, where one extra obstacle
/// would trap the guard in an endless loop.
pub open spec fn loop_obstruction_set(
    g: Seq<Seq<bool>>,
    width: usize,
    start: (usize, usize),
) -> Set<(usize, usize)> {
    Set::new(
        |p: (usize, usize)|
            visits(g, width, (Direction::Up, start), p) && p != start && !walk_leaves(
                with_obstacle(g, p),
                width,
                (Direction::Up, start),
            ),
    )
}

/// Counts the positions on the guard's own path (other than its start)
/// where placing one extra obstacle makes the guard walk forever.
pub fn count_loops(input: (ObstructionMap, (usize, usize))) -> (r: usize)
    requires
        input.0.wf(),
        input.1.0 < input.0.map@.len(),
        input.1.1 < input.0.line_size,
        walk_leaves(grid_of(&input.0), input.0.line_size, (Direction::Up, input.1)),
        input.0.map@.len() * input.0.line_size * 4 <= usize::MAX,
    ensures
        r == loop_obstruction_set(grid_of(&input.0), input.0.line_size, input.1).len(),
{
    broadcast use vstd::set::group_set_axioms;

    let (mut map, guard_pos) = input;
    let ghost g0 = grid_of(&map);
    let ghost w = map.line_size;
    let ghost st0 = (Direction::Up, guard_pos);
    let h = map.map.len();
    let line_size = map.line_size;
    let visited = visited_points((&map, guard_pos));
    let ghost vis = visited@;
    let n = visited.len();
    let mut hits: Vec<(usize, usize)> = Vec::new();
    let mut k: usize = 0;
    while k < n
        invariant
            k <= n,
            n == vis.len(),
            vis == visited@,
            map.wf(),
            grid_of(&map) == g0,
            map.map@.len() == h,
            map.line_size == line_size,
            w == line_size,
            h == g0.len(),
            guard_pos.0 < h,
            guard_pos.1 < line_size,
            h * line_size * 4 <= usize::MAX,
            forall|p: (usize, usize)| vis.contains(p) <==> visits(g0, w, st0, p),
            forall|i: int, j: int| 0 <= i < j < vis.len() ==> vis[i] != vis[j],
            st0 == (Direction::Up, guard_pos),
            hits@.no_duplicates(),
            forall|x: (usize, usize)|
                hits@.contains(x) ==> exists|t: int| 0 <= t < k && vis[t] == x,
            hits@.to_set() == Set::new(
                |p: (usize, usize)|
                    (exists|t: int| 0 <= t < k && vis[t] == p) && p != guard_pos && !walk_leaves(
                        with_obstacle(g0, p),
                        w,
                        st0,
                    ),
            ),
        decreases n - k,
    {
        let p = visited[k];
        let ghost hits_head = hits@;
        if !(p.0 == guard_pos.0 && p.1 == guard_pos.1) {
            proof {
                assert(vis.contains(p));
                assert(visits(g0, w, st0, p));
                let t = choose|t: nat|
                    {
                        let wn = #[trigger] walk_n(g0, w, st0, t);
                        wn is Some && (wn->0).1 == p
                    };
                lemma_walk_in_grid(g0, w, st0, t);
                assert(p.0 < h && p.1 < line_size);
            }
            let saved = map.map[p.0][p.1];
            let mut row = vstd::slice::slice_to_vec(map.map[p.0].as_slice());
            row.set(p.1, true);
            let ghost row_view = row@;
            map.map.set(p.0, row);
            proof {
                assert(grid_of(&map) =~= with_obstacle(g0, p)) by {
                    assert forall|i: int| 0 <= i < h implies grid_of(&map)[i] == with_obstacle(
                        g0,
                        p,
                    )[i] by {
                        if i == p.0 {
                            assert(grid_of(&map)[i] == row_view);
                            assert(row_view =~= g0[p.0 as int].update(p.1 as int, true));
                        } else {
                            assert(grid_of(&map)[i] == map.map@[i]@);
                        }
                    }
                }
                assert(map.wf());
            }
            let looping = is_loop((&map, (guard_pos.0, guard_pos.1)));
            let mut row_back = vstd::slice::slice_to_vec(map.map[p.0].as_slice());
            row_back.set(p.1, saved);
            let ghost back_view = row_back@;
            map.map.set(p.0, row_back);
            proof {
                assert(grid_of(&map) =~= g0) by {
                    assert forall|i: int| 0 <= i < h implies grid_of(&map)[i] == g0[i] by {
                        if i == p.0 {
                            assert(grid_of(&map)[i] == back_view);
                            assert(back_view =~= g0[p.0 as int]);
                        } else {
                            assert(grid_of(&map)[i] == map.map@[i]@);
                        }
                    }
                }
                assert(map.wf());
            }
            if looping {
                proof {
                    assert(!hits@.contains(p)) by {
                        if hits@.contains(p) {
                            let t = choose|t: int| 0 <= t < k && vis[t] == p;
                            assert(vis[t] == vis[k as int]);
                        }
                    }
                }
                hits.push(p);
                proof {
                    assert(hits@.drop_last() =~= hits_head);
                    assert forall|x: (usize, usize)| hits@.contains(x) <==> (hits_head.contains(x)
                        || x == p) by {
                        if hits@.contains(x) {
                            let t = choose|t: int| 0 <= t < hits@.len() && hits@[t] == x;
                            if t < hits@.len() - 1 {
                                assert(hits_head[t] == x);
                            }
                        }
                        if hits_head.contains(x) {
                            let t = choose|t: int| 0 <= t < hits_head.len() && hits_head[t] == x;
                            assert(hits@[t] == x);
                        }
                        if x == p {
                            assert(hits@[hits@.len() - 1] == x);
                        }
                    }
                    assert forall|x: (usize, usize)| hits@.contains(x) implies exists|t: int|
                        0 <= t < k + 1 && vis[t] == x by {
                        if x == p {
                            assert(vis[k as int] == x);
                        } else {
                            assert(hits_head.contains(x));
                            let t = choose|t: int| 0 <= t < k && vis[t] == x;
                            assert(0 <= t < k + 1 && vis[t] == x);
                        }
                    }
                }
            }
        }
        proof {
            assert(hits@.to_set() =~= Set::new(
                |q: (usize, usize)|
                    (exists|t: int| 0 <= t < k + 1 && vis[t] == q) && q != guard_pos
                        && !walk_leaves(with_obstacle(g0, q), w, st0),
            )) by {
                assert forall|q: (usize, usize)|
                    hits@.to_set().contains(q) <==> ((exists|t: int| 0 <= t < k + 1 && vis[t] == q)
                        && q != guard_pos && !walk_leaves(with_obstacle(g0, q), w, st0)) by {
                    if hits@.to_set().contains(q) {
                        if hits_head.to_set().contains(q) {
                            let t = choose|t: int| 0 <= t < k && vis[t] == q;
                            assert(0 <= t < k + 1 && vis[t] == q);
                        } else {
                            assert(q == vis[k as int]);
                        }
                    } else {
                        if (exists|t: int| 0 <= t < k + 1 && vis[t] == q) && q != guard_pos
                            && !walk_leaves(with_obstacle(g0, q), w, st0) {
                            let t = choose|t: int| 0 <= t < k + 1 && vis[t] == q;
                            if t < k {
                                assert(hits_head.to_set().contains(q));
                                assert(hits@.contains(q));
                            } else {
                                assert(q == vis[k as int]);
                                assert(false);
                            }
                        }
                    }
                }
            }
        }
        k = k + 1;
    }
    proof {
        assert(hits@.to_set() =~= loop_obstruction_set(g0, w, guard_pos)) by {
            assert forall|q: (usize, usize)|
                hits@.to_set().contains(q) <==> loop_obstruction_set(g0, w, guard_pos).contains(
                q,
            ) by {
                if loop_obstruction_set(g0, w, guard_pos).contains(q) {
                    assert(vis.contains(q));
                    let t = choose|t: int| 0 <= t < vis.len() && vis[t] == q;
                }
                if hits@.to_set().contains(q) {
                    let t = choose|t: int| 0 <= t < n && vis[t] == q;
                    assert(vis.contains(q));
                }
            }
        }
        hits@.unique_seq_to_set();
    }
    hits.len()
}

} // verus!
