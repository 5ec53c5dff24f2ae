//! Word search: counting occurrences of "XMAS" in all eight directions, and
//! of crossed "MAS" diagonals.

use vstd::prelude::*;

verus! {

/// A direction of reading in the letter grid.
#[derive(Debug, Eq, PartialEq, Copy, Clone, Structural)]
pub enum Direction {
    Left,
    Right,
    UpLeft,
    Up,
    UpRight,
    DownLeft,
    Down,
    DownRight,
}

/// All eight directions, in declaration order.
pub open spec fn all_directions_spec() -> Seq<Direction> {
    seq![
        Direction::Left,
        Direction::Right,
        Direction::UpLeft,
        Direction::Up,
        Direction::UpRight,
        Direction::DownLeft,
        Direction::Down,
        Direction::DownRight,
    ]
}

/// The row step of a direction.
pub open spec fn row_step(d: Direction) -> int {
    match d {
        Direction::Up | Direction::UpRight | Direction::UpLeft => -1,
        Direction::Down | Direction::DownLeft | Direction::DownRight => 1,
        Direction::Left | Direction::Right => 0,
    }
}

/// The column step of a direction.
pub open spec fn col_step(d: Direction) -> int {
    match d {
        Direction::Left | Direction::DownLeft | Direction::UpLeft => -1,
        Direction::Right | Direction::DownRight | Direction::UpRight => 1,
        Direction::Up | Direction::Down => 0,
    }
}

/// Whether `len` further steps from `(i, j)` in direction `d` stay inside a
/// grid of `height` by `width`.
pub open spec fn range_ok(d: Direction, len: int, i: int, j: int, height: int, width: int) -> bool {
    &&& (row_step(d) < 0 ==> i >= len)
    &&& (col_step(d) < 0 ==> j >= len)
    &&& (row_step(d) > 0 ==> i < height - len)
    &&& (col_step(d) > 0 ==> j < width - len)
}

impl Direction {
    /// Whether this direction has an upward component.
    pub fn is_up(&self) -> (r: bool)
        ensures
            r == (row_step(*self) < 0),
    {
        matches!(self, Direction::Up | Direction::UpRight | Direction::UpLeft)
    }

    /// Whether this direction has a rightward component.
    pub fn is_right(&self) -> (r: bool)
        ensures
            r == (col_step(*self) > 0),
    {
        matches!(self, Direction::Right | Direction::DownRight | Direction::UpRight)
    }

    /// Whether this direction has a downward component.
    pub fn is_down(&self) -> (r: bool)
        ensures
            r == (row_step(*self) > 0),
    {
        matches!(self, Direction::Down | Direction::DownLeft | Direction::DownRight)
    }

    /// Whether this direction has a leftward component.
    pub fn is_left(&self) -> (r: bool)
        ensures
            r == (col_step(*self) < 0),
    {
        matches!(self, Direction::Left | Direction::DownLeft | Direction::UpLeft)
    }

    /// Whether `len` further steps from `pos` in this direction stay inside
    /// a grid of `size.0` by `size.1`.
    pub fn check_range(&self, len: usize, pos: (usize, usize), size: (usize, usize)) -> (r: bool)
        ensures
            r == range_ok(
                *self,
                len as int,
                pos.0 as int,
                pos.1 as int,
                size.0 as int,
                size.1 as int,
            ),
    {
        (!self.is_up() || pos.0 >= len) && (!self.is_left() || pos.1 >= len) && (!self.is_down()
            || (pos.0 < size.0 && size.0 - pos.0 > len)) && (!self.is_right() || (pos.1 < size.1
            && size.1 - pos.1 > len))
    }

    /// The cell `k` steps from `pos` in this direction.
    pub fn pos(&self, pos: (usize, usize), k: usize) -> (r: (usize, usize))
        requires
            row_step(*self) < 0 ==> k <= pos.0,
            col_step(*self) < 0 ==> k <= pos.1,
            row_step(*self) > 0 ==> pos.0 + k <= usize::MAX,
            col_step(*self) > 0 ==> pos.1 + k <= usize::MAX,
        ensures
            r.0 == pos.0 + k * row_step(*self),
            r.1 == pos.1 + k * col_step(*self),
    {
        let r = match self {
            Direction::Up => (pos.0 - k, pos.1),
            Direction::UpRight => (pos.0 - k, pos.1 + k),
            Direction::Right => (pos.0, pos.1 + k),
            Direction::DownRight => (pos.0 + k, pos.1 + k),
            Direction::Down => (pos.0 + k, pos.1),
            Direction::DownLeft => (pos.0 + k, pos.1 - k),
            Direction::Left => (pos.0, pos.1 - k),
            Direction::UpLeft => (pos.0 - k, pos.1 - k),
        };
        proof {
            assert(k * 1int == k);
            assert(k * -1int == -(k as int));
            assert(k * 0int == 0);
        }
        r
    }
}

/// Every row of the grid has exactly `width` letters.
pub open spec fn grid_wf(g: Seq<Vec<char>>, width: usize) -> bool {
    forall|i: int| 0 <= i < g.len() ==> (#[trigger] g[i])@.len() == width
}

/// The letter at `k` steps from `(i, j)` in direction `d`.
pub open spec fn letter_at(g: Seq<Vec<char>>, d: Direction, i: int, j: int, k: int) -> char {
    g[i + k * row_step(d)]@[j + k * col_step(d)]
}

/// Whether "MAS" continues from the cell after `(i, j)` in direction `d`
/// (completing "XMAS" when `(i, j)` holds an 'X').
pub open spec fn word_ok(g: Seq<Vec<char>>, width: usize, d: Direction, i: int, j: int) -> bool {
    &&& range_ok(d, 3, i, j, g.len() as int, width as int)
    &&& letter_at(g, d, i, j, 1) == 'M'
    &&& letter_at(g, d, i, j, 2) == 'A'
    &&& letter_at(g, d, i, j, 3) == 'S'
}

/// Whether the three letters after `(i, j)` in this direction read "MAS".
pub fn check_word(
    d: &Direction,
    grid: (&[Vec<char>], usize),
    pos: (usize, usize),
) -> (r: bool)
    requires
        grid_wf(grid.0@, grid.1),
        pos.0 < grid.0@.len(),
        pos.1 < grid.1,
    ensures
        r == word_ok(grid.0@, grid.1, *d, pos.0 as int, pos.1 as int),
{
    let (hay, line_size) = grid;
    if !d.check_range(3, pos, (hay.len(), line_size)) {
        return false;
    }
    let p1 = d.pos(pos, 1);
    let p2 = d.pos(pos, 2);
    let p3 = d.pos(pos, 3);
    hay[p1.0][p1.1] == 'M' && hay[p2.0][p2.1] == 'A' && hay[p3.0][p3.1] == 'S'
}

/// How many of the directions starting at index `k` complete "XMAS" from
/// `(i, j)`.
pub open spec fn dir_count(g: Seq<Vec<char>>, width: usize, i: int, j: int, k: int) -> int
    decreases 8 - k,
{
    if k < 0 || k >= 8 {
        0
    } else {
        (if word_ok(g, width, all_directions_spec()[k], i, j) {
            1int
        } else {
            0int
        }) + dir_count(g, width, i, j, k + 1)
    }
}

/// How many "XMAS" occurrences start in row `i` at a column at or after `j`.
pub open spec fn row_count(g: Seq<Vec<char>>, width: usize, i: int, j: int) -> int
    decreases width - j
        when j >= 0
{
    if j < 0 || j >= width {
        0
    } else {
        (if g[i]@[j] == 'X' {
            dir_count(g, width, i, j, 0)
        } else {
            0int
        }) + row_count(g, width, i, j + 1)
    }
}

/// How many "XMAS" occurrences start in a row at or after `i`.
pub open spec fn grid_count(g: Seq<Vec<char>>, width: usize, i: int) -> int
    decreases g.len() - i
        when i >= 0
{
    if i < 0 || i >= g.len() {
        0
    } else {
        row_count(g, width, i, 0) + grid_count(g, width, i + 1)
    }
}

proof fn lemma_dir_count_bounds(g: Seq<Vec<char>>, width: usize, i: int, j: int, k: int)
    ensures
        0 <= dir_count(g, width, i, j, k),
        k <= 8 ==> dir_count(g, width, i, j, k) <= 8 - k,
        k > 8 ==> dir_count(g, width, i, j, k) == 0,
    decreases 8 - k,
{
    if 0 <= k < 8 {
        lemma_dir_count_bounds(g, width, i, j, k + 1);
    }
}

proof fn lemma_row_count_nonneg(g: Seq<Vec<char>>, width: usize, i: int, j: int)
    requires
        j >= 0,
    ensures
        row_count(g, width, i, j) >= 0,
    decreases width - j,
{
    if j < width {
        lemma_row_count_nonneg(g, width, i, j + 1);
        lemma_dir_count_bounds(g, width, i, j, 0);
    }
}

proof fn lemma_row_count_mono(g: Seq<Vec<char>>, width: usize, i: int, j: int)
    requires
        j >= 0,
    ensures
        row_count(g, width, i, j) <= row_count(g, width, i, 0),
    decreases j,
{
    if j > 0 {
        lemma_row_count_mono(g, width, i, j - 1);
        if j - 1 < width {
            lemma_dir_count_bounds(g, width, i, j - 1, 0);
            lemma_row_count_nonneg(g, width, i, j);
        } else {
            lemma_row_count_nonneg(g, width, i, j);
            lemma_row_count_nonneg(g, width, i, j - 1);
            assert(row_count(g, width, i, j) == 0);
            assert(row_count(g, width, i, j - 1) == 0);
        }
    }
}

proof fn lemma_grid_count_nonneg(g: Seq<Vec<char>>, width: usize, i: int)
    requires
        i >= 0,
    ensures
        grid_count(g, width, i) >= 0,
    decreases g.len() - i,
{
    if i < g.len() {
        lemma_grid_count_nonneg(g, width, i + 1);
        lemma_row_count_nonneg(g, width, i, 0);
    }
}

proof fn lemma_grid_count_mono(g: Seq<Vec<char>>, width: usize, i: int)
    requires
        i >= 0,
    ensures
        grid_count(g, width, i) <= grid_count(g, width, 0),
    decreases i,
{
    if i > 0 {
        lemma_grid_count_mono(g, width, i - 1);
        if i - 1 < g.len() {
            lemma_row_count_nonneg(g, width, i - 1, 0);
            lemma_grid_count_nonneg(g, width, i);
        } else {
            lemma_grid_count_nonneg(g, width, i);
            lemma_grid_count_nonneg(g, width, i - 1);
            assert(grid_count(g, width, i) == 0);
            assert(grid_count(g, width, i - 1) == 0);
        }
    }
}

/// Counts how many times "XMAS" can be read in the grid: an 'X' followed by
/// "MAS" in any of the eight directions, each starting cell and direction
/// counted separately.
pub fn xmas_count(inp: (&[Vec<char>], usize)) -> (r: usize)
    requires
        grid_wf(inp.0@, inp.1),
        grid_count(inp.0@, inp.1, 0) <= usize::MAX,
    ensures
        r == grid_count(inp.0@, inp.1, 0),
{
    let (input, line_size) = inp;
    let ghost g = input@;
    let dirs: [Direction; 8] = [
        Direction::Left,
        Direction::Right,
        Direction::UpLeft,
        Direction::Up,
        Direction::UpRight,
        Direction::DownLeft,
        Direction::Down,
        Direction::DownRight,
    ];
    proof {
        assert(dirs@ =~= all_directions_spec());
    }
    let height = input.len();
    let mut count: usize = 0;
    let mut i: usize = 0;
    while i < height
        invariant
            i <= height,
            height == g.len(),
            g == input@,
            grid_wf(g, line_size),
            line_size == inp.1,
            dirs@ == all_directions_spec(),
            grid_count(g, line_size, 0) <= usize::MAX,
            grid_count(g, line_size, 0) == count + grid_count(g, line_size, i as int),
        decreases height - i,
    {
        let mut j: usize = 0;
        while j < line_size
            invariant
                i < height,
                j <= line_size,
                height == g.len(),
                g == input@,
                grid_wf(g, line_size),
                line_size == inp.1,
                dirs@ == all_directions_spec(),
                grid_count(g, line_size, 0) <= usize::MAX,
                grid_count(g, line_size, 0) == count + row_count(g, line_size, i as int, j as int)
                    + grid_count(g, line_size, i + 1),
            decreases line_size - j,
        {
            if input[i][j] == 'X' {
                let mut k: usize = 0;
                while k < 8
                    invariant
                        i < height,
                        j < line_size,
                        k <= 8,
                        height == g.len(),
                        g == input@,
                        grid_wf(g, line_size),
                        line_size == inp.1,
                        dirs@ == all_directions_spec(),
                        grid_count(g, line_size, 0) <= usize::MAX,
                        g[i as int]@[j as int] == 'X',
                        grid_count(g, line_size, 0) == count + dir_count(
                            g,
                            line_size,
                            i as int,
                            j as int,
                            k as int,
                        ) + row_count(g, line_size, i as int, j + 1) + grid_count(
                            g,
                            line_size,
                            i + 1,
                        ),
                    decreases 8 - k,
                {
                    proof {
                        lemma_dir_count_bounds(g, line_size, i as int, j as int, k + 1);
                        lemma_row_count_nonneg(g, line_size, i as int, j + 1);
                        lemma_grid_count_nonneg(g, line_size, i + 1);
                    }
                    if check_word(&dirs[k], (input, line_size), (i, j)) {
                        count = count + 1;
                    }
                    k = k + 1;
                }
            } else {
                proof {
                    assert(row_count(g, line_size, i as int, j as int) == row_count(
                        g,
                        line_size,
                        i as int,
                        j + 1,
                    ));
                }
            }
            j = j + 1;
        }
        proof {
            assert(row_count(g, line_size, i as int, line_size as int) == 0);
        }
        i = i + 1;
    }
    proof {
        assert(grid_count(g, line_size, height as int) == 0);
    }
    count
}

/// A diagonal of the X-shaped "MAS" cross.
#[derive(Debug, Eq, PartialEq, Copy, Clone, Structural)]
pub enum CrossDirection {
    UpLeftToDownRight,
    UpRightToDownLeft,
}

/// The cell at offset `k` along the diagonal through `(i, j)`, walked
/// forward or backward; offset 0 is one cell before the centre, offset 2 one
/// cell after.
pub open spec fn cross_pos_spec(d: CrossDirection, i: int, j: int, k: int, backward: bool) -> (
    int,
    int,
) {
    match (d, backward) {
        (CrossDirection::UpLeftToDownRight, false) => (i + k - 1, j + k - 1),
        (CrossDirection::UpLeftToDownRight, true) => (i + 1 - k, j + 1 - k),
        (CrossDirection::UpRightToDownLeft, false) => (i + k - 1, j + 1 - k),
        (CrossDirection::UpRightToDownLeft, true) => (i + 1 - k, j + k - 1),
    }
}

impl CrossDirection {
    /// The cell at offset `k` along this diagonal through `pos`, forward or
    /// backward.
    pub fn pos(&self, pos: (usize, usize), k: usize, backward: bool) -> (r: (usize, usize))
        requires
            ({
                let (ri, rj) = cross_pos_spec(*self, pos.0 as int, pos.1 as int, k as int, backward);
                0 <= ri <= usize::MAX && 0 <= rj <= usize::MAX
            }),
        ensures
            ({
                let (ri, rj) = cross_pos_spec(*self, pos.0 as int, pos.1 as int, k as int, backward);
                r.0 == ri && r.1 == rj
            }),
    {
        let fwd_i = |base: usize| -> (o: usize)
            requires
                0 <= base + k - 1 <= usize::MAX,
            ensures
                o == base + k - 1,
            {
                if k >= 1 {
                    base + (k - 1)
                } else {
                    base - 1
                }
            };
        let bwd_i = |base: usize| -> (o: usize)
            requires
                0 <= base + 1 - k <= usize::MAX,
            ensures
                o == base + 1 - k,
            {
                if k <= 1 {
                    base + (1 - k)
                } else {
                    base - (k - 1)
                }
            };
        match (self, backward) {
            (CrossDirection::UpLeftToDownRight, false) => (fwd_i(pos.0), fwd_i(pos.1)),
            (CrossDirection::UpLeftToDownRight, true) => (bwd_i(pos.0), bwd_i(pos.1)),
            (CrossDirection::UpRightToDownLeft, false) => (fwd_i(pos.0), bwd_i(pos.1)),
            (CrossDirection::UpRightToDownLeft, true) => (bwd_i(pos.0), fwd_i(pos.1)),
        }
    }
}

/// Whether the diagonal through `(i, j)` reads "MAS" in either orientation
/// around the centre: an 'M' on one end, an 'S' on the other.
pub open spec fn cross_words_ok(g: Seq<Vec<char>>, d: CrossDirection, i: int, j: int) -> bool {
    let m_fwd = cross_pos_spec(d, i, j, 0, false);
    let m_bwd = cross_pos_spec(d, i, j, 0, true);
    let s_fwd = cross_pos_spec(d, i, j, 2, false);
    let s_bwd = cross_pos_spec(d, i, j, 2, true);
    &&& (g[m_fwd.0]@[m_fwd.1] == 'M' || g[m_bwd.0]@[m_bwd.1] == 'M')
    &&& (g[s_fwd.0]@[s_fwd.1] == 'S' || g[s_bwd.0]@[s_bwd.1] == 'S')
}

impl CrossDirection {
    /// Whether this diagonal through `pos` has an 'M' on one end and an 'S'
    /// on the other.
    pub fn check_words(&self, hay: &[Vec<char>], pos: (usize, usize), width: usize) -> (r: bool)
        requires
            grid_wf(hay@, width),
            1 <= pos.0,
            pos.0 + 1 < hay@.len(),
            1 <= pos.1,
            pos.1 + 1 < width,
        ensures
            r == cross_words_ok(hay@, *self, pos.0 as int, pos.1 as int),
    {
        let h = hay.len();
        proof {
            assert(pos.0 + 1 < h <= usize::MAX);
        }
        let m_fwd = self.pos(pos, 0, false);
        let m_bwd = self.pos(pos, 0, true);
        let s_fwd = self.pos(pos, 2, false);
        let s_bwd = self.pos(pos, 2, true);
        (hay[m_fwd.0][m_fwd.1] == 'M' || hay[m_bwd.0][m_bwd.1] == 'M') && (hay[s_fwd.0][s_fwd.1]
            == 'S' || hay[s_bwd.0][s_bwd.1] == 'S')
    }
}

/// Whether `(i, j)` is the centre of an X of two "MAS" diagonals.
pub open spec fn cross_ok(g: Seq<Vec<char>>, i: int, j: int) -> bool {
    &&& g[i]@[j] == 'A'
    &&& cross_words_ok(g, CrossDirection::UpLeftToDownRight, i, j)
    &&& cross_words_ok(g, CrossDirection::UpRightToDownLeft, i, j)
}

/// How many crossed-"MAS" centres row `i` has at a column at or after `j`,
/// among interior columns.
pub open spec fn cross_row_count(g: Seq<Vec<char>>, width: usize, i: int, j: int) -> int
    decreases width - j
        when j >= 1
{
    if j < 1 || j >= width - 1 {
        0
    } else {
        (if cross_ok(g, i, j) {
            1int
        } else {
            0int
        }) + cross_row_count(g, width, i, j + 1)
    }
}

/// How many crossed-"MAS" centres the grid has in a row at or after `i`,
/// among interior rows.
pub open spec fn cross_grid_count(g: Seq<Vec<char>>, width: usize, i: int) -> int
    decreases g.len() - i
        when i >= 1
{
    if i < 1 || i >= g.len() - 1 {
        0
    } else {
        cross_row_count(g, width, i, 1) + cross_grid_count(g, width, i + 1)
    }
}

proof fn lemma_cross_row_nonneg(g: Seq<Vec<char>>, width: usize, i: int, j: int)
    requires
        j >= 1,
    ensures
        cross_row_count(g, width, i, j) >= 0,
    decreases width - j,
{
    if 1 <= j < width - 1 {
        lemma_cross_row_nonneg(g, width, i, j + 1);
    }
}

proof fn lemma_cross_grid_nonneg(g: Seq<Vec<char>>, width: usize, i: int)
    requires
        i >= 1,
    ensures
        cross_grid_count(g, width, i) >= 0,
    decreases g.len() - i,
{
    if 1 <= i < g.len() - 1 {
        lemma_cross_grid_nonneg(g, width, i + 1);
        lemma_cross_row_nonneg(g, width, i, 1);
    }
}

/// Counts the X-shaped crossings of two "MAS" diagonals: the interior cells
/// holding an 'A' whose both diagonals read "MAS" outward in one direction
/// or the other.
pub fn xmas_count_cross(inp: (&[Vec<char>], usize)) -> (r: usize)
    requires
        grid_wf(inp.0@, inp.1),
        cross_grid_count(inp.0@, inp.1, 1) <= usize::MAX,
    ensures
        r == cross_grid_count(inp.0@, inp.1, 1),
{
    let (input, line_size) = inp;
    let ghost g = input@;
    let height = input.len();
    let mut count: usize = 0;
    if height < 2 || line_size < 2 {
        proof {
            assert(cross_grid_count(g, line_size, 1) == 0) by {
                if 1 < g.len() - 1 {
                    assert(height >= 2);
                    assert(line_size < 2);
                    lemma_cross_grid_nonneg(g, line_size, 2);
                    assert(cross_row_count(g, line_size, 1, 1) == 0);
                    assert(cross_grid_count(g, line_size, 2) == cross_grid_count(
                        g,
                        line_size,
                        1,
                    ));
                    lemma_cross_grid_all_empty(g, line_size, 1);
                }
            }
        }
        return 0;
    }
    let mut i: usize = 1;
    while i < height - 1
        invariant
            1 <= i <= height,
            height >= 2,
            line_size >= 2,
            i <= height - 1 || height == 2,
            height == g.len(),
            g == input@,
            grid_wf(g, line_size),
            line_size == inp.1,
            cross_grid_count(g, line_size, 1) <= usize::MAX,
            cross_grid_count(g, line_size, 1) == count + cross_grid_count(g, line_size, i as int),
        decreases height - i,
    {
        let mut j: usize = 1;
        while j < line_size - 1
            invariant
                1 <= i < height - 1,
                1 <= j <= line_size,
                j <= line_size - 1 || line_size == 2,
                height == g.len(),
                g == input@,
                grid_wf(g, line_size),
                line_size == inp.1,
                cross_grid_count(g, line_size, 1) <= usize::MAX,
                cross_grid_count(g, line_size, 1) == count + cross_row_count(
                    g,
                    line_size,
                    i as int,
                    j as int,
                ) + cross_grid_count(g, line_size, i + 1),
            decreases line_size - j,
        {
            proof {
                lemma_cross_row_nonneg(g, line_size, i as int, j + 1);
                lemma_cross_grid_nonneg(g, line_size, i + 1);
            }
            if input[i][j] == 'A' {
                let d1 = CrossDirection::UpLeftToDownRight;
                let d2 = CrossDirection::UpRightToDownLeft;
                if d1.check_words(input, (i, j), line_size) && d2.check_words(
                    input,
                    (i, j),
                    line_size,
                ) {
                    count = count + 1;
                }
            }
            j = j + 1;
        }
        proof {
            assert(cross_row_count(g, line_size, i as int, line_size - 1) == 0);
            if line_size == 2 {
                assert(cross_row_count(g, line_size, i as int, 1) == 0);
            }
        }
        i = i + 1;
    }
    proof {
        assert(cross_grid_count(g, line_size, height - 1) == 0);
        if height == 2 {
            assert(cross_grid_count(g, line_size, 1) == count);
        }
    }
    count
}

/// With fewer than three columns there are no interior centres in any row.
proof fn lemma_cross_grid_all_empty(g: Seq<Vec<char>>, width: usize, i: int)
    requires
        i >= 1,
        width < 3,
    ensures
        cross_grid_count(g, width, i) == 0,
    decreases g.len() - i,
{
    if 1 <= i < g.len() - 1 {
        lemma_cross_grid_all_empty(g, width, i + 1);
        assert(cross_row_count(g, width, i, 1) == 0);
    }
}

} // verus!
