use vstd::prelude::*;
use vstd::string::StrSliceExecFns;
use crate::direction::{spec_dx, spec_dy, Direction};
use crate::error::PuzzleError;
use crate::rng::{choose_direction, random_below};
use crate::text::{to_upper, upper_seq};

verus! {

/// The blank sentinel: the value of a grid cell not yet occupied by any
/// word character.
pub open spec fn blank() -> char {
    ' '
}

/// Whether the sequence contains the blank sentinel.
pub open spec fn has_blank(s: Seq<char>) -> bool {
    exists|i: int| 0 <= i < s.len() && s[i] == blank()
}

/// The x coordinate of cell `i` of a word that starts at x and steps in
/// direction `d`.
pub open spec fn step_x(x: int, d: Direction, i: int) -> int {
    x + i * spec_dx(d)
}

/// The y coordinate of cell `i` of a word that starts at y and steps in
/// direction `d`.
pub open spec fn step_y(y: int, d: Direction, i: int) -> int {
    y + i * spec_dy(d)
}

/// The bounds part of the validity test: the coordinate one step past the
/// word's last character lies within [0, size] on both axes. The upper
/// bound is inclusive, and the tested coordinate is the phantom step one
/// past the last character, not the last character itself.
pub open spec fn spec_fits(len: int, x: int, y: int, d: Direction, size: int) -> bool {
    &&& 0 <= step_x(x, d, len) <= size
    &&& 0 <= step_y(y, d, len) <= size
}

/// Cell `i` of a word starting at (x, y) in direction `d` lies strictly
/// inside a size x size grid.
pub open spec fn cell_in_grid(x: int, y: int, d: Direction, size: int, i: int) -> bool {
    &&& 0 <= step_x(x, d, i) < size
    &&& 0 <= step_y(y, d, i) < size
}

/// Cell `i` of the word is inside the grid and holds exactly the word's
/// character for that position.
pub open spec fn word_cell_ok(
    cells: Seq<Seq<char>>,
    w: Seq<char>,
    x: int,
    y: int,
    d: Direction,
    i: int,
) -> bool {
    let r = step_y(y, d, i);
    let c = step_x(x, d, i);
    &&& 0 <= r < cells.len()
    &&& 0 <= c < cells[r].len()
    &&& cells[r][c] == w[i]
}

/// Word `w` stands in the grid, read from (x, y) in direction `d`.
pub open spec fn word_in_grid(
    cells: Seq<Seq<char>>,
    w: Seq<char>,
    x: int,
    y: int,
    d: Direction,
) -> bool {
    forall|i: int| 0 <= i < w.len() ==> #[trigger] word_cell_ok(cells, w, x, y, d, i)
}

/// The collision part of the validity test, for one cell: the cell the
/// word's character `i` would occupy holds the blank sentinel or already
/// the same character.
pub open spec fn cell_free_for(
    cells: Seq<Seq<char>>,
    w: Seq<char>,
    x: int,
    y: int,
    d: Direction,
    i: int,
) -> bool {
    let r = step_y(y, d, i);
    let c = step_x(x, d, i);
    cells[r][c] == w[i] || cells[r][c] == blank()
}

/// The collision part of the validity test: no cell the word would occupy
/// holds a different, non-blank character.
pub open spec fn spec_no_collision(
    cells: Seq<Seq<char>>,
    w: Seq<char>,
    x: int,
    y: int,
    d: Direction,
) -> bool {
    forall|i: int| 0 <= i < w.len() ==> #[trigger] cell_free_for(cells, w, x, y, d, i)
}

/// The whole validity test for one candidate placement.
pub open spec fn spec_placement_valid(
    cells: Seq<Seq<char>>,
    w: Seq<char>,
    x: int,
    y: int,
    d: Direction,
    size: int,
) -> bool {
    &&& spec_fits(w.len() as int, x, y, d, size)
    &&& spec_no_collision(cells, w, x, y, d)
}

/// Whether (rr, cc) is one of the cells a word of length `len` starting
/// at (x, y) in direction `d` runs through.
pub open spec fn on_word_path(x: int, y: int, d: Direction, len: int, rr: int, cc: int) -> bool {
    exists|i: int|
        0 <= i < len && rr == #[trigger] step_y(y, d, i) && cc == step_x(x, d, i)
}

/// The eight direction choices of hard mode, in their fixed order.
pub open spec fn all_directions() -> Seq<Direction> {
    seq![
        Direction::Right,
        Direction::UpRight,
        Direction::Up,
        Direction::UpLeft,
        Direction::Left,
        Direction::DownLeft,
        Direction::Down,
        Direction::DownRight,
    ]
}

/// The five direction choices of easy mode, in their fixed order.
pub open spec fn easy_directions() -> Seq<Direction> {
    seq![
        Direction::Right,
        Direction::UpRight,
        Direction::Up,
        Direction::Down,
        Direction::DownRight,
    ]
}

/// Distributing a unit step: the next offset is one increment past the
/// previous one.
pub proof fn lemma_step_unfold(i: int, d: int)
    by (nonlinear_arith)
    ensures
        (i + 1) * d == i * d + d,
{
}

/// A multiple of a unit increment is bounded by the count itself.
pub proof fn lemma_unit_mul_bound(n: int, d: int)
    by (nonlinear_arith)
    requires
        -1 <= d <= 1,
        0 <= n,
    ensures
        -n <= n * d <= n,
{
}

/// For a unit increment, every offset along the way lies between the two
/// endpoints.
proof fn lemma_offset_between(x: int, d: int, n: int, i: int)
    by (nonlinear_arith)
    requires
        0 <= i <= n,
    ensures
        x + i * d <= x || x + i * d <= x + n * d,
        x + i * d >= x || x + i * d >= x + n * d,
{
}

/// For a unit increment, a start strictly inside [0, size) whose phantom
/// end lands in [0, size] keeps every character cell strictly inside.
proof fn lemma_unit_offsets_inside(x: int, d: int, len: int, size: int, i: int)
    by (nonlinear_arith)
    requires
        -1 <= d <= 1,
        0 <= x < size,
        0 <= x + len * d <= size,
        0 <= i < len,
    ensures
        0 <= x + i * d < size,
{
}

/// A candidate whose start cell lies inside the grid and which passes the
/// bounds test has every one of its character cells inside the grid.
pub proof fn lemma_fits_cells_in_grid(x: int, y: int, d: Direction, len: int, size: int)
    requires
        0 <= x < size,
        0 <= y < size,
        spec_fits(len, x, y, d, size),
    ensures
        forall|i: int| 0 <= i < len ==> #[trigger] cell_in_grid(x, y, d, size, i),
{
    assert forall|i: int| 0 <= i < len implies #[trigger] cell_in_grid(x, y, d, size, i) by {
        crate::direction::lemma_incrementors_unit(d);
        lemma_unit_offsets_inside(x, spec_dx(d), len, size, i);
        lemma_unit_offsets_inside(y, spec_dy(d), len, size, i);
    }
}

/// No direction stands still: each of the eight steps moves on at least
/// one axis.
pub proof fn lemma_direction_moves(d: Direction)
    ensures
        spec_dx(d) != 0 || spec_dy(d) != 0,
{
}

/// Two distinct positions of one word lie in distinct cells, because the
/// step moves by one on at least one axis.
proof fn lemma_unit_step_injective(x: int, y: int, dx: int, dy: int, i: int, j: int)
    by (nonlinear_arith)
    requires
        dx != 0 || dy != 0,
        x + i * dx == x + j * dx,
        y + i * dy == y + j * dy,
    ensures
        i == j,
{
}

/// The cells of one word are pairwise distinct: equal coordinates mean
/// the same position in the word.
pub proof fn lemma_path_injective(x: int, y: int, d: Direction, i: int, j: int)
    requires
        step_x(x, d, i) == step_x(x, d, j),
        step_y(y, d, i) == step_y(y, d, j),
    ensures
        i == j,
{
    lemma_direction_moves(d);
    lemma_unit_step_injective(x, y, spec_dx(d), spec_dy(d), i, j);
}

/// The cell sequence of a word of length `len` starting at (x, y) in
/// direction `d`: the first cell is the start cell itself, and every
/// later cell is offset from the previous one by exactly one direction
/// increment.
pub proof fn lemma_cell_sequence(x: int, y: int, d: Direction, len: int)
    ensures
        step_x(x, d, 0) == x,
        step_y(y, d, 0) == y,
        forall|i: int|
            1 <= i <= len ==> #[trigger] step_x(x, d, i) == step_x(x, d, i - 1) + spec_dx(d),
        forall|i: int|
            1 <= i <= len ==> #[trigger] step_y(y, d, i) == step_y(y, d, i - 1) + spec_dy(d),
{
    assert forall|i: int|
        1 <= i <= len implies #[trigger] step_x(x, d, i) == step_x(x, d, i - 1) + spec_dx(d) by {
        lemma_step_unfold(i - 1, spec_dx(d));
    }
    assert forall|i: int|
        1 <= i <= len implies #[trigger] step_y(y, d, i) == step_y(y, d, i - 1) + spec_dy(d) by {
        lemma_step_unfold(i - 1, spec_dy(d));
    }
}

/// The validity test rejects any placement where a non-blank,
/// non-matching character already occupies one of the required cells.
pub proof fn lemma_collision_rejected(
    cells: Seq<Seq<char>>,
    w: Seq<char>,
    x: int,
    y: int,
    d: Direction,
    size: int,
    i: int,
)
    requires
        0 <= i < w.len(),
        cells[step_y(y, d, i)][step_x(x, d, i)] != w[i],
        cells[step_y(y, d, i)][step_x(x, d, i)] != blank(),
    ensures
        !spec_placement_valid(cells, w, x, y, d, size),
{
    assert(!cell_free_for(cells, w, x, y, d, i));
}

/// The validity test rejects any placement whose computed end coordinate
/// — one step past the last character — falls outside [0, size],
/// inclusive, on either axis.
pub proof fn lemma_out_of_bounds_rejected(
    cells: Seq<Seq<char>>,
    w: Seq<char>,
    x: int,
    y: int,
    d: Direction,
    size: int,
)
    requires
        !(0 <= step_x(x, d, w.len() as int) <= size) || !(0 <= step_y(y, d, w.len() as int)
            <= size),
    ensures
        !spec_placement_valid(cells, w, x, y, d, size),
{
}

/// Round-trip: every placed word that holds no blank sentinel can be read
/// back from a well-formed grid — from some start cell, stepping in some
/// direction, its characters stand in consecutive cells. This keeps
/// holding after later placements and after the fill-in pass, because an
/// occupied cell is never overwritten with a different character.
pub proof fn lemma_entries_readable(g: &PuzzleGrid, k: int)
    requires
        g.wf(),
        0 <= k < g.entries_view().len(),
        !has_blank(g.entries_view()[k]),
    ensures
        exists|x: int, y: int, d: Direction| word_in_grid(g.cells(), g.entries_view()[k], x, y, d),
{
}

/// No candidate placement of word `w` is valid on grid `g`: every start
/// cell inside the grid, combined with every direction the grid draws
/// from, fails the validity test.
pub open spec fn no_valid_candidate(g: PuzzleGrid, w: Seq<char>) -> bool {
    forall|x: int, y: int, d: Direction|
        0 <= x < g.grid_size() && 0 <= y < g.grid_size() && g.directions().contains(d)
            ==> !#[trigger] spec_placement_valid(g.cells(), w, x, y, d, g.grid_size())
}

/// Every candidate placement of word `w` on grid `g` is valid: whatever
/// start cell inside the grid and direction from the grid's choices the
/// draws produce, the validity test passes.
pub open spec fn all_candidates_valid(g: PuzzleGrid, w: Seq<char>) -> bool {
    forall|x: int, y: int, d: Direction|
        0 <= x < g.grid_size() && 0 <= y < g.grid_size() && g.directions().contains(d)
            ==> #[trigger] spec_placement_valid(g.cells(), w, x, y, d, g.grid_size())
}

/// What the fill-in pass does to one cell: a blank becomes an uppercase
/// letter, anything else keeps its value.
pub open spec fn filled_cell(before: char, after: char) -> bool {
    if before == blank() {
        'A' <= after <= 'Z'
    } else {
        after == before
    }
}

/// The main struct for holding and generating the puzzle.
pub struct PuzzleGrid {
    grid: Vec<Vec<char>>,
    size: i8,
    maxtries: usize,
    dir_choices: Vec<Direction>,
    entries: Vec<String>,
}

impl PuzzleGrid {
    /// The grid cells, row-major: `cells()[y][x]`.
    pub closed spec fn cells(&self) -> Seq<Seq<char>> {
        Seq::new(self.grid@.len(), |r: int| self.grid@[r]@)
    }

    /// The side length of the square grid.
    pub closed spec fn grid_size(&self) -> int {
        self.size as int
    }

    /// The per-word retry budget.
    pub closed spec fn tries(&self) -> int {
        self.maxtries as int
    }

    /// The directions a candidate placement draws from.
    pub closed spec fn directions(&self) -> Seq<Direction> {
        self.dir_choices@
    }

    /// The successfully placed words, in placement order, each uppercased.
    pub closed spec fn entries_view(&self) -> Seq<Seq<char>> {
        Seq::new(self.entries@.len(), |k: int| self.entries@[k]@)
    }

    /// Well-formedness: a square size x size cell matrix, at least one
    /// direction to draw from, and every placed word without a blank
    /// sentinel still standing somewhere in the grid.
    pub open spec fn wf(&self) -> bool {
        &&& 0 <= self.grid_size() <= 127
        &&& self.cells().len() == self.grid_size()
        &&& forall|r: int|
            0 <= r < self.cells().len() ==> (#[trigger] self.cells()[r]).len() == self.grid_size()
        &&& self.directions().len() >= 1
        &&& forall|k: int|
            0 <= k < self.entries_view().len() && !has_blank(#[trigger] self.entries_view()[k])
                ==> exists|x: int, y: int, d: Direction|
                word_in_grid(self.cells(), self.entries_view()[k], x, y, d)
    }

    /// The number of rows of the grid.
    pub fn rows(&self) -> (r: usize)
        ensures
            r == self.cells().len(),
    {
        self.grid.len()
    }

    /// The number of cells in row `y`.
    pub fn row_len(&self, y: usize) -> (r: usize)
        requires
            y < self.cells().len(),
        ensures
            r == self.cells()[y as int].len(),
    {
        self.grid[y].len()
    }

    /// The cell at column `x` of row `y`.
    pub fn cell_at(&self, x: usize, y: usize) -> (r: char)
        requires
            y < self.cells().len(),
            x < self.cells()[y as int].len(),
        ensures
            r == self.cells()[y as int][x as int],
    {
        self.grid[y][x]
    }

    /// How many words have been placed so far.
    pub fn entry_count(&self) -> (r: usize)
        ensures
            r == self.entries_view().len(),
    {
        self.entries.len()
    }

    /// The placed word at position `k`, in placement order.
    pub fn entry_at(&self, k: usize) -> (r: &String)
        requires
            k < self.entries_view().len(),
        ensures
            r@ == self.entries_view()[k as int],
    {
        &self.entries[k]
    }

    /// Builds a blank size x size grid. Hard mode draws candidate
    /// directions from all 8; easy mode from a fixed 5-direction subset.
    pub fn new(size: i8, maxtries: usize, hard: bool) -> (r: PuzzleGrid)
        requires
            0 <= size,
        ensures
            r.wf(),
            r.grid_size() == size,
            r.tries() == maxtries,
            r.entries_view() =~= Seq::<Seq<char>>::empty(),
            forall|yy: int, xx: int|
                0 <= yy < size && 0 <= xx < size ==> r.cells()[yy][xx] == blank(),
            r.directions() =~= if hard {
                all_directions()
            } else {
                easy_directions()
            },
    {
        let s = size as usize;
        let mut grid: Vec<Vec<char>> = Vec::new();
        let mut yy: usize = 0;
        while yy < s
            invariant
                yy <= s,
                grid@.len() == yy,
                forall|r: int|
                    0 <= r < yy ==> (#[trigger] grid@[r]@).len() == s && forall|c: int|
                        0 <= c < s ==> grid@[r]@[c] == blank(),
            decreases s - yy,
        {
            let mut row: Vec<char> = Vec::new();
            let mut xx: usize = 0;
            while xx < s
                invariant
                    xx <= s,
                    row@.len() == xx,
                    forall|c: int| 0 <= c < xx ==> row@[c] == blank(),
                decreases s - xx,
            {
                row.push(' ');
                xx += 1;
            }
            grid.push(row);
            yy += 1;
        }
        let mut dir_choices: Vec<Direction> = Vec::new();
        if hard {
            dir_choices.push(Direction::Right);
            dir_choices.push(Direction::UpRight);
            dir_choices.push(Direction::Up);
            dir_choices.push(Direction::UpLeft);
            dir_choices.push(Direction::Left);
            dir_choices.push(Direction::DownLeft);
            dir_choices.push(Direction::Down);
            dir_choices.push(Direction::DownRight);
            assert(dir_choices@ =~= all_directions());
        } else {
            dir_choices.push(Direction::Right);
            dir_choices.push(Direction::UpRight);
            dir_choices.push(Direction::Up);
            dir_choices.push(Direction::Down);
            dir_choices.push(Direction::DownRight);
            assert(dir_choices@ =~= easy_directions());
        }
        let r = PuzzleGrid { grid, size, maxtries, dir_choices, entries: Vec::new() };
        assert(r.entries_view() =~= Seq::<Seq<char>>::empty());
        r
    }

    /// The x and y cell indices, in order, at which each character of the
    /// word would be written for a placement starting at (x, y) in the
    /// given direction.
    pub fn get_indeces(&self, word: &str, x: &i8, y: &i8, dir: &Direction) -> (r: (
        Vec<usize>,
        Vec<usize>,
    ))
        requires
            forall|i: int| 0 <= i < word@.len() ==> 0 <= #[trigger] step_x(*x as int, *dir, i),
            forall|i: int| 0 <= i < word@.len() ==> 0 <= #[trigger] step_y(*y as int, *dir, i),
            -128 <= step_x(*x as int, *dir, word@.len() as int) <= 127,
            -128 <= step_y(*y as int, *dir, word@.len() as int) <= 127,
        ensures
            r.0@.len() == word@.len(),
            r.1@.len() == word@.len(),
            forall|i: int|
                0 <= i < word@.len() ==> #[trigger] r.0@[i] == step_x(*x as int, *dir, i),
            forall|i: int|
                0 <= i < word@.len() ==> #[trigger] r.1@[i] == step_y(*y as int, *dir, i),
    {
        let (x_inc, y_inc) = dir.incrementors();
        let n = word.unicode_len();
        let mut x_indeces: Vec<usize> = Vec::new();
        let mut y_indeces: Vec<usize> = Vec::new();
        let mut xi = *x;
        let mut yi = *y;
        let mut i: usize = 0;
        while i < n
            invariant
                n == word@.len(),
                i <= n,
                x_inc == spec_dx(*dir),
                y_inc == spec_dy(*dir),
                xi == step_x(*x as int, *dir, i as int),
                yi == step_y(*y as int, *dir, i as int),
                x_indeces@.len() == i,
                y_indeces@.len() == i,
                forall|j: int| 0 <= j < i ==> #[trigger] x_indeces@[j] == step_x(*x as int, *dir, j),
                forall|j: int| 0 <= j < i ==> #[trigger] y_indeces@[j] == step_y(*y as int, *dir, j),
                forall|j: int| 0 <= j < n ==> 0 <= #[trigger] step_x(*x as int, *dir, j),
                forall|j: int| 0 <= j < n ==> 0 <= #[trigger] step_y(*y as int, *dir, j),
                -128 <= step_x(*x as int, *dir, n as int) <= 127,
                -128 <= step_y(*y as int, *dir, n as int) <= 127,
            decreases n - i,
        {
            x_indeces.push(xi as usize);
            y_indeces.push(yi as usize);
            proof {
                lemma_step_unfold(i as int, spec_dx(*dir));
                lemma_step_unfold(i as int, spec_dy(*dir));
                lemma_offset_between(*x as int, spec_dx(*dir), n as int, i as int + 1);
                lemma_offset_between(*y as int, spec_dy(*dir), n as int, i as int + 1);
            }
            xi += x_inc;
            yi += y_inc;
            i += 1;
        }
        (x_indeces, y_indeces)
    }

    /// Returns true exactly when the word fits at the given start and
    /// direction with no collisions: the phantom end coordinate stays in
    /// [0, size] on both axes, and every required cell holds the blank
    /// sentinel or already the word's own character.
    pub fn placement_valid(&self, word: &str, x: &i8, y: &i8, dir: &Direction) -> (r: bool)
        requires
            self.wf(),
            -128 <= step_x(*x as int, *dir, word@.len() as int) <= 127,
            -128 <= step_y(*y as int, *dir, word@.len() as int) <= 127,
            spec_fits(word@.len() as int, *x as int, *y as int, *dir, self.grid_size())
                ==> forall|i: int|
                0 <= i < word@.len() ==> #[trigger] cell_in_grid(
                    *x as int,
                    *y as int,
                    *dir,
                    self.grid_size(),
                    i,
                ),
        ensures
            r == spec_placement_valid(
                self.cells(),
                word@,
                *x as int,
                *y as int,
                *dir,
                self.grid_size(),
            ),
    {
        let (x_inc, y_inc) = dir.incrementors();
        let n = word.unicode_len();
        let mut xi = *x;
        let mut yi = *y;
        let mut i: usize = 0;
        while i < n
            invariant
                n == word@.len(),
                i <= n,
                x_inc == spec_dx(*dir),
                y_inc == spec_dy(*dir),
                xi == step_x(*x as int, *dir, i as int),
                yi == step_y(*y as int, *dir, i as int),
                -128 <= step_x(*x as int, *dir, n as int) <= 127,
                -128 <= step_y(*y as int, *dir, n as int) <= 127,
            decreases n - i,
        {
            proof {
                lemma_step_unfold(i as int, spec_dx(*dir));
                lemma_step_unfold(i as int, spec_dy(*dir));
                lemma_offset_between(*x as int, spec_dx(*dir), n as int, i as int + 1);
                lemma_offset_between(*y as int, spec_dy(*dir), n as int, i as int + 1);
            }
            xi += x_inc;
            yi += y_inc;
            i += 1;
        }
        if xi >= 0 && xi <= self.size && yi >= 0 && yi <= self.size {
            // the word fits; now make sure it does not collide
            proof {
                assert(spec_fits(n as int, *x as int, *y as int, *dir, self.grid_size()));
                assert forall|j: int|
                    0 <= j < word@.len() implies 0 <= #[trigger] step_x(*x as int, *dir, j) by {
                    assert(cell_in_grid(*x as int, *y as int, *dir, self.grid_size(), j));
                }
                assert forall|j: int|
                    0 <= j < word@.len() implies 0 <= #[trigger] step_y(*y as int, *dir, j) by {
                    assert(cell_in_grid(*x as int, *y as int, *dir, self.grid_size(), j));
                }
            }
            let (x_indeces, y_indeces) = self.get_indeces(word, x, y, dir);
            let mut i: usize = 0;
            while i < n
                invariant
                    n == word@.len(),
                    i <= n,
                    self.wf(),
                    x_indeces@.len() == n,
                    y_indeces@.len() == n,
                    forall|j: int|
                        0 <= j < n ==> #[trigger] x_indeces@[j] == step_x(*x as int, *dir, j),
                    forall|j: int|
                        0 <= j < n ==> #[trigger] y_indeces@[j] == step_y(*y as int, *dir, j),
                    forall|j: int|
                        0 <= j < n ==> #[trigger] cell_in_grid(
                            *x as int,
                            *y as int,
                            *dir,
                            self.grid_size(),
                            j,
                        ),
                    forall|j: int|
                        0 <= j < i ==> #[trigger] cell_free_for(
                            self.cells(),
                            word@,
                            *x as int,
                            *y as int,
                            *dir,
                            j,
                        ),
                decreases n - i,
            {
                let c = word.get_char(i);
                let cx = x_indeces[i];
                let cy = y_indeces[i];
                proof {
                    assert(cell_in_grid(*x as int, *y as int, *dir, self.grid_size(), i as int));
                    assert(cy < self.cells().len());
                    assert(self.cells()[cy as int].len() == self.grid_size());
                    assert(self.cells()[cy as int] == self.grid@[cy as int]@);
                }
                let cell = self.grid[cy][cx];
                if !(cell == c || cell == ' ') {
                    proof {
                        assert(!cell_free_for(
                            self.cells(),
                            word@,
                            *x as int,
                            *y as int,
                            *dir,
                            i as int,
                        ));
                    }
                    return false;
                }
                i += 1;
            }
            true
        } else {
            false
        }
    }

    /// Validates one candidate start cell and direction and, when it is
    /// valid, writes the word (uppercased) into the grid and records it.
    /// Deterministic: the caller supplies the candidate.
    pub fn place_at(&mut self, word: &str, x: i8, y: i8, dir: Direction) -> (r: bool)
        requires
            old(self).wf(),
            -128 <= step_x(x as int, dir, word@.len() as int) <= 127,
            -128 <= step_y(y as int, dir, word@.len() as int) <= 127,
            spec_fits(word@.len() as int, x as int, y as int, dir, old(self).grid_size())
                ==> forall|i: int|
                0 <= i < word@.len() ==> #[trigger] cell_in_grid(
                    x as int,
                    y as int,
                    dir,
                    old(self).grid_size(),
                    i,
                ),
        ensures
            final(self).wf(),
            r == spec_placement_valid(
                old(self).cells(),
                upper_seq(word@),
                x as int,
                y as int,
                dir,
                old(self).grid_size(),
            ),
            final(self).grid_size() == old(self).grid_size(),
            final(self).tries() == old(self).tries(),
            final(self).directions() == old(self).directions(),
            !r ==> *final(self) == *old(self),
            r ==> final(self).entries_view() =~= old(self).entries_view().push(
                upper_seq(word@),
            ),
            !r ==> final(self).entries_view() == old(self).entries_view(),
            r ==> word_in_grid(final(self).cells(), upper_seq(word@), x as int, y as int, dir),
            final(self).cells().len() == old(self).cells().len(),
            forall|rr: int|
                0 <= rr < old(self).cells().len() ==> (#[trigger] final(self).cells()[rr]).len()
                    == old(self).cells()[rr].len(),
            // an occupied cell is never overwritten: a cell changes value
            // only if it held the blank sentinel
            forall|rr: int, cc: int|
                0 <= rr < old(self).cells().len() && 0 <= cc < old(self).cells()[rr].len()
                    ==> #[trigger] final(self).cells()[rr][cc] == old(self).cells()[rr][cc] || old(
                    self,
                ).cells()[rr][cc] == blank(),
            // cells off the word's path keep their value
            forall|rr: int, cc: int|
                0 <= rr < old(self).cells().len() && 0 <= cc < old(self).cells()[rr].len()
                    && !on_word_path(x as int, y as int, dir, word@.len() as int, rr, cc)
                    ==> #[trigger] final(self).cells()[rr][cc] == old(self).cells()[rr][cc],
    {
        let sanitized = to_upper(word);
        let valid = self.placement_valid(sanitized.as_str(), &x, &y, &dir);
        if !valid {
            return false;
        }
        let ghost prev = *self;
        self.entries.push(sanitized.clone());
        proof {
            assert(self.entries_view() =~= prev.entries_view().push(upper_seq(word@)));
            assert(self.cells() == prev.cells());
        }
        proof {
            assert(sanitized@.len() == word@.len());
            assert(spec_fits(word@.len() as int, x as int, y as int, dir, prev.grid_size()));
            assert forall|j: int|
                0 <= j < sanitized@.len() implies 0 <= #[trigger] step_x(x as int, dir, j) by {
                assert(cell_in_grid(x as int, y as int, dir, prev.grid_size(), j));
            }
            assert forall|j: int|
                0 <= j < sanitized@.len() implies 0 <= #[trigger] step_y(y as int, dir, j) by {
                assert(cell_in_grid(x as int, y as int, dir, prev.grid_size(), j));
            }
        }
        let (x_indeces, y_indeces) = self.get_indeces(sanitized.as_str(), &x, &y, &dir);
        let n = x_indeces.len();
        let ghost w = upper_seq(word@);
        let mut i: usize = 0;
        while i < n
            invariant
                n == w.len(),
                i <= n,
                sanitized@ == w,
                self.size == prev.size,
                self.maxtries == prev.maxtries,
                self.dir_choices == prev.dir_choices,
                self.entries_view() =~= prev.entries_view().push(w),
                prev.wf(),
                x_indeces@.len() == n,
                y_indeces@.len() == n,
                forall|j: int| 0 <= j < n ==> #[trigger] x_indeces@[j] == step_x(x as int, dir, j),
                forall|j: int| 0 <= j < n ==> #[trigger] y_indeces@[j] == step_y(y as int, dir, j),
                forall|j: int|
                    0 <= j < n ==> #[trigger] cell_in_grid(
                        x as int,
                        y as int,
                        dir,
                        prev.grid_size(),
                        j,
                    ),
                spec_no_collision(prev.cells(), w, x as int, y as int, dir),
                self.cells().len() == prev.cells().len(),
                forall|rr: int|
                    0 <= rr < prev.cells().len() ==> (#[trigger] self.cells()[rr]).len()
                        == prev.cells()[rr].len(),
                forall|j: int| 0 <= j < i ==> #[trigger] word_cell_ok(
                    self.cells(),
                    w,
                    x as int,
                    y as int,
                    dir,
                    j,
                ),
                forall|rr: int, cc: int|
                    0 <= rr < prev.cells().len() && 0 <= cc < prev.cells()[rr].len()
                        && !on_word_path(x as int, y as int, dir, i as int, rr, cc)
                        ==> #[trigger] self.cells()[rr][cc] == prev.cells()[rr][cc],
            decreases n - i,
        {
            let c = sanitized.as_str().get_char(i);
            let cx = x_indeces[i];
            let cy = y_indeces[i];
            proof {
                assert(cell_in_grid(x as int, y as int, dir, prev.grid_size(), i as int));
                assert(self.cells()[cy as int].len() == prev.cells()[cy as int].len());
            }
            let ghost before = *self;
            self.grid[cy][cx] = c;
            proof {
                assert(self.cells() =~= before.cells().update(
                    cy as int,
                    before.cells()[cy as int].update(cx as int, c),
                ));
                assert forall|j: int| 0 <= j < i + 1 implies #[trigger] word_cell_ok(
                    self.cells(),
                    w,
                    x as int,
                    y as int,
                    dir,
                    j,
                ) by {
                    if j < i {
                        assert(word_cell_ok(before.cells(), w, x as int, y as int, dir, j));
                        if step_y(y as int, dir, j) == cy as int && step_x(x as int, dir, j)
                            == cx as int {
                            lemma_path_injective(x as int, y as int, dir, j, i as int);
                        }
                    } else {
                        assert(cell_in_grid(x as int, y as int, dir, prev.grid_size(), j));
                    }
                }
                assert forall|rr: int, cc: int|
                    0 <= rr < prev.cells().len() && 0 <= cc < prev.cells()[rr].len()
                        && !on_word_path(x as int, y as int, dir, i as int + 1, rr, cc)
                        implies #[trigger] self.cells()[rr][cc] == prev.cells()[rr][cc] by {
                    assert(!(rr == step_y(y as int, dir, i as int) && cc == step_x(
                        x as int,
                        dir,
                        i as int,
                    )));
                    assert(!on_word_path(x as int, y as int, dir, i as int, rr, cc));
                    assert(self.cells()[rr][cc] == before.cells()[rr][cc]);
                }
            }
            i += 1;
        }
        proof {
            let cur = *self;
            // every cell either kept its value or held the blank sentinel
            assert forall|rr: int, cc: int|
                0 <= rr < prev.cells().len() && 0 <= cc < prev.cells()[rr].len()
                    implies #[trigger] cur.cells()[rr][cc] == prev.cells()[rr][cc] || prev.cells(
            )[rr][cc] == blank() by {
                if on_word_path(x as int, y as int, dir, n as int, rr, cc) {
                    let j = choose|j: int|
                        0 <= j < n && rr == #[trigger] step_y(y as int, dir, j) && cc == step_x(
                            x as int,
                            dir,
                            j,
                        );
                    assert(word_cell_ok(cur.cells(), w, x as int, y as int, dir, j));
                    assert(cell_free_for(prev.cells(), w, x as int, y as int, dir, j));
                }
            }
            // the round-trip invariant carries over to the grown entry list
            assert forall|k: int|
                0 <= k < cur.entries_view().len() && !has_blank(
                    #[trigger] cur.entries_view()[k],
                ) implies exists|xx: int, yy: int, dd: Direction|
                word_in_grid(cur.cells(), cur.entries_view()[k], xx, yy, dd) by {
                if k < prev.entries_view().len() {
                    assert(!has_blank(prev.entries_view()[k]));
                    let (xx, yy, dd) = choose|xx: int, yy: int, dd: Direction|
                        word_in_grid(prev.cells(), prev.entries_view()[k], xx, yy, dd);
                    let wk = prev.entries_view()[k];
                    assert forall|j: int| 0 <= j < wk.len() implies #[trigger] word_cell_ok(
                        cur.cells(),
                        wk,
                        xx,
                        yy,
                        dd,
                        j,
                    ) by {
                        assert(word_cell_ok(prev.cells(), wk, xx, yy, dd, j));
                        assert(wk[j] != blank());
                        assert(cur.cells()[step_y(yy, dd, j)][step_x(xx, dd, j)] == prev.cells()[
                            step_y(yy, dd, j)][step_x(xx, dd, j)]
                            || prev.cells()[step_y(yy, dd, j)][step_x(xx, dd, j)] == blank());
                    }
                    assert(word_in_grid(cur.cells(), cur.entries_view()[k], xx, yy, dd));
                } else {
                    assert(cur.entries_view()[k] == w);
                    assert(word_in_grid(cur.cells(), w, x as int, y as int, dir));
                }
            }
        }
        true
    }

    /// Attempts to randomly place the given word into the puzzle: the
    /// start cell is drawn uniformly from the grid and the direction from
    /// the grid's direction choices, up to `maxtries - 1` times; the
    /// first valid candidate is written. When no draw succeeds the word
    /// is reported unplaceable, by name — in particular whenever no valid
    /// candidate exists at all.
    pub fn place(&mut self, word: &str) -> (r: Result<(), PuzzleError>)
        requires
            old(self).wf(),
            old(self).grid_size() >= 1,
            word@.len() + old(self).grid_size() <= 128,
        ensures
            final(self).wf(),
            final(self).grid_size() == old(self).grid_size(),
            final(self).tries() == old(self).tries(),
            final(self).directions() == old(self).directions(),
            r is Ok ==> final(self).entries_view() =~= old(self).entries_view().push(
                upper_seq(word@),
            ),
            r is Ok ==> exists|x: int, y: int, d: Direction|
                {
                    &&& 0 <= x < old(self).grid_size()
                    &&& 0 <= y < old(self).grid_size()
                    &&& old(self).directions().contains(d)
                    &&& #[trigger] spec_placement_valid(
                        old(self).cells(),
                        upper_seq(word@),
                        x,
                        y,
                        d,
                        old(self).grid_size(),
                    )
                    &&& word_in_grid(final(self).cells(), upper_seq(word@), x, y, d)
                    &&& forall|rr: int, cc: int|
                        0 <= rr < old(self).cells().len() && 0 <= cc < old(self).cells()[rr].len()
                            && !on_word_path(x, y, d, word@.len() as int, rr, cc)
                            ==> #[trigger] final(self).cells()[rr][cc] == old(self).cells()[rr][cc]
                },
            r matches Err(e) ==> *final(self) == *old(self) && e@ == word@
                + " could not be placed in the puzzle"@,
            no_valid_candidate(*old(self), upper_seq(word@)) ==> r is Err,
            // a retry budget of one (or none) draws no candidate at all
            old(self).tries() <= 1 ==> r is Err,
            // where the draws cannot fail — every candidate is valid and
            // there is room for at least one draw — success is owed
            old(self).tries() >= 2 && all_candidates_valid(*old(self), upper_seq(word@))
                ==> r is Ok,
            forall|rr: int, cc: int|
                0 <= rr < old(self).cells().len() && 0 <= cc < old(self).cells()[rr].len()
                    ==> #[trigger] final(self).cells()[rr][cc] == old(self).cells()[rr][cc] || old(
                    self,
                ).cells()[rr][cc] == blank(),
    {
        let mut x: i8 = 0;
        let mut y: i8 = 0;
        let mut dir = Direction::Right;
        let mut placed = false;
        let sanitized = to_upper(word);
        let ghost w = upper_seq(word@);

        // randomly select x, y, and direction until maxtries is reached
        // or a valid placement was found
        let mut t: usize = 1;
        while t < self.maxtries
            invariant
                *self == *old(self),
                self.wf(),
                self.grid_size() >= 1,
                w == upper_seq(word@),
                sanitized@ == w,
                word@.len() + self.grid_size() <= 128,
                placed ==> {
                    &&& 0 <= (x as int) < self.grid_size()
                    &&& 0 <= (y as int) < self.grid_size()
                    &&& self.directions().contains(dir)
                    &&& spec_placement_valid(
                        self.cells(),
                        w,
                        x as int,
                        y as int,
                        dir,
                        self.grid_size(),
                    )
                },
                no_valid_candidate(*self, w) ==> !placed,
                t >= 1,
                self.tries() <= 1 ==> !placed,
                all_candidates_valid(*self, w) ==> placed || t == 1,
            ensures
                all_candidates_valid(*self, w) && self.tries() >= 2 ==> placed,
            decreases self.maxtries - t,
        {
            x = random_below(self.size);
            y = random_below(self.size);
            if let Some(d) = choose_direction(&self.dir_choices) {
                dir = d;
            }
            proof {
                crate::direction::lemma_incrementors_unit(dir);
                lemma_unit_mul_bound(w.len() as int, spec_dx(dir));
                lemma_unit_mul_bound(w.len() as int, spec_dy(dir));
                if spec_fits(w.len() as int, x as int, y as int, dir, self.grid_size()) {
                    lemma_fits_cells_in_grid(
                        x as int,
                        y as int,
                        dir,
                        w.len() as int,
                        self.grid_size(),
                    );
                }
            }
            placed = self.placement_valid(sanitized.as_str(), &x, &y, &dir);
            if placed {
                break;
            }
            t += 1;
        }

        if placed {
            proof {
                crate::direction::lemma_incrementors_unit(dir);
                lemma_unit_mul_bound(w.len() as int, spec_dx(dir));
                lemma_unit_mul_bound(w.len() as int, spec_dy(dir));
                if spec_fits(w.len() as int, x as int, y as int, dir, self.grid_size()) {
                    lemma_fits_cells_in_grid(
                        x as int,
                        y as int,
                        dir,
                        w.len() as int,
                        self.grid_size(),
                    );
                }
            }
            let ok = self.place_at(word, x, y, dir);
            proof {
                assert(ok);
            }
            Ok(())
        } else {
            let mut msg = word.to_owned();
            msg.append(" could not be placed in the puzzle");
            Err(PuzzleError::new(msg))
        }
    }

    /// Locates all grid cells still holding the blank sentinel and fills
    /// each with a random uppercase letter A–Z; occupied cells are never
    /// overwritten, and afterward no blank cell remains.
    pub fn fill_in(&mut self)
        requires
            old(self).wf(),
        ensures
            final(self).wf(),
            final(self).grid_size() == old(self).grid_size(),
            final(self).tries() == old(self).tries(),
            final(self).directions() == old(self).directions(),
            final(self).entries_view() == old(self).entries_view(),
            final(self).cells().len() == old(self).cells().len(),
            forall|rr: int|
                0 <= rr < old(self).cells().len() ==> (#[trigger] final(self).cells()[rr]).len()
                    == old(self).cells()[rr].len(),
            forall|rr: int, cc: int|
                0 <= rr < old(self).cells().len() && 0 <= cc < old(self).cells()[rr].len()
                    ==> #[trigger] filled_cell(
                    old(self).cells()[rr][cc],
                    final(self).cells()[rr][cc],
                ),
            forall|rr: int, cc: int|
                0 <= rr < final(self).cells().len() && 0 <= cc < final(self).cells()[rr].len()
                    ==> #[trigger] final(self).cells()[rr][cc] != blank(),
    {
        let ghost prev = *self;
        let mut yy: usize = 0;
        while yy < self.grid.len()
            invariant
                self.size == prev.size,
                self.maxtries == prev.maxtries,
                self.dir_choices == prev.dir_choices,
                self.entries == prev.entries,
                prev.wf(),
                yy <= self.grid@.len(),
                self.cells().len() == prev.cells().len(),
                forall|rr: int|
                    0 <= rr < prev.cells().len() ==> (#[trigger] self.cells()[rr]).len()
                        == prev.cells()[rr].len(),
                forall|rr: int, cc: int|
                    0 <= rr < yy && 0 <= cc < prev.cells()[rr].len() ==> #[trigger] filled_cell(
                        prev.cells()[rr][cc],
                        self.cells()[rr][cc],
                    ),
                forall|rr: int|
                    yy <= rr < prev.cells().len() ==> #[trigger] self.cells()[rr]
                        == prev.cells()[rr],
            decreases self.grid@.len() - yy,
        {
            let mut xx: usize = 0;
            let ghost row0 = self.cells()[yy as int];
            while xx < self.grid[yy].len()
                invariant
                    self.size == prev.size,
                    self.maxtries == prev.maxtries,
                    self.dir_choices == prev.dir_choices,
                    self.entries == prev.entries,
                    prev.wf(),
                    yy < self.grid@.len(),
                    xx <= self.grid@[yy as int]@.len(),
                    row0 == prev.cells()[yy as int],
                    self.cells().len() == prev.cells().len(),
                    forall|rr: int|
                        0 <= rr < prev.cells().len() ==> (#[trigger] self.cells()[rr]).len()
                            == prev.cells()[rr].len(),
                    forall|rr: int, cc: int|
                        0 <= rr < yy && 0 <= cc < prev.cells()[rr].len() ==> #[trigger] filled_cell(
                            prev.cells()[rr][cc],
                            self.cells()[rr][cc],
                        ),
                    forall|rr: int|
                        yy < rr < prev.cells().len() ==> #[trigger] self.cells()[rr]
                            == prev.cells()[rr],
                    forall|cc: int|
                        0 <= cc < xx ==> #[trigger] filled_cell(
                            prev.cells()[yy as int][cc],
                            self.cells()[yy as int][cc],
                        ),
                    forall|cc: int|
                        xx <= cc < prev.cells()[yy as int].len()
                            ==> #[trigger] self.cells()[yy as int][cc]
                            == prev.cells()[yy as int][cc],
                decreases self.grid@[yy as int]@.len() - xx,
            {
                let cell = self.grid[yy][xx];
                if cell == ' ' {
                    let idx = random_below(26);
                    let letter: char = ((65 + idx) as u8) as char;
                    let ghost before = *self;
                    self.grid[yy][xx] = letter;
                    proof {
                        assert(self.cells() =~= before.cells().update(
                            yy as int,
                            before.cells()[yy as int].update(xx as int, letter),
                        ));
                    }
                }
                xx += 1;
            }
            yy += 1;
        }
        proof {
            let cur = *self;
            assert forall|rr: int, cc: int|
                0 <= rr < cur.cells().len() && 0 <= cc < cur.cells()[rr].len() implies #[trigger] cur.cells()[rr][cc] != blank() by {
                assert(filled_cell(prev.cells()[rr][cc], cur.cells()[rr][cc]));
            }
            assert(cur.entries_view() == prev.entries_view());
            assert forall|k: int|
                0 <= k < cur.entries_view().len() && !has_blank(
                    #[trigger] cur.entries_view()[k],
                ) implies exists|xx: int, yy: int, dd: Direction|
                word_in_grid(cur.cells(), cur.entries_view()[k], xx, yy, dd) by {
                assert(!has_blank(prev.entries_view()[k]));
                let (xx, yy, dd) = choose|xx: int, yy: int, dd: Direction|
                    word_in_grid(prev.cells(), prev.entries_view()[k], xx, yy, dd);
                let wk = prev.entries_view()[k];
                assert forall|j: int| 0 <= j < wk.len() implies #[trigger] word_cell_ok(
                    cur.cells(),
                    wk,
                    xx,
                    yy,
                    dd,
                    j,
                ) by {
                    assert(word_cell_ok(prev.cells(), wk, xx, yy, dd, j));
                    assert(wk[j] != blank());
                    assert(filled_cell(
                        prev.cells()[step_y(yy, dd, j)][step_x(xx, dd, j)],
                        cur.cells()[step_y(yy, dd, j)][step_x(xx, dd, j)],
                    ));
                }
                assert(word_in_grid(cur.cells(), cur.entries_view()[k], xx, yy, dd));
            }
        }
    }
}

} // verus!
