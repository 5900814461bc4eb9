use vstd::prelude::*;

verus! {

/// The state of one tile of the board.
#[derive(Clone, Copy, Debug, PartialEq, Eq, Structural)]
pub enum Slot {
    /// Revealed, holding the number of mines among its eight neighbours.
    Discovered(usize),
    /// Not yet revealed and not a mine.
    Unseen,
    /// A mine; it stays one for the whole game.
    Mine,
}

/// One input to the game, as the driver reads it from the keyboard.
#[derive(Clone, Copy, Debug, PartialEq, Eq, Structural)]
pub enum Input {
    MoveUp,
    MoveDown,
    MoveLeft,
    MoveRight,
    Sweep,
    /// Any other key, or a key event that is not a plain press.
    Ignored,
}

/// Where the game stands after an input.
#[derive(Clone, Copy, Debug, PartialEq, Eq, Structural)]
pub enum Outcome {
    Playing,
    /// A mine was swept.
    Lost,
    /// No unseen tile is left.
    Won,
}

/// The character shown for a revealed tile with `n` mines around it: a
/// space for none, else the digit.
pub open spec fn digit_of(n: usize) -> char {
    if n == 0 {
        ' '
    } else if n == 1 {
        '1'
    } else if n == 2 {
        '2'
    } else if n == 3 {
        '3'
    } else if n == 4 {
        '4'
    } else if n == 5 {
        '5'
    } else if n == 6 {
        '6'
    } else if n == 7 {
        '7'
    } else if n == 8 {
        '8'
    } else {
        '?'
    }
}

/// The character shown for a tile: its digit once revealed, `@` for a mine
/// when mines are shown, `-` otherwise.
pub open spec fn symbol_of(t: Slot, show_mines: bool) -> char {
    match t {
        Slot::Discovered(n) => digit_of(n),
        Slot::Unseen => '-',
        Slot::Mine => if show_mines { '@' } else { '-' },
    }
}

/// The character shown for tile `t`.
fn symbol(t: Slot, show_mines: bool) -> (r: char)
    ensures
        r == symbol_of(t, show_mines),
{
    match t {
        Slot::Discovered(n) => match n {
            0 => ' ',
            1 => '1',
            2 => '2',
            3 => '3',
            4 => '4',
            5 => '5',
            6 => '6',
            7 => '7',
            8 => '8',
            _ => '?',
        },
        Slot::Unseen => '-',
        Slot::Mine => if show_mines { '@' } else { '-' },
    }
}

/// A Minesweeper board of `width * height` tiles, stored row by row.
pub struct MSGrid {
    cursor: (usize, usize),
    data: Vec<Slot>,
    width: usize,
    height: usize,
    num_unseen_tiles: usize,
}

/// Whether `(x, y)` lies on a board of `w` columns and `h` rows.
pub open spec fn in_bounds(w: int, h: int, x: int, y: int) -> bool {
    0 <= x < w && 0 <= y < h
}

/// The tile at `(x, y)` of a row-major board of `w` columns.
pub open spec fn tile_of(s: Seq<Slot>, w: int, x: int, y: int) -> Slot {
    s[y * w + x]
}

/// 1 where `(x, y)` is on the board and holds a mine, 0 elsewhere.
pub open spec fn mine_at(s: Seq<Slot>, w: int, h: int, x: int, y: int) -> int {
    if in_bounds(w, h, x, y) && tile_of(s, w, x, y) is Mine {
        1
    } else {
        0
    }
}

/// The number of mines among the eight tiles around `(x, y)`; the tile
/// itself is not counted, and positions off the board count as no mine.
pub open spec fn adjacent_mines(s: Seq<Slot>, w: int, h: int, x: int, y: int) -> int {
    mine_at(s, w, h, x - 1, y - 1) + mine_at(s, w, h, x, y - 1) + mine_at(s, w, h, x + 1, y - 1)
        + mine_at(s, w, h, x - 1, y) + mine_at(s, w, h, x + 1, y)
        + mine_at(s, w, h, x - 1, y + 1) + mine_at(s, w, h, x, y + 1) + mine_at(s, w, h, x + 1, y + 1)
}

/// Every revealed tile of `s` holds the number of mines around it.
pub open spec fn counts_hold(s: Seq<Slot>, w: int, h: int) -> bool {
    forall|x: int, y: int|
        #![trigger tile_of(s, w, x, y)]
        in_bounds(w, h, x, y) && tile_of(s, w, x, y) is Discovered
            ==> tile_of(s, w, x, y)->Discovered_0 == adjacent_mines(s, w, h, x, y)
}

/// The number of `Unseen` tiles in `s`.
pub open spec fn count_unseen(s: Seq<Slot>) -> nat
    decreases s.len(),
{
    if s.len() == 0 {
        0
    } else {
        count_unseen(s.drop_last()) + if s.last() is Unseen { 1nat } else { 0nat }
    }
}

/// The number of mines in `s`.
pub open spec fn count_mines(s: Seq<Slot>) -> nat
    decreases s.len(),
{
    if s.len() == 0 {
        0
    } else {
        count_mines(s.drop_last()) + if s.last() is Mine { 1nat } else { 0nat }
    }
}

/// Position `(x, y)` of a board of `w` columns has index `y * w + x`, and
/// distinct positions have distinct indices.
proof fn lemma_index(w: int, h: int, x: int, y: int, x2: int, y2: int)
    requires
        in_bounds(w, h, x, y),
        in_bounds(w, h, x2, y2),
    ensures
        0 <= y * w + x < w * h,
        (x != x2 || y != y2) ==> y * w + x != y2 * w + x2,
{
    assert(0 <= y * w + x < w * h) by (nonlinear_arith)
        requires 0 <= x < w, 0 <= y < h;
    if y < y2 {
        assert(y * w + x < y2 * w + x2) by (nonlinear_arith)
            requires 0 <= x < w, 0 <= x2, y < y2;
    } else if y2 < y {
        assert(y2 * w + x2 < y * w + x) by (nonlinear_arith)
            requires 0 <= x2 < w, 0 <= x, y2 < y;
    }
}

/// Whether `p` and `q` are next to each other in a row or in a column.
pub open spec fn orthogonal(p: (usize, usize), q: (usize, usize)) -> bool {
    ||| p.0 == q.0 && (p.1 + 1 == q.1 || q.1 + 1 == p.1)
    ||| p.1 == q.1 && (p.0 + 1 == q.0 || q.0 + 1 == p.0)
}

/// If `(x, y)` is on the board and was unseen in `s0`, it is in `order`.
pub open spec fn opened(s0: Seq<Slot>, w: int, h: int, order: Seq<(usize, usize)>, x: int, y: int) -> bool {
    in_bounds(w, h, x, y) && tile_of(s0, w, x, y) is Unseen ==> order.contains((x as usize, y as usize))
}

/// Each of the four orthogonal neighbours of `p` that was unseen in `s0` is in `order`.
pub open spec fn cascade_closed(s0: Seq<Slot>, w: int, h: int, order: Seq<(usize, usize)>, p: (usize, usize)) -> bool {
    &&& opened(s0, w, h, order, p.0 - 1, p.1 as int)
    &&& opened(s0, w, h, order, p.0 + 1, p.1 as int)
    &&& opened(s0, w, h, order, p.0 as int, p.1 - 1)
    &&& opened(s0, w, h, order, p.0 as int, p.1 + 1)
}

/// The mine count around `p` on board `s0`.
pub open spec fn adj_at(s0: Seq<Slot>, w: int, h: int, p: (usize, usize)) -> int {
    adjacent_mines(s0, w, h, p.0 as int, p.1 as int)
}

/// `order` lists, in the order they were revealed, distinct tiles of `s0`
/// that were unseen, starting at `start`; each later one lies next to an
/// earlier one with no mine around it.
pub open spec fn grown_from(s0: Seq<Slot>, w: int, h: int, start: (usize, usize), order: Seq<(usize, usize)>) -> bool {
    &&& order.len() >= 1
    &&& order[0] == start
    &&& order.no_duplicates()
    &&& all_unseen(s0, w, h, order)
    &&& supported(s0, w, h, order)
}

/// Each tile of `order` is on the board and unseen in `s0`.
pub open spec fn all_unseen(s0: Seq<Slot>, w: int, h: int, order: Seq<(usize, usize)>) -> bool {
    forall|k: int| #![trigger order[k]] 0 <= k < order.len() ==> {
        &&& in_bounds(w, h, order[k].0 as int, order[k].1 as int)
        &&& tile_of(s0, w, order[k].0 as int, order[k].1 as int) is Unseen
    }
}

/// Each tile of `order` but the first lies next to an earlier one with no
/// mine around it.
pub open spec fn supported(s0: Seq<Slot>, w: int, h: int, order: Seq<(usize, usize)>) -> bool {
    forall|k: int| #![trigger order[k]] 1 <= k < order.len() ==> exists|j: int|
        #![trigger order[j]]
        0 <= j < k && adj_at(s0, w, h, order[j]) == 0 && orthogonal(order[j], order[k])
}

/// `s` is `s0` with exactly the tiles of `order` revealed, each with its mine count.
pub open spec fn revealed_exactly(s0: Seq<Slot>, s: Seq<Slot>, w: int, h: int, order: Seq<(usize, usize)>) -> bool {
    &&& s.len() == s0.len()
    &&& forall|x: int, y: int| #![trigger tile_of(s, w, x, y)] in_bounds(w, h, x, y) ==> tile_of(s, w, x, y) == if order.contains((x as usize, y as usize)) {
        Slot::Discovered(adjacent_mines(s0, w, h, x, y) as usize)
    } else {
        tile_of(s0, w, x, y)
    }
}

/// `s` is what sweeping `start` makes of `s0`: the flood fill from `start`
/// revealed the tiles of `order` and no others, and it stopped only where
/// a revealed tile has a mine around it or its neighbour was not unseen.
pub open spec fn flood_result(s0: Seq<Slot>, s: Seq<Slot>, w: int, h: int, start: (usize, usize), order: Seq<(usize, usize)>) -> bool {
    &&& grown_from(s0, w, h, start, order)
    &&& revealed_exactly(s0, s, w, h, order)
    &&& forall|k: int| #![trigger order[k]] 0 <= k < order.len() && adj_at(s0, w, h, order[k]) == 0
        ==> cascade_closed(s0, w, h, order, order[k])
}

/// `s` and `s2` have the same length and their mines at the same places.
pub open spec fn same_mines(s: Seq<Slot>, s2: Seq<Slot>) -> bool {
    &&& s.len() == s2.len()
    &&& forall|i: int| 0 <= i < s.len() ==> (#[trigger] s[i] is Mine <==> #[trigger] s2[i] is Mine)
}

/// Boards with the same mines have the same mine counts everywhere.
proof fn lemma_same_mines(s: Seq<Slot>, s2: Seq<Slot>, w: int, h: int)
    requires
        same_mines(s, s2),
        s.len() == w * h,
    ensures
        forall|x: int, y: int| #[trigger] mine_at(s2, w, h, x, y) == mine_at(s, w, h, x, y),
        forall|x: int, y: int| #[trigger] adjacent_mines(s2, w, h, x, y) == adjacent_mines(s, w, h, x, y),
{
    assert forall|x: int, y: int| #[trigger] mine_at(s2, w, h, x, y) == mine_at(s, w, h, x, y) by {
        if in_bounds(w, h, x, y) {
            lemma_index(w, h, x, y, x, y);
            assert(s[y * w + x] is Mine <==> s2[y * w + x] is Mine);
        }
    }
}

/// Turning one unseen tile into a tile that is not unseen lowers the count by one.
proof fn lemma_unseen_update(s: Seq<Slot>, i: int, v: Slot)
    requires
        0 <= i < s.len(),
        s[i] is Unseen,
        !(v is Unseen),
    ensures
        count_unseen(s.update(i, v)) + 1 == count_unseen(s),
    decreases s.len(),
{
    let t = s.update(i, v);
    if i == s.len() - 1 {
        assert(t.drop_last() =~= s.drop_last());
    } else {
        assert(t.drop_last() =~= s.drop_last().update(i, v));
        lemma_unseen_update(s.drop_last(), i, v);
    }
}

/// What holds at each step of a flood fill from `start` on board `s0`:
/// `order` has been revealed, `stack` holds revealed tiles with no mine
/// around them whose neighbours are still to be visited, and every other
/// such tile outside `busy` already has its unseen neighbours in `order`.
spec fn flood_inv(
    s0: Seq<Slot>,
    s: Seq<Slot>,
    w: int,
    h: int,
    start: (usize, usize),
    order: Seq<(usize, usize)>,
    stack: Seq<(usize, usize)>,
    busy: Seq<(usize, usize)>,
) -> bool {
    &&& grown_from(s0, w, h, start, order)
    &&& revealed_exactly(s0, s, w, h, order)
    &&& same_mines(s0, s)
    &&& count_unseen(s) + order.len() == count_unseen(s0)
    &&& work_inv(s0, w, h, order, stack, busy)
}

/// The work-list part of the flood fill's invariant.
spec fn work_inv(
    s0: Seq<Slot>,
    w: int,
    h: int,
    order: Seq<(usize, usize)>,
    stack: Seq<(usize, usize)>,
    busy: Seq<(usize, usize)>,
) -> bool {
    &&& forall|i: int| #![trigger stack[i]] 0 <= i < stack.len()
        ==> order.contains(stack[i]) && adj_at(s0, w, h, stack[i]) == 0
    &&& forall|k: int| #![trigger order[k]]
        0 <= k < order.len() && adj_at(s0, w, h, order[k]) == 0
            && !stack.contains(order[k]) && !busy.contains(order[k])
        ==> cascade_closed(s0, w, h, order, order[k])
}

proof fn lemma_push_contains<T>(s: Seq<T>, v: T)
    ensures
        forall|z: T| #[trigger] s.push(v).contains(z) <==> (s.contains(z) || z == v),
{
    assert forall|z: T| #[trigger] s.push(v).contains(z) <==> (s.contains(z) || z == v) by {
        if s.contains(z) {
            let j = choose|j: int| 0 <= j < s.len() && s[j] == z;
            assert(s.push(v)[j] == z);
        }
        if z == v {
            assert(s.push(v)[s.len() as int] == z);
        }
        if s.push(v).contains(z) {
            let j = choose|j: int| 0 <= j < s.push(v).len() && s.push(v)[j] == z;
            if j < s.len() {
                assert(s[j] == z);
            }
        }
    }
}

/// Growing `order` keeps every tile it had opened.
proof fn lemma_closed_grows(
    s0: Seq<Slot>,
    w: int,
    h: int,
    order: Seq<(usize, usize)>,
    order2: Seq<(usize, usize)>,
    p: (usize, usize),
)
    requires
        cascade_closed(s0, w, h, order, p),
        forall|z: (usize, usize)| order.contains(z) ==> #[trigger] order2.contains(z),
    ensures
        cascade_closed(s0, w, h, order2, p),
{
}

/// Taking the last tile `p` off the work list: `p` becomes the one being
/// worked on.
proof fn lemma_pop(
    s0: Seq<Slot>,
    w: int,
    h: int,
    order: Seq<(usize, usize)>,
    before: Seq<(usize, usize)>,
    stack: Seq<(usize, usize)>,
    p: (usize, usize),
)
    requires
        work_inv(s0, w, h, order, before, seq![]),
        before.len() > 0,
        stack == before.drop_last(),
        p == before.last(),
    ensures
        work_inv(s0, w, h, order, stack, seq![p]),
        order.contains(p),
        adj_at(s0, w, h, p) == 0,
{
    assert forall|z: (usize, usize)| before.contains(z) implies #[trigger] stack.contains(z) || seq![p].contains(z) by {
        let k = choose|k: int| 0 <= k < before.len() && before[k] == z;
        if k < stack.len() {
            assert(stack[k] == z);
        } else {
            assert(seq![p][0] == z);
        }
    }
    assert forall|i: int| #![trigger stack[i]] 0 <= i < stack.len()
        implies order.contains(stack[i]) && adj_at(s0, w, h, stack[i]) == 0 by {
        assert(stack[i] == before[i]);
    }
    assert(before[before.len() - 1] == p);
}

/// Once every neighbour of `p` has been visited, `p` is done.
proof fn lemma_release(
    s0: Seq<Slot>,
    w: int,
    h: int,
    order: Seq<(usize, usize)>,
    stack: Seq<(usize, usize)>,
    p: (usize, usize),
)
    requires
        work_inv(s0, w, h, order, stack, seq![p]),
        cascade_closed(s0, w, h, order, p),
    ensures
        work_inv(s0, w, h, order, stack, seq![]),
{
    assert forall|k: int| #![trigger order[k]]
        0 <= k < order.len() && adj_at(s0, w, h, order[k]) == 0
            && !stack.contains(order[k]) && !seq![].contains(order[k])
        implies cascade_closed(s0, w, h, order, order[k]) by {
        if order[k] != p {
            assert(!seq![p].contains(order[k]));
        }
    }
}

/// Appending a tile adds one to the count of its kind.
proof fn lemma_counts_push(s: Seq<Slot>, v: Slot)
    ensures
        count_unseen(s.push(v)) == count_unseen(s) + if v is Unseen { 1nat } else { 0nat },
        count_mines(s.push(v)) == count_mines(s) + if v is Mine { 1nat } else { 0nat },
{
    assert(s.push(v).drop_last() =~= s);
}

/// Relies on `rand::random`: a value drawn from the thread-local generator.
/// Nothing is known of which value comes.  It panics only where the
/// operating system's generator cannot seed the thread-local one.
pub assume_specification<T>[ rand::random::<T> ]() -> (r: T)
    where
        rand::distributions::Standard: rand::distributions::Distribution<T>,
;

impl MSGrid {
    /// The tiles, row by row.
    pub closed spec fn cells(&self) -> Seq<Slot> {
        self.data@
    }

    /// The number of columns.
    pub closed spec fn spec_width(&self) -> int {
        self.width as int
    }

    /// The number of rows.
    pub closed spec fn spec_height(&self) -> int {
        self.height as int
    }

    /// The cursor position, as `(x, y)`.
    pub closed spec fn spec_cursor(&self) -> (int, int) {
        (self.cursor.0 as int, self.cursor.1 as int)
    }

    /// The unseen counter.
    pub closed spec fn spec_unseen(&self) -> int {
        self.num_unseen_tiles as int
    }

    /// The tile at `(x, y)`.
    pub open spec fn tile(&self, x: int, y: int) -> Slot {
        tile_of(self.cells(), self.spec_width(), x, y)
    }

    /// The number of mines around `(x, y)`.
    pub open spec fn adjacent(&self, x: int, y: int) -> int {
        adjacent_mines(self.cells(), self.spec_width(), self.spec_height(), x, y)
    }

    /// `next` is this board after a flood fill from the unseen tile
    /// `start`: same size and cursor, the tiles of some reveal order
    /// uncovered and no others, and the unseen counter lowered by exactly
    /// the number of tiles uncovered.
    pub open spec fn swept(&self, next: &MSGrid, start: (usize, usize)) -> bool {
        &&& next.wf()
        &&& next.spec_width() == self.spec_width()
        &&& next.spec_height() == self.spec_height()
        &&& next.spec_cursor() == self.spec_cursor()
        &&& exists|order: Seq<(usize, usize)>| #[trigger] flood_result(self.cells(), next.cells(), self.spec_width(), self.spec_height(), start, order)
            && next.spec_unseen() + order.len() == self.spec_unseen()
    }

    /// The board is non-empty and stored in full, the cursor is on it, each
    /// revealed tile holds its own mine count, and the unseen counter is the
    /// number of `Unseen` tiles.
    pub open spec fn wf(&self) -> bool {
        &&& self.spec_width() >= 1
        &&& self.spec_height() >= 1
        &&& self.cells().len() == self.spec_width() * self.spec_height()
        &&& in_bounds(self.spec_width(), self.spec_height(), self.spec_cursor().0, self.spec_cursor().1)
        &&& counts_hold(self.cells(), self.spec_width(), self.spec_height())
        &&& self.spec_unseen() == count_unseen(self.cells())
    }

    /// The number of mines on the board.
    pub open spec fn mine_count(&self) -> int {
        count_mines(self.cells()) as int
    }

    /// Moves the cursor one row up, from the top row to the bottom one.
    pub fn move_cursor_up(&mut self)
        requires
            old(self).wf(),
        ensures
            final(self).wf(),
            final(self).cells() == old(self).cells(),
            final(self).spec_width() == old(self).spec_width(),
            final(self).spec_height() == old(self).spec_height(),
            final(self).spec_unseen() == old(self).spec_unseen(),
            final(self).spec_cursor().0 == old(self).spec_cursor().0,
            final(self).spec_cursor().1 == (old(self).spec_cursor().1 - 1 + old(self).spec_height()) % old(self).spec_height(),
            old(self).spec_cursor().1 == 0 ==> final(self).spec_cursor().1 == old(self).spec_height() - 1,
    {
        let h = self.height;
        let c = self.cursor.1;
        self.cursor.1 = if c == 0 { h - 1 } else { c - 1 };
        proof {
            if c == 0 {
                assert((c - 1 + h) % (h as int) == h - 1) by (nonlinear_arith) requires c == 0, h >= 1;
            } else {
                assert((c - 1 + h) % (h as int) == c - 1) by (nonlinear_arith) requires 1 <= c < h;
            }
        }
    }

    /// Moves the cursor one row down, from the bottom row to the top one.
    pub fn move_cursor_down(&mut self)
        requires
            old(self).wf(),
        ensures
            final(self).wf(),
            final(self).cells() == old(self).cells(),
            final(self).spec_width() == old(self).spec_width(),
            final(self).spec_height() == old(self).spec_height(),
            final(self).spec_unseen() == old(self).spec_unseen(),
            final(self).spec_cursor().0 == old(self).spec_cursor().0,
            final(self).spec_cursor().1 == (old(self).spec_cursor().1 + 1) % old(self).spec_height(),
            old(self).spec_cursor().1 == old(self).spec_height() - 1 ==> final(self).spec_cursor().1 == 0,
    {
        let h = self.height;
        let c = self.cursor.1;
        self.cursor.1 = if c + 1 == h { 0 } else { c + 1 };
        proof {
            if c + 1 == h {
                assert((c + 1) % (h as int) == 0) by (nonlinear_arith) requires c + 1 == h, h >= 1;
            } else {
                assert((c + 1) % (h as int) == c + 1) by (nonlinear_arith) requires c + 1 < h;
            }
        }
    }

    /// Moves the cursor one column left, from the first column to the last.
    pub fn move_cursor_left(&mut self)
        requires
            old(self).wf(),
        ensures
            final(self).wf(),
            final(self).cells() == old(self).cells(),
            final(self).spec_width() == old(self).spec_width(),
            final(self).spec_height() == old(self).spec_height(),
            final(self).spec_unseen() == old(self).spec_unseen(),
            final(self).spec_cursor().1 == old(self).spec_cursor().1,
            final(self).spec_cursor().0 == (old(self).spec_cursor().0 - 1 + old(self).spec_width()) % old(self).spec_width(),
            old(self).spec_cursor().0 == 0 ==> final(self).spec_cursor().0 == old(self).spec_width() - 1,
    {
        let w = self.width;
        let c = self.cursor.0;
        self.cursor.0 = if c == 0 { w - 1 } else { c - 1 };
        proof {
            if c == 0 {
                assert((c - 1 + w) % (w as int) == w - 1) by (nonlinear_arith) requires c == 0, w >= 1;
            } else {
                assert((c - 1 + w) % (w as int) == c - 1) by (nonlinear_arith) requires 1 <= c < w;
            }
        }
    }

    /// Moves the cursor one column right, from the last column to the first.
    pub fn move_cursor_right(&mut self)
        requires
            old(self).wf(),
        ensures
            final(self).wf(),
            final(self).cells() == old(self).cells(),
            final(self).spec_width() == old(self).spec_width(),
            final(self).spec_height() == old(self).spec_height(),
            final(self).spec_unseen() == old(self).spec_unseen(),
            final(self).spec_cursor().1 == old(self).spec_cursor().1,
            final(self).spec_cursor().0 == (old(self).spec_cursor().0 + 1) % old(self).spec_width(),
            old(self).spec_cursor().0 == old(self).spec_width() - 1 ==> final(self).spec_cursor().0 == 0,
    {
        let w = self.width;
        let c = self.cursor.0;
        self.cursor.0 = if c + 1 == w { 0 } else { c + 1 };
        proof {
            if c + 1 == w {
                assert((c + 1) % (w as int) == 0) by (nonlinear_arith) requires c + 1 == w, w >= 1;
            } else {
                assert((c + 1) % (w as int) == c + 1) by (nonlinear_arith) requires c + 1 < w;
            }
        }
    }

    /// The index of `(x, y)` in `data`.
    fn index(&self, x: usize, y: usize) -> (r: usize)
        requires
            self.wf(),
            in_bounds(self.spec_width(), self.spec_height(), x as int, y as int),
        ensures
            r == y * self.spec_width() + x,
            r < self.cells().len(),
    {
        let len = self.data.len();
        proof {
            lemma_index(self.width as int, self.height as int, x as int, y as int, x as int, y as int);
            assert(y * self.width <= y * self.width + x);
        }
        y * self.width + x
    }

    /// The tile at `pos`, or `None` where `pos` is off the board.
    pub fn get(&self, pos: (usize, usize)) -> (r: Option<Slot>)
        requires
            self.wf(),
        ensures
            r == if in_bounds(self.spec_width(), self.spec_height(), pos.0 as int, pos.1 as int) {
                Some(self.tile(pos.0 as int, pos.1 as int))
            } else {
                None::<Slot>
            },
    {
        if pos.0 < self.width && pos.1 < self.height {
            let i = self.index(pos.0, pos.1);
            Some(self.data[i])
        } else {
            None
        }
    }

    /// 1 where the tile at `(x, y)` is a mine, else 0.
    fn mine_flag(&self, x: usize, y: usize) -> (r: usize)
        requires
            self.wf(),
            in_bounds(self.spec_width(), self.spec_height(), x as int, y as int),
        ensures
            r == mine_at(self.cells(), self.spec_width(), self.spec_height(), x as int, y as int),
    {
        let i = self.index(x, y);
        match self.data[i] {
            Slot::Mine => 1,
            _ => 0,
        }
    }

    /// The number of mines among the (up to eight) tiles around `pos`,
    /// skipping `pos` itself and every position off the board.
    pub fn num_adjacent_mines_at(&self, pos: (usize, usize)) -> (r: usize)
        requires
            self.wf(),
            in_bounds(self.spec_width(), self.spec_height(), pos.0 as int, pos.1 as int),
        ensures
            r == self.adjacent(pos.0 as int, pos.1 as int),
            r <= 8,
    {
        let (x, y) = pos;
        let left = x > 0;
        let right = x + 1 < self.width;
        let up = y > 0;
        let down = y + 1 < self.height;
        let mut n: usize = 0;
        if up {
            if left {
                n = n + self.mine_flag(x - 1, y - 1);
            }
            n = n + self.mine_flag(x, y - 1);
            if right {
                n = n + self.mine_flag(x + 1, y - 1);
            }
        }
        if left {
            n = n + self.mine_flag(x - 1, y);
        }
        if right {
            n = n + self.mine_flag(x + 1, y);
        }
        if down {
            if left {
                n = n + self.mine_flag(x - 1, y + 1);
            }
            n = n + self.mine_flag(x, y + 1);
            if right {
                n = n + self.mine_flag(x + 1, y + 1);
            }
        }
        n
    }

    /// Reveals the unseen tile at `pos` with its mine count `n`.
    fn uncover(&mut self, pos: (usize, usize), n: usize)
        requires
            old(self).wf(),
            in_bounds(old(self).spec_width(), old(self).spec_height(), pos.0 as int, pos.1 as int),
            old(self).tile(pos.0 as int, pos.1 as int) is Unseen,
            n == old(self).adjacent(pos.0 as int, pos.1 as int),
        ensures
            final(self).wf(),
            final(self).spec_width() == old(self).spec_width(),
            final(self).spec_height() == old(self).spec_height(),
            final(self).spec_cursor() == old(self).spec_cursor(),
            final(self).cells() == old(self).cells().update(
                pos.1 * old(self).spec_width() + pos.0,
                Slot::Discovered(n),
            ),
            same_mines(old(self).cells(), final(self).cells()),
            final(self).spec_unseen() + 1 == old(self).spec_unseen(),
    {
        let ghost s = self.data@;
        let ghost w = self.width as int;
        let ghost h = self.height as int;
        let i = self.index(pos.0, pos.1);
        self.data.set(i, Slot::Discovered(n));
        proof {
            let s2 = self.data@;
            lemma_unseen_update(s, i as int, Slot::Discovered(n));
            lemma_same_mines(s, s2, w, h);
            assert forall|x: int, y: int|
                in_bounds(w, h, x, y) && (#[trigger] tile_of(s2, w, x, y)) is Discovered
                implies tile_of(s2, w, x, y)->Discovered_0 == adjacent_mines(s2, w, h, x, y) by {
                lemma_index(w, h, x, y, pos.0 as int, pos.1 as int);
                if x != pos.0 || y != pos.1 {
                    assert(tile_of(s2, w, x, y) == tile_of(s, w, x, y));
                }
            }
        }
        self.num_unseen_tiles = self.num_unseen_tiles - 1;
    }

    /// One step of the flood fill from the revealed tile `p`, which has no
    /// mine around it: reveals its neighbour `q` if `q` is unseen, and
    /// queues `q` when it has no mine around it either.  Returns the grown
    /// reveal order.
    fn visit(
        &mut self,
        q: (usize, usize),
        stack: &mut Vec<(usize, usize)>,
        Ghost(s0): Ghost<Seq<Slot>>,
        Ghost(start): Ghost<(usize, usize)>,
        Ghost(order): Ghost<Seq<(usize, usize)>>,
        Ghost(p): Ghost<(usize, usize)>,
    ) -> (r: Ghost<Seq<(usize, usize)>>)
        requires
            old(self).wf(),
            in_bounds(old(self).spec_width(), old(self).spec_height(), q.0 as int, q.1 as int),
            flood_inv(s0, old(self).cells(), old(self).spec_width(), old(self).spec_height(), start, order, old(stack)@, seq![p]),
            order.contains(p),
            adj_at(s0, old(self).spec_width(), old(self).spec_height(), p) == 0,
            orthogonal(p, q),
        ensures
            final(self).wf(),
            final(self).spec_width() == old(self).spec_width(),
            final(self).spec_height() == old(self).spec_height(),
            final(self).spec_cursor() == old(self).spec_cursor(),
            flood_inv(s0, final(self).cells(), old(self).spec_width(), old(self).spec_height(), start, r@, final(stack)@, seq![p]),
            forall|z: (usize, usize)| order.contains(z) ==> #[trigger] r@.contains(z),
            opened(s0, old(self).spec_width(), old(self).spec_height(), r@, q.0 as int, q.1 as int),
            final(self).spec_unseen() <= old(self).spec_unseen(),
            final(stack)@.len() + final(self).spec_unseen() <= old(stack)@.len() + old(self).spec_unseen(),
    {
        let ghost w = self.spec_width();
        let ghost h = self.spec_height();
        let ghost s = self.cells();
        let i = self.index(q.0, q.1);
        match self.data[i] {
            Slot::Unseen => {},
            _ => {
                assert(!order.contains(q) ==> tile_of(s, w, q.0 as int, q.1 as int) == tile_of(s0, w, q.0 as int, q.1 as int));
                return Ghost(order);
            },
        }
        assert(tile_of(s, w, q.0 as int, q.1 as int) is Unseen);
        assert(!order.contains(q));
        proof {
            lemma_same_mines(s0, s, w, h);
        }
        let c = self.num_adjacent_mines_at(q);
        self.uncover(q, c);
        let ghost old_stack = stack@;
        if c == 0 {
            stack.push(q);
        }
        let ghost order2 = order.push(q);
        proof {
            let s2 = self.cells();
            lemma_push_contains(order, q);
            // the new tile extends the order
            let j = choose|j: int| 0 <= j < order.len() && order[j] == p;
            assert(order2[j] == p);
            assert forall|k: int| #![trigger order2[k]] 1 <= k < order2.len() implies exists|j: int|
                #![trigger order2[j]]
                0 <= j < k && adj_at(s0, w, h, order2[j]) == 0 && orthogonal(order2[j], order2[k]) by {
                if k < order.len() {
                    let j2 = choose|j2: int| #![trigger order[j2]] 0 <= j2 < k && adj_at(s0, w, h, order[j2]) == 0 && orthogonal(order[j2], order[k]);
                    assert(order2[j2] == order[j2]);
                } else {
                    assert(order2[j] == p);
                }
            }
            assert(grown_from(s0, w, h, start, order2));
            // the board shows exactly the grown order
            assert forall|x: int, y: int| #![trigger tile_of(s2, w, x, y)] in_bounds(w, h, x, y) implies tile_of(s2, w, x, y) == if order2.contains((x as usize, y as usize)) {
                Slot::Discovered(adjacent_mines(s0, w, h, x, y) as usize)
            } else {
                tile_of(s0, w, x, y)
            } by {
                lemma_index(w, h, x, y, q.0 as int, q.1 as int);
                let z = (x as usize, y as usize);
                if x == q.0 && y == q.1 {
                    assert(z == q);
                    assert(order2.contains(z));
                    assert(c == adjacent_mines(s0, w, h, x, y));
                } else {
                    assert(z != q);
                    assert(tile_of(s2, w, x, y) == tile_of(s, w, x, y));
                    assert(order2.contains(z) == order.contains(z));
                }
            }
            assert(revealed_exactly(s0, s2, w, h, order2));
            lemma_unseen_update(s, (q.1 * w + q.0) as int, Slot::Discovered(c));
            assert forall|i: int| #![trigger stack@[i]] 0 <= i < stack@.len()
                implies order2.contains(stack@[i]) && adj_at(s0, w, h, stack@[i]) == 0 by {
                if i < old_stack.len() {
                    assert(stack@[i] == old_stack[i]);
                }
            }
            assert forall|z: (usize, usize)| old_stack.contains(z) implies #[trigger] stack@.contains(z) by {
                let k = choose|k: int| 0 <= k < old_stack.len() && old_stack[k] == z;
                assert(stack@[k] == z);
            }
            if c == 0 {
                assert(stack@[stack@.len() - 1] == q);
            }
            assert forall|k: int| #![trigger order2[k]]
                0 <= k < order2.len() && adj_at(s0, w, h, order2[k]) == 0
                    && !stack@.contains(order2[k]) && !seq![p].contains(order2[k])
                implies cascade_closed(s0, w, h, order2, order2[k]) by {
                if k < order.len() {
                    assert(order2[k] == order[k]);
                    lemma_closed_grows(s0, w, h, order, order2, order[k]);
                }
            }
            assert(flood_inv(s0, s2, w, h, start, order2, stack@, seq![p]));
        }
        Ghost(order2)
    }

    /// Reveals the unseen tile `start` and, through a work list, every
    /// unseen tile that a chain of orthogonal steps over tiles with no mine
    /// around them reaches from it.
    fn sweep_at(&mut self, start: (usize, usize))
        requires
            old(self).wf(),
            in_bounds(old(self).spec_width(), old(self).spec_height(), start.0 as int, start.1 as int),
            old(self).tile(start.0 as int, start.1 as int) is Unseen,
        ensures
            old(self).swept(final(self), start),
    {
        let ghost s0 = self.cells();
        let ghost w = self.spec_width();
        let ghost h = self.spec_height();
        let ghost cur = self.spec_cursor();
        let ghost u0 = self.spec_unseen();
        let n = self.num_adjacent_mines_at(start);
        self.uncover(start, n);
        let ghost mut order: Seq<(usize, usize)> = seq![start];
        let mut stack: Vec<(usize, usize)> = Vec::new();
        if n == 0 {
            stack.push(start);
        }
        proof {
            let s1 = self.cells();
            lemma_index(w, h, start.0 as int, start.1 as int, start.0 as int, start.1 as int);
            lemma_unseen_update(s0, (start.1 * w + start.0) as int, Slot::Discovered(n));
            assert(order.contains(start)) by {
                assert(order[0] == start);
            }
            assert forall|x: int, y: int| #![trigger tile_of(s1, w, x, y)] in_bounds(w, h, x, y) implies tile_of(s1, w, x, y) == if order.contains((x as usize, y as usize)) {
                Slot::Discovered(adjacent_mines(s0, w, h, x, y) as usize)
            } else {
                tile_of(s0, w, x, y)
            } by {
                lemma_index(w, h, x, y, start.0 as int, start.1 as int);
                let z = (x as usize, y as usize);
                if x == start.0 && y == start.1 {
                    assert(z == start);
                } else {
                    assert(z != start);
                    assert(!order.contains(z));
                }
            }
            if n == 0 {
                assert(stack@[0] == start);
                assert(stack@.contains(start));
            }
            assert(flood_inv(s0, s1, w, h, start, order, stack@, seq![]));
        }
        while stack.len() > 0
            invariant
                self.wf(),
                self.spec_width() == w,
                self.spec_height() == h,
                self.spec_cursor() == cur,
                self.spec_unseen() + order.len() == u0,
                u0 == count_unseen(s0),
                flood_inv(s0, self.cells(), w, h, start, order, stack@, seq![]),
            decreases 2 * self.spec_unseen() + stack@.len(),
        {
            let ghost before = stack@;
            let p = stack.pop().unwrap();
            proof {
                lemma_pop(s0, w, h, order, before, stack@, p);
            }
            let (x, y) = p;
            if x > 0 {
                let r = self.visit((x - 1, y), &mut stack, Ghost(s0), Ghost(start), Ghost(order), Ghost(p));
                proof { order = r@; }
            }
            if x + 1 < self.width {
                let r = self.visit((x + 1, y), &mut stack, Ghost(s0), Ghost(start), Ghost(order), Ghost(p));
                proof { order = r@; }
            }
            if y > 0 {
                let r = self.visit((x, y - 1), &mut stack, Ghost(s0), Ghost(start), Ghost(order), Ghost(p));
                proof { order = r@; }
            }
            if y + 1 < self.height {
                let r = self.visit((x, y + 1), &mut stack, Ghost(s0), Ghost(start), Ghost(order), Ghost(p));
                proof { order = r@; }
            }
            proof {
                lemma_release(s0, w, h, order, stack@, p);
            }
        }
        proof {
            assert(flood_result(s0, self.cells(), w, h, start, order));
        }
    }

    /// Sweeps the tile under the cursor.  On a mine nothing changes and the
    /// result is `false`; a tile already revealed stays as it is; an unseen
    /// tile is revealed together with the flood fill from it.
    pub fn try_sweep_at_cursor(&mut self) -> (r: bool)
        requires
            old(self).wf(),
        ensures
            final(self).wf(),
            r == !(old(self).tile(old(self).spec_cursor().0, old(self).spec_cursor().1) is Mine),
            !r ==> *final(self) == *old(self),
            old(self).tile(old(self).spec_cursor().0, old(self).spec_cursor().1) is Discovered
                ==> *final(self) == *old(self),
            old(self).tile(old(self).spec_cursor().0, old(self).spec_cursor().1) is Unseen ==> {
                &&& old(self).swept(final(self), (old(self).spec_cursor().0 as usize, old(self).spec_cursor().1 as usize))
                &&& final(self).spec_unseen() < old(self).spec_unseen()
            },
    {
        let c = self.cursor;
        let i = self.index(c.0, c.1);
        match self.data[i] {
            Slot::Mine => false,
            Slot::Discovered(_) => true,
            Slot::Unseen => {
                self.sweep_at(c);
                true
            },
        }
    }

    /// A board of `dimensions.0` columns and `dimensions.1` rows with a mine
    /// wherever `mines` (row by row) holds `true`, every other tile unseen,
    /// and the cursor at `(0, 0)`.
    pub fn with_mines(dimensions: (usize, usize), mines: &Vec<bool>) -> (r: MSGrid)
        requires
            dimensions.0 >= 1,
            dimensions.1 >= 1,
            dimensions.0 * dimensions.1 <= usize::MAX,
            mines@.len() == dimensions.0 * dimensions.1,
        ensures
            r.wf(),
            r.spec_width() == dimensions.0,
            r.spec_height() == dimensions.1,
            r.spec_cursor() == (0int, 0int),
            r.cells().len() == mines@.len(),
            forall|i: int| 0 <= i < mines@.len() ==> #[trigger] r.cells()[i] == if mines@[i] {
                Slot::Mine
            } else {
                Slot::Unseen
            },
            r.spec_unseen() == dimensions.0 * dimensions.1 - r.mine_count(),
    {
        let (width, height) = dimensions;
        let total = width * height;
        let mut data: Vec<Slot> = Vec::new();
        let mut num_unseen_tiles: usize = 0;
        let mut i: usize = 0;
        while i < total
            invariant
                total == mines@.len(),
                i <= total,
                data@.len() == i,
                forall|j: int| 0 <= j < i ==> #[trigger] data@[j] == if mines@[j] {
                    Slot::Mine
                } else {
                    Slot::Unseen
                },
                num_unseen_tiles == count_unseen(data@),
                count_unseen(data@) + count_mines(data@) == i,
            decreases total - i,
        {
            let v = if mines[i] { Slot::Mine } else { Slot::Unseen };
            proof {
                lemma_counts_push(data@, v);
            }
            data.push(v);
            if !mines[i] {
                num_unseen_tiles = num_unseen_tiles + 1;
            }
            i = i + 1;
        }
        let r = MSGrid { cursor: (0, 0), data, width, height, num_unseen_tiles };
        proof {
            let w = width as int;
            let h = height as int;
            assert forall|x: int, y: int| #![trigger tile_of(r.data@, w, x, y)]
                in_bounds(w, h, x, y) implies !(tile_of(r.data@, w, x, y) is Discovered) by {
                lemma_index(w, h, x, y, x, y);
            }
        }
        r
    }

    /// A board of `dimensions.0` columns and `dimensions.1` rows where each
    /// tile, independently, is a mine with probability
    /// `mine_threshold / 2^32`: a fresh random `u32` is drawn for it and the
    /// tile is a mine when that number is below `mine_threshold`.  Every
    /// other tile is unseen and the cursor is at `(0, 0)`.
    pub fn new(dimensions: (usize, usize), mine_threshold: u64) -> (r: MSGrid)
        requires
            dimensions.0 >= 1,
            dimensions.1 >= 1,
            dimensions.0 * dimensions.1 <= usize::MAX,
        ensures
            r.wf(),
            r.spec_width() == dimensions.0,
            r.spec_height() == dimensions.1,
            r.spec_cursor() == (0int, 0int),
            forall|i: int| 0 <= i < r.cells().len() ==> #[trigger] r.cells()[i] is Mine || r.cells()[i] is Unseen,
            mine_threshold == 0 ==> forall|i: int| 0 <= i < r.cells().len() ==> #[trigger] r.cells()[i] is Unseen,
            mine_threshold > u32::MAX ==> forall|i: int| 0 <= i < r.cells().len() ==> #[trigger] r.cells()[i] is Mine,
            r.spec_unseen() == dimensions.0 * dimensions.1 - r.mine_count(),
    {
        let total = dimensions.0 * dimensions.1;
        let mut mines: Vec<bool> = Vec::new();
        let mut i: usize = 0;
        while i < total
            invariant
                i <= total,
                mines@.len() == i,
                mine_threshold == 0 ==> forall|j: int| 0 <= j < i ==> !(#[trigger] mines@[j]),
                mine_threshold > u32::MAX ==> forall|j: int| 0 <= j < i ==> #[trigger] mines@[j],
            decreases total - i,
        {
            let draw: u32 = rand::random::<u32>();
            mines.push((draw as u64) < mine_threshold);
            i = i + 1;
        }
        MSGrid::with_mines(dimensions, &mines)
    }

    /// What a renderer paints: for each row, for each tile of it, the
    /// tile's symbol and whether the cursor is on it.
    pub fn render(&self, show_mines: bool) -> (r: Vec<Vec<(char, bool)>>)
        requires
            self.wf(),
        ensures
            r@.len() == self.spec_height(),
            forall|y: int| 0 <= y < self.spec_height() ==> (#[trigger] r@[y])@.len() == self.spec_width(),
            forall|x: int, y: int| #![trigger r@[y]@[x]] in_bounds(self.spec_width(), self.spec_height(), x, y)
                ==> r@[y]@[x] == (symbol_of(self.tile(x, y), show_mines), (x, y) == self.spec_cursor()),
    {
        let mut rows: Vec<Vec<(char, bool)>> = Vec::new();
        let mut y: usize = 0;
        while y < self.height
            invariant
                self.wf(),
                y <= self.height,
                rows@.len() == y,
                forall|j: int| 0 <= j < y ==> (#[trigger] rows@[j])@.len() == self.spec_width(),
                forall|x: int, j: int| #![trigger rows@[j]@[x]] 0 <= j < y && 0 <= x < self.spec_width()
                    ==> rows@[j]@[x] == (symbol_of(self.tile(x, j), show_mines), (x, j) == self.spec_cursor()),
            decreases self.height - y,
        {
            let mut row: Vec<(char, bool)> = Vec::new();
            let mut x: usize = 0;
            while x < self.width
                invariant
                    self.wf(),
                    y < self.height,
                    x <= self.width,
                    row@.len() == x,
                    forall|i: int| #![trigger row@[i]] 0 <= i < x
                        ==> row@[i] == (symbol_of(self.tile(i, y as int), show_mines), (i, y as int) == self.spec_cursor()),
                decreases self.width - x,
            {
                let at_cursor = x == self.cursor.0 && y == self.cursor.1;
                let i = self.index(x, y);
                row.push((symbol(self.data[i], show_mines), at_cursor));
                x = x + 1;
            }
            rows.push(row);
            y = y + 1;
        }
        rows
    }

    /// The cursor position, as `(x, y)`.
    pub fn cursor(&self) -> (r: (usize, usize))
        ensures
            (r.0 as int, r.1 as int) == self.spec_cursor(),
    {
        self.cursor
    }

    /// The number of columns.
    pub fn width(&self) -> (r: usize)
        ensures
            r == self.spec_width(),
    {
        self.width
    }

    /// The number of rows.
    pub fn height(&self) -> (r: usize)
        ensures
            r == self.spec_height(),
    {
        self.height
    }

    /// The number of tiles that are neither mines nor revealed.
    pub fn num_unseen_tiles(&self) -> (r: usize)
        ensures
            r == self.spec_unseen(),
    {
        self.num_unseen_tiles
    }

    /// Whether every tile that is not a mine has been revealed.
    pub fn has_won(&self) -> (r: bool)
        requires
            self.wf(),
        ensures
            r == (self.spec_unseen() == 0),
            r == (count_unseen(self.cells()) == 0),
    {
        self.num_unseen_tiles == 0
    }

    /// Applies one input and says where the game stands: `Lost` when a
    /// mine was swept, else `Won` when no unseen tile is left, else
    /// `Playing`.
    pub fn apply_input(&mut self, input: Input) -> (r: Outcome)
        requires
            old(self).wf(),
        ensures
            final(self).wf(),
            final(self).spec_width() == old(self).spec_width(),
            final(self).spec_height() == old(self).spec_height(),
            input is MoveUp ==> final(self).cells() == old(self).cells()
                && final(self).spec_cursor() == (old(self).spec_cursor().0, (old(self).spec_cursor().1 - 1 + old(self).spec_height()) % old(self).spec_height()),
            input is MoveDown ==> final(self).cells() == old(self).cells()
                && final(self).spec_cursor() == (old(self).spec_cursor().0, (old(self).spec_cursor().1 + 1) % old(self).spec_height()),
            input is MoveLeft ==> final(self).cells() == old(self).cells()
                && final(self).spec_cursor() == ((old(self).spec_cursor().0 - 1 + old(self).spec_width()) % old(self).spec_width(), old(self).spec_cursor().1),
            input is MoveRight ==> final(self).cells() == old(self).cells()
                && final(self).spec_cursor() == ((old(self).spec_cursor().0 + 1) % old(self).spec_width(), old(self).spec_cursor().1),
            input is Ignored ==> *final(self) == *old(self),
            input is Sweep ==> {
                let c = old(self).spec_cursor();
                let t = old(self).tile(c.0, c.1);
                &&& !(t is Unseen) ==> *final(self) == *old(self)
                &&& t is Unseen ==> old(self).swept(final(self), (c.0 as usize, c.1 as usize))
            },
            r == if input is Sweep && old(self).tile(old(self).spec_cursor().0, old(self).spec_cursor().1) is Mine {
                Outcome::Lost
            } else if final(self).spec_unseen() == 0 {
                Outcome::Won
            } else {
                Outcome::Playing
            },
    {
        match input {
            Input::MoveUp => self.move_cursor_up(),
            Input::MoveDown => self.move_cursor_down(),
            Input::MoveLeft => self.move_cursor_left(),
            Input::MoveRight => self.move_cursor_right(),
            Input::Sweep => {
                if !self.try_sweep_at_cursor() {
                    return Outcome::Lost;
                }
            },
            Input::Ignored => {},
        }
        if self.has_won() {
            Outcome::Won
        } else {
            Outcome::Playing
        }
    }
}


/// Every index of a row-major board of `w` columns and `h` rows is the
/// index of one of its positions.
proof fn lemma_coords(w: int, h: int, i: int)
    requires
        w >= 1,
        0 <= i < w * h,
    ensures
        in_bounds(w, h, i % w, i / w),
        (i / w) * w + i % w == i,
{
    vstd::arithmetic::div_mod::lemma_fundamental_div_mod(i, w);
    assert(0 <= i % w < w) by (nonlinear_arith)
        requires w >= 1, 0 <= i;
    assert(0 <= i / w < h) by (nonlinear_arith)
        requires w >= 1, 0 <= i < w * h;
    assert((i / w) * w == w * (i / w)) by (nonlinear_arith);
}

/// A sequence with no unseen tile has an unseen count of zero.
proof fn lemma_none_unseen(s: Seq<Slot>)
    requires
        forall|i: int| 0 <= i < s.len() ==> !(#[trigger] s[i] is Unseen),
    ensures
        count_unseen(s) == 0,
    decreases s.len(),
{
    if s.len() > 0 {
        assert forall|i: int| 0 <= i < s.drop_last().len() implies !(#[trigger] s.drop_last()[i] is Unseen) by {
            assert(s.drop_last()[i] == s[i]);
        }
        lemma_none_unseen(s.drop_last());
    }
}

/// The mine count of a corner tile looks at its three neighbours on the
/// board and nothing else: not at the tile itself, and at no position off
/// the board.
pub proof fn lemma_corner_count(s: Seq<Slot>, w: int, h: int, x: int, y: int)
    requires
        w >= 2,
        h >= 2,
        x == 0 || x == w - 1,
        y == 0 || y == h - 1,
    ensures
        ({
            let nx = if x == 0 { 1 } else { w - 2 };
            let ny = if y == 0 { 1 } else { h - 2 };
            adjacent_mines(s, w, h, x, y) == mine_at(s, w, h, nx, y) + mine_at(s, w, h, x, ny) + mine_at(s, w, h, nx, ny)
        }),
        adjacent_mines(s, w, h, x, y) <= 3,
{
}

/// On a board with no mine and nothing revealed, one sweep from any tile
/// reveals every tile, each with count 0, and leaves no unseen tile.
pub proof fn lemma_clear_board_sweep(g0: MSGrid, g1: MSGrid, start: (usize, usize))
    requires
        g0.wf(),
        forall|x: int, y: int| in_bounds(g0.spec_width(), g0.spec_height(), x, y) ==> #[trigger] g0.tile(x, y) is Unseen,
        in_bounds(g0.spec_width(), g0.spec_height(), start.0 as int, start.1 as int),
        g0.swept(&g1, start),
    ensures
        forall|x: int, y: int| in_bounds(g1.spec_width(), g1.spec_height(), x, y) ==> #[trigger] g1.tile(x, y) == Slot::Discovered(0),
        g1.spec_unseen() == 0,
{
    let s0 = g0.cells();
    let s1 = g1.cells();
    let w = g0.spec_width();
    let h = g0.spec_height();
    let order = choose|order: Seq<(usize, usize)>| #[trigger] flood_result(s0, s1, w, h, start, order)
        && g1.spec_unseen() + order.len() == g0.spec_unseen();
    assert forall|x: int, y: int| #[trigger] mine_at(s0, w, h, x, y) == 0 by {
        if in_bounds(w, h, x, y) {
            assert(g0.tile(x, y) is Unseen);
        }
    }
    assert forall|x: int, y: int| #[trigger] adjacent_mines(s0, w, h, x, y) == 0 by {
        assert(mine_at(s0, w, h, x - 1, y - 1) == 0);
    }
    assert forall|x: int, y: int| in_bounds(w, h, x, y) implies #[trigger] tile_of(s0, w, x, y) is Unseen by {
        assert(g0.tile(x, y) is Unseen);
    }
    assert forall|x: int, y: int| in_bounds(w, h, x, y) implies #[trigger] order.contains((x as usize, y as usize)) by {
        lemma_reach(s0, w, h, start, order, x, y);
    }
    assert forall|x: int, y: int| in_bounds(w, h, x, y) implies #[trigger] g1.tile(x, y) == Slot::Discovered(0) by {
        assert(order.contains((x as usize, y as usize)));
        assert(tile_of(s1, w, x, y) == Slot::Discovered(adjacent_mines(s0, w, h, x, y) as usize));
    }
    assert forall|i: int| 0 <= i < s1.len() implies !(#[trigger] s1[i] is Unseen) by {
        lemma_coords(w, h, i);
        assert(g1.tile(i % w, i / w) == Slot::Discovered(0));
    }
    lemma_none_unseen(s1);
}

/// One step of the flood fill over tiles with no mine around them: an
/// unseen neighbour `(x, y)` of a tile `(a, b)` of `order` is in `order`.
proof fn lemma_step(
    s0: Seq<Slot>,
    w: int,
    h: int,
    order: Seq<(usize, usize)>,
    a: int,
    b: int,
    x: int,
    y: int,
)
    requires
        forall|k: int| #![trigger order[k]] 0 <= k < order.len() && adj_at(s0, w, h, order[k]) == 0
            ==> cascade_closed(s0, w, h, order, order[k]),
        forall|x: int, y: int| #[trigger] adjacent_mines(s0, w, h, x, y) == 0,
        w <= usize::MAX,
        h <= usize::MAX,
        in_bounds(w, h, a, b),
        in_bounds(w, h, x, y),
        tile_of(s0, w, x, y) is Unseen,
        order.contains((a as usize, b as usize)),
        (x == a && (y == b + 1 || b == y + 1)) || (y == b && (x == a + 1 || a == x + 1)),
    ensures
        order.contains((x as usize, y as usize)),
{
    let k = choose|k: int| 0 <= k < order.len() && order[k] == (a as usize, b as usize);
    assert(adjacent_mines(s0, w, h, a, b) == 0);
    assert(cascade_closed(s0, w, h, order, order[k]));
}

/// On a board with no mine, every position is reached by the flood fill
/// from `start`.
proof fn lemma_reach(
    s0: Seq<Slot>,
    w: int,
    h: int,
    start: (usize, usize),
    order: Seq<(usize, usize)>,
    x: int,
    y: int,
)
    requires
        order.len() >= 1,
        order[0] == start,
        forall|k: int| #![trigger order[k]] 0 <= k < order.len() && adj_at(s0, w, h, order[k]) == 0
            ==> cascade_closed(s0, w, h, order, order[k]),
        w <= usize::MAX,
        h <= usize::MAX,
        in_bounds(w, h, start.0 as int, start.1 as int),
        in_bounds(w, h, x, y),
        forall|x: int, y: int| #[trigger] adjacent_mines(s0, w, h, x, y) == 0,
        forall|x: int, y: int| in_bounds(w, h, x, y) ==> #[trigger] tile_of(s0, w, x, y) is Unseen,
    ensures
        order.contains((x as usize, y as usize)),
    decreases (if y >= start.1 { y - start.1 } else { start.1 - y }) + (if x >= start.0 { x - start.0 } else { start.0 - x }),
{
    if y > start.1 {
        lemma_reach(s0, w, h, start, order, x, y - 1);
        lemma_step(s0, w, h, order, x, y - 1, x, y);
    } else if y < start.1 {
        lemma_reach(s0, w, h, start, order, x, y + 1);
        lemma_step(s0, w, h, order, x, y + 1, x, y);
    } else if x > start.0 {
        lemma_reach(s0, w, h, start, order, x - 1, y);
        lemma_step(s0, w, h, order, x - 1, y, x, y);
    } else if x < start.0 {
        lemma_reach(s0, w, h, start, order, x + 1, y);
        lemma_step(s0, w, h, order, x + 1, y, x, y);
    } else {
        assert((x as usize, y as usize) == start);
        assert(order[0] == start);
    }
}

/// Every tile of a reveal order that grew from `start` is in any order
/// that is closed in the same way.
proof fn lemma_order_within(
    s0: Seq<Slot>,
    w: int,
    h: int,
    start: (usize, usize),
    o1: Seq<(usize, usize)>,
    o2: Seq<(usize, usize)>,
    k: int,
)
    requires
        w <= usize::MAX,
        h <= usize::MAX,
        o1[0] == start,
        all_unseen(s0, w, h, o1),
        supported(s0, w, h, o1),
        o2.len() >= 1,
        o2[0] == start,
        forall|k: int| #![trigger o2[k]] 0 <= k < o2.len() && adj_at(s0, w, h, o2[k]) == 0
            ==> cascade_closed(s0, w, h, o2, o2[k]),
        0 <= k < o1.len(),
    ensures
        o2.contains(o1[k]),
    decreases k,
{
    if k == 0 {
        assert(o2[0] == o1[0]);
    } else {
        let j = choose|j: int| #![trigger o1[j]] 0 <= j < k && adj_at(s0, w, h, o1[j]) == 0 && orthogonal(o1[j], o1[k]);
        lemma_order_within(s0, w, h, start, o1, o2, j);
        let i = choose|i: int| 0 <= i < o2.len() && o2[i] == o1[j];
        assert(cascade_closed(s0, w, h, o2, o2[i]));
        lemma_closed_neighbour(s0, w, h, o2, o1[j], o1[k]);
    }
}

/// An unseen neighbour of a tile whose neighbours `order` has opened is in `order`.
proof fn lemma_closed_neighbour(
    s0: Seq<Slot>,
    w: int,
    h: int,
    order: Seq<(usize, usize)>,
    p: (usize, usize),
    q: (usize, usize),
)
    requires
        cascade_closed(s0, w, h, order, p),
        orthogonal(p, q),
        in_bounds(w, h, q.0 as int, q.1 as int),
        tile_of(s0, w, q.0 as int, q.1 as int) is Unseen,
    ensures
        order.contains(q),
{
    if q.0 == p.0 && q.1 == p.1 + 1 {
        assert(opened(s0, w, h, order, p.0 as int, p.1 + 1));
    } else if q.0 == p.0 && p.1 == q.1 + 1 {
        assert(opened(s0, w, h, order, p.0 as int, p.1 - 1));
    } else if q.1 == p.1 && q.0 == p.0 + 1 {
        assert(opened(s0, w, h, order, p.0 + 1, p.1 as int));
    } else {
        assert(opened(s0, w, h, order, p.0 - 1, p.1 as int));
    }
}

/// A sweep's result is determined: two boards that both come from sweeping
/// `start` on the same board hold the same tiles and the same unseen count.
pub proof fn lemma_sweep_determined(g0: MSGrid, g1: MSGrid, g2: MSGrid, start: (usize, usize))
    requires
        g0.wf(),
        g0.swept(&g1, start),
        g0.swept(&g2, start),
    ensures
        g1.cells() == g2.cells(),
        g1.spec_unseen() == g2.spec_unseen(),
{
    let s0 = g0.cells();
    let w = g0.spec_width();
    let h = g0.spec_height();
    let o1 = choose|order: Seq<(usize, usize)>| #[trigger] flood_result(s0, g1.cells(), w, h, start, order)
        && g1.spec_unseen() + order.len() == g0.spec_unseen();
    let o2 = choose|order: Seq<(usize, usize)>| #[trigger] flood_result(s0, g2.cells(), w, h, start, order)
        && g2.spec_unseen() + order.len() == g0.spec_unseen();
    assert forall|z: (usize, usize)| #[trigger] o1.contains(z) <==> o2.contains(z) by {
        if o1.contains(z) {
            let k = choose|k: int| 0 <= k < o1.len() && o1[k] == z;
            lemma_order_within(s0, w, h, start, o1, o2, k);
        }
        if o2.contains(z) {
            let k = choose|k: int| 0 <= k < o2.len() && o2[k] == z;
            lemma_order_within(s0, w, h, start, o2, o1, k);
        }
    }
    assert forall|i: int| 0 <= i < g1.cells().len() implies #[trigger] g1.cells()[i] == g2.cells()[i] by {
        lemma_coords(w, h, i);
        let x = i % w;
        let y = i / w;
        assert(tile_of(g1.cells(), w, x, y) == tile_of(g2.cells(), w, x, y));
    }
    assert(g1.cells() =~= g2.cells());
}

} // verus!
