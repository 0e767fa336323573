//! The board: mine layout, adjacency counts, reveals with cascade, flags and
//! the game outcome.
use crate::field::{toggled, Field, FieldState};
use crate::grid::{adjacent, index_of, lemma_index_in_range, to_index};
use vstd::prelude::*;

verus! {

/// Why a call on the board was refused.
#[derive(Clone, Copy, Debug, PartialEq, Eq, Structural)]
pub enum BoardError {
    /// Width or height is zero, or the mine layout does not fit the board.
    InvalidConfig,
    /// The position lies outside the board.
    OutOfBounds,
}

/// State of the game, derived from the cells.
#[derive(Clone, Copy, Debug, PartialEq, Eq, Structural)]
pub enum Outcome {
    InProgress,
    Won,
    Lost,
}

/// Mathematical model of a board.
pub struct BoardModel {
    pub width: nat,
    pub height: nat,
    pub mine_count: nat,
    pub cells: Seq<Field>,
}

/// The indices of the cells that hold a mine.
pub open spec fn mine_set(cells: Seq<Field>) -> Set<int> {
    Set::new(|i: int| 0 <= i < cells.len() && cells[i].is_mine)
}

/// The indices of the mines around cell `i` of a `w` by `h` board.
pub open spec fn mine_neighbors(cells: Seq<Field>, i: int, w: int, h: int) -> Set<int> {
    Set::new(|j: int| adjacent(i, j, w, h) && cells[j].is_mine)
}

/// A safe cell with no mine around it: revealing it cascades.
pub open spec fn zero_cell(f: Field) -> bool {
    !f.is_mine && f.adjacent_mines == 0
}

/// Some mine has been opened.
pub open spec fn is_lost(cells: Seq<Field>) -> bool {
    exists|i: int| 0 <= i < cells.len() && #[trigger] cells[i].is_mine && cells[i].state == FieldState::Opened
}

/// Every safe cell is open and no mine is.
pub open spec fn is_won(cells: Seq<Field>) -> bool {
    &&& !is_lost(cells)
    &&& forall|i: int| 0 <= i < cells.len() && !(#[trigger] cells[i].is_mine) ==> cells[i].state == FieldState::Opened
}

/// The outcome that the cells show.
pub open spec fn outcome_of(cells: Seq<Field>) -> Outcome {
    if is_lost(cells) {
        Outcome::Lost
    } else if is_won(cells) {
        Outcome::Won
    } else {
        Outcome::InProgress
    }
}

/// The indices of the opened cells.
pub open spec fn opened_set(cells: Seq<Field>) -> Set<int> {
    Set::new(|i: int| 0 <= i < cells.len() && cells[i].state == FieldState::Opened)
}

/// The cell as it is once opened.
pub open spec fn opened_cell(f: Field) -> Field {
    Field { state: FieldState::Opened, ..f }
}

/// `post` is `pre` with the cells listed in `opened` opened, each listed once
/// and each closed in `pre`; every other cell is unchanged.
pub open spec fn opens_exactly(pre: Seq<Field>, post: Seq<Field>, opened: Seq<usize>) -> bool {
    &&& post.len() == pre.len()
    &&& opened.no_duplicates()
    &&& forall|k: int|
        0 <= k < opened.len() ==> #[trigger] opened[k] < pre.len() && pre[opened[k] as int].state
            == FieldState::Closed
    &&& forall|i: int|
        0 <= i < pre.len() ==> #[trigger] post[i] == (if opened.contains(i as usize) {
            opened_cell(pre[i])
        } else {
            pre[i]
        })
}

/// Listed cell `t` touches an earlier listed cell with no mine around it.
pub open spec fn touches_earlier_zero(pre: Seq<Field>, opened: Seq<usize>, t: int, w: int, h: int) -> bool {
    exists|u: int|
        0 <= u < t && zero_cell(pre[opened[u] as int]) && #[trigger] adjacent(
            opened[u] as int,
            opened[t] as int,
            w,
            h,
        )
}

/// Each listed cell after the first touches an earlier listed cell with no
/// mine around it: the listed cells form one region grown from the first.
pub open spec fn spreads_from_zeros(pre: Seq<Field>, opened: Seq<usize>, w: int, h: int) -> bool {
    forall|t: int| 0 < t < opened.len() ==> #[trigger] touches_earlier_zero(pre, opened, t, w, h)
}

/// No listed cell with zero adjacent mines keeps a closed neighbour: the
/// region stops only at cells with adjacent mines, at flags and at the edges.
pub open spec fn cascade_complete(
    pre: Seq<Field>,
    post: Seq<Field>,
    opened: Seq<usize>,
    w: int,
    h: int,
) -> bool {
    forall|t: int, j: int|
        0 <= t < opened.len() && zero_cell(pre[opened[t] as int]) && #[trigger] adjacent(
            opened[t] as int,
            j,
            w,
            h,
        ) ==> post[j].state != FieldState::Closed
}

/// What revealing cell `s` does: nothing to a cell that is not closed;
/// otherwise it opens `s` and, from a cell with no adjacent mine, the whole
/// closed region around it, listing the opened cells with `s` first.
pub open spec fn reveal_effect(
    pre: Seq<Field>,
    post: Seq<Field>,
    s: int,
    w: int,
    h: int,
    opened: Seq<usize>,
) -> bool {
    if pre[s].state != FieldState::Closed {
        post == pre && opened.len() == 0
    } else {
        &&& opened.len() > 0
        &&& opened[0] == s
        &&& opens_exactly(pre, post, opened)
        &&& spreads_from_zeros(pre, opened, w, h)
        &&& cascade_complete(pre, post, opened, w, h)
    }
}

impl BoardModel {
    /// The board's invariant: dimensions, flat storage, the mine count and
    /// the adjacency count of every safe cell.
    pub open spec fn wf(self) -> bool {
        &&& self.width > 0
        &&& self.height > 0
        &&& self.width * self.height <= usize::MAX
        &&& self.cells.len() == self.width * self.height
        &&& self.mine_count < self.cells.len()
        &&& mine_set(self.cells).finite()
        &&& mine_set(self.cells).len() == self.mine_count
        &&& forall|i: int| 0 <= i < self.cells.len() ==> (#[trigger] self.cells[i]).index == i
        &&& forall|i: int|
            0 <= i < self.cells.len() && (#[trigger] self.cells[i]).is_mine ==> self.cells[i].adjacent_mines == 0
        &&& forall|i: int|
            0 <= i < self.cells.len() && !(#[trigger] self.cells[i]).is_mine ==> {
                let m = mine_neighbors(self.cells, i, self.width as int, self.height as int);
                m.finite() && self.cells[i].adjacent_mines == m.len()
            }
    }
}

/// A rectangular board of cells in row-major order.
pub struct Board {
    width: usize,
    height: usize,
    mine_count: usize,
    cells: Vec<Field>,
}

/// What a reveal returns: the newly opened indices, the revealed cell first,
/// and the outcome after the reveal.
pub struct RevealResult {
    pub opened: Vec<usize>,
    pub outcome: Outcome,
}

/// What the player may know of a cell: its visibility; whether it is a mine
/// once it is opened or the game is lost; its adjacent mine count once it is
/// opened.
pub struct CellView {
    pub visibility: FieldState,
    pub is_mine: Option<bool>,
    pub adjacent_mine_count: Option<u8>,
}

impl View for Board {
    type V = BoardModel;

    closed spec fn view(&self) -> BoardModel {
        BoardModel {
            width: self.width as nat,
            height: self.height as nat,
            mine_count: self.mine_count as nat,
            cells: self.cells@,
        }
    }
}

/// Boards whose cells agree on where the mines are have the same mine sets.
proof fn lemma_same_mines(a: Seq<Field>, b: Seq<Field>, w: int, h: int)
    requires
        a.len() == b.len(),
        a.len() == w * h,
        forall|i: int| 0 <= i < a.len() ==> (#[trigger] a[i]).is_mine == b[i].is_mine,
    ensures
        mine_set(a) == mine_set(b),
        forall|i: int| #[trigger] mine_neighbors(a, i, w, h) == mine_neighbors(b, i, w, h),
{
    assert(mine_set(a) =~= mine_set(b));
    assert forall|i: int| #[trigger] mine_neighbors(a, i, w, h) == mine_neighbors(b, i, w, h) by {
        assert(mine_neighbors(a, i, w, h) =~= mine_neighbors(b, i, w, h));
    }
}

/// Opening one more closed cell and listing it keeps `opens_exactly`.
proof fn lemma_opens_push(pre: Seq<Field>, cur: Seq<Field>, listed: Seq<usize>, j: usize)
    requires
        opens_exactly(pre, cur, listed),
        pre.len() <= usize::MAX,
        j < pre.len(),
        cur[j as int].state == FieldState::Closed,
    ensures
        !listed.contains(j),
        cur[j as int] == pre[j as int],
        opens_exactly(pre, cur.update(j as int, opened_cell(cur[j as int])), listed.push(j)),
{
    if listed.contains(j) {
        let t = choose|t: int| 0 <= t < listed.len() && listed[t] == j;
        assert(cur[j as int] == opened_cell(pre[j as int]));
    }
    let post = cur.update(j as int, opened_cell(cur[j as int]));
    let opened = listed.push(j);
    assert forall|i: int| 0 <= i < pre.len() implies #[trigger] post[i] == (if opened.contains(i as usize) {
        opened_cell(pre[i])
    } else {
        pre[i]
    }) by {
        if i == j {
            assert(opened[listed.len() as int] == j);
        } else if listed.contains(i as usize) {
            let t = choose|t: int| 0 <= t < listed.len() && listed[t] == i as usize;
            assert(opened[t] == i as usize);
        } else if opened.contains(i as usize) {
            let t = choose|t: int| 0 <= t < opened.len() && opened[t] == i as usize;
            assert(t < listed.len() ==> listed[t] == i as usize);
        }
    }
    assert forall|a: int, b: int| 0 <= a < b < opened.len() implies opened[a] != opened[b] by {
        if b == listed.len() {
            assert(listed[a] == opened[a]);
        } else {
            assert(listed[a] != listed[b]);
        }
    }
    assert forall|k: int| 0 <= k < opened.len() implies #[trigger] opened[k] < pre.len() && pre[opened[k] as int].state
        == FieldState::Closed by {
        if k < listed.len() {
            assert(opened[k] == listed[k]);
        }
    }
}

/// Listing a cell next to a listed cell with no adjacent mine keeps the
/// listed cells one region.
proof fn lemma_spreads_push(pre: Seq<Field>, listed: Seq<usize>, j: usize, u0: int, w: int, h: int)
    requires
        spreads_from_zeros(pre, listed, w, h),
        0 <= u0 < listed.len(),
        zero_cell(pre[listed[u0] as int]),
        adjacent(listed[u0] as int, j as int, w, h),
    ensures
        spreads_from_zeros(pre, listed.push(j), w, h),
{
    let opened = listed.push(j);
    assert forall|t: int| 0 < t < opened.len() implies #[trigger] touches_earlier_zero(pre, opened, t, w, h) by {
        if t == listed.len() {
            assert(opened[u0] == listed[u0]);
            assert(adjacent(opened[u0] as int, opened[t] as int, w, h));
        } else {
            assert(opened[t] == listed[t]);
            assert(touches_earlier_zero(pre, listed, t, w, h));
            let u = choose|u: int|
                0 <= u < t && zero_cell(pre[listed[u] as int]) && #[trigger] adjacent(
                    listed[u] as int,
                    listed[t] as int,
                    w,
                    h,
                );
            assert(opened[u] == listed[u]);
            assert(adjacent(opened[u] as int, opened[t] as int, w, h));
        }
    }
}

/// A list of distinct indices below `n` has at most `n` entries.
proof fn lemma_distinct_below(s: Seq<usize>, n: int)
    requires
        0 <= n,
        s.no_duplicates(),
        forall|k: int| 0 <= k < s.len() ==> #[trigger] s[k] < n,
    ensures
        s.len() <= n,
{
    if s.len() > 0 {
        assert(s[0] < n);
        let m = s.map_values(|v: usize| v as int);
        assert(m.no_duplicates());
        assert forall|v: int| m.to_set().contains(v) implies 0 <= v < n by {
            let k = choose|k: int| 0 <= k < m.len() && m[k] == v;
            assert(s[k] < n);
        }
        m.unique_seq_to_set();
        vstd::set_lib::lemma_int_range(0, n);
        assert(m.to_set().subset_of(vstd::set_lib::set_int_range(0, n)));
        vstd::set_lib::lemma_len_subset(m.to_set(), vstd::set_lib::set_int_range(0, n));
    }
}

/// Number of mines around cell `index`.
fn count_adjacent_mines(cells: &Vec<Field>, index: usize, width: usize, height: usize) -> (r: u8)
    requires
        index < width * height,
        width * height <= usize::MAX,
        cells.len() == width * height,
        cells@[index as int].index == index,
    ensures
        mine_neighbors(cells@, index as int, width as int, height as int).finite(),
        r == mine_neighbors(cells@, index as int, width as int, height as int).len(),
{
    let ghost w = width as int;
    let ghost h = height as int;
    let ghost i = index as int;
    let nb = cells[index].get_neighbour_indixes(width, height);
    proof {
        let sx = crate::grid::span(crate::grid::col_of(i, w), w);
        let sy = crate::grid::span(crate::grid::row_of(i, w), h);
        assert(sx * sy <= 9) by (nonlinear_arith)
            requires
                1 <= sx <= 3,
                1 <= sy <= 3,
        ;
    }
    let ghost mut found: Set<int> = Set::empty();
    assert forall|q: int| adjacent(i, q, w, h) implies q >= nb@[0] by {
        assert(nb@.contains(q as usize));
        let t = choose|t: int| 0 <= t < nb.len() && nb@[t] == q as usize;
        if t > 0 {
            assert(nb@[0] < nb@[t]);
        }
    }
    assert forall|q: int| #[trigger] found.contains(q) <==> (adjacent(i, q, w, h) && cells@[q].is_mine && (0
        == nb.len() || q < nb@[0])) by {
        if adjacent(i, q, w, h) {
            assert(nb@.contains(q as usize));
        }
    }
    let mut count: u8 = 0;
    let mut k: usize = 0;
    while k < nb.len()
        invariant
            nb.len() <= 8,
            k <= nb.len(),
            count <= k,
            forall|j: usize| #[trigger] nb@.contains(j) <==> adjacent(i, j as int, w, h),
            forall|a: int, b: int| 0 <= a < b < nb.len() ==> nb@[a] < nb@[b],
            found.finite(),
            found.len() == count,
            forall|j: int|
                #[trigger] found.contains(j) <==> (adjacent(i, j, w, h) && cells@[j].is_mine && (k
                    == nb.len() || j < nb@[k as int])),
            cells.len() == w * h,
        decreases nb.len() - k,
    {
        let j = nb[k];
        assert(nb@.contains(j));
        if cells[j].is_mine {
            proof {
                found = found.insert(j as int);
            }
            count = count + 1;
        }
        proof {
            assert forall|q: int| #[trigger] found.contains(q) <==> (adjacent(i, q, w, h) && cells@[q].is_mine && (k + 1
                == nb.len() || q < nb@[k + 1])) by {
                if adjacent(i, q, w, h) {
                    assert(nb@.contains(q as usize));
                    let t = choose|t: int| 0 <= t < nb.len() && nb@[t] == q as usize;
                    if t > k + 1 {
                        assert(nb@[k + 1] < nb@[t]);
                    }
                }
            }
        }
        k = k + 1;
    }
    assert(found =~= mine_neighbors(cells@, i, w, h));
    count
}

/// Increment of the seeded generator's state (the golden ratio in 64 bits).
const GAMMA: u64 = 0x9E37_79B9_7F4A_7C15;

/// First multiplier of the generator's output mix.
const MIX1: u64 = 0xBF58_476D_1CE4_E5B9;

/// Second multiplier of the generator's output mix.
const MIX2: u64 = 0x94D0_49BB_1331_11EB;

/// Advances the seeded generator (SplitMix64) and returns its next output.
fn next_random(state: &mut u64) -> u64 {
    *state = state.wrapping_add(GAMMA);
    let mut z = *state;
    z = (z ^ (z >> 30u64)).wrapping_mul(MIX1);
    z = (z ^ (z >> 27u64)).wrapping_mul(MIX2);
    z ^ (z >> 31u64)
}

/// `mine_count` distinct indices below `cell_count`, drawn by a partial
/// Fisher-Yates shuffle driven by a generator seeded with `seed`.
pub fn pick_mines(cell_count: usize, mine_count: usize, seed: u64) -> (r: Vec<usize>)
    requires
        mine_count <= cell_count,
    ensures
        r.len() == mine_count,
        forall|k: int| 0 <= k < r.len() ==> #[trigger] r@[k] < cell_count,
        r@.no_duplicates(),
{
    let mut pool: Vec<usize> = Vec::new();
    let mut i: usize = 0;
    while i < cell_count
        invariant
            pool.len() == i,
            i <= cell_count,
            forall|t: int| 0 <= t < i ==> #[trigger] pool@[t] == t,
        decreases cell_count - i,
    {
        pool.push(i);
        i = i + 1;
    }
    let mut state: u64 = seed;
    let mut k: usize = 0;
    while k < mine_count
        invariant
            pool.len() == cell_count,
            k <= mine_count <= cell_count,
            forall|t: int| 0 <= t < pool.len() ==> #[trigger] pool@[t] < cell_count,
            pool@.no_duplicates(),
        decreases mine_count - k,
    {
        let draw = next_random(&mut state);
        let span = (cell_count - k) as u64;
        let j = k + (draw % span) as usize;
        let a = pool[k];
        let b = pool[j];
        let ghost before = pool@;
        pool.set(k, b);
        pool.set(j, a);
        proof {
            assert forall|x: int, y: int| 0 <= x < y < pool.len() implies pool@[x] != pool@[y] by {
                let ox = if x == k { j as int } else if x == j { k as int } else { x };
                let oy = if y == k { j as int } else if y == j { k as int } else { y };
                assert(pool@[x] == before[ox]);
                assert(pool@[y] == before[oy]);
            }
        }
        k = k + 1;
    }
    pool.truncate(mine_count);
    pool
}

impl Board {
    /// A `width` by `height` board with `mine_count` mines placed at random
    /// from `seed`, every cell closed. Refused when a dimension is zero or
    /// when no safe cell would be left.
    pub fn new(width: usize, height: usize, mine_count: usize, seed: u64) -> (r: Result<Board, BoardError>)
        requires
            width * height <= usize::MAX,
        ensures
            r is Ok <==> (width > 0 && height > 0 && mine_count < width * height),
            r is Err ==> r == Err::<Board, BoardError>(BoardError::InvalidConfig),
            r matches Ok(b) ==> {
                &&& b@.wf()
                &&& b@.width == width
                &&& b@.height == height
                &&& b@.mine_count == mine_count
                &&& mine_set(b@.cells).len() == mine_count
                &&& forall|i: int|
                    0 <= i < b@.cells.len() && !(#[trigger] b@.cells[i]).is_mine ==> b@.cells[i].adjacent_mines
                        == mine_neighbors(b@.cells, i, width as int, height as int).len()
                &&& forall|i: int| 0 <= i < b@.cells.len() ==> (#[trigger] b@.cells[i]).state == FieldState::Closed
            },
    {
        if width == 0 || height == 0 || mine_count >= width * height {
            return Err(BoardError::InvalidConfig);
        }
        let mines = pick_mines(width * height, mine_count, seed);
        Board::with_mines(width, height, &mines)
    }

    /// A board with mines exactly at the indices in `mines`, every cell
    /// closed. Refused when a dimension is zero, when an index is off the
    /// board or repeated, or when no safe cell would be left.
    pub fn with_mines(width: usize, height: usize, mines: &Vec<usize>) -> (r: Result<Board, BoardError>)
        requires
            width * height <= usize::MAX,
        ensures
            r is Ok <==> (width > 0 && height > 0 && mines.len() < width * height && (forall|k: int|
                0 <= k < mines.len() ==> #[trigger] mines@[k] < width * height) && mines@.no_duplicates()),
            r is Err ==> r == Err::<Board, BoardError>(BoardError::InvalidConfig),
            r matches Ok(b) ==> {
                &&& b@.wf()
                &&& b@.width == width
                &&& b@.height == height
                &&& b@.mine_count == mines.len()
                &&& forall|i: int| 0 <= i < b@.cells.len() ==> (#[trigger] b@.cells[i]).state == FieldState::Closed
                &&& forall|i: int|
                    0 <= i < b@.cells.len() ==> ((#[trigger] b@.cells[i]).is_mine <==> mines@.contains(i as usize))
            },
    {
        if width == 0 || height == 0 {
            return Err(BoardError::InvalidConfig);
        }
        let n = width * height;
        let ghost w = width as int;
        let ghost h = height as int;
        if mines.len() >= n {
            return Err(BoardError::InvalidConfig);
        }
        let mut cells: Vec<Field> = Vec::new();
        let mut i: usize = 0;
        while i < n
            invariant
                cells.len() == i,
                i <= n,
                forall|t: int| 0 <= t < i ==> #[trigger] cells@[t] == Field::new_spec(false, t as usize),
            decreases n - i,
        {
            cells.push(Field::new(false, i));
            i = i + 1;
        }
        let ghost mut placed: Set<int> = Set::empty();
        assert(placed =~= mine_set(cells@));
        let mut k: usize = 0;
        while k < mines.len()
            invariant
                n == w * h,
                w == width,
                h == height,
                cells.len() == n,
                k <= mines.len(),
                mines.len() < n,
                forall|t: int|
                    0 <= t < n ==> (#[trigger] cells@[t]).state == FieldState::Closed && cells@[t].index == t
                        && cells@[t].adjacent_mines == 0,
                forall|t: int| 0 <= t < n ==> ((#[trigger] cells@[t]).is_mine <==> mines@.subrange(0, k as int).contains(t as usize)),
                forall|q: int| 0 <= q < k ==> #[trigger] mines@[q] < n,
                mines@.subrange(0, k as int).no_duplicates(),
                placed == mine_set(cells@),
                placed.finite(),
                placed.len() == k,
            decreases mines.len() - k,
        {
            let p = mines[k];
            if p >= n {
                return Err(BoardError::InvalidConfig);
            }
            if cells[p].is_mine {
                proof {
                    let q = choose|q: int| 0 <= q < k && mines@.subrange(0, k as int)[q] == p;
                    assert(mines@[q] == mines@[k as int]);
                }
                return Err(BoardError::InvalidConfig);
            }
            let f = Field { is_mine: true, ..cells[p] };
            cells.set(p, f);
            proof {
                let prev = mines@.subrange(0, k as int);
                assert(mines@.subrange(0, k + 1) =~= prev.push(p));
                assert forall|t: int| 0 <= t < n implies ((#[trigger] cells@[t]).is_mine <==> mines@.subrange(0, k + 1).contains(t as usize)) by {
                    if t == p {
                        assert(mines@.subrange(0, k + 1)[k as int] == p);
                    }
                }
                placed = placed.insert(p as int);
                assert(placed =~= mine_set(cells@));
            }
            k = k + 1;
        }
        assert(mines@.subrange(0, k as int) =~= mines@);
        let ghost layout = cells@;
        let mut i: usize = 0;
        while i < n
            invariant
                n == w * h,
                w == width,
                h == height,
                w * h <= usize::MAX,
                cells.len() == n,
                layout.len() == n,
                i <= n,
                forall|t: int|
                    0 <= t < n ==> (#[trigger] cells@[t]).state == FieldState::Closed && cells@[t].index == t
                        && cells@[t].is_mine == layout[t].is_mine,
                forall|t: int| 0 <= t < n && (#[trigger] cells@[t]).is_mine ==> cells@[t].adjacent_mines == 0,
                forall|t: int|
                    0 <= t < i && !(#[trigger] cells@[t]).is_mine ==> {
                        let m = mine_neighbors(cells@, t, w, h);
                        m.finite() && cells@[t].adjacent_mines == m.len()
                    },
                mine_set(cells@) == mine_set(layout),
            decreases n - i,
        {
            if !cells[i].is_mine {
                let c = count_adjacent_mines(&cells, i, width, height);
                let f = Field { adjacent_mines: c, ..cells[i] };
                let ghost before = cells@;
                cells.set(i, f);
                proof {
                    lemma_same_mines(before, cells@, w, h);
                }
            }
            i = i + 1;
        }
        Ok(Board { width, height, mine_count: mines.len(), cells })
    }

    /// Opens (reveals) the cell at `(x, y)`. A closed cell is opened; from a safe
    /// cell with no adjacent mine the reveal cascades over the closed region
    /// around it. An opened or flagged cell is left alone. Returns the newly
    /// opened indices and the outcome after the reveal.
    pub fn open(&mut self, x: usize, y: usize) -> (r: Result<RevealResult, BoardError>)
        requires
            old(self)@.wf(),
        ensures
            final(self)@.wf(),
            final(self)@.width == old(self)@.width,
            final(self)@.height == old(self)@.height,
            final(self)@.mine_count == old(self)@.mine_count,
            r is Err <==> !(x < old(self)@.width && y < old(self)@.height),
            r is Err ==> r == Err::<RevealResult, BoardError>(BoardError::OutOfBounds) && final(self)@ == old(
                self,
            )@,
            r matches Ok(res) ==> reveal_effect(
                old(self)@.cells,
                final(self)@.cells,
                index_of(x as int, y as int, old(self)@.width as int),
                old(self)@.width as int,
                old(self)@.height as int,
                res.opened@,
            ) && res.outcome == outcome_of(final(self)@.cells),
    {
        let w = self.width;
        let h = self.height;
        if x >= w || y >= h {
            return Err(BoardError::OutOfBounds);
        }
        proof {
            lemma_index_in_range(x as int, y as int, w as int, h as int);
        }
        let s = to_index(x, y, w);
        let mut opened: Vec<usize> = Vec::new();
        if self.cells[s].state != FieldState::Closed {
            let outcome = self.outcome();
            return Ok(RevealResult { opened, outcome });
        }
        let ghost pre = self.cells@;
        let ghost n = pre.len() as int;
        let mut f = self.cells[s];
        f.open();
        self.cells.set(s, f);
        opened.push(s);
        proof {
            assert forall|i: int| 0 <= i < n implies #[trigger] self.cells@[i] == (if opened@.contains(i as usize) {
                opened_cell(pre[i])
            } else {
                pre[i]
            }) by {
                if i == s {
                    assert(opened@[0] == s);
                }
            }
        }
        let mut q: usize = 0;
        while q < opened.len()
            invariant
                self.width == w,
                self.height == h,
                self.mine_count == old(self).mine_count,
                old(self)@.cells == pre,
                old(self)@.wf(),
                n == w * h,
                self.cells.len() == n,
                0 <= s < n,
                q <= opened.len() <= n,
                opened.len() > 0,
                opened@[0] == s,
                pre[s as int].state == FieldState::Closed,
                opens_exactly(pre, self.cells@, opened@),
                spreads_from_zeros(pre, opened@, w as int, h as int),
                forall|t: int, j: int|
                    0 <= t < q && zero_cell(pre[opened@[t] as int]) && #[trigger] adjacent(
                        opened@[t] as int,
                        j,
                        w as int,
                        h as int,
                    ) ==> self.cells@[j].state != FieldState::Closed,
            decreases n - q,
        {
            let c = opened[q];
            let cell = self.cells[c];
            if !cell.is_mine && cell.adjacent_mines == 0 {
                let nb = cell.get_neighbour_indixes(w, h);
                let mut k: usize = 0;
                while k < nb.len()
                    invariant
                        self.width == w,
                        self.height == h,
                        self.mine_count == old(self).mine_count,
                        old(self)@.cells == pre,
                        old(self)@.wf(),
                        n == w * h,
                        self.cells.len() == n,
                        0 <= s < n,
                        q < opened.len() <= n,
                        opened@[q as int] == c,
                        zero_cell(pre[c as int]),
                        k <= nb.len(),
                        opened@[0] == s,
                        pre[s as int].state == FieldState::Closed,
                        forall|j: usize| #[trigger] nb@.contains(j) <==> adjacent(c as int, j as int, w as int, h as int),
                        opens_exactly(pre, self.cells@, opened@),
                        spreads_from_zeros(pre, opened@, w as int, h as int),
                        forall|t: int, j: int|
                            0 <= t < q && zero_cell(pre[opened@[t] as int]) && #[trigger] adjacent(
                                opened@[t] as int,
                                j,
                                w as int,
                                h as int,
                            ) ==> self.cells@[j].state != FieldState::Closed,
                        forall|kk: int| 0 <= kk < k ==> self.cells@[#[trigger] nb@[kk] as int].state != FieldState::Closed,
                    decreases nb.len() - k,
                {
                    let j = nb[k];
                    assert(nb@.contains(j));
                    if self.cells[j].state == FieldState::Closed {
                        let ghost before = self.cells@;
                        let ghost listed = opened@;
                        proof {
                            lemma_opens_push(pre, before, listed, j);
                            lemma_spreads_push(pre, listed, j, q as int, w as int, h as int);
                        }
                        let mut g = self.cells[j];
                        g.open();
                        self.cells.set(j, g);
                        opened.push(j);
                        proof {
                            assert(self.cells@ == before.update(j as int, opened_cell(before[j as int])));
                            assert(opened@ == listed.push(j));
                            lemma_distinct_below(opened@, n);
                            assert(self.cells@[j as int].state == FieldState::Opened);
                            assert forall|kk: int| 0 <= kk < k implies self.cells@[#[trigger] nb@[kk] as int].state != FieldState::Closed by {
                                let v = nb@[kk];
                                assert(nb@.contains(v));
                                assert(before[v as int].state != FieldState::Closed);
                                if v != j {
                                    assert(self.cells@[v as int] == before[v as int]);
                                }
                            }
                        }
                    }
                    k = k + 1;
                }
                proof {
                    assert forall|j: int| #[trigger] adjacent(c as int, j, w as int, h as int) implies self.cells@[j].state != FieldState::Closed by {
                        assert(nb@.contains(j as usize));
                        let kk = choose|kk: int| 0 <= kk < nb.len() && nb@[kk] == j as usize;
                        assert(self.cells@[nb@[kk] as int].state != FieldState::Closed);
                    }
                }
            }
            q = q + 1;
        }
        proof {
            lemma_same_mines(pre, self.cells@, w as int, h as int);
        }
        let outcome = self.outcome();
        Ok(RevealResult { opened, outcome })
    }

    /// The outcome that the cells show: lost once a mine is open, won once
    /// every safe cell is open and no mine is.
    pub fn outcome(&self) -> (r: Outcome)
        ensures
            r == outcome_of(self@.cells),
            r == Outcome::Lost <==> is_lost(self@.cells),
            r == Outcome::Won <==> is_won(self@.cells),
    {
        let mut lost = false;
        let mut all_safe_open = true;
        let mut i: usize = 0;
        while i < self.cells.len()
            invariant
                i <= self.cells.len(),
                lost <==> exists|t: int|
                    0 <= t < i && #[trigger] self.cells@[t].is_mine && self.cells@[t].state == FieldState::Opened,
                all_safe_open <==> forall|t: int|
                    0 <= t < i && !(#[trigger] self.cells@[t].is_mine) ==> self.cells@[t].state == FieldState::Opened,
            decreases self.cells.len() - i,
        {
            let cell = self.cells[i];
            if cell.state == FieldState::Opened {
                if cell.is_mine {
                    lost = true;
                }
            } else if !cell.is_mine {
                all_safe_open = false;
            }
            i = i + 1;
        }
        if lost {
            Outcome::Lost
        } else if all_safe_open {
            Outcome::Won
        } else {
            Outcome::InProgress
        }
    }

    /// Toggles the flag on the cell at `(x, y)`: a closed cell becomes
    /// flagged and a flagged one closed; an opened cell stays as it is.
    /// Returns the cell's new visibility.
    pub fn toggle_flag(&mut self, x: usize, y: usize) -> (r: Result<FieldState, BoardError>)
        requires
            old(self)@.wf(),
        ensures
            final(self)@.wf(),
            r is Err <==> !(x < old(self)@.width && y < old(self)@.height),
            r is Err ==> r == Err::<FieldState, BoardError>(BoardError::OutOfBounds) && final(self)@ == old(self)@,
            r matches Ok(st) ==> {
                let s = index_of(x as int, y as int, old(self)@.width as int);
                let c = old(self)@.cells[s];
                &&& st == toggled(c.state)
                &&& final(self)@ == (BoardModel {
                    cells: old(self)@.cells.update(s, Field { state: toggled(c.state), ..c }),
                    ..old(self)@
                })
                &&& c.state == FieldState::Opened ==> final(self)@ == old(self)@
            },
    {
        let w = self.width;
        let h = self.height;
        if x >= w || y >= h {
            return Err(BoardError::OutOfBounds);
        }
        proof {
            lemma_index_in_range(x as int, y as int, w as int, h as int);
        }
        let s = to_index(x, y, w);
        let ghost pre = self.cells@;
        let mut f = self.cells[s];
        let st = f.toggle_flag();
        self.cells.set(s, f);
        proof {
            lemma_same_mines(pre, self.cells@, w as int, h as int);
            if pre[s as int].state == FieldState::Opened {
                assert(self.cells@ =~= pre);
            }
        }
        Ok(st)
    }

    /// What the player may see of the cell at `(x, y)`.
    pub fn get_cell(&self, x: usize, y: usize) -> (r: Result<CellView, BoardError>)
        requires
            self@.wf(),
        ensures
            r is Err <==> !(x < self@.width && y < self@.height),
            r is Err ==> r == Err::<CellView, BoardError>(BoardError::OutOfBounds),
            r matches Ok(v) ==> {
                let c = self@.cells[index_of(x as int, y as int, self@.width as int)];
                &&& v.visibility == c.state
                &&& v.is_mine == (if c.state == FieldState::Opened || is_lost(self@.cells) {
                    Some(c.is_mine)
                } else {
                    None
                })
                &&& v.adjacent_mine_count == (if c.state == FieldState::Opened {
                    Some(c.adjacent_mines)
                } else {
                    None
                })
            },
    {
        if x >= self.width || y >= self.height {
            return Err(BoardError::OutOfBounds);
        }
        proof {
            lemma_index_in_range(x as int, y as int, self.width as int, self.height as int);
        }
        let c = self.cells[to_index(x, y, self.width)];
        let opened = c.state == FieldState::Opened;
        let is_mine = if opened || self.outcome() == Outcome::Lost {
            Some(c.is_mine)
        } else {
            None
        };
        let adjacent_mine_count = if opened {
            Some(c.adjacent_mines)
        } else {
            None
        };
        Ok(CellView { visibility: c.state, is_mine, adjacent_mine_count })
    }

    /// Number of opened cells.
    pub fn revealed_count(&self) -> (r: usize)
        ensures
            opened_set(self@.cells).finite(),
            r == opened_set(self@.cells).len(),
    {
        let ghost mut seen: Set<int> = Set::empty();
        let mut count: usize = 0;
        let mut i: usize = 0;
        while i < self.cells.len()
            invariant
                i <= self.cells.len(),
                count <= i,
                seen.finite(),
                seen.len() == count,
                seen == Set::new(|t: int| 0 <= t < i && self.cells@[t].state == FieldState::Opened),
            decreases self.cells.len() - i,
        {
            if self.cells[i].state == FieldState::Opened {
                proof {
                    seen = seen.insert(i as int);
                }
                count = count + 1;
            }
            proof {
                assert(seen =~= Set::new(|t: int| 0 <= t < i + 1 && self.cells@[t].state == FieldState::Opened));
            }
            i = i + 1;
        }
        assert(seen =~= opened_set(self@.cells));
        count
    }

    /// Number of columns.
    pub fn width(&self) -> (r: usize)
        ensures
            r == self@.width,
    {
        self.width
    }

    /// Number of rows.
    pub fn height(&self) -> (r: usize)
        ensures
            r == self@.height,
    {
        self.height
    }

    /// Number of mines on the board.
    pub fn mine_count(&self) -> (r: usize)
        ensures
            r == self@.mine_count,
    {
        self.mine_count
    }
}

/// Opening the same cell twice: the second call changes nothing and opens
/// no cell.
pub proof fn lemma_open_twice(
    b0: Seq<Field>,
    b1: Seq<Field>,
    b2: Seq<Field>,
    s: int,
    w: int,
    h: int,
    first: Seq<usize>,
    second: Seq<usize>,
)
    requires
        0 <= s < b0.len(),
        reveal_effect(b0, b1, s, w, h, first),
        reveal_effect(b1, b2, s, w, h, second),
    ensures
        b2 == b1,
        second.len() == 0,
{
    if b0[s].state == FieldState::Closed {
        assert(first[0] == s);
        assert(b1[s] == opened_cell(b0[s]));
    }
}

/// A flagged cell whose flag is toggled off is closed again, and opening it
/// then opens it: it comes first in the list of opened cells.
pub proof fn lemma_unflag_then_open(
    b0: Seq<Field>,
    b1: Seq<Field>,
    b2: Seq<Field>,
    s: int,
    w: int,
    h: int,
    opened: Seq<usize>,
)
    requires
        0 <= s < b0.len(),
        b0[s].state == FieldState::Flagged,
        b1 == b0.update(s, Field { state: toggled(b0[s].state), ..b0[s] }),
        reveal_effect(b1, b2, s, w, h, opened),
    ensures
        b1[s].state == FieldState::Closed,
        opened.len() > 0,
        opened[0] == s,
        b2[s].state == FieldState::Opened,
{
    assert(opened[0] == s);
    assert(b2[s] == opened_cell(b1[s]));
}

} // verus!
