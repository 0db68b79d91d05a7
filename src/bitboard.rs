use vstd::prelude::*;

verus! {

/// Classification of a position by which player, if any, holds four in a row.
#[derive(PartialEq, Eq, Structural, Clone, Copy, Debug)]
pub enum LeafValue {
    Win,
    Loss,
    Draw,
    InProgress,
}

/// A position of the game.
///
/// Cell `7 * c + r` is row `r` of column `c` (row 0 at the bottom); row 6 of
/// each column is a guard bit that is never occupied.
///
/// ```md
///   6 13 20 27 34 41 48   guard row
/// +---------------------+
/// | 5 12 19 26 33 40 47 | top row
/// | 4 11 18 25 32 39 46 |
/// | 3 10 17 24 31 38 45 |
/// | 2  9 16 23 30 37 44 |
/// | 1  8 15 22 29 36 43 |
/// | 0  7 14 21 28 35 42 | bottom row
/// +---------------------+
/// ```
#[derive(Clone, Copy, Debug)]
pub struct GameState {
    /// Occupancy of the first player, then of the second.
    pub bitboard: [u64; 2],
    /// For each column, the cell index of its next free cell.
    pub height: [u8; 7],
    /// True when the first player moves next.
    pub to_play: bool,
    /// Absolute status: `Win` when the first player holds four in a row.
    pub leaf_value: LeafValue,
}

/// Whether cell `i` is set in `b`.
pub open spec fn bit(b: u64, i: int) -> bool {
    0 <= i < 64 && (b >> (i as u64)) & 1 == 1
}

/// Index of the lowest cell of column `c`.
pub open spec fn base(c: int) -> int {
    7 * c
}

/// Index of the guard cell of column `c`: the height of a full column.
pub open spec fn top(c: int) -> int {
    7 * c + 6
}

/// The four line directions: along a column, along a row, and the two diagonals.
pub open spec fn is_direction(d: int) -> bool {
    d == 1 || d == 7 || d == 6 || d == 8
}

/// Four cells `i, i + d, i + 2d, i + 3d` are all set in `b`.
pub open spec fn four_from(b: u64, i: int, d: int) -> bool {
    bit(b, i) && bit(b, i + d) && bit(b, i + 2 * d) && bit(b, i + 3 * d)
}

/// `b` holds four set cells in a line along one of the four directions.
pub open spec fn has_four(b: u64) -> bool {
    exists|i: int, d: int| is_direction(d) && #[trigger] four_from(b, i, d)
}

/// Every column is filled up to its guard cell.
pub open spec fn is_full(height: Seq<u8>) -> bool {
    forall|c: int| 0 <= c < 7 ==> height[c] == top(c)
}

/// The status of a position with occupancies `b1`, `b2` and column heights `height`.
pub open spec fn leaf_of(b1: u64, b2: u64, height: Seq<u8>) -> LeafValue {
    if has_four(b1) {
        LeafValue::Win
    } else if has_four(b2) {
        LeafValue::Loss
    } else if is_full(height) {
        LeafValue::Draw
    } else {
        LeafValue::InProgress
    }
}

/// Each column's height lies between its lowest cell and its guard cell.
pub open spec fn heights_in_range(height: Seq<u8>) -> bool {
    height.len() == 7 && forall|c: int| 0 <= c < 7 ==> base(c) <= #[trigger] height[c] <= top(c)
}

/// Column `c` can take another piece.
pub open spec fn is_legal(height: Seq<u8>, c: int) -> bool {
    0 <= c < 7 && height[c] != top(c)
}

/// The columns among the first `n` that are not full, in ascending order.
pub open spec fn legal_upto(height: Seq<u8>, n: int) -> Seq<usize>
    decreases n,
{
    if n <= 0 {
        seq![]
    } else if height[n - 1] != top(n - 1) {
        legal_upto(height, n - 1).push((n - 1) as usize)
    } else {
        legal_upto(height, n - 1)
    }
}

/// The legal columns of a position with heights `height`, in ascending order.
pub open spec fn legal_columns(height: Seq<u8>) -> Seq<usize> {
    legal_upto(height, 7)
}

/// The columns among the first `n` that are not full are listed exactly
/// once each, in strictly ascending order.
pub proof fn lemma_legal_upto(height: Seq<u8>, n: int)
    requires
        0 <= n <= 7,
    ensures
        forall|x: usize| #[trigger]
            legal_upto(height, n).contains(x) <==> (x < n && height[x as int] != top(x as int)),
        forall|j: int, k: int|
            0 <= j < k < legal_upto(height, n).len() ==> #[trigger] legal_upto(height, n)[j]
                < #[trigger] legal_upto(height, n)[k],
        forall|j: int| 0 <= j < legal_upto(height, n).len() ==> #[trigger] legal_upto(height, n)[j] < n,
    decreases n,
{
    if n > 0 {
        lemma_legal_upto(height, n - 1);
        let prev = legal_upto(height, n - 1);
        if height[n - 1] != top(n - 1) {
            let cur = prev.push((n - 1) as usize);
            assert forall|x: usize| #[trigger] cur.contains(x) <==> (x < n && height[x as int] != top(x as int)) by {
                if x == n - 1 {
                    assert(cur[prev.len() as int] == x);
                }
                if cur.contains(x) && x != n - 1 {
                    let j = choose|j: int| 0 <= j < cur.len() && cur[j] == x;
                    assert(j < prev.len());
                    assert(prev.contains(x));
                }
                if prev.contains(x) {
                    let j = choose|j: int| 0 <= j < prev.len() && prev[j] == x;
                    assert(cur[j] == x);
                }
            }
        }
    }
}

/// The mathematical content of a position: both occupancies, the column
/// heights and the side to move.
pub struct Board {
    pub b1: u64,
    pub b2: u64,
    pub height: Seq<u8>,
    pub to_play: bool,
}

impl View for GameState {
    type V = Board;

    open spec fn view(&self) -> Board {
        Board {
            b1: self.bitboard[0],
            b2: self.bitboard[1],
            height: self.height@,
            to_play: self.to_play,
        }
    }
}

/// The status of a board.
pub open spec fn status(b: Board) -> LeafValue {
    leaf_of(b.b1, b.b2, b.height)
}

/// The board after the player to move drops a piece in column `c`.
pub open spec fn play(b: Board, c: int) -> Board {
    let cell = 1u64 << (b.height[c] as u64);
    Board {
        b1: if b.to_play { b.b1 ^ cell } else { b.b1 },
        b2: if b.to_play { b.b2 } else { b.b2 ^ cell },
        height: b.height.update(c, (b.height[c] + 1) as u8),
        to_play: !b.to_play,
    }
}

/// The heights are in range and the stored status agrees with the board.
pub open spec fn wf(s: GameState) -> bool {
    heights_in_range(s@.height) && s.leaf_value == status(s@)
}

/// Every cell from `lo` up to, not including, `hi` is set in `b`.
pub open spec fn filled(b: u64, lo: int, hi: int) -> bool {
    forall|i: int| lo <= i < hi ==> bit(b, i)
}

/// `height` holds, for each column, the length of the run of set cells of
/// `combined` that starts at the column's lowest cell, stopped at the guard
/// cell: the heights scanned from a combined occupancy.
pub open spec fn heights_of(combined: u64, height: Seq<u8>) -> bool {
    &&& heights_in_range(height)
    &&& forall|c: int| 0 <= c < 7 ==> filled(combined, base(c), #[trigger] height[c] as int)
    &&& forall|c: int|
        0 <= c < 7 && #[trigger] height[c] < top(c) ==> !bit(combined, height[c] as int)
}

/// Number of set cells among the first `n` cells of `b`.
pub open spec fn ones_below(b: u64, n: int) -> nat
    decreases n,
{
    if n <= 0 {
        0
    } else {
        ones_below(b, n - 1) + if bit(b, n - 1) { 1nat } else { 0nat }
    }
}

/// Number of set cells of `b`.
pub open spec fn popcount(b: u64) -> nat {
    ones_below(b, 64)
}

/// Number of pieces in an occupancy.
pub(crate) fn count_ones(binary: u64) -> (count: u8)
    ensures
        count == popcount(binary),
        count <= 64,
{
    let mut count: u8 = 0;
    let mut i: u64 = 0;
    while i < 64
        invariant
            i <= 64,
            count == ones_below(binary, i as int),
            count <= i,
        decreases 64 - i,
    {
        if (binary >> i) & 1 == 1 {
            count = count + 1;
        }
        i = i + 1;
    }
    count
}

/// Heights recovered from the combined occupancy: each column is scanned
/// upward from its lowest cell while the cell is set, at most up to its
/// guard cell.
fn get_height(combined: u64) -> (height: [u8; 7])
    ensures
        heights_of(combined, height@),
{
    let mut height: [u8; 7] = [0, 7, 14, 21, 28, 35, 42];
    let mut col: usize = 0;
    while col < 7
        invariant
            col <= 7,
            forall|c: int| 0 <= c < 7 ==> base(c) <= #[trigger] height[c] <= top(c),
            forall|c: int| col <= c < 7 ==> #[trigger] height[c] == base(c),
            forall|c: int| 0 <= c < col ==> filled(combined, base(c), #[trigger] height[c] as int),
            forall|c: int| 0 <= c < col && #[trigger] height[c] < top(c) ==> !bit(combined, height[c] as int),
        decreases 7 - col,
    {
        let mut row: u8 = 0;
        while row < 6 && (1u64 << height[col]) & combined != 0
            invariant
                col < 7,
                row <= 6,
                height[col as int] == base(col as int) + row,
                forall|c: int| 0 <= c < 7 ==> base(c) <= #[trigger] height[c] <= top(c),
                forall|c: int| col < c < 7 ==> #[trigger] height[c] == base(c),
                forall|c: int| 0 <= c < col ==> filled(combined, base(c), #[trigger] height[c] as int),
                forall|c: int| 0 <= c < col && #[trigger] height[c] < top(c) ==> !bit(combined, height[c] as int),
                filled(combined, base(col as int), height[col as int] as int),
            decreases 6 - row,
        {
            let h = height[col];
            proof {
                lemma_single_bit(combined, h as u64);
            }
            height[col] = h + 1;
            row = row + 1;
        }
        proof {
            let h = height[col as int];
            if row < 6 {
                lemma_single_bit(combined, h as u64);
            }
        }
        col = col + 1;
    }
    height
}

/// A mask of the single cell `i` meets `b` exactly when cell `i` is set.
proof fn lemma_single_bit(b: u64, i: u64)
    requires
        i < 64,
    ensures
        ((1u64 << i) & b != 0) == bit(b, i as int),
{
    assert(((1u64 << i) & b != 0) == ((b >> i) & 1 == 1)) by (bit_vector)
        requires
            i < 64,
    ;
}

/// A nonzero word has a set cell, and a word with a set cell is nonzero.
proof fn lemma_nonzero_has_bit(y: u64)
    ensures
        (y != 0) == (exists|i: int| bit(y, i)),
{
    if y != 0 {
        assert(y >> 0u64 == y) by (bit_vector);
        lemma_bit_at_or_above(y, 0);
    } else {
        assert forall|i: int| !bit(y, i) by {
            if 0 <= i < 64 {
                let k = i as u64;
                assert(y == 0 ==> (y >> k) & 1 == 0) by (bit_vector);
            }
        }
    }
}

/// A word with a set cell at or above `k` has a set cell.
proof fn lemma_bit_at_or_above(y: u64, k: u64)
    requires
        k < 64,
        y >> k != 0,
    ensures
        exists|i: int| bit(y, i),
    decreases 64 - k,
{
    if (y >> k) & 1 == 1 {
        assert(bit(y, k as int));
    } else {
        assert(k < 64 && y >> k != 0 && (y >> k) & 1 != 1 ==> k < 63 && (y >> ((k + 1) as u64)) != 0) by (bit_vector);
        lemma_bit_at_or_above(y, (k + 1) as u64);
    }
}

/// The double shift-and test along direction `d`.
fn four_in_direction(b: u64, d: u64) -> (r: bool)
    requires
        is_direction(d as int),
    ensures
        r == exists|i: int| #[trigger] four_from(b, i, d as int),
{
    assert((d << 1) == 2 * d) by (bit_vector)
        requires
            d <= 8,
    ;
    let x = b & (b >> d);
    let y = x & (x >> (d << 1));
    proof {
        assert forall|i: int| #![trigger bit(y, i)] #![trigger four_from(b, i, d as int)]
            bit(y, i) == four_from(b, i, d as int) by {
            if 0 <= i < 64 {
                let k = i as u64;
                assert(1 <= d <= 8 && k < 64 ==> (((y >> k) & 1 == 1) == (
                    (k + 3 * d < 64) && (b >> k) & 1 == 1 && (b >> ((k + d) as u64)) & 1 == 1
                        && (b >> ((k + 2 * d) as u64)) & 1 == 1 && (b >> ((k + 3 * d) as u64)) & 1 == 1)))
                    by (bit_vector)
                    requires
                        x == b & (b >> d),
                        y == x & (x >> (d << 1)),
                ;
            }
        }
        lemma_nonzero_has_bit(y);
        if y != 0 {
            let i = choose|i: int| bit(y, i);
            assert(four_from(b, i, d as int));
        }
    }
    y != 0
}

/// Four in a row along any direction, tested with one double shift-and
/// per direction.
fn is_win(bitboard: &u64) -> (r: bool)
    ensures
        r == has_four(*bitboard),
{
    let b = *bitboard;
    let v = four_in_direction(b, 1);
    let h = four_in_direction(b, 7);
    let d1 = four_in_direction(b, 6);
    let d2 = four_in_direction(b, 8);
    proof {
        if has_four(b) {
            let (i, d) = choose|i: int, d: int| is_direction(d) && #[trigger] four_from(b, i, d);
            assert(four_from(b, i, d));
        }
    }
    v || h || d1 || d2
}

/// Every column is filled up to its guard cell: no move is left.
fn is_draw(height: &[u8; 7]) -> (r: bool)
    ensures
        r == is_full(height@),
{
    let tops: [u8; 7] = [6, 13, 20, 27, 34, 41, 48];
    let mut c: usize = 0;
    while c < 7
        invariant
            c <= 7,
            tops@ == seq![6u8, 13, 20, 27, 34, 41, 48],
            forall|j: int| 0 <= j < c ==> #[trigger] height[j] == top(j),
        decreases 7 - c,
    {
        if height[c] != tops[c] {
            assert(tops[c as int] == top(c as int));
            return false;
        }
        c = c + 1;
    }
    true
}

/// Status of a position: a four of the first player first, then one of the
/// second, then a full board.
fn get_leaf_value(bitboard1: u64, bitboard2: u64, height: [u8; 7]) -> (r: LeafValue)
    ensures
        r == leaf_of(bitboard1, bitboard2, height@),
{
    if is_win(&bitboard1) {
        return LeafValue::Win;
    }
    if is_win(&bitboard2) {
        return LeafValue::Loss;
    }
    if is_draw(&height) {
        return LeafValue::Draw;
    }
    LeafValue::InProgress
}

/// Build a position from a pair of occupancies.
///
/// The occupancies are not checked to form a position that play can reach;
/// the heights are scanned from their union and the side to move follows the
/// parity of the number of pieces.
pub fn create_game_state(bitboard1: u64, bitboard2: u64) -> (r: GameState)
    ensures
        wf(r),
        r@.b1 == bitboard1,
        r@.b2 == bitboard2,
        heights_of(bitboard1 | bitboard2, r@.height),
        r.to_play == (popcount(bitboard1 | bitboard2) % 2 == 0),
{
    let height = get_height(bitboard1 | bitboard2);
    GameState {
        bitboard: [bitboard1, bitboard2],
        height,
        to_play: count_ones(bitboard1 | bitboard2) % 2 == 0,
        leaf_value: get_leaf_value(bitboard1, bitboard2, height),
    }
}

/// Drop a piece of the player to move in `column`.
pub fn play_move(state: &GameState, column: usize) -> (r: GameState)
    requires
        heights_in_range(state@.height),
        is_legal(state@.height, column as int),
    ensures
        r@ == play(state@, column as int),
        wf(r),
{
    let h = state.height[column];
    assert(h < 48);
    let new_move: u64 = 1u64 << h;
    let new_board: [u64; 2] = if state.to_play {
        [state.bitboard[0] ^ new_move, state.bitboard[1]]
    } else {
        [state.bitboard[0], state.bitboard[1] ^ new_move]
    };
    let mut new_height = state.height;
    new_height[column] = h + 1;
    let leaf_value = if is_win(&new_board[0]) {
        LeafValue::Win
    } else if is_win(&new_board[1]) {
        LeafValue::Loss
    } else if is_draw(&new_height) {
        LeafValue::Draw
    } else {
        LeafValue::InProgress
    };
    let r = GameState { bitboard: new_board, height: new_height, to_play: !state.to_play, leaf_value };
    proof {
        assert(r@.height =~= play(state@, column as int).height);
        assert forall|c: int| 0 <= c < 7 implies base(c) <= #[trigger] r@.height[c] <= top(c) by {
            if c != column {
                assert(r@.height[c] == state@.height[c]);
            }
        }
    }
    r
}

/// The columns that are not full, in ascending order.
pub fn get_legal_moves(height: [u8; 7]) -> (legal_moves: Vec<usize>)
    ensures
        legal_moves@ == legal_columns(height@),
{
    let tops: [u8; 7] = [6, 13, 20, 27, 34, 41, 48];
    let mut legal_moves: Vec<usize> = Vec::new();
    let mut col: usize = 0;
    while col < 7
        invariant
            col <= 7,
            tops@ == seq![6u8, 13, 20, 27, 34, 41, 48],
            legal_moves@ == legal_upto(height@, col as int),
        decreases 7 - col,
    {
        assert(tops[col as int] == top(col as int));
        if tops[col] != height[col] {
            legal_moves.push(col);
        }
        col = col + 1;
    }
    legal_moves
}

/// The legal columns are listed in ascending order, each exactly when it is
/// not full, and there are none exactly when every column is full.
pub proof fn lemma_legal_columns(height: Seq<u8>)
    ensures
        forall|c: usize| #[trigger] legal_columns(height).contains(c) <==> is_legal(height, c as int),
        forall|j: int, k: int|
            0 <= j < k < legal_columns(height).len() ==> #[trigger] legal_columns(height)[j]
                < #[trigger] legal_columns(height)[k],
        (legal_columns(height).len() == 0) == is_full(height),
{
    lemma_legal_upto(height, 7);
    let l = legal_columns(height);
    if l.len() == 0 {
        assert forall|c: int| 0 <= c < 7 implies height[c] == top(c) by {
            if height[c] != top(c) {
                assert(l.contains(c as usize));
            }
        }
    }
    if l.len() > 0 {
        assert(l.contains(l[0]));
    }
}

/// The board before any move.
pub open spec fn empty_board() -> Board {
    Board { b1: 0, b2: 0, height: seq![0u8, 7, 14, 21, 28, 35, 42], to_play: true }
}

/// Union of both occupancies.
pub open spec fn combined(b: Board) -> u64 {
    b.b1 | b.b2
}

/// Cell `i` is occupied exactly when it lies on the board below its
/// column's height.
pub open spec fn cell_agrees(b: Board, i: int) -> bool {
    bit(combined(b), i) <==> (i < 49 && i < b.height[i / 7])
}

/// The occupancies are disjoint, in each column exactly the cells below its
/// height are occupied, and no cell beyond the last column is.
pub open spec fn consistent(b: Board) -> bool {
    &&& heights_in_range(b.height)
    &&& b.b1 & b.b2 == 0
    &&& forall|i: int| 0 <= i < 64 ==> #[trigger] cell_agrees(b, i)
}

/// The first player has as many pieces as the second, or one more.
pub open spec fn balanced(b1: u64, b2: u64) -> bool {
    popcount(b1) == popcount(b2) || popcount(b1) == popcount(b2) + 1
}

/// Whether a position's occupancies agree with its heights: disjoint, each
/// column filled exactly below its height, nothing beyond the last column.
pub fn is_consistent(state: &GameState) -> (r: bool)
    requires
        heights_in_range(state@.height),
    ensures
        r == consistent(state@),
{
    if state.bitboard[0] & state.bitboard[1] != 0 {
        return false;
    }
    let occupied = state.bitboard[0] | state.bitboard[1];
    let mut i: u64 = 0;
    while i < 64
        invariant
            i <= 64,
            heights_in_range(state@.height),
            occupied == combined(state@),
            forall|j: int| 0 <= j < i ==> #[trigger] cell_agrees(state@, j),
        decreases 64 - i,
    {
        let set = (occupied >> i) & 1 == 1;
        let expected = i < 49 && (i as u8) < state.height[(i / 7) as usize];
        if set != expected {
            assert(!cell_agrees(state@, i as int));
            return false;
        }
        i = i + 1;
    }
    true
}

/// What every board built by moves from the empty board satisfies:
/// consistent, with the first player to move after an even number of pieces.
pub open spec fn reachable(b: Board) -> bool {
    consistent(b) && b.to_play == (popcount(combined(b)) % 2 == 0)
}

/// Setting cell `h` sets that cell and leaves the others as they were.
proof fn lemma_bit_or_cell(x: u64, h: u64, i: int)
    requires
        h < 64,
    ensures
        bit(x | (1u64 << h), i) == (bit(x, i) || i == h),
{
    if 0 <= i < 64 {
        let k = i as u64;
        assert(h < 64 && k < 64 ==> (((x | (1u64 << h)) >> k) & 1 == 1) == (((x >> k) & 1 == 1) || k == h))
            by (bit_vector);
    }
}

/// Setting a free cell adds one to the count of the cells above it.
proof fn lemma_ones_or_cell(x: u64, h: u64, n: int)
    requires
        h < 64,
        !bit(x, h as int),
        0 <= n <= 64,
    ensures
        ones_below(x | (1u64 << h), n) == ones_below(x, n) + (if h < n { 1nat } else { 0nat }),
    decreases n,
{
    if n > 0 {
        lemma_ones_or_cell(x, h, n - 1);
        lemma_bit_or_cell(x, h, n - 1);
    }
}

/// The empty board is reachable.
pub proof fn lemma_empty_reachable()
    ensures
        reachable(empty_board()),
        status(empty_board()) == LeafValue::InProgress,
{
    let b = empty_board();
    assert(0u64 | 0u64 == 0u64) by (bit_vector);
    assert(0u64 & 0u64 == 0u64) by (bit_vector);
    assert forall|i: int| 0 <= i < 64 implies #[trigger] cell_agrees(b, i) by {
        let k = i as u64;
        assert((0u64 >> k) & 1 == 0) by (bit_vector);
        if i < 49 {
            assert(b.height[i / 7] == 7 * (i / 7));
        }
    }
    assert(popcount(0) == 0) by {
        lemma_ones_zero(64);
    }
    assert forall|i: int, d: int| is_direction(d) implies !#[trigger] four_from(0, i, d) by {
        if 0 <= i < 64 {
            let k = i as u64;
            assert((0u64 >> k) & 1 == 0) by (bit_vector);
        }
    }
    assert(b.height[0] != top(0));
}

/// The empty word has no set cell.
proof fn lemma_ones_zero(n: int)
    requires
        0 <= n <= 64,
    ensures
        ones_below(0, n) == 0,
    decreases n,
{
    if n > 0 {
        lemma_ones_zero(n - 1);
        let k = (n - 1) as u64;
        assert((0u64 >> k) & 1 == 0) by (bit_vector);
    }
}

/// A legal move on a reachable board gives a reachable board whose union of
/// occupancies differs from the old one in exactly the played cell.
pub proof fn lemma_play_reachable(b: Board, c: int)
    requires
        reachable(b),
        is_legal(b.height, c),
    ensures
        reachable(play(b, c)),
        combined(play(b, c)) ^ combined(b) == 1u64 << (b.height[c] as u64),
        !bit(combined(b), b.height[c] as int),
{
    let h = b.height[c] as u64;
    let n = play(b, c);
    let cell = 1u64 << h;
    assert((h as int) / 7 == c);
    assert(cell_agrees(b, h as int));
    assert(!bit(combined(b), h as int));
    lemma_single_bit(combined(b), h);
    let b1 = b.b1;
    let b2 = b.b2;
    assert(cell & (b1 | b2) == 0);
    if b.to_play {
        assert(b1 & b2 == 0 && cell & (b1 | b2) == 0 ==> ((b1 ^ cell) | b2) == ((b1 | b2) | cell) && (b1
            ^ cell) & b2 == 0) by (bit_vector);
    } else {
        assert(b1 & b2 == 0 && cell & (b1 | b2) == 0 ==> (b1 | (b2 ^ cell)) == ((b1 | b2) | cell) && b1
            & (b2 ^ cell) == 0) by (bit_vector);
    }
    assert(combined(n) == combined(b) | cell);
    let x = combined(b);
    assert(cell & x == 0 ==> (x | cell) ^ x == cell) by (bit_vector);
    assert(combined(n) ^ combined(b) == cell);
    assert forall|i: int| 0 <= i < 64 implies #[trigger] cell_agrees(n, i) by {
        lemma_bit_or_cell(x, h, i);
        assert(cell_agrees(b, i));
    }
    assert forall|j: int| 0 <= j < 7 implies base(j) <= #[trigger] n.height[j] <= top(j) by {
        assert(base(j) <= b.height[j] <= top(j));
    }
    lemma_ones_or_cell(x, h, 64);
}

/// Rebuilding a reachable board from its two occupancies, as
/// `create_game_state` does (heights scanned from their union, side to move
/// from the parity of the piece count), gives back its heights and its side
/// to move.
pub proof fn lemma_derived_matches(b: Board, height: Seq<u8>, to_play: bool)
    requires
        reachable(b),
        heights_of(combined(b), height),
        to_play == (popcount(combined(b)) % 2 == 0),
    ensures
        height == b.height,
        to_play == b.to_play,
{
    let x = combined(b);
    assert forall|c: int| 0 <= c < 7 implies #[trigger] height[c] == b.height[c] by {
        let hc = height[c] as int;
        let bc = b.height[c] as int;
        if hc < bc {
            assert(hc / 7 == c);
            assert(cell_agrees(b, hc));
            assert(bit(x, hc));
        } else if hc > bc {
            assert(filled(x, base(c), hc));
            assert(bit(x, bc));
            assert(bc / 7 == c);
            assert(cell_agrees(b, bc));
        }
    }
    assert(height =~= b.height);
}

} // verus!
