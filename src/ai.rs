use vstd::prelude::*;

use crate::bitboard::{
    bit, get_legal_moves, heights_in_range, is_legal, legal_columns, lemma_legal_columns, lemma_legal_upto, play,
    play_move, status, wf, Board, GameState, LeafValue,
};

verus! {

/// For each of the 48 cells below the guard row, the number of
/// four-in-a-row lines through it; guard cells weigh 0.
pub open spec fn cell_weights() -> Seq<i32> {
    seq![
        3, 4, 5, 5, 4, 3, 0, 4, 6, 8, 8, 6, 4, 0, 5, 8, 11, 11, 8, 5, 0, 7, 10, 13, 13, 10, 7, 0,
        5, 8, 11, 11, 8, 5, 0, 4, 6, 8, 8, 6, 4, 0, 3, 4, 5, 5, 4, 3,
    ]
}

/// Weighted cell count of the first player minus that of the second, over
/// the first `n` cells.
pub open spec fn score_upto(p1: u64, p2: u64, n: int) -> int
    decreases n,
{
    if n <= 0 {
        0
    } else {
        score_upto(p1, p2, n - 1) + (if bit(p1, n - 1) { cell_weights()[n - 1] as int } else { 0 }) - (
        if bit(p2, n - 1) {
            cell_weights()[n - 1] as int
        } else {
            0
        })
    }
}

/// The static score of a pair of occupancies: positive favours the first player.
pub open spec fn score(p1: u64, p2: u64) -> int {
    score_upto(p1, p2, 48)
}

/// The static score of a board.
pub open spec fn board_score(b: Board) -> int {
    score(b.b1, b.b2)
}

/// Every cell weight lies between 0 and 13.
proof fn lemma_weights_bounded()
    ensures
        cell_weights().len() == 48,
        forall|i: int| 0 <= i < 48 ==> 0 <= #[trigger] cell_weights()[i] <= 13,
{
}

/// Sum of the weights of the first `n` cells.
pub open spec fn weight_sum(n: int) -> int
    decreases n,
{
    if n <= 0 {
        0
    } else {
        weight_sum(n - 1) + cell_weights()[n - 1] as int
    }
}

/// Over `n` cells the score stays within the sum of their weights of zero.
proof fn lemma_score_bounded(p1: u64, p2: u64, n: int)
    requires
        0 <= n <= 48,
    ensures
        -weight_sum(n) <= score_upto(p1, p2, n) <= weight_sum(n),
    decreases n,
{
    if n > 0 {
        lemma_weights_bounded();
        lemma_score_bounded(p1, p2, n - 1);
    }
}

/// The weights of all 48 cells add up to 276.
proof fn lemma_weight_total()
    ensures
        weight_sum(48) == 276,
{
    reveal_with_fuel(weight_sum, 49);
}

/// A static score lies within 276 of zero.
proof fn lemma_score_range(p1: u64, p2: u64)
    ensures
        -276 <= score(p1, p2) <= 276,
{
    lemma_score_bounded(p1, p2, 48);
    lemma_weight_total();
}

/// The static score of a position: the sum of the weights of the first
/// player's cells minus that of the second player's.
pub fn heuristic_evaluation(p1: u64, p2: u64) -> (evaluation: i32)
    ensures
        evaluation == score(p1, p2),
        -276 <= evaluation <= 276,
{
    let win_map: [i32; 48] = [
        3, 4, 5, 5, 4, 3, 0, 4, 6, 8, 8, 6, 4, 0, 5, 8, 11, 11, 8, 5, 0, 7, 10, 13, 13, 10, 7, 0,
        5, 8, 11, 11, 8, 5, 0, 4, 6, 8, 8, 6, 4, 0, 3, 4, 5, 5, 4, 3,
    ];
    assert(win_map@ =~= cell_weights());
    proof {
        lemma_weights_bounded();
    }
    let mut evaluation: i32 = 0;
    let mut location: u64 = 0;
    while location < 48
        invariant
            location <= 48,
            win_map@ == cell_weights(),
            evaluation == score_upto(p1, p2, location as int),
            -weight_sum(location as int) <= evaluation <= weight_sum(location as int),
            -13 * location <= evaluation <= 13 * location,
        decreases 48 - location,
    {
        let value = win_map[location as usize];
        if (p1 >> location) & 1 != 0 {
            evaluation = evaluation + value;
        }
        if (p2 >> location) & 1 != 0 {
            evaluation = evaluation - value;
        }
        proof {
            let l = location;
            assert(((p1 >> l) & 1 != 0) == ((p1 >> l) & 1 == 1)) by (bit_vector);
            assert(((p2 >> l) & 1 != 0) == ((p2 >> l) & 1 == 1)) by (bit_vector);
        }
        location = location + 1;
    }
    proof {
        lemma_weight_total();
    }
    evaluation
}

/// The sort key of move `m`: the static score of the resulting board, seen
/// from the player to move, negated so that better moves sort first.
pub open spec fn move_key(b: Board, m: int) -> int {
    if b.to_play {
        -board_score(play(b, m))
    } else {
        board_score(play(b, m))
    }
}

/// Move `x` is searched before move `y`: its key is smaller, or the keys
/// are equal and its column is lower.
pub open spec fn precedes(b: Board, x: int, y: int) -> bool {
    move_key(b, x) < move_key(b, y) || (move_key(b, x) == move_key(b, y) && x < y)
}

/// Order legal moves, given in ascending column order, by the static score
/// of the board each leads to: best for the player to move first, ties kept
/// in column order.
pub fn order_moves(state: &GameState, moves: &Vec<usize>) -> (ordered: Vec<usize>)
    requires
        heights_in_range(state@.height),
        forall|j: int| 0 <= j < moves@.len() ==> is_legal(state@.height, #[trigger] moves@[j] as int),
        forall|j: int, k: int| 0 <= j < k < moves@.len() ==> #[trigger] moves@[j] < #[trigger] moves@[k],
    ensures
        ordered@.to_multiset() == moves@.to_multiset(),
        forall|j: int, k: int|
            0 <= j < k < ordered@.len() ==> precedes(
                state@,
                #[trigger] ordered@[j] as int,
                #[trigger] ordered@[k] as int,
            ),
{
    broadcast use vstd::seq_lib::group_to_multiset_ensures;

    let mut keys: Vec<i32> = Vec::new();
    let mut ordered: Vec<usize> = Vec::new();
    let mut i: usize = 0;
    while i < moves.len()
        invariant
            i <= moves@.len(),
            heights_in_range(state@.height),
            forall|j: int| 0 <= j < moves@.len() ==> is_legal(state@.height, #[trigger] moves@[j] as int),
            forall|j: int, k: int| 0 <= j < k < moves@.len() ==> #[trigger] moves@[j] < #[trigger] moves@[k],
            keys@.len() == ordered@.len() == i,
            forall|j: int| 0 <= j < i ==> #[trigger] keys@[j] == move_key(state@, ordered@[j] as int),
            forall|j: int, k: int|
                0 <= j < k < i ==> precedes(state@, #[trigger] ordered@[j] as int, #[trigger] ordered@[k] as int),
            forall|j: int| 0 <= j < i && i < moves@.len() ==> #[trigger] ordered@[j] < moves@[i as int],
            ordered@.to_multiset() == moves@.subrange(0, i as int).to_multiset(),
        decreases moves@.len() - i,
    {
        let m = moves[i];
        let child = play_move(state, m);
        let v = heuristic_evaluation(child.bitboard[0], child.bitboard[1]);
        let k = if state.to_play { -v } else { v };
        let mut p: usize = i;
        while p > 0 && keys[p - 1] > k
            invariant
                p <= i,
                keys@.len() == i,
                forall|q: int| p <= q < i ==> #[trigger] keys@[q] > k,
            decreases p,
        {
            p = p - 1;
        }
        let ghost old_keys = keys@;
        let ghost old_ordered = ordered@;
        keys.insert(p, k);
        ordered.insert(p, m);
        proof {
            old_keys.insert_ensures(p as int, k);
            old_ordered.insert_ensures(p as int, m);
            assert(k == move_key(state@, m as int));
            assert forall|j: int| 0 <= j <= i implies #[trigger] keys@[j] == move_key(state@, ordered@[j] as int) by {
                if j > p {
                    assert(keys@[j] == old_keys[j - 1]);
                    assert(ordered@[j] == old_ordered[j - 1]);
                }
            }
            assert forall|j: int, l: int| 0 <= j < l <= i implies precedes(
                state@,
                #[trigger] ordered@[j] as int,
                #[trigger] ordered@[l] as int,
            ) by {
                if l < p {
                    assert(precedes(state@, old_ordered[j] as int, old_ordered[l] as int));
                } else if l == p {
                    assert(old_keys[p - 1] <= k);
                    assert(old_ordered[j] < m);
                    if j < p - 1 {
                        assert(precedes(state@, old_ordered[j] as int, old_ordered[p - 1] as int));
                    }
                } else if j < p {
                    assert(ordered@[l] == old_ordered[l - 1]);
                    assert(precedes(state@, old_ordered[j] as int, old_ordered[l - 1] as int));
                } else if j == p {
                    assert(ordered@[l] == old_ordered[l - 1]);
                    assert(keys@[l] == old_keys[l - 1]);
                    assert(old_keys[l - 1] > k);
                } else {
                    assert(ordered@[j] == old_ordered[j - 1]);
                    assert(ordered@[l] == old_ordered[l - 1]);
                    assert(precedes(state@, old_ordered[j - 1] as int, old_ordered[l - 1] as int));
                }
            }
            assert forall|j: int| 0 <= j <= i && i + 1 < moves@.len() implies #[trigger] ordered@[j]
                < moves@[i + 1] by {
                assert(moves@[i as int] < moves@[i + 1]);
                if j < p {
                    assert(ordered@[j] == old_ordered[j]);
                } else if j > p {
                    assert(ordered@[j] == old_ordered[j - 1]);
                }
            }
            assert(moves@.subrange(0, i + 1) =~= moves@.subrange(0, i as int).push(m));
            assert(ordered@ == old_ordered.insert(p as int, m));
            vstd::seq_lib::to_multiset_insert(old_ordered, p as int, m);
            moves@.subrange(0, i as int).to_multiset_ensures();
        }
        i = i + 1;
    }
    assert(moves@.subrange(0, moves@.len() as int) =~= moves@);
    ordered
}

/// The value of a won position: above every static score.
pub const INFINITY: i32 = 1000000;

/// The depth-bounded minimax value of a board, from the first player's side:
/// a won board is worth `INFINITY`, a lost one `-INFINITY`, a drawn one 0; an
/// undecided board at depth 0 is worth its static score; otherwise the first
/// player takes the greatest value of its children, the second the least.
pub open spec fn minimax_value(b: Board, depth: nat) -> int
    decreases depth, 0nat,
{
    match status(b) {
        LeafValue::Win => INFINITY as int,
        LeafValue::Loss => -INFINITY,
        LeafValue::Draw => 0,
        LeafValue::InProgress => if depth == 0 {
            board_score(b)
        } else {
            best_of(b, legal_columns(b.height), (depth - 1) as nat)
        },
    }
}

/// The value of the child reached by move `m`, searched to `depth`.
pub open spec fn child_value(b: Board, m: int, depth: nat) -> int
    decreases depth, 1nat,
{
    minimax_value(play(b, m), depth)
}

/// The best child value over `moves` for the player to move: the greatest
/// for the first player, the least for the second; with no move, the worst
/// outcome for that player.
pub open spec fn best_of(b: Board, moves: Seq<usize>, depth: nat) -> int
    decreases depth, moves.len(),
{
    if moves.len() == 0 {
        if b.to_play {
            -INFINITY
        } else {
            INFINITY as int
        }
    } else {
        let rest = best_of(b, moves.drop_last(), depth);
        let v = minimax_value(play(b, moves.last() as int), depth);
        if b.to_play {
            if v > rest {
                v
            } else {
                rest
            }
        } else {
            if v < rest {
                v
            } else {
                rest
            }
        }
    }
}

/// `r` is what a search with window `(lo, hi)` may return for a position of
/// value `v`: `v` itself inside the window, at most `lo` below it, at least
/// `hi` above it.
pub open spec fn within_window(v: int, lo: int, hi: int, r: int) -> bool {
    &&& (lo < v < hi ==> r == v)
    &&& (v <= lo ==> r <= lo)
    &&& (v >= hi ==> r >= hi)
}

/// `v` brought into the window `[lo, hi]`.
pub open spec fn clamp(v: int, lo: int, hi: int) -> int {
    if v <= lo {
        lo
    } else if v >= hi {
        hi
    } else {
        v
    }
}

/// `best_of` bounds every child value and is either the empty default or
/// the value of one child.
proof fn lemma_best_of(b: Board, moves: Seq<usize>, depth: nat)
    ensures
        forall|j: int|
            0 <= j < moves.len() ==> if b.to_play {
                child_value(b, #[trigger] moves[j] as int, depth) <= best_of(b, moves, depth)
            } else {
                child_value(b, moves[j] as int, depth) >= best_of(b, moves, depth)
            },
        best_of(b, moves, depth) == (if b.to_play {
            -INFINITY
        } else {
            INFINITY as int
        }) || exists|j: int|
            0 <= j < moves.len() && best_of(b, moves, depth) == child_value(
                b,
                #[trigger] moves[j] as int,
                depth,
            ),
    decreases moves.len(),
{
    if moves.len() > 0 {
        let rest = moves.drop_last();
        lemma_best_of(b, rest, depth);
        assert forall|j: int| 0 <= j < rest.len() implies #[trigger] moves[j] == rest[j] by {}
        let last = moves.len() - 1;
        assert(moves[last] == moves.last());
        if best_of(b, moves, depth) != child_value(b, moves[last] as int, depth) {
            if best_of(b, rest, depth) != (if b.to_play {
                -INFINITY
            } else {
                INFINITY as int
            }) {
                let j = choose|j: int|
                    0 <= j < rest.len() && best_of(b, rest, depth) == child_value(
                        b,
                        #[trigger] rest[j] as int,
                        depth,
                    );
                assert(moves[j] == rest[j]);
            }
        }
    }
}

/// A minimax value is `INFINITY`, `-INFINITY`, or within 276 of zero.
proof fn lemma_minimax_range(b: Board, depth: nat)
    ensures
        -INFINITY <= minimax_value(b, depth) <= INFINITY,
        minimax_value(b, depth) == INFINITY || minimax_value(b, depth) == -INFINITY || -276
            <= minimax_value(b, depth) <= 276,
    decreases depth,
{
    lemma_score_range(b.b1, b.b2);
    if status(b) == LeafValue::InProgress && depth > 0 {
        let moves = legal_columns(b.height);
        let d = (depth - 1) as nat;
        lemma_best_of(b, moves, d);
        if best_of(b, moves, d) != (if b.to_play {
            -INFINITY
        } else {
            INFINITY as int
        }) {
            let j = choose|j: int|
                0 <= j < moves.len() && best_of(b, moves, d) == child_value(
                    b,
                    #[trigger] moves[j] as int,
                    d,
                );
            lemma_minimax_range(play(b, moves[j] as int), d);
        }
    }
}

/// Minimax search with alpha-beta pruning over the window `(min, max)`.
/// Scores keep the first player's orientation at every level.
fn minimax(state: GameState, depth: u8, min: i32, max: i32) -> (r: i32)
    requires
        wf(state),
        -INFINITY <= min < max <= INFINITY,
    ensures
        status(state@) == LeafValue::Win ==> r == INFINITY,
        status(state@) == LeafValue::Loss ==> r == -INFINITY,
        status(state@) == LeafValue::Draw ==> r == 0,
        status(state@) == LeafValue::InProgress && depth == 0 ==> r == board_score(state@),
        status(state@) == LeafValue::InProgress && depth >= 1 ==> r == clamp(
            minimax_value(state@, depth as nat),
            min as int,
            max as int,
        ),
        within_window(minimax_value(state@, depth as nat), min as int, max as int, r as int),
        -INFINITY <= r <= INFINITY,
        r == INFINITY || r == -INFINITY || -276 <= r <= 276 || r == min || r == max,
    decreases depth,
{
    broadcast use vstd::seq_lib::group_to_multiset_ensures;

    if state.leaf_value == LeafValue::Win {
        return INFINITY;
    }
    if state.leaf_value == LeafValue::Loss {
        return -INFINITY;
    }
    if state.leaf_value == LeafValue::Draw {
        return 0;
    }
    if depth < 1 {
        return heuristic_evaluation(state.bitboard[0], state.bitboard[1]);
    }
    let ghost b = state@;
    let ghost d = (depth - 1) as nat;
    let legal = get_legal_moves(state.height);
    proof {
        lemma_legal_upto(b.height, 7);
        lemma_best_of(b, legal@, d);
        assert forall|j: int| 0 <= j < legal@.len() implies is_legal(b.height, #[trigger] legal@[j] as int) by {
            assert(legal@.contains(legal@[j]));
        }
    }
    let legal_moves = order_moves(&state, &legal);
    let mut v: i32 = if state.to_play { min } else { max };
    let mut idx: usize = 0;
    while idx < legal_moves.len()
        invariant
            wf(state),
            b == state@,
            depth >= 1,
            d == depth - 1,
            status(b) == LeafValue::InProgress,
            -INFINITY <= min < max <= INFINITY,
            legal@ == legal_columns(b.height),
            legal_moves@.to_multiset() == legal@.to_multiset(),
            idx <= legal_moves@.len(),
            state.to_play ==> min <= v < max,
            !state.to_play ==> min < v <= max,
            forall|j: int|
                0 <= j < idx ==> if state.to_play {
                    child_value(b, #[trigger] legal_moves@[j] as int, d) <= v
                } else {
                    child_value(b, legal_moves@[j] as int, d) >= v
                },
            v == (if state.to_play {
                min
            } else {
                max
            }) || exists|j: int|
                0 <= j < idx && v == child_value(b, #[trigger] legal_moves@[j] as int, d),
        decreases legal_moves@.len() - idx,
    {
        let m = legal_moves[idx];
        proof {
            legal_moves@.to_multiset_ensures();
            legal@.to_multiset_ensures();
            assert(legal_moves@[idx as int] == m);
            assert(legal_moves@.contains(m));
            assert(legal_moves@.to_multiset().count(m) > 0);
            assert(legal@.contains(m));
            lemma_legal_upto(b.height, 7);
        }
        let child = play_move(&state, m);
        let vv = minimax(
            child,
            depth - 1,
            if state.to_play { v } else { min },
            if state.to_play { max } else { v },
        );
        if state.to_play {
            if vv > v {
                v = vv;
            }
            if v >= max {
                proof {
                    lemma_best_of(b, legal@, d);
                    let j = choose|j: int| 0 <= j < legal@.len() && legal@[j] == m;
                    assert(child_value(b, legal@[j] as int, d) >= max);
                }
                return max;
            }
        } else {
            if vv < v {
                v = vv;
            }
            if v <= min {
                proof {
                    lemma_best_of(b, legal@, d);
                    let j = choose|j: int| 0 <= j < legal@.len() && legal@[j] == m;
                    assert(child_value(b, legal@[j] as int, d) <= min);
                }
                return min;
            }
        }
        idx = idx + 1;
    }
    proof {
        lemma_minimax_range(b, depth as nat);
        lemma_best_of(b, legal@, d);
        legal_moves@.to_multiset_ensures();
        legal@.to_multiset_ensures();
        let big_v = best_of(b, legal@, d);
        if big_v != (if state.to_play {
            -INFINITY
        } else {
            INFINITY as int
        }) {
            let j = choose|j: int|
                0 <= j < legal@.len() && big_v == child_value(b, #[trigger] legal@[j] as int, d);
            assert(legal@.contains(legal@[j]));
            assert(legal@.to_multiset().count(legal@[j]) > 0);
            assert(legal_moves@.contains(legal@[j]));
            let q = choose|q: int| 0 <= q < legal_moves@.len() && legal_moves@[q] == legal@[j];
            assert(child_value(b, legal_moves@[q] as int, d) == big_v);
        }
        if v != (if state.to_play {
            min
        } else {
            max
        }) {
            let q = choose|q: int|
                0 <= q < idx && v == child_value(b, #[trigger] legal_moves@[q] as int, d);
            assert(legal_moves@.contains(legal_moves@[q]));
            assert(legal_moves@.to_multiset().count(legal_moves@[q]) > 0);
            assert(legal@.contains(legal_moves@[q]));
            let j = choose|j: int| 0 <= j < legal@.len() && legal@[j] == legal_moves@[q];
            assert(child_value(b, legal@[j] as int, d) == v);
        }
    }
    v
}

/// Search with the full window: the result is exactly the minimax value,
/// the same as a search that prunes nothing.
pub fn search(state: &GameState, depth: u8) -> (r: i32)
    requires
        wf(*state),
    ensures
        r == minimax_value(state@, depth as nat),
{
    proof {
        lemma_minimax_range(state@, depth as nat);
    }
    minimax(*state, depth, -INFINITY, INFINITY)
}

/// The value of move `m` to the player making it.
pub open spec fn mover_value(b: Board, m: int, depth: nat) -> int {
    if b.to_play {
        child_value(b, m, depth)
    } else {
        -child_value(b, m, depth)
    }
}

/// Column `c` is legal and no legal column is worth more to the player to move.
pub open spec fn is_best_move(b: Board, c: int, depth: nat) -> bool {
    &&& is_legal(b.height, c)
    &&& forall|m: int| is_legal(b.height, m) ==> #[trigger] mover_value(b, m, depth) <= mover_value(b, c, depth)
}

/// Column `c` is a best move, and every legal move searched before it is
/// worth strictly less to the player to move.
pub open spec fn is_first_best_move(b: Board, c: int, depth: nat) -> bool {
    &&& is_best_move(b, c, depth)
    &&& forall|m: int|
        is_legal(b.height, m) && #[trigger] precedes(b, m, c) ==> mover_value(b, m, depth) < mover_value(
            b,
            c,
            depth,
        )
}

/// Choose the column to play: the candidate of greatest value to the player
/// to move, each searched to `depth` below the move; among equal values the
/// first in move order is kept.
pub fn pick_best_move(state: &GameState, depth: u8) -> (best_move: usize)
    requires
        wf(*state),
        status(state@) == LeafValue::InProgress,
    ensures
        is_first_best_move(state@, best_move as int, depth as nat),
{
    broadcast use vstd::seq_lib::group_to_multiset_ensures;

    let ghost b = state@;
    let legal = get_legal_moves(state.height);
    proof {
        lemma_legal_upto(b.height, 7);
        lemma_legal_columns(b.height);
        assert forall|j: int| 0 <= j < legal@.len() implies is_legal(b.height, #[trigger] legal@[j] as int) by {
            assert(legal@.contains(legal@[j]));
        }
    }
    let legal_moves = order_moves(state, &legal);
    proof {
        legal_moves@.to_multiset_ensures();
        legal@.to_multiset_ensures();
        assert forall|j: int| 0 <= j < legal_moves@.len() implies is_legal(b.height, #[trigger] legal_moves@[j] as int) by {
            assert(legal_moves@.contains(legal_moves@[j]));
            assert(legal_moves@.to_multiset().count(legal_moves@[j]) > 0);
            assert(legal@.contains(legal_moves@[j]));
        }
        assert(legal_moves@.len() > 0);
    }
    let mut best_value: i32 = -INFINITY;
    let mut best_move: usize = legal_moves[0];
    let ghost mut bq: int = 0;
    let mut idx: usize = 0;
    while idx < legal_moves.len()
        invariant
            wf(*state),
            b == state@,
            legal_moves@.len() > 0,
            idx <= legal_moves@.len(),
            forall|j: int| 0 <= j < legal_moves@.len() ==> is_legal(b.height, #[trigger] legal_moves@[j] as int),
            is_legal(b.height, best_move as int),
            -INFINITY <= best_value <= INFINITY,
            idx > 0 ==> best_value == mover_value(b, best_move as int, depth as nat),
            idx == 0 ==> best_value == -INFINITY && best_move == legal_moves@[0],
            0 <= bq < legal_moves@.len(),
            idx > 0 ==> bq < idx,
            best_move == legal_moves@[bq],
            forall|j: int| 0 <= j < bq ==> mover_value(b, #[trigger] legal_moves@[j] as int, depth as nat) < best_value,
            forall|j: int, k: int|
                0 <= j < k < legal_moves@.len() ==> precedes(
                    b,
                    #[trigger] legal_moves@[j] as int,
                    #[trigger] legal_moves@[k] as int,
                ),
            forall|j: int| 0 <= j < idx ==> mover_value(b, #[trigger] legal_moves@[j] as int, depth as nat) <= best_value,
        decreases legal_moves@.len() - idx,
    {
        let m = legal_moves[idx];
        let child = play_move(state, m);
        proof {
            lemma_minimax_range(child@, depth as nat);
        }
        let mut current_value = search(&child, depth);
        if !state.to_play {
            current_value = -current_value;
        }
        if current_value > best_value {
            best_value = current_value;
            best_move = m;
            proof {
                bq = idx as int;
            }
        }
        idx = idx + 1;
    }
    proof {
        assert forall|m: int| is_legal(b.height, m) implies #[trigger] mover_value(b, m, depth as nat) <= mover_value(
            b,
            best_move as int,
            depth as nat,
        ) by {
            assert(legal@.contains(m as usize));
            assert(legal@.to_multiset().count(m as usize) > 0);
            assert(legal_moves@.contains(m as usize));
            let q = choose|q: int| 0 <= q < legal_moves@.len() && legal_moves@[q] == m as usize;
            assert(mover_value(b, legal_moves@[q] as int, depth as nat) <= best_value);
        }
        assert forall|m: int| is_legal(b.height, m) && #[trigger] precedes(b, m, best_move as int) implies mover_value(
            b,
            m,
            depth as nat,
        ) < mover_value(b, best_move as int, depth as nat) by {
            assert(legal@.contains(m as usize));
            assert(legal@.to_multiset().count(m as usize) > 0);
            assert(legal_moves@.contains(m as usize));
            let q = choose|q: int| 0 <= q < legal_moves@.len() && legal_moves@[q] == m as usize;
            if q > bq {
                assert(precedes(b, legal_moves@[bq] as int, legal_moves@[q] as int));
            }
            assert(q < bq);
        }
    }
    best_move
}

/// Searching an undecided board to depth 0 gives its static score.
pub proof fn lemma_depth_zero(b: Board)
    requires
        status(b) == LeafValue::InProgress,
    ensures
        minimax_value(b, 0) == board_score(b),
{
}

/// The status that a move by the player to move of `b` wins with.
pub open spec fn win_for_mover(b: Board) -> LeafValue {
    if b.to_play {
        LeafValue::Win
    } else {
        LeafValue::Loss
    }
}

/// When the player to move has a move that wins at once, the best move is
/// worth a win to that player: its value to the mover is `INFINITY`.
pub proof fn lemma_best_move_when_win_available(b: Board, c: int, m: int, depth: nat)
    requires
        is_best_move(b, c, depth),
        is_legal(b.height, m),
        status(play(b, m)) == win_for_mover(b),
    ensures
        mover_value(b, c, depth) == INFINITY,
        mover_value(b, m, depth) == INFINITY,
{
    lemma_minimax_range(play(b, c), depth);
    assert(mover_value(b, m, depth) <= mover_value(b, c, depth));
}

} // verus!
