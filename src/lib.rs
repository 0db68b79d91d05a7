use vstd::prelude::*;

pub mod ai;
pub mod bitboard;

use crate::ai::is_first_best_move;
use crate::bitboard::{
    balanced, consistent, create_game_state, heights_of, is_consistent, popcount, status, wf,
    GameState, LeafValue,
};

verus! {

/// Choose the column to play in the position given by the two players'
/// occupancies, searching `depth` plies below each candidate move.
///
/// Returns `None` when the occupancies cannot come from play (they overlap,
/// a piece floats above an empty cell, a piece lies off the board, or the
/// piece counts are not even or one more for the first player) and when the
/// position is already decided (a four in a row, or a full board); otherwise
/// the best column for the player to move, the first in search order among
/// equally good ones.
pub fn pick_best_move(bitboard1: u64, bitboard2: u64, depth: u8) -> (r: Option<usize>)
    ensures
        exists|s: GameState|
            {
                &&& wf(s)
                &&& s@.b1 == bitboard1
                &&& s@.b2 == bitboard2
                &&& heights_of(bitboard1 | bitboard2, s@.height)
                &&& s.to_play == (popcount(bitboard1 | bitboard2) % 2 == 0)
                &&& (r is None <==> !consistent(s@) || !balanced(bitboard1, bitboard2) || status(s@)
                    != LeafValue::InProgress)
                &&& (r matches Some(c) ==> is_first_best_move(s@, c as int, depth as nat))
            },
{
    let state = create_game_state(bitboard1, bitboard2);
    if !is_consistent(&state) {
        return None;
    }
    let pieces1 = bitboard::count_ones(bitboard1);
    let pieces2 = bitboard::count_ones(bitboard2);
    if pieces1 != pieces2 && pieces1 != pieces2 + 1 {
        return None;
    }
    if state.leaf_value != LeafValue::InProgress {
        return None;
    }
    Some(ai::pick_best_move(&state, depth))
}

} // verus!
