//! The game clocks: whose clock runs, how it runs down, and a fallen flag.
use vstd::prelude::*;
use crate::model::{Board, GameStatus};

verus! {

/// Whose clock runs.
#[derive(Debug, PartialEq, Eq, Structural, Clone, Copy)]
pub enum TimeControl {
    WhiteToMove,
    BlackToMove,
    AllStop,
}

/// The remaining time of the side to move after one tick of 10 ms.
pub open spec fn time_after_tick(remaining: i32, white: bool) -> i32 {
    let floor: i32 = if white { 1000 } else { 2000 };
    if remaining < floor { floor } else { (remaining - 10) as i32 }
}

/// The remaining time of the side to move after one tick of 10 ms: it runs
/// down by 10 ms, but below its floor (1000 ms for white, 2000 ms for
/// black) it is set to the floor.
pub fn run_down(remaining: i32, white: bool) -> (r: i32)
    ensures
        r == time_after_tick(remaining, white),
{
    let floor: i32 = if white { 1000 } else { 2000 };
    if remaining < floor {
        floor
    } else {
        remaining - 10
    }
}

/// The status after the clocks were read: white out of time loses, else
/// black out of time loses.
pub open spec fn status_after_clocks(s: GameStatus, white_time: i32, black_time: i32) -> GameStatus {
    if white_time <= 0 {
        GameStatus::BlackWinByTime
    } else if black_time <= 0 {
        GameStatus::WhiteWinByTime
    } else {
        s
    }
}

/// Ends the game when a clock has run out: white out of time loses, else
/// black out of time loses.
pub fn check_flags(board: &mut Board, white_time: i32, black_time: i32)
    ensures
        *final(board) == (Board {
            game_status: status_after_clocks(old(board).game_status, white_time, black_time),
            ..*old(board)
        }),
{
    if white_time <= 0 {
        board.game_status = GameStatus::BlackWinByTime;
    } else if black_time <= 0 {
        board.game_status = GameStatus::WhiteWinByTime;
    }
}

} // verus!
