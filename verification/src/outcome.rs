//! The result of a finished game.

use vstd::prelude::*;

use crate::player::Player;

verus! {

/// Who won, by strict comparison of the two scores.
#[derive(Clone, Copy, Debug, PartialEq, Eq, Hash, Structural)]
pub enum GameOutcome {
    BlackWin,
    WhiteWin,
    Draw,
}

impl GameOutcome {
    /// The winning color, if any.
    pub open spec fn spec_winner(self) -> Option<Player> {
        match self {
            GameOutcome::BlackWin => Some(Player::Black),
            GameOutcome::WhiteWin => Some(Player::White),
            GameOutcome::Draw => None,
        }
    }

    /// The winning color, if any.
    pub fn winner(&self) -> (r: Option<Player>)
        ensures
            r == self.spec_winner(),
    {
        match self {
            GameOutcome::BlackWin => Some(Player::Black),
            GameOutcome::WhiteWin => Some(Player::White),
            GameOutcome::Draw => None,
        }
    }

    /// The absolute reward: +1 for a Black win, -1 for a White win,
    /// 0 for a draw.
    pub fn reward_absolute(&self) -> (r: i8)
        ensures
            r == (match self {
                GameOutcome::BlackWin => 1i8,
                GameOutcome::WhiteWin => -1i8,
                GameOutcome::Draw => 0i8,
            }),
    {
        match self {
            GameOutcome::BlackWin => 1,
            GameOutcome::WhiteWin => -1,
            GameOutcome::Draw => 0,
        }
    }

    /// The reward seen from one player's side: +1 if that player won,
    /// -1 if the opponent won, 0 for a draw.
    pub fn reward_from_perspective(&self, perspective: Player) -> (r: i8)
        ensures
            self.spec_winner() == Some(perspective) ==> r == 1i8,
            self.spec_winner() == Some(perspective.spec_opposite()) ==> r == -1i8,
            self.spec_winner() is None ==> r == 0i8,
    {
        match perspective {
            Player::Black => match self {
                GameOutcome::BlackWin => 1,
                GameOutcome::WhiteWin => -1,
                GameOutcome::Draw => 0,
            },
            Player::White => match self {
                GameOutcome::BlackWin => -1,
                GameOutcome::WhiteWin => 1,
                GameOutcome::Draw => 0,
            },
        }
    }

    /// Whether the game ended in an exact tie.
    pub fn is_draw(&self) -> (r: bool)
        ensures
            r == (self is Draw),
    {
        match self {
            GameOutcome::Draw => true,
            _ => false,
        }
    }
}

} // verus!
