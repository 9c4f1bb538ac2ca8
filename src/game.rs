//! A match between a human player and an opponent, driven by a presentation
//! layer that reports what the user asked for.
use crate::actions::{Action, Command};
use crate::board::Board;
use crate::coord::HexCoord;
use crate::entities::{opponent, Player};
use crate::state::{lemma_offered_is_legal, offered, offers, Phase, State};
use vstd::prelude::*;

verus! {

/// What a presentation layer reports back after a frame.
#[derive(Clone, Copy, Debug, PartialEq, Eq, Structural)]
pub enum UiAction {
    ActionAtCoord(HexCoord),
    Undo,
    RequestUpdate,
    UiUpdated,
    NoAction,
    AnimationFinished,
    AnimationInProgress,
    Idle,
    Busy,
}

/// A match: its state and the player the human controls.
pub struct Game {
    pub state: State,
    pub human_player: Player,
}

impl Game {
    /// A match on `board`, in the first phase, with White to move.
    pub fn new(human_player: Player, board: Board) -> (g: Game)
        requires
            board.wf(),
        ensures
            g.state.consistent(),
            g.state.board@ == board@,
            g.state.current_player == Player::White,
            g.state.current_phase == Phase::PlaceRing,
            g.state.score(Player::White) == 0,
            g.state.score(Player::Black) == 0,
            g.state.history@.len() == 0,
            g.state.last_state_change@.len() == 0,
            g.human_player == human_player,
    {
        Game { state: State::from_board(board), human_player }
    }

    /// Whether the human is to move.
    pub fn is_human_turn(&self) -> (b: bool)
        ensures
            b == (self.state.current_player == self.human_player),
    {
        self.state.current_player == self.human_player
    }

    /// The player the opponent controls.
    pub fn opponent_player(&self) -> (p: Player)
        ensures
            p == opponent(self.human_player),
    {
        self.human_player.other()
    }

    /// Applies the first legal command anchored at `coord`, as
    /// `State::execute_for_coord` does; returns whether there was one.
    pub fn execute_for_coord(&mut self, coord: &HexCoord) -> (r: bool)
        requires
            old(self).state.consistent(),
        ensures
            final(self).state.consistent(),
            final(self).human_player == old(self).human_player,
            r == offers(old(self).state, *coord),
            !r ==> final(self).state == old(self).state,
            r ==> exists|a: Action|
                #![trigger offered(old(self).state, a)]
                offered(old(self).state, a) && a.anchor() == *coord && a.applied(
                    old(self).state,
                    final(self).state,
                    final(self).state.last_state_change@,
                ) && final(self).state.history@ == old(self).state.history@.push(a),
    {
        self.state.execute_for_coord(coord)
    }

    /// Reverts the most recent command, as `State::undo` does; returns
    /// whether there was one.
    pub fn undo(&mut self) -> (r: bool)
        requires
            old(self).state.consistent(),
        ensures
            final(self).state.consistent(),
            final(self).human_player == old(self).human_player,
            r == (old(self).state.history@.len() > 0),
            !r ==> final(self).state == old(self).state,
            r ==> final(self).state.history@ == old(self).state.history@.drop_last()
                && old(self).state.history@.last().reverted(
                old(self).state,
                final(self).state,
                final(self).state.last_state_change@,
            ),
    {
        self.state.undo()
    }

    /// Carries out what the presentation layer reported for the human's
    /// turn: a command at a point, or an undo; returns whether the state
    /// changed.
    pub fn handle(&mut self, action: UiAction) -> (r: bool)
        requires
            old(self).state.consistent(),
        ensures
            final(self).state.consistent(),
            final(self).human_player == old(self).human_player,
            r == match action {
                UiAction::ActionAtCoord(c) => offers(old(self).state, c),
                UiAction::Undo => old(self).state.history@.len() > 0,
                _ => false,
            },
            !r ==> final(self).state == old(self).state,
            action matches UiAction::ActionAtCoord(c) ==> (r ==> exists|a: Action|
                #![trigger offered(old(self).state, a)]
                offered(old(self).state, a) && a.anchor() == c && a.applied(
                    old(self).state,
                    final(self).state,
                    final(self).state.last_state_change@,
                ) && final(self).state.history@ == old(self).state.history@.push(a)),
            r && action == UiAction::Undo ==> final(self).state.history@ == old(self).state.history@.drop_last()
                && old(self).state.history@.last().reverted(
                old(self).state,
                final(self).state,
                final(self).state.last_state_change@,
            ),
    {
        match action {
            UiAction::ActionAtCoord(coord) => self.execute_for_coord(&coord),
            UiAction::Undo => self.undo(),
            _ => false,
        }
    }

    /// One step of the match. A busy presentation layer changes nothing. On
    /// the opponent's turn the opponent plays the legal command at position
    /// `pick` (modulo their number) of `legal_moves`, through the same apply
    /// path as a click. On the human's turn the report is carried out as
    /// `handle` does. Returns whether the state changed.
    pub fn tick(&mut self, ui_action: UiAction, pick: usize) -> (r: bool)
        requires
            old(self).state.consistent(),
        ensures
            final(self).state.consistent(),
            final(self).human_player == old(self).human_player,
            ui_action == UiAction::Busy ==> !r,
            !r ==> final(self).state == old(self).state,
            ui_action != UiAction::Busy && old(self).state.current_player != old(self).human_player ==> r
                == exists|c: HexCoord| offers(old(self).state, c),
            ui_action != UiAction::Busy && old(self).state.current_player == old(self).human_player ==> r
                == match ui_action {
                UiAction::ActionAtCoord(c) => offers(old(self).state, c),
                UiAction::Undo => old(self).state.history@.len() > 0,
                _ => false,
            },
            r && old(self).state.current_player != old(self).human_player ==> exists|a: Action|
                #![trigger offered(old(self).state, a)]
                offered(old(self).state, a) && a.applied(
                    old(self).state,
                    final(self).state,
                    final(self).state.last_state_change@,
                ) && final(self).state.history@ == old(self).state.history@.push(a),
            ui_action matches UiAction::ActionAtCoord(c) ==> (r && old(self).state.current_player
                == old(self).human_player ==> exists|a: Action|
                #![trigger offered(old(self).state, a)]
                offered(old(self).state, a) && a.anchor() == c && a.applied(
                    old(self).state,
                    final(self).state,
                    final(self).state.last_state_change@,
                ) && final(self).state.history@ == old(self).state.history@.push(a)),
            r && old(self).state.current_player == old(self).human_player && ui_action == UiAction::Undo
                ==> final(self).state.history@ == old(self).state.history@.drop_last()
                && old(self).state.history@.last().reverted(
                old(self).state,
                final(self).state,
                final(self).state.last_state_change@,
            ),
    {
        if ui_action == UiAction::Busy {
            return false;
        }
        if self.state.current_player != self.human_player {
            let mut moves = self.state.legal_moves();
            if moves.len() == 0 {
                proof {
                    assert forall|c: HexCoord| !offers(self.state, c) by {}
                }
                return false;
            }
            let k = pick % moves.len();
            let a = moves.remove(k);
            proof {
                assert(offered(self.state, a));
                assert(offers(self.state, a.anchor()));
                lemma_offered_is_legal(self.state, a);
            }
            return self.state.play(a);
        }
        self.handle(ui_action)
    }
}

} // verus!
