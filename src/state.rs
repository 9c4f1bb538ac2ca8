//! The game state: board, turn, phase, scores, the cached runs, and the
//! history of applied commands.
use crate::actions::{
    lemma_undo_restores, Action, Command, MoveRing, PlaceMarker, PlaceRing, RemoveRing, RemoveRun,
};
use crate::board::{
    board_runs, content_along, has_runs, is_ring_target, is_run, lemma_five_in_a_row,
    lemma_run_cells, piece_at, run_seq, runs_view, Board,
};
use crate::coord::{HexCoord, NUM_AXES};
use crate::entities::{opponent, Piece, Player};
use vstd::prelude::*;

verus! {

/// The step of a turn the game waits for.
#[derive(Clone, Copy, Debug, PartialEq, Eq, Structural)]
pub enum Phase {
    PlaceRing,
    PlaceMarker,
    MoveRing(HexCoord),
    RemoveRun,
    RemoveRing,
    PlayerWon(Player),
}

/// One event of the most recent change, for a presentation layer.
#[derive(Clone, Copy, Debug, PartialEq, Eq, Structural)]
pub enum StateChange {
    RingPlaced(Player, HexCoord),
    RingMoved(Player, HexCoord, HexCoord),
    MarkerFlipped(HexCoord),
    MarkerPlaced(Player, HexCoord),
    MarkerRemoved(Player, HexCoord),
    RingRemoved(Player, HexCoord),
}

/// Number of rings of `p` removed by the commands of `h`.
pub open spec fn removals(h: Seq<Action>, p: Player) -> nat
    decreases h.len(),
{
    if h.len() == 0 {
        0
    } else {
        removals(h.drop_last(), p) + if (h.last() matches Action::RemoveRing(a) && a.player == p) {
            1nat
        } else {
            0nat
        }
    }
}

/// Whether `a` is the command that `s` offers for its phase (see `legal_moves`).
pub open spec fn offered(s: State, a: Action) -> bool {
    match s.current_phase {
        Phase::PlaceRing => a matches Action::PlaceRing(x) && x.pos.valid() && !s.board@.dom().contains(x.pos),
        Phase::PlaceMarker => a matches Action::PlaceMarker(x) && piece_at(s.board@, x.pos) == Some(
            Piece::Ring(s.current_player),
        ),
        Phase::MoveRing(from) => a matches Action::MoveRing(x) && x.from == from && x.player
            == s.current_player && is_ring_target(s.board@, from, x.to),
        Phase::RemoveRun => a matches Action::RemoveRun(x) && x.run_idx < s.runs_of(s.current_player).len()
            && x.run@ == s.runs_of(s.current_player)[x.run_idx as int] && x.pos == x.run@[0],
        Phase::RemoveRing => a matches Action::RemoveRing(x) && x.player == s.current_player && piece_at(
            s.board@,
            x.pos,
        ) == Some(Piece::Ring(s.current_player)),
        Phase::PlayerWon(_) => false,
    }
}

/// Whether `s` offers a command whose anchor is `c`.
pub open spec fn offers(s: State, c: HexCoord) -> bool {
    match s.current_phase {
        Phase::PlaceRing => c.valid() && !s.board@.dom().contains(c),
        Phase::PlaceMarker => piece_at(s.board@, c) == Some(Piece::Ring(s.current_player)),
        Phase::MoveRing(from) => is_ring_target(s.board@, from, c),
        Phase::RemoveRun => exists|i: int|
            0 <= i < s.runs_of(s.current_player).len() && (#[trigger] s.runs_of(s.current_player)[i])[0] == c,
        Phase::RemoveRing => piece_at(s.board@, c) == Some(Piece::Ring(s.current_player)),
        Phase::PlayerWon(_) => false,
    }
}

/// The command of the given kind for the point `c`: 0 places a ring, 1 a
/// marker, 2 moves the ring of `player` from `from`, 3 removes a ring of `player`.
pub open spec fn make_action(kind: u8, player: Player, from: HexCoord, c: HexCoord) -> Action {
    if kind == 0 {
        Action::PlaceRing(PlaceRing { pos: c })
    } else if kind == 1 {
        Action::PlaceMarker(PlaceMarker { pos: c })
    } else if kind == 2 {
        Action::MoveRing(MoveRing { from, to: c, player })
    } else {
        Action::RemoveRing(RemoveRing { pos: c, player })
    }
}

/// The commands of the given kind for each point of `coords`, in order.
fn wrap_all(coords: &Vec<HexCoord>, kind: u8, player: Player, from: HexCoord) -> (out: Vec<Action>)
    requires
        kind <= 3,
    ensures
        out@.len() == coords@.len(),
        forall|i: int| 0 <= i < out@.len() ==> #[trigger] out@[i] == make_action(kind, player, from, coords@[i]),
        forall|c: HexCoord|
            coords@.contains(c) <==> exists|i: int| 0 <= i < out@.len() && (#[trigger] out@[i]).anchor() == c,
        coords@.no_duplicates() ==> forall|i: int, j: int|
            0 <= i < out@.len() && 0 <= j < out@.len() && i != j ==> (#[trigger] out@[i]).anchor() != (
            #[trigger] out@[j]).anchor(),
        coords@.no_duplicates() ==> out@.no_duplicates(),
{
    let mut out: Vec<Action> = Vec::new();
    let mut i: usize = 0;
    while i < coords.len()
        invariant
            kind <= 3,
            i <= coords@.len(),
            out@.len() == i,
            forall|k: int| 0 <= k < i ==> #[trigger] out@[k] == make_action(kind, player, from, coords@[k]),
        decreases coords.len() - i,
    {
        let c = coords[i];
        let a = if kind == 0 {
            Action::PlaceRing(PlaceRing { pos: c })
        } else if kind == 1 {
            Action::PlaceMarker(PlaceMarker { pos: c })
        } else if kind == 2 {
            Action::MoveRing(MoveRing { from, to: c, player })
        } else {
            Action::RemoveRing(RemoveRing { pos: c, player })
        };
        out.push(a);
        i = i + 1;
    }
    proof {
        assert forall|c: HexCoord|
            coords@.contains(c) <==> exists|i: int| 0 <= i < out@.len() && (#[trigger] out@[i]).anchor() == c by {
            if coords@.contains(c) {
                let i = choose|i: int| 0 <= i < coords@.len() && coords@[i] == c;
                assert(out@[i].anchor() == c);
            }
            if exists|i: int| 0 <= i < out@.len() && (#[trigger] out@[i]).anchor() == c {
                let i = choose|i: int| 0 <= i < out@.len() && (#[trigger] out@[i]).anchor() == c;
                assert(coords@[i] == c);
            }
        }
        if coords@.no_duplicates() {
            assert forall|i: int, j: int|
                0 <= i < out@.len() && 0 <= j < out@.len() && i != j implies (#[trigger] out@[i]).anchor() != (
                #[trigger] out@[j]).anchor() by {
                assert(out@[i].anchor() == coords@[i]);
                assert(out@[j].anchor() == coords@[j]);
            }
            assert forall|i: int, j: int| 0 <= i < j < out@.len() implies out@[i] != out@[j] by {
                assert(out@[i].anchor() == coords@[i]);
                assert(out@[j].anchor() == coords@[j]);
            }
        }
    }
    out
}

/// The whole state of a match.
#[derive(Clone)]
pub struct State {
    pub board: Board,
    pub current_player: Player,
    pub current_phase: Phase,
    pub points_white: usize,
    pub points_black: usize,
    pub runs_white: Vec<Vec<HexCoord>>,
    pub runs_black: Vec<Vec<HexCoord>>,
    pub history: Vec<Action>,
    pub last_state_change: Vec<StateChange>,
}

impl State {
    /// The score of `p`.
    pub open spec fn score(&self, p: Player) -> nat {
        match p {
            Player::White => self.points_white as nat,
            Player::Black => self.points_black as nat,
        }
    }

    /// The cached runs of `p`.
    pub open spec fn runs_of(&self, p: Player) -> Seq<Seq<HexCoord>> {
        match p {
            Player::White => runs_view(self.runs_white@),
            Player::Black => runs_view(self.runs_black@),
        }
    }

    /// The cached runs are the list of runs of the board, in which each run
    /// appears exactly once.
    pub open spec fn runs_fresh(&self) -> bool {
        forall|p: Player|
            (#[trigger] self.runs_of(p)) == board_runs(self.board@, p) && (forall|s: Seq<HexCoord>|
                #[trigger] self.runs_of(p).contains(s) <==> is_run(self.board@, p, s))
                && self.runs_of(p).no_duplicates()
    }

    /// Freshness of the cache depends only on the board and the cache.
    pub proof fn lemma_fresh_transfer(a: State, b: State)
        requires
            a.runs_fresh(),
            a.board@ == b.board@,
            a.runs_white == b.runs_white,
            a.runs_black == b.runs_black,
        ensures
            b.runs_fresh(),
    {
        assert forall|p: Player|
            (#[trigger] b.runs_of(p)) == board_runs(b.board@, p) && (forall|s: Seq<HexCoord>|
                #[trigger] b.runs_of(p).contains(s) <==> is_run(b.board@, p, s))
                && b.runs_of(p).no_duplicates() by {
            assert(a.runs_of(p) == b.runs_of(p));
        }
    }

    /// The invariant of a state: a well-formed board, a fresh run cache, and
    /// scores of at most three, below three unless the game is won.
    pub open spec fn wf(&self) -> bool {
        &&& self.board.wf()
        &&& self.runs_fresh()
        &&& self.points_white <= 3
        &&& self.points_black <= 3
        &&& !(self.current_phase is PlayerWon) ==> self.points_white < 3 && self.points_black < 3
    }

    /// The invariant together with what the history guarantees for undo:
    /// each removed ring counts in its player's score, and a score of three
    /// was reached by the last command.
    pub open spec fn consistent(&self) -> bool {
        &&& self.wf()
        &&& forall|p: Player| #[trigger] removals(self.history@, p) <= self.score(p)
        &&& forall|p: Player|
            #[trigger] self.score(p) == 3 ==> self.history@.len() > 0 && (self.history@.last() matches Action::RemoveRing(
                a,
            ) && a.player == p)
    }

    /// A state in the first phase, with White to move, on an empty board.
    pub fn new() -> (s: State)
        ensures
            s.consistent(),
            s.board@ == Map::<HexCoord, Piece>::empty(),
            s.current_player == Player::White,
            s.current_phase == Phase::PlaceRing,
            s.score(Player::White) == 0,
            s.score(Player::Black) == 0,
            s.history@.len() == 0,
            s.last_state_change@.len() == 0,
    {
        State::from_board(Board::new())
    }

    /// A state in the first phase, with White to move, on the given board.
    pub fn from_board(board: Board) -> (s: State)
        requires
            board.wf(),
        ensures
            s.consistent(),
            s.board@ == board@,
            s.current_player == Player::White,
            s.current_phase == Phase::PlaceRing,
            s.score(Player::White) == 0,
            s.score(Player::Black) == 0,
            s.history@.len() == 0,
            s.last_state_change@.len() == 0,
    {
        let runs_white = board.runs(&Player::White);
        let runs_black = board.runs(&Player::Black);
        State {
            board,
            current_player: Player::White,
            current_phase: Phase::PlaceRing,
            points_white: 0,
            points_black: 0,
            runs_white,
            runs_black,
            history: Vec::new(),
            last_state_change: Vec::new(),
        }
    }

    /// The events of the most recent change.
    pub fn last_state_change(&self) -> (r: &Vec<StateChange>)
        ensures
            r == &self.last_state_change,
    {
        &self.last_state_change
    }

    /// The cached runs of the player to move.
    fn current_player_runs(&self) -> (r: &Vec<Vec<HexCoord>>)
        ensures
            runs_view(r@) == self.runs_of(self.current_player),
    {
        match self.current_player {
            Player::Black => &self.runs_black,
            Player::White => &self.runs_white,
        }
    }

    /// Hands the turn to the other player.
    pub fn next_player(&mut self)
        ensures
            final(self).current_player == opponent(old(self).current_player),
            final(self).board == old(self).board,
            final(self).current_phase == old(self).current_phase,
            final(self).points_white == old(self).points_white,
            final(self).points_black == old(self).points_black,
            final(self).runs_white == old(self).runs_white,
            final(self).runs_black == old(self).runs_black,
            final(self).history == old(self).history,
            final(self).last_state_change == old(self).last_state_change,
    {
        self.current_player = self.current_player.other();
    }

    /// Enters `phase`.
    pub fn set_phase(&mut self, phase: Phase)
        ensures
            final(self).current_phase == phase,
            final(self).board == old(self).board,
            final(self).current_player == old(self).current_player,
            final(self).points_white == old(self).points_white,
            final(self).points_black == old(self).points_black,
            final(self).runs_white == old(self).runs_white,
            final(self).runs_black == old(self).runs_black,
            final(self).history == old(self).history,
            final(self).last_state_change == old(self).last_state_change,
    {
        self.current_phase = phase;
    }

    /// Whether the game is in `phase`.
    pub fn at_phase(&self, phase: &Phase) -> (b: bool)
        ensures
            b == (self.current_phase == *phase),
    {
        self.current_phase == *phase
    }

    /// Recomputes the cached runs of both players from the board.
    pub fn compute_runs(&mut self)
        requires
            old(self).board.wf(),
        ensures
            final(self).runs_fresh(),
            final(self).runs_of(Player::White) == board_runs(final(self).board@, Player::White),
            final(self).runs_of(Player::Black) == board_runs(final(self).board@, Player::Black),
            final(self).board == old(self).board,
            final(self).current_player == old(self).current_player,
            final(self).current_phase == old(self).current_phase,
            final(self).points_white == old(self).points_white,
            final(self).points_black == old(self).points_black,
            final(self).history == old(self).history,
            final(self).last_state_change == old(self).last_state_change,
    {
        self.runs_white = self.board.runs(&Player::White);
        self.runs_black = self.board.runs(&Player::Black);
    }

    /// Whether the cache holds a run of `player`.
    pub fn has_run(&self, player: &Player) -> (b: bool)
        ensures
            b == (self.runs_of(*player).len() > 0),
            self.runs_fresh() ==> b == has_runs(self.board@, *player),
    {
        let b = match player {
            Player::White => self.runs_white.len() > 0,
            Player::Black => self.runs_black.len() > 0,
        };
        proof {
            if self.runs_fresh() {
                if b {
                    assert(self.runs_of(*player).contains(self.runs_of(*player)[0]));
                }
                if has_runs(self.board@, *player) {
                    let s = choose|s: Seq<HexCoord>| is_run(self.board@, *player, s);
                    assert(self.runs_of(*player).contains(s));
                }
            }
        }
        b
    }

    /// The cached run of `player` at `idx`, if there is one.
    pub fn get_run(&self, player: &Player, idx: usize) -> (r: Option<&Vec<HexCoord>>)
        ensures
            r matches Some(v) ==> idx < self.runs_of(*player).len() && v@ == self.runs_of(*player)[idx as int],
            r is None ==> idx >= self.runs_of(*player).len(),
    {
        let runs = match player {
            Player::White => &self.runs_white,
            Player::Black => &self.runs_black,
        };
        if idx < runs.len() {
            Some(&runs[idx])
        } else {
            None
        }
    }

    /// Whether `run` is one of the cached runs of `player`.
    pub fn is_valid_run(&self, player: &Player, run: &Vec<HexCoord>) -> (b: bool)
        ensures
            b == self.runs_of(*player).contains(run@),
    {
        let runs = match player {
            Player::White => &self.runs_white,
            Player::Black => &self.runs_black,
        };
        let mut i: usize = 0;
        while i < runs.len()
            invariant
                i <= runs@.len(),
                runs_view(runs@) == self.runs_of(*player),
                forall|k: int| 0 <= k < i ==> runs@[k]@ != run@,
            decreases runs.len() - i,
        {
            if same_points(&runs[i], run) {
                proof {
                    assert(runs_view(runs@)[i as int] == run@);
                }
                return true;
            }
            i = i + 1;
        }
        proof {
            if self.runs_of(*player).contains(run@) {
                let k = choose|k: int| 0 <= k < runs_view(runs@).len() && runs_view(runs@)[k] == run@;
                assert(runs@[k]@ == run@);
            }
        }
        false
    }

    /// Adds a point to the score of `player`.
    pub fn inc_score(&mut self, player: &Player)
        requires
            old(self).score(*player) < 3,
        ensures
            final(self).score(*player) == old(self).score(*player) + 1,
            final(self).score(opponent(*player)) == old(self).score(opponent(*player)),
            final(self).board == old(self).board,
            final(self).current_player == old(self).current_player,
            final(self).current_phase == old(self).current_phase,
            final(self).runs_white == old(self).runs_white,
            final(self).runs_black == old(self).runs_black,
            final(self).history == old(self).history,
            final(self).last_state_change == old(self).last_state_change,
    {
        match player {
            Player::White => self.points_white = self.points_white + 1,
            Player::Black => self.points_black = self.points_black + 1,
        }
    }

    /// Takes a point from the score of `player`.
    pub fn dec_score(&mut self, player: &Player)
        requires
            old(self).score(*player) > 0,
        ensures
            final(self).score(*player) == old(self).score(*player) - 1,
            final(self).score(opponent(*player)) == old(self).score(opponent(*player)),
            final(self).board == old(self).board,
            final(self).current_player == old(self).current_player,
            final(self).current_phase == old(self).current_phase,
            final(self).runs_white == old(self).runs_white,
            final(self).runs_black == old(self).runs_black,
            final(self).history == old(self).history,
            final(self).last_state_change == old(self).last_state_change,
    {
        match player {
            Player::White => self.points_white = self.points_white - 1,
            Player::Black => self.points_black = self.points_black - 1,
        }
    }

    /// The score of `player`.
    pub fn get_score(&self, player: &Player) -> (r: usize)
        ensures
            r == self.score(*player),
    {
        match player {
            Player::White => self.points_white,
            Player::Black => self.points_black,
        }
    }

    /// The winner, once the game is won.
    pub fn won_by(&self) -> (r: Option<Player>)
        ensures
            r matches Some(w) ==> self.current_phase == Phase::PlayerWon(w),
            r is None ==> !(self.current_phase is PlayerWon),
    {
        if let Phase::PlayerWon(player) = self.current_phase {
            return Some(player);
        }
        None
    }

    /// The commands legal in the current phase: a ring for each empty point,
    /// a marker for each ring of the player to move, a slide to each target
    /// of the ring being moved, the removal of each cached run of the player
    /// to move (in cache order), or the removal of each of their rings.
    pub fn legal_moves(&self) -> (moves: Vec<Action>)
        requires
            self.wf(),
        ensures
            forall|i: int| 0 <= i < moves@.len() ==> offered(*self, #[trigger] moves@[i]),
            forall|c: HexCoord|
                offers(*self, c) <==> exists|i: int| 0 <= i < moves@.len() && (#[trigger] moves@[i]).anchor() == c,
            self.current_phase == Phase::RemoveRun ==> moves@.len() == self.runs_of(self.current_player).len()
                && forall|i: int| 0 <= i < moves@.len() ==> (#[trigger] moves@[i] matches Action::RemoveRun(x) && x.run_idx == i),
            moves@.no_duplicates(),
            !(self.current_phase is RemoveRun) ==> forall|i: int, j: int|
                0 <= i < moves@.len() && 0 <= j < moves@.len() && i != j ==> (#[trigger] moves@[i]).anchor() != (
                #[trigger] moves@[j]).anchor(),
    {
        let player = self.current_player;
        match self.current_phase {
            Phase::PlaceRing => {
                let free = self.board.free_fields();
                let moves = wrap_all(&free, 0, player, HexCoord { q: 0, r: 0 });
                proof {
                    assert forall|i: int| 0 <= i < moves@.len() implies offered(*self, #[trigger] moves@[i]) by {
                        assert(free@.contains(free@[i]));
                    }
                    assert forall|c: HexCoord| offers(*self, c) <==> free@.contains(c) by {}
                }
                moves
            },
            Phase::PlaceMarker => {
                let rings = self.board.player_rings(player);
                let moves = wrap_all(&rings, 1, player, HexCoord { q: 0, r: 0 });
                proof {
                    assert forall|i: int| 0 <= i < moves@.len() implies offered(*self, #[trigger] moves@[i]) by {
                        assert(rings@.contains(rings@[i]));
                    }
                    assert forall|c: HexCoord| offers(*self, c) <==> rings@.contains(c) by {}
                }
                moves
            },
            Phase::MoveRing(from) => {
                let targets = self.board.ring_targets(&from);
                let moves = wrap_all(&targets, 2, player, from);
                proof {
                    assert forall|i: int| 0 <= i < moves@.len() implies offered(*self, #[trigger] moves@[i]) by {
                        assert(targets@.contains(targets@[i]));
                    }
                    assert forall|c: HexCoord| offers(*self, c) <==> targets@.contains(c) by {}
                }
                moves
            },
            // each run is offered on its own; after one is cleared the runs are
            // recomputed, so a second run of the same player is offered again
            // in the next RemoveRun phase if it is still whole
            Phase::RemoveRun => {
                let runs = self.current_player_runs();
                let mut out: Vec<Action> = Vec::new();
                let mut idx: usize = 0;
                while idx < runs.len()
                    invariant
                        self.wf(),
                        self.current_phase == Phase::RemoveRun,
                        runs_view(runs@) == self.runs_of(self.current_player),
                        idx <= runs@.len(),
                        out@.len() == idx,
                        forall|i: int| 0 <= i < idx ==> offered(*self, #[trigger] out@[i]),
                        forall|i: int| 0 <= i < idx ==> (#[trigger] out@[i] matches Action::RemoveRun(x) && x.run_idx == i),
                        forall|i: int| 0 <= i < idx ==> (#[trigger] out@[i]).anchor() == runs@[i]@[0],
                    decreases runs.len() - idx,
                {
                    let run = &runs[idx];
                    proof {
                        assert(self.runs_of(self.current_player).contains(runs_view(runs@)[idx as int]));
                        lemma_run_cells(self.board@, self.current_player, run@);
                    }
                    let copy = copy_points(run);
                    let pos = run[0];
                    out.push(Action::RemoveRun(RemoveRun { run_idx: idx, run: copy, pos }));
                    idx = idx + 1;
                }
                proof {
                    assert forall|c: HexCoord|
                        offers(*self, c) <==> exists|i: int| 0 <= i < out@.len() && (#[trigger] out@[i]).anchor() == c by {
                        if offers(*self, c) {
                            let i = choose|i: int|
                                0 <= i < self.runs_of(self.current_player).len() && (#[trigger] self.runs_of(
                                    self.current_player,
                                )[i])[0] == c;
                            assert(out@[i].anchor() == c);
                        }
                        if exists|i: int| 0 <= i < out@.len() && (#[trigger] out@[i]).anchor() == c {
                            let i = choose|i: int| 0 <= i < out@.len() && (#[trigger] out@[i]).anchor() == c;
                            assert(self.runs_of(self.current_player)[i][0] == c);
                        }
                    }
                    assert forall|i: int, j: int| 0 <= i < j < out@.len() implies out@[i] != out@[j] by {
                        assert(out@[i] matches Action::RemoveRun(x) && x.run_idx == i);
                        assert(out@[j] matches Action::RemoveRun(x) && x.run_idx == j);
                    }
                }
                out
            },
            Phase::RemoveRing => {
                let rings = self.board.player_rings(player);
                let moves = wrap_all(&rings, 3, player, HexCoord { q: 0, r: 0 });
                proof {
                    assert forall|i: int| 0 <= i < moves@.len() implies offered(*self, #[trigger] moves@[i]) by {
                        assert(rings@.contains(rings@[i]));
                    }
                    assert forall|c: HexCoord| offers(*self, c) <==> rings@.contains(c) by {}
                }
                moves
            },
            Phase::PlayerWon(_) => Vec::new(),
        }
    }

    /// Applies the first legal command whose anchor is `coord` and records it
    /// in the history; returns whether there was one. Nothing changes when
    /// there is none.
    pub fn execute_for_coord(&mut self, coord: &HexCoord) -> (r: bool)
        requires
            old(self).consistent(),
        ensures
            final(self).consistent(),
            r == offers(*old(self), *coord),
            !r ==> *final(self) == *old(self),
            r ==> exists|a: Action|
                #![trigger offered(*old(self), a)]
                offered(*old(self), a) && a.anchor() == *coord && a.applied(
                    *old(self),
                    *final(self),
                    final(self).last_state_change@,
                ) && final(self).history@ == old(self).history@.push(a) && (a matches Action::RemoveRun(x)
                    ==> forall|j: int| 0 <= j < x.run_idx ==> old(self).runs_of(old(self).current_player)[j][0] != *coord),
    {
        let mut moves = self.legal_moves();
        let mut i: usize = 0;
        loop
            invariant
                i <= moves@.len(),
                forall|k: int| 0 <= k < i ==> (#[trigger] moves@[k]).anchor() != *coord,
            ensures
                i <= moves@.len(),
                forall|k: int| 0 <= k < i ==> (#[trigger] moves@[k]).anchor() != *coord,
                i < moves@.len() ==> moves@[i as int].anchor() == *coord,
            decreases moves@.len() - i,
        {
            if i >= moves.len() {
                break;
            }
            if moves[i].coord() == *coord {
                break;
            }
            i = i + 1;
        }
        if i == moves.len() {
            return false;
        }
        let ghost all = moves@;
        let a = moves.remove(i);
        proof {
            assert(offered(*self, a));
            lemma_offered_is_legal(*self, a);
            if self.current_phase == Phase::RemoveRun {
                if let Action::RemoveRun(ref x) = a {
                    assert forall|j: int| 0 <= j < x.run_idx implies self.runs_of(self.current_player)[j][0] != *coord by {
                        assert(all[j] matches Action::RemoveRun(y) && y.run_idx == j);
                        assert(offered(*self, all[j]));
                        assert(all[j].anchor() != *coord);
                    }
                }
            }
        }
        if !a.is_legal(self) {
            return false;
        }
        let ghost pre = *self;
        let log = a.execute(self);
        let ghost done = *self;
        self.last_state_change = log;
        self.history.push(a);
        proof {
            State::lemma_fresh_transfer(done, *self);
            lemma_execute_consistent(pre, *self, a);
        }
        true
    }

    /// Applies `a` and records it in the history when it is legal; returns
    /// whether it was. Nothing changes when it is not.
    pub fn play(&mut self, a: Action) -> (r: bool)
        requires
            old(self).consistent(),
        ensures
            final(self).consistent(),
            r == a.legal_in(*old(self)),
            !r ==> *final(self) == *old(self),
            r ==> a.applied(*old(self), *final(self), final(self).last_state_change@) && final(self).history@
                == old(self).history@.push(a),
    {
        if !a.is_legal(self) {
            return false;
        }
        let ghost pre = *self;
        let log = a.execute(self);
        let ghost done = *self;
        self.last_state_change = log;
        self.history.push(a);
        proof {
            State::lemma_fresh_transfer(done, *self);
            lemma_execute_consistent(pre, *self, a);
        }
        true
    }

    /// Reverts the most recent command of the history and drops it; returns
    /// whether there was one. Nothing changes when the history is empty.
    pub fn undo(&mut self) -> (r: bool)
        requires
            old(self).consistent(),
        ensures
            final(self).consistent(),
            r == (old(self).history@.len() > 0),
            !r ==> *final(self) == *old(self),
            r ==> final(self).history@ == old(self).history@.drop_last() && old(self).history@.last().reverted(
                *old(self),
                *final(self),
                final(self).last_state_change@,
            ),
    {
        if self.history.len() == 0 {
            return false;
        }
        let ghost pre = *self;
        if let Some(m) = self.history.pop() {
            proof {
                lemma_undo_ready(pre);
                State::lemma_fresh_transfer(pre, *self);
            }
            let log = m.undo(self);
            let ghost done = *self;
            self.last_state_change = log;
            proof {
                State::lemma_fresh_transfer(done, *self);
                lemma_undo_consistent(pre, *self, m);
            }
            true
        } else {
            false
        }
    }
}

/// Five markers of `p` in a row along an axis, with no marker of `p` at
/// either end, appear exactly once, as the five points in order, among the
/// cached runs of `p` of a state whose cache is fresh.
pub proof fn lemma_cached_five_in_a_row(s: State, p: Player, c: HexCoord, d: int)
    requires
        s.runs_fresh(),
        0 <= d < NUM_AXES,
        forall|i: int| 0 <= i < 5 ==> #[trigger] content_along(s.board@, c, d, i) == Some(Piece::Marker(p)),
        content_along(s.board@, c, d, -1) != Some(Piece::Marker(p)),
        content_along(s.board@, c, d, 5) != Some(Piece::Marker(p)),
    ensures
        s.runs_of(p).contains(run_seq(c, d)),
        s.runs_of(p).no_duplicates(),
{
    lemma_five_in_a_row(s.board@, p, c, d);
    assert(s.runs_of(p) == board_runs(s.board@, p));
}

/// A command that a state offers is legal in it.
pub proof fn lemma_offered_is_legal(s: State, a: Action)
    requires
        s.wf(),
        offered(s, a),
    ensures
        a.legal_in(s),
{
    if let Action::RemoveRun(x) = a {
        assert(s.runs_of(s.current_player).contains(x.run@));
    }
}

/// Applying an offered command and then undoing it, as `execute_for_coord`
/// and `undo` do, restores the board, the player to move, the phase and
/// both scores exactly.
pub proof fn lemma_execute_then_undo(
    s0: State,
    a: Action,
    s1: State,
    s2: State,
    log1: Seq<StateChange>,
    log2: Seq<StateChange>,
)
    requires
        s0.wf(),
        offered(s0, a),
        a.applied(s0, s1, log1),
        a.reverted(s1, s2, log2),
    ensures
        s2.board@ == s0.board@,
        s2.current_player == s0.current_player,
        s2.current_phase == s0.current_phase,
        s2.points_white == s0.points_white,
        s2.points_black == s0.points_black,
{
    lemma_offered_is_legal(s0, a);
    lemma_undo_restores(a, s0, s1, s2, log1, log2);
}

/// Applying a legal command and recording it keeps a state consistent.
proof fn lemma_execute_consistent(pre: State, post: State, a: Action)
    requires
        pre.consistent(),
        a.legal_in(pre),
        a.applied(pre, post, post.last_state_change@),
        post.wf(),
        post.history@ == pre.history@.push(a),
    ensures
        post.consistent(),
{
    assert(post.history@.drop_last() =~= pre.history@);
    assert(post.history@.last() == a);
    assert forall|p: Player| #[trigger] removals(post.history@, p) <= post.score(p) by {
        assert(removals(pre.history@, p) <= pre.score(p));
    }
    assert forall|p: Player| #[trigger] post.score(p) == 3 implies post.history@.len() > 0 && (post.history@.last() matches Action::RemoveRing(
        x,
    ) && x.player == p) by {
        if let Action::RemoveRing(x) = a {
            if x.player != p {
                assert(p == opponent(x.player));
            }
        }
    }
}

/// What a consistent state guarantees for the inverse of its last command.
proof fn lemma_undo_ready(s: State)
    requires
        s.consistent(),
        s.history@.len() > 0,
    ensures
        s.history@.last().undo_ready(s),
{
    let a = s.history@.last();
    if let Action::RemoveRing(x) = a {
        assert(removals(s.history@, x.player) >= 1);
        assert(s.score(opponent(x.player)) < 3) by {
            if s.score(opponent(x.player)) == 3 {
                assert(s.history@.last() matches Action::RemoveRing(y) && y.player == opponent(x.player));
            }
        }
    } else {
        assert(s.score(Player::White) < 3);
        assert(s.score(Player::Black) < 3);
    }
}

/// Reverting the last command and dropping it keeps a state consistent.
proof fn lemma_undo_consistent(pre: State, post: State, a: Action)
    requires
        pre.consistent(),
        pre.history@.len() > 0,
        a == pre.history@.last(),
        a.reverted(pre, post, post.last_state_change@),
        post.wf(),
        post.history@ == pre.history@.drop_last(),
    ensures
        post.consistent(),
{
    lemma_undo_ready(pre);
    assert forall|p: Player| #[trigger] removals(post.history@, p) <= post.score(p) by {
        assert(removals(pre.history@, p) <= pre.score(p));
        if let Action::RemoveRing(x) = a {
            if x.player != p {
                assert(p == opponent(x.player));
            }
        }
    }
}

/// Tests whether two lists of points are equal.
pub fn same_points(a: &Vec<HexCoord>, b: &Vec<HexCoord>) -> (r: bool)
    ensures
        r == (a@ == b@),
{
    if a.len() != b.len() {
        return false;
    }
    let mut i: usize = 0;
    while i < a.len()
        invariant
            a@.len() == b@.len(),
            i <= a@.len(),
            forall|k: int| 0 <= k < i ==> a@[k] == b@[k],
        decreases a.len() - i,
    {
        if a[i] != b[i] {
            return false;
        }
        i = i + 1;
    }
    assert(a@ =~= b@);
    true
}

/// A copy of a list of points.
pub fn copy_points(a: &Vec<HexCoord>) -> (r: Vec<HexCoord>)
    ensures
        r@ == a@,
{
    let mut r: Vec<HexCoord> = Vec::new();
    let mut i: usize = 0;
    while i < a.len()
        invariant
            i <= a@.len(),
            r@ == a@.subrange(0, i as int),
        decreases a.len() - i,
    {
        r.push(a[i]);
        i = i + 1;
    }
    assert(r@ =~= a@);
    r
}

} // verus!
