//! The five reversible commands of the game. Each states when it is legal,
//! what it does to a state, and what its inverse does.
use crate::board::{
    between, flipped, has_runs, holds_marker, is_marker_of, is_run, is_ring_target, lemma_ring_target_is_empty, lemma_run_cells,
    lemma_runs_ignore_rings, num_rings, piece_at, same_markers, with_markers, without_cells,
};
use crate::coord::HexCoord;
use crate::entities::{opponent, Piece, Player};
use crate::state::{Phase, State, StateChange};
use vstd::prelude::*;

verus! {

/// Who moves next, and in which phase, once the markers of `m` are settled
/// after a turn of `p`: `p` first clears a run of theirs, then the opponent
/// clears one of theirs; otherwise the opponent places a marker.
pub open spec fn turn_after(m: Map<HexCoord, Piece>, p: Player) -> (Player, Phase) {
    if has_runs(m, p) {
        (p, Phase::RemoveRun)
    } else if has_runs(m, opponent(p)) {
        (opponent(p), Phase::RemoveRun)
    } else {
        (opponent(p), Phase::PlaceMarker)
    }
}

/// Whether `log` reports, once each and nothing else, the markers between
/// `from` and `to` on the board `m` changing owner.
pub open spec fn flip_log(log: Seq<StateChange>, m: Map<HexCoord, Piece>, from: HexCoord, to: HexCoord) -> bool {
    &&& forall|i: int| 0 <= i < log.len() ==> (#[trigger] log[i]) is MarkerFlipped
    &&& forall|c: HexCoord|
        #[trigger] log.contains(StateChange::MarkerFlipped(c)) <==> between(from, to, c) && holds_marker(
            piece_at(m, c),
        )
    &&& log.no_duplicates()
}

/// Whether the scores of `a` and `b` are equal.
pub open spec fn same_scores(a: State, b: State) -> bool {
    a.points_white == b.points_white && a.points_black == b.points_black
}

/// A reversible change of the game state.
pub trait Command {
    /// Whether the command may be applied to `s`.
    spec fn legal_in(&self, s: State) -> bool;

    /// Whether `post`, with the events `log`, is `pre` after the command.
    spec fn applied(&self, pre: State, post: State, log: Seq<StateChange>) -> bool;

    /// Whether the inverse of the command may be applied to `s`.
    spec fn undo_ready(&self, s: State) -> bool;

    /// Whether `post`, with the events `log`, is `pre` after the inverse.
    spec fn reverted(&self, pre: State, post: State, log: Seq<StateChange>) -> bool;

    /// The coordinate by which a driver picks the command.
    spec fn anchor(&self) -> HexCoord;

    /// Whether the command may be applied to `game`.
    fn is_legal(&self, game: &State) -> (b: bool)
        requires
            game.wf(),
        ensures
            b == self.legal_in(*game),
    ;

    /// Applies the command; returns the events of the change.
    fn execute(&self, game: &mut State) -> (log: Vec<StateChange>)
        requires
            old(game).wf(),
            self.legal_in(*old(game)),
        ensures
            final(game).wf(),
            self.applied(*old(game), *final(game), log@),
            final(game).history == old(game).history,
            final(game).last_state_change == old(game).last_state_change,
    ;

    /// Applies the inverse of the command; returns the events of the change.
    fn undo(&self, game: &mut State) -> (log: Vec<StateChange>)
        requires
            old(game).wf(),
            self.undo_ready(*old(game)),
        ensures
            final(game).wf(),
            self.reverted(*old(game), *final(game), log@),
            final(game).history == old(game).history,
            final(game).last_state_change == old(game).last_state_change,
    ;

    /// The coordinate by which a driver picks the command.
    fn coord(&self) -> (c: HexCoord)
        ensures
            c == self.anchor(),
    ;
}

/// Any of the five commands.
#[derive(Clone, Debug)]
pub enum Action {
    PlaceRing(PlaceRing),
    PlaceMarker(PlaceMarker),
    MoveRing(MoveRing),
    RemoveRun(RemoveRun),
    RemoveRing(RemoveRing),
}

/// Puts a ring of the player to move on an empty point.
#[derive(Clone, Copy, Debug)]
pub struct PlaceRing {
    pub pos: HexCoord,
}

/// Turns a ring of the player to move into a marker, before the ring moves.
#[derive(Clone, Copy, Debug)]
pub struct PlaceMarker {
    pub pos: HexCoord,
}

/// Slides the ring that `player` left at `from` to `to`.
#[derive(Clone, Copy, Debug)]
pub struct MoveRing {
    pub from: HexCoord,
    pub to: HexCoord,
    pub player: Player,
}

/// Clears a run of the player to move.
#[derive(Clone, Debug)]
pub struct RemoveRun {
    pub run_idx: usize,
    pub run: Vec<HexCoord>,
    pub pos: HexCoord,
}

/// Takes a ring of `player` off the board as a point.
#[derive(Clone, Copy, Debug)]
pub struct RemoveRing {
    pub pos: HexCoord,
    pub player: Player,
}

/// Runs are unchanged by a change of rings alone.
proof fn lemma_runs_stay_fresh(pre: State, post: State)
    requires
        pre.runs_fresh(),
        same_markers(pre.board@, post.board@),
        post.runs_white == pre.runs_white,
        post.runs_black == pre.runs_black,
    ensures
        post.runs_fresh(),
        forall|p: Player| has_runs(post.board@, p) == has_runs(pre.board@, p),
{
    lemma_runs_ignore_rings(pre.board@, post.board@, Player::White);
    lemma_runs_ignore_rings(pre.board@, post.board@, Player::Black);
    assert forall|p: Player|
        (#[trigger] post.runs_of(p)) == crate::board::board_runs(post.board@, p) && (forall|s: Seq<HexCoord>|
            #[trigger] post.runs_of(p).contains(s) <==> crate::board::is_run(post.board@, p, s))
            && post.runs_of(p).no_duplicates() by {
        assert(post.runs_of(p) == pre.runs_of(p));
    }
}

impl Command for PlaceRing {
    open spec fn legal_in(&self, s: State) -> bool {
        &&& s.current_phase == Phase::PlaceRing
        &&& self.pos.valid()
        &&& !s.board@.dom().contains(self.pos)
    }

    open spec fn applied(&self, pre: State, post: State, log: Seq<StateChange>) -> bool {
        &&& post.board@ == pre.board@.insert(self.pos, Piece::Ring(pre.current_player))
        &&& post.current_player == opponent(pre.current_player)
        &&& post.current_phase == if num_rings(post.board@) > 9 {
            Phase::PlaceMarker
        } else {
            Phase::PlaceRing
        }
        &&& same_scores(pre, post)
        &&& post.runs_white == pre.runs_white
        &&& post.runs_black == pre.runs_black
        &&& log == seq![StateChange::RingPlaced(pre.current_player, self.pos)]
    }

    open spec fn undo_ready(&self, s: State) -> bool {
        s.points_white < 3 && s.points_black < 3
    }

    open spec fn reverted(&self, pre: State, post: State, log: Seq<StateChange>) -> bool {
        &&& post.board@ == pre.board@.remove(self.pos)
        &&& post.current_player == opponent(pre.current_player)
        &&& post.current_phase == Phase::PlaceRing
        &&& same_scores(pre, post)
        &&& log == seq![StateChange::RingRemoved(opponent(pre.current_player), self.pos)]
    }

    open spec fn anchor(&self) -> HexCoord {
        self.pos
    }

    fn is_legal(&self, game: &State) -> (b: bool) {
        game.at_phase(&Phase::PlaceRing) && game.board.free_board_field(&self.pos)
    }

    fn execute(&self, game: &mut State) -> (log: Vec<StateChange>) {
        let ghost pre = *game;
        let player = game.current_player;
        let piece = Piece::Ring(player);
        game.board.place_unchecked(&piece, &self.pos);
        proof {
            assert forall|c: HexCoord, p: Player|
                #[trigger] is_marker_of(piece_at(pre.board@, c), p) == is_marker_of(piece_at(game.board@, c), p) by {
                if c != self.pos {
                    assert(piece_at(pre.board@, c) == piece_at(game.board@, c));
                }
            }
            lemma_runs_stay_fresh(pre, *game);
        }
        let ghost mid = *game;
        if game.board.rings().len() > 9 {
            game.set_phase(Phase::PlaceMarker);
        }
        game.next_player();
        proof {
            State::lemma_fresh_transfer(mid, *game);
        }
        let log = vec![StateChange::RingPlaced(player, self.pos)];
        assert(log@ =~= seq![StateChange::RingPlaced(player, self.pos)]);
        log
    }

    fn undo(&self, game: &mut State) -> (log: Vec<StateChange>) {
        game.board.remove(&self.pos);
        game.set_phase(Phase::PlaceRing);
        game.next_player();
        game.compute_runs();
        let placer = game.current_player;
        let log = vec![StateChange::RingRemoved(placer, self.pos)];
        assert(log@ =~= seq![StateChange::RingRemoved(placer, self.pos)]);
        log
    }

    fn coord(&self) -> (c: HexCoord) {
        self.pos
    }
}

impl Command for PlaceMarker {
    open spec fn legal_in(&self, s: State) -> bool {
        &&& s.current_phase == Phase::PlaceMarker
        &&& piece_at(s.board@, self.pos) == Some(Piece::Ring(s.current_player))
    }

    open spec fn applied(&self, pre: State, post: State, log: Seq<StateChange>) -> bool {
        &&& post.board@ == pre.board@.insert(self.pos, Piece::Marker(pre.current_player))
        &&& post.current_player == pre.current_player
        &&& post.current_phase == Phase::MoveRing(self.pos)
        &&& same_scores(pre, post)
        &&& log == seq![StateChange::MarkerPlaced(pre.current_player, self.pos)]
    }

    open spec fn undo_ready(&self, s: State) -> bool {
        s.points_white < 3 && s.points_black < 3
    }

    open spec fn reverted(&self, pre: State, post: State, log: Seq<StateChange>) -> bool {
        &&& post.board@ == if self.pos.valid() {
            pre.board@.insert(self.pos, Piece::Ring(pre.current_player))
        } else {
            pre.board@
        }
        &&& post.current_player == pre.current_player
        &&& post.current_phase == Phase::PlaceMarker
        &&& same_scores(pre, post)
        &&& log == seq![
            StateChange::MarkerRemoved(pre.current_player, self.pos),
            StateChange::RingPlaced(pre.current_player, self.pos),
        ]
    }

    open spec fn anchor(&self) -> HexCoord {
        self.pos
    }

    fn is_legal(&self, game: &State) -> (b: bool) {
        game.at_phase(&Phase::PlaceMarker) && game.board.player_ring_at(&self.pos, &game.current_player)
    }

    fn execute(&self, game: &mut State) -> (log: Vec<StateChange>) {
        proof {
            game.board.lemma_on_board();
        }
        let player = game.current_player;
        let piece = Piece::Marker(player);
        game.board.place_unchecked(&piece, &self.pos);
        game.set_phase(Phase::MoveRing(self.pos));
        game.compute_runs();
        let log = vec![StateChange::MarkerPlaced(player, self.pos)];
        assert(log@ =~= seq![StateChange::MarkerPlaced(player, self.pos)]);
        log
    }

    fn undo(&self, game: &mut State) -> (log: Vec<StateChange>) {
        let player = game.current_player;
        let piece = Piece::Ring(player);
        game.board.place_unchecked(&piece, &self.pos);
        game.set_phase(Phase::PlaceMarker);
        game.compute_runs();
        let log = vec![StateChange::MarkerRemoved(player, self.pos), StateChange::RingPlaced(player, self.pos)];
        assert(log@ =~= seq![
            StateChange::MarkerRemoved(player, self.pos),
            StateChange::RingPlaced(player, self.pos),
        ]);
        log
    }

    fn coord(&self) -> (c: HexCoord) {
        self.pos
    }
}

/// Appends one `MarkerFlipped` event for each point of `flips`.
fn push_flips(log: &mut Vec<StateChange>, flips: &Vec<HexCoord>)
    ensures
        final(log)@.len() == old(log)@.len() + flips@.len(),
        final(log)@.subrange(0, old(log)@.len() as int) == old(log)@,
        forall|i: int|
            0 <= i < flips@.len() ==> #[trigger] final(log)@[old(log)@.len() + i] == StateChange::MarkerFlipped(
                flips@[i],
            ),
{
    let ghost start = log@;
    let mut i: usize = 0;
    while i < flips.len()
        invariant
            i <= flips@.len(),
            log@.len() == start.len() + i,
            log@.subrange(0, start.len() as int) == start,
            forall|k: int| 0 <= k < i ==> #[trigger] log@[start.len() + k] == StateChange::MarkerFlipped(flips@[k]),
        decreases flips.len() - i,
    {
        log.push(StateChange::MarkerFlipped(flips[i]));
        proof {
            assert(log@.subrange(0, start.len() as int) =~= start);
        }
        i = i + 1;
    }
}

/// The events of a slide: the ring's move `first`, then each marker that changed owner.
fn slide_log(first: StateChange, from: HexCoord, to: HexCoord, flips: &Vec<HexCoord>, m: Ghost<Map<HexCoord, Piece>>) -> (log: Vec<StateChange>)
    requires
        forall|c: HexCoord| flips@.contains(c) <==> between(from, to, c) && holds_marker(piece_at(m@, c)),
        flips@.no_duplicates(),
    ensures
        log@.len() >= 1,
        log@[0] == first,
        flip_log(log@.drop_first(), m@, from, to),
{
    let mut log = vec![first];
    push_flips(&mut log, flips);
    proof {
        let rest = log@.drop_first();
        assert forall|i: int| 0 <= i < rest.len() implies (#[trigger] rest[i]) is MarkerFlipped by {
            assert(rest[i] == log@[1 + i]);
        }
        assert forall|c: HexCoord|
            #[trigger] rest.contains(StateChange::MarkerFlipped(c)) <==> between(from, to, c) && holds_marker(
                piece_at(m@, c),
            ) by {
            if rest.contains(StateChange::MarkerFlipped(c)) {
                let i = choose|i: int| 0 <= i < rest.len() && rest[i] == StateChange::MarkerFlipped(c);
                assert(rest[i] == log@[1 + i]);
                assert(flips@[i] == c);
            }
            if between(from, to, c) && holds_marker(piece_at(m@, c)) {
                let i = choose|i: int| 0 <= i < flips@.len() && flips@[i] == c;
                assert(log@[1 + i] == StateChange::MarkerFlipped(c));
                assert(rest[i] == log@[1 + i]);
            }
        }
        assert forall|a: int, b: int| 0 <= a < b < rest.len() implies rest[a] != rest[b] by {
            assert(rest[a] == log@[1 + a]);
            assert(rest[b] == log@[1 + b]);
        }
    }
    log
}

impl Command for MoveRing {
    open spec fn legal_in(&self, s: State) -> bool {
        &&& s.current_phase == Phase::MoveRing(self.from)
        &&& is_ring_target(s.board@, self.from, self.to)
    }

    open spec fn applied(&self, pre: State, post: State, log: Seq<StateChange>) -> bool {
        let placed = pre.board@.insert(self.to, Piece::Ring(pre.current_player));
        &&& post.board@ == flipped(placed, self.from, self.to)
        &&& (post.current_player, post.current_phase) == turn_after(post.board@, pre.current_player)
        &&& same_scores(pre, post)
        &&& log.len() >= 1
        &&& log[0] == StateChange::RingMoved(pre.current_player, self.from, self.to)
        &&& flip_log(log.drop_first(), placed, self.from, self.to)
    }

    open spec fn undo_ready(&self, s: State) -> bool {
        s.points_white < 3 && s.points_black < 3
    }

    open spec fn reverted(&self, pre: State, post: State, log: Seq<StateChange>) -> bool {
        let lifted = pre.board@.remove(self.to);
        &&& post.board@ == flipped(lifted, self.from, self.to)
        &&& post.current_player == self.player
        &&& post.current_phase == Phase::MoveRing(self.from)
        &&& same_scores(pre, post)
        &&& log.len() >= 1
        &&& log[0] == StateChange::RingMoved(self.player, self.to, self.from)
        &&& flip_log(log.drop_first(), lifted, self.from, self.to)
    }

    open spec fn anchor(&self) -> HexCoord {
        self.to
    }

    fn is_legal(&self, game: &State) -> (b: bool) {
        if !game.at_phase(&Phase::MoveRing(self.from)) {
            return false;
        }
        let targets = game.board.ring_targets(&self.from);
        let mut i: usize = 0;
        while i < targets.len()
            invariant
                i <= targets@.len(),
                game.current_phase == Phase::MoveRing(self.from),
                forall|t: HexCoord| targets@.contains(t) <==> is_ring_target(game.board@, self.from, t),
                forall|k: int| 0 <= k < i ==> targets@[k] != self.to,
            decreases targets.len() - i,
        {
            if targets[i] == self.to {
                proof {
                    assert(targets@.contains(self.to));
                }
                return true;
            }
            i = i + 1;
        }
        proof {
            assert(!targets@.contains(self.to));
        }
        false
    }

    fn execute(&self, game: &mut State) -> (log: Vec<StateChange>) {
        proof {
            lemma_ring_target_is_empty(game.board@, self.from, self.to);
        }
        let player = game.current_player;
        let piece = Piece::Ring(player);
        game.board.place_unchecked(&piece, &self.to);
        let ghost placed = game.board@;
        let flips = game.board.flip_between(&self.from, &self.to);
        game.compute_runs();
        let ghost after = *game;
        if game.has_run(&player) {
            game.set_phase(Phase::RemoveRun);
        } else if game.has_run(&player.other()) {
            game.set_phase(Phase::RemoveRun);
            game.next_player();
        } else {
            game.set_phase(Phase::PlaceMarker);
            game.next_player();
        }
        proof {
            State::lemma_fresh_transfer(after, *game);
        }
        slide_log(StateChange::RingMoved(player, self.from, self.to), self.from, self.to, &flips, Ghost(placed))
    }

    fn undo(&self, game: &mut State) -> (log: Vec<StateChange>) {
        game.board.remove(&self.to);
        let ghost lifted = game.board@;
        let flips = game.board.flip_between(&self.from, &self.to);
        game.current_player = self.player;
        game.set_phase(Phase::MoveRing(self.from));
        game.compute_runs();
        slide_log(StateChange::RingMoved(self.player, self.to, self.from), self.from, self.to, &flips, Ghost(lifted))
    }

    fn coord(&self) -> (c: HexCoord) {
        self.to
    }
}

impl Command for RemoveRun {
    open spec fn legal_in(&self, s: State) -> bool {
        &&& s.current_phase == Phase::RemoveRun
        &&& s.runs_of(s.current_player).contains(self.run@)
    }

    open spec fn applied(&self, pre: State, post: State, log: Seq<StateChange>) -> bool {
        &&& post.board@ == without_cells(pre.board@, self.run@)
        &&& post.current_player == pre.current_player
        &&& post.current_phase == Phase::RemoveRing
        &&& same_scores(pre, post)
        &&& log == self.run@.map_values(|c: HexCoord| StateChange::MarkerRemoved(pre.current_player, c))
    }

    open spec fn undo_ready(&self, s: State) -> bool {
        s.points_white < 3 && s.points_black < 3
    }

    open spec fn reverted(&self, pre: State, post: State, log: Seq<StateChange>) -> bool {
        &&& post.board@ == with_markers(pre.board@, self.run@, pre.current_player)
        &&& post.current_player == pre.current_player
        &&& post.current_phase == Phase::RemoveRun
        &&& same_scores(pre, post)
        &&& log == self.run@.map_values(|c: HexCoord| StateChange::MarkerPlaced(pre.current_player, c))
    }

    open spec fn anchor(&self) -> HexCoord {
        self.pos
    }

    fn is_legal(&self, game: &State) -> (b: bool) {
        game.at_phase(&Phase::RemoveRun) && game.is_valid_run(&game.current_player, &self.run)
    }

    fn execute(&self, game: &mut State) -> (log: Vec<StateChange>) {
        let ghost pre = *game;
        let player = game.current_player;
        let mut log: Vec<StateChange> = Vec::new();
        let mut i: usize = 0;
        while i < self.run.len()
            invariant
                i <= self.run@.len(),
                game.board.wf(),
                game.board@ == without_cells(pre.board@, self.run@.subrange(0, i as int)),
                game.current_player == player,
                player == pre.current_player,
                game.current_phase == pre.current_phase,
                game.points_white == pre.points_white,
                game.points_black == pre.points_black,
                game.history == pre.history,
                game.last_state_change == pre.last_state_change,
                log@ == self.run@.subrange(0, i as int).map_values(
                    |c: HexCoord| StateChange::MarkerRemoved(player, c),
                ),
            decreases self.run.len() - i,
        {
            let c = self.run[i];
            let ghost before = game.board@;
            game.board.remove(&c);
            log.push(StateChange::MarkerRemoved(player, c));
            proof {
                let done = self.run@.subrange(0, i + 1);
                assert(done =~= self.run@.subrange(0, i as int).push(c));
                assert(game.board@ =~= without_cells(pre.board@, done)) by {
                    assert forall|x: HexCoord| done.contains(x) <==> (self.run@.subrange(0, i as int).contains(x) || x == c) by {
                        if done.contains(x) {
                            let k = choose|k: int| 0 <= k < done.len() && done[k] == x;
                            if k < i {
                                assert(self.run@.subrange(0, i as int)[k] == x);
                            }
                        }
                        if self.run@.subrange(0, i as int).contains(x) {
                            let k = choose|k: int| 0 <= k < i && self.run@.subrange(0, i as int)[k] == x;
                            assert(done[k] == x);
                        }
                        if x == c {
                            assert(done[i as int] == x);
                        }
                    }
                }
                assert(log@ =~= done.map_values(|c: HexCoord| StateChange::MarkerRemoved(player, c)));
            }
            i = i + 1;
        }
        proof {
            assert(self.run@.subrange(0, self.run@.len() as int) =~= self.run@);
        }
        game.compute_runs();
        let ghost mid = *game;
        game.set_phase(Phase::RemoveRing);
        proof {
            State::lemma_fresh_transfer(mid, *game);
        }
        log
    }

    fn undo(&self, game: &mut State) -> (log: Vec<StateChange>) {
        game.set_phase(Phase::RemoveRun);
        let ghost pre = *game;
        let player = game.current_player;
        let marker = Piece::Marker(player);
        let mut log: Vec<StateChange> = Vec::new();
        let mut i: usize = 0;
        while i < self.run.len()
            invariant
                i <= self.run@.len(),
                game.board.wf(),
                game.board@ == with_markers(pre.board@, self.run@.subrange(0, i as int), player),
                game.current_player == player,
                player == pre.current_player,
                marker == Piece::Marker(player),
                game.current_phase == pre.current_phase,
                game.points_white == pre.points_white,
                game.points_black == pre.points_black,
                game.history == pre.history,
                game.last_state_change == pre.last_state_change,
                log@ == self.run@.subrange(0, i as int).map_values(
                    |c: HexCoord| StateChange::MarkerPlaced(player, c),
                ),
            decreases self.run.len() - i,
        {
            let c = self.run[i];
            game.board.place_unchecked(&marker, &c);
            log.push(StateChange::MarkerPlaced(player, c));
            proof {
                let done = self.run@.subrange(0, i + 1);
                assert(done =~= self.run@.subrange(0, i as int).push(c));
                assert forall|x: HexCoord| done.contains(x) <==> (self.run@.subrange(0, i as int).contains(x) || x == c) by {
                    if done.contains(x) {
                        let k = choose|k: int| 0 <= k < done.len() && done[k] == x;
                        if k < i {
                            assert(self.run@.subrange(0, i as int)[k] == x);
                        }
                    }
                    if self.run@.subrange(0, i as int).contains(x) {
                        let k = choose|k: int| 0 <= k < i && self.run@.subrange(0, i as int)[k] == x;
                        assert(done[k] == x);
                    }
                    if x == c {
                        assert(done[i as int] == x);
                    }
                }
                pre.board.lemma_on_board();
                assert(game.board@ =~= with_markers(pre.board@, done, player));
                assert(log@ =~= done.map_values(|c: HexCoord| StateChange::MarkerPlaced(player, c)));
            }
            i = i + 1;
        }
        proof {
            assert(self.run@.subrange(0, self.run@.len() as int) =~= self.run@);
        }
        game.compute_runs();
        log
    }

    fn coord(&self) -> (c: HexCoord) {
        self.pos
    }
}

impl Command for RemoveRing {
    open spec fn legal_in(&self, s: State) -> bool {
        &&& s.current_phase == Phase::RemoveRing
        &&& piece_at(s.board@, self.pos) == Some(Piece::Ring(s.current_player))
        &&& s.current_player == self.player
    }

    open spec fn applied(&self, pre: State, post: State, log: Seq<StateChange>) -> bool {
        &&& post.board@ == pre.board@.remove(self.pos)
        &&& post.score(self.player) == pre.score(self.player) + 1
        &&& post.score(opponent(self.player)) == pre.score(opponent(self.player))
        &&& if post.score(self.player) == 3 {
            post.current_player == self.player && post.current_phase == Phase::PlayerWon(self.player)
        } else {
            (post.current_player, post.current_phase) == turn_after(post.board@, self.player)
        }
        &&& post.runs_white == pre.runs_white
        &&& post.runs_black == pre.runs_black
        &&& log == seq![StateChange::RingRemoved(self.player, self.pos)]
    }

    open spec fn undo_ready(&self, s: State) -> bool {
        s.score(self.player) >= 1 && s.score(opponent(self.player)) < 3
    }

    open spec fn reverted(&self, pre: State, post: State, log: Seq<StateChange>) -> bool {
        &&& post.board@ == if self.pos.valid() {
            pre.board@.insert(self.pos, Piece::Ring(self.player))
        } else {
            pre.board@
        }
        &&& post.current_player == self.player
        &&& post.current_phase == Phase::RemoveRing
        &&& post.score(self.player) == pre.score(self.player) - 1
        &&& post.score(opponent(self.player)) == pre.score(opponent(self.player))
        &&& log == seq![StateChange::RingPlaced(self.player, self.pos)]
    }

    open spec fn anchor(&self) -> HexCoord {
        self.pos
    }

    fn is_legal(&self, game: &State) -> (b: bool) {
        game.at_phase(&Phase::RemoveRing) && game.board.player_ring_at(&self.pos, &game.current_player)
            && game.current_player == self.player
    }

    fn execute(&self, game: &mut State) -> (log: Vec<StateChange>) {
        let ghost pre = *game;
        game.board.remove(&self.pos);
        proof {
            assert forall|c: HexCoord, p: Player|
                #[trigger] is_marker_of(piece_at(pre.board@, c), p) == is_marker_of(piece_at(game.board@, c), p) by {
                if c != self.pos {
                    assert(piece_at(pre.board@, c) == piece_at(game.board@, c));
                }
            }
            lemma_runs_stay_fresh(pre, *game);
        }
        let ghost lifted = *game;
        let log = vec![StateChange::RingRemoved(self.player, self.pos)];
        assert(log@ =~= seq![StateChange::RingRemoved(self.player, self.pos)]);
        let current_player = game.current_player;
        game.inc_score(&current_player);
        let ghost mid = *game;
        proof {
            State::lemma_fresh_transfer(lifted, mid);
        }
        if game.get_score(&current_player) == 3 {
            game.set_phase(Phase::PlayerWon(current_player));
            proof {
                State::lemma_fresh_transfer(mid, *game);
            }
            return log;
        }
        if game.has_run(&game.current_player) {
            game.set_phase(Phase::RemoveRun);
            proof {
                State::lemma_fresh_transfer(mid, *game);
            }
            return log;
        }
        game.next_player();
        proof {
            State::lemma_fresh_transfer(mid, *game);
        }
        if game.has_run(&game.current_player) {
            game.set_phase(Phase::RemoveRun);
        } else {
            game.set_phase(Phase::PlaceMarker);
        }
        proof {
            State::lemma_fresh_transfer(mid, *game);
        }
        log
    }

    fn undo(&self, game: &mut State) -> (log: Vec<StateChange>) {
        game.current_player = self.player;
        game.dec_score(&self.player);
        game.set_phase(Phase::RemoveRing);
        let ring = Piece::Ring(game.current_player);
        game.board.place_unchecked(&ring, &self.pos);
        game.compute_runs();
        let log = vec![StateChange::RingPlaced(self.player, self.pos)];
        assert(log@ =~= seq![StateChange::RingPlaced(self.player, self.pos)]);
        log
    }

    fn coord(&self) -> (c: HexCoord) {
        self.pos
    }
}

impl Command for Action {
    open spec fn legal_in(&self, s: State) -> bool {
        match self {
            Action::PlaceRing(x) => x.legal_in(s),
            Action::PlaceMarker(x) => x.legal_in(s),
            Action::MoveRing(x) => x.legal_in(s),
            Action::RemoveRun(x) => x.legal_in(s),
            Action::RemoveRing(x) => x.legal_in(s),
        }
    }

    open spec fn applied(&self, pre: State, post: State, log: Seq<StateChange>) -> bool {
        match self {
            Action::PlaceRing(x) => x.applied(pre, post, log),
            Action::PlaceMarker(x) => x.applied(pre, post, log),
            Action::MoveRing(x) => x.applied(pre, post, log),
            Action::RemoveRun(x) => x.applied(pre, post, log),
            Action::RemoveRing(x) => x.applied(pre, post, log),
        }
    }

    open spec fn undo_ready(&self, s: State) -> bool {
        match self {
            Action::PlaceRing(x) => x.undo_ready(s),
            Action::PlaceMarker(x) => x.undo_ready(s),
            Action::MoveRing(x) => x.undo_ready(s),
            Action::RemoveRun(x) => x.undo_ready(s),
            Action::RemoveRing(x) => x.undo_ready(s),
        }
    }

    open spec fn reverted(&self, pre: State, post: State, log: Seq<StateChange>) -> bool {
        match self {
            Action::PlaceRing(x) => x.reverted(pre, post, log),
            Action::PlaceMarker(x) => x.reverted(pre, post, log),
            Action::MoveRing(x) => x.reverted(pre, post, log),
            Action::RemoveRun(x) => x.reverted(pre, post, log),
            Action::RemoveRing(x) => x.reverted(pre, post, log),
        }
    }

    open spec fn anchor(&self) -> HexCoord {
        match self {
            Action::PlaceRing(x) => x.anchor(),
            Action::PlaceMarker(x) => x.anchor(),
            Action::MoveRing(x) => x.anchor(),
            Action::RemoveRun(x) => x.anchor(),
            Action::RemoveRing(x) => x.anchor(),
        }
    }

    fn is_legal(&self, game: &State) -> (b: bool) {
        match self {
            Action::PlaceRing(x) => x.is_legal(game),
            Action::PlaceMarker(x) => x.is_legal(game),
            Action::MoveRing(x) => x.is_legal(game),
            Action::RemoveRun(x) => x.is_legal(game),
            Action::RemoveRing(x) => x.is_legal(game),
        }
    }

    fn execute(&self, game: &mut State) -> (log: Vec<StateChange>) {
        match self {
            Action::PlaceRing(x) => x.execute(game),
            Action::PlaceMarker(x) => x.execute(game),
            Action::MoveRing(x) => x.execute(game),
            Action::RemoveRun(x) => x.execute(game),
            Action::RemoveRing(x) => x.execute(game),
        }
    }

    fn undo(&self, game: &mut State) -> (log: Vec<StateChange>) {
        match self {
            Action::PlaceRing(x) => x.undo(game),
            Action::PlaceMarker(x) => x.undo(game),
            Action::MoveRing(x) => x.undo(game),
            Action::RemoveRun(x) => x.undo(game),
            Action::RemoveRing(x) => x.undo(game),
        }
    }

    fn coord(&self) -> (c: HexCoord) {
        match self {
            Action::PlaceRing(x) => x.coord(),
            Action::PlaceMarker(x) => x.coord(),
            Action::MoveRing(x) => x.coord(),
            Action::RemoveRun(x) => x.coord(),
            Action::RemoveRing(x) => x.coord(),
        }
    }
}

/// Undoing a legal command restores the board, the player to move, the
/// phase and both scores exactly. For a slide, the command must name the
/// player to move, since its inverse hands the turn to the player it names.
pub proof fn lemma_undo_restores(
    a: Action,
    s0: State,
    s1: State,
    s2: State,
    log1: Seq<StateChange>,
    log2: Seq<StateChange>,
)
    requires
        s0.wf(),
        a.legal_in(s0),
        a.applied(s0, s1, log1),
        a.reverted(s1, s2, log2),
        a matches Action::MoveRing(x) ==> x.player == s0.current_player,
    ensures
        s2.board@ == s0.board@,
        s2.current_player == s0.current_player,
        s2.current_phase == s0.current_phase,
        s2.points_white == s0.points_white,
        s2.points_black == s0.points_black,
{
    s0.board.lemma_on_board();
    match a {
        Action::PlaceRing(x) => {
            assert(s2.board@ =~= s0.board@);
        },
        Action::PlaceMarker(x) => {
            assert(s2.board@ =~= s0.board@);
        },
        Action::MoveRing(x) => {
            lemma_ring_target_is_empty(s0.board@, x.from, x.to);
            assert(!between(x.from, x.to, x.to)) by {
                if between(x.from, x.to, x.to) {
                    let (d, k, j) = choose|d: int, k: int, j: int|
                        #![trigger crate::coord::line_q(x.from.q as int, d, k), crate::coord::line_q(x.from.q as int, d, j)]
                        0 <= d < crate::coord::NUM_DIRECTIONS && 1 <= j < k && x.to.q == crate::coord::line_q(
                            x.from.q as int,
                            d,
                            k,
                        ) && x.to.r == crate::coord::line_r(x.from.r as int, d, k) && crate::coord::line_q(
                            x.from.q as int,
                            d,
                            j,
                        ) == x.to.q && crate::coord::line_r(x.from.r as int, d, j) == x.to.r;
                }
            }
            let placed = s0.board@.insert(x.to, Piece::Ring(s0.current_player));
            assert(s2.board@ =~= s0.board@) by {
                assert forall|c: HexCoord| s0.board@.dom().contains(c) implies s2.board@[c] == s0.board@[c] by {
                    if between(x.from, x.to, c) {
                        crate::entities::lemma_opponent_involutive(s0.board@[c].owner());
                    }
                }
            }
        },
        Action::RemoveRun(x) => {
            assert(is_run(s0.board@, s0.current_player, x.run@));
            lemma_run_cells(s0.board@, s0.current_player, x.run@);
            assert(s2.board@ =~= s0.board@) by {
                assert forall|c: HexCoord| x.run@.contains(c) implies s0.board@.dom().contains(c) && s0.board@[c]
                    == Piece::Marker(s0.current_player) by {
                    let i = choose|i: int| 0 <= i < x.run@.len() && x.run@[i] == c;
                    assert(piece_at(s0.board@, x.run@[i]) == Some(Piece::Marker(s0.current_player)));
                }
            }
        },
        Action::RemoveRing(x) => {
            assert(s2.board@ =~= s0.board@);
            if x.player == Player::White {
                assert(s2.points_white == s0.points_white);
            } else {
                assert(s2.points_black == s0.points_black);
            }
        },
    }
}

} // verus!
