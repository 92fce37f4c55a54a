//! The state of a game as a player sees it: the board, the selected peg, the
//! moves that can be undone and redone, and what the path cache knows. The
//! state changes by actions, one at a time.

use crate::arrangement::{
    lemma_check_move_by_position, lemma_moved_position, lemma_position_by_holes,
    pegs_check_move, pegs_moved, pegs_occupied, pegs_position, pegs_toggled, true_count,
    Arrangement, MoveInfo, Peg, Pegs,
};
use crate::bloom::BloomFilter;
use crate::coord::{hole_x, hole_y, Coord};
use crate::moves::Move;
use crate::position::{
    lemma_inverse_move, lemma_move_changes_count, lemma_move_needs_pegs,
    lemma_start_and_end_counts, Position,
};
use crate::solve_path::{lemma_move_keeps_consistent, Solvability, SolvePath};
use crate::solver::{spec_movable, spec_moved, Direction};
use std::rc::Rc;
use vstd::prelude::*;

verus! {

/// Whether clicks move pegs or edit the board.
#[derive(Debug, Clone, Copy, PartialEq, Eq, Structural)]
pub enum Mode {
    Play,
    Edit,
}

/// What a player can do.
#[derive(Clone)]
pub enum GameAction {
    ClickHole { coord: Coord },
    SetMode { mode: Mode },
    Reset,
    Undo,
    Redo,
    RegisterSolver { solver: Rc<BloomFilter> },
    StepSolution { dir: Direction },
}

/// A change that can be undone: an edit, kept as the arrangement before it,
/// or a move.
#[derive(Clone, Copy)]
pub enum HistoryEntry {
    Edit(Arrangement),
    Move(Move, Direction),
}

/// Game state as seen from the user interface. The interaction with this
/// state happens through `GameAction`s.
#[derive(Clone)]
pub struct GameState {
    history: Vec<HistoryEntry>,
    redo: Vec<HistoryEntry>,
    solve_path: SolvePath,
    arrangement: Arrangement,
    selection: Option<Coord>,
    pub mode: Mode,
    has_made_first_move: bool,
    bloom_filter: Option<Rc<BloomFilter>>,
}

/// The pegs form a position that the path cache can track: neither empty
/// nor full.
pub open spec fn countable(pegs: Pegs) -> bool {
    1 <= pegs_position(pegs).spec_count() <= 32
}

/// The cache is what `asked` becomes when it asks the index about the
/// position, if there is an index: what was known stays, and what was not
/// is what the solver finds. Without an index the cache is `asked` itself.
pub open spec fn cache_after_asking(
    cache: SolvePath,
    asked: SolvePath,
    solver: Option<BloomFilter>,
    pos: Position,
) -> bool {
    match solver {
        None => cache == asked,
        Some(filter) => {
            &&& cache.spec_nr_pegs() == asked.spec_nr_pegs()
            &&& cache.asked(asked, filter, pos, Direction::Forward)
            &&& cache.asked(asked, filter, pos, Direction::Backward)
        },
    }
}

/// The cache `moved` is what the cache `before` becomes by the move `mv` in
/// direction `dir`: it has followed the cached path if the move was the
/// next one there, and left it otherwise.
pub open spec fn cache_followed(moved: SolvePath, before: SolvePath, mv: Move, dir: Direction) -> bool {
    if before.spec_next_move(dir) == Some(mv) {
        moved.follows_path(before, dir)
    } else {
        moved.leaves_path(before, mv, dir)
    }
}

/// The cache is what `before` becomes by the move and then by asking the
/// index about the position `pos` after the move.
pub open spec fn cache_after_move(
    cache: SolvePath,
    before: SolvePath,
    mv: Move,
    dir: Direction,
    solver: Option<BloomFilter>,
    pos: Position,
) -> bool {
    exists|moved: SolvePath|
        #[trigger] cache_followed(moved, before, mv, dir) && cache_after_asking(
            cache,
            moved,
            solver,
            pos,
        )
}

/// The cache is what a new cache for the position becomes by asking the
/// index about it.
pub open spec fn cache_after_restart(cache: SolvePath, solver: Option<BloomFilter>, pos: Position) -> bool {
    exists|fresh: SolvePath|
        #[trigger] fresh.is_new_for(pos) && cache_after_asking(cache, fresh, solver, pos)
}

/// The pegs after the entry was undone or redone: the arrangement of an
/// edit, or the pegs after the move was performed.
pub open spec fn entry_applied(pegs: Pegs, entry: HistoryEntry) -> Pegs {
    match entry {
        HistoryEntry::Edit(arrangement) => arrangement@,
        HistoryEntry::Move(mv, _) => pegs_moved(pegs, mv.spec_source(), mv.spec_destination()),
    }
}

/// Whether the entry can be applied to the pegs in the direction `dir` of
/// time: redone if `dir` is forward, undone if it is backward. The
/// arrangement of an edit can always be put back; a move must be possible in
/// its own direction to be redone and in the opposite one to be undone.
pub open spec fn entry_fits(pegs: Pegs, entry: HistoryEntry, dir: Direction) -> bool {
    match entry {
        HistoryEntry::Edit(arrangement) => arrangement.wf() && countable(arrangement@),
        HistoryEntry::Move(mv, of) => mv.valid() && pegs_check_move(
            pegs,
            mv.spec_source(),
            mv.spec_destination(),
            if dir == Direction::Forward {
                of
            } else {
                of.opposite()
            },
        ) is Ok,
    }
}

/// The entries can be applied one after the other, the last one first.
pub open spec fn chain_fits(pegs: Pegs, entries: Seq<HistoryEntry>, dir: Direction) -> bool
    decreases entries.len(),
{
    entries.len() == 0 || {
        &&& entry_fits(pegs, entries.last(), dir)
        &&& chain_fits(entry_applied(pegs, entries.last()), entries.drop_last(), dir)
    }
}

impl GameState {
    /// The pegs of the game and their holes.
    pub closed spec fn spec_arrangement(self) -> Arrangement {
        self.arrangement
    }

    /// The hole of the peg that is selected, if one is.
    pub closed spec fn spec_selection(self) -> Option<Coord> {
        self.selection
    }

    /// The changes that can be undone, the latest last.
    pub closed spec fn spec_history(self) -> Seq<HistoryEntry> {
        self.history@
    }

    /// The changes that can be redone, the next one last.
    pub closed spec fn spec_redo(self) -> Seq<HistoryEntry> {
        self.redo@
    }

    /// What is known of how to solve the position.
    pub closed spec fn spec_solve_path(self) -> SolvePath {
        self.solve_path
    }

    /// Whether clicks move pegs or edit the board.
    pub closed spec fn spec_mode(self) -> Mode {
        self.mode
    }

    /// Whether a move was ever made by a click.
    pub closed spec fn spec_first_move(self) -> bool {
        self.has_made_first_move
    }

    /// The index that was registered, if one was.
    pub closed spec fn spec_solver(self) -> Option<BloomFilter> {
        match self.bloom_filter {
            Some(filter) => Some(*filter),
            None => None,
        }
    }

    /// The pegs of the game.
    pub open spec fn spec_pegs(self) -> Pegs {
        self.spec_arrangement()@
    }

    /// The position of the game.
    pub open spec fn spec_position(self) -> Position {
        pegs_position(self.spec_pegs())
    }

    /// The board is neither empty nor full, the path cache speaks of the
    /// position of the board and what it says is true, and a registered
    /// index can be asked.
    pub open spec fn board_wf(self) -> bool {
        &&& self.spec_arrangement().wf()
        &&& countable(self.spec_pegs())
        &&& self.spec_solve_path().wf()
        &&& self.spec_solve_path().spec_nr_pegs() == self.spec_position().spec_count()
        &&& self.spec_solve_path().consistent(self.spec_position(), Direction::Forward)
        &&& self.spec_solve_path().consistent(self.spec_position(), Direction::Backward)
        &&& self.spec_solver() matches Some(filter) ==> filter.wf() && filter.spec_nr_bits() > 0
    }

    /// The state is sound: its board is, and every change of the history
    /// can be undone in turn.
    pub open spec fn wf(self) -> bool {
        &&& self.board_wf()
        &&& chain_fits(self.spec_pegs(), self.spec_history(), Direction::Backward)
    }

    /// The state is the state `before` but for the board and the path
    /// cache.
    pub open spec fn same_but_board(self, before: GameState) -> bool {
        &&& self.spec_selection() == before.spec_selection()
        &&& self.spec_history() == before.spec_history()
        &&& self.spec_redo() == before.spec_redo()
        &&& self.spec_mode() == before.spec_mode()
        &&& self.spec_first_move() == before.spec_first_move()
        &&& self.spec_solver() == before.spec_solver()
    }

    /// The path cache has asked the index, if one is known, about the
    /// position of the game since it was `asked`.
    pub open spec fn cache_asked(self, asked: SolvePath) -> bool {
        cache_after_asking(self.spec_solve_path(), asked, self.spec_solver(), self.spec_position())
    }

    /// The path cache has followed the move `mv` in direction `dir` from
    /// the cache of `before`, along the cached path or off it, and has then
    /// asked the index, if one is known.
    pub open spec fn cache_moved(self, before: GameState, mv: Move, dir: Direction) -> bool {
        cache_after_move(
            self.spec_solve_path(),
            before.spec_solve_path(),
            mv,
            dir,
            self.spec_solver(),
            self.spec_position(),
        )
    }

    /// The path cache is a new one for the position of the game that has
    /// asked the index, if one is known.
    pub open spec fn cache_restarted(self) -> bool {
        cache_after_restart(self.spec_solve_path(), self.spec_solver(), self.spec_position())
    }

    /// Every change of the redo list can be redone in turn.
    pub open spec fn redo_ready(self) -> bool {
        chain_fits(self.spec_pegs(), self.spec_redo(), Direction::Forward)
    }

    /// The state is the state `before` but for the path cache, which speaks
    /// of the same position.
    pub open spec fn same_but_cache(self, before: GameState) -> bool {
        &&& self.spec_arrangement() == before.spec_arrangement()
        &&& self.spec_selection() == before.spec_selection()
        &&& self.spec_history() == before.spec_history()
        &&& self.spec_redo() == before.spec_redo()
        &&& self.spec_mode() == before.spec_mode()
        &&& self.spec_first_move() == before.spec_first_move()
        &&& self.spec_solver() == before.spec_solver()
    }

    /// A fresh game: the start position, nothing selected, nothing to undo
    /// or redo, play mode, and no index.
    pub fn new() -> (r: GameState)
        ensures
            r.wf(),
            r.redo_ready(),
            r.is_fresh(),
            r.spec_first_move() == false,
            r.spec_solver() is None,
    {
        let arrangement = Arrangement::new();
        proof {
            lemma_start_and_end_counts();
        }
        let solve_path = SolvePath::new(arrangement.as_position());
        proof {
            use_type_invariant(&solve_path);
        }
        GameState {
            history: Vec::new(),
            redo: Vec::new(),
            solve_path,
            arrangement,
            selection: None,
            mode: Mode::Play,
            has_made_first_move: false,
            bloom_filter: None,
        }
    }

    /// The state is that of a game that has just begun.
    pub open spec fn is_fresh(self) -> bool {
        &&& self.spec_pegs() == (Seq::new(33, |h: int| h), Seq::new(33, |p: int| p != 16))
        &&& self.spec_position() == Position::spec_default_start()
        &&& self.spec_selection() is None
        &&& self.spec_history().len() == 0
        &&& self.spec_redo().len() == 0
        &&& self.spec_mode() == Mode::Play
        &&& self.spec_solve_path().is_new_for(Position::spec_default_start())
    }

    /// The selected coordinate, if a peg is selected.
    pub fn selected_coord(&self) -> (r: Option<Coord>)
        ensures
            r == self.spec_selection(),
    {
        self.selection
    }

    /// The position of the game.
    pub fn as_position(&self) -> (r: Position)
        ensures
            r == self.spec_position(),
            r.wf(),
    {
        self.arrangement.as_position()
    }

    /// The number of pegs on the board.
    pub fn nr_pegs(&self) -> (r: i32)
        ensures
            r == true_count(self.spec_pegs().1),
            r == self.spec_position().spec_count(),
    {
        self.arrangement.nr_pegs() as i32
    }

    /// The identity of the peg in the hole, if that peg is on the board.
    pub fn lookup(&self, coord: Coord) -> (r: Option<usize>)
        ensures
            r == if pegs_occupied(self.spec_pegs(), coord) {
                Some(self.spec_pegs().0[coord.spec_hole_idx()] as usize)
            } else {
                None
            },
    {
        self.arrangement.lookup(coord)
    }

    /// Whether the forward move from `src` to `dst` can be made on the
    /// board: if so, the pegs that take part in it, and the two holes.
    pub fn check_move(&self, src: Coord, dst: Coord) -> (r: Option<MoveInfo>)
        ensures
            r is Some <==> pegs_check_move(self.spec_pegs(), src, dst, Direction::Forward) is Ok,
            r matches Some(info) ==> {
                &&& info.spec_src() == src
                &&& info.spec_dst() == dst
                &&& info.spec_moved_idx() == self.spec_pegs().0[src.spec_hole_idx()]
                &&& info.spec_eliminated_idx() == self.spec_pegs().0[Move::jump(
                    src,
                    dst,
                ).spec_middle().spec_hole_idx()]
            },
    {
        self.arrangement.check_move(src, dst)
    }

    /// The pegs by their identities: where each one is and whether it is on
    /// the board.
    pub fn pegs(&self) -> (r: [Peg; 33])
        ensures
            forall|p: int|
                0 <= p < 33 ==> (#[trigger] r@[p]).alive == self.spec_pegs().1[p] && r@[p].coord
                    == Coord::at(
                    hole_x(self.spec_arrangement().spec_hole_of(p)),
                    hole_y(self.spec_arrangement().spec_hole_of(p)),
                ),
    {
        self.arrangement.pegs()
    }

    /// Whether there is a change to undo.
    pub fn can_undo(&self) -> (r: bool)
        ensures
            r == (self.spec_history().len() > 0),
    {
        self.history.len() > 0
    }

    /// Whether there is a change to redo.
    pub fn can_redo(&self) -> (r: bool)
        ensures
            r == (self.spec_redo().len() > 0),
    {
        self.redo.len() > 0
    }

    /// Whether a move was ever made by a click, in this game or before a reset.
    pub fn has_made_first_move(&self) -> (r: bool)
        ensures
            r == self.spec_first_move(),
    {
        self.has_made_first_move
    }

    /// What is known of the backward and of the forward direction.
    pub fn is_solvable(&self) -> (r: (Solvability, Solvability))
        ensures
            r.0 == self.spec_solve_path().spec_status(Direction::Backward),
            r.1 == self.spec_solve_path().spec_status(Direction::Forward),
    {
        self.solve_path.is_solvable()
    }

    /// The direction in which a step along the solution brings the number
    /// of pegs on the board nearer to `target`: backward while pegs are
    /// missing, forward while there are too many, and none once the target
    /// is reached.
    pub fn scroll_direction(&self, target: i32) -> (r: Option<Direction>)
        ensures
            r == if self.spec_position().spec_count() < target {
                Some(Direction::Backward)
            } else if self.spec_position().spec_count() == target {
                None
            } else {
                Some(Direction::Forward)
            },
    {
        let nr_pegs = self.nr_pegs();
        if nr_pegs < target {
            Some(Direction::Backward)
        } else if nr_pegs == target {
            None
        } else {
            Some(Direction::Forward)
        }
    }

    /// Asks the solver about the directions of which nothing is known, if an
    /// index was registered.
    fn recompute(&mut self)
        requires
            old(self).spec_arrangement().wf(),
            old(self).spec_solve_path().spec_nr_pegs() == old(self).spec_position().spec_count(),
            old(self).spec_solver() matches Some(filter) ==> filter.wf() && filter.spec_nr_bits() > 0,
        ensures
            final(self).same_but_cache(*old(self)),
            final(self).spec_solve_path().spec_nr_pegs() == old(self).spec_solve_path().spec_nr_pegs(),
            final(self).cache_asked(old(self).spec_solve_path()),
            old(self).spec_solve_path().consistent(old(self).spec_position(), Direction::Forward)
                ==> final(self).spec_solve_path().consistent(
                old(self).spec_position(),
                Direction::Forward,
            ),
            old(self).spec_solve_path().consistent(old(self).spec_position(), Direction::Backward)
                ==> final(self).spec_solve_path().consistent(
                old(self).spec_position(),
                Direction::Backward,
            ),
    {
        let pos = self.arrangement.as_position();
        match &self.bloom_filter {
            Some(filter) => {
                self.solve_path.recompute(filter, pos);
            },
            None => {},
        }
    }
}

impl GameState {
    /// Performs a move that is possible on the board and lets the path
    /// cache follow it.
    fn follow_move(&mut self, mv: Move, dir: Direction)
        requires
            old(self).board_wf(),
            pegs_check_move(old(self).spec_pegs(), mv.spec_source(), mv.spec_destination(), dir)
                is Ok,
        ensures
            final(self).board_wf(),
            final(self).same_but_board(*old(self)),
            final(self).spec_pegs() == pegs_moved(
                old(self).spec_pegs(),
                mv.spec_source(),
                mv.spec_destination(),
            ),
            pegs_check_move(
                final(self).spec_pegs(),
                mv.spec_source(),
                mv.spec_destination(),
                dir.opposite(),
            ) is Ok,
            pegs_moved(final(self).spec_pegs(), mv.spec_source(), mv.spec_destination()) == old(
                self,
            ).spec_pegs(),
            final(self).cache_moved(*old(self), mv, dir),
    {
        let ghost pegs = self.spec_pegs();
        let ghost pos = self.spec_position();
        let ghost cache = self.solve_path;
        let src = mv.source();
        let dst = mv.destination();
        proof {
            use_type_invariant(&mv);
            mv.lemma_valid_is_jump();
            lemma_position_by_holes(pegs, src);
            lemma_moved_position(pegs, src, dst, dir);
            lemma_move_needs_pegs(pos, mv);
            lemma_move_changes_count(pos, mv);
        }
        let done = self.arrangement.perform_move(src, dst, dir);
        self.solve_path.apply_move(mv, dir);
        let ghost moved = self.solve_path;
        proof {
            use_type_invariant(&self.solve_path);
            lemma_move_keeps_consistent(cache, self.solve_path, pos, mv, dir);
            assert(cache_followed(moved, cache, mv, dir));
        }
        self.recompute();
        proof {
            use_type_invariant(&self.solve_path);
            assert(cache_after_asking(
                self.spec_solve_path(),
                moved,
                self.spec_solver(),
                self.spec_position(),
            ));
        }
    }
}

/// A chain with one more entry fits if that entry fits and the chain fits
/// what the entry gives.
pub proof fn lemma_chain_push(pegs: Pegs, entries: Seq<HistoryEntry>, entry: HistoryEntry, dir: Direction)
    ensures
        chain_fits(pegs, entries.push(entry), dir) == (entry_fits(pegs, entry, dir) && chain_fits(
            entry_applied(pegs, entry),
            entries,
            dir,
        )),
{
    assert(entries.push(entry).drop_last() =~= entries);
}

impl GameState {
    /// The state is the state `before`.
    pub open spec fn unchanged(self, before: GameState) -> bool {
        self.same_but_selection(before) && self.spec_selection() == before.spec_selection()
    }

    /// The state is the state `before` but for the selection.
    pub open spec fn same_but_selection(self, before: GameState) -> bool {
        &&& self.spec_arrangement() == before.spec_arrangement()
        &&& self.spec_solve_path() == before.spec_solve_path()
        &&& self.spec_history() == before.spec_history()
        &&& self.spec_redo() == before.spec_redo()
        &&& self.spec_mode() == before.spec_mode()
        &&& self.spec_first_move() == before.spec_first_move()
        &&& self.spec_solver() == before.spec_solver()
    }

    /// The state after a click on a hole in play mode. Without a selection
    /// the click selects the peg in the hole, if there is one. With a
    /// selection, a click on the selected peg drops the selection, a click
    /// on another peg selects that one, and a click on an empty hole moves
    /// the selected peg there if that is a jump that can be made: the move
    /// goes into the history, nothing can be redone any more, and nothing is
    /// selected. Any other click changes nothing.
    pub open spec fn clicked_play(self, before: GameState, coord: Coord) -> bool {
        let pegs = before.spec_pegs();
        match before.spec_selection() {
            None => {
                &&& self.same_but_selection(before)
                &&& self.spec_selection() == if pegs_occupied(pegs, coord) {
                    Some(coord)
                } else {
                    None
                }
            },
            Some(selected) => if selected == coord {
                self.same_but_selection(before) && self.spec_selection() is None
            } else if pegs_occupied(pegs, coord) {
                self.same_but_selection(before) && self.spec_selection() == Some(coord)
            } else if pegs_check_move(pegs, selected, coord, Direction::Forward) is Ok {
                &&& self.spec_pegs() == pegs_moved(pegs, selected, coord)
                &&& self.spec_selection() is None
                &&& self.spec_history() == before.spec_history().push(
                    HistoryEntry::Move(Move::jump(selected, coord), Direction::Forward),
                )
                &&& self.spec_redo().len() == 0
                &&& self.spec_mode() == before.spec_mode()
                &&& self.spec_first_move()
                &&& self.spec_solver() == before.spec_solver()
                &&& self.cache_moved(before, Move::jump(selected, coord), Direction::Forward)
            } else {
                self.unchanged(before)
            },
        }
    }

    fn click_play(self, coord: Coord) -> (r: GameState)
        requires
            self.wf(),
        ensures
            r.wf(),
            self.redo_ready() ==> r.redo_ready(),
            r.clicked_play(self, coord),
    {
        let mut state = self;
        let ghost pegs = self.spec_pegs();
        match state.selection {
            None => {
                // Nothing currently selected
                if state.arrangement.is_occupied(coord) {
                    state.selection = Some(coord);
                }
                state
            },
            Some(selected_coord) => {
                // A peg is currently selected
                if selected_coord == coord {
                    // Same peg is clicked again, deselecting the peg.
                    state.selection = None;
                    return state;
                }
                if state.arrangement.is_occupied(coord) {
                    // Clicked a different peg, select that one instead.
                    state.selection = Some(coord);
                    return state;
                }
                // Clicked an empty hole, try to perform a move

                let mv = match Move::from_coords(selected_coord, coord) {
                    Some(mv) => mv,
                    None => {
                        // The selected coordinates are not two holes apart.
                        return state;
                    },
                };
                proof {
                    use_type_invariant(&selected_coord);
                    use_type_invariant(&coord);
                    Move::lemma_jump_valid(selected_coord, coord);
                    lemma_check_move_by_position(pegs, selected_coord, coord, Direction::Forward);
                }
                if !state.arrangement.as_position().can_move(mv) {
                    // an attempt to perform an invalid move is ignored
                    return state;
                }
                state.follow_move(mv, Direction::Forward);
                // successfully made a move
                state.has_made_first_move = true;
                state.history.push(HistoryEntry::Move(mv, Direction::Forward));
                state.redo.clear();
                state.selection = None;
                proof {
                    lemma_chain_push(
                        state.spec_pegs(),
                        self.spec_history(),
                        HistoryEntry::Move(mv, Direction::Forward),
                        Direction::Backward,
                    );
                }
                state
            },
        }
    }
}

impl GameState {
    /// A new path cache for the board, asked at once if an index is known.
    fn restart_cache(&mut self)
        requires
            old(self).spec_arrangement().wf(),
            countable(old(self).spec_pegs()),
            old(self).spec_solver() matches Some(filter) ==> filter.wf() && filter.spec_nr_bits() > 0,
        ensures
            final(self).board_wf(),
            final(self).same_but_cache(*old(self)),
            final(self).cache_restarted(),
    {
        let pos = self.arrangement.as_position();
        self.solve_path = SolvePath::new(pos);
        let ghost fresh = self.solve_path;
        proof {
            use_type_invariant(&self.solve_path);
        }
        self.recompute();
        proof {
            use_type_invariant(&self.solve_path);
            assert(fresh.is_new_for(self.spec_position()) && cache_after_asking(
                self.spec_solve_path(),
                fresh,
                self.spec_solver(),
                self.spec_position(),
            ));
        }
    }

    /// The state after a click on a hole in edit mode: the peg in the hole
    /// has left the board or come back. The arrangement before the click
    /// goes into the history, unless the latest entry there is an edit
    /// already, so that edits that follow each other are undone as one.
    /// Nothing can be redone any more.
    pub open spec fn clicked_edit(self, before: GameState, coord: Coord) -> bool {
        let history = before.spec_history();
        &&& self.spec_pegs() == pegs_toggled(before.spec_pegs(), coord)
        &&& self.spec_selection() == before.spec_selection()
        &&& self.spec_history() == if history.len() > 0 && history.last() is Edit {
            history
        } else {
            history.push(HistoryEntry::Edit(before.spec_arrangement()))
        }
        &&& self.spec_redo().len() == 0
        &&& self.spec_mode() == before.spec_mode()
        &&& self.spec_first_move() == before.spec_first_move()
        &&& self.spec_solver() == before.spec_solver()
        &&& self.cache_restarted()
    }

    /// Takes the peg in the hole off the board, or puts it back, as an edit
    /// of the board.
    pub fn edit_toggle_peg(self, coord: Coord) -> (r: GameState)
        requires
            self.wf(),
            countable(pegs_toggled(self.spec_pegs(), coord)),
        ensures
            r.wf(),
            r.redo_ready(),
            r.clicked_edit(self, coord),
    {
        // Clicking a hole (or peg) in edit mode means toggling peg presence
        // in that location.
        let mut state = self;
        let old_arrangement = state.arrangement;

        state.arrangement.toggle_hole(coord);
        state.restart_cache();

        // If the last history entry already contains an edit, then we don't
        // append another entry. This has the effect of combining all the
        // edits into one.
        let len = state.history.len();
        let last_is_edit = len > 0 && match state.history[len - 1] {
            HistoryEntry::Edit(_) => true,
            HistoryEntry::Move(_, _) => false,
        };
        if !last_is_edit {
            state.history.push(HistoryEntry::Edit(old_arrangement));
            proof {
                lemma_chain_push(
                    state.spec_pegs(),
                    self.spec_history(),
                    HistoryEntry::Edit(old_arrangement),
                    Direction::Backward,
                );
            }
        }
        state.redo.clear();
        state
    }

    /// The state after undoing the latest change, if there is one: the board
    /// is as it was before the change, the change can be redone, and nothing
    /// is selected. An edit comes back as the arrangement that it replaced.
    pub open spec fn undone(self, before: GameState) -> bool {
        let history = before.spec_history();
        if history.len() == 0 {
            self.unchanged(before)
        } else {
            &&& self.spec_pegs() == entry_applied(before.spec_pegs(), history.last())
            &&& self.spec_selection() is None
            &&& self.spec_history() == history.drop_last()
            &&& self.spec_redo() == before.spec_redo().push(
                match history.last() {
                    HistoryEntry::Edit(_) => HistoryEntry::Edit(before.spec_arrangement()),
                    HistoryEntry::Move(mv, dir) => HistoryEntry::Move(mv, dir),
                },
            )
            &&& self.spec_mode() == before.spec_mode()
            &&& self.spec_first_move() == before.spec_first_move()
            &&& self.spec_solver() == before.spec_solver()
            &&& match history.last() {
                HistoryEntry::Edit(_) => self.cache_restarted(),
                HistoryEntry::Move(mv, dir) => self.cache_moved(before, mv, dir.opposite()),
            }
        }
    }

    /// Undoes the latest change, if there is one.
    pub fn undo(self) -> (r: GameState)
        requires
            self.wf(),
        ensures
            r.wf(),
            self.redo_ready() ==> r.redo_ready(),
            r.undone(self),
    {
        let mut state = self;
        let entry = match state.history.pop() {
            Some(entry) => entry,
            None => {
                // nothing to undo
                return state;
            },
        };
        state.selection = None;

        match entry {
            HistoryEntry::Edit(arrangement) => {
                let replaced = state.arrangement;
                state.arrangement = arrangement;
                state.redo.push(HistoryEntry::Edit(replaced));
                state.restart_cache();
                proof {
                    lemma_chain_push(
                        state.spec_pegs(),
                        self.spec_redo(),
                        HistoryEntry::Edit(replaced),
                        Direction::Forward,
                    );
                }
            },
            HistoryEntry::Move(mv, dir) => {
                state.redo.push(HistoryEntry::Move(mv, dir));
                let back = match dir {
                    Direction::Forward => Direction::Backward,
                    Direction::Backward => Direction::Forward,
                };
                state.follow_move(mv, back);
                proof {
                    lemma_chain_push(
                        state.spec_pegs(),
                        self.spec_redo(),
                        HistoryEntry::Move(mv, dir),
                        Direction::Forward,
                    );
                }
            },
        }
        state
    }

    /// The state after redoing the change that was undone last, if there is
    /// one: the board is as it was after the change, and the change can be
    /// undone again.
    pub open spec fn redone(self, before: GameState) -> bool {
        let redo = before.spec_redo();
        if redo.len() == 0 {
            self.unchanged(before)
        } else {
            &&& self.spec_pegs() == entry_applied(before.spec_pegs(), redo.last())
            &&& self.spec_selection() == before.spec_selection()
            &&& self.spec_redo() == redo.drop_last()
            &&& self.spec_history() == before.spec_history().push(
                match redo.last() {
                    HistoryEntry::Edit(_) => HistoryEntry::Edit(before.spec_arrangement()),
                    HistoryEntry::Move(mv, dir) => HistoryEntry::Move(mv, dir),
                },
            )
            &&& self.spec_mode() == before.spec_mode()
            &&& self.spec_first_move() == before.spec_first_move()
            &&& self.spec_solver() == before.spec_solver()
            &&& match redo.last() {
                HistoryEntry::Edit(_) => self.cache_restarted(),
                HistoryEntry::Move(mv, dir) => self.cache_moved(before, mv, dir),
            }
        }
    }

    /// Redoes the change that was undone last, if there is one.
    pub fn redo(self) -> (r: GameState)
        requires
            self.wf(),
            self.redo_ready(),
        ensures
            r.wf(),
            r.redo_ready(),
            r.redone(self),
    {
        let mut state = self;
        let entry = match state.redo.pop() {
            Some(entry) => entry,
            None => {
                // nothing to redo
                return state;
            },
        };

        match entry {
            HistoryEntry::Edit(arrangement) => {
                let replaced = state.arrangement;
                state.arrangement = arrangement;
                state.history.push(HistoryEntry::Edit(replaced));
                state.restart_cache();
                proof {
                    lemma_chain_push(
                        state.spec_pegs(),
                        self.spec_history(),
                        HistoryEntry::Edit(replaced),
                        Direction::Backward,
                    );
                }
            },
            HistoryEntry::Move(mv, dir) => {
                state.history.push(HistoryEntry::Move(mv, dir));
                state.follow_move(mv, dir);
                proof {
                    lemma_chain_push(
                        state.spec_pegs(),
                        self.spec_history(),
                        HistoryEntry::Move(mv, dir),
                        Direction::Backward,
                    );
                }
            },
        }
        state
    }
}

impl GameState {
    /// The state after a step along the cached path in the direction `dir`,
    /// if the path cache offers a move in that direction: the move has been
    /// made and stands in the history. What can be redone stays as it is,
    /// whether it still fits the board or not.
    pub open spec fn stepped(self, before: GameState, dir: Direction) -> bool {
        match before.spec_solve_path().spec_next_move(dir) {
            Some(mv) => {
                &&& self.spec_pegs() == pegs_moved(
                    before.spec_pegs(),
                    mv.spec_source(),
                    mv.spec_destination(),
                )
                &&& self.spec_position() == spec_moved(before.spec_position(), mv, dir)
                &&& self.spec_selection() == before.spec_selection()
                &&& self.spec_history() == before.spec_history().push(HistoryEntry::Move(mv, dir))
                &&& self.spec_redo() == before.spec_redo()
                &&& self.spec_mode() == before.spec_mode()
                &&& self.spec_first_move() == before.spec_first_move()
                &&& self.spec_solver() == before.spec_solver()
                &&& self.cache_moved(before, mv, dir)
            },
            None => self.unchanged(before),
        }
    }

    /// Makes the move that the path cache offers next in the direction
    /// `dir`, if it offers one.
    pub fn move_along_solve_path(self, dir: Direction) -> (r: GameState)
        requires
            self.wf(),
        ensures
            r.wf(),
            r.stepped(self, dir),
    {
        let mut state = self;
        match state.solve_path.next_move(dir) {
            Some(mv) => {
                let ghost pegs = self.spec_pegs();
                let ghost pos = self.spec_position();
                proof {
                    use_type_invariant(&mv);
                    mv.lemma_valid_is_jump();
                    lemma_position_by_holes(pegs, mv.spec_source());
                    lemma_next_move_possible(self.spec_solve_path(), pos, dir);
                    lemma_check_move_by_position(
                        pegs,
                        mv.spec_source(),
                        mv.spec_destination(),
                        dir,
                    );
                    lemma_moved_position(pegs, mv.spec_source(), mv.spec_destination(), dir);
                }
                state.history.push(HistoryEntry::Move(mv, dir));
                state.follow_move(mv, dir);
                proof {
                    lemma_chain_push(
                        state.spec_pegs(),
                        self.spec_history(),
                        HistoryEntry::Move(mv, dir),
                        Direction::Backward,
                    );
                }
                state
            },
            None => state,
        }
    }

    /// The state after an index was registered: the path cache has asked it
    /// about the position, and it is kept for the moves to come.
    pub open spec fn registered(self, before: GameState, solver: BloomFilter) -> bool {
        &&& self.spec_arrangement() == before.spec_arrangement()
        &&& self.spec_selection() == before.spec_selection()
        &&& self.spec_history() == before.spec_history()
        &&& self.spec_redo() == before.spec_redo()
        &&& self.spec_mode() == before.spec_mode()
        &&& self.spec_first_move() == before.spec_first_move()
        &&& self.spec_solver() == Some(solver)
        &&& self.spec_solve_path().spec_nr_pegs() == before.spec_solve_path().spec_nr_pegs()
        &&& self.spec_solve_path().asked(
            before.spec_solve_path(),
            solver,
            before.spec_position(),
            Direction::Forward,
        )
        &&& self.spec_solve_path().asked(
            before.spec_solve_path(),
            solver,
            before.spec_position(),
            Direction::Backward,
        )
    }

    fn register_solver(self, solver: Rc<BloomFilter>) -> (r: GameState)
        requires
            self.wf(),
            solver.wf(),
            solver.spec_nr_bits() > 0,
        ensures
            r.wf(),
            self.redo_ready() ==> r.redo_ready(),
            r.registered(self, *solver),
    {
        let mut state = self;
        let pos = state.arrangement.as_position();
        state.solve_path.recompute(&solver, pos);
        proof {
            use_type_invariant(&state.solve_path);
        }
        state.bloom_filter = Some(solver);
        state
    }

    /// The state after a reset: a fresh game that remembers whether a move
    /// was ever made, and keeps the index.
    pub open spec fn was_reset(self, before: GameState) -> bool {
        &&& self.is_fresh_board()
        &&& self.spec_first_move() == before.spec_first_move()
        &&& self.spec_solver() == before.spec_solver()
    }

    /// The board, the selection, the lists and the mode are those of a game
    /// that has just begun.
    pub open spec fn is_fresh_board(self) -> bool {
        &&& self.spec_pegs() == (Seq::new(33, |h: int| h), Seq::new(33, |p: int| p != 16))
        &&& self.spec_position() == Position::spec_default_start()
        &&& self.spec_selection() is None
        &&& self.spec_history().len() == 0
        &&& self.spec_redo().len() == 0
        &&& self.spec_mode() == Mode::Play
        &&& self.spec_solve_path().is_new_for(Position::spec_default_start())
    }

    fn reset(self) -> (r: GameState)
        requires
            self.wf(),
        ensures
            r.wf(),
            r.redo_ready(),
            r.was_reset(self),
    {
        let mut state = GameState::new();
        state.has_made_first_move = self.has_made_first_move;
        state.bloom_filter = self.bloom_filter;
        state
    }

    /// The state after the mode was set: another mode drops the selection,
    /// the same mode changes nothing.
    pub open spec fn mode_set(self, before: GameState, mode: Mode) -> bool {
        if mode == before.spec_mode() {
            self.unchanged(before)
        } else {
            &&& self.same_but_selection_and_mode(before)
            &&& self.spec_mode() == mode
            &&& self.spec_selection() is None
        }
    }

    /// The state is the state `before` but for the selection and the mode.
    pub open spec fn same_but_selection_and_mode(self, before: GameState) -> bool {
        &&& self.spec_arrangement() == before.spec_arrangement()
        &&& self.spec_solve_path() == before.spec_solve_path()
        &&& self.spec_history() == before.spec_history()
        &&& self.spec_redo() == before.spec_redo()
        &&& self.spec_first_move() == before.spec_first_move()
        &&& self.spec_solver() == before.spec_solver()
    }

    fn set_mode(self, mode: Mode) -> (r: GameState)
        requires
            self.wf(),
        ensures
            r.wf(),
            self.redo_ready() ==> r.redo_ready(),
            r.mode_set(self, mode),
    {
        let mut state = self;
        if mode == state.mode {
            return state;
        }
        state.mode = mode;
        state.selection = None;
        state
    }

    /// What an action may ask of the state. A click in edit mode must not
    /// empty the board nor fill it, since the path cache cannot speak of
    /// such a board. To redo, the changes of the redo list must fit the
    /// board, which they do unless a step along the cached path has been
    /// made since they were undone. An index that is registered must be
    /// well-formed and have a bit.
    pub open spec fn accepts(self, action: GameAction) -> bool {
        match action {
            GameAction::ClickHole { coord } => self.spec_mode() == Mode::Edit ==> countable(
                pegs_toggled(self.spec_pegs(), coord),
            ),
            GameAction::Redo => self.redo_ready(),
            GameAction::RegisterSolver { solver } => solver.wf() && solver.spec_nr_bits() > 0,
            _ => true,
        }
    }

    /// The state after an action.
    pub open spec fn reduced(self, before: GameState, action: GameAction) -> bool {
        match action {
            GameAction::ClickHole { coord } => match before.spec_mode() {
                Mode::Play => self.clicked_play(before, coord),
                Mode::Edit => self.clicked_edit(before, coord),
            },
            GameAction::Undo => self.undone(before),
            GameAction::Redo => self.redone(before),
            GameAction::Reset => self.was_reset(before),
            GameAction::RegisterSolver { solver } => self.registered(before, *solver),
            GameAction::StepSolution { dir } => self.stepped(before, dir),
            GameAction::SetMode { mode } => self.mode_set(before, mode),
        }
    }

    /// The state after an action. The state stays sound, and what could be
    /// redone before can still be redone, unless the action was a step along
    /// the cached path.
    pub fn reduce(self, action: GameAction) -> (r: GameState)
        requires
            self.wf(),
            self.accepts(action),
        ensures
            r.wf(),
            r.reduced(self, action),
            self.redo_ready() && !(action is StepSolution) ==> r.redo_ready(),
    {
        match action {
            GameAction::ClickHole { coord } => match self.mode {
                Mode::Play => self.click_play(coord),
                Mode::Edit => self.edit_toggle_peg(coord),
            },
            GameAction::Undo => self.undo(),
            GameAction::Redo => self.redo(),
            GameAction::Reset => self.reset(),
            GameAction::RegisterSolver { solver } => self.register_solver(solver),
            GameAction::StepSolution { dir } => self.move_along_solve_path(dir),
            GameAction::SetMode { mode } => self.set_mode(mode),
        }
    }
}

/// The move that the path cache offers next is possible on the board, if
/// what the cache says is true of the position.
pub proof fn lemma_next_move_possible(cache: SolvePath, pos: Position, dir: Direction)
    requires
        cache.wf(),
        pos.wf(),
        cache.consistent(pos, dir),
        cache.spec_next_move(dir) is Some,
    ensures
        spec_movable(pos, cache.spec_next_move(dir)->0, dir),
        cache.spec_next_move(dir)->0.valid(),
{
    cache.lemma_next_move_first(dir);
    let mv = cache.spec_next_move(dir)->0;
    lemma_inverse_move(pos, mv);
}

} // verus!
