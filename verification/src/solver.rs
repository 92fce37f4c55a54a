//! A depth-first search for a path of moves to the target, pruned by the
//! reachability index and repeated with a reshuffled table of moves when an
//! attempt runs out of steps.

use crate::bloom::BloomFilter;
use crate::debruijn::{
    de_bruijn_solvable, lemma_class_rejects_rightly, lemma_known_classes, spec_de_bruijn_class,
    GF4,
};
use crate::moves::{all_moves, lemma_all_moves_distinct, spec_all_moves, Move};
use crate::position::{
    lemma_apply_then_inverse, lemma_inverse_move, lemma_move_changes_count,
    lemma_start_and_end_counts, Position,
};
use crate::shuffle::{
    generator_state, reordered, seeded_generator, seeded_state, shuffle_moves, shuffle_outcome,
};
use vstd::prelude::*;

verus! {

/// Time direction of a move.
#[derive(Clone, Copy, PartialEq, Eq, Debug, Structural)]
pub enum Direction {
    /// Forward move, removing pegs from the board.
    Forward,
    /// Backward move, adding pegs to the board.
    Backward,
}

impl core::ops::Not for Direction {
    type Output = Direction;

    fn not(self) -> (r: Direction) {
        match self {
            Direction::Forward => Direction::Backward,
            Direction::Backward => Direction::Forward,
        }
    }
}

impl vstd::std_specs::ops::NotSpecImpl for Direction {
    open spec fn obeys_not_spec() -> bool {
        true
    }

    open spec fn not_req(self) -> bool {
        true
    }

    open spec fn not_spec(self) -> Direction {
        self.opposite()
    }
}

impl Direction {
    /// The other direction.
    pub open spec fn opposite(self) -> Direction {
        match self {
            Direction::Forward => Direction::Backward,
            Direction::Backward => Direction::Forward,
        }
    }
}

/// How a search ended.
#[derive(Clone, Copy, PartialEq, Eq, Debug, Structural)]
pub enum Verdict {
    /// A path to the target was found.
    Solved,
    /// Every branch that the index lets pass was explored, without success.
    Unsolvable,
    /// The search ran out of steps; nothing is known.
    TimedOut,
}

/// The result of a search: the moves that lead to the target, or why there
/// are none.
#[derive(PartialEq, Eq, Debug)]
pub enum SolveResult {
    Solved(Vec<Move>),
    Unsolvable,
    TimedOut,
}

/// Additional statistics about the solve process.
pub struct SolveInfo {
    /// The nodes that were explored, over all attempts.
    pub nr_steps: u32,
    /// The attempts that were made.
    pub nr_attempts: u32,
}

impl SolveResult {
    /// How the search ended.
    pub open spec fn verdict(self) -> Verdict {
        match self {
            SolveResult::Solved(_) => Verdict::Solved,
            SolveResult::Unsolvable => Verdict::Unsolvable,
            SolveResult::TimedOut => Verdict::TimedOut,
        }
    }

    /// The moves that were found; none if the search did not succeed.
    pub open spec fn path(self) -> Seq<Move> {
        match self {
            SolveResult::Solved(list) => list@,
            _ => Seq::empty(),
        }
    }
}

/// Whether the search goes on from `next`, a position that a move led to: it
/// is not the target, it has more than one peg, and the index holds its
/// normal form.
pub open spec fn passable(filter: BloomFilter, end: Position, next: Position) -> bool {
    &&& next != end
    &&& next.spec_count() != 1
    &&& filter.spec_query(next.spec_normalize())
}

/// What a search from `pos` finds that has already used `steps` steps and may
/// use `limit`: how it ends, the moves that it found in reverse order, and
/// the steps used at its end. The search takes one step for the position
/// itself and then tries the moves of `moves` in their order.
pub open spec fn explore(
    filter: BloomFilter,
    end: Position,
    moves: Seq<Move>,
    limit: int,
    pos: Position,
    steps: int,
) -> (Verdict, Seq<Move>, int)
    decreases pos.spec_count(), moves.len() + 1,
{
    if steps > limit {
        (Verdict::TimedOut, Seq::empty(), steps)
    } else {
        scan(filter, end, moves, limit, pos, steps + 1, 0)
    }
}

/// What the search at `pos` finds from the move at index `i` on, with
/// `steps` steps used so far. A move that leads to the target ends the
/// search; one that leads to a passable position is followed, and its
/// timing out ends the search too.
pub open spec fn scan(
    filter: BloomFilter,
    end: Position,
    moves: Seq<Move>,
    limit: int,
    pos: Position,
    steps: int,
    i: int,
) -> (Verdict, Seq<Move>, int)
    decreases pos.spec_count(), moves.len() - i,
{
    if i < 0 || i >= moves.len() {
        (Verdict::Unsolvable, Seq::empty(), steps)
    } else {
        let mv = moves[i];
        let next = pos.spec_apply_move(mv);
        if !(mv.valid() && pos.spec_can_move(mv)) {
            scan(filter, end, moves, limit, pos, steps, i + 1)
        } else if next == end {
            (Verdict::Solved, seq![mv], steps)
        } else if !passable(filter, end, next) {
            scan(filter, end, moves, limit, pos, steps, i + 1)
        } else {
            proof {
                lemma_move_changes_count(pos, mv);
            }
            let below = explore(filter, end, moves, limit, next, steps);
            match below.0 {
                Verdict::Solved => (Verdict::Solved, below.1.push(mv), below.2),
                Verdict::Unsolvable => scan(filter, end, moves, limit, pos, below.2, i + 1),
                Verdict::TimedOut => (Verdict::TimedOut, Seq::empty(), below.2),
            }
        }
    }
}

/// The position after the moves of `path` were made one after the other.
pub open spec fn play(pos: Position, path: Seq<Move>) -> Position
    decreases path.len(),
{
    if path.len() == 0 {
        pos
    } else {
        play(pos.spec_apply_move(path[0]), path.drop_first())
    }
}

/// Each move of `path` is a move of the board and can be made when its turn
/// comes.
pub open spec fn playable(pos: Position, path: Seq<Move>) -> bool
    decreases path.len(),
{
    path.len() == 0 || {
        &&& path[0].valid()
        &&& pos.spec_can_move(path[0])
        &&& playable(pos.spec_apply_move(path[0]), path.drop_first())
    }
}

/// A path that the search can follow from `pos` to the target: its moves can
/// be made in turn, the last one leads to the target, and every position on
/// the way is passable.
pub open spec fn guided(filter: BloomFilter, end: Position, pos: Position, path: Seq<Move>) -> bool
    decreases path.len(),
{
    &&& path.len() > 0
    &&& path[0].valid()
    &&& pos.spec_can_move(path[0])
    &&& if path.len() == 1 {
        pos.spec_apply_move(path[0]) == end
    } else {
        &&& passable(filter, end, pos.spec_apply_move(path[0]))
        &&& guided(filter, end, pos.spec_apply_move(path[0]), path.drop_first())
    }
}

/// The table holds every move of the board.
pub open spec fn complete_table(moves: Seq<Move>) -> bool {
    forall|mv: Move| #[trigger] mv.valid() ==> moves.contains(mv)
}

/// A guided path can be played and ends in the target.
pub proof fn lemma_guided_plays(filter: BloomFilter, end: Position, pos: Position, path: Seq<Move>)
    requires
        guided(filter, end, pos, path),
    ensures
        playable(pos, path),
        play(pos, path) == end,
    decreases path.len(),
{
    let next = pos.spec_apply_move(path[0]);
    let rest = path.drop_first();
    if path.len() > 1 {
        lemma_guided_plays(filter, end, next, rest);
    } else {
        assert(rest.len() == 0);
        assert(play(next, rest) == next);
        assert(playable(next, rest));
    }
}

/// Playing two paths one after the other.
pub proof fn lemma_play_concat(pos: Position, first: Seq<Move>, second: Seq<Move>)
    ensures
        play(pos, first + second) == play(play(pos, first), second),
        playable(pos, first + second) == (playable(pos, first) && playable(
            play(pos, first),
            second,
        )),
    decreases first.len(),
{
    if first.len() == 0 {
        assert(first + second =~= second);
    } else {
        let whole = first + second;
        assert(whole[0] == first[0]);
        assert(whole.drop_first() =~= first.drop_first() + second);
        lemma_play_concat(pos.spec_apply_move(first[0]), first.drop_first(), second);
    }
}

/// Playing keeps a well-formed position well-formed.
pub proof fn lemma_play_wf(pos: Position, path: Seq<Move>)
    requires
        pos.wf(),
        playable(pos, path),
    ensures
        play(pos, path).wf(),
    decreases path.len(),
{
    if path.len() > 0 {
        lemma_move_changes_count(pos, path[0]);
        lemma_play_wf(pos.spec_apply_move(path[0]), path.drop_first());
    }
}

/// A path read backwards leads from the inverse of its end to the inverse
/// of its start: on the inverse board each move of the path undoes itself.
pub proof fn lemma_play_backwards(pos: Position, path: Seq<Move>)
    requires
        pos.wf(),
        playable(pos, path),
    ensures
        playable(play(pos, path).spec_inverse(), path.reverse()),
        play(play(pos, path).spec_inverse(), path.reverse()) == pos.spec_inverse(),
    decreases path.len(),
{
    if path.len() == 0 {
        assert(path.reverse() =~= path);
    } else {
        let mv = path[0];
        let rest = path.drop_first();
        let next = pos.spec_apply_move(mv);
        let last = play(pos, path);
        lemma_move_changes_count(pos, mv);
        lemma_play_backwards(next, rest);
        lemma_apply_then_inverse(pos, mv);
        lemma_inverse_move(next, mv);
        let single = seq![mv];
        assert(path.reverse() =~= rest.reverse() + single);
        assert(single.drop_first() =~= Seq::<Move>::empty());
        assert(playable(next.spec_inverse(), single)) by {
            assert(playable(next.spec_inverse().spec_apply_move(mv), single.drop_first()));
        }
        assert(play(next.spec_inverse(), single) == pos.spec_inverse()) by {
            assert(play(next.spec_inverse().spec_apply_move(mv), single.drop_first())
                == next.spec_inverse().spec_apply_move(mv));
        }
        lemma_play_concat(last.spec_inverse(), rest.reverse(), single);
    }
}

/// A guided path takes one peg off the board with each move and ends with
/// the single peg of the target, so it has one move less than the position
/// has pegs.
pub proof fn lemma_guided_length(filter: BloomFilter, pos: Position, path: Seq<Move>)
    requires
        guided(filter, Position::spec_default_end(), pos, path),
    ensures
        path.len() == pos.spec_count() - 1,
    decreases path.len(),
{
    lemma_move_changes_count(pos, path[0]);
    if path.len() > 1 {
        lemma_guided_length(filter, pos.spec_apply_move(path[0]), path.drop_first());
    } else {
        lemma_start_and_end_counts();
    }
}

/// What a search establishes, from the move at index `i` on: it uses steps,
/// never more than one beyond the limit; the moves that it finds, read
/// backwards, are a guided path; and if it ends without a path and without
/// timing out, a guided path can only begin with a move before index `i`.
pub proof fn lemma_scan(
    filter: BloomFilter,
    end: Position,
    moves: Seq<Move>,
    limit: int,
    pos: Position,
    steps: int,
    i: int,
)
    requires
        0 <= i <= moves.len(),
        complete_table(moves),
    ensures
        ({
            let r = scan(filter, end, moves, limit, pos, steps, i);
            &&& steps <= r.2
            &&& r.2 <= steps || r.2 <= limit + 1
            &&& r.0 == Verdict::Solved ==> guided(filter, end, pos, r.1.reverse())
            &&& r.0 != Verdict::Solved ==> r.1 == Seq::<Move>::empty()
            &&& r.0 == Verdict::Unsolvable ==> forall|path: Seq<Move>| #[trigger]
                guided(filter, end, pos, path) ==> exists|j: int|
                    0 <= j < i && moves[j] == path[0]
        }),
    decreases pos.spec_count(), moves.len() - i,
{
    let r = scan(filter, end, moves, limit, pos, steps, i);
    if i >= moves.len() {
        assert forall|path: Seq<Move>| #[trigger]
            guided(filter, end, pos, path) implies exists|j: int|
            0 <= j < i && moves[j] == path[0] by {
            assert(path[0].valid());
            assert(moves.contains(path[0]));
        }
    } else {
        let mv = moves[i];
        let next = pos.spec_apply_move(mv);
        if !(mv.valid() && pos.spec_can_move(mv)) {
            lemma_scan(filter, end, moves, limit, pos, steps, i + 1);
            if r.0 == Verdict::Unsolvable {
                lemma_scan_skip(filter, end, moves, pos, i);
            }
        } else if next == end {
            assert(seq![mv].reverse() =~= seq![mv]);
        } else if !passable(filter, end, next) {
            lemma_scan(filter, end, moves, limit, pos, steps, i + 1);
            if r.0 == Verdict::Unsolvable {
                lemma_scan_skip(filter, end, moves, pos, i);
            }
        } else {
            lemma_move_changes_count(pos, mv);
            let below = explore(filter, end, moves, limit, next, steps);
            if steps <= limit {
                lemma_scan(filter, end, moves, limit, next, steps + 1, 0);
            }
            match below.0 {
                Verdict::Solved => {
                    let list = below.1;
                    let path = list.push(mv).reverse();
                    assert(path[0] == mv);
                    assert(path.drop_first() =~= list.reverse());
                    assert(list.reverse().len() > 0);
                },
                Verdict::Unsolvable => {
                    lemma_scan(filter, end, moves, limit, pos, below.2, i + 1);
                    assert forall|path: Seq<Move>| #[trigger]
                        guided(filter, end, next, path) implies false by {
                        let j = choose|j: int| 0 <= j < 0 && moves[j] == path[0];
                    }
                    assert forall|path: Seq<Move>| #[trigger]
                        guided(filter, end, pos, path) implies path[0] != mv by {
                        if path[0] == mv && path.len() > 1 {
                            assert(guided(filter, end, next, path.drop_first()));
                        }
                    }
                    if r.0 == Verdict::Unsolvable {
                        lemma_scan_skip(filter, end, moves, pos, i);
                    }
                },
                Verdict::TimedOut => {},
            }
        }
    }
}

/// If no guided path begins with the move at index `i`, then a guided path
/// that begins with one of the first `i + 1` moves begins with one of the
/// first `i`.
proof fn lemma_scan_skip(filter: BloomFilter, end: Position, moves: Seq<Move>, pos: Position, i: int)
    requires
        0 <= i < moves.len(),
        forall|path: Seq<Move>| #[trigger] guided(filter, end, pos, path) ==> path[0] != moves[i],
        forall|path: Seq<Move>| #[trigger]
            guided(filter, end, pos, path) ==> exists|j: int|
                0 <= j < i + 1 && moves[j] == path[0],
    ensures
        forall|path: Seq<Move>| #[trigger]
            guided(filter, end, pos, path) ==> exists|j: int| 0 <= j < i && moves[j] == path[0],
{
    assert forall|path: Seq<Move>| #[trigger] guided(filter, end, pos, path) implies exists|j: int|
        0 <= j < i && moves[j] == path[0] by {
        let j = choose|j: int| 0 <= j < i + 1 && moves[j] == path[0];
        assert(j != i);
    }
}

/// What an attempt establishes: it uses at least one step and at most one
/// beyond the limit. If it finds moves, they are, read backwards, a guided
/// path from `pos` to the target. If it ends without a path and without
/// timing out, and the table holds every move, there is no guided path.
pub proof fn lemma_explore(
    filter: BloomFilter,
    end: Position,
    moves: Seq<Move>,
    limit: int,
    pos: Position,
    steps: int,
)
    requires
        complete_table(moves),
    ensures
        ({
            let r = explore(filter, end, moves, limit, pos, steps);
            &&& steps <= r.2
            &&& steps <= limit ==> steps < r.2
            &&& r.2 <= steps || r.2 <= limit + 1
            &&& r.0 == Verdict::Solved ==> guided(filter, end, pos, r.1.reverse())
            &&& r.0 != Verdict::Solved ==> r.1 == Seq::<Move>::empty()
            &&& r.0 == Verdict::Unsolvable ==> forall|path: Seq<Move>|
                !guided(filter, end, pos, path)
        }),
{
    if steps <= limit {
        lemma_scan(filter, end, moves, limit, pos, steps + 1, 0);
        let r = explore(filter, end, moves, limit, pos, steps);
        if r.0 == Verdict::Unsolvable {
            assert forall|path: Seq<Move>| !guided(filter, end, pos, path) by {
                if guided(filter, end, pos, path) {
                    let j = choose|j: int| 0 <= j < 0 && moves[j] == path[0];
                }
            }
        }
    }
}

/// One attempt of the search: a depth-first search from `pos` over the moves
/// in the order of `moves`, which adds the positions that it explores to
/// `nr_steps` and gives up once `nr_steps` exceeds `step_limit`.
///
/// The moves come back last move first.
pub fn depth_first_search(
    pos: Position,
    filter: &BloomFilter,
    end: Position,
    nr_steps: &mut u32,
    moves: &[Move; 76],
    step_limit: u32,
) -> (r: SolveResult)
    requires
        filter.wf(),
        filter.spec_nr_bits() > 0,
        step_limit < u32::MAX,
    ensures
        (r.verdict(), r.path(), *final(nr_steps) as int) == explore(
            *filter,
            end,
            moves@,
            step_limit as int,
            pos,
            *old(nr_steps) as int,
        ),
    decreases pos.spec_count(), 77int,
{
    if *nr_steps > step_limit {
        return SolveResult::TimedOut;
    }
    *nr_steps += 1;

    let mut i: usize = 0;
    while i < 76
        invariant
            0 <= i <= 76,
            filter.wf(),
            filter.spec_nr_bits() > 0,
            step_limit < u32::MAX,
            *old(nr_steps) <= step_limit,
            scan(*filter, end, moves@, step_limit as int, pos, *nr_steps as int, i as int)
                == explore(*filter, end, moves@, step_limit as int, pos, *old(nr_steps) as int),
        decreases 76 - i,
    {
        let mv = moves[i];
        proof {
            use_type_invariant(&mv);
        }
        if pos.can_move(mv) {
            let next = pos.apply_move(mv);

            // Check if we've reached the end position
            if next == end {
                return SolveResult::Solved(vec![mv]);
            }
            // A position with a single peg somewhere other than in the end
            // position is a dead end, and so is one that the index rejects.

            if next.count() != 1 && filter.query(next.normalize()) {
                proof {
                    lemma_move_changes_count(pos, mv);
                }
                match depth_first_search(next, filter, end, nr_steps, moves, step_limit) {
                    SolveResult::Solved(mut list) => {
                        list.push(mv);
                        return SolveResult::Solved(list);
                    },
                    SolveResult::Unsolvable => {},
                    SolveResult::TimedOut => {
                        return SolveResult::TimedOut;
                    },
                }
            }
        }
        i += 1;
    }

    SolveResult::Unsolvable
}

/// The moves of `list` in the opposite order.
fn reversed(list: Vec<Move>) -> (r: Vec<Move>)
    ensures
        r@ == list@.reverse(),
{
    let mut out: Vec<Move> = Vec::new();
    let mut i: usize = list.len();
    while i > 0
        invariant
            0 <= i <= list@.len(),
            out@.len() == list@.len() - i,
            forall|j: int| 0 <= j < out@.len() ==> out@[j] == list@[list@.len() - 1 - j],
        decreases i,
    {
        i -= 1;
        out.push(list[i]);
    }
    assert(out@ =~= list@.reverse());
    out
}

/// The position after a move in the given direction: the move is made
/// towards the target and taken back towards the start of the game.
pub open spec fn spec_moved(pos: Position, mv: Move, dir: Direction) -> Position {
    match dir {
        Direction::Forward => pos.spec_apply_move(mv),
        Direction::Backward => pos.spec_apply_move_inverse(mv),
    }
}

/// Whether the move is possible in the given direction.
pub open spec fn spec_movable(pos: Position, mv: Move, dir: Direction) -> bool {
    match dir {
        Direction::Forward => pos.spec_can_move(mv),
        Direction::Backward => pos.spec_can_move_inverse(mv),
    }
}

/// The position that the search starts from: the position itself to search
/// forward, and its inverse to search backward. A path from the inverse to
/// the target is, read backwards and made of moves taken back, a path from
/// the start position to the position itself.
pub open spec fn search_start(pos: Position, dir: Direction) -> Position {
    match dir {
        Direction::Forward => pos,
        Direction::Backward => pos.spec_inverse(),
    }
}

/// The position is turned away before any search: the class of the start
/// of the search is not the class of the target, or the index does not hold
/// the normal form of the start of the search. Searching backward, the start
/// of the search is the inverse of the position, and it is the inverse that
/// is looked up.
pub open spec fn rejected_at_once(filter: BloomFilter, pos: Position, dir: Direction) -> bool {
    ||| spec_de_bruijn_class(search_start(pos, dir)) != (GF4::One, GF4::One)
    ||| !filter.spec_query(search_start(pos, dir).spec_normalize())
}

/// A position and its inverse have the same class, so that a position is
/// turned away for its class in both directions or in none.
pub proof fn lemma_class_of_search_start(pos: Position, dir: Direction)
    ensures
        spec_de_bruijn_class(search_start(pos, dir)) == spec_de_bruijn_class(pos),
{
    lemma_known_classes(pos);
}

/// A position that is turned away for its class is turned away rightly:
/// no moves lead from the start of the search to the target, in either
/// direction.
pub proof fn lemma_wrong_class_unsolvable(pos: Position, dir: Direction, path: Seq<Move>)
    requires
        spec_de_bruijn_class(search_start(pos, dir)) != (GF4::One, GF4::One),
        playable(search_start(pos, dir), path),
    ensures
        play(search_start(pos, dir), path) != Position::spec_default_end(),
{
    lemma_known_classes(pos);
    lemma_class_rejects_rightly(search_start(pos, dir), path);
}

/// The steps that an attempt may use: 50, and 10000 for the last attempt.
pub open spec fn attempt_limit(attempt: int) -> int {
    if attempt + 1 == 100 {
        10000
    } else {
        50
    }
}

/// The table of moves that the attempt with the given number goes through,
/// counted from 0, and the state of the generator at that time: the first
/// attempt uses the table of all moves in its own order and a generator
/// fresh from the seed, and each later one the table of the attempt before
/// it, shuffled.
pub open spec fn attempt_table(seed: u64, attempt: nat) -> (Seq<Move>, int)
    decreases attempt,
{
    if attempt == 0 {
        (spec_all_moves(), seeded_state(seed))
    } else {
        let (table, state) = attempt_table(seed, (attempt - 1) as nat);
        (reordered(table, shuffle_outcome(state, 76).0), shuffle_outcome(state, 76).1)
    }
}

/// What the attempts from the given number on find, after `steps` steps in
/// the attempts before them: how the search ends, the moves from the start
/// of the search to the target, the steps of all attempts and the number of
/// attempts that were made. An attempt that finds the target or runs dry
/// ends the search; one that times out is followed by the next, up to 100.
pub open spec fn attempts_from(
    filter: BloomFilter,
    start: Position,
    seed: u64,
    attempt: nat,
    steps: int,
) -> (Verdict, Seq<Move>, int, int)
    decreases 100 - attempt,
{
    if attempt >= 100 {
        (Verdict::TimedOut, Seq::empty(), steps, 100)
    } else {
        let found = explore(
            filter,
            Position::spec_default_end(),
            attempt_table(seed, attempt).0,
            attempt_limit(attempt as int),
            start,
            0,
        );
        match found.0 {
            Verdict::Solved => (Verdict::Solved, found.1.reverse(), steps + found.2, attempt as int + 1),
            Verdict::Unsolvable => (
                Verdict::Unsolvable,
                Seq::empty(),
                steps + found.2,
                attempt as int + 1,
            ),
            Verdict::TimedOut => attempts_from(filter, start, seed, attempt + 1, steps + found.2),
        }
    }
}

/// What the solver finds: how the search ends, the moves that it found, the
/// steps that it took and the attempts that it made.
pub open spec fn spec_solve(pos: Position, filter: BloomFilter, dir: Direction, seed: u64) -> (
    Verdict,
    Seq<Move>,
    int,
    int,
) {
    if rejected_at_once(filter, pos, dir) {
        (Verdict::Unsolvable, Seq::empty(), 0, 0)
    } else if search_start(pos, dir) == Position::spec_default_end() {
        (Verdict::Solved, Seq::empty(), 0, 0)
    } else {
        attempts_from(filter, search_start(pos, dir), seed, 0, 0)
    }
}

/// A table with the same moves as the table of all moves holds every move of
/// the board.
proof fn lemma_shuffled_table_complete(moves: Seq<Move>)
    requires
        moves.to_multiset() == spec_all_moves().to_multiset(),
    ensures
        complete_table(moves),
{
    broadcast use vstd::seq_lib::group_to_multiset_ensures;

    lemma_all_moves_distinct();
    assert forall|mv: Move| #[trigger] mv.valid() implies moves.contains(mv) by {
        assert(spec_all_moves().contains(mv));
        assert(spec_all_moves().to_multiset().count(mv) > 0);
        assert(moves.to_multiset().count(mv) > 0);
    }
}

/// What the result of the solver means, whatever the order in which the
/// attempts went through the moves. Moves that are returned are a guided
/// path from the start of the search to the target, or none if the start is
/// the target. `Unsolvable` is returned only if the position was turned away
/// at once or there is no guided path. `TimedOut` is returned only after 100
/// attempts. Each attempt takes a step at least and at most one step more
/// than it may, which is 51 steps, and 10001 for the last attempt.
pub open spec fn solve_means(
    pos: Position,
    filter: BloomFilter,
    dir: Direction,
    verdict: Verdict,
    path: Seq<Move>,
    steps: int,
    attempts: int,
) -> bool {
    let end = Position::spec_default_end();
    let start = search_start(pos, dir);
    if rejected_at_once(filter, pos, dir) {
        verdict == Verdict::Unsolvable && steps == 0 && attempts == 0
    } else if start == end {
        verdict == Verdict::Solved && path.len() == 0 && steps == 0 && attempts == 0
    } else {
        &&& verdict == Verdict::Solved ==> guided(filter, end, start, path)
        &&& verdict == Verdict::Unsolvable ==> forall|other: Seq<Move>|
            !guided(filter, end, start, other)
        &&& verdict == Verdict::TimedOut ==> attempts == 100
        &&& 1 <= attempts <= 100
        &&& attempts <= steps <= 51 * (attempts - 1) + attempt_limit(attempts - 1) + 1
    }
}

/// Find a path from the given position to the default end position using a
/// depth-first search based on a bloom filter. If the direction is set to
/// backward, then a path to the start is searched instead, that is the
/// problem is solved in reverse.
///
/// To search backward the position is inverted first, and everything else
/// is the search forward from the inverse: the inverse is rejected at once
/// if its class is not the class of the target or if the index does not
/// hold its normal form. Otherwise up to 100 attempts are made. The first attempt goes through the table of moves in
/// its own order; each later attempt uses the table as the generator seeded
/// with `seed` has reshuffled it. So the position, the index, the direction
/// and the seed fix the result.
pub fn solve_with_bloom_filter(pos: Position, filter: &BloomFilter, dir: Direction, seed: u64) -> (r:
    (SolveResult, SolveInfo))
    requires
        filter.wf(),
        filter.spec_nr_bits() > 0,
    ensures
        (r.0.verdict(), r.0.path(), r.1.nr_steps as int, r.1.nr_attempts as int) == spec_solve(
            pos,
            *filter,
            dir,
            seed,
        ),
        solve_means(
            pos,
            *filter,
            dir,
            r.0.verdict(),
            r.0.path(),
            r.1.nr_steps as int,
            r.1.nr_attempts as int,
        ),
{
    let mut solve_info = SolveInfo { nr_steps: 0, nr_attempts: 0 };
    let start = match dir {
        Direction::Forward => pos,
        Direction::Backward => pos.inverse(),
    };
    if !de_bruijn_solvable(start) {
        return (SolveResult::Unsolvable, solve_info);
    }
    if !filter.query(start.normalize()) {
        return (SolveResult::Unsolvable, solve_info);
    }
    let mut moves = all_moves();
    let mut rng = seeded_generator(seed);

    let end = Position::default_end();
    if start == end {
        return (SolveResult::Solved(Vec::new()), solve_info);
    }
    let mut step_limit: u32 = 50;
    let nr_attempts: u32 = 100;
    let mut attempt: u32 = 0;
    while attempt < nr_attempts
        invariant
            filter.wf(),
            filter.spec_nr_bits() > 0,
            nr_attempts == 100,
            0 <= attempt <= 100,
            step_limit == 50,
            end == Position::spec_default_end(),
            start != end,
            moves@.to_multiset() == spec_all_moves().to_multiset(),
            (moves@, generator_state(rng)) == attempt_table(seed, attempt as nat),
            attempts_from(*filter, start, seed, attempt as nat, solve_info.nr_steps as int)
                == attempts_from(*filter, start, seed, 0, 0),
            start == search_start(pos, dir),
            !rejected_at_once(*filter, pos, dir),
            solve_info.nr_attempts == attempt,
            attempt < 100 ==> solve_info.nr_steps == 51 * attempt,
            attempt == 100 ==> solve_info.nr_steps == 51 * 99 + 10001,
        decreases nr_attempts - attempt,
    {
        let last_attempt = attempt + 1 == nr_attempts;
        let limit: u32 = if last_attempt {
            10000
        } else {
            step_limit
        };

        let mut nr_steps: u32 = 0;
        proof {
            lemma_shuffled_table_complete(moves@);
            lemma_explore(*filter, end, moves@, limit as int, start, 0);
        }
        let result = depth_first_search(start, filter, end, &mut nr_steps, &moves, limit);
        solve_info.nr_steps += nr_steps;
        solve_info.nr_attempts += 1;

        match result {
            SolveResult::Solved(list) => {
                return (SolveResult::Solved(reversed(list)), solve_info);
            },
            SolveResult::Unsolvable => {
                return (SolveResult::Unsolvable, solve_info);
            },
            SolveResult::TimedOut => {},
        }
        proof {
            lemma_timed_out_steps(*filter, end, moves@, limit as int, start);
        }

        shuffle_moves(&mut moves, &mut rng);
        attempt += 1;
    }

    (SolveResult::TimedOut, solve_info)
}

/// An attempt that times out has used exactly one step more than its limit.
pub proof fn lemma_timed_out_steps(
    filter: BloomFilter,
    end: Position,
    moves: Seq<Move>,
    limit: int,
    pos: Position,
)
    requires
        limit >= 0,
        explore(filter, end, moves, limit, pos, 0).0 == Verdict::TimedOut,
    ensures
        explore(filter, end, moves, limit, pos, 0).2 == limit + 1,
{
    lemma_scan_timed_out(filter, end, moves, limit, pos, 1, 0);
}

/// A search that times out ends with one step more than the limit, if it did
/// not begin with more.
proof fn lemma_scan_timed_out(
    filter: BloomFilter,
    end: Position,
    moves: Seq<Move>,
    limit: int,
    pos: Position,
    steps: int,
    i: int,
)
    requires
        0 <= i <= moves.len(),
        steps <= limit + 1,
        scan(filter, end, moves, limit, pos, steps, i).0 == Verdict::TimedOut,
    ensures
        scan(filter, end, moves, limit, pos, steps, i).2 == limit + 1,
    decreases pos.spec_count(), moves.len() - i,
{
    if i < moves.len() {
        let mv = moves[i];
        let next = pos.spec_apply_move(mv);
        if !(mv.valid() && pos.spec_can_move(mv)) {
            lemma_scan_timed_out(filter, end, moves, limit, pos, steps, i + 1);
        } else if next == end {
        } else if !passable(filter, end, next) {
            lemma_scan_timed_out(filter, end, moves, limit, pos, steps, i + 1);
        } else {
            lemma_move_changes_count(pos, mv);
            let below = explore(filter, end, moves, limit, next, steps);
            if steps <= limit {
                lemma_scan_steps(filter, end, moves, limit, next, steps + 1, 0);
                if below.0 == Verdict::TimedOut {
                    lemma_scan_timed_out(filter, end, moves, limit, next, steps + 1, 0);
                }
            }
            if below.0 == Verdict::Unsolvable {
                lemma_scan_timed_out(filter, end, moves, limit, pos, below.2, i + 1);
            }
        }
    }
}

/// A search never gives steps back, and goes beyond the limit by one step at
/// most.
proof fn lemma_scan_steps(
    filter: BloomFilter,
    end: Position,
    moves: Seq<Move>,
    limit: int,
    pos: Position,
    steps: int,
    i: int,
)
    requires
        0 <= i <= moves.len(),
    ensures
        steps <= scan(filter, end, moves, limit, pos, steps, i).2,
        steps <= limit + 1 ==> scan(filter, end, moves, limit, pos, steps, i).2 <= limit + 1,
    decreases pos.spec_count(), moves.len() - i,
{
    if i < moves.len() {
        let mv = moves[i];
        let next = pos.spec_apply_move(mv);
        if !(mv.valid() && pos.spec_can_move(mv)) {
            lemma_scan_steps(filter, end, moves, limit, pos, steps, i + 1);
        } else if next == end {
        } else if !passable(filter, end, next) {
            lemma_scan_steps(filter, end, moves, limit, pos, steps, i + 1);
        } else {
            lemma_move_changes_count(pos, mv);
            let below = explore(filter, end, moves, limit, next, steps);
            if steps <= limit {
                lemma_scan_steps(filter, end, moves, limit, next, steps + 1, 0);
            }
            if below.0 == Verdict::Unsolvable {
                lemma_scan_steps(filter, end, moves, limit, pos, below.2, i + 1);
            }
        }
    }
}

} // verus!
