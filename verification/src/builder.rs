//! The exact reachability builder: every position from which the target can
//! be reached, found by taking moves back from the target, and the
//! reachability index that is filled from it.

use crate::bloom::BloomFilter;
use crate::moves::{all_moves, lemma_all_moves_distinct, Move};
use crate::position::{
    lemma_apply_then_inverse, lemma_inverse_count, lemma_inverse_then_apply, lemma_movable_count,
    lemma_move_changes_count, lemma_start_and_end_counts, Position,
};
use crate::search::lemma_reaches_counts;
use crate::solve_path::lemma_reference_solves;
use crate::solver::{
    complete_table, guided, lemma_guided_length, lemma_guided_plays, lemma_play_backwards,
    lemma_wrong_class_unsolvable, passable, play, playable, search_start, solve_means, Direction,
    Verdict,
};
use crate::visit_map::VisitMap;
use vstd::prelude::*;

verus! {

/// Some moves lead from `pos` to `target`.
pub open spec fn reaches(pos: Position, target: Position) -> bool {
    exists|path: Seq<Move>| playable(pos, path) && #[trigger] play(pos, path) == target
}

/// Every position in the map is well-formed only if it reaches `target`.
pub open spec fn sound(map: VisitMap, target: Position) -> bool {
    forall|p: Position| p.wf() && #[trigger] map.spec_is_visited(p) ==> reaches(p, target)
}

/// Every position that a move taken back from `pos` gives is in the map.
pub open spec fn closed_at(map: VisitMap, pos: Position) -> bool {
    forall|mv: Move|
        mv.valid() && #[trigger] pos.spec_can_move_inverse(mv) ==> map.spec_is_visited(
            pos.spec_apply_move_inverse(mv),
        )
}

/// The map is closed at each of its positions with fewer than 32 pegs that
/// is not in `open`.
pub open spec fn closed_outside(map: VisitMap, open: Set<Position>) -> bool {
    forall|q: Position|
        q.wf() && #[trigger] map.spec_is_visited(q) && !open.contains(q) && q.spec_count() < 32
            ==> closed_at(map, q)
}

/// Every position in `open` is in the map.
pub open spec fn open_in(map: VisitMap, open: Set<Position>) -> bool {
    forall|q: Position| #[trigger] open.contains(q) ==> q.wf() && map.spec_is_visited(q)
}

/// Every position of `before` is in `after`.
pub open spec fn grows(before: VisitMap, after: VisitMap) -> bool {
    forall|p: Position| p.wf() && #[trigger] before.spec_is_visited(p) ==> after.spec_is_visited(p)
}

/// A map that holds the target and is closed at each of its positions with
/// fewer than 32 pegs holds every well-formed position that reaches the
/// target.
pub proof fn lemma_closed_is_complete(map: VisitMap, target: Position, p: Position, path: Seq<Move>)
    requires
        map.spec_is_visited(target),
        closed_outside(map, Set::empty()),
        p.wf(),
        playable(p, path),
        play(p, path) == target,
    ensures
        map.spec_is_visited(p),
    decreases path.len(),
{
    if path.len() > 0 {
        let mv = path[0];
        let next = p.spec_apply_move(mv);
        lemma_move_changes_count(p, mv);
        lemma_movable_count(p, mv);
        lemma_apply_then_inverse(p, mv);
        lemma_closed_is_complete(map, target, next, path.drop_first());
        assert(closed_at(map, next));
        assert(next.spec_can_move_inverse(mv));
    }
}

/// A position from which a move leads to a position that reaches the target
/// reaches the target.
pub proof fn lemma_reaches_through(p: Position, mv: Move, target: Position)
    requires
        mv.valid(),
        p.spec_can_move(mv),
        reaches(p.spec_apply_move(mv), target),
    ensures
        reaches(p, target),
{
    let next = p.spec_apply_move(mv);
    let rest = choose|path: Seq<Move>| playable(next, path) && #[trigger] play(next, path) == target;
    let path = seq![mv] + rest;
    assert(path[0] == mv);
    assert(path.drop_first() =~= rest);
    assert(playable(p, path));
    assert(play(p, path) == target);
}

/// Marks every position that is not in the map yet and from which moves
/// lead to `pos` through positions that were not in the map either.
fn mark_predecessors(
    visit_map: &mut VisitMap,
    pos: Position,
    target: Ghost<Position>,
    moves: &[Move; 76],
    open: Ghost<Set<Position>>,
)
    requires
        old(visit_map).wf(),
        pos.wf(),
        pos.spec_count() < 32,
        complete_table(moves@),
        old(visit_map).spec_is_visited(pos),
        open@.contains(pos),
        open_in(*old(visit_map), open@),
        sound(*old(visit_map), target@),
        closed_outside(*old(visit_map), open@),
    ensures
        final(visit_map).wf(),
        grows(*old(visit_map), *final(visit_map)),
        sound(*final(visit_map), target@),
        closed_outside(*final(visit_map), open@.remove(pos)),
    decreases 33 - pos.spec_count(),
{
    let mut i: usize = 0;
    while i < 76
        invariant
            0 <= i <= 76,
            visit_map.wf(),
            pos.wf(),
            pos.spec_count() < 32,
            complete_table(moves@),
            visit_map.spec_is_visited(pos),
            open@.contains(pos),
            open_in(*visit_map, open@),
            grows(*old(visit_map), *visit_map),
            sound(*visit_map, target@),
            closed_outside(*visit_map, open@),
            forall|j: int|
                0 <= j < i && moves@[j].valid() && #[trigger] pos.spec_can_move_inverse(moves@[j])
                    ==> visit_map.spec_is_visited(pos.spec_apply_move_inverse(moves@[j])),
        decreases 76 - i,
    {
        let mv = moves[i];
        let ghost start_map = *visit_map;
        proof {
            use_type_invariant(&mv);
            lemma_move_changes_count(pos, mv);
            lemma_grows_chain(start_map, start_map, start_map);
        }
        if pos.can_move_inverse(mv) {
            let next = pos.apply_move_inverse(mv);
            if !visit_map.is_visited(next) {
                visit_map.visit(next);
                let ghost middle = *visit_map;
                proof {
                    lemma_inverse_then_apply(pos, mv);
                    lemma_reaches_through(next, mv, target@);
                    lemma_visit_keeps(start_map, middle, next, target@, open@);
                }
                if next.count() < 32 {
                    mark_predecessors(visit_map, next, target, moves, Ghost(open@.insert(next)));
                    proof {
                        assert(open@.insert(next).remove(next) =~= open@);
                        lemma_grows_chain(start_map, middle, *visit_map);
                    }
                }
            }
        }
        proof {
            lemma_grows_chain(*old(visit_map), start_map, *visit_map);
            lemma_grows_keeps_moves(start_map, *visit_map, pos, moves@, i as int);
            assert forall|q: Position| #[trigger] open@.contains(q) implies q.wf()
                && visit_map.spec_is_visited(q) by {
                assert(start_map.spec_is_visited(q));
            }
        }
        i += 1;
    }
    proof {
        assert forall|q: Position|
            q.wf() && #[trigger] visit_map.spec_is_visited(q) && !open@.remove(pos).contains(q)
                && q.spec_count() < 32 implies closed_at(*visit_map, q) by {
            if q == pos {
                assert forall|mv: Move|
                    mv.valid() && #[trigger] pos.spec_can_move_inverse(
                        mv,
                    ) implies visit_map.spec_is_visited(pos.spec_apply_move_inverse(mv)) by {
                    assert(moves@.contains(mv));
                    let j = choose|j: int| 0 <= j < moves@.len() && moves@[j] == mv;
                    assert(pos.spec_can_move_inverse(moves@[j]));
                }
            }
        }
    }
}

/// The set of all well-formed positions from which moves lead to `target`,
/// a well-formed position with fewer than 32 pegs. It is found by taking
/// moves back from the target as long as that gives positions that are new.
pub fn build_reachability_map(target: Position) -> (r: VisitMap)
    requires
        usize::BITS == 64,
        target.wf(),
        target.spec_count() < 32,
    ensures
        r.wf(),
        forall|p: Position| p.wf() ==> (#[trigger] r.spec_is_visited(p) <==> reaches(p, target)),
{
    let mut map = VisitMap::new();
    let ghost empty = map;
    map.visit(target);
    let moves = all_moves();
    let ghost open = Set::<Position>::empty().insert(target);
    proof {
        lemma_all_moves_distinct();
        assert forall|mv: Move| #[trigger] mv.valid() implies moves@.contains(mv) by {}
        let none: Seq<Move> = Seq::empty();
        assert(playable(target, none) && play(target, none) == target);
        assert forall|p: Position| p.wf() && #[trigger] map.spec_is_visited(p) implies reaches(
            p,
            target,
        ) by {
            assert(!empty.spec_is_visited(p));
        }
        assert forall|q: Position|
            q.wf() && #[trigger] map.spec_is_visited(q) && !open.contains(q)
                && q.spec_count() < 32 implies closed_at(map, q) by {
            assert(!empty.spec_is_visited(q));
        }
    }
    mark_predecessors(&mut map, target, Ghost(target), &moves, Ghost(open));
    proof {
        assert(open.remove(target) =~= Set::<Position>::empty());
        assert forall|p: Position| p.wf() && reaches(p, target) implies #[trigger]
            map.spec_is_visited(p) by {
            let path = choose|path: Seq<Move>| playable(p, path) && #[trigger] play(p, path) == target;
            lemma_closed_is_complete(map, target, p, path);
        }
    }
    map
}

/// Build the set of all solvable positions, i.e. positions that can reach
/// the default end position.
pub fn build_solvability_map() -> (r: VisitMap)
    requires
        usize::BITS == 64,
    ensures
        r.wf(),
        forall|p: Position|
            p.wf() ==> (#[trigger] r.spec_is_visited(p) <==> reaches(
                p,
                Position::spec_default_end(),
            )),
{
    proof {
        lemma_start_and_end_counts();
    }
    build_reachability_map(Position::default_end())
}

/// Puts into the filter the normal form of every position of the set whose
/// number lies between `from` and `to`, `to` excluded.
///
/// Afterwards the filter holds the normal form of each of these positions,
/// and whatever it held before. It holds nothing else: each bit that is set
/// now was set before or stands for the normal form of one of them.
pub fn insert_solvable(filter: &mut BloomFilter, solvability_map: &VisitMap, from: u64, to: u64)
    requires
        old(filter).wf(),
        old(filter).spec_nr_bits() > 0,
        solvability_map.wf(),
        from <= to <= 0x2_0000_0000,
    ensures
        final(filter).wf(),
        final(filter).spec_nr_bits() == old(filter).spec_nr_bits(),
        forall|p: Position|
            from <= p.0 < to && #[trigger] solvability_map.spec_is_visited(p) ==> final(filter).spec_query(p.spec_normalize()),
        forall|i: int|
            0 <= i < old(filter).spec_nr_bits() && #[trigger] old(filter)@[i] ==> final(filter)@[i],
        forall|i: int|
            0 <= i < old(filter).spec_nr_bits() && #[trigger] final(filter)@[i] ==> old(filter)@[i]
                || exists|p: Position|
                from <= p.0 < to && #[trigger] solvability_map.spec_is_visited(p) && final(filter).spec_hash(p.spec_normalize()) == i,
{
    let ghost size = filter.spec_nr_bits();
    proof {
        filter.lemma_view_len();
    }
    let mut pos: u64 = from;
    while pos < to
        invariant
            from <= pos <= to <= 0x2_0000_0000,
            size > 0,
            solvability_map.wf(),
            filter.wf(),
            filter.spec_nr_bits() == size,
            old(filter).spec_nr_bits() == size,
            filter@.len() == size,
            forall|p: Position|
                from <= p.0 < pos && #[trigger] solvability_map.spec_is_visited(p)
                    ==> filter.spec_query(p.spec_normalize()),
            forall|i: int| 0 <= i < size && #[trigger] old(filter)@[i] ==> filter@[i],
            forall|i: int|
                0 <= i < size && #[trigger] filter@[i] ==> old(filter)@[i] || exists|p: Position|
                    from <= p.0 < pos && #[trigger] solvability_map.spec_is_visited(p)
                        && filter.spec_hash(p.spec_normalize()) == i,
        decreases to - pos,
    {
        let position = Position(pos);
        if solvability_map.is_visited(position) {
            let ghost before = *filter;
            let normal = position.normalize();
            filter.insert(normal);
            proof {
                filter.lemma_view_len();
                assert forall|p: Position|
                    from <= p.0 < pos + 1 && #[trigger] solvability_map.spec_is_visited(
                        p,
                    ) implies filter.spec_query(p.spec_normalize()) by {
                    if p.0 < pos {
                        assert(before.spec_query(p.spec_normalize()));
                    } else {
                        assert(p == position);
                    }
                }
                assert forall|i: int| 0 <= i < size && #[trigger] filter@[i] implies old(filter)@[i] || exists|p: Position|
                    from <= p.0 < pos + 1 && #[trigger] solvability_map.spec_is_visited(p)
                        && filter.spec_hash(p.spec_normalize()) == i by {
                    if before@[i] {
                        if !old(filter)@[i] {
                            let p = choose|p: Position|
                                from <= p.0 < pos && #[trigger] solvability_map.spec_is_visited(p)
                                    && before.spec_hash(p.spec_normalize()) == i;
                            assert(filter.spec_hash(p.spec_normalize()) == i);
                        }
                    } else {
                        assert(filter.spec_hash(position.spec_normalize()) == i);
                    }
                }
            }
        }
        pos += 1;
    }
}

/// The reachability index of the given size for a set of positions: the
/// normal form of every position of the set is put into an empty filter.
///
/// The index has no false negatives: it holds the normal form of every
/// position of the set. And it holds nothing else: each of its bits that is
/// set stands for the normal form of a position of the set.
pub fn build_bloom_filter(size: u32, solvability_map: &VisitMap, k: u32) -> (r: BloomFilter)
    requires
        k == 1,
        size > 0,
        solvability_map.wf(),
    ensures
        r.wf(),
        r.spec_nr_bits() == size,
        forall|p: Position|
            p.wf() && #[trigger] solvability_map.spec_is_visited(p) ==> r.spec_query(
                p.spec_normalize(),
            ),
        forall|i: int|
            0 <= i < size && #[trigger] r@[i] ==> exists|p: Position|
                p.wf() && #[trigger] solvability_map.spec_is_visited(p) && r.spec_hash(
                    p.spec_normalize(),
                ) == i,
{
    let mut filter = BloomFilter::new(size, k);
    let ghost empty = filter;
    insert_solvable(&mut filter, solvability_map, 0, 0x2_0000_0000);
    proof {
        assert forall|i: int| 0 <= i < size && #[trigger] filter@[i] implies exists|p: Position|
            p.wf() && #[trigger] solvability_map.spec_is_visited(p) && filter.spec_hash(
                p.spec_normalize(),
            ) == i by {
            assert(!empty@[i]);
            let p = choose|p: Position|
                0 <= p.0 < 0x2_0000_0000 && #[trigger] solvability_map.spec_is_visited(p)
                    && filter.spec_hash(p.spec_normalize()) == i;
            assert(p.wf());
        }
    }
    filter
}

/// Putting a position that reaches the target into the map keeps the map
/// sound, keeps its positions, and keeps it closed where it was, as long as
/// the new position counts as open.
proof fn lemma_visit_keeps(
    before: VisitMap,
    after: VisitMap,
    next: Position,
    target: Position,
    open: Set<Position>,
)
    requires
        before.wf(),
        after.wf(),
        next.wf(),
        after@ == before@.update(next.0 as int, true),
        reaches(next, target),
        sound(before, target),
        closed_outside(before, open),
        open_in(before, open),
        !before.spec_is_visited(next),
    ensures
        grows(before, after),
        sound(after, target),
        closed_outside(after, open.insert(next)),
        open_in(after, open.insert(next)),
        !open.contains(next),
        next.spec_count() >= 32 ==> closed_outside(after, open),
        after.spec_is_visited(next),
{
    assert forall|p: Position| p.wf() && #[trigger] after.spec_is_visited(p) implies reaches(
        p,
        target,
    ) by {
        if p != next {
            assert(before.spec_is_visited(p));
        }
    }
    assert forall|q: Position|
        q.wf() && #[trigger] after.spec_is_visited(q) && !open.insert(next).contains(q)
            && q.spec_count() < 32 implies closed_at(after, q) by {
        assert(before.spec_is_visited(q));
        lemma_closed_at_grows(before, after, q);
    }
    if next.spec_count() >= 32 {
        assert forall|q: Position|
            q.wf() && #[trigger] after.spec_is_visited(q) && !open.contains(q) && q.spec_count()
                < 32 implies closed_at(after, q) by {
            assert(q != next);
            assert(before.spec_is_visited(q));
            lemma_closed_at_grows(before, after, q);
        }
    }
}

/// A map that is closed at a position stays so when it grows.
proof fn lemma_closed_at_grows(before: VisitMap, after: VisitMap, q: Position)
    requires
        q.wf(),
        grows(before, after),
        closed_at(before, q),
    ensures
        closed_at(after, q),
{
    assert forall|mv: Move|
        mv.valid() && #[trigger] q.spec_can_move_inverse(mv) implies after.spec_is_visited(
        q.spec_apply_move_inverse(mv),
    ) by {
        lemma_move_changes_count(q, mv);
        assert(before.spec_is_visited(q.spec_apply_move_inverse(mv)));
    }
}

proof fn lemma_grows_chain(a: VisitMap, b: VisitMap, c: VisitMap)
    requires
        grows(a, b),
        grows(b, c),
    ensures
        grows(a, c),
{
    assert forall|p: Position| p.wf() && #[trigger] a.spec_is_visited(p) implies c.spec_is_visited(
        p,
    ) by {
        assert(b.spec_is_visited(p));
    }
}

proof fn lemma_grows_keeps_moves(
    before: VisitMap,
    after: VisitMap,
    pos: Position,
    moves: Seq<Move>,
    i: int,
)
    requires
        pos.wf(),
        grows(before, after),
        0 <= i < moves.len(),
        forall|j: int|
            0 <= j < i && moves[j].valid() && #[trigger] pos.spec_can_move_inverse(moves[j])
                ==> before.spec_is_visited(pos.spec_apply_move_inverse(moves[j])),
        moves[i].valid() && pos.spec_can_move_inverse(moves[i]) ==> after.spec_is_visited(
            pos.spec_apply_move_inverse(moves[i]),
        ),
    ensures
        forall|j: int|
            0 <= j < i + 1 && moves[j].valid() && #[trigger] pos.spec_can_move_inverse(moves[j])
                ==> after.spec_is_visited(pos.spec_apply_move_inverse(moves[j])),
{
    assert forall|j: int|
        0 <= j < i + 1 && moves[j].valid() && #[trigger] pos.spec_can_move_inverse(
            moves[j],
        ) implies after.spec_is_visited(pos.spec_apply_move_inverse(moves[j])) by {
        lemma_move_changes_count(pos, moves[j]);
        if j < i {
            assert(before.spec_is_visited(pos.spec_apply_move_inverse(moves[j])));
        }
    }
}

/// The index holds the normal form of every position from which the target
/// can be reached.
pub open spec fn faithful(filter: BloomFilter) -> bool {
    forall|p: Position|
        p.wf() && #[trigger] reaches(p, Position::spec_default_end()) ==> filter.spec_query(
            p.spec_normalize(),
        )
}

/// With a faithful index the search misses nothing: every way to play from
/// a position to the target is a path that the search can follow. What the
/// index holds beyond the positions that reach the target costs steps and
/// hides no solution.
pub proof fn lemma_faithful_index_guides(filter: BloomFilter, pos: Position, path: Seq<Move>)
    requires
        faithful(filter),
        pos.wf(),
        path.len() > 0,
        playable(pos, path),
        play(pos, path) == Position::spec_default_end(),
    ensures
        guided(filter, Position::spec_default_end(), pos, path),
    decreases path.len(),
{
    let end = Position::spec_default_end();
    let next = pos.spec_apply_move(path[0]);
    let rest = path.drop_first();
    if path.len() > 1 {
        lemma_move_changes_count(pos, path[0]);
        lemma_reaches_counts(next, end, rest);
        lemma_start_and_end_counts();
        assert(reaches(next, end));
        assert(passable(filter, end, next));
        lemma_faithful_index_guides(filter, next, rest);
    } else {
        assert(play(next, rest) == next);
    }
}

/// With a faithful index the solver never calls a position unsolvable
/// wrongly, in either direction: `Unsolvable` is proof that no moves lead
/// from the start of the search to the target. Searching backward, that
/// means that no moves lead from the start position to the position.
pub proof fn lemma_unsolvable_is_proof(
    filter: BloomFilter,
    pos: Position,
    dir: Direction,
    path: Seq<Move>,
    steps: int,
    attempts: int,
)
    requires
        faithful(filter),
        pos.wf(),
        solve_means(pos, filter, dir, Verdict::Unsolvable, path, steps, attempts),
    ensures
        !reaches(search_start(pos, dir), Position::spec_default_end()),
        dir == Direction::Backward ==> !reaches(Position::spec_default_start(), pos),
{
    let end = Position::spec_default_end();
    let start = search_start(pos, dir);
    lemma_inverse_count(pos);
    lemma_start_and_end_counts();
    if reaches(start, end) {
        let way = choose|way: Seq<Move>| playable(start, way) && #[trigger] play(start, way) == end;
        if way.len() > 0 {
            lemma_faithful_index_guides(filter, start, way);
        }
        lemma_wrong_class_unsolvable(pos, dir, way);
    }
    if dir == Direction::Backward && reaches(Position::spec_default_start(), pos) {
        let first = Position::spec_default_start();
        let way = choose|way: Seq<Move>| playable(first, way) && #[trigger] play(first, way) == pos;
        lemma_play_backwards(first, way);
        assert(reaches(start, end));
    }
}

/// The start position with a faithful index: whatever the seed, the solver
/// does not call it unsolvable, and unless it gives up after its last
/// attempt it returns 31 moves that can be played one after the other from
/// the start position and lead to the target. An index that holds more
/// than the positions that reach the target can let the search run out of
/// steps: the index that holds every position does.
pub proof fn lemma_start_is_solved(
    filter: BloomFilter,
    verdict: Verdict,
    path: Seq<Move>,
    steps: int,
    attempts: int,
)
    requires
        faithful(filter),
        solve_means(
            Position::spec_default_start(),
            filter,
            Direction::Forward,
            verdict,
            path,
            steps,
            attempts,
        ),
    ensures
        verdict != Verdict::Unsolvable,
        verdict != Verdict::TimedOut ==> {
            &&& verdict == Verdict::Solved
            &&& path.len() == 31
            &&& playable(Position::spec_default_start(), path)
            &&& play(Position::spec_default_start(), path) == Position::spec_default_end()
        },
{
    let start = Position::spec_default_start();
    let end = Position::spec_default_end();
    lemma_start_and_end_counts();
    lemma_reference_solves(0);
    assert(reaches(start, end));
    if verdict == Verdict::Unsolvable {
        lemma_unsolvable_is_proof(filter, start, Direction::Forward, path, steps, attempts);
    }
    if verdict == Verdict::Solved {
        lemma_guided_plays(filter, end, start, path);
        lemma_guided_length(filter, start, path);
    }
}

} // verus!
