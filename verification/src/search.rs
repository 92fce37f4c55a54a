//! An exact search: whether moves lead from one position to another, found
//! by trying them all and remembering every position that was tried.

use crate::builder::{grows, lemma_reaches_through, reaches};
use crate::moves::{all_moves, lemma_all_moves_distinct, Move};
use crate::position::{lemma_move_changes_count, Position};
use crate::solver::{complete_table, play, playable};
use crate::visit_map::VisitMap;
use vstd::prelude::*;

verus! {

/// The steps lead from `start` to `end`: each step is a move that can be
/// made and the position that it gives.
pub open spec fn traced(start: Position, end: Position, steps: Seq<(Position, Move)>) -> bool
    decreases steps.len(),
{
    if steps.len() == 0 {
        start == end
    } else {
        &&& steps[0].1.valid()
        &&& start.spec_can_move(steps[0].1)
        &&& start.spec_apply_move(steps[0].1) == steps[0].0
        &&& traced(steps[0].0, end, steps.drop_first())
    }
}

/// What a search found.
pub struct SearchResult {
    /// Whether moves lead from the start to the end.
    pub found: bool,
    /// The moves that were found, with the position after each.
    pub path: Vec<(Position, Move)>,
}

/// Every position that is in `after` but not in `before` has fewer than
/// `pegs` pegs.
pub open spec fn new_below(before: VisitMap, after: VisitMap, pegs: int) -> bool {
    forall|q: Position|
        q.wf() && #[trigger] after.spec_is_visited(q) && !before.spec_is_visited(q)
            ==> q.spec_count() < pegs
}

/// Every position in the map with fewer than `pegs` pegs is a dead end: no
/// moves lead from it to `end`.
pub open spec fn dead_below(map: VisitMap, end: Position, pegs: int) -> bool {
    forall|q: Position|
        q.wf() && #[trigger] map.spec_is_visited(q) && q.spec_count() < pegs ==> !reaches(q, end)
}

/// Moves lead between two positions with the same number of pegs only if
/// they are the same position, and from one position to another only if it
/// has no fewer pegs.
pub proof fn lemma_reaches_counts(start: Position, end: Position, path: Seq<Move>)
    requires
        playable(start, path),
        play(start, path) == end,
    ensures
        end.spec_count() == start.spec_count() - path.len(),
    decreases path.len(),
{
    if path.len() > 0 {
        lemma_move_changes_count(start, path[0]);
        lemma_reaches_counts(start.spec_apply_move(path[0]), end, path.drop_first());
    }
}

/// The steps of a trace, as moves, can be played and lead to the end.
pub proof fn lemma_traced_plays(start: Position, end: Position, steps: Seq<(Position, Move)>)
    requires
        traced(start, end, steps),
    ensures
        playable(start, steps.map_values(|s: (Position, Move)| s.1)),
        play(start, steps.map_values(|s: (Position, Move)| s.1)) == end,
        reaches(start, end),
    decreases steps.len(),
{
    let moves = steps.map_values(|s: (Position, Move)| s.1);
    if steps.len() > 0 {
        lemma_traced_plays(steps[0].0, end, steps.drop_first());
        assert(moves.drop_first() =~= steps.drop_first().map_values(|s: (Position, Move)| s.1));
    }
    assert(playable(start, moves) && play(start, moves) == end);
}

/// The search below one position: tries every move that can be made in
/// `start` and goes on from each position that was not tried before.
fn search_inner(
    start: Position,
    end: Position,
    remaining_moves: i32,
    map: &mut VisitMap,
    path: &mut Vec<(Position, Move)>,
    moves: &[Move; 76],
) -> (r: bool)
    requires
        old(map).wf(),
        start.wf(),
        end.wf(),
        complete_table(moves@),
        remaining_moves == start.spec_count() - end.spec_count(),
        dead_below(*old(map), end, start.spec_count()),
    ensures
        final(map).wf(),
        grows(*old(map), *final(map)),
        new_below(*old(map), *final(map), start.spec_count()),
        r == reaches(start, end),
        !r ==> dead_below(*final(map), end, start.spec_count()) && final(path)@ == old(path)@,
        r ==> exists|steps: Seq<(Position, Move)>|
            #[trigger] traced(start, end, steps) && final(path)@ == old(path)@ + steps.reverse(),
    decreases start.spec_count(),
{
    if remaining_moves <= 0 {
        proof {
            if start == end {
                let none: Seq<(Position, Move)> = Seq::empty();
                assert(traced(start, end, none));
                assert(path@ =~= old(path)@ + none.reverse());
                lemma_traced_plays(start, end, none);
            } else if reaches(start, end) {
                let way = choose|way: Seq<Move>| playable(start, way) && #[trigger] play(start, way) == end;
                lemma_reaches_counts(start, end, way);
            }
            lemma_grows_self(*map);
        }
        return start == end;
    }
    let mut i: usize = 0;
    while i < 76
        invariant
            0 <= i <= 76,
            map.wf(),
            start.wf(),
            end.wf(),
            complete_table(moves@),
            remaining_moves == start.spec_count() - end.spec_count(),
            remaining_moves > 0,
            grows(*old(map), *map),
            new_below(*old(map), *map, start.spec_count()),
            dead_below(*map, end, start.spec_count()),
            path@ == old(path)@,
            forall|j: int|
                0 <= j < i && moves@[j].valid() && #[trigger] start.spec_can_move(moves@[j])
                    ==> !reaches(start.spec_apply_move(moves@[j]), end),
        decreases 76 - i,
    {
        let j = moves[i];
        proof {
            use_type_invariant(&j);
            lemma_move_changes_count(start, j);
        }
        if start.can_move(j) {
            let next = start.apply_move(j);
            if !map.is_visited(next) {
                let ghost before = *map;
                map.visit(next);
                proof {
                    lemma_visit_grows(before, *map, next);
                    lemma_grows_chain(*old(map), before, *map);
                    assert(dead_below(*map, end, next.spec_count())) by {
                        assert forall|q: Position|
                            q.wf() && #[trigger] map.spec_is_visited(q) && q.spec_count()
                                < next.spec_count() implies !reaches(q, end) by {
                            assert(before.spec_is_visited(q));
                        }
                    }
                }
                let ghost middle = *map;
                if search_inner(next, end, remaining_moves - 1, map, path, moves) {
                    let ghost deeper = path@;
                    path.push((next, j));
                    proof {
                        lemma_grows_chain(*old(map), middle, *map);
                        lemma_new_chain(*old(map), before, middle, *map, next, start.spec_count());
                        lemma_reaches_through(start, j, end);
                        let below = choose|steps: Seq<(Position, Move)>|
                            #[trigger] traced(next, end, steps) && deeper == old(path)@
                                + steps.reverse();
                        let steps = seq![(next, j)] + below;
                        assert(steps[0] == (next, j));
                        assert(steps.drop_first() =~= below);
                        assert(traced(start, end, steps));
                        assert(steps.reverse() =~= below.reverse().push((next, j)));
                        assert(path@ =~= old(path)@ + steps.reverse());
                    }
                    return true;
                }
                proof {
                    lemma_grows_chain(*old(map), middle, *map);
                    lemma_new_chain(*old(map), before, middle, *map, next, start.spec_count());
                    assert(dead_below(*map, end, start.spec_count())) by {
                        assert forall|q: Position|
                            q.wf() && #[trigger] map.spec_is_visited(q) && q.spec_count()
                                < start.spec_count() implies !reaches(q, end) by {
                            if q.spec_count() == next.spec_count() && q != next {
                                assert(middle.spec_is_visited(q));
                                assert(before.spec_is_visited(q));
                            }
                        }
                    }
                }
            }
        }
        i += 1;
    }
    proof {
        if reaches(start, end) {
            let way = choose|way: Seq<Move>| playable(start, way) && #[trigger] play(start, way) == end;
            lemma_reaches_counts(start, end, way);
            let mv = way[0];
            assert(moves@.contains(mv));
            let j = choose|j: int| 0 <= j < moves@.len() && moves@[j] == mv;
            assert(start.spec_can_move(moves@[j]));
            let rest = way.drop_first();
            assert(playable(start.spec_apply_move(mv), rest) && play(start.spec_apply_move(mv), rest)
                == end);
        }
    }
    false
}

/// What is new after a position with fewer than `pegs` pegs was put into
/// the map and the search went on below it has fewer than `pegs` pegs.
proof fn lemma_new_chain(
    first: VisitMap,
    before: VisitMap,
    middle: VisitMap,
    last: VisitMap,
    next: Position,
    pegs: int,
)
    requires
        before.wf(),
        middle.wf(),
        next.wf(),
        next.spec_count() < pegs,
        middle@ == before@.update(next.0 as int, true),
        new_below(first, before, pegs),
        new_below(middle, last, next.spec_count()),
    ensures
        new_below(first, last, pegs),
{
    assert forall|q: Position|
        q.wf() && #[trigger] last.spec_is_visited(q) && !first.spec_is_visited(q) implies q.spec_count()
        < pegs by {
        if middle.spec_is_visited(q) {
            if q != next {
                assert(before.spec_is_visited(q));
            }
        }
    }
}

/// Whether moves lead from `start` to `end`, and if so, which: an exhaustive
/// search that tries each position once.
///
/// Two positions with the same number of pegs are taken to be joined
/// without a look at them.
pub fn search(start: Position, end: Position) -> (r: SearchResult)
    requires
        usize::BITS == 64,
        start.wf(),
        end.wf(),
    ensures
        r.found == if start.spec_count() < end.spec_count() {
            false
        } else if start.spec_count() == end.spec_count() {
            true
        } else {
            reaches(start, end)
        },
        if r.found && start.spec_count() > end.spec_count() {
            traced(start, end, r.path@)
        } else {
            r.path@.len() == 0
        },
{
    let len = start.count() - end.count();
    if len < 0 {
        return SearchResult { found: false, path: Vec::new() };
    }
    if len == 0 {
        return SearchResult { found: true, path: Vec::new() };
    }
    let mut map = VisitMap::new();
    let moves = all_moves();
    let mut found: Vec<(Position, Move)> = Vec::new();
    proof {
        lemma_all_moves_distinct();
        assert forall|mv: Move| #[trigger] mv.valid() implies moves@.contains(mv) by {}
    }
    let ok = search_inner(start, end, len, &mut map, &mut found, &moves);

    let mut path: Vec<(Position, Move)> = Vec::new();
    let mut i: usize = found.len();
    while i > 0
        invariant
            0 <= i <= found@.len(),
            path@.len() == found@.len() - i,
            forall|j: int| 0 <= j < path@.len() ==> path@[j] == found@[found@.len() - 1 - j],
        decreases i,
    {
        i -= 1;
        path.push(found[i]);
    }
    proof {
        assert(path@ =~= found@.reverse());
        if ok {
            let steps = choose|steps: Seq<(Position, Move)>|
                #[trigger] traced(start, end, steps) && found@ == Seq::<(Position, Move)>::empty()
                    + steps.reverse();
            assert(found@ =~= steps.reverse());
            assert(path@ =~= steps);
        } else {
            assert(found@ =~= Seq::<(Position, Move)>::empty());
        }
    }
    SearchResult { found: ok, path }
}

proof fn lemma_grows_self(map: VisitMap)
    ensures
        grows(map, map),
{
}

proof fn lemma_grows_chain(a: VisitMap, b: VisitMap, c: VisitMap)
    requires
        grows(a, b),
        grows(b, c),
    ensures
        grows(a, c),
{
    assert forall|p: Position| p.wf() && #[trigger] a.spec_is_visited(p) implies c.spec_is_visited(
        p,
    ) by {
        assert(b.spec_is_visited(p));
    }
}

proof fn lemma_visit_grows(before: VisitMap, after: VisitMap, next: Position)
    requires
        before.wf(),
        after.wf(),
        next.wf(),
        after@ == before@.update(next.0 as int, true),
    ensures
        grows(before, after),
        forall|q: Position|
            q.wf() ==> (#[trigger] after.spec_is_visited(q) <==> before.spec_is_visited(q) || q
                == next),
{
}

} // verus!
