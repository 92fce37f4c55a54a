//! Surveys of the space of positions: what lies one move off the solvable
//! positions, how many normal forms they have, and how well an index tells
//! them from the others.

use crate::bits::lemma_popcount_bound;
use crate::bloom::BloomFilter;
use crate::debruijn::{de_bruijn_solvable, spec_de_bruijn_class, GF4};
use crate::moves::{all_moves, lemma_all_moves_distinct, spec_all_moves, Move};
use crate::position::{lemma_inverse_count, lemma_move_changes_count, Position};
use crate::symmetry::lemma_symmetry_wf;
use crate::primality::{check_prime, is_prime};
use crate::shuffle::{
    draw_outcome, generator_state, random_below, seeded_generator, seeded_state,
};
use crate::solver::{
    complete_table, solve_with_bloom_filter, spec_solve, Direction, SolveInfo, SolveResult,
    Verdict,
};
use vstd::arithmetic::div_mod::lemma_fundamental_div_mod_converse;
use crate::visit_map::VisitMap;
use vstd::arithmetic::power2::{lemma2_to64, lemma_pow2_strictly_increases, lemma_pow2_unfold, pow2};
use vstd::prelude::*;
use vstd::string::StringExecFns;

verus! {

/// The move is a move of the board that can be made in `pos` and gives
/// `next`.
pub open spec fn leads(pos: Position, mv: Move, next: Position) -> bool {
    mv.valid() && pos.spec_can_move(mv) && pos.spec_apply_move(mv) == next
}

/// The position `next` lies one move behind `pos`, a position of the set
/// that has more than one peg.
pub open spec fn one_past_of(map: VisitMap, pos: Position, next: Position) -> bool {
    &&& pos.wf()
    &&& map.spec_is_visited(pos)
    &&& pos.spec_count() > 1
    &&& exists|mv: Move| #[trigger] leads(pos, mv, next)
}

/// The position lies one move behind a position of the set whose number is
/// between `from` and `to`, `to` excluded.
pub open spec fn one_past_within(map: VisitMap, from: int, to: int, next: Position) -> bool {
    exists|pos: Position| from <= pos.0 < to && #[trigger] one_past_of(map, pos, next)
}

/// Marks in `one_past` every position that one move leads to from a
/// position of the set with more than one peg whose number lies between
/// `from` and `to`, `to` excluded. What was marked before stays marked, and
/// nothing else is marked.
pub fn mark_one_past(
    one_past: &mut VisitMap,
    solvability_map: &VisitMap,
    moves: &[Move; 76],
    from: u64,
    to: u64,
)
    requires
        old(one_past).wf(),
        solvability_map.wf(),
        complete_table(moves@),
        from <= to <= 0x2_0000_0000,
    ensures
        final(one_past).wf(),
        forall|q: Position|
            q.wf() ==> (#[trigger] final(one_past).spec_is_visited(q) <==> old(
                one_past,
            ).spec_is_visited(q) || one_past_within(*solvability_map, from as int, to as int, q)),
{
    let mut at: u64 = from;
    while at < to
        invariant
            from <= at <= to <= 0x2_0000_0000,
            one_past.wf(),
            solvability_map.wf(),
            complete_table(moves@),
            forall|q: Position|
                q.wf() ==> (#[trigger] one_past.spec_is_visited(q) <==> old(
                    one_past,
                ).spec_is_visited(q) || one_past_within(
                    *solvability_map,
                    from as int,
                    at as int,
                    q,
                )),
        decreases to - at,
    {
        let pos = Position(at);
        let ghost before = *one_past;
        if solvability_map.is_visited(pos) && pos.count() > 1 {
            let mut i: usize = 0;
            while i < 76
                invariant
                    0 <= i <= 76,
                    pos.wf(),
                    one_past.wf(),
                    before.wf(),
                    forall|q: Position|
                        q.wf() ==> (#[trigger] one_past.spec_is_visited(q) <==> before.spec_is_visited(
                            q,
                        ) || exists|j: int| 0 <= j < i && #[trigger] leads(pos, moves@[j], q)),
                decreases 76 - i,
            {
                let mv = moves[i];
                let ghost during = *one_past;
                proof {
                    use_type_invariant(&mv);
                    lemma_move_changes_count(pos, mv);
                }
                if pos.can_move(mv) {
                    let next = pos.apply_move(mv);
                    one_past.visit(next);
                }
                proof {
                    assert forall|q: Position| q.wf() implies (#[trigger] one_past.spec_is_visited(q)
                        <==> before.spec_is_visited(q) || exists|j: int|
                        0 <= j < i + 1 && #[trigger] leads(pos, moves@[j], q)) by {
                        let earlier = exists|j: int| 0 <= j < i && #[trigger] leads(pos, moves@[j], q);
                        assert(during.spec_is_visited(q) == (before.spec_is_visited(q) || earlier));
                        let now = leads(pos, moves@[i as int], q);
                        assert(one_past.spec_is_visited(q) == (during.spec_is_visited(q) || now));
                        if earlier {
                            let j = choose|j: int| 0 <= j < i && #[trigger] leads(pos, moves@[j], q);
                            assert(0 <= j < i + 1 && leads(pos, moves@[j], q));
                        }
                        if now {
                            assert(0 <= i < i + 1 && leads(pos, moves@[i as int], q));
                        }
                        if exists|j: int| 0 <= j < i + 1 && #[trigger] leads(pos, moves@[j], q) {
                            let j = choose|j: int|
                                0 <= j < i + 1 && #[trigger] leads(pos, moves@[j], q);
                            if j < i {
                                assert(earlier);
                            } else {
                                assert(now);
                            }
                        }
                    }
                }
                i += 1;
            }
        }
        proof {
            assert forall|q: Position| q.wf() implies (#[trigger] one_past.spec_is_visited(q) <==> old(
                one_past,
            ).spec_is_visited(q) || one_past_within(
                *solvability_map,
                from as int,
                at + 1,
                q,
            )) by {
                let was = old(one_past).spec_is_visited(q) || one_past_within(
                    *solvability_map,
                    from as int,
                    at as int,
                    q,
                );
                assert(before.spec_is_visited(q) == was);
                if one_past_within(*solvability_map, from as int, at + 1, q) && !was {
                    let p = choose|p: Position|
                        from <= p.0 < at + 1 && #[trigger] one_past_of(*solvability_map, p, q);
                    assert(p == pos) by {
                        if p.0 < at {
                            assert(one_past_within(*solvability_map, from as int, at as int, q));
                        }
                    }
                    let mv = choose|mv: Move| #[trigger] leads(pos, mv, q);
                    assert(moves@.contains(mv));
                    let j = choose|j: int| 0 <= j < moves@.len() && moves@[j] == mv;
                    assert(leads(pos, moves@[j], q));
                }
                if one_past.spec_is_visited(q) && !before.spec_is_visited(q) {
                    let j = choose|j: int| 0 <= j < 76 && #[trigger] leads(pos, moves@[j], q);
                    assert(leads(pos, moves@[j], q));
                    assert(one_past_of(*solvability_map, pos, q));
                }
                if was {
                    if !old(one_past).spec_is_visited(q) {
                        let p = choose|p: Position|
                            from <= p.0 < at && #[trigger] one_past_of(*solvability_map, p, q);
                        assert(one_past_of(*solvability_map, p, q));
                    }
                }
            }
        }
        at += 1;
    }
}

/// Build the set of all positions that are reachable within one step from
/// any solvable position that has more than one peg. They're at most one
/// move off the correct path.
pub fn build_one_past_solvable_map(solvability_map: &VisitMap) -> (r: VisitMap)
    requires
        solvability_map.wf(),
    ensures
        r.wf(),
        forall|q: Position|
            q.wf() ==> (#[trigger] r.spec_is_visited(q) <==> exists|pos: Position| #[trigger]
                one_past_of(*solvability_map, pos, q)),
{
    let mut one_past_map = VisitMap::new();
    let ghost empty = one_past_map;
    let moves = all_moves();
    proof {
        lemma_all_moves_distinct();
        assert forall|mv: Move| #[trigger] mv.valid() implies moves@.contains(mv) by {}
    }
    mark_one_past(&mut one_past_map, solvability_map, &moves, 0, 0x2_0000_0000);
    proof {
        assert forall|q: Position| q.wf() implies (#[trigger] one_past_map.spec_is_visited(q)
            <==> exists|pos: Position| #[trigger] one_past_of(*solvability_map, pos, q)) by {
            assert(!empty.spec_is_visited(q));
            if one_past_map.spec_is_visited(q) {
                let p = choose|p: Position|
                    0 <= p.0 < 0x2_0000_0000 && #[trigger] one_past_of(*solvability_map, p, q);
                assert(one_past_of(*solvability_map, p, q));
            }
            if exists|pos: Position| #[trigger] one_past_of(*solvability_map, pos, q) {
                let p = choose|pos: Position| #[trigger] one_past_of(*solvability_map, pos, q);
                assert(0 <= p.0 < 0x2_0000_0000 && one_past_of(*solvability_map, p, q));
            }
        }
    }
    one_past_map
}

/// How many of the first `n` moves of the table can be made in `pos`.
pub open spec fn children(pos: Position, moves: Seq<Move>, n: int) -> nat
    decreases n,
{
    if n <= 0 {
        0
    } else if moves[n - 1].valid() && pos.spec_can_move(moves[n - 1]) {
        children(pos, moves, n - 1) + 1
    } else {
        children(pos, moves, n - 1)
    }
}

/// How many of the first `n` moves of the table can be made in `pos` and
/// lead to a position whose normal form the index holds.
pub open spec fn positive_children(filter: BloomFilter, pos: Position, moves: Seq<Move>, n: int) -> nat
    decreases n,
{
    if n <= 0 {
        0
    } else if moves[n - 1].valid() && pos.spec_can_move(moves[n - 1]) && filter.spec_query(
        pos.spec_apply_move(moves[n - 1]).spec_normalize(),
    ) {
        positive_children(filter, pos, moves, n - 1) + 1
    } else {
        positive_children(filter, pos, moves, n - 1)
    }
}

/// Of the positions that one move leads to from `pos`, how many the index
/// takes to be solvable, and how many there are. A position that several
/// moves lead to counts once for each.
pub fn count_positive_children(filter: &BloomFilter, pos: Position) -> (r: (u64, u64))
    requires
        filter.wf(),
        filter.spec_nr_bits() > 0,
    ensures
        r.0 == positive_children(*filter, pos, spec_all_moves(), 76),
        r.1 == children(pos, spec_all_moves(), 76),
        r.0 <= r.1 <= 76,
{
    let moves = all_moves();
    let mut positives: u64 = 0;
    let mut total: u64 = 0;
    let mut i: usize = 0;
    while i < 76
        invariant
            0 <= i <= 76,
            filter.wf(),
            filter.spec_nr_bits() > 0,
            moves@ == spec_all_moves(),
            positives == positive_children(*filter, pos, moves@, i as int),
            total == children(pos, moves@, i as int),
            positives <= total <= i,
        decreases 76 - i,
    {
        let jump = moves[i];
        proof {
            use_type_invariant(&jump);
        }
        if pos.can_move(jump) {
            total += 1;
            let next = pos.apply_move(jump);
            if filter.query(next.normalize()) {
                positives += 1;
            }
        }
        i += 1;
    }
    (positives, total)
}

/// The position `pos` is in the set and `normal` is its normal form.
pub open spec fn normal_form_of(map: VisitMap, pos: Position, normal: Position) -> bool {
    map.spec_is_visited(pos) && pos.spec_normalize() == normal
}

/// The normal forms of the positions of the set with a number from `from`
/// up to `to`, `to` excluded, that are not in `seen`.
pub open spec fn fresh_normal_forms(map: VisitMap, seen: VisitMap, from: int, to: int) -> Set<
    Position,
> {
    Set::new(
        |q: Position|
            !seen.spec_is_visited(q) && exists|p: Position|
                from <= p.0 < to && #[trigger] normal_form_of(map, p, q),
    )
}

/// Counts the normal forms of the positions of the set with a number from
/// `from` up to `to`, `to` excluded, that are not in `seen` yet, and puts
/// them there.
pub fn count_normalized_within(
    solvability_map: &VisitMap,
    seen: &mut VisitMap,
    from: u64,
    to: u64,
) -> (count: u64)
    requires
        solvability_map.wf(),
        old(seen).wf(),
        from <= to <= 0x2_0000_0000,
    ensures
        final(seen).wf(),
        fresh_normal_forms(*solvability_map, *old(seen), from as int, to as int).finite(),
        count == fresh_normal_forms(*solvability_map, *old(seen), from as int, to as int).len(),
        forall|q: Position|
            q.wf() ==> (#[trigger] final(seen).spec_is_visited(q) <==> old(seen).spec_is_visited(q)
                || fresh_normal_forms(*solvability_map, *old(seen), from as int, to as int).contains(
                q,
            )),
{
    let mut count: u64 = 0;
    let mut at: u64 = from;
    let ghost mut found: Set<Position> = Set::empty();
    proof {
        assert(found =~= fresh_normal_forms(
            *solvability_map,
            *old(seen),
            from as int,
            from as int,
        ));
    }
    while at < to
        invariant
            from <= at <= to <= 0x2_0000_0000,
            solvability_map.wf(),
            seen.wf(),
            old(seen).wf(),
            found.finite(),
            count == found.len(),
            count <= at - from,
            found == fresh_normal_forms(*solvability_map, *old(seen), from as int, at as int),
            forall|q: Position|
                q.wf() ==> (#[trigger] seen.spec_is_visited(q) <==> old(seen).spec_is_visited(q)
                    || found.contains(q)),
        decreases to - at,
    {
        let pos = Position(at);
        let ghost before = found;
        let ghost normal = pos.spec_normalize();
        let ghost mut added = false;
        let ghost during = *seen;
        proof {
            lemma_symmetry_wf(pos);
        }
        if solvability_map.is_visited(pos) {
            let norm = pos.normalize();
            if !seen.is_visited(norm) {
                count += 1;
                seen.visit(norm);
                proof {
                    found = found.insert(norm);
                    added = true;
                }
            }
        }
        proof {
            let goal = fresh_normal_forms(*solvability_map, *old(seen), from as int, at + 1);
            assert forall|q: Position| found.contains(q) == goal.contains(q) by {
                if before.contains(q) {
                    let p = choose|p: Position|
                        from <= p.0 < at && #[trigger] normal_form_of(*solvability_map, p, q);
                    assert(from <= p.0 < at + 1 && normal_form_of(*solvability_map, p, q));
                }
                if added && q == normal {
                    assert(from <= pos.0 < at + 1 && normal_form_of(*solvability_map, pos, q));
                }
                if goal.contains(q) {
                    let p = choose|p: Position|
                        from <= p.0 < at + 1 && #[trigger] normal_form_of(*solvability_map, p, q);
                    if p.0 < at {
                        assert(from <= p.0 < at && normal_form_of(*solvability_map, p, q));
                        assert(before.contains(q));
                    } else {
                        assert(p == pos);
                    }
                }
            }
            assert(found =~= goal);
            assert forall|q: Position| q.wf() implies (#[trigger] seen.spec_is_visited(q) <==> old(
                seen,
            ).spec_is_visited(q) || found.contains(q)) by {
                assert(during.spec_is_visited(q) == (old(seen).spec_is_visited(q)
                    || before.contains(q)));
                if added {
                    assert(seen.spec_is_visited(q) == (during.spec_is_visited(q) || q == normal));
                }
            }
        }
        at += 1;
    }
    count
}

/// Count the number of unique solvable positions, modulo normalization.
pub fn count_normalized_solvability(solvability_map: &VisitMap) -> (count: u64)
    requires
        solvability_map.wf(),
    ensures
        Set::new(
            |q: Position|
                exists|p: Position| p.wf() && #[trigger] normal_form_of(*solvability_map, p, q),
        ).finite(),
        count == Set::new(
            |q: Position|
                exists|p: Position| p.wf() && #[trigger] normal_form_of(*solvability_map, p, q),
        ).len(),
{
    let mut map = VisitMap::new();
    let ghost empty = map;
    let count = count_normalized_within(solvability_map, &mut map, 0, 0x2_0000_0000);
    proof {
        let counted = fresh_normal_forms(*solvability_map, empty, 0, 0x2_0000_0000);
        let all = Set::new(
            |q: Position|
                exists|p: Position| p.wf() && #[trigger] normal_form_of(*solvability_map, p, q),
        );
        assert forall|q: Position| counted.contains(q) == all.contains(q) by {
            if counted.contains(q) {
                let p = choose|p: Position|
                    0 <= p.0 < 0x2_0000_0000 && #[trigger] normal_form_of(*solvability_map, p, q);
                assert(p.wf() && normal_form_of(*solvability_map, p, q));
            }
            if all.contains(q) {
                let p = choose|p: Position|
                    p.wf() && #[trigger] normal_form_of(*solvability_map, p, q);
                assert(0 <= p.0 < 0x2_0000_0000 && normal_form_of(*solvability_map, p, q));
                lemma_symmetry_wf(p);
                assert(!empty.spec_is_visited(q));
            }
        }
        assert(counted =~= all);
    }
    count
}

/// What is counted when an index is held against the set that it was built
/// from.
#[derive(Clone, Copy, PartialEq, Eq, Debug, Structural)]
pub enum Tally {
    /// A position that is not in the set.
    Negative,
    /// A position that is not in the set but one move behind it.
    OnePast,
    /// A position that is not in the set, but whose normal form the index
    /// holds.
    FalsePositive,
    /// A false positive that lies one move behind the set.
    FalsePositiveOnePast,
    /// A position of the set whose normal form the index lacks.
    FalseNegative,
}

/// Whether the position counts for the tally.
pub open spec fn tallied(
    map: VisitMap,
    one_past: VisitMap,
    filter: BloomFilter,
    kind: Tally,
    pos: Position,
) -> bool {
    let present = filter.spec_query(pos.spec_normalize());
    match kind {
        Tally::Negative => !map.spec_is_visited(pos),
        Tally::OnePast => !map.spec_is_visited(pos) && one_past.spec_is_visited(pos),
        Tally::FalsePositive => !map.spec_is_visited(pos) && present,
        Tally::FalsePositiveOnePast => !map.spec_is_visited(pos) && one_past.spec_is_visited(pos)
            && present,
        Tally::FalseNegative => map.spec_is_visited(pos) && !present,
    }
}

/// How many positions with a number from `from` up to `to`, `to` excluded,
/// count for the tally.
pub open spec fn tally(
    map: VisitMap,
    one_past: VisitMap,
    filter: BloomFilter,
    kind: Tally,
    from: int,
    to: int,
) -> nat
    decreases to - from,
{
    if to <= from {
        0
    } else if tallied(map, one_past, filter, kind, Position((to - 1) as u64)) {
        tally(map, one_past, filter, kind, from, to - 1) + 1
    } else {
        tally(map, one_past, filter, kind, from, to - 1)
    }
}

/// What was counted when an index was held against its set.
#[derive(Clone, Copy, PartialEq, Eq, Debug, Structural)]
pub struct FalsePositiveStats {
    pub total_negatives: u64,
    pub total_one_past: u64,
    pub false_positives: u64,
    pub false_positives_in_one_past: u64,
    pub false_negatives: u64,
}

/// Count the number of false positives of an index through enumeration of
/// the positions with a number from `from` up to `to`, `to` excluded: the
/// positions that are not in the set, those of them that lie one move
/// behind it, those of either kind that the index takes to be in the set,
/// and the positions of the set that it misses.
pub fn evaluate_false_positives(
    solvability_map: &VisitMap,
    one_past_map: &VisitMap,
    filter: &BloomFilter,
    from: u64,
    to: u64,
) -> (r: FalsePositiveStats)
    requires
        solvability_map.wf(),
        one_past_map.wf(),
        filter.wf(),
        filter.spec_nr_bits() > 0,
        from <= to <= 0x2_0000_0000,
    ensures
        r.total_negatives == tally(
            *solvability_map,
            *one_past_map,
            *filter,
            Tally::Negative,
            from as int,
            to as int,
        ),
        r.total_one_past == tally(
            *solvability_map,
            *one_past_map,
            *filter,
            Tally::OnePast,
            from as int,
            to as int,
        ),
        r.false_positives == tally(
            *solvability_map,
            *one_past_map,
            *filter,
            Tally::FalsePositive,
            from as int,
            to as int,
        ),
        r.false_positives_in_one_past == tally(
            *solvability_map,
            *one_past_map,
            *filter,
            Tally::FalsePositiveOnePast,
            from as int,
            to as int,
        ),
        r.false_negatives == tally(
            *solvability_map,
            *one_past_map,
            *filter,
            Tally::FalseNegative,
            from as int,
            to as int,
        ),
{
    let mut stats = FalsePositiveStats {
        total_negatives: 0,
        total_one_past: 0,
        false_positives: 0,
        false_positives_in_one_past: 0,
        false_negatives: 0,
    };
    let mut at: u64 = from;
    while at < to
        invariant
            from <= at <= to <= 0x2_0000_0000,
            solvability_map.wf(),
            one_past_map.wf(),
            filter.wf(),
            filter.spec_nr_bits() > 0,
            stats.total_negatives <= at - from,
            stats.total_one_past <= at - from,
            stats.false_positives <= at - from,
            stats.false_positives_in_one_past <= at - from,
            stats.false_negatives <= at - from,
            stats.total_negatives == tally(
                *solvability_map,
                *one_past_map,
                *filter,
                Tally::Negative,
                from as int,
                at as int,
            ),
            stats.total_one_past == tally(
                *solvability_map,
                *one_past_map,
                *filter,
                Tally::OnePast,
                from as int,
                at as int,
            ),
            stats.false_positives == tally(
                *solvability_map,
                *one_past_map,
                *filter,
                Tally::FalsePositive,
                from as int,
                at as int,
            ),
            stats.false_positives_in_one_past == tally(
                *solvability_map,
                *one_past_map,
                *filter,
                Tally::FalsePositiveOnePast,
                from as int,
                at as int,
            ),
            stats.false_negatives == tally(
                *solvability_map,
                *one_past_map,
                *filter,
                Tally::FalseNegative,
                from as int,
                at as int,
            ),
        decreases to - at,
    {
        let pos = Position(at);
        let present = filter.query(pos.normalize());
        if solvability_map.is_visited(pos) {
            if !present {
                stats.false_negatives += 1;
            }
        } else {
            stats.total_negatives += 1;
            let one_past = one_past_map.is_visited(pos);
            if one_past {
                stats.total_one_past += 1;
            }
            if present {
                stats.false_positives += 1;
                if one_past {
                    stats.false_positives_in_one_past += 1;
                }
            }
        }
        at += 1;
    }
    stats
}

/// What is counted, for each number of pegs, in a survey of the space of
/// positions.
#[derive(Clone, Copy, PartialEq, Eq, Debug, Structural)]
pub enum Census {
    /// The positions of the set.
    Solvable,
    /// The positions of the set that are their own normal form.
    SolvableNorm,
    /// The positions of the set whose inverse is in the set too.
    ViaSolvable,
    /// The positions of either kind.
    ViaSolvableNorm,
    /// The positions with the class of the target.
    DeBruijnSolvable,
    /// The positions with the class of the target that are their own normal
    /// form.
    DeBruijnSolvableNorm,
}

/// Whether the position counts for the census among the positions with
/// `pegs` pegs.
pub open spec fn censused(map: VisitMap, kind: Census, pegs: int, pos: Position) -> bool {
    let solvable = map.spec_is_visited(pos);
    let norm = pos == pos.spec_normalize();
    let via = map.spec_is_visited(pos.spec_inverse());
    let class = spec_de_bruijn_class(pos) == (GF4::One, GF4::One);
    pos.spec_count() == pegs && match kind {
        Census::Solvable => solvable,
        Census::SolvableNorm => solvable && norm,
        Census::ViaSolvable => solvable && via,
        Census::ViaSolvableNorm => solvable && via && norm,
        Census::DeBruijnSolvable => class,
        Census::DeBruijnSolvableNorm => class && norm,
    }
}

/// How many positions with `pegs` pegs and a number from `from` up to `to`,
/// `to` excluded, count for the census.
pub open spec fn census(map: VisitMap, kind: Census, pegs: int, from: int, to: int) -> nat
    decreases to - from,
{
    if to <= from {
        0
    } else if censused(map, kind, pegs, Position((to - 1) as u64)) {
        census(map, kind, pegs, from, to - 1) + 1
    } else {
        census(map, kind, pegs, from, to - 1)
    }
}

/// The sizes of the space of positions by the number of pegs: each list has
/// an entry for every number of pegs from 0 to 33.
pub struct StateSpaceSizes {
    pub solvable_at: Vec<u64>,
    pub solvable_norm_at: Vec<u64>,
    pub via_solvable_at: Vec<u64>,
    pub via_solvable_norm_at: Vec<u64>,
    pub de_bruijn_solvable_at: Vec<u64>,
    pub de_bruijn_solvable_norm_at: Vec<u64>,
}

impl StateSpaceSizes {
    /// The list of the census.
    pub open spec fn list(self, kind: Census) -> Seq<u64> {
        match kind {
            Census::Solvable => self.solvable_at@,
            Census::SolvableNorm => self.solvable_norm_at@,
            Census::ViaSolvable => self.via_solvable_at@,
            Census::ViaSolvableNorm => self.via_solvable_norm_at@,
            Census::DeBruijnSolvable => self.de_bruijn_solvable_at@,
            Census::DeBruijnSolvableNorm => self.de_bruijn_solvable_norm_at@,
        }
    }

    /// The lists hold, for each number of pegs, the census of the positions
    /// with a number from `from` up to `to`, `to` excluded.
    pub open spec fn counts(self, map: VisitMap, from: int, to: int) -> bool {
        &&& self.lists_wf()
        &&& forall|kind: Census, pegs: int|
            0 <= pegs < 34 ==> #[trigger] self.list(kind)[pegs] == census(map, kind, pegs, from, to)
    }

    /// Each list has its 34 entries.
    pub open spec fn lists_wf(self) -> bool {
        &&& self.solvable_at@.len() == 34
        &&& self.solvable_norm_at@.len() == 34
        &&& self.via_solvable_at@.len() == 34
        &&& self.via_solvable_norm_at@.len() == 34
        &&& self.de_bruijn_solvable_at@.len() == 34
        &&& self.de_bruijn_solvable_norm_at@.len() == 34
    }
}

fn zeroes() -> (r: Vec<u64>)
    ensures
        r@ == Seq::new(34, |i: int| 0u64),
{
    let mut list: Vec<u64> = Vec::new();
    while list.len() < 34
        invariant
            list@.len() <= 34,
            forall|i: int| 0 <= i < list@.len() ==> list@[i] == 0,
        decreases 34 - list@.len(),
    {
        list.push(0);
    }
    assert(list@ =~= Seq::new(34, |i: int| 0u64));
    list
}

fn count_one(list: &mut Vec<u64>, pegs: usize)
    requires
        old(list)@.len() == 34,
        pegs < 34,
        old(list)@[pegs as int] < u64::MAX,
    ensures
        final(list)@ == old(list)@.update(pegs as int, (old(list)@[pegs as int] + 1) as u64),
{
    let value = list[pegs];
    list[pegs] = value + 1;
}

/// Surveys the positions with a number from `from` up to `to`, `to`
/// excluded: for each number of pegs, how many of them are in the set, how
/// many have the class of the target, and how many of these are their own
/// normal form or have their inverse in the set too.
pub fn analyze_state_space(solvability_map: &VisitMap, from: u64, to: u64) -> (info: StateSpaceSizes)
    requires
        solvability_map.wf(),
        from <= to <= 0x2_0000_0000,
    ensures
        info.counts(*solvability_map, from as int, to as int),
{
    let mut info = StateSpaceSizes {
        solvable_at: zeroes(),
        solvable_norm_at: zeroes(),
        via_solvable_at: zeroes(),
        via_solvable_norm_at: zeroes(),
        de_bruijn_solvable_at: zeroes(),
        de_bruijn_solvable_norm_at: zeroes(),
    };
    let mut at: u64 = from;
    while at < to
        invariant
            from <= at <= to <= 0x2_0000_0000,
            solvability_map.wf(),
            info.counts(*solvability_map, from as int, at as int),
            forall|kind: Census, pegs: int|
                0 <= pegs < 34 ==> #[trigger] info.list(kind)[pegs] <= at - from,
        decreases to - at,
    {
        let pos = Position(at);
        proof {
            assert(0x1_ffff_ffffu64 < (1u64 << 33)) by (bit_vector);
            lemma_popcount_bound(at, 33);
            lemma_inverse_count(pos);
        }
        let is_normalized = pos == pos.normalize();
        let is_de_bruijn_solvable = de_bruijn_solvable(pos);
        let count = pos.count() as usize;
        let ghost before = info;
        proof {
            assert(info.list(Census::Solvable)[count as int] <= at - from);
            assert(info.list(Census::SolvableNorm)[count as int] <= at - from);
            assert(info.list(Census::ViaSolvable)[count as int] <= at - from);
            assert(info.list(Census::ViaSolvableNorm)[count as int] <= at - from);
            assert(info.list(Census::DeBruijnSolvable)[count as int] <= at - from);
            assert(info.list(Census::DeBruijnSolvableNorm)[count as int] <= at - from);
        }

        if solvability_map.is_visited(pos) {
            let is_via_solvable = solvability_map.is_visited(pos.inverse());

            count_one(&mut info.solvable_at, count);

            if is_normalized {
                count_one(&mut info.solvable_norm_at, count);
            }
            if is_via_solvable {
                count_one(&mut info.via_solvable_at, count);
            }
            if is_via_solvable && is_normalized {
                count_one(&mut info.via_solvable_norm_at, count);
            }
        }
        if is_de_bruijn_solvable {
            count_one(&mut info.de_bruijn_solvable_at, count);
        }
        if is_de_bruijn_solvable && is_normalized {
            count_one(&mut info.de_bruijn_solvable_norm_at, count);
        }
        proof {
            assert forall|kind: Census, pegs: int| 0 <= pegs < 34 implies #[trigger] info.list(
                kind,
            )[pegs] == census(*solvability_map, kind, pegs, from as int, at + 1) && info.list(
                kind,
            )[pegs] <= at + 1 - from by {
                assert(before.list(kind)[pegs] == census(
                    *solvability_map,
                    kind,
                    pegs,
                    from as int,
                    at as int,
                ));
                assert(before.list(kind)[pegs] <= at - from);
            }
        }
        at += 1;
    }
    info
}

/// What a series of runs of the solver took.
#[derive(Clone, Copy, PartialEq, Eq, Debug, Structural)]
pub struct SolverStats {
    /// The most steps that a run took.
    pub max_steps: u64,
    /// The steps of all runs together.
    pub total_steps: u64,
    /// The number of runs.
    pub nr_samples: u64,
    /// The number of runs that timed out.
    pub nr_timeouts: u64,
}

impl SolverStats {
    /// The statistics with one more run, which ended as `result` says and
    /// took the steps that `info` gives.
    pub open spec fn spec_with_run(self, verdict: Verdict, steps: u32) -> SolverStats {
        SolverStats {
            max_steps: if steps > self.max_steps {
                steps as u64
            } else {
                self.max_steps
            },
            total_steps: (self.total_steps + steps) as u64,
            nr_samples: (self.nr_samples + 1) as u64,
            nr_timeouts: if verdict == Verdict::TimedOut {
                (self.nr_timeouts + 1) as u64
            } else {
                self.nr_timeouts
            },
        }
    }

    /// Takes down one more run of the solver.
    pub fn record(&mut self, result: &SolveResult, info: &SolveInfo)
        requires
            old(self).nr_samples < u64::MAX,
            old(self).nr_timeouts < u64::MAX,
            old(self).total_steps + info.nr_steps <= u64::MAX,
        ensures
            *final(self) == old(self).spec_with_run(result.verdict(), info.nr_steps),
    {
        match result {
            SolveResult::TimedOut => {
                self.nr_timeouts += 1;
            },
            _ => {},
        }
        let steps = info.nr_steps as u64;
        if steps > self.max_steps {
            self.max_steps = steps;
        }
        self.total_steps += steps;
        self.nr_samples += 1;
    }
}

/// How often each start position is tried: as often as is needed for 10000
/// runs, and once at least.
pub open spec fn samples_for(positions: int) -> int {
    if 10000int / positions < 1 {
        1
    } else {
        10000int / positions
    }
}

/// The statistics of the first `n` runs: the start positions are taken in
/// turn, and each is run with the seeds from 0 up to `per`, `per` excluded.
pub open spec fn stats_after(filter: BloomFilter, positions: Seq<Position>, per: int, n: int) -> SolverStats
    decreases n,
{
    if n <= 0 {
        SolverStats { max_steps: 0, total_steps: 0, nr_samples: 0, nr_timeouts: 0 }
    } else {
        let run = spec_solve(
            positions[(n - 1) / per],
            filter,
            Direction::Forward,
            ((n - 1) % per) as u64,
        );
        stats_after(filter, positions, per, n - 1).spec_with_run(run.0, run.2 as u32)
    }
}

/// Runs the solver forward from each start position, once for each of the
/// seeds from 0 on, and says what the runs took. No run takes more than
/// 15050 steps, which is what 100 attempts may use.
pub fn evaluate_solver_stats(filter: &BloomFilter, start_positions: &[Position]) -> (r: SolverStats)
    requires
        filter.wf(),
        filter.spec_nr_bits() > 0,
        0 < start_positions@.len() <= 0x1_0000_0000,
    ensures
        r == stats_after(
            *filter,
            start_positions@,
            samples_for(start_positions@.len() as int),
            start_positions@.len() * samples_for(start_positions@.len() as int),
        ),
        r.nr_samples == start_positions@.len() * samples_for(start_positions@.len() as int),
        r.nr_timeouts <= r.nr_samples,
        r.max_steps <= 15050,
        r.max_steps <= r.total_steps <= 15050 * r.nr_samples,
{
    let mut stats = SolverStats { max_steps: 0, total_steps: 0, nr_samples: 0, nr_timeouts: 0 };
    let len = start_positions.len();
    let nr_samples: u64 = if 10000 / (len as u64) < 1 {
        1
    } else {
        10000 / (len as u64)
    };
    let mut p: usize = 0;
    while p < len
        invariant
            0 <= p <= len,
            len == start_positions@.len(),
            0 < len <= 0x1_0000_0000,
            1 <= nr_samples <= 10000,
            nr_samples == samples_for(len as int),
            filter.wf(),
            filter.spec_nr_bits() > 0,
            stats == stats_after(*filter, start_positions@, nr_samples as int, p * nr_samples),
            stats.nr_samples == p * nr_samples,
            stats.nr_timeouts <= stats.nr_samples,
            stats.max_steps <= 15050,
            stats.max_steps <= stats.total_steps <= 15050 * stats.nr_samples,
        decreases len - p,
    {
        let start_pos = start_positions[p];
        let mut i: u64 = 0;
        proof {
            assert(p * nr_samples + nr_samples == (p + 1) * nr_samples) by (nonlinear_arith);
            assert((p + 1) * nr_samples <= 0x1_0000_0000 * 10000) by (nonlinear_arith)
                requires
                    p + 1 <= 0x1_0000_0000,
                    0 <= nr_samples <= 10000,
            ;
        }
        while i < nr_samples
            invariant
                0 <= i <= nr_samples <= 10000,
                p < len <= 0x1_0000_0000,
                len == start_positions@.len(),
                start_pos == start_positions@[p as int],
                filter.wf(),
                filter.spec_nr_bits() > 0,
                (p + 1) * nr_samples <= 0x1_0000_0000 * 10000,
                p * nr_samples + nr_samples == (p + 1) * nr_samples,
                stats == stats_after(
                    *filter,
                    start_positions@,
                    nr_samples as int,
                    p * nr_samples + i,
                ),
                stats.nr_samples == p * nr_samples + i,
                stats.nr_timeouts <= stats.nr_samples,
                stats.max_steps <= 15050,
                stats.max_steps <= stats.total_steps <= 15050 * stats.nr_samples,
            decreases nr_samples - i,
        {
            let (result, info) = solve_with_bloom_filter(start_pos, filter, Direction::Forward, i);
            proof {
                let n = p * nr_samples + i;
                lemma_fundamental_div_mod_converse(n, nr_samples as int, p as int, i as int);
            }
            assert(info.nr_steps <= 15050);
            assert(stats.nr_samples < 0x1_0000_0000 * 10000);
            stats.record(&result, &info);
            i += 1;
        }
        p += 1;
    }
    stats
}

/// Whether a position can be drawn as a start position: to try the solver
/// on what can be solved, a position of the set with 26 pegs or more; to
/// try it on what cannot, a position with 23 pegs or more that is not in
/// the set although it has the class of the target.
pub open spec fn drawable(map: VisitMap, solvable: bool, pos: Position) -> bool {
    if solvable {
        map.spec_is_visited(pos) && pos.spec_count() >= 26
    } else {
        &&& !map.spec_is_visited(pos)
        &&& pos.spec_count() >= 23
        &&& spec_de_bruijn_class(pos) == (GF4::One, GF4::One)
    }
}

/// How many positions with a number from `from` up to `to`, `to` excluded,
/// can be drawn.
pub open spec fn drawable_count(map: VisitMap, solvable: bool, from: int, to: int) -> nat
    decreases to - from,
{
    if to <= from {
        0
    } else if drawable(map, solvable, Position((to - 1) as u64)) {
        drawable_count(map, solvable, from, to - 1) + 1
    } else {
        drawable_count(map, solvable, from, to - 1)
    }
}

/// The sample after the positions with a number from `from` up to `to`,
/// `to` excluded, were looked at, and the state of the generator then. Each
/// position that can be drawn is put into the sample while there is room;
/// after that a place is drawn below the number of positions seen so far,
/// this one counted, and if the place lies in the sample, the position is
/// put there.
pub open spec fn sample_after(
    map: VisitMap,
    solvable: bool,
    capacity: int,
    seed: u64,
    from: int,
    to: int,
) -> (Seq<Position>, int)
    decreases to - from,
{
    if to <= from {
        (Seq::empty(), seeded_state(seed))
    } else {
        let before = sample_after(map, solvable, capacity, seed, from, to - 1);
        let pos = Position((to - 1) as u64);
        if !drawable(map, solvable, pos) {
            before
        } else if before.0.len() < capacity {
            (before.0.push(pos), before.1)
        } else {
            let drawn = draw_outcome(
                before.1,
                drawable_count(map, solvable, from, to - 1) as int + 1,
            );
            if drawn.0 < capacity {
                (before.0.update(drawn.0, pos), drawn.1)
            } else {
                (before.0, drawn.1)
            }
        }
    }
}

/// Draw a random sample of at most `capacity` start positions from the
/// positions with a number from `from` up to `to`, `to` excluded, using
/// reservoir sampling with a generator seeded with `seed`.
///
/// Every position of the sample can be drawn, and the sample is as large as
/// its capacity allows: all the positions that can be drawn if they fit,
/// and else as many as the capacity.
pub fn sample_start_positions(
    solvability_map: &VisitMap,
    solvable: bool,
    capacity: usize,
    seed: u64,
    from: u64,
    to: u64,
) -> (r: Vec<Position>)
    requires
        solvability_map.wf(),
        from <= to <= 0x2_0000_0000,
    ensures
        r@ == sample_after(
            *solvability_map,
            solvable,
            capacity as int,
            seed,
            from as int,
            to as int,
        ).0,
        forall|i: int|
            0 <= i < r@.len() ==> from <= (#[trigger] r@[i]).0 < to && drawable(
                *solvability_map,
                solvable,
                r@[i],
            ),
        r@.len() == if drawable_count(*solvability_map, solvable, from as int, to as int)
            < capacity {
            drawable_count(*solvability_map, solvable, from as int, to as int)
        } else {
            capacity as nat
        },
{
    let mut start_positions: Vec<Position> = Vec::new();
    let mut rng = seeded_generator(seed);

    let mut i: usize = 1;
    let mut at: u64 = from;
    while at < to
        invariant
            from <= at <= to <= 0x2_0000_0000,
            solvability_map.wf(),
            i == drawable_count(*solvability_map, solvable, from as int, at as int) + 1,
            i <= at - from + 1,
            (start_positions@, generator_state(rng)) == sample_after(
                *solvability_map,
                solvable,
                capacity as int,
                seed,
                from as int,
                at as int,
            ),
            forall|j: int|
                0 <= j < start_positions@.len() ==> from <= (#[trigger] start_positions@[j]).0 < to
                    && drawable(*solvability_map, solvable, start_positions@[j]),
            start_positions@.len() == if i - 1 < capacity {
                (i - 1) as nat
            } else {
                capacity as nat
            },
        decreases to - at,
    {
        let pos = Position(at);
        let chosen = if solvable {
            solvability_map.is_visited(pos) && pos.count() >= 26
        } else {
            !solvability_map.is_visited(pos) && pos.count() >= 23 && de_bruijn_solvable(pos)
        };
        if chosen {
            if start_positions.len() < capacity {
                start_positions.push(pos);
            } else {
                let j = random_below(&mut rng, i);
                if j < capacity {
                    start_positions[j] = pos;
                }
            }
            i += 1;
        }
        at += 1;
    }
    start_positions
}

/// Draw a random sample of solvable positions with 26 pegs or more.
pub fn get_random_solvable_start_positions(solvability_map: &VisitMap) -> (r: Vec<Position>)
    requires
        solvability_map.wf(),
    ensures
        r@.len() == if drawable_count(*solvability_map, true, 0, 0x2_0000_0000) < 65536 {
            drawable_count(*solvability_map, true, 0, 0x2_0000_0000)
        } else {
            65536
        },
        forall|i: int|
            0 <= i < r@.len() ==> (#[trigger] r@[i]).wf() && drawable(*solvability_map, true, r@[i]),
{
    sample_start_positions(solvability_map, true, 65536, 123, 0, 0x2_0000_0000)
}

/// Draw a random sample of positions with 23 pegs or more that are not
/// solvable, but have the class of the target.
pub fn get_random_unsolvable_start_positions(solvability_map: &VisitMap) -> (r: Vec<Position>)
    requires
        solvability_map.wf(),
    ensures
        r@.len() == if drawable_count(*solvability_map, false, 0, 0x2_0000_0000) < 65536 {
            drawable_count(*solvability_map, false, 0, 0x2_0000_0000)
        } else {
            65536
        },
        forall|i: int|
            0 <= i < r@.len() ==> (#[trigger] r@[i]).wf() && drawable(*solvability_map, false, r@[i]),
{
    sample_start_positions(solvability_map, false, 65536, 123, 0, 0x2_0000_0000)
}

/// The primes from `start` up to `to`, `to` excluded, thinned out: a prime is
/// taken if it is at least 1.1939 times the prime that was taken last, so
/// that the primes that are taken lie about as close to each other as the
/// round numbers do.
pub open spec fn thinned_primes(start: int, to: int) -> Seq<u32>
    decreases to - start,
{
    if to <= start {
        Seq::empty()
    } else {
        let before = thinned_primes(start, to - 1);
        let previous: int = if before.len() == 0 {
            0
        } else {
            before.last() as int
        };
        if is_prime(to - 1) && previous * 11939 <= (to - 1) * 10000 {
            before.push((to - 1) as u32)
        } else {
            before
        }
    }
}

/// The primes within a range, thinned out so that each is at least 1.1939
/// times the one before it.
pub fn prime_candidates(range: core::ops::Range<u32>) -> (r: Vec<u32>)
    ensures
        r@ == thinned_primes(range.start as int, range.end as int),
{
    let mut previous_value: u32 = 0;
    let mut candidates: Vec<u32> = Vec::new();
    let mut p: u32 = range.start;
    let end = range.end;
    let ghost start = range.start as int;
    while p < end
        invariant
            start <= p <= end || (end < start && p == start),
            candidates@ == thinned_primes(start, p as int),
            previous_value == if candidates@.len() == 0 {
                0
            } else {
                candidates@.last()
            },
        decreases end - p,
    {
        if check_prime(p as u64) {
            if previous_value as u64 * 11939 <= p as u64 * 10000 {
                candidates.push(p);
                previous_value = p;
            }
        }
        p += 1;
    }
    candidates
}

/// The sizes in bits of the indexes to try, in two groups with their names:
/// the thinned primes and the round numbers between half a mebibyte and 42
/// mebibytes of bits.
pub fn get_candidates_groups() -> (r: [(Vec<u32>, String); 2])
    ensures
        r@[0].0@ == thinned_primes(4194304, 352321536),
        r@[0].1@ == "prime"@,
        exists|first: int| #[trigger] round_candidates_from(4194304, 352321536, r@[1].0@, first),
        r@[1].1@ == "round"@,
{
    let kb: u32 = 1024 * 8;
    let mb: u32 = 1024 * kb;
    let primes = prime_candidates(512 * kb..42 * mb);
    let round = round_candidates(512 * kb..42 * mb);
    let ghost first = choose|first: int|
        #[trigger] round_candidates_from(4194304, 352321536, round@, first);
    let groups = [(primes, String::from_str("prime")), (round, String::from_str("round"))];
    assert(round_candidates_from(4194304, 352321536, groups@[1].0@, first));
    groups
}

/// The round number with the index `k`: the numbers 4, 5, 6 and 7 times a
/// power of two from 2 on, in rising order, so 8, 10, 12, 14, 16, 20, 24, 28,
/// 32 and so on.
pub open spec fn round_number(k: int) -> int {
    (4 + k % 4) * pow2((1 + k / 4) as nat)
}

/// The candidates are the round numbers from the index `first` on that lie
/// below `end`; `first` is the index of the fourfold of the least power of
/// two, from 2 on, whose fourfold is not below `start`.
pub open spec fn round_candidates_from(start: u32, end: u32, candidates: Seq<u32>, first: int) -> bool {
    &&& first >= 0
    &&& first % 4 == 0
    &&& first > 0 ==> round_number(first - 4) < start
    &&& round_number(first) >= start
    &&& forall|i: int|
        0 <= i < candidates.len() ==> #[trigger] candidates[i] == round_number(first + i)
            && candidates[i] < end
    &&& round_number(first + candidates.len()) >= end
}

/// The round number of the factor `f` and the exponent `e`.
proof fn lemma_round_number(e: int, f: int)
    requires
        1 <= e,
        4 <= f < 8,
    ensures
        round_number(4 * (e - 1) + (f - 4)) == f * pow2(e as nat),
        round_number(4 * (e - 1) + (f - 4)) >= 8,
        e <= 29 ==> f * pow2(e as nat) <= 0xe000_0000,
        pow2((e + 1) as nat) == 2 * pow2(e as nat),
{
    let k = 4 * (e - 1) + (f - 4);
    assert(k % 4 == f - 4);
    assert(k / 4 == e - 1);
    lemma_pow2_unfold((e + 1) as nat);
    lemma2_to64();
    let p = pow2(e as nat);
    if e > 1 {
        lemma_pow2_strictly_increases(1, e as nat);
    }
    if e < 29 {
        lemma_pow2_strictly_increases(e as nat, 29);
    }
    assert(f * p >= 8) by (nonlinear_arith)
        requires
            p >= 2,
            f >= 4,
    ;
    if e <= 29 {
        assert(f * p <= 0xe000_0000) by (nonlinear_arith)
            requires
                0 <= p <= 0x2000_0000,
                0 <= f <= 7,
        ;
    }
}

/// The round numbers within a range, in rising order, from the first power
/// of two on whose fourfold is not below the start of the range: numbers
/// whose prime factors are mostly 2.
///
/// The range must start at `2^31` at most and end at `7 * 2^29` at most, so
/// that the numbers to try fit in 32 bits.
pub fn round_candidates(range: core::ops::Range<u32>) -> (r: Vec<u32>)
    requires
        range.start <= 0x8000_0000,
        range.end <= 0xe000_0000,
    ensures
        exists|first: int| #[trigger] round_candidates_from(range.start, range.end, r@, first),
{
    let start = range.start;
    let end = range.end;
    let mut candidates: Vec<u32> = Vec::new();
    let mut power: u32 = 2;
    let mut exponent: u32 = 1;
    proof {
        lemma2_to64();
    }
    // the exponents whose numbers begin below the range are passed over
    while power < 0x2000_0000 && power * 4 < start
        invariant
            1 <= exponent <= 29,
            power == pow2(exponent as nat),
            power <= 0x2000_0000,
            start <= 0x8000_0000,
            exponent > 1 ==> round_number(4 * (exponent - 2)) < start,
        decreases 29 - exponent,
    {
        proof {
            lemma_round_number(exponent as int, 4);
            if exponent < 28 {
                lemma_pow2_strictly_increases((exponent + 1) as nat, 29);
            }
            lemma2_to64();
        }
        power = power * 2;
        exponent += 1;
    }
    let ghost first: int = 4 * (exponent - 1);
    proof {
        lemma_round_number(exponent as int, 4);
        lemma2_to64();
    }
    let mut factor: u32 = 4;
    loop
        invariant
            1 <= exponent <= 29,
            4 <= factor < 8,
            power == pow2(exponent as nat),
            power <= 0x2000_0000,
            end <= 0xe000_0000,
            first >= 0,
            first % 4 == 0,
            first > 0 ==> round_number(first - 4) < start,
            round_number(first) >= start,
            first + candidates@.len() == 4 * (exponent - 1) + (factor - 4),
            forall|i: int|
                0 <= i < candidates@.len() ==> #[trigger] candidates@[i] == round_number(first + i)
                    && candidates@[i] < end,
        ensures
            round_candidates_from(start, end, candidates@, first),
        decreases 4 * (29 - exponent) + (8 - factor),
    {
        proof {
            lemma_round_number(exponent as int, factor as int);
            lemma2_to64();
            assert(power * factor <= 0xe000_0000 && power * factor == factor * power)
                by (nonlinear_arith)
                requires
                    0 <= power <= 0x2000_0000,
                    0 <= factor <= 7,
            ;
        }
        let number = power * factor;
        let ghost k = first + candidates@.len();
        assert(k == 4 * (exponent - 1) + (factor - 4));
        assert(round_number(k) == number);
        if number >= end {
            break;
        }
        let ghost before = candidates@;
        candidates.push(number);
        proof {
            assert forall|i: int| 0 <= i < candidates@.len() implies #[trigger] candidates@[i]
                == round_number(first + i) && candidates@[i] < end by {
                if i < before.len() {
                    assert(candidates@[i] == before[i]);
                }
            }
        }
        if factor < 7 {
            factor += 1;
        } else {
            factor = 4;
            power = power * 2;
            exponent += 1;
        }
    }
    candidates
}

/// The numbers one below the round numbers within a range.
pub fn round_minus_one_candidates(range: core::ops::Range<u32>) -> (r: Vec<u32>)
    requires
        range.start <= 0x8000_0000,
        range.end <= 0xe000_0000,
    ensures
        exists|first: int, round: Seq<u32>|
            {
                &&& #[trigger] round_candidates_from(range.start, range.end, round, first)
                &&& r@.len() == round.len()
                &&& forall|i: int| 0 <= i < r@.len() ==> #[trigger] r@[i] == round[i] - 1
            },
{
    let ghost start = range.start;
    let ghost end = range.end;
    let mut candidates = round_candidates(range);
    let ghost round = candidates@;
    let ghost first = choose|first: int| #[trigger] round_candidates_from(start, end, round, first);
    let mut i: usize = 0;
    while i < candidates.len()
        invariant
            0 <= i <= candidates@.len(),
            candidates@.len() == round.len(),
            round_candidates_from(start, end, round, first),
            forall|j: int| 0 <= j < i ==> #[trigger] candidates@[j] == round[j] - 1,
            forall|j: int| i <= j < candidates@.len() ==> #[trigger] candidates@[j] == round[j],
        decreases candidates@.len() - i,
    {
        proof {
            let k = first + i;
            lemma_round_number(1 + k / 4, 4 + k % 4);
            assert(4 * ((1 + k / 4) - 1) + ((4 + k % 4) - 4) == k);
        }
        let value = candidates[i];
        candidates[i] = value - 1;
        i += 1;
    }
    candidates
}

} // verus!
