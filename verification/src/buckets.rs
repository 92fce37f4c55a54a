//! Packing the levels of the state space into buckets.
//!
//! A level is the set of solvable positions with one number of pegs. An
//! index over all of them can be cut into several smaller ones, each over a
//! few whole levels, if no part has to hold more positions than a limit
//! allows. The search here goes through every way to put the levels, one
//! after the other, into buckets under such a limit, and finds one with the
//! fewest buckets.

use std::collections::HashMap;
use vstd::prelude::*;

verus! {

/// The buckets after the levels from `from` on were put where `choice`
/// says, one after the other: level `k` goes into the bucket `choice[k]` if
/// that bucket has room for it under the limit, and opens a new bucket if
/// `choice[k]` is the number of buckets there are. Any other choice is no
/// packing.
pub open spec fn filled(
    data: Seq<u64>,
    from: int,
    buckets: Seq<u64>,
    choice: Seq<int>,
    limit: u64,
) -> Option<Seq<u64>>
    decreases data.len() - from,
{
    if from >= data.len() {
        Some(buckets)
    } else {
        let b = choice[from];
        if 0 <= b < buckets.len() && buckets[b] + data[from] <= limit {
            filled(
                data,
                from + 1,
                buckets.update(b, (buckets[b] + data[from]) as u64),
                choice,
                limit,
            )
        } else if b == buckets.len() && data[from] <= limit {
            filled(data, from + 1, buckets.push(data[from]), choice, limit)
        } else {
            None
        }
    }
}

/// The notes after the levels from `from` on were put where `choice` says,
/// with `count` buckets to begin with: each level that joins a bucket that
/// was there already is noted with the number of that bucket. A level that
/// opens a bucket is not noted.
pub open spec fn noted(
    levels: int,
    from: int,
    count: int,
    notes: Map<i32, usize>,
    choice: Seq<int>,
) -> Map<i32, usize>
    decreases levels - from,
{
    if from >= levels {
        notes
    } else if choice[from] < count {
        noted(levels, from + 1, count, notes.insert(from as i32, choice[from] as usize), choice)
    } else {
        noted(levels, from + 1, count + 1, notes, choice)
    }
}

/// The choice packs the levels from `from` on into the buckets `out` and
/// leaves the notes `map`.
pub open spec fn reached(
    data: Seq<u64>,
    from: int,
    buckets: Seq<u64>,
    notes: Map<i32, usize>,
    limit: u64,
    choice: Seq<int>,
    out: Seq<u64>,
    map: Map<i32, usize>,
) -> bool {
    &&& choice.len() == data.len()
    &&& filled(data, from, buckets, choice, limit) == Some(out)
    &&& noted(data.len() as int, from, buckets.len() as int, notes, choice) == map
}

/// Whether the choice `a` comes before the choice `b` in the order of the
/// search through the choices for the levels from `from` on: at the first
/// level for which they differ, `a` names the lower bucket.
pub open spec fn earlier(a: Seq<int>, b: Seq<int>, from: int) -> bool
    decreases a.len() - from,
{
    from < a.len() && (a[from] < b[from] || (a[from] == b[from] && earlier(a, b, from + 1)))
}

/// Every packing of the levels from `from` on that puts level `from` into a
/// bucket with a number below `below` ends with at least `n` buckets.
pub open spec fn needs(
    data: Seq<u64>,
    from: int,
    buckets: Seq<u64>,
    limit: u64,
    below: int,
    n: int,
) -> bool {
    forall|choice: Seq<int>|
        choice.len() == data.len() && choice[from] < below ==> (#[trigger] filled(
            data,
            from,
            buckets,
            choice,
            limit,
        ) matches Some(out) ==> out.len() >= n)
}

/// Every packing of the levels from `from` on ends with at least `n`
/// buckets.
pub open spec fn needs_at_least(
    data: Seq<u64>,
    from: int,
    buckets: Seq<u64>,
    limit: u64,
    n: int,
) -> bool {
    forall|choice: Seq<int>|
        choice.len() == data.len() ==> (#[trigger] filled(data, from, buckets, choice, limit)
            matches Some(out) ==> out.len() >= n)
}

/// Every packing of the levels from `from` on that puts level `from` into a
/// bucket with a number below `below` ends with more than `n` buckets, or
/// with `n` buckets and a choice that does not come before `choice`.
pub open spec fn leads(
    data: Seq<u64>,
    from: int,
    buckets: Seq<u64>,
    limit: u64,
    choice: Seq<int>,
    n: int,
    below: int,
) -> bool {
    forall|other: Seq<int>|
        other.len() == data.len() && other[from] < below ==> (#[trigger] filled(
            data,
            from,
            buckets,
            other,
            limit,
        ) matches Some(out) ==> out.len() > n || (out.len() == n && !earlier(other, choice, from)))
}

/// Every packing of the levels from `from` on ends with more than `n`
/// buckets, or with `n` buckets and a choice that does not come before
/// `choice`.
pub open spec fn comes_first(
    data: Seq<u64>,
    from: int,
    buckets: Seq<u64>,
    limit: u64,
    choice: Seq<int>,
    n: int,
) -> bool {
    forall|other: Seq<int>|
        other.len() == data.len() ==> (#[trigger] filled(data, from, buckets, other, limit)
            matches Some(out) ==> out.len() > n || (out.len() == n && !earlier(
            other,
            choice,
            from,
        )))
}

/// The choice packs the levels from `from` on into the buckets `out` and
/// leaves the notes `map`; no packing of them ends with fewer buckets, and
/// of those that end with as few, none comes before it in the order of the
/// search.
pub open spec fn first_of_best(
    data: Seq<u64>,
    from: int,
    buckets: Seq<u64>,
    notes: Map<i32, usize>,
    limit: u64,
    choice: Seq<int>,
    out: Seq<u64>,
    map: Map<i32, usize>,
) -> bool {
    &&& reached(data, from, buckets, notes, limit, choice, out, map)
    &&& comes_first(data, from, buckets, limit, choice, out.len() as int)
}

/// `out` and `map` are the buckets and the notes of the packing of the
/// levels from `from` on that comes first among those with the fewest
/// buckets.
pub open spec fn best_packing(
    data: Seq<u64>,
    from: int,
    buckets: Seq<u64>,
    notes: Map<i32, usize>,
    limit: u64,
    out: Seq<u64>,
    map: Map<i32, usize>,
) -> bool {
    &&& exists|choice: Seq<int>| #[trigger]
        first_of_best(data, from, buckets, notes, limit, choice, out, map)
    &&& needs_at_least(data, from, buckets, limit, out.len() as int)
}

/// Only what two choices say of the levels from `from` on decides which of
/// them comes before the other there.
pub proof fn lemma_earlier_later(a: Seq<int>, b: Seq<int>, c: Seq<int>, from: int)
    requires
        0 <= from,
        b.len() == a.len(),
        c.len() == a.len(),
        forall|k: int| from <= k < a.len() ==> b[k] == c[k],
    ensures
        earlier(a, b, from) == earlier(a, c, from),
    decreases a.len() - from,
{
    if from < a.len() {
        lemma_earlier_later(a, b, c, from + 1);
    }
}

/// Of two choices that differ for a level from `from` on, one comes before
/// the other.
pub proof fn lemma_earlier_total(a: Seq<int>, b: Seq<int>, from: int)
    requires
        0 <= from,
        a.len() == b.len(),
        !earlier(a, b, from),
        !earlier(b, a, from),
    ensures
        forall|k: int| from <= k < a.len() ==> a[k] == b[k],
    decreases a.len() - from,
{
    if from < a.len() {
        lemma_earlier_total(a, b, from + 1);
    }
}

/// Only what is chosen for the levels from `from` on matters to a packing
/// of them.
pub proof fn lemma_later_choices(
    data: Seq<u64>,
    from: int,
    buckets: Seq<u64>,
    notes: Map<i32, usize>,
    limit: u64,
    a: Seq<int>,
    b: Seq<int>,
)
    requires
        0 <= from,
        a.len() == data.len(),
        b.len() == data.len(),
        forall|k: int| from <= k < data.len() ==> a[k] == b[k],
    ensures
        filled(data, from, buckets, a, limit) == filled(data, from, buckets, b, limit),
        noted(data.len() as int, from, buckets.len() as int, notes, a) == noted(
            data.len() as int,
            from,
            buckets.len() as int,
            notes,
            b,
        ),
    decreases data.len() - from,
{
    if from < data.len() {
        let c = a[from];
        if 0 <= c < buckets.len() {
            lemma_later_choices(
                data,
                from + 1,
                buckets.update(c, (buckets[c] + data[from]) as u64),
                notes.insert(from as i32, c as usize),
                limit,
                a,
                b,
            );
        } else {
            lemma_later_choices(data, from + 1, buckets.push(data[from]), notes, limit, a, b);
            if c < 0 {
                lemma_later_choices(
                    data,
                    from + 1,
                    buckets,
                    notes.insert(from as i32, c as usize),
                    limit,
                    a,
                    b,
                );
            }
        }
    }
}

/// A packing never ends with fewer buckets than it began with.
pub proof fn lemma_buckets_stay(
    data: Seq<u64>,
    from: int,
    buckets: Seq<u64>,
    choice: Seq<int>,
    limit: u64,
)
    ensures
        filled(data, from, buckets, choice, limit) matches Some(out) ==> out.len() >= buckets.len(),
    decreases data.len() - from,
{
    if from < data.len() {
        let b = choice[from];
        if 0 <= b < buckets.len() && buckets[b] + data[from] <= limit {
            lemma_buckets_stay(
                data,
                from + 1,
                buckets.update(b, (buckets[b] + data[from]) as u64),
                choice,
                limit,
            );
        } else if b == buckets.len() && data[from] <= limit {
            lemma_buckets_stay(data, from + 1, buckets.push(data[from]), choice, limit);
        }
    }
}

/// There is one best packing: the buckets and the notes of the first of
/// the packings with the fewest buckets are determined.
pub proof fn lemma_one_best(
    data: Seq<u64>,
    from: int,
    buckets: Seq<u64>,
    notes: Map<i32, usize>,
    limit: u64,
    out: Seq<u64>,
    map: Map<i32, usize>,
    other_out: Seq<u64>,
    other_map: Map<i32, usize>,
)
    requires
        0 <= from,
        best_packing(data, from, buckets, notes, limit, out, map),
        best_packing(data, from, buckets, notes, limit, other_out, other_map),
    ensures
        out == other_out,
        map == other_map,
{
    let a = choose|c: Seq<int>| #[trigger]
        first_of_best(data, from, buckets, notes, limit, c, out, map);
    let b = choose|c: Seq<int>| #[trigger]
        first_of_best(data, from, buckets, notes, limit, c, other_out, other_map);
    assert(filled(data, from, buckets, a, limit) == Some(out));
    assert(filled(data, from, buckets, b, limit) == Some(other_out));
    lemma_earlier_total(a, b, from);
    lemma_later_choices(data, from, buckets, notes, limit, a, b);
}

/// Goes through every way to put the levels from `position` on into the
/// buckets, and finds one that ends with the fewest buckets, if that is
/// fewer than `best_so_far`. The buckets hold the levels before `position`
/// and the notes say where those went, and speak of no later level; both
/// are left as they were found. No level from `position` on is larger than
/// the limit, so that each could have a bucket of its own.
///
/// A level is tried in each bucket that has room for it, in their order,
/// and then in a bucket of its own, unless that cannot end with fewer
/// buckets than the best packing found so far. Among the packings with the
/// fewest buckets the first one found is returned.
pub fn step(
    data: &[u64],
    buckets: &mut Vec<u64>,
    position: usize,
    best_so_far: usize,
    limit: u64,
    current_level_to_bucket_assignments: &mut HashMap<i32, usize>,
) -> (r: Option<(Vec<u64>, HashMap<i32, usize>)>)
    requires
        position <= data@.len() <= i32::MAX,
        forall|i: int| position <= i < data@.len() ==> data@[i] <= limit,
        forall|k: i32|
            old(current_level_to_bucket_assignments)@.contains_key(k) ==> k < position,
    ensures
        final(buckets)@ == old(buckets)@,
        final(current_level_to_bucket_assignments)@ == old(current_level_to_bucket_assignments)@,
        match r {
            Some((out, map)) => out@.len() < best_so_far && best_packing(
                data@,
                position as int,
                old(buckets)@,
                old(current_level_to_bucket_assignments)@,
                limit,
                out@,
                map@,
            ),
            None => needs_at_least(
                data@,
                position as int,
                old(buckets)@,
                limit,
                best_so_far as int,
            ),
        },
    decreases data@.len() - position,
{
    let ghost held = buckets@;
    let ghost notes = current_level_to_bucket_assignments@;
    let ghost from = position as int;
    if position == data.len() {
        if buckets.len() < best_so_far {
            let out = buckets.clone();
            let map = current_level_to_bucket_assignments.clone();
            proof {
                let choice = Seq::new(data@.len(), |k: int| 0int);
                assert(first_of_best(data@, from, held, notes, limit, choice, out@, map@));
            }
            return Some((out, map));
        } else {
            return None;
        }
    }
    let val = data[position];
    let count = buckets.len();
    let mut bound = best_so_far;
    let mut best: Option<(Vec<u64>, HashMap<i32, usize>)> = None;
    let ghost mut pick: Seq<int> = Seq::empty();
    let mut i: usize = 0;
    while i < count
        invariant
            0 <= i <= count,
            count == held.len(),
            position < data@.len() <= i32::MAX,
            from == position,
            val == data@[from],
            val <= limit,
            forall|i: int| position <= i < data@.len() ==> data@[i] <= limit,
            forall|k: i32| notes.contains_key(k) ==> k < position,
            buckets@ == held,
            current_level_to_bucket_assignments@ == notes,
            bound <= best_so_far,
            needs(data@, from, held, limit, i as int, bound as int),
            match best {
                Some((out, map)) => {
                    &&& out@.len() == bound
                    &&& bound < best_so_far
                    &&& reached(data@, from, held, notes, limit, pick, out@, map@)
                    &&& pick[from] < i
                    &&& leads(data@, from, held, limit, pick, bound as int, i as int)
                },
                None => bound == best_so_far,
            },
        decreases count - i,
    {
        let before = buckets[i];
        let ghost mut inner = held;
        if before <= limit - val {
            buckets.set(i, before + val);
            current_level_to_bucket_assignments.insert(position as i32, i);
            proof {
                inner = buckets@;
            }
            let ghost inner_notes = current_level_to_bucket_assignments@;
            let ret = step(
                data,
                buckets,
                position + 1,
                bound,
                limit,
                current_level_to_bucket_assignments,
            );
            match ret {
                Some(found) => {
                    if found.0.len() < bound {
                        proof {
                            let c = choose|c: Seq<int>| #[trigger]
                                first_of_best(
                                    data@,
                                    from + 1,
                                    inner,
                                    inner_notes,
                                    limit,
                                    c,
                                    found.0@,
                                    found.1@,
                                );
                            pick = c.update(from, i as int);
                            lemma_later_choices(data@, from + 1, inner, inner_notes, limit, c, pick);
                            assert(reached(data@, from, held, notes, limit, pick, found.0@, found.1@));
                            assert forall|other: Seq<int>|
                                other.len() == data@.len() && other[from] == i implies (
                            #[trigger] filled(data@, from + 1, inner, other, limit) matches Some(
                                out,
                            ) ==> out.len() > found.0@.len() || (out.len() == found.0@.len()
                                && !earlier(other, pick, from))) by {
                                lemma_earlier_later(other, c, pick, from + 1);
                            }
                        }
                        bound = found.0.len();
                        best = Some(found);
                    }
                },
                None => {},
            }
            buckets.set(i, before);
            current_level_to_bucket_assignments.remove(&(position as i32));
            proof {
                assert(buckets@ =~= held);
                assert(current_level_to_bucket_assignments@ =~= notes);
                assert(needs_at_least(data@, from + 1, inner, limit, bound as int));
            }
        }
        proof {
            let fits = before + val <= limit;
            assert forall|choice: Seq<int>|
                choice.len() == data@.len() && choice[from] < i + 1 implies (#[trigger] filled(
                    data@,
                    from,
                    held,
                    choice,
                    limit,
                ) matches Some(out) ==> out.len() >= bound) by {
                if choice[from] == i && fits {
                    assert(filled(data@, from, held, choice, limit) == filled(
                        data@,
                        from + 1,
                        inner,
                        choice,
                        limit,
                    ));
                }
            }
            if best is Some {
                assert forall|other: Seq<int>|
                    other.len() == data@.len() && other[from] < i + 1 implies (#[trigger] filled(
                        data@,
                        from,
                        held,
                        other,
                        limit,
                    ) matches Some(out) ==> out.len() > bound || (out.len() == bound && !earlier(
                        other,
                        pick,
                        from,
                    ))) by {
                    if other[from] == i && fits {
                        assert(filled(data@, from, held, other, limit) == filled(
                            data@,
                            from + 1,
                            inner,
                            other,
                            limit,
                        ));
                    }
                }
            }
        }
        i += 1;
    }

    let ghost mut inner = held;
    let ghost mut opened = false;
    if bound > 0 && count < bound - 1 {
        buckets.push(val);
        proof {
            opened = true;
            inner = buckets@;
        }
        let ret = step(
            data,
            buckets,
            position + 1,
            bound,
            limit,
            current_level_to_bucket_assignments,
        );
        match ret {
            Some(found) => {
                if found.0.len() < bound {
                    proof {
                        let c = choose|c: Seq<int>| #[trigger]
                            first_of_best(
                                data@,
                                from + 1,
                                inner,
                                notes,
                                limit,
                                c,
                                found.0@,
                                found.1@,
                            );
                        pick = c.update(from, count as int);
                        lemma_later_choices(data@, from + 1, inner, notes, limit, c, pick);
                        assert(reached(data@, from, held, notes, limit, pick, found.0@, found.1@));
                        assert forall|other: Seq<int>|
                            other.len() == data@.len() && other[from] == count implies (
                        #[trigger] filled(data@, from + 1, inner, other, limit) matches Some(
                            out,
                        ) ==> out.len() > found.0@.len() || (out.len() == found.0@.len()
                            && !earlier(other, pick, from))) by {
                            lemma_earlier_later(other, c, pick, from + 1);
                        }
                    }
                    bound = found.0.len();
                    best = Some(found);
                }
            },
            None => {},
        }
        buckets.pop();
        proof {
            assert(buckets@ =~= held);
            assert(needs_at_least(data@, from + 1, inner, limit, bound as int));
        }
    }
    proof {
        assert forall|choice: Seq<int>| choice.len() == data@.len() implies (#[trigger] filled(
            data@,
            from,
            held,
            choice,
            limit,
        ) matches Some(out) ==> out.len() >= bound) by {
            if choice[from] == count {
                if opened {
                    assert(filled(data@, from, held, choice, limit) == filled(
                        data@,
                        from + 1,
                        inner,
                        choice,
                        limit,
                    ));
                } else {
                    lemma_buckets_stay(data@, from + 1, held.push(val), choice, limit);
                }
            }
        }
        if best is Some {
            assert forall|other: Seq<int>| other.len() == data@.len() implies (#[trigger] filled(
                data@,
                from,
                held,
                other,
                limit,
            ) matches Some(out) ==> out.len() > bound || (out.len() == bound && !earlier(
                other,
                pick,
                from,
            ))) by {
                if other[from] == count {
                    if opened {
                        assert(filled(data@, from, held, other, limit) == filled(
                            data@,
                            from + 1,
                            inner,
                            other,
                            limit,
                        ));
                    } else {
                        lemma_buckets_stay(data@, from + 1, held.push(val), other, limit);
                    }
                }
            }
            let found = best.unwrap();
            assert(first_of_best(data@, from, held, notes, limit, pick, found.0@, found.1@));
        }
    }

    best
}

/// The choice packs the levels from `from` on into empty buckets so that
/// `n` buckets are used.
pub open spec fn ends_with(data: Seq<u64>, from: int, choice: Seq<int>, limit: u64, n: int) -> bool {
    choice.len() == data.len() && match filled(data, from, Seq::<u64>::empty(), choice, limit) {
        Some(out) => out.len() == n,
        None => false,
    }
}

/// The levels from `from` on can be packed into empty buckets so that `n`
/// buckets are used.
pub open spec fn packs_into(data: Seq<u64>, from: int, limit: u64, n: int) -> bool {
    exists|choice: Seq<int>| #[trigger] ends_with(data, from, choice, limit, n)
}

/// The levels from `from` on can be packed into `n` buckets, and not into
/// fewer.
pub open spec fn is_fewest(data: Seq<u64>, from: int, limit: u64, n: int) -> bool {
    packs_into(data, from, limit, n) && needs_at_least(data, from, Seq::<u64>::empty(), limit, n)
}

/// The fewest buckets that hold the levels from `from` on.
pub open spec fn fewest(data: Seq<u64>, from: int, limit: u64) -> int {
    choose|n: int| is_fewest(data, from, limit, n)
}

/// The number of buckets of a best packing into empty buckets is the fewest
/// that there is.
pub proof fn lemma_fewest(data: Seq<u64>, from: int, limit: u64, n: int)
    requires
        is_fewest(data, from, limit, n),
    ensures
        fewest(data, from, limit) == n,
{
    let m = fewest(data, from, limit);
    assert(is_fewest(data, from, limit, m));
    let a = choose|choice: Seq<int>| #[trigger] ends_with(data, from, choice, limit, n);
    let b = choose|choice: Seq<int>| #[trigger] ends_with(data, from, choice, limit, m);
    assert(filled(data, from, Seq::<u64>::empty(), a, limit) is Some);
    assert(filled(data, from, Seq::<u64>::empty(), b, limit) is Some);
}

/// Each level can have a bucket of its own, if none is above the limit.
pub proof fn lemma_one_each(
    data: Seq<u64>,
    from: int,
    buckets: Seq<u64>,
    choice: Seq<int>,
    limit: u64,
)
    requires
        0 <= from <= data.len(),
        choice.len() == data.len(),
        forall|k: int| from <= k < data.len() ==> data[k] <= limit,
        forall|k: int| from <= k < data.len() ==> choice[k] == buckets.len() + k - from,
    ensures
        filled(data, from, buckets, choice, limit) matches Some(out) && out.len() == buckets.len()
            + data.len() - from,
    decreases data.len() - from,
{
    if from < data.len() {
        lemma_one_each(data, from + 1, buckets.push(data[from]), choice, limit);
    }
}

/// What fits under a limit fits under a higher one.
pub proof fn lemma_more_room(
    data: Seq<u64>,
    from: int,
    buckets: Seq<u64>,
    choice: Seq<int>,
    limit: u64,
    higher: u64,
)
    requires
        limit <= higher,
    ensures
        filled(data, from, buckets, choice, limit) is Some ==> filled(
            data,
            from,
            buckets,
            choice,
            higher,
        ) == filled(data, from, buckets, choice, limit),
    decreases data.len() - from,
{
    if from < data.len() {
        let b = choice[from];
        if 0 <= b < buckets.len() && buckets[b] + data[from] <= limit {
            lemma_more_room(
                data,
                from + 1,
                buckets.update(b, (buckets[b] + data[from]) as u64),
                choice,
                limit,
                higher,
            );
        } else if b == buckets.len() && data[from] <= limit {
            lemma_more_room(data, from + 1, buckets.push(data[from]), choice, limit, higher);
        }
    }
}

/// The choice packs the levels from `from` on into empty buckets so that
/// fewer than `n` buckets are used.
pub open spec fn ends_below(data: Seq<u64>, from: int, choice: Seq<int>, limit: u64, n: int) -> bool {
    choice.len() == data.len() && match filled(data, from, Seq::<u64>::empty(), choice, limit) {
        Some(out) => out.len() < n,
        None => false,
    }
}

/// Where the levels can be packed at all, there is a fewest number of
/// buckets for them, and no packing has fewer.
pub proof fn lemma_fewest_exists(data: Seq<u64>, from: int, limit: u64, n: int)
    requires
        packs_into(data, from, limit, n),
    ensures
        is_fewest(data, from, limit, fewest(data, from, limit)),
        0 <= fewest(data, from, limit) <= n,
    decreases n,
{
    let witness = choose|choice: Seq<int>| #[trigger] ends_with(data, from, choice, limit, n);
    assert(filled(data, from, Seq::<u64>::empty(), witness, limit) is Some);
    if exists|choice: Seq<int>| #[trigger] ends_below(data, from, choice, limit, n) {
        let c = choose|choice: Seq<int>| #[trigger] ends_below(data, from, choice, limit, n);
        let m = filled(data, from, Seq::<u64>::empty(), c, limit).unwrap().len() as int;
        assert(ends_with(data, from, c, limit, m));
        lemma_fewest_exists(data, from, limit, m);
    } else {
        assert forall|choice: Seq<int>| choice.len() == data.len() implies (#[trigger] filled(
            data,
            from,
            Seq::<u64>::empty(),
            choice,
            limit,
        ) matches Some(out) ==> out.len() >= n) by {
            assert(!ends_below(data, from, choice, limit, n));
        }
        assert(is_fewest(data, from, limit, n));
        lemma_fewest(data, from, limit, n);
    }
}

/// With more room no more buckets are needed.
pub proof fn lemma_fewest_falls(data: Seq<u64>, from: int, limit: u64, higher: u64)
    requires
        0 <= from <= data.len(),
        limit <= higher,
        forall|k: int| from <= k < data.len() ==> data[k] <= limit,
    ensures
        0 <= fewest(data, from, higher) <= fewest(data, from, limit) <= data.len() - from,
        is_fewest(data, from, limit, fewest(data, from, limit)),
        is_fewest(data, from, higher, fewest(data, from, higher)),
{
    let each = Seq::new(data.len(), |k: int| k - from);
    lemma_one_each(data, from, Seq::<u64>::empty(), each, limit);
    assert(ends_with(data, from, each, limit, data.len() - from));
    lemma_fewest_exists(data, from, limit, data.len() - from);
    let n = fewest(data, from, limit);
    let c = choose|choice: Seq<int>| #[trigger] ends_with(data, from, choice, limit, n);
    lemma_more_room(data, from, Seq::<u64>::empty(), c, limit, higher);
    assert(ends_with(data, from, c, higher, n));
    lemma_fewest_exists(data, from, higher, n);
}

/// The sum of the sizes.
pub open spec fn total(data: Seq<u64>) -> int
    decreases data.len(),
{
    if data.len() == 0 {
        0
    } else {
        total(data.drop_last()) + data.last()
    }
}

/// The largest of the sizes; 0 if there is none.
pub open spec fn highest(data: Seq<u64>) -> int
    decreases data.len(),
{
    if data.len() == 0 {
        0
    } else if data.last() > highest(data.drop_last()) {
        data.last() as int
    } else {
        highest(data.drop_last())
    }
}

/// No size is above the largest, and the largest is not above the sum.
pub proof fn lemma_highest(data: Seq<u64>)
    ensures
        forall|k: int| 0 <= k < data.len() ==> data[k] <= highest(data),
        0 <= highest(data) <= total(data),
    decreases data.len(),
{
    if data.len() > 0 {
        lemma_highest(data.drop_last());
        assert forall|k: int| 0 <= k < data.len() implies data[k] <= highest(data) by {
            if k < data.len() - 1 {
                assert(data.drop_last()[k] == data[k]);
            }
        }
    }
}

/// The limit that a search by halving arrives at: from a lower bound, which
/// is taken not to be enough for the levels from the fourth on to go into
/// `buckets` buckets, and an upper bound, which is taken to be enough, the
/// bounds move towards each other until they are no more than 10 apart. The
/// upper bound is the answer.
pub open spec fn bisected(data: Seq<u64>, buckets: int, lower: int, upper: int) -> int
    decreases upper - lower,
{
    if upper - lower > 10 {
        let mid = (upper + lower) / 2;
        if fewest(data, 3, mid as u64) > buckets {
            bisected(data, buckets, mid, upper)
        } else {
            bisected(data, buckets, lower, mid)
        }
    } else {
        upper
    }
}

/// What the search by halving finds: a limit between the bounds; one under
/// which the levels fit into the buckets, if they do under the upper bound;
/// and one so low that with 10 less, if that is still above the lower
/// bound, they do not fit.
pub proof fn lemma_bisected(data: Seq<u64>, buckets: int, lower: int, upper: int)
    requires
        3 <= data.len(),
        highest(data) <= lower <= upper <= u64::MAX,
    ensures
        lower <= bisected(data, buckets, lower, upper) <= upper,
        fewest(data, 3, upper as u64) <= buckets ==> fewest(
            data,
            3,
            bisected(data, buckets, lower, upper) as u64,
        ) <= buckets,
        bisected(data, buckets, lower, upper) - 10 <= lower || fewest(
            data,
            3,
            (bisected(data, buckets, lower, upper) - 10) as u64,
        ) > buckets,
    decreases upper - lower,
{
    lemma_highest(data);
    if upper - lower > 10 {
        let mid = (upper + lower) / 2;
        if fewest(data, 3, mid as u64) > buckets {
            lemma_bisected(data, buckets, mid, upper);
            let r = bisected(data, buckets, mid, upper);
            if r - 10 <= mid && r - 10 > lower {
                lemma_fewest_falls(data, 3, (r - 10) as u64, mid as u64);
            }
        } else {
            lemma_bisected(data, buckets, lower, mid);
        }
    }
}

/// The size of each level: how many solvable positions there are, up to
/// symmetry, with each number of pegs from 0 to 32.
pub fn level_sizes() -> (r: [u64; 33])
    ensures
        r@ == spec_level_sizes(),
{
    let r = [
        0,
        1,
        4,
        12,
        60,
        296,
        1338,
        5648,
        21842,
        77559,
        249690,
        717788,
        1834379,
        4138302,
        8171208,
        14020166,
        20773236,
        26482824,
        28994876,
        27286330,
        22106348,
        15425572,
        9274496,
        4792664,
        2120101,
        800152,
        255544,
        68236,
        14727,
        2529,
        334,
        32,
        5,
    ];
    assert(r@ =~= spec_level_sizes());
    r
}

/// The size of each level, by the number of pegs.
pub open spec fn spec_level_sizes() -> Seq<u64> {
    seq![
        0,
        1,
        4,
        12,
        60,
        296,
        1338,
        5648,
        21842,
        77559,
        249690,
        717788,
        1834379,
        4138302,
        8171208,
        14020166,
        20773236,
        26482824,
        28994876,
        27286330,
        22106348,
        15425572,
        9274496,
        4792664,
        2120101,
        800152,
        255544,
        68236,
        14727,
        2529,
        334,
        32,
        5,
    ]
}

/// The largest of the sizes and their sum.
fn span(data: &[u64]) -> (r: (u64, u64))
    requires
        total(data@) <= u64::MAX,
    ensures
        r.0 == highest(data@),
        r.1 == total(data@),
{
    let mut max: u64 = 0;
    let mut sum: u64 = 0;
    let mut i: usize = 0;
    proof {
        lemma_totals_grow(data@, 0);
    }
    while i < data.len()
        invariant
            0 <= i <= data@.len(),
            total(data@) <= u64::MAX,
            max == highest(data@.take(i as int)),
            sum == total(data@.take(i as int)),
        decreases data@.len() - i,
    {
        proof {
            assert(data@.take(i + 1).drop_last() =~= data@.take(i as int));
            lemma_totals_grow(data@, i + 1);
        }
        if data[i] > max {
            max = data[i];
        }
        sum = sum + data[i];
        i += 1;
    }
    proof {
        assert(data@.take(data@.len() as int) =~= data@);
    }
    (max, sum)
}

/// The sum of the first sizes is not above the sum of all.
proof fn lemma_totals_grow(data: Seq<u64>, i: int)
    requires
        0 <= i <= data.len(),
    ensures
        0 <= total(data.take(i)) <= total(data),
    decreases data.len() - i,
{
    lemma_highest(data.take(i));
    if i < data.len() {
        assert(data.take(i + 1).drop_last() =~= data.take(i));
        lemma_totals_grow(data, i + 1);
    } else {
        assert(data.take(i) =~= data);
        lemma_highest(data);
    }
}

/// The least limit, to within 10, under which the levels from the fourth
/// on fit into the given number of buckets: found by halving between the
/// largest level and the sum of all levels.
pub fn find_best_limit_for_n_buckets(data: &[u64], buckets: usize) -> (r: u64)
    requires
        3 <= data@.len() <= i32::MAX,
        2 * total(data@) <= u64::MAX,
    ensures
        r == bisected(data@, buckets as int, highest(data@), total(data@)),
{
    proof {
        lemma_highest(data@);
    }
    let (max, sum) = span(data);
    let mut lower = max;
    let mut upper = sum;

    while upper - lower > 10
        invariant
            3 <= data@.len() <= i32::MAX,
            highest(data@) <= lower <= upper <= total(data@),
            2 * total(data@) <= u64::MAX,
            bisected(data@, buckets as int, lower as int, upper as int) == bisected(
                data@,
                buckets as int,
                highest(data@),
                total(data@),
            ),
        decreases upper - lower,
    {
        let mid = (upper + lower) / 2;
        let mut v: Vec<u64> = Vec::new();
        let mut assignments: HashMap<i32, usize> = HashMap::new();
        proof {
            lemma_highest(data@);
            lemma_fewest_falls(data@, 3, mid, mid);
        }
        let ret = step(data, &mut v, 3, data.len(), mid, &mut assignments);
        let count = match ret {
            Some(found) => {
                proof {
                    let c = choose|c: Seq<int>| #[trigger]
                        first_of_best(
                            data@,
                            3,
                            Seq::<u64>::empty(),
                            Map::<i32, usize>::empty(),
                            mid,
                            c,
                            found.0@,
                            found.1@,
                        );
                    assert(ends_with(data@, 3, c, mid, found.0@.len() as int));
                    lemma_fewest(data@, 3, mid, found.0@.len() as int);
                }
                found.0.len()
            },
            None => {
                // each level in a bucket of its own uses fewer buckets than
                // there are levels, so that a packing is always found
                proof {
                    let n = fewest(data@, 3, mid);
                    let c = choose|choice: Seq<int>| #[trigger] ends_with(data@, 3, choice, mid, n);
                    assert(filled(data@, 3, Seq::<u64>::empty(), c, mid) is Some);
                    assert(false);
                }
                unreached()
            },
        };
        if count > buckets {
            lower = mid;
        } else {
            upper = mid;
        }
    }

    upper
}

/// The map is the notes of a packing of all the levels into the fewest
/// buckets.
pub open spec fn best_map(data: Seq<u64>, limit: u64, map: Map<i32, usize>) -> bool {
    exists|out: Seq<u64>| #[trigger]
        best_packing(data, 0, Seq::<u64>::empty(), Map::<i32, usize>::empty(), limit, out, map)
}

/// A packing of all the levels under the limit with the fewest buckets:
/// for each level that shares a bucket with an earlier one, the number of
/// its bucket. There is none if every level needs a bucket of its own.
pub fn get_map(data: &[u64], size_limit: u64) -> (r: Option<HashMap<i32, usize>>)
    requires
        data@.len() <= i32::MAX,
        forall|i: int| 0 <= i < data@.len() ==> data@[i] <= size_limit,
    ensures
        r is Some <==> fewest(data@, 0, size_limit) < data@.len(),
        r is None <==> fewest(data@, 0, size_limit) == data@.len(),
        r matches Some(map) ==> best_map(data@, size_limit, map@),
{
    let mut v: Vec<u64> = Vec::new();
    let mut assignments: HashMap<i32, usize> = HashMap::new();
    proof {
        lemma_fewest_falls(data@, 0, size_limit, size_limit);
    }
    match step(data, &mut v, 0, data.len(), size_limit, &mut assignments) {
        Some(found) => {
            proof {
                let c = choose|c: Seq<int>| #[trigger]
                    first_of_best(
                        data@,
                        0,
                        Seq::<u64>::empty(),
                        Map::<i32, usize>::empty(),
                        size_limit,
                        c,
                        found.0@,
                        found.1@,
                    );
                assert(ends_with(data@, 0, c, size_limit, found.0@.len() as int));
                lemma_fewest(data@, 0, size_limit, found.0@.len() as int);
                assert(best_packing(
                    data@,
                    0,
                    Seq::<u64>::empty(),
                    Map::<i32, usize>::empty(),
                    size_limit,
                    found.0@,
                    found.1@,
                ));
            }
            Some(found.1)
        },
        None => {
            proof {
                let n = fewest(data@, 0, size_limit);
                let c = choose|choice: Seq<int>| #[trigger] ends_with(data@, 0, choice, size_limit, n);
                assert(filled(data@, 0, Seq::<u64>::empty(), c, size_limit) is Some);
            }
            None
        },
    }
}

} // verus!
