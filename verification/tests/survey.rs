use peg_solitaire::bloom::BloomFilter;
use peg_solitaire::debruijn::de_bruijn_solvable;
use peg_solitaire::moves::all_moves;
use peg_solitaire::position::Position;
use peg_solitaire::survey::{
    analyze_state_space, count_normalized_within, count_positive_children,
    evaluate_false_positives, evaluate_solver_stats, mark_one_past, prime_candidates,
    round_candidates, round_minus_one_candidates, sample_start_positions, SolverStats,
};
use peg_solitaire::solver::{SolveInfo, SolveResult};
use peg_solitaire::visit_map::VisitMap;

const FULL: u64 = (1 << 33) - 1;

/// A set of positions near the full board, by a simple rule.
fn some_map(from: u64, to: u64) -> VisitMap {
    let mut map = VisitMap::new();
    for n in from..to {
        if n % 3 == 0 || n % 7 == 1 {
            map.visit(Position(n));
        }
    }
    map
}

#[test]
fn round_candidates_are_small_multiples_of_powers_of_two() {
    assert_eq!(
        round_candidates(8..30),
        vec![8, 10, 12, 14, 16, 20, 24, 28]
    );
    // the exponents whose numbers begin below the range are passed over whole
    assert_eq!(
        round_candidates(10..100),
        vec![16, 20, 24, 28, 32, 40, 48, 56, 64, 80, 96]
    );
    assert_eq!(round_candidates(0..8), Vec::<u32>::new());
    assert_eq!(round_candidates(0..9), vec![8]);
    assert_eq!(round_candidates(17..17), Vec::<u32>::new());
    assert_eq!(round_candidates(100..10), Vec::<u32>::new());
    assert_eq!(round_candidates(33..64), Vec::<u32>::new());
    let largest = round_candidates(0x8000_0000..0xe000_0000);
    assert_eq!(largest, vec![0x8000_0000, 0xa000_0000, 0xc000_0000]);
    let sizes = round_candidates(512 * 8192..42 * 1024 * 8192);
    assert_eq!(sizes.first(), Some(&4194304));
    assert_eq!(sizes.last(), Some(&(5 << 26)));
    assert_eq!(sizes.len(), 26);
}

#[test]
fn round_minus_one_candidates_lie_one_below() {
    assert_eq!(
        round_minus_one_candidates(10..100),
        vec![15, 19, 23, 27, 31, 39, 47, 55, 63, 79, 95]
    );
    assert_eq!(round_minus_one_candidates(0..9), vec![7]);
    assert_eq!(round_minus_one_candidates(0..8), Vec::<u32>::new());
}

#[test]
fn prime_candidates_are_thinned_primes() {
    assert_eq!(
        prime_candidates(2..100),
        vec![2, 3, 5, 7, 11, 17, 23, 29, 37, 47, 59, 71, 89]
    );
    assert_eq!(prime_candidates(0..3), vec![2]);
    assert_eq!(prime_candidates(24..29), Vec::<u32>::new());
    assert_eq!(prime_candidates(90..120), vec![97]);
    assert_eq!(prime_candidates(10..2), Vec::<u32>::new());

    // the same rule with the factor as a fraction
    let mut previous = 0u32;
    let mut expected = vec![];
    for p in 1000u32..3000 {
        let prime = (2..p).take_while(|d| d * d <= p).all(|d| p % d != 0);
        if prime && previous as f64 * 1.1939 <= p as f64 {
            expected.push(p);
            previous = p;
        }
    }
    assert_eq!(prime_candidates(1000..3000), expected);
}

#[test]
fn positive_children_of_the_start() {
    let start = Position::default_start();
    let all = BloomFilter::always_true();
    assert_eq!(count_positive_children(&all, start), (4, 4));
    let none = BloomFilter::new(1_000_003, 1);
    assert_eq!(count_positive_children(&none, start), (0, 4));
    assert_eq!(count_positive_children(&all, Position::default_end()), (0, 0));
    assert_eq!(count_positive_children(&all, Position(FULL)), (0, 0));

    let pos = Position(0b1_0110_1101_0011_1010_0101_1100_1011_0110);
    let moves = all_moves();
    let mut some = BloomFilter::new(1009, 1);
    let mut total = 0;
    let mut positives = 0;
    for (i, mv) in moves.iter().enumerate() {
        if pos.can_move(*mv) {
            total += 1;
            if i % 2 == 0 {
                some.insert(pos.apply_move(*mv).normalize());
            }
        }
    }
    for mv in moves {
        if pos.can_move(mv) && some.query(pos.apply_move(mv).normalize()) {
            positives += 1;
        }
    }
    assert!(total > 2);
    assert_eq!(count_positive_children(&some, pos), (positives, total));
}

#[test]
fn one_past_is_one_move_behind_the_set() {
    let moves = all_moves();
    let from = FULL - 5000;
    let to = FULL - 4000;
    let map = some_map(from - 100, to + 100);

    let mut expected = vec![];
    for n in from..to {
        let pos = Position(n);
        if map.is_visited(pos) && pos.count() > 1 {
            for mv in moves {
                if pos.can_move(mv) {
                    expected.push(pos.apply_move(mv));
                }
            }
        }
    }
    assert!(expected.len() > 100);

    let mut one_past = VisitMap::new();
    let kept = Position(12345);
    one_past.visit(kept);
    mark_one_past(&mut one_past, &map, &moves, from, to);
    assert!(one_past.is_visited(kept));
    for q in &expected {
        assert!(one_past.is_visited(*q));
    }
    // nothing else around them
    for q in &expected {
        for bit in 0..33 {
            let r = Position(q.0 ^ (1 << bit));
            assert_eq!(one_past.is_visited(r), expected.contains(&r) || r == kept);
        }
    }

    drop(one_past);
    drop(map);

    // a position with a single peg has nothing behind it
    let mut single = VisitMap::new();
    single.visit(Position(1 << 16));
    let mut behind = VisitMap::new();
    mark_one_past(&mut behind, &single, &moves, 1 << 16, (1 << 16) + 1);
    for bit in 0..33 {
        assert!(!behind.is_visited(Position(1 << bit)));
    }
}

#[test]
fn normal_forms_are_counted_once() {
    let mut map = VisitMap::new();
    let a = Position(0b1011);
    let positions = [
        a,
        a.rotate(),
        a.mirror(),
        Position(1),
        Position(1 << 32),
        Position(1 << 16),
        Position(3),
    ];
    for p in positions {
        map.visit(p);
    }
    // the images of `a` have one normal form, the corners share one, then
    // the centre and position 3
    let mut seen = VisitMap::new();
    assert_eq!(count_normalized_within(&map, &mut seen, 0, 2), 1);
    assert!(seen.is_visited(Position(1)));
    assert_eq!(count_normalized_within(&map, &mut seen, 0, 16), 2);
    assert!(seen.is_visited(Position(3).normalize()));
    assert!(seen.is_visited(a.normalize()));
    // what was seen is not counted again
    assert_eq!(count_normalized_within(&map, &mut seen, 0, 16), 0);
    let at = a.rotate().0;
    assert_eq!(count_normalized_within(&map, &mut seen, at, at + 1), 0);
    assert_eq!(count_normalized_within(&map, &mut seen, 1 << 32, (1 << 32) + 1), 0);
    assert_eq!(count_normalized_within(&map, &mut seen, 1 << 16, (1 << 16) + 1), 1);
    assert_eq!(count_normalized_within(&map, &mut seen, 7, 7), 0);
}

#[test]
fn false_positives_are_counted() {
    let from = FULL - 3000;
    let to = FULL - 1000;
    let map = some_map(from, to);
    let mut one_past = VisitMap::new();
    let mut filter = BloomFilter::new(997, 1);
    for n in from..to {
        if n % 5 == 0 {
            one_past.visit(Position(n));
        }
        if n % 11 < 4 {
            filter.insert(Position(n).normalize());
        }
    }
    let mut expected = [0u64; 5];
    for n in from..to {
        let pos = Position(n);
        let present = filter.query(pos.normalize());
        if map.is_visited(pos) {
            if !present {
                expected[4] += 1;
            }
        } else {
            expected[0] += 1;
            if one_past.is_visited(pos) {
                expected[1] += 1;
            }
            if present {
                expected[2] += 1;
                if one_past.is_visited(pos) {
                    expected[3] += 1;
                }
            }
        }
    }
    let stats = evaluate_false_positives(&map, &one_past, &filter, from, to);
    assert_eq!(
        [
            stats.total_negatives,
            stats.total_one_past,
            stats.false_positives,
            stats.false_positives_in_one_past,
            stats.false_negatives
        ],
        expected
    );
    assert!(expected.iter().all(|n| *n > 0));

    let none = evaluate_false_positives(&map, &one_past, &filter, from, from);
    assert_eq!(none.total_negatives, 0);
    assert_eq!(none.false_negatives, 0);

    // an index that was built from the set misses nothing
    let mut exact = BloomFilter::new(997, 1);
    for n in from..to {
        if map.is_visited(Position(n)) {
            exact.insert(Position(n).normalize());
        }
    }
    let stats = evaluate_false_positives(&map, &one_past, &exact, from, to);
    assert_eq!(stats.false_negatives, 0);
    assert_eq!(stats.total_negatives, expected[0]);
}

#[test]
fn the_state_space_is_counted_by_pegs() {
    let from = 0;
    let to = 3000;
    let mut map = some_map(from, to);
    for n in 0..3000 {
        if n % 2 == 0 {
            map.visit(Position(FULL - n));
        }
    }
    let mut expected = vec![vec![0u64; 34]; 6];
    for n in from..to {
        let pos = Position(n);
        let pegs = pos.count() as usize;
        let norm = pos == pos.normalize();
        let class = de_bruijn_solvable(pos);
        if map.is_visited(pos) {
            let via = map.is_visited(pos.inverse());
            expected[0][pegs] += 1;
            if norm {
                expected[1][pegs] += 1;
            }
            if via {
                expected[2][pegs] += 1;
            }
            if via && norm {
                expected[3][pegs] += 1;
            }
        }
        if class {
            expected[4][pegs] += 1;
        }
        if class && norm {
            expected[5][pegs] += 1;
        }
    }
    let info = analyze_state_space(&map, from, to);
    assert_eq!(info.solvable_at, expected[0]);
    assert_eq!(info.solvable_norm_at, expected[1]);
    assert_eq!(info.via_solvable_at, expected[2]);
    assert_eq!(info.via_solvable_norm_at, expected[3]);
    assert_eq!(info.de_bruijn_solvable_at, expected[4]);
    assert_eq!(info.de_bruijn_solvable_norm_at, expected[5]);
    for list in &expected {
        assert!(list.iter().sum::<u64>() > 0);
    }

    let tiny = analyze_state_space(&map, 1 << 16, (1 << 16) + 1);
    assert_eq!(tiny.de_bruijn_solvable_at[1], 1);
    assert_eq!(tiny.de_bruijn_solvable_at.iter().sum::<u64>(), 1);
    assert_eq!(tiny.solvable_at.iter().sum::<u64>(), 0);
}

#[test]
fn solver_stats_add_up() {
    let mut stats = SolverStats {
        max_steps: 0,
        total_steps: 0,
        nr_samples: 0,
        nr_timeouts: 0,
    };
    let info = |nr_steps| SolveInfo {
        nr_steps,
        nr_attempts: 1,
    };
    stats.record(&SolveResult::Solved(vec![]), &info(7));
    stats.record(&SolveResult::TimedOut, &info(15050));
    stats.record(&SolveResult::Unsolvable, &info(3));
    stats.record(&SolveResult::TimedOut, &info(0));
    assert_eq!(
        stats,
        SolverStats {
            max_steps: 15050,
            total_steps: 15060,
            nr_samples: 4,
            nr_timeouts: 2
        }
    );
}

#[test]
fn the_solver_is_tried_on_each_start_position() {
    let filter = BloomFilter::always_true();
    // three easy positions: each is tried 3333 times
    let easy = Position((1 << 17) | (1 << 18));
    let stats = evaluate_solver_stats(&filter, &[easy, Position::default_end(), Position(2)]);
    assert_eq!(stats.nr_samples, 9999);
    assert_eq!(stats.nr_timeouts, 0);
    assert_eq!(stats.max_steps, 1);
    // the target takes no step, the other two take one
    assert_eq!(stats.total_steps, 2 * 3333);

    // more than 10000 positions are tried once each
    let many = vec![easy; 10001];
    let stats = evaluate_solver_stats(&filter, &many);
    assert_eq!(stats.nr_samples, 10001);
    assert_eq!(stats.total_steps, 10001);
}

#[test]
fn samples_hold_what_can_be_drawn() {
    let from = FULL - 4000;
    let to = FULL;
    let map = some_map(from, to);
    let drawable = |solvable: bool, pos: Position| {
        if solvable {
            map.is_visited(pos) && pos.count() >= 26
        } else {
            !map.is_visited(pos) && pos.count() >= 23 && de_bruijn_solvable(pos)
        }
    };
    for solvable in [true, false] {
        let all: Vec<Position> = (from..to)
            .map(Position)
            .filter(|p| drawable(solvable, *p))
            .collect();
        assert!(all.len() > 100);

        // with room for all, the sample holds all of them in their order
        let sample = sample_start_positions(&map, solvable, 100000, 123, from, to);
        assert_eq!(sample, all);

        // with less room the sample is full, and holds nothing else
        let sample = sample_start_positions(&map, solvable, 50, 123, from, to);
        assert_eq!(sample.len(), 50);
        for p in &sample {
            assert!(all.contains(p));
        }
        // the generator has replaced some of the first 50
        assert_ne!(sample, all[..50].to_vec());
        // and does the same for the same seed
        assert_eq!(
            sample,
            sample_start_positions(&map, solvable, 50, 123, from, to)
        );

        assert!(sample_start_positions(&map, solvable, 0, 1, from, to).is_empty());
        assert!(sample_start_positions(&map, solvable, 50, 1, from, from).is_empty());
    }
}
