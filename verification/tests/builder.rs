use peg_solitaire::bloom::BloomFilter;
use peg_solitaire::builder::{build_reachability_map, insert_solvable};
use peg_solitaire::moves::{all_moves, Move};
use peg_solitaire::position::Position;
use peg_solitaire::visit_map::VisitMap;

/// Every position from which moves lead to `target`, found the slow way.
fn predecessors(target: Position, moves: &[Move; 76]) -> Vec<Position> {
    let mut found = vec![target];
    let mut next = 0;
    while next < found.len() {
        let pos = found[next];
        next += 1;
        for &mv in moves {
            if pos.can_move_inverse(mv) {
                let before = pos.apply_move_inverse(mv);
                if !found.contains(&before) {
                    found.push(before);
                }
            }
        }
    }
    found
}

#[test]
fn visit_map_is_a_set_of_positions() {
    let mut map = VisitMap::new();
    let a = Position(0);
    let b = Position((1 << 33) - 1);
    let c = Position(123456789);
    for p in [a, b, c] {
        assert!(!map.is_visited(p));
    }
    map.visit(a);
    map.visit(b);
    assert!(map.is_visited(a));
    assert!(map.is_visited(b));
    assert!(!map.is_visited(c));
    map.visit(a);
    assert!(map.is_visited(a));
    map.unvisit(a);
    assert!(!map.is_visited(a));
    assert!(map.is_visited(b));
    assert!(!map.is_visited(Position(1)));
}

#[test]
fn a_map_is_read_from_its_words() {
    let mut words = vec![0u32; 1 << 28];
    words[0] = 0b101;
    words[3] = 1 << 31;
    words[(1 << 28) - 1] = 1 << 31;
    let map = VisitMap::from_words(words).unwrap();
    assert!(map.is_visited(Position(0)));
    assert!(!map.is_visited(Position(1)));
    assert!(map.is_visited(Position(2)));
    assert!(map.is_visited(Position(127)));
    assert!(!map.is_visited(Position(126)));
    assert!(!map.is_visited(Position(128)));
    assert!(map.is_visited(Position((1 << 33) - 1)));
    assert!(!map.is_visited(Position((1 << 33) - 2)));

    assert!(VisitMap::from_words(vec![]).is_none());
    assert!(VisitMap::from_words(vec![0; 1000]).is_none());
}

#[test]
fn the_map_holds_exactly_what_reaches_the_target() {
    let moves = all_moves();
    // 28 pegs: the centre and the four holes next to it are empty
    let target = Position(
        ((1 << 33) - 1) & !((1 << 9) | (1 << 15) | (1 << 16) | (1 << 17) | (1 << 23)),
    );
    assert_eq!(target.count(), 28);
    let expected = predecessors(target, &moves);
    assert!(expected.len() > 3);

    let map = build_reachability_map(target);
    for p in &expected {
        assert!(map.is_visited(*p), "{p:?}");
    }
    // the neighbourhood of each of them holds nothing else
    for p in &expected {
        for bit in 0..33 {
            let q = Position(p.0 ^ (1 << bit));
            assert_eq!(map.is_visited(q), expected.contains(&q), "{q:?}");
        }
        for &mv in &moves {
            if p.can_move(mv) {
                let q = p.apply_move(mv);
                assert_eq!(map.is_visited(q), expected.contains(&q), "{q:?}");
            }
        }
    }
    assert!(!map.is_visited(Position::default_end()));
    assert!(!map.is_visited(Position(0)));
}

#[test]
fn the_index_has_no_false_negatives() {
    let moves = all_moves();
    let target = Position(
        ((1 << 33) - 1) & !((1 << 9) | (1 << 15) | (1 << 16) | (1 << 17) | (1 << 23)),
    );
    let expected = predecessors(target, &moves);
    assert!(expected.len() > 3);
    let map = build_reachability_map(target);

    let mut filter = BloomFilter::new(10007, 1);
    let window = 1u64 << 16;
    let mut in_window = vec![];
    for p in &expected {
        let from = p.0 - p.0 % window;
        insert_solvable(&mut filter, &map, from, from + window);
        in_window.push(*p);
        for q in &in_window {
            assert!(filter.query(q.normalize()));
            assert!(filter.query(q.rotate().normalize()));
            assert!(filter.query(q.mirror().normalize()));
        }
    }

    // and nothing else: each bit stands for the normal form of one of them
    let mut bits = vec![false; 10007];
    for p in &expected {
        bits[(p.normalize().0 % 10007) as usize] = true;
    }
    for i in 0..10007u64 {
        assert_eq!(filter.query(Position(i)), bits[i as usize], "{i}");
    }
}

#[test]
fn an_empty_range_inserts_nothing() {
    let mut map = VisitMap::new();
    map.visit(Position(5));
    let mut filter = BloomFilter::new(13, 1);
    insert_solvable(&mut filter, &map, 5, 5);
    insert_solvable(&mut filter, &map, 6, 1000);
    insert_solvable(&mut filter, &map, 0, 5);
    assert!(filter == BloomFilter::new(13, 1));
    insert_solvable(&mut filter, &map, 5, 6);
    // the normal form of position 5 is position 5 itself
    assert_eq!(Position(5).normalize(), Position(5));
    let mut expected = BloomFilter::new(13, 1);
    expected.insert(Position(5));
    assert!(filter == expected);
}
