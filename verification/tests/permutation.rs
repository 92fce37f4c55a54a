use peg_solitaire::permutation::Permutation;

#[test]
fn test_identity() {
    const N: usize = 5;
    let p = Permutation::<N>::new();
    for i in 0..N as u8 {
        assert_eq!(p.forward(i), i);
        assert_eq!(p.backward(i), i);
    }
}

#[test]
fn test_simple_case() {
    // permutation: (401)(32)
    let mut p = Permutation::<5>::new();
    p.swap(0, 1);
    p.swap(1, 4);
    p.swap(2, 3);

    assert_eq!(p.forward(4), 0);
    assert_eq!(p.forward(0), 1);
    assert_eq!(p.forward(1), 4);
    assert_eq!(p.forward(3), 2);
    assert_eq!(p.forward(2), 3);
}

#[test]
fn test_backward_inverts_forward() {
    const N: usize = 20;
    let mut p = Permutation::<N>::new();
    let mut state: u32 = 12345;
    for round in 0..123 {
        state = state.wrapping_mul(1664525).wrapping_add(1013904223);
        let a = ((state >> 8) % 20) as u8;
        state = state.wrapping_mul(1664525).wrapping_add(1013904223);
        let b = ((state >> 8) % 20) as u8;
        p.swap(a, b);
        for i in 0..N as u8 {
            assert_eq!(p.forward(p.backward(i)), i, "round {round}");
            assert_eq!(p.backward(p.forward(i)), i, "round {round}");
        }
    }
}

#[test]
fn swap_exchanges_two_images() {
    let mut p = Permutation::<4>::new();
    p.swap(1, 3);
    assert_eq!(
        [p.forward(0), p.forward(1), p.forward(2), p.forward(3)],
        [0, 3, 2, 1]
    );
    assert_eq!(
        [p.backward(0), p.backward(1), p.backward(2), p.backward(3)],
        [0, 3, 2, 1]
    );
    p.swap(0, 1);
    assert_eq!(
        [p.forward(0), p.forward(1), p.forward(2), p.forward(3)],
        [3, 0, 2, 1]
    );
    assert_eq!(
        [p.backward(0), p.backward(1), p.backward(2), p.backward(3)],
        [1, 3, 2, 0]
    );
    p.swap(2, 2);
    assert_eq!(p.forward(2), 2);
    let q = p;
    assert_eq!(p, q);
}
