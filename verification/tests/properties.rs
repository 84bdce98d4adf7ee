use permutation::Permutation;

fn drain<T: Clone>(mut generator: Permutation<T>) -> Vec<Vec<T>> {
    let mut out: Vec<Vec<T>> = Vec::new();
    while let Some(perm) = generator.next() {
        out.push(perm.clone());
    }
    out
}

#[test]
fn factorial_many_distinct_orderings_of_same_elements() {
    let outputs = drain(Permutation::new(vec![10, 20, 30, 40]));
    assert_eq!(outputs.len(), 24);
    for a in 0..outputs.len() {
        for b in 0..a {
            assert_ne!(outputs[a], outputs[b]);
        }
    }
    for perm in &outputs {
        let mut sorted = perm.clone();
        sorted.sort();
        assert_eq!(sorted, vec![10, 20, 30, 40]);
    }
}

#[test]
fn consecutive_outputs_differ_by_one_adjacent_swap() {
    let outputs = drain(Permutation::new(vec![1, 2, 3, 4, 5]));
    assert_eq!(outputs.len(), 120);
    for w in outputs.windows(2) {
        let (prev, cur) = (&w[0], &w[1]);
        let differing: Vec<usize> = (0..prev.len()).filter(|&i| prev[i] != cur[i]).collect();
        assert_eq!(differing.len(), 2);
        assert_eq!(differing[0] + 1, differing[1]);
        assert_eq!(prev[differing[0]], cur[differing[1]]);
        assert_eq!(prev[differing[1]], cur[differing[0]]);
    }
}

#[test]
fn exhaustion_signal_is_stable() {
    let mut generator = Permutation::new(vec![1, 2]);
    assert!(generator.next().is_some());
    assert!(generator.next().is_some());
    assert_eq!(generator.next(), None);
    assert_eq!(generator.next(), None);
    assert_eq!(generator.next(), None);
}

#[test]
fn duplicate_elements_are_permuted_by_position() {
    let mut generator = Permutation::new(vec![7, 7]);
    assert_eq!(generator.next(), Some(&vec![7, 7]));
    assert_eq!(generator.next(), Some(&vec![7, 7]));
    assert_eq!(generator.next(), None);
}

#[test]
fn first_output_is_the_construction_order() {
    let mut generator = Permutation::new(vec![9, 3, 5, 1, 7, 8]);
    assert_eq!(generator.next(), Some(&vec![9, 3, 5, 1, 7, 8]));
}

#[test]
fn ordering_is_independent_of_element_size() {
    // Small scalar elements and large fixed-size byte-array elements must
    // come out in the same label order, with the same step count.
    let small = drain(Permutation::new(vec![0u8, 1, 2]));

    let mut wide: Vec<[u8; 64]> = Vec::new();
    for tag in 0u8..3 {
        let mut block = [0u8; 64];
        block[0] = tag;
        block[63] = tag;
        wide.push(block);
    }
    let large = drain(Permutation::new(wide));

    assert_eq!(small.len(), 6);
    assert_eq!(large.len(), 6);
    for (small_perm, large_perm) in small.iter().zip(large.iter()) {
        let tags: Vec<u8> = large_perm.iter().map(|block| block[0]).collect();
        assert_eq!(&tags, small_perm);
        for block in large_perm {
            assert_eq!(block[0], block[63]);
        }
    }
}
