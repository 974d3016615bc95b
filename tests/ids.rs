use jitos::ids::{DeterministicIdAllocator, NodeId};

fn h(b: u8) -> jitos::hash::Hash {
    jitos::hash::Hash([b; 32])
}

#[test]
fn test_same_operations_same_tick_hash() {
    let (op1, op2, op3) = (h(1), h(2), h(3));
    let alloc1 = DeterministicIdAllocator::new_for_tick(&[op1, op2, op3]);
    let alloc2 = DeterministicIdAllocator::new_for_tick(&[op3, op1, op2]);
    let alloc3 = DeterministicIdAllocator::new_for_tick(&[op2, op3, op1]);
    assert_eq!(alloc1.tick_hash(), alloc2.tick_hash(), "different orderings must produce same tick_hash");
    assert_eq!(alloc2.tick_hash(), alloc3.tick_hash(), "different orderings must produce same tick_hash");
}

#[test]
fn test_antichain_swap_produces_identical_ids() {
    let (op1, op2, op3) = (h(1), h(2), h(3));
    let mut alloc1 = DeterministicIdAllocator::new_for_tick(&[op1, op2, op3]);
    let id1_orig = alloc1.alloc_node_id(op1);
    let id2_orig = alloc1.alloc_node_id(op2);
    let id3_orig = alloc1.alloc_node_id(op3);
    let mut alloc2 = DeterministicIdAllocator::new_for_tick(&[op3, op1, op2]);
    let id1_swap = alloc2.alloc_node_id(op1);
    let id2_swap = alloc2.alloc_node_id(op2);
    let id3_swap = alloc2.alloc_node_id(op3);
    assert_eq!(id1_orig, id1_swap, "op1 must get same ID regardless of tick ordering");
    assert_eq!(id2_orig, id2_swap, "op2 must get same ID regardless of tick ordering");
    assert_eq!(id3_orig, id3_swap, "op3 must get same ID regardless of tick ordering");
}

#[test]
fn test_allocation_order_independence() {
    let (op1, op2) = (h(1), h(2));
    let mut alloc1 = DeterministicIdAllocator::new_for_tick(&[op1, op2]);
    let id1_first = alloc1.alloc_node_id(op1);
    let id2_first = alloc1.alloc_node_id(op2);
    let mut alloc2 = DeterministicIdAllocator::new_for_tick(&[op1, op2]);
    let id2_second = alloc2.alloc_node_id(op2);
    let id1_second = alloc2.alloc_node_id(op1);
    assert_eq!(id1_first, id1_second, "op1 must get same ID regardless of allocation call order");
    assert_eq!(id2_first, id2_second, "op2 must get same ID regardless of allocation call order");
}

#[test]
fn test_different_operations_different_ids() {
    let (op1, op2) = (h(1), h(2));
    let mut alloc = DeterministicIdAllocator::new_for_tick(&[op1, op2]);
    let id1 = alloc.alloc_node_id(op1);
    let id2 = alloc.alloc_node_id(op2);
    assert_ne!(id1, id2, "different operations must get different IDs");
}

#[test]
fn test_counter_produces_different_ids() {
    let op = h(1);
    let mut alloc = DeterministicIdAllocator::new_for_tick(&[op]);
    let id1 = alloc.alloc_node_id(op);
    let id2 = alloc.alloc_node_id(op);
    let id3 = alloc.alloc_node_id(op);
    assert_ne!(id1, id2, "counter must produce different IDs");
    assert_ne!(id2, id3, "counter must produce different IDs");
    assert_ne!(id1, id3, "counter must produce different IDs");
}

#[test]
fn reset_counter_restarts_allocation() {
    let op = h(1);
    let mut alloc = DeterministicIdAllocator::new_for_tick(&[op]);
    let first = alloc.alloc_node_id(op);
    let _ = alloc.alloc_node_id(op);
    alloc.reset_counter();
    assert_eq!(alloc.alloc_node_id(op), first);
}

#[test]
fn test_replay_reproducibility() {
    let ops = vec![h(1), h(2), h(3)];
    let run = || {
        let mut alloc = DeterministicIdAllocator::new_for_tick(&ops);
        vec![alloc.alloc_node_id(ops[0]), alloc.alloc_node_id(ops[1]), alloc.alloc_node_id(ops[2])]
    };
    assert_eq!(run(), run(), "replay must produce identical IDs");
}

#[test]
fn test_antichain_swap_stress_1000_permutations() {
    let ops = vec![h(1), h(2), h(3), h(4), h(5)];
    let mut first: Option<Vec<NodeId>> = None;
    for i in 0..1000usize {
        let mut permuted = ops.clone();
        permuted.rotate_left(i % 5);
        if i % 2 == 0 {
            permuted.swap(0, 2);
        }
        if i % 3 == 0 {
            permuted.swap(1, 3);
        }
        let mut alloc = DeterministicIdAllocator::new_for_tick(&permuted);
        let ids: Vec<NodeId> = ops.iter().map(|op| alloc.alloc_node_id(*op)).collect();
        match &first {
            None => first = Some(ids),
            Some(f) => assert_eq!(f, &ids, "permutation {} produced different IDs", i),
        }
    }
}

#[test]
fn node_id_wraps_hash() {
    let n = NodeId::from_hash(h(4));
    assert_eq!(n.hash(), h(4));
}
