use dag_demo::blockchain::{Block, BlockColor, BlockDAG};


// ============================================================================
// GHOSTDAG Algorithm Test Suite
// ============================================================================
//
// These tests demonstrate and verify the correctness of the GHOSTDAG protocol
// implementation, specifically the `ghostdag_sort` and `update_ghostdag_ordering`
// functions.
//
// Key Concepts Tested:
// 1. **Blue/Red Block Classification**: Blocks are colored blue (main chain) or
//    red (side chain) based on their anticone size relative to parameter k.
//
// 2. **Weight Assignment**: Blue blocks receive sequential weights determining
//    their canonical order. Red blocks have weight 0.
//
// 3. **Anticone**: The set of blocks that are neither ancestors nor descendants
//    of a given block (concurrent/parallel blocks).
//
// 4. **k-parameter**: Controls how many blue blocks can be in a block's anticone.
//    Larger k allows more parallelism.
//
// 5. **Topological Ordering**: Blocks are ordered by:
//    - Parent count (depth) - blocks with more parents processed first
//    - Timestamp - earlier blocks preferred when depth is equal
//
// Test Coverage:
// - Linear chains (no forks)
// - Simple forks with varying k values
// - Diamond structures (fork and merge)
// - Complex DAGs with multiple concurrent branches
// - Weight ordering verification
// - Anticone calculation correctness
// - Red block exclusion
// ============================================================================

#[test]
fn test_ghostdag_linear_chain() {
    // Test GHOSTDAG with a simple linear chain (no forks)
    // DAG structure:
    //   genesis -> b1 -> b2 -> b3
    // Expected: All blocks should be blue with sequential weights
    let mut dag = BlockDAG::new(3);

    let b1 = Block::new("b1".to_string(), vec!["genesis".to_string()], vec![], 1);
    let b2 = Block::new("b2".to_string(), vec!["b1".to_string()], vec![], 2);
    let b3 = Block::new("b3".to_string(), vec!["b2".to_string()], vec![], 3);

    dag.add_block(b1).unwrap();
    dag.add_block(b2).unwrap();
    dag.add_block(b3).unwrap();

    // All blocks should be blue in a linear chain
    assert_eq!(dag.get_block("genesis").unwrap().color, BlockColor::Blue);
    assert_eq!(dag.get_block("b1").unwrap().color, BlockColor::Blue);
    assert_eq!(dag.get_block("b2").unwrap().color, BlockColor::Blue);
    assert_eq!(dag.get_block("b3").unwrap().color, BlockColor::Blue);

    // Verify sequential weights
    assert_eq!(dag.get_block("genesis").unwrap().weight, 1);
    assert_eq!(dag.get_block("b1").unwrap().weight, 2);
    assert_eq!(dag.get_block("b2").unwrap().weight, 3);
    assert_eq!(dag.get_block("b3").unwrap().weight, 4);
}

#[test]
fn test_ghostdag_simple_fork_k1() {
    // Test GHOSTDAG with k=1
    // DAG structure:
    //      genesis
    //       /   \
    //      b1   b2
    // When two blocks compete, both may still be blue if their anticone relationship allows
    let mut dag = BlockDAG::new(1);

    // Create a fork: genesis -> b1 and genesis -> b2
    let b1 = Block::new("b1".to_string(), vec!["genesis".to_string()], vec![], 100);
    let b2 = Block::new("b2".to_string(), vec!["genesis".to_string()], vec![], 200);

    dag.add_block(b1).unwrap();
    dag.add_block(b2).unwrap();

    // With k=1, the first block (b1) should be blue
    assert_eq!(dag.get_block("b1").unwrap().color, BlockColor::Blue);

    // b2's anticone contains b1 (1 blue block), which equals k=1, so b2 can also be blue
    assert_eq!(dag.get_block("b2").unwrap().color, BlockColor::Blue);

    // Verify weights
    // Weight doesn't represent "importance" or "validity" - both blocks are equally blue/valid.
    // Weight represents their position in the canonical ordering that's needed for deterministic transaction execution.
    // The algorithm breaks the tie using timestamp: b1 has timestamp 100, b2 has timestamp 200
    // b1 gets processed first → weight 2
    // b2 gets processed second → weight 3
    assert_eq!(dag.get_block("genesis").unwrap().weight, 1);
    assert_eq!(dag.get_block("b1").unwrap().weight, 2);
    assert_eq!(dag.get_block("b2").unwrap().weight, 3);
}

#[test]
fn test_ghostdag_simple_fork_k3() {
    // Test GHOSTDAG with k=3 (allows parallel blocks)
    // DAG structure:
    //      genesis
    //       /   \
    //      b1   b2
    // Both competing blocks should be blue
    let mut dag = BlockDAG::new(3);

    let b1 = Block::new("b1".to_string(), vec!["genesis".to_string()], vec![], 100);
    let b2 = Block::new("b2".to_string(), vec!["genesis".to_string()], vec![], 200);

    dag.add_block(b1).unwrap();
    dag.add_block(b2).unwrap();

    // With k=3, both should be blue (anticone size is 1, which is <= k)
    assert_eq!(dag.get_block("b1").unwrap().color, BlockColor::Blue);
    assert_eq!(dag.get_block("b2").unwrap().color, BlockColor::Blue);

    // Verify specific weights based on timestamp ordering
    assert_eq!(dag.get_block("genesis").unwrap().weight, 1);
    assert_eq!(dag.get_block("b1").unwrap().weight, 2);
    assert_eq!(dag.get_block("b2").unwrap().weight, 3);
}
#[test]
fn test_ghostdag_complex_dag_with_k2() {
    // Test GHOSTDAG with a more complex DAG and k=2
    //        genesis
    //        /  |  \
    //      b1  b2  b3
    //        \ | /
    //         b4
    let mut dag = BlockDAG::new(2);

    let b1 = Block::new("b1".to_string(), vec!["genesis".to_string()], vec![], 100);
    let b2 = Block::new("b2".to_string(), vec!["genesis".to_string()], vec![], 200);
    let b3 = Block::new("b3".to_string(), vec!["genesis".to_string()], vec![], 300);
    let b4 = Block::new(
        "b4".to_string(),
        vec!["b1".to_string(), "b2".to_string(), "b3".to_string()],
        vec![],
        400,
    );

    dag.add_block(b1).unwrap();
    dag.add_block(b2).unwrap();
    dag.add_block(b3).unwrap();
    dag.add_block(b4).unwrap();

    // With k=2, at most 3 blocks from {b1, b2, b3} can be blue
    let blue_count = [
        dag.get_block("b1").unwrap(),
        dag.get_block("b2").unwrap(),
        dag.get_block("b3").unwrap(),
    ]
    .iter()
    .filter(|b| b.color == BlockColor::Blue)
    .count();

    // With k=2: b1, b2, b3 all have anticone size 2 (each other)
    // All 3 should be blue since anticone size (2) <= k (2)
    assert_eq!(blue_count, 3);

    // b4 should be blue (it references all parents)
    assert_eq!(dag.get_block("b4").unwrap().color, BlockColor::Blue);

    // Verify specific weights:
    // 1. Genesis (1)
    // 2. b1 (ts=100) -> 2
    // 3. b2 (ts=200) -> 3
    // 4. b3 (ts=300) -> 4
    // 5. b4 (child of b1,b2,b3) -> 5
    assert_eq!(dag.get_block("genesis").unwrap().weight, 1);
    assert_eq!(dag.get_block("b1").unwrap().weight, 2);
    assert_eq!(dag.get_block("b2").unwrap().weight, 3);
    assert_eq!(dag.get_block("b3").unwrap().weight, 4);
    assert_eq!(dag.get_block("b4").unwrap().weight, 5);
}
#[test]
fn test_ghostdag_weight_ordering() {
    // Test that weights are properly ordered in the blue chain
    // DAG structure:
    //      genesis
    //       /   \
    //      b1   b2
    //       |    \
    //      b3     |
    //        \   /
    //         b4
    let mut dag = BlockDAG::new(5);

    // Create a complex DAG
    let b1 = Block::new("b1".to_string(), vec!["genesis".to_string()], vec![], 100);
    let b2 = Block::new("b2".to_string(), vec!["genesis".to_string()], vec![], 200);
    let b3 = Block::new("b3".to_string(), vec!["b1".to_string()], vec![], 300);
    let b4 = Block::new(
        "b4".to_string(),
        vec!["b2".to_string(), "b3".to_string()],
        vec![],
        400,
    );

    // revert sequence of b2 and b1, but they will be ordered by timestamp later
    dag.add_block(b2).unwrap();
    dag.add_block(b1).unwrap();

    dag.add_block(b3).unwrap();
    dag.add_block(b4).unwrap();

    // Get ordered blue blocks
    let blue_blocks = dag.get_ordered_blue_blocks();

    // Verify specific weights showing topological then timestamp ordering
    assert_eq!(blue_blocks.len(), 5);
    assert_eq!(blue_blocks[0].hash, "genesis");
    assert_eq!(blue_blocks[0].weight, 1);

    // b1 (ts=100) -> weight 2
    assert_eq!(blue_blocks[1].hash, "b1");
    assert_eq!(blue_blocks[1].weight, 2);

    // b2 (ts=200) -> weight 3
    assert_eq!(blue_blocks[2].hash, "b2");
    assert_eq!(blue_blocks[2].weight, 3);

    // b3 (child of b1, ts=300) -> weight 4
    assert_eq!(blue_blocks[3].hash, "b3");
    assert_eq!(blue_blocks[3].weight, 4);

    // b4 (child of b1,b2,b3, ts=400) -> weight 5
    assert_eq!(blue_blocks[4].hash, "b4");
    assert_eq!(blue_blocks[4].weight, 5);
}

#[test]
fn test_ghostdag_timestamp_ordering() {
    // Test that earlier timestamp blocks are preferred when anticone size allows
    // DAG structure:
    //        genesis
    //        /  |
    //      b2  b3  b1  (timestamps: b2=100, b3=300, b1=500)
    let mut dag = BlockDAG::new(5);

    // Create blocks with different timestamps
    let b1 = Block::new("b1".to_string(), vec!["genesis".to_string()], vec![], 500);
    let b2 = Block::new("b2".to_string(), vec!["genesis".to_string()], vec![], 100);
    let b3 = Block::new("b3".to_string(), vec!["genesis".to_string()], vec![], 300);

    dag.add_block(b1).unwrap();
    dag.add_block(b2).unwrap();
    dag.add_block(b3).unwrap();

    // All should be blue with k=5
    assert_eq!(dag.get_block("b1").unwrap().color, BlockColor::Blue);
    assert_eq!(dag.get_block("b2").unwrap().color, BlockColor::Blue);
    assert_eq!(dag.get_block("b3").unwrap().color, BlockColor::Blue);

    // Verify timestamp ordering: b2(100) < b3(300) < b1(500)
    assert_eq!(dag.get_block("genesis").unwrap().weight, 1);
    assert_eq!(dag.get_block("b2").unwrap().weight, 2);
    assert_eq!(dag.get_block("b3").unwrap().weight, 3);
    assert_eq!(dag.get_block("b1").unwrap().weight, 4);
}

#[test]
fn test_ghostdag_anticone_calculation() {
    // Test that anticone is correctly calculated
    // DAG structure:
    //      genesis
    //       /
    //      b1   b2  (b1 and b2 are in each other's anticone)
    //       \   /
    //        b3    (b3 is descendant of both, not in their anticone)
    let mut dag = BlockDAG::new(3);

    let b1 = Block::new("b1".to_string(), vec!["genesis".to_string()], vec![], 100);
    let b2 = Block::new("b2".to_string(), vec!["genesis".to_string()], vec![], 200);
    let b3 = Block::new(
        "b3".to_string(),
        vec!["b1".to_string(), "b2".to_string()],
        vec![],
        300,
    );

    dag.add_block(b1).unwrap();
    dag.add_block(b2).unwrap();
    dag.add_block(b3).unwrap();

    // All blocks should be blue (anticone size is small enough)
    assert_eq!(dag.get_block("b1").unwrap().color, BlockColor::Blue);
    assert_eq!(dag.get_block("b2").unwrap().color, BlockColor::Blue);
    assert_eq!(dag.get_block("b3").unwrap().color, BlockColor::Blue);

    // Verify weights:
    // 1. Genesis (1)
    // 2. b1 (ts=100) -> 2
    // 3. b2 (ts=200) -> 3
    // 4. b3 (child of b1,b2) -> 4
    assert_eq!(dag.get_block("genesis").unwrap().weight, 1);
    assert_eq!(dag.get_block("b1").unwrap().weight, 2);
    assert_eq!(dag.get_block("b2").unwrap().weight, 3);
    assert_eq!(dag.get_block("b3").unwrap().weight, 4);
}

#[test]
fn test_ghostdag_red_block_exclusion() {
    // Test that red blocks don't contribute to weight and are properly excluded
    // DAG structure:
    //      genesis
    //       /
    //      b1   b2  (with k=0, only one can be blue)
    let mut dag = BlockDAG::new(0); // k=0 means only one chain can be blue

    let b1 = Block::new("b1".to_string(), vec!["genesis".to_string()], vec![], 100);
    let b2 = Block::new("b2".to_string(), vec!["genesis".to_string()], vec![], 200);

    dag.add_block(b1).unwrap();
    dag.add_block(b2).unwrap();

    // With k=0, only one fork can be blue
    let blue_count = [dag.get_block("b1").unwrap(), dag.get_block("b2").unwrap()]
        .iter()
        .filter(|b| b.color == BlockColor::Blue)
        .count();

    assert_eq!(blue_count, 1, "Only one block should be blue with k=0");

    // Red block should have weight 0
    let red_block = if dag.get_block("b1").unwrap().color == BlockColor::Red {
        dag.get_block("b1").unwrap()
    } else {
        dag.get_block("b2").unwrap()
    };

    assert_eq!(red_block.weight, 0, "Red block should have weight 0");
}

#[test]
fn test_ghostdag_multiple_parents_ordering() {
    // Test ordering when a block has multiple parents
    // DAG structure:
    //        genesis
    //        /  |
    //      b1  b2  b3
    //        \  |  /
    //          b4    (b4 has 3 parents, higher depth)
    let mut dag = BlockDAG::new(5);

    let b1 = Block::new("b1".to_string(), vec!["genesis".to_string()], vec![], 100);
    let b2 = Block::new("b2".to_string(), vec!["genesis".to_string()], vec![], 200);
    let b3 = Block::new("b3".to_string(), vec!["genesis".to_string()], vec![], 300);

    // b4 has more parents (3 vs 1)
    let b4 = Block::new(
        "b4".to_string(),
        vec!["b1".to_string(), "b2".to_string(), "b3".to_string()],
        vec![],
        150,
    );

    dag.add_block(b1).unwrap();
    dag.add_block(b2).unwrap();
    dag.add_block(b3).unwrap();
    dag.add_block(b4).unwrap();

    // All should be blue with k=5
    assert_eq!(dag.get_block("b1").unwrap().color, BlockColor::Blue);
    assert_eq!(dag.get_block("b2").unwrap().color, BlockColor::Blue);
    assert_eq!(dag.get_block("b3").unwrap().color, BlockColor::Blue);
    assert_eq!(dag.get_block("b4").unwrap().color, BlockColor::Blue);

    // Verify weights:
    // 1. Genesis (1)
    // 2. b1 (ts=100) -> 2
    // 3. b2 (ts=200) -> 3
    // 4. b3 (ts=300) -> 4
    // 5. b4 (child of b1,b2,b3) -> 5
    assert_eq!(dag.get_block("genesis").unwrap().weight, 1);
    assert_eq!(dag.get_block("b1").unwrap().weight, 2);
    assert_eq!(dag.get_block("b2").unwrap().weight, 3);
    assert_eq!(dag.get_block("b3").unwrap().weight, 4);
    assert_eq!(dag.get_block("b4").unwrap().weight, 5);
}
