use dag_demo::blockchain::{Block, BlockColor, BlockDAG};

fn block(hash: &str, parents: &[&str], ts: u64) -> Block {
    Block::new(hash.to_string(), parents.iter().map(|p| p.to_string()).collect(), vec![], ts)
}

fn weights_of(dag: &BlockDAG) -> Vec<(String, u64)> {
    dag.get_ordered_blue_blocks().iter().map(|b| (b.hash.clone(), b.weight)).collect()
}

#[test]
fn ordered_blue_blocks_are_weighted_one_to_m() {
    let mut dag = BlockDAG::new(1);
    dag.add_block(block("a", &["genesis"], 5)).unwrap();
    dag.add_block(block("b", &["genesis"], 6)).unwrap();
    dag.add_block(block("c", &["genesis"], 7)).unwrap();
    dag.add_block(block("d", &["a", "b"], 8)).unwrap();
    let blue = dag.get_ordered_blue_blocks();
    for (k, b) in blue.iter().enumerate() {
        assert_eq!(b.weight, k as u64 + 1);
        assert_eq!(b.color, BlockColor::Blue);
    }
    assert_eq!(blue[0].hash, "genesis");
    for b in dag.get_all_blocks() {
        if b.color == BlockColor::Red {
            assert_eq!(b.weight, 0);
        }
    }
}

#[test]
fn k_zero_keeps_one_of_two_forks_blue() {
    let mut dag = BlockDAG::new(0);
    dag.add_block(block("b1", &["genesis"], 100)).unwrap();
    dag.add_block(block("b2", &["genesis"], 200)).unwrap();
    assert_eq!(dag.get_block("b1").unwrap().color, BlockColor::Blue);
    assert_eq!(dag.get_block("b1").unwrap().weight, 2);
    assert_eq!(dag.get_block("b2").unwrap().color, BlockColor::Red);
    assert_eq!(dag.get_block("b2").unwrap().weight, 0);
}

#[test]
fn order_does_not_depend_on_insertion_order() {
    let mut one = BlockDAG::new(2);
    one.add_block(block("x", &["genesis"], 3)).unwrap();
    one.add_block(block("y", &["genesis"], 1)).unwrap();
    one.add_block(block("z", &["genesis"], 2)).unwrap();
    one.add_block(block("w", &["x", "y"], 4)).unwrap();
    let mut two = BlockDAG::new(2);
    two.add_block(block("z", &["genesis"], 2)).unwrap();
    two.add_block(block("y", &["genesis"], 1)).unwrap();
    two.add_block(block("x", &["genesis"], 3)).unwrap();
    two.add_block(block("w", &["x", "y"], 4)).unwrap();
    assert_eq!(weights_of(&one), weights_of(&two));
    let expect: Vec<(String, u64)> = vec![
        ("genesis".to_string(), 1),
        ("y".to_string(), 2),
        ("z".to_string(), 3),
        ("x".to_string(), 4),
        ("w".to_string(), 5),
    ];
    assert_eq!(weights_of(&one), expect);
}

#[test]
fn equal_parents_and_timestamps_break_ties_by_greater_hash() {
    let mut dag = BlockDAG::new(5);
    dag.add_block(block("aa", &["genesis"], 10)).unwrap();
    dag.add_block(block("ab", &["genesis"], 10)).unwrap();
    dag.add_block(block("b", &["genesis"], 10)).unwrap();
    let expect: Vec<(String, u64)> = vec![
        ("genesis".to_string(), 1),
        ("b".to_string(), 2),
        ("ab".to_string(), 3),
        ("aa".to_string(), 4),
    ];
    assert_eq!(weights_of(&dag), expect);
}

#[test]
fn more_parents_come_first_among_ready_blocks() {
    let mut dag = BlockDAG::new(5);
    dag.add_block(block("p", &["genesis"], 1)).unwrap();
    dag.add_block(block("q", &["genesis", "p"], 50)).unwrap();
    dag.add_block(block("r", &["genesis"], 2)).unwrap();
    // after genesis: p and r are ready; p (ts 1) first; then q (2 parents) and r are ready: q first
    let expect: Vec<(String, u64)> = vec![
        ("genesis".to_string(), 1),
        ("p".to_string(), 2),
        ("q".to_string(), 3),
        ("r".to_string(), 4),
    ];
    assert_eq!(weights_of(&dag), expect);
}

#[test]
fn re_adding_a_hash_replaces_the_block() {
    let mut dag = BlockDAG::new(3);
    dag.add_block(block("b1", &["genesis"], 1)).unwrap();
    dag.add_block(block("b1", &["genesis"], 9)).unwrap();
    assert_eq!(dag.get_all_blocks().len(), 2);
    assert_eq!(dag.get_block("b1").unwrap().timestamp, 9);
    assert_eq!(dag.get_block("b1").unwrap().weight, 2);
}

#[test]
fn block_listing_a_parent_twice_is_never_ready() {
    // its in-degree counts the parent twice but only one child link exists
    let mut dag = BlockDAG::new(3);
    dag.add_block(block("b1", &["genesis", "genesis"], 1)).unwrap();
    assert_eq!(dag.get_block("b1").unwrap().color, BlockColor::Red);
    assert_eq!(dag.get_block("b1").unwrap().weight, 0);
    assert_eq!(dag.get_ordered_blue_blocks().len(), 1);
}

#[test]
fn genesis_is_present_blue_and_first() {
    let dag = BlockDAG::new(0);
    let g = dag.get_block("genesis").unwrap();
    assert_eq!(g.color, BlockColor::Blue);
    assert_eq!(g.weight, 1);
    assert_eq!(dag.get_all_blocks().len(), 1);
}

#[test]
fn blue_parents_come_before_their_children() {
    let mut dag = BlockDAG::new(3);
    dag.add_block(block("a", &["genesis"], 9)).unwrap();
    dag.add_block(block("b", &["genesis"], 1)).unwrap();
    dag.add_block(block("c", &["a"], 2)).unwrap();
    dag.add_block(block("d", &["b", "c"], 3)).unwrap();
    dag.add_block(block("e", &["d", "a"], 4)).unwrap();
    let blue = dag.get_ordered_blue_blocks();
    assert_eq!(blue.len(), 6);
    for (k, b) in blue.iter().enumerate() {
        for p in &b.parent_hashes {
            let parent = dag.get_block(p).unwrap();
            if parent.color == BlockColor::Blue {
                assert!(parent.weight < b.weight);
                assert!(blue[..k].iter().any(|q| &q.hash == p));
            }
        }
    }
}

fn ancestors(dag: &BlockDAG, hash: &str) -> Vec<String> {
    let mut out: Vec<String> = Vec::new();
    let mut todo: Vec<String> = dag.get_block(hash).unwrap().parent_hashes.clone();
    while let Some(h) = todo.pop() {
        if !out.contains(&h) {
            todo.extend(dag.get_block(&h).unwrap().parent_hashes.clone());
            out.push(h);
        }
    }
    out
}

#[test]
fn blue_ancestors_are_lighter_and_red_blocks_have_large_blue_anticones() {
    let mut dag = BlockDAG::new(1);
    dag.add_block(block("a", &["genesis"], 1)).unwrap();
    dag.add_block(block("b", &["genesis"], 2)).unwrap();
    dag.add_block(block("c", &["genesis"], 3)).unwrap();
    dag.add_block(block("d", &["a"], 4)).unwrap();
    dag.add_block(block("e", &["c", "d"], 5)).unwrap();
    dag.add_block(block("f", &["e", "b"], 6)).unwrap();
    let all: Vec<(String, BlockColor, u64)> =
        dag.get_all_blocks().iter().map(|b| (b.hash.clone(), b.color.clone(), b.weight)).collect();
    assert!(all.iter().any(|(_, c, _)| *c == BlockColor::Red));
    for (h, c, w) in &all {
        let anc = ancestors(&dag, h);
        if *c == BlockColor::Blue {
            for a in &anc {
                let ab = dag.get_block(a).unwrap();
                if ab.color == BlockColor::Blue {
                    assert!(ab.weight < *w);
                }
            }
        } else {
            let blue_anticone = all
                .iter()
                .filter(|(y, yc, _)| {
                    *yc == BlockColor::Blue && y != h && !anc.contains(y) && !ancestors(&dag, y).contains(h)
                })
                .count();
            assert!(blue_anticone > 1);
        }
    }
}
