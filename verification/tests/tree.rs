use huffman::funcs::{generate_table, generate_tree};
use huffman::types::{Bit, HuffmanTree};

fn leaf_of(tree: &HuffmanTree<char>) -> (u64, char) {
    match tree {
        HuffmanTree::Leaf { p, symbol } => (*p, *symbol),
        HuffmanTree::Node { .. } => panic!("a leaf was expected"),
    }
}

/// Sum of weight times depth over all leaves.
fn cost(tree: &HuffmanTree<char>, depth: u64) -> u64 {
    match tree {
        HuffmanTree::Leaf { p, .. } => p * depth,
        HuffmanTree::Node { left, right, .. } => cost(left, depth + 1) + cost(right, depth + 1),
    }
}

fn sums_hold(tree: &HuffmanTree<char>) -> bool {
    match tree {
        HuffmanTree::Leaf { .. } => true,
        HuffmanTree::Node { p, left, right } => {
            *p == left.prob() + right.prob() && sums_hold(left) && sums_hold(right)
        }
    }
}

fn leaves(tree: &HuffmanTree<char>, out: &mut Vec<(char, u64)>) {
    match tree {
        HuffmanTree::Leaf { p, symbol } => out.push((*symbol, *p)),
        HuffmanTree::Node { left, right, .. } => {
            leaves(left, out);
            leaves(right, out);
        }
    }
}

fn lighter_left(tree: &HuffmanTree<char>) -> bool {
    match tree {
        HuffmanTree::Leaf { .. } => true,
        HuffmanTree::Node { left, right, .. } => {
            left.prob() <= right.prob() && lighter_left(left) && lighter_left(right)
        }
    }
}

/// The least cost of any tree over the weights: every tree arises from some
/// order of merging two of the weights.
fn least_cost(weights: &[u64]) -> u64 {
    if weights.len() <= 1 {
        return 0;
    }
    let mut best = u64::MAX;
    for i in 0..weights.len() {
        for j in (i + 1)..weights.len() {
            let mut rest: Vec<u64> = Vec::new();
            for (k, w) in weights.iter().enumerate() {
                if k != i && k != j {
                    rest.push(*w);
                }
            }
            let sum = weights[i] + weights[j];
            rest.push(sum);
            best = best.min(sum + least_cost(&rest));
        }
    }
    best
}

#[test]
fn no_tree_costs_less() {
    let lists: Vec<Vec<u64>> = vec![
        vec![4, 3, 2, 1],
        vec![1, 1, 1, 1, 1],
        vec![5, 9, 12, 13, 16, 45],
        vec![1, 2, 4, 8, 16, 32],
        vec![7, 7, 7, 1, 1, 20],
        vec![0, 0, 3, 3, 100],
        vec![10, 10],
        vec![3],
    ];
    for weights in lists {
        let symbols = ['a', 'b', 'c', 'd', 'e', 'f'];
        let dist: Vec<(char, u64)> =
            weights.iter().enumerate().map(|(i, w)| (symbols[i], *w)).collect();
        let tree = generate_tree(dist);
        assert_eq!(cost(&tree, 0), least_cost(&weights));
        assert!(sums_hold(&tree));
        assert!(lighter_left(&tree));
    }
}

#[test]
fn constructors_and_getters() {
    let a = HuffmanTree::new_leaf(3, 'a');
    assert_eq!(a.prob(), 3);
    assert!(a.left().is_none());
    assert!(a.right().is_none());
    let b = HuffmanTree::new_leaf(5, 'b');
    let node = HuffmanTree::new_node(8, a, b);
    assert_eq!(node.prob(), 8);
    assert_eq!(leaf_of(node.left().unwrap()), (3, 'a'));
    assert_eq!(leaf_of(node.right().unwrap()), (5, 'b'));
}

#[test]
fn tree_of_four_symbols() {
    let tree = generate_tree(vec![('a', 4), ('b', 3), ('c', 2), ('d', 1)]);
    assert_eq!(tree.prob(), 10);
    assert_eq!(leaf_of(tree.left().unwrap()), (4, 'a'));
    let rest = tree.right().unwrap();
    assert_eq!(rest.prob(), 6);
    assert_eq!(leaf_of(rest.left().unwrap()), (3, 'b'));
    let deep = rest.right().unwrap();
    assert_eq!(deep.prob(), 3);
    assert_eq!(leaf_of(deep.left().unwrap()), (1, 'd'));
    assert_eq!(leaf_of(deep.right().unwrap()), (2, 'c'));
    assert_eq!(cost(&tree, 0), 19);
}

#[test]
fn the_order_of_the_input_does_not_change_the_cost() {
    let tree = generate_tree(vec![('d', 1), ('b', 3), ('a', 4), ('c', 2)]);
    assert_eq!(tree.prob(), 10);
    assert_eq!(cost(&tree, 0), 19);
    assert!(sums_hold(&tree));
}

#[test]
fn tree_of_one_symbol_is_a_leaf() {
    let tree = generate_tree(vec![('a', 4)]);
    assert_eq!(leaf_of(&tree), (4, 'a'));
}

#[test]
fn tree_of_two_equal_symbols() {
    let tree = generate_tree(vec![('a', 1), ('b', 1)]);
    assert_eq!(tree.prob(), 2);
    assert_eq!(leaf_of(tree.left().unwrap()), (1, 'b'));
    assert_eq!(leaf_of(tree.right().unwrap()), (1, 'a'));
}

#[test]
fn a_merged_tree_stands_before_trees_of_equal_weight() {
    // 1 + 1 = 2 is merged after the two leaves of weight 2.
    let tree = generate_tree(vec![('a', 2), ('b', 2), ('c', 1), ('d', 1)]);
    assert_eq!(tree.prob(), 6);
    assert_eq!(cost(&tree, 0), 12);
    let left = tree.left().unwrap();
    let right = tree.right().unwrap();
    assert_eq!(left.prob(), 2);
    assert_eq!(leaf_of(left.left().unwrap()), (1, 'd'));
    assert_eq!(leaf_of(left.right().unwrap()), (1, 'c'));
    assert_eq!(right.prob(), 4);
    assert_eq!(leaf_of(right.left().unwrap()), (2, 'b'));
    assert_eq!(leaf_of(right.right().unwrap()), (2, 'a'));
}

#[test]
fn node_weights_are_sums_and_leaves_are_kept() {
    let dist = vec![('a', 5), ('b', 9), ('c', 12), ('d', 13), ('e', 16), ('f', 45)];
    let tree = generate_tree(dist.clone());
    assert!(sums_hold(&tree));
    assert_eq!(tree.prob(), 100);
    let mut found = Vec::new();
    leaves(&tree, &mut found);
    found.sort();
    assert_eq!(found, dist);
    assert_eq!(cost(&tree, 0), 224);
}

#[test]
fn zero_weights_are_accepted() {
    let tree = generate_tree(vec![('a', 0), ('b', 0), ('c', 7)]);
    assert_eq!(tree.prob(), 7);
    assert!(sums_hold(&tree));
    assert_eq!(cost(&tree, 0), 7);
}

#[test]
fn table_of_four_symbols() {
    let tree = generate_tree(vec![('a', 4), ('b', 3), ('c', 2), ('d', 1)]);
    let table = generate_table(&tree);
    assert_eq!(table.len(), 4);
    assert_eq!(table[&'a'], vec![Bit::L]);
    assert_eq!(table[&'b'], vec![Bit::R, Bit::L]);
    assert_eq!(table[&'d'], vec![Bit::R, Bit::R, Bit::L]);
    assert_eq!(table[&'c'], vec![Bit::R, Bit::R, Bit::R]);
}

#[test]
fn table_of_a_lone_leaf_has_the_empty_code() {
    let tree = HuffmanTree::new_leaf(4, 'a');
    let table = generate_table(&tree);
    assert_eq!(table.len(), 1);
    assert_eq!(table[&'a'], Vec::<Bit>::new());
}

#[test]
fn table_keeps_the_rightmost_leaf_of_a_repeated_symbol() {
    let left = HuffmanTree::new_leaf(1, 'x');
    let right = HuffmanTree::new_node(
        2,
        HuffmanTree::new_leaf(1, 'x'),
        HuffmanTree::new_leaf(1, 'y'),
    );
    let tree = HuffmanTree::new_node(3, left, right);
    let table = generate_table(&tree);
    assert_eq!(table.len(), 2);
    assert_eq!(table[&'x'], vec![Bit::R, Bit::L]);
    assert_eq!(table[&'y'], vec![Bit::R, Bit::R]);
}

#[test]
fn codes_are_prefix_free() {
    let dist = vec![('a', 5), ('b', 9), ('c', 12), ('d', 13), ('e', 16), ('f', 45)];
    let tree = generate_tree(dist.clone());
    let table = generate_table(&tree);
    assert_eq!(table.len(), dist.len());
    for (x, _) in dist.iter() {
        for (y, _) in dist.iter() {
            if x != y {
                assert!(!table[y].starts_with(&table[x]));
            }
        }
    }
}
