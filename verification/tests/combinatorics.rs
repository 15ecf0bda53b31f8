//! Shape enumeration and operator assignment behaviour.
use make_up_number::Arrangement;
use make_up_number::ExpressionAction;
use make_up_number::FullBinaryTrees;

#[test]
fn shape_counts_follow_catalan() {
    let mut trees = FullBinaryTrees::new();
    trees.build_trees(6);
    assert_eq!(trees.inquire(1).len(), 1);
    assert_eq!(trees.inquire(2).len(), 1);
    assert_eq!(trees.inquire(3).len(), 2);
    assert_eq!(trees.inquire(4).len(), 5);
    assert_eq!(trees.inquire(5).len(), 14);
    assert_eq!(trees.inquire(6).len(), 42);
}

#[test]
fn shapes_have_expected_leaf_and_node_counts() {
    let mut trees = FullBinaryTrees::new();
    trees.build_trees(5);
    for n in 1..6usize {
        for shape in trees.inquire(n) {
            assert_eq!(shape.leaf_count(), n);
            assert_eq!(shape.internal_count(), n - 1);
        }
    }
}

#[test]
fn shapes_are_pairwise_distinct() {
    let mut trees = FullBinaryTrees::new();
    trees.build_trees(5);
    let level = trees.inquire(5);
    let mut printed: Vec<String> = Vec::new();
    for shape in level {
        printed.push(format!("{:?}", shape));
    }
    for i in 0..printed.len() {
        for j in 0..printed.len() {
            if i != j {
                assert_ne!(printed[i], printed[j]);
            }
        }
    }
}

#[test]
fn shape_cache_is_reused() {
    let mut trees = FullBinaryTrees::new();
    trees.build_trees(4);
    let before = trees.cache.len();
    trees.build_trees(4);
    assert_eq!(trees.cache.len(), before);
    trees.build_trees(2);
    assert_eq!(trees.cache.len(), before);
}

#[test]
fn arrangement_counts_all_tuples() {
    let mut arr = Arrangement::new(vec![ExpressionAction::Plus, ExpressionAction::Minus])
        .with_slots(3);
    let mut seen: Vec<Vec<ExpressionAction>> = Vec::new();
    while let Some(t) = arr.next() {
        seen.push(t);
    }
    assert_eq!(seen.len(), 8);
    for i in 0..seen.len() {
        for j in 0..seen.len() {
            if i != j {
                assert_ne!(seen[i], seen[j]);
            }
        }
    }
}

#[test]
fn arrangement_decodes_mixed_radix_order() {
    let mut arr = Arrangement::new(vec![ExpressionAction::Plus, ExpressionAction::Minus])
        .with_slots(2);
    assert_eq!(
        arr.next(),
        Some(vec![ExpressionAction::Plus, ExpressionAction::Plus])
    );
    assert_eq!(
        arr.next(),
        Some(vec![ExpressionAction::Minus, ExpressionAction::Plus])
    );
    assert_eq!(
        arr.next(),
        Some(vec![ExpressionAction::Plus, ExpressionAction::Minus])
    );
    assert_eq!(
        arr.next(),
        Some(vec![ExpressionAction::Minus, ExpressionAction::Minus])
    );
    assert_eq!(arr.next(), None);
    assert_eq!(arr.next(), None);
}

#[test]
fn arrangement_removes_duplicate_operators() {
    let arr = Arrangement::new(vec![
        ExpressionAction::Plus,
        ExpressionAction::Plus,
        ExpressionAction::Minus,
        ExpressionAction::Plus,
    ]);
    assert_eq!(arr.length, 2);
    assert_eq!(
        arr.operators,
        vec![ExpressionAction::Plus, ExpressionAction::Minus]
    );
}

#[test]
fn arrangement_with_order_skips_ahead() {
    let mut arr = Arrangement::new(vec![ExpressionAction::Plus, ExpressionAction::Minus])
        .with_slots(2)
        .with_order(3);
    assert_eq!(
        arr.next(),
        Some(vec![ExpressionAction::Minus, ExpressionAction::Minus])
    );
    assert_eq!(arr.next(), None);
}

#[test]
fn arrangement_default_slot_count_is_alphabet_size() {
    let mut arr = Arrangement::new(vec![ExpressionAction::Plus, ExpressionAction::Minus]);
    let mut count = 0usize;
    while let Some(t) = arr.next() {
        assert_eq!(t.len(), 2);
        count += 1;
    }
    assert_eq!(count, 4);
}
