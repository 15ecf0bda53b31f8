//! Interning, evaluation, rendering and whole searches.
use make_up_number::evaluate;
use make_up_number::BigInt;
use make_up_number::ExpressionAction;
use make_up_number::ExpressionCache;
use make_up_number::ExpressionNode;
use make_up_number::ExpressionPool;
use make_up_number::StopReason;

fn big(n: usize) -> BigInt {
    BigInt::from_usize(n)
}

#[test]
fn interning_is_idempotent() {
    let mut cache = ExpressionCache::new();
    cache.task(vec![1, 2, 3], vec![ExpressionAction::Plus, ExpressionAction::Minus]);
    let first = cache.sequence();
    let interned = cache.pool.nodes.len();
    let second = cache.sequence();
    assert_eq!(first, second);
    assert_eq!(cache.pool.nodes.len(), interned);
}

#[test]
fn interning_survives_evaluation() {
    let mut cache = ExpressionCache::new();
    cache.task(vec![2, 3], vec![ExpressionAction::Times]);
    let ids = cache.sequence();
    assert_eq!(ids.len(), 1);
    assert_eq!(cache.run_expression(ids[0]), Ok(big(6)));
    let again = cache.sequence();
    assert_eq!(ids, again);
    assert_eq!(cache.run_expression(ids[0]), Ok(big(6)));
}

#[test]
fn interning_collapses_identical_subexpressions() {
    let mut pool = ExpressionPool::new();
    let one = pool.insert_atomic(1);
    let two = pool.insert_atomic(2);
    let half_a = pool.insert_binary(ExpressionAction::Divide, one, two);
    let half_b = pool.insert_binary(ExpressionAction::Divide, one, two);
    assert_eq!(half_a, half_b);
    let one_again = pool.insert_atomic(1);
    assert_eq!(one, one_again);
    let sum = pool.insert_binary(ExpressionAction::Plus, half_a, half_b);
    assert_eq!(evaluate(sum, &mut pool), Ok(big(1)));
}

#[test]
fn evaluation_is_deterministic() {
    let mut pool = ExpressionPool::new();
    let a = pool.insert_atomic(7);
    let b = pool.insert_atomic(5);
    let diff = pool.insert_binary(ExpressionAction::Minus, a, b);
    let first = evaluate(diff, &mut pool);
    let second = evaluate(diff, &mut pool);
    assert_eq!(first, Ok(big(2)));
    assert_eq!(first, second);
}

#[test]
fn divide_by_zero_is_reported_even_nested() {
    let mut pool = ExpressionPool::new();
    let one = pool.insert_atomic(1);
    let two = pool.insert_atomic(2);
    let zero = pool.insert_binary(ExpressionAction::Minus, two, two);
    let ratio = pool.insert_binary(ExpressionAction::Divide, one, zero);
    let outer = pool.insert_binary(ExpressionAction::Plus, one, ratio);
    assert_eq!(evaluate(outer, &mut pool), Err(StopReason::DividedByZero));
    assert_eq!(evaluate(ratio, &mut pool), Err(StopReason::DividedByZero));
}

#[test]
fn concat_of_two_atoms_succeeds() {
    let mut pool = ExpressionPool::new();
    let one = pool.insert_atomic(1);
    let two = pool.insert_atomic(2);
    let joined = pool.insert_binary(ExpressionAction::Concat, one, two);
    assert_eq!(evaluate(joined, &mut pool), Ok(big(12)));
}

#[test]
fn concat_rejects_arithmetic_beneath() {
    let mut pool = ExpressionPool::new();
    let one = pool.insert_atomic(1);
    let two = pool.insert_atomic(2);
    let sum = pool.insert_binary(ExpressionAction::Plus, one, two);
    let bad = pool.insert_binary(ExpressionAction::Concat, sum, one);
    assert_eq!(evaluate(bad, &mut pool), Err(StopReason::NonAtomicConcat));
    let also_bad = pool.insert_binary(ExpressionAction::Concat, one, sum);
    assert_eq!(evaluate(also_bad, &mut pool), Err(StopReason::NonAtomicConcat));
}

#[test]
fn concat_is_ten_times_left_plus_right() {
    let mut pool = ExpressionPool::new();
    let one = pool.insert_atomic(1);
    let two = pool.insert_atomic(2);
    let three = pool.insert_atomic(3);
    let left_leaning = {
        let twelve = pool.insert_binary(ExpressionAction::Concat, one, two);
        pool.insert_binary(ExpressionAction::Concat, twelve, three)
    };
    assert_eq!(evaluate(left_leaning, &mut pool), Ok(big(123)));
    let right_leaning = {
        let twenty_three = pool.insert_binary(ExpressionAction::Concat, two, three);
        pool.insert_binary(ExpressionAction::Concat, one, twenty_three)
    };
    assert_eq!(evaluate(right_leaning, &mut pool), Ok(big(33)));
}

#[test]
fn simple_search_one_plus_two() {
    let mut cache = ExpressionCache::new();
    cache.task(vec![1, 2], vec![ExpressionAction::Plus]);
    let ids = cache.sequence();
    assert_eq!(ids.len(), 1);
    assert_eq!(cache.run_expression(ids[0]), Ok(big(3)));
    assert_eq!(cache.get_display(ids[0]), "1 + 2");
}

#[test]
fn search_reports_only_target_values() {
    let atoms = vec![1, 1, 4, 5, 1, 4];
    let alphabet = vec![
        ExpressionAction::Concat,
        ExpressionAction::Plus,
        ExpressionAction::Minus,
    ];
    let mut cache = ExpressionCache::new();
    cache.task(atoms.clone(), alphabet.clone());
    let ids = cache.sequence();
    // 42 shapes over six atoms, 3^5 operator assignments each
    assert_eq!(ids.len(), 42 * 243);
    let ten = big(10);
    let mut matches: Vec<usize> = Vec::new();
    for (k, id) in ids.iter().enumerate() {
        if cache.run_expression(*id) == Ok(big(10)) {
            matches.push(k);
        }
    }
    // independent recomputation in a fresh session must agree
    let mut fresh = ExpressionCache::new();
    fresh.task(atoms, alphabet);
    let fresh_ids = fresh.sequence();
    assert_eq!(fresh_ids.len(), ids.len());
    for k in &matches {
        assert_eq!(fresh.run_expression(fresh_ids[*k]), Ok(ten.clone()));
    }
    // the exhaustive run finds no combination of these atoms and
    // operators equal to ten, so the expected match set is empty
    assert!(matches.is_empty());
}

#[test]
fn search_finds_double_digit_concatenations() {
    let mut cache = ExpressionCache::new();
    cache.task(
        vec![1, 1, 4, 5, 1, 4],
        vec![
            ExpressionAction::Concat,
            ExpressionAction::Plus,
            ExpressionAction::Minus,
        ],
    );
    let ids = cache.sequence();
    let mut found_eleven = false;
    for id in &ids {
        if cache.run_expression(*id) == Ok(big(7)) {
            let text = cache.get_display(*id);
            if text.contains("11") {
                found_eleven = true;
            }
            // re-evaluating the reported combination gives 7 again
            assert_eq!(cache.run_expression(*id), Ok(big(7)));
        }
    }
    assert!(found_eleven);
}

#[test]
fn non_integer_final_value_is_rejected() {
    let mut cache = ExpressionCache::new();
    cache.task(vec![1, 2], vec![ExpressionAction::Divide]);
    let ids = cache.sequence();
    assert_eq!(ids.len(), 1);
    assert_eq!(cache.run_expression(ids[0]), Err(StopReason::NotInteger));
}

#[test]
fn intermediate_fractions_are_allowed() {
    let mut pool = ExpressionPool::new();
    let one = pool.insert_atomic(1);
    let two = pool.insert_atomic(2);
    let half = pool.insert_binary(ExpressionAction::Divide, one, two);
    let sum = pool.insert_binary(ExpressionAction::Plus, half, half);
    assert_eq!(evaluate(sum, &mut pool), Ok(big(1)));
    // the same half queried as a final answer is not an integer
    assert_eq!(evaluate(half, &mut pool), Err(StopReason::NotInteger));
}

#[test]
fn unknown_identifier_is_not_found() {
    let mut cache = ExpressionCache::new();
    assert_eq!(cache.get_expression(17), Err(StopReason::NotFound));
    assert_eq!(cache.run_expression(17), Err(StopReason::NotFound));
    assert_eq!(cache.get_display(17), "");
}

#[test]
fn negative_results_are_exact() {
    let mut cache = ExpressionCache::new();
    cache.task(vec![2, 5], vec![ExpressionAction::Minus]);
    let ids = cache.sequence();
    assert_eq!(cache.run_expression(ids[0]), Ok(big(3).neg()));
}

#[test]
fn division_by_zero_through_search() {
    let mut cache = ExpressionCache::new();
    cache.task(vec![8, 0], vec![ExpressionAction::Divide]);
    let ids = cache.sequence();
    assert_eq!(cache.run_expression(ids[0]), Err(StopReason::DividedByZero));
}

#[test]
fn exact_division_succeeds() {
    let mut cache = ExpressionCache::new();
    cache.task(vec![8, 2], vec![ExpressionAction::Divide]);
    let ids = cache.sequence();
    assert_eq!(cache.run_expression(ids[0]), Ok(big(4)));
}

#[test]
fn large_products_are_exact() {
    let mut pool = ExpressionPool::new();
    let a = pool.insert_atomic(999999999);
    let square = pool.insert_binary(ExpressionAction::Times, a, a);
    assert_eq!(evaluate(square, &mut pool), Ok(big(999999998000000001)));
    let fourth = pool.insert_binary(ExpressionAction::Times, square, square);
    let expected = big(999999998000000001).mul(&big(999999998000000001));
    assert_eq!(evaluate(fourth, &mut pool), Ok(expected));
}

#[test]
fn multiplication_formula_check() {
    let mut pool = ExpressionPool::new();
    let a = pool.insert_atomic(12345);
    let b = pool.insert_atomic(6789);
    let product = pool.insert_binary(ExpressionAction::Times, a, b);
    assert_eq!(evaluate(product, &mut pool), Ok(big(83810205)));
}

#[test]
fn renderer_brackets_by_priority() {
    let mut pool = ExpressionPool::new();
    let one = pool.insert_atomic(1);
    let two = pool.insert_atomic(2);
    let three = pool.insert_atomic(3);
    let sum = pool.insert_binary(ExpressionAction::Plus, one, two);
    let product = pool.insert_binary(ExpressionAction::Times, sum, three);
    let mut text = String::new();
    assert!(pool.rewrite(&product, &mut text).is_ok());
    assert_eq!(text, "(1 + 2) * 3");
}

#[test]
fn renderer_brackets_equal_priority_chains() {
    let mut pool = ExpressionPool::new();
    let one = pool.insert_atomic(1);
    let two = pool.insert_atomic(2);
    let three = pool.insert_atomic(3);
    let left = {
        let d = pool.insert_binary(ExpressionAction::Minus, one, two);
        pool.insert_binary(ExpressionAction::Minus, d, three)
    };
    let right = {
        let d = pool.insert_binary(ExpressionAction::Minus, two, three);
        pool.insert_binary(ExpressionAction::Minus, one, d)
    };
    let mut left_text = String::new();
    assert!(pool.rewrite(&left, &mut left_text).is_ok());
    assert_eq!(left_text, "(1 - 2) - 3");
    let mut right_text = String::new();
    assert!(pool.rewrite(&right, &mut right_text).is_ok());
    assert_eq!(right_text, "1 - (2 - 3)");
}

#[test]
fn renderer_prints_concatenation_without_separator() {
    let mut pool = ExpressionPool::new();
    let one = pool.insert_atomic(1);
    let two = pool.insert_atomic(2);
    let joined = pool.insert_binary(ExpressionAction::Concat, one, two);
    let mut text = String::new();
    assert!(pool.rewrite(&joined, &mut text).is_ok());
    assert_eq!(text, "12");
}

#[test]
fn renderer_prints_multi_digit_atoms() {
    let mut pool = ExpressionPool::new();
    let id = pool.insert_atomic(305);
    let mut text = String::new();
    assert!(pool.rewrite(&id, &mut text).is_ok());
    assert_eq!(text, "305");
    let zero = pool.insert_atomic(0);
    let mut zero_text = String::new();
    assert!(pool.rewrite(&zero, &mut zero_text).is_ok());
    assert_eq!(zero_text, "0");
}

#[test]
fn rendered_value_agrees_with_evaluation() {
    // the renderer and the evaluator describe the same expression: for a
    // combination like (1 + 2) * 3 the printed text matches the shape the
    // value was computed from
    let mut pool = ExpressionPool::new();
    let one = pool.insert_atomic(1);
    let two = pool.insert_atomic(2);
    let three = pool.insert_atomic(3);
    let sum = pool.insert_binary(ExpressionAction::Plus, one, two);
    let product = pool.insert_binary(ExpressionAction::Times, sum, three);
    assert_eq!(evaluate(product, &mut pool), Ok(big(9)));
    let mut text = String::new();
    assert!(pool.rewrite(&product, &mut text).is_ok());
    assert_eq!(text, "(1 + 2) * 3");
}

#[test]
fn node_queries_describe_interned_structure() {
    let mut cache = ExpressionCache::new();
    let one = cache.add_expression(ExpressionNode::Atomic { number: 1 });
    let two = cache.add_expression(ExpressionNode::Atomic { number: 2 });
    let sum = cache.add_expression(ExpressionNode::Binary {
        action: ExpressionAction::Plus,
        lhs: one,
        rhs: two,
    });
    assert_eq!(
        cache.get_expression(one),
        Ok(ExpressionNode::Atomic { number: 1 })
    );
    assert_eq!(
        cache.get_expression(sum),
        Ok(ExpressionNode::Binary { action: ExpressionAction::Plus, lhs: one, rhs: two })
    );
    assert!(cache.get_expression(one).unwrap().is_atomic());
    assert!(!cache.get_expression(sum).unwrap().is_atomic());
}

#[test]
fn priorities_order_operators() {
    let atom = ExpressionNode::Atomic { number: 3 };
    let plus = ExpressionNode::Binary { action: ExpressionAction::Plus, lhs: 0, rhs: 1 };
    let minus = ExpressionNode::Binary { action: ExpressionAction::Minus, lhs: 0, rhs: 1 };
    let times = ExpressionNode::Binary { action: ExpressionAction::Times, lhs: 0, rhs: 1 };
    let divide = ExpressionNode::Binary { action: ExpressionAction::Divide, lhs: 0, rhs: 1 };
    let concat = ExpressionNode::Binary { action: ExpressionAction::Concat, lhs: 0, rhs: 1 };
    assert_eq!(atom.get_priority(), 1000);
    assert_eq!(concat.get_priority(), 900);
    assert_eq!(times.get_priority(), 800);
    assert_eq!(divide.get_priority(), 800);
    assert_eq!(plus.get_priority(), 700);
    assert_eq!(minus.get_priority(), 700);
}

#[test]
fn literal_chain_detection() {
    let mut pool = ExpressionPool::new();
    let one = pool.insert_atomic(1);
    let two = pool.insert_atomic(2);
    let joined = pool.insert_binary(ExpressionAction::Concat, one, two);
    let sum = pool.insert_binary(ExpressionAction::Plus, one, two);
    let atom_node = pool.get_expression(&one).unwrap();
    let joined_node = pool.get_expression(&joined).unwrap();
    let sum_node = pool.get_expression(&sum).unwrap();
    assert!(atom_node.is_atomic_concat(&pool));
    assert!(joined_node.is_atomic_concat(&pool));
    assert!(!sum_node.is_atomic_concat(&pool));
}

#[test]
fn decimal_rendering_of_results() {
    assert_eq!(big(0).to_decimal(), "0");
    assert_eq!(big(305).to_decimal(), "305");
    assert_eq!(big(7).neg().to_decimal(), "-7");
    assert_eq!(big(1000000).to_decimal(), "1000000");
    let huge = big(999999999999999999).mul(&big(999999999999999999));
    assert_eq!(
        huge.to_decimal(),
        "999999999999999998000000000000000001"
    );
}
