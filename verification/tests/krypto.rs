use krypto_checker::api::{solve, Answer};
use krypto_checker::formula::{AssignedFormula, Formula, IndexFormula, ZeroDivisionError};
use krypto_checker::perms::{combinations, dedup_hands, permutations};
use krypto_checker::rational::Rational;
use krypto_checker::search::{compute_impossibles, find_answers};
use krypto_checker::shapes::{enumerate_formulas, get_formulas_cached, ShapeCache};
use std::collections::HashSet;

fn leaf_i(i: usize) -> Box<IndexFormula> {
    Box::new(Formula::Leaf(i))
}

fn leaf_v(v: i64) -> Box<AssignedFormula> {
    Box::new(Formula::Leaf(v))
}

fn leaves_of(t: &IndexFormula, out: &mut Vec<usize>) {
    match t {
        Formula::Leaf(i) => out.push(*i),
        Formula::Add(l, r)
        | Formula::Sub(l, r)
        | Formula::Mul(l, r)
        | Formula::Div(l, r) => {
            leaves_of(l, out);
            leaves_of(r, out);
        }
    }
}

#[test]
fn rational_arithmetic_is_exact() {
    let half = Rational::new(1, 2);
    let third = Rational::new(1, 3);
    // 1/2 + 1/3 == 5/6, unreduced cross-multiplication form.
    assert_eq!(half.add(third), Rational::new(5, 6));
    assert_eq!(half.sub(third), Rational::new(1, 6));
    assert_eq!(half.mul(third), Rational::new(1, 6));
    assert_eq!(half.div(third), Rational::new(3, 2));
}

#[test]
fn rational_equality_is_cross_multiplication() {
    assert_eq!(Rational::new(1, 2), Rational::new(2, 4));
    assert_eq!(Rational::new(-1, 2), Rational::new(1, -2));
    assert_ne!(Rational::new(1, 2), Rational::new(1, 3));
    assert_eq!(Rational::from_int(3), Rational::new(6, 2));
}

#[test]
fn rational_integer_detection() {
    assert!(Rational::new(6, 3).is_integer());
    assert_eq!(Rational::new(6, 3).to_integer(), 2);
    assert!(Rational::new(6, -3).is_integer());
    assert_eq!(Rational::new(6, -3).to_integer(), -2);
    assert!(Rational::new(-6, 3).is_integer());
    assert_eq!(Rational::new(-6, 3).to_integer(), -2);
    assert!(!Rational::new(7, 3).is_integer());
    assert!(Rational::new(0, 5).is_integer());
    assert_eq!(Rational::new(0, 5).to_integer(), 0);
}

#[test]
fn enumerate_one_slot_is_single_leaf() {
    let shapes = enumerate_formulas(&[0]);
    assert_eq!(shapes, vec![Formula::Leaf(0usize)]);
}

#[test]
fn enumerate_two_slots_gives_four_operators() {
    let shapes = enumerate_formulas(&[0, 1]);
    assert_eq!(
        shapes,
        vec![
            Formula::Add(leaf_i(0), leaf_i(1)),
            Formula::Sub(leaf_i(0), leaf_i(1)),
            Formula::Mul(leaf_i(0), leaf_i(1)),
            Formula::Div(leaf_i(0), leaf_i(1)),
        ]
    );
}

#[test]
fn shape_cache_nonempty_and_repeatable() {
    let mut cache = ShapeCache::new();
    for n in 1..=5usize {
        let first = get_formulas_cached(&mut cache, n);
        let second = get_formulas_cached(&mut cache, n);
        assert!(!first.is_empty());
        assert_eq!(first, second);
    }
    // A fresh cache computes the same shape sets.
    let mut other = ShapeCache::new();
    assert_eq!(
        get_formulas_cached(&mut cache, 3),
        get_formulas_cached(&mut other, 3)
    );
}

#[test]
fn shape_leaves_read_in_slot_order() {
    for n in 1..=4usize {
        let slots: Vec<usize> = (0..n).collect();
        for shape in enumerate_formulas(&slots) {
            let mut seen = Vec::new();
            leaves_of(&shape, &mut seen);
            assert_eq!(seen, slots);
        }
    }
}

#[test]
fn answer_search_results_compute_to_target() {
    let mut cache = ShapeCache::new();
    let cards = [1i64, 2, 3, 4];
    let mut search = find_answers(&mut cache, &cards, 10);
    let mut count = 0usize;
    while let Some(formula) = search.next_answer() {
        assert_eq!(formula.compute(), Ok(Rational::from_int(10)));
        count += 1;
        if count >= 25 {
            break;
        }
    }
    assert!(count > 0, "cards 1,2,3,4 must reach 10");
}

#[test]
fn answer_search_on_repeated_cards() {
    let mut cache = ShapeCache::new();
    let cards = [3i64, 3, 8, 8];
    let mut search = find_answers(&mut cache, &cards, 3);
    let first = search.next_answer().expect("3,3,8,8 must reach 3");
    assert_eq!(first.compute(), Ok(Rational::from_int(3)));
}

#[test]
fn unreachable_target_yields_empty_sequence() {
    let mut cache = ShapeCache::new();
    // Two ones reach only 0, 1 and 2.
    let cards = [1i64, 1];
    let mut search = find_answers(&mut cache, &cards, 5);
    assert_eq!(search.next_answer(), None);
}

#[test]
fn division_by_zero_is_skipped_not_fatal() {
    // Evaluating 5 / (5 - 5) fails with the recoverable error.
    let tree = Formula::Div(
        leaf_v(5),
        Box::new(Formula::Sub(leaf_v(5), leaf_v(5))),
    );
    assert_eq!(tree.compute(), Err(ZeroDivisionError));

    // A hand of equal cards meets Div(Leaf(0), Leaf(1)) evaluating the right
    // side to zero on some shapes, yet the search still finds answers.
    let mut cache = ShapeCache::new();
    let cards = [5i64, 5];
    let mut search = find_answers(&mut cache, &cards, 1);
    let first = search.next_answer().expect("5,5 must reach 1 via 5 / 5");
    assert_eq!(first.compute(), Ok(Rational::from_int(1)));
}

#[test]
fn apply_reports_zero_division() {
    let shape = Formula::Div(leaf_i(0), leaf_i(1));
    assert_eq!(shape.apply(&[5, 0]), Err(ZeroDivisionError));
    assert_eq!(shape.apply(&[5, 5]), Ok(Rational::new(5, 5)));
}

#[test]
fn impossibles_residue_is_unreachable() {
    let mut cache = ShapeCache::new();
    let cards = [1i64, 2, 3, 4, 5];
    let within: HashSet<i64> = (1..=20).collect();
    let residue = compute_impossibles(&mut cache, &cards, within.clone());
    assert!(residue.is_subset(&within));
    for v in 1..=20i64 {
        let mut search = find_answers(&mut cache, &cards, v);
        let found = search.next_answer();
        if residue.contains(&v) {
            assert_eq!(found, None, "residual target {v} must be unreachable");
        } else {
            let formula = found.expect("removed target must be reachable");
            assert_eq!(formula.compute(), Ok(Rational::from_int(v)));
        }
    }
}

#[test]
fn impossibles_empty_candidates_short_circuit() {
    let mut cache = ShapeCache::new();
    let cards = [1i64, 2];
    let residue = compute_impossibles(&mut cache, &cards, HashSet::new());
    assert!(residue.is_empty());
}

#[test]
fn format_is_fully_parenthesized() {
    let tree = Formula::Mul(leaf_v(2), Box::new(Formula::Add(leaf_v(3), leaf_v(4))));
    assert_eq!(tree.format(), "(2 * (3 + 4))");
    let nested = Formula::Sub(
        Box::new(Formula::Div(leaf_v(8), leaf_v(-2))),
        leaf_v(10),
    );
    assert_eq!(nested.format(), "((8 / -2) - 10)");
    assert_eq!(Formula::Leaf(7i64).format(), "7");
}

#[test]
fn permutations_walk_counts_and_dedup() {
    let all = permutations(&[2i64, 2, 3]);
    assert_eq!(all.len(), 6);
    let distinct = dedup_hands(&all);
    assert_eq!(distinct.len(), 3, "2,2,3 has exactly three distinct orderings");
    for hand in &distinct {
        let mut sorted = hand.clone();
        sorted.sort();
        assert_eq!(sorted, vec![2, 2, 3]);
    }
}

#[test]
fn combinations_pick_in_order() {
    let combs = combinations(&[1i64, 2, 3], 2);
    assert_eq!(combs, vec![vec![1, 2], vec![1, 3], vec![2, 3]]);
    let empty = combinations(&[1i64, 2], 3);
    assert!(empty.is_empty());
    assert_eq!(combinations(&[1i64, 2], 0), vec![Vec::<i64>::new()]);
}

#[test]
fn solve_truncates_to_limit() {
    let mut cache = ShapeCache::new();
    let answers = solve(&mut cache, &[1, 2, 3, 4], 10, 2);
    assert_eq!(answers.len(), 2);
    for Answer { formula, display } in answers {
        assert_eq!(formula.compute(), Ok(Rational::from_int(10)));
        assert_eq!(display, formula.format());
    }
    let none = solve(&mut cache, &[1, 1], 5, 3);
    assert!(none.is_empty());
}

#[test]
fn assign_substitutes_slots() {
    let shape = Formula::Add(leaf_i(1), leaf_i(0));
    let assigned = shape.assign(&[7, 9]);
    assert_eq!(assigned, Formula::Add(leaf_v(9), leaf_v(7)));
}

#[test]
fn duplicate_is_structural_copy() {
    let tree = Formula::Mul(leaf_v(2), Box::new(Formula::Add(leaf_v(3), leaf_v(4))));
    assert_eq!(tree.duplicate(), tree);
}

#[test]
fn permutations_exact_small_outputs() {
    assert_eq!(permutations(&[7i64]), vec![vec![7]]);
    assert_eq!(permutations(&[1i64, 2]), vec![vec![1, 2], vec![2, 1]]);
    let empty: Vec<i64> = Vec::new();
    assert_eq!(permutations(&empty), vec![Vec::<i64>::new()]);
}

#[test]
fn permutations_repeat_counts() {
    let all = permutations(&[2i64, 2, 3]);
    assert_eq!(all.len(), 6);
    for ordering in [[2i64, 2, 3], [2, 3, 2], [3, 2, 2]] {
        let count = all.iter().filter(|p| p.as_slice() == ordering).count();
        assert_eq!(count, 2, "each distinct ordering of 2,2,3 appears twice");
    }
}

#[test]
fn answer_stream_is_deterministic_and_ends() {
    let mut cache = ShapeCache::new();
    let cards = [1i64, 2, 3, 4];
    let mut first = find_answers(&mut cache, &cards, 10);
    let mut second = find_answers(&mut cache, &cards, 10);
    let mut walked = 0usize;
    loop {
        let a = first.next_answer();
        let b = second.next_answer();
        assert_eq!(a, b, "two fresh walks agree element-wise");
        if a.is_none() {
            break;
        }
        walked += 1;
        assert!(walked <= 10_000, "the stream must be finite");
    }
    assert!(walked > 0);
    // Once exhausted, the stream keeps returning None.
    assert_eq!(first.next_answer(), None);
}

#[test]
fn solve_short_result_holds_every_answer() {
    let mut cache = ShapeCache::new();
    let cards = [1i64, 2];
    // Count all answers for target 3 by walking the stream.
    let mut search = find_answers(&mut cache, &cards, 3);
    let mut total = 0usize;
    while search.next_answer().is_some() {
        total += 1;
    }
    let all = solve(&mut cache, &cards, 3, 100);
    assert!(all.len() < 100);
    assert_eq!(all.len(), total, "a result shorter than the limit is complete");
}
