use alt_dedup::NewDedup;
use std::rc::Rc;

fn deduped(v: &[i32]) -> Vec<i32> {
    let mut w = v.to_vec();
    w.new_dedup();
    w
}

#[test]
fn dedup_twice_equals_once() {
    let inputs: Vec<Vec<i32>> = vec![
        vec![],
        vec![5],
        vec![1, 1, 1, 1],
        vec![3, 1, 1, 3, 3, 2, 2, 2, 1],
        vec![7, 8, 7, 8, 7],
    ];
    for input in inputs {
        let once = deduped(&input);
        let twice = deduped(&once);
        assert_eq!(once, twice);
    }
}

#[test]
fn output_length_is_the_number_of_runs() {
    let input = vec![4, 4, 9, 9, 9, 4, 1, 1, 2];
    let out = deduped(&input);
    assert_eq!(out.len(), 5);
    assert!(out.len() <= input.len());
    assert_eq!(out, vec![4, 9, 4, 1, 2]);
}

#[test]
fn survivors_are_run_heads_in_order() {
    // Pairs compare by their first field only; the first of each run survives.
    let mut v = vec![(1, 'a'), (1, 'b'), (2, 'c'), (2, 'd'), (1, 'e'), (3, 'f'), (3, 'g')];
    v.new_dedup_by(|a, b| a.0 == b.0);
    assert_eq!(v, vec![(1, 'a'), (2, 'c'), (1, 'e'), (3, 'f')]);
}

#[test]
fn all_equal_leaves_one() {
    let mut v = vec![9; 1000];
    v.new_dedup();
    assert_eq!(v, vec![9]);
}

#[test]
fn all_distinct_is_unchanged() {
    let mut v: Vec<i32> = (0..1000).collect();
    v.new_dedup();
    assert_eq!(v, (0..1000).collect::<Vec<i32>>());
}

#[test]
fn merge_sums_each_run_in_order() {
    let mut v = vec![("a".to_string(), 1), ("a".to_string(), 10), ("a".to_string(), 100), ("b".to_string(), 7), ("a".to_string(), 2)];
    v.new_dedup_by(|a, b| {
        if a.0 == b.0 {
            b.1 += a.1;
            true
        } else {
            false
        }
    });
    assert_eq!(v, vec![("a".to_string(), 111), ("b".to_string(), 7), ("a".to_string(), 2)]);
}

#[test]
fn comparison_is_with_last_retained_element() {
    // "Within 1 of the retained element": 1 is kept, 2 is dropped (close to 1),
    // 3 is kept (compared with 1, not with the dropped 2).
    let mut v: Vec<i32> = vec![1, 2, 3, 4, 5];
    v.new_dedup_by(|a, b| (*a - *b).abs() <= 1);
    assert_eq!(v, vec![1, 3, 5]);
}

#[test]
fn predicate_sees_later_element_first() {
    let mut seen: Vec<(i32, i32)> = Vec::new();
    let mut v = vec![1, 1, 2];
    v.new_dedup_by(|a, b| {
        seen.push((*a, *b));
        a == b
    });
    assert_eq!(v, vec![1, 2]);
    assert_eq!(seen, vec![(1, 1), (2, 1)]);
}

#[test]
fn key_function_may_change_elements() {
    // The key function marks every element it sees; kept elements show the mark.
    let mut v = vec![(1, 0), (1, 0), (2, 0)];
    v.new_dedup_by_key(|e| {
        e.1 += 1;
        e.0
    });
    assert_eq!(v, vec![(1, 2), (2, 1)]);
}

#[test]
fn no_element_is_leaked_or_dropped_twice() {
    let a = Rc::new(1);
    let b = Rc::new(2);
    let mut v = vec![a.clone(), a.clone(), b.clone(), b.clone(), b.clone(), a.clone()];
    assert_eq!(Rc::strong_count(&a), 4);
    assert_eq!(Rc::strong_count(&b), 4);
    v.new_dedup();
    assert_eq!(v.len(), 3);
    assert_eq!(Rc::strong_count(&a), 3);
    assert_eq!(Rc::strong_count(&b), 2);
    drop(v);
    assert_eq!(Rc::strong_count(&a), 1);
    assert_eq!(Rc::strong_count(&b), 1);
}

#[test]
fn scenario_empty_and_single() {
    assert_eq!(deduped(&[]), Vec::<i32>::new());
    assert_eq!(deduped(&[1]), vec![1]);
}

#[test]
fn scenario_adjacent_pairs() {
    assert_eq!(deduped(&[1, 1, 2, 3]), vec![1, 2, 3]);
    assert_eq!(deduped(&[1, 2, 2, 3, 3]), vec![1, 2, 3]);
}
