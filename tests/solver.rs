use interval_solver::problem::{conflict_matrix, item_index, search_order};
use interval_solver::{solve, solve_with_depth, Assignment, Outcome, Term};
use std::time::{Duration, Instant};

fn term(id: usize, from: i64, to: i64) -> Term {
    Term { id, from, to, locked_id: None }
}

fn locked(id: usize, from: i64, to: i64, item: i32) -> Term {
    Term { id, from, to, locked_id: Some(item) }
}

fn check_feasible(items: &[i32], terms: &[Term], out: &Outcome) {
    let assignments = match out {
        Outcome::Assigned { assignments } => assignments,
        other => panic!("expected an assignment, got {:?}", other),
    };
    assert_eq!(assignments.len(), terms.len());
    for (t, a) in assignments.iter().enumerate() {
        assert_eq!(a.term_id, terms[t].id);
        assert!(items.contains(&a.item_id));
        if let Some(v) = terms[t].locked_id {
            assert_eq!(a.item_id, v);
        }
    }
    for i in 0..terms.len() {
        for j in 0..terms.len() {
            if i != j && assignments[i].item_id == assignments[j].item_id {
                let overlap = terms[i].from <= terms[j].to && terms[j].from <= terms[i].to;
                assert!(!overlap, "terms {} and {} share an item and overlap", i, j);
            }
        }
    }
}

#[test]
fn empty_items_is_conflict() {
    let out = solve(&vec![], &vec![term(1, 0, 1)], None);
    assert_eq!(
        out,
        Outcome::Conflict { message: "Set at least one item and term".to_string(), conflicts: vec![] }
    );
}

#[test]
fn empty_terms_is_conflict() {
    let out = solve(&vec![1, 2], &vec![], None);
    assert_eq!(
        out,
        Outcome::Conflict { message: "Set at least one item and term".to_string(), conflicts: vec![] }
    );
}

#[test]
fn lock_to_unknown_item() {
    let terms = vec![term(10, 0, 5), locked(11, 0, 5, 99), locked(12, 0, 5, 98)];
    let out = solve(&vec![1, 2], &terms, None);
    assert_eq!(
        out,
        Outcome::InvalidItem { message: "Term locked to unknown item: 99".to_string(), term_id: 11, item_id: 99 }
    );
}

#[test]
fn two_locked_terms_clash() {
    let terms = vec![locked(5, 0, 10, 7), term(6, 0, 1), locked(8, 10, 20, 7)];
    let out = solve(&vec![7, 3], &terms, None);
    assert_eq!(
        out,
        Outcome::Conflict { message: "Conflict in terms for item 7".to_string(), conflicts: vec![5, 8] }
    );
}

#[test]
fn clash_names_earliest_partner() {
    let terms = vec![locked(1, 0, 2, 4), locked(2, 5, 6, 4), locked(3, 0, 10, 4)];
    let out = solve(&vec![4], &terms, None);
    assert_eq!(
        out,
        Outcome::Conflict { message: "Conflict in terms for item 4".to_string(), conflicts: vec![1, 3] }
    );
}

#[test]
fn locked_on_different_items_do_not_clash() {
    let terms = vec![locked(1, 0, 10, 1), locked(2, 0, 10, 2)];
    let out = solve(&vec![1, 2], &terms, None);
    assert_eq!(
        out,
        Outcome::Assigned {
            assignments: vec![Assignment { term_id: 1, item_id: 1 }, Assignment { term_id: 2, item_id: 2 }]
        }
    );
}

#[test]
fn three_overlapping_on_one_item() {
    let terms = vec![term(100, 0, 10), term(101, 5, 15), term(102, 8, 20)];
    let out = solve(&vec![1], &terms, None);
    assert_eq!(
        out,
        Outcome::Conflict { message: "Conflict in terms".to_string(), conflicts: vec![100, 101, 102] }
    );
}

#[test]
fn conflict_lists_by_degree() {
    let terms = vec![term(1, 0, 1), term(2, 0, 10), term(3, 5, 6)];
    let out = solve(&vec![9], &terms, None);
    assert_eq!(
        out,
        Outcome::Conflict { message: "Conflict in terms".to_string(), conflicts: vec![2, 1, 3] }
    );
}

#[test]
fn touching_bounds_overlap() {
    let terms = vec![term(1, 0, 5), term(2, 5, 9)];
    let out = solve(&vec![1], &terms, None);
    assert_eq!(
        out,
        Outcome::Conflict { message: "Conflict in terms".to_string(), conflicts: vec![1, 2] }
    );
}

#[test]
fn disjoint_terms_share_one_item() {
    let terms = vec![term(1, 0, 4), term(2, 5, 9), term(3, 10, 12)];
    let out = solve(&vec![42], &terms, None);
    assert_eq!(
        out,
        Outcome::Assigned {
            assignments: vec![
                Assignment { term_id: 1, item_id: 42 },
                Assignment { term_id: 2, item_id: 42 },
                Assignment { term_id: 3, item_id: 42 },
            ]
        }
    );
}

#[test]
fn sequential_search_picks_lowest_items() {
    let terms = vec![term(1, 0, 10), term(2, 0, 10), term(3, 20, 30)];
    let out = solve_with_depth(&vec![5, 6], &terms, None, 0);
    assert_eq!(
        out,
        Outcome::Assigned {
            assignments: vec![
                Assignment { term_id: 1, item_id: 5 },
                Assignment { term_id: 2, item_id: 6 },
                Assignment { term_id: 3, item_id: 5 },
            ]
        }
    );
}

fn busy_instance() -> (Vec<i32>, Vec<Term>) {
    let items = vec![10, 20, 30, 40];
    let mut terms = Vec::new();
    for i in 0..24usize {
        let from = i as i64 * 2;
        terms.push(term(1000 + i, from, from + 6));
    }
    terms.push(locked(2000, 100, 200, 30));
    (items, terms)
}

#[test]
fn parallel_results_are_feasible() {
    let (items, terms) = busy_instance();
    for _ in 0..5 {
        let out = solve(&items, &terms, None);
        check_feasible(&items, &terms, &out);
    }
}

#[test]
fn sequential_runs_are_identical() {
    let (items, terms) = busy_instance();
    let first = solve_with_depth(&items, &terms, None, 0);
    check_feasible(&items, &terms, &first);
    for _ in 0..5 {
        assert_eq!(solve_with_depth(&items, &terms, None, 0), first);
    }
}

#[test]
fn infeasible_with_parallel_branching() {
    let items = vec![1, 2];
    let terms = vec![term(1, 0, 10), term(2, 1, 9), term(3, 2, 8), term(4, 50, 60)];
    let out = solve(&items, &terms, None);
    assert_eq!(
        out,
        Outcome::Conflict { message: "Conflict in terms".to_string(), conflicts: vec![1, 2, 3, 4] }
    );
}

#[test]
fn small_timeout_on_hard_instance() {
    let items: Vec<i32> = (1..=11).collect();
    let terms: Vec<Term> = (0..12usize).map(|i| term(i, 0, 100)).collect();
    let start = Instant::now();
    let out = solve(&items, &terms, Some(start + Duration::from_millis(50)));
    assert_eq!(out, Outcome::Timeout { message: "Scheduler timeout exceeded".to_string() });
    assert!(start.elapsed() < Duration::from_secs(5));
}

#[test]
fn past_deadline_times_out() {
    let start = Instant::now();
    let out = solve(&vec![1, 2], &vec![term(1, 0, 1), term(2, 0, 1)], Some(start));
    assert_eq!(out, Outcome::Timeout { message: "Scheduler timeout exceeded".to_string() });
}

#[test]
fn far_deadline_still_solves() {
    let terms = vec![term(1, 0, 1), term(2, 0, 1)];
    let out = solve(&vec![1, 2], &terms, Some(Instant::now() + Duration::from_secs(60)));
    check_feasible(&[1, 2], &terms, &out);
}

#[test]
fn all_locked_needs_no_search() {
    let terms = vec![locked(1, 0, 5, 3), locked(2, 6, 9, 3), locked(3, 0, 9, 4)];
    let out = solve(&vec![3, 4], &terms, None);
    assert_eq!(
        out,
        Outcome::Assigned {
            assignments: vec![
                Assignment { term_id: 1, item_id: 3 },
                Assignment { term_id: 2, item_id: 3 },
                Assignment { term_id: 3, item_id: 4 },
            ]
        }
    );
}

#[test]
fn locked_round_trip() {
    let (items, terms) = busy_instance();
    let out = solve(&items, &terms, None);
    let assignments = match &out {
        Outcome::Assigned { assignments } => assignments.clone(),
        other => panic!("expected an assignment, got {:?}", other),
    };
    let relocked: Vec<Term> = terms
        .iter()
        .zip(assignments.iter())
        .map(|(t, a)| Term { locked_id: Some(a.item_id), ..*t })
        .collect();
    let again = solve(&items, &relocked, None);
    assert_eq!(again, Outcome::Assigned { assignments });
}

#[test]
fn matrix_marks_inclusive_overlaps() {
    let terms = vec![term(1, 0, 5), term(2, 5, 7), term(3, 8, 9)];
    let m = conflict_matrix(&terms);
    assert_eq!(m, vec![vec![false, true, false], vec![true, false, false], vec![false, false, false]]);
}

#[test]
fn lookup_takes_last_position() {
    assert_eq!(item_index(&vec![4, 7, 4], 4), Some(2));
    assert_eq!(item_index(&vec![4, 7, 4], 7), Some(1));
    assert_eq!(item_index(&vec![4, 7, 4], 5), None);
}

#[test]
fn order_is_by_degree_then_index() {
    let terms = vec![term(1, 0, 1), locked(2, 0, 100, 1), term(3, 0, 10), term(4, 20, 30), term(5, 9, 25)];
    let m = conflict_matrix(&terms);
    assert_eq!(search_order(&terms, &m), vec![2, 4, 0, 3]);
}

#[test]
fn unknown_item_message_has_negative_id() {
    let out = solve(&vec![1], &vec![locked(3, 0, 1, -120)], None);
    assert_eq!(
        out,
        Outcome::InvalidItem { message: "Term locked to unknown item: -120".to_string(), term_id: 3, item_id: -120 }
    );
}

#[test]
fn clash_message_names_item() {
    let terms = vec![locked(1, 0, 5, 2147483647), locked(2, 5, 6, 2147483647)];
    let out = solve(&vec![2147483647], &terms, None);
    assert_eq!(
        out,
        Outcome::Conflict { message: "Conflict in terms for item 2147483647".to_string(), conflicts: vec![1, 2] }
    );
}

#[test]
fn sequential_result_is_first_in_search_order() {
    // Order: term 1 (degree 2), then terms 0 and 2; items tried in ascending index.
    let terms = vec![term(1, 0, 3), term(2, 2, 8), term(3, 7, 9)];
    let out = solve_with_depth(&vec![30, 20, 10], &terms, None, 0);
    assert_eq!(
        out,
        Outcome::Assigned {
            assignments: vec![
                Assignment { term_id: 1, item_id: 20 },
                Assignment { term_id: 2, item_id: 30 },
                Assignment { term_id: 3, item_id: 20 },
            ]
        }
    );
}

#[test]
fn no_deadline_never_times_out() {
    let items: Vec<i32> = (1..=3).collect();
    let terms: Vec<Term> = (0..4usize).map(|i| term(i, 0, 10)).collect();
    let out = solve(&items, &terms, None);
    assert_eq!(
        out,
        Outcome::Conflict { message: "Conflict in terms".to_string(), conflicts: vec![0, 1, 2, 3] }
    );
}
