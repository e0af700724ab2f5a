use course_planner::classes::Class;
use course_planner::credits::CreditMap;
use course_planner::engine::{solve_all, Solution};
use course_planner::selector::{get_first_subject, get_next_subject};
use course_planner::slots::Slot;
use course_planner::timesheet::Timesheet;

fn slot(weekday: u8, start: u16, finish: u16) -> Slot {
    Slot { weekday, start, finish }
}

fn sheet(entries: Vec<(&str, Vec<Class>)>) -> Timesheet {
    Timesheet { table: entries.into_iter().map(|(k, v)| (k.to_string(), v)).collect() }
}

fn credits(entries: Vec<(&str, u8)>) -> CreditMap {
    CreditMap { table: entries.into_iter().map(|(k, v)| (k.to_string(), v)).collect() }
}

fn codes_of(s: &Solution) -> Vec<Vec<String>> {
    s.schedules
        .iter()
        .map(|sc| sc.table.iter().map(|e| e.0.clone()).collect())
        .collect()
}

fn class_of<'a>(s: &'a Solution, term: usize, code: &str) -> &'a Class {
    &s.schedules[term].table.iter().find(|e| e.0 == code).unwrap().1
}

#[test]
fn first_subject_has_fewest_sections() {
    let ts = sheet(vec![
        ("MA111", vec![Class(vec![slot(2, 800, 1000)]), Class(vec![slot(3, 800, 1000)])]),
        ("F128", vec![Class(vec![slot(4, 800, 1000)])]),
        ("MC102", vec![]),
    ]);
    assert_eq!(get_first_subject(&ts), Some(1));
}

#[test]
fn first_subject_breaks_ties_towards_earlier_entry() {
    let ts = sheet(vec![
        ("MA111", vec![Class(vec![slot(2, 800, 1000)])]),
        ("F128", vec![Class(vec![slot(4, 800, 1000)])]),
    ]);
    assert_eq!(get_first_subject(&ts), Some(0));
}

#[test]
fn first_subject_none_when_no_sections() {
    let ts = sheet(vec![("MA111", vec![]), ("F128", vec![])]);
    assert_eq!(get_first_subject(&ts), None);
}

#[test]
fn next_subject_picks_most_constrained() {
    let ts = sheet(vec![
        ("MA111", vec![Class(vec![slot(2, 800, 1000)]), Class(vec![slot(3, 800, 1000)])]),
        ("F128", vec![Class(vec![slot(4, 800, 1000)])]),
    ]);
    let cr = credits(vec![("MA111", 4), ("F128", 4)]);
    let satisfied: Vec<String> = vec![];
    let current: Vec<(String, Class)> = vec![];
    assert_eq!(get_next_subject(&ts, &satisfied, &current, &cr, 0, 10), Some(1));
}

#[test]
fn next_subject_skips_covered_capped_and_blocked() {
    let ts = sheet(vec![
        ("MA111", vec![Class(vec![slot(2, 800, 1000)])]),
        ("F128", vec![Class(vec![slot(2, 900, 1100)])]),
        ("MC102", vec![Class(vec![slot(5, 800, 1000)])]),
    ]);
    let cr = credits(vec![("MA111", 4), ("F128", 4), ("MC102", 8)]);
    let satisfied = vec!["MA111".to_string()];
    let current = vec![("MA111".to_string(), Class(vec![slot(2, 800, 1000)]))];
    // MA111 is covered, F128 collides, MC102 would burst the cap.
    assert_eq!(get_next_subject(&ts, &satisfied, &current, &cr, 4, 10), None);
    // With room under the cap, MC102 qualifies.
    assert_eq!(get_next_subject(&ts, &satisfied, &current, &cr, 2, 10), Some(2));
}

#[test]
fn single_subject_single_section_terminates_in_one_term() {
    let ts1 = sheet(vec![("MA111", vec![Class(vec![slot(2, 800, 1000)])])]);
    let ts2 = sheet(vec![]);
    let cr = credits(vec![("MA111", 4)]);
    let sols = solve_all(&ts1, &ts2, &cr, 5, 1000).unwrap();
    assert_eq!(sols.len(), 1);
    assert_eq!(sols[0].schedules.len(), 1);
    assert_eq!(codes_of(&sols[0]), vec![vec!["MA111".to_string()]]);
    assert_eq!(sols[0].schedules[0].cr_count, 4);
}

#[test]
fn constrained_seed_forces_single_plan() {
    // The seed rule picks the subject with the fewest sections: F128 with
    // its one Monday section. MA111 then keeps only its Tuesday section, so
    // no branch point arises and one plan covers both subjects.
    let ts1 = sheet(vec![
        ("MA111", vec![Class(vec![slot(2, 800, 1000)]), Class(vec![slot(3, 800, 1000)])]),
        ("F128", vec![Class(vec![slot(2, 800, 1000)])]),
    ]);
    let ts2 = sheet(vec![]);
    let cr = credits(vec![("MA111", 3), ("F128", 2)]);
    let sols = solve_all(&ts1, &ts2, &cr, 5, 1000).unwrap();
    assert_eq!(sols.len(), 1);
    assert_eq!(sols[0].schedules.len(), 1);
    assert_eq!(sols[0].schedules[0].cr_count, 5);
    assert!(*class_of(&sols[0], 0, "F128") == Class(vec![slot(2, 800, 1000)]));
    assert!(*class_of(&sols[0], 0, "MA111") == Class(vec![slot(3, 800, 1000)]));
}

#[test]
fn branch_point_spawns_one_plan_per_free_section() {
    // F128 seeds; MA111 keeps both sections against the Wednesday seed, so
    // the step forks: the first free section extends the plan in place and
    // the second goes to a clone appended after the pass.
    let ts1 = sheet(vec![
        ("MA111", vec![Class(vec![slot(2, 800, 1000)]), Class(vec![slot(3, 800, 1000)])]),
        ("F128", vec![Class(vec![slot(4, 800, 1000)])]),
    ]);
    let ts2 = sheet(vec![]);
    let cr = credits(vec![("MA111", 3), ("F128", 2)]);
    let sols = solve_all(&ts1, &ts2, &cr, 5, 1000).unwrap();
    assert_eq!(sols.len(), 2);
    for s in sols.iter() {
        assert_eq!(s.schedules.len(), 1);
        assert_eq!(s.schedules[0].table.len(), 2);
        assert_eq!(s.schedules[0].cr_count, 5);
    }
    assert!(*class_of(&sols[0], 0, "MA111") == Class(vec![slot(2, 800, 1000)]));
    assert!(*class_of(&sols[1], 0, "MA111") == Class(vec![slot(3, 800, 1000)]));
}

#[test]
fn blocked_subject_carries_over_to_a_later_term() {
    // Both subjects offer only the same Monday slot, so the second cannot
    // join the first's term: the plan advances through an empty term of the
    // other timesheet and picks it up when the first timesheet returns.
    let ts1 = sheet(vec![
        ("MA111", vec![Class(vec![slot(2, 800, 1000)])]),
        ("F128", vec![Class(vec![slot(2, 800, 1000)])]),
    ]);
    let ts2 = sheet(vec![]);
    let cr = credits(vec![("MA111", 3), ("F128", 2)]);
    let sols = solve_all(&ts1, &ts2, &cr, 5, 1000).unwrap();
    assert_eq!(sols.len(), 1);
    assert_eq!(
        codes_of(&sols[0]),
        vec![vec!["MA111".to_string()], vec![], vec!["F128".to_string()]]
    );
    assert_eq!(sols[0].schedules[0].cr_count, 3);
    assert_eq!(sols[0].schedules[1].cr_count, 0);
    assert_eq!(sols[0].schedules[2].cr_count, 2);
}

#[test]
fn subject_only_in_second_timesheet_joins_in_term_two() {
    // F128 is absent from the first timesheet but counts towards the goal;
    // the plan picks it up when the second timesheet's term comes.
    let ts1 = sheet(vec![("MA111", vec![Class(vec![slot(2, 800, 1000)])])]);
    let ts2 = sheet(vec![("F128", vec![Class(vec![slot(3, 800, 1000)])])]);
    let cr = credits(vec![("MA111", 3), ("F128", 2)]);
    let sols = solve_all(&ts1, &ts2, &cr, 5, 1000).unwrap();
    assert_eq!(sols.len(), 1);
    assert_eq!(
        codes_of(&sols[0]),
        vec![vec!["MA111".to_string()], vec!["F128".to_string()]]
    );
}

#[test]
fn overweight_subject_exhausts_the_budget() {
    // F128's weight can never fit under the cap, so no plan ever covers it:
    // the search must stop at its step budget and report no feasible plan.
    let ts1 = sheet(vec![
        ("MA111", vec![Class(vec![slot(2, 800, 1000)])]),
        ("F128", vec![Class(vec![slot(3, 800, 1000)])]),
    ]);
    let ts2 = sheet(vec![]);
    let cr = credits(vec![("MA111", 3), ("F128", 20)]);
    assert!(solve_all(&ts1, &ts2, &cr, 5, 500).is_none());
}

#[test]
fn plans_respect_conflicts_and_cap() {
    let ts1 = sheet(vec![
        ("MA111", vec![Class(vec![slot(2, 800, 1000), slot(4, 800, 1000)])]),
        ("F128", vec![Class(vec![slot(2, 1000, 1200)]), Class(vec![slot(4, 900, 1100)])]),
        ("MC102", vec![Class(vec![slot(6, 800, 1000)])]),
    ]);
    let ts2 = sheet(vec![("MC102", vec![Class(vec![slot(6, 800, 1000)])])]);
    let cr = credits(vec![("MA111", 4), ("F128", 4), ("MC102", 4)]);
    let sols = solve_all(&ts1, &ts2, &cr, 8, 1000).unwrap();
    for s in sols.iter() {
        for sc in s.schedules.iter() {
            assert!(sc.cr_count <= 8);
            let mut slots: Vec<(String, Slot)> = vec![];
            for (code, class) in sc.table.iter() {
                for sl in class.0.iter() {
                    slots.push((code.clone(), *sl));
                }
            }
            for (i, (ci, a)) in slots.iter().enumerate() {
                for (cj, b) in slots.iter().skip(i + 1) {
                    if ci != cj {
                        assert!(
                            !(a.weekday == b.weekday && a.start < b.finish && a.finish > b.start)
                        );
                    }
                }
            }
        }
        let mut covered: Vec<String> = vec![];
        for sc in s.schedules.iter() {
            for (code, _) in sc.table.iter() {
                assert!(!covered.contains(code));
                covered.push(code.clone());
            }
        }
        assert_eq!(covered.len(), 3);
    }
}
