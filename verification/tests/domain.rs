use course_planner::classes::Class;
use course_planner::conflict::{class_is_free, does_slot_conflict, free_classes};
use course_planner::credits::CreditMap;
use course_planner::scoring::{occupancy_points, top_indices};
use course_planner::semester::Semester;
use course_planner::slots::{slot_conflicts_with, Slot};
use course_planner::timesheet::Timesheet;

fn slot(weekday: u8, start: u16, finish: u16) -> Slot {
    Slot { weekday, start, finish }
}

#[test]
fn semester_next_flips_half_and_wraps_year() {
    let s = Semester { year: 2024, semester: 1 };
    assert_eq!(s.next(), Semester { year: 2024, semester: 2 });
    assert_eq!(s.next().next(), Semester { year: 2025, semester: 1 });
}

#[test]
fn semester_previous_flips_half_and_wraps_year() {
    let s = Semester { year: 2024, semester: 1 };
    assert_eq!(s.previous(), Semester { year: 2023, semester: 2 });
    assert_eq!(s.previous().previous(), Semester { year: 2023, semester: 1 });
}

#[test]
fn semester_from_text_reads_canonical_form() {
    assert_eq!(Semester::from_text("1s2024"), Some(Semester { year: 2024, semester: 1 }));
    assert_eq!(Semester::from_text("2s1999"), Some(Semester { year: 1999, semester: 2 }));
    assert_eq!(Semester::from_text("2024"), None);
    assert_eq!(Semester::from_text("as2024"), None);
    assert_eq!(Semester::from_text("1s2024s1"), None);
    assert_eq!(Semester::from_text("1s99999"), None);
}

#[test]
fn slot_new_parses_weekday_and_times() {
    let s = Slot::new("Segunda".to_string(), "08:00 - 10:00".to_string());
    assert_eq!(s.weekday, 2);
    assert_eq!(s.start, 800);
    assert_eq!(s.finish, 1000);
    let s = Slot::new("Domingo".to_string(), "14:30-16:00".to_string());
    assert_eq!(s.weekday, 1);
    assert_eq!(s.start, 1430);
    assert_eq!(s.finish, 1600);
    let s = Slot::new("S\u{e1}bado".to_string(), "21:00 - 23:00".to_string());
    assert_eq!(s.weekday, 7);
    assert_eq!(s.start, 2100);
}

#[test]
fn slot_try_new_rejects_malformed_tokens() {
    assert!(Slot::try_new("Monday".to_string(), "08:00 - 10:00".to_string()).is_none());
    assert!(Slot::try_new("Segunda".to_string(), "08:00".to_string()).is_none());
    assert!(Slot::try_new("Segunda".to_string(), "ab:00 - 10:00".to_string()).is_none());
    assert!(Slot::try_new("Segunda".to_string(), "08:00 - 10:00 - 12:00".to_string()).is_none());
    assert!(Slot::try_new("Segunda".to_string(), "08:00 - 99999:00".to_string()).is_none());
    assert!(Slot::try_new("Terça".to_string(), "08:00 - 10:00".to_string()).is_some());
}

#[test]
fn slot_conflict_needs_same_weekday_and_overlap() {
    let a = slot(2, 800, 1000);
    assert!(slot_conflicts_with(&a, &slot(2, 900, 1100)));
    assert!(slot_conflicts_with(&a, &slot(2, 800, 1000)));
    assert!(!slot_conflicts_with(&a, &slot(3, 800, 1000)));
    assert!(!slot_conflicts_with(&a, &slot(2, 1000, 1200)));
    assert!(!slot_conflicts_with(&a, &slot(2, 600, 800)));
}

#[test]
fn slot_conflict_is_symmetric() {
    let pairs = [
        (slot(2, 800, 1000), slot(2, 900, 1100)),
        (slot(2, 800, 1000), slot(2, 1000, 1200)),
        (slot(1, 800, 1000), slot(7, 800, 1000)),
        (slot(4, 1400, 1600), slot(4, 1300, 1500)),
    ];
    for (a, b) in pairs.iter() {
        assert_eq!(slot_conflicts_with(a, b), slot_conflicts_with(b, a));
    }
}

#[test]
fn class_equality_ignores_slot_order() {
    let a = Class(vec![slot(2, 800, 1000), slot(4, 800, 1000)]);
    let b = Class(vec![slot(4, 800, 1000), slot(2, 800, 1000)]);
    let c = Class(vec![slot(2, 800, 1000), slot(5, 800, 1000)]);
    assert!(a == b);
    assert!(a != c);
    assert!(a != Class(vec![slot(2, 800, 1000)]));
}

#[test]
fn class_equality_counts_repetitions() {
    let a = Class(vec![slot(2, 800, 1000), slot(2, 800, 1000)]);
    let b = Class(vec![slot(2, 800, 1000)]);
    assert!(a != b);
    let c = Class(vec![slot(2, 800, 1000), slot(2, 800, 1000)]);
    assert!(a == c);
}

#[test]
fn remove_duplicates_keeps_first_occurrence() {
    let mut ts = Timesheet {
        table: vec![(
            "MA111".to_string(),
            vec![
                Class(vec![slot(2, 800, 1000), slot(4, 800, 1000)]),
                Class(vec![slot(4, 800, 1000), slot(2, 800, 1000)]),
                Class(vec![slot(2, 800, 1000)]),
            ],
        )],
    };
    ts.remove_duplicates();
    assert_eq!(ts.table[0].1.len(), 2);
    assert!(ts.table[0].1[0] == Class(vec![slot(2, 800, 1000), slot(4, 800, 1000)]));
    assert!(ts.table[0].1[1] == Class(vec![slot(2, 800, 1000)]));
}

#[test]
fn remove_duplicates_twice_equals_once() {
    let build = || Timesheet {
        table: vec![
            (
                "MA111".to_string(),
                vec![
                    Class(vec![slot(2, 800, 1000)]),
                    Class(vec![slot(2, 800, 1000)]),
                    Class(vec![slot(3, 800, 1000)]),
                ],
            ),
            ("F128".to_string(), vec![Class(vec![slot(5, 1400, 1600)])]),
        ],
    };
    let mut once = build();
    once.remove_duplicates();
    let mut twice = build();
    twice.remove_duplicates();
    twice.remove_duplicates();
    assert_eq!(once.table.len(), twice.table.len());
    for (e1, e2) in once.table.iter().zip(twice.table.iter()) {
        assert_eq!(e1.0, e2.0);
        assert_eq!(e1.1.len(), e2.1.len());
        for (c1, c2) in e1.1.iter().zip(e2.1.iter()) {
            assert!(c1 == c2);
        }
    }
}

#[test]
fn credit_map_looks_up_first_match() {
    let m = CreditMap {
        table: vec![("MA111".to_string(), 6), ("F128".to_string(), 4)],
    };
    assert_eq!(m.credit_of(&"MA111".to_string()), Some(6));
    assert_eq!(m.credit_of(&"F128".to_string()), Some(4));
    assert_eq!(m.credit_of(&"MC102".to_string()), None);
}

#[test]
fn slot_conflict_against_assignment() {
    let current = vec![
        ("MA111".to_string(), Class(vec![slot(2, 800, 1000)])),
        ("F128".to_string(), Class(vec![slot(4, 1400, 1600)])),
    ];
    assert!(does_slot_conflict(&slot(2, 900, 1100), &current));
    assert!(does_slot_conflict(&slot(4, 1500, 1700), &current));
    assert!(!does_slot_conflict(&slot(2, 1000, 1200), &current));
    assert!(!does_slot_conflict(&slot(6, 800, 1000), &current));
}

#[test]
fn free_classes_filters_colliding_sections() {
    let current = vec![("MA111".to_string(), Class(vec![slot(2, 800, 1000)]))];
    let offered = vec![
        Class(vec![slot(2, 900, 1100)]),
        Class(vec![slot(3, 900, 1100)]),
        Class(vec![slot(3, 800, 900), slot(2, 930, 1030)]),
    ];
    assert!(!class_is_free(&offered[0], &current));
    assert!(class_is_free(&offered[1], &current));
    assert!(!class_is_free(&offered[2], &current));
    let free = free_classes(&offered, &current);
    assert_eq!(free.len(), 1);
    assert!(free[0] == Class(vec![slot(3, 900, 1100)]));
}

#[test]
fn occupancy_points_one_point_per_hour() {
    let table = vec![
        ("MA111".to_string(), Class(vec![slot(2, 800, 1000)])),
        ("F128".to_string(), Class(vec![slot(4, 1400, 1500)])),
    ];
    let pts = occupancy_points(&table);
    assert_eq!(pts, vec![(2, 8), (2, 9), (4, 14)]);
}

#[test]
fn occupancy_points_single_point_cloud() {
    let table = vec![("MA111".to_string(), Class(vec![slot(3, 1000, 1100)]))];
    let pts = occupancy_points(&table);
    assert_eq!(pts, vec![(3, 10)]);
}

#[test]
fn top_indices_orders_by_score_then_later_position() {
    let scores = vec![10u64, 50, 50, 20];
    assert_eq!(top_indices(&scores, 2), vec![2, 1]);
    assert_eq!(top_indices(&scores, 10), vec![2, 1, 3, 0]);
    assert_eq!(top_indices(&scores, 0), Vec::<usize>::new());
    let empty: Vec<u64> = vec![];
    assert_eq!(top_indices(&empty, 5), Vec::<usize>::new());
}
