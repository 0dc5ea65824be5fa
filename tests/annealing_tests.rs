use uctp::annealing::{AnnealingSearch, Move, Step, generate_first_schedule, generate_neighbour, random_move};
use uctp::model::{Course, Group, Room, TimetableInput};
use uctp::schedule::Schedule;

// Two lectures of one group, two rooms in one building.
fn input() -> TimetableInput {
    TimetableInput {
        rooms: vec![
            Room { id: 0, name: "A".to_string(), capacity: 100, is_laboratory: false, free: vec![], building_id: 1 },
            Room { id: 1, name: "B".to_string(), capacity: 100, is_laboratory: false, free: vec![], building_id: 1 },
        ],
        teachers: vec![],
        groups: vec![Group { id: 0, name: "G".to_string(), numbers_of_students: 10, courses: vec![0, 1] }],
        courses: vec![
            Course { id: 0, subject_name: "Math".to_string(), professor_id: 0, group_ids: vec![0], required_hours: 1, required_lab: false },
            Course { id: 1, subject_name: "Art".to_string(), professor_id: 0, group_ids: vec![0], required_hours: 1, required_lab: false },
        ],
    }
}

fn step(course: usize, day: u32, slot: u32, room: usize, tolerance: u64) -> Step {
    Step { mv: Move { course, day, slot, room }, tolerance }
}

#[test]
fn no_iterations_return_the_initial_schedule() {
    let input = input();
    let initial = Schedule { assignments: vec![(0, 0, 0), (0, 0, 0)] };
    let score = initial.calculate_penalty(&input);
    let mut search = AnnealingSearch::new(&input, initial.clone());
    search.run(&input, &vec![]);
    assert_eq!(search.best.assignments, initial.assignments);
    assert_eq!(search.best_penalty, score);
    assert_eq!(score, 200000);
    assert!(!search.finished);
}

#[test]
fn zero_scoring_neighbour_ends_the_search() {
    let input = input();
    let initial = Schedule { assignments: vec![(0, 0, 0), (0, 0, 0)] };
    let mut search = AnnealingSearch::new(&input, initial);
    let steps = vec![step(1, 0, 1, 1, 0), step(1, 4, 5, 0, u64::MAX), step(0, 3, 3, 1, u64::MAX)];
    search.run(&input, &steps);
    assert!(search.finished);
    assert_eq!(search.best.assignments, vec![(0, 0, 0), (0, 1, 1)]);
    assert_eq!(search.best_penalty, 0);
    assert_eq!(search.current.assignments, vec![(0, 0, 0), (0, 1, 1)]);
}

#[test]
fn worse_neighbour_needs_tolerance() {
    let input = input();
    let initial = Schedule { assignments: vec![(0, 0, 0), (0, 2, 0)] };
    let mut search = AnnealingSearch::new(&input, initial);
    assert_eq!(search.current_penalty, 20);
    // Moving course 1 to slot 3 leaves a two-slot gap: 15 points, an improvement.
    search.step(&input, step(1, 0, 3, 0, 0));
    assert_eq!(search.current_penalty, 15);
    assert_eq!(search.best_penalty, 15);
    // Back to slot 2 costs 5 more points: refused at tolerance 5, taken at 6.
    search.step(&input, step(1, 0, 2, 0, 5));
    assert_eq!(search.current_penalty, 15);
    search.step(&input, step(1, 0, 2, 0, 6));
    assert_eq!(search.current_penalty, 20);
    assert_eq!(search.best_penalty, 15);
    assert_eq!(search.best.assignments, vec![(0, 0, 0), (0, 3, 0)]);
}

#[test]
fn neighbour_changes_one_entry() {
    let current = Schedule { assignments: vec![(0, 0, 0), (1, 1, 1), (2, 2, 0)] };
    let n = generate_neighbour(&current, Move { course: 1, day: 4, slot: 5, room: 0 });
    assert_eq!(n.assignments, vec![(0, 0, 0), (4, 5, 0), (2, 2, 0)]);
}

#[test]
fn random_draws_stay_in_range() {
    let input = input();
    let mut rng = rand::thread_rng();
    for _ in 0..200 {
        let s = generate_first_schedule(&input, &mut rng);
        assert_eq!(s.assignments.len(), 2);
        for &(d, t, r) in &s.assignments {
            assert!(d < 5 && t < 6 && r < 2);
        }
        let m = random_move(&input, &mut rng);
        assert!(m.course < 2 && m.day < 5 && m.slot < 6 && m.room < 2);
    }
}
