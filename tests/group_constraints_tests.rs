use uctp::model::{Course, Group, Room, Teacher, TimetableInput};
use uctp::schedule::Schedule;

fn room(id: usize, name: &str, building_id: usize) -> Room {
    Room { id, name: name.to_string(), capacity: 100, is_laboratory: false, free: vec![], building_id }
}

fn course(id: usize, name: &str) -> Course {
    Course {
        id, subject_name: name.to_string(), professor_id: 0,
        group_ids: vec![0], required_hours: 2, required_lab: false,
    }
}

fn create_teleport_scenario_with2_courses() -> TimetableInput {
    TimetableInput {
        rooms: vec![
            room(0, "Room A (Building 1)", 1),
            room(1, "Room B (Building 2)", 2),
            room(2, "Room C (Building 1)", 1),
        ],
        groups: vec![Group { id: 0, name: "G1".to_string(), numbers_of_students: 10, courses: vec![0, 1] }],
        courses: vec![course(101, "Math"), course(102, "Physics")],
        teachers: vec![],
    }
}

fn create_teleport_scenario_with3_courses() -> TimetableInput {
    let mut input = create_teleport_scenario_with2_courses();
    input.groups[0].courses = vec![0, 1, 2];
    input
}

// Points for a day whose classes span `window` slots end to end.
fn long_day_points(window: u64) -> u64 {
    if window > 4 { (window - 4) * (window - 4) * 50 } else { 0 }
}

#[test]
fn test_teleportation_penalty() {
    let input = create_teleport_scenario_with2_courses();
    let schedule = Schedule { assignments: vec![(0, 0, 0), (0, 1, 1)] };
    let penalty = schedule.gap_teleportation_check(&input);
    assert_eq!(penalty, 100000, "Should punish moving between buildings instantly");
}

#[test]
fn test_no_teleportation_penalty() {
    let input = create_teleport_scenario_with2_courses();
    let schedule = Schedule { assignments: vec![(0, 0, 0), (0, 1, 2)] };
    let penalty = schedule.gap_teleportation_check(&input);
    assert_eq!(penalty, 0, "Should allow moving within the same building");
}

#[test]
fn test_gap_2_hours() {
    let input = create_teleport_scenario_with2_courses();
    let schedule = Schedule { assignments: vec![(0, 0, 0), (0, 2, 0)] };
    let penalty = schedule.gap_teleportation_check(&input);
    assert_eq!(penalty, 20, "2 hour gap should be 20 points");
}

#[test]
fn test_gap_4_hours() {
    let input = create_teleport_scenario_with2_courses();
    let schedule = Schedule { assignments: vec![(0, 0, 0), (0, 3, 0)] };
    let penalty = schedule.gap_teleportation_check(&input);
    assert_eq!(penalty, 15, "4 hour gap should be 15 points");
}

// The day spans five slots, so the long-day points come on top of the gap.
#[test]
fn test_gap_6_hours() {
    let input = create_teleport_scenario_with2_courses();
    let schedule = Schedule { assignments: vec![(0, 0, 0), (0, 4, 0)] };
    let penalty = schedule.gap_teleportation_check(&input);
    assert_eq!(penalty - long_day_points(5), 10, "6 hour gap should be 10 points");
    assert_eq!(penalty, 60);
}

// The day spans six slots, so the long-day points come on top of the gap.
#[test]
fn test_gap_8_hours() {
    let input = create_teleport_scenario_with2_courses();
    let schedule = Schedule { assignments: vec![(0, 0, 0), (0, 5, 0)] };
    let penalty = schedule.gap_teleportation_check(&input);
    assert_eq!(penalty - long_day_points(6), 5, "8 hour gap should be 5 points");
    assert_eq!(penalty, 205);
}

// The day spans six slots, so the long-day points come on top of the gaps.
#[test]
fn test_complex_day() {
    let input = create_teleport_scenario_with3_courses();
    let schedule = Schedule { assignments: vec![(0, 0, 0), (0, 2, 0), (0, 5, 0)] };
    let penalty = schedule.gap_teleportation_check(&input);
    assert_eq!(penalty - long_day_points(6), 35, "Should sum multiple gaps (20 + 15 = 35)");
    assert_eq!(penalty, 235);
}

#[test]
fn group_double_booking_costs_one_unit() {
    let input = create_teleport_scenario_with2_courses();
    let schedule = Schedule { assignments: vec![(2, 3, 0), (2, 3, 1)] };
    assert_eq!(schedule.gap_teleportation_check(&input), 100000);
}

#[test]
fn teleport_on_both_sides_costs_two_units() {
    let mut input = create_teleport_scenario_with3_courses();
    input.courses.push(course(103, "Chemistry"));
    let schedule = Schedule { assignments: vec![(1, 0, 0), (1, 1, 1), (1, 2, 2)] };
    assert_eq!(schedule.gap_teleportation_check(&input), 200000);
}

#[test]
fn gaps_on_other_days_are_scored_apart() {
    let input = create_teleport_scenario_with2_courses();
    let schedule = Schedule { assignments: vec![(0, 0, 0), (1, 5, 0)] };
    assert_eq!(schedule.gap_teleportation_check(&input), 0);
}

#[test]
fn calm_schedule_scores_its_gaps_only() {
    let mut input = create_teleport_scenario_with2_courses();
    input.courses[0].group_ids = vec![0];
    input.courses[1].group_ids = vec![0];
    let schedule = Schedule { assignments: vec![(2, 1, 0), (2, 3, 2)] };
    assert_eq!(schedule.collision_grid(&input), 0);
    assert_eq!(schedule.calculate_penalty(&input), 20);
    let compact = Schedule { assignments: vec![(2, 1, 0), (2, 2, 2)] };
    assert_eq!(compact.calculate_penalty(&input), 0);
}

#[test]
fn owner_order_does_not_change_the_total() {
    let mut input = create_teleport_scenario_with3_courses();
    input.courses.push(course(103, "Chemistry"));
    input.groups[0].courses = vec![];
    input.teachers = vec![
        Teacher { id: 1, name: "A".to_string(), course_id: vec![0, 1] },
        Teacher { id: 2, name: "B".to_string(), course_id: vec![2] },
        Teacher { id: 3, name: "C".to_string(), course_id: vec![0, 2] },
    ];
    let schedule = Schedule { assignments: vec![(0, 0, 0), (0, 1, 1), (0, 3, 2)] };
    let forward = schedule.calculate_penalty(&input);
    input.teachers.reverse();
    let backward = schedule.calculate_penalty(&input);
    assert_eq!(forward, backward);
    assert_eq!(forward, 100000 + 15);
}

#[test]
fn reordering_groups_and_teachers_keeps_the_total() {
    let mut input = create_teleport_scenario_with2_courses();
    input.rooms[0].capacity = 25;
    input.groups = vec![
        Group { id: 0, name: "G1".to_string(), numbers_of_students: 10, courses: vec![0, 1] },
        Group { id: 1, name: "G2".to_string(), numbers_of_students: 20, courses: vec![1] },
    ];
    input.courses[0].group_ids = vec![0, 1];
    input.courses[1].group_ids = vec![1];
    input.teachers = vec![
        Teacher { id: 1, name: "A".to_string(), course_id: vec![0] },
        Teacher { id: 2, name: "B".to_string(), course_id: vec![0, 1] },
    ];
    let schedule = Schedule { assignments: vec![(0, 0, 0), (0, 1, 1)] };
    let before = schedule.calculate_penalty(&input);
    // Capacity 25 < 30 on course 0, and G1 and B move between buildings.
    assert_eq!(before, 300000);

    input.groups.reverse();
    input.courses[0].group_ids = vec![1, 0];
    input.courses[1].group_ids = vec![0];
    input.teachers.reverse();
    assert_eq!(schedule.calculate_penalty(&input), before);
}
