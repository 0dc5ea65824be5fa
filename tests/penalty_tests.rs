use uctp::model::{Course, Group, Room, TimetableInput};
use uctp::schedule::Schedule;

// One group of 100 students; room 0 is a hall for 200, room 1 a lab for 50;
// course 0 is a lecture, course 1 needs a lab.
fn create_mock_input() -> TimetableInput {
    TimetableInput {
        rooms: vec![
            Room { id: 0, name: "C1".to_string(), capacity: 200, is_laboratory: false, free: vec![], building_id: 0 },
            Room { id: 1, name: "L1".to_string(), capacity: 50, is_laboratory: true, free: vec![], building_id: 0 },
        ],
        groups: vec![Group { id: 0, name: "G1".to_string(), numbers_of_students: 100, courses: vec![] }],
        teachers: vec![],
        courses: vec![
            Course {
                id: 0, subject_name: "Math".to_string(), professor_id: 0,
                group_ids: vec![0], required_hours: 2, required_lab: false,
            },
            Course {
                id: 1, subject_name: "Physics".to_string(), professor_id: 0,
                group_ids: vec![0], required_hours: 2, required_lab: true,
            },
        ],
    }
}

#[test]
fn test_valid_schedule() {
    let input = create_mock_input();
    let schedule = Schedule { assignments: vec![(0, 0, 0), (0, 2, 1)] };
    let penalty = schedule.calculate_penalty(&input);
    assert_eq!(penalty, 100000, "Should punish capacity overflow");
}

#[test]
fn test_perfect_schedule() {
    let mut input = create_mock_input();
    input.rooms[1].capacity = 150;
    let schedule = Schedule { assignments: vec![(0, 0, 0), (0, 2, 1)] };
    let penalty = schedule.calculate_penalty(&input);
    assert_eq!(penalty, 0, "Perfect schedule should have 0 penalty");
}

#[test]
fn test_double_booking_collision() {
    let mut input = create_mock_input();
    input.rooms[1].capacity = 150;
    let schedule = Schedule { assignments: vec![(0, 0, 0), (0, 0, 0)] };
    let penalty = schedule.calculate_penalty(&input);
    assert_eq!(penalty, 200000, "Should punish Collision AND Room Type mismatch");
}

#[test]
fn test_room_type_mismatch() {
    let input = create_mock_input();
    let schedule = Schedule { assignments: vec![(0, 0, 0), (0, 2, 0)] };
    let penalty = schedule.calculate_penalty(&input);
    assert_eq!(penalty, 100000, "Should punish putting a Lab in a Lecture Hall");
}

#[test]
fn capacity_and_lab_both_missing_cost_two_units() {
    let mut input = create_mock_input();
    input.rooms[1].is_laboratory = false;
    let schedule = Schedule { assignments: vec![(0, 0, 0), (0, 2, 1)] };
    assert_eq!(schedule.collision_grid(&input), 200000);
    assert_eq!(schedule.calculate_penalty(&input), 200000);
}

#[test]
fn double_booking_alone_costs_one_unit() {
    let mut input = create_mock_input();
    input.courses[1].required_lab = false;
    let schedule = Schedule { assignments: vec![(3, 4, 0), (3, 4, 0)] };
    assert_eq!(schedule.collision_grid(&input), 100000);
}

#[test]
fn same_room_at_other_times_is_no_double_booking() {
    let mut input = create_mock_input();
    input.courses[1].required_lab = false;
    let schedule = Schedule { assignments: vec![(3, 4, 0), (3, 5, 0)] };
    assert_eq!(schedule.collision_grid(&input), 0);
}

#[test]
fn capacity_needed_sums_all_groups() {
    let mut input = create_mock_input();
    input.groups.push(Group { id: 1, name: "G2".to_string(), numbers_of_students: 35, courses: vec![] });
    input.courses[0].group_ids = vec![0, 1, 1];
    assert_eq!(input.courses[0].capacity_needed(&input.groups), 170);
    assert_eq!(input.get_course(1).subject_name, "Physics");
    assert_eq!(input.get_room(1).name, "L1");
}

#[test]
fn empty_schedule_scores_zero() {
    let input = TimetableInput { rooms: vec![], teachers: vec![], courses: vec![], groups: vec![] };
    let schedule = Schedule { assignments: vec![] };
    assert_eq!(schedule.calculate_penalty(&input), 0);
}
