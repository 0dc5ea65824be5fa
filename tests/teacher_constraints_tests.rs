use uctp::model::{Course, Room, Teacher, TimetableInput};
use uctp::schedule::Schedule;

fn create_dummy_room(id: usize, building_id: usize) -> Room {
    Room { id, name: format!("Room {}", id), capacity: 50, is_laboratory: false, building_id, free: vec![] }
}

fn create_dummy_course(id: usize, teacher_id: usize) -> Course {
    Course {
        id, subject_name: "Test Subject".to_string(), professor_id: teacher_id,
        group_ids: vec![1], required_hours: 2, required_lab: false,
    }
}

fn create_dummy_teacher(id: usize, course_ids: Vec<usize>) -> Teacher {
    Teacher { id, name: "Prof. Test".to_string(), course_id: course_ids }
}

fn input_with(rooms: Vec<Room>) -> TimetableInput {
    TimetableInput {
        rooms,
        teachers: vec![create_dummy_teacher(1, vec![0, 1])],
        groups: vec![],
        courses: vec![create_dummy_course(0, 1), create_dummy_course(1, 1)],
    }
}

#[test]
fn test_teacher_double_booking() {
    let input = input_with(vec![create_dummy_room(0, 1), create_dummy_room(1, 1)]);
    let schedule = Schedule { assignments: vec![(0, 0, 0), (0, 0, 1)] };
    let penalty = schedule.gap_teleportation_check_teachers(&input);
    assert!(penalty >= 100000, "Teacher double-booking should have massive penalty");
    assert_eq!(penalty, 100000);
}

#[test]
fn test_teacher_teleportation_penalty() {
    let input = input_with(vec![create_dummy_room(0, 1), create_dummy_room(1, 2)]);
    let schedule = Schedule { assignments: vec![(0, 0, 0), (0, 1, 1)] };
    let penalty = schedule.gap_teleportation_check_teachers(&input);
    assert!(penalty > 0, "Teacher moving between buildings instantly should be penalized");
    assert_eq!(penalty, 100000);
}

#[test]
fn test_teacher_safe_schedule() {
    let input = input_with(vec![create_dummy_room(0, 1), create_dummy_room(1, 1)]);
    let schedule = Schedule { assignments: vec![(0, 0, 0), (0, 1, 1)] };
    let penalty = schedule.gap_teleportation_check_teachers(&input);
    assert_eq!(penalty, 0, "Same building movement should be allowed");
}
