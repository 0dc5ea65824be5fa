use uctp::model::{Course, Group, Teacher, TimetableInput};
use uctp::normalize::{NormalizeError, normalize_data};

fn raw_input() -> TimetableInput {
    TimetableInput {
        rooms: vec![],
        teachers: vec![Teacher { id: 10, name: "Prof. X".to_string(), course_id: vec![2002] }],
        courses: vec![
            Course {
                id: 1001, subject_name: "Math".to_string(), professor_id: 0,
                group_ids: vec![555, 777], required_hours: 2, required_lab: false,
            },
            Course {
                id: 2002, subject_name: "Physics".to_string(), professor_id: 10,
                group_ids: vec![555], required_hours: 2, required_lab: true,
            },
        ],
        groups: vec![
            Group { id: 555, name: "Group A".to_string(), numbers_of_students: 20, courses: vec![1001, 2002] },
            Group { id: 777, name: "Group B".to_string(), numbers_of_students: 30, courses: vec![1001] },
        ],
    }
}

fn bad_input() -> TimetableInput {
    TimetableInput {
        rooms: vec![],
        teachers: vec![],
        courses: vec![],
        groups: vec![Group { id: 1, name: "Bad Group".to_string(), numbers_of_students: 10, courses: vec![99999] }],
    }
}

#[test]
fn test_normalization_logic() {
    let normalized = normalize_data(raw_input()).unwrap();

    let math = &normalized.courses[0];
    assert_eq!(math.subject_name, "Math");
    assert!(math.group_ids.contains(&0), "Math should point to Group Index 0 (was 555)");
    assert!(math.group_ids.contains(&1), "Math should point to Group Index 1 (was 777)");

    let physics = &normalized.courses[1];
    assert_eq!(physics.subject_name, "Physics");
    assert_eq!(physics.group_ids, vec![0], "Physics should point to Group Index 0");

    let group_a = &normalized.groups[0];
    assert_eq!(group_a.name, "Group A");
    assert!(group_a.courses.contains(&0), "Group A should point to Course Index 0 (was 1001)");
    assert!(group_a.courses.contains(&1), "Group A should point to Course Index 1 (was 2002)");

    let group_b = &normalized.groups[1];
    assert_eq!(group_b.name, "Group B");
    assert_eq!(group_b.courses, vec![0], "Group B should point to Course Index 0");

    let prof = &normalized.teachers[0];
    assert_eq!(prof.course_id, vec![1], "Teacher should point to Course Index 1");
}

#[test]
#[should_panic(expected = "Reference to a non existent ID")]
fn test_normalization_panics_on_bad_id() {
    match normalize_data(bad_input()) {
        Ok(_) => {}
        Err(NormalizeError::UnknownId(id)) => panic!("Reference to a non existent ID: {}", id),
    }
}

#[test]
fn unknown_identifier_is_named() {
    assert_eq!(normalize_data(bad_input()).unwrap_err(), NormalizeError::UnknownId(99999));
    let mut input = raw_input();
    input.courses[1].group_ids = vec![555, 4];
    assert_eq!(normalize_data(input).unwrap_err(), NormalizeError::UnknownId(4));
    let mut input = raw_input();
    input.teachers[0].course_id = vec![1001, 3003];
    assert_eq!(normalize_data(input).unwrap_err(), NormalizeError::UnknownId(3003));
}

#[test]
fn normalized_references_are_indices() {
    assert!(!raw_input().references_valid());
    let normalized = normalize_data(raw_input()).unwrap();
    assert!(normalized.references_valid());
    for c in &normalized.courses {
        assert!(c.group_ids.iter().all(|&g| g < normalized.groups.len()));
    }
    for g in &normalized.groups {
        assert!(g.courses.iter().all(|&c| c < normalized.courses.len()));
    }
    for t in &normalized.teachers {
        assert!(t.course_id.iter().all(|&c| c < normalized.courses.len()));
    }
}

#[test]
fn first_unknown_identifier_in_reading_order_is_named() {
    let mut input = raw_input();
    input.courses[1].group_ids = vec![555, 8, 9];
    input.groups[0].courses = vec![7];
    input.teachers[0].course_id = vec![6];
    assert_eq!(normalize_data(input).unwrap_err(), NormalizeError::UnknownId(8));
    let mut input = raw_input();
    input.groups[1].courses = vec![5, 4];
    input.teachers[0].course_id = vec![6];
    assert_eq!(normalize_data(input).unwrap_err(), NormalizeError::UnknownId(5));
}

#[test]
fn declared_identifiers_are_kept() {
    let normalized = normalize_data(raw_input()).unwrap();
    assert_eq!(normalized.courses[1].id, 2002);
    assert_eq!(normalized.groups[1].id, 777);
    assert_eq!(normalized.teachers[0].id, 10);
    assert_eq!(normalized.courses[1].professor_id, 10);
    assert_eq!(normalized.groups[0].courses, vec![0, 1]);
    assert_eq!(normalized.courses[0].group_ids, vec![0, 1]);
}

#[test]
fn renormalizing_changes_nothing() {
    let once = normalize_data(raw_input()).unwrap();
    let mut indexed = once.clone();
    for (i, g) in indexed.groups.iter_mut().enumerate() {
        g.id = i;
    }
    for (i, c) in indexed.courses.iter_mut().enumerate() {
        c.id = i;
    }
    let twice = normalize_data(indexed.clone()).unwrap();
    for (a, b) in twice.courses.iter().zip(indexed.courses.iter()) {
        assert_eq!(a.group_ids, b.group_ids);
    }
    for (a, b) in twice.groups.iter().zip(indexed.groups.iter()) {
        assert_eq!(a.courses, b.courses);
    }
    assert_eq!(twice.teachers[0].course_id, indexed.teachers[0].course_id);
}

#[test]
fn repeated_identifier_resolves_to_last_declaration() {
    let mut input = raw_input();
    input.groups[1].id = 555;
    input.courses[0].group_ids = vec![555];
    input.courses[1].group_ids = vec![555];
    let normalized = normalize_data(input).unwrap();
    assert_eq!(normalized.courses[0].group_ids, vec![1]);
}

#[test]
fn empty_input_normalizes() {
    let input = TimetableInput { rooms: vec![], teachers: vec![], courses: vec![], groups: vec![] };
    let normalized = normalize_data(input).unwrap();
    assert!(normalized.courses.is_empty());
}
