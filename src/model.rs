use vstd::prelude::*;

verus! {

/// The largest value a penalty or a head count can hold; sums that would pass
/// it stay at it.
pub open spec fn sat(x: int) -> int {
    if x > u64::MAX {
        u64::MAX as int
    } else {
        x
    }
}

/// Adding to a saturated sum saturates the exact sum.
pub proof fn lemma_sat_add(a: int, b: int)
    requires
        a >= 0,
        b >= 0,
    ensures
        sat(sat(a) + sat(b)) == sat(a + b),
{
}

/// A physical room.
#[derive(Debug, Clone)]
pub struct Room {
    /// Identifier of the room.
    pub id: usize,
    /// The label on the door.
    pub name: String,
    /// Maximum number of students the room holds.
    pub capacity: u32,
    /// Whether the room is equipped as a laboratory.
    pub is_laboratory: bool,
    /// The building the room stands in.
    pub building_id: usize,
    /// Slots reserved ahead of scheduling; not read by the evaluator.
    pub free: Vec<Vec<u32>>,
}

/// A student cohort attending a list of courses.
#[derive(Debug, Clone)]
pub struct Group {
    /// External identifier, kept after normalization.
    pub id: usize,
    pub name: String,
    pub numbers_of_students: u32,
    /// The courses the group attends, as identifiers before normalization
    /// and as indices into the course list after it.
    pub courses: Vec<usize>,
}

/// A teacher and the courses they teach.
#[derive(Debug, Clone)]
pub struct Teacher {
    /// External identifier, kept after normalization.
    pub id: usize,
    pub name: String,
    /// The courses taught, as identifiers before normalization and as
    /// indices into the course list after it.
    pub course_id: Vec<usize>,
}

/// A course to be placed once in the weekly timetable.
#[derive(Debug, Clone)]
pub struct Course {
    /// External identifier, kept after normalization.
    pub id: usize,
    pub subject_name: String,
    pub professor_id: usize,
    /// The groups attending together, as identifiers before normalization and
    /// as indices into the group list after it.
    pub group_ids: Vec<usize>,
    /// Scheduling units asked for per week.
    pub required_hours: u32,
    /// Whether the course must take place in a laboratory.
    pub required_lab: bool,
}

/// Total head count of the groups at `ids`.
pub open spec fn students_of(groups: Seq<Group>, ids: Seq<usize>) -> int
    decreases ids.len(),
{
    if ids.len() == 0 {
        0
    } else {
        students_of(groups, ids.drop_last()) + groups[ids.last() as int].numbers_of_students
    }
}

pub open spec fn all_below(ids: Seq<usize>, n: int) -> bool {
    forall|i: int| 0 <= i < ids.len() ==> ids[i] < n
}

impl Course {
    /// Number of seats the course needs: the head count of all its groups.
    pub fn capacity_needed(&self, vec_of_groups: &Vec<Group>) -> (r: u64)
        requires
            all_below(self.group_ids@, vec_of_groups@.len() as int),
        ensures
            r == sat(students_of(vec_of_groups@, self.group_ids@)),
    {
        let mut total: u64 = 0;
        let mut i: usize = 0;
        while i < self.group_ids.len()
            invariant
                i <= self.group_ids@.len(),
                all_below(self.group_ids@, vec_of_groups@.len() as int),
                total == sat(students_of(vec_of_groups@, self.group_ids@.take(i as int))),
            decreases self.group_ids@.len() - i,
        {
            let g = self.group_ids[i];
            let n = vec_of_groups[g].numbers_of_students as u64;
            proof {
                let ids = self.group_ids@.take(i as int + 1);
                assert(ids.drop_last() =~= self.group_ids@.take(i as int));
                lemma_sat_add(students_of(vec_of_groups@, self.group_ids@.take(i as int)), n as int);
            }
            total = total.saturating_add(n);
            i = i + 1;
        }
        assert(self.group_ids@.take(i as int) =~= self.group_ids@);
        total
    }
}

/// The read-only world a timetable is built for.
#[derive(Debug, Clone)]
pub struct TimetableInput {
    pub rooms: Vec<Room>,
    pub teachers: Vec<Teacher>,
    pub courses: Vec<Course>,
    pub groups: Vec<Group>,
}

impl TimetableInput {
    /// Every cross reference is an index into the list it refers to.
    pub open spec fn is_normalized(&self) -> bool {
        &&& forall|c: int|
            0 <= c < self.courses@.len() ==> all_below(
                #[trigger] self.courses@[c].group_ids@,
                self.groups@.len() as int,
            )
        &&& forall|g: int|
            0 <= g < self.groups@.len() ==> all_below(
                #[trigger] self.groups@[g].courses@,
                self.courses@.len() as int,
            )
        &&& forall|t: int|
            0 <= t < self.teachers@.len() ==> all_below(
                #[trigger] self.teachers@[t].course_id@,
                self.courses@.len() as int,
            )
    }

    /// The course at index `course_id`.
    pub fn get_course(&self, course_id: usize) -> (r: &Course)
        requires
            course_id < self.courses@.len(),
        ensures
            *r == self.courses@[course_id as int],
    {
        &self.courses[course_id]
    }

    /// The room at index `room_id`.
    pub fn get_room(&self, room_id: usize) -> (r: &Room)
        requires
            room_id < self.rooms@.len(),
        ensures
            *r == self.rooms@[room_id as int],
    {
        &self.rooms[room_id]
    }
}

/// Whether every entry of `ids` is below `n`.
fn indices_below(ids: &Vec<usize>, n: usize) -> (r: bool)
    ensures
        r == all_below(ids@, n as int),
{
    let mut i: usize = 0;
    while i < ids.len()
        invariant
            i <= ids@.len(),
            forall|j: int| 0 <= j < i ==> ids@[j] < n,
        decreases ids@.len() - i,
    {
        if ids[i] >= n {
            return false;
        }
        i = i + 1;
    }
    true
}

impl TimetableInput {
    /// Whether every cross reference is an index into the list it refers to.
    pub fn references_valid(&self) -> (r: bool)
        ensures
            r == self.is_normalized(),
    {
        let mut c: usize = 0;
        while c < self.courses.len()
            invariant
                c <= self.courses@.len(),
                forall|j: int| 0 <= j < c ==> all_below(#[trigger] self.courses@[j].group_ids@, self.groups@.len() as int),
            decreases self.courses@.len() - c,
        {
            if !indices_below(&self.courses[c].group_ids, self.groups.len()) {
                return false;
            }
            c = c + 1;
        }
        let mut g: usize = 0;
        while g < self.groups.len()
            invariant
                g <= self.groups@.len(),
                forall|j: int| 0 <= j < self.courses@.len() ==> all_below(#[trigger] self.courses@[j].group_ids@, self.groups@.len() as int),
                forall|j: int| 0 <= j < g ==> all_below(#[trigger] self.groups@[j].courses@, self.courses@.len() as int),
            decreases self.groups@.len() - g,
        {
            if !indices_below(&self.groups[g].courses, self.courses.len()) {
                return false;
            }
            g = g + 1;
        }
        let mut t: usize = 0;
        while t < self.teachers.len()
            invariant
                t <= self.teachers@.len(),
                forall|j: int| 0 <= j < self.courses@.len() ==> all_below(#[trigger] self.courses@[j].group_ids@, self.groups@.len() as int),
                forall|j: int| 0 <= j < self.groups@.len() ==> all_below(#[trigger] self.groups@[j].courses@, self.courses@.len() as int),
                forall|j: int| 0 <= j < t ==> all_below(#[trigger] self.teachers@[j].course_id@, self.courses@.len() as int),
            decreases self.teachers@.len() - t,
        {
            if !indices_below(&self.teachers[t].course_id, self.courses.len()) {
                return false;
            }
            t = t + 1;
        }
        true
    }
}

} // verus!
