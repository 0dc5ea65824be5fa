use vstd::prelude::*;
use crate::model::{TimetableInput, all_below, lemma_sat_add, sat};
use crate::penalty::{
    HARD_CONSTRAINT, booked_before, cell, day_penalty, empty_week, entries_in_range, far_apart,
    first_from, fits, gap_ending_at, gap_points, gap_score, group_lists, hard_units,
    held_by_first, last_before, lemma_day_penalty_bound, lemma_first_from_bounds,
    lemma_hard_units_nonneg, lemma_last_before_bounds, lemma_no_class_before,
    lemma_normalized_lists, lemma_owners_penalty_nonneg, lemma_owners_step,
    lemma_room_usage_nonneg, lemma_week_after_len, lists_below, owner_penalty, owners_penalty,
    place, placement_units, room_units, room_usage_penalty, room_usage_units, row_of,
    teacher_lists, total_penalty, week_after, week_rooms_below, week_soft,
};

verus! {

/// A candidate timetable: the (day, slot, room index) of each course, by
/// course index.
#[derive(Debug, Clone)]
pub struct Schedule {
    pub assignments: Vec<(u32, u32, usize)>,
}

/// Points for an empty stretch of `len` slots between two classes.
fn gap_length_points(len: usize) -> (r: u64)
    ensures
        r == gap_score(len as int),
{
    if len == 0 {
        0
    } else if len == 1 {
        20
    } else if len == 2 {
        15
    } else if len == 3 {
        10
    } else {
        5
    }
}

impl Schedule {
    /// Total penalty of the schedule; lower is better. Saturates at the
    /// largest `u64`.
    pub fn calculate_penalty(&self, input: &TimetableInput) -> (r: u64)
        requires
            input.is_normalized(),
            fits(*input, self.assignments@),
        ensures
            r == sat(total_penalty(*input, self.assignments@)),
    {
        proof {
            lemma_normalized_lists(*input);
        }
        let rooms = self.collision_grid(input);
        let groups = self.gap_teleportation_check(input);
        let teachers = self.gap_teleportation_check_teachers(input);
        proof {
            let x = room_usage_penalty(*input, self.assignments@);
            let y = owners_penalty(input.rooms@, self.assignments@, group_lists(input.groups@));
            let z = owners_penalty(input.rooms@, self.assignments@, teacher_lists(input.teachers@));
            lemma_room_usage_nonneg(*input, self.assignments@, self.assignments@.len() as int);
            lemma_owners_penalty_nonneg(input.rooms@, self.assignments@, group_lists(input.groups@));
            lemma_owners_penalty_nonneg(input.rooms@, self.assignments@, teacher_lists(input.teachers@));
            lemma_sat_add(x, y);
            lemma_sat_add(x + y, z);
        }
        rooms.saturating_add(groups).saturating_add(teachers)
    }

    /// Room-usage penalty: for each course, one hard unit for too few seats,
    /// one for a missing laboratory, and one if an earlier course holds the
    /// same room at the same time.
    pub fn collision_grid(&self, input: &TimetableInput) -> (r: u64)
        requires
            input.is_normalized(),
            fits(*input, self.assignments@),
        ensures
            r == sat(room_usage_penalty(*input, self.assignments@)),
    {
        let ghost a = self.assignments@;
        let n_rooms = input.rooms.len();
        let mut grid: Vec<Vec<bool>> = Vec::new();
        let mut k: usize = 0;
        while k < 30
            invariant
                k <= 30,
                n_rooms == input.rooms@.len(),
                grid@.len() == k,
                forall|c: int, r: int|
                    0 <= c < k && 0 <= r < n_rooms ==> !(#[trigger] grid@[c]@[r]),
                forall|c: int| 0 <= c < k ==> (#[trigger] grid@[c])@.len() == n_rooms,
            decreases 30 - k,
        {
            let row: Vec<bool> = vec![false; n_rooms];
            grid.push(row);
            k = k + 1;
        }
        let mut penalty: u64 = 0;
        let mut i: usize = 0;
        while i < self.assignments.len()
            invariant
                i <= a.len(),
                a == self.assignments@,
                input.is_normalized(),
                fits(*input, a),
                n_rooms == input.rooms@.len(),
                grid@.len() == 30,
                forall|c: int| 0 <= c < 30 ==> (#[trigger] grid@[c])@.len() == n_rooms,
                forall|d: u32, s: u32, r: usize|
                    d < 5 && s < 6 && r < n_rooms ==> (#[trigger] grid@[cell(d as int, s as int)]@[r as int]
                        == held_by_first(a, i as int, (d, s, r))),
                penalty == sat(HARD_CONSTRAINT * room_usage_units(*input, a, i as int)),
            decreases a.len() - i,
        {
            let (day, slot, room_id) = self.assignments[i];
            let course = input.get_course(i);
            let room = input.get_room(room_id);
            let mut units: u64 = 0;
            assert(all_below(course.group_ids@, input.groups@.len() as int));
            if (room.capacity as u64) < course.capacity_needed(&input.groups) {
                units = units + 1;
            }
            if course.required_lab && !room.is_laboratory {
                units = units + 1;
            }
            let here: usize = day as usize * 6 + slot as usize;
            assert(grid@[cell(day as int, slot as int)]@[room_id as int] == held_by_first(a, i as int, (day, slot, room_id)));
            if grid[here][room_id] {
                assert(booked_before(a, i as int));
                units = units + 1;
            } else {
                assert(!booked_before(a, i as int));
                let ghost old_grid = grid@;
                grid[here][room_id] = true;
                assert forall|d: u32, s: u32, r: usize|
                    d < 5 && s < 6 && r < n_rooms implies (#[trigger] grid@[cell(d as int, s as int)]@[r as int]
                        == held_by_first(a, i + 1, (d, s, r))) by {
                    if a[i as int] == (d, s, r) {
                        assert(held_by_first(a, i + 1, (d, s, r)));
                    } else {
                        if held_by_first(a, i + 1, (d, s, r)) {
                            let j = choose|j: int| 0 <= j < i + 1 && a[j] == (d, s, r);
                            assert(held_by_first(a, i as int, (d, s, r)));
                        }
                        if cell(d as int, s as int) != here {
                            assert(grid@[cell(d as int, s as int)] == old_grid[cell(d as int, s as int)]);
                        }
                    }
                };
            }
            proof {
                assert(units == room_units(*input, a, i as int));
                lemma_room_usage_nonneg(*input, a, i as int);
                lemma_sat_add(HARD_CONSTRAINT * room_usage_units(*input, a, i as int), HARD_CONSTRAINT * units);
            }
            penalty = penalty.saturating_add(HARD_CONSTRAINT * units);
            i = i + 1;
        }
        penalty
    }

    /// Penalty of the personal timetables of all groups.
    pub fn gap_teleportation_check(&self, input: &TimetableInput) -> (r: u64)
        requires
            lists_below(group_lists(input.groups@), self.assignments@.len() as int),
            entries_in_range(self.assignments@, input.rooms@.len() as int),
        ensures
            r == sat(owners_penalty(input.rooms@, self.assignments@, group_lists(input.groups@))),
    {
        let ghost lists = group_lists(input.groups@);
        let mut total: u64 = 0;
        let mut i: usize = 0;
        while i < input.groups.len()
            invariant
                i <= input.groups@.len(),
                lists == group_lists(input.groups@),
                lists_below(lists, self.assignments@.len() as int),
                entries_in_range(self.assignments@, input.rooms@.len() as int),
                total == sat(owners_penalty(input.rooms@, self.assignments@, lists.take(i as int))),
            decreases input.groups@.len() - i,
        {
            assert(lists[i as int] == input.groups@[i as int].courses@);
            let p = self.owner_check(input, &input.groups[i].courses);
            proof {
                lemma_owners_step(input.rooms@, self.assignments@, lists, i as int);
            }
            total = total.saturating_add(p);
            i = i + 1;
        }
        assert(lists.take(i as int) =~= lists);
        total
    }

    /// Penalty of the personal timetables of all teachers.
    pub fn gap_teleportation_check_teachers(&self, input: &TimetableInput) -> (r: u64)
        requires
            lists_below(teacher_lists(input.teachers@), self.assignments@.len() as int),
            entries_in_range(self.assignments@, input.rooms@.len() as int),
        ensures
            r == sat(
                owners_penalty(input.rooms@, self.assignments@, teacher_lists(input.teachers@)),
            ),
    {
        let ghost lists = teacher_lists(input.teachers@);
        let mut total: u64 = 0;
        let mut i: usize = 0;
        while i < input.teachers.len()
            invariant
                i <= input.teachers@.len(),
                lists == teacher_lists(input.teachers@),
                lists_below(lists, self.assignments@.len() as int),
                entries_in_range(self.assignments@, input.rooms@.len() as int),
                total == sat(owners_penalty(input.rooms@, self.assignments@, lists.take(i as int))),
            decreases input.teachers@.len() - i,
        {
            assert(lists[i as int] == input.teachers@[i as int].course_id@);
            let p = self.owner_check(input, &input.teachers[i].course_id);
            proof {
                lemma_owners_step(input.rooms@, self.assignments@, lists, i as int);
            }
            total = total.saturating_add(p);
            i = i + 1;
        }
        assert(lists.take(i as int) =~= lists);
        total
    }

    /// Hard penalty for moving from `current_room` into the room recorded in a
    /// neighbouring slot: one unit if that room stands in another building.
    fn check_adjacent(&self, current_room: usize, adjacent_room: &Option<usize>, input: &TimetableInput) -> (r: u64)
        requires
            current_room < input.rooms@.len(),
            adjacent_room is Some ==> adjacent_room->0 < input.rooms@.len(),
        ensures
            r == if far_apart(input.rooms@, current_room, *adjacent_room) {
                HARD_CONSTRAINT
            } else {
                0
            },
    {
        match adjacent_room {
            None => 0,
            Some(t) => {
                if input.rooms[*t].building_id != input.rooms[current_room].building_id {
                    HARD_CONSTRAINT
                } else {
                    0
                }
            },
        }
    }

    /// Places course `course_id` into a personal week and returns the hard
    /// penalty that placement meets: a taken slot, or a neighbouring class in
    /// another building.
    fn check_penalty_teleportation(
        &self,
        week: &mut Vec<Option<usize>>,
        input: &TimetableInput,
        course_id: usize,
    ) -> (r: u64)
        requires
            old(week)@.len() == 30,
            week_rooms_below(old(week)@, input.rooms@.len() as int),
            course_id < self.assignments@.len(),
            entries_in_range(self.assignments@, input.rooms@.len() as int),
        ensures
            final(week)@ == place(
                old(week)@,
                self.assignments@[course_id as int].0 as int,
                self.assignments@[course_id as int].1 as int,
                self.assignments@[course_id as int].2,
            ),
            week_rooms_below(final(week)@, input.rooms@.len() as int),
            r == HARD_CONSTRAINT * placement_units(
                input.rooms@,
                old(week)@,
                self.assignments@[course_id as int].0 as int,
                self.assignments@[course_id as int].1 as int,
                self.assignments@[course_id as int].2,
            ),
    {
        let (day, slot, room_id) = self.assignments[course_id];
        assert(self.assignments@[course_id as int].0 < 5);
        let here: usize = day as usize * 6 + slot as usize;
        if week[here].is_some() {
            HARD_CONSTRAINT
        } else {
            week.set(here, Some(room_id));
            let mut penalty: u64 = 0;
            if slot != 0 {
                penalty = penalty + self.check_adjacent(room_id, &week[here - 1], input);
            }
            if slot < 5 {
                penalty = penalty + self.check_adjacent(room_id, &week[here + 1], input);
            }
            penalty
        }
    }

    /// Penalty of the personal timetable made of the courses in `list`:
    /// hard units for taken slots and building changes between neighbouring
    /// slots, then the gap and long-day points of each day.
    fn owner_check(&self, input: &TimetableInput, list: &Vec<usize>) -> (r: u64)
        requires
            crate::model::all_below(list@, self.assignments@.len() as int),
            entries_in_range(self.assignments@, input.rooms@.len() as int),
        ensures
            r == sat(owner_penalty(input.rooms@, self.assignments@, list@)),
    {
        let ghost a = self.assignments@;
        let ghost rooms = input.rooms@;
        let mut week: Vec<Option<usize>> = Vec::new();
        let mut k: usize = 0;
        while k < 30
            invariant
                k <= 30,
                week@ == Seq::new(k as nat, |j: int| None::<usize>),
            decreases 30 - k,
        {
            week.push(None);
            k = k + 1;
        }
        assert(week@ =~= empty_week());
        let mut hard: u64 = 0;
        let mut i: usize = 0;
        while i < list.len()
            invariant
                i <= list@.len(),
                crate::model::all_below(list@, a.len() as int),
                entries_in_range(a, rooms.len() as int),
                a == self.assignments@,
                rooms == input.rooms@,
                week@ == week_after(a, list@, i as int),
                week_rooms_below(week@, rooms.len() as int),
                hard == sat(HARD_CONSTRAINT * hard_units(rooms, a, list@, i as int)),
            decreases list@.len() - i,
        {
            let ghost before = week@;
            proof {
                lemma_week_after_len(a, list@, i as int);
            }
            let cost = self.check_penalty_teleportation(&mut week, input, list[i]);
            proof {
                let e = a[list@[i as int] as int];
                let u = placement_units(rooms, before, e.0 as int, e.1 as int, e.2);
                assert(hard_units(rooms, a, list@, i + 1) == hard_units(rooms, a, list@, i as int)
                    + u);
                assert(HARD_CONSTRAINT * hard_units(rooms, a, list@, i + 1) == HARD_CONSTRAINT
                    * hard_units(rooms, a, list@, i as int) + HARD_CONSTRAINT * u);
                lemma_hard_units_nonneg(rooms, a, list@, i as int);
                assert(HARD_CONSTRAINT * hard_units(rooms, a, list@, i as int) >= 0) by (nonlinear_arith)
                    requires hard_units(rooms, a, list@, i as int) >= 0;
                lemma_sat_add(HARD_CONSTRAINT * hard_units(rooms, a, list@, i as int), cost as int);
            }
            hard = hard.saturating_add(cost);
            i = i + 1;
        }
        proof {
            lemma_week_after_len(a, list@, i as int);
        }
        let mut soft: u64 = 0;
        let mut d: usize = 0;
        while d < 5
            invariant
                d <= 5,
                week@.len() == 30,
                soft == week_soft(week@, d as int),
                soft <= 1000 * d,
            decreases 5 - d,
        {
            let p = self.check_in_day(&week, d);
            proof {
                lemma_day_penalty_bound(row_of(week@, d as int));
            }
            soft = soft + p;
            d = d + 1;
        }
        proof {
            lemma_hard_units_nonneg(rooms, a, list@, list@.len() as int);
            assert(HARD_CONSTRAINT * hard_units(rooms, a, list@, list@.len() as int) >= 0) by (nonlinear_arith)
                requires hard_units(rooms, a, list@, list@.len() as int) >= 0;
            lemma_sat_add(HARD_CONSTRAINT * hard_units(rooms, a, list@, list@.len() as int), soft as int);
        }
        hard.saturating_add(soft)
    }

    /// Soft penalty of one day of a personal timetable: points for each gap
    /// between two classes, and for a day that runs over four slots.
    fn check_in_day(&self, week: &Vec<Option<usize>>, day: usize) -> (r: u64)
        requires
            week@.len() == 30,
            day < 5,
        ensures
            r == day_penalty(row_of(week@, day as int)),
    {
        let ghost row = row_of(week@, day as int);
        let base: usize = day * 6;
        let mut penalty: u64 = 0;
        let mut first: usize = 6;
        let mut last: usize = 6;
        let mut slot: usize = 0;
        while slot < 6
            invariant
                week@.len() == 30,
                day < 5,
                base == day * 6,
                row == row_of(week@, day as int),
                0 <= slot <= 6,
                penalty == gap_points(row, slot as int),
                penalty <= 20 * slot,
                last <= 6,
                last == 6 <==> last_before(row, slot as int) < 0,
                last < 6 ==> last == last_before(row, slot as int),
                last == 6 ==> first == 6,
                last < 6 ==> first == first_from(row, 0),
            decreases 6 - slot,
        {
            proof {
                lemma_last_before_bounds(row, slot as int);
                assert(row[slot as int] == week@[base + slot]);
                assert(gap_points(row, slot + 1) == gap_points(row, slot as int) + gap_ending_at(
                    row,
                    slot as int,
                ));
            }
            if week[base + slot].is_some() {
                if last < 6 {
                    penalty = penalty + gap_length_points(slot - last - 1);
                } else {
                    proof {
                        lemma_no_class_before(row, slot as int);
                    }
                    first = slot;
                }
                last = slot;
            }
            slot = slot + 1;
        }
        proof {
            lemma_first_from_bounds(row, 0);
            lemma_last_before_bounds(row, 6);
        }
        if last < 6 && last - first + 1 > 4 {
            assert(first <= last);
            let excess: u64 = (last - first + 1 - 4) as u64;
            assert(excess * excess * 50 <= 200) by (nonlinear_arith)
                requires
                    excess <= 2,
            ;
            penalty = penalty + excess * excess * 50;
        }
        penalty
    }
}

} // verus!
