use vstd::prelude::*;
use crate::model::{Group, Room, Teacher, TimetableInput, all_below, lemma_sat_add, sat, students_of};

verus! {

/// Penalty for each violated hard constraint.
pub const HARD_CONSTRAINT: u64 = 100000;

/// Position of (`day`, `slot`) in a week laid out day after day.
pub open spec fn cell(day: int, slot: int) -> int {
    day * 6 + slot
}

/// The slots of `day` in a week laid out day after day.
pub open spec fn row_of(week: Seq<Option<usize>>, day: int) -> Seq<Option<usize>> {
    week.subrange(cell(day, 0), cell(day, 0) + 6)
}

/// Whether the room recorded in a neighbouring slot, if any, stands in
/// another building than `here`.
pub open spec fn far_apart(rooms: Seq<Room>, here: usize, there: Option<usize>) -> bool {
    there is Some && rooms[there->0 as int].building_id != rooms[here as int].building_id
}

/// Hard units for placing a class in `room` at (`day`, `slot`) of a personal
/// week: one if the slot is taken already, else one for each neighbouring
/// slot of the same day held in another building.
pub open spec fn placement_units(
    rooms: Seq<Room>,
    week: Seq<Option<usize>>,
    day: int,
    slot: int,
    room: usize,
) -> int {
    if week[cell(day, slot)] is Some {
        1
    } else {
        (if slot > 0 && far_apart(rooms, room, week[cell(day, slot - 1)]) {
            1int
        } else {
            0int
        }) + (if slot < 5 && far_apart(rooms, room, week[cell(day, slot + 1)]) {
            1int
        } else {
            0int
        })
    }
}

/// A personal week after placing a class in `room` at (`day`, `slot`): a taken
/// slot keeps its first class.
pub open spec fn place(week: Seq<Option<usize>>, day: int, slot: int, room: usize) -> Seq<
    Option<usize>,
> {
    if week[cell(day, slot)] is Some {
        week
    } else {
        week.update(cell(day, slot), Some(room))
    }
}

/// A week with no class.
pub open spec fn empty_week() -> Seq<Option<usize>> {
    Seq::new(30, |k: int| None)
}

/// The personal week after placing the first `n` courses of `list`, in order.
pub open spec fn week_after(a: Seq<(u32, u32, usize)>, list: Seq<usize>, n: int) -> Seq<
    Option<usize>,
>
    decreases n,
{
    if n <= 0 {
        empty_week()
    } else {
        let e = a[list[n - 1] as int];
        place(week_after(a, list, n - 1), e.0 as int, e.1 as int, e.2)
    }
}

/// Hard units met while placing the first `n` courses of `list`, in order.
pub open spec fn hard_units(
    rooms: Seq<Room>,
    a: Seq<(u32, u32, usize)>,
    list: Seq<usize>,
    n: int,
) -> int
    decreases n,
{
    if n <= 0 {
        0
    } else {
        let e = a[list[n - 1] as int];
        hard_units(rooms, a, list, n - 1) + placement_units(
            rooms,
            week_after(a, list, n - 1),
            e.0 as int,
            e.1 as int,
            e.2,
        )
    }
}

/// Soft penalty of the first `d` days of a personal week.
pub open spec fn week_soft(week: Seq<Option<usize>>, d: int) -> int
    decreases d,
{
    if d <= 0 {
        0
    } else {
        week_soft(week, d - 1) + day_penalty(row_of(week, d - 1))
    }
}

/// Penalty of the personal timetable made of the courses in `list`.
pub open spec fn owner_penalty(rooms: Seq<Room>, a: Seq<(u32, u32, usize)>, list: Seq<usize>) -> int {
    HARD_CONSTRAINT * hard_units(rooms, a, list, list.len() as int) + week_soft(
        week_after(a, list, list.len() as int),
        5,
    )
}

/// Sum of the personal-timetable penalties of all `lists`.
pub open spec fn owners_penalty(
    rooms: Seq<Room>,
    a: Seq<(u32, u32, usize)>,
    lists: Seq<Seq<usize>>,
) -> int
    decreases lists.len(),
{
    if lists.len() == 0 {
        0
    } else {
        owners_penalty(rooms, a, lists.drop_last()) + owner_penalty(rooms, a, lists.last())
    }
}

/// The personal timetables of the groups.
pub open spec fn group_lists(groups: Seq<Group>) -> Seq<Seq<usize>> {
    groups.map_values(|g: Group| g.courses@)
}

/// The personal timetables of the teachers.
pub open spec fn teacher_lists(teachers: Seq<Teacher>) -> Seq<Seq<usize>> {
    teachers.map_values(|t: Teacher| t.course_id@)
}

/// Every entry names one of the five days, one of the six slots and one of
/// `n_rooms` rooms.
pub open spec fn entries_in_range(a: Seq<(u32, u32, usize)>, n_rooms: int) -> bool {
    forall|i: int|
        0 <= i < a.len() ==> (#[trigger] a[i]).0 < 5 && a[i].1 < 6 && a[i].2 < n_rooms
}

/// Every room recorded in a personal week is one of `n_rooms` rooms.
pub open spec fn week_rooms_below(week: Seq<Option<usize>>, n_rooms: int) -> bool {
    forall|k: int| 0 <= k < week.len() && (#[trigger] week[k]) is Some ==> week[k]->0 < n_rooms
}

/// Every list refers to entries of the schedule.
pub open spec fn lists_below(lists: Seq<Seq<usize>>, n: int) -> bool {
    forall|i: int| 0 <= i < lists.len() ==> crate::model::all_below(#[trigger] lists[i], n)
}

/// Whether a course before course `i` holds the same day, slot and room.
pub open spec fn booked_before(a: Seq<(u32, u32, usize)>, i: int) -> bool {
    exists|j: int| 0 <= j < i && a[j] == a[i]
}

/// Whether one of the first `n` courses holds `entry`.
pub open spec fn held_by_first(a: Seq<(u32, u32, usize)>, n: int, entry: (u32, u32, usize)) -> bool {
    exists|j: int| 0 <= j < n && a[j] == entry
}

/// Hard units of course `i` in its room: too few seats, no laboratory where
/// one is needed, and a room already taken at that time.
pub open spec fn room_units(input: TimetableInput, a: Seq<(u32, u32, usize)>, i: int) -> int {
    let room = input.rooms@[a[i].2 as int];
    let course = input.courses@[i];
    (if (room.capacity as int) < students_of(input.groups@, course.group_ids@) {
        1int
    } else {
        0int
    }) + (if course.required_lab && !room.is_laboratory {
        1int
    } else {
        0int
    }) + (if booked_before(a, i) {
        1int
    } else {
        0int
    })
}

/// Hard units of the first `n` courses in their rooms.
pub open spec fn room_usage_units(input: TimetableInput, a: Seq<(u32, u32, usize)>, n: int) -> int
    decreases n,
{
    if n <= 0 {
        0
    } else {
        room_usage_units(input, a, n - 1) + room_units(input, a, n - 1)
    }
}

/// Room-usage penalty of a whole schedule.
pub open spec fn room_usage_penalty(input: TimetableInput, a: Seq<(u32, u32, usize)>) -> int {
    HARD_CONSTRAINT * room_usage_units(input, a, a.len() as int)
}

/// Whether a schedule has one in-range entry for each course of `input`.
pub open spec fn fits(input: TimetableInput, a: Seq<(u32, u32, usize)>) -> bool {
    &&& a.len() == input.courses@.len()
    &&& entries_in_range(a, input.rooms@.len() as int)
}

/// Total penalty of a schedule: room usage, then the personal timetables of
/// all groups and of all teachers.
pub open spec fn total_penalty(input: TimetableInput, a: Seq<(u32, u32, usize)>) -> int {
    room_usage_penalty(input, a) + owners_penalty(input.rooms@, a, group_lists(input.groups@))
        + owners_penalty(input.rooms@, a, teacher_lists(input.teachers@))
}

/// Points for an empty stretch of `len` slots between two classes.
pub open spec fn gap_score(len: int) -> int {
    if len <= 0 {
        0
    } else if len == 1 {
        20
    } else if len == 2 {
        15
    } else if len == 3 {
        10
    } else {
        5
    }
}

/// The last occupied slot before `s`, or -1 when there is none.
pub open spec fn last_before(row: Seq<Option<usize>>, s: int) -> int
    decreases s,
{
    if s <= 0 {
        -1
    } else if row[s - 1] is Some {
        s - 1
    } else {
        last_before(row, s - 1)
    }
}

/// The first occupied slot at or after `s`, or 6 when there is none.
pub open spec fn first_from(row: Seq<Option<usize>>, s: int) -> int
    decreases 6 - s,
{
    if s >= 6 {
        6
    } else if row[s] is Some {
        s
    } else {
        first_from(row, s + 1)
    }
}

/// Points for the gap that ends at slot `s`, if a class at `s` follows an
/// earlier class after one or more empty slots.
pub open spec fn gap_ending_at(row: Seq<Option<usize>>, s: int) -> int {
    if row[s] is Some && last_before(row, s) >= 0 {
        gap_score(s - last_before(row, s) - 1)
    } else {
        0
    }
}

/// Gap points of the first `n` slots of a day.
pub open spec fn gap_points(row: Seq<Option<usize>>, n: int) -> int
    decreases n,
{
    if n <= 0 {
        0
    } else {
        gap_points(row, n - 1) + gap_ending_at(row, n - 1)
    }
}

/// Slots from the first to the last class of the day, both included.
pub open spec fn window(row: Seq<Option<usize>>) -> int {
    if last_before(row, 6) >= 0 {
        last_before(row, 6) - first_from(row, 0) + 1
    } else {
        0
    }
}

/// Points for a day that spans more than four slots.
pub open spec fn window_points(row: Seq<Option<usize>>) -> int {
    if window(row) > 4 {
        (window(row) - 4) * (window(row) - 4) * 50
    } else {
        0
    }
}

/// Soft penalty of one day of a personal timetable.
pub open spec fn day_penalty(row: Seq<Option<usize>>) -> int {
    gap_points(row, 6) + window_points(row)
}

/// Gap points of the first `d` days of a personal week.
pub open spec fn week_gaps(week: Seq<Option<usize>>, d: int) -> int
    decreases d,
{
    if d <= 0 {
        0
    } else {
        week_gaps(week, d - 1) + gap_points(row_of(week, d - 1), 6)
    }
}

/// Gap points of all personal timetables in `lists`.
pub open spec fn owners_gaps(a: Seq<(u32, u32, usize)>, lists: Seq<Seq<usize>>) -> int
    decreases lists.len(),
{
    if lists.len() == 0 {
        0
    } else {
        owners_gaps(a, lists.drop_last()) + week_gaps(
            week_after(a, lists.last(), lists.last().len() as int),
            5,
        )
    }
}

/// Whether each personal timetable of `lists` meets no hard constraint and
/// has no day that spans more than four slots.
pub open spec fn owners_calm(rooms: Seq<Room>, a: Seq<(u32, u32, usize)>, lists: Seq<Seq<usize>>) -> bool {
    forall|i: int|
        0 <= i < lists.len() ==> {
            &&& hard_units(rooms, a, #[trigger] lists[i], lists[i].len() as int) == 0
            &&& forall|d: int|
                0 <= d < 5 ==> window(row_of(week_after(a, lists[i], lists[i].len() as int), d))
                    <= 4
        }
}

pub(crate) proof fn lemma_week_soft_is_gaps(week: Seq<Option<usize>>, d: int)
    requires
        forall|e: int| 0 <= e < d ==> window(row_of(week, e)) <= 4,
    ensures
        week_soft(week, d) == week_gaps(week, d),
    decreases d,
{
    if d > 0 {
        lemma_week_soft_is_gaps(week, d - 1);
        assert(window(row_of(week, d - 1)) <= 4);
    }
}

pub(crate) proof fn lemma_calm_owners_score_gaps(rooms: Seq<Room>, a: Seq<(u32, u32, usize)>, lists: Seq<Seq<usize>>)
    requires
        owners_calm(rooms, a, lists),
    ensures
        owners_penalty(rooms, a, lists) == owners_gaps(a, lists),
    decreases lists.len(),
{
    if lists.len() > 0 {
        let l = lists.last();
        assert(l == lists[lists.len() - 1]);
        assert(owners_calm(rooms, a, lists.drop_last())) by {
            assert forall|i: int| 0 <= i < lists.drop_last().len() implies lists.drop_last()[i]
                == lists[i] by {}
        }
        lemma_calm_owners_score_gaps(rooms, a, lists.drop_last());
        lemma_week_soft_is_gaps(week_after(a, l, l.len() as int), 5);
    }
}

/// A schedule that meets no hard constraint, and gives no group or teacher a
/// day spanning more than four slots, scores exactly its gap points; with no
/// gaps either, it scores zero.
pub proof fn lemma_calm_schedule_scores_gaps(input: TimetableInput, a: Seq<(u32, u32, usize)>)
    requires
        room_usage_units(input, a, a.len() as int) == 0,
        owners_calm(input.rooms@, a, group_lists(input.groups@)),
        owners_calm(input.rooms@, a, teacher_lists(input.teachers@)),
    ensures
        total_penalty(input, a) == owners_gaps(a, group_lists(input.groups@)) + owners_gaps(
            a,
            teacher_lists(input.teachers@),
        ),
{
    lemma_calm_owners_score_gaps(input.rooms@, a, group_lists(input.groups@));
    lemma_calm_owners_score_gaps(input.rooms@, a, teacher_lists(input.teachers@));
}

/// The penalty of all owners without the one at `j` plus that one's.
pub(crate) proof fn lemma_owners_remove(rooms: Seq<Room>, a: Seq<(u32, u32, usize)>, lists: Seq<Seq<usize>>, j: int)
    requires
        0 <= j < lists.len(),
    ensures
        owners_penalty(rooms, a, lists) == owners_penalty(rooms, a, lists.remove(j)) + owner_penalty(
            rooms,
            a,
            lists[j],
        ),
    decreases lists.len(),
{
    if j == lists.len() - 1 {
        assert(lists.remove(j) =~= lists.drop_last());
    } else {
        lemma_owners_remove(rooms, a, lists.drop_last(), j);
        assert(lists.drop_last().remove(j) =~= lists.remove(j).drop_last());
        assert(lists.remove(j).last() == lists.last());
    }
}

/// The order in which groups or teachers are scanned does not change their
/// total penalty: any two arrangements of the same personal timetables score
/// the same.
pub proof fn lemma_owner_order(
    rooms: Seq<Room>,
    a: Seq<(u32, u32, usize)>,
    lists1: Seq<Seq<usize>>,
    lists2: Seq<Seq<usize>>,
)
    requires
        lists1.to_multiset() == lists2.to_multiset(),
    ensures
        owners_penalty(rooms, a, lists1) == owners_penalty(rooms, a, lists2),
    decreases lists1.len(),
{
    broadcast use vstd::seq_lib::group_to_multiset_ensures;

    if lists1.len() == 0 {
        assert(lists1.to_multiset().len() == 0);
        assert(lists2.to_multiset().len() == lists2.len());
        assert(lists1 =~= lists2);
    } else {
        let x = lists1.last();
        let rest = lists1.drop_last();
        assert(lists1 =~= rest.push(x));
        assert(lists1.to_multiset() =~= rest.to_multiset().insert(x));
        assert(lists2.to_multiset().count(x) > 0);
        assert(lists2.contains(x));
        let j = choose|j: int| 0 <= j < lists2.len() && lists2[j] == x;
        assert(lists2.remove(j).to_multiset() =~= lists2.to_multiset().remove(x));
        assert(rest.to_multiset().insert(x).remove(x) =~= rest.to_multiset());
        lemma_owner_order(rooms, a, rest, lists2.remove(j));
        lemma_owners_remove(rooms, a, lists2, j);
    }
}

pub(crate) proof fn lemma_week_gaps_nonneg(week: Seq<Option<usize>>, d: int)
    ensures
        week_gaps(week, d) >= 0,
    decreases d,
{
    if d > 0 {
        lemma_week_gaps_nonneg(week, d - 1);
        lemma_gap_points_nonneg(row_of(week, d - 1), 6);
    }
}

pub(crate) proof fn lemma_window_points_nonneg(row: Seq<Option<usize>>)
    ensures
        window_points(row) >= 0,
{
    let w = window(row);
    if w > 4 {
        assert((w - 4) * (w - 4) * 50 >= 0) by (nonlinear_arith);
    }
}

/// A week with no soft points has no gap points and no day over four slots.
pub(crate) proof fn lemma_quiet_week(week: Seq<Option<usize>>, d: int)
    requires
        week_soft(week, d) == 0,
    ensures
        week_gaps(week, d) == 0,
        forall|e: int| 0 <= e < d ==> window(row_of(week, e)) <= 4,
    decreases d,
{
    if d > 0 {
        let row = row_of(week, d - 1);
        lemma_week_soft_nonneg(week, d - 1);
        lemma_gap_points_nonneg(row, 6);
        lemma_window_points_nonneg(row);
        lemma_quiet_week(week, d - 1);
        if window(row) > 4 {
            let w = window(row);
            assert((w - 4) * (w - 4) * 50 > 0) by (nonlinear_arith)
                requires
                    w > 4,
            ;
        }
    }
}

/// Owners whose total penalty is zero each meet no hard constraint, have no
/// day over four slots, and score no gap points.
pub(crate) proof fn lemma_quiet_owners(rooms: Seq<Room>, a: Seq<(u32, u32, usize)>, lists: Seq<Seq<usize>>)
    requires
        owners_penalty(rooms, a, lists) == 0,
    ensures
        owners_calm(rooms, a, lists),
        owners_gaps(a, lists) == 0,
    decreases lists.len(),
{
    if lists.len() > 0 {
        let l = lists.last();
        let rest = lists.drop_last();
        let week = week_after(a, l, l.len() as int);
        lemma_owners_penalty_nonneg(rooms, a, rest);
        lemma_owner_penalty_nonneg(rooms, a, l);
        lemma_quiet_owners(rooms, a, rest);
        lemma_hard_units_nonneg(rooms, a, l, l.len() as int);
        lemma_week_soft_nonneg(week, 5);
        assert(HARD_CONSTRAINT * hard_units(rooms, a, l, l.len() as int) == 0);
        lemma_quiet_week(week, 5);
        assert forall|i: int| 0 <= i < lists.len() implies {
            &&& hard_units(rooms, a, #[trigger] lists[i], lists[i].len() as int) == 0
            &&& forall|d: int|
                0 <= d < 5 ==> window(row_of(week_after(a, lists[i], lists[i].len() as int), d))
                    <= 4
        } by {
            if i < lists.len() - 1 {
                assert(lists[i] == rest[i]);
            }
        }
    }
}

/// A schedule scores zero exactly when it meets no hard constraint (no room
/// overfull, lacking a laboratory or taken twice; no group or teacher booked
/// twice at once or moving between buildings between neighbouring slots), no
/// group or teacher has a day spanning more than four slots, and none has a
/// gap between classes.
pub proof fn lemma_zero_penalty_iff_clean(input: TimetableInput, a: Seq<(u32, u32, usize)>)
    ensures
        total_penalty(input, a) == 0 <==> {
            &&& room_usage_units(input, a, a.len() as int) == 0
            &&& owners_calm(input.rooms@, a, group_lists(input.groups@))
            &&& owners_calm(input.rooms@, a, teacher_lists(input.teachers@))
            &&& owners_gaps(a, group_lists(input.groups@)) == 0
            &&& owners_gaps(a, teacher_lists(input.teachers@)) == 0
        },
{
    let gl = group_lists(input.groups@);
    let tl = teacher_lists(input.teachers@);
    lemma_room_usage_nonneg(input, a, a.len() as int);
    lemma_owners_penalty_nonneg(input.rooms@, a, gl);
    lemma_owners_penalty_nonneg(input.rooms@, a, tl);
    if total_penalty(input, a) == 0 {
        lemma_quiet_owners(input.rooms@, a, gl);
        lemma_quiet_owners(input.rooms@, a, tl);
    }
    if room_usage_units(input, a, a.len() as int) == 0 && owners_calm(input.rooms@, a, gl)
        && owners_calm(input.rooms@, a, tl) {
        lemma_calm_schedule_scores_gaps(input, a);
    }
}

/// Whether `pi` renumbers `n` items: it sends each index below `n` to a
/// distinct index below `n`.
pub open spec fn is_renumbering(pi: Seq<int>, n: int) -> bool {
    &&& pi.len() == n
    &&& forall|i: int| 0 <= i < n ==> 0 <= #[trigger] pi[i] < n
    &&& forall|i: int, j: int| 0 <= i < j < n ==> #[trigger] pi[i] != #[trigger] pi[j]
}

/// Group indices renamed through `pi`.
pub open spec fn renamed(ids: Seq<usize>, pi: Seq<int>) -> Seq<usize> {
    ids.map_values(|g: usize| pi[g as int] as usize)
}

/// Two sequences that hold the same items under a renumbering hold the same
/// multiset.
proof fn lemma_renumbered_multiset<A>(s1: Seq<A>, s2: Seq<A>, pi: Seq<int>)
    requires
        s1.len() == s2.len(),
        is_renumbering(pi, s1.len() as int),
        forall|i: int| 0 <= i < s1.len() ==> s2[#[trigger] pi[i]] == s1[i],
    ensures
        s1.to_multiset() == s2.to_multiset(),
    decreases s1.len(),
{
    broadcast use vstd::seq_lib::group_to_multiset_ensures;

    if s1.len() == 0 {
        assert(s1.to_multiset().len() == 0);
        assert(s2.to_multiset().len() == 0);
        assert(s1.to_multiset() =~= s2.to_multiset());
    } else {
        let n = s1.len() - 1;
        let j = pi[n];
        let x = s1[n];
        let pi2 = Seq::new(n as nat, |i: int| if pi[i] > j { pi[i] - 1 } else { pi[i] });
        let r2 = s2.remove(j);
        assert forall|i: int| 0 <= i < n implies r2[#[trigger] pi2[i]] == s1.drop_last()[i] by {
            assert(pi[i] != pi[n]);
            assert(s2[pi[i]] == s1[i]);
        }
        assert forall|i: int, k: int| 0 <= i < k < n implies #[trigger] pi2[i] != #[trigger] pi2[k] by {
            assert(pi[i] != pi[k]);
            assert(pi[i] != pi[n]);
            assert(pi[k] != pi[n]);
        }
        assert forall|i: int| 0 <= i < n implies 0 <= #[trigger] pi2[i] < n by {
            assert(pi[i] != pi[n]);
        }
        lemma_renumbered_multiset(s1.drop_last(), r2, pi2);
        assert(s1 =~= s1.drop_last().push(x));
        assert(s1.to_multiset() =~= s1.drop_last().to_multiset().insert(x));
        assert(s2[j] == x);
        assert(r2.to_multiset() =~= s2.to_multiset().remove(x));
        assert(s2.contains(x));
        assert(s2.to_multiset().count(x) > 0);
        assert(s2.to_multiset().remove(x).insert(x) =~= s2.to_multiset());
    }
}

proof fn lemma_renamed_students(g1: Seq<Group>, g2: Seq<Group>, pi: Seq<int>, ids: Seq<usize>)
    requires
        is_renumbering(pi, g1.len() as int),
        g2.len() == g1.len(),
        forall|g: int|
            0 <= g < g1.len() ==> g2[#[trigger] pi[g]].numbers_of_students
                == g1[g].numbers_of_students,
        all_below(ids, g1.len() as int),
        g1.len() <= usize::MAX,
    ensures
        students_of(g2, renamed(ids, pi)) == students_of(g1, ids),
    decreases ids.len(),
{
    if ids.len() > 0 {
        assert(renamed(ids, pi).drop_last() =~= renamed(ids.drop_last(), pi));
        lemma_renamed_students(g1, g2, pi, ids.drop_last());
        let g = ids.last() as int;
        assert(0 <= pi[g] < g1.len());
        assert(renamed(ids, pi).last() == pi[g] as usize);
        assert(g2[pi[g]].numbers_of_students == g1[g].numbers_of_students);
    } else {
        assert(renamed(ids, pi).len() == 0);
    }
}

proof fn lemma_renamed_room_usage(input1: TimetableInput, input2: TimetableInput, a: Seq<(u32, u32, usize)>, pi: Seq<int>, n: int)
    requires
        0 <= n <= input1.courses@.len(),
        input2.rooms@ == input1.rooms@,
        input2.courses@.len() == input1.courses@.len(),
        input1.is_normalized(),
        input2.groups@.len() == input1.groups@.len(),
        is_renumbering(pi, input1.groups@.len() as int),
        forall|g: int|
            0 <= g < input1.groups@.len() ==> input2.groups@[#[trigger] pi[g]].numbers_of_students
                == input1.groups@[g].numbers_of_students,
        forall|c: int|
            0 <= c < input1.courses@.len() ==> (#[trigger] input2.courses@[c]).required_lab
                == input1.courses@[c].required_lab && input2.courses@[c].group_ids@ == renamed(
                input1.courses@[c].group_ids@,
                pi,
            ),
    ensures
        room_usage_units(input1, a, n) == room_usage_units(input2, a, n),
    decreases n,
{
    if n > 0 {
        lemma_renamed_room_usage(input1, input2, a, pi, n - 1);
        let c = n - 1;
        assert(input2.courses@[c].required_lab == input1.courses@[c].required_lab);
        assert(all_below(input1.courses@[c].group_ids@, input1.groups@.len() as int));
        assert(input1.groups@.len() == input1.groups.len());
        lemma_renamed_students(input1.groups@, input2.groups@, pi, input1.courses@[c].group_ids@);
    }
}

/// The order in which groups and teachers are listed does not change the
/// total penalty: listing the groups in another order (`pi` gives each
/// group's new index, and the courses name their groups by the new indices)
/// and the teachers in another order (`sigma`) scores every schedule the
/// same.
pub proof fn lemma_renumbering_keeps_penalty(
    input1: TimetableInput,
    input2: TimetableInput,
    a: Seq<(u32, u32, usize)>,
    pi: Seq<int>,
    sigma: Seq<int>,
)
    requires
        input1.is_normalized(),
        a.len() == input1.courses@.len(),
        input2.rooms@ == input1.rooms@,
        input2.courses@.len() == input1.courses@.len(),
        forall|c: int|
            0 <= c < input1.courses@.len() ==> (#[trigger] input2.courses@[c]).required_lab
                == input1.courses@[c].required_lab && input2.courses@[c].group_ids@ == renamed(
                input1.courses@[c].group_ids@,
                pi,
            ),
        input2.groups@.len() == input1.groups@.len(),
        is_renumbering(pi, input1.groups@.len() as int),
        forall|g: int|
            0 <= g < input1.groups@.len() ==> input2.groups@[#[trigger] pi[g]].numbers_of_students
                == input1.groups@[g].numbers_of_students && input2.groups@[pi[g]].courses@
                == input1.groups@[g].courses@,
        input2.teachers@.len() == input1.teachers@.len(),
        is_renumbering(sigma, input1.teachers@.len() as int),
        forall|t: int|
            0 <= t < input1.teachers@.len() ==> input2.teachers@[#[trigger] sigma[t]].course_id@
                == input1.teachers@[t].course_id@,
    ensures
        total_penalty(input1, a) == total_penalty(input2, a),
{
    lemma_renamed_room_usage(input1, input2, a, pi, a.len() as int);
    let gl1 = group_lists(input1.groups@);
    let gl2 = group_lists(input2.groups@);
    let tl1 = teacher_lists(input1.teachers@);
    let tl2 = teacher_lists(input2.teachers@);
    assert forall|i: int| 0 <= i < gl1.len() implies gl2[#[trigger] pi[i]] == gl1[i] by {
        assert(0 <= pi[i] < gl2.len());
    }
    lemma_renumbered_multiset(gl1, gl2, pi);
    assert forall|i: int| 0 <= i < tl1.len() implies tl2[#[trigger] sigma[i]] == tl1[i] by {
        assert(0 <= sigma[i] < tl2.len());
    }
    lemma_renumbered_multiset(tl1, tl2, sigma);
    lemma_owner_order(input1.rooms@, a, gl1, gl2);
    lemma_owner_order(input1.rooms@, a, tl1, tl2);
}

pub(crate) proof fn lemma_room_usage_nonneg(input: TimetableInput, a: Seq<(u32, u32, usize)>, n: int)
    ensures
        room_usage_units(input, a, n) >= 0,
    decreases n,
{
    if n > 0 {
        lemma_room_usage_nonneg(input, a, n - 1);
    }
}

pub(crate) proof fn lemma_normalized_lists(input: TimetableInput)
    requires
        input.is_normalized(),
    ensures
        lists_below(group_lists(input.groups@), input.courses@.len() as int),
        lists_below(teacher_lists(input.teachers@), input.courses@.len() as int),
{
    assert forall|i: int| 0 <= i < group_lists(input.groups@).len() implies all_below(
        #[trigger] group_lists(input.groups@)[i],
        input.courses@.len() as int,
    ) by {
        assert(group_lists(input.groups@)[i] == input.groups@[i].courses@);
    }
    assert forall|i: int| 0 <= i < teacher_lists(input.teachers@).len() implies all_below(
        #[trigger] teacher_lists(input.teachers@)[i],
        input.courses@.len() as int,
    ) by {
        assert(teacher_lists(input.teachers@)[i] == input.teachers@[i].course_id@);
    }
}

pub(crate) proof fn lemma_owner_penalty_nonneg(rooms: Seq<Room>, a: Seq<(u32, u32, usize)>, list: Seq<usize>)
    ensures
        owner_penalty(rooms, a, list) >= 0,
{
    lemma_hard_units_nonneg(rooms, a, list, list.len() as int);
    lemma_week_soft_nonneg(week_after(a, list, list.len() as int), 5);
}

pub(crate) proof fn lemma_week_soft_nonneg(week: Seq<Option<usize>>, d: int)
    ensures
        week_soft(week, d) >= 0,
    decreases d,
{
    if d > 0 {
        lemma_week_soft_nonneg(week, d - 1);
        lemma_gap_points_nonneg(row_of(week, d - 1), 6);
    }
}

pub(crate) proof fn lemma_gap_points_nonneg(row: Seq<Option<usize>>, n: int)
    ensures
        gap_points(row, n) >= 0,
    decreases n,
{
    if n > 0 {
        lemma_gap_points_nonneg(row, n - 1);
    }
}

/// The penalty of all owners is never negative.
pub proof fn lemma_owners_penalty_nonneg(
    rooms: Seq<Room>,
    a: Seq<(u32, u32, usize)>,
    lists: Seq<Seq<usize>>,
)
    ensures
        owners_penalty(rooms, a, lists) >= 0,
    decreases lists.len(),
{
    if lists.len() > 0 {
        lemma_owners_penalty_nonneg(rooms, a, lists.drop_last());
        lemma_owner_penalty_nonneg(rooms, a, lists.last());
    }
}

pub(crate) proof fn lemma_owners_step(rooms: Seq<Room>, a: Seq<(u32, u32, usize)>, lists: Seq<Seq<usize>>, i: int)
    requires
        0 <= i < lists.len(),
    ensures
        sat(sat(owners_penalty(rooms, a, lists.take(i))) + sat(owner_penalty(rooms, a, lists[i])))
            == sat(owners_penalty(rooms, a, lists.take(i + 1))),
{
    assert(lists.take(i + 1).drop_last() =~= lists.take(i));
    lemma_owners_penalty_nonneg(rooms, a, lists.take(i));
    lemma_owner_penalty_nonneg(rooms, a, lists[i]);
    lemma_sat_add(owners_penalty(rooms, a, lists.take(i)), owner_penalty(rooms, a, lists[i]));
}

pub(crate) proof fn lemma_week_after_len(a: Seq<(u32, u32, usize)>, list: Seq<usize>, n: int)
    requires
        n <= list.len(),
        crate::model::all_below(list, a.len() as int),
        forall|i: int| 0 <= i < a.len() ==> (#[trigger] a[i]).0 < 5 && a[i].1 < 6,
    ensures
        week_after(a, list, n).len() == 30,
    decreases n,
{
    if n > 0 {
        lemma_week_after_len(a, list, n - 1);
        let e = a[list[n - 1] as int];
        assert(e.0 < 5 && e.1 < 6);
    }
}

pub(crate) proof fn lemma_hard_units_nonneg(rooms: Seq<Room>, a: Seq<(u32, u32, usize)>, list: Seq<usize>, n: int)
    ensures
        hard_units(rooms, a, list, n) >= 0,
    decreases n,
{
    if n > 0 {
        lemma_hard_units_nonneg(rooms, a, list, n - 1);
    }
}

pub(crate) proof fn lemma_gap_points_bound(row: Seq<Option<usize>>, n: int)
    ensures
        0 <= gap_points(row, n) <= 20 * n || n <= 0,
        n <= 0 ==> gap_points(row, n) == 0,
    decreases n,
{
    if n > 0 {
        lemma_gap_points_bound(row, n - 1);
    }
}

/// One day of a personal week scores at most 1000 soft points.
pub(crate) proof fn lemma_day_penalty_bound(row: Seq<Option<usize>>)
    requires
        row.len() == 6,
    ensures
        0 <= day_penalty(row) <= 1000,
{
    lemma_gap_points_bound(row, 6);
    lemma_first_from_bounds(row, 0);
    lemma_last_before_bounds(row, 6);
    let w = window(row);
    if w > 4 {
        assert(w <= 6);
        assert((w - 4) * (w - 4) * 50 <= 200) by (nonlinear_arith)
            requires
                4 < w <= 6,
        ;
    }
}

pub(crate) proof fn lemma_first_from_bounds(row: Seq<Option<usize>>, s: int)
    requires
        0 <= s <= 6,
    ensures
        s <= first_from(row, s) <= 6,
        first_from(row, s) < 6 ==> row[first_from(row, s)] is Some,
        forall|t: int| s <= t < first_from(row, s) ==> !(row[t] is Some),
    decreases 6 - s,
{
    if s < 6 && !(row[s] is Some) {
        lemma_first_from_bounds(row, s + 1);
    }
}

pub(crate) proof fn lemma_last_before_bounds(row: Seq<Option<usize>>, s: int)
    requires
        0 <= s <= 6,
    ensures
        -1 <= last_before(row, s) < s,
        last_before(row, s) >= 0 ==> row[last_before(row, s)] is Some,
        forall|t: int| last_before(row, s) < t < s ==> !(row[t] is Some),
    decreases s,
{
    if s > 0 && !(row[s - 1] is Some) {
        lemma_last_before_bounds(row, s - 1);
    }
}

/// With no class before `s`, the first class of the day is at or after `s`.
pub(crate) proof fn lemma_no_class_before(row: Seq<Option<usize>>, s: int)
    requires
        0 <= s <= 6,
        last_before(row, s) < 0,
    ensures
        first_from(row, 0) == first_from(row, s),
    decreases s,
{
    if s > 0 {
        lemma_no_class_before(row, s - 1);
    }
}

} // verus!
