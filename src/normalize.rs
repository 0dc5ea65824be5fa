use std::collections::HashMap;
use vstd::prelude::*;
use crate::model::{Course, Group, Teacher, TimetableInput, all_below};

verus! {

broadcast use vstd::std_specs::hash::group_hash_axioms;

/// Why an input could not be normalized.
#[derive(Debug, Clone, Copy, PartialEq, Eq)]
pub enum NormalizeError {
    /// A cross reference names an identifier that no entity declares.
    UnknownId(usize),
}

/// The last position before `n` whose identifier is `x`; with repeated
/// identifiers the last declaration wins.
pub open spec fn last_index_of(ids: Seq<usize>, x: usize, n: int) -> Option<int>
    decreases n,
{
    if n <= 0 {
        None
    } else if ids[n - 1] == x {
        Some(n - 1)
    } else {
        last_index_of(ids, x, n - 1)
    }
}

/// Index of the entity whose identifier is `x`, if one declares it.
pub open spec fn index_of_id(ids: Seq<usize>, x: usize) -> Option<int> {
    last_index_of(ids, x, ids.len() as int)
}

/// Whether every identifier of `refs` is declared in `ids`.
pub open spec fn resolves(ids: Seq<usize>, refs: Seq<usize>) -> bool {
    forall|i: int| 0 <= i < refs.len() ==> (#[trigger] index_of_id(ids, refs[i])) is Some
}

/// `refs` with each identifier replaced by the index that declares it.
pub open spec fn resolved(ids: Seq<usize>, refs: Seq<usize>) -> Seq<usize> {
    refs.map_values(|x: usize| index_of_id(ids, x)->0 as usize)
}

/// The identifiers the groups declare, in order.
pub open spec fn group_id_seq(groups: Seq<Group>) -> Seq<usize> {
    groups.map_values(|g: Group| g.id)
}

/// The identifiers the courses declare, in order.
pub open spec fn course_id_seq(courses: Seq<Course>) -> Seq<usize> {
    courses.map_values(|c: Course| c.id)
}

/// Whether every cross reference of `input` names a declared identifier.
pub open spec fn all_resolve(input: TimetableInput) -> bool {
    &&& forall|c: int|
        0 <= c < input.courses@.len() ==> resolves(
            group_id_seq(input.groups@),
            #[trigger] input.courses@[c].group_ids@,
        )
    &&& forall|g: int|
        0 <= g < input.groups@.len() ==> resolves(
            course_id_seq(input.courses@),
            #[trigger] input.groups@[g].courses@,
        )
    &&& forall|t: int|
        0 <= t < input.teachers@.len() ==> resolves(
            course_id_seq(input.courses@),
            #[trigger] input.teachers@[t].course_id@,
        )
}

/// Whether `x` is the first identifier of `refs` that `ids` does not declare.
pub open spec fn first_miss(ids: Seq<usize>, refs: Seq<usize>, x: usize) -> bool {
    exists|k: int|
        0 <= k < refs.len() && #[trigger] refs[k] == x && index_of_id(ids, x) is None && resolves(
            ids,
            refs.take(k),
        )
}

/// Whether `x` is the first undeclared identifier met when the references of
/// `input` are read in order: the groups of each course, then the courses of
/// each group, then the courses of each teacher.
pub open spec fn first_dangling(input: TimetableInput, x: usize) -> bool {
    let gids = group_id_seq(input.groups@);
    let cids = course_id_seq(input.courses@);
    let courses_ok = forall|j: int|
        0 <= j < input.courses@.len() ==> resolves(gids, #[trigger] input.courses@[j].group_ids@);
    let groups_ok = forall|j: int|
        0 <= j < input.groups@.len() ==> resolves(cids, #[trigger] input.groups@[j].courses@);
    ||| exists|c: int|
        0 <= c < input.courses@.len() && (forall|j: int|
            0 <= j < c ==> resolves(gids, #[trigger] input.courses@[j].group_ids@)) && first_miss(
            gids,
            #[trigger] input.courses@[c].group_ids@,
            x,
        )
    ||| courses_ok && exists|g: int|
        0 <= g < input.groups@.len() && (forall|j: int|
            0 <= j < g ==> resolves(cids, #[trigger] input.groups@[j].courses@)) && first_miss(
            cids,
            #[trigger] input.groups@[g].courses@,
            x,
        )
    ||| courses_ok && groups_ok && exists|t: int|
        0 <= t < input.teachers@.len() && (forall|j: int|
            0 <= j < t ==> resolves(cids, #[trigger] input.teachers@[j].course_id@)) && first_miss(
            cids,
            #[trigger] input.teachers@[t].course_id@,
            x,
        )
}

/// Whether `out` is `input` with each cross reference replaced by the index
/// of the entity it names; every other field is kept.
pub open spec fn normalized_from(input: TimetableInput, out: TimetableInput) -> bool {
    let gids = group_id_seq(input.groups@);
    let cids = course_id_seq(input.courses@);
    &&& out.rooms@ == input.rooms@
    &&& out.courses@.len() == input.courses@.len()
    &&& out.groups@.len() == input.groups@.len()
    &&& out.teachers@.len() == input.teachers@.len()
    &&& forall|c: int|
        0 <= c < input.courses@.len() ==> {
            let a = #[trigger] out.courses@[c];
            let b = input.courses@[c];
            &&& a.id == b.id
            &&& a.subject_name == b.subject_name
            &&& a.professor_id == b.professor_id
            &&& a.required_hours == b.required_hours
            &&& a.required_lab == b.required_lab
            &&& a.group_ids@ == resolved(gids, b.group_ids@)
        }
    &&& forall|g: int|
        0 <= g < input.groups@.len() ==> {
            let a = #[trigger] out.groups@[g];
            let b = input.groups@[g];
            &&& a.id == b.id
            &&& a.name == b.name
            &&& a.numbers_of_students == b.numbers_of_students
            &&& a.courses@ == resolved(cids, b.courses@)
        }
    &&& forall|t: int|
        0 <= t < input.teachers@.len() ==> {
            let a = #[trigger] out.teachers@[t];
            let b = input.teachers@[t];
            &&& a.id == b.id
            &&& a.name == b.name
            &&& a.course_id@ == resolved(cids, b.course_id@)
        }
}

/// Rewrites every cross reference of `input` (the groups of each course, the
/// courses of each group and of each teacher) from the identifier an entity
/// declares to that entity's index. The declared identifiers themselves are
/// kept. Fails on the first reference to an identifier nobody declares.
pub fn normalize_data(input: TimetableInput) -> (r: Result<TimetableInput, NormalizeError>)
    ensures
        r is Ok <==> all_resolve(input),
        r matches Ok(out) ==> normalized_from(input, out) && out.is_normalized(),
        r matches Err(NormalizeError::UnknownId(x)) ==> first_dangling(input, x),
{
    let ghost gids = group_id_seq(input.groups@);
    let ghost cids = course_id_seq(input.courses@);
    let mut out = input;

    let mut group_ids: Vec<usize> = Vec::new();
    let mut g: usize = 0;
    while g < out.groups.len()
        invariant
            out == input,
            g <= out.groups@.len(),
            group_ids@ == group_id_seq(out.groups@).take(g as int),
        decreases out.groups@.len() - g,
    {
        group_ids.push(out.groups[g].id);
        assert(group_id_seq(out.groups@).take(g + 1) =~= group_id_seq(out.groups@).take(g as int).push(out.groups@[g as int].id));
        g = g + 1;
    }
    assert(group_ids@ =~= gids);
    let group_map = build_lookup_map(&group_ids);

    let mut c: usize = 0;
    while c < out.courses.len()
        invariant
            c <= out.courses@.len(),
            out.rooms == input.rooms,
            gids == group_id_seq(input.groups@),
            cids == course_id_seq(input.courses@),
            out.groups == input.groups,
            out.teachers == input.teachers,
            out.courses@.len() == input.courses@.len(),
            forall|x: usize| #[trigger]
                group_map@.contains_key(x) <==> index_of_id(gids, x) is Some,
            forall|x: usize|
                #[trigger] group_map@.contains_key(x) ==> group_map@[x] as int == index_of_id(gids, x)->0,
            forall|j: int| c <= j < out.courses@.len() ==> #[trigger] out.courses@[j] == input.courses@[j],
            forall|j: int| 0 <= j < c ==> {
                let a = #[trigger] out.courses@[j];
                let b = input.courses@[j];
                &&& a.id == b.id
                &&& a.subject_name == b.subject_name
                &&& a.professor_id == b.professor_id
                &&& a.required_hours == b.required_hours
                &&& a.required_lab == b.required_lab
                &&& a.group_ids@ == resolved(gids, b.group_ids@)
                &&& resolves(gids, b.group_ids@)
            },
        decreases out.courses@.len() - c,
    {
        match update_references(&out.courses[c].group_ids, &group_map, Ghost(gids)) {
            Ok(v) => {
                out.courses[c].group_ids = v;
            },
            Err(x) => {
                proof {
                    assert(first_miss(gids, input.courses@[c as int].group_ids@, x));
                    assert forall|j: int| 0 <= j < c implies resolves(
                        gids,
                        #[trigger] input.courses@[j].group_ids@,
                    ) by {
                        assert(out.courses@[j].id == input.courses@[j].id);
                    }
                    assert(first_dangling(input, x));
                }
                return Err(NormalizeError::UnknownId(x));
            },
        }
        c = c + 1;
    }
    assert(course_id_seq(out.courses@) =~= cids);
    let mut course_ids: Vec<usize> = Vec::new();
    c = 0;
    while c < out.courses.len()
        invariant
            c <= out.courses@.len(),
            course_id_seq(out.courses@) == cids,
            course_ids@ == cids.take(c as int),
        decreases out.courses@.len() - c,
    {
        course_ids.push(out.courses[c].id);
        assert(cids.take(c + 1) =~= cids.take(c as int).push(out.courses@[c as int].id));
        c = c + 1;
    }
    assert(course_ids@ =~= cids);
    let course_map = build_lookup_map(&course_ids);
    let ghost courses_done = out.courses;
    assert forall|j: int| 0 <= j < input.courses@.len() implies resolves(
        gids,
        #[trigger] input.courses@[j].group_ids@,
    ) by {
        assert(out.courses@[j].id == input.courses@[j].id);
    }

    g = 0;
    while g < out.groups.len()
        invariant
            forall|j: int| 0 <= j < input.courses@.len() ==> resolves(gids, #[trigger] input.courses@[j].group_ids@),
            g <= out.groups@.len(),
            out.rooms == input.rooms,
            gids == group_id_seq(input.groups@),
            cids == course_id_seq(input.courses@),
            out.courses == courses_done,
            out.teachers == input.teachers,
            out.groups@.len() == input.groups@.len(),
            forall|x: usize| #[trigger]
                course_map@.contains_key(x) <==> index_of_id(cids, x) is Some,
            forall|x: usize|
                #[trigger] course_map@.contains_key(x) ==> course_map@[x] as int == index_of_id(cids, x)->0,
            forall|j: int| g <= j < out.groups@.len() ==> #[trigger] out.groups@[j] == input.groups@[j],
            forall|j: int| 0 <= j < g ==> {
                let a = #[trigger] out.groups@[j];
                let b = input.groups@[j];
                &&& a.id == b.id
                &&& a.name == b.name
                &&& a.numbers_of_students == b.numbers_of_students
                &&& a.courses@ == resolved(cids, b.courses@)
                &&& resolves(cids, b.courses@)
            },
        decreases out.groups@.len() - g,
    {
        match update_references(&out.groups[g].courses, &course_map, Ghost(cids)) {
            Ok(v) => {
                out.groups[g].courses = v;
            },
            Err(x) => {
                proof {
                    assert(first_miss(cids, input.groups@[g as int].courses@, x));
                    assert forall|j: int| 0 <= j < g implies resolves(
                        cids,
                        #[trigger] input.groups@[j].courses@,
                    ) by {
                        assert(out.groups@[j].id == input.groups@[j].id);
                    }
                    assert(first_dangling(input, x));
                }
                return Err(NormalizeError::UnknownId(x));
            },
        }
        g = g + 1;
    }
    let ghost groups_done = out.groups;
    assert forall|j: int| 0 <= j < input.groups@.len() implies resolves(
        cids,
        #[trigger] input.groups@[j].courses@,
    ) by {
        assert(out.groups@[j].id == input.groups@[j].id);
    }

    let mut t: usize = 0;
    while t < out.teachers.len()
        invariant
            forall|j: int| 0 <= j < input.courses@.len() ==> resolves(gids, #[trigger] input.courses@[j].group_ids@),
            forall|j: int| 0 <= j < input.groups@.len() ==> resolves(cids, #[trigger] input.groups@[j].courses@),
            t <= out.teachers@.len(),
            out.rooms == input.rooms,
            gids == group_id_seq(input.groups@),
            cids == course_id_seq(input.courses@),
            out.courses == courses_done,
            out.groups == groups_done,
            out.teachers@.len() == input.teachers@.len(),
            forall|x: usize| #[trigger]
                course_map@.contains_key(x) <==> index_of_id(cids, x) is Some,
            forall|x: usize|
                #[trigger] course_map@.contains_key(x) ==> course_map@[x] as int == index_of_id(cids, x)->0,
            forall|j: int| t <= j < out.teachers@.len() ==> #[trigger] out.teachers@[j] == input.teachers@[j],
            forall|j: int| 0 <= j < t ==> {
                let a = #[trigger] out.teachers@[j];
                let b = input.teachers@[j];
                &&& a.id == b.id
                &&& a.name == b.name
                &&& a.course_id@ == resolved(cids, b.course_id@)
                &&& resolves(cids, b.course_id@)
            },
        decreases out.teachers@.len() - t,
    {
        match update_references(&out.teachers[t].course_id, &course_map, Ghost(cids)) {
            Ok(v) => {
                out.teachers[t].course_id = v;
            },
            Err(x) => {
                proof {
                    assert(first_miss(cids, input.teachers@[t as int].course_id@, x));
                    assert forall|j: int| 0 <= j < t implies resolves(
                        cids,
                        #[trigger] input.teachers@[j].course_id@,
                    ) by {
                        assert(out.teachers@[j].id == input.teachers@[j].id);
                    }
                    assert(first_dangling(input, x));
                }
                return Err(NormalizeError::UnknownId(x));
            },
        }
        t = t + 1;
    }
    proof {
        assert forall|j: int| 0 <= j < input.courses@.len() implies resolves(
            gids,
            #[trigger] input.courses@[j].group_ids@,
        ) by {
            assert(out.courses@[j].id == input.courses@[j].id);
        }
        assert forall|j: int| 0 <= j < input.groups@.len() implies resolves(
            cids,
            #[trigger] input.groups@[j].courses@,
        ) by {
            assert(out.groups@[j].id == input.groups@[j].id);
        }
        assert forall|j: int| 0 <= j < input.teachers@.len() implies resolves(
            cids,
            #[trigger] input.teachers@[j].course_id@,
        ) by {
            assert(out.teachers@[j].id == input.teachers@[j].id);
        }
        assert(all_resolve(input));
        assert(normalized_from(input, out));
        lemma_normalized_is_normalized(input, out);
    }
    Ok(out)
}

/// Whether each group and course declares its own index as identifier.
pub open spec fn ids_are_indices(input: TimetableInput) -> bool {
    &&& forall|g: int| 0 <= g < input.groups@.len() ==> (#[trigger] input.groups@[g]).id == g
    &&& forall|c: int| 0 <= c < input.courses@.len() ==> (#[trigger] input.courses@[c]).id == c
}

proof fn lemma_index_of_own_index(ids: Seq<usize>, x: usize, n: int)
    requires
        n <= ids.len(),
        x < n,
        forall|i: int| 0 <= i < ids.len() ==> ids[i] == i,
    ensures
        last_index_of(ids, x, n) == Some(x as int),
    decreases n,
{
    if ids[n - 1] != x {
        lemma_index_of_own_index(ids, x, n - 1);
    }
}

proof fn lemma_resolved_identity(ids: Seq<usize>, refs: Seq<usize>)
    requires
        all_below(refs, ids.len() as int),
        forall|i: int| 0 <= i < ids.len() ==> ids[i] == i,
    ensures
        resolves(ids, refs),
        resolved(ids, refs) == refs,
{
    assert forall|i: int| 0 <= i < refs.len() implies (#[trigger] index_of_id(ids, refs[i]))
        == Some(refs[i] as int) by {
        lemma_index_of_own_index(ids, refs[i], ids.len() as int);
    }
    assert(resolved(ids, refs) =~= refs);
}

/// Normalizing an input that is normalized already, and whose groups and
/// courses declare their own indices as identifiers, succeeds and changes
/// nothing: the input is its own normalized form.
pub proof fn lemma_normalize_idempotent(input: TimetableInput)
    requires
        ids_are_indices(input),
        input.is_normalized(),
    ensures
        all_resolve(input),
        normalized_from(input, input),
{
    let gids = group_id_seq(input.groups@);
    let cids = course_id_seq(input.courses@);
    assert forall|i: int| 0 <= i < gids.len() implies gids[i] == i by {
        assert(input.groups@[i].id == i);
    }
    assert forall|i: int| 0 <= i < cids.len() implies cids[i] == i by {
        assert(input.courses@[i].id == i);
    }
    assert forall|c: int| 0 <= c < input.courses@.len() implies resolves(
        gids,
        #[trigger] input.courses@[c].group_ids@,
    ) && resolved(gids, input.courses@[c].group_ids@) == input.courses@[c].group_ids@ by {
        lemma_resolved_identity(gids, input.courses@[c].group_ids@);
    }
    assert forall|g: int| 0 <= g < input.groups@.len() implies resolves(
        cids,
        #[trigger] input.groups@[g].courses@,
    ) && resolved(cids, input.groups@[g].courses@) == input.groups@[g].courses@ by {
        lemma_resolved_identity(cids, input.groups@[g].courses@);
    }
    assert forall|t: int| 0 <= t < input.teachers@.len() implies resolves(
        cids,
        #[trigger] input.teachers@[t].course_id@,
    ) && resolved(cids, input.teachers@[t].course_id@) == input.teachers@[t].course_id@ by {
        lemma_resolved_identity(cids, input.teachers@[t].course_id@);
    }
}

/// Resolved references are indices of the list they were resolved against.
proof fn lemma_resolved_below(ids: Seq<usize>, refs: Seq<usize>)
    requires
        resolves(ids, refs),
    ensures
        all_below(resolved(ids, refs), ids.len() as int),
{
    assert forall|i: int| 0 <= i < refs.len() implies resolved(ids, refs)[i] < ids.len() by {
        assert(index_of_id(ids, refs[i]) is Some);
        lemma_last_index_bounds(ids, refs[i], ids.len() as int);
    }
}

/// A normalized copy of an input whose references all resolve holds only
/// valid indices.
pub proof fn lemma_normalized_is_normalized(input: TimetableInput, out: TimetableInput)
    requires
        all_resolve(input),
        normalized_from(input, out),
    ensures
        out.is_normalized(),
{
    let gids = group_id_seq(input.groups@);
    let cids = course_id_seq(input.courses@);
    assert forall|c: int| 0 <= c < out.courses@.len() implies all_below(
        #[trigger] out.courses@[c].group_ids@,
        out.groups@.len() as int,
    ) by {
        lemma_resolved_below(gids, input.courses@[c].group_ids@);
    }
    assert forall|g: int| 0 <= g < out.groups@.len() implies all_below(
        #[trigger] out.groups@[g].courses@,
        out.courses@.len() as int,
    ) by {
        lemma_resolved_below(cids, input.groups@[g].courses@);
    }
    assert forall|t: int| 0 <= t < out.teachers@.len() implies all_below(
        #[trigger] out.teachers@[t].course_id@,
        out.courses@.len() as int,
    ) by {
        lemma_resolved_below(cids, input.teachers@[t].course_id@);
    }
}

proof fn lemma_last_index_bounds(ids: Seq<usize>, x: usize, n: int)
    requires
        n <= ids.len(),
    ensures
        last_index_of(ids, x, n) is Some ==> {
            let i = last_index_of(ids, x, n)->0;
            0 <= i < n && ids[i] == x
        },
    decreases n,
{
    if n > 0 {
        lemma_last_index_bounds(ids, x, n - 1);
    }
}

/// Maps each identifier of `ids` to the last position that declares it.
fn build_lookup_map(ids: &Vec<usize>) -> (m: HashMap<usize, usize>)
    ensures
        forall|x: usize| #[trigger]
            m@.contains_key(x) <==> index_of_id(ids@, x) is Some,
        forall|x: usize|
            #[trigger] m@.contains_key(x) ==> m@[x] as int == index_of_id(ids@, x)->0,
{
    let mut m: HashMap<usize, usize> = HashMap::new();
    let mut i: usize = 0;
    while i < ids.len()
        invariant
            i <= ids@.len(),
            forall|x: usize| #[trigger]
                m@.contains_key(x) <==> last_index_of(ids@, x, i as int) is Some,
            forall|x: usize|
                #[trigger] m@.contains_key(x) ==> m@[x] as int == last_index_of(ids@, x, i as int)->0,
        decreases ids@.len() - i,
    {
        m.insert(ids[i], i);
        i = i + 1;
    }
    m
}

/// Replaces each identifier of `refs` by the index the map gives it, or
/// names the first identifier the map lacks.
fn update_references(refs: &Vec<usize>, map: &HashMap<usize, usize>, ids: Ghost<Seq<usize>>) -> (r: Result<Vec<usize>, usize>)
    requires
        forall|x: usize| #[trigger]
            map@.contains_key(x) <==> index_of_id(ids@, x) is Some,
        forall|x: usize|
            #[trigger] map@.contains_key(x) ==> map@[x] as int == index_of_id(ids@, x)->0,
    ensures
        r is Ok <==> resolves(ids@, refs@),
        r matches Ok(v) ==> v@ == resolved(ids@, refs@),
        r matches Err(x) ==> first_miss(ids@, refs@, x),
{
    let mut out: Vec<usize> = Vec::with_capacity(refs.len());
    let mut i: usize = 0;
    while i < refs.len()
        invariant
            i <= refs@.len(),
            forall|x: usize| #[trigger]
                map@.contains_key(x) <==> index_of_id(ids@, x) is Some,
            forall|x: usize|
                #[trigger] map@.contains_key(x) ==> map@[x] as int == index_of_id(ids@, x)->0,
            out@ == resolved(ids@, refs@.take(i as int)),
            resolves(ids@, refs@.take(i as int)),
        decreases refs@.len() - i,
    {
        let id = refs[i];
        match map.get(&id) {
            Some(idx) => {
                out.push(*idx);
                assert(refs@.take(i + 1) == refs@.take(i as int).push(id));
                assert(resolved(ids@, refs@.take(i + 1)) =~= resolved(ids@, refs@.take(i as int)).push(*idx));
            },
            None => {
                assert(refs@[i as int] == id);
                assert(!resolves(ids@, refs@));
                assert(first_miss(ids@, refs@, id));
                return Err(id);
            },
        }
        i = i + 1;
    }
    assert(refs@.take(i as int) =~= refs@);
    Ok(out)
}

} // verus!
