use vstd::prelude::*;
use vstd::string::StringExecFns;
use crate::msgs::activities::{FullActivity, FullActivityView};
use std::collections::HashMap;
use crate::msgs::classes::{Class, ClassLimitation};
use crate::msgs::lectures::Lecture;
use crate::msgs::teachers::{Teacher, TeacherLimitation};
use crate::msgs::timetables::{Schedule, Timetable};
use crate::msgs::activities::ActivityView;
use crate::generator::{placement, without_act, placed_ids, lemma_without_placed};
use crate::data::full_values;
use crate::ids::holds_id;
use crate::text::{has_part, uppercase, contains_text, to_upper, parsed_i32, parse_i32, act_hours, hours_in, pieces, trimmed_end};
use crate::msgs::activities::AddActivity;

verus! {

/// `i` is the first position of `lectures` with id `id`.
pub open spec fn first_lecture(lectures: Seq<Lecture>, id: i32, i: int) -> bool {
    &&& 0 <= i < lectures.len()
    &&& lectures[i].id == id
    &&& forall|j: int| 0 <= j < i ==> lectures[j].id != id
}

/// The short name of the lecture of `act`: the first lecture of `lectures`
/// with the activity's subject as id.
pub fn lecture_name(act: &FullActivity, lectures: &Vec<Lecture>) -> (r: String)
    requires
        exists|i: int| 0 <= i < lectures@.len() && lectures@[i].id == act.subject,
    ensures
        exists|i: int| first_lecture(lectures@, act.subject, i) && r@ == lectures@[i].short_name@,
{
    let mut i: usize = 0;
    while i < lectures.len()
        invariant
            i <= lectures@.len(),
            forall|j: int| 0 <= j < i ==> lectures@[j].id != act.subject,
            exists|k: int| 0 <= k < lectures@.len() && lectures@[k].id == act.subject,
        decreases lectures.len() - i,
    {
        if lectures[i].id == act.subject {
            assert(first_lecture(lectures@, act.subject, i as int));
            return lectures[i].short_name.clone();
        }
        i = i + 1;
    }
    proof {
        let k = choose|k: int| 0 <= k < lectures@.len() && lectures@[k].id == act.subject;
        assert(lectures@[k].id != act.subject);
    }
    String::new()
}

/// The teachers of `teachers` that teach `act`, in the order of `teachers`.
pub open spec fn act_teachers(teachers: Seq<Teacher>, act: FullActivityView) -> Seq<Teacher> {
    teachers.filter(|t: Teacher| act.teachers.contains(t.id))
}

/// The labels of `ts` one after the other.
pub open spec fn labels(ts: Seq<Teacher>) -> Seq<char>
    decreases ts.len(),
{
    if ts.len() == 0 {
        Seq::empty()
    } else {
        labels(ts.drop_last()) + ts.last().spec_label()
    }
}

/// The full names of `ts`, each followed by a space.
pub open spec fn full_names(ts: Seq<Teacher>) -> Seq<char>
    decreases ts.len(),
{
    if ts.len() == 0 {
        Seq::empty()
    } else {
        full_names(ts.drop_last()) + ts.last().spec_label_full() + seq![' ']
    }
}

/// The labels of the teachers of `act`, one after the other.
pub fn teacher_short_name(act: &FullActivity, teachers: &Vec<Teacher>) -> (r: String)
    ensures
        r@ == labels(act_teachers(teachers@, act@)),
{
    let mut r = String::new();
    let mut i: usize = 0;
    proof {
        reveal(Seq::filter);
        assert(teachers@.take(0).filter(|t: Teacher| act@.teachers.contains(t.id)) =~= Seq::<Teacher>::empty());
    }
    while i < teachers.len()
        invariant
            i <= teachers@.len(),
            r@ == labels(act_teachers(teachers@.take(i as int), act@)),
        decreases teachers.len() - i,
    {
        proof {
            assert(teachers@.take(i + 1) =~= teachers@.take(i as int).push(teachers@[i as int]));
            teachers@.take(i as int).lemma_filter_push(teachers@[i as int], |t: Teacher| act@.teachers.contains(t.id));
        }
        if holds_id(&act.teachers, teachers[i].id) {
            let l = teachers[i].label();
            let ghost before = act_teachers(teachers@.take(i as int), act@);
            r.append(l.as_str());
            proof {
                assert(before.push(teachers@[i as int]).drop_last() =~= before);
            }
        }
        i = i + 1;
    }
    assert(teachers@.take(teachers@.len() as int) =~= teachers@);
    r
}

/// The full names of the teachers of `act`, each followed by a space.
pub fn teachers_full_name(act: &FullActivity, teachers: &Vec<Teacher>) -> (r: String)
    ensures
        r@ == full_names(act_teachers(teachers@, act@)),
{
    let mut r = String::new();
    let mut i: usize = 0;
    proof {
        reveal(Seq::filter);
        assert(teachers@.take(0).filter(|t: Teacher| act@.teachers.contains(t.id)) =~= Seq::<Teacher>::empty());
    }
    while i < teachers.len()
        invariant
            i <= teachers@.len(),
            r@ == full_names(act_teachers(teachers@.take(i as int), act@)),
        decreases teachers.len() - i,
    {
        proof {
            assert(teachers@.take(i + 1) =~= teachers@.take(i as int).push(teachers@[i as int]));
            teachers@.take(i as int).lemma_filter_push(teachers@[i as int], |t: Teacher| act@.teachers.contains(t.id));
        }
        if holds_id(&act.teachers, teachers[i].id) {
            let l = teachers[i].label_full();
            let ghost before = act_teachers(teachers@.take(i as int), act@);
            r.append(l.as_str());
            r.append(" ");
            proof {
                reveal_strlit(" ");
                assert(before.push(teachers@[i as int]).drop_last() =~= before);
            }
        }
        i = i + 1;
    }
    assert(teachers@.take(teachers@.len() as int) =~= teachers@);
    r
}

/// `i` is the first position of `classes` with id `id`.
pub open spec fn first_class(classes: Seq<Class>, id: i32, i: int) -> bool {
    &&& 0 <= i < classes.len()
    &&& classes[i].id == id
    &&& forall|j: int| 0 <= j < i ==> classes[j].id != id
}

/// Some class of `classes` has id `id`.
pub open spec fn known_class(classes: Seq<Class>, id: i32) -> bool {
    exists|i: int| 0 <= i < classes.len() && #[trigger] classes[i].id == id
}

/// The name of the first class of `classes` with id `id`.
pub open spec fn class_name(classes: Seq<Class>, id: i32) -> Seq<char> {
    let i = choose|i: int| first_class(classes, id, i);
    classes[i].kademe@ + classes[i].sube@
}

/// The names of the classes `ids`, one after the other.
pub open spec fn class_names(classes: Seq<Class>, ids: Seq<i32>) -> Seq<char>
    decreases ids.len(),
{
    if ids.len() == 0 {
        Seq::empty()
    } else {
        class_names(classes, ids.drop_last()) + class_name(classes, ids.last())
    }
}

/// The first class of `classes` with id `id`.
fn find_class(classes: &Vec<Class>, id: i32) -> (r: usize)
    requires
        known_class(classes@, id),
    ensures
        first_class(classes@, id, r as int),
{
    let mut i: usize = 0;
    while i < classes.len()
        invariant
            i <= classes@.len(),
            forall|j: int| 0 <= j < i ==> classes@[j].id != id,
            known_class(classes@, id),
        decreases classes.len() - i,
    {
        if classes[i].id == id {
            return i;
        }
        i = i + 1;
    }
    proof {
        let k = choose|k: int| 0 <= k < classes@.len() && #[trigger] classes@[k].id == id;
        assert(classes@[k].id != id);
    }
    0
}

/// The names of the classes of `act`, in the order of the activity.
pub fn classes_full_name(act: &FullActivity, classes: &Vec<Class>) -> (r: String)
    requires
        forall|i: int| 0 <= i < act.classes@.len() ==> known_class(classes@, #[trigger] act.classes@[i]),
    ensures
        r@ == class_names(classes@, act.classes@),
{
    let mut r = String::new();
    let mut i: usize = 0;
    while i < act.classes.len()
        invariant
            i <= act.classes@.len(),
            forall|k: int| 0 <= k < act.classes@.len() ==> known_class(classes@, #[trigger] act.classes@[k]),
            r@ == class_names(classes@, act.classes@.take(i as int)),
        decreases act.classes.len() - i,
    {
        let id = act.classes[i];
        proof {
            assert(known_class(classes@, act.classes@[i as int]));
        }
        let k = find_class(classes, id);
        let name = classes[k].label();
        r.append(name.as_str());
        proof {
            assert(act.classes@.take(i + 1).drop_last() =~= act.classes@.take(i as int));
            assert(act.classes@.take(i + 1).last() == id);
            let j = choose|j: int| first_class(classes@, id, j);
            assert(j == k) by {
                if j < k {
                    assert(classes@[j].id != id);
                } else if j > k {
                    assert(classes@[k as int].id != id);
                }
            }
        }
        i = i + 1;
    }
    assert(act.classes@.take(act.classes@.len() as int) =~= act.classes@);
    r
}

/// Whether some hour of activity `act` is placed.
pub fn is_placed(act: i32, schedules: &Vec<Schedule>) -> (r: bool)
    ensures
        r == exists|i: int| 0 <= i < schedules@.len() && #[trigger] schedules@[i].activity == act,
{
    let mut i: usize = 0;
    while i < schedules.len()
        invariant
            i <= schedules@.len(),
            forall|j: int| 0 <= j < i ==> schedules@[j].activity != act,
        decreases schedules.len() - i,
    {
        if schedules[i].activity == act {
            return true;
        }
        i = i + 1;
    }
    false
}

/// The activities that teacher `teacher` teaches.
pub open spec fn teacher_acts(acts: Seq<FullActivityView>, teacher: i32) -> Seq<FullActivityView> {
    acts.filter(|a: FullActivityView| a.teachers.contains(teacher))
}

/// Copies of the activities of `acts` that teacher `teacher` teaches, in order.
pub fn get_t_acts(acts: &Vec<FullActivity>, teacher: i32) -> (r: Vec<FullActivity>)
    ensures
        full_values(r@) == teacher_acts(full_values(acts@), teacher),
{
    let mut r: Vec<FullActivity> = Vec::new();
    let mut j: usize = 0;
    proof {
        reveal(Seq::filter);
        assert(full_values(acts@).take(0) =~= Seq::<FullActivityView>::empty());
        assert(full_values(r@) =~= Seq::<FullActivityView>::empty());
    }
    while j < acts.len()
        invariant
            j <= acts@.len(),
            full_values(r@) == teacher_acts(full_values(acts@).take(j as int), teacher),
        decreases acts.len() - j,
    {
        let ghost before = r@;
        proof {
            assert(full_values(acts@).take(j + 1) =~= full_values(acts@).take(j as int).push(acts@[j as int]@));
            full_values(acts@).take(j as int).lemma_filter_push(
                acts@[j as int]@,
                |a: FullActivityView| a.teachers.contains(teacher),
            );
        }
        if holds_id(&acts[j].teachers, teacher) {
            r.push(acts[j].duplicate());
            proof {
                assert(full_values(r@) =~= full_values(before).push(acts@[j as int]@));
            }
        }
        j = j + 1;
    }
    assert(full_values(acts@).take(acts@.len() as int) =~= full_values(acts@));
    r
}


/// The first hour of `schs` on day `day` at hour `hour` (as an `i16`) that
/// belongs to an activity of `acts` taught by teacher `teacher`.
pub open spec fn is_teacher_hour(s: Schedule, day: i32, hour: usize, acts: Seq<FullActivity>, teacher: i32) -> bool {
    &&& s.day_id == day
    &&& s.hour == hour as i16
    &&& exists|j: int| 0 <= j < acts.len() && acts[j].id == s.activity && #[trigger] acts[j].teachers@.contains(teacher)
}

/// The first hour of `schs` on day `day` at hour `hour` (taken as an `i16`)
/// that belongs to an activity of `acts` taught by teacher `teacher`.
pub fn if_schedule(schs: &Vec<Schedule>, day: i32, hour: usize, acts: &Vec<FullActivity>, teacher: i32) -> (r: Option<Schedule>)
    ensures
        match r {
            Some(s) => exists|i: int|
                0 <= i < schs@.len() && schs@[i] == s && is_teacher_hour(s, day, hour, acts@, teacher) && forall|k: int|
                    0 <= k < i ==> !is_teacher_hour(#[trigger] schs@[k], day, hour, acts@, teacher),
            None => forall|k: int| 0 <= k < schs@.len() ==> !is_teacher_hour(#[trigger] schs@[k], day, hour, acts@, teacher),
        },
{
    let h = hour as i16;
    let mut i: usize = 0;
    while i < schs.len()
        invariant
            i <= schs@.len(),
            h == hour as i16,
            forall|k: int| 0 <= k < i ==> !is_teacher_hour(#[trigger] schs@[k], day, hour, acts@, teacher),
        decreases schs.len() - i,
    {
        let s = schs[i];
        if s.day_id == day && s.hour == h {
            let mut found = false;
            let mut j: usize = 0;
            while j < acts.len()
                invariant
                    j <= acts@.len(),
                    found == exists|x: int|
                        0 <= x < j && acts@[x].id == s.activity && #[trigger] acts@[x].teachers@.contains(teacher),
                decreases acts.len() - j,
            {
                if acts[j].id == s.activity && holds_id(&acts[j].teachers, teacher) {
                    found = true;
                }
                j = j + 1;
            }
            if found {
                return Some(s);
            }
        }
        i = i + 1;
    }
    None
}

/// Places `act` by hand on day `day` from hour `hour`: its hours are added
/// to `schedules`, not locked.
pub fn placed(schedules: &mut Vec<Schedule>, act: &FullActivity, hour: usize, day: i32)
    requires
        hour + act.hour <= 32767,
    ensures
        act.hour <= 0 ==> final(schedules)@ == old(schedules)@,
        act.hour > 0 ==> final(schedules)@ == old(schedules)@ + placement(day, hour as int, act.activity_view()),
{
    let ghost s0 = schedules@;
    let ghost p = placement(day, hour as int, act.activity_view());
    if act.hour <= 0 {
        return;
    }
    let start = hour as i16;
    let mut i: i16 = 0;
    proof {
        assert(p.take(0) =~= Seq::<Schedule>::empty());
        assert(s0 + p.take(0) =~= s0);
    }
    while i < act.hour
        invariant
            0 <= i <= act.hour,
            start == hour,
            hour + act.hour <= 32767,
            p == placement(day, hour as int, act.activity_view()),
            schedules@ == s0 + p.take(i as int),
        decreases act.hour - i,
    {
        let sc = Schedule { day_id: day, locked: false, activity: act.id, hour: start + i };
        schedules.push(sc);
        proof {
            assert(p[i as int] == sc);
            assert(p.take(i + 1) =~= p.take(i as int).push(sc));
            assert(s0 + p.take(i + 1) =~= (s0 + p.take(i as int)).push(sc));
        }
        i = i + 1;
    }
    assert(p.take(act.hour as int) =~= p);
}


/// Whether `text` holds `value` once both are upper-cased, the test of the
/// search boxes.
pub fn matches_search(text: &str, value: &str) -> (r: bool)
    ensures
        r == has_part(uppercase(text@), uppercase(value@)),
{
    let t = to_upper(text);
    let v = to_upper(value);
    contains_text(t.as_str(), v.as_str())
}

/// The lectures whose name holds `value`, case aside, in order.
pub fn filter_lectures(lectures: &Vec<Lecture>, value: &str) -> (r: Vec<Lecture>)
    ensures
        r@ == lectures@.filter(|l: Lecture| has_part(uppercase(l.name@), uppercase(value@))),
{
    let mut r: Vec<Lecture> = Vec::new();
    let mut j: usize = 0;
    proof {
        reveal(Seq::filter);
        assert(lectures@.take(0) =~= Seq::<Lecture>::empty());
    }
    while j < lectures.len()
        invariant
            j <= lectures@.len(),
            r@ == lectures@.take(j as int).filter(|l: Lecture| has_part(uppercase(l.name@), uppercase(value@))),
        decreases lectures.len() - j,
    {
        proof {
            assert(lectures@.take(j + 1) =~= lectures@.take(j as int).push(lectures@[j as int]));
            lectures@.take(j as int).lemma_filter_push(
                lectures@[j as int],
                |l: Lecture| has_part(uppercase(l.name@), uppercase(value@)),
            );
        }
        if matches_search(lectures[j].name.as_str(), value) {
            r.push(lectures[j].duplicate());
        }
        j = j + 1;
    }
    assert(lectures@.take(lectures@.len() as int) =~= lectures@);
    r
}

/// The classes whose name holds `value`, case aside, in order.
pub fn filter_classes(classes: &Vec<Class>, value: &str) -> (r: Vec<Class>)
    ensures
        r@ == classes@.filter(|c: Class| has_part(uppercase(c.kademe@ + c.sube@), uppercase(value@))),
{
    let mut r: Vec<Class> = Vec::new();
    let mut j: usize = 0;
    proof {
        reveal(Seq::filter);
        assert(classes@.take(0) =~= Seq::<Class>::empty());
    }
    while j < classes.len()
        invariant
            j <= classes@.len(),
            r@ == classes@.take(j as int).filter(|c: Class| has_part(uppercase(c.kademe@ + c.sube@), uppercase(value@))),
        decreases classes.len() - j,
    {
        proof {
            assert(classes@.take(j + 1) =~= classes@.take(j as int).push(classes@[j as int]));
            classes@.take(j as int).lemma_filter_push(
                classes@[j as int],
                |c: Class| has_part(uppercase(c.kademe@ + c.sube@), uppercase(value@)),
            );
        }
        let label = classes[j].label();
        if matches_search(label.as_str(), value) {
            r.push(classes[j].duplicate());
        }
        j = j + 1;
    }
    assert(classes@.take(classes@.len() as int) =~= classes@);
    r
}

/// None of `chosen` has id `id`.
pub open spec fn not_chosen(chosen: Seq<Teacher>, id: i32) -> bool {
    forall|k: int| 0 <= k < chosen.len() ==> #[trigger] chosen[k].id != id
}

/// The teachers whose full name holds `value`, case aside, and that are not
/// among `chosen`, in order.
pub fn filter_teachers(teachers: &Vec<Teacher>, value: &str, chosen: &Vec<Teacher>) -> (r: Vec<Teacher>)
    ensures
        r@ == teachers@.filter(
            |t: Teacher| has_part(uppercase(t.spec_label_full()), uppercase(value@)) && not_chosen(chosen@, t.id),
        ),
{
    let mut r: Vec<Teacher> = Vec::new();
    let mut j: usize = 0;
    proof {
        reveal(Seq::filter);
        assert(teachers@.take(0) =~= Seq::<Teacher>::empty());
    }
    while j < teachers.len()
        invariant
            j <= teachers@.len(),
            r@ == teachers@.take(j as int).filter(
                |t: Teacher| has_part(uppercase(t.spec_label_full()), uppercase(value@)) && not_chosen(chosen@, t.id),
            ),
        decreases teachers.len() - j,
    {
        proof {
            assert(teachers@.take(j + 1) =~= teachers@.take(j as int).push(teachers@[j as int]));
            teachers@.take(j as int).lemma_filter_push(
                teachers@[j as int],
                |t: Teacher| has_part(uppercase(t.spec_label_full()), uppercase(value@)) && not_chosen(chosen@, t.id),
            );
        }
        let label = teachers[j].label_full();
        let hit = matches_search(label.as_str(), value);
        let mut free = true;
        let mut k: usize = 0;
        while k < chosen.len()
            invariant
                j < teachers@.len(),
                k <= chosen@.len(),
                free == forall|x: int| 0 <= x < k ==> #[trigger] chosen@[x].id != teachers@[j as int].id,
            decreases chosen.len() - k,
        {
            if chosen[k].id == teachers[j].id {
                free = false;
            }
            k = k + 1;
        }
        if hit && free {
            r.push(teachers[j].duplicate());
        }
        j = j + 1;
    }
    assert(teachers@.take(teachers@.len() as int) =~= teachers@);
    r
}


/// `i` is the first position of `timetables` with id `id`.
pub open spec fn first_timetable(timetables: Seq<Timetable>, id: i32, i: int) -> bool {
    &&& 0 <= i < timetables.len()
    &&& timetables[i].id == id
    &&& forall|j: int| 0 <= j < i ==> timetables[j].id != id
}

/// Switches to the timetable whose id `value` spells: that id, and the number
/// of hours a day of the first timetable with that id, if there is one.
pub fn change_timetable(value: &str, timetables: &Vec<Timetable>) -> (r: (i32, Option<i32>))
    requires
        parsed_i32(value@) is Some,
    ensures
        r.0 == parsed_i32(value@)->Some_0,
        match r.1 {
            Some(h) => exists|i: int| first_timetable(timetables@, r.0, i) && timetables@[i].hour == h,
            None => forall|i: int| 0 <= i < timetables@.len() ==> timetables@[i].id != r.0,
        },
{
    let id = match parse_i32(value) {
        Some(v) => v,
        None => 0,
    };
    let mut i: usize = 0;
    while i < timetables.len()
        invariant
            i <= timetables@.len(),
            id == parsed_i32(value@)->Some_0,
            forall|j: int| 0 <= j < i ==> timetables@[j].id != id,
        decreases timetables.len() - i,
    {
        if timetables[i].id == id {
            assert(first_timetable(timetables@, id, i as int));
            return (id, Some(timetables[i].hour));
        }
        i = i + 1;
    }
    (id, None)
}

/// The forms of new activities asked for with the hour counts written in
/// `hour_text`: one for each count that reads as a number, in order, each
/// with subject `subject`, the classes `classes` and the teachers `teachers`.
pub fn act_forms(subject: i32, classes: &Vec<i32>, teachers: &Vec<i32>, hour_text: &str) -> (r: Vec<AddActivity>)
    ensures
        r@.len() == hours_in(pieces(trimmed_end(hour_text@))).len(),
        forall|i: int|
            0 <= i < r@.len() ==> {
                &&& (#[trigger] r@[i]).hour == hours_in(pieces(trimmed_end(hour_text@)))[i]
                &&& r@[i].subject == subject
                &&& r@[i].classes@ == classes@
                &&& r@[i].teachers@ == teachers@
            },
{
    let hours = act_hours(hour_text);
    let mut r: Vec<AddActivity> = Vec::new();
    let mut i: usize = 0;
    while i < hours.len()
        invariant
            i <= hours@.len(),
            hours@ == hours_in(pieces(trimmed_end(hour_text@))),
            r@.len() == i,
            forall|k: int|
                0 <= k < i ==> {
                    &&& (#[trigger] r@[k]).hour == hours@[k]
                    &&& r@[k].subject == subject
                    &&& r@[k].classes@ == classes@
                    &&& r@[k].teachers@ == teachers@
                },
        decreases hours.len() - i,
    {
        r.push(AddActivity { subject, hour: hours[i], classes: classes.clone(), teachers: teachers.clone() });
        i = i + 1;
    }
    r
}


/// Takes every hour of activity `id` out of `schedules`, the others keeping
/// their order.
pub fn remove_act(schedules: &mut Vec<Schedule>, id: i32)
    ensures
        final(schedules)@ == without_act(old(schedules)@, id),
{
    let ghost s0 = schedules@;
    let mut r: Vec<Schedule> = Vec::new();
    let mut i: usize = 0;
    proof {
        assert(s0.take(0) =~= Seq::<Schedule>::empty());
    }
    while i < schedules.len()
        invariant
            i <= s0.len(),
            schedules@ == s0,
            r@ == without_act(s0.take(i as int), id),
        decreases schedules.len() - i,
    {
        let sc = schedules[i];
        proof {
            assert(s0.take(i + 1).drop_last() =~= s0.take(i as int));
            assert(s0.take(i + 1).last() == sc);
        }
        if sc.activity != id {
            r.push(sc);
        }
        i = i + 1;
    }
    assert(s0.take(s0.len() as int) =~= s0);
    *schedules = r;
}

/// Removing an activity just placed by hand gives the placed hours back as
/// they were, when it had no hour placed before.
pub proof fn lemma_remove_undoes_placed(sched: Seq<Schedule>, day: i32, hour: int, act: ActivityView)
    requires
        !placed_ids(sched).contains(act.id),
        act.hour >= 0,
    ensures
        without_act(sched + placement(day, hour, act), act.id) == sched,
{
    lemma_without_placed(sched, placement(day, hour, act), act.id);
}

/// `a` and `b` hold the same class limitations, entry by entry.
pub open spec fn same_class_lims(a: Seq<ClassLimitation>, b: Seq<ClassLimitation>) -> bool {
    &&& a.len() == b.len()
    &&& forall|i: int|
        0 <= i < a.len() ==> (#[trigger] a[i]).class_id == b[i].class_id && a[i].day == b[i].day && a[i].hours@
            == b[i].hours@
}

/// `a` and `b` hold the same teacher limitations, entry by entry.
pub open spec fn same_teacher_lims(a: Seq<TeacherLimitation>, b: Seq<TeacherLimitation>) -> bool {
    &&& a.len() == b.len()
    &&& forall|i: int|
        0 <= i < a.len() ==> (#[trigger] a[i]).user_id == b[i].user_id && a[i].school_id == b[i].school_id
            && a[i].group_id == b[i].group_id && a[i].day == b[i].day && a[i].hours@ == b[i].hours@
}

/// A copy of a list of class limitations.
fn copy_class_lims(v: &Vec<ClassLimitation>) -> (r: Vec<ClassLimitation>)
    ensures
        same_class_lims(r@, v@),
{
    let mut r: Vec<ClassLimitation> = Vec::new();
    let mut i: usize = 0;
    while i < v.len()
        invariant
            i <= v@.len(),
            same_class_lims(r@, v@.take(i as int)),
        decreases v.len() - i,
    {
        let l = &v[i];
        r.push(ClassLimitation { class_id: l.class_id, day: l.day, hours: crate::slots::copy_hours(&l.hours) });
        i = i + 1;
    }
    assert(v@.take(v@.len() as int) =~= v@);
    r
}

/// A copy of a list of teacher limitations.
fn copy_teacher_lims(v: &Vec<TeacherLimitation>) -> (r: Vec<TeacherLimitation>)
    ensures
        same_teacher_lims(r@, v@),
{
    let mut r: Vec<TeacherLimitation> = Vec::new();
    let mut i: usize = 0;
    while i < v.len()
        invariant
            i <= v@.len(),
            same_teacher_lims(r@, v@.take(i as int)),
        decreases v.len() - i,
    {
        let l = &v[i];
        r.push(
            TeacherLimitation {
                user_id: l.user_id,
                school_id: l.school_id,
                group_id: l.group_id,
                day: l.day,
                hours: crate::slots::copy_hours(&l.hours),
            },
        );
        i = i + 1;
    }
    assert(v@.take(v@.len() as int) =~= v@);
    r
}

/// A click on class `clicked` in the list of classes. When that class is
/// the selected one, it is unselected and nothing else changes (the answer
/// is three times `None`). Otherwise the first class of `classes` with that
/// id becomes the selected one and the only class of the activity form, and
/// its limitations, when `lims` has them, are the ones shown.
pub fn select_class(
    selected: &Option<Class>,
    classes: &Vec<Class>,
    clicked: i32,
    lims: &HashMap<i32, Vec<ClassLimitation>>,
) -> (r: (Option<Class>, Option<Vec<Class>>, Option<Vec<ClassLimitation>>))
    requires
        (selected matches Some(c) && c.id == clicked) || known_class(classes@, clicked),
    ensures
        (*selected matches Some(c) && c.id == clicked) ==> r.0 is None && r.1 is None && r.2 is None,
        !(*selected matches Some(c) && c.id == clicked) ==> exists|i: int|
            #[trigger] first_class(classes@, clicked, i) && r.0 == Some(classes@[i]) && (r.1 matches Some(v) && v@
                == seq![classes@[i]]) && (if lims@.contains_key(clicked) {
                r.2 matches Some(l) && same_class_lims(l@, lims@[clicked]@)
            } else {
                r.2 is None
            }),
{
    broadcast use vstd::std_specs::hash::group_hash_axioms;
    if let Some(c) = selected {
        if c.id == clicked {
            return (None, None, None);
        }
    }
    let i = find_class(classes, clicked);
    let cls = classes[i].duplicate();
    let form = vec![classes[i].duplicate()];
    let shown = match lims.get(&clicked) {
        Some(l) => Some(copy_class_lims(l)),
        None => None,
    };
    (Some(cls), Some(form), shown)
}

/// The first teacher of `teachers` with id `id` is at position `i`.
pub open spec fn first_teacher(teachers: Seq<Teacher>, id: i32, i: int) -> bool {
    &&& 0 <= i < teachers.len()
    &&& teachers[i].id == id
    &&& forall|j: int| 0 <= j < i ==> teachers[j].id != id
}

/// A click on teacher `clicked` in the list of teachers: that teacher
/// becomes the selected one, the first teacher of `teachers` with that id
/// becomes the only teacher of the activity form, and the teacher's
/// limitations, when `lims` has them, are the ones shown (`None` when it has
/// none).
pub fn select_teacher(
    teachers: &Vec<Teacher>,
    clicked: i32,
    lims: &HashMap<i32, Vec<TeacherLimitation>>,
) -> (r: (Option<i32>, Vec<Teacher>, Option<Vec<TeacherLimitation>>))
    requires
        exists|i: int| 0 <= i < teachers@.len() && #[trigger] teachers@[i].id == clicked,
    ensures
        r.0 == Some(clicked),
        exists|i: int| #[trigger] first_teacher(teachers@, clicked, i) && r.1@ == seq![teachers@[i]],
        if lims@.contains_key(clicked) {
            r.2 matches Some(l) && same_teacher_lims(l@, lims@[clicked]@)
        } else {
            r.2 is None
        },
{
    broadcast use vstd::std_specs::hash::group_hash_axioms;
    let mut i: usize = 0;
    while teachers[i].id != clicked
        invariant
            i < teachers@.len(),
            forall|j: int| 0 <= j < i ==> teachers@[j].id != clicked,
            exists|k: int| i <= k < teachers@.len() && #[trigger] teachers@[k].id == clicked,
        decreases teachers.len() - i,
    {
        i = i + 1;
    }
    let form = vec![teachers[i].duplicate()];
    assert(first_teacher(teachers@, clicked, i as int));
    let shown = match lims.get(&clicked) {
        Some(l) => Some(copy_teacher_lims(l)),
        None => None,
    };
    (Some(clicked), form, shown)
}

/// The teachers of the activity form after a click on teacher `t`: taken
/// out when the form has a teacher with its id, added at the end otherwise.
pub fn toggle_teacher(form: &Vec<Teacher>, t: &Teacher) -> (r: Vec<Teacher>)
    ensures
        (exists|i: int| 0 <= i < form@.len() && #[trigger] form@[i].id == t.id) ==> r@ == form@.filter(
            |x: Teacher| x.id != t.id,
        ),
        !(exists|i: int| 0 <= i < form@.len() && #[trigger] form@[i].id == t.id) ==> r@ == form@.push(*t),
{
    let mut r: Vec<Teacher> = Vec::new();
    let mut found = false;
    let mut j: usize = 0;
    let ghost id = t.id;
    proof {
        reveal(Seq::filter);
        assert(form@.take(0) =~= Seq::<Teacher>::empty());
    }
    while j < form.len()
        invariant
            j <= form@.len(),
            id == t.id,
            r@ == form@.take(j as int).filter(|x: Teacher| x.id != id),
            found == exists|i: int| 0 <= i < j && #[trigger] form@[i].id == id,
            !found ==> r@ == form@.take(j as int),
        decreases form.len() - j,
    {
        proof {
            assert(form@.take(j + 1) =~= form@.take(j as int).push(form@[j as int]));
            form@.take(j as int).lemma_filter_push(form@[j as int], |x: Teacher| x.id != id);
        }
        if form[j].id == t.id {
            found = true;
        } else {
            r.push(form[j].duplicate());
        }
        j = j + 1;
    }
    assert(form@.take(form@.len() as int) =~= form@);
    if !found {
        r.push(t.duplicate());
    }
    r
}

/// The classes of the activity form after a click on class `c`: taken out
/// when the form has a class with its id, added at the end otherwise.
pub fn toggle_class(form: &Vec<Class>, c: &Class) -> (r: Vec<Class>)
    ensures
        (exists|i: int| 0 <= i < form@.len() && #[trigger] form@[i].id == c.id) ==> r@ == form@.filter(
            |x: Class| x.id != c.id,
        ),
        !(exists|i: int| 0 <= i < form@.len() && #[trigger] form@[i].id == c.id) ==> r@ == form@.push(*c),
{
    let mut r: Vec<Class> = Vec::new();
    let mut found = false;
    let mut j: usize = 0;
    let ghost id = c.id;
    proof {
        reveal(Seq::filter);
        assert(form@.take(0) =~= Seq::<Class>::empty());
    }
    while j < form.len()
        invariant
            j <= form@.len(),
            id == c.id,
            r@ == form@.take(j as int).filter(|x: Class| x.id != id),
            found == exists|i: int| 0 <= i < j && #[trigger] form@[i].id == id,
            !found ==> r@ == form@.take(j as int),
        decreases form.len() - j,
    {
        proof {
            assert(form@.take(j + 1) =~= form@.take(j as int).push(form@[j as int]));
            form@.take(j as int).lemma_filter_push(form@[j as int], |x: Class| x.id != id);
        }
        if form[j].id == c.id {
            found = true;
        } else {
            r.push(form[j].duplicate());
        }
        j = j + 1;
    }
    assert(form@.take(form@.len() as int) =~= form@);
    if !found {
        r.push(c.duplicate());
    }
    r
}

} // verus!
