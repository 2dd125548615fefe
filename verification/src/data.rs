use vstd::prelude::*;
use std::collections::HashMap;
use crate::msgs::activities::{Activity, ActivityView, FullActivity, FullActivityView};
use crate::msgs::classes::{Class, ClassLimitation};
use crate::msgs::teachers::{Teacher, TeacherLimitation};
use crate::msgs::timetables::{Params, Schedule};
use crate::generator::{TimetableData, act_views};
use crate::slots::table_view;
use crate::ids::{shares_any, holds_all, seq_shares, seq_holds_all};

verus! {

broadcast use vstd::std_specs::hash::group_hash_axioms;

/// The generator's values of a list of activities.
pub open spec fn act_values(acts: Seq<FullActivity>) -> Seq<ActivityView> {
    acts.map_values(|a: FullActivity| a.activity_view())
}

/// The values of a list of activities.
pub open spec fn full_values(acts: Seq<FullActivity>) -> Seq<FullActivityView> {
    acts.map_values(|a: FullActivity| a@)
}

/// `b` has a class or a teacher of `a`.
pub open spec fn shares(a: ActivityView, b: ActivityView) -> bool {
    seq_shares(a.classes, b.classes) || seq_shares(a.teachers, b.teachers)
}

/// `b` is another activity than `a` that has a class or a teacher of `a`.
pub open spec fn is_neighbour(a: ActivityView, b: ActivityView) -> bool {
    b.id != a.id && shares(a, b)
}

/// Among the first `n` activities of `vs`, `k` is the last neighbour of `a`
/// with its id.
pub open spec fn last_neighbour(vs: Seq<ActivityView>, a: ActivityView, n: int, k: int) -> bool {
    &&& 0 <= k < n
    &&& is_neighbour(a, vs[k])
    &&& forall|m: int| k < m < n ==> !(is_neighbour(a, #[trigger] vs[m]) && vs[m].id == vs[k].id)
}

/// Among the first `n` activities of `vs`, `k` is the last one with its id.
pub open spec fn last_with_id<A>(ids: Seq<A>, n: int, k: int) -> bool {
    &&& 0 <= k < n
    &&& forall|m: int| k < m < n ==> #[trigger] ids[m] != ids[k]
}

/// `m` maps the id of each neighbour of `a` among `vs` to the last neighbour
/// of `vs` with that id.
pub open spec fn neighbours_of(m: Map<i32, Activity>, vs: Seq<ActivityView>, a: ActivityView) -> bool {
    &&& forall|j: i32|
        #[trigger] m.contains_key(j) <==> exists|i: int| 0 <= i < vs.len() && is_neighbour(a, vs[i]) && #[trigger] vs[i].id == j
    &&& forall|k: int| #[trigger] last_neighbour(vs, a, vs.len() as int, k) ==> m[vs[k].id]@ == vs[k]
}

/// The ids of a list of activities.
pub open spec fn full_ids(acts: Seq<FullActivity>) -> Seq<i32> {
    acts.map_values(|a: FullActivity| a.id)
}

/// Whether `b` is another activity than `a` with a class or a teacher of `a`.
fn near(a: &FullActivity, b: &FullActivity) -> (r: bool)
    ensures
        r == is_neighbour(a.activity_view(), b.activity_view()),
{
    if b.id == a.id {
        return false;
    }
    let c = shares_any(&a.classes, &b.classes);
    let t = shares_any(&a.teachers, &b.teachers);
    c || t
}

/// The neighbours of `acts[i]` among `acts`, by id.
fn neighbour_map(acts: &Vec<FullActivity>, i: usize) -> (r: HashMap<i32, Activity>)
    requires
        i < acts@.len(),
    ensures
        neighbours_of(r@, act_values(acts@), act_values(acts@)[i as int]),
{
    let ghost vs = act_values(acts@);
    let ghost a = vs[i as int];
    let mut m: HashMap<i32, Activity> = HashMap::new();
    let mut j: usize = 0;
    while j < acts.len()
        invariant
            i < acts@.len(),
            j <= acts@.len(),
            vs == act_values(acts@),
            a == vs[i as int],
            forall|id: i32|
                #[trigger] m@.contains_key(id) <==> exists|k: int|
                    0 <= k < j && is_neighbour(a, vs[k]) && #[trigger] vs[k].id == id,
            forall|k: int| #[trigger] last_neighbour(vs, a, j as int, k) ==> m@[vs[k].id]@ == vs[k],
        decreases acts.len() - j,
    {
        let ghost m0 = m@;
        if near(&acts[i], &acts[j]) {
            let b = acts[j].to_activity();
            m.insert(acts[j].id, b);
            proof {
                assert forall|id: i32|
                    #[trigger] m@.contains_key(id) <==> exists|k: int|
                        0 <= k < j + 1 && is_neighbour(a, vs[k]) && #[trigger] vs[k].id == id by {
                    if id == vs[j as int].id {
                        assert(is_neighbour(a, vs[j as int]));
                    }
                }
                assert forall|k: int| #[trigger] last_neighbour(vs, a, j + 1, k) implies m@[vs[k].id]@ == vs[k] by {
                    if k < j {
                        assert(vs[k].id != vs[j as int].id);
                        assert(last_neighbour(vs, a, j as int, k));
                    }
                }
            }
        } else {
            proof {
                assert forall|k: int| #[trigger] last_neighbour(vs, a, j + 1, k) implies m@[vs[k].id]@ == vs[k] by {
                    assert(last_neighbour(vs, a, j as int, k));
                }
            }
        }
        j = j + 1;
    }
    m
}

/// `m` maps the id of each activity of `acts` to the neighbours of the last
/// activity of `acts` with that id: the other activities that have one of
/// its classes or teachers, by id.
pub open spec fn neighbour_table(m: Map<i32, HashMap<i32, Activity>>, acts: Seq<FullActivity>) -> bool {
    &&& forall|k: i32| #[trigger] m.contains_key(k) <==> full_ids(acts).contains(k)
    &&& forall|i: int|
        #[trigger] last_with_id(full_ids(acts), acts.len() as int, i) ==> neighbours_of(
            m[acts[i].id]@,
            act_values(acts),
            act_values(acts)[i],
        )
}

/// For each activity, the other activities that share a class or a teacher
/// with it, by id.
pub fn create_ng(acts: &Vec<FullActivity>) -> (r: HashMap<i32, HashMap<i32, Activity>>)
    ensures
        neighbour_table(r@, acts@),
{
    let ghost ids = full_ids(acts@);
    let mut m: HashMap<i32, HashMap<i32, Activity>> = HashMap::new();
    let mut i: usize = 0;
    while i < acts.len()
        invariant
            i <= acts@.len(),
            ids == full_ids(acts@),
            forall|k: i32| #[trigger] m@.contains_key(k) <==> exists|j: int| 0 <= j < i && #[trigger] ids[j] == k,
            forall|j: int|
                #[trigger] last_with_id(ids, i as int, j) ==> neighbours_of(
                    m@[acts@[j].id]@,
                    act_values(acts@),
                    act_values(acts@)[j],
                ),
        decreases acts.len() - i,
    {
        let nb = neighbour_map(acts, i);
        m.insert(acts[i].id, nb);
        proof {
            assert(ids[i as int] == acts@[i as int].id);
            assert forall|j: int| #[trigger] last_with_id(ids, i + 1, j) implies neighbours_of(
                m@[acts@[j].id]@,
                act_values(acts@),
                act_values(acts@)[j],
            ) by {
                if j < i {
                    assert(ids[i as int] != ids[j]);
                    assert(last_with_id(ids, i as int, j));
                }
            }
        }
        i = i + 1;
    }
    proof {
        assert forall|k: i32| #[trigger] m@.contains_key(k) <==> ids.contains(k) by {
            if ids.contains(k) {
                let j = choose|j: int| 0 <= j < ids.len() && ids[j] == k;
                assert(ids[j] == k);
            }
        }
    }
    m
}


/// `b` has every teacher and every class of `a`.
pub open spec fn covers(a: FullActivityView, b: FullActivityView) -> bool {
    seq_holds_all(b.teachers, a.teachers) && seq_holds_all(b.classes, a.classes)
}

/// The test that keeps the activities that have every teacher and every
/// class of `a`.
pub open spec fn covering(a: FullActivityView) -> spec_fn(FullActivityView) -> bool {
    |b: FullActivityView| covers(a, b)
}

/// Copies of the activities of `acts` that have every teacher and every
/// class of `a`, in order.
fn covering_acts(acts: &Vec<FullActivity>, a: &FullActivity) -> (r: Vec<FullActivity>)
    ensures
        full_values(r@) == full_values(acts@).filter(covering(a@)),
{
    let mut r: Vec<FullActivity> = Vec::new();
    let mut j: usize = 0;
    proof {
        reveal(Seq::filter);
        assert(full_values(acts@).take(0) =~= Seq::<FullActivityView>::empty());
        assert(full_values(r@) =~= Seq::<FullActivityView>::empty());
    }
    while j < acts.len()
        invariant
            j <= acts@.len(),
            full_values(r@) == full_values(acts@).take(j as int).filter(covering(a@)),
        decreases acts.len() - j,
    {
        let ghost before = r@;
        proof {
            assert(full_values(acts@).take(j + 1) =~= full_values(acts@).take(j as int).push(acts@[j as int]@));
            full_values(acts@).take(j as int).lemma_filter_push(acts@[j as int]@, covering(a@));
        }
        if holds_all(&acts[j].teachers, &a.teachers) && holds_all(&acts[j].classes, &a.classes) {
            r.push(acts[j].duplicate());
            proof {
                assert(full_values(r@) =~= full_values(before).push(acts@[j as int]@));
            }
        }
        j = j + 1;
    }
    assert(full_values(acts@).take(acts@.len() as int) =~= full_values(acts@));
    r
}

/// Records, for each activity of `acts`, the activities of `acts` that have
/// all of its teachers and classes, under its id; entries of other ids stay.
pub fn create_acts_data(teachers_acts: &mut HashMap<i32, Vec<FullActivity>>, acts: &Vec<FullActivity>)
    ensures
        forall|k: i32|
            #[trigger] final(teachers_acts)@.contains_key(k) <==> old(teachers_acts)@.contains_key(k)
                || full_ids(acts@).contains(k),
        forall|k: i32|
            !full_ids(acts@).contains(k) && old(teachers_acts)@.contains_key(k)
                ==> #[trigger] final(teachers_acts)@[k] == old(teachers_acts)@[k],
        forall|i: int|
            #[trigger] last_with_id(full_ids(acts@), acts@.len() as int, i) ==> full_values(
                final(teachers_acts)@[acts@[i].id]@,
            ) == full_values(acts@).filter(covering(acts@[i]@)),
{
    let ghost ids = full_ids(acts@);
    let ghost m0 = teachers_acts@;
    let mut i: usize = 0;
    while i < acts.len()
        invariant
            i <= acts@.len(),
            ids == full_ids(acts@),
            forall|k: i32|
                #[trigger] teachers_acts@.contains_key(k) <==> m0.contains_key(k) || exists|j: int|
                    0 <= j < i && #[trigger] ids[j] == k,
            forall|k: i32|
                !(exists|j: int| 0 <= j < i && #[trigger] ids[j] == k) && m0.contains_key(k) ==> #[trigger] teachers_acts@[k]
                    == m0[k],
            forall|j: int|
                #[trigger] last_with_id(ids, i as int, j) ==> full_values(teachers_acts@[acts@[j].id]@) == full_values(
                    acts@,
                ).filter(covering(acts@[j]@)),
        decreases acts.len() - i,
    {
        let list = covering_acts(acts, &acts[i]);
        teachers_acts.insert(acts[i].id, list);
        proof {
            assert(ids[i as int] == acts@[i as int].id);
            assert forall|j: int| #[trigger] last_with_id(ids, i + 1, j) implies full_values(
                teachers_acts@[acts@[j].id]@,
            ) == full_values(acts@).filter(covering(acts@[j]@)) by {
                if j < i {
                    assert(ids[i as int] != ids[j]);
                    assert(last_with_id(ids, i as int, j));
                }
            }
            assert forall|k: i32|
                !(exists|j: int| 0 <= j < i + 1 && #[trigger] ids[j] == k) && m0.contains_key(k) implies #[trigger] teachers_acts@[k]
                    == m0[k] by {
                assert(ids[i as int] != k);
            }
        }
        i = i + 1;
    }
    proof {
        assert forall|k: i32| ids.contains(k) <==> exists|j: int| 0 <= j < acts@.len() && #[trigger] ids[j] == k by {
            if ids.contains(k) {
                let j = choose|j: int| 0 <= j < ids.len() && ids[j] == k;
                assert(ids[j] == k);
            }
        }
    }
}

/// The sum of the hours of `acts`.
pub open spec fn hours_sum(acts: Seq<FullActivity>) -> int
    decreases acts.len(),
{
    if acts.len() == 0 {
        0
    } else {
        hours_sum(acts.drop_last()) + acts.last().hour
    }
}

proof fn lemma_hours_sum_prefix(s: Seq<FullActivity>, j: int)
    requires
        0 <= j <= s.len(),
        forall|i: int| 0 <= i < s.len() ==> (#[trigger] s[i]).hour >= 0,
    ensures
        hours_sum(s.take(j)) <= hours_sum(s),
    decreases s.len(),
{
    if j < s.len() {
        assert(s.drop_last().take(j) =~= s.take(j));
        assert forall|i: int| 0 <= i < s.drop_last().len() implies (#[trigger] s.drop_last()[i]).hour >= 0 by {
            assert(s.drop_last()[i] == s[i]);
        }
        lemma_hours_sum_prefix(s.drop_last(), j);
        assert(s.last().hour >= 0);
    } else {
        assert(s.take(j) =~= s);
    }
}

/// The number of lesson hours of all activities together.
pub fn total_hour(acts: &Vec<FullActivity>) -> (r: usize)
    requires
        forall|i: int| 0 <= i < acts@.len() ==> (#[trigger] acts@[i]).hour >= 0,
        hours_sum(acts@) <= usize::MAX,
    ensures
        r == hours_sum(acts@),
{
    proof {
        assert forall|j: int| 0 <= j <= acts@.len() implies #[trigger] hours_sum(acts@.take(j)) <= usize::MAX by {
            lemma_hours_sum_prefix(acts@, j);
        }
    }
    let mut t: usize = 0;
    let mut i: usize = 0;
    while i < acts.len()
        invariant
            i <= acts@.len(),
            forall|j: int| 0 <= j < acts@.len() ==> (#[trigger] acts@[j]).hour >= 0,
            forall|j: int| 0 <= j <= acts@.len() ==> #[trigger] hours_sum(acts@.take(j)) <= usize::MAX,
            t == hours_sum(acts@.take(i as int)),
        decreases acts.len() - i,
    {
        proof {
            assert(acts@.take(i + 1).drop_last() =~= acts@.take(i as int));
            assert(acts@.take(i + 1).last() == acts@[i as int]);
            assert(hours_sum(acts@.take(i + 1)) <= usize::MAX);
        }
        t = t + acts[i].hour as usize;
        i = i + 1;
    }
    assert(acts@.take(acts@.len() as int) =~= acts@);
    t
}


/// The activities the generator works with: the same ids, subjects,
/// classes, teachers and hours.
fn to_activities(acts: &Vec<FullActivity>) -> (r: Vec<Activity>)
    ensures
        act_views(r@) == act_values(acts@),
{
    let mut r: Vec<Activity> = Vec::new();
    let mut i: usize = 0;
    while i < acts.len()
        invariant
            i <= acts@.len(),
            act_views(r@) == act_values(acts@).take(i as int),
        decreases acts.len() - i,
    {
        let ghost before = r@;
        let a = acts[i].to_activity();
        r.push(a);
        proof {
            assert(r@ == before.push(a));
            assert(act_views(r@) =~= act_views(before).push(a@));
            assert(act_values(acts@).take(i + 1) =~= act_values(acts@).take(i as int).push(acts@[i as int].activity_view()));
        }
        i = i + 1;
    }
    assert(act_values(acts@).take(acts@.len() as int) =~= act_values(acts@));
    r
}

/// Everything the generator needs, from the limitations of the teachers and
/// classes, the activities, the classes, the teachers and the hours placed
/// so far. The limitations are also kept as they are, the activities that
/// cover each activity are recorded in `teachers_acts` as
/// [`create_acts_data`] does, and each activity gets its neighbours.
pub fn create_data(
    tat: HashMap<i32, Vec<TeacherLimitation>>,
    cat: HashMap<i32, Vec<ClassLimitation>>,
    acts: &Vec<FullActivity>,
    teachers_acts: HashMap<i32, Vec<FullActivity>>,
    classes: Vec<Class>,
    teachers: Vec<Teacher>,
    schedules: Vec<Schedule>,
) -> (r: TimetableData)
    ensures
        r.tat_view() == table_view(tat@),
        r.clean_tat_view() == table_view(tat@),
        r.cat_view() == table_view(cat@),
        table_view(r.clean_cat@) == table_view(cat@),
        act_views(r.acts@) == act_values(acts@),
        forall|k: i32|
            #[trigger] r.teachers_acts@.contains_key(k) <==> teachers_acts@.contains_key(k) || full_ids(acts@).contains(k),
        forall|k: i32|
            !full_ids(acts@).contains(k) && teachers_acts@.contains_key(k)
                ==> #[trigger] r.teachers_acts@[k] == teachers_acts@[k],
        forall|i: int|
            #[trigger] last_with_id(full_ids(acts@), acts@.len() as int, i) ==> full_values(
                r.teachers_acts@[acts@[i].id]@,
            ) == full_values(acts@).filter(covering(acts@[i]@)),
        neighbour_table(r.neighbour_acts@, acts@),
        r.classes == classes,
        r.teachers == teachers,
        r.sched() == schedules@,
{
    let mut ta = teachers_acts;
    create_acts_data(&mut ta, acts);
    let acts2 = to_activities(acts);
    let ng = create_ng(acts);
    TimetableData {
        tat: Box::new(tat.clone()),
        cat: Box::new(cat.clone()),
        clean_cat: Box::new(cat),
        clean_tat: Box::new(tat),
        acts: acts2,
        teachers_acts: ta,
        neighbour_acts: ng,
        classes,
        teachers,
        timetables: Box::new(schedules),
    }
}

/// One round of the generation loop: stops when all `total_hour` hours are
/// placed; otherwise places one more activity and asks to go on unless that
/// round failed or a stop was asked for. What the round did to `data` is to
/// be kept only when the answer is true.
pub fn generation_step(data: &mut TimetableData, params: &Params, total_hour: usize, stop_requested: bool) -> (r: bool)
    requires
        exists|len: nat| old(data).wf_at(len),
    ensures
        old(data).sched().len() == total_hour ==> !r && *final(data) == *old(data),
        old(data).sched().len() != total_hour ==> exists|g: bool|
            TimetableData::generated(*old(data), *final(data), *params, g) && r == (g && !stop_requested),
{
    if data.timetables.len() == total_hour {
        return false;
    }
    let g = data.generate(params);
    g && !stop_requested
}


/// Sharing a class or a teacher goes both ways: `b` is a neighbour of `a`
/// exactly when `a` is a neighbour of `b`.
pub proof fn lemma_neighbour_symmetric(a: ActivityView, b: ActivityView)
    ensures
        is_neighbour(a, b) == is_neighbour(b, a),
{
    assert(seq_shares(a.classes, b.classes) == seq_shares(b.classes, a.classes)) by {
        if seq_shares(a.classes, b.classes) {
            let x = choose|x: int| 0 <= x < b.classes.len() && a.classes.contains(#[trigger] b.classes[x]);
            let y = choose|y: int| 0 <= y < a.classes.len() && a.classes[y] == b.classes[x];
            assert(b.classes.contains(a.classes[y]));
        }
        if seq_shares(b.classes, a.classes) {
            let x = choose|x: int| 0 <= x < a.classes.len() && b.classes.contains(#[trigger] a.classes[x]);
            let y = choose|y: int| 0 <= y < b.classes.len() && b.classes[y] == a.classes[x];
            assert(a.classes.contains(b.classes[y]));
        }
    }
    assert(seq_shares(a.teachers, b.teachers) == seq_shares(b.teachers, a.teachers)) by {
        if seq_shares(a.teachers, b.teachers) {
            let x = choose|x: int| 0 <= x < b.teachers.len() && a.teachers.contains(#[trigger] b.teachers[x]);
            let y = choose|y: int| 0 <= y < a.teachers.len() && a.teachers[y] == b.teachers[x];
            assert(b.teachers.contains(a.teachers[y]));
        }
        if seq_shares(b.teachers, a.teachers) {
            let x = choose|x: int| 0 <= x < a.teachers.len() && b.teachers.contains(#[trigger] a.teachers[x]);
            let y = choose|y: int| 0 <= y < b.teachers.len() && b.teachers[y] == a.teachers[x];
            assert(a.teachers.contains(b.teachers[y]));
        }
    }
}

/// Every activity has all of its own teachers and classes, so it is among
/// the activities recorded for itself.
pub proof fn lemma_covers_self(a: FullActivityView)
    ensures
        covers(a, a),
{
    assert forall|x: int| 0 <= x < a.teachers.len() implies a.teachers.contains(#[trigger] a.teachers[x]) by {}
    assert forall|x: int| 0 <= x < a.classes.len() implies a.classes.contains(#[trigger] a.classes[x]) by {}
}

} // verus!
