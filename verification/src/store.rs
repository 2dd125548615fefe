use vstd::prelude::*;
use std::collections::HashMap;
use crate::msgs::{UpMsg, DownMsg};
use crate::msgs::activities::{ActivityDownMsgs, FullActivity};
use crate::msgs::classes::{Class, ClassDownMsgs, ClassLimitation, ClassUpMsgs};
use crate::msgs::lectures::Lecture;
use crate::msgs::teachers::{Teacher, TeacherDownMsgs, TeacherLimitation, TeacherUpMsgs};
use crate::msgs::timetables::{Schedule, Timetable, TimetableDownMsgs, TimetableUpMsgs};
use crate::msgs::users::User;
use crate::limits::{
    create_classes_limitations, create_teachers_limitations, create_default_lim, create_teacher_lim, open_week,
    reset_ids, class_ids, teacher_ids, settled_week, sorted_by_day_of,
};
use crate::order::{sort_by_key, sorted_by_key_of};
use crate::slots::list_view;
use crate::view::{Pages, TimetablePages};

verus! {

broadcast use vstd::std_specs::hash::group_hash_axioms;

/// The school of the logged-in manager.
#[derive(Debug, Clone)]
pub struct School {
    pub id: i32,
    pub name: String,
}

/// What the client keeps of the server's answers.
pub struct ClientState {
    pub page: Pages,
    pub school: Option<School>,
    pub lectures: Vec<Lecture>,
    pub timetables: Vec<Timetable>,
    /// The id of the timetable shown.
    pub selected_timetable: i32,
    /// The number of hours a day of the timetable shown.
    pub timetable_hours: usize,
    pub selected_page: TimetablePages,
    pub selected_class: Option<Class>,
    pub selected_teacher: Option<i32>,
    pub classes: Vec<Class>,
    pub teachers: Vec<Teacher>,
    pub activities: Vec<FullActivity>,
    pub schedules: Vec<Schedule>,
    pub classes_limitations: HashMap<i32, Vec<ClassLimitation>>,
    pub teachers_limitations: HashMap<i32, Vec<TeacherLimitation>>,
    pub loaded_lims: bool,
    /// The lesson hours of each teacher.
    pub teacher_totals: HashMap<i32, u32>,
    /// The lesson hours of each class.
    pub class_totals: HashMap<i32, u32>,
}

/// What the client does besides changing its state.
#[derive(Debug)]
pub enum Effect {
    /// Send a request to the server.
    Send(UpMsg),
    /// Clear the error of the login form.
    ClearLoginError,
    /// Keep the user who logged in.
    StoreUser(User),
}

/// `m` with `h` added to the hours of each of `ids` in turn.
pub open spec fn add_hours(m: Map<i32, u32>, ids: Seq<i32>, h: u32) -> Map<i32, u32>
    decreases ids.len(),
{
    if ids.len() == 0 {
        m
    } else {
        let m1 = add_hours(m, ids.drop_last(), h);
        m1.insert(ids.last(), (m1[ids.last()] + h) as u32)
    }
}

/// Each of `ids` has hours in `m` when its turn comes, and adding `h` to them
/// stays within a `u32`.
pub open spec fn can_add_hours(m: Map<i32, u32>, ids: Seq<i32>, h: u32) -> bool
    decreases ids.len(),
{
    ids.len() == 0 || {
        let m1 = add_hours(m, ids.drop_last(), h);
        &&& can_add_hours(m, ids.drop_last(), h)
        &&& m1.contains_key(ids.last())
        &&& m1[ids.last()] + h <= u32::MAX
    }
}

fn add_teacher_hours(m: &mut HashMap<i32, u32>, ids: &Vec<i32>, h: u32)
    requires
        can_add_hours(old(m)@, ids@, h),
    ensures
        final(m)@ == add_hours(old(m)@, ids@, h),
{
    let ghost m0 = m@;
    let mut i: usize = 0;
    while i < ids.len()
        invariant
            i <= ids@.len(),
            m@ == add_hours(m0, ids@.take(i as int), h),
            can_add_hours(m0, ids@, h),
        decreases ids.len() - i,
    {
        let t = ids[i];
        proof {
            assert(ids@.take(i + 1).drop_last() =~= ids@.take(i as int));
            assert(ids@.take(i + 1).last() == t);
            lemma_can_add_prefix(m0, ids@, h, i + 1);
        }
        let cur = match m.get(&t) {
            Some(v) => *v,
            None => 0,
        };
        m.insert(t, cur + h);
        i = i + 1;
    }
    assert(ids@.take(ids@.len() as int) =~= ids@);
}

proof fn lemma_can_add_prefix(m: Map<i32, u32>, ids: Seq<i32>, h: u32, n: int)
    requires
        can_add_hours(m, ids, h),
        0 <= n <= ids.len(),
    ensures
        can_add_hours(m, ids.take(n), h),
    decreases ids.len(),
{
    if n < ids.len() {
        assert(ids.drop_last().take(n) =~= ids.take(n));
        lemma_can_add_prefix(m, ids.drop_last(), h, n);
    } else {
        assert(ids.take(n) =~= ids);
    }
}

/// `m` where each of `classes` gets its hours in `ct` plus `h`.
pub open spec fn with_class_hours(m: Map<i32, u32>, ct: Map<i32, u32>, classes: Seq<i32>, h: u32) -> Map<i32, u32> {
    Map::new(
        |k: i32| m.contains_key(k) || classes.contains(k),
        |k: i32| if classes.contains(k) { (ct[k] + h) as u32 } else { m[k] },
    )
}

fn set_class_hours(m: &mut HashMap<i32, u32>, ct: &HashMap<i32, u32>, classes: &Vec<i32>, h: u32)
    requires
        forall|i: int|
            0 <= i < classes@.len() ==> ct@.contains_key(#[trigger] classes@[i]) && ct@[classes@[i]] + h
                <= u32::MAX,
    ensures
        final(m)@ == with_class_hours(old(m)@, ct@, classes@, h),
{
    let ghost m0 = m@;
    let mut i: usize = 0;
    while i < classes.len()
        invariant
            i <= classes@.len(),
            m@ == with_class_hours(m0, ct@, classes@.take(i as int), h),
            forall|k: int|
                0 <= k < classes@.len() ==> ct@.contains_key(#[trigger] classes@[k]) && ct@[classes@[k]] + h
                    <= u32::MAX,
        decreases classes.len() - i,
    {
        let c = classes[i];
        let cur = match ct.get(&c) {
            Some(v) => *v,
            None => 0,
        };
        proof {
            assert(ct@.contains_key(classes@[i as int]));
        }
        let ghost before = m@;
        m.insert(c, cur + h);
        proof {
            assert(cur == ct@[c]);
            let p = classes@.take(i as int);
            let q = classes@.take(i + 1);
            assert(q =~= p.push(c));
            assert forall|k: i32| q.contains(k) <==> p.contains(k) || k == c by {
                if q.contains(k) {
                    let j = choose|j: int| 0 <= j < q.len() && q[j] == k;
                    if j < p.len() {
                        assert(p[j] == k);
                    }
                }
                if p.contains(k) {
                    let j = choose|j: int| 0 <= j < p.len() && p[j] == k;
                    assert(q[j] == k);
                }
                if k == c {
                    assert(q[i as int] == c);
                }
            }
            assert(m@ =~= with_class_hours(m0, ct@, q, h));
        }
        i = i + 1;
    }
    assert(classes@.take(classes@.len() as int) =~= classes@);
}

/// The requests that load timetable `id`: its classes, the limitations of
/// its classes and teachers, its placed hours and its activities.
pub open spec fn timetable_requests(id: i32) -> Seq<Effect> {
    seq![
        Effect::Send(UpMsg::Timetable(TimetableUpMsgs::GetClasses(id))),
        Effect::Send(UpMsg::Timetable(TimetableUpMsgs::GetClassesLimitations(id))),
        Effect::Send(UpMsg::Timetable(TimetableUpMsgs::GetTeachersLimitations(id))),
        Effect::Send(UpMsg::Timetable(TimetableUpMsgs::GetSchedules(id))),
        Effect::Send(UpMsg::Timetable(TimetableUpMsgs::GetActivities(id))),
    ]
}

/// The requests that store the free weeks of the classes `ids`.
pub open spec fn class_resets(r: Seq<Effect>, ids: Seq<i32>, t_len: nat) -> bool {
    &&& r.len() == ids.len()
    &&& forall|k: int|
        0 <= k < ids.len() ==> (#[trigger] r[k] matches Effect::Send(
            UpMsg::Timetable(TimetableUpMsgs::Class(ClassUpMsgs::UpdateLimitations((id, l)))),
        ) && id == ids[k] && list_view(l@) == open_week(seq![ids[k]], t_len))
}

/// The requests that store, for timetable `group_id` of school `school_id`,
/// the free weeks of the teachers `ids`.
pub open spec fn teacher_resets(r: Seq<Effect>, ids: Seq<i32>, t_len: nat, school_id: i32, group_id: i32) -> bool {
    &&& r.len() == ids.len()
    &&& forall|k: int|
        0 <= k < ids.len() ==> (#[trigger] r[k] matches Effect::Send(
            UpMsg::Timetable(TimetableUpMsgs::Teacher(TeacherUpMsgs::UpdateLimitations((g, l)))),
        ) && g == group_id && list_view(l@) == open_week(seq![ids[k], school_id, group_id], t_len))
}

fn class_reset_msgs(ids: &Vec<i32>, t_len: usize) -> (r: Vec<Effect>)
    ensures
        class_resets(r@, ids@, t_len as nat),
{
    let mut r: Vec<Effect> = Vec::new();
    let mut i: usize = 0;
    while i < ids.len()
        invariant
            i <= ids@.len(),
            class_resets(r@, ids@.take(i as int), t_len as nat),
        decreases ids.len() - i,
    {
        let id = ids[i];
        let l = create_default_lim(id, t_len);
        r.push(Effect::Send(UpMsg::Timetable(TimetableUpMsgs::Class(ClassUpMsgs::UpdateLimitations((id, l))))));
        i = i + 1;
    }
    assert(ids@.take(ids@.len() as int) =~= ids@);
    r
}

fn teacher_reset_msgs(ids: &Vec<i32>, t_len: usize, school_id: i32, group_id: i32) -> (r: Vec<Effect>)
    ensures
        teacher_resets(r@, ids@, t_len as nat, school_id, group_id),
{
    let mut r: Vec<Effect> = Vec::new();
    let mut i: usize = 0;
    while i < ids.len()
        invariant
            i <= ids@.len(),
            teacher_resets(r@, ids@.take(i as int), t_len as nat, school_id, group_id),
        decreases ids.len() - i,
    {
        let id = ids[i];
        let l = create_teacher_lim(id, school_id, group_id, t_len);
        r.push(
            Effect::Send(UpMsg::Timetable(TimetableUpMsgs::Teacher(TeacherUpMsgs::UpdateLimitations((group_id, l))))),
        );
        i = i + 1;
    }
    assert(ids@.take(ids@.len() as int) =~= ids@);
    r
}

/// `i` is the first position of `acts` with id `id`.
pub open spec fn first_act(acts: Seq<FullActivity>, id: i32, i: int) -> bool {
    &&& 0 <= i < acts.len()
    &&& acts[i].id == id
    &&& forall|j: int| 0 <= j < i ==> acts[j].id != id
}

/// The answers the client can take in `s` without failing: a new activity's
/// teachers and classes have hours to add to, an activity that is deleted is
/// known and has a teacher with enough hours, a timetable does not have a
/// negative number of hours a day, a class's new limitations are not empty,
/// and teachers' limitations need a school when a teacher's week is reset.
pub open spec fn can_take(s: ClientState, msg: DownMsg) -> bool {
    match msg {
        DownMsg::GetTimetables(ts) => ts@.len() > 0 ==> ts@[0].hour >= 0,
        DownMsg::Timetable(TimetableDownMsgs::Class(ClassDownMsgs::UpdateClassLimitations(lims))) => lims@.len() > 0,
        DownMsg::Timetable(TimetableDownMsgs::GetTeachersLimitations(lims)) => s.school is None ==> reset_ids(
            teacher_ids(s.teachers@),
            list_view(lims@),
            s.timetable_hours as nat,
        ).len() == 0,
        DownMsg::Activity(ActivityDownMsgs::AddedAct(act)) => {
            &&& can_add_hours(s.teacher_totals@, act.teachers@, act.hour as u32)
            &&& forall|i: int|
                0 <= i < act.classes@.len() ==> s.class_totals@.contains_key(#[trigger] act.classes@[i])
                    && s.class_totals@[act.classes@[i]] + (act.hour as u32) <= u32::MAX
        },
        DownMsg::Activity(ActivityDownMsgs::DeletedAct(id)) => exists|i: int|
            #[trigger] first_act(s.activities@, id, i) && s.activities@[i].teachers@.len() > 0
                && s.teacher_totals@.contains_key(s.activities@[i].teachers@[0])
                && s.teacher_totals@[s.activities@[i].teachers@[0]] >= (s.activities@[i].hour as u32),
        _ => true,
    }
}

/// How the client takes an answer of the server, from state `s` to state `t`
/// with the effects `e`.
pub open spec fn took(s: ClientState, msg: DownMsg, t: ClientState, e: Seq<Effect>) -> bool {
    match msg {
        DownMsg::LoggedUser(user) => t == s && e == seq![
            Effect::Send(UpMsg::GetSchool),
            Effect::ClearLoginError,
            Effect::StoreUser(user),
        ],
        DownMsg::GetSchool { id, name } => t == (ClientState {
            page: Pages::Home,
            school: Some(School { id, name }),
            ..s
        }) && e == seq![
            Effect::Send(UpMsg::GetTimetables),
            Effect::Send(UpMsg::GetTeachers),
            Effect::Send(UpMsg::GetLectures),
        ],
        DownMsg::GetLectures(lectures) => t == (ClientState { lectures: t.lectures, ..s }) && sorted_by_key_of(
            t.lectures@,
            lectures@,
        ) && e.len() == 0,
        DownMsg::GetTeachers(teachers) => t == (ClientState { teachers: t.teachers, ..s }) && sorted_by_key_of(
            t.teachers@,
            teachers@,
        ) && e.len() == 0,
        DownMsg::GetTimetables(ts) => if ts@.len() > 0 {
            t == (ClientState {
                timetables: ts,
                page: Pages::Home,
                selected_timetable: ts@[0].id,
                timetable_hours: ts@[0].hour as usize,
                selected_class: None,
                selected_teacher: None,
                selected_page: TimetablePages::Classes,
                ..s
            }) && e == timetable_requests(ts@[0].id)
        } else {
            t == (ClientState { timetables: ts, ..s }) && e.len() == 0
        },
        DownMsg::Timetable(tm) => match tm {
            TimetableDownMsgs::GetClasses(classes) => t == (ClientState { classes: t.classes, ..s })
                && sorted_by_key_of(t.classes@, classes@) && e.len() == 0,
            TimetableDownMsgs::GetClassesLimitations(lims) => {
                let resets = reset_ids(class_ids(s.classes@), list_view(lims@), s.timetable_hours as nat);
                &&& t == (ClientState { classes_limitations: t.classes_limitations, loaded_lims: true, ..s })
                &&& forall|k: i32| #[trigger] t.classes_limitations@.contains_key(k) <==> class_ids(s.classes@).contains(k)
                &&& forall|i: int|
                    0 <= i < s.classes@.len() ==> list_view(t.classes_limitations@[#[trigger] s.classes@[i].id]@)
                        == settled_week(list_view(lims@), seq![s.classes@[i].id], s.timetable_hours as nat)
                &&& class_resets(e, resets, s.timetable_hours as nat)
            },
            TimetableDownMsgs::GetTeachersLimitations(lims) => {
                let resets = reset_ids(teacher_ids(s.teachers@), list_view(lims@), s.timetable_hours as nat);
                let school_id = if s.school is Some {
                    s.school->Some_0.id
                } else {
                    0
                };
                &&& t == (ClientState { teachers_limitations: t.teachers_limitations, ..s })
                &&& forall|k: i32| #[trigger] t.teachers_limitations@.contains_key(k) <==> teacher_ids(s.teachers@).contains(k)
                &&& forall|i: int|
                    0 <= i < s.teachers@.len() ==> sorted_by_day_of(
                        list_view(t.teachers_limitations@[#[trigger] s.teachers@[i].id]@),
                        settled_week(
                            list_view(lims@),
                            seq![s.teachers@[i].id, school_id, s.selected_timetable],
                            s.timetable_hours as nat,
                        ),
                    )
                &&& teacher_resets(e, resets, s.timetable_hours as nat, school_id, s.selected_timetable)
            },
            TimetableDownMsgs::GetActivities(acts) => t == (ClientState { activities: acts, ..s }) && e.len() == 0,
            TimetableDownMsgs::GetSchedules(schs) => t == (ClientState { schedules: schs, ..s }) && e.len() == 0,
            TimetableDownMsgs::Class(ClassDownMsgs::UpdateClassLimitations(lims)) => t == (ClientState {
                classes_limitations: t.classes_limitations,
                ..s
            }) && t.classes_limitations@ == s.classes_limitations@.insert(lims@[0].class_id, lims) && e.len() == 0,
            TimetableDownMsgs::Teacher(TeacherDownMsgs::UpdateLimitations(lims)) => match s.selected_teacher {
                Some(id) => t == (ClientState { teachers_limitations: t.teachers_limitations, ..s })
                    && t.teachers_limitations@ == s.teachers_limitations@.insert(id, lims) && e.len() == 0,
                None => t == s && e.len() == 0,
            },
            _ => t == s && e.len() == 0,
        },
        DownMsg::Activity(am) => match am {
            ActivityDownMsgs::AddedAct(act) => {
                let h = act.hour as u32;
                &&& t == (ClientState { activities: t.activities, teacher_totals: t.teacher_totals, ..s })
                &&& t.activities@ == s.activities@.push(act)
                &&& t.teacher_totals@ == with_class_hours(
                    add_hours(s.teacher_totals@, act.teachers@, h),
                    s.class_totals@,
                    act.classes@,
                    h,
                )
                &&& e.len() == 0
            },
            ActivityDownMsgs::DeletedAct(id) => exists|i: int|
                #[trigger] first_act(s.activities@, id, i) && {
                    let a = s.activities@[i];
                    let tr = a.teachers@[0];
                    &&& t == (ClientState { activities: t.activities, teacher_totals: t.teacher_totals, ..s })
                    &&& t.activities@ == s.activities@.remove(i)
                    &&& t.teacher_totals@ == s.teacher_totals@.insert(tr, (s.teacher_totals@[tr] - (a.hour as u32)) as u32)
                    &&& e.len() == 0
                },
            _ => t == s && e.len() == 0,
        },
        _ => t == s && e.len() == 0,
    }
}


fn find_act(acts: &Vec<FullActivity>, id: i32) -> (r: Option<usize>)
    ensures
        match r {
            Some(i) => first_act(acts@, id, i as int),
            None => forall|j: int| 0 <= j < acts@.len() ==> acts@[j].id != id,
        },
{
    let mut i: usize = 0;
    while i < acts.len()
        invariant
            i <= acts@.len(),
            forall|j: int| 0 <= j < i ==> acts@[j].id != id,
        decreases acts.len() - i,
    {
        if acts[i].id == id {
            return Some(i);
        }
        i = i + 1;
    }
    None
}

/// Takes an answer of the server: keeps what it carries, lists sorted as
/// they are shown, and gives what to do next, such as the requests to send.
pub fn handle_down_msg(state: &mut ClientState, msg: DownMsg) -> (e: Vec<Effect>)
    requires
        can_take(*old(state), msg),
    ensures
        took(*old(state), msg, *final(state), e@),
{
    let ghost s0 = *state;
    let ghost m0 = msg;
    let mut e: Vec<Effect> = Vec::new();
    match msg {
        DownMsg::LoggedUser(user) => {
            e.push(Effect::Send(UpMsg::GetSchool));
            e.push(Effect::ClearLoginError);
            e.push(Effect::StoreUser(user));
            assert(e@ =~= seq![Effect::Send(UpMsg::GetSchool), Effect::ClearLoginError, Effect::StoreUser(user)]);
        },
        DownMsg::GetSchool { id, name } => {
            state.page = Pages::Home;
            state.school = Some(School { id, name });
            e.push(Effect::Send(UpMsg::GetTimetables));
            e.push(Effect::Send(UpMsg::GetTeachers));
            e.push(Effect::Send(UpMsg::GetLectures));
            assert(e@ =~= seq![
                Effect::Send(UpMsg::GetTimetables),
                Effect::Send(UpMsg::GetTeachers),
                Effect::Send(UpMsg::GetLectures),
            ]);
        },
        DownMsg::GetLectures(lectures) => {
            state.lectures = sort_by_key(&lectures);
        },
        DownMsg::GetTeachers(teachers) => {
            state.teachers = sort_by_key(&teachers);
        },
        DownMsg::GetTimetables(ts) => {
            if ts.len() > 0 {
                let id = ts[0].id;
                let hour = ts[0].hour;
                state.timetables = ts;
                state.page = Pages::Home;
                state.selected_timetable = id;
                state.timetable_hours = hour as usize;
                state.selected_class = None;
                state.selected_teacher = None;
                state.selected_page = TimetablePages::Classes;
                e.push(Effect::Send(UpMsg::Timetable(TimetableUpMsgs::GetClasses(id))));
                e.push(Effect::Send(UpMsg::Timetable(TimetableUpMsgs::GetClassesLimitations(id))));
                e.push(Effect::Send(UpMsg::Timetable(TimetableUpMsgs::GetTeachersLimitations(id))));
                e.push(Effect::Send(UpMsg::Timetable(TimetableUpMsgs::GetSchedules(id))));
                e.push(Effect::Send(UpMsg::Timetable(TimetableUpMsgs::GetActivities(id))));
                assert(e@ =~= timetable_requests(id));
            } else {
                state.timetables = ts;
            }
        },
        DownMsg::Timetable(tm) => {
            match tm {
                TimetableDownMsgs::GetClasses(classes) => {
                    state.classes = sort_by_key(&classes);
                },
                TimetableDownMsgs::GetClassesLimitations(lims) => {
                    let t_len = state.timetable_hours;
                    let (map, resets) = create_classes_limitations(lims, &state.classes, t_len);
                    state.classes_limitations = map;
                    state.loaded_lims = true;
                    e = class_reset_msgs(&resets, t_len);
                },
                TimetableDownMsgs::GetTeachersLimitations(lims) => {
                    let t_len = state.timetable_hours;
                    let school_id = match &state.school {
                        Some(sc) => sc.id,
                        None => 0,
                    };
                    let group_id = state.selected_timetable;
                    let (map, resets) = create_teachers_limitations(lims, &state.teachers, t_len, school_id, group_id);
                    state.teachers_limitations = map;
                    e = teacher_reset_msgs(&resets, t_len, school_id, group_id);
                },
                TimetableDownMsgs::GetActivities(acts) => {
                    state.activities = acts;
                },
                TimetableDownMsgs::GetSchedules(schs) => {
                    state.schedules = schs;
                },
                TimetableDownMsgs::Class(cm) => {
                    match cm {
                        ClassDownMsgs::UpdateClassLimitations(lims) => {
                            let id = lims[0].class_id;
                            state.classes_limitations.insert(id, lims);
                        },
                        _ => {},
                    }
                },
                TimetableDownMsgs::Teacher(tm2) => {
                    match tm2 {
                        TeacherDownMsgs::UpdateLimitations(lims) => {
                            match state.selected_teacher {
                                Some(id) => {
                                    state.teachers_limitations.insert(id, lims);
                                },
                                None => {},
                            }
                        },
                        _ => {},
                    }
                },
                _ => {},
            }
        },
        DownMsg::Activity(am) => {
            match am {
                ActivityDownMsgs::AddedAct(act) => {
                    let h = act.hour as u32;
                    add_teacher_hours(&mut state.teacher_totals, &act.teachers, h);
                    set_class_hours(&mut state.teacher_totals, &state.class_totals, &act.classes, h);
                    state.activities.push(act);
                },
                ActivityDownMsgs::DeletedAct(id) => {
                    match find_act(&state.activities, id) {
                        Some(i) => {
                            let teacher = state.activities[i].teachers[0];
                            let h = state.activities[i].hour as u32;
                            state.activities.remove(i);
                            let cur = match state.teacher_totals.get(&teacher) {
                                Some(v) => *v,
                                None => 0,
                            };
                            state.teacher_totals.insert(teacher, cur - h);
                        },
                        None => {
                            proof {
                                let i = choose|i: int| #[trigger] first_act(s0.activities@, id, i) && s0.activities@[i].teachers@.len() > 0
                                    && s0.teacher_totals@.contains_key(s0.activities@[i].teachers@[0])
                                    && s0.teacher_totals@[s0.activities@[i].teachers@[0]] >= (s0.activities@[i].hour as u32);
                                assert(s0.activities@[i].id == id);
                            }
                        },
                    }
                },
                _ => {},
            }
        },
        _ => {},
    }
    e
}

/// Adding `h` hours for the teachers `ids` adds to each teacher `h` hours for
/// every time it appears in `ids`, and changes nobody else; no teacher is
/// added or dropped.
pub proof fn lemma_add_hours_each(m: Map<i32, u32>, ids: Seq<i32>, h: u32)
    requires
        can_add_hours(m, ids, h),
    ensures
        add_hours(m, ids, h).dom() == m.dom(),
        forall|x: i32|
            #[trigger] m.contains_key(x) ==> add_hours(m, ids, h)[x] == m[x] + h * ids.to_multiset().count(x),
    decreases ids.len(),
{
    if ids.len() == 0 {
        ids.to_multiset_ensures();
        assert forall|x: i32| #[trigger] m.contains_key(x) implies add_hours(m, ids, h)[x] == m[x] + h * ids.to_multiset().count(x) by {
            assert(!ids.contains(x));
        }
    } else {
        let init = ids.drop_last();
        let last = ids.last();
        lemma_add_hours_each(m, init, h);
        let m1 = add_hours(m, init, h);
        assert(ids =~= init.push(last));
        init.to_multiset_ensures();
        assert(ids.to_multiset() =~= init.to_multiset().insert(last));
        assert(m1.insert(last, (m1[last] + h) as u32).dom() =~= m.dom());
        assert forall|x: i32| #[trigger] m.contains_key(x) implies add_hours(m, ids, h)[x] == m[x] + h * ids.to_multiset().count(x) by {
            let c = init.to_multiset().count(x);
            if x == last {
                assert(ids.to_multiset().count(x) == c + 1);
                assert(h * (c + 1) == h * c + h) by (nonlinear_arith);
            } else {
                assert(ids.to_multiset().count(x) == c);
            }
        }
    }
}

/// Taking the answer that an activity was added: each teacher of the
/// activity gets its hours once for every time it is listed, each of its
/// classes gets its class total plus its hours (in the same totals), every
/// other teacher keeps its total, and the activity is added at the end.
pub proof fn lemma_added_act_totals(s: ClientState, act: FullActivity, t: ClientState, e: Seq<Effect>)
    requires
        can_take(s, DownMsg::Activity(ActivityDownMsgs::AddedAct(act))),
        took(s, DownMsg::Activity(ActivityDownMsgs::AddedAct(act)), t, e),
    ensures
        t.activities@ == s.activities@.push(act),
        forall|x: i32|
            #[trigger] act.classes@.contains(x) ==> t.teacher_totals@.contains_key(x) && t.teacher_totals@[x]
                == s.class_totals@[x] + act.hour as u32,
        forall|x: i32|
            #[trigger] s.teacher_totals@.contains_key(x) && !act.classes@.contains(x) ==> t.teacher_totals@[x]
                == s.teacher_totals@[x] + (act.hour as u32) * act.teachers@.to_multiset().count(x),
        forall|x: i32|
            #[trigger] t.teacher_totals@.contains_key(x) <==> s.teacher_totals@.contains_key(x) || act.classes@.contains(x),
{
    let h = act.hour as u32;
    lemma_add_hours_each(s.teacher_totals@, act.teachers@, h);
    assert forall|x: i32| #[trigger] act.classes@.contains(x) implies t.teacher_totals@.contains_key(x)
        && t.teacher_totals@[x] == s.class_totals@[x] + h by {
        let i = choose|i: int| 0 <= i < act.classes@.len() && act.classes@[i] == x;
        assert(s.class_totals@.contains_key(act.classes@[i]) && s.class_totals@[act.classes@[i]] + h <= u32::MAX);
    }
}

} // verus!
