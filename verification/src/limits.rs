use vstd::prelude::*;
use std::collections::HashMap;
use vstd::string::StringExecFns;
use crate::msgs::DownMsg;
use crate::msgs::classes::{Class, ClassLimitation, ClassDownMsgs};
use crate::msgs::teachers::{Teacher, TeacherLimitation, TeacherDownMsgs};
use crate::msgs::timetables::TimetableDownMsgs;
use crate::slots::{DaySlots, DayView, list_view, is_first_of_day, first_of_day, copy_hours};
use crate::ids::holds_id;

verus! {

broadcast use vstd::std_specs::hash::group_hash_axioms;

/// A row of `n` free hours.
pub open spec fn all_true(n: nat) -> Seq<bool> {
    Seq::new(n, |h: int| true)
}

/// A week for `owner` in which all `t_len` hours of each of the seven days
/// are free, the days in order.
pub open spec fn open_week(owner: Seq<i32>, t_len: nat) -> Seq<DayView> {
    Seq::new(7, |i: int| DayView { owner: owner, day: (i + 1) as i32, hours: all_true(t_len) })
}

/// The test that keeps the entries of one teacher or class.
pub open spec fn owned(id: i32) -> spec_fn(DayView) -> bool {
    |l: DayView| l.owner[0] == id
}

/// The entries of `lims` that belong to `id`, in order.
pub open spec fn lims_of(lims: Seq<DayView>, id: i32) -> Seq<DayView> {
    lims.filter(owned(id))
}

/// Each of the seven days has an entry in `ls`, and the first entry of each
/// day has at least `t_len` hours.
pub open spec fn week_complete(ls: Seq<DayView>, t_len: nat) -> bool {
    forall|d: i32| 1 <= d <= 7 ==> #[trigger] day_complete(ls, d, t_len)
}

/// Day `d` has an entry in `ls`, and its first one has at least `t_len` hours.
pub open spec fn day_complete(ls: Seq<DayView>, d: i32, t_len: nat) -> bool {
    exists|i: int| #[trigger] is_first_of_day(ls, d, i) && ls[i].hours.len() >= t_len
}

/// The limitations that `owner` ends up with: its own entries of `lims` when
/// they make a complete week, else a week with every hour free.
pub open spec fn settled_week(lims: Seq<DayView>, owner: Seq<i32>, t_len: nat) -> Seq<DayView> {
    if week_complete(lims_of(lims, owner[0]), t_len) {
        lims_of(lims, owner[0])
    } else {
        open_week(owner, t_len)
    }
}

/// The ids among `ids`, first occurrences in order, whose entries of `lims`
/// do not make a complete week: those whose limitations are reset.
pub open spec fn reset_ids(ids: Seq<i32>, lims: Seq<DayView>, t_len: nat) -> Seq<i32>
    decreases ids.len(),
{
    if ids.len() == 0 {
        Seq::empty()
    } else {
        let r = reset_ids(ids.drop_last(), lims, t_len);
        if !week_complete(lims_of(lims, ids.last()), t_len) && !r.contains(ids.last()) {
            r.push(ids.last())
        } else {
            r
        }
    }
}

/// A row of `n` free hours.
fn free_row(n: usize) -> (r: Vec<bool>)
    ensures
        r@ == all_true(n as nat),
{
    let mut r: Vec<bool> = Vec::new();
    let mut i: usize = 0;
    while i < n
        invariant
            i <= n,
            r@ == all_true(i as nat),
        decreases n - i,
    {
        r.push(true);
        i = i + 1;
        proof {
            assert(r@ =~= all_true(i as nat));
        }
    }
    r
}

/// The limitations of a class with every hour of every day free.
pub fn create_default_lim(class_id: i32, t_len: usize) -> (r: Vec<ClassLimitation>)
    ensures
        list_view(r@) == open_week(seq![class_id], t_len as nat),
{
    let mut lims: Vec<ClassLimitation> = Vec::new();
    let mut day: i32 = 1;
    while day <= 7
        invariant
            1 <= day <= 8,
            lims@.len() == day - 1,
            forall|i: int|
                0 <= i < lims@.len() ==> (#[trigger] lims@[i]).slots() == open_week(seq![class_id], t_len as nat)[i],
        decreases 8 - day,
    {
        let l = ClassLimitation { class_id, day, hours: free_row(t_len) };
        proof {
            assert(l.slots().owner =~= seq![class_id]);
        }
        lims.push(l);
        day = day + 1;
    }
    assert(list_view(lims@) =~= open_week(seq![class_id], t_len as nat));
    lims
}

/// The limitations of a teacher of school `school_id` in timetable
/// `group_id` with every hour of every day free.
pub fn create_teacher_lim(user_id: i32, school_id: i32, group_id: i32, t_len: usize) -> (r: Vec<TeacherLimitation>)
    ensures
        list_view(r@) == open_week(seq![user_id, school_id, group_id], t_len as nat),
{
    let mut lims: Vec<TeacherLimitation> = Vec::new();
    let mut day: i32 = 1;
    while day <= 7
        invariant
            1 <= day <= 8,
            lims@.len() == day - 1,
            forall|i: int|
                0 <= i < lims@.len() ==> (#[trigger] lims@[i]).slots() == open_week(
                    seq![user_id, school_id, group_id],
                    t_len as nat,
                )[i],
        decreases 8 - day,
    {
        let l = TeacherLimitation { user_id, school_id, group_id, day, hours: free_row(t_len) };
        proof {
            assert(l.slots().owner =~= seq![user_id, school_id, group_id]);
        }
        lims.push(l);
        day = day + 1;
    }
    assert(list_view(lims@) =~= open_week(seq![user_id, school_id, group_id], t_len as nat));
    lims
}

/// Copies of the entries of `lims` that belong to `id`, in order.
fn own_lims<L: DaySlots>(lims: &Vec<L>, id: i32) -> (r: Vec<L>)
    ensures
        list_view(r@) == lims_of(list_view(lims@), id),
{
    let mut r: Vec<L> = Vec::new();
    let mut i: usize = 0;
    proof {
        assert(list_view(lims@.take(0)) =~= Seq::<DayView>::empty());
        reveal(Seq::filter);
        assert(list_view(r@) =~= lims_of(list_view(lims@.take(0)), id));
    }
    while i < lims.len()
        invariant
            i <= lims@.len(),
            list_view(r@) == lims_of(list_view(lims@.take(i as int)), id),
        decreases lims.len() - i,
    {
        let ghost before = r@;
        proof {
            assert(list_view(lims@.take(i + 1)) =~= list_view(lims@.take(i as int)).push(lims@[i as int].slots()));
            list_view(lims@.take(i as int)).lemma_filter_push(lims@[i as int].slots(), owned(id));
        }
        if lims[i].owner_id() == id {
            r.push(lims[i].copy());
            proof {
                assert(list_view(r@) =~= list_view(before).push(lims@[i as int].slots()));
            }
        }
        i = i + 1;
    }
    assert(lims@.take(lims@.len() as int) =~= lims@);
    r
}

/// Whether `own` makes a complete week of days with at least `t_len` hours.
fn complete<L: DaySlots>(own: &Vec<L>, t_len: usize) -> (r: bool)
    ensures
        r == week_complete(list_view(own@), t_len as nat),
{
    let ghost s = list_view(own@);
    let mut d: i32 = 1;
    while d <= 7
        invariant
            1 <= d <= 8,
            s == list_view(own@),
            forall|e: i32| 1 <= e < d ==> #[trigger] day_complete(s, e, t_len as nat),
        decreases 8 - d,
    {
        match first_of_day(own, d) {
            Some(i) => {
                if own[i].hours_len() < t_len {
                    proof {
                        assert forall|j: int| #[trigger] is_first_of_day(s, d, j) implies s[j].hours.len() < t_len by {
                            if j < i {
                                assert(s[j].day == d);
                            } else if j > i {
                                assert(s[i as int].day == d);
                            }
                        }
                    }
                    assert(!day_complete(s, d, t_len as nat));
                    return false;
                }
                assert(is_first_of_day(s, d, i as int));
                assert(day_complete(s, d, t_len as nat));
            },
            None => {
                proof {
                    assert forall|j: int| !#[trigger] is_first_of_day(s, d, j) by {
                        if 0 <= j < s.len() {
                            assert(own@[j].slots().day != d);
                        }
                    }
                }
                assert(!day_complete(s, d, t_len as nat));
                return false;
            },
        }
        d = d + 1;
    }
    true
}

/// The ids of a list of classes.
pub open spec fn class_ids(classes: Seq<Class>) -> Seq<i32> {
    classes.map_values(|c: Class| c.id)
}

/// The ids of a list of teachers.
pub open spec fn teacher_ids(teachers: Seq<Teacher>) -> Seq<i32> {
    teachers.map_values(|t: Teacher| t.id)
}

/// Sorts the limitations a class list receives into one week per class:
/// each class keeps its own entries of `lims` when they make a complete week
/// of days with at least `t_len` hours, and gets a week with every hour free
/// otherwise. Also gives the ids of the classes that got a free week, whose
/// new limitations are to be stored.
pub fn create_classes_limitations(lims: Vec<ClassLimitation>, classes: &Vec<Class>, t_len: usize) -> (r: (
    HashMap<i32, Vec<ClassLimitation>>,
    Vec<i32>,
))
    ensures
        forall|k: i32| r.0@.contains_key(k) <==> class_ids(classes@).contains(k),
        forall|i: int|
            0 <= i < classes@.len() ==> list_view(r.0@[#[trigger] classes@[i].id]@) == settled_week(
                list_view(lims@),
                seq![classes@[i].id],
                t_len as nat,
            ),
        r.1@ == reset_ids(class_ids(classes@), list_view(lims@), t_len as nat),
{
    let ghost ls = list_view(lims@);
    let ghost ids = class_ids(classes@);
    let mut map: HashMap<i32, Vec<ClassLimitation>> = HashMap::new();
    let mut reset: Vec<i32> = Vec::new();
    let mut i: usize = 0;
    proof {
        assert(ids.take(0) =~= Seq::<i32>::empty());
    }
    while i < classes.len()
        invariant
            i <= classes@.len(),
            ls == list_view(lims@),
            ids == class_ids(classes@),
            forall|k: i32| map@.contains_key(k) <==> ids.take(i as int).contains(k),
            forall|j: int|
                0 <= j < i ==> list_view(map@[#[trigger] classes@[j].id]@) == settled_week(
                    ls,
                    seq![classes@[j].id],
                    t_len as nat,
                ),
            reset@ == reset_ids(ids.take(i as int), ls, t_len as nat),
        decreases classes.len() - i,
    {
        let id = classes[i].id;
        let own = own_lims(&lims, id);
        let ok = complete(&own, t_len);
        let entry = if ok {
            own
        } else {
            create_default_lim(id, t_len)
        };
        proof {
            assert(seq![id][0] == id);
            assert(list_view(entry@) == settled_week(ls, seq![id], t_len as nat));
        }
        if !ok && !holds_id(&reset, id) {
            reset.push(id);
        }
        map.insert(id, entry);
        proof {
            assert(ids.take(i + 1).drop_last() =~= ids.take(i as int));
            assert(ids.take(i + 1).last() == id);
            assert(ids.take(i + 1) =~= ids.take(i as int).push(id));
            let prev = ids.take(i as int);
            let next = ids.take(i + 1);
            assert forall|k: i32| map@.contains_key(k) <==> next.contains(k) by {
                if prev.contains(k) {
                    let j = choose|j: int| 0 <= j < prev.len() && #[trigger] prev[j] == k;
                    assert(next[j] == k);
                }
                if next.contains(k) && k != id {
                    let j = choose|j: int| 0 <= j < next.len() && #[trigger] next[j] == k;
                    assert(prev[j] == k);
                }
            }
        }
        i = i + 1;
    }
    proof {
        assert(ids.take(classes@.len() as int) =~= ids);
    }
    (map, reset)
}


/// The test that keeps the entries of one day.
pub open spec fn day_is(d: i32) -> spec_fn(DayView) -> bool {
    |l: DayView| l.day == d
}

/// The entries of `s` for day `d`, in order.
pub open spec fn on_day(s: Seq<DayView>, d: i32) -> Seq<DayView> {
    s.filter(day_is(d))
}

/// The days of `s` never go down.
pub open spec fn days_sorted(s: Seq<DayView>) -> bool {
    forall|i: int, j: int| 0 <= i <= j < s.len() ==> s[i].day <= s[j].day
}

/// `r` is `s` sorted by day, entries of the same day keeping their order.
pub open spec fn sorted_by_day_of(r: Seq<DayView>, s: Seq<DayView>) -> bool {
    &&& r.len() == s.len()
    &&& days_sorted(r)
    &&& forall|d: i32| #[trigger] on_day(r, d) == on_day(s, d)
}

proof fn lemma_filter_none(s: Seq<DayView>, p: spec_fn(DayView) -> bool)
    requires
        forall|k: int| 0 <= k < s.len() ==> !p(#[trigger] s[k]),
    ensures
        s.filter(p) == Seq::<DayView>::empty(),
    decreases s.len(),
{
    reveal(Seq::filter);
    if s.len() > 0 {
        assert forall|k: int| 0 <= k < s.drop_last().len() implies !p(#[trigger] s.drop_last()[k]) by {
            assert(s.drop_last()[k] == s[k]);
        }
        lemma_filter_none(s.drop_last(), p);
        assert(!p(s[s.len() - 1]));
    }
}

/// Inserting `x` after the entries of days up to its own and before those of
/// later days keeps `s` sorted and adds `x` at the end of its day.
proof fn lemma_insert_on_day(s: Seq<DayView>, p: int, x: DayView)
    requires
        days_sorted(s),
        0 <= p <= s.len(),
        forall|k: int| 0 <= k < p ==> (#[trigger] s[k]).day <= x.day,
        forall|k: int| p <= k < s.len() ==> (#[trigger] s[k]).day > x.day,
    ensures
        days_sorted(s.insert(p, x)),
        forall|d: i32|
            #[trigger] on_day(s.insert(p, x), d) == if x.day == d {
                on_day(s, d).push(x)
            } else {
                on_day(s, d)
            },
{
    let a = s.subrange(0, p);
    let b = s.subrange(p, s.len() as int);
    let t = s.insert(p, x);
    assert(t =~= a.push(x) + b);
    assert(s =~= a + b);
    assert forall|d: i32|
        #[trigger] on_day(t, d) == if x.day == d {
            on_day(s, d).push(x)
        } else {
            on_day(s, d)
        } by {
        Seq::filter_distributes_over_add(a.push(x), b, day_is(d));
        Seq::filter_distributes_over_add(a, b, day_is(d));
        a.lemma_filter_push(x, day_is(d));
        if x.day == d {
            assert forall|k: int| 0 <= k < b.len() implies !day_is(d)(#[trigger] b[k]) by {
                assert(b[k] == s[p + k]);
            }
            lemma_filter_none(b, day_is(d));
            assert(on_day(s, d) =~= a.filter(day_is(d)));
            assert(on_day(t, d) =~= a.filter(day_is(d)).push(x));
        }
    }
    assert forall|i: int, j: int| 0 <= i <= j < t.len() implies t[i].day <= t[j].day by {
        if j < p {
        } else if j == p {
            assert(t[j] == x);
            if i < p {
                assert(t[i] == s[i]);
            }
        } else {
            assert(t[j] == s[j - 1]);
            if i < p {
                assert(t[i] == s[i]);
            } else if i == p {
                assert(t[i] == x);
            } else {
                assert(t[i] == s[i - 1]);
            }
        }
    }
}

/// `v` sorted by day; entries of the same day keep their order.
pub fn sort_by_day<L: DaySlots>(v: &Vec<L>) -> (r: Vec<L>)
    ensures
        sorted_by_day_of(list_view(r@), list_view(v@)),
{
    let mut r: Vec<L> = Vec::new();
    let mut i: usize = 0;
    proof {
        assert(list_view(v@.take(0)) =~= Seq::<DayView>::empty());
        assert(list_view(r@) =~= Seq::<DayView>::empty());
        reveal(Seq::filter);
    }
    while i < v.len()
        invariant
            i <= v@.len(),
            sorted_by_day_of(list_view(r@), list_view(v@.take(i as int))),
        decreases v.len() - i,
    {
        let x = v[i].copy();
        let xd = x.day_of();
        let mut p: usize = 0;
        while p < r.len() && r[p].day_of() <= xd
            invariant
                p <= r@.len(),
                forall|k: int| 0 <= k < p ==> (#[trigger] r@[k]).slots().day <= xd,
            decreases r.len() - p,
        {
            p = p + 1;
        }
        let ghost s = list_view(r@);
        let ghost before = list_view(v@.take(i as int));
        proof {
            assert forall|k: int| p <= k < s.len() implies (#[trigger] s[k]).day > xd by {
                if p < r@.len() {
                    assert(s[p as int].day > xd);
                    assert(s[p as int].day <= s[k].day);
                }
            }
            lemma_insert_on_day(s, p as int, x.slots());
            assert(list_view(v@.take(i + 1)) =~= before.push(x.slots()));
            assert forall|d: i32| #[trigger] on_day(before.push(x.slots()), d) == if x.slots().day == d {
                on_day(before, d).push(x.slots())
            } else {
                on_day(before, d)
            } by {
                before.lemma_filter_push(x.slots(), day_is(d));
            }
        }
        r.insert(p, x);
        proof {
            assert(list_view(r@) =~= s.insert(p as int, x.slots()));
            assert forall|d: i32| #[trigger] on_day(list_view(r@), d) == on_day(list_view(v@.take(i + 1)), d) by {
                assert(on_day(s, d) == on_day(before, d));
            }
        }
        i = i + 1;
    }
    assert(v@.take(v@.len() as int) =~= v@);
    r
}

/// Sorts the limitations a teacher list receives into one week per teacher,
/// its days in order: each teacher keeps its own entries of `lims` when they
/// make a complete week of days with at least `t_len` hours, and gets a week
/// with every hour free for school `school_id` and timetable `group_id`
/// otherwise. Also gives the ids of the teachers that got a free week, whose
/// new limitations are to be stored.
pub fn create_teachers_limitations(
    lims: Vec<TeacherLimitation>,
    teachers: &Vec<Teacher>,
    t_len: usize,
    school_id: i32,
    group_id: i32,
) -> (r: (HashMap<i32, Vec<TeacherLimitation>>, Vec<i32>))
    ensures
        forall|k: i32| r.0@.contains_key(k) <==> teacher_ids(teachers@).contains(k),
        forall|i: int|
            0 <= i < teachers@.len() ==> sorted_by_day_of(
                list_view(r.0@[#[trigger] teachers@[i].id]@),
                settled_week(list_view(lims@), seq![teachers@[i].id, school_id, group_id], t_len as nat),
            ),
        r.1@ == reset_ids(teacher_ids(teachers@), list_view(lims@), t_len as nat),
{
    let ghost ls = list_view(lims@);
    let ghost ids = teacher_ids(teachers@);
    let mut map: HashMap<i32, Vec<TeacherLimitation>> = HashMap::new();
    let mut reset: Vec<i32> = Vec::new();
    let mut i: usize = 0;
    proof {
        assert(ids.take(0) =~= Seq::<i32>::empty());
    }
    while i < teachers.len()
        invariant
            i <= teachers@.len(),
            ls == list_view(lims@),
            ids == teacher_ids(teachers@),
            forall|k: i32| map@.contains_key(k) <==> ids.take(i as int).contains(k),
            forall|j: int|
                0 <= j < i ==> sorted_by_day_of(
                    list_view(map@[#[trigger] teachers@[j].id]@),
                    settled_week(ls, seq![teachers@[j].id, school_id, group_id], t_len as nat),
                ),
            reset@ == reset_ids(ids.take(i as int), ls, t_len as nat),
        decreases teachers.len() - i,
    {
        let id = teachers[i].id;
        let own = own_lims(&lims, id);
        let ok = complete(&own, t_len);
        let week = if ok {
            own
        } else {
            create_teacher_lim(id, school_id, group_id, t_len)
        };
        let entry = sort_by_day(&week);
        proof {
            assert(seq![id, school_id, group_id][0] == id);
            assert(list_view(week@) == settled_week(ls, seq![id, school_id, group_id], t_len as nat));
        }
        if !ok && !holds_id(&reset, id) {
            reset.push(id);
        }
        map.insert(id, entry);
        proof {
            assert(ids.take(i + 1).drop_last() =~= ids.take(i as int));
            assert(ids.take(i + 1).last() == id);
            let prev = ids.take(i as int);
            let next = ids.take(i + 1);
            assert forall|k: i32| map@.contains_key(k) <==> next.contains(k) by {
                if prev.contains(k) {
                    let j = choose|j: int| 0 <= j < prev.len() && #[trigger] prev[j] == k;
                    assert(next[j] == k);
                }
                if next.contains(k) && k != id {
                    let j = choose|j: int| 0 <= j < next.len() && #[trigger] next[j] == k;
                    assert(prev[j] == k);
                }
            }
        }
        i = i + 1;
    }
    proof {
        assert(ids.take(teachers@.len() as int) =~= ids);
    }
    (map, reset)
}


/// Day `d` has an entry in `form`.
pub open spec fn has_day(form: Seq<DayView>, d: i32) -> bool {
    exists|i: int| 0 <= i < form.len() && #[trigger] form[i].day == d
}

/// Each of the days 1 to 7 has an entry in `form`.
pub open spec fn covers_week(form: Seq<DayView>) -> bool {
    forall|d: i32| 1 <= d <= 7 ==> #[trigger] has_day(form, d)
}

/// A form of class limitations the server accepts for class `id`: seven
/// entries, all for `id`, one for each day of the week.
pub open spec fn valid_class_form(form: Seq<DayView>, id: i32) -> bool {
    &&& form.len() == 7
    &&& forall|i: int| 0 <= i < 7 ==> (#[trigger] form[i]).owner[0] == id
    &&& covers_week(form)
}

/// A form of teacher limitations the server accepts: seven entries, all for
/// the same teacher, one for each day of the week.
pub open spec fn valid_teacher_form(form: Seq<DayView>) -> bool {
    &&& form.len() == 7
    &&& forall|i: int| 0 <= i < 7 ==> (#[trigger] form[i]).owner[0] == form[0].owner[0]
    &&& covers_week(form)
}

/// `r` holds entries of `form` in the order of the week, the one for day
/// `k + 1` at `k`.
pub open spec fn week_order_of(r: Seq<DayView>, form: Seq<DayView>) -> bool {
    &&& r.len() == 7
    &&& forall|k: int| 0 <= k < 7 ==> (#[trigger] r[k]).day == k + 1 && form.contains(r[k])
}

/// The answer to a form of class limitations that is refused.
pub open spec fn is_class_form_error(m: DownMsg) -> bool {
    m matches DownMsg::Timetable(TimetableDownMsgs::Class(ClassDownMsgs::UpdateClassLimitationsError(e)))
        && e@ == "No valid form"@
}

/// The answer to a form of teacher limitations that is refused.
pub open spec fn is_teacher_form_error(m: DownMsg) -> bool {
    m matches DownMsg::Timetable(TimetableDownMsgs::Teacher(TeacherDownMsgs::UpdateLimitationsError(e)))
        && e@ == "No valid form"@
}

fn class_form_error() -> (m: DownMsg)
    ensures
        is_class_form_error(m),
{
    DownMsg::Timetable(
        TimetableDownMsgs::Class(ClassDownMsgs::UpdateClassLimitationsError(String::from_str("No valid form"))),
    )
}

fn teacher_form_error() -> (m: DownMsg)
    ensures
        is_teacher_form_error(m),
{
    DownMsg::Timetable(
        TimetableDownMsgs::Teacher(TeacherDownMsgs::UpdateLimitationsError(String::from_str("No valid form"))),
    )
}

/// The entries of `form` in the order of the week, when each of the days 1
/// to 7 has one.
fn week_in_order<L: DaySlots>(form: &Vec<L>) -> (r: Option<Vec<L>>)
    ensures
        match r {
            Some(v) => covers_week(list_view(form@)) && list_view(v@).len() == 7 && forall|k: int|
                0 <= k < 7 ==> (#[trigger] list_view(v@)[k]).day == k + 1 && list_view(form@).contains(
                    list_view(v@)[k],
                ),
            None => !covers_week(list_view(form@)),
        },
{
    let ghost s = list_view(form@);
    let mut v: Vec<L> = Vec::new();
    let mut d: i32 = 1;
    while d <= 7
        invariant
            1 <= d <= 8,
            s == list_view(form@),
            v@.len() == d - 1,
            forall|k: int|
                0 <= k < v@.len() ==> (#[trigger] v@[k]).slots().day == k + 1 && s.contains(v@[k].slots()),
            forall|e: i32| 1 <= e < d ==> #[trigger] has_day(s, e),
        decreases 8 - d,
    {
        match first_of_day(form, d) {
            Some(j) => {
                let x = form[j].copy();
                proof {
                    assert(s[j as int] == x.slots());
                    assert(has_day(s, d));
                }
                v.push(x);
            },
            None => {
                proof {
                    assert(!has_day(s, d)) by {
                        if has_day(s, d) {
                            let i = choose|i: int| 0 <= i < s.len() && #[trigger] s[i].day == d;
                            assert(form@[i].slots().day == d);
                        }
                    }
                }
                return None;
            },
        }
        d = d + 1;
    }
    Some(v)
}

/// Checks a form of limitations of class `class_id` before it is stored:
/// it is accepted when it has seven entries, all for `class_id`, one for each
/// day of the week, and then comes back in the order of the week.
pub fn update_class_limitations(class_id: i32, form: Vec<ClassLimitation>) -> (r: Result<
    Vec<ClassLimitation>,
    DownMsg,
>)
    ensures
        match r {
            Ok(v) => valid_class_form(list_view(form@), class_id) && week_order_of(
                list_view(v@),
                list_view(form@),
            ),
            Err(m) => !valid_class_form(list_view(form@), class_id) && is_class_form_error(m),
        },
{
    if form.len() != 7 {
        return Err(class_form_error());
    }
    let mut i: usize = 0;
    while i < 7
        invariant
            i <= 7,
            form@.len() == 7,
            forall|j: int| 0 <= j < i ==> (#[trigger] list_view(form@)[j]).owner[0] == class_id,
        decreases 7 - i,
    {
        if form[i].class_id != class_id {
            proof {
                assert(list_view(form@)[i as int].owner[0] != class_id);
            }
            return Err(class_form_error());
        }
        i = i + 1;
    }
    match week_in_order(&form) {
        Some(v) => Ok(v),
        None => Err(class_form_error()),
    }
}

/// Checks a form of limitations of a teacher before it is stored: it is
/// accepted when it has seven entries, all for the same teacher, one for each
/// day of the week, and then comes back in the order of the week.
pub fn update_teacher_limitations(form: Vec<TeacherLimitation>) -> (r: Result<Vec<TeacherLimitation>, DownMsg>)
    ensures
        match r {
            Ok(v) => valid_teacher_form(list_view(form@)) && week_order_of(list_view(v@), list_view(form@)),
            Err(m) => !valid_teacher_form(list_view(form@)) && is_teacher_form_error(m),
        },
{
    if form.len() != 7 {
        return Err(teacher_form_error());
    }
    let user_id = form[0].user_id;
    let mut i: usize = 0;
    while i < 7
        invariant
            i <= 7,
            form@.len() == 7,
            user_id == list_view(form@)[0].owner[0],
            forall|j: int| 0 <= j < i ==> (#[trigger] list_view(form@)[j]).owner[0] == user_id,
        decreases 7 - i,
    {
        if form[i].user_id != user_id {
            proof {
                assert(list_view(form@)[i as int].owner[0] != user_id);
            }
            return Err(teacher_form_error());
        }
        i = i + 1;
    }
    match week_in_order(&form) {
        Some(v) => Ok(v),
        None => Err(teacher_form_error()),
    }
}


/// Whether some hour of the row is taken.
fn any_taken(hours: &Vec<bool>) -> (r: bool)
    ensures
        r == exists|h: int| 0 <= h < hours@.len() && !#[trigger] hours@[h],
{
    let mut i: usize = 0;
    while i < hours.len()
        invariant
            i <= hours@.len(),
            forall|h: int| 0 <= h < i ==> #[trigger] hours@[h],
        decreases hours.len() - i,
    {
        if !hours[i] {
            return true;
        }
        i = i + 1;
    }
    false
}

/// A row of `n` hours, all set to `v`.
fn row_of(n: usize, v: bool) -> (r: Vec<bool>)
    ensures
        r@ == Seq::new(n as nat, |h: int| v),
{
    let mut r: Vec<bool> = Vec::new();
    let mut i: usize = 0;
    while i < n
        invariant
            i <= n,
            r@ == Seq::new(i as nat, |h: int| v),
        decreases n - i,
    {
        r.push(v);
        i = i + 1;
        proof {
            assert(r@ =~= Seq::new(i as nat, |h: int| v));
        }
    }
    r
}

/// Turns hour `hour` of day `day_index` (counted from 1) of the week of class
/// `class_id` over; the entry keeps its position and becomes the class's
/// entry for that day.
pub fn change_lim(lims: &mut Vec<ClassLimitation>, class_id: i32, day_index: i32, hour: usize)
    requires
        1 <= day_index <= old(lims)@.len(),
        hour < old(lims)@[day_index - 1].hours@.len(),
    ensures
        final(lims)@.len() == old(lims)@.len(),
        forall|k: int|
            0 <= k < old(lims)@.len() && k != day_index - 1 ==> (#[trigger] final(lims)@[k]).slots()
                == old(lims)@[k].slots(),
        final(lims)@[day_index - 1].slots() == (DayView {
            owner: seq![class_id],
            day: day_index,
            hours: old(lims)@[day_index - 1].hours@.update(hour as int, !old(lims)@[day_index - 1].hours@[hour as int]),
        }),
{
    let k = (day_index - 1) as usize;
    let mut hours = copy_hours(&lims[k].hours);
    let b = hours[hour];
    hours.set(hour, !b);
    let l = ClassLimitation { class_id, day: day_index, hours };
    proof {
        assert(l.slots().owner =~= seq![class_id]);
    }
    lims.set(k, l);
}

/// Frees every hour of day `day_index` (counted from 1) of the week of class
/// `class_id` when one of them is taken, and takes them all otherwise; the
/// entry keeps its position and becomes the class's entry for that day.
pub fn change_day_lim(lims: &mut Vec<ClassLimitation>, class_id: i32, day_index: usize)
    requires
        1 <= day_index <= old(lims)@.len(),
    ensures
        final(lims)@.len() == old(lims)@.len(),
        forall|k: int|
            0 <= k < old(lims)@.len() && k != day_index - 1 ==> (#[trigger] final(lims)@[k]).slots()
                == old(lims)@[k].slots(),
        ({
            let old_hours = old(lims)@[day_index - 1].hours@;
            let v = exists|h: int| 0 <= h < old_hours.len() && !#[trigger] old_hours[h];
            final(lims)@[day_index - 1].slots() == DayView {
                owner: seq![class_id],
                day: day_index as i32,
                hours: Seq::new(old_hours.len(), |h: int| v),
            }
        }),
{
    let k = day_index - 1;
    let n = lims[k].hours.len();
    let v = any_taken(&lims[k].hours);
    let l = ClassLimitation { class_id, day: day_index as i32, hours: row_of(n, v) };
    proof {
        assert(l.slots().owner =~= seq![class_id]);
    }
    lims.set(k, l);
}

/// Frees hour `hour` on every day of the week when it is taken on one of
/// them, and takes it on every day otherwise.
pub fn all_hours<L: DaySlots>(lims: &mut Vec<L>, hour: usize)
    requires
        forall|k: int| 0 <= k < old(lims)@.len() ==> hour < (#[trigger] old(lims)@[k]).slots().hours.len(),
    ensures
        final(lims)@.len() == old(lims)@.len(),
        ({
            let v = exists|k: int| 0 <= k < old(lims)@.len() && !(#[trigger] old(lims)@[k]).slots().hours[hour as int];
            forall|k: int|
                0 <= k < old(lims)@.len() ==> (#[trigger] final(lims)@[k]).slots() == old(lims)@[k].slots().with_hour(
                    hour as int,
                    v,
                )
        }),
{
    let ghost v0 = lims@;
    let mut taken = false;
    let mut i: usize = 0;
    while i < lims.len()
        invariant
            i <= lims@.len(),
            lims@ == v0,
            forall|k: int| 0 <= k < v0.len() ==> hour < (#[trigger] v0[k]).slots().hours.len(),
            taken == exists|k: int| 0 <= k < i && !(#[trigger] v0[k]).slots().hours[hour as int],
        decreases lims.len() - i,
    {
        if !lims[i].hour_at(hour) {
            taken = true;
        }
        i = i + 1;
    }
    let mut j: usize = 0;
    while j < lims.len()
        invariant
            j <= lims@.len(),
            lims@.len() == v0.len(),
            forall|k: int| 0 <= k < v0.len() ==> hour < (#[trigger] v0[k]).slots().hours.len(),
            forall|k: int| 0 <= k < j ==> (#[trigger] lims@[k]).slots() == v0[k].slots().with_hour(hour as int, taken),
            forall|k: int| j <= k < v0.len() ==> (#[trigger] lims@[k]).slots() == v0[k].slots(),
        decreases lims.len() - j,
    {
        let mut x = lims[j].copy();
        x.set_hour(hour, taken);
        lims.set(j, x);
        j = j + 1;
    }
}

/// Turns hour `hour` of entry `day_id` over.
pub fn day_hour<L: DaySlots>(lims: &mut Vec<L>, day_id: usize, hour: usize)
    requires
        day_id < old(lims)@.len(),
        hour < old(lims)@[day_id as int].slots().hours.len(),
    ensures
        final(lims)@.len() == old(lims)@.len(),
        forall|k: int|
            0 <= k < old(lims)@.len() && k != day_id ==> (#[trigger] final(lims)@[k]).slots() == old(lims)@[k].slots(),
        final(lims)@[day_id as int].slots() == old(lims)@[day_id as int].slots().with_hour(
            hour as int,
            !old(lims)@[day_id as int].slots().hours[hour as int],
        ),
{
    let mut x = lims[day_id].copy();
    let b = x.hour_at(hour);
    x.set_hour(hour, !b);
    lims.set(day_id, x);
}

/// Replaces the hours of entry `day_id`, when there is one, by `t_len` free
/// hours when one of its hours is taken, and by `t_len` taken hours otherwise.
pub fn all_days(lims: &mut Vec<TeacherLimitation>, day_id: usize, t_len: usize)
    ensures
        final(lims)@.len() == old(lims)@.len(),
        forall|k: int|
            0 <= k < old(lims)@.len() && k != day_id ==> (#[trigger] final(lims)@[k]).slots() == old(lims)@[k].slots(),
        day_id < old(lims)@.len() ==> ({
            let old_hours = old(lims)@[day_id as int].hours@;
            let v = exists|h: int| 0 <= h < old_hours.len() && !#[trigger] old_hours[h];
            final(lims)@[day_id as int].slots() == DayView {
                hours: Seq::new(t_len as nat, |h: int| v),
                ..old(lims)@[day_id as int].slots()
            }
        }),
{
    if day_id < lims.len() {
        let v = any_taken(&lims[day_id].hours);
        let l = TeacherLimitation {
            user_id: lims[day_id].user_id,
            school_id: lims[day_id].school_id,
            group_id: lims[day_id].group_id,
            day: lims[day_id].day,
            hours: row_of(t_len, v),
        };
        lims.set(day_id, l);
    }
}

/// `form` with every entry given to class `id`.
pub open spec fn for_class(form: Seq<DayView>, id: i32) -> Seq<DayView> {
    form.map_values(|l: DayView| DayView { owner: seq![id], ..l })
}

/// The forms that give the week `form` to each class of `classes`, in order:
/// the class's id and `form` with every entry given to that class.
pub fn add_lim_classes(form: &Vec<ClassLimitation>, classes: &Vec<Class>) -> (r: Vec<(i32, Vec<ClassLimitation>)>)
    ensures
        r@.len() == classes@.len(),
        forall|i: int|
            0 <= i < classes@.len() ==> (#[trigger] r@[i]).0 == classes@[i].id && list_view(r@[i].1@) == for_class(
                list_view(form@),
                classes@[i].id,
            ),
{
    let mut r: Vec<(i32, Vec<ClassLimitation>)> = Vec::new();
    let mut i: usize = 0;
    while i < classes.len()
        invariant
            i <= classes@.len(),
            r@.len() == i,
            forall|j: int|
                0 <= j < i ==> (#[trigger] r@[j]).0 == classes@[j].id && list_view(r@[j].1@) == for_class(
                    list_view(form@),
                    classes@[j].id,
                ),
        decreases classes.len() - i,
    {
        let id = classes[i].id;
        let mut week: Vec<ClassLimitation> = Vec::new();
        let mut k: usize = 0;
        while k < form.len()
            invariant
                k <= form@.len(),
                week@.len() == k,
                forall|j: int|
                    0 <= j < k ==> (#[trigger] week@[j]).slots() == for_class(list_view(form@), id)[j],
            decreases form.len() - k,
        {
            let l = ClassLimitation { class_id: id, day: form[k].day, hours: copy_hours(&form[k].hours) };
            proof {
                assert(l.slots().owner =~= seq![id]);
            }
            week.push(l);
            k = k + 1;
        }
        proof {
            assert(list_view(week@) =~= for_class(list_view(form@), id));
        }
        r.push((id, week));
        i = i + 1;
    }
    r
}


/// Turning an hour over twice gives the day back as it was.
pub proof fn lemma_day_hour_twice(x: DayView, h: int)
    requires
        0 <= h < x.hours.len(),
    ensures
        ({
            let y = x.with_hour(h, !x.hours[h]);
            y.with_hour(h, !y.hours[h]) == x
        }),
{
    let y = x.with_hour(h, !x.hours[h]);
    assert(y.with_hour(h, !y.hours[h]).hours =~= x.hours);
}

proof fn lemma_open_week_first(owner: Seq<i32>, t_len: nat, d: i32)
    requires
        1 <= d <= 7,
    ensures
        is_first_of_day(open_week(owner, t_len), d, d - 1),
        open_week(owner, t_len)[d - 1].hours.len() == t_len,
{
    let w = open_week(owner, t_len);
    assert forall|j: int| 0 <= j < d - 1 implies w[j].day != d by {
        assert(w[j].day == j + 1);
    }
}

/// A week with every hour free is complete.
pub proof fn lemma_open_week_complete(owner: Seq<i32>, t_len: nat)
    ensures
        week_complete(open_week(owner, t_len), t_len),
{
    assert forall|d: i32| 1 <= d <= 7 implies #[trigger] day_complete(open_week(owner, t_len), d, t_len) by {
        lemma_open_week_first(owner, t_len, d);
    }
}

/// Every teacher and class ends up with a complete week of days of at least
/// `t_len` hours.
pub proof fn lemma_settled_week_complete(lims: Seq<DayView>, owner: Seq<i32>, t_len: nat)
    ensures
        week_complete(settled_week(lims, owner, t_len), t_len),
{
    if !week_complete(lims_of(lims, owner[0]), t_len) {
        lemma_open_week_complete(owner, t_len);
    }
}

proof fn lemma_filter_all<A>(s: Seq<A>, p: spec_fn(A) -> bool)
    requires
        forall|k: int| 0 <= k < s.len() ==> p(#[trigger] s[k]),
    ensures
        s.filter(p) == s,
    decreases s.len(),
{
    reveal(Seq::filter);
    if s.len() > 0 {
        assert forall|k: int| 0 <= k < s.drop_last().len() implies p(#[trigger] s.drop_last()[k]) by {
            assert(s.drop_last()[k] == s[k]);
        }
        lemma_filter_all(s.drop_last(), p);
        assert(p(s[s.len() - 1]));
        assert(s.drop_last().push(s.last()) =~= s);
    } else {
        assert(s =~= Seq::<A>::empty());
    }
}

/// Sorting limitations into weeks a second time changes nothing: a week that
/// was settled for `owner` is settled as it is.
pub proof fn lemma_settled_week_idempotent(lims: Seq<DayView>, owner: Seq<i32>, t_len: nat)
    requires
        owner.len() > 0,
    ensures
        settled_week(settled_week(lims, owner, t_len), owner, t_len) == settled_week(lims, owner, t_len),
{
    broadcast use vstd::seq_lib::group_filter_ensures;
    let w = settled_week(lims, owner, t_len);
    lemma_settled_week_complete(lims, owner, t_len);
    assert forall|k: int| 0 <= k < w.len() implies owned(owner[0])(#[trigger] w[k]) by {
        if week_complete(lims_of(lims, owner[0]), t_len) {
            assert(lims_of(lims, owner[0]).filter(owned(owner[0])).len() >= 0);
            lims.lemma_filter_pred(owned(owner[0]), k);
        }
    }
    lemma_filter_all(w, owned(owner[0]));
}

/// The week with every hour free that the client stores for a class is a
/// form the server accepts for that class.
pub proof fn lemma_open_week_valid_class(id: i32, t_len: nat)
    ensures
        valid_class_form(open_week(seq![id], t_len), id),
{
    let w = open_week(seq![id], t_len);
    assert forall|d: i32| 1 <= d <= 7 implies #[trigger] has_day(w, d) by {
        assert(w[d - 1].day == d);
    }
}

/// The week with every hour free that the client stores for a teacher is a
/// form the server accepts.
pub proof fn lemma_open_week_valid_teacher(user_id: i32, school_id: i32, group_id: i32, t_len: nat)
    ensures
        valid_teacher_form(open_week(seq![user_id, school_id, group_id], t_len)),
{
    let w = open_week(seq![user_id, school_id, group_id], t_len);
    assert forall|d: i32| 1 <= d <= 7 implies #[trigger] has_day(w, d) by {
        assert(w[d - 1].day == d);
    }
}

} // verus!
