use vstd::prelude::*;
use std::collections::HashMap;
use crate::msgs::activities::{Activity, ActivityView};
use crate::msgs::timetables::Schedule;
use crate::slots::{
    DayView, table_view, uniform, is_first_of_day, mark_list, mark_table, free_list, free_table, occupies, free_for,
    same_shape, lemma_mark_list_shape, lemma_free_list_shape, lemma_same_shape_trans, lemma_free_table_shape,
};
use crate::generator::{placement, without_act, delete_all, TimetableData};

verus! {

/// The teachers of an activity.
pub open spec fn teachers_of() -> spec_fn(ActivityView) -> Seq<i32> {
    |a: ActivityView| a.teachers
}

/// The classes of an activity.
pub open spec fn classes_of() -> spec_fn(ActivityView) -> Seq<i32> {
    |a: ActivityView| a.classes
}

/// Position `j` of `s` is an hour at hour `h` of day `d`.
pub open spec fn at_slot(s: Seq<Schedule>, j: int, d: i32, h: int) -> bool {
    0 <= j < s.len() && s[j].day_id == d && s[j].hour == h
}

/// Some hour of `s` at hour `h` of day `d` belongs to an activity known to
/// `reg` of which `k` is a member (a teacher or a class, as `mem` says).
pub open spec fn busy(
    s: Seq<Schedule>,
    reg: Map<i32, ActivityView>,
    mem: spec_fn(ActivityView) -> Seq<i32>,
    k: i32,
    d: i32,
    h: int,
) -> bool {
    exists|j: int|
        #[trigger] at_slot(s, j, d, h) && reg.contains_key(s[j].activity) && mem(reg[s[j].activity]).contains(k)
}

/// `k` has an entry for day `d` in `t`.
pub open spec fn has_entry(t: Map<i32, Seq<DayView>>, k: i32, d: i32) -> bool {
    t.dom().contains(k) && exists|i: int| 0 <= i < t[k].len() && #[trigger] t[k][i].day == d
}

/// The hours at positions `j1` and `j2` of `s` are at the same time, belong
/// to two different known activities, and share member `k`, who has an
/// entry for that day in `t`.
pub open spec fn clash(
    t: Map<i32, Seq<DayView>>,
    s: Seq<Schedule>,
    reg: Map<i32, ActivityView>,
    mem: spec_fn(ActivityView) -> Seq<i32>,
    j1: int,
    j2: int,
    k: i32,
) -> bool {
    &&& 0 <= j1 < s.len()
    &&& 0 <= j2 < s.len()
    &&& s[j1].day_id == s[j2].day_id
    &&& s[j1].hour == s[j2].hour
    &&& s[j1].activity != s[j2].activity
    &&& reg.contains_key(s[j1].activity)
    &&& reg.contains_key(s[j2].activity)
    &&& mem(reg[s[j1].activity]).contains(k)
    &&& mem(reg[s[j2].activity]).contains(k)
    &&& has_entry(t, k, s[j1].day_id)
}

/// The free hours `t` of teachers or classes agree with what was free at the
/// start (`c`) and with the hours placed in `s`: the first entry of each day
/// is free exactly where it was free at the start and no placed hour of one
/// of the member's activities sits; placed hours sit only at hours that were
/// free at the start; the other entries are as they were; and no member
/// with an entry for a day has two activities at the same hour.
pub open spec fn table_booked(
    t: Map<i32, Seq<DayView>>,
    c: Map<i32, Seq<DayView>>,
    s: Seq<Schedule>,
    reg: Map<i32, ActivityView>,
    mem: spec_fn(ActivityView) -> Seq<i32>,
) -> bool {
    &&& same_shape(t, c)
    &&& forall|k: i32, i: int, h: int|
        t.dom().contains(k) && 0 <= i < t[k].len() && is_first_of_day(t[k], t[k][i].day, i) && 0 <= h
            < t[k][i].hours.len() ==> (#[trigger] t[k][i].hours[h]) == (c[k][i].hours[h] && !busy(
            s,
            reg,
            mem,
            k,
            t[k][i].day,
            h,
        ))
    &&& forall|k: i32, i: int|
        t.dom().contains(k) && 0 <= i < t[k].len() && !is_first_of_day(t[k], t[k][i].day, i) ==> (#[trigger] t[k][i]).hours
            == c[k][i].hours
    &&& forall|k: i32, i: int, h: int|
        t.dom().contains(k) && 0 <= i < t[k].len() && is_first_of_day(t[k], t[k][i].day, i) && 0 <= h
            < t[k][i].hours.len() && busy(s, reg, mem, k, t[k][i].day, h) ==> #[trigger] c[k][i].hours[h]
    &&& forall|j1: int, j2: int, k: i32| !#[trigger] clash(t, s, reg, mem, j1, j2, k)
}

/// The free hours `t` of teachers or classes are taken wherever a placed
/// hour of one of the member's activities sits (in the first entry of that
/// day), and no member with an entry for a day has two activities at the same
/// hour.
pub open spec fn table_marked(
    t: Map<i32, Seq<DayView>>,
    s: Seq<Schedule>,
    reg: Map<i32, ActivityView>,
    mem: spec_fn(ActivityView) -> Seq<i32>,
) -> bool {
    &&& forall|k: i32, i: int, h: int|
        t.dom().contains(k) && 0 <= i < t[k].len() && is_first_of_day(t[k], t[k][i].day, i) && 0 <= h
            < t[k][i].hours.len() && busy(s, reg, mem, k, t[k][i].day, h) ==> !#[trigger] t[k][i].hours[h]
    &&& forall|j1: int, j2: int, k: i32| !#[trigger] clash(t, s, reg, mem, j1, j2, k)
}

/// Free hours that agree exactly with the placed ones are taken where those
/// sit.
pub proof fn lemma_booked_marked(
    t: Map<i32, Seq<DayView>>,
    c: Map<i32, Seq<DayView>>,
    s: Seq<Schedule>,
    reg: Map<i32, ActivityView>,
    mem: spec_fn(ActivityView) -> Seq<i32>,
)
    requires
        table_booked(t, c, s, reg, mem),
    ensures
        table_marked(t, s, reg, mem),
{
}

/// Placing `a` adds exactly its hours to what its members are busy with.
proof fn lemma_busy_after_put(
    s: Seq<Schedule>,
    reg: Map<i32, ActivityView>,
    mem: spec_fn(ActivityView) -> Seq<i32>,
    d: i32,
    lo: int,
    a: ActivityView,
    k: i32,
    dd: i32,
    hh: int,
)
    requires
        reg.contains_key(a.id),
        reg[a.id] == a,
        0 <= lo,
        0 <= a.hour,
        lo + a.hour <= 32767,
    ensures
        busy(s + placement(d, lo, a), reg, mem, k, dd, hh) == (busy(s, reg, mem, k, dd, hh) || (mem(a).contains(k)
            && dd == d && lo <= hh < lo + a.hour)),
{
    let p = placement(d, lo, a);
    let t = s + p;
    if busy(t, reg, mem, k, dd, hh) {
        let j = choose|j: int|
            #[trigger] at_slot(t, j, dd, hh) && reg.contains_key(t[j].activity) && mem(reg[t[j].activity]).contains(k);
        if j < s.len() {
            assert(at_slot(s, j, dd, hh));
        } else {
            let m = j - s.len();
            assert(t[j] == p[m]);
            assert(p[m].hour == lo + m);
        }
    }
    if busy(s, reg, mem, k, dd, hh) {
        let j = choose|j: int|
            #[trigger] at_slot(s, j, dd, hh) && reg.contains_key(s[j].activity) && mem(reg[s[j].activity]).contains(k);
        assert(t[j] == s[j]);
        assert(at_slot(t, j, dd, hh));
    }
    if mem(a).contains(k) && dd == d && lo <= hh < lo + a.hour {
        let m = hh - lo;
        let j = s.len() + m;
        assert(t[j] == p[m]);
        assert(p[m].hour == hh);
        assert(at_slot(t, j, dd, hh));
    }
}

/// A list with an entry for day `d` has a first entry for it.
proof fn lemma_first_exists(s: Seq<DayView>, d: i32, i: int)
    requires
        0 <= i < s.len(),
        s[i].day == d,
    ensures
        exists|f: int| is_first_of_day(s, d, f),
    decreases i,
{
    if exists|j: int| 0 <= j < i && #[trigger] s[j].day == d {
        let j = choose|j: int| 0 <= j < i && #[trigger] s[j].day == d;
        lemma_first_exists(s, d, j);
    } else {
        assert(is_first_of_day(s, d, i));
    }
}

/// What placing `a` at hours `lo ..` of day `d` needs: `a` is known, the
/// hours lie inside the day, and all of its members (as `mem` says) are free
/// there.
pub open spec fn can_put(
    t: Map<i32, Seq<DayView>>,
    s: Seq<Schedule>,
    reg: Map<i32, ActivityView>,
    mem: spec_fn(ActivityView) -> Seq<i32>,
    d: i32,
    lo: int,
    a: ActivityView,
) -> bool {
    &&& reg.contains_key(a.id)
    &&& reg[a.id] == a
    &&& 0 <= lo
    &&& 0 <= a.hour
    &&& lo + a.hour <= 32767
    &&& free_for(t, mem(a), d, lo, a.hour as int)
    &&& forall|k: i32, i: int|
        t.dom().contains(k) && 0 <= i < t[k].len() && #[trigger] t[k][i].day == d ==> lo + a.hour
            <= t[k][i].hours.len()
}

/// Marking keeps the shape of the table and which entries come first.
proof fn lemma_put_shape(t: Map<i32, Seq<DayView>>, ids: Seq<i32>, d: i32, lo: int, n: int)
    ensures
        same_shape(mark_table(t, ids, d, lo, n, false), t),
        forall|k: i32, dd: i32, i: int|
            t.dom().contains(k) ==> (#[trigger] is_first_of_day(mark_table(t, ids, d, lo, n, false)[k], dd, i)
                <==> is_first_of_day(t[k], dd, i)),
{
    let t2 = mark_table(t, ids, d, lo, n, false);
    assert forall|k: i32| t.dom().contains(k) implies {
        &&& (#[trigger] t2[k]).len() == t[k].len()
        &&& forall|i: int|
            0 <= i < t[k].len() ==> {
                &&& (#[trigger] t2[k][i]).day == t[k][i].day
                &&& t2[k][i].owner == t[k][i].owner
                &&& t2[k][i].hours.len() == t[k][i].hours.len()
            }
        &&& forall|dd: i32, i: int| is_first_of_day(t2[k], dd, i) <==> is_first_of_day(t[k], dd, i)
    } by {
        lemma_mark_list_shape(t[k], d, lo, n, false);
    }
    assert(t2.dom() =~= t.dom());
}

/// After placing, the first entries of each day are free exactly where they
/// were free at the start and nothing placed sits.
proof fn lemma_put_first_hours(
    t: Map<i32, Seq<DayView>>,
    c: Map<i32, Seq<DayView>>,
    s: Seq<Schedule>,
    reg: Map<i32, ActivityView>,
    mem: spec_fn(ActivityView) -> Seq<i32>,
    d: i32,
    lo: int,
    a: ActivityView,
    k: i32,
    i: int,
    h: int,
)
    requires
        table_booked(t, c, s, reg, mem),
        can_put(t, s, reg, mem, d, lo, a),
        t.dom().contains(k),
        is_first_of_day(t[k], t[k][i].day, i),
        0 <= h < t[k][i].hours.len(),
    ensures
        mark_table(t, mem(a), d, lo, a.hour as int, false)[k][i].hours[h] == (c[k][i].hours[h] && !busy(
            s + placement(d, lo, a),
            reg,
            mem,
            k,
            t[k][i].day,
            h,
        )),
        busy(s + placement(d, lo, a), reg, mem, k, t[k][i].day, h) ==> c[k][i].hours[h],
{
    let n = a.hour as int;
    let t2 = mark_table(t, mem(a), d, lo, n, false);
    let dd = t[k][i].day;
    lemma_busy_after_put(s, reg, mem, d, lo, a, k, dd, h);
    lemma_mark_list_shape(t[k], d, lo, n, false);
    assert(t[k][i].hours[h] == (c[k][i].hours[h] && !busy(s, reg, mem, k, dd, h)));
    if mem(a).contains(k) {
        assert(t2[k] == mark_list(t[k], d, lo, n, false));
        if dd == d {
            assert(t2[k][i] == t[k][i].with_range(lo, n, false));
            if lo <= h < lo + n {
                let x = choose|x: int| 0 <= x < mem(a).len() && #[trigger] mem(a)[x] == k;
                assert(t[mem(a)[x]][i].day == d);
                assert(t[k][i].free_range(lo, n));
                assert(t[k][i].hours[h]);
            }
        } else {
            assert(t2[k][i] == t[k][i]);
        }
    } else {
        assert(t2[k] == t[k]);
    }
}

/// After placing, no member with an entry for a day has two activities at
/// the same hour of that day.
proof fn lemma_put_no_clash(
    t: Map<i32, Seq<DayView>>,
    s: Seq<Schedule>,
    reg: Map<i32, ActivityView>,
    mem: spec_fn(ActivityView) -> Seq<i32>,
    d: i32,
    lo: int,
    a: ActivityView,
    j1: int,
    j2: int,
    k: i32,
)
    requires
        table_marked(t, s, reg, mem),
        can_put(t, s, reg, mem, d, lo, a),
    ensures
        !clash(mark_table(t, mem(a), d, lo, a.hour as int, false), s + placement(d, lo, a), reg, mem, j1, j2, k),
{
    let n = a.hour as int;
    let t2 = mark_table(t, mem(a), d, lo, n, false);
    let s2 = s + placement(d, lo, a);
    let p = placement(d, lo, a);
    lemma_put_shape(t, mem(a), d, lo, n);
    if clash(t2, s2, reg, mem, j1, j2, k) {
        let dd = s2[j1].day_id;
        let i0 = choose|i: int| 0 <= i < t2[k].len() && #[trigger] t2[k][i].day == dd;
        assert(t[k][i0].day == dd);
        assert(has_entry(t, k, dd));
        if j1 < s.len() && j2 < s.len() {
            assert(s2[j1] == s[j1] && s2[j2] == s[j2]);
            assert(clash(t, s, reg, mem, j1, j2, k));
        } else if j1 >= s.len() && j2 >= s.len() {
            assert(s2[j1] == p[j1 - s.len()]);
            assert(s2[j2] == p[j2 - s.len()]);
        } else {
            let (jo, jn) = if j1 < s.len() {
                (j1, j2)
            } else {
                (j2, j1)
            };
            let m = jn - s.len();
            assert(s2[jn] == p[m]);
            assert(p[m].hour == lo + m);
            assert(s2[jo] == s[jo]);
            let hh = s[jo].hour as int;
            assert(dd == d && hh == lo + m);
            assert(at_slot(s, jo, dd, hh));
            assert(busy(s, reg, mem, k, dd, hh));
            lemma_first_exists(t[k], dd, i0);
            let f = choose|f: int| is_first_of_day(t[k], dd, f);
            let x = choose|x: int| 0 <= x < mem(a).len() && #[trigger] mem(a)[x] == k;
            assert(t[mem(a)[x]][f].day == d);
            assert(t[k][f].free_range(lo, n));
            assert(t[k][f].hours[hh]);
            assert(!t[k][f].hours[hh]);
        }
    }
}

/// Placing activity `a`, known to `reg`, at hours where all of its members
/// are free keeps the free hours in agreement with the placed ones, and so
/// keeps every member from having two activities at the same hour.
pub proof fn lemma_put_keeps_booking(
    t: Map<i32, Seq<DayView>>,
    c: Map<i32, Seq<DayView>>,
    s: Seq<Schedule>,
    reg: Map<i32, ActivityView>,
    mem: spec_fn(ActivityView) -> Seq<i32>,
    d: i32,
    lo: int,
    a: ActivityView,
)
    requires
        table_booked(t, c, s, reg, mem),
        can_put(t, s, reg, mem, d, lo, a),
    ensures
        table_booked(mark_table(t, mem(a), d, lo, a.hour as int, false), c, s + placement(d, lo, a), reg, mem),
{
    let n = a.hour as int;
    let t2 = mark_table(t, mem(a), d, lo, n, false);
    let s2 = s + placement(d, lo, a);
    lemma_put_shape(t, mem(a), d, lo, n);
    lemma_same_shape_trans(t2, t, c);
    assert forall|k: i32, i: int, h: int|
        t2.dom().contains(k) && 0 <= i < t2[k].len() && is_first_of_day(t2[k], t2[k][i].day, i) && 0 <= h
            < t2[k][i].hours.len() implies (#[trigger] t2[k][i].hours[h]) == (c[k][i].hours[h] && !busy(
        s2,
        reg,
        mem,
        k,
        t2[k][i].day,
        h,
    )) by {
        lemma_put_first_hours(t, c, s, reg, mem, d, lo, a, k, i, h);
    }
    assert forall|k: i32, i: int|
        t2.dom().contains(k) && 0 <= i < t2[k].len() && !is_first_of_day(t2[k], t2[k][i].day, i) implies (
        #[trigger] t2[k][i]).hours == c[k][i].hours by {
        assert(!is_first_of_day(t[k], t[k][i].day, i));
        lemma_mark_list_shape(t[k], d, lo, n, false);
        if mem(a).contains(k) {
            assert(t2[k] == mark_list(t[k], d, lo, n, false));
            if is_first_of_day(t[k], d, i) {
                assert(t[k][i].day == d);
            }
            assert(t2[k][i] == t[k][i]);
        }
    }
    assert forall|k: i32, i: int, h: int|
        t2.dom().contains(k) && 0 <= i < t2[k].len() && is_first_of_day(t2[k], t2[k][i].day, i) && 0 <= h
            < t2[k][i].hours.len() && busy(s2, reg, mem, k, t2[k][i].day, h) implies #[trigger] c[k][i].hours[h] by {
        lemma_put_first_hours(t, c, s, reg, mem, d, lo, a, k, i, h);
    }
    assert forall|j1: int, j2: int, k: i32| !#[trigger] clash(t2, s2, reg, mem, j1, j2, k) by {
        lemma_booked_marked(t, c, s, reg, mem);
        lemma_put_no_clash(t, s, reg, mem, d, lo, a, j1, j2, k);
    }
}

/// The shape relation is symmetric.
proof fn lemma_same_shape_sym(a: Map<i32, Seq<DayView>>, b: Map<i32, Seq<DayView>>)
    requires
        same_shape(a, b),
    ensures
        same_shape(b, a),
{
    assert forall|k: i32, i: int| b.dom().contains(k) && 0 <= i < b[k].len() implies {
        &&& (#[trigger] b[k][i]).day == a[k][i].day
        &&& b[k][i].owner == a[k][i].owner
        &&& b[k][i].hours.len() == a[k][i].hours.len()
    } by {
        assert(a[k][i].day == b[k][i].day);
    }
}

/// What remains of `sched` after taking out activity `id` is what it held of
/// the other activities.
proof fn lemma_without_contains(sched: Seq<Schedule>, id: i32, x: Schedule)
    ensures
        without_act(sched, id).contains(x) <==> (sched.contains(x) && x.activity != id),
    decreases sched.len(),
{
    if sched.len() > 0 {
        let init = sched.drop_last();
        let last = sched.last();
        lemma_without_contains(init, id, x);
        let rest = without_act(init, id);
        let w = without_act(sched, id);
        assert(w == (if last.activity == id { rest } else { rest.push(last) }));
        if w.contains(x) {
            if last.activity == id {
                assert(rest.contains(x));
            } else {
                let j = choose|j: int| 0 <= j < w.len() && w[j] == x;
                if j < rest.len() {
                    assert(rest[j] == x);
                    assert(rest.contains(x));
                } else {
                    assert(x == last);
                    assert(sched[sched.len() - 1] == x);
                }
            }
            if init.contains(x) {
                let j = choose|j: int| 0 <= j < init.len() && init[j] == x;
                assert(sched[j] == x);
            }
            assert(sched.contains(x) && x.activity != id);
        }
        if sched.contains(x) && x.activity != id {
            let j = choose|j: int| 0 <= j < sched.len() && sched[j] == x;
            if j < init.len() {
                assert(init[j] == x);
                assert(init.contains(x));
                assert(rest.contains(x));
                let r = choose|r: int| 0 <= r < rest.len() && rest[r] == x;
                if last.activity != id {
                    assert(rest.push(last)[r] == x);
                }
                assert(w.contains(x));
            } else {
                assert(last == x);
                assert(rest.push(last)[rest.len() as int] == x);
                assert(w.contains(x));
            }
        }
    }
}

/// Some hour of `s` at hour `h` of day `d` belongs to a known activity other
/// than `id` of which `k` is a member.
pub open spec fn busy_other(
    s: Seq<Schedule>,
    reg: Map<i32, ActivityView>,
    mem: spec_fn(ActivityView) -> Seq<i32>,
    k: i32,
    d: i32,
    h: int,
    id: i32,
) -> bool {
    exists|j: int|
        #[trigger] at_slot(s, j, d, h) && s[j].activity != id && reg.contains_key(s[j].activity) && mem(
            reg[s[j].activity],
        ).contains(k)
}

/// Taking out activity `id` leaves what the other activities are busy with.
proof fn lemma_busy_without(
    s: Seq<Schedule>,
    reg: Map<i32, ActivityView>,
    mem: spec_fn(ActivityView) -> Seq<i32>,
    k: i32,
    d: i32,
    h: int,
    id: i32,
)
    ensures
        busy(without_act(s, id), reg, mem, k, d, h) == busy_other(s, reg, mem, k, d, h, id),
{
    let w = without_act(s, id);
    if busy(w, reg, mem, k, d, h) {
        let j = choose|j: int|
            #[trigger] at_slot(w, j, d, h) && reg.contains_key(w[j].activity) && mem(reg[w[j].activity]).contains(k);
        assert(w.contains(w[j]));
        lemma_without_contains(s, id, w[j]);
        let j2 = choose|j2: int| 0 <= j2 < s.len() && s[j2] == w[j];
        assert(at_slot(s, j2, d, h));
    }
    if busy_other(s, reg, mem, k, d, h, id) {
        let j = choose|j: int|
            #[trigger] at_slot(s, j, d, h) && s[j].activity != id && reg.contains_key(s[j].activity) && mem(
                reg[s[j].activity],
            ).contains(k);
        assert(s.contains(s[j]));
        lemma_without_contains(s, id, s[j]);
        let j2 = choose|j2: int| 0 <= j2 < w.len() && w[j2] == s[j];
        assert(at_slot(w, j2, d, h));
    }
}

/// After taking out `a`, the first entries of each day are free exactly
/// where they were free at the start and nothing placed sits.
proof fn lemma_delete_first_hours(
    t: Map<i32, Seq<DayView>>,
    c: Map<i32, Seq<DayView>>,
    s: Seq<Schedule>,
    reg: Map<i32, ActivityView>,
    mem: spec_fn(ActivityView) -> Seq<i32>,
    a: ActivityView,
    k: i32,
    i: int,
    h: int,
)
    requires
        table_booked(t, c, s, reg, mem),
        reg.contains_key(a.id),
        reg[a.id] == a,
        t.dom().contains(k),
        is_first_of_day(t[k], t[k][i].day, i),
        0 <= h < t[k][i].hours.len(),
    ensures
        free_table(t, mem(a), s, a.id)[k][i].hours[h] == (c[k][i].hours[h] && !busy(
            without_act(s, a.id),
            reg,
            mem,
            k,
            t[k][i].day,
            h,
        )),
        busy(without_act(s, a.id), reg, mem, k, t[k][i].day, h) ==> c[k][i].hours[h],
{
    let t2 = free_table(t, mem(a), s, a.id);
    let dd = t[k][i].day;
    lemma_busy_without(s, reg, mem, k, dd, h, a.id);
    lemma_free_list_shape(t[k], s, a.id);
    assert(t[k][i].hours[h] == (c[k][i].hours[h] && !busy(s, reg, mem, k, dd, h)));
    assert(has_entry(t, k, dd));
    if busy_other(s, reg, mem, k, dd, h, a.id) {
        let j = choose|j: int|
            #[trigger] at_slot(s, j, dd, h) && s[j].activity != a.id && reg.contains_key(s[j].activity) && mem(
                reg[s[j].activity],
            ).contains(k);
        assert(busy(s, reg, mem, k, dd, h));
        if occupies(s, a.id, dd, h) && mem(a).contains(k) {
            let j0 = choose|j0: int| 0 <= j0 < s.len() && s[j0].activity == a.id && s[j0].day_id == dd && s[j0].hour == h;
            assert(clash(t, s, reg, mem, j0, j, k));
        }
    }
    if busy(s, reg, mem, k, dd, h) && !busy_other(s, reg, mem, k, dd, h, a.id) {
        let j = choose|j: int|
            #[trigger] at_slot(s, j, dd, h) && reg.contains_key(s[j].activity) && mem(reg[s[j].activity]).contains(k);
        assert(s[j].activity == a.id);
        assert(mem(a).contains(k));
        assert(occupies(s, a.id, dd, h));
    }
    if mem(a).contains(k) {
        assert(t2[k] == free_list(t[k], s, a.id));
        assert(is_first_of_day(t[k], t[k][i].day, i));
        if occupies(s, a.id, dd, h) {
            let j0 = choose|j0: int| 0 <= j0 < s.len() && s[j0].activity == a.id && s[j0].day_id == dd && s[j0].hour == h;
            assert(at_slot(s, j0, dd, h));
            assert(busy(s, reg, mem, k, dd, h));
            assert(t2[k][i].hours[h]);
        } else {
            assert(t2[k][i].hours[h] == t[k][i].hours[h]);
        }
    } else {
        assert(t2[k] == t[k]);
    }
}

/// Taking out activity `a`, known to `reg`, frees its hours for its members
/// and keeps the free hours in agreement with the placed ones.
pub proof fn lemma_delete_keeps_booking(
    t: Map<i32, Seq<DayView>>,
    c: Map<i32, Seq<DayView>>,
    s: Seq<Schedule>,
    reg: Map<i32, ActivityView>,
    mem: spec_fn(ActivityView) -> Seq<i32>,
    a: ActivityView,
)
    requires
        table_booked(t, c, s, reg, mem),
        reg.contains_key(a.id),
        reg[a.id] == a,
    ensures
        table_booked(free_table(t, mem(a), s, a.id), c, without_act(s, a.id), reg, mem),
{
    let t2 = free_table(t, mem(a), s, a.id);
    let s2 = without_act(s, a.id);
    lemma_free_table_shape(t, mem(a), s, a.id);
    lemma_same_shape_sym(t, t2);
    lemma_same_shape_trans(t2, t, c);
    assert forall|k: i32| t.dom().contains(k) implies forall|dd: i32, i: int|
        #[trigger] is_first_of_day(t2[k], dd, i) <==> is_first_of_day(t[k], dd, i) by {
        lemma_free_list_shape(t[k], s, a.id);
    }
    assert forall|k: i32, i: int, h: int|
        t2.dom().contains(k) && 0 <= i < t2[k].len() && is_first_of_day(t2[k], t2[k][i].day, i) && 0 <= h
            < t2[k][i].hours.len() implies (#[trigger] t2[k][i].hours[h]) == (c[k][i].hours[h] && !busy(
        s2,
        reg,
        mem,
        k,
        t2[k][i].day,
        h,
    )) by {
        lemma_delete_first_hours(t, c, s, reg, mem, a, k, i, h);
    }
    assert forall|k: i32, i: int|
        t2.dom().contains(k) && 0 <= i < t2[k].len() && !is_first_of_day(t2[k], t2[k][i].day, i) implies (
        #[trigger] t2[k][i]).hours == c[k][i].hours by {
        lemma_free_list_shape(t[k], s, a.id);
        assert(!is_first_of_day(t[k], t[k][i].day, i));
        if mem(a).contains(k) {
            assert(t2[k] == free_list(t[k], s, a.id));
            assert(t2[k][i] == t[k][i]);
        }
    }
    assert forall|k: i32, i: int, h: int|
        t2.dom().contains(k) && 0 <= i < t2[k].len() && is_first_of_day(t2[k], t2[k][i].day, i) && 0 <= h
            < t2[k][i].hours.len() && busy(s2, reg, mem, k, t2[k][i].day, h) implies #[trigger] c[k][i].hours[h] by {
        lemma_delete_first_hours(t, c, s, reg, mem, a, k, i, h);
    }
    assert forall|j1: int, j2: int, k: i32| !#[trigger] clash(t2, s2, reg, mem, j1, j2, k) by {
        if clash(t2, s2, reg, mem, j1, j2, k) {
            assert(s2.contains(s2[j1]) && s2.contains(s2[j2]));
            lemma_without_contains(s, a.id, s2[j1]);
            lemma_without_contains(s, a.id, s2[j2]);
            let i1 = choose|i1: int| 0 <= i1 < s.len() && s[i1] == s2[j1];
            let i2 = choose|i2: int| 0 <= i2 < s.len() && s[i2] == s2[j2];
            let i0 = choose|i: int| 0 <= i < t2[k].len() && #[trigger] t2[k][i].day == s2[j1].day_id;
            assert(t[k][i0].day == s2[j1].day_id);
            assert(clash(t, s, reg, mem, i1, i2, k));
        }
    }
}

/// Placing activity `a`, known to `reg`, at hours where all of its members
/// are free keeps its members' hours taken where placed hours sit, and keeps
/// every member from having two activities at the same hour.
pub proof fn lemma_put_keeps_marked(
    t: Map<i32, Seq<DayView>>,
    s: Seq<Schedule>,
    reg: Map<i32, ActivityView>,
    mem: spec_fn(ActivityView) -> Seq<i32>,
    d: i32,
    lo: int,
    a: ActivityView,
)
    requires
        table_marked(t, s, reg, mem),
        can_put(t, s, reg, mem, d, lo, a),
    ensures
        table_marked(mark_table(t, mem(a), d, lo, a.hour as int, false), s + placement(d, lo, a), reg, mem),
{
    let n = a.hour as int;
    let t2 = mark_table(t, mem(a), d, lo, n, false);
    let s2 = s + placement(d, lo, a);
    lemma_put_shape(t, mem(a), d, lo, n);
    assert forall|k: i32, i: int, h: int|
        t2.dom().contains(k) && 0 <= i < t2[k].len() && is_first_of_day(t2[k], t2[k][i].day, i) && 0 <= h
            < t2[k][i].hours.len() && busy(s2, reg, mem, k, t2[k][i].day, h) implies !#[trigger] t2[k][i].hours[h] by {
        let dd = t[k][i].day;
        lemma_mark_list_shape(t[k], d, lo, n, false);
        lemma_busy_after_put(s, reg, mem, d, lo, a, k, dd, h);
        if mem(a).contains(k) {
            assert(t2[k] == mark_list(t[k], d, lo, n, false));
            if dd == d {
                assert(t2[k][i] == t[k][i].with_range(lo, n, false));
            } else {
                assert(t2[k][i] == t[k][i]);
            }
        } else {
            assert(t2[k] == t[k]);
        }
    }
    assert forall|j1: int, j2: int, k: i32| !#[trigger] clash(t2, s2, reg, mem, j1, j2, k) by {
        lemma_put_no_clash(t, s, reg, mem, d, lo, a, j1, j2, k);
    }
}

/// Taking out activity `a`, known to `reg`, keeps the hours of the other
/// activities taken and keeps every member from having two activities at
/// the same hour.
pub proof fn lemma_delete_keeps_marked(
    t: Map<i32, Seq<DayView>>,
    s: Seq<Schedule>,
    reg: Map<i32, ActivityView>,
    mem: spec_fn(ActivityView) -> Seq<i32>,
    a: ActivityView,
)
    requires
        table_marked(t, s, reg, mem),
        reg.contains_key(a.id),
        reg[a.id] == a,
    ensures
        table_marked(free_table(t, mem(a), s, a.id), without_act(s, a.id), reg, mem),
{
    let t2 = free_table(t, mem(a), s, a.id);
    let s2 = without_act(s, a.id);
    lemma_free_table_shape(t, mem(a), s, a.id);
    assert forall|k: i32, i: int, h: int|
        t2.dom().contains(k) && 0 <= i < t2[k].len() && is_first_of_day(t2[k], t2[k][i].day, i) && 0 <= h
            < t2[k][i].hours.len() && busy(s2, reg, mem, k, t2[k][i].day, h) implies !#[trigger] t2[k][i].hours[h] by {
        lemma_free_list_shape(t[k], s, a.id);
        let dd = t[k][i].day;
        assert(is_first_of_day(t[k], dd, i));
        lemma_busy_without(s, reg, mem, k, dd, h, a.id);
        let j = choose|j: int|
            #[trigger] at_slot(s, j, dd, h) && s[j].activity != a.id && reg.contains_key(s[j].activity) && mem(
                reg[s[j].activity],
            ).contains(k);
        assert(busy(s, reg, mem, k, dd, h));
        assert(has_entry(t, k, dd));
        if mem(a).contains(k) {
            assert(t2[k] == free_list(t[k], s, a.id));
            if occupies(s, a.id, dd, h) {
                let j0 = choose|j0: int| 0 <= j0 < s.len() && s[j0].activity == a.id && s[j0].day_id == dd && s[j0].hour == h;
                assert(clash(t, s, reg, mem, j0, j, k));
            }
        } else {
            assert(t2[k] == t[k]);
        }
    }
    assert forall|j1: int, j2: int, k: i32| !#[trigger] clash(t2, s2, reg, mem, j1, j2, k) by {
        if clash(t2, s2, reg, mem, j1, j2, k) {
            assert(s2.contains(s2[j1]) && s2.contains(s2[j2]));
            lemma_without_contains(s, a.id, s2[j1]);
            lemma_without_contains(s, a.id, s2[j2]);
            let i1 = choose|i1: int| 0 <= i1 < s.len() && s[i1] == s2[j1];
            let i2 = choose|i2: int| 0 <= i2 < s.len() && s[i2] == s2[j2];
            let i0 = choose|i: int| 0 <= i < t2[k].len() && #[trigger] t2[k][i].day == s2[j1].day_id;
            lemma_free_list_shape(t[k], s, a.id);
            assert(t[k][i0].day == s2[j1].day_id);
            assert(clash(t, s, reg, mem, i1, i2, k));
        }
    }
}

/// `reg` holds, under its id, the value of every activity of `acts` and of
/// every neighbour recorded in `nbs`.
pub open spec fn registry_holds(
    acts: Seq<Activity>,
    nbs: Map<i32, HashMap<i32, Activity>>,
    reg: Map<i32, ActivityView>,
) -> bool {
    &&& forall|i: int|
        0 <= i < acts.len() ==> reg.contains_key(#[trigger] acts[i].id) && reg[acts[i].id] == acts[i]@
    &&& forall|k: i32, j: i32|
        nbs.contains_key(k) && #[trigger] nbs[k]@.contains_key(j) ==> reg.contains_key(j) && reg[j] == nbs[k]@[j]@
}

/// `reg` holds, under its id, the value of every activity of `data` and of
/// every neighbour that `data` records.
pub open spec fn registry_ok(data: TimetableData, reg: Map<i32, ActivityView>) -> bool {
    registry_holds(data.acts@, data.neighbour_acts@, reg)
}

/// `a` is one of `acts` or one of the neighbours recorded in `nbs`.
pub open spec fn act_known(acts: Seq<Activity>, nbs: Map<i32, HashMap<i32, Activity>>, a: ActivityView) -> bool {
    ||| exists|i: int| 0 <= i < acts.len() && (#[trigger] acts[i])@ == a
    ||| exists|k: i32| nbs.contains_key(k) && (#[trigger] nbs[k])@.contains_key(a.id) && nbs[k]@[a.id]@ == a
}

/// `a` is one of the activities of `data` or one of the neighbours it records.
pub open spec fn known_act(data: TimetableData, a: ActivityView) -> bool {
    act_known(data.acts@, data.neighbour_acts@, a)
}

/// Data whose activities are those of `base`, each as often, in any order,
/// and with the same neighbours, is described by every registry of `base`.
pub proof fn lemma_registry_same_items(base: TimetableData, mid: TimetableData)
    requires
        mid.acts@.to_multiset() == base.acts@.to_multiset(),
        mid.neighbour_acts == base.neighbour_acts,
    ensures
        forall|reg: Map<i32, ActivityView>| #[trigger] registry_ok(base, reg) ==> registry_ok(mid, reg),
        forall|a: ActivityView| #[trigger] known_act(mid, a) ==> known_act(base, a),
{
    assert forall|reg: Map<i32, ActivityView>| #[trigger] registry_ok(base, reg) implies registry_ok(mid, reg) by {
        assert forall|i: int| 0 <= i < mid.acts@.len() implies reg.contains_key(#[trigger] mid.acts@[i].id)
            && reg[mid.acts@[i].id] == mid.acts@[i]@ by {
            assert(mid.acts@.contains(mid.acts@[i]));
            crate::random::lemma_same_items_contains(mid.acts@, base.acts@, mid.acts@[i]);
            let j = choose|j: int| 0 <= j < base.acts@.len() && base.acts@[j] == mid.acts@[i];
            assert(reg.contains_key(base.acts@[j].id));
        }
        assert(mid.neighbour_acts@ == base.neighbour_acts@);
    }
    assert forall|a: ActivityView| #[trigger] known_act(mid, a) implies known_act(base, a) by {
        assert(mid.neighbour_acts@ == base.neighbour_acts@);
        if exists|i: int| 0 <= i < mid.acts@.len() && (#[trigger] mid.acts@[i])@ == a {
            let i = choose|i: int| 0 <= i < mid.acts@.len() && (#[trigger] mid.acts@[i])@ == a;
            assert(mid.acts@.contains(mid.acts@[i]));
            crate::random::lemma_same_items_contains(mid.acts@, base.acts@, mid.acts@[i]);
            let j = choose|j: int| 0 <= j < base.acts@.len() && base.acts@[j] == mid.acts@[i];
            assert(base.acts@[j]@ == a);
        }
    }
}

/// The free hours of the teachers and of the classes of `data` agree with
/// the hours placed in it (see [`table_booked`]), the activities being
/// looked up in `reg`.
pub open spec fn booked(data: TimetableData, reg: Map<i32, ActivityView>) -> bool {
    &&& table_booked(data.tat_view(), data.clean_tat_view(), data.sched(), reg, teachers_of())
    &&& table_booked(data.cat_view(), table_view(data.clean_cat@), data.sched(), reg, classes_of())
}

/// The free hours of the teachers and of the classes of `data` are taken
/// wherever a placed hour of theirs sits, and no teacher or class has two
/// activities at one hour (see [`table_marked`]), the activities being looked
/// up in `reg`.
pub open spec fn marked(data: TimetableData, reg: Map<i32, ActivityView>) -> bool {
    &&& table_marked(data.tat_view(), data.sched(), reg, teachers_of())
    &&& table_marked(data.cat_view(), data.sched(), reg, classes_of())
}

/// For every registry of `base`: whenever the free hours of `base` agreed
/// exactly with its placed hours, those of `cur` do too; and whenever no
/// teacher or class of `base` had two activities at one hour and their
/// placed hours were taken, the same holds of `cur`.
#[verifier::opaque]
pub open spec fn keeps_booking(base: TimetableData, cur: TimetableData) -> bool {
    forall|reg: Map<i32, ActivityView>|
        #[trigger] registry_ok(base, reg) ==> (booked(base, reg) ==> booked(cur, reg)) && (marked(base, reg) ==> marked(
            cur,
            reg,
        ))
}

proof fn lemma_known_in_registry(data: TimetableData, reg: Map<i32, ActivityView>, a: ActivityView)
    requires
        registry_ok(data, reg),
        known_act(data, a),
    ensures
        reg.contains_key(a.id),
        reg[a.id] == a,
{
    let acts = data.acts@;
    let nbs = data.neighbour_acts@;
    if exists|i: int| 0 <= i < acts.len() && (#[trigger] acts[i])@ == a {
        let i = choose|i: int| 0 <= i < acts.len() && (#[trigger] acts[i])@ == a;
        assert(reg.contains_key(acts[i].id));
    } else {
        let k = choose|k: i32| nbs.contains_key(k) && (#[trigger] nbs[k])@.contains_key(a.id) && nbs[k]@[a.id]@ == a;
        assert(reg[a.id] == nbs[k]@[a.id]@);
    }
}

/// Nothing changes the booking of a data set into itself.
pub proof fn lemma_keeps_booking_refl(data: TimetableData)
    ensures
        keeps_booking(data, data),
{
    reveal(keeps_booking);
}

/// Keeping the booking from `base` to `mid` and from `mid` to `end`, where
/// every registry of `base` describes `mid`, keeps it from `base` to `end`.
pub proof fn lemma_keeps_booking_trans(base: TimetableData, mid: TimetableData, end: TimetableData)
    requires
        keeps_booking(base, mid),
        keeps_booking(mid, end),
        forall|reg: Map<i32, ActivityView>| #[trigger] registry_ok(base, reg) ==> registry_ok(mid, reg),
    ensures
        keeps_booking(base, end),
{
    reveal(keeps_booking);
    assert forall|reg: Map<i32, ActivityView>| #[trigger] registry_ok(base, reg) implies (booked(base, reg) ==> booked(
        end,
        reg,
    )) && (marked(base, reg) ==> marked(end, reg)) by {
        assert(registry_ok(mid, reg));
    }
}

/// Data with the same free hours, clean hours and placed hours as `cur` is
/// booked just as `cur` is.
pub proof fn lemma_keeps_booking_same_views(base: TimetableData, cur: TimetableData, next: TimetableData)
    requires
        keeps_booking(base, cur),
        next.tat_view() == cur.tat_view(),
        next.cat_view() == cur.cat_view(),
        next.sched() == cur.sched(),
        next.clean_tat == cur.clean_tat,
        next.clean_cat == cur.clean_cat,
    ensures
        keeps_booking(base, next),
{
    reveal(keeps_booking);
    assert forall|reg: Map<i32, ActivityView>| #[trigger] registry_ok(base, reg) implies (booked(base, reg) ==> booked(
        next,
        reg,
    )) && (marked(base, reg) ==> marked(next, reg)) by {
        assert(registry_ok(base, reg));
    }
}

/// Placing a known activity at hours where its teachers and classes are
/// free keeps the booking.
pub proof fn lemma_put_act_keeps_booking(
    base: TimetableData,
    cur: TimetableData,
    next: TimetableData,
    d: i32,
    lo: int,
    a: ActivityView,
    len: nat,
)
    requires
        keeps_booking(base, cur),
        known_act(base, a),
        len <= 32767,
        uniform(cur.tat_view(), len),
        uniform(cur.cat_view(), len),
        0 <= lo,
        0 <= a.hour,
        lo + a.hour <= len,
        free_for(cur.tat_view(), a.teachers, d, lo, a.hour as int),
        free_for(cur.cat_view(), a.classes, d, lo, a.hour as int),
        next.sched() == cur.sched() + placement(d, lo, a),
        next.tat_view() == mark_table(cur.tat_view(), a.teachers, d, lo, a.hour as int, false),
        next.cat_view() == mark_table(cur.cat_view(), a.classes, d, lo, a.hour as int, false),
        next.clean_tat == cur.clean_tat,
        next.clean_cat == cur.clean_cat,
    ensures
        keeps_booking(base, next),
{
    reveal(keeps_booking);
    assert forall|reg: Map<i32, ActivityView>| #[trigger] registry_ok(base, reg) implies (booked(base, reg) ==> booked(
        next,
        reg,
    )) && (marked(base, reg) ==> marked(next, reg)) by {
        lemma_known_in_registry(base, reg, a);
        assert(teachers_of()(a) == a.teachers);
        assert(classes_of()(a) == a.classes);
        if booked(base, reg) {
            lemma_put_keeps_booking(cur.tat_view(), cur.clean_tat_view(), cur.sched(), reg, teachers_of(), d, lo, a);
            lemma_put_keeps_booking(cur.cat_view(), table_view(cur.clean_cat@), cur.sched(), reg, classes_of(), d, lo, a);
        }
        if marked(base, reg) {
            lemma_put_keeps_marked(cur.tat_view(), cur.sched(), reg, teachers_of(), d, lo, a);
            lemma_put_keeps_marked(cur.cat_view(), cur.sched(), reg, classes_of(), d, lo, a);
        }
    }
}

/// Taking out a known activity keeps the booking.
pub proof fn lemma_delete_act_keeps_booking(
    base: TimetableData,
    cur: TimetableData,
    next: TimetableData,
    a: ActivityView,
)
    requires
        keeps_booking(base, cur),
        known_act(base, a),
        next.sched() == without_act(cur.sched(), a.id),
        next.tat_view() == free_table(cur.tat_view(), a.teachers, cur.sched(), a.id),
        next.cat_view() == free_table(cur.cat_view(), a.classes, cur.sched(), a.id),
        next.clean_tat == cur.clean_tat,
        next.clean_cat == cur.clean_cat,
    ensures
        keeps_booking(base, next),
{
    reveal(keeps_booking);
    assert forall|reg: Map<i32, ActivityView>| #[trigger] registry_ok(base, reg) implies (booked(base, reg) ==> booked(
        next,
        reg,
    )) && (marked(base, reg) ==> marked(next, reg)) by {
        lemma_known_in_registry(base, reg, a);
        assert(teachers_of()(a) == a.teachers);
        assert(classes_of()(a) == a.classes);
        if booked(base, reg) {
            lemma_delete_keeps_booking(cur.tat_view(), cur.clean_tat_view(), cur.sched(), reg, teachers_of(), a);
            lemma_delete_keeps_booking(cur.cat_view(), table_view(cur.clean_cat@), cur.sched(), reg, classes_of(), a);
        }
        if marked(base, reg) {
            lemma_delete_keeps_marked(cur.tat_view(), cur.sched(), reg, teachers_of(), a);
            lemma_delete_keeps_marked(cur.cat_view(), cur.sched(), reg, classes_of(), a);
        }
    }
}

/// A neighbour that `data` records is known to it.
pub proof fn lemma_neighbour_known(data: TimetableData, k: i32, a: ActivityView)
    requires
        data.neighbour_acts@.contains_key(k),
        data.neighbour_acts@[k]@.contains_key(a.id),
        data.neighbour_acts@[k]@[a.id]@ == a,
    ensures
        known_act(data, a),
{
    let nbs = data.neighbour_acts@;
    assert(nbs.contains_key(k) && nbs[k]@.contains_key(a.id) && nbs[k]@[a.id]@ == a);
}

/// An activity of `data` is known to it.
pub proof fn lemma_act_known(data: TimetableData, i: int, a: ActivityView)
    requires
        0 <= i < data.acts@.len(),
        data.acts@[i]@ == a,
    ensures
        known_act(data, a),
{
    assert(data.acts@[i]@ == a);
}

/// Data with the activities and neighbours of `base` has its registries and
/// knows its activities.
pub proof fn lemma_same_acts_registry(base: TimetableData, other: TimetableData)
    requires
        other.acts == base.acts,
        other.neighbour_acts == base.neighbour_acts,
    ensures
        forall|reg: Map<i32, ActivityView>| #[trigger] registry_ok(base, reg) ==> registry_ok(other, reg),
        forall|a: ActivityView| #[trigger] known_act(base, a) ==> known_act(other, a),
{
    assert(other.acts@ == base.acts@);
    assert(other.neighbour_acts@ == base.neighbour_acts@);
}

/// Free hours that are still those of the start, with nothing placed, agree
/// with what is placed.
pub proof fn lemma_unplaced_table_booked(
    t: Map<i32, Seq<DayView>>,
    s: Seq<Schedule>,
    reg: Map<i32, ActivityView>,
    mem: spec_fn(ActivityView) -> Seq<i32>,
)
    requires
        s.len() == 0,
    ensures
        table_booked(t, t, s, reg, mem),
{
    assert forall|k: i32, d: i32, h: int| !busy(s, reg, mem, k, d, h) by {
        if busy(s, reg, mem, k, d, h) {
            let j = choose|j: int|
                #[trigger] at_slot(s, j, d, h) && reg.contains_key(s[j].activity) && mem(reg[s[j].activity]).contains(k);
        }
    }
}

/// Data whose free hours are those it keeps as clean, with no hour placed,
/// as [`crate::data::create_data`] makes it from an empty schedule, is booked
/// whatever the registry.
pub proof fn lemma_fresh_data_booked(data: TimetableData, reg: Map<i32, ActivityView>)
    requires
        data.tat_view() == data.clean_tat_view(),
        data.cat_view() == table_view(data.clean_cat@),
        data.sched().len() == 0,
    ensures
        booked(data, reg),
{
    lemma_unplaced_table_booked(data.tat_view(), data.sched(), reg, teachers_of());
    lemma_unplaced_table_booked(data.cat_view(), data.sched(), reg, classes_of());
}

/// Taking out, one after the other, activities whose values `reg` holds
/// under their ids, as [`crate::generator::TimetableData::change_tat`] does,
/// keeps the free hours of teachers and of classes in agreement with the
/// placed ones.
pub proof fn lemma_delete_all_keeps_booking(
    t: Map<i32, Seq<DayView>>,
    c: Map<i32, Seq<DayView>>,
    s: Seq<Schedule>,
    clean_t: Map<i32, Seq<DayView>>,
    clean_c: Map<i32, Seq<DayView>>,
    acts: Seq<ActivityView>,
    reg: Map<i32, ActivityView>,
)
    requires
        table_booked(t, clean_t, s, reg, teachers_of()),
        table_booked(c, clean_c, s, reg, classes_of()),
        forall|i: int| 0 <= i < acts.len() ==> reg.contains_key(#[trigger] acts[i].id) && reg[acts[i].id] == acts[i],
    ensures
        table_booked(delete_all(t, c, s, acts).0, clean_t, delete_all(t, c, s, acts).2, reg, teachers_of()),
        table_booked(delete_all(t, c, s, acts).1, clean_c, delete_all(t, c, s, acts).2, reg, classes_of()),
    decreases acts.len(),
{
    if acts.len() > 0 {
        let init = acts.drop_last();
        assert forall|i: int| 0 <= i < init.len() implies reg.contains_key(#[trigger] init[i].id) && reg[init[i].id]
            == init[i] by {
            assert(init[i] == acts[i]);
        }
        lemma_delete_all_keeps_booking(t, c, s, clean_t, clean_c, init, reg);
        let (t1, c1, s1) = delete_all(t, c, s, init);
        let a = acts.last();
        assert(reg.contains_key(acts[acts.len() - 1].id));
        assert(teachers_of()(a) == a.teachers);
        assert(classes_of()(a) == a.classes);
        lemma_delete_keeps_booking(t1, clean_t, s1, reg, teachers_of(), a);
        lemma_delete_keeps_booking(c1, clean_c, s1, reg, classes_of(), a);
    }
}

} // verus!
