use vstd::prelude::*;
use std::collections::HashMap;
use crate::msgs::classes::ClassLimitation;
use crate::msgs::teachers::TeacherLimitation;
use crate::msgs::timetables::Schedule;
use vstd::std_specs::iter::IteratorSpec;

verus! {

/// The value of one day's limitation: who it belongs to, the day, and for each
/// hour of the day whether that hour is free.
pub struct DayView {
    pub owner: Seq<i32>,
    pub day: i32,
    pub hours: Seq<bool>,
}

impl DayView {
    /// The same day with hour `h` set to `v`.
    pub open spec fn with_hour(self, h: int, v: bool) -> DayView {
        DayView { hours: self.hours.update(h, v), ..self }
    }

    /// The same day with the hours `lo .. lo + n` set to `v`.
    pub open spec fn with_range(self, lo: int, n: int, v: bool) -> DayView {
        DayView {
            hours: Seq::new(self.hours.len(), |i: int| if lo <= i < lo + n { v } else { self.hours[i] }),
            ..self
        }
    }

    /// Whether the hours `lo .. lo + n` are all free on this day.
    pub open spec fn free_range(self, lo: int, n: int) -> bool {
        forall|h: int| lo <= h < lo + n ==> #[trigger] self.hours[h]
    }
}

/// A limitation of one day, for a teacher or for a class.
pub trait DaySlots: Sized {
    spec fn slots(&self) -> DayView;

    fn day_of(&self) -> (d: i32)
        ensures
            d == self.slots().day,
    ;

    fn hours_len(&self) -> (n: usize)
        ensures
            n == self.slots().hours.len(),
    ;

    fn hour_at(&self, h: usize) -> (b: bool)
        requires
            h < self.slots().hours.len(),
        ensures
            b == self.slots().hours[h as int],
    ;

    fn set_hour(&mut self, h: usize, v: bool)
        requires
            h < old(self).slots().hours.len(),
        ensures
            final(self).slots() == old(self).slots().with_hour(h as int, v),
    ;

    /// The id the limitation belongs to: the teacher's or the class's.
    fn owner_id(&self) -> (id: i32)
        ensures
            id == self.slots().owner[0],
    ;

    /// A limitation with the same value.
    fn copy(&self) -> (r: Self)
        ensures
            r.slots() == self.slots(),
    ;
}

/// A copy of a row of hours.
pub fn copy_hours(v: &Vec<bool>) -> (r: Vec<bool>)
    ensures
        r@ == v@,
{
    let mut r: Vec<bool> = Vec::new();
    let mut i: usize = 0;
    while i < v.len()
        invariant
            i <= v@.len(),
            r@ == v@.take(i as int),
        decreases v.len() - i,
    {
        r.push(v[i]);
        i = i + 1;
        proof {
            assert(r@ =~= v@.take(i as int));
        }
    }
    assert(v@.take(v@.len() as int) =~= v@);
    r
}

impl DaySlots for TeacherLimitation {
    open spec fn slots(&self) -> DayView {
        DayView { owner: seq![self.user_id, self.school_id, self.group_id], day: self.day, hours: self.hours@ }
    }

    fn day_of(&self) -> (d: i32) {
        self.day
    }

    fn hours_len(&self) -> (n: usize) {
        self.hours.len()
    }

    fn hour_at(&self, h: usize) -> (b: bool) {
        self.hours[h]
    }

    fn set_hour(&mut self, h: usize, v: bool) {
        self.hours.set(h, v);
    }

    fn owner_id(&self) -> (id: i32) {
        self.user_id
    }

    fn copy(&self) -> (r: Self) {
        TeacherLimitation {
            user_id: self.user_id,
            school_id: self.school_id,
            group_id: self.group_id,
            day: self.day,
            hours: copy_hours(&self.hours),
        }
    }
}

impl DaySlots for ClassLimitation {
    open spec fn slots(&self) -> DayView {
        DayView { owner: seq![self.class_id], day: self.day, hours: self.hours@ }
    }

    fn day_of(&self) -> (d: i32) {
        self.day
    }

    fn hours_len(&self) -> (n: usize) {
        self.hours.len()
    }

    fn hour_at(&self, h: usize) -> (b: bool) {
        self.hours[h]
    }

    fn set_hour(&mut self, h: usize, v: bool) {
        self.hours.set(h, v);
    }

    fn owner_id(&self) -> (id: i32) {
        self.class_id
    }

    fn copy(&self) -> (r: Self) {
        ClassLimitation { class_id: self.class_id, day: self.day, hours: copy_hours(&self.hours) }
    }
}

/// The values of a list of day limitations.
pub open spec fn list_view<L: DaySlots>(v: Seq<L>) -> Seq<DayView> {
    v.map_values(|l: L| l.slots())
}

/// The values of a table from ids to lists of day limitations.
pub open spec fn table_view<L: DaySlots>(m: Map<i32, Vec<L>>) -> Map<i32, Seq<DayView>> {
    Map::new(|k: i32| m.dom().contains(k), |k: i32| list_view(m[k]@))
}

/// `i` is the first entry of `s` for day `d`: the one that placing and removing
/// lessons change.
pub open spec fn is_first_of_day(s: Seq<DayView>, d: i32, i: int) -> bool {
    &&& 0 <= i < s.len()
    &&& s[i].day == d
    &&& forall|j: int| 0 <= j < i ==> s[j].day != d
}

/// `s` with the hours `lo .. lo + n` of its first entry for day `d` set to `v`.
pub open spec fn mark_list(s: Seq<DayView>, d: i32, lo: int, n: int, v: bool) -> Seq<DayView> {
    Seq::new(s.len(), |i: int| if is_first_of_day(s, d, i) { s[i].with_range(lo, n, v) } else { s[i] })
}

/// `m` with [`mark_list`] applied to the list of every id in `ids`.
pub open spec fn mark_table(
    m: Map<i32, Seq<DayView>>,
    ids: Seq<i32>,
    d: i32,
    lo: int,
    n: int,
    v: bool,
) -> Map<i32, Seq<DayView>> {
    Map::new(
        |k: i32| m.dom().contains(k),
        |k: i32| if ids.contains(k) { mark_list(m[k], d, lo, n, v) } else { m[k] },
    )
}

/// Every entry of every list of `m` has `len` hours.
pub open spec fn uniform(m: Map<i32, Seq<DayView>>, len: nat) -> bool {
    forall|k: i32, i: int|
        m.dom().contains(k) && 0 <= i < m[k].len() ==> (#[trigger] m[k][i]).hours.len() == len
}

/// Two tables that hold the same ids, days and owners; only hours may differ.
pub open spec fn same_shape(a: Map<i32, Seq<DayView>>, b: Map<i32, Seq<DayView>>) -> bool {
    &&& a.dom() == b.dom()
    &&& forall|k: i32| a.dom().contains(k) ==> (#[trigger] a[k]).len() == b[k].len()
    &&& forall|k: i32, i: int|
        a.dom().contains(k) && 0 <= i < a[k].len() ==> {
            &&& (#[trigger] a[k][i]).day == b[k][i].day
            &&& a[k][i].owner == b[k][i].owner
            &&& a[k][i].hours.len() == b[k][i].hours.len()
        }
}

/// Index of the first entry of `lims` for day `day`, if there is one.
pub(crate) fn first_of_day<L: DaySlots>(lims: &Vec<L>, day: i32) -> (r: Option<usize>)
    ensures
        match r {
            Some(i) => is_first_of_day(list_view(lims@), day, i as int),
            None => forall|j: int| 0 <= j < lims@.len() ==> lims@[j].slots().day != day,
        },
{
    let mut i: usize = 0;
    while i < lims.len()
        invariant
            i <= lims@.len(),
            forall|j: int| 0 <= j < i ==> lims@[j].slots().day != day,
        decreases lims.len() - i,
    {
        if lims[i].day_of() == day {
            return Some(i);
        }
        i = i + 1;
    }
    None
}

proof fn lemma_with_range_one(x: DayView, h: int, v: bool)
    requires
        0 <= h < x.hours.len(),
    ensures
        x.with_hour(h, v) == x.with_range(h, 1, v),
{
    assert(x.with_hour(h, v).hours =~= x.with_range(h, 1, v).hours);
}

/// Marking keeps the days, owners and lengths of a list.
pub proof fn lemma_mark_list_shape(s: Seq<DayView>, d: i32, lo: int, n: int, v: bool)
    ensures
        mark_list(s, d, lo, n, v).len() == s.len(),
        forall|i: int|
            0 <= i < s.len() ==> {
                &&& (#[trigger] mark_list(s, d, lo, n, v)[i]).day == s[i].day
                &&& mark_list(s, d, lo, n, v)[i].owner == s[i].owner
                &&& mark_list(s, d, lo, n, v)[i].hours.len() == s[i].hours.len()
            },
        forall|dd: i32, i: int| is_first_of_day(mark_list(s, d, lo, n, v), dd, i) <==> is_first_of_day(s, dd, i),
{
    let t = mark_list(s, d, lo, n, v);
    assert forall|dd: i32, i: int| is_first_of_day(t, dd, i) <==> is_first_of_day(s, dd, i) by {
        if is_first_of_day(t, dd, i) {
            assert forall|j: int| 0 <= j < i implies s[j].day != dd by {
                assert(t[j].day == s[j].day);
            }
        }
        if is_first_of_day(s, dd, i) {
            assert forall|j: int| 0 <= j < i implies t[j].day != dd by {
                assert(t[j].day == s[j].day);
            }
        }
    }
}

/// Marking the same hours twice is marking them once.
pub proof fn lemma_mark_list_idem(s: Seq<DayView>, d: i32, lo: int, n: int, v: bool)
    ensures
        mark_list(mark_list(s, d, lo, n, v), d, lo, n, v) == mark_list(s, d, lo, n, v),
{
    let t = mark_list(s, d, lo, n, v);
    lemma_mark_list_shape(s, d, lo, n, v);
    let u = mark_list(t, d, lo, n, v);
    assert forall|i: int| 0 <= i < s.len() implies u[i] == t[i] by {
        if is_first_of_day(s, d, i) {
            assert(u[i].hours =~= t[i].hours);
        }
    }
    assert(u =~= t);
}

/// A list without an entry for day `d` is not changed by marking day `d`.
pub proof fn lemma_mark_list_absent(s: Seq<DayView>, d: i32, lo: int, n: int, v: bool)
    requires
        forall|j: int| 0 <= j < s.len() ==> s[j].day != d,
    ensures
        mark_list(s, d, lo, n, v) == s,
{
    assert(mark_list(s, d, lo, n, v) =~= s);
}


/// Marking `k` hours and then the next one is marking `k + 1` hours.
pub proof fn lemma_mark_list_extend(s: Seq<DayView>, d: i32, lo: int, k: int, v: bool)
    requires
        0 <= k,
    ensures
        mark_list(mark_list(s, d, lo, k, v), d, lo + k, 1, v) == mark_list(s, d, lo, k + 1, v),
{
    let t = mark_list(s, d, lo, k, v);
    lemma_mark_list_shape(s, d, lo, k, v);
    let u = mark_list(t, d, lo + k, 1, v);
    let w = mark_list(s, d, lo, k + 1, v);
    assert forall|i: int| 0 <= i < s.len() implies u[i] == w[i] by {
        if is_first_of_day(s, d, i) {
            assert(u[i].hours =~= w[i].hours);
        }
    }
    assert(u =~= w);
}

pub proof fn lemma_mark_table_extend(m: Map<i32, Seq<DayView>>, ids: Seq<i32>, d: i32, lo: int, k: int, v: bool)
    requires
        0 <= k,
    ensures
        mark_table(mark_table(m, ids, d, lo, k, v), ids, d, lo + k, 1, v) == mark_table(m, ids, d, lo, k + 1, v),
{
    let a = mark_table(mark_table(m, ids, d, lo, k, v), ids, d, lo + k, 1, v);
    let b = mark_table(m, ids, d, lo, k + 1, v);
    assert forall|key: i32| #[trigger] b.dom().contains(key) implies a[key] == b[key] by {
        if ids.contains(key) {
            lemma_mark_list_extend(m[key], d, lo, k, v);
        }
    }
    assert(a.dom() =~= b.dom());
    assert(a =~= b);
}

/// Marking no hour changes nothing.
pub proof fn lemma_mark_table_zero(m: Map<i32, Seq<DayView>>, ids: Seq<i32>, d: i32, lo: int, v: bool)
    ensures
        mark_table(m, ids, d, lo, 0, v) == m,
{
    let a = mark_table(m, ids, d, lo, 0, v);
    assert forall|key: i32| #[trigger] m.dom().contains(key) implies a[key] == m[key] by {
        if ids.contains(key) {
            let s = m[key];
            assert forall|i: int| 0 <= i < s.len() implies mark_list(s, d, lo, 0, v)[i] == s[i] by {
                if is_first_of_day(s, d, i) {
                    assert(mark_list(s, d, lo, 0, v)[i].hours =~= s[i].hours);
                }
            }
            assert(mark_list(s, d, lo, 0, v) =~= s);
        }
    }
    assert(a =~= m);
}

/// Marking keeps the shape of a table.
pub proof fn lemma_mark_table_shape(m: Map<i32, Seq<DayView>>, ids: Seq<i32>, d: i32, lo: int, n: int, v: bool)
    ensures
        same_shape(m, mark_table(m, ids, d, lo, n, v)),
{
    let a = mark_table(m, ids, d, lo, n, v);
    assert forall|k: i32| m.dom().contains(k) implies (#[trigger] m[k]).len() == a[k].len() by {
        lemma_mark_list_shape(m[k], d, lo, n, v);
    }
    assert forall|k: i32, i: int| m.dom().contains(k) && 0 <= i < m[k].len() implies {
        &&& (#[trigger] m[k][i]).day == a[k][i].day
        &&& m[k][i].owner == a[k][i].owner
        &&& m[k][i].hours.len() == a[k][i].hours.len()
    } by {
        lemma_mark_list_shape(m[k], d, lo, n, v);
    }
    assert(m.dom() =~= a.dom());
}

/// Tables of the same shape are uniform together.
pub proof fn lemma_same_shape_uniform(a: Map<i32, Seq<DayView>>, b: Map<i32, Seq<DayView>>, len: nat)
    requires
        same_shape(a, b),
        uniform(a, len),
    ensures
        uniform(b, len),
{
    assert forall|k: i32, i: int| b.dom().contains(k) && 0 <= i < b[k].len() implies (#[trigger] b[k][i]).hours.len() == len by {
        assert(a[k][i].hours.len() == len);
    }
}

/// The shape relation is transitive.
pub proof fn lemma_same_shape_trans(a: Map<i32, Seq<DayView>>, b: Map<i32, Seq<DayView>>, c: Map<i32, Seq<DayView>>)
    requires
        same_shape(a, b),
        same_shape(b, c),
    ensures
        same_shape(a, c),
{
    assert forall|k: i32, i: int| a.dom().contains(k) && 0 <= i < a[k].len() implies {
        &&& (#[trigger] a[k][i]).day == c[k][i].day
        &&& a[k][i].owner == c[k][i].owner
        &&& a[k][i].hours.len() == c[k][i].hours.len()
    } by {
        assert(b[k][i].day == c[k][i].day);
    }
}


/// Some hour of `sched` places activity `id` at hour `h` of day `d`.
pub open spec fn occupies(sched: Seq<Schedule>, id: i32, d: i32, h: int) -> bool {
    exists|j: int| 0 <= j < sched.len() && sched[j].activity == id && sched[j].day_id == d && sched[j].hour == h
}

/// `s` with every hour that activity `id` occupies in `sched` set free in the
/// first entry of its day.
pub open spec fn free_list(s: Seq<DayView>, sched: Seq<Schedule>, id: i32) -> Seq<DayView> {
    Seq::new(
        s.len(),
        |i: int|
            if is_first_of_day(s, s[i].day, i) {
                DayView {
                    hours: Seq::new(
                        s[i].hours.len(),
                        |h: int| if occupies(sched, id, s[i].day, h) { true } else { s[i].hours[h] },
                    ),
                    ..s[i]
                }
            } else {
                s[i]
            },
    )
}

/// `m` with [`free_list`] applied to the list of every id in `ids`.
pub open spec fn free_table(
    m: Map<i32, Seq<DayView>>,
    ids: Seq<i32>,
    sched: Seq<Schedule>,
    id: i32,
) -> Map<i32, Seq<DayView>> {
    Map::new(
        |k: i32| m.dom().contains(k),
        |k: i32| if ids.contains(k) { free_list(m[k], sched, id) } else { m[k] },
    )
}

/// Freeing along an empty schedule changes nothing.
pub proof fn lemma_free_table_empty(m: Map<i32, Seq<DayView>>, ids: Seq<i32>, sched: Seq<Schedule>, id: i32)
    requires
        sched.len() == 0,
    ensures
        free_table(m, ids, sched, id) == m,
{
    let a = free_table(m, ids, sched, id);
    assert forall|key: i32| #[trigger] m.dom().contains(key) implies a[key] == m[key] by {
        if ids.contains(key) {
            let s = m[key];
            assert forall|i: int| 0 <= i < s.len() implies free_list(s, sched, id)[i] == s[i] by {
                if is_first_of_day(s, s[i].day, i) {
                    assert(free_list(s, sched, id)[i].hours =~= s[i].hours);
                }
            }
            assert(free_list(s, sched, id) =~= s);
        }
    }
    assert(a =~= m);
}

/// Freeing keeps the days, owners and lengths of a list.
pub proof fn lemma_free_list_shape(s: Seq<DayView>, sched: Seq<Schedule>, id: i32)
    ensures
        free_list(s, sched, id).len() == s.len(),
        forall|i: int|
            0 <= i < s.len() ==> {
                &&& (#[trigger] free_list(s, sched, id)[i]).day == s[i].day
                &&& free_list(s, sched, id)[i].owner == s[i].owner
                &&& free_list(s, sched, id)[i].hours.len() == s[i].hours.len()
            },
        forall|dd: i32, i: int| is_first_of_day(free_list(s, sched, id), dd, i) <==> is_first_of_day(s, dd, i),
{
    let t = free_list(s, sched, id);
    assert forall|dd: i32, i: int| is_first_of_day(t, dd, i) <==> is_first_of_day(s, dd, i) by {
        if is_first_of_day(t, dd, i) {
            assert forall|j: int| 0 <= j < i implies s[j].day != dd by {
                assert(t[j].day == s[j].day);
            }
        }
        if is_first_of_day(s, dd, i) {
            assert forall|j: int| 0 <= j < i implies t[j].day != dd by {
                assert(t[j].day == s[j].day);
            }
        }
    }
}

/// Freeing along one more hour of the schedule.
pub proof fn lemma_free_list_step(s: Seq<DayView>, sched: Seq<Schedule>, id: i32, j: int)
    requires
        0 <= j < sched.len(),
    ensures
        free_list(s, sched.take(j + 1), id) == (if sched[j].activity == id {
            mark_list(free_list(s, sched.take(j), id), sched[j].day_id, sched[j].hour as int, 1, true)
        } else {
            free_list(s, sched.take(j), id)
        }),
{
    let e = sched[j];
    let before = sched.take(j);
    let after = sched.take(j + 1);
    let t = free_list(s, before, id);
    lemma_free_list_shape(s, before, id);
    assert forall|d: i32, h: int|
        occupies(after, id, d, h) <==> (occupies(before, id, d, h) || (e.activity == id && e.day_id == d && e.hour == h)) by {
        if occupies(after, id, d, h) {
            let w = choose|w: int| 0 <= w < after.len() && after[w].activity == id && after[w].day_id == d && after[w].hour == h;
            if w < j {
                assert(before[w] == after[w]);
            }
        }
        if occupies(before, id, d, h) {
            let w = choose|w: int| 0 <= w < before.len() && before[w].activity == id && before[w].day_id == d && before[w].hour == h;
            assert(after[w] == before[w]);
        }
        if e.activity == id && e.day_id == d && e.hour == h {
            assert(after[j] == e);
        }
    }
    let u = free_list(s, after, id);
    if e.activity == id {
        let w = mark_list(t, e.day_id, e.hour as int, 1, true);
        assert forall|i: int| 0 <= i < s.len() implies u[i] == w[i] by {
            if is_first_of_day(s, s[i].day, i) {
                assert(u[i].hours =~= w[i].hours);
            }
        }
        assert(u =~= w);
    } else {
        assert forall|i: int| 0 <= i < s.len() implies u[i] == t[i] by {
            if is_first_of_day(s, s[i].day, i) {
                assert(u[i].hours =~= t[i].hours);
            }
        }
        assert(u =~= t);
    }
}

pub proof fn lemma_free_table_step(m: Map<i32, Seq<DayView>>, ids: Seq<i32>, sched: Seq<Schedule>, id: i32, j: int)
    requires
        0 <= j < sched.len(),
    ensures
        free_table(m, ids, sched.take(j + 1), id) == (if sched[j].activity == id {
            mark_table(free_table(m, ids, sched.take(j), id), ids, sched[j].day_id, sched[j].hour as int, 1, true)
        } else {
            free_table(m, ids, sched.take(j), id)
        }),
{
    let a = free_table(m, ids, sched.take(j + 1), id);
    let b = if sched[j].activity == id {
        mark_table(free_table(m, ids, sched.take(j), id), ids, sched[j].day_id, sched[j].hour as int, 1, true)
    } else {
        free_table(m, ids, sched.take(j), id)
    };
    assert forall|key: i32| #[trigger] a.dom().contains(key) implies a[key] == b[key] by {
        if ids.contains(key) {
            lemma_free_list_step(m[key], sched, id, j);
        }
    }
    assert(a.dom() =~= b.dom());
    assert(a =~= b);
}

/// Freeing keeps the shape of a table.
pub proof fn lemma_free_table_shape(m: Map<i32, Seq<DayView>>, ids: Seq<i32>, sched: Seq<Schedule>, id: i32)
    ensures
        same_shape(m, free_table(m, ids, sched, id)),
{
    let a = free_table(m, ids, sched, id);
    assert forall|k: i32| m.dom().contains(k) implies (#[trigger] m[k]).len() == a[k].len() by {
        lemma_free_list_shape(m[k], sched, id);
    }
    assert forall|k: i32, i: int| m.dom().contains(k) && 0 <= i < m[k].len() implies {
        &&& (#[trigger] m[k][i]).day == a[k][i].day
        &&& m[k][i].owner == a[k][i].owner
        &&& m[k][i].hours.len() == a[k][i].hours.len()
    } by {
        lemma_free_list_shape(m[k], sched, id);
    }
    assert(m.dom() =~= a.dom());
}


/// All entries for day `d` of the lists of `ids` in `m` are free at the hours
/// `lo .. lo + n`.
pub open spec fn free_for(m: Map<i32, Seq<DayView>>, ids: Seq<i32>, d: i32, lo: int, n: int) -> bool {
    forall|t: int, i: int|
        0 <= t < ids.len() && m.dom().contains(ids[t]) && 0 <= i < m[ids[t]].len() && (#[trigger] m[ids[t]][i]).day == d
            ==> m[ids[t]][i].free_range(lo, n)
}

/// Whether the hours `lo .. lo + n` of day `day` are free for all of `ids`.
pub(crate) fn all_free<L: DaySlots>(m: &HashMap<i32, Vec<L>>, ids: &Vec<i32>, day: i32, lo: usize, n: usize) -> (r: bool)
    requires
        lo + n <= usize::MAX,
        exists|len: nat| lo + n <= len && uniform(table_view(m@), len),
    ensures
        r == free_for(table_view(m@), ids@, day, lo as int, n as int),
{
    broadcast use vstd::std_specs::hash::group_hash_axioms;
    let ghost len = choose|len: nat| lo + n <= len && uniform(table_view(m@), len);
    let ghost tv = table_view(m@);
    let mut t: usize = 0;
    while t < ids.len()
        invariant
            t <= ids@.len(),
            lo + n <= len,
            lo + n <= usize::MAX,
            uniform(tv, len),
            tv == table_view(m@),
            forall|tt: int, i: int|
                0 <= tt < t && tv.dom().contains(ids@[tt]) && 0 <= i < tv[ids@[tt]].len() && (#[trigger] tv[ids@[tt]][i]).day == day
                    ==> tv[ids@[tt]][i].free_range(lo as int, n as int),
        decreases ids.len() - t,
    {
        let id = ids[t];
        match m.get(&id) {
            Some(lims) => {
                assert(tv.dom().contains(id) && tv[id] == list_view(lims@));
                let mut i: usize = 0;
                while i < lims.len()
                    invariant
                        i <= lims@.len(),
                        lo + n <= len,
                        uniform(tv, len),
                        tv.dom().contains(id),
                        tv[id] == list_view(lims@),
                        id == ids@[t as int],
                        t < ids@.len(),
                        tv == table_view(m@),
                        lo + n <= usize::MAX,
                        forall|ii: int| 0 <= ii < i && (#[trigger] tv[id][ii]).day == day ==> tv[id][ii].free_range(lo as int, n as int),
                    decreases lims.len() - i,
                {
                    assert(lims@[i as int].slots() == tv[id][i as int]);
                    if lims[i].day_of() == day {
                        let mut h: usize = lo;
                        while h < lo + n
                            invariant
                                lo <= h <= lo + n,
                                lo + n <= len,
                                lo + n <= usize::MAX,
                                i < lims@.len(),
                                tv[id] == list_view(lims@),
                                tv == table_view(m@),
                                t < ids@.len(),
                                lims@[i as int].slots().day == day,
                                id == ids@[t as int],
                                tv.dom().contains(id),
                                tv[id][i as int].hours.len() == len,
                                lims@[i as int].slots() == tv[id][i as int],
                                forall|hh: int| lo <= hh < h ==> #[trigger] tv[id][i as int].hours[hh],
                            decreases lo + n - h,
                        {
                            if !lims[i].hour_at(h) {
                                assert(!tv[id][i as int].hours[h as int]);
                                assert(!tv[ids@[t as int]][i as int].free_range(lo as int, n as int));
                                assert(tv[ids@[t as int]][i as int].day == day);
                                assert(0 <= t < ids@.len() && tv.dom().contains(ids@[t as int]) && 0 <= i < tv[ids@[t as int]].len());
                                assert(!free_for(tv, ids@, day, lo as int, n as int));
                                return false;
                            }
                            h = h + 1;
                        }
                    }
                    i = i + 1;
                }
            },
            None => {
                assert(!tv.dom().contains(id));
            },
        }
        t = t + 1;
    }
    true
}

/// Sets hour `h` of day `day` to `v` in the list of every id of `ids`.
pub(crate) fn mark_slot<L: DaySlots>(m: &mut HashMap<i32, Vec<L>>, ids: &Vec<i32>, day: i32, h: usize, v: bool)
    requires
        exists|len: nat| h < len && uniform(table_view(old(m)@), len),
    ensures
        table_view(final(m)@) == mark_table(table_view(old(m)@), ids@, day, h as int, 1, v),
{
    broadcast use vstd::std_specs::hash::group_hash_axioms;
    let ghost len = choose|len: nat| h < len && uniform(table_view(old(m)@), len);
    let ghost orig = table_view(m@);
    let mut j: usize = 0;
    assert(table_view(m@) =~= mark_table(orig, ids@.take(0), day, h as int, 1, v));
    while j < ids.len()
        invariant
            j <= ids@.len(),
            h < len,
            uniform(orig, len),
            table_view(m@) == mark_table(orig, ids@.take(j as int), day, h as int, 1, v),
        decreases ids.len() - j,
    {
        let t = ids[j];
        let ghost before = m@;
        let ghost target = mark_table(orig, ids@.take(j + 1), day, h as int, 1, v);
        assert(ids@.take(j + 1) =~= ids@.take(j as int).push(t));
        assert(ids@.take(j + 1)[j as int] == t);
        assert(ids@.take(j + 1).contains(t));
        let removed = m.remove(&t);
        match removed {
            Some(mut lims) => {
                let ghost lv = list_view(lims@);
                assert(before.contains_key(t) && before[t] == lims);
                assert(lv == table_view(before)[t]);
                assert(table_view(before).dom().contains(t));
                assert(orig.dom().contains(t));
                assert(lv == (if ids@.take(j as int).contains(t) {
                    mark_list(orig[t], day, h as int, 1, v)
                } else {
                    orig[t]
                }));
                proof {
                    lemma_mark_list_shape(orig[t], day, h as int, 1, v);
                    lemma_mark_list_idem(orig[t], day, h as int, 1, v);
                }
                let ghost marked = mark_list(lv, day, h as int, 1, v);
                assert(marked == mark_list(orig[t], day, h as int, 1, v));
                let found = first_of_day(&lims, day);
                match found {
                    Some(i) => {
                        assert(lims@[i as int].slots() == lv[i as int]);
                        assert(lv[i as int].hours.len() == orig[t][i as int].hours.len());
                        assert(orig[t][i as int].hours.len() == len);
                        let mut entry = lims.remove(i);
                        entry.set_hour(h, v);
                        lims.insert(i, entry);
                        assert(list_view(lims@) =~= marked) by {
                            lemma_with_range_one(lv[i as int], h as int, v);
                        }
                    },
                    None => {
                        proof {
                            lemma_mark_list_absent(lv, day, h as int, 1, v);
                        }
                    },
                }
                let ghost lf = list_view(lims@);
                assert(lf == marked);
                let ghost mid = m@;
                m.insert(t, lims);
                assert(m@ == mid.insert(t, m@[t]));
                assert(list_view(m@[t]@) == lf);
                assert forall|k: i32| #[trigger] target.dom().contains(k) implies table_view(m@)[k] == target[k] by {
                    if k != t {
                        assert(ids@.take(j + 1).contains(k) == ids@.take(j as int).contains(k));
                        assert(orig.dom().contains(k));
                        assert(table_view(before).dom().contains(k));
                        assert(before.contains_key(k));
                        assert(m@.contains_key(k));
                        assert(m@[k] == before[k]);
                        assert(table_view(m@)[k] == list_view(m@[k]@));
                        assert(table_view(before)[k] == list_view(before[k]@));
                    } else {
                        assert(ids@.take(j + 1).contains(t));
                        assert(table_view(m@)[t] == lf);
                    }
                }
                assert(m@.dom() =~= before.dom());
                assert(table_view(m@).dom() =~= target.dom());
                assert(table_view(m@) =~= target);
            },
            None => {
                assert(!before.contains_key(t));
                assert(m@ =~= before);
                assert forall|k: i32| #[trigger] target.dom().contains(k) implies table_view(m@)[k] == target[k] by {
                    assert(k != t);
                    assert(ids@.take(j + 1).contains(k) == ids@.take(j as int).contains(k));
                }
                assert(table_view(m@) =~= target);
            },
        }
        j = j + 1;
    }
    assert(ids@.take(ids@.len() as int) =~= ids@);
}

} // verus!
verus! {

/// Whether every entry of every list of `m` has `len` hours.
pub fn table_uniform<L: DaySlots>(m: &HashMap<i32, Vec<L>>, len: usize) -> (r: bool)
    ensures
        r == uniform(table_view(m@), len as nat),
{
    let ghost items = vstd::std_specs::hash::spec_hash_map_iter(m).remaining();
    proof {
        vstd::std_specs::hash::axiom_spec_hash_map_iter(m);
    }
    let n = m.len();
    let mut ok = true;
    let mut count: usize = 0;
    for kv in it: m.iter()
        invariant
            it.seq() == items,
            n == items.len(),
            count == it.index(),
            ok == forall|j: int, i: int|
                0 <= j < count && 0 <= i < items[j].1@.len() ==> (#[trigger] items[j].1@[i]).slots().hours.len() == len,
    {
        let v = kv.1;
        let mut i: usize = 0;
        let mut all = true;
        while i < v.len()
            invariant
                i <= v@.len(),
                all == forall|x: int| 0 <= x < i ==> (#[trigger] v@[x]).slots().hours.len() == len,
            decreases v.len() - i,
        {
            if v[i].hours_len() != len {
                all = false;
            }
            i = i + 1;
        }
        ok = ok && all;
        count = count + 1;
    }
    assert(count == items.len());
    proof {
        let t = table_view(m@);
        if ok {
            assert forall|k: i32, i: int| t.dom().contains(k) && 0 <= i < t[k].len() implies (#[trigger] t[k][i]).hours.len()
                == len by {
                assert(items.contains((&k, &m@[k])));
                let j = choose|j: int| 0 <= j < items.len() && items[j] == (&k, &m@[k]);
                assert(items[j].1@[i] == m@[k]@[i]);
            }
        } else {
            let (j, i) = choose|j: int, i: int|
                0 <= j < count && 0 <= i < items[j].1@.len() && !((#[trigger] items[j].1@[i]).slots().hours.len() == len);
            let k = *items[j].0;
            assert(m@.contains_key(k) && m@[k] == *items[j].1);
            assert(t[k][i] == items[j].1@[i].slots());
        }
    }
    ok
}


/// Some entry of some list of `m` has `n` hours.
pub open spec fn has_entry_of_len(m: Map<i32, Seq<DayView>>, n: nat) -> bool {
    exists|k: i32, i: int| m.dom().contains(k) && 0 <= i < m[k].len() && (#[trigger] m[k][i]).hours.len() == n
}

/// The number of hours of some entry of `m`, when it has one.
pub fn some_entry_len<L: DaySlots>(m: &HashMap<i32, Vec<L>>) -> (r: Option<usize>)
    ensures
        match r {
            Some(n) => has_entry_of_len(table_view(m@), n as nat),
            None => forall|k: i32| #[trigger] table_view(m@).dom().contains(k) ==> table_view(m@)[k].len() == 0,
        },
{
    let ghost items = vstd::std_specs::hash::spec_hash_map_iter(m).remaining();
    proof {
        vstd::std_specs::hash::axiom_spec_hash_map_iter(m);
    }
    let n = m.len();
    let mut count: usize = 0;
    for kv in it: m.iter()
        invariant
            it.seq() == items,
            n == items.len(),
            count == it.index(),
            forall|j: int| 0 <= j < count ==> (#[trigger] items[j]).1@.len() == 0,
    {
        let v = kv.1;
        if v.len() > 0 {
            let h = v[0].hours_len();
            proof {
                let k = *kv.0;
                assert(items[count as int] == kv);
                assert(m@.contains_key(k) && m@[k] == *v);
                assert(table_view(m@)[k][0].hours.len() == h);
            }
            return Some(h);
        }
        count = count + 1;
    }
    proof {
        assert forall|k: i32| #[trigger] table_view(m@).dom().contains(k) implies table_view(m@)[k].len() == 0 by {
            assert(items.contains((&k, &m@[k])));
            let j = choose|j: int| 0 <= j < items.len() && items[j] == (&k, &m@[k]);
            assert(items[j].1@.len() == 0);
        }
    }
    None
}

} // verus!
