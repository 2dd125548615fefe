use vstd::prelude::*;
use std::collections::HashMap;
use crate::msgs::activities::{Activity, ActivityView, FullActivity};
use crate::msgs::classes::{Class, ClassLimitation};
use crate::msgs::teachers::{Teacher, TeacherLimitation};
use crate::msgs::timetables::{Params, Schedule};
use crate::booking::{
    keeps_booking, known_act, lemma_keeps_booking_refl, lemma_keeps_booking_trans, lemma_keeps_booking_same_views,
    lemma_put_act_keeps_booking, lemma_delete_act_keeps_booking, lemma_neighbour_known, lemma_act_known,
    lemma_same_acts_registry, lemma_registry_same_items,
};
use crate::slots::{
    DaySlots, DayView, table_view, list_view, is_first_of_day, mark_list, mark_table, uniform, same_shape,
    occupies, free_list, free_table, free_for, all_free, mark_slot, first_of_day, lemma_mark_table_extend,
    lemma_mark_table_zero, lemma_mark_table_shape, lemma_same_shape_uniform, lemma_same_shape_trans,
    lemma_free_table_empty, lemma_free_table_step, lemma_free_table_shape, lemma_mark_list_shape,
    table_uniform, some_entry_len, has_entry_of_len,
};
use vstd::std_specs::iter::IteratorSpec;

verus! {

broadcast use vstd::std_specs::hash::group_hash_axioms;

/// Everything the timetable generator works on: what is free for each teacher
/// (`tat`) and class (`cat`) on each day, the same before any lesson was placed
/// (`clean_tat`, `clean_cat`), the activities to place, for each activity the
/// activities with its teachers and classes (`teachers_acts`) and those that
/// share a teacher or a class with it (`neighbour_acts`), and the hours placed
/// so far (`timetables`).
#[derive(Clone)]
pub struct TimetableData {
    pub tat: Box<HashMap<i32, Vec<TeacherLimitation>>>,
    pub cat: Box<HashMap<i32, Vec<ClassLimitation>>>,
    pub clean_tat: Box<HashMap<i32, Vec<TeacherLimitation>>>,
    pub clean_cat: Box<HashMap<i32, Vec<ClassLimitation>>>,
    pub acts: Vec<Activity>,
    pub teachers_acts: HashMap<i32, Vec<FullActivity>>,
    pub neighbour_acts: HashMap<i32, HashMap<i32, Activity>>,
    pub classes: Vec<Class>,
    pub teachers: Vec<Teacher>,
    pub timetables: Box<Vec<Schedule>>,
}

/// The hours that placing `act` on day `day` from hour `hour` adds.
pub open spec fn placement(day: i32, hour: int, act: ActivityView) -> Seq<Schedule> {
    Seq::new(
        act.hour as nat,
        |k: int| Schedule { day_id: day, hour: (hour + k) as i16, activity: act.id, locked: false },
    )
}

/// `sched` without the hours of activity `id`.
pub open spec fn without_act(sched: Seq<Schedule>, id: i32) -> Seq<Schedule>
    decreases sched.len(),
{
    if sched.len() == 0 {
        sched
    } else {
        let rest = without_act(sched.drop_last(), id);
        if sched.last().activity == id {
            rest
        } else {
            rest.push(sched.last())
        }
    }
}

/// The ids of the activities that have at least one hour in `sched`.
pub open spec fn placed_ids(sched: Seq<Schedule>) -> Set<i32> {
    Set::new(|id: i32| exists|j: int| 0 <= j < sched.len() && sched[j].activity == id)
}

/// How many hours of `sched` fall on day `day` and belong to one of `ids`.
pub open spec fn count_same_day(sched: Seq<Schedule>, day: i32, ids: Seq<i32>) -> nat
    decreases sched.len(),
{
    if sched.len() == 0 {
        0
    } else {
        count_same_day(sched.drop_last(), day, ids) + if sched.last().day_id == day && ids.contains(
            sched.last().activity,
        ) {
            1nat
        } else {
            0nat
        }
    }
}

/// Some entry of the lists of `ids` in `m` is for day `d`.
pub open spec fn has_day_for(m: Map<i32, Seq<DayView>>, ids: Seq<i32>, d: i32) -> bool {
    exists|t: int, i: int|
        0 <= t < ids.len() && m.dom().contains(ids[t]) && 0 <= i < m[ids[t]].len() && #[trigger] m[ids[t]][i].day == d
}

/// The ids of a list of activities.
pub open spec fn full_ids(acts: Seq<FullActivity>) -> Seq<i32> {
    acts.map_values(|a: FullActivity| a.id)
}

impl TimetableData {
    pub open spec fn tat_view(&self) -> Map<i32, Seq<DayView>> {
        table_view(self.tat@)
    }

    pub open spec fn cat_view(&self) -> Map<i32, Seq<DayView>> {
        table_view(self.cat@)
    }

    pub open spec fn clean_tat_view(&self) -> Map<i32, Seq<DayView>> {
        table_view(self.clean_tat@)
    }

    pub open spec fn sched(&self) -> Seq<Schedule> {
        self.timetables@
    }

    /// What looking for a slot for `a` reads: its hour count is not negative,
    /// it has teachers, the first of them has limitations, and every weekday
    /// is covered by some teacher's limitations.
    pub open spec fn act_ready(&self, a: ActivityView) -> bool {
        &&& 0 <= a.hour
        &&& a.teachers.len() > 0
        &&& self.tat_view().dom().contains(a.teachers[0])
        &&& self.tat_view()[a.teachers[0]].len() > 0
        &&& forall|d: i32| 1 <= d <= 7 ==> #[trigger] has_day_for(self.tat_view(), a.teachers, d)
    }

    /// An activity that the generator can be asked to place without failing:
    /// its hour count is not negative, it has teachers, the first of them has
    /// limitations, every weekday is covered by some teacher's limitations,
    /// every teacher has clean limitations, and its neighbours are known.
    pub open spec fn act_fits(&self, a: ActivityView) -> bool {
        &&& self.act_ready(a)
        &&& forall|t: int| 0 <= t < a.teachers.len() ==> self.clean_tat_view().dom().contains(#[trigger] a.teachers[t])
        &&& self.neighbour_acts@.contains_key(a.id)
    }

    /// The data is consistent with days of `len` hours: every limitation has
    /// `len` hours, every placed hour lies inside the day, and every activity
    /// with teachers and every neighbour fits.
    ///
    /// One hour count for every limitation is what makes the generator's
    /// numbers agree: the hours tried come from the first limitation of the
    /// first teacher, the room left in a day is measured on the first
    /// teacher limitation for that day, and the checks and marks read and
    /// write every teacher's and class's limitation at those hours. With
    /// limitations of different lengths these are different numbers: hours can
    /// be placed past the end of a day, or a shorter limitation is read past
    /// its end.
    pub open spec fn wf_at(&self, len: nat) -> bool {
        &&& len <= 32767
        &&& uniform(self.tat_view(), len)
        &&& uniform(self.cat_view(), len)
        &&& uniform(self.clean_tat_view(), len)
        &&& forall|j: int| 0 <= j < self.sched().len() ==> 0 <= #[trigger] self.sched()[j].hour < len
        &&& forall|i: int|
            0 <= i < self.acts@.len() && self.acts@[i].teachers@.len() > 0 ==> self.act_fits(
                #[trigger] self.acts@[i]@,
            )
        &&& forall|k: i32, j: i32|
            self.neighbour_acts@.contains_key(k) && self.neighbour_acts@[k]@.contains_key(j)
                ==> self.act_fits(#[trigger] self.neighbour_acts@[k]@[j]@)
        &&& forall|k: i32, j: i32|
            self.neighbour_acts@.contains_key(k) && self.neighbour_acts@[k]@.contains_key(j)
                ==> (#[trigger] self.neighbour_acts@[k]@[j]).id == j
    }

    /// Every neighbour of every activity takes at least one hour.
    pub open spec fn positive(&self) -> bool {
        forall|k: i32, j: i32|
            self.neighbour_acts@.contains_key(k) && self.neighbour_acts@[k]@.contains_key(j)
                ==> (#[trigger] self.neighbour_acts@[k]@[j]).hour >= 1
    }

    /// The fields that placing and removing lessons leave alone.
    pub open spec fn same_frame(self, other: Self) -> bool {
        &&& self.clean_tat == other.clean_tat
        &&& self.clean_cat == other.clean_cat
        &&& self.acts == other.acts
        &&& self.teachers_acts == other.teachers_acts
        &&& self.neighbour_acts == other.neighbour_acts
        &&& self.classes == other.classes
        &&& self.teachers == other.teachers
    }

    /// Teachers and classes are free for `act` from `hour` on day `day`, and the
    /// day still has room for it.
    pub open spec fn spec_teachers_available(&self, act: ActivityView, hour: int, day: i32, len: nat) -> bool {
        hour + act.hour <= len && free_for(self.tat_view(), act.teachers, day, hour, act.hour as int)
    }

    pub open spec fn spec_classes_available(&self, act: ActivityView, hour: int, day: i32) -> bool {
        free_for(self.cat_view(), act.classes, day, hour, act.hour as int)
    }

    /// The rule on the hours of activities with the same teachers and classes on
    /// one day: if there are some, together with `act` they may not exceed
    /// `params.hour`, and `act` must start right after one of them or end right
    /// before one of them.
    pub open spec fn spec_same_day_available(&self, act: ActivityView, hour: int, day: i32, params: Params) -> bool {
        if self.teachers_acts@.contains_key(act.id) {
            let ids = full_ids(self.teachers_acts@[act.id]@);
            let cnt = count_same_day(self.sched(), day, ids);
            if cnt == 0 {
                true
            } else if act.hour + cnt > (params.hour as i16) {
                false
            } else {
                exists|j: int|
                    0 <= j < self.sched().len() && (#[trigger] self.sched()[j]).day_id == day && ids.contains(
                        self.sched()[j].activity,
                    ) && ((hour > 0 && self.sched()[j].hour == hour - 1) || self.sched()[j].hour == hour
                        + act.hour)
            }
        } else {
            true
        }
    }

    /// `act` can start at hour `hour` of day `day`.
    pub open spec fn slot_ok(&self, act: ActivityView, day: i32, hour: int, params: Params, len: nat) -> bool {
        &&& self.spec_teachers_available(act, hour, day, len)
        &&& self.spec_classes_available(act, hour, day)
        &&& self.spec_same_day_available(act, hour, day, params)
    }

    proof fn lemma_act_fits_frame(self, other: Self, a: ActivityView)
        requires
            self.act_fits(a),
            same_shape(self.tat_view(), other.tat_view()),
            self.same_frame(other),
        ensures
            other.act_fits(a),
    {
        assert forall|d: i32| 1 <= d <= 7 implies #[trigger] has_day_for(other.tat_view(), a.teachers, d) by {
            assert(has_day_for(self.tat_view(), a.teachers, d));
            let (t, i) = choose|t: int, i: int|
                0 <= t < a.teachers.len() && self.tat_view().dom().contains(a.teachers[t]) && 0 <= i
                    < self.tat_view()[a.teachers[t]].len() && #[trigger] self.tat_view()[a.teachers[t]][i].day
                    == d;
            assert(other.tat_view()[a.teachers[t]][i].day == d);
        }
    }

    /// Placing and removing lessons keep the data consistent.
    proof fn lemma_wf_frame(self, other: Self, len: nat)
        requires
            self.wf_at(len),
            same_shape(self.tat_view(), other.tat_view()),
            same_shape(self.cat_view(), other.cat_view()),
            self.same_frame(other),
            forall|j: int| 0 <= j < other.sched().len() ==> 0 <= #[trigger] other.sched()[j].hour < len,
        ensures
            other.wf_at(len),
    {
        lemma_same_shape_uniform(self.tat_view(), other.tat_view(), len);
        lemma_same_shape_uniform(self.cat_view(), other.cat_view(), len);
        assert forall|i: int|
            0 <= i < other.acts@.len() && other.acts@[i].teachers@.len() > 0 implies other.act_fits(
            #[trigger] other.acts@[i]@,
        ) by {
            self.lemma_act_fits_frame(other, self.acts@[i]@);
        }
        assert forall|k: i32, j: i32|
            other.neighbour_acts@.contains_key(k) && other.neighbour_acts@[k]@.contains_key(j)
                implies other.act_fits(#[trigger] other.neighbour_acts@[k]@[j]@) by {
            self.lemma_act_fits_frame(other, self.neighbour_acts@[k]@[j]@);
        }
    }
}


/// The values of a list of activities.
pub open spec fn act_views(acts: Seq<Activity>) -> Seq<ActivityView> {
    acts.map_values(|a: Activity| a@)
}

/// The activities of `acts` that have teachers and no hour in `sched`, in order.
pub open spec fn unplaced(acts: Seq<Activity>, sched: Seq<Schedule>) -> Seq<ActivityView>
    decreases acts.len(),
{
    if acts.len() == 0 {
        Seq::empty()
    } else {
        let rest = unplaced(acts.drop_last(), sched);
        if acts.last().teachers@.len() > 0 && !placed_ids(sched).contains(acts.last().id) {
            rest.push(acts.last()@)
        } else {
            rest
        }
    }
}

/// Whether activity `id` has an hour in `sched`.
fn has_hours(sched: &Vec<Schedule>, id: i32) -> (r: bool)
    ensures
        r == placed_ids(sched@).contains(id),
{
    let mut j: usize = 0;
    while j < sched.len()
        invariant
            j <= sched@.len(),
            forall|jj: int| 0 <= jj < j ==> sched@[jj].activity != id,
        decreases sched.len() - j,
    {
        if sched[j].activity == id {
            return true;
        }
        j = j + 1;
    }
    false
}

/// Whether some activity of `acts` has the id `id`.
fn has_full_id(acts: &Vec<FullActivity>, id: i32) -> (r: bool)
    ensures
        r == full_ids(acts@).contains(id),
{
    let mut j: usize = 0;
    while j < acts.len()
        invariant
            j <= acts@.len(),
            forall|jj: int| 0 <= jj < j ==> acts@[jj].id != id,
        decreases acts.len() - j,
    {
        if acts[j].id == id {
            assert(full_ids(acts@)[j as int] == id);
            return true;
        }
        j = j + 1;
    }
    assert(!full_ids(acts@).contains(id)) by {
        if full_ids(acts@).contains(id) {
            let k = choose|k: int| 0 <= k < full_ids(acts@).len() && full_ids(acts@)[k] == id;
            assert(acts@[k].id == id);
        }
    }
    false
}

/// The number of hours of every day, read from the first entry for `day` of
/// the lists of `ids`.
fn day_length<L: DaySlots>(m: &HashMap<i32, Vec<L>>, ids: &Vec<i32>, day: i32, Ghost(len): Ghost<nat>) -> (r: usize)
    requires
        uniform(table_view(m@), len),
        has_day_for(table_view(m@), ids@, day),
    ensures
        r == len,
{
    let ghost tv = table_view(m@);
    let mut t: usize = 0;
    while t < ids.len()
        invariant
            t <= ids@.len(),
            tv == table_view(m@),
            uniform(tv, len),
            has_day_for(tv, ids@, day),
            forall|tt: int, i: int|
                0 <= tt < t && tv.dom().contains(ids@[tt]) && 0 <= i < tv[ids@[tt]].len() ==> (#[trigger] tv[ids@[tt]][i]).day != day,
        decreases ids.len() - t,
    {
        match m.get(&ids[t]) {
            Some(lims) => {
                assert(tv[ids@[t as int]] == list_view(lims@));
                match first_of_day(lims, day) {
                    Some(i) => {
                        assert(lims@[i as int].slots() == tv[ids@[t as int]][i as int]);
                        return lims[i].hours_len();
                    },
                    None => {
                        assert forall|i: int| 0 <= i < tv[ids@[t as int]].len() implies (#[trigger] tv[ids@[t as int]][i]).day != day by {
                            assert(lims@[i].slots() == tv[ids@[t as int]][i]);
                        }
                    },
                }
            },
            None => {},
        }
        t = t + 1;
    }
    assert(false);
    0
}

impl TimetableData {
    /// Places `act` on day `day` from hour `hour`: adds its hours to the
    /// schedule and takes those hours from its teachers and classes.
    fn put_act(&mut self, day: i32, hour: usize, act: &Activity, Ghost(len): Ghost<nat>)
        requires
            old(self).wf_at(len),
            0 <= act.hour,
            hour + act.hour <= len,
        ensures
            final(self).wf_at(len),
            final(self).same_frame(*old(self)),
            final(self).sched() == old(self).sched() + placement(day, hour as int, act@),
            final(self).tat_view() == mark_table(old(self).tat_view(), act.teachers@, day, hour as int, act.hour as int, false),
            final(self).cat_view() == mark_table(old(self).cat_view(), act.classes@, day, hour as int, act.hour as int, false),
            same_shape(old(self).tat_view(), final(self).tat_view()),
            same_shape(old(self).cat_view(), final(self).cat_view()),
    {
        let ghost t0 = self.tat_view();
        let ghost c0 = self.cat_view();
        let ghost s0 = self.sched();
        let ghost old_self = *self;
        let n = act.hour as usize;
        let mut slot = hour;
        proof {
            lemma_mark_table_zero(t0, act.teachers@, day, hour as int, false);
            lemma_mark_table_zero(c0, act.classes@, day, hour as int, false);
            assert(placement(day, hour as int, act@).take(0) =~= Seq::<Schedule>::empty());
            assert(s0 + Seq::<Schedule>::empty() =~= s0);
        }
        while slot < hour + n
            invariant
                hour <= slot <= hour + n,
                hour + n <= len,
                n == act.hour,
                len <= 32767,
                uniform(t0, len),
                uniform(c0, len),
                self.tat_view() == mark_table(t0, act.teachers@, day, hour as int, (slot - hour) as int, false),
                self.cat_view() == mark_table(c0, act.classes@, day, hour as int, (slot - hour) as int, false),
                self.sched() == s0 + placement(day, hour as int, act@).take((slot - hour) as int),
                self.same_frame(old_self),
            decreases hour + n - slot,
        {
            let tt = Schedule { day_id: day, hour: slot as i16, activity: act.id, locked: false };
            proof {
                lemma_mark_table_shape(t0, act.teachers@, day, hour as int, (slot - hour) as int, false);
                lemma_same_shape_uniform(t0, self.tat_view(), len);
                lemma_mark_table_shape(c0, act.classes@, day, hour as int, (slot - hour) as int, false);
                lemma_same_shape_uniform(c0, self.cat_view(), len);
            }
            mark_slot(&mut self.tat, &act.teachers, day, slot, false);
            mark_slot(&mut self.cat, &act.classes, day, slot, false);
            self.timetables.push(tt);
            proof {
                lemma_mark_table_extend(t0, act.teachers@, day, hour as int, (slot - hour) as int, false);
                lemma_mark_table_extend(c0, act.classes@, day, hour as int, (slot - hour) as int, false);
                let p = placement(day, hour as int, act@);
                assert(p[(slot - hour) as int] == tt);
                assert(p.take((slot + 1 - hour) as int) =~= p.take((slot - hour) as int).push(tt));
                assert(s0 + p.take((slot + 1 - hour) as int) =~= (s0 + p.take((slot - hour) as int)).push(tt));
            }
            slot = slot + 1;
        }
        proof {
            let p = placement(day, hour as int, act@);
            assert(p.take(n as int) =~= p);
            lemma_mark_table_shape(t0, act.teachers@, day, hour as int, n as int, false);
            lemma_mark_table_shape(c0, act.classes@, day, hour as int, n as int, false);
            assert forall|j: int| 0 <= j < self.sched().len() implies 0 <= #[trigger] self.sched()[j].hour < len by {
                if j >= s0.len() {
                    assert(self.sched()[j] == p[j - s0.len()]);
                } else {
                    assert(self.sched()[j] == s0[j]);
                }
            }
            old_self.lemma_wf_frame(*self, len);
        }
    }

    /// Removes every hour of `act` from the schedule and gives those hours back
    /// to its teachers and classes.
    fn delete_activity(&mut self, act: &Activity, Ghost(len): Ghost<nat>)
        requires
            old(self).wf_at(len),
        ensures
            final(self).wf_at(len),
            final(self).same_frame(*old(self)),
            final(self).sched() == without_act(old(self).sched(), act.id),
            final(self).tat_view() == free_table(old(self).tat_view(), act.teachers@, old(self).sched(), act.id),
            final(self).cat_view() == free_table(old(self).cat_view(), act.classes@, old(self).sched(), act.id),
            same_shape(old(self).tat_view(), final(self).tat_view()),
            same_shape(old(self).cat_view(), final(self).cat_view()),
    {
        let ghost t0 = self.tat_view();
        let ghost c0 = self.cat_view();
        let ghost s0 = self.sched();
        let ghost old_self = *self;
        proof {
            lemma_free_table_empty(t0, act.teachers@, s0.take(0), act.id);
            lemma_free_table_empty(c0, act.classes@, s0.take(0), act.id);
        }
        let mut j: usize = 0;
        while j < self.timetables.len()
            invariant
                j <= s0.len(),
                self.sched() == s0,
                len <= 32767,
                uniform(t0, len),
                uniform(c0, len),
                forall|jj: int| 0 <= jj < s0.len() ==> 0 <= #[trigger] s0[jj].hour < len,
                self.tat_view() == free_table(t0, act.teachers@, s0.take(j as int), act.id),
                self.cat_view() == free_table(c0, act.classes@, s0.take(j as int), act.id),
                self.same_frame(old_self),
            decreases s0.len() - j,
        {
            let e = self.timetables[j];
            proof {
                lemma_free_table_step(t0, act.teachers@, s0, act.id, j as int);
                lemma_free_table_step(c0, act.classes@, s0, act.id, j as int);
            }
            if e.activity == act.id {
                proof {
                    lemma_free_table_shape(t0, act.teachers@, s0.take(j as int), act.id);
                    lemma_same_shape_uniform(t0, self.tat_view(), len);
                    lemma_free_table_shape(c0, act.classes@, s0.take(j as int), act.id);
                    lemma_same_shape_uniform(c0, self.cat_view(), len);
                    assert(0 <= s0[j as int].hour < len);
                }
                mark_slot(&mut self.tat, &act.teachers, e.day_id, e.hour as usize, true);
                mark_slot(&mut self.cat, &act.classes, e.day_id, e.hour as usize, true);
            }
            j = j + 1;
        }
        assert(s0.take(s0.len() as int) =~= s0);
        let mut kept: Vec<Schedule> = Vec::new();
        let mut k: usize = 0;
        assert(s0.take(0).len() == 0);
        while k < self.timetables.len()
            invariant
                k <= s0.len(),
                self.sched() == s0,
                kept@ == without_act(s0.take(k as int), act.id),
            decreases s0.len() - k,
        {
            let e = self.timetables[k];
            assert(s0.take(k + 1).drop_last() =~= s0.take(k as int));
            if e.activity != act.id {
                kept.push(e);
            }
            k = k + 1;
        }
        self.timetables = Box::new(kept);
        proof {
            lemma_free_table_shape(t0, act.teachers@, s0, act.id);
            lemma_free_table_shape(c0, act.classes@, s0, act.id);
            lemma_without_act_hours(s0, act.id, len);
            old_self.lemma_wf_frame(*self, len);
        }
    }
}


impl TimetableData {
    /// Whether the teachers of `act` are free for its hours from `hour` on day
    /// `day`, and the day is long enough.
    fn teachers_available(&self, act: &Activity, hour: usize, day: i32, Ghost(len): Ghost<nat>) -> (r: bool)
        requires
            self.wf_at(len),
            0 <= act.hour,
            hour <= len,
            has_day_for(self.tat_view(), act.teachers@, day),
        ensures
            r == self.spec_teachers_available(act@, hour as int, day, len),
    {
        let first_len = day_length(&self.tat, &act.teachers, day, Ghost(len));
        let n = act.hour as usize;
        if hour + n <= first_len {
            all_free(&self.tat, &act.teachers, day, hour, n)
        } else {
            false
        }
    }

    /// Whether the classes of `act` are free for its hours from `hour` on day
    /// `day`.
    fn classes_available(&self, act: &Activity, hour: usize, day: i32, Ghost(len): Ghost<nat>) -> (r: bool)
        requires
            self.wf_at(len),
            0 <= act.hour,
            hour + act.hour <= len,
        ensures
            r == self.spec_classes_available(act@, hour as int, day),
    {
        all_free(&self.cat, &act.classes, day, hour, act.hour as usize)
    }

    /// Whether placing `act` from `hour` on day `day` keeps the rule on the
    /// hours of activities with the same teachers and classes on one day.
    fn same_day_available(&self, act: &Activity, hour: usize, day: i32, params: &Params) -> (r: bool)
        requires
            0 <= act.hour,
            hour <= 32767,
        ensures
            r == self.spec_same_day_available(act@, hour as int, day, *params),
    {
        match self.teachers_acts.get(&act.id) {
            Some(teacher_acts) => {
                let ghost ids = full_ids(teacher_acts@);
                let ghost s = self.sched();
                let mut cnt: usize = 0;
                let mut found = false;
                let mut j: usize = 0;
                while j < self.timetables.len()
                    invariant
                        j <= s.len(),
                        s == self.sched(),
                        ids == full_ids(teacher_acts@),
                        hour <= 32767,
                        0 <= act.hour,
                        cnt == count_same_day(s.take(j as int), day, ids),
                        cnt <= j,
                        found == exists|jj: int|
                            0 <= jj < j && (#[trigger] s[jj]).day_id == day && ids.contains(s[jj].activity) && ((hour > 0
                                && s[jj].hour == hour - 1) || s[jj].hour == hour + act.hour),
                    decreases s.len() - j,
                {
                    let e = self.timetables[j];
                    assert(s.take(j + 1).drop_last() =~= s.take(j as int));
                    assert(s.take(j + 1).last() == e);
                    if e.day_id == day && has_full_id(teacher_acts, e.activity) {
                        cnt = cnt + 1;
                        if (hour > 0 && e.hour as i64 == hour as i64 - 1) || e.hour as i64 == hour as i64 + act.hour as i64 {
                            found = true;
                        }
                    }
                    j = j + 1;
                }
                assert(s.take(s.len() as int) =~= s);
                if cnt == 0 {
                    true
                } else if act.hour as i128 + cnt as i128 > (params.hour as i16) as i128 {
                    false
                } else {
                    found
                }
            },
            None => true,
        }
    }

    /// The number of hours of each day, as the generator reads it: that of the
    /// first limitation of the first teacher of `act`.
    pub open spec fn day_len(&self, act: ActivityView) -> nat {
        self.tat_view()[act.teachers[0]][0].hours.len()
    }

    /// Looks for a day and an hour at which `act` can start: the days in a
    /// random order, and in each day the hours from the first.
    pub fn find_timeslot(&self, act: &Activity, params: &Params) -> (r: Option<(i32, usize)>)
        requires
            exists|len: nat| self.wf_at(len),
            self.tat@.len() == 0 || self.act_ready(act@),
        ensures
            match r {
                Some((d, h)) => {
                    &&& self.tat@.len() > 0
                    &&& 1 <= d <= 7
                    &&& h < self.day_len(act@)
                    &&& self.slot_ok(act@, d, h as int, *params, self.day_len(act@))
                    &&& forall|h2: int| 0 <= h2 < h ==> !self.slot_ok(act@, d, h2, *params, self.day_len(act@))
                },
                None => self.tat@.len() == 0 || forall|d: i32, h: int|
                    1 <= d <= 7 && 0 <= h < self.day_len(act@) ==> !#[trigger] self.slot_ok(act@, d, h, *params, self.day_len(act@)),
            },
    {
        let ghost len = choose|len: nat| self.wf_at(len);
        let ghost orig_days = week();
        let mut days: Vec<i32> = vec![1, 2, 3, 4, 5, 6, 7];
        assert(days@ =~= orig_days);
        if self.tat.len() == 0 {
            return None;
        }
        crate::random::shuffle(&mut days);
        proof {
            crate::random::lemma_same_items_contains(days@, orig_days, 1i32);
        }
        let first = self.tat.get(&act.teachers[0]).unwrap();
        assert(list_view(first@) == self.tat_view()[act.teachers@[0]]);
        assert(first@[0].slots() == self.tat_view()[act.teachers@[0]][0]);
        let day_hours = first[0].hours_len();
        assert(day_hours == len);
        let mut k: usize = 0;
        while k < days.len()
            invariant
                k <= days@.len(),
                days@.len() == 7,
                days@.to_multiset() == orig_days.to_multiset(),
                orig_days == week(),
                day_hours == len,
                len == self.day_len(act@),
                self.wf_at(len),
                self.act_ready(act@),
                forall|kk: int, h: int|
                    0 <= kk < k && 0 <= h < len ==> !#[trigger] self.slot_ok(act@, days@[kk], h, *params, len),
            decreases days.len() - k,
        {
            let day = days[k];
            proof {
                assert(days@[k as int] == day);
                assert(days@.contains(day));
                crate::random::lemma_same_items_contains(days@, orig_days, day);
                assert(orig_days.contains(day));
                let w = choose|w: int| 0 <= w < orig_days.len() && orig_days[w] == day;
                lemma_week(0);
                assert(0 <= w < 7);
                lemma_week(w);
                assert(orig_days[w] == day);
                assert(1 <= day <= 7);
                assert(has_day_for(self.tat_view(), act.teachers@, day));
            }
            let mut hour: usize = 0;
            while hour < day_hours
                invariant
                    hour <= day_hours,
                    day_hours == len,
                    len <= 32767,
                    1 <= day <= 7,
                    day == days@[k as int],
                    k < days@.len(),
                    len == self.day_len(act@),
                    self.wf_at(len),
                    self.act_ready(act@),
                    has_day_for(self.tat_view(), act.teachers@, day),
                    forall|h: int| 0 <= h < hour ==> !#[trigger] self.slot_ok(act@, day, h, *params, len),
                decreases day_hours - hour,
            {
                if self.teachers_available(act, hour, day, Ghost(len)) && self.classes_available(act, hour, day, Ghost(len))
                    && self.same_day_available(act, hour, day, params) {
                    return Some((day, hour));
                }
                hour = hour + 1;
            }
            k = k + 1;
        }
        proof {
            assert forall|d: i32, h: int| 1 <= d <= 7 && 0 <= h < len implies !#[trigger] self.slot_ok(act@, d, h, *params, len) by {
                lemma_week(d - 1);
                assert(orig_days.contains(d));
                crate::random::lemma_same_items_contains(days@, orig_days, d);
                assert(days@.contains(d));
                let kk = choose|kk: int| 0 <= kk < days@.len() && days@[kk] == d;
                assert(!self.slot_ok(act@, days@[kk], h, *params, len));
            }
        }
        None
    }

    /// The activities that have teachers and no placed hour yet, in order.
    fn not_placed_acts(&self) -> (r: Vec<Activity>)
        ensures
            act_views(r@) == unplaced(self.acts@, self.sched()),
    {
        let mut r: Vec<Activity> = Vec::new();
        let mut i: usize = 0;
        while i < self.acts.len()
            invariant
                i <= self.acts@.len(),
                act_views(r@) == unplaced(self.acts@.take(i as int), self.sched()),
            decreases self.acts.len() - i,
        {
            let a = &self.acts[i];
            assert(self.acts@.take(i + 1).drop_last() =~= self.acts@.take(i as int));
            assert(self.acts@.take(i + 1).last() == self.acts@[i as int]);
            if a.teachers.len() > 0 && !has_hours(&self.timetables, a.id) {
                let c = a.duplicate();
                let ghost before = r@;
                r.push(c);
                assert(act_views(r@) =~= act_views(before).push(c@));
            }
            i = i + 1;
        }
        assert(self.acts@.take(self.acts@.len() as int) =~= self.acts@);
        r
    }
}

/// The ids of the activities of `nb`, other than `ignore`, that `sched` places
/// at hour `i` of day `d`, in the order of `sched`.
pub open spec fn slot_conflicts(sched: Seq<Schedule>, d: i32, i: int, ignore: i32, nb: Set<i32>) -> Seq<i32>
    decreases sched.len(),
{
    if sched.len() == 0 {
        Seq::empty()
    } else {
        let e = sched.last();
        slot_conflicts(sched.drop_last(), d, i, ignore, nb) + if e.day_id == d && e.hour == i && ignore != e.activity
            && nb.contains(e.activity) {
            seq![e.activity]
        } else {
            Seq::empty()
        }
    }
}

/// [`slot_conflicts`] of the hours `lo .. lo + n`, one hour after the other.
pub open spec fn window_conflicts(sched: Seq<Schedule>, d: i32, lo: int, n: int, ignore: i32, nb: Set<i32>) -> Seq<i32>
    decreases n,
{
    if n <= 0 {
        Seq::empty()
    } else {
        window_conflicts(sched, d, lo, n - 1, ignore, nb) + slot_conflicts(sched, d, lo + n - 1, ignore, nb)
    }
}

/// For the first `upto` starting hours of the day `e`: where `n` hours from
/// there fit in the day and are free in `e`, the activities placed there, if
/// there are any.
pub open spec fn entry_groups(e: DayView, upto: int, n: int, sched: Seq<Schedule>, ignore: i32, nb: Set<i32>) -> Seq<Seq<i32>>
    decreases upto,
{
    if upto <= 0 {
        Seq::empty()
    } else {
        let h = upto - 1;
        let w = window_conflicts(sched, e.day, h, n, ignore, nb);
        entry_groups(e, upto - 1, n, sched, ignore, nb) + if h + n <= e.hours.len() && e.free_range(h, n) && w.len() > 0 {
            seq![w]
        } else {
            Seq::empty()
        }
    }
}

/// [`entry_groups`] of every day of a list, one after the other.
pub open spec fn list_groups(es: Seq<DayView>, n: int, sched: Seq<Schedule>, ignore: i32, nb: Set<i32>) -> Seq<Seq<i32>>
    decreases es.len(),
{
    if es.len() == 0 {
        Seq::empty()
    } else {
        list_groups(es.drop_last(), n, sched, ignore, nb) + entry_groups(
            es.last(),
            es.last().hours.len() as int,
            n,
            sched,
            ignore,
            nb,
        )
    }
}

/// [`list_groups`] of the lists of `ids`, one after the other.
pub open spec fn teachers_groups(m: Map<i32, Seq<DayView>>, ids: Seq<i32>, n: int, sched: Seq<Schedule>, ignore: i32, nb: Set<i32>) -> Seq<Seq<i32>>
    decreases ids.len(),
{
    if ids.len() == 0 {
        Seq::empty()
    } else {
        teachers_groups(m, ids.drop_last(), n, sched, ignore, nb) + list_groups(m[ids.last()], n, sched, ignore, nb)
    }
}

/// `r` holds the values of `g`, each once, in increasing order.
pub open spec fn is_sorted_set_of(r: Seq<i32>, g: Seq<i32>) -> bool {
    &&& forall|i: int, j: int| 0 <= i < j < r.len() ==> r[i] < r[j]
    &&& forall|x: i32| r.contains(x) <==> g.contains(x)
}

/// The ids of a list of activities.
pub open spec fn act_ids(g: Seq<Activity>) -> Seq<i32> {
    g.map_values(|a: Activity| a.id)
}

/// The values of `g`, each once, in increasing order.
fn sorted_distinct(g: &Vec<i32>) -> (r: Vec<i32>)
    ensures
        is_sorted_set_of(r@, g@),
{
    let mut r: Vec<i32> = Vec::new();
    let mut i: usize = 0;
    while i < g.len()
        invariant
            i <= g@.len(),
            is_sorted_set_of(r@, g@.take(i as int)),
        decreases g.len() - i,
    {
        let x = g[i];
        let mut p: usize = 0;
        while p < r.len() && r[p] < x
            invariant
                p <= r@.len(),
                forall|q: int| 0 <= q < p ==> r@[q] < x,
            decreases r.len() - p,
        {
            p = p + 1;
        }
        let ghost before = r@;
        assert(g@.take(i + 1) =~= g@.take(i as int).push(x));
        if p < r.len() && r[p] == x {
            assert forall|y: i32| r@.contains(y) <==> g@.take(i + 1).contains(y) by {
                if g@.take(i + 1).contains(y) && y != x {
                    let gi = g@.take(i + 1);
                    let w = choose|w: int| 0 <= w < gi.len() && gi[w] == y;
                    assert(g@.take(i as int)[w] == y);
                }
                if y == x {
                    assert(g@.take(i + 1)[i as int] == x);
                }
            }
        } else {
            r.insert(p, x);
            assert forall|a: int, b: int| 0 <= a < b < r@.len() implies r@[a] < r@[b] by {
                if b < p {
                } else if a < p && b == p {
                } else if a < p {
                    assert(r@[b] == before[b - 1]);
                    if p < before.len() {
                        assert(before[p as int] > x);
                    }
                } else if a == p {
                    assert(r@[b] == before[b - 1]);
                    assert(before[p as int] > x);
                    if b - 1 > p {
                        assert(before[p as int] < before[b - 1]);
                    }
                } else {
                    assert(r@[a] == before[a - 1]);
                    assert(r@[b] == before[b - 1]);
                }
            }
            assert forall|y: i32| r@.contains(y) <==> g@.take(i + 1).contains(y) by {
                let gi = g@.take(i + 1);
                let g0 = g@.take(i as int);
                if r@.contains(y) {
                    let w = choose|w: int| 0 <= w < r@.len() && r@[w] == y;
                    if w != p {
                        if w < p {
                            assert(before[w] == y);
                        } else {
                            assert(before[w - 1] == y);
                        }
                        assert(before.contains(y));
                        assert(g0.contains(y));
                        let v = choose|v: int| 0 <= v < g0.len() && g0[v] == y;
                        assert(gi[v] == y);
                    } else {
                        assert(gi[i as int] == x);
                    }
                }
                if gi.contains(y) {
                    let w = choose|w: int| 0 <= w < gi.len() && gi[w] == y;
                    if w < i {
                        assert(g0[w] == y);
                        assert(before.contains(y));
                        let v = choose|v: int| 0 <= v < before.len() && before[v] == y;
                        if v < p {
                            assert(r@[v] == y);
                        } else {
                            assert(r@[v + 1] == y);
                        }
                    } else {
                        assert(r@[p as int] == x);
                    }
                }
            }
        }
        i = i + 1;
    }
    assert(g@.take(g@.len() as int) =~= g@);
    r
}

/// The values of a list of lists of ids.
pub open spec fn id_lists(gs: Seq<Vec<i32>>) -> Seq<Seq<i32>> {
    gs.map_values(|g: Vec<i32>| g@)
}

/// Whether the hours `lo .. lo + n` of `l` are all free.
fn range_free<L: DaySlots>(l: &L, lo: usize, n: usize) -> (r: bool)
    requires
        lo + n <= l.slots().hours.len(),
        lo + n <= usize::MAX,
    ensures
        r == l.slots().free_range(lo as int, n as int),
{
    let mut h = lo;
    while h < lo + n
        invariant
            lo <= h <= lo + n,
            lo + n <= l.slots().hours.len(),
            lo + n <= usize::MAX,
            forall|hh: int| lo <= hh < h ==> #[trigger] l.slots().hours[hh],
        decreases lo + n - h,
    {
        if !l.hour_at(h) {
            return false;
        }
        h = h + 1;
    }
    true
}

impl TimetableData {
    /// The neighbours of `act`: the activities that share a teacher or a class
    /// with it.
    pub open spec fn neighbours_of(&self, act: ActivityView) -> Map<i32, Activity> {
        self.neighbour_acts@[act.id]@
    }

    /// The conflicts of `act`, before any shuffling: for each clean limitation of
    /// each of its teachers and each hour from which `act` would fit into it,
    /// the neighbours of `act` (other than `ignore`) placed in those hours, when
    /// there are some.
    pub open spec fn conflict_groups(&self, act: ActivityView, ignore: i32) -> Seq<Seq<i32>> {
        teachers_groups(
            self.clean_tat_view(),
            act.teachers,
            act.hour as int,
            self.sched(),
            ignore,
            self.neighbours_of(act).dom(),
        )
    }

    /// The ids of the activities of `nb`, other than `ignore`, placed in the
    /// hours `lo .. lo + n` of day `day`.
    fn window_ids(&self, day: i32, lo: usize, n: usize, ignore: i32, nb: &HashMap<i32, Activity>) -> (r: Vec<i32>)
        requires
            lo + n <= usize::MAX,
        ensures
            r@ == window_conflicts(self.sched(), day, lo as int, n as int, ignore, nb@.dom()),
    {
        let ghost s = self.sched();
        let mut r: Vec<i32> = Vec::new();
        let mut i = lo;
        assert(r@ =~= window_conflicts(s, day, lo as int, 0, ignore, nb@.dom()));
        while i < lo + n
            invariant
                lo <= i <= lo + n,
                lo + n <= usize::MAX,
                s == self.sched(),
                r@ == window_conflicts(s, day, lo as int, (i - lo) as int, ignore, nb@.dom()),
            decreases lo + n - i,
        {
            let ghost base = r@;
            let mut j: usize = 0;
            assert(s.take(0) =~= Seq::<Schedule>::empty());
            assert(base + slot_conflicts(s.take(0), day, i as int, ignore, nb@.dom()) =~= base);
            while j < self.timetables.len()
                invariant
                    j <= s.len(),
                    s == self.sched(),
                    r@ == base + slot_conflicts(s.take(j as int), day, i as int, ignore, nb@.dom()),
                decreases s.len() - j,
            {
                let e = self.timetables[j];
                assert(s.take(j + 1).drop_last() =~= s.take(j as int));
                assert(s.take(j + 1).last() == e);
                let ghost prev = r@;
                if e.day_id == day && e.hour as i128 == i as i128 && ignore != e.activity && nb.contains_key(&e.activity) {
                    r.push(e.activity);
                    assert(r@ =~= base + slot_conflicts(s.take(j + 1), day, i as int, ignore, nb@.dom()));
                } else {
                    assert(r@ =~= base + slot_conflicts(s.take(j + 1), day, i as int, ignore, nb@.dom()));
                }
                j = j + 1;
            }
            assert(s.take(s.len() as int) =~= s);
            assert(r@ =~= window_conflicts(s, day, lo as int, (i + 1 - lo) as int, ignore, nb@.dom()));
            i = i + 1;
        }
        r
    }

    /// The activities placed where `act` could go if they were not there: for
    /// each free window of a teacher of `act` that `act` fits into, its placed
    /// neighbours (other than `ignores`), without repetition and by id. The
    /// groups come in a random order; at most `params.depth` of them are kept.
    fn find_conflict_activity(&self, act: &Activity, ignores: &Activity, params: &Params) -> (r: Vec<Vec<Activity>>)
        requires
            0 <= act.hour,
            self.neighbour_acts@.contains_key(act.id),
            forall|j: i32| #[trigger] self.neighbours_of(act@).contains_key(j) ==> self.neighbours_of(act@)[j].id == j,
            forall|t: int| 0 <= t < act.teachers@.len() ==> self.clean_tat_view().dom().contains(#[trigger] act.teachers@[t]),
        ensures
            ({
                let g = self.conflict_groups(act@, ignores.id);
                let nb = self.neighbours_of(act@);
                exists|sh: Seq<Seq<i32>>| {
                    &&& sh.to_multiset() == g.to_multiset()
                    &&& r@.len() == (if g.len() >= params.depth { params.depth as int } else { g.len() as int })
                    &&& forall|k: int| 0 <= k < r@.len() ==> is_sorted_set_of(act_ids(#[trigger] r@[k]@), sh[k])
                    &&& forall|k: int, m: int|
                        0 <= k < r@.len() && 0 <= m < r@[k]@.len() ==> nb.contains_key(r@[k]@[m].id) && (#[trigger] r@[k]@[m])@
                            == nb[r@[k]@[m].id]@
                }
            }),
    {
        let activities = self.neighbour_acts.get(&act.id).unwrap();
        let ghost nb = activities@;
        let ghost ctv = self.clean_tat_view();
        let ghost s = self.sched();
        let n = act.hour as usize;
        let mut groups: Vec<Vec<i32>> = Vec::new();
        let mut t: usize = 0;
        assert(id_lists(groups@) =~= teachers_groups(ctv, act.teachers@.take(0), n as int, s, ignores.id, nb.dom()));
        while t < act.teachers.len()
            invariant
                t <= act.teachers@.len(),
                n == act.hour,
                nb == self.neighbours_of(act@),
                nb == activities@,
                ctv == self.clean_tat_view(),
                s == self.sched(),
                forall|tt: int| 0 <= tt < act.teachers@.len() ==> ctv.dom().contains(#[trigger] act.teachers@[tt]),
                id_lists(groups@) == teachers_groups(ctv, act.teachers@.take(t as int), n as int, s, ignores.id, nb.dom()),
                forall|k: int, m: int| 0 <= k < groups@.len() && 0 <= m < groups@[k]@.len() ==> nb.contains_key(#[trigger] groups@[k]@[m]),
            decreases act.teachers.len() - t,
        {
            let tid = act.teachers[t];
            let lims = self.clean_tat.get(&tid).unwrap();
            let ghost lv = list_view(lims@);
            assert(lv == ctv[tid]);
            let ghost tg = id_lists(groups@);
            assert(act.teachers@.take(t + 1).drop_last() =~= act.teachers@.take(t as int));
            assert(act.teachers@.take(t + 1).last() == tid);
            let mut e: usize = 0;
            assert(lv.take(0) =~= Seq::<DayView>::empty());
            assert(id_lists(groups@) =~= tg + list_groups(lv.take(0), n as int, s, ignores.id, nb.dom()));
            while e < lims.len()
                invariant
                    e <= lv.len(),
                    lv == list_view(lims@),
                    n == act.hour,
                    nb == activities@,
                    s == self.sched(),
                    id_lists(groups@) == tg + list_groups(lv.take(e as int), n as int, s, ignores.id, nb.dom()),
                    forall|k: int, m: int| 0 <= k < groups@.len() && 0 <= m < groups@[k]@.len() ==> nb.contains_key(#[trigger] groups@[k]@[m]),
                decreases lv.len() - e,
            {
                let ghost ev = lv[e as int];
                assert(lims@[e as int].slots() == ev);
                let ghost eg = id_lists(groups@);
                let hl = lims[e].hours_len();
                let day = lims[e].day_of();
                let mut h: usize = 0;
                assert(id_lists(groups@) =~= eg + entry_groups(ev, 0, n as int, s, ignores.id, nb.dom()));
                while h < hl
                    invariant
                        h <= hl,
                        hl == ev.hours.len(),
                        day == ev.day,
                        ev == lims@[e as int].slots(),
                        e < lims@.len(),
                        n == act.hour,
                        nb == activities@,
                        s == self.sched(),
                        id_lists(groups@) == eg + entry_groups(ev, h as int, n as int, s, ignores.id, nb.dom()),
                        forall|k: int, m: int| 0 <= k < groups@.len() && 0 <= m < groups@[k]@.len() ==> nb.contains_key(#[trigger] groups@[k]@[m]),
                    decreases hl - h,
                {
                    let ghost before = groups@;
                    let ghost w = window_conflicts(s, day, h as int, n as int, ignores.id, nb.dom());
                    if n <= hl - h && range_free(&lims[e], h, n) {
                        let ids = self.window_ids(day, h, n, ignores.id, activities);
                        assert(ids@ == w);
                        if ids.len() > 0 {
                            proof {
                                lemma_window_in(s, day, h as int, n as int, ignores.id, nb.dom());
                            }
                            groups.push(ids);
                            assert(id_lists(groups@) =~= id_lists(before).push(w));
                        }
                    }
                    assert(id_lists(groups@) =~= eg + entry_groups(ev, h + 1, n as int, s, ignores.id, nb.dom()));
                    h = h + 1;
                }
                assert(lv.take(e + 1).drop_last() =~= lv.take(e as int));
                assert(lv.take(e + 1).last() == ev);
                assert(id_lists(groups@) =~= tg + list_groups(lv.take(e + 1), n as int, s, ignores.id, nb.dom()));
                e = e + 1;
            }
            assert(lv.take(lv.len() as int) =~= lv);
            assert(id_lists(groups@) =~= teachers_groups(ctv, act.teachers@.take(t + 1), n as int, s, ignores.id, nb.dom()));
            t = t + 1;
        }
        assert(act.teachers@.take(act.teachers@.len() as int) =~= act.teachers@);
        let ghost unshuffled = groups@;
        crate::random::shuffle(&mut groups);
        proof {
            crate::random::lemma_same_items_map(groups@, unshuffled, |g: Vec<i32>| g@);
            assert forall|k: int, m: int| 0 <= k < groups@.len() && 0 <= m < groups@[k]@.len() implies nb.contains_key(#[trigger] groups@[k]@[m]) by {
                assert(groups@.contains(groups@[k]));
                crate::random::lemma_same_items_contains(groups@, unshuffled, groups@[k]);
                let kk = choose|kk: int| 0 <= kk < unshuffled.len() && unshuffled[kk] == groups@[k];
                assert(nb.contains_key(unshuffled[kk]@[m]));
            }
            crate::random::lemma_same_items_contains(groups@, unshuffled, groups@[0]);
        }
        let keep = if groups.len() >= params.depth { params.depth } else { groups.len() };
        let mut r: Vec<Vec<Activity>> = Vec::new();
        let mut k: usize = 0;
        while k < keep
            invariant
                k <= keep,
                keep <= groups@.len(),
                nb == activities@,
                forall|kk: int, m: int| 0 <= kk < groups@.len() && 0 <= m < groups@[kk]@.len() ==> nb.contains_key(#[trigger] groups@[kk]@[m]),
                r@.len() == k,
                forall|kk: int| 0 <= kk < k ==> is_sorted_set_of(act_ids(#[trigger] r@[kk]@), groups@[kk]@),
                forall|kk: int, m: int|
                    0 <= kk < k && 0 <= m < r@[kk]@.len() ==> nb.contains_key(r@[kk]@[m].id) && (#[trigger] r@[kk]@[m])@
                        == nb[r@[kk]@[m].id]@,
                nb == self.neighbours_of(act@),
                forall|j: i32| #[trigger] nb.contains_key(j) ==> nb[j].id == j,
            decreases keep - k,
        {
            let ids = sorted_distinct(&groups[k]);
            assert(nb == self.neighbours_of(act@));
            let mut group: Vec<Activity> = Vec::new();
            let mut m: usize = 0;
            while m < ids.len()
                invariant
                    m <= ids@.len(),
                    is_sorted_set_of(ids@, groups@[k as int]@),
                    k < groups@.len(),
                    nb == activities@,
                    forall|mm: int| 0 <= mm < groups@[k as int]@.len() ==> nb.contains_key(#[trigger] groups@[k as int]@[mm]),
                    act_ids(group@) == ids@.take(m as int),
                    forall|j: i32| #[trigger] nb.contains_key(j) ==> nb[j].id == j,
                    forall|mm: int| 0 <= mm < m ==> nb.contains_key(group@[mm].id) && (#[trigger] group@[mm])@ == nb[group@[mm].id]@,
                decreases ids.len() - m,
            {
                let id = ids[m];
                assert(ids@.contains(id)) by {
                    assert(ids@[m as int] == id);
                }
                proof {
                    assert(groups@[k as int]@.contains(id));
                    let w = choose|w: int| 0 <= w < groups@[k as int]@.len() && groups@[k as int]@[w] == id;
                    assert(nb.contains_key(groups@[k as int]@[w]));
                }
                let found = activities.get(&id).unwrap();
                let a = found.duplicate();
                assert(a.id == id);
                let ghost gb = group@;
                group.push(a);
                assert(act_ids(group@) =~= act_ids(gb).push(id));
                assert(ids@.take(m + 1) =~= ids@.take(m as int).push(id));
                assert(act_ids(group@) =~= ids@.take(m + 1));
                m = m + 1;
            }
            assert(ids@.take(ids@.len() as int) =~= ids@);
            r.push(group);
            k = k + 1;
        }
        proof {
            let sh = id_lists(groups@);
            assert forall|kk: int| 0 <= kk < r@.len() implies is_sorted_set_of(act_ids(#[trigger] r@[kk]@), sh[kk]) by {
                assert(sh[kk] == groups@[kk]@);
            }
            assert(sh.len() == unshuffled.len());
        }
        r
    }
}

/// Every id in a window of conflicts is one of `nb`.
proof fn lemma_window_in(s: Seq<Schedule>, d: i32, lo: int, n: int, ignore: i32, nb: Set<i32>)
    ensures
        forall|m: int| 0 <= m < window_conflicts(s, d, lo, n, ignore, nb).len() ==> nb.contains(#[trigger] window_conflicts(s, d, lo, n, ignore, nb)[m]),
    decreases n,
{
    if n > 0 {
        lemma_window_in(s, d, lo, n - 1, ignore, nb);
        lemma_slot_in(s, d, lo + n - 1, ignore, nb);
        let a = window_conflicts(s, d, lo, n - 1, ignore, nb);
        let b = slot_conflicts(s, d, lo + n - 1, ignore, nb);
        assert forall|m: int| 0 <= m < (a + b).len() implies nb.contains(#[trigger] (a + b)[m]) by {
            if m < a.len() {
                assert((a + b)[m] == a[m]);
            } else {
                assert((a + b)[m] == b[m - a.len()]);
            }
        }
    }
}

proof fn lemma_slot_in(s: Seq<Schedule>, d: i32, i: int, ignore: i32, nb: Set<i32>)
    ensures
        forall|m: int| 0 <= m < slot_conflicts(s, d, i, ignore, nb).len() ==> nb.contains(#[trigger] slot_conflicts(s, d, i, ignore, nb)[m]),
    decreases s.len(),
{
    if s.len() > 0 {
        lemma_slot_in(s.drop_last(), d, i, ignore, nb);
        let a = slot_conflicts(s.drop_last(), d, i, ignore, nb);
        let e = s.last();
        let b: Seq<i32> = if e.day_id == d && e.hour == i && ignore != e.activity && nb.contains(e.activity) {
            seq![e.activity]
        } else {
            Seq::empty()
        };
        assert forall|m: int| 0 <= m < (a + b).len() implies nb.contains(#[trigger] (a + b)[m]) by {
            if m < a.len() {
                assert((a + b)[m] == a[m]);
            } else {
                assert((a + b)[m] == b[m - a.len()]);
            }
        }
    }
}

/// Removing an activity removes exactly its id from the placed ones.
proof fn lemma_placed_without(s: Seq<Schedule>, id: i32)
    ensures
        placed_ids(without_act(s, id)) == placed_ids(s).remove(id),
    decreases s.len(),
{
    if s.len() > 0 {
        lemma_placed_without(s.drop_last(), id);
        let rest = without_act(s.drop_last(), id);
        assert forall|x: i32| placed_ids(without_act(s, id)).contains(x) <==> placed_ids(s).remove(id).contains(x) by {
            if placed_ids(s).remove(id).contains(x) {
                let j = choose|j: int| 0 <= j < s.len() && s[j].activity == x;
                if j < s.len() - 1 {
                    assert(s.drop_last()[j].activity == x);
                    assert(placed_ids(rest).contains(x));
                    let w = choose|w: int| 0 <= w < rest.len() && rest[w].activity == x;
                    if s.last().activity != id {
                        assert(rest.push(s.last())[w] == rest[w]);
                    }
                } else {
                    assert(s.last().activity == x);
                    assert(rest.push(s.last())[rest.len() as int] == s.last());
                }
            }
            if placed_ids(without_act(s, id)).contains(x) {
                let w = choose|w: int| 0 <= w < without_act(s, id).len() && without_act(s, id)[w].activity == x;
                if s.last().activity == id || w < rest.len() {
                    if s.last().activity != id {
                        assert(rest.push(s.last())[w] == rest[w]);
                    }
                    assert(placed_ids(rest).contains(x));
                    let j = choose|j: int| 0 <= j < s.drop_last().len() && s.drop_last()[j].activity == x && x != id;
                    assert(s[j].activity == x);
                } else {
                    assert(s[s.len() - 1].activity == x);
                }
            }
        }
        assert(placed_ids(without_act(s, id)) =~= placed_ids(s).remove(id));
    } else {
        assert(placed_ids(without_act(s, id)) =~= placed_ids(s).remove(id));
    }
}

/// Placing an activity of at least one hour adds exactly its id to the placed ones.
proof fn lemma_placed_placement(s: Seq<Schedule>, day: i32, hour: int, a: ActivityView)
    requires
        a.hour >= 1,
    ensures
        placed_ids(s + placement(day, hour, a)) == placed_ids(s).insert(a.id),
{
    let p = placement(day, hour, a);
    assert forall|x: i32| placed_ids(s + p).contains(x) <==> placed_ids(s).insert(a.id).contains(x) by {
        if placed_ids(s + p).contains(x) {
            let j = choose|j: int| 0 <= j < (s + p).len() && (s + p)[j].activity == x;
            if j < s.len() {
                assert(s[j].activity == x);
            }
        }
        if placed_ids(s).insert(a.id).contains(x) {
            if x == a.id {
                assert((s + p)[s.len() as int] == p[0]);
            } else {
                let j = choose|j: int| 0 <= j < s.len() && s[j].activity == x;
                assert((s + p)[j] == s[j]);
            }
        }
    }
    assert(placed_ids(s + p) =~= placed_ids(s).insert(a.id));
}

/// Placing an activity adds at most its id to the placed ones.
proof fn lemma_placed_placement_sub(s: Seq<Schedule>, day: i32, hour: int, a: ActivityView)
    ensures
        placed_ids(s + placement(day, hour, a)).subset_of(placed_ids(s).insert(a.id)),
{
    let p = placement(day, hour, a);
    assert forall|x: i32| placed_ids(s + p).contains(x) implies placed_ids(s).insert(a.id).contains(x) by {
        let j = choose|j: int| 0 <= j < (s + p).len() && (s + p)[j].activity == x;
        if j < s.len() {
            assert(s[j].activity == x);
        }
    }
}

/// Every conflict found is an activity with placed hours.
proof fn lemma_slot_placed(s: Seq<Schedule>, d: i32, i: int, ignore: i32, nb: Set<i32>)
    ensures
        forall|m: int| 0 <= m < slot_conflicts(s, d, i, ignore, nb).len() ==> placed_ids(s).contains(#[trigger] slot_conflicts(s, d, i, ignore, nb)[m]),
    decreases s.len(),
{
    if s.len() > 0 {
        lemma_slot_placed(s.drop_last(), d, i, ignore, nb);
        let a = slot_conflicts(s.drop_last(), d, i, ignore, nb);
        let e = s.last();
        let b: Seq<i32> = if e.day_id == d && e.hour == i && ignore != e.activity && nb.contains(e.activity) {
            seq![e.activity]
        } else {
            Seq::empty()
        };
        assert forall|m: int| 0 <= m < (a + b).len() implies placed_ids(s).contains(#[trigger] (a + b)[m]) by {
            if m < a.len() {
                assert((a + b)[m] == a[m]);
                let j = choose|j: int| 0 <= j < s.drop_last().len() && s.drop_last()[j].activity == a[m];
                assert(s[j].activity == a[m]);
            } else {
                assert((a + b)[m] == b[m - a.len()]);
                assert(s[s.len() - 1].activity == e.activity);
            }
        }
    }
}

proof fn lemma_window_placed(s: Seq<Schedule>, d: i32, lo: int, n: int, ignore: i32, nb: Set<i32>)
    ensures
        forall|m: int| 0 <= m < window_conflicts(s, d, lo, n, ignore, nb).len() ==> placed_ids(s).contains(#[trigger] window_conflicts(s, d, lo, n, ignore, nb)[m]),
    decreases n,
{
    if n > 0 {
        lemma_window_placed(s, d, lo, n - 1, ignore, nb);
        lemma_slot_placed(s, d, lo + n - 1, ignore, nb);
        let a = window_conflicts(s, d, lo, n - 1, ignore, nb);
        let b = slot_conflicts(s, d, lo + n - 1, ignore, nb);
        assert forall|m: int| 0 <= m < (a + b).len() implies placed_ids(s).contains(#[trigger] (a + b)[m]) by {
            if m < a.len() {
                assert((a + b)[m] == a[m]);
            } else {
                assert((a + b)[m] == b[m - a.len()]);
            }
        }
    }
}

/// All groups of a sequence of groups consist of placed activities.
pub open spec fn all_placed(gs: Seq<Seq<i32>>, s: Seq<Schedule>) -> bool {
    forall|k: int, m: int| 0 <= k < gs.len() && 0 <= m < gs[k].len() ==> placed_ids(s).contains(#[trigger] gs[k][m])
}

proof fn lemma_all_placed_concat(a: Seq<Seq<i32>>, b: Seq<Seq<i32>>, s: Seq<Schedule>)
    requires
        all_placed(a, s),
        all_placed(b, s),
    ensures
        all_placed(a + b, s),
{
    assert forall|k: int, m: int| 0 <= k < (a + b).len() && 0 <= m < (a + b)[k].len() implies placed_ids(s).contains(#[trigger] (a + b)[k][m]) by {
        if k < a.len() {
            assert((a + b)[k] == a[k]);
        } else {
            assert((a + b)[k] == b[k - a.len()]);
        }
    }
}

proof fn lemma_entry_groups_placed(e: DayView, upto: int, n: int, s: Seq<Schedule>, ignore: i32, nb: Set<i32>)
    ensures
        all_placed(entry_groups(e, upto, n, s, ignore, nb), s),
    decreases upto,
{
    if upto > 0 {
        lemma_entry_groups_placed(e, upto - 1, n, s, ignore, nb);
        let h = upto - 1;
        let w = window_conflicts(s, e.day, h, n, ignore, nb);
        lemma_window_placed(s, e.day, h, n, ignore, nb);
        let b: Seq<Seq<i32>> = if h + n <= e.hours.len() && e.free_range(h, n) && w.len() > 0 {
            seq![w]
        } else {
            Seq::empty()
        };
        assert(all_placed(b, s)) by {
            assert forall|k: int, m: int| 0 <= k < b.len() && 0 <= m < b[k].len() implies placed_ids(s).contains(#[trigger] b[k][m]) by {
                assert(b[k] == w);
            }
        }
        lemma_all_placed_concat(entry_groups(e, upto - 1, n, s, ignore, nb), b, s);
    }
}

proof fn lemma_list_groups_placed(es: Seq<DayView>, n: int, s: Seq<Schedule>, ignore: i32, nb: Set<i32>)
    ensures
        all_placed(list_groups(es, n, s, ignore, nb), s),
    decreases es.len(),
{
    if es.len() > 0 {
        lemma_list_groups_placed(es.drop_last(), n, s, ignore, nb);
        lemma_entry_groups_placed(es.last(), es.last().hours.len() as int, n, s, ignore, nb);
        lemma_all_placed_concat(
            list_groups(es.drop_last(), n, s, ignore, nb),
            entry_groups(es.last(), es.last().hours.len() as int, n, s, ignore, nb),
            s,
        );
    }
}

proof fn lemma_teachers_groups_placed(m: Map<i32, Seq<DayView>>, ids: Seq<i32>, n: int, s: Seq<Schedule>, ignore: i32, nb: Set<i32>)
    ensures
        all_placed(teachers_groups(m, ids, n, s, ignore, nb), s),
    decreases ids.len(),
{
    if ids.len() > 0 {
        lemma_teachers_groups_placed(m, ids.drop_last(), n, s, ignore, nb);
        lemma_list_groups_placed(m[ids.last()], n, s, ignore, nb);
        lemma_all_placed_concat(
            teachers_groups(m, ids.drop_last(), n, s, ignore, nb),
            list_groups(m[ids.last()], n, s, ignore, nb),
            s,
        );
    }
}

/// Whether `a` may stay before `x` in a list sorted by hour.
fn stays_before(a: &Activity, x: &Activity, descending: bool) -> (r: bool)
    ensures
        r == if descending { a.hour >= x.hour } else { a.hour <= x.hour },
{
    if descending {
        a.hour >= x.hour
    } else {
        a.hour <= x.hour
    }
}

/// `v` sorted by hour, increasing or decreasing; activities with the same hour
/// keep their order.
fn sort_by_hour(v: Vec<Activity>, descending: bool) -> (r: Vec<Activity>)
    ensures
        r@.to_multiset() == v@.to_multiset(),
        forall|i: int, j: int|
            0 <= i < j < r@.len() ==> if descending {
                r@[i].hour >= r@[j].hour
            } else {
                r@[i].hour <= r@[j].hour
            },
{
    broadcast use vstd::seq_lib::group_to_multiset_ensures;

    let ghost orig = v@;
    let mut v = v;
    let mut r: Vec<Activity> = Vec::new();
    while v.len() > 0
        invariant
            r@.to_multiset().add(v@.to_multiset()) == orig.to_multiset(),
            forall|i: int, j: int|
                0 <= i < j < r@.len() ==> if descending {
                    r@[i].hour >= r@[j].hour
                } else {
                    r@[i].hour <= r@[j].hour
                },
        decreases v.len(),
    {
        let ghost vb = v@;
        let x = v.remove(0);
        proof {
            vstd::seq_lib::to_multiset_remove(vb, 0);
        }
        let mut p: usize = 0;
        while p < r.len() && stays_before(&r[p], &x, descending)
            invariant
                p <= r@.len(),
                forall|q: int| 0 <= q < p ==> if descending { r@[q].hour >= x.hour } else { r@[q].hour <= x.hour },
            decreases r.len() - p,
        {
            p = p + 1;
        }
        let ghost rb = r@;
        r.insert(p, x);
        proof {
            vstd::seq_lib::to_multiset_insert(rb, p as int, x);
        }
        assert forall|i: int, j: int| 0 <= i < j < r@.len() implies (if descending {
            r@[i].hour >= r@[j].hour
        } else {
            r@[i].hour <= r@[j].hour
        }) by {
            if j < p {
            } else if j == p {
            } else if i < p {
                assert(r@[j] == rb[j - 1]);
            } else if i == p {
                assert(r@[j] == rb[j - 1]);
                assert(rb[p as int] == r@[p + 1]);
            } else {
                assert(r@[i] == rb[i - 1]);
                assert(r@[j] == rb[j - 1]);
            }
        }
        assert(vb.to_multiset().count(x) > 0) by {
            assert(vb.contains(x)) by {
                assert(vb[0] == x);
            }
            vb.to_multiset_ensures();
        }
        assert(r@.to_multiset().add(v@.to_multiset()) =~= orig.to_multiset());
    }
    assert(v@.to_multiset() =~= vstd::multiset::Multiset::empty());
    r
}

/// The ids of a list of activities, as a set.
pub open spec fn id_set(g: Seq<Activity>) -> Set<i32> {
    Set::new(|x: i32| exists|m: int| 0 <= m < g.len() && g[m].id == x)
}

/// A copy of a list of placed hours.
fn copy_schedules(v: &Vec<Schedule>) -> (r: Vec<Schedule>)
    ensures
        r@ == v@,
{
    let mut r: Vec<Schedule> = Vec::new();
    let mut i: usize = 0;
    while i < v.len()
        invariant
            i <= v@.len(),
            r@ == v@.take(i as int),
        decreases v.len() - i,
    {
        r.push(v[i]);
        assert(v@.take(i + 1) =~= v@.take(i as int).push(v@[i as int]));
        i = i + 1;
    }
    assert(v@.take(v@.len() as int) =~= v@);
    r
}

proof fn lemma_id_set_same_items(a: Seq<Activity>, b: Seq<Activity>)
    requires
        a.to_multiset() == b.to_multiset(),
    ensures
        id_set(a) == id_set(b),
{
    assert forall|x: i32| id_set(a).contains(x) implies id_set(b).contains(x) by {
        let m = choose|m: int| 0 <= m < a.len() && a[m].id == x;
        assert(a.contains(a[m]));
        crate::random::lemma_same_items_contains(a, b, a[m]);
        let w = choose|w: int| 0 <= w < b.len() && b[w] == a[m];
        assert(b[w].id == x);
    }
    assert forall|x: i32| id_set(b).contains(x) implies id_set(a).contains(x) by {
        let m = choose|m: int| 0 <= m < b.len() && b[m].id == x;
        assert(b.contains(b[m]));
        crate::random::lemma_same_items_contains(a, b, b[m]);
        let w = choose|w: int| 0 <= w < a.len() && a[w] == b[m];
        assert(a[w].id == x);
    }
    assert(id_set(a) =~= id_set(b));
}

impl TimetableData {
    /// Every activity of `g` is the neighbour of `nb` with its id, and has
    /// hours in the schedule `placed` stands for.
    pub open spec fn group_ok(&self, g: Seq<Activity>, nb: Map<i32, Activity>, placed: Set<i32>) -> bool {
        forall|m: int|
            0 <= m < g.len() ==> nb.contains_key(#[trigger] g[m].id) && g[m]@ == nb[g[m].id]@ && placed.contains(g[m].id)
    }

    /// Tries to place `act` by moving activities out of its way. For each group
    /// of conflicting activities (in a random order): removes the group, then
    /// places the group's activities (shortest last) and `act` (first), each at
    /// a free slot, or, while `depth` is below `params.depth2`, by moving others
    /// out of its way in turn. At the first group for which that works, stops;
    /// otherwise the data is put back as it was.
    fn recursive_put(&mut self, act: &Activity, depth: usize, ignores: &Activity, params: &Params, Ghost(len): Ghost<nat>) -> (r: bool)
        requires
            old(self).wf_at(len),
            old(self).act_fits(act@),
            known_act(*old(self), act@),
        ensures
            final(self).wf_at(len),
            final(self).same_frame(*old(self)),
            keeps_booking(*old(self), *final(self)),
            params.depth == 0 || old(self).conflict_groups(act@, ignores.id).len() == 0 ==> !r,
            !r ==> final(self).sched() == old(self).sched() && final(self).tat_view() == old(self).tat_view()
                && final(self).cat_view() == old(self).cat_view(),
            r && act.hour >= 1 && old(self).positive() ==> placed_ids(final(self).sched()) == placed_ids(
                old(self).sched(),
            ).insert(act.id),
            r ==> placed_ids(final(self).sched()).subset_of(placed_ids(old(self).sched()).insert(act.id)),
            same_shape(old(self).tat_view(), final(self).tat_view()),
            same_shape(old(self).cat_view(), final(self).cat_view()),
        decreases params.depth2 - depth,
    {
        let ghost old_self = *self;
        let ghost good = old_self.positive() && act.hour >= 1;
        let ghost placed = placed_ids(self.sched());
        let ghost nb = self.neighbours_of(act@);
        proof {
            lemma_keeps_booking_refl(old_self);
        }
        let mut conflict_acts = self.find_conflict_activity(act, ignores, params);
        proof {
            let g = self.conflict_groups(act@, ignores.id);
            lemma_teachers_groups_placed(self.clean_tat_view(), act.teachers@, act.hour as int, self.sched(), ignores.id, nb.dom());
            let sh = choose|sh: Seq<Seq<i32>>| {
                &&& sh.to_multiset() == g.to_multiset()
                &&& conflict_acts@.len() == (if g.len() >= params.depth { params.depth as int } else { g.len() as int })
                &&& forall|k: int| 0 <= k < conflict_acts@.len() ==> is_sorted_set_of(act_ids(#[trigger] conflict_acts@[k]@), sh[k])
                &&& forall|k: int, m: int|
                    0 <= k < conflict_acts@.len() && 0 <= m < conflict_acts@[k]@.len() ==> nb.contains_key(conflict_acts@[k]@[m].id) && (#[trigger] conflict_acts@[k]@[m])@
                        == nb[conflict_acts@[k]@[m].id]@
            };
            assert forall|k: int| 0 <= k < conflict_acts@.len() implies self.group_ok(#[trigger] conflict_acts@[k]@, nb, placed) by {
                assert forall|m: int| 0 <= m < conflict_acts@[k]@.len() implies nb.contains_key(#[trigger] conflict_acts@[k]@[m].id)
                    && conflict_acts@[k]@[m]@ == nb[conflict_acts@[k]@[m].id]@ && placed.contains(conflict_acts@[k]@[m].id) by {
                    assert(conflict_acts@[k]@[m]@ == nb[conflict_acts@[k]@[m].id]@);
                    let x = conflict_acts@[k]@[m].id;
                    assert(act_ids(conflict_acts@[k]@)[m] == x);
                    assert(act_ids(conflict_acts@[k]@).contains(x));
                    assert(sh[k].contains(x));
                    sh.to_multiset_ensures();
                    g.to_multiset_ensures();
                    assert(sh.contains(sh[k]));
                    crate::random::lemma_same_items_contains(sh, g, sh[k]);
                    let kk = choose|kk: int| 0 <= kk < g.len() && g[kk] == sh[k];
                    let mm = choose|mm: int| 0 <= mm < sh[k].len() && sh[k][mm] == x;
                    assert(placed.contains(g[kk][mm]));
                }
            }
        }
        let ghost before_shuffle = conflict_acts@;
        crate::random::shuffle(&mut conflict_acts);
        proof {
            assert forall|k: int| 0 <= k < conflict_acts@.len() implies self.group_ok(#[trigger] conflict_acts@[k]@, nb, placed) by {
                assert(conflict_acts@.contains(conflict_acts@[k]));
                crate::random::lemma_same_items_contains(conflict_acts@, before_shuffle, conflict_acts@[k]);
                let kk = choose|kk: int| 0 <= kk < before_shuffle.len() && before_shuffle[kk] == conflict_acts@[k];
                assert(self.group_ok(before_shuffle[kk]@, nb, placed));
            }
            if conflict_acts@.len() > 0 {
                crate::random::lemma_same_items_contains(conflict_acts@, before_shuffle, conflict_acts@[0]);
            }
        }
        let ghost none_to_try = params.depth == 0 || old_self.conflict_groups(act@, ignores.id).len() == 0;
        assert(none_to_try ==> conflict_acts@.len() == 0);
        let tat2 = (*self.tat).clone();
        let cat2 = (*self.cat).clone();
        let timetables2 = copy_schedules(&self.timetables);
        let mut okey2 = false;
        while conflict_acts.len() > 0 && !okey2
            invariant
                self.wf_at(len),
                self.same_frame(old_self),
                old_self.wf_at(len),
                old_self.act_fits(act@),
                nb == old_self.neighbours_of(act@),
                good == (old_self.positive() && act.hour >= 1),
                placed == placed_ids(old_self.sched()),
                tat2@ == old_self.tat@,
                cat2@ == old_self.cat@,
                timetables2@ == old_self.sched(),
                keeps_booking(old_self, *self),
                known_act(old_self, act@),
                none_to_try ==> conflict_acts@.len() == 0 && !okey2,
                forall|k: int| 0 <= k < conflict_acts@.len() ==> self.group_ok(#[trigger] conflict_acts@[k]@, nb, placed),
                !okey2 ==> self.sched() == old_self.sched() && self.tat_view() == old_self.tat_view()
                    && self.cat_view() == old_self.cat_view(),
                okey2 && good ==> placed_ids(self.sched()) == placed.insert(act.id),
                okey2 ==> placed_ids(self.sched()).subset_of(placed.insert(act.id)),
                same_shape(old_self.tat_view(), self.tat_view()),
                same_shape(old_self.cat_view(), self.cat_view()),
            decreases conflict_acts.len(),
        {
            let ghost groups_before = conflict_acts@;
            let c_act = conflict_acts.remove(0);
            let ghost g0 = c_act@;
            assert(self.group_ok(groups_before[0]@, nb, placed));
            assert forall|k: int| 0 <= k < conflict_acts@.len() implies self.group_ok(#[trigger] conflict_acts@[k]@, nb, placed) by {
                assert(conflict_acts@[k] == groups_before[k + 1]);
            }
            let ghost cset = id_set(c_act@);
            let mut j: usize = 0;
            assert(placed.difference(id_set(c_act@.take(0))) =~= placed);
            while j < c_act.len()
                invariant
                    j <= c_act@.len(),
                    self.wf_at(len),
                    self.same_frame(old_self),
                    placed == placed_ids(old_self.sched()),
                    placed_ids(self.sched()) == placed.difference(id_set(c_act@.take(j as int))),
                    keeps_booking(old_self, *self),
                    nb == old_self.neighbours_of(act@),
                    old_self.act_fits(act@),
                    self.group_ok(c_act@, nb, placed),
                    !okey2,
                    same_shape(old_self.tat_view(), self.tat_view()),
                    same_shape(old_self.cat_view(), self.cat_view()),
                decreases c_act.len() - j,
            {
                let ghost sb = self.sched();
                let ghost tb = self.tat_view();
                let ghost cb = self.cat_view();
                let ghost pre = *self;
                self.delete_activity(&c_act[j], Ghost(len));
                proof {
                    lemma_neighbour_known(old_self, act.id, c_act@[j as int]@);
                    lemma_delete_act_keeps_booking(old_self, pre, *self, c_act@[j as int]@);
                    lemma_same_shape_trans(old_self.tat_view(), tb, self.tat_view());
                    lemma_same_shape_trans(old_self.cat_view(), cb, self.cat_view());
                    lemma_placed_without(sb, c_act@[j as int].id);
                    let t1 = c_act@.take(j + 1);
                    let t0 = c_act@.take(j as int);
                    assert(id_set(t1) =~= id_set(t0).insert(c_act@[j as int].id)) by {
                        assert forall|x: i32| id_set(t1).contains(x) implies id_set(t0).insert(c_act@[j as int].id).contains(x) by {
                            let m = choose|m: int| 0 <= m < t1.len() && t1[m].id == x;
                            if m < j {
                                assert(t0[m].id == x);
                            }
                        }
                        assert forall|x: i32| id_set(t0).insert(c_act@[j as int].id).contains(x) implies id_set(t1).contains(x) by {
                            if x == c_act@[j as int].id {
                                assert(t1[j as int].id == x);
                            } else {
                                let m = choose|m: int| 0 <= m < t0.len() && t0[m].id == x;
                                assert(t1[m].id == x);
                            }
                        }
                    }
                    assert(placed_ids(self.sched()) =~= placed.difference(id_set(c_act@.take(j + 1))));
                }
                j = j + 1;
            }
            assert(c_act@.take(c_act@.len() as int) =~= c_act@);
            let mut c_act = c_act;
            let ghost unshuffled = c_act@;
            crate::random::shuffle(&mut c_act);
            let ghost shuffled = c_act@;
            let mut c_act = sort_by_hour(c_act, false);
            proof {
                lemma_id_set_same_items(c_act@, unshuffled);
                assert(c_act@.to_multiset() == unshuffled.to_multiset());
            }
            let ghost sorted = c_act@;
            c_act.push(act.duplicate());
            proof {
                assert forall|m: int| 0 <= m < sorted.len() implies nb.contains_key(#[trigger] sorted[m].id)
                    && sorted[m]@ == nb[sorted[m].id]@ && placed.contains(sorted[m].id) by {
                    assert(sorted.contains(sorted[m]));
                    crate::random::lemma_same_items_contains(sorted, unshuffled, sorted[m]);
                    let w = choose|w: int| 0 <= w < unshuffled.len() && unshuffled[w] == sorted[m];
                    assert(self.group_ok(unshuffled, nb, placed));
                }
                assert(id_set(c_act@) =~= cset.insert(act.id)) by {
                    assert forall|x: i32| id_set(c_act@).contains(x) implies cset.insert(act.id).contains(x) by {
                        let m = choose|m: int| 0 <= m < c_act@.len() && c_act@[m].id == x;
                        if m < sorted.len() {
                            assert(c_act@[m] == sorted[m]);
                            assert(id_set(sorted).contains(x));
                        }
                    }
                    assert forall|x: i32| cset.insert(act.id).contains(x) implies id_set(c_act@).contains(x) by {
                        if x == act.id {
                            assert(c_act@[sorted.len() as int].id == x);
                        } else {
                            assert(id_set(sorted).contains(x));
                            let m = choose|m: int| 0 <= m < sorted.len() && sorted[m].id == x;
                            assert(c_act@[m] == sorted[m]);
                        }
                    }
                }
            }
            proof {
                assert forall|x: i32| cset.contains(x) implies placed.contains(x) by {
                    let m = choose|m: int| 0 <= m < g0.len() && g0[m].id == x;
                    assert(self.group_ok(g0, nb, placed));
                }
            }
            let n = c_act.len();
            let mut okey = true;
            let mut done: usize = 0;
            assert(c_act@.skip(n as int) =~= Seq::<Activity>::empty());
            assert(placed.difference(cset).union(id_set(c_act@.skip(n as int))) =~= placed.difference(cset));
            while okey && done < n
                invariant
                    done <= n,
                    n == c_act@.len(),
                    n >= 1,
                    c_act@[n - 1]@ == act@,
                    self.wf_at(len),
                    self.same_frame(old_self),
                    old_self.wf_at(len),
                    nb == old_self.neighbours_of(act@),
                    old_self.act_fits(act@),
                    good == (old_self.positive() && act.hour >= 1),
                    forall|m: int| 0 <= m < n - 1 ==> nb.contains_key(#[trigger] c_act@[m].id) && c_act@[m]@ == nb[c_act@[m].id]@,
                    okey && good ==> placed_ids(self.sched()) == placed.difference(cset).union(id_set(c_act@.skip(n - done))),
                    placed_ids(self.sched()).subset_of(placed.insert(act.id)),
                    forall|x: i32| cset.contains(x) ==> placed.contains(x),
                    cset.insert(act.id) == id_set(c_act@),
                    keeps_booking(old_self, *self),
                    known_act(old_self, act@),
                    same_shape(old_self.tat_view(), self.tat_view()),
                    same_shape(old_self.cat_view(), self.cat_view()),
                decreases n - done,
            {
                let idx = n - 1 - done;
                let a = &c_act[idx];
                proof {
                    if idx < n - 1 {
                        let k = act.id;
                        let jj = a.id;
                        assert(old_self.neighbour_acts@.contains_key(k) && old_self.neighbour_acts@[k]@.contains_key(jj));
                        assert(old_self.act_fits(old_self.neighbour_acts@[k]@[jj]@));
                        assert(old_self.neighbour_acts@[k]@[jj]@ == a@);
                    }
                    old_self.lemma_act_fits_frame(*self, a@);
                    if idx < n - 1 {
                        lemma_neighbour_known(old_self, act.id, a@);
                    }
                    lemma_same_acts_registry(old_self, *self);
                }
                let ghost sb = self.sched();
                let ghost tb = self.tat_view();
                let ghost cb = self.cat_view();
                let ghost pre = *self;
                match self.find_timeslot(a, params) {
                    Some((d, h)) => {
                        assert(self.day_len(a@) == len) by {
                            assert(self.tat_view()[a.teachers@[0]][0].hours.len() == len);
                        }
                        self.put_act(d, h, a, Ghost(len));
                        proof {
                            lemma_put_act_keeps_booking(old_self, pre, *self, d, h as int, a@, len);
                            lemma_placed_placement_sub(sb, d, h as int, a@);
                            assert(id_set(c_act@).contains(a.id)) by {
                                assert(c_act@[idx as int].id == a.id);
                            }
                            if good {
                                if idx < n - 1 {
                                    assert(old_self.positive());
                                    assert(old_self.neighbour_acts@[act.id]@[a.id].hour >= 1);
                                }
                                lemma_placed_placement(sb, d, h as int, a@);
                            }
                        }
                    },
                    None => {
                        if depth < params.depth2 {
                            let rec = self.recursive_put(a, depth + 1, act, params, Ghost(len));
                            proof {
                                lemma_keeps_booking_trans(old_self, pre, *self);
                            }
                            if !rec {
                                okey = false;
                            }
                            assert(id_set(c_act@).contains(a.id)) by {
                                assert(c_act@[idx as int].id == a.id);
                            }
                            proof {
                                if good && rec && idx < n - 1 {
                                    assert(old_self.neighbour_acts@[act.id]@[a.id].hour >= 1);
                                    assert(self.positive() == old_self.positive());
                                }
                            }
                        } else {
                            okey = false;
                        }
                    },
                }
                proof {
                    lemma_same_shape_trans(old_self.tat_view(), tb, self.tat_view());
                    lemma_same_shape_trans(old_self.cat_view(), cb, self.cat_view());
                    if okey && good {
                        assert(id_set(c_act@.skip(n - (done + 1))) =~= id_set(c_act@.skip(n - done)).insert(c_act@[idx as int].id)) by {
                            let s1 = c_act@.skip(n - (done + 1));
                            let s0 = c_act@.skip(n - done);
                            assert forall|x: i32| id_set(s1).contains(x) implies id_set(s0).insert(c_act@[idx as int].id).contains(x) by {
                                let m = choose|m: int| 0 <= m < s1.len() && s1[m].id == x;
                                if m > 0 {
                                    assert(s0[m - 1] == s1[m]);
                                } else {
                                    assert(s1[0] == c_act@[idx as int]);
                                }
                            }
                            assert forall|x: i32| id_set(s0).insert(c_act@[idx as int].id).contains(x) implies id_set(s1).contains(x) by {
                                if x == c_act@[idx as int].id {
                                    assert(s1[0] == c_act@[idx as int]);
                                } else {
                                    let m = choose|m: int| 0 <= m < s0.len() && s0[m].id == x;
                                    assert(s1[m + 1] == s0[m]);
                                }
                            }
                        }
                        assert(placed_ids(self.sched()) =~= placed.difference(cset).union(id_set(c_act@.skip(n - (done + 1)))));
                    }
                }
                done = done + 1;
            }
            if okey {
                okey2 = true;
                proof {
                    if good {
                        assert(c_act@.skip(0) =~= c_act@);
                        assert(forall|x: i32| cset.contains(x) ==> placed.contains(x)) by {
                            assert forall|x: i32| cset.contains(x) implies placed.contains(x) by {
                                let m = choose|m: int| 0 <= m < g0.len() && g0[m].id == x;
                                assert(self.group_ok(g0, nb, placed));
                            }
                        }
                        assert(placed_ids(self.sched()) =~= placed.insert(act.id));
                    }
                }
            } else {
                self.tat = Box::new(tat2.clone());
                self.cat = Box::new(cat2.clone());
                self.timetables = Box::new(copy_schedules(&timetables2));
                proof {
                    assert(self.tat_view() == old_self.tat_view());
                    assert(self.cat_view() == old_self.cat_view());
                    lemma_keeps_booking_refl(old_self);
                    lemma_keeps_booking_same_views(old_self, old_self, *self);
                }
            }
        }
        okey2
    }
}

/// An activity is among the unplaced ones exactly when some activity of the
/// list with its value has teachers and no placed hour.
proof fn lemma_unplaced_member(s: Seq<Activity>, sched: Seq<Schedule>, x: ActivityView)
    ensures
        unplaced(s, sched).contains(x) <==> exists|i: int|
            0 <= i < s.len() && (#[trigger] s[i])@ == x && s[i].teachers@.len() > 0 && !placed_ids(sched).contains(s[i].id),
    decreases s.len(),
{
    if s.len() > 0 {
        lemma_unplaced_member(s.drop_last(), sched, x);
        let rest = unplaced(s.drop_last(), sched);
        let last = s.last();
        if unplaced(s, sched).contains(x) {
            let w = choose|w: int| 0 <= w < unplaced(s, sched).len() && unplaced(s, sched)[w] == x;
            if w < rest.len() && (last.teachers@.len() > 0 && !placed_ids(sched).contains(last.id)) {
                assert(rest.push(last@)[w] == rest[w]);
                assert(rest.contains(x));
                let i = choose|i: int| 0 <= i < s.drop_last().len() && (#[trigger] s.drop_last()[i])@ == x
                    && s.drop_last()[i].teachers@.len() > 0 && !placed_ids(sched).contains(s.drop_last()[i].id);
                assert(s[i] == s.drop_last()[i]);
            } else if last.teachers@.len() > 0 && !placed_ids(sched).contains(last.id) {
                assert(s[s.len() - 1] == last);
            } else {
                assert(rest.contains(x));
                let i = choose|i: int| 0 <= i < s.drop_last().len() && (#[trigger] s.drop_last()[i])@ == x
                    && s.drop_last()[i].teachers@.len() > 0 && !placed_ids(sched).contains(s.drop_last()[i].id);
                assert(s[i] == s.drop_last()[i]);
            }
        }
        if exists|i: int|
            0 <= i < s.len() && (#[trigger] s[i])@ == x && s[i].teachers@.len() > 0 && !placed_ids(sched).contains(s[i].id) {
            let i = choose|i: int|
                0 <= i < s.len() && (#[trigger] s[i])@ == x && s[i].teachers@.len() > 0 && !placed_ids(sched).contains(s[i].id);
            if i < s.len() - 1 {
                assert(s.drop_last()[i] == s[i]);
                assert(rest.contains(x));
                let w = choose|w: int| 0 <= w < rest.len() && rest[w] == x;
                if last.teachers@.len() > 0 && !placed_ids(sched).contains(last.id) {
                    assert(rest.push(last@)[w] == x);
                }
            } else {
                assert(rest.push(last@)[rest.len() as int] == x);
            }
        }
    }
}

/// Placing `a` keeps the activities already placed.
proof fn lemma_placed_grows(s: Seq<Schedule>, more: Seq<Schedule>, x: i32)
    requires
        placed_ids(s).contains(x),
    ensures
        placed_ids(s + more).contains(x),
{
    let j = choose|j: int| 0 <= j < s.len() && s[j].activity == x;
    assert((s + more)[j] == s[j]);
}

impl TimetableData {
    /// `a` can start somewhere in the week.
    pub open spec fn has_slot(&self, a: ActivityView, params: Params, len: nat) -> bool {
        exists|d: i32, h: int| 1 <= d <= 7 && 0 <= h < len && #[trigger] self.slot_ok(a, d, h, params, len)
    }

    /// What one round of [`TimetableData::generate`] guarantees, from `old` to
    /// `new`, given that it answered `r`: the data stays consistent and only
    /// the placed hours and free hours change; where the free hours agreed
    /// with the placed ones, or at least were taken where placed hours sit
    /// with no teacher or class having two activities at one hour, that still
    /// holds (see [`keeps_booking`]); it answers false when nothing is left to
    /// place, and then changes nothing; otherwise what it does with the
    /// activity it takes up is [`TimetableData::took_first`].
    pub open spec fn generated(old: TimetableData, new: TimetableData, params: Params, r: bool) -> bool {
        &&& forall|len: nat| old.wf_at(len) ==> new.wf_at(len)
        &&& keeps_booking(old, new)
        &&& new.acts@.to_multiset() == old.acts@.to_multiset()
        &&& new.clean_tat == old.clean_tat
        &&& new.clean_cat == old.clean_cat
        &&& new.teachers_acts == old.teachers_acts
        &&& new.neighbour_acts == old.neighbour_acts
        &&& new.classes == old.classes
        &&& new.teachers == old.teachers
        &&& unplaced(old.acts@, old.sched()).len() == 0 ==> !r
        &&& !r ==> new.sched() == old.sched() && new.tat_view() == old.tat_view() && new.cat_view() == old.cat_view()
        &&& !r ==> unplaced(old.acts@, old.sched()).len() == 0 || exists|a: ActivityView|
            #[trigger] unplaced(old.acts@, old.sched()).contains(a) && (forall|len: nat|
                old.wf_at(len) ==> !old.has_slot(a, params, len)) && (params.depth == 0
                || old.conflict_groups(a, a.id).len() == 0)
        &&& r ==> exists|a: ActivityView|
            #[trigger] unplaced(old.acts@, old.sched()).contains(a) && placed_ids(new.sched()).subset_of(
                placed_ids(old.sched()).insert(a.id),
            ) && (forall|len: nat|
                old.wf_at(len) && old.has_slot(a, params, len) && a.hour >= 1 ==> placed_ids(new.sched())
                    == placed_ids(old.sched()).insert(a.id))
        &&& unplaced(old.acts@, old.sched()).len() > 0 ==> TimetableData::took_first(
            old,
            new,
            params,
            r,
            unplaced(new.acts@, old.sched())[0],
        )
    }

    /// What a round does with the activity `a` it takes up (the first one
    /// without placed hours in the shuffled list): if `a` has a free slot it
    /// answers true and `a` is placed; if it answers false, `a` had no free
    /// slot and no conflicts to clear (or moving was not allowed); if it
    /// answers true although `a` had no free slot, either `a` was placed by
    /// moving others out of its way, or the activities of one of its conflict
    /// groups were taken out and only hours of `a` and of that group were
    /// placed again.
    pub open spec fn took_first(old: TimetableData, new: TimetableData, params: Params, r: bool, a: ActivityView) -> bool {
        &&& unplaced(old.acts@, old.sched()).contains(a)
        &&& forall|len: nat|
            old.wf_at(len) && #[trigger] old.has_slot(a, params, len) ==> r && (a.hour >= 1 ==> placed_ids(new.sched())
                == placed_ids(old.sched()).insert(a.id))
        &&& !r ==> (forall|len: nat| old.wf_at(len) ==> !#[trigger] old.has_slot(a, params, len)) && (params.depth == 0
            || old.conflict_groups(a, a.id).len() == 0)
        &&& r ==> placed_ids(new.sched()).subset_of(placed_ids(old.sched()).insert(a.id))
        &&& r && (forall|len: nat| old.wf_at(len) ==> !#[trigger] old.has_slot(a, params, len)) ==> {
            ||| (a.hour >= 1 && old.positive() ==> placed_ids(new.sched()) == placed_ids(old.sched()).insert(a.id))
            ||| params.depth > 0 && exists|k: int, g: Seq<Activity>|
                0 <= k < old.conflict_groups(a, a.id).len() && #[trigger] is_sorted_set_of(
                    act_ids(g),
                    old.conflict_groups(a, a.id)[k],
                ) && forall|len: nat| old.wf_at(len) ==> #[trigger] TimetableData::put_back(old, new, params, a, act_views(g), len)
        }
    }

    /// One turn of putting an activity back: from `before` to `after`, `x` is
    /// placed at a free slot (the day chosen at random, the first free hour of
    /// that day) when it has one, and nothing changes otherwise.
    pub open spec fn put_or_skip(before: TimetableData, after: TimetableData, x: ActivityView, params: Params, len: nat) -> bool {
        &&& after.same_frame(before)
        &&& if before.has_slot(x, params, len) {
            exists|d: i32, h: int|
                1 <= d <= 7 && 0 <= h < len && #[trigger] before.slot_ok(x, d, h, params, len) && (forall|h2: int|
                    0 <= h2 < h ==> !before.slot_ok(x, d, h2, params, len)) && after.sched() == before.sched()
                    + placement(d, h, x) && after.tat_view() == mark_table(
                    before.tat_view(),
                    x.teachers,
                    d,
                    h,
                    x.hour as int,
                    false,
                ) && after.cat_view() == mark_table(before.cat_view(), x.classes, d, h, x.hour as int, false)
        } else {
            &&& after.sched() == before.sched()
            &&& after.tat_view() == before.tat_view()
            &&& after.cat_view() == before.cat_view()
        }
    }

    /// The turns of the fallback of a round, `sts`: `sts[0]` is `old` with the
    /// activities `grp` taken out one after the other; then `a` gets its turn,
    /// then each activity of `grp` in order; `new` ends as the last turn left
    /// it. When `a` has a free slot once `grp` is out (and takes at least one
    /// hour), it is placed in `new`.
    pub open spec fn turns(
        old: TimetableData,
        new: TimetableData,
        params: Params,
        a: ActivityView,
        grp: Seq<ActivityView>,
        len: nat,
        sts: Seq<TimetableData>,
    ) -> bool {
        &&& sts.len() == grp.len() + 2
        &&& sts[0].same_frame(new)
        &&& (sts[0].tat_view(), sts[0].cat_view(), sts[0].sched()) == delete_all(
            old.tat_view(),
            old.cat_view(),
            old.sched(),
            grp,
        )
        &&& TimetableData::put_or_skip(sts[0], sts[1], a, params, len)
        &&& forall|j: int| 0 <= j < grp.len() ==> #[trigger] TimetableData::put_or_skip(sts[j + 1], sts[j + 2], grp[j], params, len)
        &&& new.sched() == sts.last().sched()
        &&& new.tat_view() == sts.last().tat_view()
        &&& new.cat_view() == sts.last().cat_view()
        &&& sts[0].has_slot(a, params, len) && a.hour >= 1 ==> placed_ids(new.sched()).contains(a.id)
    }

    /// The fallback of a round took out the activities `grp` and gave `a`
    /// and then each of them, in order, its turn (see
    /// [`TimetableData::turns`]).
    pub open spec fn put_back(
        old: TimetableData,
        new: TimetableData,
        params: Params,
        a: ActivityView,
        grp: Seq<ActivityView>,
        len: nat,
    ) -> bool {
        exists|sts: Seq<TimetableData>| #[trigger] TimetableData::turns(old, new, params, a, grp, len, sts)
    }

    /// Places one more activity. The activities are shuffled and the first one
    /// with teachers and no placed hour is taken. If it has a free slot it is
    /// put there. Otherwise other activities are moved out of its way (see
    /// `recursive_put`); if that fails, the activities of one group of its
    /// conflicts are taken out, it is put at a free slot if there is one now,
    /// and so are they. Returns false when there is nothing left to place, or
    /// when the activity can neither be placed nor has conflicts.
    pub fn generate(&mut self, params: &Params) -> (r: bool)
        requires
            exists|len: nat| old(self).wf_at(len),
        ensures
            TimetableData::generated(*old(self), *final(self), *params, r),
    {
        let ghost len = choose|len: nat| self.wf_at(len);
        let ghost old_self = *self;
        let ghost u = unplaced(old_self.acts@, old_self.sched());
        let mut acts: Vec<Activity> = Vec::new();
        std::mem::swap(&mut acts, &mut self.acts);
        let mut acts = sort_by_hour(acts, true);
        crate::random::shuffle(&mut acts);
        self.acts = acts;
        proof {
            assert forall|l: nat| old_self.wf_at(l) implies self.wf_at(l) by {
                assert forall|i: int| 0 <= i < self.acts@.len() && self.acts@[i].teachers@.len() > 0 implies self.act_fits(
                    #[trigger] self.acts@[i]@,
                ) by {
                    assert(self.acts@.contains(self.acts@[i]));
                    crate::random::lemma_same_items_contains(self.acts@, old_self.acts@, self.acts@[i]);
                    let j = choose|j: int| 0 <= j < old_self.acts@.len() && old_self.acts@[j] == self.acts@[i];
                    assert(old_self.act_fits(old_self.acts@[j]@));
                }
            }
            assert forall|x: ActivityView| unplaced(self.acts@, self.sched()).contains(x) implies u.contains(x) by {
                lemma_unplaced_member(self.acts@, self.sched(), x);
                lemma_unplaced_member(old_self.acts@, old_self.sched(), x);
                let i = choose|i: int|
                    0 <= i < self.acts@.len() && (#[trigger] self.acts@[i])@ == x && self.acts@[i].teachers@.len() > 0
                        && !placed_ids(self.sched()).contains(self.acts@[i].id);
                assert(self.acts@.contains(self.acts@[i]));
                crate::random::lemma_same_items_contains(self.acts@, old_self.acts@, self.acts@[i]);
                let j = choose|j: int| 0 <= j < old_self.acts@.len() && old_self.acts@[j] == self.acts@[i];
                assert(old_self.acts@[j]@ == x);
            }
            assert forall|x: ActivityView| u.contains(x) implies unplaced(self.acts@, self.sched()).contains(x) by {
                lemma_unplaced_member(self.acts@, self.sched(), x);
                lemma_unplaced_member(old_self.acts@, old_self.sched(), x);
                let i = choose|i: int|
                    0 <= i < old_self.acts@.len() && (#[trigger] old_self.acts@[i])@ == x && old_self.acts@[i].teachers@.len() > 0
                        && !placed_ids(old_self.sched()).contains(old_self.acts@[i].id);
                assert(old_self.acts@.contains(old_self.acts@[i]));
                crate::random::lemma_same_items_contains(self.acts@, old_self.acts@, old_self.acts@[i]);
                let j = choose|j: int| 0 <= j < self.acts@.len() && self.acts@[j] == old_self.acts@[i];
                assert(self.acts@[j]@ == x);
            }
        }
        let ghost shuffled_self = *self;
        proof {
            lemma_keeps_booking_refl(old_self);
            lemma_keeps_booking_same_views(old_self, old_self, shuffled_self);
            lemma_registry_same_items(old_self, shuffled_self);
        }
        let acts = self.not_placed_acts();
        if acts.len() == 0 {
            proof {
                if u.len() > 0 {
                    assert(u.contains(u[0]));
                    assert(unplaced(self.acts@, self.sched()).contains(u[0]));
                }
            }
            return false;
        }
        let act = &acts[0];
        proof {
            assert(unplaced(self.acts@, self.sched())[0] == act@);
            assert(unplaced(self.acts@, self.sched()).contains(act@));
            assert(u.contains(act@));
            lemma_unplaced_member(self.acts@, self.sched(), act@);
            let i = choose|i: int|
                0 <= i < self.acts@.len() && (#[trigger] self.acts@[i])@ == act@ && self.acts@[i].teachers@.len() > 0
                    && !placed_ids(self.sched()).contains(self.acts@[i].id);
            assert(self.act_fits(self.acts@[i]@));
            lemma_act_known(shuffled_self, i, act@);
            assert(known_act(old_self, act@));
            assert forall|l: nat| old_self.wf_at(l) implies l == len by {
                assert(self.wf_at(l));
                assert(self.tat_view()[act.teachers@[0]][0].hours.len() == l);
                assert(self.tat_view()[act.teachers@[0]][0].hours.len() == len);
            }
            assert(self.day_len(act@) == len);
            assert(unplaced(shuffled_self.acts@, old_self.sched())[0] == act@);
            assert(shuffled_self.neighbour_acts == old_self.neighbour_acts);
        }
        match self.find_timeslot(act, params) {
            Some((d, h)) => {
                self.put_act(d, h, act, Ghost(len));
                proof {
                    assert(old_self.slot_ok(act@, d, h as int, *params, len));
                    assert(old_self.has_slot(act@, *params, len));
                    lemma_put_act_keeps_booking(old_self, shuffled_self, *self, d, h as int, act@, len);
                    lemma_placed_placement_sub(old_self.sched(), d, h as int, act@);
                    if act.hour >= 1 {
                        lemma_placed_placement(old_self.sched(), d, h as int, act@);
                    }
                }
                return true;
            },
            None => {
                proof {
                    if self.tat@.dom().len() == 0 {
                        self.tat@.dom().lemma_len0_is_empty();
                    }
                    assert(self.tat@.dom().contains(act.teachers@[0]));
                    assert(!old_self.has_slot(act@, *params, len)) by {
                        if old_self.has_slot(act@, *params, len) {
                            let (d, h) = choose|d: i32, h: int| 1 <= d <= 7 && 0 <= h < len && #[trigger] old_self.slot_ok(act@, d, h, *params, len);
                            assert(self.slot_ok(act@, d, h, *params, len));
                        }
                    }
                }
                let timetables_backup = copy_schedules(&self.timetables);
                let tat_backup = (*self.tat).clone();
                let cat_backup = (*self.cat).clone();
                assert(forall|l: nat| old_self.wf_at(l) ==> !#[trigger] old_self.has_slot(act@, *params, l));
                if self.recursive_put(act, 0, act, params, Ghost(len)) {
                    proof {
                        lemma_keeps_booking_trans(old_self, shuffled_self, *self);
                    }
                    return true;
                }
                self.timetables = Box::new(timetables_backup);
                self.tat = Box::new(tat_backup);
                self.cat = Box::new(cat_backup);
                assert(self.tat_view() == old_self.tat_view());
                assert(self.cat_view() == old_self.cat_view());
                assert(self.sched() == old_self.sched());
                proof {
                    lemma_keeps_booking_same_views(old_self, shuffled_self, *self);
                }
                let conflict_acts = self.find_conflict_activity(act, act, params);
                if conflict_acts.len() == 0 {
                    proof {
                        assert(self.conflict_groups(act@, act.id) == old_self.conflict_groups(act@, act.id));
                    }
                    return false;
                }
                let ghost nb = self.neighbours_of(act@);
                let ghost placed = placed_ids(old_self.sched());
                let group = &conflict_acts[0];
                proof {
                    let g = self.conflict_groups(act@, act.id);
                    lemma_teachers_groups_placed(self.clean_tat_view(), act.teachers@, act.hour as int, self.sched(), act.id, nb.dom());
                    let sh = choose|sh: Seq<Seq<i32>>| {
                        &&& sh.to_multiset() == g.to_multiset()
                        &&& conflict_acts@.len() == (if g.len() >= params.depth { params.depth as int } else { g.len() as int })
                        &&& forall|k: int| 0 <= k < conflict_acts@.len() ==> is_sorted_set_of(act_ids(#[trigger] conflict_acts@[k]@), sh[k])
                        &&& forall|k: int, m: int|
                            0 <= k < conflict_acts@.len() && 0 <= m < conflict_acts@[k]@.len() ==> nb.contains_key(conflict_acts@[k]@[m].id) && (#[trigger] conflict_acts@[k]@[m])@
                                == nb[conflict_acts@[k]@[m].id]@
                    };
                    assert forall|m: int| 0 <= m < group@.len() implies nb.contains_key(#[trigger] group@[m].id)
                        && group@[m]@ == nb[group@[m].id]@ && placed.contains(group@[m].id) by {
                        assert(conflict_acts@[0]@[m]@ == nb[conflict_acts@[0]@[m].id]@);
                        let x = group@[m].id;
                        assert(act_ids(group@)[m] == x);
                        assert(act_ids(group@).contains(x));
                        assert(sh[0].contains(x));
                        sh.to_multiset_ensures();
                        g.to_multiset_ensures();
                        assert(sh.contains(sh[0]));
                        crate::random::lemma_same_items_contains(sh, g, sh[0]);
                        let kk = choose|kk: int| 0 <= kk < g.len() && g[kk] == sh[0];
                        let mm = choose|mm: int| 0 <= mm < sh[0].len() && sh[0][mm] == x;
                        assert(placed.contains(g[kk][mm]));
                    }
                    assert forall|m: int| 0 <= m < group@.len() implies #[trigger] known_act(old_self, group@[m]@) by {
                        lemma_neighbour_known(shuffled_self, act.id, group@[m]@);
                    }
                    crate::random::lemma_same_items_contains(sh, g, sh[0]);
                    assert(sh.contains(sh[0]));
                    crate::random::lemma_same_items_contains(sh, g, sh[0]);
                    let kk = choose|kk: int| 0 <= kk < g.len() && g[kk] == sh[0];
                    assert(g == old_self.conflict_groups(act@, act.id));
                    assert(is_sorted_set_of(act_ids(group@), old_self.conflict_groups(act@, act.id)[kk]));
                    assert(params.depth > 0);
                    assert(act_views(group@).take(0) =~= Seq::<ActivityView>::empty());
                }
                let ghost gv = act_views(group@);
                let mut j: usize = 0;
                while j < group.len()
                    invariant
                        j <= group@.len(),
                        gv == act_views(group@),
                        (self.tat_view(), self.cat_view(), self.sched()) == delete_all(
                            old_self.tat_view(),
                            old_self.cat_view(),
                            old_self.sched(),
                            gv.take(j as int),
                        ),
                        self.wf_at(len),
                        self.same_frame(shuffled_self),
                        shuffled_self.wf_at(len),
                        shuffled_self.act_fits(act@),
                        placed_ids(self.sched()).subset_of(placed),
                        keeps_booking(old_self, *self),
                        forall|m: int| 0 <= m < group@.len() ==> #[trigger] known_act(old_self, group@[m]@),
                        same_shape(shuffled_self.tat_view(), self.tat_view()),
                        same_shape(shuffled_self.cat_view(), self.cat_view()),
                    decreases group.len() - j,
                {
                    let ghost sb = self.sched();
                    let ghost tb = self.tat_view();
                    let ghost cb = self.cat_view();
                    let ghost pre = *self;
                    self.delete_activity(&group[j], Ghost(len));
                    proof {
                        assert(gv.take(j + 1).drop_last() =~= gv.take(j as int));
                        assert(gv.take(j + 1).last() == group@[j as int]@);
                        assert(known_act(old_self, group@[j as int]@));
                        lemma_delete_act_keeps_booking(old_self, pre, *self, group@[j as int]@);
                        lemma_placed_without(sb, group@[j as int].id);
                        lemma_same_shape_trans(shuffled_self.tat_view(), tb, self.tat_view());
                        lemma_same_shape_trans(shuffled_self.cat_view(), cb, self.cat_view());
                    }
                    j = j + 1;
                }
                proof {
                    shuffled_self.lemma_act_fits_frame(*self, act@);
                    assert(gv.take(gv.len() as int) =~= gv);
                }
                let ghost mid = *self;
                let ghost mut sts: Seq<TimetableData> = seq![mid];
                let ghost sb = self.sched();
                let ghost tb = self.tat_view();
                let ghost cb = self.cat_view();
                let ghost pre = *self;
                assert(self.day_len(act@) == len) by {
                    assert(self.tat_view()[act.teachers@[0]][0].hours.len() == len);
                }
                proof {
                    if self.tat@.dom().len() == 0 {
                        self.tat@.dom().lemma_len0_is_empty();
                    }
                    assert(self.tat@.dom().contains(act.teachers@[0]));
                }
                match self.find_timeslot(act, params) {
                    Some((d, h)) => {
                        self.put_act(d, h, act, Ghost(len));
                        proof {
                            assert(mid.slot_ok(act@, d, h as int, *params, len));
                            assert(mid.has_slot(act@, *params, len));
                            assert(TimetableData::put_or_skip(mid, *self, act@, *params, len));
                            if act.hour >= 1 {
                                lemma_placed_placement(sb, d, h as int, act@);
                            }
                            sts = sts.push(*self);
                            lemma_put_act_keeps_booking(old_self, pre, *self, d, h as int, act@, len);
                            lemma_placed_placement_sub(sb, d, h as int, act@);
                            lemma_same_shape_trans(shuffled_self.tat_view(), tb, self.tat_view());
                            lemma_same_shape_trans(shuffled_self.cat_view(), cb, self.cat_view());
                        }
                    },
                    None => {
                        proof {
                            assert(!mid.has_slot(act@, *params, len));
                            assert(TimetableData::put_or_skip(mid, *self, act@, *params, len));
                            sts = sts.push(*self);
                        }
                    },
                }
                let mut j: usize = 0;
                while j < group.len()
                    invariant
                        j <= group@.len(),
                        sts.len() == j + 2,
                        sts[0] == mid,
                        sts.last() == *self,
                        mid.same_frame(shuffled_self),
                        (mid.tat_view(), mid.cat_view(), mid.sched()) == delete_all(
                            old_self.tat_view(),
                            old_self.cat_view(),
                            old_self.sched(),
                            gv,
                        ),
                        TimetableData::put_or_skip(sts[0], sts[1], act@, *params, len),
                        forall|jj: int| 0 <= jj < j ==> #[trigger] TimetableData::put_or_skip(sts[jj + 1], sts[jj + 2], gv[jj], *params, len),
                        mid.has_slot(act@, *params, len) && act.hour >= 1 ==> placed_ids(self.sched()).contains(act.id),
                        self.wf_at(len),
                        self.same_frame(shuffled_self),
                        shuffled_self.wf_at(len),
                        shuffled_self.act_fits(act@),
                        nb == shuffled_self.neighbours_of(act@),
                        forall|m: int| 0 <= m < group@.len() ==> nb.contains_key(#[trigger] group@[m].id)
                            && group@[m]@ == nb[group@[m].id]@ && placed.contains(group@[m].id),
                        placed_ids(self.sched()).subset_of(placed.insert(act.id)),
                        keeps_booking(old_self, *self),
                        forall|m: int| 0 <= m < group@.len() ==> #[trigger] known_act(old_self, group@[m]@),
                        gv == act_views(group@),
                        same_shape(shuffled_self.tat_view(), self.tat_view()),
                        same_shape(shuffled_self.cat_view(), self.cat_view()),
                    decreases group.len() - j,
                {
                    let a = &group[j];
                    proof {
                        let k = act.id;
                        let jj = a.id;
                        assert(shuffled_self.neighbour_acts@.contains_key(k) && shuffled_self.neighbour_acts@[k]@.contains_key(jj));
                        assert(shuffled_self.act_fits(shuffled_self.neighbour_acts@[k]@[jj]@));
                        shuffled_self.lemma_act_fits_frame(*self, a@);
                    }
                    let ghost sb = self.sched();
                    let ghost tb = self.tat_view();
                    let ghost cb = self.cat_view();
                    let ghost pre = *self;
                    let ghost sts0 = sts;
                    assert(self.day_len(a@) == len) by {
                        assert(self.tat_view()[a.teachers@[0]][0].hours.len() == len);
                    }
                    proof {
                        if self.tat@.dom().len() == 0 {
                            self.tat@.dom().lemma_len0_is_empty();
                        }
                        assert(self.tat@.dom().contains(a.teachers@[0]));
                        assert(gv[j as int] == a@);
                    }
                    match self.find_timeslot(a, params) {
                        Some((d, h)) => {
                            self.put_act(d, h, a, Ghost(len));
                            proof {
                                assert(pre.slot_ok(a@, d, h as int, *params, len));
                                assert(pre.has_slot(a@, *params, len));
                                assert(TimetableData::put_or_skip(pre, *self, a@, *params, len));
                                if mid.has_slot(act@, *params, len) && act.hour >= 1 {
                                    lemma_placed_grows(sb, placement(d, h as int, a@), act.id);
                                }
                                sts = sts.push(*self);
                                assert(known_act(old_self, group@[j as int]@));
                                lemma_put_act_keeps_booking(old_self, pre, *self, d, h as int, a@, len);
                                lemma_placed_placement_sub(sb, d, h as int, a@);
                                lemma_same_shape_trans(shuffled_self.tat_view(), tb, self.tat_view());
                                lemma_same_shape_trans(shuffled_self.cat_view(), cb, self.cat_view());
                            }
                        },
                        None => {
                            proof {
                                assert(!pre.has_slot(a@, *params, len));
                                assert(TimetableData::put_or_skip(pre, *self, a@, *params, len));
                                sts = sts.push(*self);
                            }
                        },
                    }
                    proof {
                        assert forall|jj: int| 0 <= jj < j + 1 implies #[trigger] TimetableData::put_or_skip(
                            sts[jj + 1],
                            sts[jj + 2],
                            gv[jj],
                            *params,
                            len,
                        ) by {
                            if jj < j {
                                assert(sts[jj + 1] == sts0[jj + 1]);
                                assert(sts[jj + 2] == sts0[jj + 2]);
                            }
                        }
                    }
                    j = j + 1;
                }
                proof {
                    assert(TimetableData::turns(old_self, *self, *params, act@, gv, len, sts));
                    assert(forall|l: nat| old_self.wf_at(l) ==> l == len);
                }
                return true;
            },
        }
    }
}


proof fn lemma_occupies_after_placement(sched: Seq<Schedule>, day: i32, hour: int, act: ActivityView, dd: i32, h: int)
    requires
        !placed_ids(sched).contains(act.id),
        0 <= hour,
        0 <= act.hour,
        hour + act.hour <= 32767,
    ensures
        occupies(sched + placement(day, hour, act), act.id, dd, h) <==> (dd == day && hour <= h < hour + act.hour),
{
    let t = sched + placement(day, hour, act);
    let p = placement(day, hour, act);
    if occupies(t, act.id, dd, h) {
        let j = choose|j: int| 0 <= j < t.len() && t[j].activity == act.id && t[j].day_id == dd && t[j].hour == h;
        if j < sched.len() {
            assert(sched[j].activity == act.id);
            assert(placed_ids(sched).contains(act.id));
        } else {
            let k = j - sched.len();
            assert(t[j] == p[k]);
            assert(0 <= hour + k <= 32767);
            assert(p[k].hour == hour + k);
        }
    }
    if dd == day && hour <= h < hour + act.hour {
        let k = h - hour;
        assert(t[sched.len() + k] == p[k]);
        assert(p[k].hour == h);
        assert(t[sched.len() + k].activity == act.id && t[sched.len() + k].day_id == dd && t[sched.len() + k].hour == h);
    }
}

/// Removing an activity just after placing it gives back the schedule and the
/// free hours as they were, when the activity had no hour placed before and
/// the hours it took were free for all its teachers and classes.
pub proof fn lemma_delete_undoes_put(tables: Map<i32, Seq<DayView>>, ids: Seq<i32>, sched: Seq<Schedule>, day: i32, hour: int, act: ActivityView)
    requires
        !placed_ids(sched).contains(act.id),
        0 <= hour,
        0 <= act.hour,
        hour + act.hour <= 32767,
        free_for(tables, ids, day, hour, act.hour as int),
    ensures
        without_act(sched + placement(day, hour, act), act.id) == sched,
        free_table(
            mark_table(tables, ids, day, hour, act.hour as int, false),
            ids,
            sched + placement(day, hour, act),
            act.id,
        ) == tables,
{
    let t = sched + placement(day, hour, act);
    lemma_without_placed(sched, placement(day, hour, act), act.id);
    let m = mark_table(tables, ids, day, hour, act.hour as int, false);
    let f = free_table(m, ids, t, act.id);
    assert forall|k: i32| #[trigger] tables.dom().contains(k) implies f[k] == tables[k] by {
        if ids.contains(k) {
            let s = tables[k];
            let ms = mark_list(s, day, hour, act.hour as int, false);
            lemma_mark_list_shape(s, day, hour, act.hour as int, false);
            let fs = free_list(ms, t, act.id);
            assert forall|i: int| 0 <= i < s.len() implies fs[i] == s[i] by {
                if is_first_of_day(s, s[i].day, i) {
                    assert(is_first_of_day(ms, ms[i].day, i));
                    assert forall|h: int| 0 <= h < s[i].hours.len() implies fs[i].hours[h] == s[i].hours[h] by {
                        lemma_occupies_after_placement(sched, day, hour, act, s[i].day, h);
                        if s[i].day == day && hour <= h < hour + act.hour {
                            let ti = choose|ti: int| 0 <= ti < ids.len() && ids[ti] == k;
                            assert(tables[ids[ti]][i].day == day);
                            assert(tables[ids[ti]][i].free_range(hour, act.hour as int));
                        }
                    }
                    assert(fs[i].hours =~= s[i].hours);
                } else {
                    assert(!is_first_of_day(ms, ms[i].day, i));
                }
            }
            assert(fs =~= s);
        }
    }
    assert(f.dom() =~= tables.dom());
    assert(f =~= tables);
}

pub(crate) proof fn lemma_without_placed(s: Seq<Schedule>, p: Seq<Schedule>, id: i32)
    requires
        !placed_ids(s).contains(id),
        forall|k: int| 0 <= k < p.len() ==> (#[trigger] p[k]).activity == id,
    ensures
        without_act(s + p, id) == s,
    decreases p.len(),
{
    if p.len() == 0 {
        assert(s + p =~= s);
        lemma_without_absent(s, id);
    } else {
        assert((s + p).drop_last() =~= s + p.drop_last());
        assert((s + p).last() == p.last());
        lemma_without_placed(s, p.drop_last(), id);
    }
}

proof fn lemma_without_absent(s: Seq<Schedule>, id: i32)
    requires
        !placed_ids(s).contains(id),
    ensures
        without_act(s, id) == s,
    decreases s.len(),
{
    if s.len() > 0 {
        assert(!placed_ids(s.drop_last()).contains(id)) by {
            if placed_ids(s.drop_last()).contains(id) {
                let j = choose|j: int| 0 <= j < s.drop_last().len() && s.drop_last()[j].activity == id;
                assert(s[j].activity == id);
            }
        }
        lemma_without_absent(s.drop_last(), id);
        assert(s.last().activity != id) by {
            assert(s[s.len() - 1] == s.last());
        }
        assert(s.drop_last().push(s.last()) =~= s);
    } else {
        assert(without_act(s, id) =~= s);
    }
}

/// The days of the week, in order.
pub open spec fn week() -> Seq<i32> {
    seq![1i32, 2, 3, 4, 5, 6, 7]
}

proof fn lemma_week(w: int)
    requires
        0 <= w < 7,
    ensures
        week().len() == 7,
        week()[w] == w + 1,
{
    if w == 0 {
    } else if w == 1 {
    } else if w == 2 {
    } else if w == 3 {
    } else if w == 4 {
    } else if w == 5 {
    } else {
    }
}

/// Removing an activity keeps every hour of the schedule inside the day.
proof fn lemma_without_act_hours(s: Seq<Schedule>, id: i32, len: nat)
    requires
        forall|j: int| 0 <= j < s.len() ==> 0 <= #[trigger] s[j].hour < len,
    ensures
        forall|j: int| 0 <= j < without_act(s, id).len() ==> 0 <= #[trigger] without_act(s, id)[j].hour < len,
    decreases s.len(),
{
    if s.len() > 0 {
        let rest = without_act(s.drop_last(), id);
        assert forall|j: int| 0 <= j < s.drop_last().len() implies 0 <= #[trigger] s.drop_last()[j].hour < len by {
            assert(s.drop_last()[j] == s[j]);
        }
        lemma_without_act_hours(s.drop_last(), id, len);
        assert(0 <= s[s.len() - 1].hour < len);
        if s.last().activity != id {
            assert forall|j: int| 0 <= j < rest.push(s.last()).len() implies 0 <= #[trigger] rest.push(s.last())[j].hour < len by {
                if j < rest.len() {
                    assert(rest.push(s.last())[j] == rest[j]);
                }
            }
        }
    }
}

impl TimetableData {
    /// Whether some entry of the teachers `ids` in `tat` is for day `d`.
    fn has_day(&self, ids: &Vec<i32>, d: i32) -> (r: bool)
        ensures
            r == has_day_for(self.tat_view(), ids@, d),
    {
        let ghost tv = self.tat_view();
        let mut t: usize = 0;
        while t < ids.len()
            invariant
                t <= ids@.len(),
                tv == self.tat_view(),
                forall|x: int, i: int|
                    0 <= x < t && tv.dom().contains(ids@[x]) && 0 <= i < tv[ids@[x]].len() ==> #[trigger] tv[ids@[x]][i].day
                        != d,
            decreases ids.len() - t,
        {
            match self.tat.get(&ids[t]) {
                Some(lims) => {
                    let mut i: usize = 0;
                    while i < lims.len()
                        invariant
                            i <= lims@.len(),
                            t < ids@.len(),
                            tv == self.tat_view(),
                            tv.dom().contains(ids@[t as int]),
                            tv[ids@[t as int]] == list_view(lims@),
                            forall|y: int| 0 <= y < i ==> #[trigger] tv[ids@[t as int]][y].day != d,
                        decreases lims.len() - i,
                    {
                        if lims[i].day == d {
                            proof {
                                assert(tv[ids@[t as int]][i as int].day == d);
                                assert(has_day_for(tv, ids@, d));
                            }
                            return true;
                        }
                        i = i + 1;
                    }
                },
                None => {},
            }
            t = t + 1;
        }
        false
    }

    /// Whether the generator can be asked to place `a` without failing.
    pub fn fits(&self, a: &Activity) -> (r: bool)
        ensures
            r == self.act_fits(a@),
    {
        if a.hour < 0 || a.teachers.len() == 0 {
            return false;
        }
        match self.tat.get(&a.teachers[0]) {
            Some(lims) => {
                if lims.len() == 0 {
                    return false;
                }
            },
            None => {
                return false;
            },
        }
        let mut d: i32 = 1;
        while d <= 7
            invariant
                1 <= d <= 8,
                forall|e: i32| 1 <= e < d ==> #[trigger] has_day_for(self.tat_view(), a.teachers@, e),
            decreases 8 - d,
        {
            if !self.has_day(&a.teachers, d) {
                return false;
            }
            d = d + 1;
        }
        let mut t: usize = 0;
        while t < a.teachers.len()
            invariant
                t <= a.teachers@.len(),
                forall|x: int| 0 <= x < t ==> self.clean_tat_view().dom().contains(#[trigger] a.teachers@[x]),
            decreases a.teachers.len() - t,
        {
            if !self.clean_tat.contains_key(&a.teachers[t]) {
                return false;
            }
            t = t + 1;
        }
        self.neighbour_acts.contains_key(&a.id)
    }

    /// Whether every neighbour in `nb` fits and is listed under its own id.
    fn neighbours_fit(&self, nb: &HashMap<i32, Activity>) -> (r: bool)
        ensures
            r == forall|j: i32| #[trigger] nb@.contains_key(j) ==> self.act_fits(nb@[j]@) && nb@[j].id == j,
    {
        let ghost items = vstd::std_specs::hash::spec_hash_map_iter(nb).remaining();
        proof {
            vstd::std_specs::hash::axiom_spec_hash_map_iter(nb);
        }
        let n = nb.len();
        let mut count: usize = 0;
        for kv in it: nb.iter()
            invariant
                it.seq() == items,
                n == items.len(),
                count == it.index(),
                forall|j: int| 0 <= j < count ==> self.act_fits((#[trigger] items[j]).1@) && items[j].1.id == *items[j].0,
        {
            if !self.fits(kv.1) || kv.1.id != *kv.0 {
                proof {
                    let k = *kv.0;
                    assert(nb@.contains_key(k) && nb@[k] == *kv.1);
                }
                return false;
            }
            count = count + 1;
        }
        proof {
            assert forall|j: i32| #[trigger] nb@.contains_key(j) implies self.act_fits(nb@[j]@) && nb@[j].id == j by {
                assert(items.contains((&j, &nb@[j])));
                let x = choose|x: int| 0 <= x < items.len() && items[x] == (&j, &nb@[j]);
                assert(self.act_fits(items[x].1@));
            }
        }
        true
    }

    /// Whether the neighbours of every activity fit and are listed under
    /// their own ids.
    fn all_neighbours_fit(&self) -> (r: bool)
        ensures
            r == ((forall|k: i32, j: i32|
                self.neighbour_acts@.contains_key(k) && self.neighbour_acts@[k]@.contains_key(j)
                    ==> self.act_fits(#[trigger] self.neighbour_acts@[k]@[j]@)) && (forall|k: i32, j: i32|
                self.neighbour_acts@.contains_key(k) && self.neighbour_acts@[k]@.contains_key(j)
                    ==> (#[trigger] self.neighbour_acts@[k]@[j]).id == j)),
    {
        let ghost items = vstd::std_specs::hash::spec_hash_map_iter(&self.neighbour_acts).remaining();
        proof {
            vstd::std_specs::hash::axiom_spec_hash_map_iter(&self.neighbour_acts);
        }
        let n = self.neighbour_acts.len();
        let mut count: usize = 0;
        for kv in it: self.neighbour_acts.iter()
            invariant
                it.seq() == items,
                n == items.len(),
                count == it.index(),
                forall|x: int, j: i32|
                    0 <= x < count && #[trigger] items[x].1@.contains_key(j) ==> self.act_fits(items[x].1@[j]@)
                        && items[x].1@[j].id == j,
        {
            if !self.neighbours_fit(kv.1) {
                proof {
                    let k = *kv.0;
                    assert(self.neighbour_acts@.contains_key(k) && self.neighbour_acts@[k] == *kv.1);
                    let j = choose|j: i32| #[trigger] kv.1@.contains_key(j) && !(self.act_fits(kv.1@[j]@) && kv.1@[j].id == j);
                    if !self.act_fits(self.neighbour_acts@[k]@[j]@) {
                    } else {
                        assert(self.neighbour_acts@[k]@[j].id != j);
                    }
                }
                return false;
            }
            count = count + 1;
        }
        proof {
            assert forall|k: i32, j: i32|
                self.neighbour_acts@.contains_key(k) && self.neighbour_acts@[k]@.contains_key(j) implies self.act_fits(
                #[trigger] self.neighbour_acts@[k]@[j]@,
            ) && self.neighbour_acts@[k]@[j].id == j by {
                assert(items.contains((&k, &self.neighbour_acts@[k])));
                let x = choose|x: int| 0 <= x < items.len() && items[x] == (&k, &self.neighbour_acts@[k]);
                assert(items[x].1@.contains_key(j));
            }
            assert forall|k: i32, j: i32|
                self.neighbour_acts@.contains_key(k) && self.neighbour_acts@[k]@.contains_key(j) implies (
                #[trigger] self.neighbour_acts@[k]@[j]).id == j by {
                assert(items.contains((&k, &self.neighbour_acts@[k])));
                let x = choose|x: int| 0 <= x < items.len() && items[x] == (&k, &self.neighbour_acts@[k]);
                assert(items[x].1@.contains_key(j));
            }
        }
        true
    }

    /// Whether the data is consistent with days of `len` hours.
    fn check_at(&self, len: usize) -> (r: bool)
        ensures
            r == self.wf_at(len as nat),
    {
        if len > 32767 {
            return false;
        }
        if !table_uniform(&self.tat, len) || !table_uniform(&self.cat, len) || !table_uniform(&self.clean_tat, len) {
            return false;
        }
        let mut j: usize = 0;
        while j < self.timetables.len()
            invariant
                j <= self.sched().len(),
                len <= 32767,
                uniform(self.tat_view(), len as nat),
                uniform(self.cat_view(), len as nat),
                uniform(self.clean_tat_view(), len as nat),
                forall|x: int| 0 <= x < j ==> 0 <= #[trigger] self.sched()[x].hour < len,
            decreases self.timetables.len() - j,
        {
            let h = self.timetables[j].hour;
            if h < 0 || h as usize >= len {
                return false;
            }
            j = j + 1;
        }
        let mut i: usize = 0;
        while i < self.acts.len()
            invariant
                i <= self.acts@.len(),
                len <= 32767,
                uniform(self.tat_view(), len as nat),
                uniform(self.cat_view(), len as nat),
                uniform(self.clean_tat_view(), len as nat),
                forall|x: int| 0 <= x < self.sched().len() ==> 0 <= #[trigger] self.sched()[x].hour < len,
                forall|x: int|
                    0 <= x < i && self.acts@[x].teachers@.len() > 0 ==> self.act_fits(#[trigger] self.acts@[x]@),
            decreases self.acts.len() - i,
        {
            if self.acts[i].teachers.len() > 0 && !self.fits(&self.acts[i]) {
                return false;
            }
            i = i + 1;
        }
        self.all_neighbours_fit()
    }

    /// The number of hours a day with which the data is consistent, if there
    /// is one: the generator can then be run on it.
    pub fn ready_len(&self) -> (r: Option<usize>)
        ensures
            match r {
                Some(n) => self.wf_at(n as nat),
                None => forall|len: nat| !self.wf_at(len),
            },
    {
        let guess = match some_entry_len(&self.tat) {
            Some(n) => Some(n),
            None => match some_entry_len(&self.cat) {
                Some(n) => Some(n),
                None => some_entry_len(&self.clean_tat),
            },
        };
        match guess {
            Some(n) => {
                if self.check_at(n) {
                    Some(n)
                } else {
                    proof {
                        assert forall|len: nat| !self.wf_at(len) by {
                            if self.wf_at(len) {
                                if has_entry_of_len(self.tat_view(), n as nat) {
                                    let (k, i) = choose|k: i32, i: int|
                                        self.tat_view().dom().contains(k) && 0 <= i < self.tat_view()[k].len()
                                            && (#[trigger] self.tat_view()[k][i]).hours.len() == n;
                                    assert(self.tat_view()[k][i].hours.len() == len);
                                } else if has_entry_of_len(self.cat_view(), n as nat) {
                                    let (k, i) = choose|k: i32, i: int|
                                        self.cat_view().dom().contains(k) && 0 <= i < self.cat_view()[k].len()
                                            && (#[trigger] self.cat_view()[k][i]).hours.len() == n;
                                    assert(self.cat_view()[k][i].hours.len() == len);
                                } else {
                                    let (k, i) = choose|k: i32, i: int|
                                        self.clean_tat_view().dom().contains(k) && 0 <= i < self.clean_tat_view()[k].len()
                                            && (#[trigger] self.clean_tat_view()[k][i]).hours.len() == n;
                                    assert(self.clean_tat_view()[k][i].hours.len() == len);
                                }
                            }
                        }
                    }
                    None
                }
            },
            None => {
                let mut top: usize = 0;
                let mut j: usize = 0;
                while j < self.timetables.len()
                    invariant
                        j <= self.sched().len(),
                        top <= 32768,
                        forall|x: int| 0 <= x < j ==> #[trigger] self.sched()[x].hour < top,
                        top == 0 || exists|x: int| 0 <= x < j && #[trigger] self.sched()[x].hour == top - 1,
                    decreases self.timetables.len() - j,
                {
                    let h = self.timetables[j].hour;
                    if h >= 0 && h as usize >= top {
                        top = h as usize + 1;
                    }
                    j = j + 1;
                }
                if self.check_at(top) {
                    Some(top)
                } else {
                    proof {
                        assert forall|len: nat| !self.wf_at(len) by {
                            if self.wf_at(len) {
                                assert(top <= len) by {
                                    if top > 0 {
                                        let x = choose|x: int| 0 <= x < self.sched().len() && #[trigger] self.sched()[x].hour == top - 1;
                                        assert(self.sched()[x].hour < len);
                                    }
                                }
                            }
                        }
                    }
                    None
                }
            },
        }
    }
}


/// The hours of day limitation `l` among its first `n` that are taken, as
/// pairs of its day and the hour, in order.
pub open spec fn taken_of(l: DayView, n: int) -> Seq<(i32, int)>
    decreases n,
{
    if n <= 0 {
        Seq::empty()
    } else {
        let r = taken_of(l, n - 1);
        if !l.hours[n - 1] {
            r.push((l.day, n - 1))
        } else {
            r
        }
    }
}

/// The hours that the limitations `ls` mark as taken, as pairs of a day and
/// an hour, in order.
pub open spec fn taken_hours(ls: Seq<DayView>) -> Seq<(i32, int)>
    decreases ls.len(),
{
    if ls.len() == 0 {
        Seq::empty()
    } else {
        taken_hours(ls.drop_last()) + taken_of(ls.last(), ls.last().hours.len() as int)
    }
}

/// Position `i` of `sched` is an hour on day `d` at hour `h` of one of `acts`.
pub open spec fn sched_hit(sched: Seq<Schedule>, acts: Seq<FullActivity>, d: i32, h: int, i: int) -> bool {
    &&& 0 <= i < sched.len()
    &&& sched[i].day_id == d
    &&& sched[i].hour == h
    &&& exists|j: int| 0 <= j < acts.len() && #[trigger] acts[j].id == sched[i].activity
}

/// Position `i` is the first position of `sched` that is an hour on day `d`
/// at hour `h` of one of `acts`.
pub open spec fn first_hit(sched: Seq<Schedule>, acts: Seq<FullActivity>, d: i32, h: int, i: int) -> bool {
    &&& sched_hit(sched, acts, d, h, i)
    &&& forall|k: int| 0 <= k < i ==> !#[trigger] sched_hit(sched, acts, d, h, k)
}

/// The activity of `acts` that has the first hour of `sched` on day `d` at
/// hour `h` among the hours of `acts`: the first activity of `acts` with the
/// id of that hour.
pub open spec fn hit_at(sched: Seq<Schedule>, acts: Seq<FullActivity>, d: i32, h: int) -> Option<ActivityView> {
    if exists|i: int| #[trigger] first_hit(sched, acts, d, h, i) {
        let i = choose|i: int| #[trigger] first_hit(sched, acts, d, h, i);
        let j = choose|j: int|
            0 <= j < acts.len() && acts[j].id == sched[i].activity && forall|k: int|
                0 <= k < j ==> #[trigger] acts[k].id != sched[i].activity;
        Some(acts[j].activity_view())
    } else {
        None
    }
}

/// The activities hit at the hours `pairs`, in order.
pub open spec fn hits(sched: Seq<Schedule>, acts: Seq<FullActivity>, pairs: Seq<(i32, int)>) -> Seq<ActivityView>
    decreases pairs.len(),
{
    if pairs.len() == 0 {
        Seq::empty()
    } else {
        let r = hits(sched, acts, pairs.drop_last());
        match hit_at(sched, acts, pairs.last().0, pairs.last().1) {
            Some(a) => r.push(a),
            None => r,
        }
    }
}

/// The free hours of teachers and classes and the placed hours after the
/// activities `acts` are removed one after the other.
pub open spec fn delete_all(
    t: Map<i32, Seq<DayView>>,
    c: Map<i32, Seq<DayView>>,
    s: Seq<Schedule>,
    acts: Seq<ActivityView>,
) -> (Map<i32, Seq<DayView>>, Map<i32, Seq<DayView>>, Seq<Schedule>)
    decreases acts.len(),
{
    if acts.len() == 0 {
        (t, c, s)
    } else {
        let (t1, c1, s1) = delete_all(t, c, s, acts.drop_last());
        let a = acts.last();
        (free_table(t1, a.teachers, s1, a.id), free_table(c1, a.classes, s1, a.id), without_act(s1, a.id))
    }
}

/// The position in `acts` of the activity hit on day `d` at hour `h`.
fn find_hit(sched: &Vec<Schedule>, acts: &Vec<FullActivity>, d: i32, h: usize) -> (r: Option<usize>)
    ensures
        match r {
            Some(j) => j < acts@.len() && hit_at(sched@, acts@, d, h as int) == Some(acts@[j as int].activity_view()),
            None => hit_at(sched@, acts@, d, h as int) is None,
        },
{
    let mut i: usize = 0;
    while i < sched.len()
        invariant
            i <= sched@.len(),
            forall|k: int| 0 <= k < i ==> !#[trigger] sched_hit(sched@, acts@, d, h as int, k),
        decreases sched.len() - i,
    {
        let sc = sched[i];
        if sc.day_id == d && sc.hour >= 0 && sc.hour as usize == h {
            let mut j: usize = 0;
            while j < acts.len()
                invariant
                    j <= acts@.len(),
                    i < sched@.len(),
                    sc == sched@[i as int],
                    sc.day_id == d,
                    sc.hour == h,
                    forall|k: int| 0 <= k < i ==> !#[trigger] sched_hit(sched@, acts@, d, h as int, k),
                    forall|k: int| 0 <= k < j ==> #[trigger] acts@[k].id != sc.activity,
                decreases acts.len() - j,
            {
                if acts[j].id == sc.activity {
                    proof {
                        assert(sched_hit(sched@, acts@, d, h as int, i as int));
                        assert(first_hit(sched@, acts@, d, h as int, i as int));
                        let i2 = choose|i2: int| #[trigger] first_hit(sched@, acts@, d, h as int, i2);
                        assert(i2 == i) by {
                            if i2 < i {
                            } else if i2 > i {
                                assert(!sched_hit(sched@, acts@, d, h as int, i as int));
                            }
                        }
                        let j2 = choose|j2: int|
                            0 <= j2 < acts@.len() && acts@[j2].id == sched@[i as int].activity && forall|k: int|
                                0 <= k < j2 ==> #[trigger] acts@[k].id != sched@[i as int].activity;
                        assert(j2 == j) by {
                            if j2 < j {
                            } else if j2 > j {
                                assert(acts@[j as int].id == sched@[i as int].activity);
                            }
                        }
                    }
                    return Some(j);
                }
                j = j + 1;
            }
        }
        i = i + 1;
    }
    proof {
        assert forall|i2: int| !#[trigger] first_hit(sched@, acts@, d, h as int, i2) by {
            if 0 <= i2 < sched@.len() {
                assert(!sched_hit(sched@, acts@, d, h as int, i2));
            }
        }
    }
    None
}

impl TimetableData {
    /// Takes out of the timetable the activities of teacher `t_acts` that sit
    /// at hours the teacher's new limitations `t_lim` mark as taken: for each
    /// taken hour, in order, the first hour of `schedules` there that belongs
    /// to one of `t_acts` has its activity removed.
    pub fn change_tat(&mut self, t_lim: &Vec<TeacherLimitation>, schedules: &Vec<Schedule>, t_acts: &Vec<FullActivity>)
        requires
            exists|len: nat| old(self).wf_at(len),
        ensures
            forall|len: nat| old(self).wf_at(len) ==> final(self).wf_at(len),
            final(self).same_frame(*old(self)),
            (final(self).tat_view(), final(self).cat_view(), final(self).sched()) == delete_all(
                old(self).tat_view(),
                old(self).cat_view(),
                old(self).sched(),
                hits(schedules@, t_acts@, taken_hours(list_view(t_lim@))),
            ),
    {
        let ghost len = choose|len: nat| self.wf_at(len);
        let ghost old_self = *self;
        let ghost mut done: Seq<ActivityView> = Seq::empty();
        let mut a: usize = 0;
        proof {
            assert(list_view(t_lim@.take(0)) =~= Seq::<DayView>::empty());
        }
        while a < t_lim.len()
            invariant
                a <= t_lim@.len(),
                forall|l: nat| old_self.wf_at(l) ==> self.wf_at(l),
                old_self.wf_at(len),
                self.same_frame(old_self),
                (self.tat_view(), self.cat_view(), self.sched()) == delete_all(
                    old_self.tat_view(),
                    old_self.cat_view(),
                    old_self.sched(),
                    done,
                ),
                done == hits(schedules@, t_acts@, taken_hours(list_view(t_lim@.take(a as int)))),
            decreases t_lim.len() - a,
        {
            let ghost lv = t_lim@[a as int].slots();
            let ghost base = taken_hours(list_view(t_lim@.take(a as int)));
            let mut h: usize = 0;
            proof {
                assert(base + taken_of(lv, 0) =~= base);
            }
            while h < t_lim[a].hours.len()
                invariant
                    a < t_lim@.len(),
                    lv == t_lim@[a as int].slots(),
                    h <= lv.hours.len(),
                    forall|l: nat| old_self.wf_at(l) ==> self.wf_at(l),
                    old_self.wf_at(len),
                    self.same_frame(old_self),
                    (self.tat_view(), self.cat_view(), self.sched()) == delete_all(
                        old_self.tat_view(),
                        old_self.cat_view(),
                        old_self.sched(),
                        done,
                    ),
                    done == hits(schedules@, t_acts@, base + taken_of(lv, h as int)),
                decreases t_lim[a as int].hours@.len() - h,
            {
                let ghost pre = base + taken_of(lv, h as int);
                if !t_lim[a].hours[h] {
                    let ghost pt = (lv.day, h as int);
                    proof {
                        assert(base + taken_of(lv, h + 1) =~= pre.push(pt));
                        assert(pre.push(pt).drop_last() =~= pre);
                    }
                    match find_hit(schedules, t_acts, t_lim[a].day, h) {
                        Some(j) => {
                            let act = t_acts[j].to_activity();
                            let ghost before = *self;
                            self.delete_activity(&act, Ghost(len));
                            proof {
                                assert forall|l: nat| old_self.wf_at(l) implies self.wf_at(l) by {
                                    assert(before.wf_at(l));
                                    lemma_without_act_hours(before.sched(), act.id, l);
                                    before.lemma_wf_frame(*self, l);
                                }
                                done = done.push(act@);
                                assert(done.drop_last() =~= hits(schedules@, t_acts@, pre));
                            }
                        },
                        None => {},
                    }
                } else {
                    proof {
                        assert(base + taken_of(lv, h + 1) =~= pre);
                    }
                }
                h = h + 1;
            }
            proof {
                assert(t_lim@.take(a + 1).drop_last() =~= t_lim@.take(a as int));
                assert(list_view(t_lim@.take(a + 1)) =~= list_view(t_lim@.take(a as int)).push(lv));
                assert(list_view(t_lim@.take(a + 1)).drop_last() =~= list_view(t_lim@.take(a as int)));
            }
            a = a + 1;
        }
        proof {
            assert(t_lim@.take(t_lim@.len() as int) =~= t_lim@);
        }
    }
}

/// Some hour of `sched` on day `d` belongs to one of `ids` exactly when
/// [`count_same_day`] counts at least one.
proof fn lemma_count_same_day_pos(sched: Seq<Schedule>, d: i32, ids: Seq<i32>)
    ensures
        count_same_day(sched, d, ids) > 0 <==> exists|j: int|
            0 <= j < sched.len() && #[trigger] sched[j].day_id == d && ids.contains(sched[j].activity),
    decreases sched.len(),
{
    if sched.len() > 0 {
        let init = sched.drop_last();
        lemma_count_same_day_pos(init, d, ids);
        if exists|j: int| 0 <= j < sched.len() && #[trigger] sched[j].day_id == d && ids.contains(sched[j].activity) {
            let j = choose|j: int| 0 <= j < sched.len() && #[trigger] sched[j].day_id == d && ids.contains(sched[j].activity);
            if j < init.len() {
                assert(init[j] == sched[j]);
            }
        }
        if exists|j: int| 0 <= j < init.len() && #[trigger] init[j].day_id == d && ids.contains(init[j].activity) {
            let j = choose|j: int| 0 <= j < init.len() && #[trigger] init[j].day_id == d && ids.contains(init[j].activity);
            assert(sched[j] == init[j]);
        }
    }
}

/// The same-day rule of a slot. When the day already holds hours of
/// activities recorded with the same teachers and classes as `a`, a slot
/// that can take `a` starts right after one of those hours or ends right
/// before one of them, and together with them `a` does not exceed the daily
/// cap `params.hour`.
pub proof fn lemma_slot_same_day_adjacent(data: TimetableData, a: ActivityView, d: i32, h: int, params: Params, len: nat, j0: int)
    requires
        data.slot_ok(a, d, h, params, len),
        data.teachers_acts@.contains_key(a.id),
        0 <= j0 < data.sched().len(),
        data.sched()[j0].day_id == d,
        exists|k: int|
            0 <= k < data.teachers_acts@[a.id]@.len() && #[trigger] data.teachers_acts@[a.id]@[k].id
                == data.sched()[j0].activity,
    ensures
        exists|j: int|
            0 <= j < data.sched().len() && #[trigger] data.sched()[j].day_id == d && (exists|k: int|
                0 <= k < data.teachers_acts@[a.id]@.len() && #[trigger] data.teachers_acts@[a.id]@[k].id
                    == data.sched()[j].activity) && ((h > 0 && data.sched()[j].hour == h - 1) || data.sched()[j].hour
                == h + a.hour),
        a.hour + count_same_day(data.sched(), d, full_ids(data.teachers_acts@[a.id]@)) <= params.hour as i16,
{
    let group = data.teachers_acts@[a.id]@;
    let ids = full_ids(group);
    let k = choose|k: int| 0 <= k < group.len() && #[trigger] group[k].id == data.sched()[j0].activity;
    assert(ids[k] == group[k].id);
    assert(ids.contains(data.sched()[j0].activity));
    lemma_count_same_day_pos(data.sched(), d, ids);
    assert(count_same_day(data.sched(), d, ids) > 0);
    let j = choose|j: int|
        0 <= j < data.sched().len() && (#[trigger] data.sched()[j]).day_id == d && ids.contains(data.sched()[j].activity)
            && ((h > 0 && data.sched()[j].hour == h - 1) || data.sched()[j].hour == h + a.hour);
    let m = choose|m: int| 0 <= m < ids.len() && ids[m] == data.sched()[j].activity;
    assert(group[m].id == data.sched()[j].activity);
}

proof fn lemma_taken_of_contains(l: DayView, n: int, h: int)
    requires
        0 <= h < n,
        !l.hours[h],
    ensures
        taken_of(l, n).contains((l.day, h)),
    decreases n,
{
    if h == n - 1 {
        assert(taken_of(l, n)[taken_of(l, n).len() - 1] == (l.day, h));
    } else {
        lemma_taken_of_contains(l, n - 1, h);
        let r = taken_of(l, n - 1);
        let k = choose|k: int| 0 <= k < r.len() && r[k] == (l.day, h);
        if !l.hours[n - 1] {
            assert(r.push((l.day, n - 1))[k] == r[k]);
        }
    }
}

proof fn lemma_taken_hours_contains(ls: Seq<DayView>, li: int, h: int)
    requires
        0 <= li < ls.len(),
        0 <= h < ls[li].hours.len(),
        !ls[li].hours[h],
    ensures
        taken_hours(ls).contains((ls[li].day, h)),
    decreases ls.len(),
{
    let init = ls.drop_last();
    let tail = taken_of(ls.last(), ls.last().hours.len() as int);
    if li == ls.len() - 1 {
        lemma_taken_of_contains(ls.last(), ls.last().hours.len() as int, h);
        let k = choose|k: int| 0 <= k < tail.len() && tail[k] == (ls[li].day, h);
        assert((taken_hours(init) + tail)[taken_hours(init).len() + k] == tail[k]);
    } else {
        assert(init[li] == ls[li]);
        lemma_taken_hours_contains(init, li, h);
        let k = choose|k: int| 0 <= k < taken_hours(init).len() && taken_hours(init)[k] == (ls[li].day, h);
        assert((taken_hours(init) + tail)[k] == taken_hours(init)[k]);
    }
}

proof fn lemma_first_hit_exists(sched: Seq<Schedule>, acts: Seq<FullActivity>, d: i32, h: int, i: int)
    requires
        sched_hit(sched, acts, d, h, i),
    ensures
        exists|f: int| #[trigger] first_hit(sched, acts, d, h, f),
    decreases i,
{
    if exists|k: int| 0 <= k < i && #[trigger] sched_hit(sched, acts, d, h, k) {
        let k = choose|k: int| 0 <= k < i && #[trigger] sched_hit(sched, acts, d, h, k);
        lemma_first_hit_exists(sched, acts, d, h, k);
    } else {
        assert(first_hit(sched, acts, d, h, i));
    }
}

proof fn lemma_hit_at_some(sched: Seq<Schedule>, acts: Seq<FullActivity>, d: i32, h: int, i: int)
    requires
        sched_hit(sched, acts, d, h, i),
    ensures
        hit_at(sched, acts, d, h) is Some,
        exists|f: int, j: int|
            0 <= f < sched.len() && sched[f].day_id == d && sched[f].hour == h && 0 <= j < acts.len()
                && #[trigger] acts[j].id == #[trigger] sched[f].activity && hit_at(sched, acts, d, h)->0.id == acts[j].id,
{
    lemma_first_hit_exists(sched, acts, d, h, i);
    let f = choose|f: int| #[trigger] first_hit(sched, acts, d, h, f);
    assert(exists|j: int| 0 <= j < acts.len() && #[trigger] acts[j].id == sched[f].activity);
    let j0 = choose|j: int| 0 <= j < acts.len() && #[trigger] acts[j].id == sched[f].activity;
    lemma_first_id(acts, sched[f].activity, j0);
    let j = choose|j: int|
        0 <= j < acts.len() && acts[j].id == sched[f].activity && forall|k: int|
            0 <= k < j ==> #[trigger] acts[k].id != sched[f].activity;
    assert(hit_at(sched, acts, d, h) == Some(acts[j].activity_view()));
}

/// A list with an activity of id `id` has a first one.
proof fn lemma_first_id(acts: Seq<FullActivity>, id: i32, j: int)
    requires
        0 <= j < acts.len(),
        acts[j].id == id,
    ensures
        exists|j2: int| 0 <= j2 < acts.len() && acts[j2].id == id && forall|k: int| 0 <= k < j2 ==> #[trigger] acts[k].id != id,
    decreases j,
{
    if exists|k: int| 0 <= k < j && #[trigger] acts[k].id == id {
        let k = choose|k: int| 0 <= k < j && #[trigger] acts[k].id == id;
        lemma_first_id(acts, id, k);
    }
}

proof fn lemma_hits_contains(sched: Seq<Schedule>, acts: Seq<FullActivity>, pairs: Seq<(i32, int)>, k: int)
    requires
        0 <= k < pairs.len(),
        hit_at(sched, acts, pairs[k].0, pairs[k].1) is Some,
    ensures
        hits(sched, acts, pairs).contains(hit_at(sched, acts, pairs[k].0, pairs[k].1)->0),
    decreases pairs.len(),
{
    let init = pairs.drop_last();
    let r = hits(sched, acts, init);
    if k == pairs.len() - 1 {
        let x = hit_at(sched, acts, pairs[k].0, pairs[k].1)->0;
        assert(r.push(x)[r.len() as int] == x);
    } else {
        assert(init[k] == pairs[k]);
        lemma_hits_contains(sched, acts, init, k);
        let x = hit_at(sched, acts, pairs[k].0, pairs[k].1)->0;
        let m = choose|m: int| 0 <= m < r.len() && r[m] == x;
        match hit_at(sched, acts, pairs.last().0, pairs.last().1) {
            Some(a) => {
                assert(r.push(a)[m] == x);
            },
            None => {},
        }
    }
}

proof fn lemma_delete_all_unplaced(
    t: Map<i32, Seq<DayView>>,
    c: Map<i32, Seq<DayView>>,
    s: Seq<Schedule>,
    acts: Seq<ActivityView>,
    k: int,
)
    requires
        0 <= k < acts.len(),
    ensures
        !placed_ids(delete_all(t, c, s, acts).2).contains(acts[k].id),
    decreases acts.len(),
{
    let init = acts.drop_last();
    let (t1, c1, s1) = delete_all(t, c, s, init);
    lemma_placed_without(s1, acts.last().id);
    if k < acts.len() - 1 {
        assert(init[k] == acts[k]);
        lemma_delete_all_unplaced(t, c, s, init, k);
    }
}

/// Closing an hour takes its lesson out. For every hour `h` that a new
/// limitation of the teacher (in `t_lim`) closes on its day, when the
/// schedule `schedules` has an hour of one of the teacher's activities
/// `t_acts` there, one of the activities `schedules` has there keeps no hour
/// at all after [`TimetableData::change_tat`] (whose placed hours are
/// `delete_all(..).2` of the activities hit at the closed hours).
pub proof fn lemma_change_tat_frees_closed(
    t: Map<i32, Seq<DayView>>,
    c: Map<i32, Seq<DayView>>,
    s: Seq<Schedule>,
    schedules: Seq<Schedule>,
    t_acts: Seq<FullActivity>,
    t_lim: Seq<DayView>,
    li: int,
    h: int,
    i: int,
)
    requires
        0 <= li < t_lim.len(),
        0 <= h < t_lim[li].hours.len(),
        !t_lim[li].hours[h],
        0 <= i < schedules.len(),
        schedules[i].day_id == t_lim[li].day,
        schedules[i].hour == h,
        exists|j: int| 0 <= j < t_acts.len() && #[trigger] t_acts[j].id == schedules[i].activity,
    ensures
        exists|i2: int, j: int|
            0 <= i2 < schedules.len() && schedules[i2].day_id == t_lim[li].day && schedules[i2].hour == h && 0 <= j
                < t_acts.len() && #[trigger] t_acts[j].id == #[trigger] schedules[i2].activity && !placed_ids(
                delete_all(t, c, s, hits(schedules, t_acts, taken_hours(t_lim))).2,
            ).contains(t_acts[j].id),
{
    let d = t_lim[li].day;
    let pairs = taken_hours(t_lim);
    lemma_taken_hours_contains(t_lim, li, h);
    let k = choose|k: int| 0 <= k < pairs.len() && pairs[k] == (d, h);
    assert(sched_hit(schedules, t_acts, d, h, i));
    lemma_hit_at_some(schedules, t_acts, d, h, i);
    let x = hit_at(schedules, t_acts, d, h)->0;
    let hs = hits(schedules, t_acts, pairs);
    lemma_hits_contains(schedules, t_acts, pairs, k);
    let m = choose|m: int| 0 <= m < hs.len() && hs[m] == x;
    lemma_delete_all_unplaced(t, c, s, hs, m);
}

/// `x` is placed by `sched` on day `d` in the hours `lo .. lo + n`, is not
/// `ignore` and is one of `nb`.
pub open spec fn placed_in_window(sched: Seq<Schedule>, d: i32, lo: int, n: int, ignore: i32, nb: Set<i32>, x: i32) -> bool {
    &&& x != ignore
    &&& nb.contains(x)
    &&& exists|i: int|
        0 <= i < sched.len() && #[trigger] sched[i].activity == x && sched[i].day_id == d && lo <= sched[i].hour < lo + n
}

proof fn lemma_slot_conflicts_member(sched: Seq<Schedule>, d: i32, h: int, ignore: i32, nb: Set<i32>, q: int)
    requires
        0 <= q < slot_conflicts(sched, d, h, ignore, nb).len(),
    ensures
        placed_in_window(sched, d, h, 1, ignore, nb, slot_conflicts(sched, d, h, ignore, nb)[q]),
    decreases sched.len(),
{
    let init = sched.drop_last();
    let r = slot_conflicts(init, d, h, ignore, nb);
    let x = slot_conflicts(sched, d, h, ignore, nb)[q];
    if q < r.len() {
        assert(x == r[q]);
        lemma_slot_conflicts_member(init, d, h, ignore, nb, q);
        let i = choose|i: int|
            0 <= i < init.len() && #[trigger] init[i].activity == x && init[i].day_id == d && h <= init[i].hour < h + 1;
        assert(sched[i] == init[i]);
    } else {
        assert(x == sched.last().activity);
        assert(sched[sched.len() - 1].activity == x);
    }
}

proof fn lemma_window_conflicts_member(sched: Seq<Schedule>, d: i32, lo: int, n: int, ignore: i32, nb: Set<i32>, q: int)
    requires
        0 <= q < window_conflicts(sched, d, lo, n, ignore, nb).len(),
    ensures
        placed_in_window(sched, d, lo, n, ignore, nb, window_conflicts(sched, d, lo, n, ignore, nb)[q]),
    decreases n,
{
    let r = window_conflicts(sched, d, lo, n - 1, ignore, nb);
    let sl = slot_conflicts(sched, d, lo + n - 1, ignore, nb);
    let x = window_conflicts(sched, d, lo, n, ignore, nb)[q];
    if q < r.len() {
        assert(x == r[q]);
        lemma_window_conflicts_member(sched, d, lo, n - 1, ignore, nb, q);
    } else {
        assert(x == sl[q - r.len()]);
        lemma_slot_conflicts_member(sched, d, lo + n - 1, ignore, nb, q - r.len());
    }
}

/// `g` is a conflict group of the day entry `e`: the hours `lo .. lo + n` of
/// `e` are free and inside the day, `g` is not empty, and each of `g` is a
/// neighbour placed in those hours.
pub open spec fn group_of_entry(e: DayView, n: int, sched: Seq<Schedule>, ignore: i32, nb: Set<i32>, g: Seq<i32>) -> bool {
    exists|lo: int|
        0 <= lo && lo + n <= e.hours.len() && #[trigger] e.free_range(lo, n) && g.len() > 0 && forall|q: int|
            0 <= q < g.len() ==> placed_in_window(sched, e.day, lo, n, ignore, nb, #[trigger] g[q])
}

proof fn lemma_entry_groups_member(e: DayView, upto: int, n: int, sched: Seq<Schedule>, ignore: i32, nb: Set<i32>, q: int)
    requires
        0 <= q < entry_groups(e, upto, n, sched, ignore, nb).len(),
    ensures
        group_of_entry(e, n, sched, ignore, nb, entry_groups(e, upto, n, sched, ignore, nb)[q]),
    decreases upto,
{
    let h = upto - 1;
    let w = window_conflicts(sched, e.day, h, n, ignore, nb);
    let r = entry_groups(e, upto - 1, n, sched, ignore, nb);
    let g = entry_groups(e, upto, n, sched, ignore, nb)[q];
    if q < r.len() {
        assert(g == r[q]);
        lemma_entry_groups_member(e, upto - 1, n, sched, ignore, nb, q);
    } else {
        assert(g == w);
        assert forall|q2: int| 0 <= q2 < g.len() implies placed_in_window(sched, e.day, h, n, ignore, nb, #[trigger] g[q2]) by {
            lemma_window_conflicts_member(sched, e.day, h, n, ignore, nb, q2);
        }
        assert(e.free_range(h, n));
    }
}

proof fn lemma_list_groups_member(es: Seq<DayView>, n: int, sched: Seq<Schedule>, ignore: i32, nb: Set<i32>, q: int)
    requires
        0 <= q < list_groups(es, n, sched, ignore, nb).len(),
    ensures
        exists|ei: int|
            0 <= ei < es.len() && #[trigger] group_of_entry(es[ei], n, sched, ignore, nb, list_groups(es, n, sched, ignore, nb)[q]),
    decreases es.len(),
{
    let init = es.drop_last();
    let r = list_groups(init, n, sched, ignore, nb);
    let g = list_groups(es, n, sched, ignore, nb)[q];
    if q < r.len() {
        assert(g == r[q]);
        lemma_list_groups_member(init, n, sched, ignore, nb, q);
        let ei = choose|ei: int| 0 <= ei < init.len() && #[trigger] group_of_entry(init[ei], n, sched, ignore, nb, r[q]);
        assert(es[ei] == init[ei]);
    } else {
        let eg = entry_groups(es.last(), es.last().hours.len() as int, n, sched, ignore, nb);
        assert(g == eg[q - r.len()]);
        lemma_entry_groups_member(es.last(), es.last().hours.len() as int, n, sched, ignore, nb, q - r.len());
        assert(es[es.len() - 1] == es.last());
    }
}

proof fn lemma_teachers_groups_member(
    m: Map<i32, Seq<DayView>>,
    ids: Seq<i32>,
    n: int,
    sched: Seq<Schedule>,
    ignore: i32,
    nb: Set<i32>,
    q: int,
)
    requires
        0 <= q < teachers_groups(m, ids, n, sched, ignore, nb).len(),
    ensures
        exists|t: int, ei: int|
            0 <= t < ids.len() && 0 <= ei < m[ids[t]].len() && #[trigger] group_of_entry(
                #[trigger] m[ids[t]][ei],
                n,
                sched,
                ignore,
                nb,
                teachers_groups(m, ids, n, sched, ignore, nb)[q],
            ),
    decreases ids.len(),
{
    let init = ids.drop_last();
    let r = teachers_groups(m, init, n, sched, ignore, nb);
    let g = teachers_groups(m, ids, n, sched, ignore, nb)[q];
    if q < r.len() {
        assert(g == r[q]);
        lemma_teachers_groups_member(m, init, n, sched, ignore, nb, q);
        let (t, ei) = choose|t: int, ei: int|
            0 <= t < init.len() && 0 <= ei < m[init[t]].len() && #[trigger] group_of_entry(
                #[trigger] m[init[t]][ei],
                n,
                sched,
                ignore,
                nb,
                r[q],
            );
        assert(ids[t] == init[t]);
    } else {
        let lg = list_groups(m[ids.last()], n, sched, ignore, nb);
        assert(g == lg[q - r.len()]);
        lemma_list_groups_member(m[ids.last()], n, sched, ignore, nb, q - r.len());
        let ei = choose|ei: int|
            0 <= ei < m[ids.last()].len() && #[trigger] group_of_entry(m[ids.last()][ei], n, sched, ignore, nb, g);
        assert(ids[ids.len() - 1] == ids.last());
    }
}

/// Every conflict group of `a` comes from a free window: a clean limitation
/// of one of the teachers of `a` has the hours `lo .. lo + a.hour` free
/// (and inside its day), and the group is the non-empty list of the other
/// neighbours of `a` placed on that day in those hours.
pub proof fn lemma_conflict_groups_free_windows(data: TimetableData, a: ActivityView, ignore: i32, k: int)
    requires
        0 <= k < data.conflict_groups(a, ignore).len(),
    ensures
        exists|t: int, ei: int, lo: int|
            0 <= t < a.teachers.len() && 0 <= ei < data.clean_tat_view()[a.teachers[t]].len() && 0 <= lo && lo + a.hour
                <= data.clean_tat_view()[a.teachers[t]][ei].hours.len() && #[trigger] data.clean_tat_view()[a.teachers[t]][ei].free_range(
                lo,
                a.hour as int,
            ) && data.conflict_groups(a, ignore)[k].len() > 0 && forall|q: int|
                0 <= q < data.conflict_groups(a, ignore)[k].len() ==> #[trigger] placed_in_window(
                    data.sched(),
                    data.clean_tat_view()[a.teachers[t]][ei].day,
                    lo,
                    a.hour as int,
                    ignore,
                    data.neighbours_of(a).dom(),
                    data.conflict_groups(a, ignore)[k][q],
                ),
{
    let m = data.clean_tat_view();
    let nb = data.neighbours_of(a).dom();
    lemma_teachers_groups_member(m, a.teachers, a.hour as int, data.sched(), ignore, nb, k);
    let (t, ei) = choose|t: int, ei: int|
        0 <= t < a.teachers.len() && 0 <= ei < m[a.teachers[t]].len() && #[trigger] group_of_entry(
            #[trigger] m[a.teachers[t]][ei],
            a.hour as int,
            data.sched(),
            ignore,
            nb,
            data.conflict_groups(a, ignore)[k],
        );
    let e = m[a.teachers[t]][ei];
    let lo = choose|lo: int|
        0 <= lo && lo + a.hour <= e.hours.len() && #[trigger] e.free_range(lo, a.hour as int) && data.conflict_groups(a, ignore)[k].len() > 0
            && forall|q: int|
            0 <= q < data.conflict_groups(a, ignore)[k].len() ==> placed_in_window(
                data.sched(),
                e.day,
                lo,
                a.hour as int,
                ignore,
                nb,
                #[trigger] data.conflict_groups(a, ignore)[k][q],
            );
}

/// The hours of `sched` on day `d` of activities of the group `g`.
pub open spec fn same_day_hours(sched: Seq<Schedule>, d: i32, g: Seq<FullActivity>) -> Seq<Schedule> {
    sched.filter(|e: Schedule| e.day_id == d && exists|k: int| 0 <= k < g.len() && #[trigger] g[k].id == e.activity)
}

proof fn lemma_count_same_day_filter(sched: Seq<Schedule>, d: i32, g: Seq<FullActivity>)
    ensures
        count_same_day(sched, d, full_ids(g)) == same_day_hours(sched, d, g).len(),
    decreases sched.len(),
{
    let pred = |e: Schedule| e.day_id == d && exists|k: int| 0 <= k < g.len() && #[trigger] g[k].id == e.activity;
    reveal(Seq::filter);
    if sched.len() > 0 {
        let init = sched.drop_last();
        lemma_count_same_day_filter(init, d, g);
        assert(sched =~= init.push(sched.last()));
        init.lemma_filter_push(sched.last(), pred);
        let x = sched.last().activity;
        if full_ids(g).contains(x) {
            let m = choose|m: int| 0 <= m < full_ids(g).len() && full_ids(g)[m] == x;
            assert(g[m].id == x);
        }
        if exists|k: int| 0 <= k < g.len() && #[trigger] g[k].id == x {
            let k = choose|k: int| 0 <= k < g.len() && #[trigger] g[k].id == x;
            assert(full_ids(g)[k] == x);
        }
    } else {
        assert(sched.filter(pred) =~= Seq::<Schedule>::empty());
    }
}

/// The same-day rule, in full. A slot from hour `h` of day `d` passes it
/// exactly when: `a` has no group of activities with the same teachers and
/// classes recorded, or the day holds no hour of that group, or the day's
/// hours of the group together with `a` stay within `params.hour` and one of
/// them sits right before the slot or right after it.
pub proof fn lemma_same_day_rule(data: TimetableData, a: ActivityView, h: int, d: i32, params: Params)
    ensures
        data.spec_same_day_available(a, h, d, params) <==> (!data.teachers_acts@.contains_key(a.id) || {
            let same = same_day_hours(data.sched(), d, data.teachers_acts@[a.id]@);
            same.len() == 0 || (a.hour + same.len() <= params.hour as i16 && exists|j: int|
                0 <= j < same.len() && ((h > 0 && #[trigger] same[j].hour == h - 1) || same[j].hour == h + a.hour))
        }),
{
    broadcast use vstd::seq_lib::group_filter_ensures;
    if data.teachers_acts@.contains_key(a.id) {
        let g = data.teachers_acts@[a.id]@;
        let ids = full_ids(g);
        let sched = data.sched();
        let same = same_day_hours(sched, d, g);
        let pred = |e: Schedule| e.day_id == d && exists|k: int| 0 <= k < g.len() && #[trigger] g[k].id == e.activity;
        lemma_count_same_day_filter(sched, d, g);
        let adj_sched = exists|j: int|
            0 <= j < sched.len() && (#[trigger] sched[j]).day_id == d && ids.contains(sched[j].activity) && ((h > 0
                && sched[j].hour == h - 1) || sched[j].hour == h + a.hour);
        let adj_same = exists|j: int| 0 <= j < same.len() && ((h > 0 && #[trigger] same[j].hour == h - 1) || same[j].hour == h + a.hour);
        if adj_sched {
            let j = choose|j: int|
                0 <= j < sched.len() && (#[trigger] sched[j]).day_id == d && ids.contains(sched[j].activity) && ((h > 0
                    && sched[j].hour == h - 1) || sched[j].hour == h + a.hour);
            let m = choose|m: int| 0 <= m < ids.len() && ids[m] == sched[j].activity;
            assert(g[m].id == sched[j].activity);
            assert(pred(sched[j]));
            sched.lemma_filter_contains(pred, j);
            let q = choose|q: int| 0 <= q < same.len() && same[q] == sched[j];
            assert(adj_same);
        }
        if adj_same {
            let q = choose|q: int| 0 <= q < same.len() && ((h > 0 && #[trigger] same[q].hour == h - 1) || same[q].hour == h + a.hour);
            assert(same.contains(same[q]));
            sched.lemma_filter_contains_rev(pred, same[q]);
            assert(pred(same[q]));
            let j = choose|j: int| 0 <= j < sched.len() && sched[j] == same[q];
            let k = choose|k: int| 0 <= k < g.len() && #[trigger] g[k].id == same[q].activity;
            assert(ids[k] == g[k].id);
            assert(adj_sched);
        }
    }
}

proof fn lemma_concat_contains<A>(a: Seq<A>, b: Seq<A>, x: A)
    requires
        a.contains(x) || b.contains(x),
    ensures
        (a + b).contains(x),
{
    if a.contains(x) {
        let i = choose|i: int| 0 <= i < a.len() && a[i] == x;
        assert((a + b)[i] == x);
    } else {
        let i = choose|i: int| 0 <= i < b.len() && b[i] == x;
        assert((a + b)[a.len() + i] == x);
    }
}

proof fn lemma_slot_conflicts_complete(sched: Seq<Schedule>, d: i32, hh: int, ignore: i32, nb: Set<i32>, i: int)
    requires
        0 <= i < sched.len(),
        sched[i].day_id == d,
        sched[i].hour == hh,
        sched[i].activity != ignore,
        nb.contains(sched[i].activity),
    ensures
        slot_conflicts(sched, d, hh, ignore, nb).contains(sched[i].activity),
    decreases sched.len(),
{
    let init = sched.drop_last();
    let e = sched.last();
    let tail = if e.day_id == d && e.hour == hh && ignore != e.activity && nb.contains(e.activity) {
        seq![e.activity]
    } else {
        Seq::empty()
    };
    if i < init.len() {
        assert(init[i] == sched[i]);
        lemma_slot_conflicts_complete(init, d, hh, ignore, nb, i);
    } else {
        assert(tail[0] == sched[i].activity);
    }
    lemma_concat_contains(slot_conflicts(init, d, hh, ignore, nb), tail, sched[i].activity);
}

proof fn lemma_window_conflicts_complete(sched: Seq<Schedule>, d: i32, lo: int, n: int, ignore: i32, nb: Set<i32>, i: int)
    requires
        0 <= i < sched.len(),
        sched[i].day_id == d,
        lo <= sched[i].hour < lo + n,
        sched[i].activity != ignore,
        nb.contains(sched[i].activity),
    ensures
        window_conflicts(sched, d, lo, n, ignore, nb).contains(sched[i].activity),
    decreases n,
{
    let r = window_conflicts(sched, d, lo, n - 1, ignore, nb);
    let sl = slot_conflicts(sched, d, lo + n - 1, ignore, nb);
    if sched[i].hour == lo + n - 1 {
        lemma_slot_conflicts_complete(sched, d, lo + n - 1, ignore, nb, i);
    } else {
        lemma_window_conflicts_complete(sched, d, lo, n - 1, ignore, nb, i);
    }
    lemma_concat_contains(r, sl, sched[i].activity);
}

proof fn lemma_entry_groups_complete(e: DayView, upto: int, n: int, sched: Seq<Schedule>, ignore: i32, nb: Set<i32>, lo: int)
    requires
        0 <= lo < upto,
        lo + n <= e.hours.len(),
        e.free_range(lo, n),
        window_conflicts(sched, e.day, lo, n, ignore, nb).len() > 0,
    ensures
        entry_groups(e, upto, n, sched, ignore, nb).contains(window_conflicts(sched, e.day, lo, n, ignore, nb)),
    decreases upto,
{
    let h = upto - 1;
    let w = window_conflicts(sched, e.day, h, n, ignore, nb);
    let r = entry_groups(e, upto - 1, n, sched, ignore, nb);
    let tail = if h + n <= e.hours.len() && e.free_range(h, n) && w.len() > 0 {
        seq![w]
    } else {
        Seq::empty()
    };
    if lo == h {
        assert(tail[0] == w);
        assert(tail.contains(w));
    } else {
        lemma_entry_groups_complete(e, upto - 1, n, sched, ignore, nb, lo);
    }
    lemma_concat_contains(r, tail, window_conflicts(sched, e.day, lo, n, ignore, nb));
}

proof fn lemma_list_groups_complete(es: Seq<DayView>, n: int, sched: Seq<Schedule>, ignore: i32, nb: Set<i32>, ei: int, w: Seq<i32>)
    requires
        0 <= ei < es.len(),
        entry_groups(es[ei], es[ei].hours.len() as int, n, sched, ignore, nb).contains(w),
    ensures
        list_groups(es, n, sched, ignore, nb).contains(w),
    decreases es.len(),
{
    let init = es.drop_last();
    let tail = entry_groups(es.last(), es.last().hours.len() as int, n, sched, ignore, nb);
    if ei < init.len() {
        assert(init[ei] == es[ei]);
        lemma_list_groups_complete(init, n, sched, ignore, nb, ei, w);
    } else {
        assert(es[ei] == es.last());
    }
    lemma_concat_contains(list_groups(init, n, sched, ignore, nb), tail, w);
}

proof fn lemma_teachers_groups_complete(
    m: Map<i32, Seq<DayView>>,
    ids: Seq<i32>,
    n: int,
    sched: Seq<Schedule>,
    ignore: i32,
    nb: Set<i32>,
    t: int,
    w: Seq<i32>,
)
    requires
        0 <= t < ids.len(),
        list_groups(m[ids[t]], n, sched, ignore, nb).contains(w),
    ensures
        teachers_groups(m, ids, n, sched, ignore, nb).contains(w),
    decreases ids.len(),
{
    let init = ids.drop_last();
    if t < init.len() {
        assert(init[t] == ids[t]);
        lemma_teachers_groups_complete(m, init, n, sched, ignore, nb, t, w);
    } else {
        assert(ids[t] == ids.last());
    }
    lemma_concat_contains(teachers_groups(m, init, n, sched, ignore, nb), list_groups(m[ids.last()], n, sched, ignore, nb), w);
}

/// Every free window with a placed neighbour gives a conflict group: when a
/// clean limitation of a teacher of `a` has the hours `lo .. lo + a.hour`
/// free, and another neighbour `x` of `a` has an hour there on that day, some
/// conflict group of `a` holds `x`.
pub proof fn lemma_conflict_groups_complete(data: TimetableData, a: ActivityView, ignore: i32, t: int, ei: int, lo: int, i: int)
    requires
        0 <= t < a.teachers.len(),
        0 <= ei < data.clean_tat_view()[a.teachers[t]].len(),
        0 <= lo,
        lo + a.hour <= data.clean_tat_view()[a.teachers[t]][ei].hours.len(),
        data.clean_tat_view()[a.teachers[t]][ei].free_range(lo, a.hour as int),
        0 <= i < data.sched().len(),
        data.sched()[i].day_id == data.clean_tat_view()[a.teachers[t]][ei].day,
        lo <= data.sched()[i].hour < lo + a.hour,
        data.sched()[i].activity != ignore,
        data.neighbours_of(a).contains_key(data.sched()[i].activity),
    ensures
        exists|k: int|
            0 <= k < data.conflict_groups(a, ignore).len() && #[trigger] data.conflict_groups(a, ignore)[k].contains(
                data.sched()[i].activity,
            ),
{
    let m = data.clean_tat_view();
    let nb = data.neighbours_of(a).dom();
    let n = a.hour as int;
    let e = m[a.teachers[t]][ei];
    let sched = data.sched();
    let x = sched[i].activity;
    let w = window_conflicts(sched, e.day, lo, n, ignore, nb);
    lemma_window_conflicts_complete(sched, e.day, lo, n, ignore, nb, i);
    assert(w.len() > 0);
    lemma_entry_groups_complete(e, e.hours.len() as int, n, sched, ignore, nb, lo);
    lemma_list_groups_complete(m[a.teachers[t]], n, sched, ignore, nb, ei, w);
    lemma_teachers_groups_complete(m, a.teachers, n, sched, ignore, nb, t, w);
    let g = data.conflict_groups(a, ignore);
    let k = choose|k: int| 0 <= k < g.len() && g[k] == w;
    assert(g[k].contains(x));
}

proof fn lemma_taken_of_member(l: DayView, n: int, q: int)
    requires
        0 <= q < taken_of(l, n).len(),
    ensures
        taken_of(l, n)[q].0 == l.day,
        0 <= taken_of(l, n)[q].1 < n,
        !l.hours[taken_of(l, n)[q].1],
    decreases n,
{
    if n > 0 {
        let r = taken_of(l, n - 1);
        if q < r.len() {
            if !l.hours[n - 1] {
                assert(r.push((l.day, n - 1))[q] == r[q]);
            }
            lemma_taken_of_member(l, n - 1, q);
        }
    }
}

proof fn lemma_taken_hours_member(ls: Seq<DayView>, q: int)
    requires
        0 <= q < taken_hours(ls).len(),
    ensures
        exists|li: int|
            0 <= li < ls.len() && #[trigger] ls[li].day == taken_hours(ls)[q].0 && 0 <= taken_hours(ls)[q].1
                < ls[li].hours.len() && !ls[li].hours[taken_hours(ls)[q].1],
    decreases ls.len(),
{
    let init = ls.drop_last();
    let r = taken_hours(init);
    let tail = taken_of(ls.last(), ls.last().hours.len() as int);
    if q < r.len() {
        assert(taken_hours(ls)[q] == r[q]);
        lemma_taken_hours_member(init, q);
        let li = choose|li: int|
            0 <= li < init.len() && #[trigger] init[li].day == r[q].0 && 0 <= r[q].1 < init[li].hours.len() && !init[li].hours[r[q].1];
        assert(ls[li] == init[li]);
    } else {
        assert(taken_hours(ls)[q] == tail[q - r.len()]);
        lemma_taken_of_member(ls.last(), ls.last().hours.len() as int, q - r.len());
        assert(ls[ls.len() - 1] == ls.last());
    }
}

proof fn lemma_hits_member(sched: Seq<Schedule>, acts: Seq<FullActivity>, pairs: Seq<(i32, int)>, q: int)
    requires
        0 <= q < hits(sched, acts, pairs).len(),
    ensures
        exists|k: int|
            0 <= k < pairs.len() && #[trigger] hit_at(sched, acts, pairs[k].0, pairs[k].1) == Some(hits(sched, acts, pairs)[q]),
    decreases pairs.len(),
{
    let init = pairs.drop_last();
    let r = hits(sched, acts, init);
    if q < r.len() {
        match hit_at(sched, acts, pairs.last().0, pairs.last().1) {
            Some(a) => {
                assert(r.push(a)[q] == r[q]);
            },
            None => {},
        }
        lemma_hits_member(sched, acts, init, q);
        let k = choose|k: int| 0 <= k < init.len() && #[trigger] hit_at(sched, acts, init[k].0, init[k].1) == Some(r[q]);
        assert(pairs[k] == init[k]);
    } else {
        assert(pairs[pairs.len() - 1] == pairs.last());
    }
}

proof fn lemma_hit_at_value(sched: Seq<Schedule>, acts: Seq<FullActivity>, d: i32, h: int, v: ActivityView)
    requires
        hit_at(sched, acts, d, h) == Some(v),
    ensures
        exists|i: int|
            0 <= i < sched.len() && #[trigger] sched[i].activity == v.id && sched[i].day_id == d && sched[i].hour == h,
        exists|j: int| 0 <= j < acts.len() && #[trigger] acts[j].id == v.id,
{
    if !(exists|i: int| #[trigger] first_hit(sched, acts, d, h, i)) {
        assert(hit_at(sched, acts, d, h) is None);
    }
    let i = choose|i: int| #[trigger] first_hit(sched, acts, d, h, i);
    assert(sched_hit(sched, acts, d, h, i));
    let j0 = choose|j: int| 0 <= j < acts.len() && #[trigger] acts[j].id == sched[i].activity;
    lemma_first_id(acts, sched[i].activity, j0);
    let j = choose|j: int|
        0 <= j < acts.len() && acts[j].id == sched[i].activity && forall|k: int|
            0 <= k < j ==> #[trigger] acts[k].id != sched[i].activity;
    assert(hit_at(sched, acts, d, h) == Some(acts[j].activity_view()));
    assert(acts[j].activity_view().id == acts[j].id);
    assert(sched[i].activity == v.id);
}

proof fn lemma_delete_all_placed(t: Map<i32, Seq<DayView>>, c: Map<i32, Seq<DayView>>, s: Seq<Schedule>, acts: Seq<ActivityView>, x: i32)
    ensures
        placed_ids(delete_all(t, c, s, acts).2).contains(x) <==> placed_ids(s).contains(x) && forall|k: int|
            0 <= k < acts.len() ==> #[trigger] acts[k].id != x,
    decreases acts.len(),
{
    if acts.len() > 0 {
        let init = acts.drop_last();
        lemma_delete_all_placed(t, c, s, init, x);
        let (t1, c1, s1) = delete_all(t, c, s, init);
        lemma_placed_without(s1, acts.last().id);
        if forall|k: int| 0 <= k < init.len() ==> #[trigger] init[k].id != x {
            if acts.last().id != x {
                assert forall|k: int| 0 <= k < acts.len() implies #[trigger] acts[k].id != x by {
                    if k < init.len() {
                        assert(init[k] == acts[k]);
                    }
                }
            }
        } else {
            let k = choose|k: int| 0 <= k < init.len() && #[trigger] init[k].id == x;
            assert(acts[k] == init[k]);
        }
        if forall|k: int| 0 <= k < acts.len() ==> #[trigger] acts[k].id != x {
            assert forall|k: int| 0 <= k < init.len() implies #[trigger] init[k].id != x by {
                assert(init[k] == acts[k]);
            }
            assert(acts[acts.len() - 1].id != x);
        }
    }
}

/// Closing hours takes out only what sits at them. After
/// [`TimetableData::change_tat`], an activity that had hours keeps them
/// unless `schedules` has an hour of it at an hour that the new limitations
/// `t_lim` close, and it is one of the teacher's activities `t_acts`.
pub proof fn lemma_change_tat_keeps_others(
    t: Map<i32, Seq<DayView>>,
    c: Map<i32, Seq<DayView>>,
    s: Seq<Schedule>,
    schedules: Seq<Schedule>,
    t_acts: Seq<FullActivity>,
    t_lim: Seq<DayView>,
    x: i32,
)
    requires
        placed_ids(s).contains(x),
        !placed_ids(delete_all(t, c, s, hits(schedules, t_acts, taken_hours(t_lim))).2).contains(x),
    ensures
        exists|j: int| 0 <= j < t_acts.len() && #[trigger] t_acts[j].id == x,
        exists|li: int, i: int|
            0 <= li < t_lim.len() && 0 <= i < schedules.len() && #[trigger] schedules[i].activity == x
                && schedules[i].day_id == #[trigger] t_lim[li].day && 0 <= schedules[i].hour < t_lim[li].hours.len()
                && !t_lim[li].hours[schedules[i].hour as int],
{
    let pairs = taken_hours(t_lim);
    let hs = hits(schedules, t_acts, pairs);
    lemma_delete_all_placed(t, c, s, hs, x);
    let q = choose|q: int| 0 <= q < hs.len() && #[trigger] hs[q].id == x;
    lemma_hits_member(schedules, t_acts, pairs, q);
    let k = choose|k: int| 0 <= k < pairs.len() && #[trigger] hit_at(schedules, t_acts, pairs[k].0, pairs[k].1) == Some(hs[q]);
    lemma_hit_at_value(schedules, t_acts, pairs[k].0, pairs[k].1, hs[q]);
    lemma_taken_hours_member(t_lim, k);
    let li = choose|li: int|
        0 <= li < t_lim.len() && #[trigger] t_lim[li].day == pairs[k].0 && 0 <= pairs[k].1 < t_lim[li].hours.len()
            && !t_lim[li].hours[pairs[k].1];
    let i = choose|i: int|
        0 <= i < schedules.len() && #[trigger] schedules[i].activity == hs[q].id && schedules[i].day_id == pairs[k].0
            && schedules[i].hour == pairs[k].1;
    assert(schedules[i].activity == x && schedules[i].day_id == t_lim[li].day);
}

} // verus!
