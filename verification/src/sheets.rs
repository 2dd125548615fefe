use vstd::prelude::*;
use vstd::string::{StrSliceExecFns, StringExecFns};
use crate::msgs::activities::FullActivity;
use crate::msgs::classes::Class;
use crate::msgs::lectures::Lecture;
use crate::msgs::teachers::Teacher;
use crate::msgs::timetables::Schedule;
use crate::client::{
    lecture_name, classes_full_name, teachers_full_name, first_lecture, known_class, class_names, full_names,
    act_teachers,
};
use crate::ids::holds_id;

verus! {

/// Whose week a printed sheet shows.
#[derive(Debug, Clone, Copy)]
pub enum SheetOf {
    Teacher(i32),
    Class(i32),
}

/// Activity `a` is on the sheet of `o`.
pub open spec fn belongs(a: FullActivity, o: SheetOf) -> bool {
    match o {
        SheetOf::Teacher(t) => a.teachers@.contains(t),
        SheetOf::Class(c) => a.classes@.contains(c),
    }
}

/// Position `i` of `sched` is an hour on day `d` at hour `h` of an activity
/// of `acts` that is on the sheet of `o`.
pub open spec fn sheet_hit(sched: Seq<Schedule>, acts: Seq<FullActivity>, o: SheetOf, d: i32, h: int, i: int) -> bool {
    &&& 0 <= i < sched.len()
    &&& sched[i].day_id == d
    &&& sched[i].hour == h
    &&& exists|j: int| 0 <= j < acts.len() && #[trigger] acts[j].id == sched[i].activity && belongs(acts[j], o)
}

/// `i` is the first position of `sched` that is such an hour.
pub open spec fn first_sheet_hit(sched: Seq<Schedule>, acts: Seq<FullActivity>, o: SheetOf, d: i32, h: int, i: int) -> bool {
    &&& sheet_hit(sched, acts, o, d, h, i)
    &&& forall|k: int| 0 <= k < i ==> !#[trigger] sheet_hit(sched, acts, o, d, h, k)
}

/// `j` is the first position of `acts` with id `id` that is on the sheet of `o`.
pub open spec fn sheet_act(acts: Seq<FullActivity>, o: SheetOf, id: i32, j: int) -> bool {
    &&& 0 <= j < acts.len()
    &&& acts[j].id == id
    &&& belongs(acts[j], o)
    &&& forall|k: int| 0 <= k < j ==> !(#[trigger] acts[k].id == id && belongs(acts[k], o))
}

/// `j` is the activity shown on the sheet of `o` on day `d` at hour `h`.
pub open spec fn shown_at(sched: Seq<Schedule>, acts: Seq<FullActivity>, o: SheetOf, d: i32, h: int, j: int) -> bool {
    exists|i: int| #[trigger] first_sheet_hit(sched, acts, o, d, h, i) && sheet_act(acts, o, sched[i].activity, j)
}

fn on_sheet(a: &FullActivity, o: SheetOf) -> (r: bool)
    ensures
        r == belongs(*a, o),
{
    match o {
        SheetOf::Teacher(t) => holds_id(&a.teachers, t),
        SheetOf::Class(c) => holds_id(&a.classes, c),
    }
}

/// The activity shown on the sheet of `o` on day `d` at hour `h`: the first
/// activity of `acts` on the sheet with the id of the first hour of `sched`
/// there that belongs to such an activity.
pub fn sheet_find(sched: &Vec<Schedule>, acts: &Vec<FullActivity>, o: SheetOf, d: i32, h: usize) -> (r: Option<usize>)
    ensures
        match r {
            Some(j) => shown_at(sched@, acts@, o, d, h as int, j as int),
            None => forall|i: int| 0 <= i < sched@.len() ==> !#[trigger] sheet_hit(sched@, acts@, o, d, h as int, i),
        },
{
    let mut i: usize = 0;
    while i < sched.len()
        invariant
            i <= sched@.len(),
            forall|k: int| 0 <= k < i ==> !#[trigger] sheet_hit(sched@, acts@, o, d, h as int, k),
        decreases sched.len() - i,
    {
        let sc = sched[i];
        if sc.day_id == d && sc.hour >= 0 && sc.hour as usize == h {
            let mut j: usize = 0;
            while j < acts.len()
                invariant
                    j <= acts@.len(),
                    i < sched@.len(),
                    sc == sched@[i as int],
                    sc.day_id == d,
                    sc.hour == h,
                    forall|k: int| 0 <= k < i ==> !#[trigger] sheet_hit(sched@, acts@, o, d, h as int, k),
                    forall|k: int| 0 <= k < j ==> !(#[trigger] acts@[k].id == sc.activity && belongs(acts@[k], o)),
                decreases acts.len() - j,
            {
                if acts[j].id == sc.activity && on_sheet(&acts[j], o) {
                    proof {
                        assert(sheet_hit(sched@, acts@, o, d, h as int, i as int));
                        assert(first_sheet_hit(sched@, acts@, o, d, h as int, i as int));
                        assert(sheet_act(acts@, o, sc.activity, j as int));
                    }
                    return Some(j);
                }
                j = j + 1;
            }
        }
        i = i + 1;
    }
    None
}

/// The short name of the first lecture of `lectures` with id `id`.
pub open spec fn lecture_text(lectures: Seq<Lecture>, id: i32) -> Seq<char> {
    let i = choose|i: int| first_lecture(lectures, id, i);
    lectures[i].short_name@
}

/// Every activity on the sheet of `o` has a known lecture, and, on a
/// teacher's sheet, known classes.
pub open spec fn sheet_printable(acts: Seq<FullActivity>, classes: Seq<Class>, lectures: Seq<Lecture>, o: SheetOf) -> bool {
    forall|j: int|
        0 <= j < acts.len() && #[trigger] belongs(acts[j], o) ==> {
            &&& exists|i: int| 0 <= i < lectures.len() && lectures[i].id == acts[j].subject
            &&& (o is Teacher ==> forall|x: int|
                0 <= x < acts[j].classes@.len() ==> known_class(classes, #[trigger] acts[j].classes@[x]))
        }
}

/// What the cell of a sheet shows for activity `a`: on a teacher's sheet the
/// names of its classes, on a class's sheet the full names of its teachers;
/// and the short name of its lecture.
pub open spec fn cell_text(a: FullActivity, o: SheetOf, classes: Seq<Class>, teachers: Seq<Teacher>, lectures: Seq<Lecture>) -> (Seq<char>, Seq<char>) {
    (
        match o {
            SheetOf::Teacher(_) => class_names(classes, a.classes@),
            SheetOf::Class(_) => full_names(act_teachers(teachers, a@)),
        },
        lecture_text(lectures, a.subject),
    )
}

/// The cells of one row of a sheet: the week's days from 1 to 7 at hour
/// `h`, each showing the activity there, if any.
pub open spec fn row_ok(
    row: Seq<Option<(String, String)>>,
    sched: Seq<Schedule>,
    acts: Seq<FullActivity>,
    classes: Seq<Class>,
    teachers: Seq<Teacher>,
    lectures: Seq<Lecture>,
    o: SheetOf,
    h: int,
) -> bool {
    &&& row.len() == 7
    &&& forall|d: int|
        0 <= d < 7 ==> match #[trigger] row[d] {
            Some(cell) => exists|j: int|
                shown_at(sched, acts, o, (d + 1) as i32, h, j) && (cell.0@, cell.1@) == cell_text(
                    acts[j],
                    o,
                    classes,
                    teachers,
                    lectures,
                ),
            None => forall|i: int|
                0 <= i < sched.len() ==> !#[trigger] sheet_hit(sched, acts, o, (d + 1) as i32, h, i),
        }
}

/// The weekly sheet of a teacher or a class: a row for each of the `len`
/// hours of the day, with a cell for each day of the week that shows the
/// activity placed there, if any.
pub fn sheet(
    sched: &Vec<Schedule>,
    acts: &Vec<FullActivity>,
    classes: &Vec<Class>,
    teachers: &Vec<Teacher>,
    lectures: &Vec<Lecture>,
    o: SheetOf,
    len: usize,
) -> (r: Vec<Vec<Option<(String, String)>>>)
    requires
        sheet_printable(acts@, classes@, lectures@, o),
    ensures
        r@.len() == len,
        forall|h: int|
            0 <= h < len ==> row_ok(#[trigger] r@[h]@, sched@, acts@, classes@, teachers@, lectures@, o, h),
{
    let mut r: Vec<Vec<Option<(String, String)>>> = Vec::new();
    let mut h: usize = 0;
    while h < len
        invariant
            h <= len,
            r@.len() == h,
            sheet_printable(acts@, classes@, lectures@, o),
            forall|k: int|
                0 <= k < h ==> row_ok(#[trigger] r@[k]@, sched@, acts@, classes@, teachers@, lectures@, o, k),
        decreases len - h,
    {
        let mut row: Vec<Option<(String, String)>> = Vec::new();
        let mut d: usize = 0;
        while d < 7
            invariant
                d <= 7,
                h < len,
                row@.len() == d,
                sheet_printable(acts@, classes@, lectures@, o),
                forall|x: int|
                    0 <= x < d ==> match #[trigger] row@[x] {
                        Some(cell) => exists|j: int|
                            shown_at(sched@, acts@, o, (x + 1) as i32, h as int, j) && (cell.0@, cell.1@)
                                == cell_text(acts@[j], o, classes@, teachers@, lectures@),
                        None => forall|i: int|
                            0 <= i < sched@.len() ==> !#[trigger] sheet_hit(
                                sched@,
                                acts@,
                                o,
                                (x + 1) as i32,
                                h as int,
                                i,
                            ),
                    },
            decreases 7 - d,
        {
            let day = (d + 1) as i32;
            match sheet_find(sched, acts, o, day, h) {
                Some(j) => {
                    let a = &acts[j];
                    proof {
                        let i = choose|i: int|
                            #[trigger] first_sheet_hit(sched@, acts@, o, day, h as int, i) && sheet_act(
                                acts@,
                                o,
                                sched@[i].activity,
                                j as int,
                            );
                        assert(belongs(acts@[j as int], o));
                    }
                    let who = match o {
                        SheetOf::Teacher(_) => classes_full_name(a, classes),
                        SheetOf::Class(_) => teachers_full_name(a, teachers),
                    };
                    let lec = lecture_name(a, lectures);
                    proof {
                        let li = choose|li: int| first_lecture(lectures@, a.subject, li) && lec@ == lectures@[li].short_name@;
                        let lj = choose|lj: int| first_lecture(lectures@, a.subject, lj);
                        assert(li == lj) by {
                            if li < lj {
                                assert(lectures@[li].id == a.subject);
                            } else if li > lj {
                                assert(lectures@[lj].id == a.subject);
                            }
                        }
                        assert((who@, lec@) == cell_text(acts@[j as int], o, classes@, teachers@, lectures@));
                    }
                    row.push(Some((who, lec)));
                },
                None => {
                    row.push(None);
                },
            }
            d = d + 1;
        }
        r.push(row);
        h = h + 1;
    }
    r
}


/// The first two characters of `s`, or all of them when it has fewer.
pub open spec fn first_two(s: Seq<char>) -> Seq<char> {
    if s.len() >= 2 {
        s.take(2)
    } else {
        s
    }
}

/// The cells of one day of a class in the overview: for each of the `len`
/// hours, the first two characters of the lecture placed there, if any.
pub open spec fn overview_day_ok(
    cells: Seq<Option<String>>,
    sched: Seq<Schedule>,
    acts: Seq<FullActivity>,
    lectures: Seq<Lecture>,
    c: i32,
    d: i32,
    len: nat,
) -> bool {
    &&& cells.len() == len
    &&& forall|i: int|
        0 <= i < len ==> match #[trigger] cells[i] {
            Some(t) => exists|j: int|
                shown_at(sched, acts, SheetOf::Class(c), d, i, j) && t@ == first_two(
                    lecture_text(lectures, acts[j].subject),
                ),
            None => forall|k: int|
                0 <= k < sched.len() ==> !#[trigger] sheet_hit(sched, acts, SheetOf::Class(c), d, i, k),
        }
}

/// The overview of all classes on one sheet: for each class, its name and,
/// for each of the days counted 0 to 4, the first two characters of the
/// lecture placed at each of the `len` hours.
pub fn class_overview(
    sched: &Vec<Schedule>,
    acts: &Vec<FullActivity>,
    classes: &Vec<Class>,
    lectures: &Vec<Lecture>,
    len: usize,
) -> (r: Vec<(String, Vec<Vec<Option<String>>>)>)
    requires
        forall|k: int|
            0 <= k < classes@.len() ==> sheet_printable(acts@, classes@, lectures@, SheetOf::Class(#[trigger] classes@[k].id)),
    ensures
        r@.len() == classes@.len(),
        forall|k: int|
            0 <= k < classes@.len() ==> {
                &&& (#[trigger] r@[k]).0@ == classes@[k].kademe@ + classes@[k].sube@
                &&& r@[k].1@.len() == 5
                &&& forall|d: int|
                    0 <= d < 5 ==> overview_day_ok(
                        #[trigger] r@[k].1@[d]@,
                        sched@,
                        acts@,
                        lectures@,
                        classes@[k].id,
                        d as i32,
                        len as nat,
                    )
            },
{
    let mut r: Vec<(String, Vec<Vec<Option<String>>>)> = Vec::new();
    let mut k: usize = 0;
    while k < classes.len()
        invariant
            k <= classes@.len(),
            r@.len() == k,
            forall|x: int|
                0 <= x < classes@.len() ==> sheet_printable(acts@, classes@, lectures@, SheetOf::Class(#[trigger] classes@[x].id)),
            forall|x: int|
                0 <= x < k ==> {
                    &&& (#[trigger] r@[x]).0@ == classes@[x].kademe@ + classes@[x].sube@
                    &&& r@[x].1@.len() == 5
                    &&& forall|d: int|
                        0 <= d < 5 ==> overview_day_ok(
                            #[trigger] r@[x].1@[d]@,
                            sched@,
                            acts@,
                            lectures@,
                            classes@[x].id,
                            d as i32,
                            len as nat,
                        )
                },
        decreases classes.len() - k,
    {
        let c = classes[k].id;
        let o = SheetOf::Class(c);
        proof {
            assert(sheet_printable(acts@, classes@, lectures@, SheetOf::Class(classes@[k as int].id)));
        }
        let mut days: Vec<Vec<Option<String>>> = Vec::new();
        let mut d: i32 = 0;
        while d < 5
            invariant
                0 <= d <= 5,
                days@.len() == d,
                o == SheetOf::Class(c),
                sheet_printable(acts@, classes@, lectures@, o),
                forall|x: int|
                    0 <= x < d ==> overview_day_ok(#[trigger] days@[x]@, sched@, acts@, lectures@, c, x as i32, len as nat),
            decreases 5 - d,
        {
            let mut cells: Vec<Option<String>> = Vec::new();
            let mut i: usize = 0;
            while i < len
                invariant
                    i <= len,
                    0 <= d < 5,
                    cells@.len() == i,
                    o == SheetOf::Class(c),
                    sheet_printable(acts@, classes@, lectures@, o),
                    forall|y: int|
                        0 <= y < i ==> match #[trigger] cells@[y] {
                            Some(t) => exists|j: int|
                                shown_at(sched@, acts@, SheetOf::Class(c), d, y, j) && t@ == first_two(
                                    lecture_text(lectures@, acts@[j].subject),
                                ),
                            None => forall|k2: int|
                                0 <= k2 < sched@.len() ==> !#[trigger] sheet_hit(sched@, acts@, SheetOf::Class(c), d, y, k2),
                        },
                decreases len - i,
            {
                match sheet_find(sched, acts, o, d, i) {
                    Some(j) => {
                        let a = &acts[j];
                        proof {
                            let w = choose|w: int|
                                #[trigger] first_sheet_hit(sched@, acts@, o, d, i as int, w) && sheet_act(
                                    acts@,
                                    o,
                                    sched@[w].activity,
                                    j as int,
                                );
                            assert(belongs(acts@[j as int], o));
                        }
                        let lec = lecture_name(a, lectures);
                        let n = lec.as_str().unicode_len();
                        let cut = if n >= 2 {
                            2
                        } else {
                            n
                        };
                        let t = String::from_str(lec.as_str().substring_char(0, cut));
                        proof {
                            let li = choose|li: int| first_lecture(lectures@, a.subject, li) && lec@ == lectures@[li].short_name@;
                            let lj = choose|lj: int| first_lecture(lectures@, a.subject, lj);
                            assert(li == lj) by {
                                if li < lj {
                                    assert(lectures@[li].id == a.subject);
                                } else if li > lj {
                                    assert(lectures@[lj].id == a.subject);
                                }
                            }
                            if n < 2 {
                                assert(lec@.subrange(0, n as int) =~= lec@);
                            }
                            assert(t@ == first_two(lecture_text(lectures@, acts@[j as int].subject)));
                        }
                        cells.push(Some(t));
                    },
                    None => {
                        cells.push(None);
                    },
                }
                i = i + 1;
            }
            days.push(cells);
            d = d + 1;
        }
        let name = classes[k].label();
        r.push((name, days));
        k = k + 1;
    }
    r
}

/// Whether `c` is one of the two marks that isolate a piece of text, which
/// the printed name of a teacher leaves out.
pub open spec fn is_isolate(c: char) -> bool {
    c == '\u{2068}' || c == '\u{2069}'
}

/// The test that keeps the characters that are not isolate marks.
pub open spec fn kept(c: char) -> bool {
    !is_isolate(c)
}

/// The name of a teacher on a printed sheet: the first name, a space and the
/// last name, without isolate marks.
pub fn print_name(t: &Teacher) -> (r: String)
    ensures
        r@ == (t.first_name@ + seq![' '] + t.last_name@).filter(|c: char| kept(c)),
{
    let mut full = t.first_name.clone();
    full.append(" ");
    full.append(t.last_name.as_str());
    proof {
        reveal_strlit(" ");
        assert(full@ =~= t.first_name@ + seq![' '] + t.last_name@);
    }
    let s = full.as_str();
    let n = s.unicode_len();
    let mut r = String::new();
    let mut i: usize = 0;
    proof {
        reveal(Seq::filter);
        assert(s@.take(0) =~= Seq::<char>::empty());
    }
    while i < n
        invariant
            i <= n,
            n == s@.len(),
            r@ == s@.take(i as int).filter(|c: char| kept(c)),
        decreases n - i,
    {
        let c = s.get_char(i);
        proof {
            assert(s@.take(i + 1) =~= s@.take(i as int).push(c));
            s@.take(i as int).lemma_filter_push(c, |c: char| kept(c));
        }
        if c != '\u{2068}' && c != '\u{2069}' {
            let piece = s.substring_char(i, i + 1);
            proof {
                assert(piece@ =~= seq![c]);
            }
            r.append(piece);
        }
        i = i + 1;
    }
    proof {
        assert(s@.take(n as int) =~= s@);
    }
    r
}


/// Activity `a` has an hour in `sched`.
pub open spec fn is_placed_in(sched: Seq<Schedule>, id: i32) -> bool {
    exists|i: int| 0 <= i < sched.len() && #[trigger] sched[i].activity == id
}

/// The activities of a teacher or a class that still wait to be placed:
/// those on its sheet without an hour in `sched`, in order.
pub fn acts_to_place(acts: &Vec<FullActivity>, sched: &Vec<Schedule>, o: SheetOf) -> (r: Vec<FullActivity>)
    ensures
        crate::data::full_values(r@) == crate::data::full_values(acts@.filter(
            |a: FullActivity| belongs(a, o) && !is_placed_in(sched@, a.id),
        )),
{
    let ghost p = |a: FullActivity| belongs(a, o) && !is_placed_in(sched@, a.id);
    let mut r: Vec<FullActivity> = Vec::new();
    let mut j: usize = 0;
    proof {
        reveal(Seq::filter);
        assert(acts@.take(0) =~= Seq::<FullActivity>::empty());
        assert(crate::data::full_values(r@) =~= crate::data::full_values(acts@.take(0).filter(p)));
    }
    while j < acts.len()
        invariant
            j <= acts@.len(),
            p == (|a: FullActivity| belongs(a, o) && !is_placed_in(sched@, a.id)),
            crate::data::full_values(r@) == crate::data::full_values(acts@.take(j as int).filter(p)),
        decreases acts.len() - j,
    {
        let ghost before = r@;
        proof {
            assert(acts@.take(j + 1) =~= acts@.take(j as int).push(acts@[j as int]));
            acts@.take(j as int).lemma_filter_push(acts@[j as int], p);
        }
        if on_sheet(&acts[j], o) && !crate::client::is_placed(acts[j].id, sched) {
            r.push(acts[j].duplicate());
            proof {
                assert(crate::data::full_values(r@) =~= crate::data::full_values(before).push(acts@[j as int]@));
                assert(crate::data::full_values(acts@.take(j as int).filter(p).push(acts@[j as int])) =~= crate::data::full_values(
                    acts@.take(j as int).filter(p),
                ).push(acts@[j as int]@));
            }
        }
        j = j + 1;
    }
    assert(acts@.take(acts@.len() as int) =~= acts@);
    r
}

/// The activity selected to be moved after its card's move control is used:
/// the selection is dropped when it is this activity, and becomes this
/// activity otherwise.
pub fn toggle_move(selected: Option<i32>, act_id: i32) -> (r: Option<i32>)
    ensures
        r == if selected == Some(act_id) {
            None::<i32>
        } else {
            Some(act_id)
        },
{
    match selected {
        Some(m) => if m == act_id {
            None
        } else {
            Some(act_id)
        },
        None => Some(act_id),
    }
}

/// The label of an activity card's move control: how to give up the move on
/// the selected activity, nothing on the others while one is selected, and
/// how to start a move when none is.
pub fn move_label(selected: Option<i32>, act_id: i32) -> (r: &'static str)
    ensures
        selected == Some(act_id) ==> r@ == "Vazgeç"@,
        selected is Some && selected != Some(act_id) ==> r@ == ""@,
        selected is None ==> r@ == "Taşı"@,
{
    match selected {
        Some(m) => if m == act_id {
            "Vazgeç"
        } else {
            ""
        },
        None => "Taşı",
    }
}

/// The label of an activity card's delete control: a question once it has
/// been used once, and the delete command before.
pub fn delete_label(confirming: bool) -> (r: &'static str)
    ensures
        confirming ==> r@ == "Emin misin?"@,
        !confirming ==> r@ == "Sil"@,
{
    if confirming {
        "Emin misin?"
    } else {
        "Sil"
    }
}

/// A click on an activity card's delete control: the first click only asks
/// (`(false, true)`: do not delete, ask from now on); a click while it asks
/// deletes the activity (`(true, true)`).
pub fn delete_click(confirming: bool) -> (r: (bool, bool))
    ensures
        r == (confirming, true),
{
    (confirming, true)
}

} // verus!
