use vstd::prelude::*;

verus! {

/// The pages of the application: the home page once a user has logged in,
/// the login page before.
#[derive(Debug, Clone, Copy, PartialEq, Eq, Structural)]
pub enum Pages {
    Home,
    NotReady,
}

impl Default for Pages {
    fn default() -> (r: Pages)
        ensures
            r == Pages::NotReady,
    {
        Pages::NotReady
    }
}

/// The tabs of a timetable.
#[derive(Debug, Clone, Copy, PartialEq, Eq, Structural)]
pub enum TimetablePages {
    Classes,
    Teachers,
    Generator,
}

impl Default for TimetablePages {
    fn default() -> (r: TimetablePages)
        ensures
            r == TimetablePages::Classes,
    {
        TimetablePages::Classes
    }
}

impl TimetablePages {
    /// The key of the tab's title.
    pub fn label(&self) -> (r: &'static str)
        ensures
            *self == TimetablePages::Classes ==> r@ == "classes"@,
            *self == TimetablePages::Teachers ==> r@ == "teachers"@,
            *self == TimetablePages::Generator ==> r@ == "generator"@,
    {
        match self {
            TimetablePages::Classes => "classes",
            TimetablePages::Teachers => "teachers",
            TimetablePages::Generator => "generator",
        }
    }
}

/// What the application shows.
#[derive(Debug)]
pub enum Screen {
    /// The login form.
    Login,
    /// The tabs of the timetable, and the page of the selected tab.
    Home { tabs: Vec<TimetablePages>, page: TimetablePages },
}

/// The tabs of a timetable, in order.
pub open spec fn all_tabs() -> Seq<TimetablePages> {
    seq![TimetablePages::Classes, TimetablePages::Teachers, TimetablePages::Generator]
}

/// The home page: the tabs of the timetable and the page of tab `page`.
pub fn home(page: TimetablePages) -> (r: Screen)
    ensures
        r matches Screen::Home { tabs, page: p } && tabs@ == all_tabs() && p == page,
{
    let mut tabs: Vec<TimetablePages> = Vec::new();
    tabs.push(TimetablePages::Classes);
    tabs.push(TimetablePages::Teachers);
    tabs.push(TimetablePages::Generator);
    assert(tabs@ =~= all_tabs());
    Screen::Home { tabs, page }
}

/// What the application shows on page `page`: the home page with tab
/// `selected` once logged in, the login form before.
pub fn root(page: &Pages, selected: TimetablePages) -> (r: Screen)
    ensures
        *page == Pages::NotReady ==> r is Login,
        *page == Pages::Home ==> (r matches Screen::Home { tabs, page: p } && tabs@ == all_tabs() && p == selected),
{
    match page {
        Pages::Home => home(selected),
        Pages::NotReady => Screen::Login,
    }
}

} // verus!
