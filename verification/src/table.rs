//! Listing the table, adding to it and removing from it.

use crate::compose::{add_line, cat2, cat3, cat4, cat5, cat6};
use crate::fail::{idle, mistake, nothing, refusal, refused, Fail, FailView};
use crate::handover::{Handover, HandoverView};
use crate::number::{decimal, decimal_of};
use crate::outbox::{has_text, stranded, uncovered};
use crate::place::{place_text, show, show_in_full, Place, PlaceView};
use crate::report::{Report, ReportView};
use crate::routes::{
    abridged, addr_on, addr_text, address, default_route, depot_answer, depot_refused, find_route,
    is_address, line_address, line_place, place_for, place_on, plural, shown, table_view, trim_to,
    Route, RouteView,
};
use crate::text::{lines, same, slice_opt, slices, split_lines, text_opt, texts, unlines};
use vstd::prelude::*;

verus! {

/// A route as a line of the table.
pub open spec fn route_text(r: RouteView) -> Seq<char> {
    let line = match r.addr {
        Some(a) => a + " ssh://"@ + place_text(r.place),
        None => "ssh://"@ + place_text(r.place),
    };
    if r.note.len() == 0 {
        line
    } else {
        line + " "@ + r.note
    }
}

/// The routes as lines.
pub open spec fn route_texts(t: Seq<RouteView>) -> Seq<Seq<char>> {
    Seq::new(t.len(), |i: int| route_text(t[i]))
}

pub open spec fn counted(n: nat, one: Seq<char>, many: Seq<char>) -> Seq<char> {
    decimal(n) + " "@ + (if n == 1 {
        one
    } else {
        many
    })
}

/// What is said of a listing: how many routes, and who is waiting with none.
pub open spec fn list_notes(t: Seq<RouteView>, waiting: Seq<Seq<char>>) -> Seq<Seq<char>> {
    let lost = uncovered(t, waiting);
    let tail = if waiting.len() == 0 {
        "nothing waiting to leave"@
    } else if lost.len() == 0 {
        "everything waiting to leave has one"@
    } else {
        decimal(lost.len()) + " waiting to leave match none"@
    };
    seq![counted(t.len(), "route"@, "routes"@) + "; "@ + tail] + Seq::new(
        lost.len(),
        |i: int|
            "no route for "@ + abridged(lost[i], 8) + ": beb-courier route add "@ + lost[i]
                + " ssh://host"@,
    )
}

pub open spec fn report_result(r: Result<Report, Fail>) -> Result<ReportView, FailView> {
    match r {
        Ok(p) => Ok(p@),
        Err(f) => Err(f@),
    }
}

/// A count and what is counted.
pub fn count_of(n: usize, one: &str, many: &str) -> (res: String)
    ensures
        res@ == counted(n as nat, one@, many@),
{
    cat3(decimal_of(n as u64).as_str(), " ", plural(n, one, many))
}

/// A route as a line of the table.
pub fn route_line(r: &Route) -> (res: String)
    ensures
        res@ == route_text(r@),
{
    let place = show(&r.place);
    let line = match &r.addr {
        Some(a) => cat3(a.as_str(), " ssh://", place.as_str()),
        None => cat2("ssh://", place.as_str()),
    };
    if r.note.as_str().is_empty() {
        line
    } else {
        cat3(line.as_str(), " ", r.note.as_str())
    }
}

/// The routes as text, a line each.
pub fn routes_text(routes: &[Route]) -> (res: String)
    ensures
        res@ == unlines(route_texts(table_view(routes@))),
{
    let ghost all = route_texts(table_view(routes@));
    let mut out = String::new();
    for i in 0..routes.len()
        invariant
            all == route_texts(table_view(routes@)),
            out@ == unlines(all.take(i as int)),
    {
        add_line(&mut out, route_line(&routes[i]).as_str());
        assert(all.take(i + 1).drop_last() =~= all.take(i as int));
        assert(all.take(i + 1).last() == route_text(routes@[i as int]@));
    }
    assert(all.take(routes@.len() as int) =~= all);
    out
}

/// The table, in the file's own format, so that a line is copied rather than
/// transcribed, and the one thing the file cannot say: whether anything
/// waiting to leave matches none of it.
pub fn route_list(routes: &[Route], waiting: &Vec<String>, path: &str) -> (res: Result<
    Report,
    Fail,
>)
    ensures
        report_result(res) == if routes@.len() == 0 {
            Err(
                idle(
                    "no routes in "@ + path@
                        + "; name one with: beb-courier route add ssh://host"@,
                ),
            )
        } else {
            Ok(
                ReportView {
                    out: unlines(route_texts(table_view(routes@))),
                    notes: list_notes(table_view(routes@), texts(waiting@)),
                },
            )
        },
{
    if routes.len() == 0 {
        return Err(
            nothing(
                cat3(
                    "no routes in ",
                    path,
                    "; name one with: beb-courier route add ssh://host",
                ),
            ),
        );
    }
    let out = routes_text(routes);
    let lost = stranded(routes, waiting);
    let tail = if waiting.len() == 0 {
        "nothing waiting to leave".to_string()
    } else if lost.len() == 0 {
        "everything waiting to leave has one".to_string()
    } else {
        cat2(decimal_of(lost.len() as u64).as_str(), " waiting to leave match none")
    };
    let ghost want = list_notes(table_view(routes@), texts(waiting@));
    let ghost names = texts(lost@);
    let mut notes: Vec<String> = Vec::new();
    notes.push(cat3(count_of(routes.len(), "route", "routes").as_str(), "; ", tail.as_str()));
    assert(texts(notes@) =~= want.take(1));
    for i in 0..lost.len()
        invariant
            want == list_notes(table_view(routes@), texts(waiting@)),
            names == texts(lost@),
            names == uncovered(table_view(routes@), texts(waiting@)),
            texts(notes@) == want.take(i + 1),
    {
        let ghost before = texts(notes@);
        let a = lost[i].as_str();
        notes.push(
            cat5(
                "no route for ",
                trim_to(a, 8).as_str(),
                ": beb-courier route add ",
                a,
                " ssh://host",
            ),
        );
        assert(names[i as int] == a@);
        assert(texts(notes@) =~= before.push(want[i + 1]));
        assert(texts(notes@) =~= want.take(i + 2));
    }
    assert(want.take(lost@.len() as int + 1) =~= want);
    Ok(Report { out, notes })
}

// ---- adding -----------------------------------------------------------------

/// What `route add` is asked to route.
#[derive(Debug)]
pub enum Subject {
    /// Everything that is not routed elsewhere.
    Rest,
    /// One address.
    Address(String),
    /// The addresses in a handover, by the name of its file.
    Handover(String),
}

#[verifier::ext_equal]
pub enum SubjectView {
    Rest,
    Address(Seq<char>),
    Handover(Seq<char>),
}

impl View for Subject {
    type V = SubjectView;

    open spec fn view(&self) -> SubjectView {
        match self {
            Subject::Rest => SubjectView::Rest,
            Subject::Address(a) => SubjectView::Address(a@),
            Subject::Handover(p) => SubjectView::Handover(p@),
        }
    }
}

/// What the words in front of the place name.
pub open spec fn subject_of(what: Option<Seq<char>>, is_here: bool) -> Result<
    SubjectView,
    FailView,
> {
    match what {
        None => Ok(SubjectView::Rest),
        Some(w) => if address(w) {
            Ok(SubjectView::Address(w))
        } else if is_here || w == "-"@ {
            Ok(SubjectView::Handover(w))
        } else {
            Err(
                refusal(
                    "\""@ + abridged(w, 24)
                        + "\" is not an address and not a file that is here\nfor everything else, name the place alone: beb-courier route add ssh://host"@,
                ),
            )
        },
    }
}

/// One of three things, and a typo is none of them, so it is named rather
/// than written down as a route to nowhere. `is_here` says that a file of
/// that name exists.
pub fn subject(what: Option<&str>, is_here: bool) -> (res: Result<Subject, Fail>)
    ensures
        match (res, what) {
            (Ok(Subject::Rest), None) => true,
            (Ok(Subject::Address(a)), Some(w)) => address(w@) && a@ == w@,
            (Ok(Subject::Handover(p)), Some(w)) => {
                &&& !address(w@)
                &&& is_here || w@ == "-"@
                &&& p@ == w@
            },
            (Err(f), Some(w)) => {
                &&& !address(w@)
                &&& !is_here
                &&& w@ != "-"@
                &&& f@ == refusal(
                    "\""@ + abridged(w@, 24)
                        + "\" is not an address and not a file that is here\nfor everything else, name the place alone: beb-courier route add ssh://host"@,
                )
            },
            _ => false,
        },
        match res {
            Ok(s) => subject_of(slice_opt(what), is_here) == Ok::<SubjectView, FailView>(s@),
            Err(f) => subject_of(slice_opt(what), is_here) == Err::<SubjectView, FailView>(f@),
        },
{
    match what {
        None => Ok(Subject::Rest),
        Some(w) => if is_address(w) {
            Ok(Subject::Address(w.to_string()))
        } else if is_here || same(w, "-") {
            Ok(Subject::Handover(w.to_string()))
        } else {
            Err(
                refused(
                    cat3(
                        "\"",
                        trim_to(w, 24).as_str(),
                        "\" is not an address and not a file that is here\nfor everything else, name the place alone: beb-courier route add ssh://host",
                    ),
                ),
            )
        },
    }
}

/// The addresses without repetitions, in the order in which they first come.
pub open spec fn once_each(s: Seq<Seq<char>>) -> Seq<Seq<char>>
    decreases s.len(),
{
    if s.len() == 0 {
        Seq::empty()
    } else {
        let o = once_each(s.drop_last());
        if o.contains(s.last()) {
            o
        } else {
            o.push(s.last())
        }
    }
}

/// What a handover's label becomes on its routes.
pub open spec fn label_note(label: Seq<char>) -> Seq<char> {
    if label.len() == 0 {
        Seq::empty()
    } else {
        "# "@ + label
    }
}

/// The routes of a handover's addresses to `place`, one for each address.
pub open spec fn handover_routes(h: HandoverView, place: PlaceView) -> Seq<RouteView> {
    Seq::new(
        once_each(h.addresses).len(),
        |i: int|
            RouteView {
                addr: Some(once_each(h.addresses)[i]),
                place,
                note: label_note(h.label),
            },
    )
}

/// The routes that a handover asks for: each address it names, once, with the
/// machine it came from behind a hash sign.
pub fn routes_from(h: &Handover, place: &Place, name: &str) -> (res: Result<Vec<Route>, Fail>)
    ensures
        match res {
            Ok(v) => h.addresses@.len() > 0 && table_view(v@) == handover_routes(h@, place@),
            Err(f) => h.addresses@.len() == 0 && f@ == refusal(
                name@
                    + " names no addresses, so there is nothing there to route to\nthat machine has no identity reading on it yet: beb init NAME, then whoami again"@,
            ),
        },
{
    if h.addresses.len() == 0 {
        return Err(
            refused(
                cat2(
                    name,
                    " names no addresses, so there is nothing there to route to\nthat machine has no identity reading on it yet: beb init NAME, then whoami again",
                ),
            ),
        );
    }
    let ghost all = texts(h.addresses@);
    let mut seen: Vec<String> = Vec::new();
    let mut out: Vec<Route> = Vec::new();
    assert(texts(seen@) =~= once_each(all.take(0)));
    for i in 0..h.addresses.len()
        invariant
            all == texts(h.addresses@),
            texts(seen@) == once_each(all.take(i as int)),
            out@.len() == seen@.len(),
            forall|j: int|
                0 <= j < out@.len() ==> (#[trigger] out@[j])@ == (RouteView {
                    addr: Some(texts(seen@)[j]),
                    place: place@,
                    note: label_note(h.label@),
                }),
    {
        let a = h.addresses[i].as_str();
        let ghost before = texts(seen@);
        proof {
            assert(all.take(i + 1).drop_last() =~= all.take(i as int));
            assert(all.take(i + 1).last() == a@);
        }
        if !has_text(&seen, a) {
            seen.push(a.to_string());
            assert(texts(seen@) =~= before.push(a@));
            let note = if h.label.as_str().is_empty() {
                String::new()
            } else {
                cat2("# ", h.label.as_str())
            };
            out.push(Route { addr: Some(a.to_string()), place: place.clone(), note });
        }
    }
    assert(all.take(all.len() as int) =~= all);
    assert(table_view(out@) =~= handover_routes(h@, place@));
    Ok(out)
}

/// The one route that a bare address, or no address, asks for.
pub fn route_to(addr: Option<String>, place: &Place) -> (res: Vec<Route>)
    ensures
        table_view(res@) == seq![
            RouteView { addr: text_opt(addr), place: place@, note: Seq::empty() },
        ],
{
    let mut out: Vec<Route> = Vec::new();
    out.push(Route { addr, place: place.clone(), note: String::new() });
    assert(table_view(out@) =~= seq![
        RouteView { addr: text_opt(addr), place: place@, note: Seq::empty() },
    ]);
    out
}

/// The first of the routes whose address the table has already.
pub open spec fn clash(t: Seq<RouteView>, adding: Seq<RouteView>) -> Option<RouteView>
    decreases adding.len(),
{
    if adding.len() == 0 {
        None
    } else if place_for(t, adding[0].addr) is Some {
        Some(adding[0])
    } else {
        clash(t, adding.drop_first())
    }
}

pub open spec fn clash_text(t: Seq<RouteView>, r: RouteView) -> Seq<char> {
    let p = place_text(place_for(t, r.addr).unwrap());
    abridged(addr_text(r.addr), 16) + " already goes to "@ + p + "; beb-courier route rm "@ + (
    match r.addr {
        Some(a) => a,
        None => "ssh://"@ + p,
    }) + " first"@
}

/// Some of the routes takes everything that is not routed elsewhere.
pub open spec fn takes_the_rest(adding: Seq<RouteView>) -> bool {
    exists|i: int| 0 <= i < adding.len() && (#[trigger] adding[i]).addr is None
}

/// What is said once routes to `place` have been added.
pub open spec fn added_notes(adding: Seq<RouteView>, place: PlaceView, path: Seq<char>) -> Seq<
    Seq<char>,
> {
    let p = place_text(place);
    seq![
        if takes_the_rest(adding) {
            "everything not routed elsewhere goes to "@ + p
        } else {
            counted(adding.len(), "route"@, "routes"@) + " to "@ + p + ", in "@ + path
        },
        p + " must let this key drop: beb-courier whoami prints the handover it needs"@,
    ]
}

/// What adding the routes comes to: the text to append to the table, or the
/// first clash.
pub open spec fn added(
    t: Seq<RouteView>,
    adding: Seq<RouteView>,
    place: PlaceView,
    path: Seq<char>,
) -> Result<ReportView, FailView> {
    match clash(t, adding) {
        Some(r) => Err(refusal(clash_text(t, r))),
        None => Ok(
            ReportView {
                out: unlines(route_texts(adding)),
                notes: added_notes(adding, place, path),
            },
        ),
    }
}

/// Adds routes to the table, all of them or none: a half-added handover is a
/// machine some of whose identities are routed and some of whose are not.
/// The report's output is the text to append to the file, as `append` does.
pub fn route_add(existing: &[Route], adding: &[Route], place: &Place, path: &str) -> (res: Result<
    Report,
    Fail,
>)
    ensures
        report_result(res) == added(
            table_view(existing@),
            table_view(adding@),
            place@,
            path@,
        ),
{
    let ghost t = table_view(existing@);
    let ghost all = table_view(adding@);
    let mut rest = false;
    assert(all.skip(0) =~= all);
    for i in 0..adding.len()
        invariant
            t == table_view(existing@),
            all == table_view(adding@),
            clash(t, all) == clash(t, all.skip(i as int)),
            rest == exists|j: int| 0 <= j < i && (#[trigger] all[j]).addr is None,
    {
        let m = &adding[i].addr;
        assert(all.skip(i as int)[0] == adding@[i as int]@);
        assert(all.skip(i as int).drop_first() =~= all.skip(i + 1));
        assert(all[i as int].addr == text_opt(*m));
        if let Some(r) = find_route(existing, m) {
            let p = show(&r.place);
            let by = match m {
                Some(a) => a.clone(),
                None => show_in_full(&r.place),
            };
            return Err(
                refused(
                    cat6(
                        trim_to(shown(m).as_str(), 16).as_str(),
                        " already goes to ",
                        p.as_str(),
                        "; beb-courier route rm ",
                        by.as_str(),
                        " first",
                    ),
                ),
            );
        }
        if m.is_none() {
            rest = true;
        }
    }
    assert(all.skip(all.len() as int) =~= Seq::<RouteView>::empty());
    let p = show(place);
    let mut notes: Vec<String> = Vec::new();
    if rest {
        notes.push(cat2("everything not routed elsewhere goes to ", p.as_str()));
    } else {
        notes.push(
            cat5(
                count_of(adding.len(), "route", "routes").as_str(),
                " to ",
                p.as_str(),
                ", in ",
                path,
            ),
        );
    }
    notes.push(
        cat2(
            p.as_str(),
            " must let this key drop: beb-courier whoami prints the handover it needs",
        ),
    );
    assert(texts(notes@) =~= added_notes(all, place@, path@));
    Ok(Report { out: routes_text(adding), notes })
}

// ---- removing ---------------------------------------------------------------

/// What `route rm` is asked to stop routing.
#[derive(Debug)]
pub enum Target {
    /// Everything going to a place, as it is shown.
    Place(String),
    /// What was named, which is one address or nothing that is routed.
    Address(String),
}

pub enum TargetView {
    Place(Seq<char>),
    Address(Seq<char>),
}

impl View for Target {
    type V = TargetView;

    open spec fn view(&self) -> TargetView {
        match self {
            Target::Place(p) => TargetView::Place(p@),
            Target::Address(a) => TargetView::Address(a@),
        }
    }
}

/// A line that `route rm` takes out.
pub open spec fn hit(l: Seq<char>, target: TargetView) -> bool {
    match target {
        TargetView::Place(p) => place_on(l) == Some(p),
        TargetView::Address(a) => addr_on(l) == Some(a),
    }
}

/// The lines that stay.
pub open spec fn kept(ls: Seq<Seq<char>>, target: TargetView) -> Seq<Seq<char>>
    decreases ls.len(),
{
    if ls.len() == 0 {
        Seq::empty()
    } else if hit(ls.last(), target) {
        kept(ls.drop_last(), target)
    } else {
        kept(ls.drop_last(), target).push(ls.last())
    }
}

/// What is left of a table, and how many lines were taken out of it.
#[derive(Debug)]
pub struct Removal {
    pub kept: String,
    pub gone: usize,
}

/// What taking lines out comes to: the text that is left and how many lines
/// were taken out, or why none were.
pub open spec fn taken_out(
    depot: Option<Seq<char>>,
    depot_path: Seq<char>,
    text: Option<Seq<char>>,
    target: TargetView,
    root: Seq<char>,
) -> Result<(Seq<char>, nat), FailView> {
    match (depot, text) {
        (Some(d), _) => Err(refusal(depot_answer(d, depot_path))),
        (None, None) => Err(mistake("no routes in "@ + root)),
        (None, Some(t)) => {
            let left = kept(lines(t), target);
            if left.len() == lines(t).len() {
                Err(
                    idle(
                        match target {
                            TargetView::Place(p) => "nothing is routed to "@ + p,
                            TargetView::Address(a) => abridged(a, 16)
                                + " is not routed anywhere"@,
                        },
                    ),
                )
            } else {
                Ok((unlines(left), (lines(t).len() - left.len()) as nat))
            }
        },
    }
}

/// Takes lines out of the table: those of one address, or those naming one
/// place. `text` is the table, where it can be read, `root` where it should be.
/// While `depot`, the file that named one place, is still there, nothing is
/// taken out: that file is refused, as it is by everything that reads the table.
pub fn route_rm(
    depot: Option<&str>,
    depot_path: &str,
    text: Option<&str>,
    target: &Target,
    root: &str,
) -> (res: Result<Removal, Fail>)
    ensures
        match (res, depot, text) {
            (Err(f), Some(d), _) => f@ == refusal(depot_answer(d@, depot_path@)),
            (Ok(r), None, Some(t)) => {
                &&& r.kept@ == unlines(kept(lines(t@), target@))
                &&& r.gone == lines(t@).len() - kept(lines(t@), target@).len()
                &&& r.gone > 0
            },
            (Err(f), None, Some(t)) => {
                &&& kept(lines(t@), target@).len() == lines(t@).len()
                &&& f@ == idle(
                    match target@ {
                        TargetView::Place(p) => "nothing is routed to "@ + p,
                        TargetView::Address(a) => abridged(a, 16)
                            + " is not routed anywhere"@,
                    },
                )
            },
            (Err(f), None, None) => f@ == mistake("no routes in "@ + root@),
            _ => false,
        },
        match (
            res,
            taken_out(slice_opt(depot), depot_path@, slice_opt(text), target@, root@),
        ) {
            (Ok(r), Ok((left, n))) => r.kept@ == left && r.gone == n,
            (Err(f), Err(g)) => f@ == g,
            _ => false,
        },
{
    if let Some(d) = depot {
        return Err(depot_refused(d, depot_path));
    }
    let text = match text {
        Some(t) => t,
        None => return Err(Fail::from(cat2("no routes in ", root))),
    };
    let ls = split_lines(text);
    let ghost all = lines(text@);
    let mut out = String::new();
    let mut gone: usize = 0;
    for i in 0..ls.len()
        invariant
            all == slices(ls@),
            out@ == unlines(kept(all.take(i as int), target@)),
            gone <= i,
            gone == i - kept(all.take(i as int), target@).len(),
    {
        let l = ls[i];
        let ghost k = kept(all.take(i as int), target@);
        proof {
            assert(all.take(i + 1).drop_last() =~= all.take(i as int));
            assert(all.take(i + 1).last() == l@);
            assert(k.push(l@).drop_last() =~= k);
        }
        let taken = match target {
            Target::Place(p) => match line_place(l) {
                Some(h) => same(h.as_str(), p.as_str()),
                None => false,
            },
            Target::Address(a) => match line_address(l) {
                Some(b) => same(b, a.as_str()),
                None => false,
            },
        };
        if taken {
            gone = gone + 1;
        } else {
            add_line(&mut out, l);
        }
    }
    assert(all.take(ls@.len() as int) =~= all);
    if gone == 0 {
        return Err(
            nothing(
                match target {
                    Target::Place(p) => cat2("nothing is routed to ", p.as_str()),
                    Target::Address(a) => cat2(
                        trim_to(a.as_str(), 16).as_str(),
                        " is not routed anywhere",
                    ),
                },
            ),
        );
    }
    Ok(Removal { kept: out, gone })
}

/// What is said once lines are gone: where the mail goes now.
pub open spec fn removed_text(
    target: TargetView,
    gone: nat,
    left: Seq<RouteView>,
) -> Seq<char> {
    match target {
        TargetView::Place(p) => counted(gone, "route"@, "routes"@) + " to "@ + p + " removed"@,
        TargetView::Address(a) => match place_for(left, None) {
            Some(p) => abridged(a, 8)
                + " is not routed on its own now, so it goes where everything else does: "@
                + place_text(p),
            None => abridged(a, 8) + " is not routed now"@,
        },
    }
}

/// What is said once lines are gone, `left` being the table as it is then.
pub fn removed_note(target: &Target, gone: usize, left: &[Route]) -> (res: String)
    ensures
        res@ == removed_text(target@, gone as nat, table_view(left@)),
{
    match target {
        Target::Place(p) => cat4(
            count_of(gone, "route", "routes").as_str(),
            " to ",
            p.as_str(),
            " removed",
        ),
        Target::Address(a) => match default_route(left) {
            Some(p) => cat3(
                trim_to(a.as_str(), 8).as_str(),
                " is not routed on its own now, so it goes where everything else does: ",
                show(p).as_str(),
            ),
            None => cat2(trim_to(a.as_str(), 8).as_str(), " is not routed now"),
        },
    }
}

} // verus!
