//! Whether this machine can still carry, and what it carries for.
//!
//! A courier is several things that have to agree and are written in
//! different places: its key, the places it names, the file that supervises
//! it, and the beb that file points at. Every part can look healthy alone.

use crate::compose::{cat2, cat3, cat4, cat5};
use crate::fail::{refusal, refused, Fail, FailView};
use crate::number::{decimal, decimal_of};
use crate::outbox::{has_text, law_uncovered, stranded, uncovered};
use crate::place::{place_text, show, Place, PlaceView};
use crate::routes::{
    abridged, default_route, place_for, resolved, table_result, table_view, trim_to, Route,
    RouteView,
};
use crate::ssh::{Probe, ProbeView};
use crate::table::{count_of, counted};
use crate::text::{
    contains, has_part, lemma_has_command, lemma_has_middle, starts_with, text_opt, texts, trim,
    trimmed,
};
use vstd::prelude::*;

verus! {

/// The file that would supervise `carry`: where this platform keeps it, and
/// its text, where there is one.
pub struct Supervisor {
    pub path: String,
    pub text: Option<String>,
}

/// What was found on this machine.
pub struct Facts {
    pub version: String,
    /// Where this program runs from.
    pub exe: Option<String>,
    pub root: String,
    pub has_key: bool,
    pub routes: Result<Vec<Route>, Fail>,
    /// The addresses that are read for here.
    pub mine: Vec<String>,
    /// The addresses that the place collected from grants this courier, where
    /// it said.
    pub grants: Option<Vec<String>>,
    /// Who the mail waiting to leave is for.
    pub waiting: Vec<String>,
    pub beb: String,
    /// What beb printed as its version, where it answered.
    pub beb_version: Option<String>,
    pub supervisor: Option<Supervisor>,
}

#[verifier::ext_equal]
pub struct SupervisorView {
    pub path: Seq<char>,
    pub text: Option<Seq<char>>,
}

#[verifier::ext_equal]
pub struct FactsView {
    pub version: Seq<char>,
    pub exe: Option<Seq<char>>,
    pub root: Seq<char>,
    pub has_key: bool,
    pub routes: Result<Seq<RouteView>, FailView>,
    pub mine: Seq<Seq<char>>,
    pub grants: Option<Seq<Seq<char>>>,
    pub waiting: Seq<Seq<char>>,
    pub beb: Seq<char>,
    pub beb_version: Option<Seq<char>>,
    pub supervisor: Option<SupervisorView>,
}

impl View for Facts {
    type V = FactsView;

    open spec fn view(&self) -> FactsView {
        FactsView {
            version: self.version@,
            exe: text_opt(self.exe),
            root: self.root@,
            has_key: self.has_key,
            routes: table_result(self.routes),
            mine: texts(self.mine@),
            grants: match self.grants {
                Some(g) => Some(texts(g@)),
                None => None,
            },
            waiting: texts(self.waiting@),
            beb: self.beb@,
            beb_version: text_opt(self.beb_version),
            supervisor: match self.supervisor {
                Some(s) => Some(SupervisorView { path: s.path@, text: text_opt(s.text) }),
                None => None,
            },
        }
    }
}

/// The table, as far as there is one.
pub open spec fn table_found(f: FactsView) -> Seq<RouteView> {
    match f.routes {
        Ok(t) => t,
        Err(_) => Seq::empty(),
    }
}

pub open spec fn one_if(b: bool, s: Seq<char>) -> Seq<Seq<char>> {
    if b {
        seq![s]
    } else {
        Seq::empty()
    }
}

/// What is wrong with the supervisor's file. It is written once, from
/// whatever `unit` printed that day, so it outlives the names it was given.
pub open spec fn wrong_with_supervisor(f: FactsView) -> Seq<Seq<char>> {
    match f.supervisor {
        Some(SupervisorView { path, text: Some(text) }) => one_if(
            !contains(text, f.beb),
            path + " does not name "@ + f.beb
                + ", so the service and this shell disagree about beb"@,
        ) + one_if(
            f.exe matches Some(e) && !contains(text, e),
            path + " runs a different beb-courier than the one you just ran"@,
        ) + one_if(
            !contains(text, "carry"@),
            path
                + " does not run carry, so it names a verb this version does not have\nbeb-courier unit prints the file this one wants"@,
        ),
        _ => Seq::empty(),
    }
}

/// What is wrong with the addresses that are waiting and have no route.
pub open spec fn wrong_with_outbox(f: FactsView) -> Seq<Seq<char>> {
    let lost = uncovered(table_found(f), f.waiting);
    Seq::new(
        lost.len(),
        |i: int|
            abridged(lost[i], 8)
                + " is waiting to leave with no route: beb-courier route add "@ + lost[i]
                + " ssh://host"@,
    )
}

/// The addresses of `a` that are not among `b`, each once, in the order in
/// which they first come.
pub open spec fn only_in(a: Seq<Seq<char>>, b: Seq<Seq<char>>) -> Seq<Seq<char>>
    decreases a.len(),
{
    if a.len() == 0 {
        Seq::empty()
    } else {
        let s = only_in(a.drop_last(), b);
        if b.contains(a.last()) || s.contains(a.last()) {
            s
        } else {
            s.push(a.last())
        }
    }
}

/// The first eight characters of an address, or all of it.
pub open spec fn brief(a: Seq<char>) -> Seq<char> {
    if a.len() > 8 {
        a.take(8)
    } else {
        a
    }
}

/// What is said of a grant that nothing here reads for. It keeps a queue
/// alive that nothing will collect.
pub open spec fn stale_text(a: Seq<char>) -> Seq<char> {
    brief(a) + " is granted there and reads nowhere here\nbeb-courier unregister "@ + a
}

/// What is said of an address that is read for here and not granted. Mail for
/// it is refused where nobody here can hear it.
pub open spec fn ungranted_text(a: Seq<char>) -> Seq<char> {
    brief(a)
        + " reads here and is not granted there\nas that identity: beb whoami | beb-courier register"@
}

/// What is wrong with what the place collected from grants. A grant and a
/// mailbox are two facts on two machines, and either can go stale in silence.
pub open spec fn wrong_with_grants(f: FactsView) -> Seq<Seq<char>> {
    match f.grants {
        Some(g) => only_in(g, f.mine).map_values(|a: Seq<char>| stale_text(a)) + only_in(
            f.mine,
            g,
        ).map_values(|a: Seq<char>| ungranted_text(a)),
        None => Seq::empty(),
    }
}

/// What is reported of two lists is what is in the one and not in the other,
/// and none is named twice.
pub proof fn law_only_in(left: Seq<Seq<char>>, right: Seq<Seq<char>>)
    ensures
        forall|a: Seq<char>| #[trigger]
            only_in(left, right).contains(a) <==> left.contains(a) && !right.contains(a),
        only_in(left, right).no_duplicates(),
    decreases left.len(),
{
    if left.len() > 0 {
        let rest = left.drop_last();
        let last = left.last();
        let s = only_in(rest, right);
        let u = only_in(left, right);
        law_only_in(rest, right);
        assert(left =~= rest.push(last));
        assert forall|a: Seq<char>| #[trigger]
            u.contains(a) <==> left.contains(a) && !right.contains(a) by {
            assert(s.contains(a) <==> rest.contains(a) && !right.contains(a));
            if left.contains(a) && a != last {
                let i = choose|i: int| 0 <= i < left.len() && left[i] == a;
                assert(rest[i] == a);
            }
            if rest.contains(a) {
                let i = choose|i: int| 0 <= i < rest.len() && rest[i] == a;
                assert(left[i] == a);
            }
            assert(left[left.len() - 1] == last);
            if u.len() > s.len() {
                assert(u[s.len() as int] == last);
                if s.contains(a) {
                    let i = choose|i: int| 0 <= i < s.len() && s[i] == a;
                    assert(u[i] == a);
                }
                if u.contains(a) && a != last {
                    let i = choose|i: int| 0 <= i < u.len() && u[i] == a;
                    assert(s[i] == a);
                }
            }
        }
    }
}

/// Everything that does not agree, before any place is asked whether it
/// answers.
pub open spec fn wrong_here(f: FactsView) -> Seq<Seq<char>> {
    let routes = match f.routes {
        Ok(t) => one_if(
            t.len() == 0,
            "no routes in "@ + f.root + "; beb-courier route add ssh://host names one"@,
        ),
        Err(e) => seq![e.msg],
    };
    one_if(!f.has_key, "no key in "@ + f.root + "; beb-courier init makes one"@) + routes
        + one_if(
        f.beb_version is None,
        f.beb + " does not answer --version, so nothing can be delivered here"@,
    ) + wrong_with_supervisor(f) + wrong_with_outbox(f) + wrong_with_grants(f)
}

/// What is said of the machine, whether or not it agrees.
pub open spec fn status_notes(f: FactsView) -> Seq<Seq<char>> {
    let t = table_found(f);
    let exe = match f.exe {
        Some(e) => e,
        None => "?"@,
    };
    let beb = match f.beb_version {
        Some(v) => trim(v),
        None => "missing"@,
    };
    let collecting = match place_for(t, None) {
        Some(p) => "collecting from "@ + place_text(p),
        None => "collecting from nowhere, since no route takes what is not named; mail arrives here by being dropped in"@,
    };
    let supervised = match f.supervisor {
        Some(s) => if s.text is Some {
            seq!["supervised by "@ + s.path]
        } else {
            seq!["no supervisor file at "@ + s.path + "; beb-courier unit prints one"@]
        },
        None => Seq::empty(),
    };
    seq![
        f.version + " at "@ + exe + ", root "@ + f.root,
        decimal(f.mine.len()) + " addresses, "@ + decimal(f.waiting.len())
            + " waiting to leave, beb is "@ + beb,
    ] + one_if(t.len() > 0, counted(t.len(), "route"@, "routes"@) + ", "@ + collecting)
        + supervised
}

/// Nothing is wrong here exactly if there is a key, a table with a route in
/// it that covers everyone mail is waiting for, a beb that answers, a grant
/// for everyone who reads here and for nobody else where grants are known, and
/// either no supervisor's file or one that names this beb, this program and
/// `carry`.
pub proof fn law_a_machine_agrees_with_itself(f: FactsView)
    ensures
        wrong_here(f).len() == 0 <==> {
            &&& f.has_key
            &&& f.routes matches Ok(t) && t.len() > 0 && uncovered(t, f.waiting).len() == 0
            &&& f.beb_version is Some
            &&& f.grants matches Some(g) ==> only_in(g, f.mine).len() == 0 && only_in(
                f.mine,
                g,
            ).len() == 0
            &&& match f.supervisor {
                Some(SupervisorView { path: _, text: Some(text) }) => {
                    &&& contains(text, f.beb)
                    &&& f.exe matches Some(e) ==> contains(text, e)
                    &&& contains(text, "carry"@)
                },
                _ => true,
            }
        },
{
}

/// The places of a table, each once, in the order in which they first come.
pub open spec fn places_in(t: Seq<RouteView>) -> Seq<PlaceView>
    decreases t.len(),
{
    if t.len() == 0 {
        Seq::empty()
    } else {
        let s = places_in(t.drop_last());
        if s.contains(t.last().place) {
            s
        } else {
            s.push(t.last().place)
        }
    }
}

pub open spec fn place_views(v: Seq<&Place>) -> Seq<PlaceView> {
    Seq::new(v.len(), |i: int| v[i]@)
}

/// Every place that some route names is asked, and none of them twice,
/// however many addresses point at it.
pub proof fn law_every_place_is_asked_once(t: Seq<RouteView>)
    ensures
        places_in(t).no_duplicates(),
        forall|p: PlaceView| #[trigger]
            places_in(t).contains(p) <==> exists|i: int|
                0 <= i < t.len() && (#[trigger] t[i]).place == p,
    decreases t.len(),
{
    if t.len() > 0 {
        let d = t.drop_last();
        let s = places_in(d);
        let u = places_in(t);
        law_every_place_is_asked_once(d);
        let last = t.last();
        assert(t[t.len() - 1] == last);
        if !s.contains(last.place) {
            assert(u[s.len() as int] == last.place);
        }
        assert forall|p: PlaceView| #[trigger]
            u.contains(p) <==> exists|i: int| 0 <= i < t.len() && (#[trigger] t[i]).place == p by {
            if u.contains(p) {
                if s.contains(p) {
                    let i = choose|i: int| 0 <= i < d.len() && (#[trigger] d[i]).place == p;
                    assert(t[i].place == p);
                } else {
                    let k = choose|k: int| 0 <= k < u.len() && u[k] == p;
                    if k < s.len() {
                        assert(s[k] == p);
                    }
                    assert(t[t.len() - 1].place == p);
                }
            }
            if exists|i: int| 0 <= i < t.len() && (#[trigger] t[i]).place == p {
                let i = choose|i: int| 0 <= i < t.len() && (#[trigger] t[i]).place == p;
                if i < d.len() {
                    assert(d[i].place == p);
                    assert(s.contains(p));
                    let k = choose|k: int| 0 <= k < s.len() && s[k] == p;
                    assert(u[k] == p);
                }
            }
        }
    }
}

/// Each distinct place once, however many addresses point at it.
pub fn distinct_places(routes: &[Route]) -> (res: Vec<&Place>)
    ensures
        place_views(res@) == places_in(table_view(routes@)),
{
    let mut out: Vec<&Place> = Vec::new();
    let ghost all = table_view(routes@);
    assert(place_views(out@) =~= places_in(all.take(0)));
    for i in 0..routes.len()
        invariant
            all == table_view(routes@),
            place_views(out@) == places_in(all.take(i as int)),
    {
        let p = &routes[i].place;
        let ghost before = place_views(out@);
        assert(all.take(i + 1).drop_last() =~= all.take(i as int));
        assert(all.take(i + 1).last().place == p@);
        let mut seen = false;
        for j in 0..out.len()
            invariant
                before == place_views(out@),
                seen == exists|k: int| 0 <= k < j && #[trigger] before[k] == p@,
        {
            assert(before[j as int] == out@[j as int]@);
            if *out[j] == *p {
                seen = true;
            }
        }
        if !seen {
            out.push(p);
            assert(place_views(out@) =~= before.push(p@));
        }
    }
    assert(all.take(routes@.len() as int) =~= all);
    out
}

/// What has been found out so far.
#[derive(Debug)]
pub struct Survey {
    pub notes: Vec<String>,
    pub wrong: Vec<String>,
}

#[verifier::ext_equal]
pub struct SurveyView {
    pub notes: Seq<Seq<char>>,
    pub wrong: Seq<Seq<char>>,
}

impl View for Survey {
    type V = SurveyView;

    open spec fn view(&self) -> SurveyView {
        SurveyView { notes: texts(self.notes@), wrong: texts(self.wrong@) }
    }
}

/// What has been found out once a place's answer is taken into account.
pub open spec fn told(s: SurveyView, place: PlaceView, answer: ProbeView) -> SurveyView {
    match answer {
        ProbeView::Answered => SurveyView {
            notes: s.notes.push(place_text(place) + " answers and knows this key"@),
            ..s
        },
        ProbeView::Unreachable(why) => SurveyView {
            wrong: s.wrong.push("cannot reach "@ + place_text(place) + ": "@ + why),
            ..s
        },
    }
}

/// How a status ends, by what does not agree.
pub open spec fn status_end(wrong: Seq<Seq<char>>) -> Result<(), FailView> {
    if wrong.len() == 0 {
        Ok(())
    } else if wrong.len() == 1 {
        Err(refusal("one thing does not agree"@))
    } else {
        Err(refusal(decimal(wrong.len()) + " things do not agree"@))
    }
}

/// What has been found out once every place has been asked, in order.
pub open spec fn all_told(
    s: SurveyView,
    places: Seq<PlaceView>,
    answers: Seq<ProbeView>,
) -> SurveyView
    decreases answers.len(),
{
    if answers.len() == 0 {
        s
    } else {
        told(
            all_told(s, places, answers.drop_last()),
            places[answers.len() - 1],
            answers.last(),
        )
    }
}

proof fn lemma_all_told(s: SurveyView, places: Seq<PlaceView>, answers: Seq<ProbeView>)
    ensures
        all_told(s, places, answers).wrong.len() >= s.wrong.len(),
        all_told(s, places, answers).wrong.len() == s.wrong.len() <==> forall|i: int|
            0 <= i < answers.len() ==> #[trigger] answers[i] is Answered,
    decreases answers.len(),
{
    if answers.len() > 0 {
        let front = answers.drop_last();
        lemma_all_told(s, places, front);
        assert(answers.last() == answers[answers.len() - 1]);
        if forall|i: int| 0 <= i < front.len() ==> #[trigger] front[i] is Answered {
            if answers.last() is Answered {
                assert forall|i: int| 0 <= i < answers.len() implies #[trigger] answers[i] is Answered by {
                    if i < front.len() {
                        assert(front[i] == answers[i]);
                    }
                }
            }
        } else {
            let i = choose|i: int| 0 <= i < front.len() && !(#[trigger] front[i] is Answered);
            assert(answers[i] == front[i]);
        }
    }
}

/// A status ends well exactly if nothing is wrong here and every place that
/// some route names answers; otherwise it ends with exit 3.
pub proof fn law_a_status_ends_well_if_everything_agrees(f: FactsView, answers: Seq<ProbeView>)
    requires
        answers.len() == places_in(table_found(f)).len(),
    ensures
        ({
            let s = SurveyView { notes: status_notes(f), wrong: wrong_here(f) };
            let end = status_end(all_told(s, places_in(table_found(f)), answers).wrong);
            &&& end is Ok <==> wrong_here(f).len() == 0 && forall|i: int|
                0 <= i < answers.len() ==> #[trigger] answers[i] is Answered
            &&& end is Err ==> end->Err_0.code == 3
        }),
{
    let s = SurveyView { notes: status_notes(f), wrong: wrong_here(f) };
    lemma_all_told(s, places_in(table_found(f)), answers);
}

/// The checks of the supervisor's file.
fn check_supervisor(f: &Facts, wrong: &mut Vec<String>)
    ensures
        texts(final(wrong)@) == texts(old(wrong)@) + wrong_with_supervisor(f@),
{
    let ghost before = texts(wrong@);
    if let Some(s) = &f.supervisor {
        let path = s.path.as_str();
        if let Some(text) = &s.text {
            let text = text.as_str();
            if !has_part(text, f.beb.as_str()) {
                wrong.push(
                    cat4(
                        path,
                        " does not name ",
                        f.beb.as_str(),
                        ", so the service and this shell disagree about beb",
                    ),
                );
            }
            if let Some(e) = &f.exe {
                if !has_part(text, e.as_str()) {
                    wrong.push(
                        cat2(path, " runs a different beb-courier than the one you just ran"),
                    );
                }
            }
            if !has_part(text, "carry") {
                wrong.push(
                    cat2(
                        path,
                        " does not run carry, so it names a verb this version does not have\nbeb-courier unit prints the file this one wants",
                    ),
                );
            }
        }
    }
    assert(texts(wrong@) =~= before + wrong_with_supervisor(f@));
}

/// The mail that has no route.
fn check_outbox(routes: &[Route], waiting: &Vec<String>, wrong: &mut Vec<String>)
    ensures
        texts(final(wrong)@) == texts(old(wrong)@) + Seq::new(
            uncovered(table_view(routes@), texts(waiting@)).len(),
            |i: int|
                abridged(uncovered(table_view(routes@), texts(waiting@))[i], 8)
                    + " is waiting to leave with no route: beb-courier route add "@ + uncovered(
                    table_view(routes@),
                    texts(waiting@),
                )[i] + " ssh://host"@,
        ),
{
    let lost = stranded(routes, waiting);
    let ghost names = uncovered(table_view(routes@), texts(waiting@));
    let ghost more = Seq::new(
        names.len(),
        |i: int|
            abridged(names[i], 8)
                + " is waiting to leave with no route: beb-courier route add "@ + names[i]
                + " ssh://host"@,
    );
    let ghost before = texts(wrong@);
    assert(before + more.take(0) =~= before);
    for i in 0..lost.len()
        invariant
            names == texts(lost@),
            more == Seq::new(
                names.len(),
                |i: int|
                    abridged(names[i], 8)
                        + " is waiting to leave with no route: beb-courier route add "@
                        + names[i] + " ssh://host"@,
            ),
            texts(wrong@) == before + more.take(i as int),
    {
        let a = lost[i].as_str();
        let ghost here = texts(wrong@);
        wrong.push(
            cat4(
                trim_to(a, 8).as_str(),
                " is waiting to leave with no route: beb-courier route add ",
                a,
                " ssh://host",
            ),
        );
        assert(names[i as int] == a@);
        assert(texts(wrong@) =~= here.push(more[i as int]));
        assert(texts(wrong@) =~= before + more.take(i + 1));
    }
    assert(more.take(lost@.len() as int) =~= more);
}

/// The names of `a` that are not among `b`.
fn names_only_in(a: &Vec<String>, b: &Vec<String>) -> (res: Vec<String>)
    ensures
        texts(res@) == only_in(texts(a@), texts(b@)),
{
    let ghost all = texts(a@);
    let mut out: Vec<String> = Vec::new();
    assert(texts(out@) =~= only_in(all.take(0), texts(b@)));
    for i in 0..a.len()
        invariant
            all == texts(a@),
            texts(out@) == only_in(all.take(i as int), texts(b@)),
    {
        let n = a[i].as_str();
        let ghost before = texts(out@);
        assert(all.take(i + 1).drop_last() =~= all.take(i as int));
        assert(all.take(i + 1).last() == n@);
        if !has_text(b, n) && !has_text(&out, n) {
            out.push(n.to_string());
            assert(texts(out@) =~= before.push(n@));
        }
    }
    assert(all.take(a@.len() as int) =~= all);
    out
}

fn in_brief(a: &str) -> (res: &str)
    ensures
        res@ == brief(a@),
{
    if a.unicode_len() > 8 {
        assert(a@.subrange(0, 8) =~= a@.take(8));
        a.substring_char(0, 8)
    } else {
        a
    }
}

/// The grants and the mailboxes that do not agree.
fn check_grants(f: &Facts, wrong: &mut Vec<String>)
    ensures
        texts(final(wrong)@) == texts(old(wrong)@) + wrong_with_grants(f@),
{
    let ghost start = texts(wrong@);
    let grants = match &f.grants {
        Some(g) => g,
        None => {
            assert(start + wrong_with_grants(f@) =~= start);
            return;
        },
    };
    let stale = names_only_in(grants, &f.mine);
    let ghost stale_said = texts(stale@).map_values(|a: Seq<char>| stale_text(a));
    assert(start + stale_said.take(0) =~= start);
    for i in 0..stale.len()
        invariant
            stale_said == texts(stale@).map_values(|a: Seq<char>| stale_text(a)),
            texts(wrong@) == start + stale_said.take(i as int),
    {
        let a = stale[i].as_str();
        let ghost before = texts(wrong@);
        wrong.push(
            cat3(
                in_brief(a),
                " is granted there and reads nowhere here\nbeb-courier unregister ",
                a,
            ),
        );
        assert(stale_said[i as int] == stale_text(a@));
        assert(texts(wrong@) =~= before.push(stale_text(a@)));
        assert(texts(wrong@) =~= start + stale_said.take(i + 1));
    }
    let ghost half = texts(wrong@);
    let missing = names_only_in(&f.mine, grants);
    let ghost missing_said = texts(missing@).map_values(|a: Seq<char>| ungranted_text(a));
    assert(half + missing_said.take(0) =~= half);
    for i in 0..missing.len()
        invariant
            missing_said == texts(missing@).map_values(|a: Seq<char>| ungranted_text(a)),
            texts(wrong@) == half + missing_said.take(i as int),
    {
        let a = missing[i].as_str();
        let ghost before = texts(wrong@);
        wrong.push(
            cat2(
                in_brief(a),
                " reads here and is not granted there\nas that identity: beb whoami | beb-courier register",
            ),
        );
        assert(missing_said[i as int] == ungranted_text(a@));
        assert(texts(wrong@) =~= before.push(ungranted_text(a@)));
        assert(texts(wrong@) =~= half + missing_said.take(i + 1));
    }
    assert(stale_said.take(stale@.len() as int) =~= stale_said);
    assert(missing_said.take(missing@.len() as int) =~= missing_said);
    assert(texts(wrong@) =~= start + wrong_with_grants(f@));
}

/// How many addresses the place collected from grants, where it said.
pub fn grants_note(f: &Facts) -> (res: Option<String>)
    ensures
        text_opt(res) == match (place_for(table_found(f@), None), f@.grants) {
            (Some(p), Some(g)) => Some(place_text(p) + " grants "@ + decimal(g.len())),
            _ => None,
        },
{
    match (&f.routes, &f.grants) {
        (Ok(routes), Some(g)) => match default_route(routes.as_slice()) {
            Some(p) => Some(
                cat3(show(p).as_str(), " grants ", decimal_of(g.len() as u64).as_str()),
            ),
            None => None,
        },
        _ => None,
    }
}

/// What is said of the machine.
fn describe(f: &Facts, routes: &[Route]) -> (res: Vec<String>)
    requires
        table_view(routes@) == table_found(f@),
    ensures
        texts(res@) == status_notes(f@),
{
    let mut notes: Vec<String> = Vec::new();
    let exe = match &f.exe {
        Some(e) => e.as_str(),
        None => "?",
    };
    notes.push(cat5(f.version.as_str(), " at ", exe, ", root ", f.root.as_str()));
    let beb = match &f.beb_version {
        Some(v) => trimmed(v.as_str()),
        None => "missing",
    };
    notes.push(
        cat5(
            decimal_of(f.mine.len() as u64).as_str(),
            " addresses, ",
            decimal_of(f.waiting.len() as u64).as_str(),
            " waiting to leave, beb is ",
            beb,
        ),
    );
    if routes.len() > 0 {
        let collecting = match default_route(routes) {
            Some(p) => cat2("collecting from ", show(p).as_str()),
            None => "collecting from nowhere, since no route takes what is not named; mail arrives here by being dropped in".to_string(),
        };
        notes.push(
            cat3(
                count_of(routes.len(), "route", "routes").as_str(),
                ", ",
                collecting.as_str(),
            ),
        );
    }
    if let Some(s) = &f.supervisor {
        if s.text.is_some() {
            notes.push(cat2("supervised by ", s.path.as_str()));
        } else {
            notes.push(
                cat3(
                    "no supervisor file at ",
                    s.path.as_str(),
                    "; beb-courier unit prints one",
                ),
            );
        }
    }
    assert(texts(notes@) =~= status_notes(f@));
    notes
}

/// Holds what was found on this machine against itself.
pub fn cmd_status(f: &Facts) -> (res: Survey)
    ensures
        res@ == (SurveyView { notes: status_notes(f@), wrong: wrong_here(f@) }),
{
    let none: Vec<Route> = Vec::new();
    let routes: &[Route] = match &f.routes {
        Ok(r) => r.as_slice(),
        Err(_) => none.as_slice(),
    };
    assert(table_view(routes@) =~= table_found(f@));
    let mut wrong: Vec<String> = Vec::new();
    if !f.has_key {
        wrong.push(cat3("no key in ", f.root.as_str(), "; beb-courier init makes one"));
    }
    match &f.routes {
        Ok(r) => {
            if r.len() == 0 {
                wrong.push(
                    cat3(
                        "no routes in ",
                        f.root.as_str(),
                        "; beb-courier route add ssh://host names one",
                    ),
                );
            }
        },
        Err(e) => {
            wrong.push(e.msg.clone());
        },
    }
    if f.beb_version.is_none() {
        wrong.push(
            cat2(
                f.beb.as_str(),
                " does not answer --version, so nothing can be delivered here",
            ),
        );
    }
    let ghost first = texts(wrong@);
    check_supervisor(f, &mut wrong);
    check_outbox(routes, &f.waiting, &mut wrong);
    check_grants(f, &mut wrong);
    proof {
        let routes_wrong = match f@.routes {
            Ok(t) => one_if(
                t.len() == 0,
                "no routes in "@ + f@.root + "; beb-courier route add ssh://host names one"@,
            ),
            Err(e) => seq![e.msg],
        };
        assert(first =~= one_if(
            !f@.has_key,
            "no key in "@ + f@.root + "; beb-courier init makes one"@,
        ) + routes_wrong + one_if(
            f@.beb_version is None,
            f@.beb + " does not answer --version, so nothing can be delivered here"@,
        ));
        assert(texts(wrong@) =~= wrong_here(f@));
    }
    Survey { notes: describe(f, routes), wrong }
}

/// Takes a place's answer into account.
pub fn heard(s: &mut Survey, place: &Place, answer: &Probe)
    ensures
        final(s)@ == told(old(s)@, place@, answer@),
{
    let p = show(place);
    let ghost notes = texts(s.notes@);
    let ghost wrong = texts(s.wrong@);
    match answer {
        Probe::Answered => {
            s.notes.push(cat2(p.as_str(), " answers and knows this key"));
            assert(texts(s.notes@) =~= notes.push(
                place_text(place@) + " answers and knows this key"@,
            ));
        },
        Probe::Unreachable(why) => {
            s.wrong.push(cat4("cannot reach ", p.as_str(), ": ", why.as_str()));
            assert(texts(s.wrong@) =~= wrong.push(
                "cannot reach "@ + place_text(place@) + ": "@ + why@,
            ));
        },
    }
}

/// Everything agrees, or it is said how much does not.
pub fn agreed(wrong: &Vec<String>) -> (res: Result<(), Fail>)
    ensures
        match res {
            Ok(_) => status_end(texts(wrong@)) is Ok,
            Err(f) => status_end(texts(wrong@)) == Err::<(), FailView>(f@),
        },
{
    if wrong.len() == 0 {
        return Ok(());
    }
    Err(
        refused(
            if wrong.len() == 1 {
                "one thing does not agree".to_string()
            } else {
                cat2(decimal_of(wrong.len() as u64).as_str(), " things do not agree")
            },
        ),
    )
}

// ---- what is said of a machine ------------------------------------------------------

/// Some of the lines has `s` in it.
pub open spec fn said(w: Seq<Seq<char>>, s: Seq<char>) -> bool {
    exists|i: int| 0 <= i < w.len() && contains(#[trigger] w[i], s)
}

proof fn lemma_said(w: Seq<Seq<char>>, part: Seq<Seq<char>>, i: int, s: Seq<char>)
    requires
        0 <= i < part.len(),
        contains(part[i], s),
        forall|x: Seq<char>| part.contains(x) ==> #[trigger] w.contains(x),
    ensures
        said(w, s),
{
    assert(part.contains(part[i]));
    assert(w.contains(part[i]));
    let k = choose|k: int| 0 <= k < w.len() && w[k] == part[i];
    assert(contains(w[k], s));
}

proof fn lemma_begins(p: Seq<char>, b: Seq<char>)
    ensures
        contains(p + b, p),
{
    let none: Seq<char> = Seq::empty();
    lemma_has_middle(none, p, b);
    assert(none + p + b =~= p + b);
}

/// Everything that is in a part is in the whole.
proof fn lemma_parts(
    a: Seq<Seq<char>>,
    b: Seq<Seq<char>>,
    c: Seq<Seq<char>>,
    d: Seq<Seq<char>>,
    e: Seq<Seq<char>>,
    g: Seq<Seq<char>>,
)
    ensures
        ({
            let w = a + b + c + d + e + g;
            &&& forall|x: Seq<char>| a.contains(x) ==> #[trigger] w.contains(x)
            &&& forall|x: Seq<char>| b.contains(x) ==> #[trigger] w.contains(x)
            &&& forall|x: Seq<char>| c.contains(x) ==> #[trigger] w.contains(x)
            &&& forall|x: Seq<char>| d.contains(x) ==> #[trigger] w.contains(x)
            &&& forall|x: Seq<char>| e.contains(x) ==> #[trigger] w.contains(x)
            &&& forall|x: Seq<char>| g.contains(x) ==> #[trigger] w.contains(x)
            &&& w.len() == a.len() + b.len() + c.len() + d.len() + e.len() + g.len()
        }),
{
    lemma_two_parts(a, b);
    lemma_two_parts(a + b, c);
    lemma_two_parts(a + b + c, d);
    lemma_two_parts(a + b + c + d, e);
    lemma_two_parts(a + b + c + d + e, g);
}

proof fn lemma_two_parts(a: Seq<Seq<char>>, b: Seq<Seq<char>>)
    ensures
        forall|x: Seq<char>| a.contains(x) || b.contains(x) ==> #[trigger] (a + b).contains(x),
{
    assert forall|x: Seq<char>| a.contains(x) || b.contains(x) implies #[trigger] (a + b).contains(
        x,
    ) by {
        if a.contains(x) {
            let i = choose|i: int| 0 <= i < a.len() && a[i] == x;
            assert((a + b)[i] == x);
        } else {
            let i = choose|i: int| 0 <= i < b.len() && b[i] == x;
            assert((a + b)[a.len() + i] == x);
        }
    }
}

/// What is wrong with the supervisor's file, the outbox and the grants is
/// wrong here.
proof fn lemma_wrong_parts(f: FactsView)
    ensures
        forall|x: Seq<char>|
            wrong_with_supervisor(f).contains(x) ==> #[trigger] wrong_here(f).contains(x),
        forall|x: Seq<char>|
            wrong_with_outbox(f).contains(x) ==> #[trigger] wrong_here(f).contains(x),
        forall|x: Seq<char>|
            wrong_with_grants(f).contains(x) ==> #[trigger] wrong_here(f).contains(x),
{
    let a = one_if(!f.has_key, "no key in "@ + f.root + "; beb-courier init makes one"@);
    let b = match f.routes {
        Ok(t) => one_if(
            t.len() == 0,
            "no routes in "@ + f.root + "; beb-courier route add ssh://host names one"@,
        ),
        Err(e) => seq![e.msg],
    };
    let c = one_if(
        f.beb_version is None,
        f.beb + " does not answer --version, so nothing can be delivered here"@,
    );
    lemma_parts(a, b, c, wrong_with_supervisor(f), wrong_with_outbox(f), wrong_with_grants(f));
}

/// Every part of a machine that does not agree is said: that there is no key,
/// what is wrong with the table, or that it is empty, and that beb does not
/// answer.
pub proof fn law_what_is_missing_is_said(f: FactsView)
    ensures
        ({
            let w = wrong_here(f);
            &&& !f.has_key ==> said(w, "no key in "@ + f.root)
            &&& f.routes matches Err(e) ==> said(w, e.msg)
            &&& (f.routes matches Ok(t) && t.len() == 0) ==> said(w, "no routes in "@ + f.root)
            &&& f.beb_version is None ==> said(w, f.beb + " does not answer --version"@)
        }),
{
    let w = wrong_here(f);
    let no_key = "no key in "@ + f.root + "; beb-courier init makes one"@;
    let no_routes = "no routes in "@ + f.root + "; beb-courier route add ssh://host names one"@;
    let no_beb = f.beb + " does not answer --version, so nothing can be delivered here"@;
    let a = one_if(!f.has_key, no_key);
    let b = match f.routes {
        Ok(t) => one_if(t.len() == 0, no_routes),
        Err(e) => seq![e.msg],
    };
    let c = one_if(f.beb_version is None, no_beb);
    lemma_parts(a, b, c, wrong_with_supervisor(f), wrong_with_outbox(f), wrong_with_grants(f));
    if !f.has_key {
        lemma_begins("no key in "@ + f.root, "; beb-courier init makes one"@);
        assert(a[0] == no_key);
        lemma_said(w, a, 0, "no key in "@ + f.root);
    }
    match f.routes {
        Ok(t) => {
            if t.len() == 0 {
                lemma_begins(
                    "no routes in "@ + f.root,
                    "; beb-courier route add ssh://host names one"@,
                );
                assert(b[0] == no_routes);
                lemma_said(w, b, 0, "no routes in "@ + f.root);
            }
        },
        Err(e) => {
            lemma_begins(e.msg, Seq::empty());
            assert(e.msg + Seq::<char>::empty() =~= e.msg);
            assert(b[0] == e.msg);
            lemma_said(w, b, 0, e.msg);
        },
    }
    if f.beb_version is None {
        let s = " does not answer --version"@;
        let z = ", so nothing can be delivered here"@;
        assert(" does not answer --version, so nothing can be delivered here"@ =~= s + z) by {
            reveal_strlit(" does not answer --version, so nothing can be delivered here");
            reveal_strlit(" does not answer --version");
            reveal_strlit(", so nothing can be delivered here");
        }
        lemma_begins(f.beb + s, z);
        assert(f.beb + (s + z) =~= f.beb + s + z);
        assert(c[0] == no_beb);
        lemma_said(w, c, 0, f.beb + s);
    }
}

/// A supervisor's file that does not name this beb, this program or `carry` is
/// named, and so is the beb that it lacks; one that names them all is not, nor
/// one that is not there.
pub proof fn law_a_file_that_disagrees_is_named(f: FactsView, path: Seq<char>, text: Seq<char>)
    requires
        f.supervisor == Some((SupervisorView { path, text: Some(text) })),
    ensures
        ({
            let w = wrong_here(f);
            let other = f.exe matches Some(e) && !contains(text, e);
            &&& !contains(text, f.beb) ==> said(w, path + " does not name "@ + f.beb)
            &&& other ==> said(w, path + " runs a different beb-courier"@)
            &&& !contains(text, "carry"@) ==> said(w, path + " does not run carry"@)
            &&& wrong_with_supervisor(f).len() == (if contains(text, f.beb) {
                0int
            } else {
                1
            }) + (if other {
                1int
            } else {
                0
            }) + (if contains(text, "carry"@) {
                0int
            } else {
                1
            })
        }),
{
    let w = wrong_here(f);
    let d = wrong_with_supervisor(f);
    lemma_wrong_parts(f);
    let other = f.exe matches Some(e) && !contains(text, e);
    let k: int = if contains(text, f.beb) {
        0
    } else {
        1
    };
    let n: int = if other {
        k + 1
    } else {
        k
    };
    if !contains(text, f.beb) {
        let z = ", so the service and this shell disagree about beb"@;
        assert(d[0] == path + " does not name "@ + f.beb + z);
        lemma_begins(path + " does not name "@ + f.beb, z);
        lemma_said(w, d, 0, path + " does not name "@ + f.beb);
    }
    if other {
        let s = " runs a different beb-courier"@;
        let z = " than the one you just ran"@;
        assert(d[k] == path + " runs a different beb-courier than the one you just ran"@);
        assert(" runs a different beb-courier than the one you just ran"@ =~= s + z) by {
            reveal_strlit(" runs a different beb-courier than the one you just ran");
            reveal_strlit(" runs a different beb-courier");
            reveal_strlit(" than the one you just ran");
        }
        lemma_begins(path + s, z);
        assert(path + (s + z) =~= path + s + z);
        lemma_said(w, d, k, path + s);
    }
    if !contains(text, "carry"@) {
        let s = " does not run carry"@;
        let z =
            ", so it names a verb this version does not have\nbeb-courier unit prints the file this one wants"@;
        let m =
            " does not run carry, so it names a verb this version does not have\nbeb-courier unit prints the file this one wants"@;
        assert(d[n] == path + m);
        assert(m =~= s + z) by {
            reveal_strlit(
                " does not run carry, so it names a verb this version does not have\nbeb-courier unit prints the file this one wants",
            );
            reveal_strlit(" does not run carry");
            reveal_strlit(
                ", so it names a verb this version does not have\nbeb-courier unit prints the file this one wants",
            );
        }
        lemma_begins(path + s, z);
        assert(path + (s + z) =~= path + s + z);
        lemma_said(w, d, n, path + s);
    }
}

/// Everyone whose mail is waiting and whom no route takes is said, with the
/// command that would route them; so is everyone who is granted and reads
/// nowhere here, with the command that gives the grant up, and everyone who
/// reads here and is not granted. Where the table cannot be read it takes
/// nobody.
pub proof fn law_everyone_left_out_is_said(f: FactsView, a: Seq<char>)
    ensures
        ({
            let w = wrong_here(f);
            let routed = f.routes matches Ok(t) && resolved(t, a) is Some;
            &&& f.waiting.contains(a) && !routed ==> said(
                w,
                "beb-courier route add "@ + a + " ssh://host"@,
            )
            &&& f.grants matches Some(g) ==> {
                &&& g.contains(a) && !f.mine.contains(a) ==> said(
                    w,
                    "beb-courier unregister "@ + a,
                )
                &&& f.mine.contains(a) && !g.contains(a) ==> said(
                    w,
                    " reads here and is not granted there"@,
                )
            }
        }),
{
    let w = wrong_here(f);
    let e = wrong_with_outbox(f);
    let h = wrong_with_grants(f);
    lemma_wrong_parts(f);
    let t = table_found(f);
    let lost = uncovered(t, f.waiting);
    law_uncovered(t, f.waiting);
    let routed = f.routes matches Ok(t) && resolved(t, a) is Some;
    if f.waiting.contains(a) && !routed {
        assert(resolved(t, a) is None);
        assert(lost.contains(a));
        let k = choose|k: int| 0 <= k < lost.len() && lost[k] == a;
        lemma_stranded_says_how(a);
        assert(e[k] == abridged(a, 8)
            + " is waiting to leave with no route: beb-courier route add "@ + a
            + " ssh://host"@);
        lemma_said(w, e, k, "beb-courier route add "@ + a + " ssh://host"@);
    }
    if let Some(g) = f.grants {
        let stale = only_in(g, f.mine);
        let missing = only_in(f.mine, g);
        law_only_in(g, f.mine);
        law_only_in(f.mine, g);
        if g.contains(a) && !f.mine.contains(a) {
            assert(stale.contains(a));
            let k = choose|k: int| 0 <= k < stale.len() && stale[k] == a;
            assert(h[k] == stale_text(a));
            lemma_stale_says_how(a);
            lemma_said(w, h, k, "beb-courier unregister "@ + a);
        }
        if f.mine.contains(a) && !g.contains(a) {
            assert(missing.contains(a));
            let k = choose|k: int| 0 <= k < missing.len() && missing[k] == a;
            assert(h[stale.len() + k] == ungranted_text(a));
            lemma_ungranted_says_so(a);
            lemma_said(w, h, stale.len() + k, " reads here and is not granted there"@);
        }
    }
}

proof fn lemma_stranded_says_how(a: Seq<char>)
    ensures
        contains(
            abridged(a, 8) + " is waiting to leave with no route: beb-courier route add "@ + a
                + " ssh://host"@,
            "beb-courier route add "@ + a + " ssh://host"@,
        ),
{
    let c = "beb-courier route add "@;
    let lead = " is waiting to leave with no route: "@;
    assert(" is waiting to leave with no route: beb-courier route add "@ =~= lead + c) by {
        reveal_strlit(" is waiting to leave with no route: beb-courier route add ");
        reveal_strlit(" is waiting to leave with no route: ");
        reveal_strlit("beb-courier route add ");
    }
    lemma_has_command(abridged(a, 8), lead, c, a, " ssh://host"@);
}

proof fn lemma_stale_says_how(a: Seq<char>)
    ensures
        contains(stale_text(a), "beb-courier unregister "@ + a),
{
    let c = "beb-courier unregister "@;
    let lead = " is granted there and reads nowhere here\n"@;
    assert(" is granted there and reads nowhere here\nbeb-courier unregister "@ =~= lead + c) by {
        reveal_strlit(" is granted there and reads nowhere here\nbeb-courier unregister ");
        reveal_strlit(" is granted there and reads nowhere here\n");
        reveal_strlit("beb-courier unregister ");
    }
    let none: Seq<char> = Seq::empty();
    lemma_has_command(brief(a), lead, c, a, none);
    assert(c + a + none =~= c + a);
    assert(brief(a) + (lead + c) + a + none =~= brief(a) + (lead + c) + a);
}

proof fn lemma_ungranted_says_so(a: Seq<char>)
    ensures
        contains(ungranted_text(a), " reads here and is not granted there"@),
{
    let s = " reads here and is not granted there"@;
    let z = "\nas that identity: beb whoami | beb-courier register"@;
    assert(
    " reads here and is not granted there\nas that identity: beb whoami | beb-courier register"@
        =~= s + z) by {
        reveal_strlit(
            " reads here and is not granted there\nas that identity: beb whoami | beb-courier register",
        );
        reveal_strlit(" reads here and is not granted there");
        reveal_strlit("\nas that identity: beb whoami | beb-courier register");
    }
    lemma_has_middle(brief(a), s, z);
    assert(brief(a) + (s + z) =~= brief(a) + s + z);
}

/// An address that is granted or read for is spoken of by its first eight
/// characters.
pub proof fn law_an_address_in_brief(a: Seq<char>)
    requires
        a.len() >= 8,
    ensures
        starts_with(stale_text(a), a.take(8) + " is granted there"@),
        starts_with(ungranted_text(a), a.take(8) + " reads here"@),
{
    let b = a.take(8);
    assert(brief(a) =~= b);
    let s = " is granted there and reads nowhere here\nbeb-courier unregister "@;
    let p = " is granted there"@;
    assert(s.len() >= p.len() && s.take(p.len() as int) =~= p) by {
        reveal_strlit(" is granted there and reads nowhere here\nbeb-courier unregister ");
        reveal_strlit(" is granted there");
    }
    lemma_begins_with(b, s, a, p);
    let u =
        " reads here and is not granted there\nas that identity: beb whoami | beb-courier register"@;
    let q = " reads here"@;
    assert(u.len() >= q.len() && u.take(q.len() as int) =~= q) by {
        reveal_strlit(
            " reads here and is not granted there\nas that identity: beb whoami | beb-courier register",
        );
        reveal_strlit(" reads here");
    }
    lemma_begins_with(b, u, Seq::empty(), q);
    assert(b + u + Seq::<char>::empty() =~= b + u);
}

proof fn lemma_begins_with(b: Seq<char>, s: Seq<char>, z: Seq<char>, p: Seq<char>)
    requires
        p.len() <= s.len(),
        s.take(p.len() as int) == p,
    ensures
        starts_with(b + s + z, b + p),
{
    let n = (b + p).len() as int;
    assert forall|i: int| 0 <= i < n implies (b + s + z).take(n)[i] == (b + p)[i] by {
        if i >= b.len() {
            assert(s.take(p.len() as int)[i - b.len()] == s[i - b.len()]);
        }
    }
    assert((b + s + z).take(n) =~= b + p);
}

/// A place that answers is noted, and one that does not is wrong, with why;
/// either is named, and nothing else changes.
pub proof fn law_an_answer_is_noted_or_wrong(s: SurveyView, place: PlaceView, answer: ProbeView)
    ensures
        ({
            let t = told(s, place, answer);
            &&& answer is Answered ==> {
                &&& t.wrong == s.wrong
                &&& t.notes.len() == s.notes.len() + 1
                &&& t.notes.drop_last() == s.notes
                &&& starts_with(t.notes.last(), place_text(place))
            }
            &&& answer matches ProbeView::Unreachable(why) ==> {
                &&& t.notes == s.notes
                &&& t.wrong.len() == s.wrong.len() + 1
                &&& t.wrong.drop_last() == s.wrong
                &&& t.wrong.last() == "cannot reach "@ + place_text(place) + ": "@ + why
            }
        }),
{
    let t = told(s, place, answer);
    match answer {
        ProbeView::Answered => {
            assert(t.notes.drop_last() =~= s.notes);
            let p = place_text(place);
            assert(t.notes.last().take(p.len() as int) =~= p);
        },
        ProbeView::Unreachable(_) => {
            assert(t.wrong.drop_last() =~= s.wrong);
        },
    }
}

/// What does not agree is counted at the end.
pub proof fn law_what_does_not_agree_is_counted(wrong: Seq<Seq<char>>)
    ensures
        status_end(wrong) is Ok <==> wrong.len() == 0,
        status_end(wrong) matches Err(f) ==> f.code == 3,
        wrong.len() == 1 ==> status_end(wrong)->Err_0.msg == "one thing does not agree"@,
        wrong.len() > 1 ==> status_end(wrong)->Err_0.msg == decimal(wrong.len())
            + " things do not agree"@,
{
}

/// The places are asked in the order in which the table first names them, and
/// what is in the one list only is said in its order.
pub proof fn law_asked_in_order(
    t: Seq<RouteView>,
    r: RouteView,
    a: Seq<Seq<char>>,
    b: Seq<Seq<char>>,
    x: Seq<char>,
)
    ensures
        places_in(t).is_prefix_of(places_in(t.push(r))),
        only_in(a, b).is_prefix_of(only_in(a.push(x), b)),
{
    assert(t.push(r).drop_last() =~= t);
    assert(a.push(x).drop_last() =~= a);
}

/// What is said of every machine: which version runs from where, how much is
/// read for and is waiting, which beb there is, how many routes and where mail
/// is collected from, and who supervises it.
pub proof fn law_what_is_said_of_every_machine(f: FactsView)
    ensures
        ({
            let notes = status_notes(f);
            let routes = match f.routes {
                Ok(t) => t,
                Err(_) => Seq::empty(),
            };
            &&& notes.len() == 2 + (if routes.len() > 0 {
                1int
            } else {
                0
            }) + (if f.supervisor is Some {
                1int
            } else {
                0
            })
            &&& starts_with(notes[0], f.version + " at "@)
            &&& f.exe matches Some(e) ==> notes[0] == f.version + " at "@ + e + ", root "@ + f.root
            &&& starts_with(
                notes[1],
                decimal(f.mine.len()) + " addresses, "@ + decimal(f.waiting.len())
                    + " waiting to leave, beb is "@,
            )
            &&& f.beb_version matches Some(v) ==> notes[1].skip(notes[1].len() - trim(v).len())
                == trim(v)
            &&& routes.len() > 0 ==> starts_with(notes[2], decimal(routes.len()) + " "@)
            &&& routes.len() > 0 ==> (place_for(routes, None) matches Some(p) ==> contains(
                notes[2],
                "collecting from "@ + place_text(p),
            ))
            &&& routes.len() > 0 && place_for(routes, None) is None ==> contains(
                notes[2],
                "collecting from nowhere"@,
            )
            &&& f.supervisor matches Some(s) ==> {
                &&& contains(notes.last(), s.path)
                &&& s.text is Some ==> starts_with(notes.last(), "supervised by "@)
                &&& s.text is None ==> starts_with(notes.last(), "no supervisor file at "@)
            }
        }),
{
    let notes = status_notes(f);
    let t = table_found(f);
    let none: Seq<char> = Seq::empty();
    let at = f.version + " at "@;
    assert(notes[0].take(at.len() as int) =~= at);
    let counts = decimal(f.mine.len()) + " addresses, "@ + decimal(f.waiting.len())
        + " waiting to leave, beb is "@;
    assert(notes[1].take(counts.len() as int) =~= counts);
    if let Some(v) = f.beb_version {
        assert(notes[1] == counts + trim(v));
        assert(notes[1].skip(notes[1].len() - trim(v).len()) =~= trim(v));
    }
    if t.len() > 0 {
        let count = counted(t.len(), "route"@, "routes"@);
        let head = decimal(t.len()) + " "@;
        assert(notes[2].take(head.len() as int) =~= head);
        match place_for(t, None) {
            Some(p) => {
                let c = "collecting from "@ + place_text(p);
                assert(notes[2] == count + ", "@ + c);
                lemma_has_middle(count + ", "@, c, none);
                assert((count + ", "@) + c + none =~= count + ", "@ + c);
            },
            None => {
                let c = "collecting from nowhere"@;
                let z =
                    ", since no route takes what is not named; mail arrives here by being dropped in"@;
                assert(
                "collecting from nowhere, since no route takes what is not named; mail arrives here by being dropped in"@
                    =~= c + z) by {
                    reveal_strlit(
                        "collecting from nowhere, since no route takes what is not named; mail arrives here by being dropped in",
                    );
                    reveal_strlit("collecting from nowhere");
                    reveal_strlit(
                        ", since no route takes what is not named; mail arrives here by being dropped in",
                    );
                }
                assert(notes[2] == count + ", "@ + (c + z));
                lemma_has_middle(count + ", "@, c, z);
                assert(count + ", "@ + (c + z) =~= (count + ", "@) + c + z);
            },
        }
    }
    if let Some(s) = f.supervisor {
        let by = "supervised by "@;
        let no = "no supervisor file at "@;
        if s.text is Some {
            assert(notes.last() == by + s.path);
            lemma_has_middle(by, s.path, none);
            assert(by + s.path + none =~= by + s.path);
            assert(notes.last().take(by.len() as int) =~= by);
        } else {
            assert(notes.last() == no + s.path + "; beb-courier unit prints one"@);
            lemma_has_middle(no, s.path, "; beb-courier unit prints one"@);
            assert(notes.last().take(no.len() as int) =~= no);
        }
    }
}

} // verus!
