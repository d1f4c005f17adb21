//! The table: which recipient's mail goes to which place.

use crate::compose::{cat4, cat5};
use crate::fail::{refusal, refused, Fail, FailView};
use crate::number::{decimal, decimal_of};
use crate::place::{parse_place, place_in, place_text, show, Place, PlaceView};
use crate::text::{
    after_word, chars_of, cut_word, first_word, has_prefix, lines, same_opt, slice_opt, slices,
    split_lines, starts_with, text_opt, trim, trimmed,
};
use vstd::prelude::*;

verus! {

/// One line of the table: an address and where it goes, or a place with no
/// address, which is where everything else goes.
///
/// The default is spelled by leaving the address off rather than by a word
/// standing in its place. A place always begins `ssh://` and an address never
/// can, so the two cannot be confused for each other.
///
/// `note` is whatever followed the place on its line.
#[derive(Debug)]
pub struct Route {
    pub addr: Option<String>,
    pub place: Place,
    pub note: String,
}

#[verifier::ext_equal]
pub struct RouteView {
    pub addr: Option<Seq<char>>,
    pub place: PlaceView,
    pub note: Seq<char>,
}

impl View for Route {
    type V = RouteView;

    open spec fn view(&self) -> RouteView {
        RouteView { addr: text_opt(self.addr), place: self.place@, note: self.note@ }
    }
}

pub open spec fn table_view(v: Seq<Route>) -> Seq<RouteView> {
    Seq::new(v.len(), |i: int| v[i]@)
}

pub open spec fn table_result(r: Result<Vec<Route>, Fail>) -> Result<Seq<RouteView>, FailView> {
    match r {
        Ok(v) => Ok(table_view(v@)),
        Err(f) => Err(f@),
    }
}

pub open spec fn is_hex(c: char) -> bool {
    '0' <= c <= '9' || 'a' <= c <= 'f'
}

/// An address: the 64 lower-case hexadecimal digits of a key's hash.
pub open spec fn address(s: Seq<char>) -> bool {
    s.len() == 64 && forall|i: int| 0 <= i < 64 ==> is_hex(#[trigger] s[i])
}

/// `s`, or its first `n` characters and an ellipsis.
pub open spec fn abridged(s: Seq<char>, n: int) -> Seq<char> {
    if s.len() > n {
        s.take(n) + "…"@
    } else {
        s
    }
}

/// A route as its line begins, for prose about one.
pub open spec fn addr_text(addr: Option<Seq<char>>) -> Seq<char> {
    match addr {
        Some(a) => a,
        None => "everything else"@,
    }
}

/// Where a line stands, for prose about it; `i` counts from 0.
pub open spec fn line_name(i: nat, path: Seq<char>) -> Seq<char> {
    "line "@ + decimal(i + 1) + " of "@ + path
}

/// A line that says nothing: blank, or a comment.
pub open spec fn is_silent(l: Seq<char>) -> bool {
    first_word(l).len() == 0 || first_word(l)[0] == '#'
}

/// A route whose place is written `s`.
pub open spec fn route_with(
    addr: Option<Seq<char>>,
    s: Seq<char>,
    rest: Seq<char>,
) -> Result<Option<RouteView>, FailView> {
    match place_in(s) {
        Ok(place) => Ok(Some(RouteView { addr, place, note: trim(rest) })),
        Err(f) => Err(f),
    }
}

/// What one line of the table says, `at` being how the line is spoken of.
pub open spec fn line_read(l: Seq<char>, at: Seq<char>) -> Result<Option<RouteView>, FailView> {
    let first = first_word(l);
    let rest = after_word(l);
    if is_silent(l) {
        Ok(None)
    } else if starts_with(first, "ssh://"@) {
        route_with(None, first, rest)
    } else if !address(first) {
        Err(
            refusal(
                at + " begins \""@ + abridged(first, 16)
                    + "\", which is not an address; a line is [ADDRESS] ssh://host, and no address means everything else"@,
            ),
        )
    } else if first_word(rest).len() == 0 {
        Err(refusal(at + " names an address and no place; a line is [ADDRESS] ssh://host"@))
    } else {
        route_with(Some(first), first_word(rest), after_word(rest))
    }
}

/// The place that the first route for `addr` names.
pub open spec fn place_for(t: Seq<RouteView>, addr: Option<Seq<char>>) -> Option<PlaceView>
    decreases t.len(),
{
    if t.len() == 0 {
        None
    } else if t[0].addr == addr {
        Some(t[0].place)
    } else {
        place_for(t.drop_first(), addr)
    }
}

/// The table that the lines write. Blank lines and comments say nothing, and
/// the first line that cannot be read, or that routes an address a second
/// time, is what is said of the whole.
pub open spec fn table(ls: Seq<Seq<char>>, path: Seq<char>) -> Result<Seq<RouteView>, FailView>
    decreases ls.len(),
{
    if ls.len() == 0 {
        Ok(Seq::empty())
    } else {
        let at = line_name((ls.len() - 1) as nat, path);
        match table(ls.drop_last(), path) {
            Err(f) => Err(f),
            Ok(t) => match line_read(ls.last(), at) {
                Err(f) => Err(f),
                Ok(None) => Ok(t),
                Ok(Some(r)) => if place_for(t, r.addr) is Some {
                    Err(
                        refusal(
                            at + " routes "@ + addr_text(r.addr)
                                + " a second time; one address, one place"@,
                        ),
                    )
                } else {
                    Ok(t.push(r))
                },
            },
        }
    }
}

/// Where mail for `to` goes: the route for that address, or the one with no
/// address.
pub open spec fn resolved(t: Seq<RouteView>, to: Seq<char>) -> Option<PlaceView> {
    match place_for(t, Some(to)) {
        Some(p) => Some(p),
        None => place_for(t, None),
    }
}

/// What a file naming one place is answered with: it is read by nothing, and
/// the place it names is in the answer.
pub open spec fn depot_answer(depot: Seq<char>, path: Seq<char>) -> Seq<char> {
    let named = if trim(depot).len() == 0 {
        "ssh://host"@
    } else {
        trim(depot)
    };
    path + " names a place, and nothing reads that file now\nrm "@ + path
        + "\nbeb-courier route add "@ + named
}

/// The table of a machine: `depot` is the text of the file that named one
/// place, where it is still there, and `text` that of the table, where it can
/// be read. No table is an empty one.
pub open spec fn table_of(
    depot: Option<Seq<char>>,
    depot_path: Seq<char>,
    text: Option<Seq<char>>,
    path: Seq<char>,
) -> Result<Seq<RouteView>, FailView> {
    match (depot, text) {
        (Some(d), _) => Err(refusal(depot_answer(d, depot_path))),
        (None, Some(t)) => table(lines(t), path),
        (None, None) => Ok(Seq::empty()),
    }
}

/// The address that a line routes, if it begins with one.
pub open spec fn addr_on(l: Seq<char>) -> Option<Seq<char>> {
    if address(first_word(l)) {
        Some(first_word(l))
    } else {
        None
    }
}

/// The place that a line names, as it is shown: its first word, or else its
/// second. A comment names none.
pub open spec fn place_on(l: Seq<char>) -> Option<Seq<char>> {
    let s = if starts_with(first_word(l), "ssh://"@) {
        first_word(l)
    } else {
        first_word(after_word(l))
    };
    if is_silent(l) {
        None
    } else {
        match place_in(s) {
            Ok(p) => Some(place_text(p)),
            Err(_) => None,
        }
    }
}

pub open spec fn place_view(p: Option<&Place>) -> Option<PlaceView> {
    match p {
        Some(p) => Some(p@),
        None => None,
    }
}

pub fn is_address(s: &str) -> (res: bool)
    ensures
        res == address(s@),
{
    let cs = chars_of(s);
    if cs.len() != 64 {
        return false;
    }
    for i in 0..64usize
        invariant
            cs@ == s@,
            cs@.len() == 64,
            forall|j: int| 0 <= j < i ==> is_hex(#[trigger] cs@[j]),
    {
        let c = cs[i];
        if !(('0' <= c && c <= '9') || ('a' <= c && c <= 'f')) {
            assert(!is_hex(s@[i as int]));
            return false;
        }
    }
    true
}

/// Enough of a long thing to recognise it, for prose about a mistake.
pub fn trim_to(s: &str, n: usize) -> (res: String)
    ensures
        res@ == abridged(s@, n as int),
{
    if s.unicode_len() > n {
        let mut out = s.substring_char(0, n).to_string();
        assert(s@.subrange(0, n as int) =~= s@.take(n as int));
        out.append("…");
        out
    } else {
        s.to_string()
    }
}

/// A route as its line begins, for prose about one.
pub fn shown(addr: &Option<String>) -> (res: String)
    ensures
        res@ == addr_text(text_opt(*addr)),
{
    match addr {
        None => "everything else".to_string(),
        Some(a) => a.clone(),
    }
}

pub fn plural<'a>(n: usize, one: &'a str, many: &'a str) -> (res: &'a str)
    ensures
        res == if n == 1 {
            one
        } else {
            many
        },
{
    if n == 1 {
        one
    } else {
        many
    }
}

/// What one line of the table says; nothing for a blank line or a comment.
pub fn read_line(l: &str, at: &str) -> (res: Result<Option<Route>, Fail>)
    ensures
        match res {
            Ok(Some(r)) => line_read(l@, at@) == Ok::<Option<RouteView>, FailView>(Some(r@)),
            Ok(None) => line_read(l@, at@) == Ok::<Option<RouteView>, FailView>(None),
            Err(f) => line_read(l@, at@) == Err::<Option<RouteView>, FailView>(f@),
        },
{
    let (first, rest) = match cut_word(l) {
        Some(p) => p,
        None => return Ok(None),
    };
    if first.get_char(0) == '#' {
        return Ok(None);
    }
    if has_prefix(first, "ssh://") {
        return match parse_place(first) {
            Ok(place) => Ok(Some(Route { addr: None, place, note: trimmed(rest).to_string() })),
            Err(f) => Err(f),
        };
    }
    if !is_address(first) {
        return Err(
            refused(
                cat4(
                    at,
                    " begins \"",
                    trim_to(first, 16).as_str(),
                    "\", which is not an address; a line is [ADDRESS] ssh://host, and no address means everything else",
                ),
            ),
        );
    }
    match cut_word(rest) {
        None => {
            let mut msg = at.to_string();
            msg.append(" names an address and no place; a line is [ADDRESS] ssh://host");
            Err(refused(msg))
        },
        Some((second, after)) => match parse_place(second) {
            Ok(place) => Ok(
                Some(
                    Route {
                        addr: Some(first.to_string()),
                        place,
                        note: trimmed(after).to_string(),
                    },
                ),
            ),
            Err(f) => Err(f),
        },
    }
}

/// The first route for an address, or the first with none.
pub fn find_route<'a>(routes: &'a [Route], addr: &Option<String>) -> (res: Option<&'a Route>)
    ensures
        match res {
            Some(r) => {
                &&& r@.addr == text_opt(*addr)
                &&& place_for(table_view(routes@), text_opt(*addr)) == Some(r@.place)
            },
            None => place_for(table_view(routes@), text_opt(*addr)) is None,
        },
{
    let ghost t = table_view(routes@);
    let ghost a = text_opt(*addr);
    assert(t.skip(0) =~= t);
    for i in 0..routes.len()
        invariant
            t == table_view(routes@),
            a == text_opt(*addr),
            place_for(t, a) == place_for(t.skip(i as int), a),
    {
        assert(t.skip(i as int)[0] == routes@[i as int]@);
        if same_opt(&routes[i].addr, addr) {
            return Some(&routes[i]);
        }
        assert(t.skip(i as int).drop_first() =~= t.skip(i + 1));
    }
    None
}

/// Exact first, then the address-less line. The whole of the lookup.
pub fn resolve<'a>(routes: &'a [Route], to: &str) -> (res: Option<&'a Place>)
    ensures
        place_view(res) == resolved(table_view(routes@), to@),
{
    match find_route(routes, &Some(to.to_string())) {
        Some(r) => Some(&r.place),
        None => default_route(routes),
    }
}

/// The place this machine collects from, if any.
///
/// Collection is singular. A courier cannot derive where mail for it is left:
/// that is decided by the tables of whoever sends to it. So it has to be
/// told, and the default route tells it. A machine with only exact routes
/// collects from nowhere, because it is written into instead.
pub fn default_route(routes: &[Route]) -> (res: Option<&Place>)
    ensures
        place_view(res) == place_for(table_view(routes@), None),
{
    match find_route(routes, &None) {
        Some(r) => Some(&r.place),
        None => None,
    }
}

/// The table in a text, `path` being the file it was read from.
pub fn parse_routes(text: &str, path: &str) -> (res: Result<Vec<Route>, Fail>)
    ensures
        table_result(res) == table(lines(text@), path@),
{
    let ls = split_lines(text);
    let mut out: Vec<Route> = Vec::new();
    let ghost all = lines(text@);
    assert(all.take(0) =~= Seq::<Seq<char>>::empty());
    assert(table_view(out@) =~= Seq::<RouteView>::empty());
    for i in 0..ls.len()
        invariant
            all == lines(text@),
            all == slices(ls@),
            table(all.take(i as int), path@) == Ok::<Seq<RouteView>, FailView>(
                table_view(out@),
            ),
    {
        let n = decimal_of(i as u64 + 1);
        let at = cat4("line ", n.as_str(), " of ", path);
        let ghost next = all.take(i + 1);
        let ghost t = table_view(out@);
        proof {
            assert(next.drop_last() =~= all.take(i as int));
            assert(next.last() == ls@[i as int]@);
            assert(at@ == line_name(i as nat, path@));
        }
        match read_line(ls[i], at.as_str()) {
            Err(f) => {
                proof {
                    lemma_table_error(all, path@, i + 1, f@);
                }
                return Err(f);
            },
            Ok(None) => {},
            Ok(Some(r)) => {
                if find_route(out.as_slice(), &r.addr).is_some() {
                    let f = refused(
                        cat4(
                            at.as_str(),
                            " routes ",
                            shown(&r.addr).as_str(),
                            " a second time; one address, one place",
                        ),
                    );
                    proof {
                        lemma_table_error(all, path@, i + 1, f@);
                    }
                    return Err(f);
                }
                out.push(r);
                assert(table_view(out@) =~= t.push(r@));
            },
        }
    }
    assert(all.take(ls@.len() as int) =~= all);
    Ok(out)
}

/// The answer to a file naming one place, which everything that reads the
/// table gives while that file is there. What it says to do is in the order
/// that works: the place is in the answer, so removing the file loses nothing.
pub fn depot_refused(depot: &str, path: &str) -> (res: Fail)
    ensures
        res@ == refusal(depot_answer(depot@, path@)),
{
    let named = trimmed(depot);
    let named = if named.is_empty() {
        "ssh://host"
    } else {
        named
    };
    refused(
        cat5(
            path,
            " names a place, and nothing reads that file now\nrm ",
            path,
            "\nbeb-courier route add ",
            named,
        ),
    )
}

/// The table, read where it is needed and never held.
///
/// A daemon carrying the copy it read at start would do one thing while
/// `route` prints another. The file is small and the handshake it decides
/// about is not.
///
/// Absent is empty rather than an error, because the caller knows better
/// whether having no routes is worth saying. The one-place file that the
/// table grew out of is refused rather than read, so that no machine carries
/// mail by a path its own `route` output does not show.
pub fn read_routes(
    depot: Option<&str>,
    depot_path: &str,
    text: Option<&str>,
    path: &str,
) -> (res: Result<Vec<Route>, Fail>)
    ensures
        table_result(res) == table_of(slice_opt(depot), depot_path@, slice_opt(text), path@),
{
    if let Some(d) = depot {
        return Err(depot_refused(d, depot_path));
    }
    match text {
        Some(t) => parse_routes(t, path),
        None => {
            let none: Vec<Route> = Vec::new();
            assert(table_view(none@) =~= Seq::<RouteView>::empty());
            Ok(none)
        },
    }
}

/// The address a line begins with, if it begins with one. A line naming only
/// a place has none, which is what makes it the default.
pub fn line_address(l: &str) -> (res: Option<&str>)
    ensures
        slice_opt(res) == addr_on(l@),
{
    match cut_word(l) {
        Some((first, _)) => if is_address(first) {
            Some(first)
        } else {
            None
        },
        None => None,
    }
}

/// The place a line names, wherever it sits on that line.
pub fn line_place(l: &str) -> (res: Option<String>)
    ensures
        text_opt(res) == place_on(l@),
{
    let (first, rest) = match cut_word(l) {
        Some(p) => p,
        None => return None,
    };
    if first.get_char(0) == '#' {
        return None;
    }
    let s = if has_prefix(first, "ssh://") {
        first
    } else {
        match cut_word(rest) {
            Some((second, _)) => second,
            None => {
                proof {
                    reveal_strlit("ssh://");
                }
                return None;
            },
        }
    };
    match parse_place(s) {
        Ok(p) => Some(show(&p)),
        Err(_) => None,
    }
}

/// What is wrong with the first lines is wrong with all of them.
pub proof fn lemma_table_error(ls: Seq<Seq<char>>, path: Seq<char>, n: int, f: FailView)
    requires
        0 <= n <= ls.len(),
        table(ls.take(n), path) == Err::<Seq<RouteView>, FailView>(f),
    ensures
        table(ls, path) == Err::<Seq<RouteView>, FailView>(f),
    decreases ls.len() - n,
{
    if n == ls.len() {
        assert(ls.take(n) =~= ls);
    } else {
        assert(ls.take(n + 1).drop_last() =~= ls.take(n));
        lemma_table_error(ls, path, n + 1, f);
    }
}

// ---- what a table is made of ----------------------------------------------------

/// An address is 64 digits, each of them one of 0 to 9 or of a to f; nothing
/// shorter, longer or in capitals is one.
pub proof fn law_what_an_address_is(s: Seq<char>)
    ensures
        address(s) <==> s.len() == 64 && forall|i: int|
            0 <= i < s.len() ==> '0' <= #[trigger] s[i] <= '9' || 'a' <= s[i] <= 'f',
{
    if address(s) {
        assert forall|i: int| 0 <= i < s.len() implies '0' <= #[trigger] s[i] <= '9' || 'a' <= s[i]
            <= 'f' by {
            assert(is_hex(s[i]));
        }
    }
}

/// A text is cut short exactly if it is longer than that, to its first
/// characters and an ellipsis.
pub proof fn law_what_is_cut_short(s: Seq<char>, n: int)
    requires
        n >= 0,
    ensures
        s.len() <= n ==> abridged(s, n) == s,
        s.len() > n ==> {
            &&& abridged(s, n).len() == n + 1
            &&& abridged(s, n).take(n) == s.take(n)
            &&& abridged(s, n).last() == '…'
        },
{
    reveal_strlit("…");
    if s.len() > n {
        assert(abridged(s, n).take(n) =~= s.take(n));
    }
}

/// The place for an address, or for no address, is that of the first route
/// for it, and there is one exactly if there is such a route.
pub proof fn law_the_first_route_decides(t: Seq<RouteView>, addr: Option<Seq<char>>)
    ensures
        place_for(t, addr) is None <==> forall|i: int|
            0 <= i < t.len() ==> (#[trigger] t[i]).addr != addr,
        place_for(t, addr) matches Some(p) ==> exists|i: int|
            #![trigger t[i]]
            0 <= i < t.len() && t[i].addr == addr && t[i].place == p && forall|j: int|
                0 <= j < i ==> (#[trigger] t[j]).addr != addr,
    decreases t.len(),
{
    if t.len() > 0 && t[0].addr != addr {
        let d = t.drop_first();
        law_the_first_route_decides(d, addr);
        if place_for(d, addr) is None {
            assert forall|i: int| 0 <= i < t.len() implies (#[trigger] t[i]).addr != addr by {
                if i > 0 {
                    assert(d[i - 1] == t[i]);
                }
            }
        } else {
            let p = place_for(d, addr).unwrap();
            let i = choose|i: int|
                #![trigger d[i]]
                0 <= i < d.len() && d[i].addr == addr && d[i].place == p && forall|j: int|
                    0 <= j < i ==> (#[trigger] d[j]).addr != addr;
            assert(t[i + 1] == d[i]);
            assert forall|j: int| 0 <= j < i + 1 implies (#[trigger] t[j]).addr != addr by {
                if j > 0 {
                    assert(d[j - 1] == t[j]);
                }
            }
        }
    }
}

/// A route is spoken of by its address, and one without as everything else.
pub proof fn law_how_a_route_is_spoken_of(addr: Option<Seq<char>>)
    ensures
        addr matches Some(a) ==> addr_text(addr) == a,
        addr is None ==> addr_text(addr) == "everything else"@,
{
}

} // verus!
