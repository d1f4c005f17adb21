//! What holds of the table as a whole: lines that are written are read back,
//! one address has one place, and what is added can be taken out again.

use crate::append::{ended, law_adding_to_a_text, lemma_lines_ended, written};
use crate::fail::FailView;
use crate::handover::{
    gathered, handover_in, lemma_address_is_a_line, lemma_handover_key, Gathered, HandoverView,
};
use crate::number::decimal;
use crate::outbox::{law_uncovered, uncovered};
use crate::place::{law_place_shown_is_read_back, place_in, place_text, PlaceView};
use crate::report::ReportView;
use crate::routes::{
    abridged, addr_on, addr_text, address, depot_answer, is_hex, is_silent, line_name, line_read,
    place_for, place_on, resolved, table, table_of, RouteView,
};
use crate::table::{
    added, clash, clash_text, counted, handover_routes, hit, kept, label_note, list_notes,
    once_each, removed_text, route_text, route_texts, subject_of, taken_out, SubjectView,
    TargetView,
};
use crate::text::{
    after_word, chomp, chomped, contains, first_of, first_word, is_space, joined, lemma_first_of,
    lemma_first_word, lemma_has_command, lemma_has_middle, lemma_lines_concat,
    lemma_lines_have_no_line_feed, lemma_lines_unlines, lemma_pieces_hold_nothing_new,
    lemma_space_before, lemma_space_behind, lemma_trim_none, lemma_trim_twice,
    lemma_unlines_concat, lemma_word_first, lines, spaceless, starts_with, trim, unlines, words,
};
use vstd::prelude::*;
use vstd::utf8::encode_utf8;

verus! {

/// A route that its own line can carry: an address where it has one, a place
/// that is one word, and a note that is one trimmed line.
pub open spec fn sound(r: RouteView) -> bool {
    &&& r.addr matches Some(a) ==> address(a)
    &&& place_in("ssh://"@ + place_text(r.place)) == Ok::<PlaceView, FailView>(r.place)
    &&& spaceless(place_text(r.place))
    &&& trim(r.note) == r.note
    &&& !r.note.contains('\n')
}

/// No two routes are for the same address.
pub open spec fn one_place_each(t: Seq<RouteView>) -> bool {
    forall|i: int, j: int| 0 <= i < j < t.len() ==> (#[trigger] t[i]).addr != (#[trigger] t[j]).addr
}

/// A place is never taken for an address, nor an address for a place.
pub proof fn law_a_place_is_no_address(s: Seq<char>)
    requires
        place_in(s) is Ok,
    ensures
        !address(s),
        forall|a: Seq<char>| address(a) ==> !#[trigger] starts_with(a, "ssh://"@),
{
    reveal_strlit("ssh://");
    assert forall|a: Seq<char>| address(a) implies !#[trigger] starts_with(a, "ssh://"@) by {
        if starts_with(a, "ssh://"@) {
            assert(a.take(6)[0] == 's');
            assert(is_hex(a[0]));
        }
    }
}

/// Two levels and no more: a route for the address wins, and the route with
/// no address takes the rest.
pub proof fn law_an_exact_route_wins(t: Seq<RouteView>, to: Seq<char>)
    ensures
        place_for(t, Some(to)) is Some ==> resolved(t, to) == place_for(t, Some(to)),
        place_for(t, Some(to)) is None ==> resolved(t, to) == place_for(t, None),
        resolved(t, to) is None <==> forall|i: int|
            0 <= i < t.len() ==> (#[trigger] t[i]).addr != Some(to) && t[i].addr is Some,
{
    lemma_place_for(t, Some(to));
    lemma_place_for(t, None);
}

/// Mail is collected from the route without an address and nowhere else: a
/// machine whose routes all name an address collects from nowhere.
pub proof fn law_collection_is_from_the_route_without_an_address(t: Seq<RouteView>)
    requires
        one_place_each(t),
    ensures
        place_for(t, None) is None <==> forall|i: int|
            0 <= i < t.len() ==> (#[trigger] t[i]).addr is Some,
        forall|i: int|
            0 <= i < t.len() && (#[trigger] t[i]).addr is None ==> place_for(t, None) == Some(
                t[i].place,
            ),
{
    lemma_place_for(t, None);
    assert forall|i: int| 0 <= i < t.len() && (#[trigger] t[i]).addr is None implies place_for(
        t,
        None,
    ) == Some(t[i].place) by {
        lemma_found_is_there(t, None);
    }
}

/// An address has a place exactly if some route is for it.
pub proof fn lemma_place_for(t: Seq<RouteView>, a: Option<Seq<char>>)
    ensures
        place_for(t, a) is None <==> forall|i: int| 0 <= i < t.len() ==> (#[trigger] t[i]).addr != a,
    decreases t.len(),
{
    if t.len() > 0 {
        let d = t.drop_first();
        lemma_place_for(d, a);
        if t[0].addr != a {
            if place_for(d, a) is None {
                assert forall|i: int| 0 <= i < t.len() implies (#[trigger] t[i]).addr != a by {
                    if i > 0 {
                        assert(t[i] == d[i - 1]);
                    }
                }
            } else {
                let i = choose|i: int| 0 <= i < d.len() && (#[trigger] d[i]).addr == a;
                assert(t[i + 1] == d[i]);
            }
        }
    }
}

/// Where a table has no two routes for one address, each route is found by
/// its address.
pub proof fn lemma_place_for_at(t: Seq<RouteView>, i: int)
    requires
        one_place_each(t),
        0 <= i < t.len(),
    ensures
        place_for(t, t[i].addr) == Some(t[i].place),
    decreases t.len(),
{
    if i > 0 {
        let d = t.drop_first();
        assert forall|j: int, k: int| 0 <= j < k < d.len() implies (#[trigger] d[j]).addr != (
        #[trigger] d[k]).addr by {
            assert(d[j] == t[j + 1]);
            assert(d[k] == t[k + 1]);
        }
        lemma_place_for_at(d, i - 1);
        assert(d[i - 1] == t[i]);
        assert(t[0].addr != t[i].addr);
    }
}

/// The first routes of two tables together are found first.
pub proof fn lemma_place_for_concat(s: Seq<RouteView>, t: Seq<RouteView>, a: Option<Seq<char>>)
    ensures
        place_for(s + t, a) == match place_for(s, a) {
            Some(p) => Some(p),
            None => place_for(t, a),
        },
    decreases s.len(),
{
    if s.len() == 0 {
        assert(s + t =~= t);
    } else {
        assert((s + t)[0] == s[0]);
        assert((s + t).drop_first() =~= s.drop_first() + t);
        lemma_place_for_concat(s.drop_first(), t, a);
    }
}

/// A table that could be read has one place for each address, and every
/// route in it can be written.
pub proof fn law_one_address_one_place(ls: Seq<Seq<char>>, path: Seq<char>, t: Seq<RouteView>)
    requires
        table(ls, path) == Ok::<Seq<RouteView>, FailView>(t),
        forall|i: int| 0 <= i < ls.len() ==> !(#[trigger] ls[i]).contains('\n'),
    ensures
        one_place_each(t),
        forall|i: int| 0 <= i < t.len() ==> sound(#[trigger] t[i]),
    decreases ls.len(),
{
    if ls.len() > 0 {
        let front = ls.drop_last();
        let at = line_name((ls.len() - 1) as nat, path);
        let t0 = table(front, path)->Ok_0;
        assert forall|i: int| 0 <= i < front.len() implies !(#[trigger] front[i]).contains(
            '\n',
        ) by {
            assert(front[i] == ls[i]);
        }
        law_one_address_one_place(front, path, t0);
        if let Ok(Some(r)) = line_read(ls.last(), at) {
            assert(ls.last() == ls[ls.len() - 1]);
            lemma_read_route_is_sound(ls.last(), at, r);
            lemma_place_for(t0, r.addr);
            assert(t == t0.push(r));
        }
    }
}

/// A route that was read can be written.
proof fn lemma_read_route_is_sound(l: Seq<char>, at: Seq<char>, r: RouteView)
    requires
        line_read(l, at) == Ok::<Option<RouteView>, FailView>(Some(r)),
        !l.contains('\n'),
    ensures
        sound(r),
{
    let first = first_word(l);
    let rest = after_word(l);
    lemma_first_word(l);
    lemma_first_word(rest);
    lemma_pieces_hold_nothing_new(l, '\n');
    lemma_pieces_hold_nothing_new(rest, '\n');
    let (w, after) = if starts_with(first, "ssh://"@) {
        (first, rest)
    } else {
        (first_word(rest), after_word(rest))
    };
    lemma_pieces_hold_nothing_new(after, '\n');
    lemma_trim_twice(after);
    law_place_shown_is_read_back(w, r.place);
    let p = place_text(r.place);
    let n = "ssh://"@.len() as int;
    assert forall|i: int| 0 <= i < p.len() implies !is_space(#[trigger] p[i]) by {
        assert(w[i + n] == p[i]);
    }
}

/// What is behind a place on its line.
spec fn tail_of(note: Seq<char>) -> Seq<char> {
    if note.len() == 0 {
        Seq::empty()
    } else {
        " "@ + note
    }
}

proof fn lemma_tail(note: Seq<char>)
    requires
        trim(note) == note,
    ensures
        tail_of(note).len() == 0 || is_space(tail_of(note)[0]),
        trim(tail_of(note)) == note,
        tail_of(note).len() > 0 ==> !is_space(tail_of(note).last()),
{
    reveal_strlit(" ");
    assert(" "@ =~= seq![' ']);
    lemma_trim_twice(note);
    if note.len() > 0 {
        lemma_space_before(' ', note);
        assert(tail_of(note).last() == note.last());
    } else {
        lemma_trim_none(tail_of(note));
        assert(tail_of(note) =~= note);
    }
}

/// A route's line is read back as that route, and is one line.
pub proof fn law_a_route_is_read_back(r: RouteView, at: Seq<char>)
    requires
        sound(r),
    ensures
        line_read(route_text(r), at) == Ok::<Option<RouteView>, FailView>(Some(r)),
        !route_text(r).contains('\n'),
        chomp(route_text(r)) == route_text(r),
        addr_on(route_text(r)) == r.addr,
        place_on(route_text(r)) == Some(place_text(r.place)),
{
    reveal_strlit("ssh://");
    reveal_strlit(" ssh://");
    reveal_strlit(" ");
    let p = "ssh://"@ + place_text(r.place);
    let tail = tail_of(r.note);
    lemma_tail(r.note);
    let l = route_text(r);
    assert(p.take(6) =~= "ssh://"@);
    assert forall|i: int| 0 <= i < p.len() implies !is_space(#[trigger] p[i]) by {
        if i >= 6 {
            assert(p[i] == place_text(r.place)[i - 6]);
        }
    }
    assert(p.len() > 6) by {
        assert(p.skip(6) =~= place_text(r.place));
    }
    lemma_word_first(p, tail);
    assert(p[0] == 's');
    match r.addr {
        None => {
            assert(l =~= p + tail);
            if address(p) {
                assert(is_hex(p[0]));
            }
        },
        Some(a) => {
            lemma_address_is_a_line(a);
            let rest = seq![' '] + (p + tail);
            assert(l =~= a + rest);
            lemma_word_first(a, rest);
            lemma_space_before(' ', p + tail);
            assert(is_hex(a[0]));
            if starts_with(a, "ssh://"@) {
                assert(a.take(6)[0] == 's');
            }
        },
    }
    let z = l.len() - 1;
    assert(!is_space(l[z])) by {
        if tail.len() > 0 {
            assert(l[z] == tail.last());
        } else {
            assert(l[z] == p.last());
            assert(p.last() == p[p.len() - 1]);
        }
    }
    assert forall|i: int| 0 <= i < l.len() implies #[trigger] l[i] != '\n' by {
        let b = match r.addr {
            None => 0,
            Some(a) => a.len() as int + 1,
        };
        if i >= b + p.len() {
            assert(l[i] == tail[i - b - p.len()]);
            if i > b + p.len() {
                assert(tail[i - b - p.len()] == r.note[i - b - p.len() - 1]);
            }
        } else if i >= b {
            assert(l[i] == p[i - b]);
        } else if i < b - 1 {
            assert(l[i] == r.addr.unwrap()[i]);
            assert(is_hex(r.addr.unwrap()[i]));
        }
    }
}

/// The lines say the routes, wherever they stand.
spec fn say(more: Seq<Seq<char>>, adding: Seq<RouteView>) -> bool {
    &&& more.len() == adding.len()
    &&& forall|i: int, at: Seq<char>|
        0 <= i < more.len() ==> #[trigger] line_read(more[i], at) == Ok::<
            Option<RouteView>,
            FailView,
        >(Some(adding[i]))
}

/// Reading more lines adds to what was read, as long as none of the routes on
/// them is for an address that has one.
proof fn lemma_table_grows(
    ls: Seq<Seq<char>>,
    path: Seq<char>,
    t: Seq<RouteView>,
    more: Seq<Seq<char>>,
    adding: Seq<RouteView>,
)
    requires
        table(ls, path) == Ok::<Seq<RouteView>, FailView>(t),
        clash(t, adding) is None,
        one_place_each(adding),
        say(more, adding),
    ensures
        table(ls + more, path) == Ok::<Seq<RouteView>, FailView>(t + adding),
    decreases adding.len(),
{
    if adding.len() == 0 {
        assert(ls + more =~= ls);
        assert(t + adding =~= t);
    } else {
        let front = adding.drop_last();
        let r = adding.last();
        let before = more.drop_last();
        lemma_no_clash(t, adding);
        assert forall|i: int| 0 <= i < front.len() implies place_for(
            t,
            (#[trigger] front[i]).addr,
        ) is None by {
            assert(front[i] == adding[i]);
        }
        lemma_clash_none(t, front);
        assert forall|i: int, at: Seq<char>| 0 <= i < before.len() implies #[trigger] line_read(
            before[i],
            at,
        ) == Ok::<Option<RouteView>, FailView>(Some(front[i])) by {
            assert(before[i] == more[i]);
            assert(front[i] == adding[i]);
        }
        assert forall|i: int, j: int| 0 <= i < j < front.len() implies (#[trigger] front[i]).addr
            != (#[trigger] front[j]).addr by {
            assert(front[i] == adding[i]);
            assert(front[j] == adding[j]);
        }
        lemma_table_grows(ls, path, t, before, front);
        let all = ls + more;
        assert(all.drop_last() =~= ls + before);
        let at = line_name((all.len() - 1) as nat, path);
        assert(all.last() == more[more.len() - 1]);
        assert(line_read(more[more.len() - 1], at) == Ok::<Option<RouteView>, FailView>(Some(r)));
        assert(place_for(front, r.addr) is None) by {
            assert forall|i: int| 0 <= i < front.len() implies (#[trigger] front[i]).addr
                != r.addr by {
                assert(front[i] == adding[i]);
                assert(adding[i].addr != adding[adding.len() - 1].addr);
            }
            lemma_place_for(front, r.addr);
        }
        lemma_place_for_concat(t, front, r.addr);
        assert((t + front).push(r) =~= t + adding);
    }
}

/// No clash means that none of the addresses has a place yet.
proof fn lemma_no_clash(t: Seq<RouteView>, adding: Seq<RouteView>)
    requires
        clash(t, adding) is None,
    ensures
        forall|i: int| 0 <= i < adding.len() ==> place_for(t, (#[trigger] adding[i]).addr) is None,
    decreases adding.len(),
{
    if adding.len() > 0 {
        let d = adding.drop_first();
        lemma_no_clash(t, d);
        assert forall|i: int| 0 <= i < adding.len() implies place_for(
            t,
            (#[trigger] adding[i]).addr,
        ) is None by {
            if i > 0 {
                assert(adding[i] == d[i - 1]);
            }
        }
    }
}

proof fn lemma_clash_none(t: Seq<RouteView>, adding: Seq<RouteView>)
    requires
        forall|i: int| 0 <= i < adding.len() ==> place_for(t, (#[trigger] adding[i]).addr) is None,
    ensures
        clash(t, adding) is None,
    decreases adding.len(),
{
    if adding.len() > 0 {
        let d = adding.drop_first();
        assert forall|i: int| 0 <= i < d.len() implies place_for(
            t,
            (#[trigger] d[i]).addr,
        ) is None by {
            assert(d[i] == adding[i + 1]);
        }
        lemma_clash_none(t, d);
        assert(place_for(t, adding[0].addr) is None);
    }
}

/// The lines of routes, written and read again.
proof fn lemma_lines_of_routes(t: Seq<RouteView>)
    requires
        forall|i: int| 0 <= i < t.len() ==> sound(#[trigger] t[i]),
    ensures
        lines(unlines(route_texts(t))) == route_texts(t),
{
    let ls = route_texts(t);
    assert forall|i: int| 0 <= i < ls.len() implies !(#[trigger] ls[i]).contains('\n') && chomp(
        ls[i],
    ) == ls[i] by {
        law_a_route_is_read_back(t[i], Seq::empty());
    }
    lemma_lines_unlines(ls);
    assert(chomped(ls) =~= ls);
}

/// Ending the last line of a table changes nothing that is read from it.
proof fn lemma_ended_table(text: Seq<char>, path: Seq<char>, t: Seq<RouteView>)
    requires
        table(lines(text), path) == Ok::<Seq<RouteView>, FailView>(t),
    ensures
        table(lines(ended(text)), path) == Ok::<Seq<RouteView>, FailView>(t),
{
    if text.len() == 0 || text.last() == '\n' {
        assert(ended(text) =~= text);
    } else {
        lemma_lines_ended(text);
        let ls = lines(text);
        let now = lines(ended(text));
        let at = line_name((ls.len() - 1) as nat, path);
        assert(now.drop_last() =~= ls.drop_last());
        lemma_read_anywhere(ls.last(), at, at);
    }
}

/// What `route add` appends is read back, whatever the table was: the table
/// is then what it was and the routes that were added, in their order. The
/// file then holds `after`.
pub proof fn law_added_routes_are_read_back(
    text: Seq<char>,
    path: Seq<char>,
    t: Seq<RouteView>,
    adding: Seq<RouteView>,
)
    requires
        table(lines(text), path) == Ok::<Seq<RouteView>, FailView>(t),
        clash(t, adding) is None,
        one_place_each(adding),
        forall|i: int| 0 <= i < adding.len() ==> sound(#[trigger] adding[i]),
    ensures
        ({
            let more = unlines(route_texts(adding));
            let after = ended(text) + more;
            &&& encode_utf8(text) + written(encode_utf8(text), more) == encode_utf8(after)
            &&& table(lines(after), path) == Ok::<Seq<RouteView>, FailView>(t + adding)
        }),
{
    let more = route_texts(adding);
    law_adding_to_a_text(text, unlines(more));
    lemma_ended_table(text, path, t);
    lemma_lines_concat(ended(text), unlines(more));
    lemma_lines_of_routes(adding);
    assert forall|i: int, at: Seq<char>| 0 <= i < more.len() implies #[trigger] line_read(
        more[i],
        at,
    ) == Ok::<Option<RouteView>, FailView>(Some(adding[i])) by {
        law_a_route_is_read_back(adding[i], at);
    }
    lemma_table_grows(lines(ended(text)), path, t, more, adding);
}

proof fn lemma_unlines_one(l: Seq<char>)
    ensures
        unlines(seq![l]) == l + seq!['\n'],
{
    let one = seq![l];
    assert(one.drop_last() =~= Seq::<Seq<char>>::empty());
    assert(unlines(one.drop_last()) =~= Seq::<char>::empty());
    assert(unlines(one) =~= l + seq!['\n']);
}

/// What `route` prints of a table is that table.
pub proof fn law_a_listing_is_read_back(text: Seq<char>, path: Seq<char>, t: Seq<RouteView>)
    requires
        table(lines(text), path) == Ok::<Seq<RouteView>, FailView>(t),
    ensures
        table(lines(unlines(route_texts(t))), path) == Ok::<Seq<RouteView>, FailView>(t),
{
    lemma_lines_have_no_line_feed(text);
    law_one_address_one_place(lines(text), path, t);
    let none: Seq<RouteView> = Seq::empty();
    assert forall|i: int| 0 <= i < t.len() implies place_for(
        none,
        (#[trigger] t[i]).addr,
    ) is None by {}
    lemma_clash_none(none, t);
    assert(lines(Seq::<char>::empty()) =~= Seq::<Seq<char>>::empty());
    law_added_routes_are_read_back(Seq::empty(), path, none, t);
    assert(ended(Seq::empty()) + unlines(route_texts(t)) =~= unlines(route_texts(t)));
    assert(none + t =~= t);
}

// ---- what a handover asks for -------------------------------------------------

/// Every word is there and whitespace-free.
proof fn lemma_words(s: Seq<char>)
    ensures
        forall|i: int|
            0 <= i < words(s).len() ==> spaceless(#[trigger] words(s)[i]) && words(s)[i].len() > 0,
    decreases s.len(),
{
    lemma_first_word(s);
    if first_word(s).len() > 0 {
        let rest = words(after_word(s));
        lemma_words(after_word(s));
        assert forall|i: int| 0 <= i < words(s).len() implies spaceless(#[trigger] words(s)[i])
            && words(s)[i].len() > 0 by {
            if i > 0 {
                assert(words(s)[i] == rest[i - 1]);
            }
        }
    }
}

/// Words joined by single spaces are a trimmed line.
proof fn lemma_joined_words(w: Seq<Seq<char>>)
    requires
        forall|i: int| 0 <= i < w.len() ==> spaceless(#[trigger] w[i]) && w[i].len() > 0,
    ensures
        joined(w, " "@).len() > 0 ==> !is_space(joined(w, " "@)[0]) && !is_space(
            joined(w, " "@).last(),
        ),
        !joined(w, " "@).contains('\n'),
        w.len() > 0 ==> joined(w, " "@).len() > 0,
    decreases w.len(),
{
    reveal_strlit(" ");
    let j = joined(w, " "@);
    if w.len() == 1 {
        assert(spaceless(w[0]));
        assert(j == w[0]);
        assert(!is_space(j[0]));
        assert(!is_space(j[j.len() - 1]));
        assert forall|i: int| 0 <= i < j.len() implies #[trigger] j[i] != '\n' by {
            assert(!is_space(w[0][i]));
        }
    } else if w.len() > 1 {
        let d = w.drop_last();
        let l = w.last();
        assert(w[w.len() - 1] == l);
        assert forall|i: int| 0 <= i < d.len() implies spaceless(#[trigger] d[i]) && d[i].len()
            > 0 by {
            assert(d[i] == w[i]);
        }
        lemma_joined_words(d);
        let k = joined(d, " "@);
        assert(j == k + " "@ + l);
        assert(j[0] == k[0]);
        assert(j.last() == l[l.len() - 1]);
        assert(!is_space(l[l.len() - 1]));
        assert forall|i: int| 0 <= i < j.len() implies #[trigger] j[i] != '\n' by {
            if i < k.len() {
                assert(j[i] == k[i]);
            } else if i > k.len() {
                assert(j[i] == l[i - k.len() - 1]);
                assert(!is_space(l[i - k.len() - 1]));
            }
        }
    }
}

/// The addresses of a handover are addresses.
proof fn lemma_gathered_addresses(ls: Seq<Seq<char>>, name: Seq<char>, g: Gathered)
    requires
        gathered(ls, name) == Ok::<Gathered, FailView>(g),
    ensures
        forall|i: int| 0 <= i < g.addresses.len() ==> address(#[trigger] g.addresses[i]),
    decreases ls.len(),
{
    if ls.len() > 0 {
        let g0 = gathered(ls.drop_last(), name)->Ok_0;
        lemma_gathered_addresses(ls.drop_last(), name, g0);
    }
}

proof fn lemma_once_each(s: Seq<Seq<char>>)
    ensures
        once_each(s).no_duplicates(),
        forall|a: Seq<char>| #[trigger] once_each(s).contains(a) <==> s.contains(a),
    decreases s.len(),
{
    if s.len() > 0 {
        let d = s.drop_last();
        let o = once_each(d);
        let u = once_each(s);
        lemma_once_each(d);
        assert forall|a: Seq<char>| #[trigger] u.contains(a) <==> s.contains(a) by {
            assert(o.contains(a) <==> d.contains(a));
            if d.contains(a) {
                let i = choose|i: int| 0 <= i < d.len() && d[i] == a;
                assert(s[i] == a);
            }
            if s.contains(a) && a != s.last() {
                let i = choose|i: int| 0 <= i < s.len() && s[i] == a;
                assert(d[i] == a);
            }
            assert(s[s.len() - 1] == s.last());
            if u.len() > o.len() {
                assert(u[o.len() as int] == s.last());
                if o.contains(a) {
                    let i = choose|i: int| 0 <= i < o.len() && o[i] == a;
                    assert(u[i] == a);
                }
                if u.contains(a) && a != s.last() {
                    let i = choose|i: int| 0 <= i < u.len() && u[i] == a;
                    assert(o[i] == a);
                }
            }
        }
    }
}

/// `route add` will not make a second line for one address: a handover is
/// routed address by address, each of them once, and every one of its routes
/// can be written to the table.
pub proof fn law_a_handover_is_routed_once(
    text: Seq<char>,
    name: Seq<char>,
    h: HandoverView,
    s: Seq<char>,
    place: PlaceView,
)
    requires
        handover_in(text, name) == Ok::<HandoverView, FailView>(h),
        place_in(s) == Ok::<PlaceView, FailView>(place),
        spaceless(s),
    ensures
        one_place_each(handover_routes(h, place)),
        forall|i: int|
            0 <= i < handover_routes(h, place).len() ==> sound(
                #[trigger] handover_routes(h, place)[i],
            ),
        forall|a: Seq<char>| #[trigger]
            h.addresses.contains(a) <==> place_for(handover_routes(h, place), Some(a)) is Some,
{
    let g = gathered(lines(text), name)->Ok_0;
    lemma_gathered_addresses(lines(text), name, g);
    lemma_once_each(h.addresses);
    let o = once_each(h.addresses);
    let t = handover_routes(h, place);
    law_place_shown_is_read_back(s, place);
    let p = place_text(place);
    let n = "ssh://"@.len() as int;
    assert forall|i: int| 0 <= i < p.len() implies !is_space(#[trigger] p[i]) by {
        assert(s[i + n] == p[i]);
    }
    let w = words(h.key).skip(2);
    lemma_words(h.key);
    let label = h.label;
    assert(label == joined(w, " "@) && !label.contains('\n') && (label.len() > 0 ==> !is_space(
        label.last(),
    ))) by {
        lemma_handover_key(text, name, h);
        assert forall|i: int| 0 <= i < w.len() implies spaceless(#[trigger] w[i]) && w[i].len()
            > 0 by {
            assert(w[i] == words(h.key)[i + 2]);
        }
        lemma_joined_words(w);
    }
    reveal_strlit("# ");
    let note = label_note(label);
    assert(trim(note) == note && !note.contains('\n')) by {
        if note.len() > 0 {
            assert(note[0] == '#');
            assert(note.last() == label.last());
            assert forall|i: int| 0 <= i < note.len() implies #[trigger] note[i] != '\n' by {
                if i >= 2 {
                    assert(note[i] == label[i - 2]);
                }
            }
        }
        lemma_trim_none(note);
    }
    assert forall|i: int| 0 <= i < t.len() implies sound(#[trigger] t[i]) by {
        assert(o.contains(o[i]));
        assert(h.addresses.contains(o[i]));
    }
    assert forall|i: int, j: int| 0 <= i < j < t.len() implies (#[trigger] t[i]).addr != (
    #[trigger] t[j]).addr by {
        assert(o[i] != o[j]);
    }
    assert forall|a: Seq<char>| #[trigger]
        h.addresses.contains(a) <==> place_for(t, Some(a)) is Some by {
        lemma_place_for(t, Some(a));
        assert(o.contains(a) <==> h.addresses.contains(a));
        if o.contains(a) {
            let i = choose|i: int| 0 <= i < o.len() && o[i] == a;
            assert(t[i].addr == Some(a));
        }
        if place_for(t, Some(a)) is Some {
            let i = choose|i: int| 0 <= i < t.len() && (#[trigger] t[i]).addr == Some(a);
            assert(o[i] == a);
        }
    }
}

/// The one route that `route add` makes without a handover can be written.
pub proof fn law_a_route_to_a_place_can_be_written(
    addr: Option<Seq<char>>,
    s: Seq<char>,
    place: PlaceView,
)
    requires
        addr matches Some(a) ==> address(a),
        place_in(s) == Ok::<PlaceView, FailView>(place),
        spaceless(s),
    ensures
        sound(RouteView { addr, place, note: Seq::empty() }),
{
    law_place_shown_is_read_back(s, place);
    let p = place_text(place);
    let n = "ssh://"@.len() as int;
    assert forall|i: int| 0 <= i < p.len() implies !is_space(#[trigger] p[i]) by {
        assert(s[i + n] == p[i]);
    }
    lemma_trim_none(Seq::empty());
}

// ---- taking out ----------------------------------------------------------------

/// A route that `route rm` takes out.
pub open spec fn goes(r: RouteView, target: TargetView) -> bool {
    match target {
        TargetView::Place(p) => place_text(r.place) == p,
        TargetView::Address(a) => r.addr == Some(a),
    }
}

/// The routes that stay.
pub open spec fn without(t: Seq<RouteView>, target: TargetView) -> Seq<RouteView>
    decreases t.len(),
{
    if t.len() == 0 {
        Seq::empty()
    } else if goes(t.last(), target) {
        without(t.drop_last(), target)
    } else {
        without(t.drop_last(), target).push(t.last())
    }
}

/// Comments and blank lines are never matched on, so they all stay.
pub proof fn law_comments_are_kept(l: Seq<char>, target: TargetView)
    requires
        is_silent(l),
    ensures
        !hit(l, target),
{
    let f = first_word(l);
    if address(f) {
        assert(is_hex(f[0]));
    }
}

/// A line is taken out exactly if its route is.
proof fn lemma_hit_is_goes(l: Seq<char>, at: Seq<char>, r: RouteView, target: TargetView)
    requires
        line_read(l, at) == Ok::<Option<RouteView>, FailView>(Some(r)),
    ensures
        hit(l, target) == goes(r, target),
{
    let f = first_word(l);
    if starts_with(f, "ssh://"@) {
        reveal_strlit("ssh://");
        if address(f) {
            assert(f.take(6)[0] == 's');
            assert(is_hex(f[0]));
        }
    }
}

/// A line that could be read says the same wherever it stands, with or
/// without a carriage return at its end.
proof fn lemma_read_anywhere(l: Seq<char>, at: Seq<char>, elsewhere: Seq<char>)
    requires
        line_read(l, at) is Ok,
    ensures
        line_read(chomp(l), elsewhere) == line_read(l, at),
{
    if l.len() > 0 && l.last() == '\r' {
        let s = chomp(l);
        assert(l =~= s.push('\r'));
        lemma_space_behind(s, '\r');
        let a = after_word(s);
        if after_word(l) == a.push('\r') {
            lemma_space_behind(a, '\r');
            let b = after_word(a);
            if after_word(after_word(l)) == b.push('\r') {
                lemma_space_behind(b, '\r');
            }
        }
    }
}

/// Taking routes out adds none.
proof fn lemma_without(t: Seq<RouteView>, target: TargetView)
    ensures
        forall|i: int|
            0 <= i < without(t, target).len() ==> !goes(#[trigger] without(t, target)[i], target)
                && t.contains(without(t, target)[i]),
        forall|i: int|
            0 <= i < t.len() ==> goes(#[trigger] t[i], target) || without(t, target).contains(t[i]),
    decreases t.len(),
{
    if t.len() > 0 {
        let d = t.drop_last();
        let u = without(d, target);
        let w = without(t, target);
        lemma_without(d, target);
        assert forall|i: int| 0 <= i < w.len() implies !goes(#[trigger] w[i], target)
            && t.contains(w[i]) by {
            if i < u.len() {
                assert(w[i] == u[i]);
                assert(d.contains(u[i]));
                let k = choose|k: int| 0 <= k < d.len() && d[k] == u[i];
                assert(t[k] == w[i]);
            } else {
                assert(t[t.len() - 1] == w[i]);
            }
        }
        assert forall|i: int| 0 <= i < t.len() implies goes(#[trigger] t[i], target)
            || w.contains(t[i]) by {
            if !goes(t[i], target) {
                if i < d.len() {
                    assert(d[i] == t[i]);
                    assert(u.contains(d[i]));
                    let k = choose|k: int| 0 <= k < u.len() && u[k] == d[i];
                    assert(w[k] == t[i]);
                } else {
                    assert(w[w.len() - 1] == t[i]);
                }
            }
        }
    }
}

proof fn lemma_table_of_kept(
    ls: Seq<Seq<char>>,
    path: Seq<char>,
    elsewhere: Seq<char>,
    t: Seq<RouteView>,
    target: TargetView,
)
    requires
        table(ls, path) == Ok::<Seq<RouteView>, FailView>(t),
    ensures
        table(chomped(kept(ls, target)), elsewhere) == Ok::<Seq<RouteView>, FailView>(
            without(t, target),
        ),
    decreases ls.len(),
{
    let k = kept(ls, target);
    if ls.len() == 0 {
        assert(chomped(k) =~= Seq::<Seq<char>>::empty());
    } else {
        let d = ls.drop_last();
        let l = ls.last();
        let at = line_name((ls.len() - 1) as nat, path);
        let t0 = table(d, path)->Ok_0;
        lemma_table_of_kept(d, path, elsewhere, t0, target);
        let k0 = kept(d, target);
        let there = line_name(k0.len(), elsewhere);
        lemma_read_anywhere(l, at, there);
        match line_read(l, at)->Ok_0 {
            None => {
                law_comments_are_kept(l, target);
                assert(chomped(k).drop_last() =~= chomped(k0));
                assert(chomped(k).last() == chomp(l));
            },
            Some(r) => {
                lemma_hit_is_goes(l, at, r, target);
                assert(t == t0.push(r));
                assert(t.drop_last() =~= t0);
                if !hit(l, target) {
                    assert(chomped(k).drop_last() =~= chomped(k0));
                    assert(chomped(k).last() == chomp(l));
                    let w = without(t0, target);
                    lemma_without(t0, target);
                    lemma_place_for(t0, r.addr);
                    assert forall|i: int| 0 <= i < w.len() implies (#[trigger] w[i]).addr
                        != r.addr by {
                        assert(t0.contains(w[i]));
                        let j = choose|j: int| 0 <= j < t0.len() && t0[j] == w[i];
                        assert(t0[j].addr != r.addr);
                    }
                    lemma_place_for(w, r.addr);
                }
            },
        }
    }
}

/// What `route rm` leaves is read as the table without the routes it takes
/// out, and with all the others in their order.
pub proof fn law_removed_routes_are_gone(
    text: Seq<char>,
    path: Seq<char>,
    t: Seq<RouteView>,
    target: TargetView,
)
    requires
        table(lines(text), path) == Ok::<Seq<RouteView>, FailView>(t),
    ensures
        table(lines(unlines(kept(lines(text), target))), path) == Ok::<Seq<RouteView>, FailView>(
            without(t, target),
        ),
{
    lemma_lines_have_no_line_feed(text);
    lemma_kept_is_part(lines(text), target);
    let k = kept(lines(text), target);
    assert forall|i: int| 0 <= i < k.len() implies !(#[trigger] k[i]).contains('\n') by {
        assert(lines(text).contains(k[i]));
        let j = choose|j: int| 0 <= j < lines(text).len() && lines(text)[j] == k[i];
        assert(!lines(text)[j].contains('\n'));
    }
    lemma_lines_unlines(k);
    lemma_table_of_kept(lines(text), path, path, t, target);
}

proof fn lemma_kept_is_part(ls: Seq<Seq<char>>, target: TargetView)
    ensures
        forall|i: int|
            0 <= i < kept(ls, target).len() ==> ls.contains(#[trigger] kept(ls, target)[i]),
    decreases ls.len(),
{
    if ls.len() > 0 {
        let d = ls.drop_last();
        let k = kept(ls, target);
        let k0 = kept(d, target);
        lemma_kept_is_part(d, target);
        assert forall|i: int| 0 <= i < k.len() implies ls.contains(#[trigger] k[i]) by {
            if i < k0.len() {
                assert(k[i] == k0[i]);
                assert(d.contains(k0[i]));
                let j = choose|j: int| 0 <= j < d.len() && d[j] == k0[i];
                assert(ls[j] == k[i]);
            } else {
                assert(ls[ls.len() - 1] == k[i]);
            }
        }
    }
}

/// Once an address is taken out its mail goes where everything else does, and
/// all other mail goes where it went.
pub proof fn law_an_address_taken_out(t: Seq<RouteView>, a: Seq<char>, to: Seq<char>)
    requires
        one_place_each(t),
    ensures
        resolved(without(t, TargetView::Address(a)), a) == place_for(t, None),
        to != a ==> resolved(without(t, TargetView::Address(a)), to) == resolved(t, to),
{
    let target = TargetView::Address(a);
    lemma_without_finds(t, target, None);
    lemma_without_finds(t, target, Some(a));
    lemma_without_finds(t, target, Some(to));
    let w = without(t, target);
    lemma_without(t, target);
    lemma_place_for(w, Some(a));
}

/// Once a place is taken out no mail goes there, and mail that had a route of
/// its own to another place still goes to it.
pub proof fn law_a_place_taken_out(t: Seq<RouteView>, p: Seq<char>, to: Seq<char>)
    requires
        one_place_each(t),
    ensures
        resolved(without(t, TargetView::Place(p)), to) matches Some(q) ==> place_text(q) != p,
        place_for(t, Some(to)) matches Some(q) ==> place_text(q) != p ==> resolved(
            without(t, TargetView::Place(p)),
            to,
        ) == Some(q),
{
    let target = TargetView::Place(p);
    let w = without(t, target);
    lemma_without(t, target);
    lemma_without_finds(t, target, None);
    lemma_without_finds(t, target, Some(to));
    lemma_found_is_there(w, Some(to));
    lemma_found_is_there(w, None);
    lemma_found_is_there(t, Some(to));
}

/// What a lookup finds is the place of one of the routes.
proof fn lemma_found_is_there(t: Seq<RouteView>, a: Option<Seq<char>>)
    ensures
        place_for(t, a) matches Some(p) ==> exists|i: int|
            0 <= i < t.len() && (#[trigger] t[i]).addr == a && t[i].place == p,
    decreases t.len(),
{
    if t.len() > 0 {
        let d = t.drop_first();
        lemma_found_is_there(d, a);
        if t[0].addr != a && place_for(d, a) is Some {
            let p = place_for(d, a).unwrap();
            let i = choose|i: int| 0 <= i < d.len() && (#[trigger] d[i]).addr == a && d[i].place == p;
            assert(t[i + 1] == d[i]);
        } else if t[0].addr == a {
            assert(t[0].place == place_for(t, a).unwrap());
        }
    }
}

/// A route that stays is still found, and one that goes is not.
proof fn lemma_without_finds(t: Seq<RouteView>, target: TargetView, a: Option<Seq<char>>)
    requires
        one_place_each(t),
    ensures
        place_for(without(t, target), a) == match place_for(t, a) {
            Some(p) => if goes(RouteView { addr: a, place: p, note: Seq::empty() }, target) {
                None
            } else {
                Some(p)
            },
            None => None,
        },
{
    let w = without(t, target);
    lemma_without(t, target);
    lemma_found_is_there(t, a);
    lemma_found_is_there(w, a);
    lemma_place_for(t, a);
    lemma_place_for(w, a);
    if place_for(w, a) is Some {
        let q = place_for(w, a).unwrap();
        let i = choose|i: int| 0 <= i < w.len() && (#[trigger] w[i]).addr == a && w[i].place == q;
        assert(t.contains(w[i]));
        let j = choose|j: int| 0 <= j < t.len() && t[j] == w[i];
        lemma_place_for_at(t, j);
        assert(!goes(w[i], target));
    }
    if place_for(t, a) is Some {
        let p = place_for(t, a).unwrap();
        let j = choose|j: int| 0 <= j < t.len() && (#[trigger] t[j]).addr == a && t[j].place == p;
        if !goes(t[j], target) {
            assert(w.contains(t[j]));
            let i = choose|i: int| 0 <= i < w.len() && w[i] == t[j];
            assert(w[i].addr == a);
        }
    }
}

/// Taking out what was just added leaves the lines that were there before it,
/// the last one ended: by its address, or by its place where nothing else went
/// there. Where the lines end plainly, what is then written is the text again,
/// to the last byte.
pub proof fn law_removing_undoes_adding(
    text: Seq<char>,
    path: Seq<char>,
    t: Seq<RouteView>,
    r: RouteView,
    target: TargetView,
)
    requires
        table(lines(text), path) == Ok::<Seq<RouteView>, FailView>(t),
        sound(r),
        goes(r, target),
        forall|i: int| 0 <= i < t.len() ==> !goes(#[trigger] t[i], target),
    ensures
        ({
            let left = kept(lines(ended(text) + unlines(route_texts(seq![r]))), target);
            &&& left == lines(ended(text))
            &&& text.len() == 0 || text.last() != '\r' ==> left == lines(text)
            &&& has_plain_ends(ended(text)) ==> unlines(left) == ended(text)
        }),
{
    let e = ended(text);
    if has_plain_ends(e) {
        lemma_unlines_lines(e);
    }
    lemma_ended_table(text, path, t);
    let one = seq![r];
    assert forall|i: int| 0 <= i < one.len() implies sound(#[trigger] one[i]) by {}
    lemma_lines_concat(e, unlines(route_texts(one)));
    lemma_lines_of_routes(one);
    law_a_route_is_read_back(r, Seq::empty());
    let ls = lines(e) + route_texts(one);
    assert(ls.drop_last() =~= lines(e));
    assert(ls.last() == route_text(r));
    lemma_hit_is_goes(route_text(r), Seq::empty(), r, target);
    lemma_nothing_hit(lines(e), path, t, target);
    if text.len() == 0 || text.last() == '\n' {
        assert(e =~= text);
    } else {
        lemma_lines_ended(text);
        lemma_last_line(text);
        assert(lines(e) =~= lines(text) || text.last() == '\r');
    }
}

/// The last line of a text that no line feed ends ends as the text does.
proof fn lemma_last_line(s: Seq<char>)
    requires
        s.len() > 0,
        s.last() != '\n',
    ensures
        lines(s).len() > 0,
        lines(s).last().len() > 0,
        lines(s).last().last() == s.last(),
    decreases s.len(),
{
    lemma_first_of(s, '\n');
    let n = first_of(s, '\n') as int;
    if n < s.len() {
        let rest = s.skip(n + 1);
        if n == s.len() - 1 {
            assert(s.last() == '\n');
        }
        assert(rest.last() == s.last());
        lemma_last_line(rest);
        assert(lines(s).last() == lines(rest).last());
    }
}

/// No line of the text ends in a carriage return and a line feed.
pub open spec fn has_plain_ends(text: Seq<char>) -> bool {
    forall|i: int| 0 <= i < text.len() - 1 && #[trigger] text[i] == '\r' ==> text[i + 1] != '\n'
}

/// Lines that end plainly are written as they were read.
proof fn lemma_unlines_lines(text: Seq<char>)
    requires
        text.len() == 0 || text.last() == '\n',
        has_plain_ends(text),
    ensures
        unlines(lines(text)) == text,
    decreases text.len(),
{
    if text.len() == 0 {
        assert(unlines(lines(text)) =~= text);
    } else {
        lemma_first_of(text, '\n');
        let n = first_of(text, '\n') as int;
        if n >= text.len() {
            assert(text[text.len() - 1] != '\n');
        }
        let l = text.take(n);
        let rest = text.skip(n + 1);
        if n > 0 {
            assert(l.last() == text[n - 1]);
        }
        assert(chomp(l) == l);
        if rest.len() > 0 {
            assert(rest.last() == text.last());
        }
        assert forall|i: int|
            0 <= i < rest.len() - 1 && #[trigger] rest[i] == '\r' implies rest[i + 1] != '\n' by {
            assert(text[i + n + 1] == '\r');
        }
        lemma_unlines_lines(rest);
        lemma_unlines_concat(seq![l], lines(rest));
        lemma_unlines_one(l);
        assert(l + seq!['\n'] + rest =~= text);
    }
}

/// What none of the routes is about is on none of the lines.
proof fn lemma_nothing_hit(
    ls: Seq<Seq<char>>,
    path: Seq<char>,
    t: Seq<RouteView>,
    target: TargetView,
)
    requires
        table(ls, path) == Ok::<Seq<RouteView>, FailView>(t),
        forall|i: int| 0 <= i < t.len() ==> !goes(#[trigger] t[i], target),
    ensures
        kept(ls, target) == ls,
    decreases ls.len(),
{
    if ls.len() == 0 {
        assert(kept(ls, target) =~= ls);
    } else {
        let d = ls.drop_last();
        let l = ls.last();
        let at = line_name((ls.len() - 1) as nat, path);
        let t0 = table(d, path)->Ok_0;
        match line_read(l, at)->Ok_0 {
            None => {
                law_comments_are_kept(l, target);
                lemma_nothing_hit(d, path, t0, target);
            },
            Some(r) => {
                lemma_hit_is_goes(l, at, r, target);
                assert(t == t0.push(r));
                assert(t[t.len() - 1] == r);
                assert forall|i: int| 0 <= i < t0.len() implies !goes(#[trigger] t0[i], target) by {
                    assert(t[i] == t0[i]);
                }
                lemma_nothing_hit(d, path, t0, target);
            },
        }
        assert(d.push(l) =~= ls);
    }
}

// ---- what adding comes to -----------------------------------------------------------

/// `route add` succeeds exactly if none of the addresses it adds has a route
/// already, to whatever place; otherwise it is a refusal, which names where
/// the mail goes.
pub proof fn law_no_address_is_added_twice(
    t: Seq<RouteView>,
    adding: Seq<RouteView>,
    place: PlaceView,
    path: Seq<char>,
)
    ensures
        added(t, adding, place, path) is Ok <==> forall|i: int, j: int|
            0 <= i < t.len() && 0 <= j < adding.len() ==> (#[trigger] t[i]).addr != (
            #[trigger] adding[j]).addr,
        added(t, adding, place, path) matches Err(f) ==> {
            &&& f.code == 3
            &&& exists|i: int, j: int|
                0 <= i < t.len() && 0 <= j < adding.len() && (#[trigger] t[i]).addr == (
                #[trigger] adding[j]).addr && contains(
                    f.msg,
                    " already goes to "@ + place_text(t[i].place) + "; "@,
                )
        },
{
    match clash(t, adding) {
        None => {
            lemma_no_clash(t, adding);
            assert forall|i: int, j: int|
                0 <= i < t.len() && 0 <= j < adding.len() implies (#[trigger] t[i]).addr != (
            #[trigger] adding[j]).addr by {
                lemma_place_for(t, adding[j].addr);
            }
        },
        Some(r) => {
            lemma_clash_is_there(t, adding);
            let j = choose|j: int| 0 <= j < adding.len() && #[trigger] adding[j] == r;
            lemma_found_is_there(t, r.addr);
            let p = place_for(t, r.addr).unwrap();
            let i = choose|i: int|
                0 <= i < t.len() && (#[trigger] t[i]).addr == r.addr && t[i].place == p;
            assert(t[i].addr == adding[j].addr);
            reveal_strlit("; beb-courier route rm ");
            reveal_strlit("; ");
            let a = abridged(addr_text(r.addr), 16);
            let w = " already goes to "@ + place_text(p) + "; "@;
            let by = match r.addr {
                Some(x) => x,
                None => "ssh://"@ + place_text(p),
            };
            let z = "; beb-courier route rm "@.skip(2) + by + " first"@;
            assert("; beb-courier route rm "@ =~= "; "@ + "; beb-courier route rm "@.skip(2));
            assert(clash_text(t, r) =~= a + w + z);
            lemma_has_middle(a, w, z);
        },
    }
}

proof fn lemma_clash_is_there(t: Seq<RouteView>, adding: Seq<RouteView>)
    requires
        clash(t, adding) is Some,
    ensures
        exists|j: int| 0 <= j < adding.len() && #[trigger] adding[j] == clash(t, adding).unwrap(),
        place_for(t, clash(t, adding).unwrap().addr) is Some,
    decreases adding.len(),
{
    if place_for(t, adding[0].addr) is Some {
        assert(adding[0] == clash(t, adding).unwrap());
    } else {
        let d = adding.drop_first();
        lemma_clash_is_there(t, d);
        let j = choose|j: int| 0 <= j < d.len() && #[trigger] d[j] == clash(t, d).unwrap();
        assert(adding[j + 1] == d[j]);
    }
}

/// Where `route add` succeeds on a table that was read from a text, what it
/// gives, added to that text, reads as that table and the routes that were to
/// be added, each with its place and its note.
pub proof fn law_what_route_add_gives_is_read_back(
    text: Seq<char>,
    path: Seq<char>,
    t: Seq<RouteView>,
    adding: Seq<RouteView>,
    place: PlaceView,
)
    requires
        table(lines(text), path) == Ok::<Seq<RouteView>, FailView>(t),
        one_place_each(adding),
        forall|i: int| 0 <= i < adding.len() ==> sound(#[trigger] adding[i]),
        added(t, adding, place, path) is Ok,
    ensures
        ({
            let r = added(t, adding, place, path)->Ok_0;
            let after = ended(text) + r.out;
            &&& encode_utf8(text) + written(encode_utf8(text), r.out) == encode_utf8(after)
            &&& table(lines(after), path) == Ok::<Seq<RouteView>, FailView>(t + adding)
        }),
{
    law_no_address_is_added_twice(t, adding, place, path);
    assert forall|j: int| 0 <= j < adding.len() implies place_for(
        t,
        (#[trigger] adding[j]).addr,
    ) is None by {
        lemma_place_for(t, adding[j].addr);
    }
    lemma_clash_none(t, adding);
    law_added_routes_are_read_back(text, path, t, adding);
}

// ---- what a line and a lookup come to ------------------------------------------------

/// A line says a route exactly if it begins with a place, or with an address
/// that a place follows; a line with no word on it, or whose first word
/// begins with a hash sign, says nothing, and any other line is refused.
pub proof fn law_what_a_line_says(l: Seq<char>, at: Seq<char>)
    ensures
        ({
            let w = words(l);
            let r = line_read(l, at);
            let silent = w.len() == 0 || w[0][0] == '#';
            let alone = w.len() > 0 && starts_with(w[0], "ssh://"@) && place_in(w[0]) is Ok;
            let routed = w.len() > 1 && address(w[0]) && place_in(w[1]) is Ok;
            &&& silent <==> r == Ok::<Option<RouteView>, FailView>(None)
            &&& alone || routed <==> (r matches Ok(Some(_)))
            &&& alone ==> r->Ok_0->Some_0.addr is None && place_in(w[0]) == Ok::<
                PlaceView,
                FailView,
            >(r->Ok_0->Some_0.place)
            &&& routed ==> r->Ok_0->Some_0.addr == Some(w[0]) && place_in(w[1]) == Ok::<
                PlaceView,
                FailView,
            >(r->Ok_0->Some_0.place)
            &&& r matches Err(f) ==> f.code == 3
            &&& r is Err && !starts_with(w[0], "ssh://"@) && !(w.len() > 1 && address(w[0]))
                ==> starts_with(r->Err_0.msg, at)
        }),
{
    reveal_strlit("ssh://");
    let f = first_word(l);
    let rest = after_word(l);
    lemma_first_word(l);
    lemma_first_word(rest);
    let w = words(l);
    if f.len() > 0 {
        assert(w[0] == f);
        if first_word(rest).len() > 0 {
            assert(words(rest)[0] == first_word(rest));
            assert(w[1] == first_word(rest));
        } else {
            assert(words(rest) =~= Seq::<Seq<char>>::empty());
            assert(w =~= seq![f]);
        }
        if starts_with(f, "ssh://"@) {
            assert(f.take(6)[0] == 's');
            if address(f) {
                assert(is_hex(f[0]));
            }
        }
        if address(f) {
            assert(is_hex(f[0]));
        }
        let r = line_read(l, at);
        if r is Err && !starts_with(f, "ssh://"@) && !(w.len() > 1 && address(f)) {
            assert(r->Err_0.msg.take(at.len() as int) =~= at);
        }
    }
}

/// A table is read line by line: a line that says nothing changes nothing, one
/// that says a route adds it unless its address is routed already, to whatever
/// place, and what cannot be read is a refusal of the whole.
pub proof fn law_a_table_is_read_line_by_line(
    ls: Seq<Seq<char>>,
    l: Seq<char>,
    path: Seq<char>,
    t: Seq<RouteView>,
)
    requires
        table(ls, path) == Ok::<Seq<RouteView>, FailView>(t),
    ensures
        ({
            let all = table(ls.push(l), path);
            let w = words(l);
            let r = line_read(l, "line "@ + decimal(ls.len() + 1) + " of "@ + path);
            let twice = |r: RouteView| exists|i: int|
                0 <= i < t.len() && (#[trigger] t[i]).addr == r.addr;
            &&& w.len() == 0 || w[0][0] == '#' ==> all == Ok::<Seq<RouteView>, FailView>(t)
            &&& r matches Ok(Some(route)) ==> {
                &&& !twice(route) ==> all == Ok::<Seq<RouteView>, FailView>(t.push(route))
                &&& twice(route) ==> all is Err && all->Err_0.code == 3 && starts_with(
                    all->Err_0.msg,
                    "line "@ + decimal(ls.len() + 1) + " of "@ + path + " routes "@,
                )
            }
            &&& r matches Err(f) ==> all == Err::<Seq<RouteView>, FailView>(f)
        }),
{
    let at = line_name(ls.len(), path);
    assert(ls.push(l).drop_last() =~= ls);
    law_what_a_line_says(l, at);
    if let Ok(Some(route)) = line_read(l, at) {
        lemma_place_for(t, route.addr);
        if place_for(t, route.addr) is Some {
            let m = table(ls.push(l), path)->Err_0.msg;
            let p = at + " routes "@;
            assert(m.take(p.len() as int) =~= p);
        }
    }
}

/// What is wrong with a table stays wrong, whatever lines follow.
pub proof fn law_a_refused_table_stays_refused(
    ls: Seq<Seq<char>>,
    l: Seq<char>,
    path: Seq<char>,
    f: FailView,
)
    requires
        table(ls, path) == Err::<Seq<RouteView>, FailView>(f),
    ensures
        table(ls.push(l), path) == Err::<Seq<RouteView>, FailView>(f),
{
    assert(ls.push(l).drop_last() =~= ls);
}

/// Mail goes to the place of the route for its recipient, where there is one,
/// else to the place of the route without an address, where there is one, and
/// nowhere where there is neither.
pub proof fn law_where_mail_goes(t: Seq<RouteView>, to: Seq<char>)
    requires
        one_place_each(t),
    ensures
        ({
            let exact = exists|i: int| 0 <= i < t.len() && (#[trigger] t[i]).addr == Some(to);
            let rest = exists|i: int| 0 <= i < t.len() && (#[trigger] t[i]).addr is None;
            &&& forall|i: int|
                0 <= i < t.len() && (#[trigger] t[i]).addr == Some(to) ==> resolved(t, to) == Some(
                    t[i].place,
                )
            &&& forall|i: int|
                0 <= i < t.len() && (#[trigger] t[i]).addr is None && !exact ==> resolved(t, to)
                    == Some(t[i].place)
            &&& !exact && !rest ==> resolved(t, to) is None
        }),
{
    lemma_place_for(t, Some(to));
    lemma_place_for(t, None);
    assert forall|i: int| 0 <= i < t.len() implies place_for(t, (#[trigger] t[i]).addr) == Some(
        t[i].place,
    ) by {
        lemma_place_for_at(t, i);
    }
}

/// What the machine's table is: refused while the old file is there, whatever
/// else is, empty where there is none, and what its text says otherwise.
pub proof fn law_the_old_file_is_refused(
    depot: Option<Seq<char>>,
    depot_path: Seq<char>,
    text: Option<Seq<char>>,
    path: Seq<char>,
)
    ensures
        ({
            let r = table_of(depot, depot_path, text, path);
            &&& depot matches Some(d) ==> {
                &&& r is Err
                &&& r->Err_0.code == 3
                &&& starts_with(r->Err_0.msg, depot_path)
                &&& trim(d).len() > 0 ==> contains(
                    r->Err_0.msg,
                    "beb-courier route add "@ + trim(d),
                )
            }
            &&& depot is None && text is None ==> r == Ok::<Seq<RouteView>, FailView>(
                Seq::empty(),
            )
            &&& depot is None && text is Some ==> r == table(lines(text.unwrap()), path)
        }),
{
    if depot is Some {
        let d = depot.unwrap();
        let m = depot_answer(d, depot_path);
        let one = " names a place, and nothing reads that file now\nrm "@;
        let named = if trim(d).len() == 0 {
            "ssh://host"@
        } else {
            trim(d)
        };
        let add = "beb-courier route add "@;
        assert("\nbeb-courier route add "@ =~= seq!['\n'] + add) by {
            reveal_strlit("\nbeb-courier route add ");
            reveal_strlit("beb-courier route add ");
        }
        lemma_five_parts(depot_path, one, seq!['\n'], add, named);
        let front = depot_path + one + depot_path + seq!['\n'];
        lemma_has_middle(front, add + named, Seq::empty());
    }
}

proof fn lemma_five_parts(
    p: Seq<char>,
    one: Seq<char>,
    feed: Seq<char>,
    add: Seq<char>,
    named: Seq<char>,
)
    ensures
        p + one + p + (feed + add) + named == (p + one + p + feed) + (add + named) + Seq::<
            char,
        >::empty(),
        starts_with(p + one + p + (feed + add) + named, p),
{
    let s = p + one + p + (feed + add) + named;
    assert(s =~= (p + one + p + feed) + (add + named) + Seq::<char>::empty());
    assert(s.take(p.len() as int) =~= p);
}

/// `route rm` takes out the routes of that address, or those to that place,
/// and no others; those that stay are in their order.
pub proof fn law_what_is_taken_out(t: Seq<RouteView>, target: TargetView)
    ensures
        without(t, target) == t.filter(
            |r: RouteView|
                match target {
                    TargetView::Address(a) => r.addr != Some(a),
                    TargetView::Place(p) => place_text(r.place) != p,
                },
        ),
    decreases t.len(),
{
    reveal(Seq::filter);
    if t.len() > 0 {
        law_what_is_taken_out(t.drop_last(), target);
    }
}

/// Every route that a handover asks for goes to the place that was given, and
/// carries the handover's label behind a hash sign where it has one.
pub proof fn law_a_handover_is_routed_to_the_place(h: HandoverView, place: PlaceView)
    ensures
        forall|i: int|
            0 <= i < handover_routes(h, place).len() ==> {
                let r = #[trigger] handover_routes(h, place)[i];
                &&& r.place == place
                &&& r.addr is Some
                &&& h.addresses.contains(r.addr.unwrap())
                &&& h.label.len() == 0 ==> r.note.len() == 0
                &&& h.label.len() > 0 ==> r.note == "# "@ + h.label
            },
        forall|a: Seq<char>| #[trigger]
            h.addresses.contains(a) ==> exists|i: int|
                0 <= i < handover_routes(h, place).len() && (#[trigger] handover_routes(
                    h,
                    place,
                )[i]).addr == Some(a),
{
    lemma_once_each(h.addresses);
    let o = once_each(h.addresses);
    let rs = handover_routes(h, place);
    assert forall|i: int| 0 <= i < rs.len() implies h.addresses.contains(
        (#[trigger] rs[i]).addr.unwrap(),
    ) by {
        assert(o.contains(o[i]));
    }
    assert forall|a: Seq<char>| #[trigger] h.addresses.contains(a) implies exists|i: int|
        0 <= i < rs.len() && (#[trigger] rs[i]).addr == Some(a) by {
        assert(o.contains(a));
        let i = choose|i: int| 0 <= i < o.len() && o[i] == a;
        assert(rs[i].addr == Some(a));
    }
}

// ---- what is said of a table ------------------------------------------------------

/// A count is one of the one word exactly if it is one.
pub proof fn law_one_is_singular(n: nat, one: Seq<char>, many: Seq<char>)
    ensures
        n == 1 ==> counted(n, one, many) == decimal(1) + " "@ + one,
        n != 1 ==> counted(n, one, many) == decimal(n) + " "@ + many,
{
}

/// A listing says how many routes there are, and then, of everyone who is
/// waiting and whom no route takes, once each, the command that would route
/// them.
pub proof fn law_a_listing_says_who_has_no_route(
    t: Seq<RouteView>,
    waiting: Seq<Seq<char>>,
    a: Seq<char>,
)
    ensures
        ({
            let notes = list_notes(t, waiting);
            let lost = uncovered(t, waiting);
            &&& notes.len() == 1 + lost.len()
            &&& starts_with(notes[0], decimal(t.len()) + " "@)
            &&& waiting.len() == 0 ==> contains(notes[0], "nothing waiting to leave"@)
            &&& waiting.len() > 0 && lost.len() == 0 ==> contains(
                notes[0],
                "everything waiting to leave has one"@,
            )
            &&& lost.len() > 0 ==> contains(
                notes[0],
                decimal(lost.len()) + " waiting to leave match none"@,
            )
            &&& waiting.contains(a) && resolved(t, a) is None ==> exists|i: int|
                0 < i < notes.len() && contains(
                    #[trigger] notes[i],
                    "beb-courier route add "@ + a + " ssh://host"@,
                )
        }),
{
    law_uncovered(t, waiting);
    let notes = list_notes(t, waiting);
    let lost = uncovered(t, waiting);
    let none: Seq<char> = Seq::empty();
    let tail = if waiting.len() == 0 {
        "nothing waiting to leave"@
    } else if lost.len() == 0 {
        "everything waiting to leave has one"@
    } else {
        decimal(lost.len()) + " waiting to leave match none"@
    };
    let count = counted(t.len(), "route"@, "routes"@);
    let first = notes[0];
    assert(first == count + "; "@ + tail);
    if waiting.len() == 0 {
        assert(lost.len() == 0);
    }
    lemma_has_middle(count + "; "@, tail, none);
    assert(first =~= (count + "; "@) + tail + none);
    let head = decimal(t.len()) + " "@;
    assert(first.take(head.len() as int) =~= head);
    if waiting.contains(a) && resolved(t, a) is None {
        assert(lost.contains(a));
        let k = choose|k: int| 0 <= k < lost.len() && lost[k] == a;
        let m = notes[k + 1];
        assert(m == "no route for "@ + abridged(a, 8) + ": beb-courier route add "@ + a
            + " ssh://host"@);
        let c = "beb-courier route add "@;
        assert(": beb-courier route add "@ =~= ": "@ + c) by {
            reveal_strlit(": beb-courier route add ");
            reveal_strlit(": ");
            reveal_strlit("beb-courier route add ");
        }
        lemma_has_command("no route for "@ + abridged(a, 8), ": "@, c, a, " ssh://host"@);
    }
}

/// Once routes are added it is said where the mail goes: everything that is
/// not routed elsewhere where one of them takes it, and otherwise how many
/// there are, and in which file.
pub proof fn law_it_is_said_where_mail_goes_now(
    t: Seq<RouteView>,
    adding: Seq<RouteView>,
    place: PlaceView,
    path: Seq<char>,
    r: ReportView,
)
    requires
        added(t, adding, place, path) == Ok::<ReportView, FailView>(r),
    ensures
        ({
            let rest = exists|i: int| 0 <= i < adding.len() && (#[trigger] adding[i]).addr is None;
            let p = place_text(place);
            &&& r.notes.len() == 2
            &&& rest ==> r.notes[0] == "everything not routed elsewhere goes to "@ + p
            &&& !rest && adding.len() == 1 ==> r.notes[0] == decimal(1) + " route to "@ + p + ", in "@
                + path
            &&& !rest && adding.len() != 1 ==> r.notes[0] == decimal(adding.len()) + " routes to "@
                + p + ", in "@ + path
            &&& starts_with(r.notes[1], p)
        }),
{
    let p = place_text(place);
    assert(r.notes[1].take(p.len() as int) =~= p);
    assert(" "@ + "route"@ + " to "@ =~= " route to "@) by {
        reveal_strlit(" ");
        reveal_strlit("route");
        reveal_strlit(" to ");
        reveal_strlit(" route to ");
    }
    assert(" "@ + "routes"@ + " to "@ =~= " routes to "@) by {
        reveal_strlit(" ");
        reveal_strlit("routes");
        reveal_strlit(" to ");
        reveal_strlit(" routes to ");
    }
    let n = decimal(adding.len());
    lemma_count_to(n, " "@, "route"@, " to "@, p + ", in "@ + path);
    lemma_count_to(n, " "@, "routes"@, " to "@, p + ", in "@ + path);
    assert(n + " route to "@ + p + ", in "@ + path =~= n + " route to "@ + (p + ", in "@ + path));
    assert(n + " routes to "@ + p + ", in "@ + path =~= n + " routes to "@ + (p + ", in "@ + path));
    let one = n + " "@ + "route"@ + " to "@;
    assert(one + p + ", in "@ + path =~= one + (p + ", in "@ + path));
    let many = n + " "@ + "routes"@ + " to "@;
    assert(many + p + ", in "@ + path =~= many + (p + ", in "@ + path));
}

proof fn lemma_count_to(n: Seq<char>, a: Seq<char>, b: Seq<char>, c: Seq<char>, z: Seq<char>)
    ensures
        n + a + b + c + z == n + (a + b + c) + z,
{
    assert(n + a + b + c + z =~= n + (a + b + c) + z);
}

/// What `route add` refuses says what to take out first: the address, or the
/// place that everything else goes to.
pub proof fn law_a_clash_says_what_to_take_out(t: Seq<RouteView>, r: RouteView)
    requires
        place_for(t, r.addr) is Some,
    ensures
        ({
            let m = clash_text(t, r);
            let p = place_text(place_for(t, r.addr).unwrap());
            &&& r.addr matches Some(a) ==> contains(m, "beb-courier route rm "@ + a + " first"@)
            &&& r.addr is None ==> contains(m, "beb-courier route rm "@ + ("ssh://"@ + p) + " first"@)
        }),
{
    let p = place_text(place_for(t, r.addr).unwrap());
    let front = abridged(addr_text(r.addr), 16) + " already goes to "@ + p;
    let by = match r.addr {
        Some(a) => a,
        None => "ssh://"@ + p,
    };
    let c = "beb-courier route rm "@;
    assert("; beb-courier route rm "@ =~= "; "@ + c) by {
        reveal_strlit("; beb-courier route rm ");
        reveal_strlit("; ");
        reveal_strlit("beb-courier route rm ");
    }
    lemma_has_command(front, "; "@, c, by, " first"@);
}

/// Once lines are gone it is said how many went to that place, or where the
/// mail of that address goes now, which is where everything else does.
pub proof fn law_it_is_said_what_is_gone(target: TargetView, gone: nat, left: Seq<RouteView>)
    ensures
        ({
            let m = removed_text(target, gone, left);
            &&& target matches TargetView::Place(p) ==> {
                &&& starts_with(m, decimal(gone) + " "@)
                &&& contains(m, p)
            }
            &&& target matches TargetView::Address(a) ==> {
                &&& starts_with(m, abridged(a, 8))
                &&& place_for(left, None) matches Some(q) ==> {
                    let at = m.len() - place_text(q).len();
                    at >= 0 && m.skip(at) == place_text(q)
                }
                &&& place_for(left, None) is None ==> m == abridged(a, 8) + " is not routed now"@
            }
        }),
{
    let m = removed_text(target, gone, left);
    match target {
        TargetView::Place(p) => {
            let head = decimal(gone) + " "@;
            assert(m.take(head.len() as int) =~= head);
            let front = counted(gone, "route"@, "routes"@) + " to "@;
            lemma_has_middle(front, p, " removed"@);
        },
        TargetView::Address(a) => {
            let head = abridged(a, 8);
            assert(m.take(head.len() as int) =~= head);
            if place_for(left, None) is Some {
                let q = place_text(place_for(left, None).unwrap());
                assert(m.skip(m.len() - q.len()) =~= q);
            }
        },
    }
}

/// A line is taken out by its address exactly if that is its first word, and
/// by its place exactly if it is no comment and its first word is that place,
/// or the second where the first is no place.
pub proof fn law_which_lines_are_taken_out(l: Seq<char>, a: Seq<char>, p: Seq<char>)
    ensures
        ({
            let w = words(l);
            let names = |s: Seq<char>| place_in(s) matches Ok(q) && place_text(q) == p;
            &&& hit(l, TargetView::Address(a)) <==> w.len() > 0 && w[0] == a && address(a)
            &&& w.len() == 0 || w[0][0] == '#' ==> !hit(l, TargetView::Place(p))
            &&& w.len() > 0 && w[0][0] != '#' && starts_with(w[0], "ssh://"@) ==> (hit(
                l,
                TargetView::Place(p),
            ) <==> names(w[0]))
            &&& w.len() > 0 && w[0][0] != '#' && !starts_with(w[0], "ssh://"@) ==> (hit(
                l,
                TargetView::Place(p),
            ) <==> w.len() > 1 && names(w[1]))
        }),
{
    let rest = after_word(l);
    lemma_first_word(l);
    lemma_first_word(rest);
    if first_word(l).len() > 0 {
        assert(words(l) == seq![first_word(l)] + words(rest));
        assert(words(l)[0] == first_word(l));
        if first_word(rest).len() > 0 {
            assert(words(rest) == seq![first_word(rest)] + words(after_word(rest)));
            assert(words(l)[1] == words(rest)[0]);
            assert(words(l)[1] == first_word(rest));
        } else {
            assert(words(rest).len() == 0);
            assert(words(l).len() == 1);
            let none = first_word(rest);
            reveal_strlit("ssh://");
            assert(!starts_with(none, "ssh://"@));
            assert(place_in(none) is Err);
        }
    } else {
        assert(words(l).len() == 0);
    }
}

/// The lines that stay are all that are not taken out, in their order.
pub proof fn law_all_other_lines_stay(ls: Seq<Seq<char>>, target: TargetView)
    ensures
        kept(ls, target) == ls.filter(|l: Seq<char>| !hit(l, target)),
    decreases ls.len(),
{
    reveal(Seq::filter);
    if ls.len() > 0 {
        law_all_other_lines_stay(ls.drop_last(), target);
    }
}

/// The addresses of a handover are routed in the order in which they first
/// come.
pub proof fn law_routed_in_order(s: Seq<Seq<char>>, a: Seq<char>)
    ensures
        once_each(s).is_prefix_of(once_each(s.push(a))),
{
    assert(s.push(a).drop_last() =~= s);
}

/// What `route add` is to route: everything else where nothing is named, an
/// address where one is, and otherwise the handover in a file that is here or
/// on standard input; a word that is none of these is refused.
pub proof fn law_what_is_to_be_routed(w: Seq<char>, is_here: bool)
    ensures
        subject_of(None, is_here) == Ok::<SubjectView, FailView>(SubjectView::Rest),
        address(w) ==> subject_of(Some(w), is_here) == Ok::<SubjectView, FailView>(
            SubjectView::Address(w),
        ),
        !address(w) && (is_here || w == "-"@) ==> subject_of(Some(w), is_here) == Ok::<
            SubjectView,
            FailView,
        >(SubjectView::Handover(w)),
        !address(w) && !is_here && w != "-"@ ==> {
            &&& subject_of(Some(w), is_here) is Err
            &&& subject_of(Some(w), is_here)->Err_0.code == 3
        },
{
}

/// `route rm` succeeds exactly if the old file is gone, there is a table and
/// some line of it is taken out. The old file is refused, no table asks for
/// another command, and a table without such a line leaves nothing to do.
/// What is left is every other line, ended, and the rest is counted.
pub proof fn law_when_lines_are_taken_out(
    depot: Option<Seq<char>>,
    depot_path: Seq<char>,
    text: Option<Seq<char>>,
    target: TargetView,
    root: Seq<char>,
)
    ensures
        ({
            let r = taken_out(depot, depot_path, text, target, root);
            let ls = lines(text.unwrap());
            let some = exists|i: int| 0 <= i < ls.len() && hit(#[trigger] ls[i], target);
            &&& r is Ok <==> depot is None && text is Some && some
            &&& depot is Some ==> r->Err_0.code == 3
            &&& depot is None && text is None ==> r->Err_0.code == 1
            &&& depot is None && text is Some && !some ==> r->Err_0.code == 2
            &&& r matches Ok((left, n)) ==> {
                &&& left == unlines(ls.filter(|l: Seq<char>| !hit(l, target)))
                &&& n == ls.filter(|l: Seq<char>| hit(l, target)).len()
            }
        }),
{
    if text is Some {
        let ls = lines(text.unwrap());
        law_all_other_lines_stay(ls, target);
        lemma_taken_and_left(ls, target);
    }
}

proof fn lemma_taken_and_left(ls: Seq<Seq<char>>, target: TargetView)
    ensures
        kept(ls, target).len() + ls.filter(|l: Seq<char>| hit(l, target)).len() == ls.len(),
        kept(ls, target).len() == ls.len() <==> forall|i: int|
            0 <= i < ls.len() ==> !hit(#[trigger] ls[i], target),
    decreases ls.len(),
{
    reveal(Seq::filter);
    if ls.len() > 0 {
        let d = ls.drop_last();
        lemma_taken_and_left(d, target);
        assert(ls.last() == ls[ls.len() - 1]);
        if kept(ls, target).len() == ls.len() {
            assert forall|i: int| 0 <= i < ls.len() implies !hit(#[trigger] ls[i], target) by {
                if i < d.len() {
                    assert(d[i] == ls[i]);
                }
            }
        } else if kept(d, target).len() < d.len() {
            let i = choose|i: int| 0 <= i < d.len() && hit(#[trigger] d[i], target);
            assert(ls[i] == d[i]);
        }
    }
}

/// A route is written as its address, where it has one, the scheme and its
/// place, and its note, where it has one, one space between each two.
pub proof fn law_how_a_route_is_written(r: RouteView)
    ensures
        ({
            let place = "ssh://"@ + place_text(r.place);
            let front = match r.addr {
                Some(a) => a + " "@ + place,
                None => place,
            };
            &&& r.note.len() == 0 ==> route_text(r) == front
            &&& r.note.len() > 0 ==> route_text(r) == front + " "@ + r.note
        }),
{
    if let Some(a) = r.addr {
        let p = place_text(r.place);
        assert(" ssh://"@ =~= " "@ + "ssh://"@) by {
            reveal_strlit(" ssh://");
            reveal_strlit(" ");
            reveal_strlit("ssh://");
        }
        assert(a + (" "@ + "ssh://"@) + p =~= a + " "@ + ("ssh://"@ + p));
    }
}

} // verus!
