//! What beb's spool says by the names in it: who reads here, and what is
//! waiting to leave and for whom.

use crate::compose::cat3;
use crate::order::{in_order, sort};
use crate::routes::{address, is_address, resolve, resolved, table_view, Route, RouteView};
use crate::text::{chars_of, first_of, lemma_first_of_at, same, texts};
use vstd::prelude::*;
use vstd::seq_lib::to_multiset_contains;
use vstd::utf8::{
    decode_utf8, encode_utf8, encode_utf8_decode_utf8, is_ascii_chars, is_ascii_chars_encode_utf8,
    is_char_boundary,
};

verus! {

/// Who a file of the outbox is for. A frame is named `<id>-<address>`; the
/// counter and the lock beside it are not mail.
pub open spec fn recipient(name: Seq<char>) -> Option<Seq<char>> {
    let n = first_of(name, '-') as int;
    if n < name.len() && address(name.skip(n + 1)) {
        Some(name.skip(n + 1))
    } else {
        None
    }
}

/// Who the frames among `names` are for, one entry for each frame.
pub open spec fn recipients_of(names: Seq<Seq<char>>) -> Seq<Seq<char>>
    decreases names.len(),
{
    if names.len() == 0 {
        Seq::empty()
    } else {
        match recipient(names.last()) {
            Some(to) => recipients_of(names.drop_last()).push(to),
            None => recipients_of(names.drop_last()),
        }
    }
}

/// The frames among `names`.
pub open spec fn frames_in(names: Seq<Seq<char>>) -> Seq<Seq<char>> {
    names.filter(|n: Seq<char>| recipient(n) is Some)
}

/// The addresses among `names`.
pub open spec fn addresses_in(names: Seq<Seq<char>>) -> Seq<Seq<char>> {
    names.filter(|n: Seq<char>| address(n))
}

/// The recipients that the table does not cover, each once, in the order in
/// which they first come.
pub open spec fn uncovered(t: Seq<RouteView>, waiting: Seq<Seq<char>>) -> Seq<Seq<char>>
    decreases waiting.len(),
{
    if waiting.len() == 0 {
        Seq::empty()
    } else {
        let s = uncovered(t, waiting.drop_last());
        if resolved(t, waiting.last()) is None && !s.contains(waiting.last()) {
            s.push(waiting.last())
        } else {
            s
        }
    }
}

/// Where the first eight bytes of `s` end, or all of it.
pub open spec fn eight(s: Seq<char>) -> int {
    if encode_utf8(s).len() < 8 {
        encode_utf8(s).len() as int
    } else {
        8
    }
}

/// No character of `s` is cut by taking its first eight bytes.
pub open spec fn eight_is_whole(s: Seq<char>) -> bool {
    is_char_boundary(encode_utf8(s), eight(s))
}

/// The first eight bytes of `s`, or all of it.
pub open spec fn head(s: Seq<char>) -> Seq<char> {
    decode_utf8(encode_utf8(s).subrange(0, eight(s)))
}

/// A frame's name with its address cut short.
pub open spec fn short_name(name: Seq<char>) -> Seq<char> {
    let n = first_of(name, '-') as int;
    if n < name.len() {
        name.take(n) + "-"@ + head(name.skip(n + 1))
    } else {
        name
    }
}

/// An address is cut to its first eight characters.
pub proof fn lemma_head_of_address(a: Seq<char>)
    requires
        address(a),
    ensures
        eight_is_whole(a),
        head(a) == a.take(8),
{
    assert forall|i: int| 0 <= i < a.len() implies '\0' <= #[trigger] a[i] <= '\u{7f}' by {
        assert(crate::routes::is_hex(a[i]));
    }
    assert(is_ascii_chars(a));
    is_ascii_chars_encode_utf8(a);
    let t = a.take(8);
    assert(is_ascii_chars(t));
    is_ascii_chars_encode_utf8(t);
    assert(encode_utf8(a).subrange(0, 8) =~= encode_utf8(t));
    encode_utf8_decode_utf8(t);
    vstd::utf8::encode_utf8_valid_utf8(a);
    vstd::utf8::is_char_boundary_iff_is_leading_byte(encode_utf8(a), 8);
}

/// The recipients without a route are the ones that are waiting and that the
/// table resolves to nothing, and none is named twice.
pub proof fn law_uncovered(t: Seq<RouteView>, waiting: Seq<Seq<char>>)
    ensures
        forall|a: Seq<char>| #[trigger]
            uncovered(t, waiting).contains(a) <==> waiting.contains(a) && resolved(t, a) is None,
        uncovered(t, waiting).no_duplicates(),
    decreases waiting.len(),
{
    if waiting.len() > 0 {
        let rest = waiting.drop_last();
        let s = uncovered(t, rest);
        let u = uncovered(t, waiting);
        law_uncovered(t, rest);
        assert forall|a: Seq<char>| #[trigger]
            u.contains(a) <==> waiting.contains(a) && resolved(t, a) is None by {
            assert(waiting =~= rest.push(waiting.last()));
            assert(s.contains(a) <==> rest.contains(a) && resolved(t, a) is None);
            if waiting.contains(a) && a != waiting.last() {
                let i = choose|i: int| 0 <= i < waiting.len() && waiting[i] == a;
                assert(rest[i] == a);
            }
            if rest.contains(a) {
                let i = choose|i: int| 0 <= i < rest.len() && rest[i] == a;
                assert(waiting[i] == a);
            }
            assert(waiting[waiting.len() - 1] == waiting.last());
            if u.len() > s.len() {
                assert(u[s.len() as int] == waiting.last());
                if s.contains(a) {
                    let i = choose|i: int| 0 <= i < s.len() && s[i] == a;
                    assert(u[i] == a);
                }
                if u.contains(a) && a != waiting.last() {
                    let i = choose|i: int| 0 <= i < u.len() && u[i] == a;
                    assert(s[i] == a);
                }
            }
        }
    }
}

/// Who the file is for, if it is a frame.
pub fn recipient_of(name: &str) -> (res: Option<&str>)
    ensures
        crate::text::slice_opt(res) == recipient(name@),
{
    match split_name(name) {
        Some((_, to)) => if is_address(to) {
            Some(to)
        } else {
            None
        },
        None => None,
    }
}

/// What stands before the first hyphen of a name, and what behind it.
fn split_name(name: &str) -> (res: Option<(&str, &str)>)
    ensures
        match res {
            Some((id, to)) => {
                &&& first_of(name@, '-') < name@.len()
                &&& id@ == name@.take(first_of(name@, '-') as int)
                &&& to@ == name@.skip(first_of(name@, '-') as int + 1)
            },
            None => first_of(name@, '-') >= name@.len(),
        },
{
    let cs = chars_of(name);
    let n: usize = cs.len();
    let mut i: usize = 0;
    while i < n && cs[i] != '-'
        invariant
            n == cs@.len(),
            i <= n,
            forall|j: int| 0 <= j < i ==> #[trigger] cs@[j] != '-',
        decreases n - i,
    {
        i = i + 1;
    }
    proof {
        lemma_first_of_at(name@, '-', i as int);
    }
    if i == n {
        None
    } else {
        assert(name@.subrange(0, i as int) =~= name@.take(i as int));
        assert(name@.subrange(i + 1, n as int) =~= name@.skip(i + 1));
        Some((name.substring_char(0, i), name.substring_char(i + 1, n)))
    }
}

/// Who the mail waiting to leave is for.
pub fn outbox_addresses(names: &Vec<String>) -> (res: Vec<String>)
    ensures
        texts(res@) == recipients_of(texts(names@)),
{
    let mut out: Vec<String> = Vec::new();
    let ghost all = texts(names@);
    assert(texts(out@) =~= recipients_of(all.take(0)));
    for i in 0..names.len()
        invariant
            all == texts(names@),
            texts(out@) == recipients_of(all.take(i as int)),
    {
        let ghost before = texts(out@);
        assert(all.take(i + 1).drop_last() =~= all.take(i as int));
        assert(all.take(i + 1).last() == names@[i as int]@);
        if let Some(to) = recipient_of(names[i].as_str()) {
            out.push(to.to_string());
            assert(texts(out@) =~= before.push(to@));
        }
    }
    assert(all.take(names@.len() as int) =~= all);
    out
}

/// Picking from one name more.
proof fn lemma_picked(names: Seq<Seq<char>>, i: int, wanted: spec_fn(Seq<char>) -> bool)
    requires
        0 <= i < names.len(),
    ensures
        names.take(i + 1).filter(wanted) == if wanted(names[i]) {
            names.take(i).filter(wanted).push(names[i])
        } else {
            names.take(i).filter(wanted)
        },
{
    reveal(Seq::filter);
    assert(names.take(i + 1).drop_last() =~= names.take(i));
}

/// What was picked is what was wanted, in whatever order.
proof fn lemma_all_wanted(
    names: Seq<Seq<char>>,
    res: Seq<Seq<char>>,
    wanted: spec_fn(Seq<char>) -> bool,
)
    requires
        res.to_multiset() == names.filter(wanted).to_multiset(),
    ensures
        forall|i: int| 0 <= i < res.len() ==> wanted(#[trigger] res[i]),
{
    let picked = names.filter(wanted);
    assert forall|i: int| 0 <= i < res.len() implies wanted(#[trigger] res[i]) by {
        assert(res.contains(res[i]));
        to_multiset_contains(res, res[i]);
        to_multiset_contains(picked, res[i]);
        let j = choose|j: int| 0 <= j < picked.len() && picked[j] == res[i];
        names.lemma_filter_pred(wanted, j);
    }
}

/// The frames waiting to leave, oldest first: the ids are ordered, and a
/// reader would rather see a conversation in the order it was written.
pub fn frames_waiting(names: &Vec<String>) -> (res: Vec<String>)
    ensures
        in_order(texts(res@)),
        texts(res@).to_multiset() == frames_in(texts(names@)).to_multiset(),
        forall|i: int| 0 <= i < res@.len() ==> recipient(#[trigger] texts(res@)[i]) is Some,
{
    let mut out: Vec<String> = Vec::new();
    let ghost all = texts(names@);
    let ghost is_frame = |n: Seq<char>| recipient(n) is Some;
    assert(texts(out@) =~= all.take(0).filter(is_frame)) by {
        reveal(Seq::filter);
    }
    for i in 0..names.len()
        invariant
            all == texts(names@),
            is_frame == (|n: Seq<char>| recipient(n) is Some),
            texts(out@) == all.take(i as int).filter(is_frame),
    {
        let ghost before = texts(out@);
        proof {
            lemma_picked(all, i as int, is_frame);
        }
        if recipient_of(names[i].as_str()).is_some() {
            out.push(names[i].clone());
            assert(texts(out@) =~= before.push(all[i as int]));
        }
    }
    let res = sort(&out);
    proof {
        assert(all.take(names@.len() as int) =~= all);
        lemma_all_wanted(all, texts(res@), is_frame);
    }
    res
}

/// The addresses this machine reads for, in order.
///
/// beb names each mailbox for the identity's key, so the spool already holds
/// exactly those addresses, and the only work is dropping what sits beside
/// them.
pub fn recipients(names: &Vec<String>) -> (res: Vec<String>)
    ensures
        in_order(texts(res@)),
        texts(res@).to_multiset() == addresses_in(texts(names@)).to_multiset(),
        forall|i: int| 0 <= i < res@.len() ==> address(#[trigger] texts(res@)[i]),
{
    let mut out: Vec<String> = Vec::new();
    let ghost all = texts(names@);
    let ghost is_addr = |n: Seq<char>| address(n);
    assert(texts(out@) =~= all.take(0).filter(is_addr)) by {
        reveal(Seq::filter);
    }
    for i in 0..names.len()
        invariant
            all == texts(names@),
            is_addr == (|n: Seq<char>| address(n)),
            texts(out@) == all.take(i as int).filter(is_addr),
    {
        let ghost before = texts(out@);
        proof {
            lemma_picked(all, i as int, is_addr);
        }
        if is_address(names[i].as_str()) {
            out.push(names[i].clone());
            assert(texts(out@) =~= before.push(all[i as int]));
        }
    }
    let res = sort(&out);
    proof {
        assert(all.take(names@.len() as int) =~= all);
        lemma_all_wanted(all, texts(res@), is_addr);
    }
    res
}

pub fn has_text(v: &Vec<String>, s: &str) -> (res: bool)
    ensures
        res == texts(v@).contains(s@),
{
    for i in 0..v.len()
        invariant
            forall|j: int| 0 <= j < i ==> texts(v@)[j] != s@,
    {
        if same(v[i].as_str(), s) {
            assert(texts(v@)[i as int] == s@);
            return true;
        }
    }
    false
}

/// Addresses sitting in the outbox that the table does not cover. A frame
/// with nowhere to go is otherwise silent, and reading the table alone cannot
/// tell.
pub fn stranded(routes: &[Route], waiting: &Vec<String>) -> (res: Vec<String>)
    ensures
        texts(res@) == uncovered(table_view(routes@), texts(waiting@)),
{
    let mut out: Vec<String> = Vec::new();
    let ghost all = texts(waiting@);
    let ghost t = table_view(routes@);
    assert(texts(out@) =~= uncovered(t, all.take(0)));
    for i in 0..waiting.len()
        invariant
            all == texts(waiting@),
            t == table_view(routes@),
            texts(out@) == uncovered(t, all.take(i as int)),
    {
        let ghost before = texts(out@);
        assert(all.take(i + 1).drop_last() =~= all.take(i as int));
        assert(all.take(i + 1).last() == waiting@[i as int]@);
        let to = waiting[i].as_str();
        if resolve(routes, to).is_none() && !has_text(&out, to) {
            out.push(to.to_string());
            assert(texts(out@) =~= before.push(to@));
        }
    }
    assert(all.take(waiting@.len() as int) =~= all);
    out
}

/// The first eight bytes of a string, or all of it.
pub fn head_of(s: &str) -> (res: &str)
    requires
        eight_is_whole(s@),
    ensures
        res@ == head(s@),
{
    let n: usize = s.as_bytes().len();
    let k: usize = if n < 8 {
        n
    } else {
        8
    };
    let (a, _) = s.split_at(k);
    proof {
        encode_utf8_decode_utf8(a@);
        assert(encode_utf8(a@) =~= encode_utf8(s@).subrange(0, k as int));
    }
    a
}

pub fn short(name: &str) -> (res: String)
    requires
        first_of(name@, '-') < name@.len() ==> eight_is_whole(
            name@.skip(first_of(name@, '-') as int + 1),
        ),
    ensures
        res@ == short_name(name@),
{
    match split_name(name) {
        Some((id, to)) => cat3(id, "-", head_of(to)),
        None => name.to_string(),
    }
}

// ---- what a name says ---------------------------------------------------------------

/// A file is a frame exactly if its name is an id without a hyphen, a hyphen
/// and an address, and is then for that address.
pub proof fn law_a_frame_is_named_for_its_recipient(name: Seq<char>, id: Seq<char>, a: Seq<char>)
    ensures
        !id.contains('-') && address(a) ==> recipient(id + "-"@ + a) == Some(a),
        recipient(name) matches Some(to) ==> {
            &&& address(to)
            &&& name.len() >= 65
            &&& name == name.take(name.len() - 65) + "-"@ + to
            &&& !name.take(name.len() - 65).contains('-')
        },
{
    reveal_strlit("-");
    if !id.contains('-') && address(a) {
        let s = id + "-"@ + a;
        assert forall|i: int| 0 <= i < id.len() implies #[trigger] s[i] != '-' by {
            assert(s[i] == id[i]);
            assert(id.contains(id[i]));
        }
        lemma_first_of_at(s, '-', id.len() as int);
        assert(s.skip(id.len() as int + 1) =~= a);
    }
    if recipient(name) is Some {
        let to = recipient(name).unwrap();
        crate::text::lemma_first_of(name, '-');
        let n = first_of(name, '-') as int;
        assert(n == name.len() - 65);
        assert(name =~= name.take(n) + "-"@ + to);
        let front = name.take(n);
        if front.contains('-') {
            let i = choose|i: int| 0 <= i < front.len() && front[i] == '-';
            assert(name[i] == '-');
        }
    }
}

/// A frame is spoken of by its id and the first eight characters of its
/// recipient.
pub proof fn law_a_frame_is_spoken_of_by_its_id(id: Seq<char>, a: Seq<char>)
    requires
        !id.contains('-'),
        address(a),
    ensures
        short_name(id + "-"@ + a) == id + "-"@ + a.take(8),
{
    reveal_strlit("-");
    let s = id + "-"@ + a;
    assert forall|i: int| 0 <= i < id.len() implies #[trigger] s[i] != '-' by {
        assert(s[i] == id[i]);
        assert(id.contains(id[i]));
    }
    lemma_first_of_at(s, '-', id.len() as int);
    assert(s.skip(id.len() as int + 1) =~= a);
    assert(s.take(id.len() as int) =~= id);
    lemma_head_of_address(a);
}

/// Who mail is waiting for: one entry for each frame, the recipient of that
/// frame, in the order of the frames.
pub proof fn law_one_entry_for_each_frame(names: Seq<Seq<char>>)
    ensures
        recipients_of(names).len() == frames_in(names).len(),
        forall|i: int|
            0 <= i < frames_in(names).len() ==> recipient(#[trigger] frames_in(names)[i]) == Some(
                recipients_of(names)[i],
            ),
    decreases names.len(),
{
    reveal(Seq::filter);
    let is_frame = |n: Seq<char>| recipient(n) is Some;
    if names.len() > 0 {
        let d = names.drop_last();
        law_one_entry_for_each_frame(d);
        let f = frames_in(d);
        assert forall|i: int| 0 <= i < frames_in(names).len() implies recipient(
            #[trigger] frames_in(names)[i],
        ) == Some(recipients_of(names)[i]) by {
            if i < f.len() {
                assert(frames_in(names)[i] == f[i]);
            }
        }
    }
}

/// One more name is one more mailbox if it is an address, and one more frame
/// if it has a recipient; whatever else lies there is neither.
pub proof fn law_one_more_name(names: Seq<Seq<char>>, n: Seq<char>)
    ensures
        addresses_in(Seq::empty()) == Seq::<Seq<char>>::empty(),
        frames_in(Seq::empty()) == Seq::<Seq<char>>::empty(),
        address(n) ==> addresses_in(names.push(n)) == addresses_in(names).push(n),
        !address(n) ==> addresses_in(names.push(n)) == addresses_in(names),
        recipient(n) is Some ==> frames_in(names.push(n)) == frames_in(names).push(n),
        recipient(n) is None ==> frames_in(names.push(n)) == frames_in(names),
{
    reveal(Seq::filter);
    assert(names.push(n).drop_last() =~= names);
}

/// Those without a route are named in the order in which they first come.
pub proof fn law_uncovered_in_order(t: Seq<RouteView>, waiting: Seq<Seq<char>>, a: Seq<char>)
    ensures
        uncovered(t, waiting).is_prefix_of(uncovered(t, waiting.push(a))),
{
    assert(waiting.push(a).drop_last() =~= waiting);
}

} // verus!
