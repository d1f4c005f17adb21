//! Saying at the place that shelves whom this machine collects for.
//!
//! A new identity says so itself, in its own signature, over the connection
//! there already is. Giving a claim up asserts nothing about an identity, so
//! it needs no signature: a courier can only ever remove its own.

use crate::command::{asked, CommandView};
use crate::compose::{cat2, cat3, cat4};
use crate::fail::{mistake, refusal, refused, Fail, FailView};
use crate::handover::lemma_address_is_a_line;
use crate::place::{place_text, show, Place};
use crate::routes::{
    abridged, address, default_route, is_address, place_for, table_view, trim_to, Route,
};
use crate::ssh::{probe, probed, Probe, ProbeView};
use crate::sync::text_result;
use crate::text::{
    has_prefix, lines, slices, split_lines, split_words, starts_with, texts, trim, trimmed, words,
};
use vstd::prelude::*;

verus! {

/// The address in a text, `how` being how one is given.
pub open spec fn address_in(text: Seq<char>, how: Seq<char>) -> Result<Seq<char>, FailView> {
    if address(trim(text)) {
        Ok(trim(text))
    } else {
        Err(refusal("\""@ + abridged(trim(text), 24) + "\" is not an address; "@ + how))
    }
}

fn address_given(text: &str, how: &str) -> (res: Result<String, Fail>)
    ensures
        text_result(res) == address_in(text@, how@),
{
    let t = trimmed(text);
    if is_address(t) {
        Ok(t.to_string())
    } else {
        Err(
            refused(cat4("\"", trim_to(t, 24).as_str(), "\" is not an address; ", how)),
        )
    }
}

/// The address that `register` reads from its input. A courier is told it: it
/// does not ask beb who lives here.
pub fn address_to_register(input: &str) -> (res: Result<String, Fail>)
    ensures
        text_result(res) == address_in(
            input@,
            "it comes from stdin: beb whoami | beb-courier register"@,
        ),
{
    address_given(input, "it comes from stdin: beb whoami | beb-courier register")
}

/// The address that `unregister` names. It is named rather than worked out
/// from what is missing: a grant is dropped by saying so, never by inference.
pub fn address_to_unregister(what: &str) -> (res: Result<String, Fail>)
    ensures
        text_result(res) == address_in(what@, "beb-courier unregister ADDRESS"@),
{
    address_given(what, "beb-courier unregister ADDRESS")
}

/// The place that shelves for this machine, which is the only one that hands
/// anything back.
pub fn shelves_at(routes: &[Route]) -> (res: Result<&Place, Fail>)
    ensures
        match (res, place_for(table_view(routes@), None)) {
            (Ok(place), Some(p)) => place@ == p,
            (Err(f), None) => f@ == refusal(
                "nothing shelves for this machine, so there is nowhere to collect\nbeb-courier route add ssh://host names a place for everything"@,
            ),
            _ => false,
        },
{
    match default_route(routes) {
        Some(p) => Ok(p),
        None => Err(
            refused(
                "nothing shelves for this machine, so there is nowhere to collect\nbeb-courier route add ssh://host names a place for everything".to_string(),
            ),
        ),
    }
}

/// The fingerprint in what ssh-keygen printed of a key: its second word.
pub open spec fn fingerprint_in(out: Seq<char>) -> Option<Seq<char>> {
    let w = words(out);
    if w.len() >= 2 && starts_with(w[1], "SHA256:"@) {
        Some(w[1])
    } else {
        None
    }
}

/// The fingerprint in what ssh-keygen printed of a key, or what it said
/// instead.
pub fn fingerprint(out: &str, said: &str) -> (res: Result<String, Fail>)
    ensures
        text_result(res) == match fingerprint_in(out@) {
            Some(f) => Ok::<Seq<char>, FailView>(f),
            None => Err(mistake("ssh-keygen: "@ + trim(said@))),
        },
{
    let w = split_words(out);
    let ghost all = slices(w@);
    if w.len() >= 2 {
        assert(all[1] == w@[1]@);
        if has_prefix(w[1], "SHA256:") {
            return Ok(w[1].to_string());
        }
    }
    Err(Fail::from(cat2("ssh-keygen: ", trimmed(said))))
}

/// The one sentence that the far side has to believe: that the address
/// authorises this courier's key.
pub fn claim(address: &str, fingerprint: &str) -> (res: String)
    ensures
        res@ == address@ + " authorises "@ + fingerprint@,
{
    cat3(address, " authorises ", fingerprint)
}

/// What beb is asked for, to have a claim signed: in a namespace of its own,
/// so that the signature of an envelope is never one on a claim.
pub fn sign_args() -> (res: Vec<String>)
    ensures
        texts(res@) == seq!["sign"@, "beb-collect"@],
{
    let mut out: Vec<String> = Vec::new();
    out.push("sign".to_string());
    out.push("beb-collect".to_string());
    assert(texts(out@) =~= seq!["sign"@, "beb-collect"@]);
    out
}

/// What beb's answer to a claim comes to: the signed claim, which is what it
/// printed, or why it would not sign.
pub fn signed(success: bool, printed: Vec<u8>, said: &str) -> (res: Result<Vec<u8>, Fail>)
    ensures
        match res {
            Ok(claim) => success && claim@ == printed@,
            Err(f) => !success && f@ == mistake("beb would not sign: "@ + trim(said@)),
        },
{
    if success {
        Ok(printed)
    } else {
        Err(Fail::from(cat2("beb would not sign: ", trimmed(said))))
    }
}

/// What the place's answer comes to: `done`, or why not. 255 is ssh itself.
pub open spec fn settled(
    success: bool,
    code: Option<i32>,
    said: Seq<char>,
    place: Seq<char>,
    done: Seq<char>,
) -> Result<Seq<char>, FailView> {
    if success {
        Ok(done)
    } else {
        match probed(code, said) {
            ProbeView::Unreachable(why) => Err(mistake("cannot reach "@ + place + ": "@ + why)),
            ProbeView::Answered => Err(refusal(place + " would not: "@ + trim(said))),
        }
    }
}

fn settle(success: bool, code: Option<i32>, said: String, place: &str, done: String) -> (res: Result<
    String,
    Fail,
>)
    ensures
        text_result(res) == settled(success, code, said@, place@, done@),
{
    if success {
        return Ok(done);
    }
    let refusal = cat3(place, " would not: ", trimmed(said.as_str()));
    match probe(Ok((code, said))) {
        Probe::Unreachable(why) => Err(
            Fail::from(cat4("cannot reach ", place, ": ", why.as_str())),
        ),
        Probe::Answered => Err(refused(refusal)),
    }
}

/// Judges the place's answer to a claim.
pub fn registered(success: bool, code: Option<i32>, said: String, place: &Place) -> (res: Result<
    String,
    Fail,
>)
    ensures
        text_result(res) == settled(
            success,
            code,
            said@,
            place_text(place@),
            "registered at "@ + place_text(place@) + "; mail for it arrives here now"@,
        ),
{
    let at = show(place);
    let done = cat3("registered at ", at.as_str(), "; mail for it arrives here now");
    settle(success, code, said, at.as_str(), done)
}

/// Judges the place's answer to a claim given up.
pub fn unregistered(success: bool, code: Option<i32>, said: String, place: &Place) -> (res: Result<
    String,
    Fail,
>)
    ensures
        text_result(res) == settled(
            success,
            code,
            said@,
            place_text(place@),
            "unregistered at "@ + place_text(place@),
        ),
{
    let at = show(place);
    let done = cat2("unregistered at ", at.as_str());
    settle(success, code, said, at.as_str(), done)
}

/// The addresses among the lines of a text.
pub open spec fn addresses_on(ls: Seq<Seq<char>>) -> Seq<Seq<char>>
    decreases ls.len(),
{
    if ls.len() == 0 {
        Seq::empty()
    } else if address(trim(ls.last())) {
        addresses_on(ls.drop_last()).push(trim(ls.last()))
    } else {
        addresses_on(ls.drop_last())
    }
}

/// The addresses that a place says it grants, a line each.
pub fn grants_listed(text: &str) -> (res: Vec<String>)
    ensures
        texts(res@) == addresses_on(lines(text@)),
{
    let ls = split_lines(text);
    let ghost all = lines(text@);
    let mut out: Vec<String> = Vec::new();
    assert(texts(out@) =~= addresses_on(all.take(0)));
    for i in 0..ls.len()
        invariant
            all == lines(text@),
            all == slices(ls@),
            texts(out@) == addresses_on(all.take(i as int)),
    {
        let ghost before = texts(out@);
        assert(all.take(i + 1).drop_last() =~= all.take(i as int));
        assert(all.take(i + 1).last() == ls@[i as int]@);
        let l = trimmed(ls[i]);
        if is_address(l) {
            out.push(l.to_string());
            assert(texts(out@) =~= before.push(l@));
        }
    }
    assert(all.take(ls@.len() as int) =~= all);
    out
}

/// What is said to be done about a stale grant can be done: the command is
/// understood, and the address in it is the one that is given up.
pub proof fn law_a_stale_grant_can_be_given_up(a: Seq<char>, how: Seq<char>)
    requires
        address(a),
    ensures
        asked(seq!["unregister"@, a]) == Ok::<CommandView, FailView>(CommandView::Unregister(a)),
        address_in(a, how) == Ok::<Seq<char>, FailView>(a),
{
    reveal_strlit("unregister");
    reveal_strlit("init");
    reveal_strlit("whoami");
    reveal_strlit("route");
    reveal_strlit("authorize");
    reveal_strlit("register");
    let verb = "unregister"@;
    assert(verb[0] == 'u');
    assert("init"@[0] == 'i' && "whoami"@[0] == 'w' && "route"@[0] == 'r');
    assert("authorize"@[0] == 'a' && "register"@[0] == 'r');
    let rest = seq![verb, a].skip(1);
    assert(rest =~= seq![a]);
    lemma_address_is_a_line(a);
}

/// What is registered or given up is the address that was said, whatever
/// whitespace is around it, and nothing but an address is taken.
pub proof fn law_an_address_is_taken_as_it_was_said(text: Seq<char>, how: Seq<char>)
    ensures
        address_in(text, how) is Ok <==> address(trim(text)),
        address_in(text, how) matches Ok(a) ==> a == trim(text),
        address_in(text, how) matches Err(f) ==> {
            &&& f.code == 3
            &&& starts_with(f.msg, "\""@ + abridged(trim(text), 24))
            &&& f.msg.skip(f.msg.len() - how.len()) == how
        },
{
    if let Err(f) = address_in(text, how) {
        let p = "\""@ + abridged(trim(text), 24);
        assert(f.msg.take(p.len() as int) =~= p);
        assert(f.msg.skip(f.msg.len() - how.len()) =~= how);
    }
}

/// A claim is settled exactly if the place agreed. Otherwise it is said why:
/// that the place was not reached, where ssh failed or nothing came back, and
/// what it said where it would not, which is a refusal.
pub proof fn law_a_claim_is_settled_by_the_place(
    success: bool,
    code: Option<i32>,
    said: Seq<char>,
    place: Seq<char>,
    done: Seq<char>,
)
    ensures
        ({
            let r = settled(success, code, said, place, done);
            let heard = code is Some && code.unwrap() != 255;
            &&& r is Ok <==> success
            &&& r matches Ok(s) ==> s == done
            &&& r matches Err(f) ==> {
                &&& heard ==> f.code == 3 && f.msg == place + " would not: "@ + trim(said)
                &&& !heard ==> f.code == 1 && starts_with(f.msg, "cannot reach "@ + place + ": "@)
                &&& !heard && trim(said).len() > 0 ==> f.msg == "cannot reach "@ + place + ": "@
                    + trim(said)
            }
        }),
{
    let r = settled(success, code, said, place, done);
    let p = "cannot reach "@ + place + ": "@;
    if r is Err && !(code is Some && code.unwrap() != 255) {
        assert(r->Err_0.msg.take(p.len() as int) =~= p);
    }
}

/// A place grants what it lists as addresses, a line each, in its order;
/// whatever else it says is passed over.
pub proof fn law_grants_are_the_addresses_listed(ls: Seq<Seq<char>>)
    ensures
        addresses_on(ls) == ls.map_values(|l: Seq<char>| trim(l)).filter(
            |l: Seq<char>| address(l),
        ),
    decreases ls.len(),
{
    reveal(Seq::filter);
    let all = ls.map_values(|l: Seq<char>| trim(l));
    if ls.len() > 0 {
        law_grants_are_the_addresses_listed(ls.drop_last());
        assert(all.drop_last() =~= ls.drop_last().map_values(|l: Seq<char>| trim(l)));
    }
}

/// The fingerprint of a key is the second word of what ssh-keygen printed,
/// where that is one.
pub proof fn law_a_fingerprint_is_the_second_word(out: Seq<char>, f: Seq<char>)
    ensures
        fingerprint_in(out) == Some(f) <==> words(out).len() >= 2 && words(out)[1] == f
            && starts_with(f, "SHA256:"@),
{
}

} // verus!
