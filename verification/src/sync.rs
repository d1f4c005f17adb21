//! One pass in both directions, and what it comes to.

use crate::compose::{cat2, cat3, cat4, join};
use crate::fail::{idle, nothing, refusal, refused, Fail, FailView};
use crate::number::{decimal, decimal_of};
use crate::place::{Place, PlaceView};
use crate::push::{Pass, PassView};
use crate::routes::{
    default_route, law_the_first_route_decides, place_for, table_view, Route, RouteView,
};
use crate::text::{
    contains, joined, law_a_part_stands_between, lemma_contains_within, lemma_joined_has,
    starts_with, texts,
};
use vstd::prelude::*;

verus! {

pub open spec fn text_result(r: Result<String, Fail>) -> Result<Seq<char>, FailView> {
    match r {
        Ok(s) => Ok(s@),
        Err(f) => Err(f@),
    }
}

/// A machine with no routes has nowhere to carry to.
pub fn must_have_routes(routes: &[Route], root: &str) -> (res: Result<(), Fail>)
    ensures
        match res {
            Ok(_) => routes@.len() > 0,
            Err(f) => routes@.len() == 0 && f@ == refusal(
                "nowhere to carry to: "@ + root@
                    + " has no routes\nbeb-courier route add ssh://host names one for everything"@,
            ),
        },
{
    if routes.len() == 0 {
        return Err(
            refused(
                cat3(
                    "nowhere to carry to: ",
                    root,
                    " has no routes\nbeb-courier route add ssh://host names one for everything",
                ),
            ),
        );
    }
    Ok(())
}

/// What a pass did not move, each kind once.
pub open spec fn trouble(p: PassView) -> Seq<Seq<char>> {
    let a = if p.refused_here > 0 {
        seq![decimal(p.refused_here) + " the far side would not take"@]
    } else {
        Seq::empty()
    };
    let b = if p.unroutable.len() > 0 {
        seq![decimal(p.unroutable.len()) + " with nowhere to go"@]
    } else {
        Seq::empty()
    };
    let c = if p.unreachable.len() > 0 {
        seq!["could not reach "@ + joined(p.unreachable, ", "@)]
    } else {
        Seq::empty()
    };
    a + b + c
}

/// A pass left nothing behind that it could have moved.
pub open spec fn untroubled(p: PassView) -> bool {
    p.refused_here == 0 && p.unroutable.len() == 0 && p.unreachable.len() == 0
}

/// What a pass and the `pulled` frames that came in come to. 3 when this
/// program declined to move something, 1 when only the network did: a refusal
/// is an answer and an unreachable host is not.
pub open spec fn synced(p: PassView, pulled: nat) -> Result<Seq<char>, FailView> {
    let moved = decimal(p.sent) + " sent, "@ + decimal(pulled) + " received"@;
    if !untroubled(p) {
        Err(
            FailView {
                code: if p.refused_here > 0 || p.unroutable.len() > 0 {
                    3
                } else {
                    1
                },
                msg: moved + ", "@ + joined(trouble(p), "; "@),
            },
        )
    } else if p.sent == 0 && pulled == 0 {
        Err(idle("nothing to send and nothing waiting"@))
    } else {
        Ok(moved)
    }
}

/// Everything that could move has moved; what did not is reported as trouble
/// rather than folded into a count, because a sync on a timer that quietly
/// leaves the same frames behind every run is one nobody looks at again.
pub fn cmd_sync(pass: &Pass, pulled: usize) -> (res: Result<String, Fail>)
    ensures
        text_result(res) == synced(pass@, pulled as nat),
{
    let mut wrong: Vec<String> = Vec::new();
    assert(texts(wrong@) =~= Seq::<Seq<char>>::empty());
    let ghost want = trouble(pass@);
    if pass.refused_here > 0 {
        wrong.push(
            cat2(
                decimal_of(pass.refused_here as u64).as_str(),
                " the far side would not take",
            ),
        );
    }
    if pass.unroutable.len() > 0 {
        wrong.push(
            cat2(decimal_of(pass.unroutable.len() as u64).as_str(), " with nowhere to go"),
        );
    }
    if pass.unreachable.len() > 0 {
        wrong.push(cat2("could not reach ", join(&pass.unreachable, ", ").as_str()));
    }
    assert(texts(wrong@) =~= want);
    let sent = decimal_of(pass.sent as u64);
    let received = decimal_of(pulled as u64);
    let moved = cat4(sent.as_str(), " sent, ", received.as_str(), " received");
    if wrong.len() > 0 {
        let code: u8 = if pass.refused_here > 0 || pass.unroutable.len() > 0 {
            3
        } else {
            1
        };
        return Err(
            Fail { code, msg: cat3(moved.as_str(), ", ", join(&wrong, "; ").as_str()) },
        );
    }
    if pass.sent == 0 && pulled == 0 {
        return Err(nothing("nothing to send and nothing waiting".to_string()));
    }
    Ok(moved)
}

/// What a sync does once its pass over the outbox is over.
#[derive(Debug)]
pub enum Step {
    /// Drain the place, once; what came in ends the sync.
    Drain(Place),
    /// Nothing shelves for this machine, so the sync is over, with this.
    Done(Result<String, Fail>),
}

/// The place that is drained once a pass is over, if one is.
pub open spec fn drained_after(t: Seq<RouteView>, p: PassView) -> Option<PlaceView> {
    place_for(t, None)
}

/// Collecting follows the pass, once, at the place that takes what is not
/// named and nowhere else.
pub fn after_push(routes: &[Route], pass: &Pass) -> (res: Step)
    ensures
        match (res, place_for(table_view(routes@), None)) {
            (Step::Drain(place), Some(p)) => place@ == p,
            (Step::Done(r), None) => text_result(r) == synced(pass@, 0),
            _ => false,
        },
        match (res, drained_after(table_view(routes@), pass@)) {
            (Step::Drain(place), Some(p)) => place@ == p,
            (Step::Done(_), None) => true,
            _ => false,
        },
{
    match default_route(routes) {
        Some(place) => Step::Drain(place.clone()),
        None => Step::Done(cmd_sync(pass, 0)),
    }
}

/// The exit code tells what happened: 3 if something was refused or had
/// nowhere to go, 1 if all that went wrong is a place that was not reached, 2
/// if there was nothing to do, and no failure exactly if something moved and
/// nothing was left behind.
pub proof fn law_the_exit_code_tells(p: PassView, pulled: nat)
    ensures
        ({
            let declined = p.refused_here > 0 || p.unroutable.len() > 0;
            let r = synced(p, pulled);
            &&& r is Ok <==> untroubled(p) && p.sent + pulled > 0
            &&& (r is Err && r->Err_0.code == 3) <==> declined
            &&& (r is Err && r->Err_0.code == 1) <==> !declined && p.unreachable.len() > 0
            &&& (r is Err && r->Err_0.code == 2) <==> untroubled(p) && p.sent + pulled == 0
        }),
{
}

/// Whatever a sync comes to, but for having nothing to do, it says first how
/// much was sent and received; what was refused, had nowhere to go or was not
/// reached is said where there is any, each place by name.
pub proof fn law_a_sync_says_what_moved_and_what_did_not(p: PassView, pulled: nat, i: int)
    ensures
        ({
            let r = synced(p, pulled);
            let moved = decimal(p.sent) + " sent, "@ + decimal(pulled) + " received"@;
            &&& r matches Ok(s) ==> s == moved
            &&& r is Err && r->Err_0.code != 2 ==> {
                let m = r->Err_0.msg;
                &&& starts_with(m, moved)
                &&& p.refused_here > 0 ==> contains(
                    m,
                    decimal(p.refused_here) + " the far side would not take"@,
                )
                &&& p.unroutable.len() > 0 ==> contains(
                    m,
                    decimal(p.unroutable.len()) + " with nowhere to go"@,
                )
                &&& 0 <= i < p.unreachable.len() ==> contains(m, p.unreachable[i])
            }
        }),
{
    let moved = decimal(p.sent) + " sent, "@ + decimal(pulled) + " received"@;
    let r = synced(p, pulled);
    if r is Err && r->Err_0.code != 2 {
        let t = trouble(p);
        let j = joined(t, "; "@);
        let none: Seq<char> = Seq::empty();
        let m = moved + ", "@ + j;
        assert(m.take(moved.len() as int) =~= moved);
        assert((moved + ", "@) + j + none =~= m);
        if p.refused_here > 0 {
            assert(t[0] == decimal(p.refused_here) + " the far side would not take"@);
            lemma_joined_has(t, "; "@, 0);
            lemma_contains_within(moved + ", "@, j, none, t[0]);
        }
        let k: int = if p.refused_here > 0 {
            1
        } else {
            0
        };
        if p.unroutable.len() > 0 {
            assert(t[k] == decimal(p.unroutable.len()) + " with nowhere to go"@);
            lemma_joined_has(t, "; "@, k);
            lemma_contains_within(moved + ", "@, j, none, t[k]);
        }
        let n: int = if p.unroutable.len() > 0 {
            k + 1
        } else {
            k
        };
        if 0 <= i < p.unreachable.len() {
            let u = joined(p.unreachable, ", "@);
            assert(t[n] == "could not reach "@ + u);
            lemma_joined_has(p.unreachable, ", "@, i);
            lemma_contains_within("could not reach "@, u, none, p.unreachable[i]);
            assert("could not reach "@ + u + none =~= t[n]);
            lemma_joined_has(t, "; "@, n);
            let front = choose|a: Seq<char>, b: Seq<char>| j == #[trigger] (a + t[n] + b);
            law_a_part_stands_between(j, t[n]);
            lemma_contains_within(front.0, t[n], front.1, p.unreachable[i]);
            lemma_contains_within(moved + ", "@, j, none, p.unreachable[i]);
        }
    }
}

/// Collecting follows the pass wherever some route takes what is not named, at
/// the place of that route, and whatever the pass came to; otherwise the sync
/// is over.
pub proof fn law_collecting_follows_every_pass(t: Seq<RouteView>, p: PassView)
    ensures
        drained_after(t, p) is None <==> forall|i: int|
            0 <= i < t.len() ==> (#[trigger] t[i]).addr is Some,
        drained_after(t, p) matches Some(place) ==> exists|i: int|
            0 <= i < t.len() && (#[trigger] t[i]).addr is None && t[i].place == place,
{
    law_the_first_route_decides(t, None);
}

} // verus!
