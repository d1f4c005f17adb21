//! Both directions until stopped: what is said and how long is slept between
//! one turn and the next.

use crate::compose::cat2;
use crate::fail::{Fail, FailView};
use crate::held::{
    double, doubled, is_backoff, law_backing_off_doubles_to_a_minute, nth_wait, BACKOFF_MAX,
    BACKOFF_MIN,
};
use crate::number::{decimal, decimal_of};
use crate::place::{place_text, show};
use crate::push::{Pass, PassView};
use crate::routes::{default_route, place_for, table_view, Route};
use crate::text::text_opt;
use vstd::arithmetic::power2::pow2;
use vstd::prelude::*;

verus! {

/// How often `carry` looks in the outbox, in nanoseconds.
///
/// A poll, and cheap: looking in an empty outbox costs next to nothing
/// against the one handshake it exists to trigger, and nothing connects on an
/// empty outbox.
pub const OUTBOX_POLL: u64 = 250_000_000;

/// One turn is over: what to say, and how long to sleep before the next, in
/// nanoseconds.
#[derive(Debug)]
pub struct Rest {
    pub note: Option<String>,
    pub sleep: u64,
}

/// What `carry` says as it starts.
pub fn carry_note(routes: &[Route]) -> (res: String)
    ensures
        res@ == match place_for(table_view(routes@), None) {
            Some(p) => "carrying both ways, collecting from "@ + place_text(p),
            None => "carrying outbound only, since nothing shelves for you\nmail still lands the moment a peer drops it in"@,
        },
{
    match default_route(routes) {
        Some(p) => cat2("carrying both ways, collecting from ", show(p).as_str()),
        None => "carrying outbound only, since nothing shelves for you\nmail still lands the moment a peer drops it in".to_string(),
    }
}

/// The wait between turns: a second at first, twice as long after each turn
/// that gives a reason to back off, up to a minute.
pub struct Backoff {
    wait: u64,
}

impl View for Backoff {
    type V = u64;

    closed spec fn view(&self) -> u64 {
        self.wait
    }
}

/// A pass left something behind that will be left behind every time it is
/// offered.
pub open spec fn stuck(p: PassView) -> bool {
    p.refused_here > 0 || p.unroutable.len() > 0
}

/// How long is slept after a pass, and the wait from then on: a pass that is
/// stuck sleeps the wait and doubles it, any other starts over.
pub open spec fn after_pass(wait: u64, is_stuck: bool) -> (u64, u64) {
    if is_stuck {
        (wait, doubled(wait))
    } else {
        (OUTBOX_POLL, BACKOFF_MIN)
    }
}

/// How long is slept after a connection that ended, and the wait from then
/// on: one that brought something starts over first.
pub open spec fn after_connection(wait: u64, brought: bool) -> (u64, u64) {
    let sleep = if brought {
        BACKOFF_MIN
    } else {
        wait
    };
    (sleep, doubled(sleep))
}

/// What a connection that ended with `got` comes to: what is said, how long is
/// slept and the wait from then on, or that no other is made.
pub open spec fn after_collecting(wait: u64, got: Result<nat, FailView>) -> Result<
    (Option<Seq<char>>, u64, u64),
    FailView,
> {
    match got {
        Ok(n) => {
            let (sleep, next) = after_connection(wait, n > 0);
            Ok((None, sleep, next))
        },
        Err(f) => if f.code == 3 {
            Err(f)
        } else {
            let (sleep, next) = after_connection(wait, false);
            Ok((Some(f.msg), sleep, next))
        },
    }
}

pub open spec fn count_result(r: Result<usize, Fail>) -> Result<nat, FailView> {
    match r {
        Ok(n) => Ok(n as nat),
        Err(f) => Err(f@),
    }
}

/// What is said of a pass.
pub open spec fn pass_note(p: PassView) -> Option<Seq<char>> {
    if p.sent > 0 {
        Some(decimal(p.sent) + " sent"@)
    } else {
        None
    }
}

impl Backoff {
    pub open spec fn wf(&self) -> bool {
        is_backoff(self@)
    }

    pub fn new() -> (res: Backoff)
        ensures
            res.wf(),
            res@ == BACKOFF_MIN,
    {
        Backoff { wait: BACKOFF_MIN }
    }

    /// Sleeps the wait, and doubles the next.
    fn back_off(&mut self) -> (res: u64)
        requires
            old(self).wf(),
        ensures
            final(self).wf(),
            res == old(self)@,
            final(self)@ == doubled(old(self)@),
    {
        let wait: u64 = self.wait;
        self.wait = double(wait);
        wait
    }

    /// Nothing shelves for this machine, so there is nothing to hold a
    /// connection to. It is looked at again, since such a route may be added.
    pub fn nowhere_to_collect(&self) -> (res: Rest)
        ensures
            res.sleep == BACKOFF_MAX,
            res.note is None,
    {
        Rest { note: None, sleep: BACKOFF_MAX }
    }

    /// A connection to collect over has ended, with `got` frames or a
    /// failure. A connection that ended is not one with nothing to do, so it
    /// is made again; a refusal is about that place's answer and will not
    /// change by asking again.
    pub fn collected(&mut self, got: Result<usize, Fail>) -> (res: Result<Rest, Fail>)
        requires
            old(self).wf(),
        ensures
            final(self).wf(),
            match (got, res) {
                (Ok(n), Ok(r)) => {
                    &&& r.note is None
                    &&& (r.sleep, final(self)@) == after_connection(old(self)@, n > 0)
                },
                (Err(f), Ok(r)) => {
                    &&& f.code != 3
                    &&& text_opt(r.note) == Some(f.msg@)
                    &&& (r.sleep, final(self)@) == after_connection(old(self)@, false)
                },
                (Err(f), Err(g)) => f.code == 3 && g == f && final(self)@ == old(self)@,
                _ => false,
            },
            match (res, after_collecting(old(self)@, count_result(got))) {
                (Ok(r), Ok((note, sleep, next))) => {
                    &&& text_opt(r.note) == note
                    &&& r.sleep == sleep
                    &&& final(self)@ == next
                },
                (Err(f), Err(g)) => f@ == g,
                _ => false,
            },
    {
        match got {
            Ok(n) => {
                if n > 0 {
                    self.wait = BACKOFF_MIN;
                }
                Ok(Rest { note: None, sleep: self.back_off() })
            },
            Err(f) => {
                if f.code == 3 {
                    return Err(f);
                }
                Ok(Rest { note: Some(f.msg), sleep: self.back_off() })
            },
        }
    }

    /// A pass over the outbox is over. A place that cannot be reached is held
    /// off by itself, so the rest of the outbox keeps moving at poll speed. A
    /// frame that is refused, or has nowhere to go, would be so every time it
    /// is offered, so the pass itself quiets down while anything is stuck.
    pub fn pushed(&mut self, pass: &Pass) -> (res: Rest)
        requires
            old(self).wf(),
        ensures
            final(self).wf(),
            text_opt(res.note) == if pass@.sent > 0 {
                Some(decimal(pass@.sent) + " sent"@)
            } else {
                None
            },
            text_opt(res.note) == pass_note(pass@),
            (res.sleep, final(self)@) == after_pass(old(self)@, stuck(pass@)),
            pass.refused_here > 0 || pass.unroutable@.len() > 0 ==> res.sleep == old(self)@
                && final(self)@ == doubled(old(self)@),
            pass.refused_here == 0 && pass.unroutable@.len() == 0 ==> res.sleep == OUTBOX_POLL
                && final(self)@ == BACKOFF_MIN,
    {
        let note = if pass.sent > 0 {
            Some(cat2(decimal_of(pass.sent as u64).as_str(), " sent"))
        } else {
            None
        };
        if pass.refused_here > 0 || pass.unroutable.len() > 0 {
            Rest { note, sleep: self.back_off() }
        } else {
            self.wait = BACKOFF_MIN;
            Rest { note, sleep: OUTBOX_POLL }
        }
    }

    /// The table could not be read, or a pass over the outbox stopped.
    pub fn failed(&mut self, f: Fail) -> (res: Rest)
        requires
            old(self).wf(),
        ensures
            final(self).wf(),
            text_opt(res.note) == Some(f.msg@),
            (res.sleep, final(self)@) == after_pass(old(self)@, true),
    {
        Rest { note: Some(f.msg), sleep: self.back_off() }
    }
}

// ---- turn after turn ------------------------------------------------------------

/// The wait after the passes, each of them stuck or not. A pass over a table
/// that cannot be read, and one that stopped, are stuck.
pub open spec fn wait_after_passes(passes: Seq<bool>) -> u64
    decreases passes.len(),
{
    if passes.len() == 0 {
        BACKOFF_MIN
    } else {
        after_pass(wait_after_passes(passes.drop_last()), passes.last()).1
    }
}

/// How many of the passes at the end are stuck, in a row.
pub open spec fn stuck_in_a_row(passes: Seq<bool>) -> nat
    decreases passes.len(),
{
    if passes.len() > 0 && passes.last() {
        stuck_in_a_row(passes.drop_last()) + 1
    } else {
        0
    }
}

proof fn lemma_wait_after_passes(passes: Seq<bool>)
    ensures
        wait_after_passes(passes) == nth_wait(stuck_in_a_row(passes)),
    decreases passes.len(),
{
    if passes.len() > 0 {
        lemma_wait_after_passes(passes.drop_last());
    }
}

/// The `k`th stuck pass in a row is followed by 2^(k-1) seconds, but no more
/// than a minute; any other pass by a quarter of a second, and the count
/// starts over.
pub proof fn law_the_nth_stuck_pass(passes: Seq<bool>)
    requires
        passes.len() > 0,
    ensures
        ({
            let k = stuck_in_a_row(passes);
            let sleep = after_pass(
                wait_after_passes(passes.drop_last()),
                passes.last(),
            ).0;
            &&& k == 0 <==> !passes.last()
            &&& k == 0 ==> sleep == OUTBOX_POLL && wait_after_passes(passes) == BACKOFF_MIN
            &&& k > 0 ==> sleep == nth_wait((k - 1) as nat)
            &&& 0 < k <= 6 ==> sleep == pow2((k - 1) as nat) * BACKOFF_MIN
            &&& k > 6 ==> sleep == BACKOFF_MAX
        }),
{
    lemma_wait_after_passes(passes.drop_last());
    let k = stuck_in_a_row(passes);
    if k > 0 {
        law_backing_off_doubles_to_a_minute((k - 1) as nat);
    }
}

/// The wait after the connections, each of which brought something or not.
pub open spec fn wait_after_connections(turns: Seq<bool>) -> u64
    decreases turns.len(),
{
    if turns.len() == 0 {
        BACKOFF_MIN
    } else {
        after_connection(wait_after_connections(turns.drop_last()), turns.last()).1
    }
}

/// How many connections there were since the last that brought something,
/// counting that one, or since the first.
pub open spec fn since_something_came(turns: Seq<bool>) -> nat
    decreases turns.len(),
{
    if turns.len() == 0 {
        0
    } else if turns.last() {
        1
    } else {
        since_something_came(turns.drop_last()) + 1
    }
}

proof fn lemma_wait_after_connections(turns: Seq<bool>)
    ensures
        wait_after_connections(turns) == nth_wait(since_something_came(turns)),
    decreases turns.len(),
{
    reveal_with_fuel(nth_wait, 2);
    if turns.len() > 0 {
        lemma_wait_after_connections(turns.drop_last());
    }
}

/// The connections after one that brought something are a second apart at
/// first, then twice as long each time, up to a minute.
pub proof fn law_connections_back_off(turns: Seq<bool>)
    requires
        turns.len() > 0,
    ensures
        after_connection(wait_after_connections(turns.drop_last()), turns.last()).0 == nth_wait(
            (since_something_came(turns) - 1) as nat,
        ),
{
    lemma_wait_after_connections(turns.drop_last());
}

/// A pass backs off exactly if it refused a frame or left an address with
/// nowhere to go, however many: it then sleeps the wait so far, and the next
/// is twice as long, up to a minute. Every other pass, whatever it could not
/// reach, is followed by a quarter of a second, and the wait starts over.
pub proof fn law_a_pass_backs_off_while_anything_is_stuck(p: PassView, wait: u64)
    requires
        is_backoff(wait),
    ensures
        ({
            let (sleep, next) = after_pass(wait, stuck(p));
            &&& p.refused_here > 0 || p.unroutable.len() > 0 ==> {
                &&& sleep == wait
                &&& wait <= 30_000_000_000 ==> next == 2 * wait
                &&& wait > 30_000_000_000 ==> next == 60_000_000_000
            }
            &&& p.refused_here == 0 && p.unroutable.len() == 0 ==> sleep == 250_000_000 && next
                == 1_000_000_000
        }),
{
}

/// A connection that brought something is made again in a second; one that
/// brought nothing or failed after the wait so far. The wait after it is
/// twice what was slept, up to a minute.
pub proof fn law_a_connection_backs_off_until_something_comes(wait: u64, brought: bool)
    requires
        is_backoff(wait),
    ensures
        ({
            let (sleep, next) = after_connection(wait, brought);
            &&& brought ==> sleep == 1_000_000_000
            &&& !brought ==> sleep == wait
            &&& sleep <= 30_000_000_000 ==> next == 2 * sleep
            &&& sleep > 30_000_000_000 ==> next == 60_000_000_000
        }),
{
}

/// A connection that was refused is not made again, and no other end stops
/// the next: it is made after the wait, and what went wrong is said where
/// something did.
pub proof fn law_only_a_refusal_stops_collecting(wait: u64, got: Result<nat, FailView>)
    requires
        is_backoff(wait),
    ensures
        ({
            let r = after_collecting(wait, got);
            &&& r is Err <==> (got matches Err(f) && f.code == 3)
            &&& r matches Err(g) ==> got == Err::<nat, FailView>(g)
            &&& r matches Ok((note, sleep, next)) ==> {
                &&& note is None <==> got is Ok
                &&& got matches Err(f) ==> note == Some(f.msg)
                &&& (got matches Ok(n) && n > 0) ==> sleep == 1_000_000_000
                &&& (got is Err || got == Ok::<nat, FailView>(0)) ==> sleep == wait
                &&& sleep <= 30_000_000_000 ==> next == 2 * sleep
                &&& sleep > 30_000_000_000 ==> next == 60_000_000_000
            }
        }),
{
}

/// A pass says how many frames it sent exactly if it sent any.
pub proof fn law_a_pass_says_what_it_sent(p: PassView)
    ensures
        pass_note(p) is Some <==> p.sent > 0,
        p.sent > 0 ==> pass_note(p) == Some(decimal(p.sent) + " sent"@),
{
}

} // verus!
