//! How long to leave a place alone.

use vstd::arithmetic::power2::{lemma2_to64, pow2};
use vstd::hash_map::StringHashMap;
use vstd::prelude::*;

verus! {

/// The first wait, in nanoseconds: one second.
pub const BACKOFF_MIN: u64 = 1_000_000_000;

/// The wait that doubling backs off to, in nanoseconds: one minute.
///
/// A place that is down is a place somebody is fixing. Doubling from a second
/// to a minute reconnects promptly after a blip and quietly after an outage.
pub const BACKOFF_MAX: u64 = 60_000_000_000;

/// A wait, and the moment it ends, counted in nanoseconds.
pub struct Wait {
    pub until: u64,
    pub wait: u64,
}

/// Twice as long, but no longer than the ceiling.
pub open spec fn doubled(wait: u64) -> u64 {
    if wait * 2 <= BACKOFF_MAX {
        (wait * 2) as u64
    } else {
        BACKOFF_MAX
    }
}

/// A wait that backing off comes to.
pub open spec fn is_backoff(wait: u64) -> bool {
    BACKOFF_MIN <= wait <= BACKOFF_MAX
}

pub fn double(wait: u64) -> (res: u64)
    requires
        is_backoff(wait),
    ensures
        res == doubled(wait),
        is_backoff(res),
{
    if wait * 2 <= BACKOFF_MAX {
        wait * 2
    } else {
        BACKOFF_MAX
    }
}

/// How long to leave a place alone, per place.
///
/// A place inside its wait is skipped rather than dialled: one sleeping
/// laptop would otherwise stall the whole outbox behind its connect timeout.
/// The wait says when to look again, and never to give up.
pub struct Held {
    waits: StringHashMap<Wait>,
}

impl View for Held {
    type V = Map<Seq<char>, Wait>;

    closed spec fn view(&self) -> Map<Seq<char>, Wait> {
        self.waits@
    }
}

/// The wait that a place gets when it is found down again, or for the first
/// time.
pub open spec fn next_wait(held: Map<Seq<char>, Wait>, place: Seq<char>) -> u64 {
    if held.contains_key(place) {
        doubled(held[place].wait)
    } else {
        BACKOFF_MIN
    }
}

/// The place is inside its wait.
pub open spec fn waits(held: Map<Seq<char>, Wait>, place: Seq<char>, now: u64) -> bool {
    held.contains_key(place) && now < held[place].until
}

/// The waits once the place was not reached.
pub open spec fn put_off(held: Map<Seq<char>, Wait>, place: Seq<char>, now: u64) -> Map<
    Seq<char>,
    Wait,
> {
    let wait = next_wait(held, place);
    held.insert(place, Wait { until: (now + wait) as u64, wait })
}

impl Held {
    /// Every wait is one that backing off comes to.
    pub open spec fn wf(&self) -> bool {
        forall|p: Seq<char>| #[trigger] self@.contains_key(p) ==> is_backoff(self@[p].wait)
    }

    pub fn new() -> (res: Held)
        ensures
            res.wf(),
            res@ == Map::<Seq<char>, Wait>::empty(),
    {
        Held { waits: StringHashMap::new() }
    }

    /// Every wait is between a second and a minute, and so is the next one of
    /// every place.
    pub proof fn law_every_wait_is_between_a_second_and_a_minute(&self, place: Seq<char>)
        requires
            self.wf(),
        ensures
            self@.contains_key(place) ==> is_backoff(self@[place].wait),
            is_backoff(next_wait(self@, place)),
    {
    }

    /// Whether the place is still inside its wait.
    pub fn waiting(&self, place: &str, now: u64) -> (res: bool)
        ensures
            res == waits(self@, place@, now),
    {
        match self.waits.get(place) {
            Some(w) => now < w.until,
            None => false,
        }
    }

    /// The place was not reached: leave it alone, for twice as long as the
    /// last time.
    pub fn down(&mut self, place: &str, now: u64)
        requires
            old(self).wf(),
            now + next_wait(old(self)@, place@) <= u64::MAX,
        ensures
            final(self).wf(),
            final(self)@ == put_off(old(self)@, place@, now),
    {
        let wait: u64 = match self.waits.get(place) {
            Some(w) => double(w.wait),
            None => BACKOFF_MIN,
        };
        self.waits.insert(place.to_string(), Wait { until: now + wait, wait });
    }

    /// The place was reached: the next wait starts over.
    pub fn up(&mut self, place: &str)
        requires
            old(self).wf(),
        ensures
            final(self).wf(),
            final(self)@ == old(self)@.remove(place@),
    {
        self.waits.remove(place);
    }
}

/// The wait of a place found down for the `n`th time in a row, counted from 0.
pub open spec fn nth_wait(n: nat) -> u64
    decreases n,
{
    if n == 0 {
        BACKOFF_MIN
    } else {
        doubled(nth_wait((n - 1) as nat))
    }
}

/// Backing off doubles from a second to a minute, and stays there.
pub proof fn law_backing_off_doubles_to_a_minute(n: nat)
    ensures
        n < 6 ==> nth_wait(n) == pow2(n) * BACKOFF_MIN,
        n >= 6 ==> nth_wait(n) == BACKOFF_MAX,
        is_backoff(nth_wait(n)),
    decreases n,
{
    lemma2_to64();
    if n > 0 {
        law_backing_off_doubles_to_a_minute((n - 1) as nat);
    }
}

/// A place that is found down again waits for the next of those waits, and
/// one that was reached starts over.
pub proof fn law_waits_follow_each_other(held: Map<Seq<char>, Wait>, place: Seq<char>, n: nat)
    ensures
        held.contains_key(place) && held[place].wait == nth_wait(n) ==> next_wait(held, place)
            == nth_wait(n + 1),
        next_wait(held.remove(place), place) == nth_wait(0),
{
}

/// A place that was not reached is held off until its wait is over, and every
/// other place is left as it was.
pub proof fn law_a_place_that_is_down_is_held_off(
    held: Map<Seq<char>, Wait>,
    place: Seq<char>,
    now: u64,
    other: Seq<char>,
    later: u64,
)
    requires
        now + next_wait(held, place) <= u64::MAX,
    ensures
        waits(put_off(held, place, now), place, later) <==> later < now + next_wait(held, place),
        other != place ==> waits(put_off(held, place, now), other, later) == waits(
            held,
            other,
            later,
        ),
        other != place ==> next_wait(put_off(held, place, now), other) == next_wait(held, other),
{
}

/// A place that was reached is not waited for and its next wait is a second,
/// whatever its wait had grown to; every other place is left as it was.
pub proof fn law_a_place_that_is_up_starts_over(
    held: Map<Seq<char>, Wait>,
    place: Seq<char>,
    other: Seq<char>,
    now: u64,
)
    ensures
        !waits(held.remove(place), place, now),
        next_wait(held.remove(place), place) == BACKOFF_MIN,
        other != place ==> waits(held.remove(place), other, now) == waits(held, other, now),
        other != place ==> next_wait(held.remove(place), other) == next_wait(held, other),
{
}

// ---- a whole history ----------------------------------------------------------

/// Something that was learned of a place.
pub enum Event {
    /// It was not reached, at that moment.
    Down { place: Seq<char>, now: u64 },
    /// It was reached.
    Up { place: Seq<char> },
}

/// The waits after the events, from none.
pub open spec fn history(events: Seq<Event>) -> Map<Seq<char>, Wait>
    decreases events.len(),
{
    if events.len() == 0 {
        Map::empty()
    } else {
        let held = history(events.drop_last());
        match events.last() {
            Event::Down { place, now } => put_off(held, place, now),
            Event::Up { place } => held.remove(place),
        }
    }
}

/// How often the place was found down since it was last up.
pub open spec fn times_down(events: Seq<Event>, p: Seq<char>) -> nat
    decreases events.len(),
{
    if events.len() == 0 {
        0
    } else {
        let n = times_down(events.drop_last(), p);
        match events.last() {
            Event::Down { place, .. } => if place == p {
                n + 1
            } else {
                n
            },
            Event::Up { place } => if place == p {
                0
            } else {
                n
            },
        }
    }
}

/// When the place was last found down.
pub open spec fn last_down(events: Seq<Event>, p: Seq<char>) -> u64
    decreases events.len(),
{
    if events.len() == 0 {
        0
    } else {
        match events.last() {
            Event::Down { place, now } => if place == p {
                now
            } else {
                last_down(events.drop_last(), p)
            },
            Event::Up { .. } => last_down(events.drop_last(), p),
        }
    }
}

/// The clock leaves room for the longest wait.
pub open spec fn has_room(e: Event) -> bool {
    e matches Event::Down { now, .. } ==> now + BACKOFF_MAX <= u64::MAX
}

/// The `k`th time in a row that a place is found down it is held off for
/// 2^(k-1) seconds, but no longer than a minute, from that moment, however
/// large `k` is and whatever is learned of other places.
pub proof fn law_the_nth_time_down(events: Seq<Event>, p: Seq<char>, now: u64)
    requires
        forall|i: int| 0 <= i < events.len() ==> has_room(#[trigger] events[i]),
    ensures
        ({
            let k = times_down(events, p);
            let wait = nth_wait((k - 1) as nat);
            let held = history(events);
            &&& k == 0 ==> !held.contains_key(p) && next_wait(held, p) == BACKOFF_MIN
            &&& k > 0 ==> held.contains_key(p) && held[p].wait == wait
            &&& waits(held, p, now) <==> k > 0 && now < last_down(events, p) + wait
            &&& 0 < k <= 6 ==> wait == pow2((k - 1) as nat) * BACKOFF_MIN
            &&& k > 6 ==> wait == BACKOFF_MAX
        }),
{
    lemma_history(events, p);
    let k = times_down(events, p);
    if k > 0 {
        law_backing_off_doubles_to_a_minute((k - 1) as nat);
    }
}

proof fn lemma_history(events: Seq<Event>, p: Seq<char>)
    requires
        forall|i: int| 0 <= i < events.len() ==> has_room(#[trigger] events[i]),
    ensures
        ({
            let k = times_down(events, p);
            let wait = nth_wait((k - 1) as nat);
            let held = history(events);
            &&& held.contains_key(p) <==> k > 0
            &&& k > 0 ==> held[p].wait == wait && held[p].until == last_down(events, p) + wait
        }),
    decreases events.len(),
{
    if events.len() > 0 {
        let front = events.drop_last();
        assert forall|i: int| 0 <= i < front.len() implies has_room(#[trigger] front[i]) by {
            assert(front[i] == events[i]);
        }
        lemma_history(front, p);
        assert(has_room(events[events.len() - 1]));
        law_backing_off_doubles_to_a_minute(times_down(front, p));
    }
}

/// The waits are 1, 2, 4, 8, 16 and 32 seconds, and then a minute.
pub proof fn law_the_waits_in_seconds(n: nat)
    ensures
        n < 6 ==> nth_wait(n) == pow2(n) * 1_000_000_000,
        n >= 6 ==> nth_wait(n) == 60_000_000_000,
{
    law_backing_off_doubles_to_a_minute(n);
}

} // verus!
