//! Outbound: one pass over the outbox.
//!
//! The pass decides and the caller acts. It is asked what to do next, told
//! how the far side answered, and told once a frame that was taken is gone
//! from here.

use crate::compose::{cat3, cat7};
use crate::held::{next_wait, put_off, waits, Held, Wait};
use crate::order::in_order;
use crate::outbox::{
    frames_in, frames_waiting, has_text, law_uncovered, lemma_head_of_address, recipient,
    recipient_of, recipients_of, short, short_name, uncovered,
};
use crate::place::{place_text, show, Place, PlaceView};
use crate::routes::{abridged, resolve, resolved, table_view, trim_to, Route, RouteView};
use crate::table::once_each;
use crate::text::{
    contains, lemma_has_command, lemma_has_middle, starts_with, text_opt, texts, trim, trimmed,
};
use vstd::prelude::*;

verus! {

/// What one pass over the outbox did, and what it left behind.
#[derive(Debug)]
pub struct Pass {
    pub sent: usize,
    pub refused_here: usize,
    pub unroutable: Vec<String>,
    pub unreachable: Vec<String>,
}

#[verifier::ext_equal]
pub struct PassView {
    pub sent: nat,
    pub refused_here: nat,
    pub unroutable: Seq<Seq<char>>,
    pub unreachable: Seq<Seq<char>>,
}

impl View for Pass {
    type V = PassView;

    open spec fn view(&self) -> PassView {
        PassView {
            sent: self.sent as nat,
            refused_here: self.refused_here as nat,
            unroutable: texts(self.unroutable@),
            unreachable: texts(self.unreachable@),
        }
    }
}

/// Where the frame at hand is.
enum Stage {
    /// Nothing has been done with it.
    Ready,
    /// It was handed to the place, which has not answered.
    Shipping(Place),
    /// The place has it, and it is still here.
    Taken(Place),
}

pub enum StageView {
    Ready,
    Shipping(PlaceView),
    Taken(PlaceView),
}

impl View for Stage {
    type V = StageView;

    closed spec fn view(&self) -> StageView {
        match self {
            Stage::Ready => StageView::Ready,
            Stage::Shipping(p) => StageView::Shipping(p@),
            Stage::Taken(p) => StageView::Taken(p@),
        }
    }
}

/// One pass over the outbox, frame by frame.
pub struct Push {
    frames: Vec<String>,
    at: usize,
    stage: Stage,
    pass: Pass,
}

#[verifier::ext_equal]
pub struct PushView {
    /// The frames of the pass, oldest first.
    pub frames: Seq<Seq<char>>,
    /// How many of them are done with; the next one is at hand.
    pub at: nat,
    pub stage: StageView,
    pub pass: PassView,
}

impl View for Push {
    type V = PushView;

    closed spec fn view(&self) -> PushView {
        PushView {
            frames: texts(self.frames@),
            at: self.at as nat,
            stage: self.stage@,
            pass: self.pass@,
        }
    }
}

/// What to do next.
#[derive(Debug)]
pub enum Action {
    /// Every frame has been seen to.
    Done,
    /// Nothing takes the frame, so it stays; what to say of it, once for each
    /// address.
    Unrouted(Option<String>),
    /// The frame's place is inside its wait, so the frame waits with it.
    Held,
    /// Hand the frame to the place.
    Ship { name: String, to: String, place: Place },
}

pub enum ActionView {
    Done,
    Unrouted(Option<Seq<char>>),
    Held,
    Ship { name: Seq<char>, to: Seq<char>, place: PlaceView },
}

impl View for Action {
    type V = ActionView;

    open spec fn view(&self) -> ActionView {
        match self {
            Action::Done => ActionView::Done,
            Action::Unrouted(n) => ActionView::Unrouted(text_opt(*n)),
            Action::Held => ActionView::Held,
            Action::Ship { name, to, place } => ActionView::Ship {
                name: name@,
                to: to@,
                place: place@,
            },
        }
    }
}

/// What became of a frame that was handed to a place.
#[derive(Debug)]
pub enum Verdict {
    /// The far side has it, so the copy here is the redundant one: remove it.
    Remove,
    /// It stays here; why.
    Stays(String),
}

pub enum VerdictView {
    Remove,
    Stays(Seq<char>),
}

impl View for Verdict {
    type V = VerdictView;

    open spec fn view(&self) -> VerdictView {
        match self {
            Verdict::Remove => VerdictView::Remove,
            Verdict::Stays(n) => VerdictView::Stays(n@),
        }
    }
}

/// The list with `s` in it.
pub open spec fn with(v: Seq<Seq<char>>, s: Seq<char>) -> Seq<Seq<char>> {
    if v.contains(s) {
        v
    } else {
        v.push(s)
    }
}

/// The place is inside its wait.
pub open spec fn held_off(held: Map<Seq<char>, Wait>, p: PlaceView, now: u64) -> bool {
    waits(held, place_text(p), now)
}

pub open spec fn unrouted_text(name: Seq<char>, to: Seq<char>) -> Seq<char> {
    short_name(name) + " stays here: no route for "@ + abridged(to, 8)
        + ", and nothing takes the rest\nname one with: beb-courier route add "@ + to
        + " ssh://host"@
}

pub open spec fn unreached_text(
    name: Seq<char>,
    place: PlaceView,
    why: Seq<char>,
    config: Seq<char>,
) -> Seq<char> {
    short_name(name) + " and the rest for "@ + place_text(place) + " stay here: "@ + trim(why)
        + "\nssh has to know that host already; accept its key once, or put UserKnownHostsFile in "@
        + config
}

pub open spec fn refused_text(name: Seq<char>, why: Seq<char>) -> Seq<char> {
    short_name(name) + " stays here: "@ + trim(why)
}

/// What asking a pass for its next action comes to: the pass after it, and
/// the action.
pub open spec fn asked(
    p: PushView,
    t: Seq<RouteView>,
    held: Map<Seq<char>, Wait>,
    now: u64,
) -> (PushView, ActionView) {
    if p.at >= p.frames.len() {
        (p, ActionView::Done)
    } else {
        let name = p.frames[p.at as int];
        let to = recipient(name).unwrap();
        match resolved(t, to) {
            None => (
                PushView {
                    at: p.at + 1,
                    pass: PassView { unroutable: with(p.pass.unroutable, to), ..p.pass },
                    ..p
                },
                ActionView::Unrouted(
                    if p.pass.unroutable.contains(to) {
                        None
                    } else {
                        Some(unrouted_text(name, to))
                    },
                ),
            ),
            Some(place) => if held_off(held, place, now) {
                (PushView { at: p.at + 1, ..p }, ActionView::Held)
            } else {
                (
                    PushView { stage: StageView::Shipping(place), ..p },
                    ActionView::Ship { name, to, place },
                )
            },
        }
    }
}

/// What the far side's answer comes to. 255 is ssh itself: the place was not
/// reached, so every other frame going there would fail the same way.
pub open spec fn answered(
    p: PushView,
    held: Map<Seq<char>, Wait>,
    now: u64,
    success: bool,
    code: Option<i32>,
    why: Seq<char>,
    config: Seq<char>,
) -> (PushView, Map<Seq<char>, Wait>, VerdictView) {
    let name = p.frames[p.at as int];
    let place = p.stage->Shipping_0;
    let at = place_text(place);
    if success {
        (PushView { stage: StageView::Taken(place), ..p }, held, VerdictView::Remove)
    } else if code == Some(255i32) {
        (
            PushView {
                at: p.at + 1,
                stage: StageView::Ready,
                pass: PassView { unreachable: with(p.pass.unreachable, at), ..p.pass },
                ..p
            },
            put_off(held, at, now),
            VerdictView::Stays(unreached_text(name, place, why, config)),
        )
    } else {
        (
            PushView {
                at: p.at + 1,
                stage: StageView::Ready,
                pass: PassView { refused_here: p.pass.refused_here + 1, ..p.pass },
                ..p
            },
            held,
            VerdictView::Stays(refused_text(name, why)),
        )
    }
}

/// What the removal of a frame that was taken comes to.
pub open spec fn gone(p: PushView, held: Map<Seq<char>, Wait>) -> (
    PushView,
    Map<Seq<char>, Wait>,
) {
    (
        PushView {
            at: p.at + 1,
            stage: StageView::Ready,
            pass: PassView { sent: p.pass.sent + 1, ..p.pass },
            ..p
        },
        held.remove(place_text(p.stage->Taken_0)),
    )
}

/// A pass that has not begun.
pub open spec fn fresh(p: PushView) -> bool {
    &&& p.at == 0
    &&& p.stage is Ready
    &&& p.pass == PassView {
        sent: 0,
        refused_here: 0,
        unroutable: Seq::empty(),
        unreachable: Seq::empty(),
    }
}

/// A name that is in the list or is put there.
fn put(v: &mut Vec<String>, s: &str)
    ensures
        texts(final(v)@) == with(texts(old(v)@), s@),
{
    let ghost before = texts(v@);
    if !has_text(v, s) {
        v.push(s.to_string());
        assert(texts(v@) =~= before.push(s@));
    }
}

impl Push {
    /// Every frame has a recipient, the frames that were moved or refused are
    /// among those that are done with, and a frame is at hand where one is
    /// under way.
    pub closed spec fn wf(&self) -> bool {
        &&& self.at <= self.frames@.len()
        &&& self.pass.sent + self.pass.refused_here <= self.at
        &&& forall|i: int|
            0 <= i < self.frames@.len() ==> recipient((#[trigger] self.frames@[i])@) is Some
        &&& !(self.stage is Ready) ==> self.at < self.frames@.len()
    }

    /// A pass over the frames among the names in the outbox, oldest first.
    pub fn new(names: &Vec<String>) -> (res: Push)
        ensures
            res.wf(),
            fresh(res@),
            in_order(res@.frames),
            res@.frames.to_multiset() == frames_in(texts(names@)).to_multiset(),
    {
        let frames = frames_waiting(names);
        let res = Push {
            frames,
            at: 0,
            stage: Stage::Ready,
            pass: Pass {
                sent: 0,
                refused_here: 0,
                unroutable: Vec::new(),
                unreachable: Vec::new(),
            },
        };
        proof {
            assert(texts(res.pass.unroutable@) =~= Seq::<Seq<char>>::empty());
            assert(texts(res.pass.unreachable@) =~= Seq::<Seq<char>>::empty());
            assert forall|i: int| 0 <= i < frames@.len() implies recipient(
                (#[trigger] frames@[i])@,
            ) is Some by {
                assert(texts(frames@)[i] == frames@[i]@);
            }
        }
        res
    }

    /// What the pass did so far.
    pub fn pass(&self) -> (res: &Pass)
        ensures
            res@ == self@.pass,
    {
        &self.pass
    }

    /// Sees to the frame at hand: it stays if nothing takes it or if its
    /// place is inside its wait, and is handed to its place otherwise.
    ///
    /// The filename says who the frame is for, and the table says where that
    /// recipient is. The frame itself is never opened.
    pub fn next(&mut self, routes: &[Route], held: &Held, now: u64) -> (res: Action)
        requires
            old(self).wf(),
            old(self)@.stage is Ready,
        ensures
            final(self).wf(),
            (final(self)@, res@) == asked(old(self)@, table_view(routes@), held@, now),
    {
        if self.at == self.frames.len() {
            return Action::Done;
        }
        let name = self.frames[self.at].clone();
        let ghost before = self@;
        assert(before.frames[before.at as int] == name@);
        assert(recipient(name@) is Some);
        let to = match recipient_of(name.as_str()) {
            Some(t) => t.to_string(),
            None => String::new(),
        };
        match resolve(routes, to.as_str()) {
            None => {
                let said = if has_text(&self.pass.unroutable, to.as_str()) {
                    None
                } else {
                    proof {
                        lemma_head_of_address(to@);
                    }
                    let s = short(name.as_str());
                    let mut note = cat3(
                        s.as_str(),
                        " stays here: no route for ",
                        trim_to(to.as_str(), 8).as_str(),
                    );
                    note.append(", and nothing takes the rest\nname one with: beb-courier route add ");
                    note.append(to.as_str());
                    note.append(" ssh://host");
                    Some(note)
                };
                put(&mut self.pass.unroutable, to.as_str());
                self.at = self.at + 1;
                Action::Unrouted(said)
            },
            Some(place) => {
                let at = show(place);
                if held.waiting(at.as_str(), now) {
                    self.at = self.at + 1;
                    Action::Held
                } else {
                    self.stage = Stage::Shipping(place.clone());
                    Action::Ship { name, to, place: place.clone() }
                }
            },
        }
    }

    /// Takes the far side's answer for the frame at hand: its exit status and
    /// what it said. `config` is the file that could name the host's key.
    pub fn answer(
        &mut self,
        held: &mut Held,
        now: u64,
        success: bool,
        code: Option<i32>,
        why: &str,
        config: &str,
    ) -> (res: Verdict)
        requires
            old(self).wf(),
            old(self)@.stage is Shipping,
            old(held).wf(),
            now + next_wait(
                old(held)@,
                place_text(old(self)@.stage->Shipping_0),
            ) <= u64::MAX,
        ensures
            final(self).wf(),
            final(held).wf(),
            (final(self)@, final(held)@, res@) == answered(
                old(self)@,
                old(held)@,
                now,
                success,
                code,
                why@,
                config@,
            ),
    {
        let place = match &self.stage {
            Stage::Shipping(p) => p.clone(),
            Stage::Taken(p) => p.clone(),
            Stage::Ready => Place { host: String::new(), port: None },
        };
        let ghost before = self@;
        if success {
            self.stage = Stage::Taken(place);
            return Verdict::Remove;
        }
        let name = self.frames[self.at].clone();
        assert(before.frames[before.at as int] == name@);
        proof {
            lemma_head_of_address(recipient(name@).unwrap());
        }
        let s = short(name.as_str());
        let said = trimmed(why);
        self.stage = Stage::Ready;
        assert(self.at < self.frames.len());
        self.at = self.at + 1;
        let unreached = match code {
            Some(c) => c == 255,
            None => false,
        };
        if unreached {
            let at = show(&place);
            held.down(at.as_str(), now);
            put(&mut self.pass.unreachable, at.as_str());
            Verdict::Stays(
                cat7(
                    s.as_str(),
                    " and the rest for ",
                    at.as_str(),
                    " stay here: ",
                    said,
                    "\nssh has to know that host already; accept its key once, or put UserKnownHostsFile in ",
                    config,
                ),
            )
        } else {
            self.pass.refused_here = self.pass.refused_here + 1;
            Verdict::Stays(cat3(s.as_str(), " stays here: ", said))
        }
    }

    /// The frame that the far side took is gone from here.
    pub fn removed(&mut self, held: &mut Held)
        requires
            old(self).wf(),
            old(self)@.stage is Taken,
            old(held).wf(),
        ensures
            final(self).wf(),
            final(held).wf(),
            (final(self)@, final(held)@) == gone(old(self)@, old(held)@),
    {
        let place = match &self.stage {
            Stage::Taken(p) => p.clone(),
            Stage::Shipping(p) => p.clone(),
            Stage::Ready => Place { host: String::new(), port: None },
        };
        held.up(show(&place).as_str());
        self.stage = Stage::Ready;
        assert(self.at < self.frames.len());
        self.at = self.at + 1;
        self.pass.sent = self.pass.sent + 1;
    }
}

// ---- what holds of a whole pass ---------------------------------------------

/// How one frame is seen to: when it comes up, and what its place would
/// answer if the frame were handed to it.
pub struct Turn {
    pub asked_at: u64,
    pub answered_at: u64,
    pub success: bool,
    pub code: Option<i32>,
    pub why: Seq<char>,
}

/// The pass and the waits once the frame at hand has been seen to.
pub open spec fn seen_to(
    p: PushView,
    t: Seq<RouteView>,
    held: Map<Seq<char>, Wait>,
    config: Seq<char>,
    turn: Turn,
) -> (PushView, Map<Seq<char>, Wait>) {
    let (q, action) = asked(p, t, held, turn.asked_at);
    if action is Ship {
        let (r, h, verdict) = answered(
            q,
            held,
            turn.answered_at,
            turn.success,
            turn.code,
            turn.why,
            config,
        );
        if verdict is Remove {
            gone(r, h)
        } else {
            (r, h)
        }
    } else {
        (q, held)
    }
}

/// The pass and the waits once the frames have been seen to, one turn each.
pub open spec fn passed(
    p: PushView,
    t: Seq<RouteView>,
    held: Map<Seq<char>, Wait>,
    config: Seq<char>,
    turns: Seq<Turn>,
) -> (PushView, Map<Seq<char>, Wait>)
    decreases turns.len(),
{
    if turns.len() == 0 {
        (p, held)
    } else {
        let (q, h) = passed(p, t, held, config, turns.drop_last());
        seen_to(q, t, h, config, turns.last())
    }
}

/// Whatever becomes of a frame, the pass goes on to the next one: a place
/// that is down holds up no other place's mail.
pub proof fn law_the_pass_goes_on(
    p: PushView,
    t: Seq<RouteView>,
    held: Map<Seq<char>, Wait>,
    config: Seq<char>,
    turn: Turn,
)
    requires
        p.at < p.frames.len(),
        p.stage is Ready,
    ensures
        ({
            let q = seen_to(p, t, held, config, turn).0;
            &&& q.at == p.at + 1
            &&& q.stage is Ready
            &&& q.frames == p.frames
        }),
{
}

/// A pass sees to every frame once, and what it counts as moved or refused
/// are frames it has seen to.
pub proof fn law_a_pass_sees_to_every_frame(
    p: PushView,
    t: Seq<RouteView>,
    held: Map<Seq<char>, Wait>,
    config: Seq<char>,
    turns: Seq<Turn>,
)
    requires
        fresh(p),
        turns.len() == p.frames.len(),
    ensures
        ({
            let q = passed(p, t, held, config, turns).0;
            &&& q.at == p.frames.len()
            &&& q.stage is Ready
            &&& q.frames == p.frames
            &&& asked(q, t, held, 0).1 is Done
            &&& q.pass.sent + q.pass.refused_here <= p.frames.len()
        }),
{
    lemma_passed(p, t, held, config, turns);
}

proof fn lemma_passed(
    p: PushView,
    t: Seq<RouteView>,
    held: Map<Seq<char>, Wait>,
    config: Seq<char>,
    turns: Seq<Turn>,
)
    requires
        fresh(p),
        turns.len() <= p.frames.len(),
    ensures
        ({
            let q = passed(p, t, held, config, turns).0;
            &&& q.at == turns.len()
            &&& q.stage is Ready
            &&& q.frames == p.frames
            &&& q.pass.sent + q.pass.refused_here <= q.at
        }),
    decreases turns.len(),
{
    if turns.len() > 0 {
        lemma_passed(p, t, held, config, turns.drop_last());
    }
}

/// The place that the frame at `i` is handed to in a pass, if it is.
pub open spec fn shipped_to(
    p: PushView,
    t: Seq<RouteView>,
    held: Map<Seq<char>, Wait>,
    config: Seq<char>,
    turns: Seq<Turn>,
    i: int,
) -> Option<PlaceView> {
    let (q, h) = passed(p, t, held, config, turns.take(i));
    match asked(q, t, h, turns[i].asked_at).1 {
        ActionView::Ship { place, .. } => Some(place),
        _ => None,
    }
}

/// What becomes of a frame in a pass.
pub enum Fate {
    /// It is handed to no place.
    Kept,
    /// Its place takes it.
    Taken,
    /// Its place is not reached.
    Unreached,
    /// Its place does not take it.
    Refused,
}

/// What becomes of the frame at `i` in a pass.
pub open spec fn fate(
    p: PushView,
    t: Seq<RouteView>,
    held: Map<Seq<char>, Wait>,
    config: Seq<char>,
    turns: Seq<Turn>,
    i: int,
) -> Fate {
    if shipped_to(p, t, held, config, turns, i) is None {
        Fate::Kept
    } else if turns[i].success {
        Fate::Taken
    } else if turns[i].code == Some(255i32) {
        Fate::Unreached
    } else {
        Fate::Refused
    }
}

/// Which of the first `n` frames of a pass have that fate.
pub open spec fn with_fate(
    p: PushView,
    t: Seq<RouteView>,
    held: Map<Seq<char>, Wait>,
    config: Seq<char>,
    turns: Seq<Turn>,
    f: Fate,
    n: nat,
) -> Seq<int> {
    Seq::new(n, |i: int| i).filter(|i: int| fate(p, t, held, config, turns, i) == f)
}

/// The places that the frames at those positions are handed to.
pub open spec fn places_of(
    p: PushView,
    t: Seq<RouteView>,
    held: Map<Seq<char>, Wait>,
    config: Seq<char>,
    turns: Seq<Turn>,
    at: Seq<int>,
) -> Seq<Seq<char>> {
    Seq::new(
        at.len(),
        |j: int| place_text(shipped_to(p, t, held, config, turns, at[j])->Some_0),
    )
}

/// What a pass counts is what became of its frames: as sent those that were
/// handed over and taken, as refused those that were handed over and neither
/// taken nor left because ssh itself failed, and as not reached the places
/// where ssh failed, each once.
pub proof fn law_a_pass_counts_what_became_of_its_frames(
    p: PushView,
    t: Seq<RouteView>,
    held: Map<Seq<char>, Wait>,
    config: Seq<char>,
    turns: Seq<Turn>,
)
    requires
        fresh(p),
        turns.len() == p.frames.len(),
    ensures
        ({
            let n = turns.len();
            let pass = passed(p, t, held, config, turns).0.pass;
            let lost = with_fate(p, t, held, config, turns, Fate::Unreached, n);
            &&& pass.sent == with_fate(p, t, held, config, turns, Fate::Taken, n).len()
            &&& pass.refused_here == with_fate(p, t, held, config, turns, Fate::Refused, n).len()
            &&& pass.unreachable == once_each(places_of(p, t, held, config, turns, lost))
        }),
{
    lemma_counted(p, t, held, config, turns, turns.len());
    assert(turns.take(turns.len() as int) =~= turns);
}

proof fn lemma_with_fate(
    p: PushView,
    t: Seq<RouteView>,
    held: Map<Seq<char>, Wait>,
    config: Seq<char>,
    turns: Seq<Turn>,
    f: Fate,
    n: nat,
)
    ensures
        with_fate(p, t, held, config, turns, f, 0) == Seq::<int>::empty(),
        with_fate(p, t, held, config, turns, f, n + 1) == if fate(
            p,
            t,
            held,
            config,
            turns,
            n as int,
        ) == f {
            with_fate(p, t, held, config, turns, f, n).push(n as int)
        } else {
            with_fate(p, t, held, config, turns, f, n)
        },
{
    reveal(Seq::filter);
    let next = Seq::new(n + 1, |i: int| i);
    assert(next.drop_last() =~= Seq::new(n, |i: int| i));
}

proof fn lemma_counted(
    p: PushView,
    t: Seq<RouteView>,
    held: Map<Seq<char>, Wait>,
    config: Seq<char>,
    turns: Seq<Turn>,
    n: nat,
)
    requires
        fresh(p),
        n <= turns.len() == p.frames.len(),
    ensures
        ({
            let pass = passed(p, t, held, config, turns.take(n as int)).0.pass;
            let lost = with_fate(p, t, held, config, turns, Fate::Unreached, n);
            &&& pass.sent == with_fate(p, t, held, config, turns, Fate::Taken, n).len()
            &&& pass.refused_here == with_fate(p, t, held, config, turns, Fate::Refused, n).len()
            &&& pass.unreachable == once_each(places_of(p, t, held, config, turns, lost))
        }),
    decreases n,
{
    let lost = with_fate(p, t, held, config, turns, Fate::Unreached, n);
    if n == 0 {
        lemma_with_fate(p, t, held, config, turns, Fate::Taken, 0);
        lemma_with_fate(p, t, held, config, turns, Fate::Refused, 0);
        lemma_with_fate(p, t, held, config, turns, Fate::Unreached, 0);
        assert(places_of(p, t, held, config, turns, lost) =~= Seq::<Seq<char>>::empty());
    } else {
        let m = (n - 1) as nat;
        lemma_counted(p, t, held, config, turns, m);
        lemma_with_fate(p, t, held, config, turns, Fate::Taken, m);
        lemma_with_fate(p, t, held, config, turns, Fate::Refused, m);
        lemma_with_fate(p, t, held, config, turns, Fate::Unreached, m);
        assert(turns.take(n as int).drop_last() =~= turns.take(m as int));
        assert(turns.take(n as int).last() == turns[m as int]);
        lemma_passed(p, t, held, config, turns.take(m as int));
        let before = places_of(
            p,
            t,
            held,
            config,
            turns,
            with_fate(p, t, held, config, turns, Fate::Unreached, m),
        );
        let now = places_of(p, t, held, config, turns, lost);
        if fate(p, t, held, config, turns, m as int) == Fate::Unreached {
            let to = place_text(shipped_to(p, t, held, config, turns, m as int)->Some_0);
            assert(now =~= before.push(to));
            assert(now.drop_last() =~= before);
        }
    }
}

/// What a pass reports as having nowhere to go is who, of those mail is
/// waiting for, the table covers not, each once; and no place is reported
/// twice as one that was not reached.
pub proof fn law_a_pass_reports_everyone_without_a_route(
    p: PushView,
    t: Seq<RouteView>,
    held: Map<Seq<char>, Wait>,
    config: Seq<char>,
    turns: Seq<Turn>,
)
    requires
        fresh(p),
        turns.len() == p.frames.len(),
        forall|i: int| 0 <= i < p.frames.len() ==> recipient(#[trigger] p.frames[i]) is Some,
    ensures
        ({
            let q = passed(p, t, held, config, turns).0;
            &&& q.pass.unroutable == uncovered(t, recipients_of(p.frames))
            &&& q.pass.unreachable.no_duplicates()
        }),
{
    lemma_reported(p, t, held, config, turns);
    assert(p.frames.take(turns.len() as int) =~= p.frames);
}

proof fn lemma_reported(
    p: PushView,
    t: Seq<RouteView>,
    held: Map<Seq<char>, Wait>,
    config: Seq<char>,
    turns: Seq<Turn>,
)
    requires
        fresh(p),
        turns.len() <= p.frames.len(),
        forall|i: int| 0 <= i < p.frames.len() ==> recipient(#[trigger] p.frames[i]) is Some,
    ensures
        ({
            let q = passed(p, t, held, config, turns).0;
            &&& q.pass.unroutable == uncovered(
                t,
                recipients_of(p.frames.take(turns.len() as int)),
            )
            &&& q.pass.unreachable.no_duplicates()
        }),
    decreases turns.len(),
{
    let n = turns.len() as int;
    let now = p.frames.take(n);
    if n == 0 {
        assert(recipients_of(now) =~= Seq::<Seq<char>>::empty());
    } else {
        let before = p.frames.take(n - 1);
        lemma_reported(p, t, held, config, turns.drop_last());
        lemma_passed(p, t, held, config, turns.drop_last());
        let (q, h) = passed(p, t, held, config, turns.drop_last());
        let to = recipient(p.frames[n - 1]).unwrap();
        assert(now.drop_last() =~= before);
        assert(now.last() == p.frames[n - 1]);
        let who = recipients_of(before).push(to);
        assert(recipients_of(now) == who);
        assert(who.drop_last() =~= recipients_of(before));
        assert(who.last() == to);
        if resolved(t, to) is Some {
            let r = seen_to(q, t, h, config, turns.last()).0;
            assert(r.pass.unroutable == q.pass.unroutable);
        }
        law_uncovered(t, recipients_of(before));
    }
}

/// Nothing is removed until the other end has it: a frame counts as sent
/// exactly if a place takes it and is not inside its wait, and that place,
/// and no other, accepts it. A route that fails does not fall back.
pub proof fn law_a_frame_leaves_only_when_taken(
    p: PushView,
    t: Seq<RouteView>,
    held: Map<Seq<char>, Wait>,
    config: Seq<char>,
    turn: Turn,
)
    requires
        p.at < p.frames.len(),
        p.stage is Ready,
    ensures
        ({
            let to = recipient(p.frames[p.at as int]).unwrap();
            let (q, action) = asked(p, t, held, turn.asked_at);
            let sent = seen_to(p, t, held, config, turn).0.pass.sent;
            &&& action matches ActionView::Ship { name, to: whom, place } ==> {
                &&& name == p.frames[p.at as int]
                &&& whom == to
                &&& resolved(t, to) == Some(place)
                &&& !held_off(held, place, turn.asked_at)
            }
            &&& action is Ship <==> (resolved(t, to) matches Some(place) && !held_off(
                held,
                place,
                turn.asked_at,
            ))
            &&& sent == if action is Ship && turn.success {
                p.pass.sent + 1
            } else {
                p.pass.sent
            }
        }),
{
}

/// A place that could not be reached is left alone until its wait is over,
/// with every frame for it; its wait is then the only one that changed.
pub proof fn law_a_place_that_is_down_is_skipped(
    p: PushView,
    t: Seq<RouteView>,
    held: Map<Seq<char>, Wait>,
    config: Seq<char>,
    turn: Turn,
    other: PlaceView,
    now: u64,
)
    requires
        p.at < p.frames.len(),
        p.stage is Ready,
        asked(p, t, held, turn.asked_at).1 is Ship,
        !turn.success,
        turn.code == Some(255i32),
        turn.answered_at + next_wait(
            held,
            place_text(asked(p, t, held, turn.asked_at).1->place),
        ) <= u64::MAX,
    ensures
        ({
            let place = asked(p, t, held, turn.asked_at).1->place;
            let (q, h) = seen_to(p, t, held, config, turn);
            &&& held_off(h, place, now) <==> now < turn.answered_at + next_wait(
                held,
                place_text(place),
            )
            &&& place_text(other) != place_text(place) ==> held_off(h, other, now) == held_off(
                held,
                other,
                now,
            )
            &&& q.pass.unreachable.contains(place_text(place))
            &&& q.pass.sent == p.pass.sent
        }),
{
    let place = asked(p, t, held, turn.asked_at).1->place;
    let v = p.pass.unreachable;
    let u = with(v, place_text(place));
    if !v.contains(place_text(place)) {
        assert(u[v.len() as int] == place_text(place));
    }
}

// ---- what one answer changes, and what is said ----------------------------------------

/// A frame that is taken clears its place's wait, and one that is refused
/// leaves every wait as it was; whatever is counted goes up by one frame.
pub proof fn law_what_an_answer_changes(
    p: PushView,
    t: Seq<RouteView>,
    held: Map<Seq<char>, Wait>,
    config: Seq<char>,
    turn: Turn,
)
    requires
        p.at < p.frames.len(),
        p.stage is Ready,
        asked(p, t, held, turn.asked_at).1 is Ship,
    ensures
        ({
            let place = asked(p, t, held, turn.asked_at).1->place;
            let (q, h) = seen_to(p, t, held, config, turn);
            let refused = !turn.success && turn.code != Some(255i32);
            let lost = !turn.success && turn.code == Some(255i32);
            &&& turn.success ==> h == held.remove(place_text(place))
            &&& refused ==> h == held
            &&& q.pass.refused_here == p.pass.refused_here + if refused {
                1nat
            } else {
                0nat
            }
            &&& q.pass.unroutable == p.pass.unroutable
            &&& !lost ==> q.pass.unreachable == p.pass.unreachable
        }),
{
}

/// A frame that is not handed over changes no wait and no count but that of
/// those with nowhere to go, and its recipient is named once in a pass: when
/// it is the first for that recipient, with the command that would route it.
pub proof fn law_a_frame_that_stays_is_said_once(
    p: PushView,
    t: Seq<RouteView>,
    held: Map<Seq<char>, Wait>,
    now: u64,
)
    requires
        p.at < p.frames.len(),
        recipient(p.frames[p.at as int]) is Some,
    ensures
        ({
            let to = recipient(p.frames[p.at as int]).unwrap();
            let (q, action) = asked(p, t, held, now);
            &&& action is Unrouted <==> resolved(t, to) is None
            &&& action matches ActionView::Unrouted(said) ==> {
                &&& said is Some <==> !p.pass.unroutable.contains(to)
                &&& said matches Some(m) ==> contains(
                    m,
                    "beb-courier route add "@ + to + " ssh://host"@,
                )
                &&& q.pass.unroutable.contains(to)
                &&& q.pass.sent == p.pass.sent && q.pass.refused_here == p.pass.refused_here
                &&& q.pass.unreachable == p.pass.unreachable
            }
            &&& action is Held ==> q.pass == p.pass && q.at == p.at + 1
        }),
{
    let name = p.frames[p.at as int];
    let to = recipient(name).unwrap();
    let v = p.pass.unroutable;
    if !v.contains(to) {
        assert(v.push(to)[v.len() as int] == to);
    }
    lemma_unrouted_says_how(name, to);
}

proof fn lemma_unrouted_says_how(name: Seq<char>, to: Seq<char>)
    ensures
        contains(unrouted_text(name, to), "beb-courier route add "@ + to + " ssh://host"@),
{
    let n = ", and nothing takes the rest\nname one with: "@;
    let c = "beb-courier route add "@;
    assert(", and nothing takes the rest\nname one with: beb-courier route add "@ =~= n + c) by {
        reveal_strlit(", and nothing takes the rest\nname one with: beb-courier route add ");
        reveal_strlit(", and nothing takes the rest\nname one with: ");
        reveal_strlit("beb-courier route add ");
    }
    let front = short_name(name) + " stays here: no route for "@ + abridged(to, 8);
    lemma_has_command(front, n, c, to, " ssh://host"@);
}

/// What is said of a frame that a place did not take holds what the place
/// said, and of one whose place was not reached also the place.
pub proof fn law_why_a_frame_stays_is_said(
    name: Seq<char>,
    place: PlaceView,
    why: Seq<char>,
    config: Seq<char>,
)
    ensures
        starts_with(refused_text(name, why), short_name(name)),
        contains(refused_text(name, why), trim(why)),
        starts_with(unreached_text(name, place, why, config), short_name(name)),
        contains(unreached_text(name, place, why, config), place_text(place)),
        contains(unreached_text(name, place, why, config), trim(why)),
        contains(unreached_text(name, place, why, config), config),
{
    let s = short_name(name);
    let none: Seq<char> = Seq::empty();
    let w = trim(why);
    let r = refused_text(name, why);
    assert(r.take(s.len() as int) =~= s);
    lemma_has_middle(s + " stays here: "@, w, none);
    assert(r =~= (s + " stays here: "@) + w + none);
    let u = unreached_text(name, place, why, config);
    let p = place_text(place);
    let a = s + " and the rest for "@;
    let z =
        "\nssh has to know that host already; accept its key once, or put UserKnownHostsFile in "@;
    assert(u.take(s.len() as int) =~= s);
    lemma_has_middle(a, p, " stay here: "@ + w + z + config);
    assert(u =~= a + p + (" stay here: "@ + w + z + config));
    lemma_has_middle(a + p + " stay here: "@, w, z + config);
    assert(u =~= (a + p + " stay here: "@) + w + (z + config));
    lemma_has_middle(a + p + " stay here: "@ + w + z, config, none);
    assert(u =~= (a + p + " stay here: "@ + w + z) + config + none);
}

/// A frame may be removed exactly if its place took it; otherwise it is said
/// by name why it stays, in the words of the far side, and also with the place
/// and the file that could name its host's key where ssh itself failed.
pub proof fn law_what_is_said_of_an_answer(
    p: PushView,
    held: Map<Seq<char>, Wait>,
    now: u64,
    success: bool,
    code: Option<i32>,
    why: Seq<char>,
    config: Seq<char>,
)
    requires
        p.at < p.frames.len(),
        p.stage is Shipping,
    ensures
        ({
            let verdict = answered(p, held, now, success, code, why, config).2;
            &&& verdict is Remove <==> success
            &&& verdict matches VerdictView::Stays(m) ==> {
                &&& starts_with(m, short_name(p.frames[p.at as int]))
                &&& contains(m, trim(why))
                &&& code == Some(255i32) ==> contains(m, place_text(p.stage->Shipping_0))
                    && contains(m, config)
            }
        }),
{
    law_why_a_frame_stays_is_said(p.frames[p.at as int], p.stage->Shipping_0, why, config);
}

} // verus!
