//! Inbound: one connection to the place that shelves mail for this machine.
//!
//! The far side offers a frame in a header line, the frame follows, and it is
//! acknowledged once beb has it. The state here says what comes next.

use crate::compose::{cat2, cat3, cat4};
use crate::fail::{mistake, refusal, refused, Fail, FailView};
use crate::number::{
    decimal, decimal_of, law_a_number_is_read_back, lemma_decimal_digits, number, number_in,
};
use crate::outbox::{eight_is_whole, head, head_of};
use crate::text::{
    contains, is_digit, is_space, law_words_are_what_whitespace_separates, lemma_has_middle,
    slice_opt, slices, spaceless, split_words, trim, trimmed, words,
};
use vstd::prelude::*;

verus! {

/// A frame this program will not carry, matching the depot's own ceiling, so
/// that a broken depot cannot make a courier allocate without bound.
pub const FRAME_MAX: u64 = 67_108_864;

/// A frame that the far side offers: for whom, under which id, how long.
pub struct Offer {
    pub to: String,
    pub id: u64,
    pub len: u64,
}

#[verifier::ext_equal]
pub struct OfferView {
    pub to: Seq<char>,
    pub id: u64,
    pub len: u64,
}

impl View for Offer {
    type V = OfferView;

    open spec fn view(&self) -> OfferView {
        OfferView { to: self.to@, id: self.id, len: self.len }
    }
}

/// What a header line says: three words, the last two of them numbers.
pub open spec fn header_in(line: Seq<char>) -> Result<OfferView, FailView> {
    let w = words(line);
    if w.len() != 3 {
        Err(
            mistake(
                "the depot said \""@ + trim(line) + "\", which is not a frame header"@,
            ),
        )
    } else if number(w[1]) is None {
        Err(mistake("bad id \""@ + w[1] + "\""@))
    } else if number(w[2]) is None {
        Err(mistake("bad length \""@ + w[2] + "\""@))
    } else {
        Ok(OfferView { to: w[0], id: number(w[1]).unwrap(), len: number(w[2]).unwrap() })
    }
}

/// What a header line offers, unless it is over the ceiling.
pub open spec fn offered(line: Seq<char>) -> Result<OfferView, FailView> {
    match header_in(line) {
        Err(f) => Err(f),
        Ok(o) => if o.len > FRAME_MAX {
            Err(
                refusal(
                    "the depot offered "@ + decimal(o.len as nat) + " bytes, over the ceiling"@,
                ),
            )
        } else {
            Ok(o)
        },
    }
}

/// What beb's answer to a frame comes to: what it said, or why the frame
/// stays where it was. `wrote` is why the frame could not be written to it,
/// which is only worth saying when beb said nothing itself.
pub open spec fn taken_by_beb(
    success: bool,
    said: Seq<char>,
    wrote: Option<Seq<char>>,
    to: Seq<char>,
) -> Result<Seq<char>, FailView> {
    if success {
        Ok(trim(said))
    } else if wrote is Some && said.len() == 0 {
        Err(mistake("cannot write to beb: "@ + wrote.unwrap()))
    } else {
        Err(
            refusal(
                "beb would not take a frame for "@ + head(to) + ": "@ + trim(said)
                    + "\neither that identity should read here, or the depot should stop offering it"@,
            ),
        )
    }
}

/// The line that tells the far side its frame has arrived.
pub open spec fn ack_text(id: u64) -> Seq<char> {
    "ack "@ + decimal(id as nat) + "\n"@
}

pub fn parse_header(line: &str) -> (res: Result<(String, u64, u64), Fail>)
    ensures
        match res {
            Ok((to, id, len)) => header_in(line@) == Ok::<OfferView, FailView>(
                OfferView { to: to@, id, len },
            ),
            Err(f) => header_in(line@) == Err::<OfferView, FailView>(f@),
        },
{
    let w = split_words(line);
    let ghost all = slices(w@);
    if w.len() != 3 {
        return Err(
            Fail::from(
                cat3(
                    "the depot said \"",
                    trimmed(line),
                    "\", which is not a frame header",
                ),
            ),
        );
    }
    assert(all[0] == w@[0]@ && all[1] == w@[1]@ && all[2] == w@[2]@);
    let id: u64 = match number_in(w[1]) {
        Some(n) => n,
        None => return Err(Fail::from(cat3("bad id \"", w[1], "\""))),
    };
    let len: u64 = match number_in(w[2]) {
        Some(n) => n,
        None => return Err(Fail::from(cat3("bad length \"", w[2], "\""))),
    };
    Ok((w[0].to_string(), id, len))
}

/// Judges beb's answer to a frame for `to`.
///
/// A frame for somebody who does not read here means the depot was told this
/// courier collects for them and it does not, which is an operator's mistake
/// and not something to paper over by deleting mail.
pub fn hand_to_beb(success: bool, said: &str, wrote: Option<&str>, to: &str) -> (res: Result<
    String,
    Fail,
>)
    requires
        !success && (wrote is None || said@.len() > 0) ==> eight_is_whole(to@),
    ensures
        match res {
            Ok(n) => taken_by_beb(success, said@, slice_opt(wrote), to@) == Ok::<
                Seq<char>,
                FailView,
            >(n@),
            Err(f) => taken_by_beb(success, said@, slice_opt(wrote), to@) == Err::<
                Seq<char>,
                FailView,
            >(f@),
        },
{
    if success {
        return Ok(trimmed(said).to_string());
    }
    if let Some(e) = wrote {
        if said.is_empty() {
            return Err(Fail::from(cat2("cannot write to beb: ", e)));
        }
    }
    let mut msg = cat4("beb would not take a frame for ", head_of(to), ": ", trimmed(said));
    msg.append(
        "\neither that identity should read here, or the depot should stop offering it",
    );
    Err(refused(msg))
}

/// Where the connection is.
enum Stage {
    /// The next header is due.
    Header,
    /// A frame was offered, and beb does not have it yet.
    Offered(Offer),
    /// beb has the frame, and the far side does not know.
    Taken(Offer),
}

pub enum StageView {
    Header,
    Offered(OfferView),
    Taken(OfferView),
}

impl View for Stage {
    type V = StageView;

    closed spec fn view(&self) -> StageView {
        match self {
            Stage::Header => StageView::Header,
            Stage::Offered(o) => StageView::Offered(o@),
            Stage::Taken(o) => StageView::Taken(o@),
        }
    }
}

/// One connection, frame by frame.
pub struct Drain {
    got: usize,
    stage: Stage,
}

#[verifier::ext_equal]
pub struct DrainView {
    /// How many frames have been acknowledged.
    pub got: nat,
    pub stage: StageView,
}

impl View for Drain {
    type V = DrainView;

    closed spec fn view(&self) -> DrainView {
        DrainView { got: self.got as nat, stage: self.stage@ }
    }
}

impl Drain {
    pub fn new() -> (res: Drain)
        ensures
            res@ == (DrainView { got: 0, stage: StageView::Header }),
    {
        Drain { got: 0, stage: Stage::Header }
    }

    /// How many frames have been acknowledged.
    pub fn got(&self) -> (res: usize)
        ensures
            res == self@.got,
    {
        self.got
    }

    /// Takes a header line: whose frame follows, and how many bytes to read.
    pub fn header(&mut self, line: &str) -> (res: Result<(String, u64), Fail>)
        requires
            old(self)@.stage is Header,
        ensures
            match (res, offered(line@)) {
                (Ok((to, len)), Ok(o)) => {
                    &&& to@ == o.to
                    &&& len == o.len
                    &&& final(self)@ == (DrainView { stage: StageView::Offered(o), ..old(self)@ })
                },
                (Err(f), Err(g)) => f@ == g && final(self)@ == old(self)@,
                _ => false,
            },
    {
        let (to, id, len) = match parse_header(line) {
            Ok(h) => h,
            Err(f) => return Err(f),
        };
        if len > FRAME_MAX {
            return Err(
                refused(
                    cat3(
                        "the depot offered ",
                        decimal_of(len).as_str(),
                        " bytes, over the ceiling",
                    ),
                ),
            );
        }
        self.stage = Stage::Offered(Offer { to: to.clone(), id, len });
        Ok((to, len))
    }

    /// Takes beb's answer to the frame: what beb said and the line that
    /// acknowledges the frame, or why it is not acknowledged. Only a frame
    /// that beb has is, so a courier that dies here loses nothing: the far
    /// side still holds the frame and offers it again.
    pub fn handed(&mut self, success: bool, said: &str, wrote: Option<&str>) -> (res: Result<
        (String, String),
        Fail,
    >)
        requires
            old(self)@.stage is Offered,
            !success && (wrote is None || said@.len() > 0) ==> eight_is_whole(
                old(self)@.stage->Offered_0.to,
            ),
        ensures
            ({
                let o = old(self)@.stage->Offered_0;
                match (res, taken_by_beb(success, said@, slice_opt(wrote), o.to)) {
                    (Ok((note, ack)), Ok(n)) => {
                        &&& success
                        &&& note@ == n
                        &&& ack@ == ack_text(o.id)
                        &&& final(self)@ == (DrainView { stage: StageView::Taken(o), ..old(self)@ })
                    },
                    (Err(f), Err(g)) => !success && f@ == g && final(self)@ == old(self)@,
                    _ => false,
                }
            }),
    {
        let (to, id, len): (String, u64, u64) = match &self.stage {
            Stage::Offered(o) => (o.to.clone(), o.id, o.len),
            Stage::Taken(o) => (o.to.clone(), o.id, o.len),
            Stage::Header => (String::new(), 0, 0),
        };
        match hand_to_beb(success, said, wrote, to.as_str()) {
            Ok(note) => {
                let ack = cat3("ack ", decimal_of(id).as_str(), "\n");
                self.stage = Stage::Taken(Offer { to, id, len });
                Ok((note, ack))
            },
            Err(f) => Err(f),
        }
    }

    /// The far side has been told.
    pub fn acknowledged(&mut self)
        requires
            old(self)@.stage is Taken,
            old(self)@.got < usize::MAX,
        ensures
            final(self)@ == (DrainView { got: old(self)@.got + 1, stage: StageView::Header }),
    {
        self.got = self.got + 1;
        self.stage = Stage::Header;
    }
}

// ---- what holds of a frame that comes in -------------------------------------

/// How one frame comes in: the header that offers it, and beb's answer.
pub struct Round {
    pub header: Seq<char>,
    pub success: bool,
    pub said: Seq<char>,
    pub wrote: Option<Seq<char>>,
}

/// The connection once the frame has been offered, handed over and
/// acknowledged, and the line that acknowledged it.
pub open spec fn brought_in(d: DrainView, r: Round) -> Result<(DrainView, Seq<char>), FailView> {
    match offered(r.header) {
        Err(f) => Err(f),
        Ok(o) => match taken_by_beb(r.success, r.said, r.wrote, o.to) {
            Err(f) => Err(f),
            Ok(_) => Ok(
                (DrainView { got: d.got + 1, stage: StageView::Header }, ack_text(o.id)),
            ),
        },
    }
}

/// A frame is acknowledged exactly if it could be read and beb took it, by
/// the id it was offered under, and only then is it counted.
pub proof fn law_a_frame_is_acknowledged_only_when_taken(d: DrainView, r: Round)
    ensures
        brought_in(d, r) is Ok <==> r.success && (header_in(r.header) matches Ok(o) && o.len
            <= FRAME_MAX),
        brought_in(d, r) matches Ok((e, ack)) ==> {
            &&& e.got == d.got + 1
            &&& ack == ack_text(header_in(r.header)->Ok_0.id)
        },
{
}

/// What a connection comes to: how many frames were counted, the lines that
/// acknowledged them, and why it stopped, if a frame stopped it.
#[verifier::ext_equal]
pub struct Connection {
    pub got: nat,
    pub acks: Seq<Seq<char>>,
    pub stopped: Option<FailView>,
}

/// A connection over which the frames come in, one round each. Nothing more
/// is read once a frame could not be brought in.
pub open spec fn connection(rounds: Seq<Round>) -> Connection
    decreases rounds.len(),
{
    if rounds.len() == 0 {
        Connection { got: 0, acks: Seq::empty(), stopped: None }
    } else {
        let c = connection(rounds.drop_last());
        if c.stopped is Some {
            c
        } else {
            match brought_in(DrainView { got: c.got, stage: StageView::Header }, rounds.last()) {
                Ok((d, ack)) => Connection { got: d.got, acks: c.acks.push(ack), stopped: None },
                Err(f) => Connection { stopped: Some(f), ..c },
            }
        }
    }
}

/// A frame that comes in: its header could be read, is not over the ceiling,
/// and beb took it.
pub open spec fn comes_in(r: Round) -> bool {
    r.success && offered(r.header) is Ok
}

/// A connection acknowledges the frames before the first that does not come
/// in, in order, each by the id it was offered under, and counts just those;
/// what stops it is that frame.
pub proof fn law_a_connection_acknowledges_in_order(rounds: Seq<Round>)
    ensures
        ({
            let c = connection(rounds);
            let k = c.acks.len();
            &&& c.got == k
            &&& k <= rounds.len()
            &&& forall|i: int|
                0 <= i < k ==> comes_in(#[trigger] rounds[i]) && c.acks[i] == ack_text(
                    offered(rounds[i].header)->Ok_0.id,
                )
            &&& k == rounds.len() ==> c.stopped is None
            &&& k < rounds.len() ==> {
                let r = rounds[k as int];
                &&& !comes_in(r)
                &&& c.stopped == Some(
                    match offered(r.header) {
                        Err(f) => f,
                        Ok(o) => taken_by_beb(r.success, r.said, r.wrote, o.to)->Err_0,
                    },
                )
            }
        }),
    decreases rounds.len(),
{
    if rounds.len() > 0 {
        let front = rounds.drop_last();
        law_a_connection_acknowledges_in_order(front);
        let c = connection(front);
        let k = c.acks.len() as int;
        assert forall|i: int| 0 <= i < k implies comes_in(#[trigger] rounds[i])
            && connection(rounds).acks[i] == ack_text(offered(rounds[i].header)->Ok_0.id) by {
            assert(front[i] == rounds[i]);
        }
        if k < front.len() {
            assert(front[k] == rounds[k]);
        }
        assert(rounds.last() == rounds[rounds.len() - 1]);
    }
}

// ---- what the lines of a connection are ----------------------------------------------

/// A header is three words, of which the last two are numbers, and nothing
/// else is one; it offers that many bytes under that id to that recipient,
/// and a frame over 64 MiB is refused.
pub proof fn law_what_a_header_is(line: Seq<char>)
    ensures
        ({
            let w = words(line);
            let good = w.len() == 3 && number(w[1]) is Some && number(w[2]) is Some;
            &&& header_in(line) is Ok <==> good
            &&& header_in(line) matches Err(f) ==> f.code == 1
            &&& header_in(line) matches Ok(o) ==> {
                &&& o.to == w[0]
                &&& number(w[1]) == Some(o.id)
                &&& number(w[2]) == Some(o.len)
            }
            &&& offered(line) is Ok <==> good && number(w[2]).unwrap() <= 67_108_864
            &&& good && number(w[2]).unwrap() > 67_108_864 ==> offered(line)->Err_0.code == 3
            &&& !good ==> offered(line)->Err_0.code == 1
            &&& offered(line) is Ok ==> offered(line) == header_in(line)
        }),
{
}

/// A header that is written is read back.
pub proof fn law_a_header_is_read_back(to: Seq<char>, id: u64, len: u64)
    requires
        to.len() > 0,
        spaceless(to),
    ensures
        header_in(
            to + " "@ + decimal(id as nat) + " "@ + decimal(len as nat) + "\n"@,
        ) == Ok::<OfferView, FailView>(OfferView { to, id, len }),
{
    reveal_strlit(" ");
    reveal_strlit("\n");
    assert(" "@ =~= seq![' ']);
    assert("\n"@ =~= seq!['\n']);
    let a = decimal(id as nat);
    let b = decimal(len as nat);
    lemma_decimal_is_a_word(id);
    lemma_decimal_is_a_word(len);
    let none: Seq<char> = Seq::empty();
    law_words_are_what_whitespace_separates(to, ' ', a.push(' ') + b.push('\n') + none);
    law_words_are_what_whitespace_separates(a, ' ', b.push('\n') + none);
    law_words_are_what_whitespace_separates(b, '\n', none);
    let s = to + " "@ + a + " "@ + b + "\n"@;
    assert(s =~= to.push(' ') + (a.push(' ') + b.push('\n') + none));
    assert(a.push(' ') + b.push('\n') + none =~= a.push(' ') + (b.push('\n') + none));
    assert(words(s) =~= seq![to, a, b]);
    law_a_number_is_read_back(id);
    law_a_number_is_read_back(len);
}

proof fn lemma_decimal_is_a_word(n: u64)
    ensures
        decimal(n as nat).len() > 0,
        spaceless(decimal(n as nat)),
{
    law_a_number_is_read_back(n);
    let s = decimal(n as nat);
    lemma_decimal_digits(n as nat);
    assert forall|i: int| 0 <= i < s.len() implies !is_space(#[trigger] s[i]) by {
        assert(is_digit(s[i]));
    }
}

/// An acknowledgement is one line, of the word `ack` and the id.
pub proof fn law_an_acknowledgement_names_the_id(id: u64)
    ensures
        words(ack_text(id)) == seq!["ack"@, decimal(id as nat)],
        ack_text(id).last() == '\n',
        number(words(ack_text(id))[1]) == Some(id),
{
    reveal_strlit("ack ");
    reveal_strlit("ack");
    reveal_strlit("\n");
    let d = decimal(id as nat);
    let none: Seq<char> = Seq::empty();
    lemma_decimal_is_a_word(id);
    assert(spaceless("ack"@));
    law_words_are_what_whitespace_separates("ack"@, ' ', d.push('\n') + none);
    law_words_are_what_whitespace_separates(d, '\n', none);
    assert(ack_text(id) =~= "ack"@.push(' ') + (d.push('\n') + none));
    assert(words(ack_text(id)) =~= seq!["ack"@, d]);
    law_a_number_is_read_back(id);
}

/// A frame is taken exactly if beb succeeded. What beb said wins over why the
/// frame could not be written, which is only said where beb said nothing; a
/// frame that beb would not take is refused, with its words.
pub proof fn law_bebs_own_words_win(
    success: bool,
    said: Seq<char>,
    wrote: Option<Seq<char>>,
    to: Seq<char>,
)
    ensures
        ({
            let r = taken_by_beb(success, said, wrote, to);
            &&& r is Ok <==> success
            &&& r matches Ok(note) ==> note == trim(said)
            &&& r is Err ==> {
                let f = r->Err_0;
                &&& wrote is Some && said.len() == 0 ==> f.code == 1 && contains(
                    f.msg,
                    wrote.unwrap(),
                )
                &&& wrote is None || said.len() > 0 ==> f.code == 3 && contains(
                    f.msg,
                    " "@ + head(to) + ": "@ + trim(said) + "\n"@,
                )
            }
        }),
{
    if !success {
        if wrote is Some && said.len() == 0 {
            let w = wrote.unwrap();
            lemma_has_middle("cannot write to beb: "@, w, Seq::empty());
            assert("cannot write to beb: "@ + w + Seq::<char>::empty() =~= "cannot write to beb: "@
                + w);
        } else {
            let lead = "beb would not take a frame for "@;
            let tail =
                "\neither that identity should read here, or the depot should stop offering it"@;
            let m = " "@ + head(to) + ": "@ + trim(said) + "\n"@;
            assert(lead =~= lead.drop_last() + " "@) by {
                reveal_strlit("beb would not take a frame for ");
                reveal_strlit(" ");
            }
            assert(tail =~= "\n"@ + tail.drop_first()) by {
                reveal_strlit(
                    "\neither that identity should read here, or the depot should stop offering it",
                );
                reveal_strlit("\n");
            }
            let front = lead.drop_last();
            let back = tail.drop_first();
            lemma_has_middle(front, m, back);
            lemma_six_parts(front, " "@, head(to), ": "@, trim(said), "\n"@, back);
        }
    }
}

proof fn lemma_six_parts(
    a: Seq<char>,
    b: Seq<char>,
    c: Seq<char>,
    d: Seq<char>,
    e: Seq<char>,
    f: Seq<char>,
    g: Seq<char>,
)
    ensures
        (a + b) + c + d + e + (f + g) == a + (b + c + d + e + f) + g,
{
    assert((a + b) + c + d + e + (f + g) =~= a + (b + c + d + e + f) + g);
}

/// What is wrong with a header is said in its own words.
pub proof fn law_what_is_no_header_is_said(line: Seq<char>)
    ensures
        ({
            let w = words(line);
            let f = header_in(line)->Err_0;
            &&& w.len() != 3 ==> contains(f.msg, "\""@ + trim(line) + "\""@)
            &&& w.len() == 3 && number(w[1]) is None ==> f.msg == "bad id \""@ + w[1] + "\""@
            &&& w.len() == 3 && number(w[1]) is Some && number(w[2]) is None ==> f.msg
                == "bad length \""@ + w[2] + "\""@
        }),
{
    if words(line).len() != 3 {
        let t = trim(line);
        let q = "\""@;
        let lead = "the depot said "@;
        let tail = ", which is not a frame header"@;
        assert("the depot said \""@ =~= lead + q) by {
            reveal_strlit("the depot said \"");
            reveal_strlit("the depot said ");
            reveal_strlit("\"");
        }
        assert("\", which is not a frame header"@ =~= q + tail) by {
            reveal_strlit("\", which is not a frame header");
            reveal_strlit(", which is not a frame header");
            reveal_strlit("\"");
        }
        lemma_has_middle(lead, q + t + q, tail);
        assert((lead + q) + t + (q + tail) =~= lead + (q + t + q) + tail);
    }
}

} // verus!
