//! How a place is reached, and what its answer means.

use crate::compose::cat2;
use crate::paths::byte_views;
use crate::place::{Place, PlaceView};
use crate::text::{trim, trimmed};
use vstd::prelude::*;
use vstd::string::StrSliceExecFns;
use vstd::utf8::{encode_utf8, encode_utf8_decode_utf8};

verus! {

/// The arguments that reach a place and ask it for `command`: a config where
/// there is one, no questions asked, this courier's key and no other.
pub open spec fn ssh_line(
    place: PlaceView,
    config: Option<Seq<u8>>,
    key: Seq<u8>,
    command: Seq<char>,
) -> Seq<Seq<u8>> {
    let a = match config {
        Some(c) => seq![encode_utf8("-F"@), c],
        None => Seq::empty(),
    };
    let b = seq![
        encode_utf8("-o"@),
        encode_utf8("BatchMode=yes"@),
        encode_utf8("-o"@),
        encode_utf8("IdentitiesOnly=yes"@),
        encode_utf8("-i"@),
        key,
    ];
    let c = match place.port {
        Some(p) => seq![encode_utf8("-p"@), encode_utf8(p)],
        None => Seq::empty(),
    };
    a + b + c + seq![encode_utf8(place.host), encode_utf8(command)]
}

pub open spec fn bytes_opt(b: Option<&[u8]>) -> Option<Seq<u8>> {
    match b {
        Some(b) => Some(b@),
        None => None,
    }
}

/// The arguments for ssh.
pub fn ssh_args(depot: &Place, config: Option<&[u8]>, key: &[u8], command: &str) -> (res: Vec<
    Vec<u8>,
>)
    ensures
        byte_views(res@) == ssh_line(depot@, bytes_opt(config), key@, command@),
{
    let ghost want = ssh_line(depot@, bytes_opt(config), key@, command@);
    let mut out: Vec<Vec<u8>> = Vec::new();
    if let Some(c) = config {
        out.push("-F".as_bytes_vec());
        out.push(vstd::slice::slice_to_vec(c));
    }
    out.push("-o".as_bytes_vec());
    out.push("BatchMode=yes".as_bytes_vec());
    out.push("-o".as_bytes_vec());
    out.push("IdentitiesOnly=yes".as_bytes_vec());
    out.push("-i".as_bytes_vec());
    out.push(vstd::slice::slice_to_vec(key));
    if let Some(p) = &depot.port {
        out.push("-p".as_bytes_vec());
        out.push(p.as_str().as_bytes_vec());
    }
    out.push(depot.host.as_str().as_bytes_vec());
    out.push(command.as_bytes_vec());
    assert(byte_views(out@) =~= want);
    out
}

/// Different texts are different bytes.
proof fn lemma_bytes_differ(a: Seq<char>, b: Seq<char>)
    requires
        a != b,
    ensures
        encode_utf8(a) != encode_utf8(b),
{
    encode_utf8_decode_utf8(a);
    encode_utf8_decode_utf8(b);
}

/// The courier never tells ssh to accept any machine that answers: no
/// argument says so, unless a path, the port, the host or the command itself
/// is those words.
pub proof fn law_host_keys_are_always_checked(
    place: PlaceView,
    config: Option<Seq<u8>>,
    key: Seq<u8>,
    command: Seq<char>,
    i: int,
)
    requires
        config != Some(encode_utf8("StrictHostKeyChecking=no"@)),
        key != encode_utf8("StrictHostKeyChecking=no"@),
        place.port != Some("StrictHostKeyChecking=no"@),
        place.host != "StrictHostKeyChecking=no"@,
        command != "StrictHostKeyChecking=no"@,
        0 <= i < ssh_line(place, config, key, command).len(),
    ensures
        ssh_line(place, config, key, command)[i] != encode_utf8("StrictHostKeyChecking=no"@),
{
    let no = "StrictHostKeyChecking=no"@;
    reveal_strlit("StrictHostKeyChecking=no");
    reveal_strlit("-F");
    reveal_strlit("-o");
    reveal_strlit("BatchMode=yes");
    reveal_strlit("IdentitiesOnly=yes");
    reveal_strlit("-i");
    reveal_strlit("-p");
    lemma_bytes_differ("-F"@, no);
    lemma_bytes_differ("-o"@, no);
    lemma_bytes_differ("BatchMode=yes"@, no);
    lemma_bytes_differ("IdentitiesOnly=yes"@, no);
    lemma_bytes_differ("-i"@, no);
    lemma_bytes_differ("-p"@, no);
    if place.port is Some {
        lemma_bytes_differ(place.port.unwrap(), no);
    }
    lemma_bytes_differ(place.host, no);
    lemma_bytes_differ(command, no);
}

/// What a place is asked for.
pub enum Intent<'a> {
    /// To take the frame that follows, which is for this address.
    Drop(&'a str),
    /// To hand over what it holds.
    Drain,
    /// The same, and then to wait for more.
    Pickup,
    /// To believe the claim that follows.
    Register,
    /// To drop this courier's claim on the address.
    Unregister(&'a str),
    /// To list the addresses that this courier may collect for.
    Grants,
    /// Something that nothing serves.
    Probe,
}

/// An intent, as it goes over the wire.
pub open spec fn intent_text(i: Intent<'_>) -> Seq<char> {
    match i {
        Intent::Drop(to) => "drop "@ + to@,
        Intent::Drain => "drain"@,
        Intent::Pickup => "pickup"@,
        Intent::Register => "register"@,
        Intent::Unregister(a) => "unregister "@ + a@,
        Intent::Grants => "grants"@,
        Intent::Probe => "status-probe"@,
    }
}

/// The command that asks for something.
pub fn intent(i: &Intent<'_>) -> (res: String)
    ensures
        res@ == intent_text(*i),
{
    match i {
        Intent::Drop(to) => cat2("drop ", to),
        Intent::Drain => "drain".to_string(),
        Intent::Pickup => "pickup".to_string(),
        Intent::Register => "register".to_string(),
        Intent::Unregister(a) => cat2("unregister ", a),
        Intent::Grants => "grants".to_string(),
        Intent::Probe => "status-probe".to_string(),
    }
}

/// A probe moves no mail: what it asks for is nothing that hands mail over or
/// takes any.
pub proof fn law_a_probe_moves_no_mail(i: Intent<'_>)
    requires
        i !is Probe,
    ensures
        intent_text(i) != intent_text(Intent::Probe),
{
    reveal_strlit("drop ");
    reveal_strlit("drain");
    reveal_strlit("pickup");
    reveal_strlit("register");
    reveal_strlit("unregister ");
    reveal_strlit("grants");
    reveal_strlit("status-probe");
    assert(intent_text(Intent::Probe)[0] == 's');
    assert(intent_text(i)[0] != 's');
}

/// Whether a place answered when it was asked for something nothing serves.
#[derive(Debug)]
pub enum Probe {
    Answered,
    Unreachable(String),
}

pub enum ProbeView {
    Answered,
    Unreachable(Seq<char>),
}

impl View for Probe {
    type V = ProbeView;

    open spec fn view(&self) -> ProbeView {
        match self {
            Probe::Answered => ProbeView::Answered,
            Probe::Unreachable(why) => ProbeView::Unreachable(why@),
        }
    }
}

/// What an exit status and what was said with it mean. 255 is ssh itself,
/// and no status is no answer either; anything else is the far side speaking.
pub open spec fn probed(code: Option<i32>, said: Seq<char>) -> ProbeView {
    if code is None || code == Some(255i32) {
        ProbeView::Unreachable(
            if trim(said).len() == 0 {
                "no answer"@
            } else {
                trim(said)
            },
        )
    } else {
        ProbeView::Answered
    }
}

/// Judges a place that was asked for something nothing serves.
///
/// Its own refusal is the healthy answer: the connection was made, the key
/// authenticated, and sshd ran the forced command. Two outcomes and not
/// three, because a route records where and never what.
pub fn probe(ran: Result<(Option<i32>, String), String>) -> (res: Probe)
    ensures
        res@ == match ran {
            Ok((code, said)) => probed(code, said@),
            Err(e) => ProbeView::Unreachable(e@),
        },
{
    match ran {
        Err(e) => Probe::Unreachable(e),
        Ok((code, said)) => {
            let reached = match code {
                Some(c) => c != 255,
                None => false,
            };
            if reached {
                return Probe::Answered;
            }
            let t = trimmed(said.as_str());
            Probe::Unreachable(
                if t.is_empty() {
                    "no answer".to_string()
                } else {
                    t.to_string()
                },
            )
        },
    }
}

// ---- what the arguments and the answers are for -----------------------------------

/// Two arguments stand one behind the other.
pub open spec fn paired(l: Seq<Seq<u8>>, a: Seq<u8>, b: Seq<u8>) -> bool {
    exists|i: int| 0 <= i && i + 1 < l.len() && #[trigger] l[i] == a && l[i + 1] == b
}

/// ssh is told whom to reach and what to ask last, the port of the place and
/// the config where there is one and only then, this courier's key and no
/// other, and to ask no questions; and it is told nothing else.
pub proof fn law_ssh_is_told_all_of_the_place(
    place: PlaceView,
    config: Option<Seq<u8>>,
    key: Seq<u8>,
    command: Seq<char>,
)
    ensures
        ({
            let l = ssh_line(place, config, key, command);
            let n = l.len() as int;
            &&& n == 8 + (if config is Some {
                2int
            } else {
                0
            }) + (if place.port is Some {
                2int
            } else {
                0
            })
            &&& l[n - 2] == encode_utf8(place.host)
            &&& l[n - 1] == encode_utf8(command)
            &&& paired(l.take(n - 2), encode_utf8("-i"@), key)
            &&& paired(l.take(n - 2), encode_utf8("-o"@), encode_utf8("BatchMode=yes"@))
            &&& paired(l.take(n - 2), encode_utf8("-o"@), encode_utf8("IdentitiesOnly=yes"@))
            &&& place.port matches Some(p) ==> paired(
                l.take(n - 2),
                encode_utf8("-p"@),
                encode_utf8(p),
            )
            &&& config matches Some(c) ==> paired(l.take(n - 2), encode_utf8("-F"@), c)
        }),
{
    let l = ssh_line(place, config, key, command);
    let n = l.len() as int;
    let k = l.take(n - 2);
    let o: int = if config is Some {
        2
    } else {
        0
    };
    assert(k[0] == l[0]);
    assert(k[o] == encode_utf8("-o"@) && k[o + 1] == encode_utf8("BatchMode=yes"@));
    assert(k[o + 2] == encode_utf8("-o"@) && k[o + 3] == encode_utf8("IdentitiesOnly=yes"@));
    assert(k[o + 4] == encode_utf8("-i"@) && k[o + 5] == key);
    if place.port is Some {
        assert(k[o + 6] == encode_utf8("-p"@));
    }
}

/// No port is given for a place that has none, and no config where there is
/// none, unless a path or the port is itself that word.
pub proof fn law_ssh_is_told_no_more_than_the_place(
    place: PlaceView,
    config: Option<Seq<u8>>,
    key: Seq<u8>,
    command: Seq<char>,
    i: int,
)
    requires
        0 <= i < ssh_line(place, config, key, command).len() - 2,
    ensures
        ({
            let a = ssh_line(place, config, key, command)[i];
            &&& place.port is None && a == encode_utf8("-p"@) ==> a == key || config == Some(a)
            &&& config is None && a == encode_utf8("-F"@) ==> a == key || place.port == Some(
                "-F"@,
            )
        }),
{
    reveal_strlit("-F");
    reveal_strlit("-o");
    reveal_strlit("BatchMode=yes");
    reveal_strlit("IdentitiesOnly=yes");
    reveal_strlit("-i");
    reveal_strlit("-p");
    assert("-F"@[1] == 'F' && "-o"@[1] == 'o' && "-i"@[1] == 'i' && "-p"@[1] == 'p');
    lemma_bytes_differ("-F"@, "-p"@);
    lemma_bytes_differ("-o"@, "-p"@);
    lemma_bytes_differ("BatchMode=yes"@, "-p"@);
    lemma_bytes_differ("IdentitiesOnly=yes"@, "-p"@);
    lemma_bytes_differ("-i"@, "-p"@);
    lemma_bytes_differ("-o"@, "-F"@);
    lemma_bytes_differ("BatchMode=yes"@, "-F"@);
    lemma_bytes_differ("IdentitiesOnly=yes"@, "-F"@);
    lemma_bytes_differ("-i"@, "-F"@);
    if place.port is Some && place.port != Some("-F"@) {
        lemma_bytes_differ(place.port.unwrap(), "-F"@);
    }
}

/// A place that was asked answered exactly if there is an exit code and it is
/// not 255, which is ssh itself; otherwise there is something to say of it,
/// and it is what was said where anything was.
pub proof fn law_a_place_answers_unless_ssh_fails(code: Option<i32>, said: Seq<char>)
    ensures
        probed(code, said) is Answered <==> code is Some && code.unwrap() != 255,
        probed(code, said) matches ProbeView::Unreachable(why) ==> {
            &&& why.len() > 0
            &&& trim(said).len() > 0 ==> why == trim(said)
            &&& trim(said).len() == 0 ==> why == "no answer"@
        },
{
    reveal_strlit("no answer");
}

/// No two intents are asked for in the same words, and a frame's recipient is
/// the word behind `drop`.
pub proof fn law_intents_are_told_apart(a: Intent<'_>, b: Intent<'_>)
    requires
        intent_text(a) == intent_text(b),
    ensures
        a is Drop <==> b is Drop,
        a is Drain <==> b is Drain,
        a is Pickup <==> b is Pickup,
        a is Register <==> b is Register,
        a is Unregister <==> b is Unregister,
        a is Grants <==> b is Grants,
        a is Probe <==> b is Probe,
        a matches Intent::Drop(to) ==> intent_text(a).skip(5) == to@ && intent_text(a).take(5)
            == "drop "@,
        a matches Intent::Unregister(x) ==> intent_text(a).skip(11) == x@ && intent_text(a).take(11)
            == "unregister "@,
        a is Drain ==> intent_text(a) == "drain"@,
        a is Pickup ==> intent_text(a) == "pickup"@,
        a is Register ==> intent_text(a) == "register"@,
        a is Grants ==> intent_text(a) == "grants"@,
        a is Probe ==> intent_text(a) == "status-probe"@,
{
    reveal_strlit("drop ");
    reveal_strlit("drain");
    reveal_strlit("pickup");
    reveal_strlit("register");
    reveal_strlit("unregister ");
    reveal_strlit("grants");
    reveal_strlit("status-probe");
    let s = intent_text(a);
    assert(s[0] == intent_text(b)[0]);
    assert(s[1] == intent_text(b)[1]);
    assert(s[2] == intent_text(b)[2]);
    assert(a matches Intent::Drop(to) ==> s.skip(5) =~= to@ && s.take(5) =~= "drop "@);
    assert(a matches Intent::Unregister(x) ==> s.skip(11) =~= x@ && s.take(11) =~= "unregister "@);
}

} // verus!
