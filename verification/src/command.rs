//! What the program is asked to do.

use crate::compose::{cat2, cat3};
use crate::fail::{mistake, Fail, FailView};
use crate::place::{parse_place, place_in, place_text, show, Place, PlaceView};
use crate::table::{Target, TargetView};
use crate::text::{has_prefix, same, starts_with, text_opt, texts};
use vstd::prelude::*;
use vstd::slice::slice_subrange;

verus! {

/// A command, with what it was given.
#[derive(Debug)]
pub enum Command {
    Init,
    Whoami,
    RouteList,
    /// Where what is named, or everything else, goes.
    RouteAdd { what: Option<String>, place: Place },
    RouteRm(Target),
    /// The file that the handover is in.
    Authorize(String),
    /// The address comes from standard input.
    Register,
    /// The address whose claim is given up.
    Unregister(String),
    Sync,
    Carry,
    Unit,
    Status,
    Help,
    Version,
}

#[verifier::ext_equal]
pub enum CommandView {
    Init,
    Whoami,
    RouteList,
    RouteAdd { what: Option<Seq<char>>, place: PlaceView },
    RouteRm(TargetView),
    Authorize(Seq<char>),
    Register,
    Unregister(Seq<char>),
    Sync,
    Carry,
    Unit,
    Status,
    Help,
    Version,
}

impl View for Command {
    type V = CommandView;

    open spec fn view(&self) -> CommandView {
        match self {
            Command::Init => CommandView::Init,
            Command::Whoami => CommandView::Whoami,
            Command::RouteList => CommandView::RouteList,
            Command::RouteAdd { what, place } => CommandView::RouteAdd {
                what: text_opt(*what),
                place: place@,
            },
            Command::RouteRm(target) => CommandView::RouteRm(target@),
            Command::Authorize(file) => CommandView::Authorize(file@),
            Command::Register => CommandView::Register,
            Command::Unregister(a) => CommandView::Unregister(a@),
            Command::Sync => CommandView::Sync,
            Command::Carry => CommandView::Carry,
            Command::Unit => CommandView::Unit,
            Command::Status => CommandView::Status,
            Command::Help => CommandView::Help,
            Command::Version => CommandView::Version,
        }
    }
}

pub open spec fn command_result(r: Result<Command, Fail>) -> Result<CommandView, FailView> {
    match r {
        Ok(c) => Ok(c@),
        Err(f) => Err(f@),
    }
}

/// A command that takes nothing and was given `args`.
pub open spec fn alone(
    args: Seq<Seq<char>>,
    verb: Seq<char>,
    c: CommandView,
) -> Result<CommandView, FailView> {
    if args.len() == 0 {
        Ok(c)
    } else {
        Err(mistake(verb + " takes nothing: beb-courier "@ + verb))
    }
}

/// `route add` with `args`: a place, which is where everything else goes, or
/// what and a place.
pub open spec fn add_asked(args: Seq<Seq<char>>) -> Result<CommandView, FailView> {
    if args.len() == 1 || args.len() == 2 {
        match place_in(args.last()) {
            Ok(place) => Ok(
                CommandView::RouteAdd {
                    what: if args.len() == 2 {
                        Some(args[0])
                    } else {
                        None
                    },
                    place,
                },
            ),
            Err(f) => Err(f),
        }
    } else {
        Err(
            mistake(
                "route add takes where, and optionally what: beb-courier route add [ADDRESS] ssh://host\nADDRESS is an address or the handover file that machine printed; left off, it is everything else"@,
            ),
        )
    }
}

/// `route rm` with `args`: one word, which is a place where it begins as
/// places do.
pub open spec fn rm_asked(args: Seq<Seq<char>>) -> Result<CommandView, FailView> {
    if args.len() != 1 {
        Err(
            mistake(
                "route rm takes one address, or a place and everything going to it: beb-courier route rm ADDRESS | ssh://host"@,
            ),
        )
    } else if starts_with(args[0], "ssh://"@) {
        match place_in(args[0]) {
            Ok(place) => Ok(CommandView::RouteRm(TargetView::Place(place_text(place)))),
            Err(f) => Err(f),
        }
    } else {
        Ok(CommandView::RouteRm(TargetView::Address(args[0])))
    }
}

/// `route` with `args`.
pub open spec fn route_asked(args: Seq<Seq<char>>) -> Result<CommandView, FailView> {
    if args.len() == 0 {
        Ok(CommandView::RouteList)
    } else if args[0] == "add"@ {
        add_asked(args.skip(1))
    } else if args[0] == "rm"@ {
        rm_asked(args.skip(1))
    } else {
        Err(
            mistake(
                "no such route command \""@ + args[0]
                    + "\"; it is add, rm, or nothing at all to list them"@,
            ),
        )
    }
}

/// `authorize` with `args`.
pub open spec fn authorize_asked(args: Seq<Seq<char>>) -> Result<CommandView, FailView> {
    if args.len() == 1 {
        Ok(CommandView::Authorize(args[0]))
    } else {
        Err(
            mistake(
                "authorize takes the handover that machine printed: beb-courier authorize FILE"@,
            ),
        )
    }
}

/// `unregister` with `args`.
pub open spec fn unregister_asked(args: Seq<Seq<char>>) -> Result<CommandView, FailView> {
    if args.len() == 1 {
        Ok(CommandView::Unregister(args[0]))
    } else {
        Err(mistake("unregister takes one address: beb-courier unregister ADDRESS"@))
    }
}

/// What the program is asked for by the words behind its name.
pub open spec fn asked(args: Seq<Seq<char>>) -> Result<CommandView, FailView> {
    if args.len() == 0 {
        Ok(CommandView::Help)
    } else {
        let verb = args[0];
        let rest = args.skip(1);
        if verb == "init"@ {
            if rest.len() == 0 {
                Ok(CommandView::Init)
            } else {
                Err(
                    mistake(
                        "init takes nothing: beb-courier init\nwhere mail goes is a table, added to with beb-courier route add"@,
                    ),
                )
            }
        } else if verb == "whoami"@ {
            alone(rest, verb, CommandView::Whoami)
        } else if verb == "route"@ {
            route_asked(rest)
        } else if verb == "authorize"@ {
            authorize_asked(rest)
        } else if verb == "register"@ {
            alone(rest, verb, CommandView::Register)
        } else if verb == "unregister"@ {
            unregister_asked(rest)
        } else if verb == "sync"@ {
            alone(rest, verb, CommandView::Sync)
        } else if verb == "carry"@ {
            alone(rest, verb, CommandView::Carry)
        } else if verb == "unit"@ {
            alone(rest, verb, CommandView::Unit)
        } else if verb == "status"@ {
            alone(rest, verb, CommandView::Status)
        } else if verb == "--help"@ || verb == "-h"@ {
            Ok(CommandView::Help)
        } else if verb == "--version"@ {
            Ok(CommandView::Version)
        } else {
            Err(
                mistake(
                    "no such command \""@ + verb + "\"; beb-courier --help lists them"@,
                ),
            )
        }
    }
}

fn nothing_more(args: &[String], verb: &str, c: Command) -> (res: Result<Command, Fail>)
    ensures
        command_result(res) == alone(texts(args@), verb@, c@),
{
    if args.len() == 0 {
        Ok(c)
    } else {
        Err(Fail::from(cat3(verb, " takes nothing: beb-courier ", verb)))
    }
}

fn route_add_args(args: &[String]) -> (res: Result<Command, Fail>)
    ensures
        command_result(res) == add_asked(texts(args@)),
{
    let n: usize = args.len();
    if n != 1 && n != 2 {
        return Err(
            Fail::from(
                "route add takes where, and optionally what: beb-courier route add [ADDRESS] ssh://host\nADDRESS is an address or the handover file that machine printed; left off, it is everything else",
            ),
        );
    }
    match parse_place(args[n - 1].as_str()) {
        Ok(place) => {
            let what = if n == 2 {
                Some(args[0].clone())
            } else {
                None
            };
            Ok(Command::RouteAdd { what, place })
        },
        Err(f) => Err(f),
    }
}

fn route_rm_args(args: &[String]) -> (res: Result<Command, Fail>)
    ensures
        command_result(res) == rm_asked(texts(args@)),
{
    if args.len() != 1 {
        return Err(
            Fail::from(
                "route rm takes one address, or a place and everything going to it: beb-courier route rm ADDRESS | ssh://host",
            ),
        );
    }
    let what = args[0].as_str();
    if has_prefix(what, "ssh://") {
        match parse_place(what) {
            Ok(place) => Ok(Command::RouteRm(Target::Place(show(&place)))),
            Err(f) => Err(f),
        }
    } else {
        Ok(Command::RouteRm(Target::Address(what.to_string())))
    }
}

/// What `route` is asked for by the words behind it.
pub fn cmd_route(args: &[String]) -> (res: Result<Command, Fail>)
    ensures
        command_result(res) == route_asked(texts(args@)),
{
    let n: usize = args.len();
    if n == 0 {
        return Ok(Command::RouteList);
    }
    let rest = slice_subrange(args, 1, n);
    assert(texts(rest@) =~= texts(args@).skip(1));
    let verb = args[0].as_str();
    if same(verb, "add") {
        route_add_args(rest)
    } else if same(verb, "rm") {
        route_rm_args(rest)
    } else {
        Err(
            Fail::from(
                cat3(
                    "no such route command \"",
                    verb,
                    "\"; it is add, rm, or nothing at all to list them",
                ),
            ),
        )
    }
}

fn authorize_args(args: &[String]) -> (res: Result<Command, Fail>)
    ensures
        command_result(res) == authorize_asked(texts(args@)),
{
    if args.len() == 1 {
        Ok(Command::Authorize(args[0].clone()))
    } else {
        Err(
            Fail::from(
                "authorize takes the handover that machine printed: beb-courier authorize FILE",
            ),
        )
    }
}

fn unregister_args(args: &[String]) -> (res: Result<Command, Fail>)
    ensures
        command_result(res) == unregister_asked(texts(args@)),
{
    if args.len() == 1 {
        Ok(Command::Unregister(args[0].clone()))
    } else {
        Err(Fail::from("unregister takes one address: beb-courier unregister ADDRESS"))
    }
}

/// What the program is asked for by `args`, the words behind its name.
pub fn command(args: &[String]) -> (res: Result<Command, Fail>)
    ensures
        command_result(res) == asked(texts(args@)),
{
    let n: usize = args.len();
    if n == 0 {
        return Ok(Command::Help);
    }
    let rest = slice_subrange(args, 1, n);
    assert(texts(rest@) =~= texts(args@).skip(1));
    let verb = args[0].as_str();
    if same(verb, "init") {
        if rest.len() == 0 {
            Ok(Command::Init)
        } else {
            Err(
                Fail::from(
                    "init takes nothing: beb-courier init\nwhere mail goes is a table, added to with beb-courier route add",
                ),
            )
        }
    } else if same(verb, "whoami") {
        nothing_more(rest, verb, Command::Whoami)
    } else if same(verb, "route") {
        cmd_route(rest)
    } else if same(verb, "authorize") {
        authorize_args(rest)
    } else if same(verb, "register") {
        nothing_more(rest, verb, Command::Register)
    } else if same(verb, "unregister") {
        unregister_args(rest)
    } else if same(verb, "sync") {
        nothing_more(rest, verb, Command::Sync)
    } else if same(verb, "carry") {
        nothing_more(rest, verb, Command::Carry)
    } else if same(verb, "unit") {
        nothing_more(rest, verb, Command::Unit)
    } else if same(verb, "status") {
        nothing_more(rest, verb, Command::Status)
    } else if same(verb, "--help") || same(verb, "-h") {
        Ok(Command::Help)
    } else if same(verb, "--version") {
        Ok(Command::Version)
    } else {
        Err(
            Fail::from(cat3("no such command \"", verb, "\"; beb-courier --help lists them")),
        )
    }
}

/// What `--version` prints.
pub fn version_line(version: &str) -> (res: String)
    ensures
        res@ == "beb-courier "@ + version@,
{
    cat2("beb-courier ", version)
}

// ---- what is asked for -------------------------------------------------------------

/// The verbs are told apart by their lengths and where they begin.
proof fn lemma_verbs()
    ensures
        "init"@.len() == 4 && "init"@[0] == 'i',
        "whoami"@.len() == 6 && "whoami"@[0] == 'w',
        "route"@.len() == 5 && "route"@[0] == 'r',
        "authorize"@.len() == 9 && "authorize"@[0] == 'a',
        "register"@.len() == 8 && "register"@[0] == 'r',
        "unregister"@.len() == 10 && "unregister"@[0] == 'u',
        "sync"@.len() == 4 && "sync"@[0] == 's',
        "carry"@.len() == 5 && "carry"@[0] == 'c',
        "unit"@.len() == 4 && "unit"@[0] == 'u',
        "status"@.len() == 6 && "status"@[0] == 's',
        "--help"@.len() == 6 && "--help"@[0] == '-',
        "-h"@.len() == 2 && "-h"@[0] == '-',
        "--version"@.len() == 9 && "--version"@[0] == '-',
        "add"@.len() == 3,
        "rm"@.len() == 2,
{
    reveal_strlit("init");
    reveal_strlit("whoami");
    reveal_strlit("route");
    reveal_strlit("authorize");
    reveal_strlit("register");
    reveal_strlit("unregister");
    reveal_strlit("sync");
    reveal_strlit("carry");
    reveal_strlit("unit");
    reveal_strlit("status");
    reveal_strlit("--help");
    reveal_strlit("-h");
    reveal_strlit("--version");
    reveal_strlit("add");
    reveal_strlit("rm");
}

/// A verb that takes nothing is understood alone, and only so; a program given
/// nothing is asked for help.
pub proof fn law_what_is_asked_for_alone(args: Seq<Seq<char>>)
    ensures
        ({
            let r = asked(args);
            let only = |v: Seq<char>| args.len() == 1 && args[0] == v;
            &&& r == Ok::<CommandView, FailView>(CommandView::Init) <==> only("init"@)
            &&& r == Ok::<CommandView, FailView>(CommandView::Whoami) <==> only("whoami"@)
            &&& r == Ok::<CommandView, FailView>(CommandView::RouteList) <==> only("route"@)
            &&& r == Ok::<CommandView, FailView>(CommandView::Register) <==> only("register"@)
            &&& r == Ok::<CommandView, FailView>(CommandView::Sync) <==> only("sync"@)
            &&& r == Ok::<CommandView, FailView>(CommandView::Carry) <==> only("carry"@)
            &&& r == Ok::<CommandView, FailView>(CommandView::Unit) <==> only("unit"@)
            &&& r == Ok::<CommandView, FailView>(CommandView::Status) <==> only("status"@)
            &&& r == Ok::<CommandView, FailView>(CommandView::Help) <==> args.len() == 0 || args[0]
                == "--help"@ || args[0] == "-h"@
            &&& r == Ok::<CommandView, FailView>(CommandView::Version) <==> args.len() > 0
                && args[0] == "--version"@
        }),
{
    lemma_verbs();
}

/// `authorize` and `unregister` are understood with one word behind them, and
/// `route add` and `route rm` with those that they take: a place, or what and
/// a place, and an address or a place.
pub proof fn law_what_is_asked_for_with_words(
    args: Seq<Seq<char>>,
    x: Seq<char>,
    what: Option<Seq<char>>,
    place: PlaceView,
)
    ensures
        ({
            let r = asked(args);
            let n = args.len();
            let adds = n > 2 && args[0] == "route"@ && args[1] == "add"@;
            let takes_out = n == 3 && args[0] == "route"@ && args[1] == "rm"@;
            &&& r == Ok::<CommandView, FailView>(CommandView::Authorize(x)) <==> n == 2 && args[0]
                == "authorize"@ && args[1] == x
            &&& r == Ok::<CommandView, FailView>(CommandView::Unregister(x)) <==> n == 2 && args[0]
                == "unregister"@ && args[1] == x
            &&& r == Ok::<CommandView, FailView>(CommandView::RouteAdd { what, place }) <==> {
                &&& adds
                &&& what is None ==> n == 3
                &&& what matches Some(w) ==> n == 4 && args[2] == w
                &&& place_in(args[n - 1]) == Ok::<PlaceView, FailView>(place)
            }
            &&& r == Ok::<CommandView, FailView>(CommandView::RouteRm(TargetView::Address(x)))
                <==> takes_out && args[2] == x && !starts_with(x, "ssh://"@)
            &&& r == Ok::<CommandView, FailView>(CommandView::RouteRm(TargetView::Place(x)))
                <==> takes_out && starts_with(args[2], "ssh://"@) && (place_in(args[2]) matches Ok(
                p,
            ) && place_text(p) == x)
        }),
{
    lemma_verbs();
    if args.len() > 0 {
        let rest = args.skip(1);
        if rest.len() > 0 {
            assert(rest[0] == args[1]);
            let more = rest.skip(1);
            if more.len() > 0 {
                assert(more[0] == args[2]);
                assert(more.last() == args[args.len() - 1]);
            }
        }
    }
}

/// What is not understood asks for another command; only what stands where a
/// place should and is none is refused.
pub proof fn law_what_is_not_understood(args: Seq<Seq<char>>)
    ensures
        ({
            let r = asked(args);
            let n = args.len();
            let placed = n > 2 && args[0] == "route"@ && (args[1] == "add"@ || args[1] == "rm"@);
            r matches Err(f) ==> {
                &&& f.code == 1 || f.code == 3
                &&& f.code == 3 ==> placed && place_in(args[n - 1]) is Err
            }
        }),
{
    lemma_verbs();
    if args.len() > 0 {
        let rest = args.skip(1);
        if rest.len() > 0 {
            assert(rest[0] == args[1]);
            let more = rest.skip(1);
            if more.len() > 0 {
                assert(more[0] == args[2]);
                assert(more.last() == args[args.len() - 1]);
            }
        }
    }
}

} // verus!
