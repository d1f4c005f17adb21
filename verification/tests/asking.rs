//! Commands, and whether this machine can carry.

use beb_courier::command::{cmd_route, command, version_line, Command};
use beb_courier::fail::Fail;
use beb_courier::place::{parse_place, Place};
use beb_courier::routes::{parse_routes, Route};
use beb_courier::ssh::{intent, probe, ssh_args, Intent, Probe};
use beb_courier::status::{agreed, cmd_status, distinct_places, grants_note, heard, Facts, Supervisor, Survey};
use beb_courier::table::Target;
use beb_courier::unit::cmd_unit;

fn words(s: &[&str]) -> Vec<String> {
    s.iter().map(|w| w.to_string()).collect()
}

fn asked(s: &[&str]) -> Command {
    command(&words(s)).unwrap()
}

fn said(s: &[&str]) -> (u8, String) {
    let f = command(&words(s)).unwrap_err();
    (f.code, f.msg)
}

fn addr(c: char) -> String {
    c.to_string().repeat(64)
}

fn place(s: &str) -> Place {
    parse_place(s).unwrap()
}

fn table(text: &str) -> Vec<Route> {
    parse_routes(text, "/r/routes").unwrap()
}

#[test]
fn commands_are_told_apart() {
    assert!(matches!(asked(&[]), Command::Help));
    assert!(matches!(asked(&["--help"]), Command::Help));
    assert!(matches!(asked(&["-h", "x"]), Command::Help));
    assert!(matches!(asked(&["--version"]), Command::Version));
    assert!(matches!(asked(&["init"]), Command::Init));
    assert!(matches!(asked(&["whoami"]), Command::Whoami));
    assert!(matches!(asked(&["sync"]), Command::Sync));
    assert!(matches!(asked(&["carry"]), Command::Carry));
    assert!(matches!(asked(&["unit"]), Command::Unit));
    assert!(matches!(asked(&["status"]), Command::Status));
    assert!(matches!(asked(&["register"]), Command::Register));
    assert!(matches!(asked(&["unregister", &addr('a')]), Command::Unregister(a) if a == addr('a')));
    assert!(matches!(asked(&["route"]), Command::RouteList));
    assert!(matches!(asked(&["authorize", "-"]), Command::Authorize(f) if f == "-"));
    assert_eq!(version_line("0.5.0"), "beb-courier 0.5.0");
}

#[test]
fn an_unknown_command_is_named() {
    assert_eq!(
        said(&["listen"]),
        (1, "no such command \"listen\"; beb-courier --help lists them".to_string())
    );
}

#[test]
fn commands_that_take_nothing() {
    for verb in ["whoami", "register", "sync", "carry", "unit", "status"] {
        assert_eq!(said(&[verb, "x"]), (1, format!("{verb} takes nothing: beb-courier {verb}")));
    }
    assert_eq!(
        said(&["init", "ssh://x"]),
        (
            1,
            "init takes nothing: beb-courier init\nwhere mail goes is a table, added to with beb-courier route add".to_string()
        )
    );
}

#[test]
fn unregister_takes_one_address() {
    let want = "unregister takes one address: beb-courier unregister ADDRESS";
    assert_eq!(said(&["unregister"]), (1, want.to_string()));
    assert_eq!(said(&["unregister", "a", "b"]), (1, want.to_string()));
}

#[test]
fn authorize_takes_one_file() {
    let want = "authorize takes the handover that machine printed: beb-courier authorize FILE";
    assert_eq!(said(&["authorize"]), (1, want.to_string()));
    assert_eq!(said(&["authorize", "a", "b"]), (1, want.to_string()));
}

#[test]
fn route_add_takes_where_and_optionally_what() {
    match asked(&["route", "add", "ssh://depot"]) {
        Command::RouteAdd { what, place: p } => {
            assert_eq!(what, None);
            assert_eq!(p, place("ssh://depot"));
        }
        other => panic!("{other:?}"),
    }
    match asked(&["route", "add", "bob.handover", "ssh://bob:22"]) {
        Command::RouteAdd { what, place: p } => {
            assert_eq!(what, Some("bob.handover".to_string()));
            assert_eq!(p, place("ssh://bob:22"));
        }
        other => panic!("{other:?}"),
    }
    let want = "route add takes where, and optionally what: beb-courier route add [ADDRESS] ssh://host\nADDRESS is an address or the handover file that machine printed; left off, it is everything else";
    assert_eq!(said(&["route", "add"]), (1, want.to_string()));
    assert_eq!(said(&["route", "add", "a", "b", "ssh://c"]), (1, want.to_string()));
    assert_eq!(said(&["route", "add", "bob"]).0, 3);
}

#[test]
fn route_rm_takes_an_address_or_a_place() {
    assert!(matches!(
        cmd_route(&words(&["rm", "ssh://bob:22"])),
        Ok(Command::RouteRm(Target::Place(p))) if p == "bob:22"
    ));
    assert!(matches!(
        cmd_route(&words(&["rm", &addr('a')])),
        Ok(Command::RouteRm(Target::Address(a))) if a == addr('a')
    ));
    let want = "route rm takes one address, or a place and everything going to it: beb-courier route rm ADDRESS | ssh://host";
    assert_eq!(said(&["route", "rm"]), (1, want.to_string()));
    assert_eq!(said(&["route", "rm", "a", "b"]), (1, want.to_string()));
    assert_eq!(said(&["route", "rm", "ssh://a/b"]).0, 3);
}

#[test]
fn an_unknown_route_command_is_named() {
    assert_eq!(
        said(&["route", "list"]),
        (
            1,
            "no such route command \"list\"; it is add, rm, or nothing at all to list them".to_string()
        )
    );
}

fn args_of(v: Vec<Vec<u8>>) -> Vec<String> {
    v.into_iter().map(|a| String::from_utf8(a).unwrap()).collect()
}

#[test]
fn ssh_uses_this_key_and_asks_nothing() {
    assert_eq!(
        args_of(ssh_args(&place("ssh://me@bob:22"), Some(b"/r/ssh_config"), b"/r/k", "drain")),
        vec![
            "-F", "/r/ssh_config", "-o", "BatchMode=yes", "-o", "IdentitiesOnly=yes", "-i", "/r/k",
            "-p", "22", "me@bob", "drain",
        ]
    );
    let plain = args_of(ssh_args(&place("ssh://bob"), None, b"/r/k", &intent(&Intent::Drop("ab"))));
    assert_eq!(
        plain,
        vec!["-o", "BatchMode=yes", "-o", "IdentitiesOnly=yes", "-i", "/r/k", "bob", "drop ab"]
    );
    assert!(plain.iter().all(|a| a != "StrictHostKeyChecking=no"));
}

#[test]
fn a_probe_is_no_other_intent() {
    assert_eq!(intent(&Intent::Drop(&addr('a'))), format!("drop {}", addr('a')));
    assert_eq!(intent(&Intent::Drain), "drain");
    assert_eq!(intent(&Intent::Pickup), "pickup");
    assert_eq!(intent(&Intent::Register), "register");
    assert_eq!(intent(&Intent::Unregister("ab")), "unregister ab");
    assert_eq!(intent(&Intent::Grants), "grants");
    assert_eq!(intent(&Intent::Probe), "status-probe");
}

#[test]
fn a_refusal_is_an_answer() {
    assert!(matches!(probe(Ok((Some(3), "no such intent".to_string()))), Probe::Answered));
    assert!(matches!(probe(Ok((Some(0), String::new()))), Probe::Answered));
    assert!(matches!(
        probe(Ok((Some(255), " timed out \n".to_string()))),
        Probe::Unreachable(w) if w == "timed out"
    ));
    assert!(matches!(
        probe(Ok((None, " ".to_string()))),
        Probe::Unreachable(w) if w == "no answer"
    ));
    assert!(matches!(
        probe(Err("not found".to_string())),
        Probe::Unreachable(w) if w == "not found"
    ));
}

fn healthy() -> Facts {
    Facts {
        version: "0.5.0".to_string(),
        exe: Some("/bin/beb-courier".to_string()),
        root: "/r".to_string(),
        has_key: true,
        routes: Ok(table(&format!("ssh://depot.internal\n{} ssh://bob.lan\n", addr('d')))),
        mine: vec![addr('1'), addr('2'), addr('3')],
        grants: None,
        waiting: Vec::new(),
        beb: "/bin/beb".to_string(),
        beb_version: Some("beb 0.11.0\n".to_string()),
        supervisor: Some(Supervisor {
            path: "/s".to_string(),
            text: Some(cmd_unit(false, "/bin/beb-courier", "/r", "/bin/beb").out),
        }),
    }
}

#[test]
fn a_healthy_machine_agrees() {
    let s = cmd_status(&healthy());
    assert_eq!(
        s.notes,
        vec![
            "0.5.0 at /bin/beb-courier, root /r",
            "3 addresses, 0 waiting to leave, beb is beb 0.11.0",
            "2 routes, collecting from depot.internal",
            "supervised by /s",
        ]
    );
    assert_eq!(s.wrong.len(), 0);
    assert!(agreed(&s.wrong).is_ok());
}

#[test]
fn everything_that_is_wrong_is_said() {
    let f = Facts {
        exe: None,
        has_key: false,
        routes: Ok(Vec::new()),
        waiting: vec![addr('e'), addr('e')],
        beb_version: None,
        supervisor: Some(Supervisor { path: "/s".to_string(), text: Some("x".to_string()) }),
        ..healthy()
    };
    let s = cmd_status(&f);
    assert_eq!(
        s.notes,
        vec![
            "0.5.0 at ?, root /r",
            "3 addresses, 2 waiting to leave, beb is missing",
            "supervised by /s",
        ]
    );
    assert_eq!(
        s.wrong,
        vec![
            "no key in /r; beb-courier init makes one".to_string(),
            "no routes in /r; beb-courier route add ssh://host names one".to_string(),
            "/bin/beb does not answer --version, so nothing can be delivered here".to_string(),
            "/s does not name /bin/beb, so the service and this shell disagree about beb".to_string(),
            "/s does not run carry, so it names a verb this version does not have\nbeb-courier unit prints the file this one wants".to_string(),
            format!("eeeeeeee… is waiting to leave with no route: beb-courier route add {} ssh://host", addr('e')),
        ]
    );
    let f = agreed(&s.wrong).unwrap_err();
    assert_eq!((f.code, f.msg.as_str()), (3, "6 things do not agree"));
}

#[test]
fn a_table_that_cannot_be_read_is_what_is_wrong() {
    let f = Facts {
        routes: Err(Fail { code: 3, msg: "line 1".to_string() }),
        supervisor: Some(Supervisor { path: "/s".to_string(), text: None }),
        ..healthy()
    };
    let s = cmd_status(&f);
    assert_eq!(s.wrong, vec!["line 1"]);
    assert_eq!(s.notes[2], "no supervisor file at /s; beb-courier unit prints one");
    let f = agreed(&s.wrong).unwrap_err();
    assert_eq!((f.code, f.msg.as_str()), (3, "one thing does not agree"));
}

#[test]
fn a_supervisor_running_another_courier_is_wrong() {
    let f = Facts { exe: Some("/other/beb-courier".to_string()), ..healthy() };
    assert_eq!(
        cmd_status(&f).wrong,
        vec!["/s runs a different beb-courier than the one you just ran"]
    );
    let f = Facts {
        supervisor: None,
        routes: Ok(table(&format!("{} ssh://bob.lan\n", addr('d')))),
        ..healthy()
    };
    let s = cmd_status(&f);
    assert_eq!(s.wrong.len(), 0);
    assert_eq!(
        s.notes[2],
        "1 route, collecting from nowhere, since no route takes what is not named; mail arrives here by being dropped in"
    );
    assert_eq!(s.notes.len(), 3);
}

#[test]
fn a_grant_that_nothing_here_reads_for_is_stale() {
    let gone = "65807a70a1b2c3d4e5f60718293a4b5c6d7e8f90a1b2c3d4e5f6071829304152".to_string();
    let granted = vec![addr('1'), gone.clone(), addr('2'), addr('3'), gone.clone()];
    let f = Facts { grants: Some(granted), ..healthy() };
    let s = cmd_status(&f);
    assert_eq!(
        s.wrong,
        vec![format!("65807a70 is granted there and reads nowhere here\nbeb-courier unregister {gone}")]
    );
    assert_eq!(agreed(&s.wrong).unwrap_err().code, 3);
    assert_eq!(grants_note(&f), Some("depot.internal grants 5".to_string()));
    let f = Facts { grants: Some(vec![addr('3'), addr('1'), addr('2')]), ..healthy() };
    assert_eq!(cmd_status(&f).wrong.len(), 0);
    assert_eq!(grants_note(&healthy()), None);
    let f = Facts { routes: Ok(table(&format!("{} ssh://x", addr('a')))), ..f };
    assert_eq!(grants_note(&f), None);
}

#[test]
fn an_address_that_is_not_granted_is_said() {
    let f = Facts { grants: Some(vec![addr('3'), addr('4')]), ..healthy() };
    assert_eq!(
        cmd_status(&f).wrong,
        vec![
            format!("44444444 is granted there and reads nowhere here\nbeb-courier unregister {}", addr('4')),
            "11111111 reads here and is not granted there\nas that identity: beb whoami | beb-courier register".to_string(),
            "22222222 reads here and is not granted there\nas that identity: beb whoami | beb-courier register".to_string(),
        ]
    );
}

#[test]
fn a_status_ends_well_if_everything_agrees() {
    let mut s = cmd_status(&healthy());
    heard(&mut s, &place("ssh://depot.internal"), &Probe::Answered);
    heard(&mut s, &place("ssh://bob.lan"), &Probe::Answered);
    assert!(agreed(&s.wrong).is_ok());
    let mut s = cmd_status(&healthy());
    heard(&mut s, &place("ssh://depot.internal"), &Probe::Answered);
    heard(&mut s, &place("ssh://bob.lan"), &Probe::Unreachable("no answer".to_string()));
    assert_eq!(agreed(&s.wrong).unwrap_err().code, 3);
}

#[test]
fn every_place_is_asked_once() {
    let t = table(&format!(
        "{} ssh://x\nssh://y\n{} ssh://x\n{} ssh://x:22\n",
        addr('a'),
        addr('b'),
        addr('c')
    ));
    assert_eq!(
        distinct_places(&t),
        vec![&place("ssh://x"), &place("ssh://y"), &place("ssh://x:22")]
    );
    assert_eq!(distinct_places(&[]).len(), 0);
}

#[test]
fn answers_are_taken_into_account() {
    let mut s = Survey { notes: Vec::new(), wrong: Vec::new() };
    heard(&mut s, &place("ssh://x:22"), &Probe::Answered);
    heard(&mut s, &place("ssh://y"), &Probe::Unreachable("timed out".to_string()));
    assert_eq!(s.notes, vec!["x:22 answers and knows this key"]);
    assert_eq!(s.wrong, vec!["cannot reach y: timed out"]);
}

#[test]
fn the_file_systemd_reads() {
    let r = cmd_unit(false, "/bin/beb-courier", "/r", "/bin/beb");
    assert_eq!(
        r.out,
        "\
[Unit]
Description=beb-courier: carry beb mail both ways
After=network-online.target

[Service]
ExecStart=/bin/beb-courier carry
Environment=BEB_COURIER_ROOT=/r
Environment=BEB_BIN=/bin/beb
Restart=always
RestartSec=5

[Install]
WantedBy=default.target
"
    );
    assert_eq!(
        r.notes,
        vec![
            "write that to ~/.config/systemd/user/beb-courier.service",
            "then: systemctl --user enable --now beb-courier",
        ]
    );
}

#[test]
fn the_file_launchd_reads() {
    let r = cmd_unit(true, "/bin/beb-courier", "/r", "/bin/beb");
    assert_eq!(
        r.out,
        "\
<?xml version=\"1.0\" encoding=\"UTF-8\"?>
<!DOCTYPE plist PUBLIC \"-//Apple//DTD PLIST 1.0//EN\" \"http://www.apple.com/DTDs/PropertyList-1.0.dtd\">
<plist version=\"1.0\">
<dict>
  <key>Label</key>
  <string>dev.getbeb.courier</string>
  <key>ProgramArguments</key>
  <array>
    <string>/bin/beb-courier</string>
    <string>carry</string>
  </array>
  <key>EnvironmentVariables</key>
  <dict>
    <key>BEB_COURIER_ROOT</key>
    <string>/r</string>
    <key>BEB_BIN</key>
    <string>/bin/beb</string>
  </dict>
  <key>RunAtLoad</key>
  <true/>
  <key>KeepAlive</key>
  <true/>
</dict>
</plist>
"
    );
    assert_eq!(
        r.notes,
        vec![
            "write that to ~/Library/LaunchAgents/dev.getbeb.courier.plist",
            "then: launchctl bootstrap gui/$(id -u) ~/Library/LaunchAgents/dev.getbeb.courier.plist",
        ]
    );
}

#[test]
fn the_printed_file_agrees_with_status() {
    for macos in [true, false] {
        let f = Facts {
            supervisor: Some(Supervisor {
                path: "/s".to_string(),
                text: Some(cmd_unit(macos, "/bin/beb-courier", "/r", "/bin/beb").out),
            }),
            ..healthy()
        };
        assert_eq!(cmd_status(&f).wrong.len(), 0);
    }
}
