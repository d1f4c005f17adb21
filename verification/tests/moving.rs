//! Mail in both directions.

use beb_courier::carry::{carry_note, Backoff, OUTBOX_POLL};
use beb_courier::drain::{hand_to_beb, parse_header, Drain, FRAME_MAX};
use beb_courier::fail::Fail;
use beb_courier::held::{double, Held, BACKOFF_MAX, BACKOFF_MIN};
use beb_courier::outbox::{
    frames_waiting, head_of, outbox_addresses, recipient_of, recipients, short, stranded,
};
use beb_courier::push::{Action, Pass, Push, Verdict};
use beb_courier::routes::{parse_routes, Route};
use beb_courier::sync::{after_push, cmd_sync, must_have_routes, Step};

const CONFIG: &str = "/r/ssh_config";

fn addr(c: char) -> String {
    c.to_string().repeat(64)
}

fn frame(id: u32, c: char) -> String {
    format!("{id:018}-{}", addr(c))
}

fn table(text: &str) -> Vec<Route> {
    parse_routes(text, "/r/routes").unwrap()
}

fn shipped(a: Action) -> (String, String, String) {
    match a {
        Action::Ship { name, to, place } => (name, to, place.host),
        other => panic!("{other:?}"),
    }
}

fn stays(v: Verdict) -> String {
    match v {
        Verdict::Stays(why) => why,
        Verdict::Remove => panic!("removed"),
    }
}

#[test]
fn a_name_says_who_a_frame_is_for() {
    assert_eq!(recipient_of(&frame(1, 'd')), Some(addr('d').as_str()));
    assert_eq!(recipient_of("counter"), None);
    assert_eq!(recipient_of("lock-1"), None);
    assert_eq!(recipient_of(&format!("1-2-{}", addr('d'))), None);
    assert_eq!(
        outbox_addresses(&vec![frame(2, 'e'), "counter".to_string(), frame(1, 'd'), frame(3, 'e')]),
        vec![addr('e'), addr('d'), addr('e')]
    );
}

#[test]
fn frames_go_oldest_first() {
    assert_eq!(
        frames_waiting(&vec![frame(10, 'a'), "lock".to_string(), frame(2, 'b'), frame(1, 'c')]),
        vec![frame(1, 'c'), frame(2, 'b'), frame(10, 'a')]
    );
}

#[test]
fn who_reads_here_is_what_the_spool_holds() {
    assert_eq!(
        recipients(&vec![addr('b'), "outbox".to_string(), addr('2'), addr('A')]),
        vec![addr('2'), addr('b')]
    );
}

#[test]
fn recipients_without_a_route_are_named_once() {
    let t = table(&format!("{} ssh://x\n", addr('d')));
    let waiting = vec![addr('e'), addr('d'), addr('e'), addr('f')];
    assert_eq!(stranded(&t, &waiting), vec![addr('e'), addr('f')]);
    assert_eq!(stranded(&table("ssh://x\n"), &waiting).len(), 0);
}

#[test]
fn names_are_cut_short() {
    assert_eq!(short(&frame(7, 'd')), "000000000000000007-dddddddd");
    assert_eq!(short("7-abc"), "7-abc");
    assert_eq!(short("counter"), "counter");
    assert_eq!(head_of("abcdefgh"), "abcdefgh");
    assert_eq!(head_of("abcdefghi"), "abcdefgh");
    assert_eq!(head_of("ééééé"), "éééé");
}

#[test]
fn a_frame_is_shipped_and_removed_only_then() {
    let t = table("ssh://depot\n");
    let mut held = Held::new();
    let mut p = Push::new(&vec![frame(1, 'd')]);
    assert_eq!(
        shipped(p.next(&t, &held, 0)),
        (frame(1, 'd'), addr('d'), "depot".to_string())
    );
    assert_eq!(p.pass().sent, 0);
    assert!(matches!(p.answer(&mut held, 0, true, Some(0), "", CONFIG), Verdict::Remove));
    assert_eq!(p.pass().sent, 0);
    p.removed(&mut held);
    assert_eq!(p.pass().sent, 1);
    assert!(matches!(p.next(&t, &held, 0), Action::Done));
    assert!(matches!(p.next(&t, &held, 0), Action::Done));
}

#[test]
fn a_frame_that_is_refused_stays() {
    let t = table("ssh://depot\n");
    let mut held = Held::new();
    let mut p = Push::new(&vec![frame(1, 'd'), frame(2, 'd')]);
    shipped(p.next(&t, &held, 0));
    assert_eq!(
        stays(p.answer(&mut held, 0, false, Some(3), " nobody here \n", CONFIG)),
        "000000000000000001-dddddddd stays here: nobody here"
    );
    shipped(p.next(&t, &held, 0));
    assert_eq!(
        stays(p.answer(&mut held, 0, false, None, "killed", CONFIG)),
        "000000000000000002-dddddddd stays here: killed"
    );
    assert!(matches!(p.next(&t, &held, 0), Action::Done));
    assert_eq!((p.pass().sent, p.pass().refused_here), (0, 2));
}

#[test]
fn a_place_that_is_down_holds_up_no_other() {
    let t = table(&format!("ssh://pve\n{} ssh://bob:22\n", addr('b')));
    let mut held = Held::new();
    let mut p = Push::new(&vec![frame(1, 'b'), frame(2, 'b'), frame(3, 'd')]);
    assert_eq!(shipped(p.next(&t, &held, 5)).2, "bob");
    assert_eq!(
        stays(p.answer(&mut held, 5, false, Some(255), "timed out\n", CONFIG)),
        "000000000000000001-bbbbbbbb and the rest for bob:22 stay here: timed out\nssh has to know that host already; accept its key once, or put UserKnownHostsFile in /r/ssh_config"
    );
    assert!(matches!(p.next(&t, &held, 5), Action::Held));
    assert_eq!(shipped(p.next(&t, &held, 5)).2, "pve");
    assert!(matches!(p.answer(&mut held, 5, true, Some(0), "", CONFIG), Verdict::Remove));
    p.removed(&mut held);
    assert!(matches!(p.next(&t, &held, 5), Action::Done));
    assert_eq!(p.pass().unreachable, vec!["bob:22"]);
    assert_eq!((p.pass().sent, p.pass().refused_here), (1, 0));
    assert!(held.waiting("bob:22", 4 + BACKOFF_MIN));
    assert!(!held.waiting("bob:22", 5 + BACKOFF_MIN));
    assert!(!held.waiting("pve", 5));
}

#[test]
fn a_frame_with_nowhere_to_go_is_named_once() {
    let t = table(&format!("{} ssh://bob\n", addr('b')));
    let held = Held::new();
    let mut p = Push::new(&vec![frame(1, 'e'), frame(2, 'e')]);
    match p.next(&t, &held, 0) {
        Action::Unrouted(Some(why)) => assert_eq!(
            why,
            format!(
                "000000000000000001-eeeeeeee stays here: no route for eeeeeeee…, and nothing takes the rest\nname one with: beb-courier route add {} ssh://host",
                addr('e')
            )
        ),
        other => panic!("{other:?}"),
    }
    assert!(matches!(p.next(&t, &held, 0), Action::Unrouted(None)));
    assert!(matches!(p.next(&t, &held, 0), Action::Done));
    assert_eq!(p.pass().unroutable, vec![addr('e')]);
}

#[test]
fn a_pass_reports_everyone_without_a_route() {
    let t = table(&format!("{} ssh://bob\n", addr('b')));
    let names = vec![frame(3, 'f'), frame(1, 'e'), frame(4, 'b'), frame(2, 'f')];
    let mut held = Held::new();
    let mut p = Push::new(&names);
    loop {
        match p.next(&t, &held, 0) {
            Action::Done => break,
            Action::Ship { .. } => {
                stays(p.answer(&mut held, 0, false, Some(255), "", CONFIG));
            }
            _ => {}
        }
    }
    let waiting = outbox_addresses(&frames_waiting(&names));
    assert_eq!(p.pass().unroutable, stranded(&t, &waiting));
    assert_eq!(p.pass().unroutable, vec![addr('e'), addr('f')]);
    assert_eq!(p.pass().unreachable, vec!["bob"]);
}

#[test]
fn waits_double_from_a_second_to_a_minute() {
    let mut held = Held::new();
    assert!(!held.waiting("x", 0));
    for s in [1u64, 2, 4, 8, 16, 32, 60, 60] {
        held.down("x", 100);
        assert!(held.waiting("x", 99 + s * 1_000_000_000));
        assert!(!held.waiting("x", 100 + s * 1_000_000_000));
    }
    held.down("y", 0);
    held.up("x");
    assert!(!held.waiting("x", 100));
    assert!(held.waiting("y", BACKOFF_MIN - 1));
    held.down("x", 0);
    assert!(!held.waiting("x", BACKOFF_MIN));
    held.up("never");
    assert_eq!(double(BACKOFF_MIN), 2 * BACKOFF_MIN);
    assert_eq!(double(40 * BACKOFF_MIN), BACKOFF_MAX);
}

#[test]
fn a_header_is_three_words() {
    assert_eq!(parse_header(" abc 7\t12 \n").unwrap(), ("abc".to_string(), 7, 12));
    for (line, msg) in [
        ("abc 7\n", "the depot said \"abc 7\", which is not a frame header"),
        ("", "the depot said \"\", which is not a frame header"),
        ("a 1 2 3\n", "the depot said \"a 1 2 3\", which is not a frame header"),
        ("a x 2\n", "bad id \"x\""),
        ("a 1 -2\n", "bad length \"-2\""),
    ] {
        let f = parse_header(line).unwrap_err();
        assert_eq!((f.code, f.msg.as_str()), (1, msg));
    }
}

#[test]
fn a_frame_is_acknowledged_once_beb_has_it() {
    let mut d = Drain::new();
    assert_eq!(d.header(&format!("{} 42 9\n", addr('d'))).unwrap(), (addr('d'), 9));
    assert_eq!(d.got(), 0);
    let (note, ack) = d.handed(true, " delivered\n", Some("broken pipe")).unwrap();
    assert_eq!((note.as_str(), ack.as_str()), ("delivered", "ack 42\n"));
    assert_eq!(d.got(), 0);
    d.acknowledged();
    assert_eq!(d.got(), 1);
    assert_eq!(d.header("x 1 1").unwrap(), ("x".to_string(), 1));
}

#[test]
fn a_frame_that_beb_refuses_is_not_acknowledged() {
    let mut d = Drain::new();
    d.header(&format!("{} 42 9\n", addr('d'))).unwrap();
    let f = d.handed(false, "not here\n", Some("broken pipe")).unwrap_err();
    assert_eq!(f.code, 3);
    assert_eq!(
        f.msg,
        "beb would not take a frame for dddddddd: not here\neither that identity should read here, or the depot should stop offering it"
    );
    assert_eq!(d.got(), 0);
}

#[test]
fn bebs_own_words_win() {
    assert_eq!(hand_to_beb(true, "ok\n", None, "x").unwrap(), "ok");
    let f = hand_to_beb(false, "", Some("broken pipe"), "x").unwrap_err();
    assert_eq!((f.code, f.msg.as_str()), (1, "cannot write to beb: broken pipe"));
    let f = hand_to_beb(false, "", None, "x").unwrap_err();
    assert_eq!(f.code, 3);
    assert!(f.msg.starts_with("beb would not take a frame for x: \n"));
}

#[test]
fn a_frame_over_the_ceiling_is_refused() {
    let mut d = Drain::new();
    assert_eq!(d.header("x 1 67108864").unwrap().1, FRAME_MAX);
    let f = Drain::new().header("x 1 67108865").unwrap_err();
    assert_eq!(
        (f.code, f.msg.as_str()),
        (3, "the depot offered 67108865 bytes, over the ceiling")
    );
}

fn pass(sent: usize, refused_here: usize, unroutable: &[&str], unreachable: &[&str]) -> Pass {
    Pass {
        sent,
        refused_here,
        unroutable: unroutable.iter().map(|s| s.to_string()).collect(),
        unreachable: unreachable.iter().map(|s| s.to_string()).collect(),
    }
}

#[test]
fn a_sync_says_what_moved() {
    assert_eq!(cmd_sync(&pass(2, 0, &[], &[]), 1).unwrap(), "2 sent, 1 received");
    assert_eq!(cmd_sync(&pass(0, 0, &[], &[]), 1).unwrap(), "0 sent, 1 received");
    let f = cmd_sync(&pass(0, 0, &[], &[]), 0).unwrap_err();
    assert_eq!((f.code, f.msg.as_str()), (2, "nothing to send and nothing waiting"));
}

#[test]
fn the_exit_code_tells_a_refusal_from_a_network() {
    let f = cmd_sync(&pass(1, 2, &["a"], &["x", "y"]), 3).unwrap_err();
    assert_eq!(
        (f.code, f.msg.as_str()),
        (3, "1 sent, 3 received, 2 the far side would not take; 1 with nowhere to go; could not reach x, y")
    );
    let f = cmd_sync(&pass(0, 0, &[], &["x"]), 0).unwrap_err();
    assert_eq!((f.code, f.msg.as_str()), (1, "0 sent, 0 received, could not reach x"));
    let f = cmd_sync(&pass(0, 0, &["a"], &[]), 0).unwrap_err();
    assert_eq!((f.code, f.msg.as_str()), (3, "0 sent, 0 received, 1 with nowhere to go"));
}

#[test]
fn collecting_follows_the_pass_where_something_shelves() {
    let t = table(&format!("{} ssh://bob\nssh://depot\n", addr('b')));
    assert!(matches!(
        after_push(&t, &pass(1, 0, &[], &[])),
        Step::Drain(p) if p.host == "depot"
    ));
    assert!(matches!(
        after_push(&t[..1], &pass(1, 0, &[], &[])),
        Step::Done(Ok(said)) if said == "1 sent, 0 received"
    ));
    assert!(matches!(
        after_push(&t[..1], &pass(0, 0, &[], &[])),
        Step::Done(Err(f)) if f.code == 2
    ));
}

#[test]
fn stuck_passes_wait_twice_as_long_each_time() {
    let mut b = Backoff::new();
    for s in [1u64, 2, 4, 8, 16, 32, 60, 60] {
        assert_eq!(b.pushed(&pass(0, 1, &[], &[])).sleep, s * 1_000_000_000);
    }
    assert_eq!(b.pushed(&pass(0, 0, &[], &["x"])).sleep, OUTBOX_POLL);
    assert_eq!(b.failed(Fail::from("x")).sleep, BACKOFF_MIN);
}

#[test]
fn a_connection_acknowledges_in_order() {
    let mut d = Drain::new();
    let mut acks = String::new();
    for id in [7, 3, 9] {
        d.header(&format!("{} {id} 1\n", addr('a'))).unwrap();
        acks.push_str(&d.handed(true, "", None).unwrap().1);
        d.acknowledged();
    }
    d.header(&format!("{} 4 1\n", addr('a'))).unwrap();
    assert!(d.handed(false, "no", None).is_err());
    assert_eq!(acks, "ack 7\nack 3\nack 9\n");
    assert_eq!(d.got(), 3);
}

#[test]
fn a_machine_without_routes_carries_nowhere() {
    let f = must_have_routes(&[], "/r").unwrap_err();
    assert_eq!(
        (f.code, f.msg.as_str()),
        (
            3,
            "nowhere to carry to: /r has no routes\nbeb-courier route add ssh://host names one for everything"
        )
    );
    assert!(must_have_routes(&table("ssh://x"), "/r").is_ok());
}

#[test]
fn carrying_says_which_ways() {
    assert_eq!(
        carry_note(&table("ssh://depot.internal")),
        "carrying both ways, collecting from depot.internal"
    );
    assert_eq!(
        carry_note(&table(&format!("{} ssh://bob", addr('b')))),
        "carrying outbound only, since nothing shelves for you\nmail still lands the moment a peer drops it in"
    );
}

#[test]
fn collecting_backs_off_and_starts_over() {
    let mut b = Backoff::new();
    assert_eq!(b.collected(Ok(0)).unwrap().sleep, BACKOFF_MIN);
    assert_eq!(b.collected(Ok(0)).unwrap().sleep, 2 * BACKOFF_MIN);
    let r = b.collected(Err(Fail::from("cut off"))).unwrap();
    assert_eq!((r.note, r.sleep), (Some("cut off".to_string()), 4 * BACKOFF_MIN));
    assert_eq!(b.collected(Ok(3)).unwrap().sleep, BACKOFF_MIN);
    assert_eq!(b.collected(Ok(0)).unwrap().sleep, 2 * BACKOFF_MIN);
    let f = b.collected(Err(Fail { code: 3, msg: "no".to_string() })).unwrap_err();
    assert_eq!((f.code, f.msg.as_str()), (3, "no"));
    let r = b.nowhere_to_collect();
    assert_eq!((r.note, r.sleep), (None, BACKOFF_MAX));
}

#[test]
fn a_pass_quiets_down_while_something_is_stuck() {
    let mut b = Backoff::new();
    let r = b.pushed(&pass(2, 0, &[], &["x"]));
    assert_eq!((r.note, r.sleep), (Some("2 sent".to_string()), OUTBOX_POLL));
    assert_eq!(OUTBOX_POLL, 250_000_000);
    assert_eq!(b.pushed(&pass(0, 1, &[], &[])).sleep, BACKOFF_MIN);
    let r = b.pushed(&pass(0, 0, &["a"], &[]));
    assert_eq!((r.note, r.sleep), (None, 2 * BACKOFF_MIN));
    let r = b.failed(Fail::from("no table"));
    assert_eq!((r.note, r.sleep), (Some("no table".to_string()), 4 * BACKOFF_MIN));
    assert_eq!(b.pushed(&pass(0, 0, &[], &[])).sleep, OUTBOX_POLL);
    assert_eq!(b.pushed(&pass(0, 1, &[], &[])).sleep, BACKOFF_MIN);
}
