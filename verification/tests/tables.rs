//! The table: reading it, listing it, adding to it and removing from it.

use beb_courier::append::append;
use beb_courier::handover::Handover;
use beb_courier::place::{parse_place, Place};
use beb_courier::routes::{
    default_route, line_address, line_place, parse_routes, read_routes, resolve, Route,
};
use beb_courier::table::{
    removed_note, route_add, route_line, route_list, route_rm, route_to, routes_from, subject,
    Subject, Target,
};

fn addr(c: char) -> String {
    c.to_string().repeat(64)
}

fn place(s: &str) -> Place {
    parse_place(s).unwrap()
}

fn read(text: &str) -> Vec<Route> {
    parse_routes(text, "/r/routes").unwrap()
}

fn said(text: &str) -> (u8, String) {
    let f = parse_routes(text, "/r/routes").unwrap_err();
    (f.code, f.msg)
}

fn texts(v: &[&str]) -> Vec<String> {
    v.iter().map(|s| s.to_string()).collect()
}

#[test]
fn a_table_is_read() {
    let text = format!(
        "# mine\n\nssh://depot.internal\n  {} ssh://bob.lan:22   # beb-courier@bob  x \n",
        addr('d')
    );
    let t = read(&text);
    assert_eq!(t.len(), 2);
    assert_eq!(t[0].addr, None);
    assert_eq!(t[0].place, place("ssh://depot.internal"));
    assert_eq!(t[0].note, "");
    assert_eq!(t[1].addr, Some(addr('d')));
    assert_eq!(t[1].place, place("ssh://bob.lan:22"));
    assert_eq!(t[1].note, "# beb-courier@bob  x");
}

#[test]
fn a_line_that_is_neither_is_refused() {
    assert_eq!(
        said("\nbob.lan.and.then.some ssh://x\n"),
        (
            3,
            "line 2 of /r/routes begins \"bob.lan.and.then…\", which is not an address; a line is [ADDRESS] ssh://host, and no address means everything else".to_string()
        )
    );
}

#[test]
fn an_address_without_a_place_is_refused() {
    assert_eq!(
        said(&addr('a')),
        (
            3,
            "line 1 of /r/routes names an address and no place; a line is [ADDRESS] ssh://host".to_string()
        )
    );
}

#[test]
fn a_bad_place_in_the_table_is_refused() {
    assert_eq!(
        said(&format!("{} bob", addr('a'))),
        (3, "\"bob\" is not a place; it looks like ssh://[user@]host[:port]".to_string())
    );
}

#[test]
fn one_address_one_place() {
    let twice = format!("{0} ssh://x\n# c\n{0} ssh://y\n", addr('a'));
    assert_eq!(
        said(&twice),
        (
            3,
            format!("line 3 of /r/routes routes {} a second time; one address, one place", addr('a'))
        )
    );
    assert_eq!(
        said("ssh://x\nssh://x"),
        (
            3,
            "line 2 of /r/routes routes everything else a second time; one address, one place".to_string()
        )
    );
}

#[test]
fn the_old_file_is_refused_and_told_what_to_write() {
    let f = read_routes(Some(" ssh://old \n"), "/r/depot", Some("ssh://new"), "/r/routes")
        .unwrap_err();
    assert_eq!(f.code, 3);
    assert_eq!(
        f.msg,
        "/r/depot names a place, and nothing reads that file now\nrm /r/depot\nbeb-courier route add ssh://old"
    );
    let f = read_routes(Some("\n"), "/r/depot", None, "/r/routes").unwrap_err();
    assert!(f.msg.ends_with("beb-courier route add ssh://host"));
}

#[test]
fn no_table_is_an_empty_one() {
    assert_eq!(read_routes(None, "/r/depot", None, "/r/routes").unwrap().len(), 0);
    assert_eq!(read_routes(None, "/r/depot", Some("ssh://x"), "/r/routes").unwrap().len(), 1);
}

#[test]
fn an_exact_route_wins() {
    let t = read(&format!("ssh://depot\n{} ssh://bob.lan\n", addr('d')));
    assert_eq!(resolve(&t, &addr('d')), Some(&place("ssh://bob.lan")));
    assert_eq!(resolve(&t, &addr('e')), Some(&place("ssh://depot")));
    assert_eq!(default_route(&t), Some(&place("ssh://depot")));
    let only = read(&format!("{} ssh://bob.lan\n", addr('d')));
    assert_eq!(resolve(&only, &addr('e')), None);
    assert_eq!(default_route(&only), None);
}

#[test]
fn what_a_line_names() {
    let a = addr('a');
    assert_eq!(line_address(&format!("  {a} ssh://x")), Some(a.as_str()));
    assert_eq!(line_address("ssh://x"), None);
    assert_eq!(line_address(""), None);
    assert_eq!(line_place(&format!("{a} ssh://x:22 # n")), Some("x:22".to_string()));
    assert_eq!(line_place(" ssh://x"), Some("x".to_string()));
    assert_eq!(line_place(&a), None);
    assert_eq!(line_place(""), None);
    assert_eq!(line_place(&format!("{a} x")), None);
}

#[test]
fn a_comment_names_no_place() {
    assert_eq!(line_place("# ssh://x was here"), None);
    assert_eq!(line_address(&format!("#{}", addr('a'))), None);
    let text = "# ssh://x was here\nssh://x\n";
    let r = route_rm(None, "/r/depot", Some(text), &Target::Place("x".to_string()), "/r").unwrap();
    assert_eq!(r.kept, "# ssh://x was here\n");
    assert_eq!(r.gone, 1);
}

#[test]
fn a_listing_is_in_the_format_of_the_table() {
    let text = format!("ssh://depot.internal\n{} ssh://bob.lan   # beb-courier@bob\n", addr('d'));
    let r = route_list(&read(&text), &Vec::new(), "/r/routes").unwrap();
    assert_eq!(
        r.out,
        format!("ssh://depot.internal\n{} ssh://bob.lan # beb-courier@bob\n", addr('d'))
    );
    assert_eq!(r.notes, texts(&["2 routes; nothing waiting to leave"]));
}

#[test]
fn a_listing_is_read_back() {
    let text = format!("# c\nssh://a:1 x  y\n\n{} ssh://b\n", addr('d'));
    let t = read(&text);
    let r = route_list(&t, &Vec::new(), "/r/routes").unwrap();
    let again = route_list(&read(&r.out), &Vec::new(), "/r/routes").unwrap();
    assert_eq!(again.out, r.out);
    assert_eq!(r.out, format!("ssh://a:1 x  y\n{} ssh://b\n", addr('d')));
}

#[test]
fn a_listing_says_who_has_no_route() {
    let t = read(&format!("{} ssh://b\n", addr('d')));
    let waiting = vec![addr('d'), addr('e'), addr('e'), addr('f')];
    let r = route_list(&t, &waiting, "/r/routes").unwrap();
    assert_eq!(
        r.notes,
        vec![
            "1 route; 2 waiting to leave match none".to_string(),
            format!("no route for eeeeeeee…: beb-courier route add {} ssh://host", addr('e')),
            format!("no route for ffffffff…: beb-courier route add {} ssh://host", addr('f')),
        ]
    );
    let r = route_list(&t, &vec![addr('d')], "/r/routes").unwrap();
    assert_eq!(r.notes, texts(&["1 route; everything waiting to leave has one"]));
}

#[test]
fn an_empty_table_has_nothing_to_list() {
    let f = route_list(&[], &Vec::new(), "/r/routes").unwrap_err();
    assert_eq!(f.code, 2);
    assert_eq!(
        f.msg,
        "no routes in /r/routes; name one with: beb-courier route add ssh://host"
    );
}

#[test]
fn what_route_add_is_asked_to_route() {
    assert!(matches!(subject(None, false), Ok(Subject::Rest)));
    assert!(matches!(subject(Some(&addr('a')), true), Ok(Subject::Address(a)) if a == addr('a')));
    assert!(matches!(subject(Some("bob.handover"), true), Ok(Subject::Handover(p)) if p == "bob.handover"));
    assert!(matches!(subject(Some("-"), false), Ok(Subject::Handover(p)) if p == "-"));
    let f = subject(Some("a-file-that-is-not-there-at-all"), false).unwrap_err();
    assert_eq!(f.code, 3);
    assert_eq!(
        f.msg,
        "\"a-file-that-is-not-there…\" is not an address and not a file that is here\nfor everything else, name the place alone: beb-courier route add ssh://host"
    );
}

fn handover(label: &str, addresses: Vec<String>) -> Handover {
    Handover { key: format!("ssh-ed25519 AAAA {label}"), label: label.to_string(), addresses }
}

#[test]
fn a_handover_is_routed_with_its_label() {
    let h = handover("beb-courier@bob", vec![addr('b'), addr('c')]);
    let p = place("ssh://bob.lan");
    let adding = routes_from(&h, &p, "bob.handover").unwrap();
    let r = route_add(&[], &adding, &p, "/r/routes").unwrap();
    assert_eq!(
        r.out,
        format!(
            "{} ssh://bob.lan # beb-courier@bob\n{} ssh://bob.lan # beb-courier@bob\n",
            addr('b'),
            addr('c')
        )
    );
    assert_eq!(
        r.notes,
        texts(&[
            "2 routes to bob.lan, in /r/routes",
            "bob.lan must let this key drop: beb-courier whoami prints the handover it needs",
        ])
    );
}

#[test]
fn a_handover_naming_an_address_twice_is_routed_once() {
    let h = handover("", vec![addr('b'), addr('c'), addr('b')]);
    let p = place("ssh://bob.lan");
    let adding = routes_from(&h, &p, "bob.handover").unwrap();
    let r = route_add(&[], &adding, &p, "/r/routes").unwrap();
    assert_eq!(r.out, format!("{} ssh://bob.lan\n{} ssh://bob.lan\n", addr('b'), addr('c')));
    assert_eq!(read(&r.out).len(), 2);
}

#[test]
fn a_handover_without_addresses_is_refused() {
    let f = routes_from(&handover("x", Vec::new()), &place("ssh://b"), "bob.handover").unwrap_err();
    assert_eq!(f.code, 3);
    assert_eq!(
        f.msg,
        "bob.handover names no addresses, so there is nothing there to route to\nthat machine has no identity reading on it yet: beb init NAME, then whoami again"
    );
}

#[test]
fn adding_the_rest() {
    let p = place("ssh://depot.internal");
    let r = route_add(&[], &route_to(None, &p), &p, "/r/routes").unwrap();
    assert_eq!(r.out, "ssh://depot.internal\n");
    assert_eq!(r.notes[0], "everything not routed elsewhere goes to depot.internal");
}

#[test]
fn adding_what_is_there_is_refused() {
    let t = read(&format!("ssh://depot:1\n{} ssh://bob.lan\n", addr('b')));
    let p = place("ssh://elsewhere");
    let f = route_add(&t, &route_to(Some(addr('b')), &p), &p, "/r/routes").unwrap_err();
    assert_eq!(f.code, 3);
    assert_eq!(
        f.msg,
        format!(
            "bbbbbbbbbbbbbbbb… already goes to bob.lan; beb-courier route rm {} first",
            addr('b')
        )
    );
    let f = route_add(&t, &route_to(None, &p), &p, "/r/routes").unwrap_err();
    assert_eq!(
        f.msg,
        "everything else already goes to depot:1; beb-courier route rm ssh://depot:1 first"
    );
}

#[test]
fn a_handover_is_added_whole_or_not_at_all() {
    let t = read(&format!("{} ssh://x\n", addr('c')));
    let p = place("ssh://bob.lan");
    let h = handover("", vec![addr('b'), addr('c')]);
    let adding = routes_from(&h, &p, "f").unwrap();
    let f = route_add(&t, &adding, &p, "/r/routes").unwrap_err();
    assert!(f.msg.starts_with("cccccccccccccccc… already goes to x;"));
}

#[test]
fn added_routes_are_read_back() {
    let text = "# mine\nssh://depot\n";
    let p = place("ssh://bob.lan:2222");
    let r = route_add(&read(text), &route_to(Some(addr('b')), &p), &p, "/r/routes").unwrap();
    let t = read(&format!("{text}{}", r.out));
    assert_eq!(t.len(), 2);
    assert_eq!(resolve(&t, &addr('b')), Some(&p));
    assert_eq!(route_line(&t[1]), format!("{} ssh://bob.lan:2222", addr('b')));
}

#[test]
fn removing_undoes_adding() {
    let text = "# mine\n\nssh://depot\n";
    let p = place("ssh://bob.lan");
    let r = route_add(&read(text), &route_to(Some(addr('b')), &p), &p, "/r/routes").unwrap();
    let after = format!("{text}{}", r.out);
    let gone = route_rm(None, "/r/depot", Some(&after), &Target::Address(addr('b')), "/r").unwrap();
    assert_eq!(gone.kept, text);
    assert_eq!(gone.gone, 1);
}

#[test]
fn removing_by_place_undoes_adding_the_rest() {
    let text = format!("{} ssh://x\n", addr('a'));
    let p = place("ssh://depot:22");
    let r = route_add(&read(&text), &route_to(None, &p), &p, "/r/routes").unwrap();
    let after = format!("{text}{}", r.out);
    let gone = route_rm(None, "/r/depot", Some(&after), &Target::Place("depot:22".to_string()), "/r").unwrap();
    assert_eq!(gone.kept, text);
}

#[test]
fn routes_added_behind_any_table_are_read_back() {
    for text in ["", "ssh://depot", "ssh://depot\n", "ssh://depot\n \t", "ssh://depot # x\r"] {
        let p = place("ssh://bob");
        let was = read(text);
        let r = route_add(&was, &route_to(Some(addr('b')), &p), &p, "/r/routes").unwrap();
        let added = append(text.as_bytes(), &r.out);
        let after = format!("{text}{}", String::from_utf8(added).unwrap());
        let t = read(&after);
        assert_eq!(t.len(), was.len() + 1);
        assert_eq!(resolve(&t, &addr('b')), Some(&p));
        assert_eq!(default_route(&t), default_route(&was));
        let target = Target::Address(addr('b'));
        let gone = route_rm(None, "/r/depot", Some(&after), &target, "/r").unwrap();
        assert_eq!(read(&gone.kept).len(), was.len());
    }
    assert_eq!(append(b"ssh://depot", "x\n"), b"\nx\n");
}

#[test]
fn collection_is_from_the_route_without_an_address() {
    let t = read(&format!("{} ssh://x\nssh://depot\n{} ssh://y\n", addr('a'), addr('b')));
    assert_eq!(default_route(&t), Some(&place("ssh://depot")));
}

#[test]
fn removing_a_place_takes_everything_going_there() {
    let text = format!(
        "ssh://x\n{} ssh://x # one\n{} ssh://x:22\n{} ssh://y\n",
        addr('a'),
        addr('b'),
        addr('c')
    );
    let target = Target::Place("x".to_string());
    let r = route_rm(None, "/r/depot", Some(&text), &target, "/r").unwrap();
    assert_eq!(r.gone, 2);
    assert_eq!(r.kept, format!("{} ssh://x:22\n{} ssh://y\n", addr('b'), addr('c')));
    let left = read(&r.kept);
    assert_eq!(resolve(&left, &addr('a')), None);
    assert_eq!(removed_note(&target, r.gone, &left), "2 routes to x removed");
}

#[test]
fn an_address_taken_out_goes_where_everything_else_does() {
    let target = Target::Address(addr('a'));
    let text = format!("ssh://depot\n{} ssh://x\n", addr('a'));
    let r = route_rm(None, "/r/depot", Some(&text), &target, "/r").unwrap();
    let left = read(&r.kept);
    assert_eq!(resolve(&left, &addr('a')), Some(&place("ssh://depot")));
    assert_eq!(
        removed_note(&target, r.gone, &left),
        "aaaaaaaa… is not routed on its own now, so it goes where everything else does: depot"
    );
    assert_eq!(removed_note(&target, 1, &[]), "aaaaaaaa… is not routed now");
}

#[test]
fn nothing_is_removed_while_the_old_file_is_there() {
    let text = format!("{} ssh://h\n", addr('a'));
    for table in [Some(text.as_str()), None] {
        let f = route_rm(Some("ssh://d\n"), "/r/depot", table, &Target::Address(addr('a')), "/r")
            .unwrap_err();
        assert_eq!(f.code, 3);
        assert_eq!(
            f.msg,
            "/r/depot names a place, and nothing reads that file now\nrm /r/depot\nbeb-courier route add ssh://d"
        );
    }
}

#[test]
fn removing_what_is_not_there() {
    let f = route_rm(None, "/r/depot", Some("ssh://x\n"), &Target::Place("y".to_string()), "/r").unwrap_err();
    assert_eq!((f.code, f.msg.as_str()), (2, "nothing is routed to y"));
    let f = route_rm(None, "/r/depot", Some("ssh://x\n"), &Target::Address(addr('a')), "/r").unwrap_err();
    assert_eq!((f.code, f.msg.as_str()), (2, "aaaaaaaaaaaaaaaa… is not routed anywhere"));
    let f = route_rm(None, "/r/depot", Some("bob ssh://x\n"), &Target::Address("bob".to_string()), "/r").unwrap_err();
    assert_eq!((f.code, f.msg.as_str()), (2, "bob is not routed anywhere"));
    let f = route_rm(None, "/r/depot", None, &Target::Address(addr('a')), "/r").unwrap_err();
    assert_eq!((f.code, f.msg.as_str()), (1, "no routes in /r"));
}
