//! Places, and paths to what is kept.

use beb_courier::paths::{
    authorized_keys_path, beb_candidates, beb_in_use, beb_path, depot_path, home, join_path,
    key_path, outbox_path, public_key_path, root, routes_draft_path, routes_path, spool,
    ssh_config_path, supervisor_path, Candidate,
};
use beb_courier::place::{parse_place, show, show_in_full, Place};

fn place(host: &str, port: Option<&str>) -> Place {
    Place { host: host.to_string(), port: port.map(str::to_string) }
}

fn candidate(path: &str, runs: bool) -> Candidate {
    Candidate { path: path.to_string(), runs }
}

#[test]
fn place_with_a_port() {
    let p = parse_place("ssh://me@bob.lan:2222").unwrap();
    assert_eq!(p, place("me@bob.lan", Some("2222")));
    assert_eq!(show(&p), "me@bob.lan:2222");
    assert_eq!(show_in_full(&p), "ssh://me@bob.lan:2222");
}

#[test]
fn place_without_a_port() {
    let p = parse_place("ssh://depot.internal").unwrap();
    assert_eq!(p, place("depot.internal", None));
    assert_eq!(show(&p), "depot.internal");
}

#[test]
fn a_colon_without_digits_behind_it_is_part_of_the_host() {
    for s in ["host:", "host:12a", ":22", "[::1]", "a:b"] {
        let p = parse_place(&format!("ssh://{s}")).unwrap();
        assert_eq!(p, place(s, None));
    }
    assert_eq!(parse_place("ssh://[::1]:22").unwrap(), place("[::1]", Some("22")));
    assert_eq!(parse_place("ssh://a:1:2").unwrap(), place("a:1", Some("2")));
}

#[test]
fn what_is_not_a_place_is_refused() {
    let f = parse_place("bob.lan").unwrap_err();
    assert_eq!(f.code, 3);
    assert_eq!(f.msg, "\"bob.lan\" is not a place; it looks like ssh://[user@]host[:port]");
    for s in ["ssh://", "ssh://bob/x"] {
        let f = parse_place(s).unwrap_err();
        assert_eq!(f.code, 3);
        assert_eq!(
            f.msg,
            format!("\"{s}\" is not a place; it looks like ssh://[user@]host[:port], with no path")
        );
    }
}

#[test]
fn a_place_shown_is_read_back() {
    for s in ["ssh://bob.lan", "ssh://me@bob.lan:22", "ssh://[::1]:022", "ssh://a:"] {
        let p = parse_place(s).unwrap();
        assert_eq!(show_in_full(&p), s);
        assert_eq!(parse_place(&show_in_full(&p)).unwrap(), p);
        assert_eq!(p.clone(), p);
    }
    assert_ne!(place("a", None), place("a", Some("1")));
    assert_ne!(place("a", None), place("b", None));
}

#[test]
fn names_are_joined_with_one_slash() {
    assert_eq!(join_path(b"/a", "b"), b"/a/b");
    assert_eq!(join_path(b"/a/", "b"), b"/a/b");
    assert_eq!(join_path(b"", "b"), b"b");
}

#[test]
fn home_must_be_set_to_something() {
    assert_eq!(home(Some(b"/home/me")).unwrap(), b"/home/me");
    for v in [None, Some(&b""[..])] {
        let f = home(v).unwrap_err();
        assert_eq!((f.code, f.msg.as_str()), (1, "HOME is not set"));
    }
}

#[test]
fn the_root_is_given_or_under_home() {
    assert_eq!(root(Some(b"/srv/c"), None).unwrap(), b"/srv/c");
    assert_eq!(
        root(Some(b""), Some(b"/home/me")).unwrap(),
        b"/home/me/.local/share/beb-courier"
    );
    assert_eq!(root(None, None).unwrap_err().msg, "HOME is not set");
}

#[test]
fn the_spool_is_bebs() {
    assert_eq!(spool(Some(b"/data"), None).unwrap(), b"/data/beb");
    assert_eq!(spool(Some(b""), Some(b"/home/me")).unwrap(), b"/home/me/.local/share/beb");
    assert_eq!(spool(None, Some(b"")).unwrap_err().msg, "HOME is not set");
    assert_eq!(outbox_path(b"/data/beb"), b"/data/beb/outbox");
}

#[test]
fn authorized_keys_are_given_or_under_home() {
    assert_eq!(authorized_keys_path(Some(b"/ak"), None).unwrap(), b"/ak");
    assert_eq!(
        authorized_keys_path(None, Some(b"/home/me")).unwrap(),
        b"/home/me/.ssh/authorized_keys"
    );
    assert_eq!(authorized_keys_path(None, None).unwrap_err().code, 1);
}

#[test]
fn each_platform_has_its_supervisor() {
    assert_eq!(
        supervisor_path(Some(b"/Users/me"), true).unwrap(),
        b"/Users/me/Library/LaunchAgents/dev.getbeb.courier.plist"
    );
    assert_eq!(
        supervisor_path(Some(b"/home/me"), false).unwrap(),
        b"/home/me/.config/systemd/user/beb-courier.service"
    );
    assert_eq!(supervisor_path(None, false), None);
}

#[test]
fn what_the_root_holds() {
    assert_eq!(key_path(b"/r"), b"/r/id_ed25519");
    assert_eq!(public_key_path(b"/r"), b"/r/id_ed25519.pub");
    assert_eq!(routes_path(b"/r"), b"/r/routes");
    assert_eq!(routes_draft_path(b"/r"), b"/r/routes.writing");
    assert_eq!(depot_path(b"/r"), b"/r/depot");
    assert_eq!(ssh_config_path(b"/r"), b"/r/ssh_config");
}

#[test]
fn beb_is_looked_for_as_a_shell_would() {
    assert_eq!(
        beb_candidates(b"/usr/local/bin:/usr/bin/::x"),
        vec![&b"/usr/local/bin/beb"[..], b"/usr/bin/beb", b"beb", b"x/beb"]
    );
    assert_eq!(beb_candidates(b""), vec![&b"beb"[..]]);
    assert_eq!(beb_candidates(b"/a:"), vec![&b"/a/beb"[..], b"beb"]);
}

#[test]
fn beb_bin_comes_before_what_was_found() {
    let found = [candidate("/a/beb", false), candidate("/b/beb", true), candidate("/c/beb", true)];
    assert_eq!(beb_path(Some("/opt/beb"), &found), "/opt/beb");
    assert_eq!(beb_path(Some(""), &found), "/b/beb");
    assert_eq!(beb_path(None, &found), "/b/beb");
    assert_eq!(beb_path(None, &found[..1]), "beb");
    assert_eq!(beb_path(Some(""), &[]), "beb");
    assert_eq!(beb_path(None, &[]), "beb");
    assert_eq!(beb_in_use(Some("x"), "beb"), "x");
    assert_eq!(beb_in_use(Some(""), "beb"), "");
    assert_eq!(beb_in_use(None, "beb"), "beb");
}
