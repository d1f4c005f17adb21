//! The file that a supervisor reads to keep `carry` running.

use crate::compose::{cat8, cat9};
use crate::report::{Report, ReportView};
use crate::status::{wrong_with_supervisor, FactsView, SupervisorView};
use crate::text::{contains, lemma_has_middle, texts};
use vstd::prelude::*;

verus! {

/// What launchd reads.
pub open spec fn plist(exe: Seq<char>, root: Seq<char>, beb: Seq<char>) -> Seq<char> {
    "<?xml version=\"1.0\" encoding=\"UTF-8\"?>\n<!DOCTYPE plist PUBLIC \"-//Apple//DTD PLIST 1.0//EN\" \"http://www.apple.com/DTDs/PropertyList-1.0.dtd\">\n<plist version=\"1.0\">\n<dict>\n  <key>Label</key>\n  <string>dev.getbeb.courier</string>\n  <key>ProgramArguments</key>\n  <array>\n    <string>"@
        + exe + "</string>\n    <string>"@ + "carry"@
        + "</string>\n  </array>\n  <key>EnvironmentVariables</key>\n  <dict>\n    <key>BEB_COURIER_ROOT</key>\n    <string>"@
        + root + "</string>\n    <key>BEB_BIN</key>\n    <string>"@ + beb
        + "</string>\n  </dict>\n  <key>RunAtLoad</key>\n  <true/>\n  <key>KeepAlive</key>\n  <true/>\n</dict>\n</plist>\n"@
}

/// What systemd reads.
pub open spec fn service(exe: Seq<char>, root: Seq<char>, beb: Seq<char>) -> Seq<char> {
    "[Unit]\nDescription=beb-courier: carry beb mail both ways\nAfter=network-online.target\n\n[Service]\nExecStart="@
        + exe + " carry"@ + "\nEnvironment=BEB_COURIER_ROOT="@ + root
        + "\nEnvironment=BEB_BIN="@ + beb
        + "\nRestart=always\nRestartSec=5\n\n[Install]\nWantedBy=default.target\n"@
}

/// The supervisor's file of this platform.
pub open spec fn unit_text(
    macos: bool,
    exe: Seq<char>,
    root: Seq<char>,
    beb: Seq<char>,
) -> Seq<char> {
    if macos {
        plist(exe, root, beb)
    } else {
        service(exe, root, beb)
    }
}

/// Where that file goes, and what to do with it there.
pub open spec fn unit_notes(macos: bool) -> Seq<Seq<char>> {
    if macos {
        seq![
            "write that to ~/Library/LaunchAgents/dev.getbeb.courier.plist"@,
            "then: launchctl bootstrap gui/$(id -u) ~/Library/LaunchAgents/dev.getbeb.courier.plist"@,
        ]
    } else {
        seq![
            "write that to ~/.config/systemd/user/beb-courier.service"@,
            "then: systemctl --user enable --now beb-courier"@,
        ]
    }
}

/// The supervisor file for whichever supervisor this machine has. Printed and
/// never installed: where such a file belongs, and whether it is wanted, is
/// the operator's.
///
/// It names beb by `beb`, the one this operator can see: a supervisor
/// inherits none of the operator's search path.
pub fn cmd_unit(macos: bool, exe: &str, root: &str, beb: &str) -> (res: Report)
    ensures
        res@ == (ReportView {
            out: unit_text(macos, exe@, root@, beb@),
            notes: unit_notes(macos),
        }),
{
    let mut notes: Vec<String> = Vec::new();
    let out = if macos {
        notes.push("write that to ~/Library/LaunchAgents/dev.getbeb.courier.plist".to_string());
        notes.push(
            "then: launchctl bootstrap gui/$(id -u) ~/Library/LaunchAgents/dev.getbeb.courier.plist".to_string(),
        );
        cat9(
            "<?xml version=\"1.0\" encoding=\"UTF-8\"?>\n<!DOCTYPE plist PUBLIC \"-//Apple//DTD PLIST 1.0//EN\" \"http://www.apple.com/DTDs/PropertyList-1.0.dtd\">\n<plist version=\"1.0\">\n<dict>\n  <key>Label</key>\n  <string>dev.getbeb.courier</string>\n  <key>ProgramArguments</key>\n  <array>\n    <string>",
            exe,
            "</string>\n    <string>",
            "carry",
            "</string>\n  </array>\n  <key>EnvironmentVariables</key>\n  <dict>\n    <key>BEB_COURIER_ROOT</key>\n    <string>",
            root,
            "</string>\n    <key>BEB_BIN</key>\n    <string>",
            beb,
            "</string>\n  </dict>\n  <key>RunAtLoad</key>\n  <true/>\n  <key>KeepAlive</key>\n  <true/>\n</dict>\n</plist>\n",
        )
    } else {
        notes.push("write that to ~/.config/systemd/user/beb-courier.service".to_string());
        notes.push("then: systemctl --user enable --now beb-courier".to_string());
        cat8(
            "[Unit]\nDescription=beb-courier: carry beb mail both ways\nAfter=network-online.target\n\n[Service]\nExecStart=",
            exe,
            " carry",
            "\nEnvironment=BEB_COURIER_ROOT=",
            root,
            "\nEnvironment=BEB_BIN=",
            beb,
            "\nRestart=always\nRestartSec=5\n\n[Install]\nWantedBy=default.target\n",
        )
    };
    assert(texts(notes@) =~= unit_notes(macos));
    Report { out, notes }
}

/// The file that `unit` prints is one that `status` has nothing to say
/// against, where both see the same program and the same beb.
pub proof fn law_the_printed_file_agrees(
    f: FactsView,
    macos: bool,
    path: Seq<char>,
    exe: Seq<char>,
    root: Seq<char>,
)
    requires
        f.supervisor == Some(
            (SupervisorView { path, text: Some(unit_text(macos, exe, root, f.beb)) }),
        ),
        f.exe == Some(exe) || f.exe is None,
    ensures
        wrong_with_supervisor(f) == Seq::<Seq<char>>::empty(),
{
    let text = unit_text(macos, exe, root, f.beb);
    if macos {
        let head =
            "<?xml version=\"1.0\" encoding=\"UTF-8\"?>\n<!DOCTYPE plist PUBLIC \"-//Apple//DTD PLIST 1.0//EN\" \"http://www.apple.com/DTDs/PropertyList-1.0.dtd\">\n<plist version=\"1.0\">\n<dict>\n  <key>Label</key>\n  <string>dev.getbeb.courier</string>\n  <key>ProgramArguments</key>\n  <array>\n    <string>"@;
        let between = "</string>\n    <string>"@;
        let middle =
            "</string>\n  </array>\n  <key>EnvironmentVariables</key>\n  <dict>\n    <key>BEB_COURIER_ROOT</key>\n    <string>"@;
        let after_root = "</string>\n    <key>BEB_BIN</key>\n    <string>"@;
        let tail =
            "</string>\n  </dict>\n  <key>RunAtLoad</key>\n  <true/>\n  <key>KeepAlive</key>\n  <true/>\n</dict>\n</plist>\n"@;
        let before_carry = head + exe + between;
        let after_carry = middle + root + after_root + f.beb + tail;
        let after_exe = between + "carry"@ + after_carry;
        let before_beb = before_carry + "carry"@ + middle + root + after_root;
        lemma_has_middle(before_carry, "carry"@, after_carry);
        lemma_has_middle(head, exe, after_exe);
        lemma_has_middle(before_beb, f.beb, tail);
        assert(text =~= before_carry + "carry"@ + after_carry);
        assert(text =~= head + exe + after_exe);
        assert(text =~= before_beb + f.beb + tail);
    } else {
        reveal_strlit(" carry");
        reveal_strlit("carry");
        assert(" carry"@ =~= seq![' '] + "carry"@);
        let head =
            "[Unit]\nDescription=beb-courier: carry beb mail both ways\nAfter=network-online.target\n\n[Service]\nExecStart="@;
        let middle = "\nEnvironment=BEB_COURIER_ROOT="@;
        let after_root = "\nEnvironment=BEB_BIN="@;
        let tail = "\nRestart=always\nRestartSec=5\n\n[Install]\nWantedBy=default.target\n"@;
        let before_carry = head + exe + seq![' '];
        let after_carry = middle + root + after_root + f.beb + tail;
        let after_exe = " carry"@ + after_carry;
        let before_beb = head + exe + " carry"@ + middle + root + after_root;
        lemma_has_middle(before_carry, "carry"@, after_carry);
        lemma_has_middle(head, exe, after_exe);
        lemma_has_middle(before_beb, f.beb, tail);
        assert(text =~= before_carry + "carry"@ + after_carry);
        assert(text =~= head + exe + after_exe);
        assert(text =~= before_beb + f.beb + tail);
    }
    assert(wrong_with_supervisor(f) =~= Seq::<Seq<char>>::empty());
}

proof fn lemma_between(a: Seq<char>, b: Seq<char>, x: Seq<char>, c: Seq<char>, d: Seq<char>)
    ensures
        contains((a + b) + x + (c + d), b + x + c),
{
    lemma_has_middle(a, b + x + c, d);
    lemma_between_apart(a, b, x, c, d);
}

proof fn lemma_between_apart(
    a: Seq<char>,
    b: Seq<char>,
    x: Seq<char>,
    c: Seq<char>,
    d: Seq<char>,
)
    ensures
        (a + b) + x + (c + d) == a + (b + x + c) + d,
{
    assert((a + b) + x + (c + d) =~= a + (b + x + c) + d);
}

/// What systemd is told: to run `carry` of this program, where the courier
/// keeps its key and its table, and which beb to call.
pub proof fn law_what_systemd_is_told(exe: Seq<char>, root: Seq<char>, beb: Seq<char>)
    ensures
        contains(unit_text(false, exe, root, beb), "ExecStart="@ + exe + " carry\n"@),
        contains(unit_text(false, exe, root, beb), "BEB_COURIER_ROOT="@ + root + "\n"@),
        contains(unit_text(false, exe, root, beb), "BEB_BIN="@ + beb + "\n"@),
{
    let head =
        "[Unit]\nDescription=beb-courier: carry beb mail both ways\nAfter=network-online.target\n\n[Service]\nExecStart="@;
    let before =
        "[Unit]\nDescription=beb-courier: carry beb mail both ways\nAfter=network-online.target\n\n[Service]\n"@;
    let run = " carry"@;
    let rooted = "\nEnvironment=BEB_COURIER_ROOT="@;
    let binned = "\nEnvironment=BEB_BIN="@;
    let tail = "\nRestart=always\nRestartSec=5\n\n[Install]\nWantedBy=default.target\n"@;
    let feed = "\n"@;
    assert(head =~= before + "ExecStart="@) by {
        reveal_strlit(
            "[Unit]\nDescription=beb-courier: carry beb mail both ways\nAfter=network-online.target\n\n[Service]\nExecStart=",
        );
        reveal_strlit(
            "[Unit]\nDescription=beb-courier: carry beb mail both ways\nAfter=network-online.target\n\n[Service]\n",
        );
        reveal_strlit("ExecStart=");
    }
    assert(rooted =~= feed + rooted.drop_first() && rooted =~= "\nEnvironment="@
        + "BEB_COURIER_ROOT="@) by {
        reveal_strlit("\nEnvironment=BEB_COURIER_ROOT=");
        reveal_strlit("\nEnvironment=");
        reveal_strlit("BEB_COURIER_ROOT=");
        reveal_strlit("\n");
    }
    assert(binned =~= feed + binned.drop_first() && binned =~= "\nEnvironment="@ + "BEB_BIN="@) by {
        reveal_strlit("\nEnvironment=BEB_BIN=");
        reveal_strlit("\nEnvironment=");
        reveal_strlit("BEB_BIN=");
        reveal_strlit("\n");
    }
    assert(tail =~= feed + tail.drop_first()) by {
        reveal_strlit("\nRestart=always\nRestartSec=5\n\n[Install]\nWantedBy=default.target\n");
        reveal_strlit("\n");
    }
    assert(" carry\n"@ =~= run + feed) by {
        reveal_strlit(" carry\n");
        reveal_strlit(" carry");
        reveal_strlit("\n");
    }
    let after_root = binned + beb + tail;
    let rest = rooted.drop_first() + root + after_root;
    lemma_between(before, "ExecStart="@, exe, run + feed, rest);
    lemma_service_at_exe(head, exe, run, feed, rooted.drop_first(), root, binned, beb, tail);
    let lead = head + exe + run;
    lemma_between(
        lead + "\nEnvironment="@,
        "BEB_COURIER_ROOT="@,
        root,
        feed,
        binned.drop_first() + beb + tail,
    );
    lemma_root_between(
        lead,
        "\nEnvironment="@,
        "BEB_COURIER_ROOT="@,
        root,
        feed,
        binned.drop_first(),
        beb,
        tail,
    );
    let front = lead + rooted + root;
    lemma_between(front + "\nEnvironment="@, "BEB_BIN="@, beb, feed, tail.drop_first());
    assert(front + ("\nEnvironment="@ + "BEB_BIN="@) =~= front + "\nEnvironment="@ + "BEB_BIN="@);
}

proof fn lemma_service_at_exe(
    head: Seq<char>,
    exe: Seq<char>,
    run: Seq<char>,
    feed: Seq<char>,
    rooted: Seq<char>,
    root: Seq<char>,
    binned: Seq<char>,
    beb: Seq<char>,
    tail: Seq<char>,
)
    ensures
        head + exe + run + (feed + rooted) + root + binned + beb + tail == head + exe + ((run + feed)
            + (rooted + root + (binned + beb + tail))),
{
    assert(head + exe + run + (feed + rooted) + root + binned + beb + tail =~= head + exe + ((run
        + feed) + (rooted + root + (binned + beb + tail))));
}

proof fn lemma_root_between(
    lead: Seq<char>,
    env: Seq<char>,
    name: Seq<char>,
    root: Seq<char>,
    feed: Seq<char>,
    binned: Seq<char>,
    beb: Seq<char>,
    tail: Seq<char>,
)
    ensures
        lead + (env + name) + root + (feed + binned) + beb + tail == ((lead + env) + name) + root + (
        feed + (binned + beb + tail)),
{
    assert(lead + (env + name) + root + (feed + binned) + beb + tail =~= ((lead + env) + name) + root
        + (feed + (binned + beb + tail)));
}

/// What launchd is told: to run `carry` of this program, where the courier
/// keeps its key and its table, and which beb to call.
pub proof fn law_what_launchd_is_told(exe: Seq<char>, root: Seq<char>, beb: Seq<char>)
    ensures
        contains(
            unit_text(true, exe, root, beb),
            "<string>"@ + exe + "</string>\n    <string>carry</string>"@,
        ),
        contains(
            unit_text(true, exe, root, beb),
            "<key>BEB_COURIER_ROOT</key>\n    <string>"@ + root + "</string>"@,
        ),
        contains(
            unit_text(true, exe, root, beb),
            "<key>BEB_BIN</key>\n    <string>"@ + beb + "</string>"@,
        ),
{
    let head =
        "<?xml version=\"1.0\" encoding=\"UTF-8\"?>\n<!DOCTYPE plist PUBLIC \"-//Apple//DTD PLIST 1.0//EN\" \"http://www.apple.com/DTDs/PropertyList-1.0.dtd\">\n<plist version=\"1.0\">\n<dict>\n  <key>Label</key>\n  <string>dev.getbeb.courier</string>\n  <key>ProgramArguments</key>\n  <array>\n    <string>"@;
    let before =
        "<?xml version=\"1.0\" encoding=\"UTF-8\"?>\n<!DOCTYPE plist PUBLIC \"-//Apple//DTD PLIST 1.0//EN\" \"http://www.apple.com/DTDs/PropertyList-1.0.dtd\">\n<plist version=\"1.0\">\n<dict>\n  <key>Label</key>\n  <string>dev.getbeb.courier</string>\n  <key>ProgramArguments</key>\n  <array>\n    "@;
    let between = "</string>\n    <string>"@;
    let middle =
        "</string>\n  </array>\n  <key>EnvironmentVariables</key>\n  <dict>\n    <key>BEB_COURIER_ROOT</key>\n    <string>"@;
    let inner = "</string>\n  </array>\n  <key>EnvironmentVariables</key>\n  <dict>\n    "@;
    let after_root = "</string>\n    <key>BEB_BIN</key>\n    <string>"@;
    let tail =
        "</string>\n  </dict>\n  <key>RunAtLoad</key>\n  <true/>\n  <key>KeepAlive</key>\n  <true/>\n</dict>\n</plist>\n"@;
    let rooted = "<key>BEB_COURIER_ROOT</key>\n    <string>"@;
    let binned = "<key>BEB_BIN</key>\n    <string>"@;
    let end = "</string>"@;
    let gap = "</string>\n    "@;
    assert(head =~= before + "<string>"@) by {
        reveal_strlit(
            "<?xml version=\"1.0\" encoding=\"UTF-8\"?>\n<!DOCTYPE plist PUBLIC \"-//Apple//DTD PLIST 1.0//EN\" \"http://www.apple.com/DTDs/PropertyList-1.0.dtd\">\n<plist version=\"1.0\">\n<dict>\n  <key>Label</key>\n  <string>dev.getbeb.courier</string>\n  <key>ProgramArguments</key>\n  <array>\n    <string>",
        );
        reveal_strlit(
            "<?xml version=\"1.0\" encoding=\"UTF-8\"?>\n<!DOCTYPE plist PUBLIC \"-//Apple//DTD PLIST 1.0//EN\" \"http://www.apple.com/DTDs/PropertyList-1.0.dtd\">\n<plist version=\"1.0\">\n<dict>\n  <key>Label</key>\n  <string>dev.getbeb.courier</string>\n  <key>ProgramArguments</key>\n  <array>\n    ",
        );
        reveal_strlit("<string>");
    }
    assert(middle =~= inner + rooted && middle =~= end + middle.skip(9)) by {
        reveal_strlit(
            "</string>\n  </array>\n  <key>EnvironmentVariables</key>\n  <dict>\n    <key>BEB_COURIER_ROOT</key>\n    <string>",
        );
        reveal_strlit("</string>\n  </array>\n  <key>EnvironmentVariables</key>\n  <dict>\n    ");
        reveal_strlit("<key>BEB_COURIER_ROOT</key>\n    <string>");
        reveal_strlit("</string>");
    }
    assert(after_root =~= gap + binned && after_root =~= end + after_root.skip(9)) by {
        reveal_strlit("</string>\n    <key>BEB_BIN</key>\n    <string>");
        reveal_strlit("</string>\n    ");
        reveal_strlit("<key>BEB_BIN</key>\n    <string>");
        reveal_strlit("</string>");
    }
    assert(tail =~= end + tail.skip(9)) by {
        reveal_strlit(
            "</string>\n  </dict>\n  <key>RunAtLoad</key>\n  <true/>\n  <key>KeepAlive</key>\n  <true/>\n</dict>\n</plist>\n",
        );
        reveal_strlit("</string>");
    }
    assert("</string>\n    <string>carry</string>"@ =~= between + "carry"@ + end) by {
        reveal_strlit("</string>\n    <string>carry</string>");
        reveal_strlit("</string>\n    <string>");
        reveal_strlit("carry");
        reveal_strlit("</string>");
    }
    let carry = "carry"@;
    let rest = middle.skip(9) + root + after_root + beb + tail;
    lemma_between(before, "<string>"@, exe, between + carry + end, rest);
    lemma_plist_at_exe(
        head,
        exe,
        between,
        carry,
        end,
        middle.skip(9),
        root,
        after_root,
        beb,
        tail,
    );
    let lead = head + exe + between + carry;
    lemma_between(lead + inner, rooted, root, end, after_root.skip(9) + beb + tail);
    lemma_root_between(lead, inner, rooted, root, end, after_root.skip(9), beb, tail);
    let front = lead + middle + root;
    lemma_between(front + gap, binned, beb, end, tail.skip(9));
    assert(front + (gap + binned) =~= front + gap + binned);
}

proof fn lemma_plist_at_exe(
    head: Seq<char>,
    exe: Seq<char>,
    between: Seq<char>,
    carry: Seq<char>,
    end: Seq<char>,
    middle: Seq<char>,
    root: Seq<char>,
    after_root: Seq<char>,
    beb: Seq<char>,
    tail: Seq<char>,
)
    ensures
        head + exe + between + carry + (end + middle) + root + after_root + beb + tail == head + exe
            + ((between + carry + end) + (middle + root + after_root + beb + tail)),
{
    assert(head + exe + between + carry + (end + middle) + root + after_root + beb + tail =~= head
        + exe + ((between + carry + end) + (middle + root + after_root + beb + tail)));
}

} // verus!
