//! Letting a peer's courier drop mail here.

use crate::append::{append, ended, law_adding_to_a_text, lemma_lines_ended, written};
use crate::compose::{cat2, cat3, cat5, cat7};
use crate::fail::{idle, nothing, refusal, refused, Fail, FailView};
use crate::handover::{handover_in, is_key, lemma_handover_key, Handover, HandoverView};
use crate::number::{decimal, decimal_of};
use crate::report::{Report, ReportView};
use crate::table::report_result;
use crate::text::{
    after_word, chomp, contains, first_word, has_char, has_part, lemma_contains_within,
    lemma_first_word, lemma_lines_concat, lemma_lines_one, lemma_trim_none, lemma_trim_twice,
    lines, same, slice_opt, slices, split_lines, split_words, starts_with, texts, trim, trimmed,
    words,
};
use vstd::prelude::*;
use vstd::utf8::encode_utf8;

verus! {

/// Something that a forced command cannot carry: a quote, a backslash or a
/// line feed would end the line early.
pub open spec fn unquotable(s: Seq<char>) -> bool {
    s.contains('\'') || s.contains('"') || s.contains('\\') || s.contains('\n')
}

/// One argument of a forced command.
pub open spec fn quoted(s: Seq<char>) -> Result<Seq<char>, FailView> {
    if unquotable(s) {
        Err(
            refusal(
                s
                    + " cannot go in a forced command; a quote or a backslash in the path would end the line early. move it somewhere plainer"@,
            ),
        )
    } else {
        Ok("'"@ + s + "'"@)
    }
}

/// What sshd runs for the peer: beb's `drop`, told where the spool is if
/// `data_home` says so.
pub open spec fn forced_command(beb: Seq<char>, data_home: Option<Seq<char>>) -> Result<
    Seq<char>,
    FailView,
> {
    match quoted(beb) {
        Err(f) => Err(f),
        Ok(b) => match data_home {
            Some(x) => if x.len() == 0 {
                Ok(b + " drop"@)
            } else {
                match quoted(x) {
                    Err(f) => Err(f),
                    Ok(d) => Ok("env XDG_DATA_HOME="@ + d + " "@ + b + " drop"@),
                }
            },
            None => Ok(b + " drop"@),
        },
    }
}

/// The line of authorized_keys that lets the key in.
pub open spec fn grant_line(command: Seq<char>, key: Seq<char>) -> Seq<char> {
    "command=\""@ + command + "\",restrict "@ + key
}

/// The key itself, without its type and comment.
pub open spec fn blob(key: Seq<char>) -> Seq<char> {
    if words(key).len() >= 2 {
        words(key)[1]
    } else {
        Seq::empty()
    }
}

/// The position of the first line with `b` in it, or how many lines there are.
pub open spec fn holder(ls: Seq<Seq<char>>, b: Seq<char>) -> nat
    decreases ls.len(),
{
    if ls.len() > 0 && !contains(ls[0], b) {
        1 + holder(ls.drop_first(), b)
    } else {
        0
    }
}

pub open spec fn granted_notes(label: Seq<char>, path: Seq<char>) -> Seq<Seq<char>> {
    seq![
        (if label.len() == 0 {
            "that courier"@
        } else {
            label
        }) + " may drop here, in "@ + path,
        "to send there as well: beb-courier route add <their handover> ssh://<their host>"@,
    ]
}

/// What letting the handover's key in comes to, `existing` being the text of
/// authorized_keys: the line to append, unless some line has the key already.
pub open spec fn granted(
    h: HandoverView,
    beb: Seq<char>,
    data_home: Option<Seq<char>>,
    existing: Seq<char>,
    path: Seq<char>,
) -> Result<ReportView, FailView> {
    match forced_command(beb, data_home) {
        Err(f) => Err(f),
        Ok(command) => {
            let line = grant_line(command, h.key);
            let ls = lines(existing);
            let i = holder(ls, blob(h.key)) as int;
            if i >= ls.len() {
                Ok(ReportView { out: line, notes: granted_notes(h.label, path) })
            } else if trim(ls[i]) == line {
                Err(idle(path + " already lets that key drop here, with this command"@))
            } else {
                Err(
                    refusal(
                        "line "@ + decimal((i + 1) as nat) + " of "@ + path
                            + " already has this key, under a different command:\n  "@ + trim(ls[i])
                            + "\nthat line decides what the key may do; fix or remove it first"@,
                    ),
                )
            }
        },
    }
}

/// What authorizing comes to: the line that lets the key in, what is written
/// behind the bytes of authorized_keys, and what is said.
#[verifier::ext_equal]
pub struct GrantView {
    pub line: Seq<char>,
    pub added: Seq<u8>,
    pub notes: Seq<Seq<char>>,
}

#[derive(Debug)]
pub struct Grant {
    pub line: String,
    pub added: Vec<u8>,
    pub notes: Vec<String>,
}

impl View for Grant {
    type V = GrantView;

    open spec fn view(&self) -> GrantView {
        GrantView { line: self.line@, added: self.added@, notes: texts(self.notes@) }
    }
}

pub open spec fn grant_result(r: Result<Grant, Fail>) -> Result<GrantView, FailView> {
    match r {
        Ok(g) => Ok(g@),
        Err(f) => Err(f@),
    }
}

/// What letting the handover's key in comes to, `file` being the bytes of
/// authorized_keys and `existing` their text.
pub open spec fn authorized(
    h: HandoverView,
    beb: Seq<char>,
    data_home: Option<Seq<char>>,
    existing: Seq<char>,
    file: Seq<u8>,
    path: Seq<char>,
) -> Result<GrantView, FailView> {
    match granted(h, beb, data_home, existing, path) {
        Err(f) => Err(f),
        Ok(r) => Ok(
            GrantView {
                line: r.out,
                added: written(file, r.out + seq!['\n']),
                notes: r.notes,
            },
        ),
    }
}

/// One argument of the forced command, safe for the shell sshd hands it to.
pub fn shell_word(s: &str) -> (res: Result<String, Fail>)
    ensures
        match res {
            Ok(w) => quoted(s@) == Ok::<Seq<char>, FailView>(w@),
            Err(f) => quoted(s@) == Err::<Seq<char>, FailView>(f@),
        },
{
    if has_char(s, '\'') || has_char(s, '"') || has_char(s, '\\') || has_char(s, '\n') {
        return Err(
            refused(
                cat2(
                    s,
                    " cannot go in a forced command; a quote or a backslash in the path would end the line early. move it somewhere plainer",
                ),
            ),
        );
    }
    Ok(cat3("'", s, "'"))
}

/// The command that sshd runs for the peer.
pub fn drop_command(beb: &str, data_home: Option<&str>) -> (res: Result<String, Fail>)
    ensures
        match res {
            Ok(c) => forced_command(beb@, slice_opt(data_home)) == Ok::<Seq<char>, FailView>(c@),
            Err(f) => forced_command(beb@, slice_opt(data_home)) == Err::<Seq<char>, FailView>(
                f@,
            ),
        },
{
    let b = match shell_word(beb) {
        Ok(b) => b,
        Err(f) => return Err(f),
    };
    match data_home {
        Some(x) => if x.is_empty() {
            Ok(cat2(b.as_str(), " drop"))
        } else {
            match shell_word(x) {
                Ok(d) => Ok(
                    cat5("env XDG_DATA_HOME=", d.as_str(), " ", b.as_str(), " drop"),
                ),
                Err(f) => Err(f),
            }
        },
        None => Ok(cat2(b.as_str(), " drop")),
    }
}

/// The line that lets the handover's courier drop mail here, unless some line
/// has its key already.
///
/// The line is short because `beb drop` decides nothing about the caller: it
/// installs a frame for a mailbox that is here and refuses one that is not.
fn grant(
    h: &Handover,
    beb: &str,
    data_home: Option<&str>,
    existing: &str,
    path: &str,
) -> (res: Result<Report, Fail>)
    ensures
        report_result(res) == granted(h@, beb@, slice_opt(data_home), existing@, path@),
{
    let command = match drop_command(beb, data_home) {
        Ok(c) => c,
        Err(f) => return Err(f),
    };
    let key = h.key.as_str();
    let mut line = cat3("command=\"", command.as_str(), "\",restrict ");
    line.append(key);
    let w = split_words(key);
    let b = if w.len() >= 2 {
        w[1]
    } else {
        ""
    };
    proof {
        reveal_strlit("");
        assert(b@ =~= blob(key@));
    }
    let ls = split_lines(existing);
    let ghost all = lines(existing@);
    assert(all.skip(0) =~= all);
    for i in 0..ls.len()
        invariant
            all == lines(existing@),
            all == slices(ls@),
            b@ == blob(h@.key),
            forced_command(beb@, slice_opt(data_home)) == Ok::<Seq<char>, FailView>(command@),
            line@ == grant_line(command@, h@.key),
            holder(all, b@) == i + holder(all.skip(i as int), b@),
    {
        let l = ls[i];
        assert(all.skip(i as int)[0] == l@);
        assert(all[i as int] == l@);
        assert(all.skip(i as int).drop_first() =~= all.skip(i + 1));
        if has_part(l, b) {
            let t = trimmed(l);
            if same(t, line.as_str()) {
                return Err(
                    nothing(
                        cat2(path, " already lets that key drop here, with this command"),
                    ),
                );
            }
            let n = decimal_of(i as u64 + 1);
            return Err(
                refused(
                    cat7(
                        "line ",
                        n.as_str(),
                        " of ",
                        path,
                        " already has this key, under a different command:\n  ",
                        t,
                        "\nthat line decides what the key may do; fix or remove it first",
                    ),
                ),
            );
        }
    }
    assert(all.skip(all.len() as int) =~= Seq::<Seq<char>>::empty());
    let mut notes: Vec<String> = Vec::new();
    let who = if h.label.as_str().is_empty() {
        "that courier"
    } else {
        h.label.as_str()
    };
    notes.push(cat3(who, " may drop here, in ", path));
    notes.push(
        "to send there as well: beb-courier route add <their handover> ssh://<their host>".to_string(),
    );
    assert(texts(notes@) =~= granted_notes(h@.label, path@));
    Ok(Report { out: line, notes })
}

/// What is written to add a line behind `tail`, the bytes there so far,
/// whatever they are.
pub fn append_line(tail: &[u8], line: &str) -> (res: Vec<u8>)
    ensures
        res@ == written(tail@, line@ + seq!['\n']),
{
    proof {
        reveal_strlit("\n");
        assert("\n"@ =~= seq!['\n']);
    }
    append(tail, cat2(line, "\n").as_str())
}

/// The other half of a direct link, and the half this machine owns: letting
/// the handover's courier drop mail here. `file` is the bytes of
/// authorized_keys, and `existing` their text, empty where they are none.
pub fn cmd_authorize(
    h: &Handover,
    beb: &str,
    data_home: Option<&str>,
    existing: &str,
    file: &[u8],
    path: &str,
) -> (res: Result<Grant, Fail>)
    ensures
        grant_result(res) == authorized(
            h@,
            beb@,
            slice_opt(data_home),
            existing@,
            file@,
            path@,
        ),
{
    match grant(h, beb, data_home, existing, path) {
        Ok(r) => {
            let added = append_line(file, r.out.as_str());
            Ok(Grant { line: r.out, added, notes: r.notes })
        },
        Err(f) => Err(f),
    }
}

// ---- authorizing again --------------------------------------------------------

/// No line has `b` in it.
proof fn lemma_holder_none(ls: Seq<Seq<char>>, b: Seq<char>)
    ensures
        holder(ls, b) <= ls.len(),
        holder(ls, b) >= ls.len() <==> forall|i: int|
            0 <= i < ls.len() ==> !contains(#[trigger] ls[i], b),
    decreases ls.len(),
{
    if ls.len() > 0 {
        let d = ls.drop_first();
        lemma_holder_none(d, b);
        if !contains(ls[0], b) {
            if holder(d, b) >= d.len() {
                assert forall|i: int| 0 <= i < ls.len() implies !contains(#[trigger] ls[i], b) by {
                    if i > 0 {
                        assert(ls[i] == d[i - 1]);
                    }
                }
            } else {
                let i = choose|i: int| 0 <= i < d.len() && contains(#[trigger] d[i], b);
                assert(ls[i + 1] == d[i]);
            }
        }
    }
}

proof fn lemma_holder_last(ls: Seq<Seq<char>>, l: Seq<char>, b: Seq<char>)
    requires
        forall|i: int| 0 <= i < ls.len() ==> !contains(#[trigger] ls[i], b),
        contains(l, b),
    ensures
        holder(ls.push(l), b) == ls.len(),
    decreases ls.len(),
{
    let all = ls.push(l);
    if ls.len() > 0 {
        let d = ls.drop_first();
        assert forall|i: int| 0 <= i < d.len() implies !contains(#[trigger] d[i], b) by {
            assert(d[i] == ls[i + 1]);
        }
        lemma_holder_last(d, l, b);
        assert(all[0] == ls[0]);
        assert(all.drop_first() =~= d.push(l));
    } else {
        assert(all[0] == l);
    }
}

/// A text contains itself.
proof fn lemma_contains_itself(s: Seq<char>)
    ensures
        contains(s, s),
{
    assert(s.skip(0) =~= s);
    assert(s.take(s.len() as int) =~= s);
    assert(starts_with(s.skip(0), s));
}

/// A key's line has the key in it.
proof fn lemma_key_has_blob(key: Seq<char>)
    requires
        is_key(key),
    ensures
        contains(key, blob(key)),
{
    lemma_first_word(key);
    let rest = after_word(key);
    lemma_first_word(rest);
    let second = first_word(rest);
    let w = words(key);
    assert(w =~= seq![first_word(key)] + words(rest));
    assert(w[1] == words(rest)[0]);
    assert(words(rest)[0] == second);
    lemma_contains_itself(second);
    let lead = rest.take(rest.len() - crate::text::trim_start(rest).len());
    lemma_contains_within(lead, second, after_word(rest), second);
    let front = key.take(key.len() - crate::text::trim_start(key).len()) + first_word(key);
    lemma_contains_within(front, rest, Seq::empty(), second);
    assert(front + rest + Seq::<char>::empty() =~= key);
}

/// Letting a courier in twice is letting it in once: behind what was written
/// the same handover finds nothing to do. The file then holds `after`.
pub proof fn law_authorizing_again_does_nothing(
    text: Seq<char>,
    name: Seq<char>,
    h: HandoverView,
    beb: Seq<char>,
    data_home: Option<Seq<char>>,
    existing: Seq<char>,
    path: Seq<char>,
    g: GrantView,
)
    requires
        handover_in(text, name) == Ok::<HandoverView, FailView>(h),
        authorized(h, beb, data_home, existing, encode_utf8(existing), path) == Ok::<
            GrantView,
            FailView,
        >(g),
    ensures
        ({
            let after = ended(existing) + g.line + seq!['\n'];
            &&& encode_utf8(existing) + g.added == encode_utf8(after)
            &&& authorized(h, beb, data_home, after, encode_utf8(after), path) == Err::<
                GrantView,
                FailView,
            >(idle(path + " already lets that key drop here, with this command"@))
        }),
{
    let line = g.line;
    let all = ended(existing) + line + seq!['\n'];
    law_adding_to_a_text(existing, line + seq!['\n']);
    assert(ended(existing) + (line + seq!['\n']) =~= all);
    lemma_handover_key(text, name, h);
    let command = forced_command(beb, data_home)->Ok_0;
    let b = blob(h.key);
    let ls = lines(existing);
    lemma_holder_none(ls, b);
    lemma_grant_line(command, beb, data_home, h.key);
    lemma_key_has_blob(h.key);
    lemma_contains_within("command=\""@ + command + "\",restrict "@, h.key, Seq::empty(), b);
    assert("command=\""@ + command + "\",restrict "@ + h.key + Seq::<char>::empty() =~= line);
    lemma_lines_one(line);
    if existing.len() == 0 || existing.last() == '\n' {
        assert(all =~= existing + (line + seq!['\n']));
        lemma_lines_concat(existing, line + seq!['\n']);
        assert(lines(all) =~= ls.push(line));
        lemma_holder_last(ls, line, b);
    } else {
        let e = existing + seq!['\n'];
        assert(all =~= e + (line + seq!['\n']));
        lemma_lines_concat(e, line + seq!['\n']);
        lemma_lines_ended(existing);
        let now = lines(e);
        assert forall|i: int| 0 <= i < now.len() implies !contains(#[trigger] now[i], b) by {
            if i < ls.len() - 1 {
                assert(now[i] == ls[i]);
            } else {
                let l = ls.last();
                assert(l == ls[ls.len() - 1]);
                if contains(chomp(l), b) {
                    let z = if chomp(l) == l {
                        Seq::<char>::empty()
                    } else {
                        seq!['\r']
                    };
                    lemma_contains_within(Seq::empty(), chomp(l), z, b);
                    assert(Seq::<char>::empty() + chomp(l) + z =~= l);
                }
            }
        }
        assert(lines(all) =~= now.push(line));
        lemma_holder_last(now, line, b);
    }
}

/// One quoted argument holds none of what would end the line early.
proof fn lemma_quoted(s: Seq<char>, c: char)
    requires
        !unquotable(s),
        c == '"' || c == '\\' || c == '\n',
    ensures
        !("'"@ + s + "'"@).contains(c),
{
    reveal_strlit("'");
    let q = "'"@ + s + "'"@;
    assert forall|j: int| 0 <= j < q.len() implies #[trigger] q[j] != c by {
        if 0 < j < q.len() - 1 {
            assert(q[j] == s[j - 1]);
            assert(s.contains(s[j - 1]));
        }
    }
}

/// What sshd is told to run is all of the command: no quote, backslash or
/// line feed in it ends the line early.
pub proof fn law_a_forced_command_ends_at_its_quote(
    beb: Seq<char>,
    data_home: Option<Seq<char>>,
    command: Seq<char>,
)
    requires
        forced_command(beb, data_home) == Ok::<Seq<char>, FailView>(command),
    ensures
        !command.contains('"'),
        !command.contains('\\'),
        !command.contains('\n'),
{
    lemma_command_has_no(beb, data_home, command, '"');
    lemma_command_has_no(beb, data_home, command, '\\');
    lemma_command_has_no(beb, data_home, command, '\n');
}

proof fn lemma_command_has_no(
    beb: Seq<char>,
    data_home: Option<Seq<char>>,
    command: Seq<char>,
    c: char,
)
    requires
        forced_command(beb, data_home) == Ok::<Seq<char>, FailView>(command),
        c == '"' || c == '\\' || c == '\n',
    ensures
        !command.contains(c),
{
    reveal_strlit(" drop");
    reveal_strlit("env XDG_DATA_HOME=");
    reveal_strlit(" ");
    let b = "'"@ + beb + "'"@;
    lemma_quoted(beb, c);
    assert forall|i: int| 0 <= i < command.len() implies #[trigger] command[i] != c by {
        if data_home is None || data_home.unwrap().len() == 0 {
            assert(command == b + " drop"@);
            if i < b.len() {
                assert(command[i] == b[i]);
            }
        } else {
            let x = data_home.unwrap();
            let q = "'"@ + x + "'"@;
            lemma_quoted(x, c);
            let n = "env XDG_DATA_HOME="@.len() as int;
            assert(command == "env XDG_DATA_HOME="@ + q + " "@ + b + " drop"@);
            if n <= i < n + q.len() {
                assert(command[i] == q[i - n]);
            } else if n + q.len() + 1 <= i < n + q.len() + 1 + b.len() {
                assert(command[i] == b[i - n - q.len() - 1]);
            }
        }
    }
}

/// The line that lets a key in is one trimmed line.
proof fn lemma_grant_line(
    command: Seq<char>,
    beb: Seq<char>,
    data_home: Option<Seq<char>>,
    key: Seq<char>,
)
    requires
        forced_command(beb, data_home) == Ok::<Seq<char>, FailView>(command),
        is_key(key),
        trim(key) == key,
        !key.contains('\n'),
    ensures
        !grant_line(command, key).contains('\n'),
        chomp(grant_line(command, key)) == grant_line(command, key),
        trim(grant_line(command, key)) == grant_line(command, key),
{
    reveal_strlit("command=\"");
    reveal_strlit("\",restrict ");
    law_a_forced_command_ends_at_its_quote(beb, data_home, command);
    let l = grant_line(command, key);
    let n = "command=\""@.len() as int;
    let m = "\",restrict "@.len() as int;
    assert forall|i: int| 0 <= i < l.len() implies #[trigger] l[i] != '\n' by {
        if n <= i < n + command.len() {
            assert(l[i] == command[i - n]);
        } else if i >= n + command.len() + m {
            assert(l[i] == key[i - n - command.len() - m]);
        }
    }
    lemma_trim_twice(key);
    lemma_first_word(key);
    assert(key.len() > 0);
    assert(l.last() == key.last());
    assert(l[0] == 'c');
    lemma_trim_none(l);
}

// ---- what the line says -----------------------------------------------------------

/// The line that lets a key in, where one is given, runs beb's `drop` and
/// nothing else for that key, with the spool named where `data_home` names
/// one: the command is all that stands between the quotes, beb and the spool
/// each in single quotes, and what follows `restrict` is the handover's key.
pub proof fn law_the_line_names_the_key_the_beb_and_the_spool(
    h: HandoverView,
    beb: Seq<char>,
    data_home: Option<Seq<char>>,
    existing: Seq<char>,
    file: Seq<u8>,
    path: Seq<char>,
    g: GrantView,
)
    requires
        authorized(h, beb, data_home, existing, file, path) == Ok::<GrantView, FailView>(g),
    ensures
        ({
            let spool = match data_home {
                Some(x) => if x.len() > 0 {
                    "env XDG_DATA_HOME='"@ + x + "' "@
                } else {
                    Seq::empty()
                },
                None => Seq::empty(),
            };
            let run = "command=\""@ + spool + "'"@ + beb + "' drop\",restrict "@;
            &&& starts_with(g.line, run)
            &&& g.line.skip(run.len() as int) == h.key
        }),
{
    reveal_strlit("'");
    reveal_strlit(" drop");
    reveal_strlit(" ");
    reveal_strlit("\",restrict ");
    reveal_strlit("' drop\",restrict ");
    reveal_strlit("' ");
    reveal_strlit("env XDG_DATA_HOME=");
    reveal_strlit("env XDG_DATA_HOME='");
    let has = data_home is Some && data_home.unwrap().len() > 0;
    let spool = if has {
        "env XDG_DATA_HOME='"@ + data_home.unwrap() + "' "@
    } else {
        Seq::empty()
    };
    let run = "command=\""@ + spool + "'"@ + beb + "' drop\",restrict "@;
    assert("' drop\",restrict "@ =~= "'"@ + " drop"@ + "\",restrict "@);
    assert("' "@ =~= "'"@ + " "@);
    assert("env XDG_DATA_HOME='"@ =~= "env XDG_DATA_HOME="@ + "'"@);
    if has {
        let x = data_home.unwrap();
        let c = "env XDG_DATA_HOME="@ + ("'"@ + x + "'"@) + " "@ + ("'"@ + beb + "'"@) + " drop"@;
        assert(g.line == "command=\""@ + c + "\",restrict "@ + h.key);
        assert(g.line =~= run + h.key);
    } else {
        let c = "'"@ + beb + "'"@ + " drop"@;
        assert(g.line == "command=\""@ + c + "\",restrict "@ + h.key);
        assert(g.line =~= run + h.key);
    }
    assert((run + h.key).take(run.len() as int) =~= run);
    assert((run + h.key).skip(run.len() as int) =~= h.key);
}

/// A key is let in exactly if beb and the spool can go in a forced command and
/// no line of authorized_keys holds the key itself, which is the second word
/// of the handover's key. Where one holds it there is nothing to do if the
/// first that does is the very line, and it is refused otherwise; a quote, a
/// backslash or a line feed is refused before that.
pub proof fn law_when_a_key_is_let_in(
    h: HandoverView,
    beb: Seq<char>,
    data_home: Option<Seq<char>>,
    existing: Seq<char>,
    file: Seq<u8>,
    path: Seq<char>,
)
    requires
        words(h.key).len() >= 2,
    ensures
        ({
            let r = authorized(h, beb, data_home, existing, file, path);
            let bad = |s: Seq<char>|
                s.contains('\'') || s.contains('"') || s.contains('\\') || s.contains('\n');
            let unfit = bad(beb) || (data_home matches Some(x) && bad(x));
            let held = exists|i: int|
                0 <= i < lines(existing).len() && contains(
                    #[trigger] lines(existing)[i],
                    words(h.key)[1],
                );
            &&& r is Ok <==> !unfit && !held
            &&& unfit ==> r is Err && r->Err_0.code == 3
            &&& !unfit && held ==> r is Err && (r->Err_0.code == 2 || r->Err_0.code == 3)
        }),
{
    lemma_holder_none(lines(existing), words(h.key)[1]);
}

/// The line that stops a key from being let in is the first that holds it:
/// there is nothing to do exactly if that line, trimmed, is a line that names
/// this key under this command, and it is said by its number otherwise.
pub proof fn law_the_first_line_with_the_key_decides(
    h: HandoverView,
    beb: Seq<char>,
    data_home: Option<Seq<char>>,
    existing: Seq<char>,
    other: Seq<char>,
    file: Seq<u8>,
    path: Seq<char>,
    i: int,
    g: GrantView,
)
    requires
        words(h.key).len() >= 2,
        authorized(h, beb, data_home, other, file, path) == Ok::<GrantView, FailView>(g),
        0 <= i < lines(existing).len(),
        contains(lines(existing)[i], words(h.key)[1]),
        forall|j: int|
            0 <= j < i ==> !contains(#[trigger] lines(existing)[j], words(h.key)[1]),
    ensures
        ({
            let r = authorized(h, beb, data_home, existing, file, path);
            &&& r is Err
            &&& r->Err_0.code == 2 <==> trim(lines(existing)[i]) == g.line
            &&& r->Err_0.code != 2 ==> r->Err_0.code == 3 && starts_with(
                r->Err_0.msg,
                "line "@ + decimal((i + 1) as nat) + " of "@ + path,
            )
        }),
{
    let ls = lines(existing);
    let b = words(h.key)[1];
    lemma_holder_at(ls, b, i);
    let head = "line "@ + decimal((i + 1) as nat) + " of "@ + path;
    let z = " already has this key, under a different command:\n  "@ + trim(ls[i])
        + "\nthat line decides what the key may do; fix or remove it first"@;
    let msg = head + " already has this key, under a different command:\n  "@ + trim(ls[i])
        + "\nthat line decides what the key may do; fix or remove it first"@;
    assert(msg =~= head + z);
    assert((head + z).take(head.len() as int) =~= head);
}

proof fn lemma_holder_at(ls: Seq<Seq<char>>, b: Seq<char>, i: int)
    requires
        0 <= i < ls.len(),
        contains(ls[i], b),
        forall|j: int| 0 <= j < i ==> !contains(#[trigger] ls[j], b),
    ensures
        holder(ls, b) == i,
    decreases ls.len(),
{
    if i > 0 {
        let d = ls.drop_first();
        assert forall|j: int| 0 <= j < i - 1 implies !contains(#[trigger] d[j], b) by {
            assert(d[j] == ls[j + 1]);
        }
        lemma_holder_at(d, b, i - 1);
        assert(!contains(ls[0], b));
    }
}

/// Once a key is let in it is said whose it is, by its label where it has one,
/// and in which file.
pub proof fn law_it_is_said_who_may_drop(
    h: HandoverView,
    beb: Seq<char>,
    data_home: Option<Seq<char>>,
    existing: Seq<char>,
    file: Seq<u8>,
    path: Seq<char>,
    g: GrantView,
)
    requires
        authorized(h, beb, data_home, existing, file, path) == Ok::<GrantView, FailView>(g),
    ensures
        g.notes.len() == 2,
        h.label.len() > 0 ==> g.notes[0] == h.label + " may drop here, in "@ + path,
        h.label.len() == 0 ==> g.notes[0] == "that courier"@ + " may drop here, in "@ + path,
        g.added == written(file, g.line.push('\n')),
{
    assert(g.line + seq!['\n'] =~= g.line.push('\n'));
}

/// A path that cannot go in a forced command is the one that is named, beb's
/// before the spool's.
pub proof fn law_the_path_that_does_not_fit_is_named(
    beb: Seq<char>,
    data_home: Option<Seq<char>>,
    f: FailView,
)
    requires
        forced_command(beb, data_home) == Err::<Seq<char>, FailView>(f),
    ensures
        f.code == 3,
        unquotable(beb) ==> starts_with(f.msg, beb),
        !unquotable(beb) ==> data_home is Some && starts_with(f.msg, data_home.unwrap()),
{
    if unquotable(beb) {
        assert(f.msg.take(beb.len() as int) =~= beb);
    } else {
        let x = data_home.unwrap();
        assert(f.msg.take(x.len() as int) =~= x);
    }
}

} // verus!
